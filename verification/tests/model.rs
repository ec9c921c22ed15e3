//! The TDT model around its networks, and the files it is loaded from.
use parakeet::arithmetic::Arithmetic;
use parakeet::decoding::tdt_beam::TdtStep;
use parakeet::decoding::{BeamConfig, DecodingStrategy};
use parakeet::error::Error;
use parakeet::model_tdt::{
    decoder_joint_candidates, encoder_candidates, extract_state, find_decoder_joint, find_encoder,
    run_decoder, split_outputs, DecoderOutputs, ParakeetTDTModel, TDTModelConfig,
};
use parakeet::tensor::{Tensor2, Tensor3};
use parakeet::Bits;

struct Native;

impl Arithmetic for Native {
    fn sum(&self, a: Bits, b: Bits) -> Bits {
        (f32::from_bits(a) + f32::from_bits(b)).to_bits()
    }
    fn difference(&self, a: Bits, b: Bits) -> Bits {
        (f32::from_bits(a) - f32::from_bits(b)).to_bits()
    }
    fn product(&self, a: Bits, b: Bits) -> Bits {
        (f32::from_bits(a) * f32::from_bits(b)).to_bits()
    }
    fn quotient(&self, a: Bits, b: Bits) -> Bits {
        (f32::from_bits(a) / f32::from_bits(b)).to_bits()
    }
    fn exp(&self, a: Bits) -> Bits {
        f32::from_bits(a).exp().to_bits()
    }
    fn ln(&self, a: Bits) -> Bits {
        f32::from_bits(a).ln().to_bits()
    }
    fn power(&self, base: Bits, exponent: Bits) -> Bits {
        f32::from_bits(base).powf(f32::from_bits(exponent)).to_bits()
    }
    fn from_count(&self, n: usize) -> Bits {
        (n as f32).to_bits()
    }
    fn round_to_count(&self, a: Bits) -> usize {
        f32::from_bits(a).round() as usize
    }
    fn from_digits(&self, digits: &Vec<char>) -> Bits {
        digits.iter().collect::<String>().parse::<f32>().unwrap().to_bits()
    }
}

fn bits(values: &[f32]) -> Vec<Bits> {
    values.iter().map(|v| v.to_bits()).collect()
}

fn features() -> Tensor2 {
    // Three time steps of two features.
    Tensor2::from_vec((3, 2), bits(&[0.0, 10.0, 1.0, 11.0, 2.0, 12.0]), "features").unwrap()
}

fn encoder(input: &Tensor3, length: i64) -> Result<(Tensor3, i64), Error> {
    assert_eq!(input.shape(), (1, 2, 3));
    assert_eq!(length, 3);
    for t in 0..3 {
        assert_eq!(f32::from_bits(input.at(0, 0, t)), t as f32);
        assert_eq!(f32::from_bits(input.at(0, 1, t)), 10.0 + t as f32);
    }
    Ok((input.clone(), 2))
}

fn decoder(frame: &Tensor3, _: i32, s1: &Tensor3, s2: &Tensor3) -> Result<TdtStep, Error> {
    let t = f32::from_bits(frame.at(0, 0, 0)) as usize;
    let mut tokens = vec![-20.0f32; 4];
    tokens[t] = 0.0;
    Ok((bits(&tokens), bits(&[-20.0, 0.0, -20.0, -20.0, -20.0]), s1.clone(), s2.clone()))
}

#[test]
fn greedy_decoding_reads_every_frame() {
    let model = ParakeetTDTModel::new(encoder, decoder, TDTModelConfig::new(4));
    let lists = model.forward(&features()).unwrap();
    assert_eq!(lists, (vec![0, 1, 2], vec![0, 1, 2], vec![1, 1, 1]));
    let same = model
        .forward_with_decoding(&Native, &features(), DecodingStrategy::Greedy)
        .unwrap();
    assert_eq!(lists, same);
}

#[test]
fn beam_decoding_reads_the_frames_that_the_encoder_reports() {
    let model = ParakeetTDTModel::new(encoder, decoder, TDTModelConfig::new(4));
    let mut config = BeamConfig::default_tdt();
    config.beam_size = 2;
    let lists = model
        .forward_with_decoding(&Native, &features(), DecodingStrategy::Beam(config))
        .unwrap();
    assert_eq!(lists, (vec![0, 1], vec![0, 1], vec![1, 1]));
}

#[test]
fn the_blank_is_the_last_token() {
    let model = ParakeetTDTModel::new(encoder, decoder, TDTModelConfig::new(3));
    let lists = model.forward(&features()).unwrap();
    assert_eq!(lists.0, vec![0, 1]);
}

#[test]
fn network_errors_are_handed_on() {
    let broken = |_: &Tensor3, _: i64| -> Result<(Tensor3, i64), Error> {
        Err(Error::Runtime("no encoder".to_string()))
    };
    let model = ParakeetTDTModel::new(broken, decoder, TDTModelConfig::new(4));
    assert_eq!(model.forward(&features()).unwrap_err().message(), "no encoder");
    let refusing = |_: &Tensor3, _: i32, _: &Tensor3, _: &Tensor3| -> Result<TdtStep, Error> {
        Err(Error::Runtime("no decoder".to_string()))
    };
    let model = ParakeetTDTModel::new(encoder, refusing, TDTModelConfig::new(4));
    let config = BeamConfig::default_tdt();
    let r = model.forward_with_decoding(&Native, &features(), DecodingStrategy::Beam(config));
    assert_eq!(r.unwrap_err().message(), "no decoder");
}

fn outputs(logits: &[f32]) -> DecoderOutputs {
    DecoderOutputs {
        logits: bits(logits),
        state_1_dims: vec![1, 1, 2],
        state_1: bits(&[1.0, 2.0]),
        state_2_dims: vec![2, 1, 1],
        state_2: bits(&[3.0, 4.0]),
    }
}

#[test]
fn outputs_are_split_at_the_vocabulary() {
    let (tokens, durations, state_1, state_2) =
        split_outputs(outputs(&[1.0, 2.0, 3.0, 4.0, 5.0]), 3).unwrap();
    assert_eq!(tokens, bits(&[1.0, 2.0, 3.0]));
    assert_eq!(durations, bits(&[4.0, 5.0]));
    assert_eq!(state_1.shape(), (1, 1, 2));
    assert_eq!(f32::from_bits(state_1.at(0, 0, 1)), 2.0);
    assert_eq!(state_2.shape(), (2, 1, 1));
    assert_eq!(f32::from_bits(state_2.at(1, 0, 0)), 4.0);
    // Fewer logits than tokens leave none for durations.
    let (tokens, durations, _, _) = split_outputs(outputs(&[1.0]), 3).unwrap();
    assert_eq!((tokens.len(), durations.len()), (1, 0));
}

#[test]
fn states_that_do_not_fit_are_refused_by_name() {
    let mut first = outputs(&[1.0]);
    first.state_1_dims = vec![9, 1, 2];
    first.state_2_dims = vec![9, 1, 2];
    let e = split_outputs(first, 3).unwrap_err();
    assert!(matches!(e, Error::Model(_)));
    assert_eq!(
        e.message(),
        "Failed to reshape output_states_1: ShapeError/OutOfBounds: out of bounds indexing"
    );
    let mut second = outputs(&[1.0]);
    second.state_2_dims = vec![-1, 1, 2];
    let e = split_outputs(second, 3).unwrap_err();
    assert_eq!(
        e.message(),
        "Failed to reshape output_states_2: ShapeError/Overflow: arithmetic overflow"
    );
}

#[test]
fn a_state_is_made_from_its_first_three_axes() {
    let t = extract_state(&vec![1, 2, 2, 7], bits(&[1.0, 2.0, 3.0, 4.0]), "x").unwrap();
    assert_eq!(t.shape(), (1, 2, 2));
    assert_eq!(f32::from_bits(t.at(0, 1, 0)), 3.0);
    let e = extract_state(&vec![1, 2, 3], bits(&[1.0]), "x").unwrap_err();
    assert_eq!(
        e.message(),
        "Failed to reshape x: ShapeError/OutOfBounds: out of bounds indexing"
    );
}

#[test]
fn the_decoder_network_is_called_and_taken_apart() {
    let network = |frame: &Tensor3, token: i32, s1: &Tensor3, s2: &Tensor3| {
        assert_eq!(token, 5);
        assert_eq!(frame.shape(), (1, 1, 1));
        assert_eq!(s1.shape(), s2.shape());
        Ok(outputs(&[1.0, 2.0]))
    };
    let t = Tensor3::zeros((1, 1, 1));
    let step = run_decoder(&network, 1, &t, 5, &t, &t).unwrap();
    assert_eq!(step.0, bits(&[1.0]));
    assert_eq!(step.1, bits(&[2.0]));
    let failing = |_: &Tensor3, _: i32, _: &Tensor3, _: &Tensor3| {
        Err::<DecoderOutputs, Error>(Error::Runtime("gone".to_string()))
    };
    assert_eq!(run_decoder(&failing, 1, &t, 5, &t, &t).unwrap_err().message(), "gone");
}

#[test]
fn the_first_present_encoder_is_taken() {
    assert_eq!(
        encoder_candidates(),
        vec!["encoder-model.onnx", "encoder.onnx", "encoder-model.int8.onnx"]
    );
    let listing = vec!["decoder.onnx".to_string(), "encoder-fp16.onnx".to_string()];
    let find = |present: Vec<bool>, listing: &Vec<String>| find_encoder("models", &present, listing);
    assert_eq!(find(vec![false, true, true], &listing).unwrap(), "encoder.onnx");
    assert_eq!(find(vec![true, true, true], &listing).unwrap(), "encoder-model.onnx");
    assert_eq!(find(vec![false, false, false], &listing).unwrap(), "encoder-fp16.onnx");
    let useless = vec!["encoder.bin".to_string(), "my-encoder.onnx".to_string()];
    match find(vec![false, false, false], &useless) {
        Err(Error::Config(text)) => assert_eq!(text, "No encoder model found in models"),
        _ => panic!("an error was expected"),
    }
}

#[test]
fn the_first_present_decoder_is_taken() {
    assert_eq!(
        decoder_joint_candidates(),
        vec![
            "decoder_joint-model.onnx",
            "decoder_joint-model.int8.onnx",
            "decoder_joint.onnx",
            "decoder-model.onnx",
        ]
    );
    let find = |present: Vec<bool>| find_decoder_joint("/m", &present);
    assert_eq!(find(vec![false, true, false, true]).unwrap(), "decoder_joint-model.int8.onnx");
    assert_eq!(find(vec![false, false, false, true]).unwrap(), "decoder-model.onnx");
    match find(vec![false; 4]) {
        Err(Error::Config(text)) => assert_eq!(text, "No decoder_joint model found in /m"),
        _ => panic!("an error was expected"),
    }
}

#[test]
fn errors_show_their_text() {
    assert_eq!(Error::Config("a".to_string()).message(), "a");
    assert_eq!(Error::Model("b".to_string()).clone().message(), "b");
    assert_eq!(TDTModelConfig::new(8198).vocab_size, 8198);
}

#[test]
fn beam_decoding_is_a_search_over_the_encoding() {
    let model = ParakeetTDTModel::new(encoder, decoder, TDTModelConfig::new(4));
    let config = BeamConfig::default_tdt();
    let (encoder_out, encoder_len) = model.run_encoder(&features()).unwrap();
    let direct = model.beam_decode(&Native, &encoder_out, encoder_len, &config).unwrap();
    let whole = model
        .forward_with_decoding(&Native, &features(), DecodingStrategy::Beam(config))
        .unwrap();
    assert_eq!(direct, whole);
}

#[test]
fn an_encoder_error_leaves_the_decoder_unasked() {
    let broken = |_: &Tensor3, _: i64| -> Result<(Tensor3, i64), Error> {
        Err(Error::Model("no encoding".to_string()))
    };
    let unheard = |_: &Tensor3, _: i32, _: &Tensor3, _: &Tensor3| -> Result<TdtStep, Error> {
        panic!("the decoder is not asked");
    };
    let model = ParakeetTDTModel::new(broken, unheard, TDTModelConfig::new(4));
    for decoding in [DecodingStrategy::Greedy, DecodingStrategy::Beam(BeamConfig::default())] {
        match model.forward_with_decoding(&Native, &features(), decoding) {
            Err(Error::Model(text)) => assert_eq!(text, "no encoding"),
            _ => panic!("an error was expected"),
        }
    }
}
