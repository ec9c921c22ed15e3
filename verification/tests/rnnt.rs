//! RNN-T beam search on small synthetic encoders.
use parakeet::arithmetic::{length_normalized_score, log_softmax, log_sum_exp, Arithmetic};
use parakeet::decoding::rnnt_beam::{
    has_same_key, merge_hypotheses, prune_beam, seed_hypothesis, select_best, RnntContext, RnntStep,
};
use parakeet::decoding::{decode_rnnt_beam, BeamConfig, RnntHypothesis};
use parakeet::error::Error;
use parakeet::tensor::Tensor3;
use parakeet::Bits;

struct Native;

impl Arithmetic for Native {
    fn sum(&self, a: Bits, b: Bits) -> Bits {
        (f32::from_bits(a) + f32::from_bits(b)).to_bits()
    }
    fn difference(&self, a: Bits, b: Bits) -> Bits {
        (f32::from_bits(a) - f32::from_bits(b)).to_bits()
    }
    fn product(&self, a: Bits, b: Bits) -> Bits {
        (f32::from_bits(a) * f32::from_bits(b)).to_bits()
    }
    fn quotient(&self, a: Bits, b: Bits) -> Bits {
        (f32::from_bits(a) / f32::from_bits(b)).to_bits()
    }
    fn exp(&self, a: Bits) -> Bits {
        f32::from_bits(a).exp().to_bits()
    }
    fn ln(&self, a: Bits) -> Bits {
        f32::from_bits(a).ln().to_bits()
    }
    fn power(&self, base: Bits, exponent: Bits) -> Bits {
        f32::from_bits(base).powf(f32::from_bits(exponent)).to_bits()
    }
    fn from_count(&self, n: usize) -> Bits {
        (n as f32).to_bits()
    }
    fn round_to_count(&self, a: Bits) -> usize {
        f32::from_bits(a).round() as usize
    }
    fn from_digits(&self, digits: &Vec<char>) -> Bits {
        digits.iter().collect::<String>().parse::<f32>().unwrap().to_bits()
    }
}

fn zeros(shape: (usize, usize, usize)) -> Tensor3 {
    Tensor3::zeros(shape)
}

fn tensor(shape: (usize, usize, usize), values: &[f32]) -> Tensor3 {
    let data: Vec<Bits> = values.iter().map(|v| v.to_bits()).collect();
    Tensor3::from_vec(shape, data, "test tensor").unwrap()
}

fn mock_decoder(
    frame: &Tensor3,
    last_token: i32,
    state_1: &Tensor3,
    state_2: &Tensor3,
) -> Result<RnntStep, Error> {
    let blank_id = frame.shape().1;
    let vocab = blank_id + 1;
    let mut logits = vec![-20.0f32; vocab];
    logits[blank_id] = 0.0;
    if f32::from_bits(frame.at(0, 1, 0)) > 0.5 {
        if last_token == 1 {
            logits[blank_id] = 0.0;
        } else {
            logits[blank_id] = -20.0;
            logits[1] = 0.0;
        }
    }
    if f32::from_bits(frame.at(0, 2, 0)) > 0.5 {
        if last_token == 2 {
            logits[blank_id] = 0.0;
        } else {
            logits[blank_id] = -20.0;
            logits[2] = 0.0;
        }
    }
    let logits: Vec<Bits> = logits.iter().map(|v| v.to_bits()).collect();
    Ok((logits, state_1.clone(), state_2.clone()))
}

fn synthetic_encoder(frames: usize, hidden: usize) -> Tensor3 {
    let mut values = vec![0.0f32; hidden * frames];
    if frames > 0 {
        values[frames] = 1.0;
    }
    if frames > 1 {
        values[2 * frames + 1] = 1.0;
    }
    tensor((1, hidden, frames), &values)
}

fn hypothesis(score: f32, frame: usize, tokens: Vec<(usize, usize)>) -> RnntHypothesis {
    RnntHypothesis {
        score: score.to_bits(),
        frame,
        last_token: 0,
        state_1: zeros((1, 1, 1)),
        state_2: zeros((1, 1, 1)),
        symbols_on_frame: 0,
        tokens,
        prev_token_count: 0,
    }
}

fn small_config() -> BeamConfig {
    BeamConfig {
        beam_size: 3,
        length_penalty: 0.0f32.to_bits(),
        patience: 3.5f32.to_bits(),
        max_symbols_per_step: 5,
        duration_reward: 0.67f32.to_bits(),
    }
}

#[test]
fn log_softmax_sums_to_zero_in_log_space() {
    let logits = vec![1.0f32.to_bits(), 2.0f32.to_bits(), 3.0f32.to_bits()];
    let lp = log_softmax(&Native, &logits);
    let sum: f32 = lp.iter().map(|x| f32::from_bits(*x).exp()).sum();
    assert!((sum - 1.0).abs() < 1e-5);
}

#[test]
fn merge_combines_duplicate_paths_with_log_sum_exp() {
    let hyp_a = hypothesis(-1.0, 1, vec![(1, 0)]);
    let hyp_b = hypothesis(-2.0, 1, vec![(1, 0)]);
    let merged = merge_hypotheses(&Native, vec![hyp_a, hyp_b]);
    assert_eq!(merged.len(), 1);
    let expected = log_sum_exp(&Native, (-1.0f32).to_bits(), (-2.0f32).to_bits());
    assert!((f32::from_bits(merged[0].score) - f32::from_bits(expected)).abs() < 1e-5);
}

#[test]
fn length_penalty_favors_shorter_paths_at_equal_per_token_score() {
    let short = hypothesis(-1.0, 0, vec![(1, 0)]);
    let long = hypothesis(-2.0, 0, vec![(1, 0), (2, 1)]);
    let best = select_best(&Native, &vec![short, long], 0.5f32.to_bits()).unwrap();
    assert_eq!(best.tokens.len(), 1);
}

#[test]
fn decode_emits_tokens_and_advances_blank() {
    let enc = synthetic_encoder(2, 4);
    let blank_id = 4;
    let config = small_config();
    let out = decode_rnnt_beam(
        &Native,
        &enc,
        0,
        2,
        0,
        blank_id,
        &config,
        Vec::new(),
        &mock_decoder,
    )
    .unwrap();
    assert_eq!(out.new_tokens, vec![(1, 0), (2, 1)]);
    assert!(!out.hypotheses.is_empty());
    assert_eq!(out.hypotheses[0].frame, 2);
}

#[test]
fn decode_returns_only_new_tokens_on_continuation() {
    let enc = synthetic_encoder(2, 4);
    let blank_id = 4;
    let config = BeamConfig::default_unified();
    let mut seed = hypothesis(-0.5, 1, vec![(1, 0)]);
    seed.last_token = blank_id as i32;
    let out = decode_rnnt_beam(
        &Native,
        &enc,
        1,
        2,
        1,
        blank_id,
        &config,
        vec![seed],
        &mock_decoder,
    )
    .unwrap();
    assert_eq!(out.new_tokens, vec![(2, 1)]);
}

#[test]
fn survivors_all_terminate_at_end_frame() {
    let enc = synthetic_encoder(2, 4);
    let blank_id = 4;
    let config = BeamConfig::default_unified();
    let out = decode_rnnt_beam(
        &Native,
        &enc,
        0,
        2,
        0,
        blank_id,
        &config,
        Vec::new(),
        &mock_decoder,
    )
    .unwrap();
    assert!(!out.hypotheses.is_empty());
    assert!(out.hypotheses.iter().all(|h| h.frame == 2));
}

#[test]
fn multi_chunk_carry_matches_single_pass_transcript() {
    // The same two frames in one pass, and in two passes with the survivors
    // carried from the first into the second.
    let enc = synthetic_encoder(2, 4);
    let blank_id = 4;
    let config = BeamConfig::default_unified();
    let single = decode_rnnt_beam(
        &Native,
        &enc,
        0,
        2,
        0,
        blank_id,
        &config,
        Vec::new(),
        &mock_decoder,
    )
    .unwrap();

    let chunk0 = decode_rnnt_beam(
        &Native,
        &enc,
        0,
        1,
        0,
        blank_id,
        &config,
        Vec::new(),
        &mock_decoder,
    )
    .unwrap();
    let mut carried = chunk0.hypotheses;
    assert!(!carried.is_empty(), "chunk 0 must carry survivors forward");
    for h in &mut carried {
        h.frame = 1;
    }
    let chunk1 = decode_rnnt_beam(
        &Native,
        &enc,
        1,
        2,
        1,
        blank_id,
        &config,
        carried,
        &mock_decoder,
    )
    .unwrap();

    let mut streamed = chunk0.new_tokens.clone();
    streamed.extend(chunk1.new_tokens.clone());
    let ids = |toks: &[(usize, usize)]| toks.iter().map(|(id, _)| *id).collect::<Vec<_>>();
    assert_eq!(ids(&streamed), ids(&single.new_tokens));
    // The survivors are the same, and so is the whole transcript of the best.
    assert_eq!(chunk1.hypotheses.len(), single.hypotheses.len());
    for (a, b) in chunk1.hypotheses.iter().zip(single.hypotheses.iter()) {
        assert_eq!(a.tokens, b.tokens);
        assert_eq!(a.score, b.score);
        assert_eq!(a.last_token, b.last_token);
    }
    assert_eq!(
        chunk1.best_hypothesis.unwrap().tokens,
        single.best_hypothesis.unwrap().tokens
    );
}

#[test]
fn an_empty_range_hands_the_hypotheses_back() {
    let enc = synthetic_encoder(2, 4);
    let config = small_config();
    let carried = vec![hypothesis(-1.0, 5, vec![(1, 0)])];
    let out = decode_rnnt_beam(&Native, &enc, 2, 9, 0, 4, &config, carried, &mock_decoder).unwrap();
    assert!(out.new_tokens.is_empty());
    assert_eq!(out.hypotheses.len(), 1);
    assert_eq!(out.hypotheses[0].frame, 5);
    assert_eq!(out.hypotheses[0].prev_token_count, 0);
    assert!(out.best_hypothesis.is_none());
}

#[test]
fn frames_past_the_encoder_output_are_left_out() {
    let enc = synthetic_encoder(2, 4);
    let config = small_config();
    let whole =
        decode_rnnt_beam(&Native, &enc, 0, 99, 0, 4, &config, Vec::new(), &mock_decoder).unwrap();
    assert_eq!(whole.new_tokens, vec![(1, 0), (2, 1)]);
    assert!(whole.hypotheses.iter().all(|h| h.frame == 2));
}

#[test]
fn tokens_are_stamped_with_absolute_frames() {
    let enc = synthetic_encoder(2, 4);
    let config = small_config();
    let out =
        decode_rnnt_beam(&Native, &enc, 0, 2, 100, 4, &config, Vec::new(), &mock_decoder).unwrap();
    assert_eq!(out.new_tokens, vec![(1, 100), (2, 101)]);
}

#[test]
fn hypotheses_on_other_frames_are_dropped() {
    let enc = synthetic_encoder(2, 4);
    let config = small_config();
    let carried = vec![hypothesis(-0.1, 0, vec![(3, 0)]), hypothesis(-0.5, 1, vec![(1, 0)])];
    let out = decode_rnnt_beam(&Native, &enc, 1, 2, 1, 4, &config, carried, &mock_decoder).unwrap();
    assert!(out.hypotheses.iter().all(|h| h.tokens[0] == (1, 0)));
}

#[test]
fn the_beam_holds_no_more_than_its_size() {
    let enc = synthetic_encoder(2, 4);
    let mut config = small_config();
    for size in 1..4 {
        config.beam_size = size;
        let out = decode_rnnt_beam(
            &Native,
            &enc,
            0,
            2,
            0,
            4,
            &config,
            Vec::new(),
            &mock_decoder,
        )
        .unwrap();
        assert!(out.hypotheses.len() <= size);
        assert!(!out.hypotheses.is_empty());
    }
}

#[test]
fn a_beam_of_size_zero_decodes_nothing() {
    let enc = synthetic_encoder(2, 4);
    let mut config = small_config();
    config.beam_size = 0;
    let out =
        decode_rnnt_beam(&Native, &enc, 0, 2, 0, 4, &config, Vec::new(), &mock_decoder).unwrap();
    assert!(out.hypotheses.is_empty());
    assert!(out.best_hypothesis.is_none());
    assert!(out.new_tokens.is_empty());
}

#[test]
fn a_frame_has_no_more_tokens_than_allowed() {
    // A decoder that never prefers the blank.
    let chatty = |frame: &Tensor3,
                  last_token: i32,
                  s1: &Tensor3,
                  s2: &Tensor3|
     -> Result<RnntStep, Error> {
        assert_eq!(frame.shape(), (1, 4, 1));
        let next = if last_token == 1 { 2 } else { 1 };
        let mut logits = vec![(-30.0f32).to_bits(); 5];
        logits[next] = 0.0f32.to_bits();
        Ok((logits, s1.clone(), s2.clone()))
    };
    let enc = synthetic_encoder(3, 4);
    let mut config = small_config();
    config.beam_size = 1;
    config.max_symbols_per_step = 2;
    let out = decode_rnnt_beam(&Native, &enc, 0, 3, 0, 4, &config, Vec::new(), &chatty).unwrap();
    assert_eq!(
        out.new_tokens,
        vec![(1, 0), (2, 0), (1, 1), (2, 1), (1, 2), (2, 2)]
    );
    config.max_symbols_per_step = 0;
    let out = decode_rnnt_beam(&Native, &enc, 0, 3, 0, 4, &config, Vec::new(), &chatty).unwrap();
    assert!(out.new_tokens.is_empty());
    assert_eq!(out.hypotheses[0].frame, 3);
}

#[test]
fn a_blank_is_never_fed_to_the_decoder_after_a_token() {
    let watching = |frame: &Tensor3,
                    last_token: i32,
                    s1: &Tensor3,
                    s2: &Tensor3|
     -> Result<RnntStep, Error> {
        // On the second frame the only path has emitted token 1 before.
        if f32::from_bits(frame.at(0, 2, 0)) > 0.5 {
            assert!(last_token == 1 || last_token == 2);
        }
        mock_decoder(frame, last_token, s1, s2)
    };
    let enc = synthetic_encoder(2, 4);
    let mut config = small_config();
    config.beam_size = 1;
    let out = decode_rnnt_beam(&Native, &enc, 0, 2, 0, 4, &config, Vec::new(), &watching).unwrap();
    assert_eq!(out.new_tokens, vec![(1, 0), (2, 1)]);
}

#[test]
fn a_decoder_error_ends_the_pass() {
    let failing = |_: &Tensor3, _: i32, _: &Tensor3, _: &Tensor3| -> Result<RnntStep, Error> {
        Err(Error::Runtime("session lost".to_string()))
    };
    let enc = synthetic_encoder(2, 4);
    let config = small_config();
    let r = decode_rnnt_beam(&Native, &enc, 0, 2, 0, 4, &config, Vec::new(), &failing);
    match r {
        Err(Error::Runtime(text)) => assert_eq!(text, "session lost"),
        _ => panic!("an error was expected"),
    }
}

#[test]
fn the_decoder_is_handed_the_frame_of_the_encoder_output() {
    let enc = tensor((1, 2, 3), &[1.0, 2.0, 3.0, 4.0, 5.0, 6.0]);
    let checking = |frame: &Tensor3,
                    _: i32,
                    s1: &Tensor3,
                    s2: &Tensor3|
     -> Result<RnntStep, Error> {
        assert_eq!(frame.shape(), (1, 2, 1));
        let a = f32::from_bits(frame.at(0, 0, 0));
        let b = f32::from_bits(frame.at(0, 1, 0));
        assert_eq!(b, a + 3.0);
        assert_eq!(s1.shape(), (2, 1, 640));
        assert_eq!(s1.at(1, 0, 639), 0);
        Ok((vec![0.0f32.to_bits()], s1.clone(), s2.clone()))
    };
    let config = small_config();
    let out = decode_rnnt_beam(&Native, &enc, 0, 3, 0, 0, &config, Vec::new(), &checking).unwrap();
    assert_eq!(out.hypotheses.len(), 1);
}

#[test]
fn merging_keeps_different_paths_apart() {
    let a = hypothesis(-1.0, 1, vec![(1, 0)]);
    let b = hypothesis(-2.0, 1, vec![(2, 0)]);
    let c = hypothesis(-3.0, 2, vec![(1, 0)]);
    let mut d = hypothesis(-4.0, 1, vec![(1, 0)]);
    d.last_token = 7;
    // The frame stamp of a token is not part of the key.
    let e = hypothesis(-5.0, 1, vec![(1, 9)]);
    assert!(!has_same_key(&a, &b) && !has_same_key(&a, &c) && !has_same_key(&a, &d));
    assert!(has_same_key(&a, &e));
    let merged = merge_hypotheses(&Native, vec![a, b, c, d, e]);
    assert_eq!(merged.len(), 4);
    assert_eq!(merged[0].tokens, vec![(1, 0)]);
}

#[test]
fn pruning_keeps_the_best_in_order() {
    let beam = vec![
        hypothesis(-3.0, 0, vec![]),
        hypothesis(-1.0, 0, vec![]),
        hypothesis(f32::NAN, 0, vec![]),
        hypothesis(-2.0, 0, vec![]),
    ];
    let mut config = small_config();
    config.beam_size = 2;
    let kept = prune_beam(&Native, beam, &config);
    let scores: Vec<f32> = kept.iter().map(|h| f32::from_bits(h.score)).collect();
    assert_eq!(scores, vec![-1.0, -2.0]);
}

#[test]
fn the_last_of_equal_hypotheses_is_best() {
    let beam = vec![hypothesis(-1.0, 0, vec![(1, 0)]), hypothesis(-1.0, 0, vec![(2, 0)])];
    let best = select_best(&Native, &beam, 0.0f32.to_bits()).unwrap();
    assert_eq!(best.tokens, vec![(2, 0)]);
    assert!(select_best(&Native, &Vec::new(), 0).is_none());
}

#[test]
fn a_seed_starts_afresh() {
    let seed = seed_hypothesis(4, 7);
    assert_eq!(seed.frame, 7);
    assert_eq!(seed.last_token, 4);
    assert_eq!(f32::from_bits(seed.score), 0.0);
    assert_eq!(seed.state_1.shape(), (2, 1, 640));
    assert!(seed.tokens.is_empty());
}

#[test]
fn children_are_sorted_for_an_answer_at_hand() {
    let enc = synthetic_encoder(2, 4);
    let context = RnntContext {
        arithmetic: &Native,
        decoder: &mock_decoder,
        encoder_out: &enc,
        blank_id: 2,
        config: small_config(),
    };
    let hyp = hypothesis(-1.0, 0, vec![(5, 0)]);
    let logits: Vec<Bits> = [0.0f32, -1.0, 1.0].iter().map(|v| v.to_bits()).collect();
    let step = (logits.clone(), tensor((1, 1, 1), &[3.0]), tensor((1, 1, 1), &[4.0]));
    let mut advanced = Vec::new();
    let mut symbols = Vec::new();
    context.place(0, 40, &hyp, &step, &mut advanced, &mut symbols);
    let lp = log_softmax(&Native, &logits);
    assert_eq!(advanced.len(), 1);
    assert_eq!(advanced[0].frame, 1);
    assert_eq!(advanced[0].tokens, vec![(5, 0)]);
    assert_eq!(advanced[0].score, Native.sum(hyp.score, lp[2]));
    assert_eq!(advanced[0].state_1.at(0, 0, 0), 0);
    assert_eq!(symbols.len(), 2);
    assert_eq!(symbols[0].tokens, vec![(5, 0), (0, 40)]);
    assert_eq!(symbols[1].tokens, vec![(5, 0), (1, 40)]);
    assert_eq!(symbols[0].score, Native.sum(hyp.score, lp[0]));
    assert_eq!(symbols[0].last_token, 0);
    assert_eq!(symbols[0].symbols_on_frame, 1);
    assert_eq!(f32::from_bits(symbols[1].state_2.at(0, 0, 0)), 4.0);
}

#[test]
fn scores_are_divided_by_the_length() {
    let r = length_normalized_score(&Native, (-6.0f32).to_bits(), 3, 1.0f32.to_bits());
    assert_eq!(f32::from_bits(r), -2.0);
    let r = length_normalized_score(&Native, (-6.0f32).to_bits(), 0, 1.0f32.to_bits());
    assert_eq!(f32::from_bits(r), -6.0);
}

#[test]
fn negative_infinity_is_neutral_when_probabilities_are_added() {
    let none = f32::NEG_INFINITY.to_bits();
    let some = (-1.5f32).to_bits();
    assert_eq!(log_sum_exp(&Native, none, some), some);
    assert_eq!(log_sum_exp(&Native, some, none), some);
    let half = 0.5f32.ln().to_bits();
    assert!(f32::from_bits(log_sum_exp(&Native, half, half)).abs() < 1e-6);
}

#[test]
fn patience_and_duration_reward_do_not_matter() {
    let enc = synthetic_encoder(2, 4);
    let config = small_config();
    let mut other = config;
    other.patience = 0.0f32.to_bits();
    other.duration_reward = 99.0f32.to_bits();
    let a =
        decode_rnnt_beam(&Native, &enc, 0, 2, 0, 4, &config, Vec::new(), &mock_decoder).unwrap();
    let b = decode_rnnt_beam(&Native, &enc, 0, 2, 0, 4, &other, Vec::new(), &mock_decoder).unwrap();
    assert_eq!(a.new_tokens, b.new_tokens);
    assert_eq!(a.hypotheses.len(), b.hypotheses.len());
    for (x, y) in a.hypotheses.iter().zip(b.hypotheses.iter()) {
        assert_eq!((x.score, &x.tokens), (y.score, &y.tokens));
    }
}

#[test]
fn survivors_continue_what_was_carried_in() {
    let enc = synthetic_encoder(2, 4);
    let config = small_config();
    let mut seed = hypothesis(-0.5, 0, vec![(3, 7), (2, 8)]);
    seed.last_token = 2;
    let out =
        decode_rnnt_beam(&Native, &enc, 0, 2, 20, 4, &config, vec![seed], &mock_decoder).unwrap();
    for h in &out.hypotheses {
        assert_eq!(h.prev_token_count, 2);
        assert_eq!(h.tokens[..2], [(3, 7), (2, 8)]);
        assert!(h.tokens[2..].iter().all(|(id, frame)| *id != 4 && (20..22).contains(frame)));
        if h.tokens.len() > 2 {
            assert_eq!(h.last_token, h.tokens.last().unwrap().0 as i32);
        } else {
            assert_eq!(h.last_token, 2);
        }
    }
    let best = out.best_hypothesis.unwrap();
    assert_eq!(best.tokens[2..], out.new_tokens[..]);
}

#[test]
fn empty_answers_end_the_search_without_a_hypothesis() {
    let silent = |_: &Tensor3, _: i32, s1: &Tensor3, s2: &Tensor3| -> Result<RnntStep, Error> {
        Ok((Vec::new(), s1.clone(), s2.clone()))
    };
    let enc = synthetic_encoder(2, 4);
    let config = small_config();
    let out = decode_rnnt_beam(&Native, &enc, 0, 2, 0, 4, &config, Vec::new(), &silent).unwrap();
    assert!(out.hypotheses.is_empty() && out.new_tokens.is_empty());
    assert!(out.best_hypothesis.is_none());
}

#[test]
fn an_answer_without_a_logit_for_the_blank_will_do_where_none_is_forced_on() {
    // The blank has no logit, and every path leaves the frame before its symbols
    // are used up: there is none to be forced on.
    let silent = |_: &Tensor3, last: i32, s1: &Tensor3, s2: &Tensor3| -> Result<RnntStep, Error> {
        let logits = if last == 9 { vec![0.0f32.to_bits()] } else { Vec::new() };
        Ok((logits, s1.clone(), s2.clone()))
    };
    let enc = synthetic_encoder(2, 4);
    let config = small_config();
    let out = decode_rnnt_beam(&Native, &enc, 0, 1, 0, 9, &config, Vec::new(), &silent).unwrap();
    assert!(out.hypotheses.is_empty());
}

#[test]
fn survivors_are_sorted_and_have_different_keys() {
    let enc = synthetic_encoder(2, 4);
    let mut config = small_config();
    config.beam_size = 4;
    config.length_penalty = 0.5f32.to_bits();
    let out =
        decode_rnnt_beam(&Native, &enc, 0, 2, 0, 4, &config, Vec::new(), &mock_decoder).unwrap();
    let keys: Vec<f32> = out
        .hypotheses
        .iter()
        .map(|h| {
            f32::from_bits(length_normalized_score(
                &Native,
                h.score,
                h.tokens.len(),
                config.length_penalty,
            ))
        })
        .collect();
    assert!(keys.len() > 1);
    assert!(keys.windows(2).all(|w| w[0] >= w[1]));
    for (i, a) in out.hypotheses.iter().enumerate() {
        for b in &out.hypotheses[i + 1..] {
            assert!(!has_same_key(a, b));
        }
    }
}

#[test]
fn without_a_root_there_is_no_survivor() {
    let enc = synthetic_encoder(2, 4);
    let config = small_config();
    let carried = vec![hypothesis(-0.1, 0, vec![(3, 0)])];
    let out = decode_rnnt_beam(&Native, &enc, 1, 2, 1, 4, &config, carried, &mock_decoder).unwrap();
    assert!(out.hypotheses.is_empty());
    assert!(out.best_hypothesis.is_none());
}

#[test]
fn the_same_pass_gives_the_same_result() {
    let enc = synthetic_encoder(2, 4);
    let config = BeamConfig::default_unified();
    let run = |patience: f32| {
        let config = BeamConfig { patience: patience.to_bits(), ..config };
        decode_rnnt_beam(&Native, &enc, 0, 2, 7, 4, &config, Vec::new(), &mock_decoder).unwrap()
    };
    let (a, b) = (run(3.5), run(0.25));
    assert_eq!(a.new_tokens, b.new_tokens);
    assert_eq!(a.hypotheses.len(), b.hypotheses.len());
    for (p, q) in a.hypotheses.iter().zip(b.hypotheses.iter()) {
        assert_eq!((&p.tokens, p.score, p.frame), (&q.tokens, q.score, q.frame));
        assert_eq!(p.prev_token_count, q.prev_token_count);
    }
}

#[test]
fn the_first_refusal_is_the_one_reported() {
    // Every path is refused on the second frame, each with its own text.
    let refusing = |frame: &Tensor3,
                    last: i32,
                    s1: &Tensor3,
                    s2: &Tensor3|
     -> Result<RnntStep, Error> {
        if f32::from_bits(frame.at(0, 2, 0)) > 0.5 {
            Err(Error::Runtime(format!("after {last}")))
        } else {
            mock_decoder(frame, last, s1, s2)
        }
    };
    let enc = synthetic_encoder(2, 4);
    let config = small_config();
    for _ in 0..2 {
        let r = decode_rnnt_beam(&Native, &enc, 0, 2, 0, 4, &config, Vec::new(), &refusing);
        assert_eq!(r.unwrap_err().message(), "after 1");
    }
}

#[test]
fn probabilities_add_up_in_either_order() {
    for (a, b) in [(-1.0f32, -2.5f32), (-0.25, -30.0), (3.0, 3.0), (f32::NEG_INFINITY, -4.0)] {
        assert_eq!(
            log_sum_exp(&Native, a.to_bits(), b.to_bits()),
            log_sum_exp(&Native, b.to_bits(), a.to_bits())
        );
    }
    let sum = log_sum_exp(&Native, 0.25f32.ln().to_bits(), 0.5f32.ln().to_bits());
    assert!((f32::from_bits(sum).exp() - 0.75).abs() < 1e-6);
}

#[test]
fn refusals_do_not_depend_on_patience_and_duration_reward() {
    let refusing = |frame: &Tensor3,
                    last: i32,
                    s1: &Tensor3,
                    s2: &Tensor3|
     -> Result<RnntStep, Error> {
        if f32::from_bits(frame.at(0, 2, 0)) > 0.5 && last == 2 {
            Err(Error::Runtime(format!("refused after {last}")))
        } else {
            mock_decoder(frame, last, s1, s2)
        }
    };
    let enc = synthetic_encoder(2, 4);
    let mut texts: Vec<String> = Vec::new();
    for (patience, reward) in [(3.5f32, 0.67f32), (0.0, 99.0), (f32::NAN, -1.0)] {
        let config = BeamConfig {
            patience: patience.to_bits(),
            duration_reward: reward.to_bits(),
            ..small_config()
        };
        let r = decode_rnnt_beam(&Native, &enc, 0, 2, 0, 4, &config, Vec::new(), &refusing);
        texts.push(r.unwrap_err().message().to_string());
    }
    assert_eq!(texts, vec!["refused after 2"; 3]);
}

#[test]
fn a_pass_makes_a_bounded_number_of_calls_and_emits_known_tokens() {
    let calls = std::cell::Cell::new(0usize);
    let varied = |frame: &Tensor3, last: i32, s1: &Tensor3, s2: &Tensor3| -> Result<RnntStep, Error> {
        calls.set(calls.get() + 1);
        let t = f32::from_bits(frame.at(0, 1, 0)) + last as f32;
        let logits = [t.sin(), t.cos(), 0.4, 0.2, 0.3];
        Ok((logits.iter().map(|v| v.to_bits()).collect(), s1.clone(), s2.clone()))
    };
    let enc = synthetic_encoder(4, 4);
    let config = small_config();
    let mut carried = hypothesis(-0.5, 0, vec![(77, 0)]);
    carried.last_token = 3;
    let out =
        decode_rnnt_beam(&Native, &enc, 0, 4, 0, 4, &config, vec![carried], &varied).unwrap();
    assert!(calls.get() <= 4 * 3 * (5 + 1));
    assert!(!out.hypotheses.is_empty());
    for h in &out.hypotheses {
        assert_eq!(h.tokens[0], (77, 0));
        assert!(h.tokens[1..].iter().all(|t| t.0 < 5));
    }
    assert!(out.new_tokens.iter().all(|t| t.0 < 5));
}

#[test]
fn adding_probabilities_lies_between_the_larger_and_twice_the_larger() {
    for (a, b) in [(0.5f32, 0.25f32), (1.0, 1.0), (1e-6, 0.3), (0.0, 0.7), (1e-30, 1e-38)] {
        let sum = log_sum_exp(&Native, a.ln().to_bits(), b.ln().to_bits());
        let larger = a.max(b).ln();
        assert!(f32::from_bits(sum) >= larger - 1e-4);
        assert!(f32::from_bits(sum) <= larger + 2.0f32.ln() + 1e-4);
    }
}
