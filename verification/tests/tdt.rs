//! TDT decoding, by beam search and greedily, on small synthetic encoders.
use parakeet::arithmetic::{log_sum_exp, scaled_count, weighted_score, Arithmetic};
use parakeet::decoding::tdt_beam::{
    expand_hypothesis, has_same_key, merge_candidate, seed_hypothesis, select_best, TdtContext,
    TdtStep,
};
use parakeet::decoding::tdt_greedy::{GreedyContext, GreedySearch};
use parakeet::decoding::{decode_tdt_beam, BeamConfig, TdtHypothesis, TDT_DURATIONS};
use parakeet::error::Error;
use parakeet::tensor::Tensor3;
use parakeet::Bits;

struct Native;

impl Arithmetic for Native {
    fn sum(&self, a: Bits, b: Bits) -> Bits {
        (f32::from_bits(a) + f32::from_bits(b)).to_bits()
    }
    fn difference(&self, a: Bits, b: Bits) -> Bits {
        (f32::from_bits(a) - f32::from_bits(b)).to_bits()
    }
    fn product(&self, a: Bits, b: Bits) -> Bits {
        (f32::from_bits(a) * f32::from_bits(b)).to_bits()
    }
    fn quotient(&self, a: Bits, b: Bits) -> Bits {
        (f32::from_bits(a) / f32::from_bits(b)).to_bits()
    }
    fn exp(&self, a: Bits) -> Bits {
        f32::from_bits(a).exp().to_bits()
    }
    fn ln(&self, a: Bits) -> Bits {
        f32::from_bits(a).ln().to_bits()
    }
    fn power(&self, base: Bits, exponent: Bits) -> Bits {
        f32::from_bits(base).powf(f32::from_bits(exponent)).to_bits()
    }
    fn from_count(&self, n: usize) -> Bits {
        (n as f32).to_bits()
    }
    fn round_to_count(&self, a: Bits) -> usize {
        f32::from_bits(a).round() as usize
    }
    fn from_digits(&self, digits: &Vec<char>) -> Bits {
        digits.iter().collect::<String>().parse::<f32>().unwrap().to_bits()
    }
}

fn bits(values: &[f32]) -> Vec<Bits> {
    values.iter().map(|v| v.to_bits()).collect()
}

fn mock_decoder(
    frame: &Tensor3,
    last_token: i32,
    state_1: &Tensor3,
    state_2: &Tensor3,
) -> Result<TdtStep, Error> {
    let step = f32::from_bits(frame.at(0, 0, 0)) as usize;
    let blank_id = 2;
    let vocab_size = 3;
    let mut vocab_logits = vec![-20.0f32; vocab_size];
    vocab_logits[blank_id] = 0.0;
    let mut duration_logits = vec![-20.0f32; 5];
    duration_logits[1] = 0.0;
    if step == 0 {
        vocab_logits[blank_id] = -20.0;
        vocab_logits[0] = 0.0;
    } else if step == 1 {
        if last_token == 1 {
            vocab_logits[blank_id] = 0.0;
        } else {
            vocab_logits[blank_id] = -20.0;
            vocab_logits[1] = 0.0;
        }
    }
    Ok((bits(&vocab_logits), bits(&duration_logits), state_1.clone(), state_2.clone()))
}

fn synthetic_encoder(frames: usize, hidden: usize) -> Tensor3 {
    let mut values = vec![0.0f32; hidden * frames];
    for t in 0..frames {
        values[t] = t as f32;
    }
    Tensor3::from_vec((1, hidden, frames), bits(&values), "encoder").unwrap()
}

fn small_config() -> BeamConfig {
    BeamConfig {
        beam_size: 3,
        length_penalty: 0.0f32.to_bits(),
        patience: 3.5f32.to_bits(),
        max_symbols_per_step: 10,
        duration_reward: 0.67f32.to_bits(),
    }
}

fn hypothesis(score: f32, step: usize, stuck: usize) -> TdtHypothesis {
    TdtHypothesis {
        score: score.to_bits(),
        step,
        last_token: 0,
        state_1: Tensor3::zeros((1, 1, 1)),
        state_2: Tensor3::zeros((1, 1, 1)),
        stuck,
        tokens: vec![(0, 0, 1)],
    }
}

#[test]
fn combined_score_weights_duration_reward() {
    let token_lp = -1.0f32;
    let duration_lp = -2.0f32;
    let reward = 0.67f32;
    let combined = f32::from_bits(weighted_score(
        &Native,
        token_lp.to_bits(),
        duration_lp.to_bits(),
        reward.to_bits(),
    ));
    assert!((combined - (-1.67)).abs() < 1e-5);
}

#[test]
fn merge_combines_duplicate_paths() {
    let hyp_a = hypothesis(-1.0, 1, 0);
    let hyp_b = hypothesis(-2.0, 1, 0);
    let mut candidates = Vec::new();
    merge_candidate(&Native, &mut candidates, hyp_a);
    merge_candidate(&Native, &mut candidates, hyp_b);
    assert_eq!(candidates.len(), 1);
    let expected = log_sum_exp(&Native, (-1.0f32).to_bits(), (-2.0f32).to_bits());
    assert!((f32::from_bits(candidates[0].score) - f32::from_bits(expected)).abs() < 1e-5);
}

#[test]
fn decode_emits_tokens_with_duration_advance() {
    let enc = synthetic_encoder(3, 4);
    let out = decode_tdt_beam(&Native, &enc, 3, 2, 3, &small_config(), &mock_decoder).unwrap();
    assert_eq!(out.tokens, vec![0, 1]);
    assert_eq!(out.frame_indices, vec![0, 1]);
    assert_eq!(out.durations, vec![1, 1]);
}

#[test]
fn patience_scales_finished_candidate_pool() {
    let beam_size = 5usize;
    let low = scaled_count(&Native, beam_size, 1.0f32.to_bits());
    let high = scaled_count(&Native, beam_size, 3.5f32.to_bits());
    assert_eq!(low, 5);
    assert_eq!(high, 18);
    assert!(high > low);
}

#[test]
fn duration_zero_increments_stuck_and_advances_on_max_symbols() {
    let mut hyp = hypothesis(0.0, 0, 9);
    hyp.last_token = 2;
    hyp.tokens = Vec::new();
    // One more than nine reaches the most symbols, ten, so the frame moves on.
    let state = Tensor3::zeros((1, 1, 1));
    let next = expand_hypothesis(&hyp, 0, 0, 0.0f32.to_bits(), &state, &state, 2, 10);
    assert_eq!(next.step, 1);
    assert_eq!(next.stuck, 0);
    // Before that, it stays on the frame and the count goes up.
    hyp.stuck = 3;
    let next = expand_hypothesis(&hyp, 0, 0, 0.0f32.to_bits(), &state, &state, 2, 10);
    assert_eq!(next.step, 0);
    assert_eq!(next.stuck, 4);
}

#[test]
fn a_duration_moves_on_and_clears_the_count() {
    let state = Tensor3::zeros((1, 1, 1));
    let hyp = hypothesis(0.0, 5, 9);
    let next = expand_hypothesis(&hyp, 1, 3, (-1.0f32).to_bits(), &state, &state, 2, 10);
    assert_eq!(next.step, 8);
    assert_eq!(next.stuck, 0);
    assert_eq!(next.last_token, 1);
    assert_eq!(next.tokens, vec![(0, 0, 1), (1, 5, 3)]);
    assert_eq!(f32::from_bits(next.score), -1.0);
    // A blank keeps tokens, input and state.
    let other = Tensor3::from_vec((1, 1, 1), bits(&[7.0]), "state").unwrap();
    let next = expand_hypothesis(&hyp, 2, 1, 0, &other, &other, 2, 10);
    assert_eq!(next.step, 6);
    assert_eq!(next.last_token, 0);
    assert_eq!(next.tokens, vec![(0, 0, 1)]);
    assert_eq!(next.state_1.at(0, 0, 0), 0);
}

#[test]
fn with_no_symbols_allowed_every_expansion_moves_on_by_one() {
    let state = Tensor3::zeros((1, 1, 1));
    let hyp = hypothesis(0.0, 5, 0);
    let next = expand_hypothesis(&hyp, 1, 4, 0, &state, &state, 2, 0);
    assert_eq!(next.step, 6);
    assert_eq!(next.stuck, 0);
}

#[test]
fn the_better_of_two_merged_paths_stays() {
    let mut worse = hypothesis(-2.0, 1, 0);
    worse.tokens = vec![(0, 0, 2)];
    let better = hypothesis(-1.0, 1, 0);
    assert!(has_same_key(&worse, &better));
    let mut candidates = Vec::new();
    merge_candidate(&Native, &mut candidates, worse);
    merge_candidate(&Native, &mut candidates, better);
    assert_eq!(candidates.len(), 1);
    assert_eq!(candidates[0].tokens, vec![(0, 0, 1)]);
    merge_candidate(&Native, &mut candidates, hypothesis(-1.0, 2, 0));
    assert_eq!(candidates.len(), 2);
}

#[test]
fn frames_past_the_reported_length_are_left_out() {
    let enc = synthetic_encoder(3, 4);
    let out = decode_tdt_beam(&Native, &enc, 1, 2, 3, &small_config(), &mock_decoder).unwrap();
    assert_eq!(out.tokens, vec![0]);
    assert_eq!(out.frame_indices, vec![0]);
    let out = decode_tdt_beam(&Native, &enc, 0, 2, 3, &small_config(), &mock_decoder).unwrap();
    assert!(out.tokens.is_empty() && out.frame_indices.is_empty() && out.durations.is_empty());
}

#[test]
fn no_room_for_finished_paths_decodes_nothing() {
    let enc = synthetic_encoder(3, 4);
    let mut config = small_config();
    config.patience = 0.0f32.to_bits();
    let out = decode_tdt_beam(&Native, &enc, 3, 2, 3, &config, &mock_decoder).unwrap();
    assert!(out.tokens.is_empty());
}

#[test]
fn a_search_that_never_moves_on_by_itself_still_ends() {
    // The best duration is always zero and the best token never blank.
    let stuck = |_: &Tensor3, last: i32, s1: &Tensor3, s2: &Tensor3| -> Result<TdtStep, Error> {
        let next = if last == 0 { 1 } else { 0 };
        let mut tokens = vec![-20.0f32; 3];
        tokens[next] = 0.0;
        Ok((bits(&tokens), bits(&[0.0, -20.0, -20.0, -20.0, -20.0]), s1.clone(), s2.clone()))
    };
    let enc = synthetic_encoder(2, 1);
    let mut config = small_config();
    config.beam_size = 1;
    config.max_symbols_per_step = 2;
    let out = decode_tdt_beam(&Native, &enc, 2, 2, 3, &config, &stuck).unwrap();
    assert_eq!(out.frame_indices, vec![0, 0, 1, 1]);
    assert_eq!(out.durations, vec![0, 0, 0, 0]);
    assert_eq!(out.tokens, vec![0, 1, 0, 1]);

    let context = GreedyContext { decoder: &stuck, encoder_out: &enc, blank_id: 2 };
    let out = context.decode().unwrap();
    assert_eq!(out.tokens.len(), 20);
    assert_eq!(out.frame_indices[9], 0);
    assert_eq!(out.frame_indices[10], 1);
}

#[test]
fn beam_output_is_laid_out_in_order() {
    let enc = synthetic_encoder(6, 2);
    let varied = |frame: &Tensor3, last: i32, s1: &Tensor3, s2: &Tensor3| -> Result<TdtStep, Error> {
        let t = f32::from_bits(frame.at(0, 0, 0));
        let tokens = [t.sin(), (t + last as f32).cos(), 0.3, 0.1];
        let durations = [t.cos(), 0.2, (t * 2.0).sin(), 0.1, -0.3];
        Ok((bits(&tokens), bits(&durations), s1.clone(), s2.clone()))
    };
    let mut config = small_config();
    config.max_symbols_per_step = 3;
    let out = decode_tdt_beam(&Native, &enc, 6, 3, 4, &config, &varied).unwrap();
    assert_eq!(out.tokens.len(), out.frame_indices.len());
    assert_eq!(out.tokens.len(), out.durations.len());
    assert!(out.tokens.iter().all(|t| *t != 3));
    assert!(out.frame_indices.iter().all(|f| *f < 6));
    assert!(out.durations.iter().all(|d| *d <= 4));
    for i in 1..out.tokens.len() {
        assert!(out.frame_indices[i - 1] + out.durations[i - 1] <= out.frame_indices[i]);
    }
}

#[test]
fn a_decoder_error_ends_the_search() {
    let failing = |_: &Tensor3, _: i32, _: &Tensor3, _: &Tensor3| -> Result<TdtStep, Error> {
        Err(Error::Runtime("session lost".to_string()))
    };
    let enc = synthetic_encoder(2, 1);
    match decode_tdt_beam(&Native, &enc, 2, 2, 3, &small_config(), &failing) {
        Err(e) => assert_eq!(e.message(), "session lost"),
        Ok(_) => panic!("an error was expected"),
    }
    let context = GreedyContext { decoder: &failing, encoder_out: &enc, blank_id: 2 };
    assert!(matches!(context.decode(), Err(Error::Runtime(_))));
}

#[test]
fn children_pair_every_token_with_every_duration() {
    let enc = synthetic_encoder(2, 1);
    let mut config = small_config();
    config.beam_size = 2;
    config.duration_reward = 0.5f32.to_bits();
    let context = TdtContext {
        arithmetic: &Native,
        decoder: &mock_decoder,
        encoder_out: &enc,
        time_steps: 2,
        blank_id: 2,
        vocab_size: 3,
        config,
    };
    let state = Tensor3::zeros((1, 1, 1));
    let step: TdtStep =
        (bits(&[3.0, 1.0, 2.0]), bits(&[0.0, 5.0, 4.0, 0.0, 0.0]), state.clone(), state.clone());
    let hyp = seed_hypothesis(2);
    let mut all = Vec::new();
    context.place(&hyp, &step, &mut all);
    assert_eq!(all.len(), 4);
    assert_eq!(all[0].tokens, vec![(0, 0, 1)]);
    assert_eq!(all[1].tokens, vec![(0, 0, 2)]);
    assert!(all[2].tokens.is_empty() && all[3].tokens.is_empty());
    assert_eq!((all[2].step, all[3].step), (1, 2));
    assert!(f32::from_bits(all[0].score) > f32::from_bits(all[3].score));
}

#[test]
fn greedy_follows_tokens_and_durations() {
    let enc = synthetic_encoder(3, 4);
    let context = GreedyContext { decoder: &mock_decoder, encoder_out: &enc, blank_id: 2 };
    let out = context.decode().unwrap();
    assert_eq!(out.tokens, vec![0, 1]);
    assert_eq!(out.frame_indices, vec![0, 1]);
    assert_eq!(out.durations, vec![1, 1]);
}

#[test]
fn greedy_takes_in_one_answer_at_a_time() {
    let state = Tensor3::zeros((1, 1, 1));
    let mut search = GreedySearch::start(2);
    assert_eq!(search.last_token, 2);
    // No logits at all count as a blank without a duration.
    search.take_in((Vec::new(), Vec::new(), state.clone(), state.clone()), 10, 2);
    assert_eq!((search.t, search.emitted), (1, 0));
    assert_eq!(search.state_1.shape(), (2, 1, 640));
    // A token without a duration stays on the frame.
    search.take_in((bits(&[1.0, 0.0, 0.0]), bits(&[1.0, 0.0]), state.clone(), state.clone()), 10, 2);
    assert_eq!((search.t, search.emitted), (1, 1));
    assert_eq!(search.tokens, vec![0]);
    assert_eq!(search.state_1.shape(), (1, 1, 1));
    // A duration past the end stops at the end.
    search.take_in((bits(&[0.0, 9.0, 0.0]), vec![0; 30], state.clone(), state.clone()), 10, 2);
    assert_eq!((search.t, search.emitted), (10, 0));
    assert_eq!(search.tokens, vec![0, 1]);
    assert_eq!(search.frame_indices, vec![1, 1]);
    assert_eq!(search.durations, vec![0, 29]);
}

#[test]
fn durations_are_their_indices() {
    assert_eq!(TDT_DURATIONS, [0, 1, 2, 3, 4]);
}

#[test]
fn the_last_of_equal_candidates_is_best() {
    let a = hypothesis(-1.0, 1, 0);
    let mut b = hypothesis(-1.0, 1, 0);
    b.tokens = vec![(1, 0, 1)];
    let best = select_best(&Native, &vec![a, b], 0).unwrap();
    assert_eq!(best.tokens, vec![(1, 0, 1)]);
}

#[test]
fn without_room_nothing_is_read() {
    let unheard = |_: &Tensor3, _: i32, _: &Tensor3, _: &Tensor3| -> Result<TdtStep, Error> {
        panic!("the decoder is not asked");
    };
    let enc = Tensor3::from_vec((0, 4, 3), Vec::new(), "encoder").unwrap();
    let mut config = small_config();
    config.patience = 0.1f32.to_bits();
    let out = decode_tdt_beam(&Native, &enc, 3, 2, 3, &config, &unheard).unwrap();
    assert!(out.tokens.is_empty() && out.frame_indices.is_empty() && out.durations.is_empty());
}

#[test]
fn the_same_search_gives_the_same_result() {
    let enc = synthetic_encoder(4, 4);
    let run = || decode_tdt_beam(&Native, &enc, 4, 2, 3, &small_config(), &mock_decoder).unwrap();
    let (a, b) = (run(), run());
    assert_eq!(
        (a.tokens, a.frame_indices, a.durations),
        (b.tokens, b.frame_indices, b.durations)
    );
    let context = GreedyContext { decoder: &mock_decoder, encoder_out: &enc, blank_id: 2 };
    let (a, b) = (context.decode().unwrap(), context.decode().unwrap());
    assert_eq!((a.tokens, a.durations), (b.tokens, b.durations));
}

#[test]
fn searches_make_a_bounded_number_of_decoder_calls() {
    let calls = std::cell::Cell::new(0usize);
    // No call moves on by itself.
    let stuck = |_: &Tensor3, last: i32, s1: &Tensor3, s2: &Tensor3| -> Result<TdtStep, Error> {
        calls.set(calls.get() + 1);
        let next = if last == 0 { 1 } else { 0 };
        let mut tokens = vec![-20.0f32; 3];
        tokens[next] = 0.0;
        Ok((bits(&tokens), bits(&[0.0, -20.0, -20.0, -20.0, -20.0]), s1.clone(), s2.clone()))
    };
    let enc = synthetic_encoder(3, 1);
    let context = GreedyContext { decoder: &stuck, encoder_out: &enc, blank_id: 2 };
    context.decode().unwrap();
    assert_eq!(calls.get(), 30);

    for max_symbols in 0..4 {
        let mut config = small_config();
        config.beam_size = 1;
        config.max_symbols_per_step = max_symbols;
        calls.set(0);
        decode_tdt_beam(&Native, &enc, 3, 2, 3, &config, &stuck).unwrap();
        assert_eq!(calls.get(), 3 * max_symbols.max(1));
        config.beam_size = 2;
        calls.set(0);
        decode_tdt_beam(&Native, &enc, 3, 2, 3, &config, &stuck).unwrap();
        assert!(calls.get() <= 2 * 3 * max_symbols.max(1));
    }
    calls.set(0);
    decode_tdt_beam(&Native, &enc, 0, 2, 3, &small_config(), &stuck).unwrap();
    assert_eq!(calls.get(), 0);
}

#[test]
fn tokens_are_below_the_number_of_logits() {
    let enc = synthetic_encoder(5, 2);
    let varied = |frame: &Tensor3, last: i32, s1: &Tensor3, s2: &Tensor3| -> Result<TdtStep, Error> {
        let t = f32::from_bits(frame.at(0, 0, 0));
        let tokens = [t.sin(), (t + last as f32).cos(), 0.3, 0.9 * t.cos()];
        Ok((bits(&tokens), bits(&[0.1, 0.4, t.sin()]), s1.clone(), s2.clone()))
    };
    // The vocabulary is said to be larger than the answers, and the blank outside.
    for blank in [0, 3, 9] {
        let out = decode_tdt_beam(&Native, &enc, 5, blank, 50, &small_config(), &varied).unwrap();
        assert!(out.tokens.iter().all(|t| *t < 4));
        let context = GreedyContext { decoder: &varied, encoder_out: &enc, blank_id: blank };
        let out = context.decode().unwrap();
        assert!(!out.tokens.is_empty());
        assert!(out.tokens.iter().all(|t| *t < 4 && *t != blank));
    }
}
