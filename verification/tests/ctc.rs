//! CTC decoding of small logit matrices.
use parakeet::arithmetic::Arithmetic;
use parakeet::decoding::ctc_beam::{merge_entry, prefix_score, prune_beam, CtcBeamEntry};
use parakeet::decoding::{ctc_collapse, decode_ctc_beam, decode_ctc_greedy, BeamConfig};
use parakeet::tensor::Tensor2;
use parakeet::Bits;

struct Native;

impl Arithmetic for Native {
    fn sum(&self, a: Bits, b: Bits) -> Bits {
        (f32::from_bits(a) + f32::from_bits(b)).to_bits()
    }
    fn difference(&self, a: Bits, b: Bits) -> Bits {
        (f32::from_bits(a) - f32::from_bits(b)).to_bits()
    }
    fn product(&self, a: Bits, b: Bits) -> Bits {
        (f32::from_bits(a) * f32::from_bits(b)).to_bits()
    }
    fn quotient(&self, a: Bits, b: Bits) -> Bits {
        (f32::from_bits(a) / f32::from_bits(b)).to_bits()
    }
    fn exp(&self, a: Bits) -> Bits {
        f32::from_bits(a).exp().to_bits()
    }
    fn ln(&self, a: Bits) -> Bits {
        f32::from_bits(a).ln().to_bits()
    }
    fn power(&self, base: Bits, exponent: Bits) -> Bits {
        f32::from_bits(base).powf(f32::from_bits(exponent)).to_bits()
    }
    fn from_count(&self, n: usize) -> Bits {
        (n as f32).to_bits()
    }
    fn round_to_count(&self, a: Bits) -> usize {
        f32::from_bits(a).round() as usize
    }
    fn from_digits(&self, digits: &Vec<char>) -> Bits {
        digits.iter().collect::<String>().parse::<f32>().unwrap().to_bits()
    }
}

fn matrix(rows: usize, columns: usize, values: &[f32]) -> Tensor2 {
    let data: Vec<Bits> = values.iter().map(|v| v.to_bits()).collect();
    Tensor2::from_vec((rows, columns), data, "logits").unwrap()
}

fn logits_from_frame_probs(frame_probs: &[&[(usize, f32)]], vocab: usize) -> Tensor2 {
    let t = frame_probs.len();
    let mut logits = vec![-20.0f32; t * vocab];
    for (frame, probs) in frame_probs.iter().enumerate() {
        for &(idx, p) in *probs {
            logits[frame * vocab + idx] = p.ln();
        }
    }
    matrix(t, vocab, &logits)
}

fn small_config() -> BeamConfig {
    BeamConfig {
        beam_size: 3,
        length_penalty: 0.0f32.to_bits(),
        patience: 1.0f32.to_bits(),
        max_symbols_per_step: 10,
        duration_reward: 0.67f32.to_bits(),
    }
}

#[test]
fn collapse_removes_blanks_and_repeats() {
    let collapsed = ctc_collapse(&vec![0, 1, 1, 0, 2, 2, 0], 0);
    assert_eq!(collapsed, vec![1, 2]);
}

#[test]
fn beam_decodes_simple_ab_sequence() {
    // blank=0, a=1, b=2
    let logits = logits_from_frame_probs(
        &[
            &[(0, 0.1), (1, 0.8)],
            &[(0, 0.1), (1, 0.7)],
            &[(0, 0.1), (2, 0.8)],
            &[(0, 0.9)],
        ],
        3,
    );
    let tokens = decode_ctc_beam(&Native, &logits, 0, &small_config());
    assert_eq!(tokens, vec![1, 2]);
}

#[test]
fn beam_matches_greedy_on_clean_path() {
    let logits = logits_from_frame_probs(
        &[
            &[(0, 0.05), (1, 0.9)],
            &[(0, 0.9)],
            &[(0, 0.05), (2, 0.9)],
            &[(0, 0.9)],
        ],
        3,
    );
    assert_eq!(
        decode_ctc_beam(&Native, &logits, 0, &small_config()),
        decode_ctc_greedy(&logits, 0)
    );
}

#[test]
fn a_blank_keeps_equal_labels_apart_in_a_collapse() {
    assert_eq!(ctc_collapse(&vec![1, 0, 1], 0), vec![1, 1]);
    assert_eq!(ctc_collapse(&vec![1, 1, 1], 0), vec![1]);
    assert_eq!(ctc_collapse(&vec![0, 0], 0), Vec::<u32>::new());
    assert_eq!(ctc_collapse(&Vec::new(), 0), Vec::<u32>::new());
    assert_eq!(ctc_collapse(&vec![3, 2, 3], 9), vec![3, 2, 3]);
}

#[test]
fn greedy_takes_the_last_of_equal_labels() {
    let logits = matrix(2, 3, &[0.0, 1.0, 1.0, 5.0, 0.0, 0.0]);
    assert_eq!(decode_ctc_greedy(&logits, 1), vec![2, 0]);
}

#[test]
fn no_frames_decode_to_nothing() {
    let logits = matrix(0, 3, &[]);
    assert!(decode_ctc_beam(&Native, &logits, 7, &small_config()).is_empty());
    assert!(decode_ctc_greedy(&logits, 0).is_empty());
}

#[test]
fn a_beam_of_size_zero_counts_as_one() {
    let logits = logits_from_frame_probs(&[&[(0, 0.1), (1, 0.9)], &[(0, 0.1), (2, 0.9)]], 3);
    let mut config = small_config();
    config.beam_size = 0;
    let none = decode_ctc_beam(&Native, &logits, 0, &config);
    config.beam_size = 1;
    assert_eq!(none, decode_ctc_beam(&Native, &logits, 0, &config));
    assert_eq!(none, vec![1, 2]);
}

#[test]
fn results_have_no_blanks_and_fit_the_frames() {
    // Every frame prefers the same label or the blank.
    let logits = logits_from_frame_probs(
        &[
            &[(0, 0.4), (1, 0.6)],
            &[(0, 0.6), (1, 0.4)],
            &[(0, 0.3), (1, 0.7)],
            &[(0, 0.2), (2, 0.8)],
        ],
        3,
    );
    for size in 1..6 {
        let mut config = small_config();
        config.beam_size = size;
        let tokens = decode_ctc_beam(&Native, &logits, 0, &config);
        assert!(!tokens.contains(&0));
        let equal_neighbours = tokens.windows(2).filter(|w| w[0] == w[1]).count();
        assert!(tokens.len() + equal_neighbours <= 4);
    }
}

#[test]
fn a_repeated_label_keeps_the_probability_of_its_run() {
    // [1] is reached by three paths, of probability 0.433 in all; [2, 1] by one.
    let logits = logits_from_frame_probs(
        &[&[(0, 0.01), (1, 0.60), (2, 0.39)], &[(0, 0.01), (1, 0.70), (2, 0.29)]],
        3,
    );
    assert_eq!(decode_ctc_beam(&Native, &logits, 0, &small_config()), vec![1]);
}

#[test]
fn a_blank_keeps_equal_labels_apart_in_the_beam() {
    let logits = logits_from_frame_probs(
        &[
            &[(0, 0.01), (1, 0.98), (2, 0.01)],
            &[(0, 0.98), (1, 0.01), (2, 0.01)],
            &[(0, 0.01), (1, 0.98), (2, 0.01)],
        ],
        3,
    );
    assert_eq!(decode_ctc_beam(&Native, &logits, 0, &small_config()), vec![1, 1]);
}

/// The total probability of the label paths that collapse to `tokens`.
fn total(probs: &[[f64; 3]], tokens: &[u32]) -> f64 {
    let frames = probs.len() as u32;
    let mut sum = 0.0;
    for code in 0..3usize.pow(frames) {
        let mut rest = code;
        let mut path: Vec<u32> = Vec::new();
        let mut p = 1.0;
        for row in probs {
            path.push((rest % 3) as u32);
            p *= row[rest % 3];
            rest /= 3;
        }
        if ctc_collapse(&path, 0) == tokens {
            sum += p;
        }
    }
    sum
}

#[test]
fn an_unpruned_beam_finds_the_most_probable_tokens() {
    let cases: [[[f64; 3]; 4]; 4] = [
        [[0.2, 0.5, 0.3], [0.3, 0.4, 0.3], [0.5, 0.3, 0.2], [0.1, 0.6, 0.3]],
        [[0.01, 0.6, 0.39], [0.01, 0.7, 0.29], [0.5, 0.25, 0.25], [0.3, 0.3, 0.4]],
        [[0.1, 0.8, 0.1], [0.7, 0.2, 0.1], [0.1, 0.8, 0.1], [0.6, 0.2, 0.2]],
        [[0.34, 0.33, 0.33], [0.34, 0.33, 0.33], [0.2, 0.4, 0.4], [0.9, 0.05, 0.05]],
    ];
    for probs in cases {
        let logits: Vec<f32> = probs.iter().flatten().map(|p| p.ln() as f32).collect();
        let mut config = small_config();
        config.beam_size = 1000;
        let found = decode_ctc_beam(&Native, &matrix(4, 3, &logits), 0, &config);
        let best = total(&probs, &found);
        for code in 0..81usize {
            let mut rest = code;
            let mut path: Vec<u32> = Vec::new();
            for _ in 0..4 {
                path.push((rest % 3) as u32);
                rest /= 3;
            }
            assert!(best + 1e-6 >= total(&probs, &ctc_collapse(&path, 0)));
        }
    }
}

#[test]
fn entries_add_up_by_prefix() {
    let mut entries: Vec<CtcBeamEntry> = Vec::new();
    let half = 0.5f32.ln().to_bits();
    merge_entry(&Native, &mut entries, vec![1], true, half);
    assert_eq!(entries.len(), 1);
    assert_eq!(entries[0].log_pb, half);
    assert_eq!(entries[0].log_pnb, f32::NEG_INFINITY.to_bits());
    merge_entry(&Native, &mut entries, vec![1], false, half);
    merge_entry(&Native, &mut entries, vec![1, 2], false, half);
    assert_eq!(entries.len(), 2);
    assert_eq!(entries[0].log_pnb, half);
    assert!(f32::from_bits(prefix_score(&Native, &entries[0])).abs() < 1e-6);
    merge_entry(&Native, &mut entries, vec![1], true, half);
    assert!(f32::from_bits(entries[0].log_pb).abs() < 1e-6);
    let kept = prune_beam(&Native, &entries, 1);
    assert_eq!(kept.len(), 1);
    assert_eq!(kept[0].prefix, vec![1]);
}

#[test]
fn only_the_beam_size_matters() {
    let logits = logits_from_frame_probs(&[&[(0, 0.3), (1, 0.7)], &[(0, 0.4), (2, 0.6)]], 3);
    let config = small_config();
    let other = BeamConfig {
        beam_size: 3,
        length_penalty: 9.0f32.to_bits(),
        patience: 0.0f32.to_bits(),
        max_symbols_per_step: 0,
        duration_reward: 1.0f32.to_bits(),
    };
    assert_eq!(
        decode_ctc_beam(&Native, &logits, 0, &config),
        decode_ctc_beam(&Native, &logits, 0, &other)
    );
}

#[test]
fn the_same_logits_decode_to_the_same_tokens() {
    let logits = logits_from_frame_probs(
        &[&[(0, 0.3), (1, 0.5), (2, 0.2)], &[(0, 0.4), (1, 0.3), (2, 0.3)]],
        3,
    );
    let first = decode_ctc_beam(&Native, &logits, 0, &small_config());
    assert_eq!(first, decode_ctc_beam(&Native, &logits, 0, &small_config()));
}

#[test]
fn repeats_follow_a_blank_or_lengthen_a_run() {
    // The runs 1, 1 and the blank between them share the probability.
    let certain = logits_from_frame_probs(&[&[(1, 1.0)], &[(1, 1.0)], &[(1, 1.0)]], 3);
    assert_eq!(decode_ctc_beam(&Native, &certain, 0, &small_config()), vec![1]);
    let parted = logits_from_frame_probs(
        &[&[(1, 1.0)], &[(0, 1.0)], &[(1, 1.0)], &[(1, 1.0)], &[(0, 1.0)], &[(1, 1.0)]],
        3,
    );
    let tokens = decode_ctc_beam(&Native, &parted, 0, &small_config());
    assert_eq!(tokens, vec![1, 1, 1]);
    assert_eq!(tokens, decode_ctc_greedy(&parted, 0));
}

#[test]
fn logits_that_are_not_numbers_still_fit_the_frames() {
    let nan = f32::NAN;
    let low = f32::NEG_INFINITY;
    let high = f32::INFINITY;
    let frames: [[f32; 4]; 6] = [
        [nan, nan, nan, nan],
        [low, low, low, low],
        [0.0, high, 0.0, high],
        [high, 0.0, 0.0, high],
        [nan, 0.0, low, high],
        [0.0, 1.0, low, low],
    ];
    for values in frames {
        for size in 1..7 {
            for blank in 0..2 {
                let mut config = small_config();
                config.beam_size = size;
                let tokens = decode_ctc_beam(&Native, &matrix(2, 2, &values), blank, &config);
                let equal_neighbours = tokens.windows(2).filter(|w| w[0] == w[1]).count();
                assert!(tokens.len() + equal_neighbours <= 2);
                assert!(tokens.iter().all(|t| *t != blank as u32 && *t < 2));
            }
        }
    }
    let mut config = small_config();
    config.beam_size = 5;
    let tokens = decode_ctc_beam(&Native, &matrix(2, 2, &[nan; 4]), 0, &config);
    assert!(tokens.is_empty() || tokens == vec![1]);
}

#[test]
fn a_collapse_parts_where_labels_differ() {
    let parts: [&[u32]; 5] = [&[], &[1, 1, 2], &[2, 0, 2], &[0, 3], &[3, 3, 1, 0]];
    for x in parts {
        for y in parts {
            let mut apart = ctc_collapse(&x.to_vec(), 0);
            apart.extend(ctc_collapse(&y.to_vec(), 0));
            let mut with_blank = x.to_vec();
            with_blank.push(0);
            with_blank.extend(y);
            assert_eq!(ctc_collapse(&with_blank, 0), apart);
            if x.last() != y.first() {
                let mut together = x.to_vec();
                together.extend(y);
                assert_eq!(ctc_collapse(&together, 0), apart);
            }
        }
        for i in 0..x.len() {
            let mut doubled = x.to_vec();
            doubled.insert(i, x[i]);
            assert_eq!(ctc_collapse(&doubled, 0), ctc_collapse(&x.to_vec(), 0));
        }
    }
}

#[test]
fn scores_are_the_total_probabilities_of_the_prefixes() {
    // After two frames [1] is reached by 1 1, 1 0 and 0 1, and [1, 1] by no path.
    let probs = [[0.2f64, 0.5, 0.3], [0.6, 0.3, 0.1], [0.25, 0.5, 0.25]];
    let logits: Vec<f32> = probs.iter().flatten().map(|p| p.ln() as f32).collect();
    let mut config = small_config();
    config.beam_size = 1000;
    let found = decode_ctc_beam(&Native, &matrix(3, 3, &logits), 0, &config);
    assert_eq!(found, vec![1]);
    // 1 1 1, 1 1 0, 0 1 1, 0 1 0, 0 0 1, 1 0 0.
    let by_hand = 0.5 * 0.3 * 0.5
        + 0.5 * 0.3 * 0.25
        + 0.2 * 0.3 * 0.5
        + 0.2 * 0.3 * 0.25
        + 0.2 * 0.6 * 0.5
        + 0.5 * 0.6 * 0.25;
    assert!((total(&probs, &[1]) - by_hand).abs() < 1e-12);
    assert!((total(&probs, &[1, 1]) - 0.5 * 0.6 * 0.5).abs() < 1e-12);
}
