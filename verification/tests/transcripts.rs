//! Reference transcripts and error rates.
use parakeet::arithmetic::Arithmetic;
use parakeet::metrics::transcript::{is_timestamp, line_is_header, parse_clock};
use parakeet::metrics::{
    cer, levenshtein, normalize_words, parse_reference_turns, reference_text, wer,
};
use parakeet::text::chars_of;
use parakeet::Bits;

struct Native;

impl Arithmetic for Native {
    fn sum(&self, a: Bits, b: Bits) -> Bits {
        (f32::from_bits(a) + f32::from_bits(b)).to_bits()
    }
    fn difference(&self, a: Bits, b: Bits) -> Bits {
        (f32::from_bits(a) - f32::from_bits(b)).to_bits()
    }
    fn product(&self, a: Bits, b: Bits) -> Bits {
        (f32::from_bits(a) * f32::from_bits(b)).to_bits()
    }
    fn quotient(&self, a: Bits, b: Bits) -> Bits {
        (f32::from_bits(a) / f32::from_bits(b)).to_bits()
    }
    fn exp(&self, a: Bits) -> Bits {
        f32::from_bits(a).exp().to_bits()
    }
    fn ln(&self, a: Bits) -> Bits {
        f32::from_bits(a).ln().to_bits()
    }
    fn power(&self, base: Bits, exponent: Bits) -> Bits {
        f32::from_bits(base).powf(f32::from_bits(exponent)).to_bits()
    }
    fn from_count(&self, n: usize) -> Bits {
        (n as f32).to_bits()
    }
    fn round_to_count(&self, a: Bits) -> usize {
        f32::from_bits(a).round() as usize
    }
    fn from_digits(&self, digits: &Vec<char>) -> Bits {
        digits.iter().collect::<String>().parse::<f32>().unwrap().to_bits()
    }
}

fn word_error_rate(reference: &str, hypothesis: &str) -> f32 {
    f32::from_bits(wer(&Native, reference, hypothesis))
}

#[test]
fn parse_reference_turns_uses_next_start_as_end() {
    let raw = "Speaker 1  0:02\nhello\n\nSpeaker 2  0:10\nworld";
    let turns = parse_reference_turns(&Native, raw, 22.0f32.to_bits());
    assert_eq!(turns.len(), 2);
    assert_eq!(turns[0].speaker, 0);
    assert!((f32::from_bits(turns[0].start) - 2.0).abs() < 1e-6);
    assert!((f32::from_bits(turns[0].end) - 10.0).abs() < 1e-6);
    assert!((f32::from_bits(turns[1].end) - 22.0).abs() < 1e-6);
}

#[test]
fn wer_basic() {
    assert_eq!(word_error_rate("the quick brown fox", "the quick brown fox"), 0.0);
    assert!((word_error_rate("the quick brown fox", "the quik brown fox") - 0.25).abs() < 1e-6);
    assert_eq!(word_error_rate("", ""), 0.0);
}

#[test]
fn reference_strips_speaker_headers() {
    let raw = "Speaker 1  0:02\nHello there world.\n\nSpeaker 2  0:10\nGeneral Kenobi.";
    let txt = reference_text(raw);
    assert!(!txt.to_lowercase().contains("speaker 1"));
    assert!(txt.contains("Hello there world."));
    assert!(txt.contains("General Kenobi."));
}

#[test]
fn normalize_drops_punctuation_and_case() {
    assert_eq!(normalize_words("Hello, World!"), vec!["hello", "world"]);
}

#[test]
fn spoken_lines_are_joined_by_a_space() {
    let raw = "  SPEAKER 12: 1:02:03\r\n one \r\n\r\ntwo\nSpeaker one\nSpeaker 3 is here\n";
    assert_eq!(reference_text(raw), "one two Speaker one Speaker 3 is here");
    assert_eq!(reference_text(""), "");
}

#[test]
fn headers_are_told_from_speech() {
    let header = |s: &str| line_is_header(&chars_of(s));
    assert!(header("Speaker 1"));
    assert!(header("speaker 1: 0:02"));
    assert!(header("SPEAKER 22 0:02 1:00:00"));
    assert!(header("Speaker ---"));
    assert!(!header("Speaker"));
    assert!(!header("Speaker A"));
    assert!(!header("Speakers 1"));
    assert!(!header("Speaker 1 said"));
    assert!(!header("Speaker 1 0:"));
    assert!(!header(""));
}

#[test]
fn times_are_parsed_to_seconds() {
    let clock = |s: &str| parse_clock(&Native, &chars_of(s)).map(f32::from_bits);
    assert_eq!(clock("0:02"), Some(2.0));
    assert_eq!(clock("1:02:03"), Some(3723.0));
    assert_eq!(clock(" 2:30 "), Some(150.0));
    assert_eq!(clock("230"), None);
    assert_eq!(clock("2:3a"), None);
    assert_eq!(clock(":30"), None);
    assert!(is_timestamp(&chars_of("10:00")));
    assert!(!is_timestamp(&chars_of("")));
}

#[test]
fn turns_without_length_are_dropped() {
    let raw = "Speaker 2 0:10\na\nSpeaker 1 0:10\nb\nSpeaker 3\nc\nSpeaker 99999999999999999999999 0:20";
    let turns = parse_reference_turns(&Native, raw, 15.0f32.to_bits());
    // The second ends at zero, where the third starts without a time; the third
    // ends at the fourth, which ends no later than it starts.
    assert_eq!(turns.len(), 1);
    assert_eq!(turns[0].speaker, 2);
    assert_eq!(f32::from_bits(turns[0].start), 0.0);
    assert_eq!(f32::from_bits(turns[0].end), 20.0);
    let turns = parse_reference_turns(&Native, "Speaker 0 0:01", 15.0f32.to_bits());
    assert_eq!(turns[0].speaker, 0);
    assert_eq!(f32::from_bits(turns[0].end), 15.0);
}

#[test]
fn edit_distances_are_exact() {
    let letters = |s: &str| s.chars().collect::<Vec<char>>();
    assert_eq!(levenshtein(&letters("kitten"), &letters("sitting")), 3);
    assert_eq!(levenshtein(&letters(""), &letters("abc")), 3);
    assert_eq!(levenshtein(&letters("abc"), &letters("")), 3);
    assert_eq!(levenshtein(&letters("abc"), &letters("abc")), 0);
    assert_eq!(levenshtein(&[1, 2, 3, 4], &[2, 3, 4, 5]), 2);
}

#[test]
fn edit_distances_form_a_metric() {
    let words = ["", "a", "ab", "ba", "abc", "cab", "bca"];
    for a in words {
        for b in words {
            let d = levenshtein(a.as_bytes(), b.as_bytes());
            assert_eq!(d, levenshtein(b.as_bytes(), a.as_bytes()));
            assert_eq!(d == 0, a == b);
            assert!(d <= a.len().max(b.len()));
            for c in words {
                let over = levenshtein(a.as_bytes(), c.as_bytes()) + levenshtein(c.as_bytes(), b.as_bytes());
                assert!(d <= over);
            }
        }
    }
}

#[test]
fn error_rates_of_an_empty_reference() {
    assert_eq!(word_error_rate("", "words"), 1.0);
    assert_eq!(word_error_rate("...", "?!"), 0.0);
    assert_eq!(f32::from_bits(cer(&Native, "", "x")), 1.0);
    assert_eq!(f32::from_bits(cer(&Native, "", "")), 0.0);
}

#[test]
fn character_error_rates_read_normalized_text() {
    assert_eq!(f32::from_bits(cer(&Native, "Hello,  World", "hello world!")), 0.0);
    // One of the eleven characters differs.
    let rate = f32::from_bits(cer(&Native, "hello world", "hellp world"));
    assert_eq!(rate, 1.0 / 11.0);
}

#[test]
fn normalization_reads_letters_beyond_ascii() {
    assert_eq!(normalize_words("\u{c4}RGER\u{a0}im  B\u{fc}ro-42"), vec!["\u{e4}rger", "im", "b\u{fc}ro", "42"]);
    assert!(normalize_words(" -- ").is_empty());
}
