//! Singles by bit pattern, rankings, tensors and text.
use parakeet::ranking::{max_index, top_k_indices};
use parakeet::single::{is_equal, is_greater, larger_of, rank_of, test_nan};
use parakeet::tensor::{Tensor2, Tensor3};
use parakeet::text::{
    chars_of, join, split_at, split_words, string_of, test_prefix, test_suffix, trim,
};
use parakeet::Bits;

const SAMPLES: [f32; 14] = [
    0.0,
    -0.0,
    1.0,
    -1.0,
    1.5,
    -2.5,
    f32::MIN_POSITIVE,
    -f32::MIN_POSITIVE,
    f32::MAX,
    f32::MIN,
    f32::INFINITY,
    f32::NEG_INFINITY,
    f32::NAN,
    1e-42,
];

fn bits(values: &[f32]) -> Vec<Bits> {
    values.iter().map(|v| v.to_bits()).collect()
}

#[test]
fn singles_compare_as_the_machine_compares_them() {
    for a in SAMPLES {
        assert_eq!(test_nan(a.to_bits()), a.is_nan());
        for b in SAMPLES {
            assert_eq!(is_greater(a.to_bits(), b.to_bits()), a > b);
            assert_eq!(is_equal(a.to_bits(), b.to_bits()), a == b);
            let larger = f32::from_bits(larger_of(a.to_bits(), b.to_bits()));
            let expected = a.max(b);
            assert!(larger == expected || (larger.is_nan() && expected.is_nan()));
            if !a.is_nan() && !b.is_nan() {
                assert_eq!(rank_of(a.to_bits()) > rank_of(b.to_bits()), a > b);
                assert_eq!(rank_of(a.to_bits()) == rank_of(b.to_bits()), a == b);
            } else if !a.is_nan() {
                assert!(rank_of(a.to_bits()) > rank_of(b.to_bits()));
            }
        }
    }
    // A NaN with the sign bit set is no number either.
    assert!(test_nan((-f32::NAN).to_bits()));
}

#[test]
fn the_best_positions_come_first() {
    let values = bits(&[0.5, 2.0, f32::NAN, -1.0, 2.0]);
    assert_eq!(top_k_indices(&values, 3), vec![1, 4, 0]);
    assert_eq!(top_k_indices(&values, 99), vec![1, 4, 0, 3, 2]);
    assert!(top_k_indices(&values, 0).is_empty());
    assert!(top_k_indices(&Vec::new(), 3).is_empty());
}

#[test]
fn the_greatest_is_found_as_an_iterator_finds_it() {
    let rows: [&[f32]; 6] = [
        &[1.0, 3.0, 2.0],
        &[3.0, 3.0, 2.0],
        &[0.0, -0.0],
        &[1.0, f32::NAN, 0.5],
        &[f32::NAN, f32::NAN],
        &[],
    ];
    for row in rows {
        let expected = row
            .iter()
            .enumerate()
            .max_by(|(_, a), (_, b)| a.partial_cmp(b).unwrap_or(std::cmp::Ordering::Equal))
            .map(|(i, _)| i);
        assert_eq!(max_index(&bits(row)), expected);
    }
}

#[test]
fn tensors_hold_their_elements_in_row_major_order() {
    let t = Tensor3::from_vec((2, 1, 3), vec![1, 2, 3, 4, 5, 6], "t").unwrap();
    assert_eq!(t.shape(), (2, 1, 3));
    assert_eq!(t.at(0, 0, 2), 3);
    assert_eq!(t.at(1, 0, 0), 4);
    assert_eq!(t.clone().at(1, 0, 2), 6);
    let m = Tensor2::from_vec((2, 3), vec![1, 2, 3, 4, 5, 6], "m").unwrap();
    assert_eq!(m.shape(), (2, 3));
    assert_eq!(m.row_values(1), vec![4, 5, 6]);
    let z = Tensor3::zeros((1, 2, 2));
    assert_eq!(z.shape(), (1, 2, 2));
    assert_eq!(z.at(0, 1, 1), 0);
}

#[test]
fn a_batch_is_the_transposed_matrix() {
    let m = Tensor2::from_vec((2, 3), vec![1, 2, 3, 4, 5, 6], "m").unwrap();
    let t = m.transposed_batch("input").unwrap();
    assert_eq!(t.shape(), (1, 3, 2));
    for i in 0..2 {
        for j in 0..3 {
            assert_eq!(t.at(0, j, i), m.row_values(i)[j]);
        }
    }
    let empty = Tensor2::from_vec((0, 3), vec![], "m").unwrap();
    assert_eq!(empty.transposed_batch("input").unwrap().shape(), (1, 3, 0));
}

#[test]
fn a_frame_is_one_time_step_of_the_first_batch() {
    let t = Tensor3::from_vec((2, 2, 2), vec![1, 2, 3, 4, 5, 6, 7, 8], "t").unwrap();
    let frame = t.frame(1, "frame").unwrap();
    assert_eq!(frame.shape(), (1, 2, 1));
    assert_eq!((frame.at(0, 0, 0), frame.at(0, 1, 0)), (2, 4));
}

#[test]
fn data_that_does_not_fill_a_shape_is_refused() {
    let cases = [
        ((1, 2, 3), "ShapeError/OutOfBounds: out of bounds indexing"),
        ((0, 2, 3), "ShapeError/IncompatibleShape: incompatible shapes"),
        ((1, 1, 1), "ShapeError/IncompatibleShape: incompatible shapes"),
        ((usize::MAX, 2, 2), "ShapeError/Overflow: arithmetic overflow"),
        ((0, usize::MAX, 2), "ShapeError/Overflow: arithmetic overflow"),
    ];
    for (shape, reason) in cases {
        let e = Tensor3::from_vec(shape, vec![1, 2], "state").unwrap_err();
        assert_eq!(e.message(), format!("Failed to reshape state: {reason}"));
    }
    let e = Tensor2::from_vec((2, 2), vec![1], "rows").unwrap_err();
    assert_eq!(
        e.message(),
        "Failed to reshape rows: ShapeError/OutOfBounds: out of bounds indexing"
    );
    let e = Tensor2::from_vec((1, 1), vec![1, 2], "rows").unwrap_err();
    assert_eq!(
        e.message(),
        "Failed to reshape rows: ShapeError/IncompatibleShape: incompatible shapes"
    );
    assert!(Tensor3::from_vec((0, 9, 9), vec![], "none").is_ok());
}

#[test]
fn text_is_cut_as_the_standard_library_cuts_it() {
    for raw in ["", " ", "a", " a b\t\nc ", "\u{3000}x\u{a0}y\r\n", "::a::b", "a:b:"] {
        let chars = chars_of(raw);
        assert_eq!(string_of(&chars), raw);
        assert_eq!(string_of(&trim(&chars)), raw.trim());
        let words: Vec<String> = split_words(&chars).iter().map(string_of).collect();
        assert_eq!(words, raw.split_whitespace().collect::<Vec<_>>());
        let parts: Vec<String> = split_at(&chars, ':').iter().map(string_of).collect();
        assert_eq!(parts, raw.split(':').collect::<Vec<_>>());
        assert_eq!(string_of(&join(&split_words(&chars), '-')), words.join("-"));
    }
    let name = chars_of("encoder.onnx");
    assert!(test_prefix(&name, "encoder") && test_suffix(&name, ".onnx"));
    assert!(!test_prefix(&name, "decoder") && !test_suffix(&name, "encoder.onnx2"));
    assert!(test_prefix(&name, "") && test_suffix(&name, ""));
}

#[test]
fn white_space_parts_words() {
    let white = [
        '\u{9}', '\u{a}', '\u{b}', '\u{c}', '\u{d}', '\u{20}', '\u{85}', '\u{a0}', '\u{1680}',
        '\u{2000}', '\u{2001}', '\u{2002}', '\u{2003}', '\u{2004}', '\u{2005}', '\u{2006}',
        '\u{2007}', '\u{2008}', '\u{2009}', '\u{200a}', '\u{2028}', '\u{2029}', '\u{202f}',
        '\u{205f}', '\u{3000}',
    ];
    let mut found = 0;
    for code in 0..=0x10ffffu32 {
        if let Some(c) = char::from_u32(code) {
            let parts = split_words(&vec!['a', c, 'b']).len() == 2;
            assert_eq!(parts, white.contains(&c));
            found += parts as usize;
        }
    }
    assert_eq!(found, 25);
}
