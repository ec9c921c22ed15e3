//! What the error rates and the speaker turns of a transcript come to.
use vstd::prelude::*;
use crate::arithmetic;
use crate::arithmetic::Arithmetic;
use crate::arithmetic_laws;
use crate::metrics::distance;
use crate::metrics::transcript;
use crate::metrics::transcript::DiarSegment;
use crate::rounding::near;
use crate::single;
use crate::single::{Bits, ONE, ZERO};
use crate::text;
use crate::text_laws;

verus! {

/// Counts of up to `n` items are exact, and the division of `part` by `whole` is off
/// by no more than the factor `q`.
pub open spec fn divides_within<A: Arithmetic>(
    m: &A,
    amount: spec_fn(Bits) -> real,
    q: real,
    part: usize,
    whole: usize,
) -> bool {
    &&& forall|c: Bits| #[trigger]
        arithmetic::from_count_is(m, part, c) ==> amount(c) == part as real
    &&& forall|c: Bits| #[trigger]
        arithmetic::from_count_is(m, whole, c) ==> amount(c) == whole as real
    &&& forall|a: Bits, b: Bits, d: Bits| #[trigger]
        arithmetic::from_count_is(m, part, a) && #[trigger] arithmetic::from_count_is(m, whole, b)
            && #[trigger] arithmetic::quotient_is(m, a, b, d) ==> near(
            q,
            amount(d) * amount(b),
            amount(a),
        )
}

/// The word error rate, times the number of words to find, is the number of words
/// to insert, remove or replace in order to turn the reference into the transcript.
/// With no words to find it is nothing where none were found, and one otherwise.
pub proof fn law_word_error_rate_counts_word_edits<A: Arithmetic>(
    m: &A,
    amount: spec_fn(Bits) -> real,
    q: real,
    reference: Seq<char>,
    hypothesis: Seq<char>,
    r: Bits,
    edits: usize,
    words: usize,
)
    requires
        transcript::wer_is(m, reference, hypothesis, r),
        words == transcript::normal_words(reference).len(),
        edits == distance::edit_distance(
            transcript::normal_words(reference),
            transcript::normal_words(hypothesis),
            |x: Seq<char>, y: Seq<char>| x == y,
        ),
        divides_within(m, amount, q, edits, words),
    ensures
        words > 0 ==> near(q, amount(r) * (words as real), edits as real),
        words == 0 && transcript::normal_words(hypothesis).len() == 0 ==> r == ZERO,
        words == 0 && transcript::normal_words(hypothesis).len() > 0 ==> r == ONE,
{
    assert(transcript::equal::<Seq<char>>() =~= (|x: Seq<char>, y: Seq<char>| x == y));
    if words > 0 {
        arithmetic_laws::law_ratio_times_whole_is_part(m, amount, q, edits, words, r);
    }
}

/// The character error rate, times the number of characters to find, is the number
/// of characters to insert, remove or replace, in the words of the texts with one
/// space between them.
pub proof fn law_character_error_rate_counts_character_edits<A: Arithmetic>(
    m: &A,
    amount: spec_fn(Bits) -> real,
    q: real,
    reference: Seq<char>,
    hypothesis: Seq<char>,
    r: Bits,
    edits: usize,
    chars: usize,
)
    requires
        transcript::cer_is(m, reference, hypothesis, r),
        chars == text::joined(transcript::normal_words(reference), ' ').len(),
        edits == distance::edit_distance(
            text::joined(transcript::normal_words(reference), ' '),
            text::joined(transcript::normal_words(hypothesis), ' '),
            |x: char, y: char| x == y,
        ),
        divides_within(m, amount, q, edits, chars),
    ensures
        chars > 0 ==> near(q, amount(r) * (chars as real), edits as real),
        chars == 0 && text::joined(transcript::normal_words(hypothesis), ' ').len() == 0 ==> r
            == ZERO,
        chars == 0 && text::joined(transcript::normal_words(hypothesis), ' ').len() > 0 ==> r
            == ONE,
{
    assert(transcript::equal::<char>() =~= (|x: char, y: char| x == y));
    if chars > 0 {
        arithmetic_laws::law_ratio_times_whole_is_part(m, amount, q, edits, chars, r);
    }
}

/// The character parts words: it is white space, or neither a letter nor a digit.
pub open spec fn parts_words(c: char) -> bool {
    text::is_white(c) || !text::is_word_char(c)
}

proof fn lemma_words_read_white_space_alone(x: Seq<char>, y: Seq<char>)
    requires
        x.len() == y.len(),
        forall|i: int|
            0 <= i < x.len() ==> (#[trigger] x[i] == y[i] || text::is_white(x[i])
                && text::is_white(y[i])),
    ensures
        text::words_of(x) == text::words_of(y),
    decreases x.len(),
{
    if x.len() > 0 {
        let a = x.drop_last();
        let b = y.drop_last();
        assert forall|i: int| 0 <= i < a.len() implies (#[trigger] a[i] == b[i] || text::is_white(
            a[i],
        ) && text::is_white(b[i])) by {
            assert(a[i] == x[i] && b[i] == y[i]);
        }
        lemma_words_read_white_space_alone(a, b);
        let last = x.len() - 1;
        assert(x[last] == y[last] || text::is_white(x[last]) && text::is_white(y[last]));
        if x.len() > 1 {
            assert(x[last - 1] == y[last - 1] || text::is_white(x[last - 1]) && text::is_white(
                y[last - 1],
            ));
        }
    }
}

/// Case and punctuation do not count: texts that are the same in lower case, up to
/// which characters part their words, have the same words.
pub proof fn law_case_and_punctuation_do_not_count(a: Seq<char>, b: Seq<char>)
    requires
        text::lowercase(a).len() == text::lowercase(b).len(),
        forall|i: int|
            0 <= i < text::lowercase(a).len() ==> (#[trigger] text::lowercase(a)[i]
                == text::lowercase(b)[i] || parts_words(text::lowercase(a)[i]) && parts_words(
                text::lowercase(b)[i],
            )),
    ensures
        transcript::normal_words(a) == transcript::normal_words(b),
{
    let x = text::lowercase(a);
    let y = text::lowercase(b);
    let plain = |c: char| transcript::plain(c);
    let u = x.map_values(plain);
    let v = y.map_values(plain);
    assert(text::is_white(' '));
    assert forall|i: int| 0 <= i < u.len() implies (#[trigger] u[i] == v[i] || text::is_white(u[i])
        && text::is_white(v[i])) by {
        assert(x[i] == y[i] || parts_words(x[i]) && parts_words(y[i]));
        assert(u[i] == transcript::plain(x[i]));
        assert(v[i] == transcript::plain(y[i]));
    }
    lemma_words_read_white_space_alone(u, v);
}

/// The words of a text in lower case are the words between the characters that part
/// them: letters and digits stay as they are.
pub proof fn law_words_are_what_is_between_the_gaps(raw: Seq<char>)
    requires
        text::lowercase(raw).len() > 0,
        forall|i: int|
            0 <= i < text::lowercase(raw).len() ==> !parts_words(
                #[trigger] text::lowercase(raw)[i],
            ),
    ensures
        transcript::normal_words(raw) == seq![text::lowercase(raw)],
{
    let lower = text::lowercase(raw);
    let cleaned = lower.map_values(|c: char| transcript::plain(c));
    assert forall|i: int| 0 <= i < lower.len() implies #[trigger] cleaned[i] == lower[i] by {
        assert(!parts_words(lower[i]));
    }
    assert(cleaned =~= lower);
    assert forall|i: int| 0 <= i < lower.len() implies !text::is_white(#[trigger] lower[i]) by {
        assert(!parts_words(lower[i]));
    }
    text_laws::law_text_without_white_space_is_a_word(lower);
}

/// Ten multiplied with itself `n` times.
pub open spec fn tens(n: nat) -> nat
    decreases n,
{
    if n == 0 {
        1
    } else {
        10 * tens((n - 1) as nat)
    }
}

/// Digits count ten times the digits behind them: the value of a row of digits is
/// that of its front, times ten for each digit of its end, and that of its end. A
/// single digit counts what it says.
pub proof fn law_digits_count_by_tens(front: Seq<char>, end: Seq<char>, d: char)
    requires
        transcript::all_digits(front),
        transcript::all_digits(end),
        '0' <= d <= '9',
    ensures
        transcript::digits_value(front + end) == transcript::digits_value(front) * tens(end.len())
            + transcript::digits_value(end),
        transcript::digits_value(seq![d]) == d as int - '0' as int,
        transcript::digits_value(Seq::empty()) == 0,
    decreases end.len(),
{
    assert(seq![d].drop_last() =~= Seq::empty());
    assert(transcript::digits_value(seq![d].drop_last()) == 0);
    if end.len() == 0 {
        assert(front + end =~= front);
        let f = transcript::digits_value(front);
        assert(f * 1 == f) by (nonlinear_arith);
    } else {
        let rest = end.drop_last();
        assert forall|i: int| 0 <= i < rest.len() implies '0' <= #[trigger] rest[i] <= '9' by {
            assert(rest[i] == end[i]);
        }
        law_digits_count_by_tens(front, rest, d);
        assert((front + end).drop_last() =~= front + rest);
        assert('0' <= end[end.len() - 1] <= '9');
        let f = transcript::digits_value(front) as int;
        let t = tens(rest.len()) as int;
        let r = transcript::digits_value(rest) as int;
        let last = end.last() as int - '0' as int;
        let whole = front + end;
        assert(whole.last() == end.last());
        assert(transcript::digits_value(whole) == (f * t + r) * 10 + last);
        assert(transcript::digits_value(end) == r * 10 + last);
        assert(tens(end.len()) == 10 * t);
        assert((f * t + r) * 10 == f * (10 * t) + r * 10) by (nonlinear_arith);
        assert(transcript::digits_value(front) * tens(end.len()) == f * (10 * t));
    }
}

/// Speakers are counted from zero: the one with number `n` has the index `n - 1`,
/// however many zeros are written before the number. Without a number, and with one
/// that no count holds, it is the first.
pub proof fn law_speakers_are_counted_from_zero(digits: Seq<char>)
    requires
        transcript::all_digits(digits),
    ensures
        1 <= transcript::digits_value(digits) <= usize::MAX ==> transcript::speaker_index(digits)
            + 1 == transcript::digits_value(digits),
        transcript::digits_value(digits) == 0 ==> transcript::speaker_index(digits) == 0,
        transcript::digits_value(digits) > usize::MAX ==> transcript::speaker_index(digits) == 0,
        transcript::speaker_index(seq!['0'] + digits) == transcript::speaker_index(digits),
{
    let zero = seq!['0'];
    law_digits_count_by_tens(zero, digits, '0');
    assert(transcript::digits_value(zero) == 0);
    assert(0 * tens(digits.len()) == 0);
}

/// The operations that lead from `before` to `r` by the digits `part` are exact.
pub open spec fn counts_exactly<A: Arithmetic>(
    m: &A,
    amount: spec_fn(Bits) -> real,
    before: Bits,
    part: Seq<char>,
) -> bool {
    &&& forall|p: Bits| #[trigger]
        arithmetic::product_is(m, before, transcript::SIXTY, p) ==> amount(p) == amount(before)
            * 60 as real
    &&& forall|d: Bits| #[trigger]
        arithmetic::from_digits_is(m, part, d) ==> amount(d) == transcript::digits_value(
            part,
        ) as real
    &&& forall|p: Bits, d: Bits, s: Bits| #[trigger]
        arithmetic::product_is(m, before, transcript::SIXTY, p)
            && #[trigger] arithmetic::from_digits_is(m, part, d) && #[trigger] arithmetic::sum_is(
            m,
            p,
            d,
            s,
        ) ==> amount(s) == amount(p) + amount(d)
}

/// `r` may be the seconds of a time with the given parts.
pub open spec fn may_be_seconds<A: Arithmetic>(m: &A, parts: Seq<Seq<char>>, r: Bits) -> bool {
    transcript::seconds_are(m, parts, r)
}

/// The operations that count one more part of a time are exact.
pub open spec fn goes_on_exactly<A: Arithmetic>(
    m: &A,
    amount: spec_fn(Bits) -> real,
    parts: Seq<Seq<char>>,
    part: Seq<char>,
) -> bool {
    forall|b: Bits| #[trigger]
        may_be_seconds(m, parts, b) ==> counts_exactly(m, amount, b, part)
}

proof fn lemma_one_more_part<A: Arithmetic>(
    m: &A,
    amount: spec_fn(Bits) -> real,
    parts: Seq<Seq<char>>,
    r: Bits,
) -> (before: Bits)
    requires
        parts.len() > 0,
        transcript::seconds_are(m, parts, r),
        goes_on_exactly(m, amount, parts.drop_last(), parts.last()),
    ensures
        may_be_seconds(m, parts.drop_last(), before),
        amount(r) == amount(before) * 60 as real + transcript::digits_value(
            parts.last(),
        ) as real,
{
    let (before, scaled, last) = choose|before: Bits, scaled: Bits, last: Bits|
        {
            &&& transcript::seconds_are(m, parts.drop_last(), before)
            &&& #[trigger] arithmetic::product_is(m, before, transcript::SIXTY, scaled)
            &&& arithmetic::from_digits_is(m, parts.last(), last)
            &&& #[trigger] arithmetic::sum_is(m, scaled, last, r)
        };
    assert(may_be_seconds(m, parts.drop_last(), before));
    before
}

/// What a time says: `m:s` is sixty seconds for each minute and the seconds, and
/// `h:m:s` is three thousand six hundred for each hour besides.
pub proof fn law_clocks_count_by_sixties<A: Arithmetic>(
    m: &A,
    amount: spec_fn(Bits) -> real,
    hours: Seq<char>,
    minutes: Seq<char>,
    seconds: Seq<char>,
    r: Bits,
)
    requires
        amount(ZERO) == 0 as real,
        goes_on_exactly(m, amount, Seq::empty(), minutes),
        goes_on_exactly(m, amount, seq![minutes], seconds),
        goes_on_exactly(m, amount, Seq::empty(), hours),
        goes_on_exactly(m, amount, seq![hours], minutes),
        goes_on_exactly(m, amount, seq![hours, minutes], seconds),
    ensures
        transcript::seconds_are(m, seq![minutes, seconds], r) ==> amount(r)
            == transcript::digits_value(minutes) as real * 60 as real
            + transcript::digits_value(seconds) as real,
        transcript::seconds_are(m, seq![hours, minutes, seconds], r) ==> amount(r)
            == transcript::digits_value(hours) as real * 3600 as real
            + transcript::digits_value(minutes) as real * 60 as real
            + transcript::digits_value(seconds) as real,
{
    let none = Seq::<Seq<char>>::empty();
    if transcript::seconds_are(m, seq![minutes, seconds], r) {
        let two = seq![minutes, seconds];
        let one = seq![minutes];
        assert(two.drop_last() =~= one && one.drop_last() =~= none);
        let a = lemma_one_more_part(m, amount, two, r);
        let b = lemma_one_more_part(m, amount, one, a);
        assert(b == ZERO);
    }
    if transcript::seconds_are(m, seq![hours, minutes, seconds], r) {
        let three = seq![hours, minutes, seconds];
        let two = seq![hours, minutes];
        let one = seq![hours];
        assert(three.drop_last() =~= two && two.drop_last() =~= one && one.drop_last() =~= none);
        let a = lemma_one_more_part(m, amount, three, r);
        let b = lemma_one_more_part(m, amount, two, a);
        let c = lemma_one_more_part(m, amount, one, b);
        assert(c == ZERO);
    }
}

/// The text is a row of digits, and not empty.
pub open spec fn is_number(part: Seq<char>) -> bool {
    part.len() > 0 && transcript::all_digits(part)
}

proof fn lemma_numbers_hold_no_colon(part: Seq<char>)
    requires
        is_number(part),
    ensures
        !part.contains(':'),
        !text::is_white(part[0]),
        !text::is_white(part.last()),
{
    assert('0' <= part[0] <= '9');
    assert('0' <= part[part.len() - 1] <= '9');
    if part.contains(':') {
        let i = choose|i: int| 0 <= i < part.len() && part[i] == ':';
        assert('0' <= part[i] <= '9');
    }
}

/// A time is numbers with colons between them: two of them make a time, one does
/// not, and a time with a colon and a text behind it is a time exactly where the
/// text is numbers with colons between. White space around it does not matter.
pub proof fn law_times_are_numbers_between_colons(x: Seq<char>, y: Seq<char>, gap: Seq<char>)
    requires
        is_number(x),
        forall|i: int| 0 <= i < gap.len() ==> text::is_white(#[trigger] gap[i]),
    ensures
        is_number(y) ==> transcript::is_clock(x + seq![':'] + y),
        is_number(y) ==> transcript::is_clock(gap + (x + seq![':'] + y) + gap),
        !transcript::is_clock(x),
        !transcript::is_clock(x + seq![':']),
        y.len() > 0 && !text::is_white(y.last()) && transcript::is_clock(x + seq![':'] + y)
            ==> is_number(y) || transcript::is_clock(y),
        y.len() > 0 && !text::is_white(y[0]) && !text::is_white(y.last())
            && transcript::is_clock(y) ==> transcript::is_clock(x + seq![':'] + y),
{
    let none = Seq::<char>::empty();
    lemma_numbers_hold_no_colon(x);
    text_laws::law_text_without_separator_is_one_part(x, ':');
    text_laws::law_trimming_takes_white_space_away(none, x, none);
    assert(none + x + none =~= x);
    assert(transcript::clock_parts(x).len() == 1);
    let open = x + seq![':'];
    assert(open + none =~= open);
    text_laws::law_parts_part_at_separators(x, ':', none);
    assert(!text::is_white(':'));
    assert(open.last() == ':' && open[0] == x[0]);
    text_laws::law_trimming_takes_white_space_away(none, open, none);
    assert(none + open + none =~= open);
    assert(transcript::clock_parts(open)[1].len() == 0);
    if y.len() > 0 && !text::is_white(y.last()) {
        let whole = x + seq![':'] + y;
        assert(whole[0] == x[0] && whole.last() == y.last());
        text_laws::law_parts_part_at_separators(x, ':', y);
        text_laws::law_trimming_takes_white_space_away(none, whole, none);
        assert(none + whole + none =~= whole);
        text_laws::law_trimming_takes_white_space_away(gap, whole, gap);
        let parts = text::parts_between(whole, ':');
        let rest = text::parts_between(y, ':');
        assert(parts =~= seq![x] + rest);
        if is_number(y) {
            lemma_numbers_hold_no_colon(y);
            text_laws::law_text_without_separator_is_one_part(y, ':');
            assert(parts =~= seq![x, y]);
            assert(transcript::is_clock(whole));
        }
        if transcript::is_clock(whole) {
            assert forall|i: int| 0 <= i < rest.len() implies (#[trigger] rest[i]).len() > 0
                && transcript::all_digits(rest[i]) by {
                assert(parts[i + 1] == rest[i]);
            }
            assert(rest.len() > 0);
            assert(is_number(rest[0]));
            if !text::is_white(y[0]) {
                text_laws::law_trimming_takes_white_space_away(none, y, none);
                assert(none + y + none =~= y);
                if rest.len() == 1 {
                    lemma_one_part_is_the_text(y, ':');
                }
            } else {
                lemma_first_part_begins_the_text(y, ':');
                assert(rest[0][0] == y[0]);
                lemma_numbers_hold_no_colon(rest[0]);
            }
        }
        if !text::is_white(y[0]) && transcript::is_clock(y) {
            text_laws::law_trimming_takes_white_space_away(none, y, none);
            assert(none + y + none =~= y);
            assert forall|i: int| 0 <= i < parts.len() implies (#[trigger] parts[i]).len() > 0
                && transcript::all_digits(parts[i]) by {
                if i > 0 {
                    assert(parts[i] == rest[i - 1]);
                }
            }
        }
    }
    if is_number(y) {
        lemma_numbers_hold_no_colon(y);
    }
}

proof fn lemma_one_part_is_the_text(y: Seq<char>, separator: char)
    requires
        text::parts_between(y, separator).len() == 1,
    ensures
        text::parts_between(y, separator)[0] == y,
    decreases y.len(),
{
    if y.len() > 0 {
        let front = y.drop_last();
        lemma_there_are_parts(front, separator);
        if y.last() != separator {
            lemma_one_part_is_the_text(front, separator);
            assert(front.push(y.last()) =~= y);
        }
    } else {
        assert(y =~= Seq::empty());
    }
}

proof fn lemma_there_are_parts(y: Seq<char>, separator: char)
    ensures
        text::parts_between(y, separator).len() > 0,
    decreases y.len(),
{
    if y.len() > 0 {
        lemma_there_are_parts(y.drop_last(), separator);
    }
}

proof fn lemma_first_part_begins_the_text(y: Seq<char>, separator: char)
    requires
        y.len() > 0,
    ensures
        text::parts_between(y, separator).len() > 0,
        text::parts_between(y, separator)[0].len() > 0 ==> text::parts_between(y, separator)[0][0]
            == y[0],
    decreases y.len(),
{
    let front = y.drop_last();
    lemma_there_are_parts(front, separator);
    let rest = text::parts_between(front, separator);
    if front.len() > 0 {
        lemma_first_part_begins_the_text(front, separator);
        if rest.len() == 1 {
            lemma_one_part_is_the_text(front, separator);
        }
    } else {
        assert(front =~= Seq::empty());
        assert(rest[0].len() == 0);
    }
}

/// A header has `Speaker` and a number, and every further word of it is a time: a
/// line of two words that is none stays none with words behind, and one that is stays
/// one exactly as long as times come.
pub proof fn law_headers_go_on_with_times(line: Seq<char>, longer: Seq<char>, word: Seq<char>)
    requires
        text::words_of(longer) == text::words_of(line).push(word),
    ensures
        text::words_of(line).len() >= 2 ==> (transcript::is_header(longer) <==> (
        transcript::is_header(line) && transcript::is_clock(word))),
        text::words_of(line).len() < 2 ==> !transcript::is_header(line),
        text::words_of(line).len() == 2 && transcript::is_header(line) ==> {
            &&& text::words_of(line)[0].len() == 7
            &&& transcript::all_digits(transcript::speaker_number(text::words_of(line)[1]))
        },
{
    let words = text::words_of(line);
    let more = text::words_of(longer);
    reveal_strlit("speaker");
    if words.len() >= 2 {
        assert(more[0] == words[0] && more[1] == words[1]);
        if transcript::is_header(longer) {
            assert forall|i: int| 2 <= i < words.len() implies transcript::is_clock(
                #[trigger] words[i],
            ) by {
                assert(more[i] == words[i]);
            }
            assert(transcript::is_clock(more[words.len() as int]));
        }
        if transcript::is_header(line) && transcript::is_clock(word) {
            assert forall|i: int| 2 <= i < more.len() implies transcript::is_clock(
                #[trigger] more[i],
            ) by {
                if i < words.len() {
                    assert(more[i] == words[i]);
                }
            }
        }
    }
}

/// A line is spoken, marks a turn, or is empty: of the lines of a reference, what is
/// said holds those that are not empty and mark no turn, and the turns hold those
/// that mark one, each in order and none lost.
pub proof fn law_lines_are_spoken_or_mark_a_turn(lines: Seq<Seq<char>>)
    ensures
        transcript::spoken_lines(lines).len() + transcript::turn_lines(lines).len()
            + lines.filter(|line: Seq<char>| line.len() == 0).len() == lines.len(),
        forall|i: int|
            0 <= i < lines.len() && (#[trigger] lines[i]).len() > 0 ==> (
            transcript::spoken_lines(lines).contains(lines[i])
                <==> !transcript::turn_lines(lines).contains(lines[i])),
    decreases lines.len(),
{
    let spoken = |line: Seq<char>| line.len() > 0 && !transcript::marks_turn(line);
    let turns = |line: Seq<char>| transcript::marks_turn(line);
    let empty = |line: Seq<char>| line.len() == 0;
    reveal(Seq::filter);
    if lines.len() > 0 {
        let front = lines.drop_last();
        law_lines_are_spoken_or_mark_a_turn(front);
        assert(lines.last().len() == 0 ==> text::words_of(lines.last()).len() == 0);
    }
    assert forall|i: int| 0 <= i < lines.len() && (#[trigger] lines[i]).len() > 0 implies (
    transcript::spoken_lines(lines).contains(lines[i])
        <==> !transcript::turn_lines(lines).contains(lines[i])) by {
        let s = lines.filter(spoken);
        let t = lines.filter(turns);
        if transcript::marks_turn(lines[i]) {
            lines.lemma_filter_contains(turns, i);
            if s.contains(lines[i]) {
                let k = choose|k: int| 0 <= k < s.len() && s[k] == lines[i];
                lines.lemma_filter_pred(spoken, k);
            }
        } else {
            lines.lemma_filter_contains(spoken, i);
            if t.contains(lines[i]) {
                let k = choose|k: int| 0 <= k < t.len() && t[k] == lines[i];
                lines.lemma_filter_pred(turns, k);
            }
        }
    }
}

/// Turn `k` of the turns is the one that starts at place `i`: it has the speaker and
/// the start of that place, and ends where the next place starts; the last one ends
/// with the audio, but not before it starts.
pub open spec fn is_turn_at(
    turn: DiarSegment,
    starts: Seq<(usize, Bits)>,
    audio_secs: Bits,
    i: int,
) -> bool {
    &&& 0 <= i < starts.len()
    &&& turn.speaker == starts[i].0
    &&& turn.start == starts[i].1
    &&& i + 1 < starts.len() ==> turn.end == starts[i + 1].1
    &&& i + 1 == starts.len() ==> {
        &&& turn.end == audio_secs || turn.end == starts[i].1
        &&& !single::is_nan(audio_secs) && !single::is_nan(starts[i].1) ==> !single::greater(
            audio_secs,
            turn.end,
        ) && !single::greater(starts[i].1, turn.end)
    }
    &&& single::greater(turn.end, turn.start)
}

/// The turns of a reference follow its turn lines: each runs from its start to that
/// of the next line, and one is left out exactly where it would not end after it
/// starts.
pub proof fn law_turns_run_to_the_next(
    starts: Seq<(usize, Bits)>,
    audio_secs: Bits,
    n: nat,
) -> (places: Seq<int>)
    requires
        n <= starts.len(),
    ensures
        places.len() == transcript::turns_of(starts, audio_secs, n).len(),
        forall|k: int|
            0 <= k < places.len() ==> #[trigger] places[k] < n && is_turn_at(
                transcript::turns_of(starts, audio_secs, n)[k],
                starts,
                audio_secs,
                places[k],
            ),
        forall|k: int, l: int|
            0 <= k < l < places.len() ==> #[trigger] places[k] < #[trigger] places[l],
        forall|i: int|
            0 <= i < n && i + 1 < starts.len() && single::greater(
                starts[i + 1].1,
                (#[trigger] starts[i]).1,
            ) ==> places.contains(i),
        n == starts.len() && n > 0 && single::greater(audio_secs, starts[n - 1].1)
            ==> places.contains(n - 1),
    decreases n,
{
    if n == 0 {
        Seq::empty()
    } else {
        let i = n - 1;
        let before = law_turns_run_to_the_next(starts, audio_secs, i as nat);
        let rest = transcript::turns_of(starts, audio_secs, i as nat);
        let turns = transcript::turns_of(starts, audio_secs, n);
        let end = transcript::turn_end(starts, audio_secs, i);
        let places = if single::greater(end, starts[i].1) {
            before.push(i)
        } else {
            before
        };
        assert forall|k: int| 0 <= k < places.len() implies #[trigger] places[k] < n && is_turn_at(
            turns[k],
            starts,
            audio_secs,
            places[k],
        ) by {
            if k < before.len() {
                assert(before[k] < i);
                assert(turns[k] == rest[k]);
                assert(places[k] == before[k]);
            }
        }
        assert forall|k: int, l: int| 0 <= k < l < places.len() implies #[trigger] places[k]
            < #[trigger] places[l] by {
            assert(places[k] == before[k]);
            if l < before.len() {
                assert(places[l] == before[l]);
            } else {
                assert(before[k] < i);
            }
        }
        assert forall|j: int|
            0 <= j < n && j + 1 < starts.len() && single::greater(
                starts[j + 1].1,
                (#[trigger] starts[j]).1,
            ) implies places.contains(j) by {
            if j < i {
                assert(before.contains(j));
                let k = choose|k: int| 0 <= k < before.len() && before[k] == j;
                assert(places[k] == j);
            } else {
                assert(places[places.len() - 1] == i);
            }
        }
        if n == starts.len() && single::greater(audio_secs, starts[i].1) {
            assert(places[places.len() - 1] == i);
        }
        places
    }
}

} // verus!
