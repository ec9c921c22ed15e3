//! What every call makes of a reference transcript: its speaker lines, its turns, its
//! text and the rates that a transcript is measured by.

use vstd::prelude::*;
use vstd::std_specs::cmp::PartialEqSpec;

use crate::arithmetic::Arithmetic;
use crate::metrics::distance;
use crate::metrics::transcript;
use crate::metrics::transcript::DiarSegment;
use crate::metrics::transcript_laws;
use crate::rounding::near;
use crate::single::{Bits, ONE, ZERO};
use crate::text;
use crate::text_laws;

verus! {

/// The word is `speaker`, each letter large or small.
pub open spec fn spells_speaker(word: Seq<char>) -> bool {
    &&& word.len() == 7
    &&& word[0] == 's' || word[0] == 'S'
    &&& word[1] == 'p' || word[1] == 'P'
    &&& word[2] == 'e' || word[2] == 'E'
    &&& word[3] == 'a' || word[3] == 'A'
    &&& word[4] == 'k' || word[4] == 'K'
    &&& word[5] == 'e' || word[5] == 'E'
    &&& word[6] == 'r' || word[6] == 'R'
}

/// A line of the word `speaker`, a number and punctuation is a header, and with times
/// behind it stays one. The case of the letters does not matter, nor the punctuation.
pub proof fn law_speaker_lines_are_headers(
    line: &Vec<char>,
    number: Seq<char>,
    punctuation: Seq<char>,
    r: bool,
)
    requires
        call_ensures(transcript::line_is_header, (line,), r),
        text::words_of(line@).len() >= 2,
        text::words_of(line@)[1] == number + punctuation,
        number.len() > 0 ==> text::is_word_char(number.last()),
        forall|i: int|
            0 <= i < punctuation.len() ==> !text::is_word_char(#[trigger] punctuation[i]),
    ensures
        r <==> {
            &&& spells_speaker(text::words_of(line@)[0])
            &&& forall|i: int| 0 <= i < number.len() ==> '0' <= #[trigger] number[i] <= '9'
            &&& forall|i: int|
                2 <= i < text::words_of(line@).len() ==> transcript::is_clock(
                    #[trigger] text::words_of(line@)[i],
                )
        },
        transcript::speaker_number(text::words_of(line@)[1]) == number,
{
    let word = text::words_of(line@)[0];
    lemma_number_of(number, punctuation);
    lemma_speaker(word);
}

proof fn lemma_number_of(number: Seq<char>, punctuation: Seq<char>)
    requires
        number.len() > 0 ==> text::is_word_char(number.last()),
        forall|i: int|
            0 <= i < punctuation.len() ==> !text::is_word_char(#[trigger] punctuation[i]),
    ensures
        transcript::speaker_number(number + punctuation) == number,
{
    let word = number + punctuation;
    let drop = |c: char| !text::is_word_char(c);
    let n = number.len() as int;
    assert forall|i: int| n <= i < word.len() implies drop(#[trigger] word[i]) by {
        assert(word[i] == punctuation[i - n]);
    }
    if n > 0 {
        assert(word[n - 1] == number.last());
    }
    text::lemma_without_end(word, drop, n);
    assert(word.take(n) =~= number);
}

proof fn lemma_speaker(word: Seq<char>)
    ensures
        transcript::says_speaker(word) <==> spells_speaker(word),
{
    reveal_strlit("speaker");
    reveal_strlit("SPEAKER");
    if spells_speaker(word) {
        assert forall|i: int| 0 <= i < word.len() implies #[trigger] word[i] == "speaker"@[i]
            || word[i] == "SPEAKER"@[i] by {
            assert(i == 0 || i == 1 || i == 2 || i == 3 || i == 4 || i == 5 || i == 6);
        }
    }
    if transcript::says_speaker(word) {
        assert(word[0] == 's' || word[0] == 'S');
        assert(word[1] == 'p' || word[1] == 'P');
        assert(word[2] == 'e' || word[2] == 'E');
        assert(word[3] == 'a' || word[3] == 'A');
        assert(word[4] == 'k' || word[4] == 'K');
        assert(word[5] == 'e' || word[5] == 'E');
        assert(word[6] == 'r' || word[6] == 'R');
    }
}

/// A line marks a turn exactly where it is a header and, in lower case, `speaker` and a
/// space stand before all else.
pub proof fn law_turns_are_marked_by_headers(line: &Vec<char>, rest: Seq<char>, r: bool)
    requires
        call_ensures(transcript::line_is_header, (line,), r),
    ensures
        transcript::marks_turn(line@) ==> r,
        text::lowercase(line@) == "speaker "@ + rest ==> (transcript::marks_turn(line@) <==> r),
        transcript::marks_turn(line@) ==> text::lowercase(line@) == "speaker "@ + text::lowercase(
            line@,
        ).skip("speaker "@.len() as int),
{
    text_laws::law_beginnings_and_endings("speaker "@, rest, text::lowercase(line@));
}

/// A line of fewer than two words is no header.
pub proof fn law_short_lines_are_no_headers(line: &Vec<char>, r: bool)
    requires
        call_ensures(transcript::line_is_header, (line,), r),
        text::words_of(line@).len() < 2,
    ensures
        !r,
{
}

/// A text without a colon is no time, and a call says so of every other text exactly
/// where all that is between the colons is digits.
pub proof fn law_times_are_digits_between_colons<A: Arithmetic>(
    m: &A,
    token: &Vec<char>,
    r: bool,
    secs: Option<Bits>,
)
    requires
        call_ensures(transcript::is_timestamp, (token,), r),
        call_ensures(transcript::parse_clock::<A>, (m, token), secs),
    ensures
        r == secs is Some,
        !text::trimmed(token@).contains(':') ==> !r,
        text::trimmed(token@).contains(':') ==> (r <==> forall|i: int|
            0 <= i < text::parts_between(text::trimmed(token@), ':').len()
                ==> transcript_laws::is_number(
                #[trigger] text::parts_between(text::trimmed(token@), ':')[i],
            )),
{
    let t = text::trimmed(token@);
    let parts = text::parts_between(t, ':');
    if !t.contains(':') {
        text_laws::law_text_without_separator_is_one_part(t, ':');
    } else {
        let k = choose|k: int| 0 <= k < t.len() && t[k] == ':';
        let x = t.take(k);
        let y = t.skip(k + 1);
        assert(t =~= x + seq![':'] + y);
        text_laws::law_parts_part_at_separators(x, ':', y);
        text_laws::law_parts_part_at_separators(y, ':', x);
        assert(parts.len() >= 2);
    }
}

/// The turns that a call finds in a reference: each is of a line that marks a turn, in
/// the order of the lines. Its speaker is the one that the line numbers, it starts at
/// the first time of the line, or at nothing without one, and it ends after it starts.
pub proof fn law_turns_are_those_of_their_lines<A: Arithmetic>(
    m: &A,
    raw: &str,
    audio_secs: Bits,
    turns: Vec<DiarSegment>,
) -> (lines: Seq<int>)
    requires
        call_ensures(transcript::parse_reference_turns::<A>, (m, raw, audio_secs), turns),
    ensures
        lines.len() == turns@.len(),
        forall|k: int, l: int|
            0 <= k < l < lines.len() ==> #[trigger] lines[k] < #[trigger] lines[l],
        forall|k: int|
            0 <= k < turns@.len() ==> is_turn_of_line(
                m,
                transcript::turn_lines(transcript::trimmed_lines(raw@)),
                #[trigger] lines[k],
                turns@[k],
            ),
{
    let marked = transcript::turn_lines(transcript::trimmed_lines(raw@));
    let starts = choose|starts: Seq<(usize, Bits)>|
        {
            &&& #[trigger] transcript::turns_start(m, marked, starts)
            &&& turns@ == transcript::turns_of(starts, audio_secs, starts.len())
        };
    let places = transcript_laws::law_turns_run_to_the_next(starts, audio_secs, starts.len());
    assert forall|k: int| 0 <= k < turns@.len() implies is_turn_of_line(
        m,
        marked,
        #[trigger] places[k],
        turns@[k],
    ) by {
        let i = places[k];
        assert(places[k] < starts.len());
        assert(transcript::turn_starts(m, marked[i], starts[i]));
    }
    places
}

/// The turn is of line `i`: the speaker is counted from zero by the number of the
/// line, and the start is the first time of the line.
pub open spec fn is_turn_of_line<A: Arithmetic>(
    m: &A,
    lines: Seq<Seq<char>>,
    i: int,
    turn: DiarSegment,
) -> bool {
    &&& 0 <= i < lines.len()
    &&& turn.speaker == transcript::speaker_index(
        transcript::speaker_number(text::words_of(lines[i])[1]),
    )
    &&& text::words_of(lines[i]).len() == 2 ==> turn.start == 0
    &&& text::words_of(lines[i]).len() > 2 ==> transcript::seconds_are(
        m,
        text::parts_between(text::trimmed(text::words_of(lines[i])[2]), ':'),
        turn.start,
    )
    &&& crate::single::greater(turn.end, turn.start)
}

proof fn lemma_joined_rows(x: Seq<Seq<char>>, y: Seq<Seq<char>>, between: char)
    requires
        x.len() > 0,
        y.len() > 0,
    ensures
        text::joined(x + y, between) == text::joined(x, between) + seq![between] + text::joined(
            y,
            between,
        ),
    decreases y.len(),
{
    let whole = x + y;
    assert(whole.drop_last() =~= x + y.drop_last());
    assert(whole.last() == y.last());
    let front = text::joined(x, between);
    if y.len() == 1 {
        assert(whole.drop_last() =~= x);
        assert(text::joined(whole, between) =~= front + seq![between] + y[0]);
    } else {
        lemma_joined_rows(x, y.drop_last(), between);
        let rest = text::joined(y.drop_last(), between);
        assert((front + seq![between] + rest).push(between) + y.last() =~= front + seq![between]
            + (rest.push(between) + y.last()));
    }
}

/// Reference text goes line by line: the text of a reference that is two, one under
/// the other, is the text of the first and that of the second with a space between
/// them, where neither is without a spoken line.
pub proof fn law_reference_text_goes_line_by_line(
    above: &str,
    below: &str,
    both: &str,
    r: String,
    s: String,
    t: String,
)
    requires
        both@ == above@ + seq!['\n'] + below@,
        call_ensures(transcript::reference_text, (above,), r),
        call_ensures(transcript::reference_text, (below,), s),
        call_ensures(transcript::reference_text, (both,), t),
    ensures
        r@.len() > 0 && s@.len() > 0 ==> t@ == r@ + seq![' '] + s@,
        r@.len() == 0 ==> t@ == s@,
        s@.len() == 0 ==> t@ == r@,
{
    let x = transcript::trimmed_lines(above@);
    let y = transcript::trimmed_lines(below@);
    text_laws::law_parts_part_at_separators(above@, '\n', below@);
    assert(transcript::trimmed_lines(both@) =~= x + y);
    let spoken = |line: Seq<char>| line.len() > 0 && !transcript::marks_turn(line);
    Seq::filter_distributes_over_add(x, y, spoken);
    let a = transcript::spoken_lines(x);
    let b = transcript::spoken_lines(y);
    assert(transcript::spoken_lines(x + y) == a + b);
    lemma_spoken_text(x);
    lemma_spoken_text(y);
    if a.len() > 0 && b.len() > 0 {
        lemma_joined_rows(a, b, ' ');
    } else if a.len() == 0 {
        assert(a + b =~= b);
    } else {
        assert(a + b =~= a);
    }
}

proof fn lemma_spoken_text(lines: Seq<Seq<char>>)
    ensures
        text::joined(transcript::spoken_lines(lines), ' ').len() == 0
            <==> transcript::spoken_lines(lines).len() == 0,
{
    let spoken = |line: Seq<char>| line.len() > 0 && !transcript::marks_turn(line);
    let rows = lines.filter(spoken);
    if rows.len() > 0 {
        lines.lemma_filter_pred(spoken, rows.len() - 1);
    }
}

/// The text of a single line is the line without the white space around it, unless the
/// line marks a turn: then it is empty.
pub proof fn law_reference_text_of_a_line(raw: &str, r: String)
    requires
        !raw@.contains('\n'),
        call_ensures(transcript::reference_text, (raw,), r),
    ensures
        transcript::marks_turn(text::trimmed(raw@)) ==> r@.len() == 0,
        !transcript::marks_turn(text::trimmed(raw@)) ==> r@ == text::trimmed(raw@),
{
    text_laws::law_text_without_separator_is_one_part(raw@, '\n');
    let line = text::trimmed(raw@);
    let lines = transcript::trimmed_lines(raw@);
    assert(lines =~= seq![line]);
    let spoken = |line: Seq<char>| line.len() > 0 && !transcript::marks_turn(line);
    reveal(Seq::filter);
    assert(lines.drop_last() =~= Seq::empty());
    assert(lines.drop_last().filter(spoken) =~= Seq::empty());
    if spoken(line) {
        assert(lines.filter(spoken) =~= seq![line]);
    } else {
        assert(lines.filter(spoken) =~= Seq::empty());
        if line.len() == 0 {
            assert(text::words_of(line).len() == 0);
            assert(r@ =~= line);
        }
    }
}

/// The word error rate of a call, times the number of words to find, is the number of
/// words to insert, remove or replace; and a text has none against itself.
pub proof fn law_wer_calls_count_word_edits<A: Arithmetic>(
    m: &A,
    amount: spec_fn(Bits) -> real,
    q: real,
    reference: &str,
    hypothesis: &str,
    r: Bits,
    edits: usize,
    words: usize,
)
    requires
        call_ensures(transcript::wer::<A>, (m, reference, hypothesis), r),
        words == transcript::normal_words(reference@).len(),
        edits == distance::edit_distance(
            transcript::normal_words(reference@),
            transcript::normal_words(hypothesis@),
            |x: Seq<char>, y: Seq<char>| x == y,
        ),
        transcript_laws::divides_within(m, amount, q, edits, words),
    ensures
        words > 0 ==> near(q, amount(r) * (words as real), edits as real),
        words == 0 && transcript::normal_words(hypothesis@).len() == 0 ==> r == ZERO,
        words == 0 && transcript::normal_words(hypothesis@).len() > 0 ==> r == ONE,
        words > 0 && transcript::normal_words(hypothesis@) == transcript::normal_words(reference@)
            ==> edits == 0,
{
    transcript_laws::law_word_error_rate_counts_word_edits(
        m,
        amount,
        q,
        reference@,
        hypothesis@,
        r,
        edits,
        words,
    );
    distance::law_matching_rows_are_no_edit_apart(
        transcript::normal_words(reference@),
        transcript::normal_words(reference@),
        |x: Seq<char>, y: Seq<char>| x == y,
    );
}

/// The character error rate of a call, times the number of characters to find, is the
/// number of characters to insert, remove or replace.
pub proof fn law_cer_calls_count_character_edits<A: Arithmetic>(
    m: &A,
    amount: spec_fn(Bits) -> real,
    q: real,
    reference: &str,
    hypothesis: &str,
    r: Bits,
    edits: usize,
    chars: usize,
)
    requires
        call_ensures(transcript::cer::<A>, (m, reference, hypothesis), r),
        chars == text::joined(transcript::normal_words(reference@), ' ').len(),
        edits == distance::edit_distance(
            text::joined(transcript::normal_words(reference@), ' '),
            text::joined(transcript::normal_words(hypothesis@), ' '),
            |x: char, y: char| x == y,
        ),
        transcript_laws::divides_within(m, amount, q, edits, chars),
    ensures
        chars > 0 ==> near(q, amount(r) * (chars as real), edits as real),
        chars == 0 && text::joined(transcript::normal_words(hypothesis@), ' ').len() == 0 ==> r
            == ZERO,
        chars == 0 && text::joined(transcript::normal_words(hypothesis@), ' ').len() > 0 ==> r
            == ONE,
{
    transcript_laws::law_character_error_rate_counts_character_edits(
        m,
        amount,
        q,
        reference@,
        hypothesis@,
        r,
        edits,
        chars,
    );
}

/// The distance of a call is that of its rows the other way round, and no greater than
/// the way over any other row, where equality is symmetric and transitive.
pub proof fn law_distance_calls_measure<T: PartialEq>(
    a: &[T],
    b: &[T],
    c: &[T],
    ab: usize,
    ba: usize,
    bc: usize,
    ac: usize,
)
    requires
        forall|x: T, y: T| #[trigger] x.eq_spec(&y) == y.eq_spec(&x),
        forall|x: T, y: T, z: T|
            #[trigger] x.eq_spec(&y) && #[trigger] y.eq_spec(&z) ==> x.eq_spec(&z),
        call_ensures(distance::levenshtein::<T>, (a, b), ab),
        call_ensures(distance::levenshtein::<T>, (b, a), ba),
        call_ensures(distance::levenshtein::<T>, (b, c), bc),
        call_ensures(distance::levenshtein::<T>, (a, c), ac),
    ensures
        ab == ba,
        ac <= ab + bc,
        ab >= a@.len() - b@.len(),
        ab <= a@.len() || ab <= b@.len(),
{
    let same = distance::by_equality::<T>();
    distance::law_distance_is_symmetric(a@, b@, same);
    distance::law_distance_obeys_the_triangle(a@, b@, c@, same);
    distance::law_distance_is_bounded(a@, b@, same);
}

/// The words of a call are those of the text in lower case between white space and
/// what is neither letter nor digit: joined by spaces they are the same words again.
pub proof fn law_normal_words_are_joined_and_parted(raw: &str, r: Vec<String>)
    requires
        call_ensures(transcript::normalize_words, (raw,), r),
        forall|c: char| #[trigger] text::is_word_char(c) ==> !text::is_white(c),
    ensures
        transcript::strings(r@) == transcript::normal_words(raw@),
        text::words_of(text::joined(transcript::strings(r@), ' ')) == transcript::strings(r@),
        forall|i: int, j: int|
            0 <= i < r@.len() && 0 <= j < r@[i]@.len() ==> text::is_word_char(
                #[trigger] r@[i]@[j],
            ),
{
    let words = transcript::strings(r@);
    assert forall|i: int, j: int| 0 <= i < words.len() && 0 <= j < words[i].len() implies
        !text::is_white(#[trigger] words[i][j]) by {
        assert(text::is_word_char(words[i][j]));
    }
    text_laws::law_joined_words_are_the_words(words, ' ');
    assert forall|i: int, j: int| 0 <= i < r@.len() && 0 <= j < r@[i]@.len() implies
        text::is_word_char(#[trigger] r@[i]@[j]) by {
        assert(words[i][j] == r@[i]@[j]);
    }
}

} // verus!
