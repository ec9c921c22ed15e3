//! Reference transcripts: the spoken text, the speaker turns, and the error rate
//! of a transcript against them.
//!
//! A reference is a text file in which a line such as `Speaker 1  0:02` marks who
//! speaks from when on, and the other lines hold what is said.
use vstd::prelude::*;
use crate::arithmetic;
use crate::arithmetic::{ratio, Arithmetic};
use crate::metrics::distance;
use crate::metrics::distance::levenshtein;
use crate::single;
use crate::single::{is_greater, larger_of, Bits, ONE, ZERO};
use crate::text;
use crate::text::{
    chars_of, is_same_text, join, part_of, split_at, split_words, string_of, test_prefix, trim,
};

verus! {

/// A word by its characters.
#[derive(Debug)]
pub struct Word {
    pub chars: Vec<char>,
}

impl PartialEq for Word {
    fn eq(&self, other: &Self) -> (r: bool) {
        is_same_text(&self.chars, &other.chars)
    }
}

impl vstd::std_specs::cmp::PartialEqSpecImpl for Word {
    open spec fn obeys_eq_spec() -> bool {
        true
    }

    open spec fn eq_spec(&self, other: &Self) -> bool {
        self.chars@ == other.chars@
    }
}

/// The characters of each of a row of words.
pub open spec fn spelled(words: Seq<Word>) -> Seq<Seq<char>> {
    Seq::new(words.len(), |i: int| words[i].chars@)
}

/// The characters of each of a row of strings.
pub open spec fn strings(rows: Seq<String>) -> Seq<Seq<char>> {
    Seq::new(rows.len(), |i: int| rows[i]@)
}

/// A character as the error rate reads it: a letter, a digit and white space stay
/// as they are, and everything else counts as a space.
pub open spec fn plain(c: char) -> char {
    if text::is_word_char(c) || text::is_white(c) {
        c
    } else {
        ' '
    }
}

/// The words of a text as the error rate reads them: in lower case and without
/// punctuation.
pub open spec fn normal_words(raw: Seq<char>) -> Seq<Seq<char>> {
    text::words_of(text::lowercase(raw).map_values(|c: char| plain(c)))
}

/// Two items are the same where they are equal.
pub open spec fn equal<T>() -> spec_fn(T, T) -> bool {
    |x: T, y: T| x == y
}

/// `r` is what the rate of `errors` in `total` items may come to; with nothing to
/// find, any find is as bad as all wrong.
pub open spec fn rate_is<A: Arithmetic>(
    m: &A,
    errors: nat,
    total: nat,
    found: nat,
    r: Bits,
) -> bool {
    if total == 0 {
        r == if found == 0 {
            ZERO
        } else {
            ONE
        }
    } else {
        arithmetic::ratio_is(m, errors as usize, total as usize, r)
    }
}

/// `r` is what the word error rate may come to.
pub open spec fn wer_is<A: Arithmetic>(
    m: &A,
    reference: Seq<char>,
    hypothesis: Seq<char>,
    r: Bits,
) -> bool {
    let expected = normal_words(reference);
    let found = normal_words(hypothesis);
    rate_is(
        m,
        distance::edit_distance(expected, found, equal()),
        expected.len(),
        found.len(),
        r,
    )
}

/// `r` is what the character error rate may come to: that of the normalized
/// texts, one space between words.
pub open spec fn cer_is<A: Arithmetic>(
    m: &A,
    reference: Seq<char>,
    hypothesis: Seq<char>,
    r: Bits,
) -> bool {
    let expected = text::joined(normal_words(reference), ' ');
    let found = text::joined(normal_words(hypothesis), ' ');
    rate_is(
        m,
        distance::edit_distance(expected, found, equal()),
        expected.len(),
        found.len(),
        r,
    )
}

/// The words of a text as the error rate reads them.
fn normalized(raw: &str) -> (r: Vec<Vec<char>>)
    ensures
        text::views(r@) == normal_words(raw@),
{
    let lower = raw.to_lowercase();
    let chars = chars_of(lower.as_str());
    let mut cleaned: Vec<char> = Vec::new();
    let mut i: usize = 0;
    while i < chars.len()
        invariant
            i <= chars@.len(),
            cleaned@ == chars@.take(i as int).map_values(|c: char| plain(c)),
        decreases chars@.len() - i,
    {
        let c = chars[i];
        if c.is_alphanumeric() || c.is_whitespace() {
            cleaned.push(c);
        } else {
            // What is dropped leaves a gap between words.
            cleaned.push(' ');
        }
        i = i + 1;
        assert(cleaned@ =~= chars@.take(i as int).map_values(|c: char| plain(c)));
    }
    assert(chars@.take(i as int) =~= chars@);
    split_words(&cleaned)
}

/// The words of a text in lower case and without punctuation.
pub fn normalize_words(raw: &str) -> (r: Vec<String>)
    ensures
        strings(r@) == normal_words(raw@),
        are_plain_words(strings(r@)),
{
    let words = normalized(raw);
    proof {
        law_normal_words_are_plain(raw@);
    }
    let mut r: Vec<String> = Vec::new();
    let mut i: usize = 0;
    while i < words.len()
        invariant
            i <= words@.len(),
            r@.len() == i,
            forall|j: int| 0 <= j < i ==> (#[trigger] r@[j])@ == words@[j]@,
        decreases words@.len() - i,
    {
        r.push(string_of(&words[i]));
        i = i + 1;
    }
    assert(strings(r@) =~= text::views(words@));
    r
}

/// Every word is made of letters and digits, and none is empty.
pub open spec fn are_plain_words(words: Seq<Seq<char>>) -> bool {
    &&& forall|i: int, j: int|
        0 <= i < words.len() && 0 <= j < words[i].len() ==> text::is_word_char(
            #[trigger] words[i][j],
        )
    &&& forall|i: int| 0 <= i < words.len() ==> (#[trigger] words[i]).len() > 0
}

/// The words of every text are made of letters and digits, and none is empty.
pub proof fn law_normal_words_are_plain(raw: Seq<char>)
    ensures
        are_plain_words(normal_words(raw)),
{
    let lower = text::lowercase(raw);
    let cleaned = lower.map_values(|c: char| plain(c));
    text::lemma_words(cleaned);
    let words = normal_words(raw);
    assert forall|i: int, j: int| 0 <= i < words.len() && 0 <= j < words[i].len() implies
        text::is_word_char(#[trigger] words[i][j]) by {
        let c = words[i][j];
        assert(!text::is_white(c) && cleaned.contains(c));
        let k = choose|k: int| 0 <= k < cleaned.len() && cleaned[k] == c;
        assert(cleaned[k] == plain(lower[k]));
    }
}

/// The rate of `errors` in `total` items.
fn rate<A: Arithmetic>(m: &A, errors: usize, total: usize, found: usize) -> (r: Bits)
    ensures
        rate_is(m, errors as nat, total as nat, found as nat, r),
{
    if total == 0 {
        if found == 0 {
            ZERO
        } else {
            ONE
        }
    } else {
        ratio(m, errors, total)
    }
}

/// The words of a row, comparable by `==`.
fn comparable(rows: Vec<Vec<char>>) -> (r: Vec<Word>)
    ensures
        spelled(r@) == text::views(rows@),
{
    let mut r: Vec<Word> = Vec::new();
    let mut i: usize = 0;
    while i < rows.len()
        invariant
            i <= rows@.len(),
            r@.len() == i,
            forall|j: int| 0 <= j < i ==> (#[trigger] r@[j]).chars@ == rows@[j]@,
        decreases rows@.len() - i,
    {
        r.push(Word { chars: part_of(&rows[i], 0, rows[i].len()) });
        assert(r@[i as int].chars@ =~= rows@[i as int]@);
        i = i + 1;
    }
    assert(spelled(r@) =~= text::views(rows@));
    r
}

/// The word error rate of `hypothesis` against `reference`: the edit distance of
/// their words over the number of words to find. Zero is perfect.
pub fn wer<A: Arithmetic>(m: &A, reference: &str, hypothesis: &str) -> (r: Bits)
    ensures
        wer_is(m, reference@, hypothesis@, r),
{
    let expected = comparable(normalized(reference));
    let found = comparable(normalized(hypothesis));
    let errors: usize = levenshtein(expected.as_slice(), found.as_slice());
    proof {
        distance::lemma_distance_reads_sameness(
            expected@,
            found@,
            distance::by_equality::<Word>(),
            spelled(expected@),
            spelled(found@),
            equal(),
        );
    }
    rate(m, errors, expected.len(), found.len())
}

/// The letters of a text as words of one letter, comparable by `==`.
fn letters_of(chars: &Vec<char>) -> (r: Vec<Word>)
    ensures
        r@.len() == chars@.len(),
        forall|i: int| 0 <= i < r@.len() ==> (#[trigger] r@[i]).chars@ == seq![chars@[i]],
{
    let mut r: Vec<Word> = Vec::new();
    let mut i: usize = 0;
    while i < chars.len()
        invariant
            i <= chars@.len(),
            r@.len() == i,
            forall|j: int| 0 <= j < i ==> (#[trigger] r@[j]).chars@ == seq![chars@[j]],
        decreases chars@.len() - i,
    {
        let letter = part_of(chars, i, i + 1);
        assert(letter@ =~= seq![chars@[i as int]]);
        r.push(Word { chars: letter });
        i = i + 1;
    }
    r
}

/// The character error rate of `hypothesis` against `reference`, both
/// normalized.
pub fn cer<A: Arithmetic>(m: &A, reference: &str, hypothesis: &str) -> (r: Bits)
    ensures
        cer_is(m, reference@, hypothesis@, r),
{
    let expected_text = join(&normalized(reference), ' ');
    let found_text = join(&normalized(hypothesis), ' ');
    let expected = letters_of(&expected_text);
    let found = letters_of(&found_text);
    let errors: usize = levenshtein(expected.as_slice(), found.as_slice());
    proof {
        let same = distance::by_equality::<Word>();
        assert forall|i: int, j: int|
            0 <= i < expected@.len() && 0 <= j < found@.len() implies #[trigger] same(
            expected@[i],
            found@[j],
        ) == equal::<char>()(expected_text@[i], found_text@[j]) by {
            assert(expected@[i].chars@[0] == expected_text@[i]);
            assert(found@[j].chars@[0] == found_text@[j]);
        }
        distance::lemma_distance_reads_sameness(
            expected@,
            found@,
            same,
            expected_text@,
            found_text@,
            equal(),
        );
    }
    rate(m, errors, expected.len(), found.len())
}

/// The lines of a text, without white space at either end.
pub open spec fn trimmed_lines(raw: Seq<char>) -> Seq<Seq<char>> {
    text::parts_between(raw, '\n').map_values(|line: Seq<char>| text::trimmed(line))
}

/// Every character is an ASCII digit.
pub open spec fn all_digits(part: Seq<char>) -> bool {
    forall|i: int| 0 <= i < part.len() ==> '0' <= #[trigger] part[i] <= '9'
}

/// The parts of a time such as `1:02:03`.
pub open spec fn clock_parts(token: Seq<char>) -> Seq<Seq<char>> {
    text::parts_between(text::trimmed(token), ':')
}

/// `token` is a time: two numbers or more, with colons between.
pub open spec fn is_clock(token: Seq<char>) -> bool {
    let parts = clock_parts(token);
    &&& parts.len() >= 2
    &&& forall|i: int|
        0 <= i < parts.len() ==> (#[trigger] parts[i]).len() > 0 && all_digits(parts[i])
}

/// `word` is `speaker`, in upper or lower case letters.
pub open spec fn says_speaker(word: Seq<char>) -> bool {
    &&& word.len() == "speaker"@.len()
    &&& forall|i: int|
        0 <= i < word.len() ==> #[trigger] word[i] == "speaker"@[i] || word[i] == "SPEAKER"@[i]
}

/// The number of a speaker, without punctuation behind it.
pub open spec fn speaker_number(word: Seq<char>) -> Seq<char> {
    text::without_end(word, |c: char| !text::is_word_char(c))
}

/// A header line is `Speaker`, a number, and any times, and nothing else.
pub open spec fn is_header(line: Seq<char>) -> bool {
    let words = text::words_of(line);
    &&& words.len() >= 2
    &&& says_speaker(words[0])
    &&& all_digits(speaker_number(words[1]))
    &&& forall|i: int| 2 <= i < words.len() ==> is_clock(#[trigger] words[i])
}

/// A line that marks a speaker turn.
pub open spec fn marks_turn(line: Seq<char>) -> bool {
    text::begins_with(text::lowercase(line), "speaker "@) && is_header(line)
}

/// The lines that hold what is said: neither empty nor the mark of a turn.
pub open spec fn spoken_lines(lines: Seq<Seq<char>>) -> Seq<Seq<char>> {
    lines.filter(|line: Seq<char>| line.len() > 0 && !marks_turn(line))
}

/// The lines that mark a turn.
pub open spec fn turn_lines(lines: Seq<Seq<char>>) -> Seq<Seq<char>> {
    lines.filter(|line: Seq<char>| marks_turn(line))
}

/// Whether every character is an ASCII digit.
fn test_digits(part: &Vec<char>) -> (r: bool)
    ensures
        r == all_digits(part@),
{
    let mut i: usize = 0;
    while i < part.len()
        invariant
            i <= part@.len(),
            forall|j: int| 0 <= j < i ==> '0' <= #[trigger] part@[j] <= '9',
        decreases part@.len() - i,
    {
        let c = part[i];
        if !('0' <= c && c <= '9') {
            return false;
        }
        i = i + 1;
    }
    true
}

/// Whether a token is a time such as `0:02` or `1:02:03`.
pub fn is_timestamp(token: &Vec<char>) -> (r: bool)
    ensures
        r == is_clock(token@),
{
    let parts = split_at(&trim(token), ':');
    let ghost views = text::views(parts@);
    if parts.len() < 2 {
        return false;
    }
    let mut i: usize = 0;
    while i < parts.len()
        invariant
            views == text::views(parts@),
            views == clock_parts(token@),
            i <= parts@.len(),
            forall|j: int|
                0 <= j < i ==> (#[trigger] views[j]).len() > 0 && all_digits(views[j]),
        decreases parts@.len() - i,
    {
        if parts[i].len() == 0 || !test_digits(&parts[i]) {
            assert(!(views[i as int].len() > 0 && all_digits(views[i as int])));
            return false;
        }
        assert(views[i as int] == parts@[i as int]@);
        i = i + 1;
    }
    true
}

/// Whether a word is `speaker`, in upper or lower case letters.
fn test_speaker(word: &Vec<char>) -> (r: bool)
    ensures
        r == says_speaker(word@),
{
    let lower = chars_of("speaker");
    let upper = chars_of("SPEAKER");
    proof {
        reveal_strlit("speaker");
        reveal_strlit("SPEAKER");
    }
    if word.len() != lower.len() {
        return false;
    }
    let mut i: usize = 0;
    while i < word.len()
        invariant
            lower@ == "speaker"@,
            upper@ == "SPEAKER"@,
            word@.len() == lower@.len(),
            word@.len() == upper@.len(),
            i <= word@.len(),
            forall|j: int|
                0 <= j < i ==> #[trigger] word@[j] == lower@[j] || word@[j] == upper@[j],
        decreases word@.len() - i,
    {
        if word[i] != lower[i] && word[i] != upper[i] {
            return false;
        }
        i = i + 1;
    }
    true
}

/// The number of a speaker, without punctuation behind it.
fn number_of(word: &Vec<char>) -> (r: Vec<char>)
    ensures
        r@ == speaker_number(word@),
{
    let ghost drop = |c: char| !text::is_word_char(c);
    let mut n: usize = word.len();
    while n > 0 && !word[n - 1].is_alphanumeric()
        invariant
            drop == (|c: char| !text::is_word_char(c)),
            n <= word@.len(),
            forall|i: int| n <= i < word@.len() ==> drop(#[trigger] word@[i]),
        decreases n,
    {
        n = n - 1;
    }
    proof {
        text::lemma_without_end(word@, drop, n as int);
        assert(word@.take(n as int) =~= word@.subrange(0, n as int));
    }
    part_of(word, 0, n)
}

/// Whether a line is a header: `Speaker`, a number, and any times.
pub fn line_is_header(line: &Vec<char>) -> (r: bool)
    ensures
        r == is_header(line@),
{
    let words = split_words(line);
    let ghost views = text::views(words@);
    if words.len() < 2 {
        return false;
    }
    assert(views[0] == words@[0]@ && views[1] == words@[1]@);
    if !test_speaker(&words[0]) || !test_digits(&number_of(&words[1])) {
        return false;
    }
    let mut i: usize = 2;
    while i < words.len()
        invariant
            views == text::views(words@),
            views == text::words_of(line@),
            2 <= i <= words@.len(),
            forall|j: int| 2 <= j < i ==> is_clock(#[trigger] views[j]),
        decreases words@.len() - i,
    {
        assert(views[i as int] == words@[i as int]@);
        if !is_timestamp(&words[i]) {
            return false;
        }
        i = i + 1;
    }
    true
}

/// Whether a line marks a speaker turn.
fn test_turn(line: &Vec<char>) -> (r: bool)
    ensures
        r == marks_turn(line@),
{
    let lower = string_of(line).to_lowercase();
    let chars = chars_of(lower.as_str());
    test_prefix(&chars, "speaker ") && line_is_header(line)
}

/// The lines of a text, without white space at either end.
fn lines_of(raw: &str) -> (r: Vec<Vec<char>>)
    ensures
        text::views(r@) == trimmed_lines(raw@),
{
    let parts = split_at(&chars_of(raw), '\n');
    let mut r: Vec<Vec<char>> = Vec::new();
    let mut i: usize = 0;
    while i < parts.len()
        invariant
            i <= parts@.len(),
            r@.len() == i,
            forall|j: int| 0 <= j < i ==> (#[trigger] r@[j])@ == text::trimmed(parts@[j]@),
        decreases parts@.len() - i,
    {
        r.push(trim(&parts[i]));
        i = i + 1;
    }
    assert(text::views(r@) =~= trimmed_lines(raw@));
    r
}

/// What filtering does to one more item at the end.
proof fn lemma_filter_one_more<T>(items: Seq<T>, keep: spec_fn(T) -> bool, i: int)
    requires
        0 <= i < items.len(),
    ensures
        items.take(i + 1).filter(keep) == if keep(items[i]) {
            items.take(i).filter(keep).push(items[i])
        } else {
            items.take(i).filter(keep)
        },
{
    let longer = items.take(i + 1);
    assert(longer.drop_last() =~= items.take(i));
    reveal(Seq::filter);
}

/// What is said in a reference: its lines without those that mark a turn, one
/// space between them.
pub fn reference_text(raw: &str) -> (r: String)
    ensures
        r@ == text::joined(spoken_lines(trimmed_lines(raw@)), ' '),
{
    let lines = lines_of(raw);
    let ghost views = text::views(lines@);
    let ghost keep = |line: Seq<char>| line.len() > 0 && !marks_turn(line);
    let mut spoken: Vec<Vec<char>> = Vec::new();
    let mut i: usize = 0;
    assert(text::views(spoken@) =~= views.take(0).filter(keep)) by {
        reveal(Seq::filter);
    }
    while i < lines.len()
        invariant
            views == text::views(lines@),
            keep == (|line: Seq<char>| line.len() > 0 && !marks_turn(line)),
            i <= lines@.len(),
            text::views(spoken@) == views.take(i as int).filter(keep),
        decreases lines@.len() - i,
    {
        let line = &lines[i];
        proof {
            lemma_filter_one_more(views, keep, i as int);
        }
        if line.len() > 0 && !test_turn(line) {
            let ghost held = spoken@;
            let copy = part_of(line, 0, line.len());
            assert(copy@ =~= line@);
            spoken.push(copy);
            assert(text::views(spoken@) =~= text::views(held).push(line@));
        }
        i = i + 1;
    }
    assert(views.take(i as int) =~= views);
    string_of(&join(&spoken, ' '))
}

/// A stretch of time in which a speaker speaks, in seconds.
#[derive(Debug, Clone, Copy)]
pub struct DiarSegment {
    pub speaker: usize,
    pub start: Bits,
    pub end: Bits,
}

/// The bit pattern of `60.0`.
pub const SIXTY: Bits = 0x4270_0000;

/// `r` is what the seconds of a time with the given parts may come to: each part
/// counts sixty times the next.
pub open spec fn seconds_are<A: Arithmetic>(m: &A, parts: Seq<Seq<char>>, r: Bits) -> bool
    decreases parts.len(),
{
    if parts.len() == 0 {
        r == ZERO
    } else {
        exists|before: Bits, scaled: Bits, last: Bits|
            {
                &&& seconds_are(m, parts.drop_last(), before)
                &&& #[trigger] arithmetic::product_is(m, before, SIXTY, scaled)
                &&& arithmetic::from_digits_is(m, parts.last(), last)
                &&& #[trigger] arithmetic::sum_is(m, scaled, last, r)
            }
    }
}

/// The value of a row of digits.
pub open spec fn digits_value(digits: Seq<char>) -> nat
    decreases digits.len(),
{
    if digits.len() == 0 {
        0
    } else {
        (digits_value(digits.drop_last()) * 10 + (digits.last() as int - '0' as int)) as nat
    }
}

/// The index of the speaker with the given number, counted from zero; zero too
/// where the number is missing or too large.
pub open spec fn speaker_index(digits: Seq<char>) -> usize {
    let n = digits_value(digits);
    if n == 0 || n > usize::MAX {
        0
    } else {
        (n - 1) as usize
    }
}

/// `start` is who speaks from a turn line on, and from when.
pub open spec fn turn_starts<A: Arithmetic>(
    m: &A,
    line: Seq<char>,
    start: (usize, Bits),
) -> bool {
    let words = text::words_of(line);
    &&& start.0 == speaker_index(speaker_number(words[1]))
    &&& if words.len() > 2 {
        seconds_are(m, clock_parts(words[2]), start.1)
    } else {
        start.1 == ZERO
    }
}

/// `starts` says of every turn line who speaks, and from when.
pub open spec fn turns_start<A: Arithmetic>(
    m: &A,
    lines: Seq<Seq<char>>,
    starts: Seq<(usize, Bits)>,
) -> bool {
    &&& starts.len() == lines.len()
    &&& forall|i: int| 0 <= i < lines.len() ==> turn_starts(m, lines[i], #[trigger] starts[i])
}

/// When turn `i` ends: where the next one starts, and the last one at the end of
/// the audio, but not before it starts.
pub open spec fn turn_end(starts: Seq<(usize, Bits)>, audio_secs: Bits, i: int) -> Bits {
    if i + 1 < starts.len() {
        starts[i + 1].1
    } else {
        single::larger(audio_secs, starts[i].1)
    }
}

/// The first `n` turns, without those that do not end after they start.
pub open spec fn turns_of(starts: Seq<(usize, Bits)>, audio_secs: Bits, n: nat) -> Seq<DiarSegment>
    decreases n,
{
    if n == 0 {
        Seq::empty()
    } else {
        let rest = turns_of(starts, audio_secs, (n - 1) as nat);
        let (speaker, start) = starts[n - 1];
        let end = turn_end(starts, audio_secs, n - 1);
        if single::greater(end, start) {
            rest.push(DiarSegment { speaker, start, end })
        } else {
            rest
        }
    }
}

/// `turns` is what the turns of a reference may come to.
pub open spec fn turns_are<A: Arithmetic>(
    m: &A,
    raw: Seq<char>,
    audio_secs: Bits,
    turns: Seq<DiarSegment>,
) -> bool {
    exists|starts: Seq<(usize, Bits)>|
        {
            &&& #[trigger] turns_start(m, turn_lines(trimmed_lines(raw)), starts)
            &&& turns == turns_of(starts, audio_secs, starts.len())
        }
}

/// Seconds of a time such as `0:02` or `1:02:03`; `None` for any other token.
pub fn parse_clock<A: Arithmetic>(m: &A, token: &Vec<char>) -> (r: Option<Bits>)
    ensures
        r is Some <==> is_clock(token@),
        r matches Some(secs) ==> seconds_are(m, clock_parts(token@), secs),
{
    if !is_timestamp(token) {
        return None;
    }
    let parts = split_at(&trim(token), ':');
    let ghost views = text::views(parts@);
    let mut secs: Bits = ZERO;
    let mut i: usize = 0;
    while i < parts.len()
        invariant
            views == text::views(parts@),
            i <= parts@.len(),
            seconds_are(m, views.take(i as int), secs),
        decreases parts@.len() - i,
    {
        let ghost before = secs;
        let scaled: Bits = m.product(secs, SIXTY);
        let last: Bits = m.from_digits(&parts[i]);
        secs = m.sum(scaled, last);
        proof {
            let seen = views.take(i + 1);
            assert(seen.drop_last() =~= views.take(i as int));
            assert(seen.last() == parts@[i as int]@);
            assert(arithmetic::product_is(m, before, SIXTY, scaled));
            assert(arithmetic::from_digits_is(m, seen.last(), last));
            assert(arithmetic::sum_is(m, scaled, last, secs));
        }
        i = i + 1;
    }
    assert(views.take(i as int) =~= views);
    Some(secs)
}

/// The index of the speaker with the given number.
fn index_of_speaker(digits: &Vec<char>) -> (r: usize)
    requires
        all_digits(digits@),
    ensures
        r == speaker_index(digits@),
{
    let mut n: usize = 0;
    let mut i: usize = 0;
    while i < digits.len()
        invariant
            all_digits(digits@),
            i <= digits@.len(),
            n == digits_value(digits@.take(i as int)),
        decreases digits@.len() - i,
    {
        let digit: usize = (digits[i] as u32 - '0' as u32) as usize;
        proof {
            let seen = digits@.take(i + 1);
            assert(seen.drop_last() =~= digits@.take(i as int));
            assert(digits_value(seen) == n * 10 + digit);
        }
        if n > (usize::MAX - digit) / 10 {
            proof {
                lemma_value_grows(digits@, i + 1);
            }
            return 0;
        }
        n = n * 10 + digit;
        i = i + 1;
    }
    assert(digits@.take(i as int) =~= digits@);
    if n == 0 {
        0
    } else {
        n - 1
    }
}

/// More digits do not make a number smaller.
proof fn lemma_value_grows(digits: Seq<char>, i: int)
    requires
        all_digits(digits),
        0 <= i <= digits.len(),
    ensures
        digits_value(digits.take(i)) <= digits_value(digits),
    decreases digits.len(),
{
    if i < digits.len() {
        let front = digits.drop_last();
        assert(front.take(i) =~= digits.take(i));
        assert forall|k: int| 0 <= k < front.len() implies '0' <= #[trigger] front[k] <= '9' by {
            assert(front[k] == digits[k]);
        }
        lemma_value_grows(front, i);
        assert('0' <= digits[digits.len() - 1] <= '9');
    } else {
        assert(digits.take(i) =~= digits);
    }
}

/// Who speaks from a turn line on, and from when.
fn start_of_turn<A: Arithmetic>(m: &A, line: &Vec<char>) -> (r: (usize, Bits))
    requires
        is_header(line@),
    ensures
        turn_starts(m, line@, r),
{
    let words = split_words(line);
    let ghost views = text::views(words@);
    assert(views[1] == words@[1]@);
    let speaker: usize = index_of_speaker(&number_of(&words[1]));
    let mut start: Bits = ZERO;
    if words.len() > 2 {
        assert(views[2] == words@[2]@);
        assert(is_clock(views[2]));
        start = match parse_clock(m, &words[2]) {
            None => ZERO,
            Some(secs) => secs,
        };
    }
    (speaker, start)
}

/// The speaker turns of a reference whose turns are marked by lines such as
/// `Speaker 1  0:02`. Each turn runs from its time to that of the next, and the
/// last one to the end of the audio.
pub fn parse_reference_turns<A: Arithmetic>(m: &A, raw: &str, audio_secs: Bits) -> (turns: Vec<
    DiarSegment,
>)
    ensures
        turns_are(m, raw@, audio_secs, turns@),
{
    let lines = lines_of(raw);
    let ghost views = text::views(lines@);
    let ghost keep = |line: Seq<char>| marks_turn(line);
    let mut starts: Vec<(usize, Bits)> = Vec::new();
    let mut i: usize = 0;
    assert(views.take(0).filter(keep).len() == 0) by {
        reveal(Seq::filter);
    }
    while i < lines.len()
        invariant
            views == text::views(lines@),
            keep == (|line: Seq<char>| marks_turn(line)),
            i <= lines@.len(),
            turns_start(m, views.take(i as int).filter(keep), starts@),
        decreases lines@.len() - i,
    {
        let line = &lines[i];
        proof {
            lemma_filter_one_more(views, keep, i as int);
        }
        if test_turn(line) {
            let ghost held = starts@;
            let ghost before = views.take(i as int).filter(keep);
            starts.push(start_of_turn(m, line));
            proof {
                let after = before.push(line@);
                assert forall|k: int| 0 <= k < after.len() implies turn_starts(
                    m,
                    after[k],
                    #[trigger] starts@[k],
                ) by {
                    if k < before.len() {
                        assert(turn_starts(m, before[k], held[k]));
                    }
                }
            }
        }
        i = i + 1;
    }
    assert(views.take(i as int) =~= views);
    let mut turns: Vec<DiarSegment> = Vec::new();
    let mut n: usize = 0;
    while n < starts.len()
        invariant
            n <= starts@.len(),
            turns@ == turns_of(starts@, audio_secs, n as nat),
        decreases starts@.len() - n,
    {
        let (speaker, start) = starts[n];
        let end: Bits = if n + 1 < starts.len() {
            starts[n + 1].1
        } else {
            larger_of(audio_secs, start)
        };
        if is_greater(end, start) {
            turns.push(DiarSegment { speaker, start, end });
        }
        n = n + 1;
    }
    assert(turns_start(m, turn_lines(trimmed_lines(raw@)), starts@));
    turns
}

/// Every turn ends after it starts.
pub proof fn law_turns_take_time<A: Arithmetic>(
    m: &A,
    raw: Seq<char>,
    audio_secs: Bits,
    turns: Seq<DiarSegment>,
)
    requires
        turns_are(m, raw, audio_secs, turns),
    ensures
        forall|i: int|
            0 <= i < turns.len() ==> single::greater((#[trigger] turns[i]).end, turns[i].start),
        turns.len() <= turn_lines(trimmed_lines(raw)).len(),
{
    let starts = choose|starts: Seq<(usize, Bits)>|
        {
            &&& #[trigger] turns_start(m, turn_lines(trimmed_lines(raw)), starts)
            &&& turns == turns_of(starts, audio_secs, starts.len())
        };
    lemma_turns_take_time(starts, audio_secs, starts.len());
}

proof fn lemma_turns_take_time(starts: Seq<(usize, Bits)>, audio_secs: Bits, n: nat)
    ensures
        forall|i: int|
            0 <= i < turns_of(starts, audio_secs, n).len() ==> single::greater(
                (#[trigger] turns_of(starts, audio_secs, n)[i]).end,
                turns_of(starts, audio_secs, n)[i].start,
            ),
        turns_of(starts, audio_secs, n).len() <= n,
    decreases n,
{
    if n > 0 {
        lemma_turns_take_time(starts, audio_secs, (n - 1) as nat);
    }
}

} // verus!
