//! Text as rows of characters: lines, words and the characters they are made of.
use vstd::prelude::*;

verus! {

/// `c` is white space: it has the Unicode property `White_Space`, which 25
/// characters have.
pub open spec fn is_white(c: char) -> bool {
    let code = c as u32;
    ||| 0x09 <= code <= 0x0d
    ||| code == 0x20
    ||| code == 0x85
    ||| code == 0xa0
    ||| code == 0x1680
    ||| 0x2000 <= code <= 0x200a
    ||| code == 0x2028
    ||| code == 0x2029
    ||| code == 0x202f
    ||| code == 0x205f
    ||| code == 0x3000
}

/// Whether `char::is_alphanumeric` counts `c` as a letter or a digit.
pub uninterp spec fn is_word_char(c: char) -> bool;

/// The text that `str::to_lowercase` makes of `text`.
pub uninterp spec fn lowercase(text: Seq<char>) -> Seq<char>;

/// `char::is_whitespace`: whether the character has the Unicode property
/// `White_Space`.
pub assume_specification[ char::is_whitespace ](c: char) -> (r: bool)
    ensures
        r == is_white(c),
;

/// `char::is_alphanumeric`: the character alone decides.
pub assume_specification[ char::is_alphanumeric ](c: char) -> (r: bool)
    ensures
        r == is_word_char(c),
;

/// `str::to_lowercase`: the text alone decides.
pub assume_specification[ str::to_lowercase ](s: &str) -> (r: String)
    ensures
        r@ == lowercase(s@),
;

/// `String::push` appends the character.
pub assume_specification[ String::push ](s: &mut String, c: char)
    ensures
        final(s)@ == old(s)@.push(c),
;

/// The characters of a text.
pub fn chars_of(text: &str) -> (r: Vec<char>)
    ensures
        r@ == text@,
{
    let mut r: Vec<char> = Vec::new();
    for c in it: text.chars()
        invariant
            r@ == it.seq().take(it.index() as int),
            it.seq() == text@,
    {
        r.push(c);
    }
    assert(r@ =~= text@);
    r
}

/// The text that the characters make up.
pub fn string_of(chars: &Vec<char>) -> (r: String)
    ensures
        r@ == chars@,
{
    let mut r = String::new();
    let mut i: usize = 0;
    while i < chars.len()
        invariant
            i <= chars@.len(),
            r@ == chars@.take(i as int),
        decreases chars@.len() - i,
    {
        r.push(chars[i]);
        i = i + 1;
        assert(r@ =~= chars@.take(i as int));
    }
    assert(r@ =~= chars@);
    r
}

/// `text` begins with `prefix`.
pub open spec fn begins_with(text: Seq<char>, prefix: Seq<char>) -> bool {
    prefix.len() <= text.len() && text.take(prefix.len() as int) == prefix
}

/// `text` ends with `suffix`.
pub open spec fn ends_with(text: Seq<char>, suffix: Seq<char>) -> bool {
    suffix.len() <= text.len() && text.skip(text.len() - suffix.len()) == suffix
}

/// Whether the characters of `part` stand in `text` at place `from`.
fn stands_at(text: &Vec<char>, from: usize, part: &Vec<char>) -> (r: bool)
    requires
        from + part@.len() <= text@.len(),
    ensures
        r == (text@.subrange(from as int, from + part@.len()) == part@),
{
    let whole: usize = text.len();
    let mut i: usize = 0;
    while i < part.len()
        invariant
            whole == text@.len(),
            from + part@.len() <= whole,
            i <= part@.len(),
            forall|j: int| 0 <= j < i ==> text@[from + j] == #[trigger] part@[j],
        decreases part@.len() - i,
    {
        if text[from + i] != part[i] {
            assert(text@.subrange(from as int, from + part@.len())[i as int] != part@[i as int]);
            return false;
        }
        i = i + 1;
    }
    assert(text@.subrange(from as int, from + part@.len()) =~= part@);
    true
}

/// Whether `text` begins with `prefix`.
pub fn test_prefix(text: &Vec<char>, prefix: &str) -> (r: bool)
    ensures
        r == begins_with(text@, prefix@),
{
    let part = chars_of(prefix);
    assert(part@.len() <= text@.len() ==> text@.take(part@.len() as int) =~= text@.subrange(
        0,
        0int + part@.len(),
    ));
    part.len() <= text.len() && stands_at(text, 0, &part)
}

/// Whether `text` ends with `suffix`.
pub fn test_suffix(text: &Vec<char>, suffix: &str) -> (r: bool)
    ensures
        r == ends_with(text@, suffix@),
{
    let part = chars_of(suffix);
    if part.len() > text.len() {
        return false;
    }
    let from: usize = text.len() - part.len();
    assert(text@.skip(from as int) =~= text@.subrange(from as int, from + part@.len()));
    stands_at(text, from, &part)
}

/// Whether two rows of characters are the same.
pub fn is_same_text(a: &Vec<char>, b: &Vec<char>) -> (r: bool)
    ensures
        r == (a@ == b@),
{
    if a.len() != b.len() {
        return false;
    }
    assert(a@.subrange(0, 0int + b@.len()) =~= a@);
    stands_at(a, 0, b)
}

/// A part of a text.
pub fn part_of(text: &Vec<char>, from: usize, to: usize) -> (r: Vec<char>)
    requires
        from <= to <= text@.len(),
    ensures
        r@ == text@.subrange(from as int, to as int),
{
    let mut r: Vec<char> = Vec::new();
    let mut i: usize = from;
    while i < to
        invariant
            from <= i <= to <= text@.len(),
            r@ == text@.subrange(from as int, i as int),
        decreases to - i,
    {
        r.push(text[i]);
        i = i + 1;
        assert(r@ =~= text@.subrange(from as int, i as int));
    }
    r
}

/// The text without the characters at its end that `drop` says to drop.
pub open spec fn without_end(text: Seq<char>, drop: spec_fn(char) -> bool) -> Seq<char>
    decreases text.len(),
{
    if text.len() > 0 && drop(text.last()) {
        without_end(text.drop_last(), drop)
    } else {
        text
    }
}

/// The text without the white space at its start.
pub open spec fn without_white_start(text: Seq<char>) -> Seq<char>
    decreases text.len(),
{
    if text.len() > 0 && is_white(text[0]) {
        without_white_start(text.drop_first())
    } else {
        text
    }
}

/// The text without the white space at its start and at its end.
pub open spec fn trimmed(text: Seq<char>) -> Seq<char> {
    without_end(without_white_start(text), |c: char| is_white(c))
}

/// Where the end of a text begins that is dropped.
pub proof fn lemma_without_end(text: Seq<char>, drop: spec_fn(char) -> bool, n: int)
    requires
        0 <= n <= text.len(),
        forall|i: int| n <= i < text.len() ==> drop(#[trigger] text[i]),
        n > 0 ==> !drop(text[n - 1]),
    ensures
        without_end(text, drop) == text.take(n),
    decreases text.len(),
{
    if n < text.len() {
        assert(drop(text[text.len() - 1]));
        assert(text.drop_last().take(n) =~= text.take(n));
        lemma_without_end(text.drop_last(), drop, n);
    } else {
        assert(text.take(n) =~= text);
    }
}

proof fn lemma_without_white_start(text: Seq<char>, n: int)
    requires
        0 <= n <= text.len(),
        forall|i: int| 0 <= i < n ==> is_white(#[trigger] text[i]),
        n < text.len() ==> !is_white(text[n]),
    ensures
        without_white_start(text) == text.skip(n),
    decreases text.len(),
{
    if n > 0 {
        assert(is_white(text[0]));
        let rest = text.drop_first();
        assert forall|i: int| 0 <= i < n - 1 implies is_white(#[trigger] rest[i]) by {
            assert(is_white(text[i + 1]));
        }
        lemma_without_white_start(rest, n - 1);
        assert(rest.skip(n - 1) =~= text.skip(n));
    } else {
        assert(text.skip(0) =~= text);
    }
}

/// The text without the white space at its start and at its end.
pub fn trim(text: &Vec<char>) -> (r: Vec<char>)
    ensures
        r@ == trimmed(text@),
{
    let mut from: usize = 0;
    while from < text.len() && text[from].is_whitespace()
        invariant
            from <= text@.len(),
            forall|i: int| 0 <= i < from ==> is_white(#[trigger] text@[i]),
        decreases text@.len() - from,
    {
        from = from + 1;
    }
    let mut to: usize = text.len();
    while to > from && text[to - 1].is_whitespace()
        invariant
            from <= to <= text@.len(),
            forall|i: int| to <= i < text@.len() ==> is_white(#[trigger] text@[i]),
        decreases to,
    {
        to = to - 1;
    }
    proof {
        lemma_without_white_start(text@, from as int);
        let rest = text@.skip(from as int);
        assert forall|i: int| to - from <= i < rest.len() implies is_white(#[trigger] rest[i]) by {
            assert(is_white(text@[from + i]));
        }
        lemma_without_end(rest, |c: char| is_white(c), to - from);
        assert(rest.take(to - from) =~= text@.subrange(from as int, to as int));
    }
    part_of(text, from, to)
}

/// A row of texts, each by its characters.
pub open spec fn views(rows: Seq<Vec<char>>) -> Seq<Seq<char>> {
    Seq::new(rows.len(), |i: int| rows[i]@)
}

/// The parts of a text between occurrences of `separator`; one part where there
/// is none.
pub open spec fn parts_between(text: Seq<char>, separator: char) -> Seq<Seq<char>>
    decreases text.len(),
{
    if text.len() == 0 {
        seq![Seq::empty()]
    } else {
        let rest = parts_between(text.drop_last(), separator);
        if text.last() == separator {
            rest.push(Seq::empty())
        } else {
            rest.update(rest.len() - 1, rest.last().push(text.last()))
        }
    }
}

/// The parts of a text between occurrences of `separator`.
pub fn split_at(text: &Vec<char>, separator: char) -> (r: Vec<Vec<char>>)
    ensures
        views(r@) == parts_between(text@, separator),
        r@.len() > 0,
{
    let mut done: Vec<Vec<char>> = Vec::new();
    let mut part: Vec<char> = Vec::new();
    let mut i: usize = 0;
    assert(views(done@).push(part@) =~= parts_between(text@.take(0), separator)) by {
        assert(part@ =~= Seq::empty());
    }
    while i < text.len()
        invariant
            i <= text@.len(),
            views(done@).push(part@) == parts_between(text@.take(i as int), separator),
        decreases text@.len() - i,
    {
        let c = text[i];
        let ghost before = views(done@).push(part@);
        proof {
            assert(text@.take(i + 1).drop_last() =~= text@.take(i as int));
            assert(text@.take(i + 1).last() == c);
        }
        if c == separator {
            let ghost held = done@;
            let ghost finished = part@;
            done.push(part);
            part = Vec::new();
            assert(views(done@) =~= views(held).push(finished));
            assert(part@ =~= Seq::empty());
            assert(views(done@).push(part@) =~= before.push(Seq::empty()));
        } else {
            part.push(c);
            assert(views(done@).push(part@) =~= before.update(
                before.len() - 1,
                before.last().push(c),
            ));
        }
        i = i + 1;
    }
    assert(text@.take(i as int) =~= text@);
    let ghost held = done@;
    let ghost finished = part@;
    done.push(part);
    assert(views(done@) =~= views(held).push(finished));
    done
}

/// The words of a text: its longest parts without white space.
pub open spec fn words_of(text: Seq<char>) -> Seq<Seq<char>>
    decreases text.len(),
{
    if text.len() == 0 {
        Seq::empty()
    } else {
        let rest = words_of(text.drop_last());
        let c = text.last();
        if is_white(c) {
            rest
        } else if text.len() == 1 || is_white(text[text.len() - 2]) {
            rest.push(seq![c])
        } else {
            rest.update(rest.len() - 1, rest.last().push(c))
        }
    }
}

/// The words of a text are made of its characters, hold no white space and are
/// not empty, and there is one where the text does not end in white space.
pub proof fn lemma_words(text: Seq<char>)
    ensures
        forall|i: int, j: int|
            0 <= i < words_of(text).len() && 0 <= j < words_of(text)[i].len() ==> !is_white(
                #[trigger] words_of(text)[i][j],
            ) && text.contains(words_of(text)[i][j]),
        forall|i: int| 0 <= i < words_of(text).len() ==> (#[trigger] words_of(text)[i]).len() > 0,
        text.len() > 0 && !is_white(text.last()) ==> words_of(text).len() > 0,
    decreases text.len(),
{
    if text.len() > 0 {
        let front = text.drop_last();
        lemma_words(front);
        let rest = words_of(front);
        let words = words_of(text);
        let c = text.last();
        if text.len() > 1 {
            assert(front.last() == text[text.len() - 2]);
        }
        assert forall|i: int, j: int| 0 <= i < words.len() && 0 <= j < words[i].len() implies
            !is_white(#[trigger] words[i][j]) && text.contains(words[i][j]) by {
            if i < rest.len() && j < rest[i].len() {
                assert(words[i][j] == rest[i][j]);
                let k = choose|k: int| 0 <= k < front.len() && front[k] == rest[i][j];
                assert(text[k] == words[i][j]);
            } else {
                assert(words[i][j] == c);
                assert(text[text.len() - 1] == c);
            }
        }
    }
}

/// The words of a text.
pub fn split_words(text: &Vec<char>) -> (r: Vec<Vec<char>>)
    ensures
        views(r@) == words_of(text@),
{
    let mut words: Vec<Vec<char>> = Vec::new();
    let mut word: Vec<char> = Vec::new();
    let mut i: usize = 0;
    assert(views(words@) =~= words_of(text@.take(0)));
    while i < text.len()
        invariant
            i <= text@.len(),
            word@.len() > 0 <==> i > 0 && !is_white(text@[i - 1]),
            word@.len() == 0 ==> views(words@) == words_of(text@.take(i as int)),
            word@.len() > 0 ==> views(words@).push(word@) == words_of(text@.take(i as int)),
        decreases text@.len() - i,
    {
        let c = text[i];
        let ghost held = words@;
        let ghost started = word@;
        proof {
            let seen = text@.take(i + 1);
            assert(seen.drop_last() =~= text@.take(i as int));
            assert(seen.last() == c);
            if i > 0 {
                assert(seen[seen.len() - 2] == text@[i - 1]);
            }
        }
        if c.is_whitespace() {
            if word.len() > 0 {
                words.push(word);
                word = Vec::new();
                assert(views(words@) =~= views(held).push(started));
            }
        } else {
            word.push(c);
            proof {
                if started.len() == 0 {
                    assert(word@ =~= seq![c]);
                } else {
                    let before = views(held).push(started);
                    assert(views(words@).push(word@) =~= before.update(
                        before.len() - 1,
                        before.last().push(c),
                    ));
                }
            }
        }
        i = i + 1;
    }
    assert(text@.take(i as int) =~= text@);
    if word.len() > 0 {
        let ghost held = words@;
        let ghost started = word@;
        words.push(word);
        assert(views(words@) =~= views(held).push(started));
    }
    words
}

/// The texts, with `between` between each two.
pub open spec fn joined(rows: Seq<Seq<char>>, between: char) -> Seq<char>
    decreases rows.len(),
{
    if rows.len() == 0 {
        Seq::empty()
    } else if rows.len() == 1 {
        rows[0]
    } else {
        joined(rows.drop_last(), between).push(between) + rows.last()
    }
}

/// The texts, with `between` between each two.
pub fn join(rows: &Vec<Vec<char>>, between: char) -> (r: Vec<char>)
    ensures
        r@ == joined(views(rows@), between),
{
    let mut r: Vec<char> = Vec::new();
    let mut i: usize = 0;
    assert(r@ =~= joined(views(rows@).take(0), between));
    while i < rows.len()
        invariant
            i <= rows@.len(),
            r@ == joined(views(rows@).take(i as int), between),
        decreases rows@.len() - i,
    {
        let ghost before = r@;
        if i > 0 {
            r.push(between);
        }
        let ghost start = r@;
        let row = &rows[i];
        let mut j: usize = 0;
        assert(r@ =~= start + row@.take(0));
        while j < row.len()
            invariant
                j <= row@.len(),
                r@ == start + row@.take(j as int),
            decreases row@.len() - j,
        {
            r.push(row[j]);
            j = j + 1;
            assert(r@ =~= start + row@.take(j as int));
        }
        proof {
            let seen = views(rows@).take(i + 1);
            assert(row@.take(j as int) =~= row@);
            assert(seen.drop_last() =~= views(rows@).take(i as int));
            assert(seen.last() == row@);
            assert(i == 0 ==> r@ =~= row@);
        }
        i = i + 1;
    }
    assert(views(rows@).take(i as int) =~= views(rows@));
    r
}

} // verus!
