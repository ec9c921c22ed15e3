//! What cutting texts apart and joining them comes to.
use vstd::prelude::*;
use crate::text;

verus! {

/// White space parts words: the words of a text are those before it and those
/// behind it.
pub proof fn law_words_part_at_white_space(x: Seq<char>, c: char, y: Seq<char>)
    requires
        text::is_white(c),
    ensures
        text::words_of(x + seq![c] + y) == text::words_of(x) + text::words_of(y),
    decreases y.len(),
{
    let whole = x + seq![c] + y;
    if y.len() == 0 {
        assert(whole.drop_last() =~= x);
        assert(whole.last() == c);
        assert(text::words_of(x) + text::words_of(y) =~= text::words_of(x));
    } else {
        let front = y.drop_last();
        let d = y.last();
        law_words_part_at_white_space(x, c, front);
        assert(whole.drop_last() =~= x + seq![c] + front);
        assert(whole.last() == d);
        let before = text::words_of(x);
        let rest = text::words_of(front);
        let both = text::words_of(whole.drop_last());
        if !text::is_white(d) {
            if front.len() == 0 {
                assert(whole[whole.len() - 2] == c);
                assert(rest.len() == 0);
                assert(text::words_of(whole) =~= before + text::words_of(y));
            } else {
                assert(whole[whole.len() - 2] == y[y.len() - 2]);
                assert(front.last() == y[y.len() - 2]);
                if text::is_white(y[y.len() - 2]) {
                    assert(text::words_of(whole) =~= before + text::words_of(y));
                } else {
                    text::lemma_words(front);
                    assert(both.last() == rest.last());
                    assert(text::words_of(whole) =~= before + text::words_of(y));
                }
            }
        }
    }
}

/// A text without white space is one word, and white space alone is none.
pub proof fn law_text_without_white_space_is_a_word(x: Seq<char>)
    ensures
        x.len() > 0 && (forall|i: int| 0 <= i < x.len() ==> !text::is_white(#[trigger] x[i]))
            ==> text::words_of(x) == seq![x],
        (forall|i: int| 0 <= i < x.len() ==> text::is_white(#[trigger] x[i])) ==> text::words_of(
            x,
        ).len() == 0,
    decreases x.len(),
{
    if x.len() > 0 {
        let front = x.drop_last();
        law_text_without_white_space_is_a_word(front);
        assert(x[x.len() - 1] == x.last());
        assert(front.push(x.last()) =~= x);
        if forall|i: int| 0 <= i < x.len() ==> !text::is_white(#[trigger] x[i]) {
            assert forall|i: int| 0 <= i < front.len() implies !text::is_white(
                #[trigger] front[i],
            ) by {
                assert(front[i] == x[i]);
            }
            if front.len() == 0 {
                assert(seq![x.last()] =~= x);
            } else {
                assert(!text::is_white(x[x.len() - 2]));
                assert(text::words_of(x) =~= seq![x]);
            }
        }
        if forall|i: int| 0 <= i < x.len() ==> text::is_white(#[trigger] x[i]) {
            assert forall|i: int| 0 <= i < front.len() implies text::is_white(
                #[trigger] front[i],
            ) by {
                assert(front[i] == x[i]);
            }
        }
    }
}

/// A separator parts a text: its parts are those before it and those behind it.
pub proof fn law_parts_part_at_separators(x: Seq<char>, separator: char, y: Seq<char>)
    ensures
        text::parts_between(x + seq![separator] + y, separator) == text::parts_between(
            x,
            separator,
        ) + text::parts_between(y, separator),
        text::parts_between(y, separator).len() > 0,
    decreases y.len(),
{
    let whole = x + seq![separator] + y;
    let before = text::parts_between(x, separator);
    if y.len() == 0 {
        assert(whole.drop_last() =~= x);
        assert(whole.last() == separator);
        assert(before.push(Seq::<char>::empty()) =~= before + seq![Seq::<char>::empty()]);
    } else {
        let front = y.drop_last();
        law_parts_part_at_separators(x, separator, front);
        assert(whole.drop_last() =~= x + seq![separator] + front);
        assert(whole.last() == y.last());
        let rest = text::parts_between(front, separator);
        let both = text::parts_between(whole.drop_last(), separator);
        assert(both.last() == rest.last());
        assert(text::parts_between(whole, separator) =~= before + text::parts_between(
            y,
            separator,
        ));
    }
}

/// A text without the separator is its only part.
pub proof fn law_text_without_separator_is_one_part(x: Seq<char>, separator: char)
    requires
        !x.contains(separator),
    ensures
        text::parts_between(x, separator) == seq![x],
    decreases x.len(),
{
    if x.len() > 0 {
        let front = x.drop_last();
        assert(x[x.len() - 1] != separator);
        assert forall|i: int| 0 <= i < front.len() implies #[trigger] front[i] != separator by {
            assert(x[i] != separator);
        }
        law_text_without_separator_is_one_part(front, separator);
        assert(front.push(x.last()) =~= x);
        assert(text::parts_between(x, separator) =~= seq![x]);
    } else {
        assert(x =~= Seq::empty());
    }
}

/// Joined texts come apart again: where no text holds the separator, the parts of
/// the joined text are the texts.
pub proof fn law_joined_texts_come_apart(rows: Seq<Seq<char>>, separator: char)
    requires
        rows.len() > 0,
        forall|i: int| 0 <= i < rows.len() ==> !(#[trigger] rows[i]).contains(separator),
    ensures
        text::parts_between(text::joined(rows, separator), separator) == rows,
    decreases rows.len(),
{
    let last = rows.len() - 1;
    assert(!rows[last].contains(separator));
    law_text_without_separator_is_one_part(rows[last], separator);
    if rows.len() == 1 {
        assert(rows =~= seq![rows[0]]);
    } else {
        let front = rows.drop_last();
        assert forall|i: int| 0 <= i < front.len() implies !(#[trigger] front[i]).contains(
            separator,
        ) by {
            assert(front[i] == rows[i]);
        }
        law_joined_texts_come_apart(front, separator);
        let a = text::joined(front, separator);
        law_parts_part_at_separators(a, separator, rows.last());
        assert(a.push(separator) + rows.last() =~= a + seq![separator] + rows.last());
        assert(front + seq![rows.last()] =~= rows);
    }
}

/// Joined words are the words again: where every text is a word, the words of the
/// texts with white space between them are the texts.
pub proof fn law_joined_words_are_the_words(words: Seq<Seq<char>>, between: char)
    requires
        text::is_white(between),
        forall|i: int| 0 <= i < words.len() ==> (#[trigger] words[i]).len() > 0,
        forall|i: int, j: int|
            0 <= i < words.len() && 0 <= j < words[i].len() ==> !text::is_white(
                #[trigger] words[i][j],
            ),
    ensures
        text::words_of(text::joined(words, between)) == words,
    decreases words.len(),
{
    if words.len() > 0 {
        let last = words.len() - 1;
        assert(words[last].len() > 0);
        assert forall|j: int| 0 <= j < words[last].len() implies !text::is_white(
            #[trigger] words[last][j],
        ) by {}
        law_text_without_white_space_is_a_word(words[last]);
        if words.len() == 1 {
            assert(words =~= seq![words[0]]);
        } else {
            let front = words.drop_last();
            assert forall|i: int| 0 <= i < front.len() implies (#[trigger] front[i]).len() > 0 by {
                assert(front[i] == words[i]);
            }
            assert forall|i: int, j: int|
                0 <= i < front.len() && 0 <= j < front[i].len() implies !text::is_white(
                #[trigger] front[i][j],
            ) by {
                assert(front[i][j] == words[i][j]);
            }
            law_joined_words_are_the_words(front, between);
            let a = text::joined(front, between);
            law_words_part_at_white_space(a, between, words.last());
            assert(a.push(between) + words.last() =~= a + seq![between] + words.last());
            assert(front + seq![words.last()] =~= words);
        }
    } else {
        assert(text::words_of(text::joined(words, between)) =~= words);
    }
}

/// Trimming takes away the white space at either end and nothing else: a text is
/// what was trimmed with white space around it, and what is left, unless it is
/// empty, begins and ends with something else.
pub proof fn law_trimming_takes_white_space_away(before: Seq<char>, x: Seq<char>, after: Seq<char>)
    requires
        forall|i: int| 0 <= i < before.len() ==> text::is_white(#[trigger] before[i]),
        forall|i: int| 0 <= i < after.len() ==> text::is_white(#[trigger] after[i]),
        x.len() > 0 ==> !text::is_white(x[0]) && !text::is_white(x.last()),
    ensures
        text::trimmed(before + x + after) == x,
    decreases before.len(),
{
    let whole = before + x + after;
    if before.len() > 0 {
        assert(text::is_white(before[0]));
        assert(whole[0] == before[0]);
        let rest = before.drop_first();
        assert forall|i: int| 0 <= i < rest.len() implies text::is_white(#[trigger] rest[i]) by {
            assert(rest[i] == before[i + 1]);
        }
        law_trimming_takes_white_space_away(rest, x, after);
        assert(whole.drop_first() =~= rest + x + after);
    } else if x.len() > 0 {
        assert(whole =~= x + after);
        assert(whole[0] == x[0]);
        assert(text::without_white_start(whole) == whole);
        assert forall|i: int| x.len() <= i < whole.len() implies (|c: char| text::is_white(c))(
            #[trigger] whole[i],
        ) by {
            assert(text::is_white(after[i - x.len()]));
        }
        assert(whole[x.len() - 1] == x.last());
        text::lemma_without_end(whole, |c: char| text::is_white(c), x.len() as int);
        assert(whole.take(x.len() as int) =~= x);
    } else {
        assert(whole =~= after);
        lemma_white_space_is_trimmed(after);
        assert(text::trimmed(after) =~= x);
    }
}

proof fn lemma_white_space_is_trimmed(x: Seq<char>)
    requires
        forall|i: int| 0 <= i < x.len() ==> text::is_white(#[trigger] x[i]),
    ensures
        text::trimmed(x).len() == 0,
    decreases x.len(),
{
    if x.len() > 0 {
        assert(text::is_white(x[0]));
        let rest = x.drop_first();
        assert forall|i: int| 0 <= i < rest.len() implies text::is_white(#[trigger] rest[i]) by {
            assert(rest[i] == x[i + 1]);
        }
        lemma_white_space_is_trimmed(rest);
    }
}

/// A text begins with another exactly where it is that one with something behind
/// it, and ends with another exactly where it is that one with something before it.
pub proof fn law_beginnings_and_endings(x: Seq<char>, rest: Seq<char>, whole: Seq<char>)
    ensures
        text::begins_with(x + rest, x),
        text::ends_with(rest + x, x),
        text::begins_with(whole, x) ==> whole == x + whole.skip(x.len() as int),
        text::ends_with(whole, x) ==> whole == whole.take(whole.len() - x.len()) + x,
{
    assert((x + rest).take(x.len() as int) =~= x);
    assert((rest + x).skip(rest.len() as int) =~= x);
    if text::begins_with(whole, x) {
        assert(whole =~= whole.take(x.len() as int) + whole.skip(x.len() as int));
    }
    if text::ends_with(whole, x) {
        let n = whole.len() - x.len();
        assert(whole =~= whole.take(n) + whole.skip(n));
    }
}

} // verus!
