//! What CTC decoding keeps: every prefix of the beam is what some label path
//! collapses to, and a label path adds to the prefix that it collapses to.
use vstd::prelude::*;
use crate::arithmetic;
use crate::arithmetic::Arithmetic;
use crate::decoding::ctc_beam;
use crate::decoding::ctc_beam::{CtcFrameTrace, CtcGain, CtcPrefix};
use crate::decoding::BeamConfig;
use crate::ranking;
use crate::single::{Bits, NEG_INFINITY};
use crate::tensor;
use crate::tensor::Tensor2;

verus! {

/// No two neighbours are equal.
pub open spec fn has_no_repeats(tokens: Seq<u32>) -> bool {
    forall|i: int, j: int|
        0 <= i < tokens.len() && j == i + 1 && j < tokens.len() ==> #[trigger] tokens[i]
            != #[trigger] tokens[j]
}

/// A collapsed path has no blank, is no longer than the path, and ends with the
/// last label of the path unless that is a blank.
pub proof fn law_collapsed_has_no_blank(path: Seq<u32>, blank: u32)
    ensures
        !ctc_beam::collapsed(path, blank).contains(blank),
        ctc_beam::collapsed(path, blank).len() <= path.len(),
        path.len() > 0 && path.last() != blank ==> ctc_beam::ends_with(
            ctc_beam::collapsed(path, blank),
            path.last(),
        ),
    decreases path.len(),
{
    if path.len() > 0 {
        law_collapsed_has_no_blank(path.drop_last(), blank);
        let rest = ctc_beam::collapsed(path.drop_last(), blank);
        let whole = ctc_beam::collapsed(path, blank);
        if whole.contains(blank) {
            let i = choose|i: int| 0 <= i < whole.len() && whole[i] == blank;
            if i < rest.len() {
                assert(rest[i] == blank);
            }
        }
    }
}

/// What a further label does to a collapsed path: a blank and a repeat leave it
/// as it is, and any other label is added to it. After a blank every label
/// counts as another one.
pub proof fn law_collapsing_goes_label_by_label(path: Seq<u32>, label: u32, blank: u32)
    ensures
        label == blank || ctc_beam::ends_with(path, label) ==> ctc_beam::collapsed(
            path.push(label),
            blank,
        ) == ctc_beam::collapsed(path, blank),
        label != blank && !ctc_beam::ends_with(path, label) ==> ctc_beam::collapsed(
            path.push(label),
            blank,
        ) == ctc_beam::collapsed(path, blank).push(label),
{
    assert(path.push(label).drop_last() =~= path);
}

/// Collapsing parts at a blank: what comes before it and what comes after it
/// collapse on their own.
pub proof fn law_collapsing_parts_at_a_blank(x: Seq<u32>, y: Seq<u32>, blank: u32)
    ensures
        ctc_beam::collapsed(x.push(blank) + y, blank) == ctc_beam::collapsed(x, blank)
            + ctc_beam::collapsed(y, blank),
    decreases y.len(),
{
    let whole = x.push(blank) + y;
    if y.len() == 0 {
        assert(whole =~= x.push(blank));
        law_collapsing_goes_label_by_label(x, blank, blank);
        assert(ctc_beam::collapsed(x, blank) + ctc_beam::collapsed(y, blank)
            =~= ctc_beam::collapsed(x, blank));
    } else {
        let front = y.drop_last();
        let label = y.last();
        law_collapsing_parts_at_a_blank(x, front, blank);
        assert(whole =~= (x.push(blank) + front).push(label));
        assert(front.push(label) =~= y);
        law_collapsing_goes_label_by_label(x.push(blank) + front, label, blank);
        law_collapsing_goes_label_by_label(front, label, blank);
        assert(ctc_beam::collapsed(x, blank) + ctc_beam::collapsed(front, blank).push(label)
            =~= (ctc_beam::collapsed(x, blank) + ctc_beam::collapsed(front, blank)).push(label));
    }
}

/// Collapsing parts where two different labels meet.
pub proof fn law_collapsing_parts_between_different_labels(x: Seq<u32>, y: Seq<u32>, blank: u32)
    requires
        x.len() > 0 && y.len() > 0 ==> x.last() != y[0],
    ensures
        ctc_beam::collapsed(x + y, blank) == ctc_beam::collapsed(x, blank) + ctc_beam::collapsed(
            y,
            blank,
        ),
    decreases y.len(),
{
    let whole = x + y;
    if y.len() == 0 {
        assert(whole =~= x);
        assert(ctc_beam::collapsed(x, blank) + ctc_beam::collapsed(y, blank)
            =~= ctc_beam::collapsed(x, blank));
    } else {
        let front = y.drop_last();
        let label = y.last();
        law_collapsing_parts_between_different_labels(x, front, blank);
        assert(whole =~= (x + front).push(label));
        assert(front.push(label) =~= y);
        if front.len() == 0 {
            assert(x + front =~= x);
        }
        law_collapsing_goes_label_by_label(x + front, label, blank);
        law_collapsing_goes_label_by_label(front, label, blank);
        assert(ctc_beam::collapsed(x, blank) + ctc_beam::collapsed(front, blank).push(label)
            =~= (ctc_beam::collapsed(x, blank) + ctc_beam::collapsed(front, blank)).push(label));
    }
}

/// Doubling a label of a path changes nothing.
pub proof fn law_doubling_a_label_changes_nothing(
    x: Seq<u32>,
    label: u32,
    y: Seq<u32>,
    blank: u32,
)
    ensures
        ctc_beam::collapsed(x.push(label).push(label) + y, blank) == ctc_beam::collapsed(
            x.push(label) + y,
            blank,
        ),
    decreases y.len(),
{
    let one = x.push(label);
    let two = one.push(label);
    if y.len() == 0 {
        assert(one + y =~= one);
        assert(two + y =~= two);
        law_collapsing_goes_label_by_label(one, label, blank);
    } else {
        let front = y.drop_last();
        let last = y.last();
        law_doubling_a_label_changes_nothing(x, label, front, blank);
        assert(one + y =~= (one + front).push(last));
        assert(two + y =~= (two + front).push(last));
        law_collapsing_goes_label_by_label(one + front, last, blank);
        law_collapsing_goes_label_by_label(two + front, last, blank);
        if front.len() == 0 {
            assert(one + front =~= one);
            assert(two + front =~= two);
        }
    }
}

/// A path without blanks and repeats is its own collapse.
pub proof fn law_clean_path_is_its_own_collapse(path: Seq<u32>, blank: u32)
    requires
        !path.contains(blank),
        has_no_repeats(path),
    ensures
        ctc_beam::collapsed(path, blank) == path,
    decreases path.len(),
{
    if path.len() > 0 {
        let front = path.drop_last();
        assert(path[path.len() - 1] != blank);
        assert(!front.contains(blank)) by {
            if front.contains(blank) {
                let i = choose|i: int| 0 <= i < front.len() && front[i] == blank;
                assert(path[i] == blank);
            }
        }
        assert forall|i: int, j: int| 0 <= i < front.len() && j == i + 1 && j < front.len() implies
            #[trigger] front[i] != #[trigger] front[j] by {
            assert(path[i] != path[j]);
        }
        law_clean_path_is_its_own_collapse(front, blank);
        if front.len() > 0 {
            assert(path[path.len() - 2] != path[path.len() - 1]);
        }
        assert(front.push(path.last()) =~= path);
    } else {
        assert(path =~= Seq::empty());
    }
}

/// `path` is a label path over `t` frames: a label of the vocabulary on each.
pub open spec fn is_label_path(path: Seq<u32>, t: nat, vocab: usize) -> bool {
    &&& path.len() == t
    &&& forall|i: int| 0 <= i < path.len() ==> (#[trigger] path[i]) < vocab
}

/// The path ends in a blank; so does the path over no frames.
pub open spec fn ends_in_blank(path: Seq<u32>, blank: u32) -> bool {
    path.len() == 0 || path.last() == blank
}

/// The number of places where a token equals the one before it.
pub open spec fn equal_neighbours(tokens: Seq<u32>) -> nat
    decreases tokens.len(),
{
    if tokens.len() == 0 {
        0
    } else {
        equal_neighbours(tokens.drop_last()) + if ctc_beam::ends_with(
            tokens.drop_last(),
            tokens.last(),
        ) {
            1nat
        } else {
            0nat
        }
    }
}

/// Equal neighbours in a collapsed path cost a blank between them: its length and
/// the number of its equal neighbours are together no more than the labels of the
/// path.
pub proof fn law_equal_neighbours_take_a_blank(path: Seq<u32>, blank: u32)
    ensures
        ctc_beam::collapsed(path, blank).len() + equal_neighbours(
            ctc_beam::collapsed(path, blank),
        ) <= path.len(),
        path.len() > 0 && path.last() == blank ==> ctc_beam::collapsed(path, blank).len()
            + equal_neighbours(ctc_beam::collapsed(path, blank)) < path.len(),
    decreases path.len(),
{
    if path.len() > 0 {
        let front = path.drop_last();
        law_equal_neighbours_take_a_blank(front, blank);
        law_collapsed_has_no_blank(front, blank);
        let rest = ctc_beam::collapsed(front, blank);
        let whole = ctc_beam::collapsed(path, blank);
        if path.last() != blank && !ctc_beam::ends_with(front, path.last()) {
            assert(whole.drop_last() =~= rest);
        }
    }
}

/// The prefix to which a path adds that goes on with `label`, where it has added
/// to `prefix` before: a blank leaves the prefix as it is, a label that follows
/// on itself does too, and any other label makes the prefix longer.
pub open spec fn continued(
    prefix: Seq<u32>,
    after_blank: bool,
    label: u32,
    blank: u32,
) -> Seq<u32> {
    if label == blank || !after_blank && ctc_beam::ends_with(prefix, label) {
        prefix
    } else {
        prefix.push(label)
    }
}

/// A path that has added to the prefix it collapses to adds to the prefix that it
/// collapses to with one more label.
pub proof fn law_paths_add_to_their_own_collapse(path: Seq<u32>, label: u32, blank: u32)
    ensures
        ctc_beam::collapsed(path.push(label), blank) == continued(
            ctc_beam::collapsed(path, blank),
            ends_in_blank(path, blank),
            label,
            blank,
        ),
        ends_in_blank(path.push(label), blank) == (label == blank),
{
    law_collapsing_goes_label_by_label(path, label, blank);
    law_collapsed_has_no_blank(path, blank);
}

/// What a frame adds by a blank and by a label goes to the prefixes that the paths
/// continue to: what the paths that end in a blank hand on goes where such a path
/// goes, and what the others hand on goes where one of them goes.
pub proof fn law_gains_follow_the_paths<A: Arithmetic>(
    m: &A,
    e: CtcPrefix,
    label: u32,
    blank: u32,
    log_p: Bits,
    before: Seq<CtcGain>,
    gains: Seq<CtcGain>,
    blank_gain: CtcGain,
)
    requires
        label != blank,
        ctc_beam::label_adds(m, e, label, log_p, before, gains),
        ctc_beam::is_blank_gain(m, e, log_p, blank_gain),
    ensures
        blank_gain.prefix == continued(e.prefix, true, blank, blank),
        blank_gain.prefix == continued(e.prefix, false, blank, blank),
        ctc_beam::ends_with(e.prefix, label) ==> {
            &&& gains[before.len() as int].prefix == continued(e.prefix, false, label, blank)
            &&& arithmetic::sum_is(m, e.log_pnb, log_p, gains[before.len() as int].value)
        },
        ctc_beam::ends_with(e.prefix, label) && e.log_pb == NEG_INFINITY ==> gains.len()
            == before.len() + 1,
        ctc_beam::ends_with(e.prefix, label) && e.log_pb != NEG_INFINITY ==> {
            &&& gains.len() == before.len() + 2
            &&& gains[before.len() as int + 1].prefix == continued(e.prefix, true, label, blank)
            &&& arithmetic::sum_is(m, e.log_pb, log_p, gains[before.len() as int + 1].value)
        },
        !ctc_beam::ends_with(e.prefix, label) ==> {
            &&& gains.len() == before.len() + 1
            &&& gains[before.len() as int].prefix == continued(e.prefix, true, label, blank)
            &&& gains[before.len() as int].prefix == continued(e.prefix, false, label, blank)
            &&& ctc_beam::handed_on_is(m, e, log_p, gains[before.len() as int].value)
        },
{
}

/// A label path over `t` frames, one that ends in a blank or one that does not,
/// collapses to `prefix`.
pub open spec fn is_reached(
    prefix: Seq<u32>,
    after_blank: bool,
    t: nat,
    vocab: usize,
    blank_id: usize,
) -> bool {
    exists|path: Seq<u32>| #[trigger]
        is_label_path(path, t, vocab) && ctc_beam::collapsed(path, blank_id as u32) == prefix
            && ends_in_blank(path, blank_id as u32) == after_blank
}

/// `prefix` holds labels of the vocabulary but the blank, and no more of them than
/// frames.
pub open spec fn is_clean(prefix: Seq<u32>, t: nat, vocab: usize, blank_id: usize) -> bool {
    &&& prefix.len() <= t
    &&& forall|i: int| 0 <= i < prefix.len() ==> (#[trigger] prefix[i]) < vocab
    &&& !prefix.contains(blank_id as u32)
}

/// The entries all have different prefixes.
pub open spec fn prefixes_differ(beam: Seq<CtcPrefix>) -> bool {
    forall|i: int, j: int|
        0 <= i < j < beam.len() ==> (#[trigger] beam[i]).prefix != (#[trigger] beam[j]).prefix
}

proof fn lemma_label_reaches(
    prefix: Seq<u32>,
    after_blank: bool,
    label: usize,
    t: nat,
    vocab: usize,
    blank_id: usize,
)
    requires
        is_reached(prefix, after_blank, t, vocab, blank_id),
        blank_id < vocab <= u32::MAX,
        label < vocab,
    ensures
        is_reached(
            continued(prefix, after_blank, label as u32, blank_id as u32),
            label == blank_id,
            t + 1,
            vocab,
            blank_id,
        ),
{
    let blank = blank_id as u32;
    let token = label as u32;
    let path = choose|path: Seq<u32>| #[trigger]
        is_label_path(path, t, vocab) && ctc_beam::collapsed(path, blank) == prefix
            && ends_in_blank(path, blank) == after_blank;
    law_paths_add_to_their_own_collapse(path, token, blank);
    let longer = path.push(token);
    assert forall|i: int| 0 <= i < longer.len() implies (#[trigger] longer[i]) < vocab by {
        if i < path.len() {
            assert(longer[i] == path[i]);
        }
    }
    assert(is_label_path(longer, t + 1, vocab));
}

/// A run that a path ends on can go on: where the path collapses to a prefix that
/// ends in `label`, one that is a label longer does too and ends in that label.
proof fn lemma_run_goes_on(path: Seq<u32>, label: usize, t: nat, vocab: usize, blank_id: usize)
    requires
        is_label_path(path, t, vocab),
        blank_id < vocab <= u32::MAX,
        label < vocab,
        label != blank_id,
        ctc_beam::ends_with(ctc_beam::collapsed(path, blank_id as u32), label as u32),
    ensures
        is_reached(
            ctc_beam::collapsed(path, blank_id as u32),
            false,
            t + 1,
            vocab,
            blank_id,
        ),
    decreases path.len(),
{
    let blank = blank_id as u32;
    let prefix = ctc_beam::collapsed(path, blank);
    law_collapsed_has_no_blank(path, blank);
    if path.last() == blank {
        let front = path.drop_last();
        assert forall|i: int| 0 <= i < front.len() implies (#[trigger] front[i]) < vocab by {
            assert(front[i] == path[i]);
        }
        lemma_run_goes_on(front, label, (t - 1) as nat, vocab, blank_id);
        let other = choose|other: Seq<u32>| #[trigger]
            is_label_path(other, t, vocab) && ctc_beam::collapsed(other, blank) == prefix
                && ends_in_blank(other, blank) == false;
        assert(is_reached(prefix, false, t, vocab, blank_id));
        law_collapsed_has_no_blank(other, blank);
        assert(continued(prefix, false, label as u32, blank) == prefix);
        lemma_label_reaches(prefix, false, label, t, vocab, blank_id);
    } else {
        assert(continued(prefix, false, label as u32, blank) == prefix);
        assert(is_reached(prefix, false, t, vocab, blank_id));
        lemma_label_reaches(prefix, false, label, t, vocab, blank_id);
    }
}

proof fn lemma_collapsed_holds_labels(path: Seq<u32>, t: nat, vocab: usize, blank: u32)
    requires
        is_label_path(path, t, vocab),
    ensures
        forall|i: int|
            0 <= i < ctc_beam::collapsed(path, blank).len() ==> (#[trigger] ctc_beam::collapsed(
                path,
                blank,
            )[i]) < vocab,
    decreases path.len(),
{
    if path.len() > 0 {
        let front = path.drop_last();
        assert forall|i: int| 0 <= i < front.len() implies (#[trigger] front[i]) < vocab by {
            assert(front[i] == path[i]);
        }
        lemma_collapsed_holds_labels(front, (t - 1) as nat, vocab, blank);
        assert(path[path.len() - 1] < vocab);
        let rest = ctc_beam::collapsed(front, blank);
        let whole = ctc_beam::collapsed(path, blank);
        assert forall|i: int| 0 <= i < whole.len() implies (#[trigger] whole[i]) < vocab by {
            if i < rest.len() {
                assert(rest[i] == whole[i]);
            }
        }
    }
}

/// A prefix that is reached holds labels but the blank; its length and the number
/// of its equal neighbours are together no more than the frames.
pub proof fn law_reached_prefixes_are_clean(
    prefix: Seq<u32>,
    after_blank: bool,
    t: nat,
    vocab: usize,
    blank_id: usize,
)
    requires
        is_reached(prefix, after_blank, t, vocab, blank_id),
    ensures
        is_clean(prefix, t, vocab, blank_id),
        prefix.len() + equal_neighbours(prefix) <= t,
{
    let blank = blank_id as u32;
    let path = choose|path: Seq<u32>| #[trigger]
        is_label_path(path, t, vocab) && ctc_beam::collapsed(path, blank) == prefix
            && ends_in_blank(path, blank) == after_blank;
    law_collapsed_has_no_blank(path, blank);
    law_equal_neighbours_take_a_blank(path, blank);
    lemma_collapsed_holds_labels(path, t, vocab, blank);
}

/// The prefix of the gain is reached by a path that ends as the gain says.
pub open spec fn gain_is_backed(gain: CtcGain, t: nat, vocab: usize, blank_id: usize) -> bool {
    is_reached(gain.prefix, gain.ends_in_blank, t, vocab, blank_id)
}

/// The prefix of the entry is reached, and by a path of each kind that it holds a
/// log-probability for.
pub open spec fn entry_is_backed(e: CtcPrefix, t: nat, vocab: usize, blank_id: usize) -> bool {
    &&& is_reached(e.prefix, true, t, vocab, blank_id) || is_reached(
        e.prefix,
        false,
        t,
        vocab,
        blank_id,
    )
    &&& e.log_pb != NEG_INFINITY ==> is_reached(e.prefix, true, t, vocab, blank_id)
    &&& e.log_pnb != NEG_INFINITY ==> is_reached(e.prefix, false, t, vocab, blank_id)
}

/// Every gain is backed.
pub open spec fn gains_are_backed(
    gains: Seq<CtcGain>,
    t: nat,
    vocab: usize,
    blank_id: usize,
) -> bool {
    forall|i: int|
        0 <= i < gains.len() ==> gain_is_backed(
            #[trigger] gains[i],
            t,
            vocab,
            blank_id,
        )
}

/// Every entry is backed.
pub open spec fn beam_is_backed(
    beam: Seq<CtcPrefix>,
    t: nat,
    vocab: usize,
    blank_id: usize,
) -> bool {
    forall|i: int|
        0 <= i < beam.len() ==> entry_is_backed(#[trigger] beam[i], t, vocab, blank_id)
}

proof fn lemma_handed_on_is_reached(
    e: CtcPrefix,
    label: usize,
    t: nat,
    vocab: usize,
    blank_id: usize,
)
    requires
        label < vocab <= u32::MAX,
        blank_id < vocab,
        label == blank_id || !ctc_beam::ends_with(e.prefix, label as u32),
        entry_is_backed(e, t, vocab, blank_id),
    ensures
        is_reached(
            continued(e.prefix, true, label as u32, blank_id as u32),
            label == blank_id,
            t + 1,
            vocab,
            blank_id,
        ),
{
    if is_reached(e.prefix, true, t, vocab, blank_id) {
        lemma_label_reaches(e.prefix, true, label, t, vocab, blank_id);
    } else {
        lemma_label_reaches(e.prefix, false, label, t, vocab, blank_id);
    }
}

proof fn lemma_repeat_is_reached(
    e: CtcPrefix,
    label: usize,
    t: nat,
    vocab: usize,
    blank_id: usize,
)
    requires
        label < vocab <= u32::MAX,
        blank_id < vocab,
        label != blank_id,
        ctc_beam::ends_with(e.prefix, label as u32),
        entry_is_backed(e, t, vocab, blank_id),
    ensures
        is_reached(e.prefix, false, t + 1, vocab, blank_id),
        e.log_pb != NEG_INFINITY ==> is_reached(
            e.prefix.push(label as u32),
            false,
            t + 1,
            vocab,
            blank_id,
        ),
{
    let blank = blank_id as u32;
    let after_blank = is_reached(e.prefix, true, t, vocab, blank_id);
    let path = choose|path: Seq<u32>| #[trigger]
        is_label_path(path, t, vocab) && ctc_beam::collapsed(path, blank) == e.prefix
            && ends_in_blank(path, blank) == after_blank;
    lemma_run_goes_on(path, label, t, vocab, blank_id);
    if e.log_pb != NEG_INFINITY {
        lemma_label_reaches(e.prefix, true, label, t, vocab, blank_id);
    }
}

proof fn lemma_labels_are_backed<A: Arithmetic>(
    m: &A,
    e: CtcPrefix,
    log_probs: Seq<Bits>,
    labels: Seq<usize>,
    n: nat,
    blank_id: usize,
    held: Seq<CtcGain>,
    gains: Seq<CtcGain>,
    t: nat,
)
    requires
        ctc_beam::labels_add(m, e, log_probs, labels, n, blank_id, held, gains),
        n <= labels.len(),
        forall|i: int| 0 <= i < labels.len() ==> #[trigger] labels[i] < log_probs.len(),
        blank_id < log_probs.len() <= u32::MAX,
        entry_is_backed(e, t, log_probs.len() as usize, blank_id),
        gains_are_backed(held, t + 1, log_probs.len() as usize, blank_id),
    ensures
        gains_are_backed(gains, t + 1, log_probs.len() as usize, blank_id),
        gains.len() >= held.len(),
    decreases n,
{
    let vocab = log_probs.len() as usize;
    if n > 0 {
        let label = labels[n - 1];
        if label == blank_id {
            lemma_labels_are_backed(
                m,
                e,
                log_probs,
                labels,
                (n - 1) as nat,
                blank_id,
                held,
                gains,
                t,
                );
        } else {
            let before = choose|before: Seq<CtcGain>|
                {
                    &&& ctc_beam::labels_add(
                        m,
                        e,
                        log_probs,
                        labels,
                        (n - 1) as nat,
                        blank_id,
                        held,
                        before,
                    )
                    &&& #[trigger] ctc_beam::label_adds(
                        m,
                        e,
                        label as u32,
                        log_probs[label as int],
                        before,
                        gains,
                    )
                };
            lemma_labels_are_backed(
                m,
                e,
                log_probs,
                labels,
                (n - 1) as nat,
                blank_id,
                held,
                before,
                t,
                );
            let k = before.len() as int;
            assert(label as u32 != blank_id as u32);
            if ctc_beam::ends_with(e.prefix, label as u32) {
                lemma_repeat_is_reached(e, label, t, vocab, blank_id);
            } else {
                lemma_handed_on_is_reached(e, label, t, vocab, blank_id);
            }
            assert forall|i: int| 0 <= i < gains.len() implies gain_is_backed(
                #[trigger] gains[i],
                t + 1,
                vocab,
                blank_id,
                ) by {
                if i < before.len() {
                    assert(gains.take(k)[i] == gains[i]);
                    assert(before[i] == gains[i]);
                }
            }
        }
    }
}

proof fn lemma_beam_adds_backed<A: Arithmetic>(
    m: &A,
    beam: Seq<CtcPrefix>,
    log_probs: Seq<Bits>,
    labels: Seq<usize>,
    blank_id: usize,
    gains: Seq<CtcGain>,
    t: nat,
)
    requires
        ctc_beam::beam_adds(m, beam, log_probs, labels, blank_id, gains),
        forall|i: int| 0 <= i < labels.len() ==> #[trigger] labels[i] < log_probs.len(),
        blank_id < log_probs.len() <= u32::MAX,
        beam_is_backed(beam, t, log_probs.len() as usize, blank_id),
    ensures
        gains_are_backed(gains, t + 1, log_probs.len() as usize, blank_id),
        gains.len() >= beam.len(),
    decreases beam.len(),
{
    let vocab = log_probs.len() as usize;
    if beam.len() > 0 {
        let e = beam.last();
        let held = choose|held: Seq<CtcGain>|
            {
                &&& ctc_beam::beam_adds(m, beam.drop_last(), log_probs, labels, blank_id, held)
                &&& #[trigger] ctc_beam::entry_adds(
                    m,
                    e,
                    log_probs,
                    labels,
                    blank_id,
                    held,
                    gains,
                )
            };
        let front = beam.drop_last();
        assert forall|i: int| 0 <= i < front.len() implies entry_is_backed(
            #[trigger] front[i],
            t,
            vocab,
            blank_id,
        ) by {
            assert(front[i] == beam[i]);
        }
        lemma_beam_adds_backed(m, front, log_probs, labels, blank_id, held, t);
        let blank_gain = choose|blank_gain: CtcGain|
            {
                &&& #[trigger] ctc_beam::is_blank_gain(
                    m,
                    e,
                    log_probs[blank_id as int],
                    blank_gain,
                )
                &&& ctc_beam::labels_add(
                    m,
                    e,
                    log_probs,
                    labels,
                    labels.len(),
                    blank_id,
                    held.push(blank_gain),
                    gains,
                )
            };
        assert(entry_is_backed(beam[beam.len() - 1], t, vocab, blank_id));
        lemma_handed_on_is_reached(e, blank_id, t, vocab, blank_id);
        let start = held.push(blank_gain);
        assert forall|i: int| 0 <= i < start.len() implies gain_is_backed(
            #[trigger] start[i],
            t + 1,
            vocab,
            blank_id,
        ) by {
            if i < held.len() {
                assert(start[i] == held[i]);
            }
        }
        lemma_labels_are_backed(
            m,
            e,
            log_probs,
            labels,
            labels.len(),
            blank_id,
            start,
            gains,
            t,
        );
    }
}

proof fn lemma_entries_are_backed<A: Arithmetic>(
    m: &A,
    gains: Seq<CtcGain>,
    entries: Seq<CtcPrefix>,
    t: nat,
    vocab: usize,
    blank_id: usize,
)
    requires
        ctc_beam::added_up(m, gains, entries),
        gains_are_backed(gains, t, vocab, blank_id),
    ensures
        beam_is_backed(entries, t, vocab, blank_id),
    decreases gains.len(),
{
    if gains.len() > 0 {
        let front = gains.drop_last();
        let gain = gains.last();
        let (held, at, after) = choose|held: Seq<CtcPrefix>, at: int, after: CtcPrefix|
            ctc_beam::added_up(m, front, held) && #[trigger] ctc_beam::absorbs(
                m,
                held,
                gain,
                at,
                after,
                entries,
            );
        assert forall|i: int| 0 <= i < front.len() implies gain_is_backed(
            #[trigger] front[i],
            t,
            vocab,
            blank_id,
        ) by {
            assert(front[i] == gains[i]);
        }
        lemma_entries_are_backed(m, front, held, t, vocab, blank_id);
        assert(gain_is_backed(gains[gains.len() - 1], t, vocab, blank_id));
        assert forall|i: int| 0 <= i < entries.len() implies entry_is_backed(
            #[trigger] entries[i],
            t,
            vocab,
            blank_id,
        ) by {
            if i < held.len() {
                assert(entry_is_backed(held[i], t, vocab, blank_id));
            }
            if i == at {
                assert(entries[i] == after);
            } else {
                assert(entries[i] == held[i]);
            }
        }
    }
}

/// A gain is for `prefix`.
pub open spec fn is_gained(gains: Seq<CtcGain>, prefix: Seq<u32>) -> bool {
    exists|j: int| 0 <= j < gains.len() && (#[trigger] gains[j]).prefix == prefix
}

/// An entry is for `prefix`.
pub open spec fn is_held(entries: Seq<CtcPrefix>, prefix: Seq<u32>) -> bool {
    exists|i: int| 0 <= i < entries.len() && (#[trigger] entries[i]).prefix == prefix
}

/// What gains add up to has one entry for each of their prefixes.
pub proof fn law_adding_up_leaves_one_of_each_prefix<A: Arithmetic>(
    m: &A,
    gains: Seq<CtcGain>,
    entries: Seq<CtcPrefix>,
)
    requires
        ctc_beam::added_up(m, gains, entries),
    ensures
        prefixes_differ(entries),
        forall|prefix: Seq<u32>| #[trigger] is_held(entries, prefix) <==> is_gained(gains, prefix),
    decreases gains.len(),
{
    if gains.len() > 0 {
        let front = gains.drop_last();
        let gain = gains.last();
        let (held, at, after) = choose|held: Seq<CtcPrefix>, at: int, after: CtcPrefix|
            ctc_beam::added_up(m, front, held) && #[trigger] ctc_beam::absorbs(
                m,
                held,
                gain,
                at,
                after,
                entries,
            );
        law_adding_up_leaves_one_of_each_prefix(m, front, held);
        assert(after.prefix == gain.prefix);
        assert forall|i: int, j: int| 0 <= i < j < entries.len() implies (
        #[trigger] entries[i]).prefix != (#[trigger] entries[j]).prefix by {
            assert(entries[i].prefix == held[i].prefix);
            if j < held.len() {
                assert(held[i].prefix != held[j].prefix);
            }
        }
        assert forall|prefix: Seq<u32>| #[trigger] is_held(entries, prefix) <==> is_gained(
            gains,
            prefix,
        ) by {
            if is_held(entries, prefix) {
                let i = choose|i: int|
                    0 <= i < entries.len() && (#[trigger] entries[i]).prefix == prefix;
                if i < held.len() {
                    assert(held[i].prefix == prefix);
                    assert(is_held(held, prefix));
                    let j = choose|j: int|
                        0 <= j < front.len() && (#[trigger] front[j]).prefix == prefix;
                    assert(gains[j].prefix == prefix);
                } else {
                    assert(gains[gains.len() - 1].prefix == prefix);
                }
            }
            if is_gained(gains, prefix) {
                let j = choose|j: int|
                    0 <= j < gains.len() && (#[trigger] gains[j]).prefix == prefix;
                if j < front.len() {
                    assert(front[j].prefix == prefix);
                    assert(is_gained(front, prefix));
                    assert(is_held(held, prefix));
                    let i = choose|i: int|
                        0 <= i < held.len() && (#[trigger] held[i]).prefix == prefix;
                    assert(entries[i].prefix == prefix);
                } else {
                    assert(entries[at].prefix == prefix);
                }
            }
        }
    }
}

/// After `t` frames the prefixes of the beam are all different, and there are
/// between one and `beam_size` of them. Each is what some label path over those
/// frames collapses to: one that ends in a blank, or one that does not, as its
/// log-probabilities say.
pub proof fn law_prefixes_are_collapsed_paths<A: Arithmetic>(
    m: &A,
    logits: Tensor2,
    blank_id: usize,
    beam_size: usize,
    t: nat,
    beam: Seq<CtcPrefix>,
)
    requires
        ctc_beam::beam_after(m, logits, blank_id, beam_size, t, beam),
        t <= tensor::tensor2_shape(logits).0,
        blank_id < tensor::tensor2_shape(logits).1 <= u32::MAX,
        beam_size > 0,
    ensures
        beam_is_backed(beam, t, tensor::tensor2_shape(logits).1, blank_id),
        prefixes_differ(beam),
        1 <= beam.len() <= beam_size,
    decreases t,
{
    let vocab = tensor::tensor2_shape(logits).1;
    if t == 0 {
        let path = Seq::<u32>::empty();
        assert(is_label_path(path, 0, vocab));
        assert(ctc_beam::collapsed(path, blank_id as u32) =~= Seq::empty());
        assert(is_reached(Seq::empty(), true, 0, vocab, blank_id));
    } else {
        let row = tensor::row_items(logits, t - 1);
        let before = choose|before: Seq<CtcPrefix>|
            {
                &&& ctc_beam::beam_after(
                    m,
                    logits,
                    blank_id,
                    beam_size,
                    (t - 1) as nat,
                    before,
                )
                &&& #[trigger] ctc_beam::frame_is(m, row, blank_id, beam_size, before, beam)
            };
        law_prefixes_are_collapsed_paths(m, logits, blank_id, beam_size, (t - 1) as nat, before);
        let w = choose|w: CtcFrameTrace| #[trigger]
            ctc_beam::frame_traced(m, row, blank_id, beam_size, before, w, beam);
        lemma_beam_adds_backed(
            m,
            before,
            w.log_probs,
            w.labels,
            blank_id,
            w.gains,
            (t - 1) as nat,
        );
        lemma_entries_are_backed(m, w.gains, w.entries, t, vocab, blank_id);
        law_adding_up_leaves_one_of_each_prefix(m, w.gains, w.entries);
        let (keys, order) = choose|keys: Seq<Bits>, order: Seq<usize>|
            {
                &&& #[trigger] ctc_beam::keys_are(m, w.entries, keys)
                &&& #[trigger] ranking::is_top(keys, beam_size as nat, order)
                &&& beam == ranking::pick(w.entries, order)
            };
        assert(w.entries.len() > 0) by {
            assert(is_gained(w.gains, w.gains[0].prefix));
            assert(is_held(w.entries, w.gains[0].prefix));
        }
        ranking::law_top_keeps_the_best(keys, beam_size as nat, order);
        assert forall|i: int| 0 <= i < beam.len() implies entry_is_backed(
            #[trigger] beam[i],
            t,
            vocab,
            blank_id,
        ) by {
            assert(beam[i] == w.entries[order[i] as int]);
        }
        assert forall|i: int, j: int| 0 <= i < j < beam.len() implies (#[trigger] beam[i]).prefix
            != (#[trigger] beam[j]).prefix by {
            assert(order[i] != order[j]);
            assert(beam[i] == w.entries[order[i] as int]);
            assert(beam[j] == w.entries[order[j] as int]);
            if order[i] < order[j] {
                assert(w.entries[order[i] as int].prefix != w.entries[order[j] as int].prefix);
            } else {
                assert(w.entries[order[j] as int].prefix != w.entries[order[i] as int].prefix);
            }
        }
    }
}

/// The decoded tokens are what some label path over all the frames collapses to:
/// labels but the blank, whose length and number of equal neighbours are together
/// no more than the frames.
pub proof fn law_result_is_a_collapsed_path<A: Arithmetic>(
    m: &A,
    logits: Tensor2,
    blank_id: usize,
    config: BeamConfig,
    tokens: Seq<u32>,
)
    requires
        ctc_beam::decodes(m, logits, blank_id, config, tokens),
        tensor::tensor2_shape(logits).0 > 0 ==> blank_id < tensor::tensor2_shape(logits).1,
        tensor::tensor2_shape(logits).1 <= u32::MAX,
    ensures
        exists|path: Seq<u32>|
            {
                &&& #[trigger] is_label_path(
                    path,
                    tensor::tensor2_shape(logits).0 as nat,
                    tensor::tensor2_shape(logits).1,
                )
                &&& ctc_beam::collapsed(path, blank_id as u32) == tokens
            },
        is_clean(
            tokens,
            tensor::tensor2_shape(logits).0 as nat,
            tensor::tensor2_shape(logits).1,
            blank_id,
        ),
        tokens.len() + equal_neighbours(tokens) <= tensor::tensor2_shape(logits).0,
{
    let (frames, vocab) = tensor::tensor2_shape(logits);
    if frames == 0 {
        let path = Seq::<u32>::empty();
        assert(is_label_path(path, 0, vocab));
        assert(ctc_beam::collapsed(path, blank_id as u32) =~= tokens);
    } else {
        let beam_size = ctc_beam::effective_beam_size(config);
        let (beam, keys) = choose|beam: Seq<CtcPrefix>, keys: Seq<Bits>|
            {
                &&& ctc_beam::beam_after(m, logits, blank_id, beam_size, frames as nat, beam)
                &&& #[trigger] ctc_beam::keys_are(m, beam, keys)
                &&& if beam.len() == 0 {
                    tokens.len() == 0
                } else {
                    tokens == beam[ranking::last_max(keys)].prefix
                }
            };
        law_prefixes_are_collapsed_paths(m, logits, blank_id, beam_size, frames as nat, beam);
        ranking::lemma_last_max_bounds(keys);
        let e = beam[ranking::last_max(keys)];
        assert(entry_is_backed(e, frames as nat, vocab, blank_id));
        let after_blank = is_reached(e.prefix, true, frames as nat, vocab, blank_id);
        let path = choose|path: Seq<u32>| #[trigger]
            is_label_path(path, frames as nat, vocab) && ctc_beam::collapsed(
                path,
                blank_id as u32,
            ) == e.prefix && ends_in_blank(path, blank_id as u32) == after_blank;
        assert(is_label_path(path, frames as nat, vocab));
        law_reached_prefixes_are_clean(
            e.prefix,
            after_blank,
            frames as nat,
            vocab,
            blank_id,
        );
    }
}

/// Of the search parameters CTC decoding reads the beam size alone, and no beam
/// counts as a beam of one.
pub proof fn law_only_the_beam_size_is_read<A: Arithmetic>(
    m: &A,
    logits: Tensor2,
    blank_id: usize,
    config: BeamConfig,
    other: BeamConfig,
    tokens: Seq<u32>,
)
    requires
        ctc_beam::effective_beam_size(config) == ctc_beam::effective_beam_size(other),
    ensures
        ctc_beam::decodes(m, logits, blank_id, config, tokens) == ctc_beam::decodes(
            m,
            logits,
            blank_id,
            other,
            tokens,
        ),
{
}

} // verus!
