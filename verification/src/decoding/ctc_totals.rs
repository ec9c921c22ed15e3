//! CTC prefix beam search and total probabilities: up to rounding, the score of a
//! prefix is the total probability of its label paths, and where nothing is
//! pruned, the result is the most probable labelling.
//!
//! How far the operations of a run round is a premise of these laws. It is asked
//! of those operations alone, and their number is the exponent in what is
//! concluded; without rounding the conclusions are exact.
use vstd::prelude::*;
use crate::arithmetic;
use crate::arithmetic::Arithmetic;
use crate::decoding::ctc_beam;
use crate::decoding::ctc_beam::{CtcFrameTrace, CtcGain, CtcPrefix};
use crate::decoding::ctc_laws;
use crate::decoding::BeamConfig;
use crate::ranking;
use crate::rounding;
use crate::rounding::{near, power};
use crate::single;
use crate::single::{Bits, NEG_INFINITY};
use crate::single_valued;
use crate::tensor;
use crate::tensor::Tensor2;

verus! {

/// The log-probability of the paths that end in a blank, or of those that do not.
pub open spec fn share(e: CtcPrefix, after_blank: bool) -> Bits {
    if after_blank {
        e.log_pb
    } else {
        e.log_pnb
    }
}

/// The number where the condition holds, and nothing otherwise.
pub open spec fn only_if(condition: bool, x: real) -> real {
    if condition {
        x
    } else {
        0 as real
    }
}

/// The probability of a label path: the product of the chances of its labels,
/// each on its frame.
pub open spec fn path_probability(path: Seq<u32>, chances: spec_fn(nat, u32) -> real) -> real
    decreases path.len(),
{
    if path.len() == 0 {
        1 as real
    } else {
        path_probability(path.drop_last(), chances) * chances(
            (path.len() - 1) as nat,
            path.last(),
        )
    }
}

/// The total probability of those of the paths that collapse to `prefix` and end
/// in a blank, or do not.
pub open spec fn total(
    paths: Seq<Seq<u32>>,
    blank: u32,
    chances: spec_fn(nat, u32) -> real,
    prefix: Seq<u32>,
    after_blank: bool,
) -> real
    decreases paths.len(),
{
    if paths.len() == 0 {
        0 as real
    } else {
        total(paths.drop_last(), blank, chances, prefix, after_blank) + only_if(
            ctc_beam::collapsed(paths.last(), blank) == prefix && ctc_laws::ends_in_blank(
                paths.last(),
                blank,
            ) == after_blank,
            path_probability(paths.last(), chances),
        )
    }
}

/// The probability of a labelling: the total of the label paths that collapse to
/// it.
pub open spec fn probability(
    paths: Seq<Seq<u32>>,
    blank: u32,
    chances: spec_fn(nat, u32) -> real,
    tokens: Seq<u32>,
) -> real {
    total(paths, blank, chances, tokens, true) + total(paths, blank, chances, tokens, false)
}

/// The labels that a frame goes on with: the blank, and the first `n` of those
/// taken up, the blank among them left out.
pub open spec fn taken(labels: Seq<usize>, n: nat, blank_id: usize) -> Seq<u32>
    decreases n,
{
    if n == 0 {
        seq![blank_id as u32]
    } else if labels[n - 1] == blank_id {
        taken(labels, (n - 1) as nat, blank_id)
    } else {
        taken(labels, (n - 1) as nat, blank_id).push(labels[n - 1] as u32)
    }
}

/// The path with each of the labels behind.
pub open spec fn longer(path: Seq<u32>, labels: Seq<u32>) -> Seq<Seq<u32>> {
    Seq::new(labels.len(), |k: int| path.push(labels[k]))
}

/// Every path with each of the labels behind.
pub open spec fn all_longer(paths: Seq<Seq<u32>>, labels: Seq<u32>) -> Seq<Seq<u32>>
    decreases paths.len(),
{
    if paths.len() == 0 {
        Seq::empty()
    } else {
        all_longer(paths.drop_last(), labels) + longer(paths.last(), labels)
    }
}

/// The label paths over the first `t` frames through the labels that each frame
/// takes up.
pub open spec fn label_paths(orders: Seq<Seq<usize>>, blank_id: usize, t: nat) -> Seq<Seq<u32>>
    decreases t,
{
    if t == 0 {
        seq![Seq::empty()]
    } else {
        all_longer(
            label_paths(orders, blank_id, (t - 1) as nat),
            taken(orders[t - 1], orders[t - 1].len(), blank_id),
        )
    }
}

/// The probability that a path goes on, by one of the labels on frame `t`, from a
/// prefix to another.
pub open spec fn going_on(
    labels: Seq<u32>,
    t: nat,
    blank: u32,
    chances: spec_fn(nat, u32) -> real,
    from: Seq<u32>,
    from_blank: bool,
    to: Seq<u32>,
    to_blank: bool,
) -> real
    decreases labels.len(),
{
    if labels.len() == 0 {
        0 as real
    } else {
        going_on(labels.drop_last(), t, blank, chances, from, from_blank, to, to_blank) + only_if(
            ctc_laws::continued(from, from_blank, labels.last(), blank) == to && (labels.last()
                == blank) == to_blank,
            chances(t, labels.last()),
        )
    }
}

/// How a path goes on from a prefix, as a weight of the prefix.
pub open spec fn going_on_from(
    labels: Seq<u32>,
    t: nat,
    blank: u32,
    chances: spec_fn(nat, u32) -> real,
    to: Seq<u32>,
    to_blank: bool,
) -> spec_fn(Seq<u32>, bool) -> real {
    |from: Seq<u32>, from_blank: bool|
        going_on(labels, t, blank, chances, from, from_blank, to, to_blank)
}

/// The total of the gains for a prefix, of those after a blank or of the others.
pub open spec fn gained(
    gains: Seq<CtcGain>,
    value: spec_fn(Bits) -> real,
    prefix: Seq<u32>,
    after_blank: bool,
) -> real
    decreases gains.len(),
{
    if gains.len() == 0 {
        0 as real
    } else {
        gained(gains.drop_last(), value, prefix, after_blank) + only_if(
            gains.last().prefix == prefix && gains.last().ends_in_blank == after_blank,
            value(gains.last().value),
        )
    }
}

/// The total that the entries hold for a prefix.
pub open spec fn held_total(
    entries: Seq<CtcPrefix>,
    value: spec_fn(Bits) -> real,
    prefix: Seq<u32>,
    after_blank: bool,
) -> real
    decreases entries.len(),
{
    if entries.len() == 0 {
        0 as real
    } else {
        held_total(entries.drop_last(), value, prefix, after_blank) + only_if(
            entries.last().prefix == prefix,
            value(share(entries.last(), after_blank)),
        )
    }
}

/// The entries, each with the two amounts that `amount` gives it, weighted by what
/// `weight` says of its prefix.
pub open spec fn weighted_entries(
    beam: Seq<CtcPrefix>,
    amount: spec_fn(CtcPrefix, bool) -> real,
    weight: spec_fn(Seq<u32>, bool) -> real,
) -> real
    decreases beam.len(),
{
    if beam.len() == 0 {
        0 as real
    } else {
        weighted_entries(beam.drop_last(), amount, weight) + (amount(beam.last(), true) * weight(
            beam.last().prefix,
            true,
        ) + amount(beam.last(), false) * weight(beam.last().prefix, false))
    }
}

/// What the log-probabilities of an entry stand for.
pub open spec fn held_amount(value: spec_fn(Bits) -> real) -> spec_fn(CtcPrefix, bool) -> real {
    |e: CtcPrefix, b: bool| value(share(e, b))
}

/// The totals of the paths for the prefix of an entry.
pub open spec fn total_amount(
    paths: Seq<Seq<u32>>,
    blank: u32,
    chances: spec_fn(nat, u32) -> real,
) -> spec_fn(CtcPrefix, bool) -> real {
    |e: CtcPrefix, b: bool| total(paths, blank, chances, e.prefix, b)
}

/// The paths, each weighted by what `weight` says of its collapse.
pub open spec fn weighted_paths(
    paths: Seq<Seq<u32>>,
    blank: u32,
    chances: spec_fn(nat, u32) -> real,
    weight: spec_fn(Seq<u32>, bool) -> real,
) -> real
    decreases paths.len(),
{
    if paths.len() == 0 {
        0 as real
    } else {
        weighted_paths(paths.drop_last(), blank, chances, weight) + path_probability(
            paths.last(),
            chances,
        ) * weight(
            ctc_beam::collapsed(paths.last(), blank),
            ctc_laws::ends_in_blank(paths.last(), blank),
        )
    }
}

/// Handing on `e` by a label of the log-probability `log_p` rounds by no more than
/// the factor `q` in each of its two operations.
pub open spec fn handing_on_rounds<A: Arithmetic>(
    m: &A,
    value: spec_fn(Bits) -> real,
    q: real,
    e: CtcPrefix,
    log_p: Bits,
) -> bool {
    &&& rounding::rounds_sum(m, value, q, e.log_pb, e.log_pnb)
    &&& forall|score: Bits| #[trigger]
        ctc_beam::prefix_score_is(m, e, score) ==> rounding::rounds_product(
            m,
            value,
            q,
            score,
            log_p,
        )
}

/// So does what the label `token` adds.
pub open spec fn label_rounds<A: Arithmetic>(
    m: &A,
    value: spec_fn(Bits) -> real,
    q: real,
    e: CtcPrefix,
    token: u32,
    log_p: Bits,
) -> bool {
    if ctc_beam::ends_with(e.prefix, token) {
        &&& rounding::rounds_product(m, value, q, e.log_pnb, log_p)
        &&& e.log_pb != NEG_INFINITY ==> rounding::rounds_product(m, value, q, e.log_pb, log_p)
    } else {
        handing_on_rounds(m, value, q, e, log_p)
    }
}

/// Every entry of the beam rounds by no more than the factor `q` where it hands on,
/// by a blank and by each of the labels.
pub open spec fn spreading_rounds<A: Arithmetic>(
    m: &A,
    value: spec_fn(Bits) -> real,
    q: real,
    beam: Seq<CtcPrefix>,
    log_probs: Seq<Bits>,
    labels: Seq<usize>,
    blank_id: usize,
) -> bool {
    &&& forall|i: int|
        0 <= i < beam.len() ==> handing_on_rounds(
            m,
            value,
            q,
            #[trigger] beam[i],
            log_probs[blank_id as int],
        )
    &&& forall|i: int, j: int|
        0 <= i < beam.len() && 0 <= j < labels.len() && labels[j] != blank_id ==> label_rounds(
            m,
            value,
            q,
            #[trigger] beam[i],
            (#[trigger] labels[j]) as u32,
            log_probs[labels[j] as int],
        )
}

/// The first `n` of the gains may add up to `held`.
pub open spec fn first_add_up<A: Arithmetic>(
    m: &A,
    gains: Seq<CtcGain>,
    n: int,
    held: Seq<CtcPrefix>,
) -> bool {
    ctc_beam::added_up(m, gains.take(n), held)
}

/// Taking in each of the gains, where an entry holds its prefix already, rounds by
/// no more than the factor `q`.
pub open spec fn adding_up_rounds<A: Arithmetic>(
    m: &A,
    value: spec_fn(Bits) -> real,
    q: real,
    gains: Seq<CtcGain>,
) -> bool {
    forall|n: int, held: Seq<CtcPrefix>, i: int|
        0 <= n < gains.len() && #[trigger] first_add_up(m, gains, n, held) && 0 <= i < held.len()
            && (#[trigger] held[i]).prefix == gains[n].prefix ==> rounding::rounds_sum(
            m,
            value,
            q,
            share(held[i], gains[n].ends_in_blank),
            gains[n].value,
        )
}

/// No operation of the first `t` frames rounds by more than the factor `q`.
pub open spec fn frames_round<A: Arithmetic>(
    m: &A,
    value: spec_fn(Bits) -> real,
    q: real,
    logits: Tensor2,
    blank_id: usize,
    beam_size: usize,
    t: nat,
) -> bool {
    forall|k: nat, beam: Seq<CtcPrefix>, w: CtcFrameTrace, next: Seq<CtcPrefix>|
        k < t && ctc_beam::beam_after(m, logits, blank_id, beam_size, k, beam)
            && #[trigger] ctc_beam::frame_traced(
            m,
            tensor::row_items(logits, k as int),
            blank_id,
            beam_size,
            beam,
            w,
            next,
        ) ==> {
            &&& spreading_rounds(m, value, q, beam, w.log_probs, w.labels, blank_id)
            &&& adding_up_rounds(m, value, q, w.gains)
        }
}

/// None of the first `t` frames adds more than `n` gains, and none leads to more
/// prefixes than the beam holds: nothing is pruned.
pub open spec fn prunes_nothing<A: Arithmetic>(
    m: &A,
    logits: Tensor2,
    blank_id: usize,
    beam_size: usize,
    n: nat,
    t: nat,
) -> bool {
    forall|k: nat, beam: Seq<CtcPrefix>, w: CtcFrameTrace, next: Seq<CtcPrefix>|
        k < t && ctc_beam::beam_after(m, logits, blank_id, beam_size, k, beam)
            && #[trigger] ctc_beam::frame_traced(
            m,
            tensor::row_items(logits, k as int),
            blank_id,
            beam_size,
            beam,
            w,
            next,
        ) ==> w.gains.len() <= n && w.entries.len() <= beam_size
}

/// The chances are no less than nothing.
pub open spec fn are_chances(chances: spec_fn(nat, u32) -> real) -> bool {
    forall|t: nat, label: u32| #[trigger] chances(t, label) >= 0 as real
}

/// The log-probabilities of a frame stand for the chances of the labels, up to the
/// factor `q`.
pub open spec fn row_fits(
    value: spec_fn(Bits) -> real,
    q: real,
    log_probs: Seq<Bits>,
    t: nat,
    chances: spec_fn(nat, u32) -> real,
) -> bool {
    forall|i: int|
        0 <= i < log_probs.len() ==> near(
            q,
            value(#[trigger] log_probs[i]),
            chances(t, i as u32),
        )
}

proof fn lemma_product_of_sum(a: real, b: real, c: real)
    by (nonlinear_arith)
    ensures
        a * (b + c) == a * b + a * c,
        (b + c) * a == b * a + c * a,
        a * (0 as real) == 0 as real,
        (0 as real) * a == 0 as real,
{
}

proof fn lemma_product_is_not_negative(a: real, b: real)
    by (nonlinear_arith)
    requires
        a >= 0 as real,
        b >= 0 as real,
    ensures
        a * b >= 0 as real,
{
}

proof fn lemma_probabilities_are_not_negative(path: Seq<u32>, chances: spec_fn(nat, u32) -> real)
    requires
        are_chances(chances),
    ensures
        path_probability(path, chances) >= 0 as real,
    decreases path.len(),
{
    if path.len() > 0 {
        lemma_probabilities_are_not_negative(path.drop_last(), chances);
        lemma_product_is_not_negative(
            path_probability(path.drop_last(), chances),
            chances((path.len() - 1) as nat, path.last()),
        );
    }
}

proof fn lemma_totals_are_not_negative(
    paths: Seq<Seq<u32>>,
    blank: u32,
    chances: spec_fn(nat, u32) -> real,
    prefix: Seq<u32>,
    after_blank: bool,
)
    requires
        are_chances(chances),
    ensures
        total(paths, blank, chances, prefix, after_blank) >= 0 as real,
    decreases paths.len(),
{
    if paths.len() > 0 {
        lemma_totals_are_not_negative(paths.drop_last(), blank, chances, prefix, after_blank);
        lemma_probabilities_are_not_negative(paths.last(), chances);
    }
}

/// A total is no less than any of what it is made up of.
proof fn lemma_total_has_its_paths(
    paths: Seq<Seq<u32>>,
    blank: u32,
    chances: spec_fn(nat, u32) -> real,
    k: int,
)
    requires
        are_chances(chances),
        0 <= k < paths.len(),
    ensures
        path_probability(paths[k], chances) <= total(
            paths,
            blank,
            chances,
            ctc_beam::collapsed(paths[k], blank),
            ctc_laws::ends_in_blank(paths[k], blank),
        ),
    decreases paths.len(),
{
    let c = ctc_beam::collapsed(paths[k], blank);
    let b = ctc_laws::ends_in_blank(paths[k], blank);
    let front = paths.drop_last();
    lemma_totals_are_not_negative(front, blank, chances, c, b);
    lemma_probabilities_are_not_negative(paths.last(), chances);
    if k < front.len() {
        lemma_total_has_its_paths(front, blank, chances, k);
        assert(front[k] == paths[k]);
    }
}

proof fn lemma_going_on_is_not_negative(
    labels: Seq<u32>,
    t: nat,
    blank: u32,
    chances: spec_fn(nat, u32) -> real,
    from: Seq<u32>,
    from_blank: bool,
    to: Seq<u32>,
    to_blank: bool,
)
    requires
        are_chances(chances),
    ensures
        going_on(labels, t, blank, chances, from, from_blank, to, to_blank) >= 0 as real,
    decreases labels.len(),
{
    if labels.len() > 0 {
        lemma_going_on_is_not_negative(
            labels.drop_last(),
            t,
            blank,
            chances,
            from,
            from_blank,
            to,
            to_blank,
        );
    }
}

proof fn lemma_update_of_held(
    entries: Seq<CtcPrefix>,
    i: int,
    after: CtcPrefix,
    value: spec_fn(Bits) -> real,
    prefix: Seq<u32>,
    after_blank: bool,
)
    requires
        0 <= i < entries.len(),
        after.prefix == entries[i].prefix,
    ensures
        held_total(entries.update(i, after), value, prefix, after_blank) == held_total(
            entries,
            value,
            prefix,
            after_blank,
        ) - only_if(entries[i].prefix == prefix, value(share(entries[i], after_blank))) + only_if(
            entries[i].prefix == prefix,
            value(share(after, after_blank)),
        ),
    decreases entries.len(),
{
    let front = entries.drop_last();
    if i < front.len() {
        lemma_update_of_held(front, i, after, value, prefix, after_blank);
        assert(entries.update(i, after).drop_last() =~= front.update(i, after));
    } else {
        assert(entries.update(i, after).drop_last() =~= front);
    }
}

proof fn lemma_entry_holds_its_total(
    entries: Seq<CtcPrefix>,
    value: spec_fn(Bits) -> real,
    i: int,
    after_blank: bool,
)
    requires
        ctc_laws::prefixes_differ(entries),
        0 <= i < entries.len(),
    ensures
        held_total(entries, value, entries[i].prefix, after_blank) == value(
            share(entries[i], after_blank),
        ),
    decreases entries.len(),
{
    let front = entries.drop_last();
    assert forall|j: int, k: int| 0 <= j < k < front.len() implies (#[trigger] front[j]).prefix
        != (#[trigger] front[k]).prefix by {
        assert(entries[j].prefix != entries[k].prefix);
    }
    if i < front.len() {
        lemma_entry_holds_its_total(front, value, i, after_blank);
        assert(entries[i].prefix != entries[entries.len() - 1].prefix);
    } else {
        assert forall|j: int| 0 <= j < front.len() implies (#[trigger] front[j]).prefix
            != entries[i].prefix by {
            assert(entries[j].prefix != entries[i].prefix);
        }
        lemma_absent_prefix_has_no_total(front, value, entries[i].prefix, after_blank);
    }
}

proof fn lemma_absent_prefix_has_no_total(
    entries: Seq<CtcPrefix>,
    value: spec_fn(Bits) -> real,
    prefix: Seq<u32>,
    after_blank: bool,
)
    requires
        forall|j: int| 0 <= j < entries.len() ==> (#[trigger] entries[j]).prefix != prefix,
    ensures
        held_total(entries, value, prefix, after_blank) == 0 as real,
    decreases entries.len(),
{
    if entries.len() > 0 {
        let front = entries.drop_last();
        assert forall|j: int| 0 <= j < front.len() implies (#[trigger] front[j]).prefix
            != prefix by {
            assert(entries[j].prefix != prefix);
        }
        lemma_absent_prefix_has_no_total(front, value, prefix, after_blank);
        assert(entries[entries.len() - 1].prefix != prefix);
    }
}

proof fn lemma_gained_by_one(
    gains: Seq<CtcGain>,
    before: Seq<CtcGain>,
    value: spec_fn(Bits) -> real,
    prefix: Seq<u32>,
    after_blank: bool,
)
    requires
        gains.len() == before.len() + 1,
        gains.take(before.len() as int) == before,
    ensures
        gained(gains, value, prefix, after_blank) == gained(before, value, prefix, after_blank)
            + only_if(
            gains[before.len() as int].prefix == prefix && gains[before.len() as int].ends_in_blank
                == after_blank,
            value(gains[before.len() as int].value),
        ),
{
    assert(gains.drop_last() =~= before);
}

proof fn lemma_held_is_not_negative(
    entries: Seq<CtcPrefix>,
    value: spec_fn(Bits) -> real,
    prefix: Seq<u32>,
    after_blank: bool,
)
    requires
        rounding::stands_for(value),
    ensures
        held_total(entries, value, prefix, after_blank) >= 0 as real,
        forall|i: int|
            0 <= i < entries.len() && (#[trigger] entries[i]).prefix == prefix ==> value(
                share(entries[i], after_blank),
            ) <= held_total(entries, value, prefix, after_blank),
    decreases entries.len(),
{
    if entries.len() > 0 {
        let front = entries.drop_last();
        lemma_held_is_not_negative(front, value, prefix, after_blank);
        assert(value(share(entries.last(), after_blank)) >= 0 as real);
        assert forall|i: int|
            0 <= i < entries.len() && (#[trigger] entries[i]).prefix == prefix implies value(
            share(entries[i], after_blank),
        ) <= held_total(entries, value, prefix, after_blank) by {
            if i < front.len() {
                assert(front[i] == entries[i]);
            }
        }
    }
}

proof fn lemma_gained_is_not_negative(
    gains: Seq<CtcGain>,
    value: spec_fn(Bits) -> real,
    prefix: Seq<u32>,
    after_blank: bool,
)
    requires
        rounding::stands_for(value),
    ensures
        gained(gains, value, prefix, after_blank) >= 0 as real,
    decreases gains.len(),
{
    if gains.len() > 0 {
        lemma_gained_is_not_negative(gains.drop_last(), value, prefix, after_blank);
        assert(value(gains.last().value) >= 0 as real);
    }
}

/// The entries hold, for every prefix, what the first gains for it add up to, up to
/// one rounding for each of them.
proof fn lemma_entries_hold_what_was_gained<A: Arithmetic>(
    m: &A,
    value: spec_fn(Bits) -> real,
    q: real,
    gains: Seq<CtcGain>,
    n: nat,
    entries: Seq<CtcPrefix>,
    prefix: Seq<u32>,
    after_blank: bool,
)
    requires
        rounding::stands_for(value),
        q >= 1 as real,
        n <= gains.len(),
        adding_up_rounds(m, value, q, gains),
        ctc_beam::added_up(m, gains.take(n as int), entries),
    ensures
        near(
            power(q, n),
            held_total(entries, value, prefix, after_blank),
            gained(gains.take(n as int), value, prefix, after_blank),
        ),
    decreases n,
{
    if n == 0 {
        assert(near(1 as real, 0 as real, 0 as real)) by {
            rounding::lemma_equal_is_near(1 as real, 0 as real);
        }
    } else {
        let k = (n - 1) as nat;
        let some = gains.take(n as int);
        let front = gains.take(k as int);
        let gain = gains[k as int];
        assert(some.drop_last() =~= front && some.last() == gain);
        let (held, at, after) = choose|held: Seq<CtcPrefix>, at: int, after: CtcPrefix|
            ctc_beam::added_up(m, some.drop_last(), held) && #[trigger] ctc_beam::absorbs(
                m,
                held,
                some.last(),
                at,
                after,
                entries,
            );
        lemma_entries_hold_what_was_gained(
            m,
            value,
            q,
            gains,
            k,
            held,
            prefix,
            after_blank,
        );
        let p = power(q, k);
        let h = held_total(held, value, prefix, after_blank);
        let g = gained(front, value, prefix, after_blank);
        let x = value(gain.value);
        assert(x >= 0 as real);
        let more = only_if(gain.prefix == prefix && gain.ends_in_blank == after_blank, x);
        rounding::lemma_powers_grow(q, k, n);
        rounding::lemma_equal_is_near(p, more);
        rounding::lemma_near_adds(p, h, g, more, more);
        lemma_held_is_not_negative(held, value, prefix, after_blank);
        lemma_gained_is_not_negative(front, value, prefix, after_blank);
        let now = held_total(entries, value, prefix, after_blank);
        assert(near(q, now, h + more)) by {
            if at < held.len() {
                lemma_update_of_held(held, at, after, value, prefix, after_blank);
                if gain.prefix == prefix && gain.ends_in_blank == after_blank {
                    let v = value(share(held[at], after_blank));
                    assert(first_add_up(m, gains, k as int, held));
                    assert(rounding::rounds_sum(
                        m,
                        value,
                        q,
                        share(held[at], gain.ends_in_blank),
                        gain.value,
                    ));
                    assert(near(q, value(share(after, after_blank)), v + x));
                    rounding::lemma_equal_is_near(q, h - v);
                    rounding::lemma_near_adds(
                        q,
                        value(share(after, after_blank)),
                        v + x,
                        h - v,
                        h - v,
                    );
                } else {
                    rounding::lemma_equal_is_near(q, h);
                }
            } else {
                assert(entries.drop_last() =~= held);
                rounding::lemma_equal_is_near(q, h + more);
            }
        }
        rounding::lemma_near_chains(q, p, now, h + more, g + more);
        assert(q * p == p * q) by (nonlinear_arith);
    }
}

/// What a sum with a log-probability stands for, up to the rounding of both.
proof fn lemma_product_is_near<A: Arithmetic>(
    m: &A,
    value: spec_fn(Bits) -> real,
    q: real,
    a: Bits,
    log_p: Bits,
    chance: real,
    r: Bits,
)
    requires
        rounding::stands_for(value),
        q >= 1 as real,
        rounding::rounds_product(m, value, q, a, log_p),
        near(q, value(log_p), chance),
        chance >= 0 as real,
        arithmetic::sum_is(m, a, log_p, r),
    ensures
        near(power(q, 2), value(r), value(a) * chance),
        near(power(q, 3), value(r), value(a) * chance),
{
    let x = value(a);
    let p = value(log_p);
    assert(x >= 0 as real && p >= 0 as real && value(r) >= 0 as real);
    assert(near(q, value(r), x * p));
    rounding::lemma_near_scales(q, p, chance, x);
    rounding::lemma_near_chains(q, q, value(r), x * p, x * chance);
    assert(power(q, 2) == q * q) by {
        reveal_with_fuel(power, 3);
        assert((1 as real) * q * q == q * q) by (nonlinear_arith);
    }
    rounding::lemma_powers_grow(q, 2, 3);
    lemma_product_is_not_negative(x, chance);
    rounding::lemma_near_widens(power(q, 2), power(q, 3), value(r), x * chance);
}

/// What handing on comes to, up to the rounding of its two operations and of the
/// log-probability.
proof fn lemma_handed_on_is_near<A: Arithmetic>(
    m: &A,
    value: spec_fn(Bits) -> real,
    q: real,
    e: CtcPrefix,
    log_p: Bits,
    chance: real,
    r: Bits,
)
    requires
        rounding::stands_for(value),
        q >= 1 as real,
        handing_on_rounds(m, value, q, e, log_p),
        near(q, value(log_p), chance),
        chance >= 0 as real,
        ctc_beam::handed_on_is(m, e, log_p, r),
    ensures
        near(power(q, 3), value(r), (value(e.log_pb) + value(e.log_pnb)) * chance),
{
    let score = choose|score: Bits| #[trigger]
        ctc_beam::prefix_score_is(m, e, score) && arithmetic::sum_is(m, score, log_p, r);
    let both = value(e.log_pb) + value(e.log_pnb);
    assert(rounding::rounds_product(m, value, q, score, log_p));
    lemma_product_is_near(m, value, q, score, log_p, chance, r);
    assert(near(q, value(score), both));
    rounding::lemma_near_scales(q, value(score), both, chance);
    rounding::lemma_powers_grow(q, 2, 3);
    rounding::lemma_near_chains(
        power(q, 2),
        q,
        value(r),
        value(score) * chance,
        both * chance,
    );
    assert(power(q, 3) == power(q, 2) * q);
}

proof fn lemma_only_near(c: real, condition: bool, x: real, y: real)
    requires
        near(c, x, y),
    ensures
        near(c, only_if(condition, x), only_if(condition, y)),
{
    assert(c * (0 as real) == 0 as real) by (nonlinear_arith);
}

/// What one label adds from an entry goes where the paths of the entry go by that
/// label, up to rounding.
proof fn lemma_label_gains<A: Arithmetic>(
    m: &A,
    value: spec_fn(Bits) -> real,
    q: real,
    e: CtcPrefix,
    token: u32,
    blank: u32,
    log_p: Bits,
    chance: real,
    before: Seq<CtcGain>,
    gains: Seq<CtcGain>,
    to: Seq<u32>,
    to_blank: bool,
)
    requires
        rounding::stands_for(value),
        q >= 1 as real,
        label_rounds(m, value, q, e, token, log_p),
        near(q, value(log_p), chance),
        chance >= 0 as real,
        token != blank,
        ctc_beam::label_adds(m, e, token, log_p, before, gains),
    ensures
        near(
            power(q, 3),
            gained(gains, value, to, to_blank) - gained(before, value, to, to_blank),
            value(e.log_pb) * only_if(
                ctc_laws::continued(e.prefix, true, token, blank) == to && !to_blank,
                chance,
            ) + value(e.log_pnb) * only_if(
                ctc_laws::continued(e.prefix, false, token, blank) == to && !to_blank,
                chance,
            ),
        ),
{
    let k = before.len() as int;
    let c = power(q, 3);
    let pb = value(e.log_pb);
    let pnb = value(e.log_pnb);
    let here = e.prefix == to && !to_blank;
    let there = e.prefix.push(token) == to && !to_blank;
    lemma_product_of_sum(pb, chance, chance);
    lemma_product_of_sum(pnb, chance, chance);
    rounding::lemma_powers_grow(q, 0, 3);
    if ctc_beam::ends_with(e.prefix, token) {
        let x = value(gains[k].value);
        lemma_product_is_near(m, value, q, e.log_pnb, log_p, chance, gains[k].value);
        lemma_only_near(c, here, x, pnb * chance);
        if e.log_pb == NEG_INFINITY {
            lemma_gained_by_one(gains, before, value, to, to_blank);
            assert((0 as real) * only_if(there, chance) == 0 as real) by {
                lemma_product_of_sum(only_if(there, chance), chance, chance);
            }
        } else {
            let mid = gains.take(k + 1);
            assert(mid.take(k) =~= gains.take(k));
            lemma_gained_by_one(mid, before, value, to, to_blank);
            lemma_gained_by_one(gains, mid, value, to, to_blank);
            let y = value(gains[k + 1].value);
            lemma_product_is_near(m, value, q, e.log_pb, log_p, chance, gains[k + 1].value);
            lemma_only_near(c, there, y, pb * chance);
            rounding::lemma_near_adds(
                c,
                only_if(there, y),
                only_if(there, pb * chance),
                only_if(here, x),
                only_if(here, pnb * chance),
            );
        }
    } else {
        lemma_gained_by_one(gains, before, value, to, to_blank);
        lemma_handed_on_is_near(m, value, q, e, log_p, chance, gains[k].value);
        lemma_product_of_sum(chance, pb, pnb);
        lemma_only_near(c, there, value(gains[k].value), (pb + pnb) * chance);
    }
}

proof fn lemma_labels_gain<A: Arithmetic>(
    m: &A,
    value: spec_fn(Bits) -> real,
    q: real,
    e: CtcPrefix,
    log_probs: Seq<Bits>,
    labels: Seq<usize>,
    n: nat,
    t: nat,
    chances: spec_fn(nat, u32) -> real,
    blank_id: usize,
    held: Seq<CtcGain>,
    blank_gain: CtcGain,
    gains: Seq<CtcGain>,
    to: Seq<u32>,
    to_blank: bool,
)
    requires
        rounding::stands_for(value),
        q >= 1 as real,
        are_chances(chances),
        row_fits(value, q, log_probs, t, chances),
        n <= labels.len(),
        forall|i: int| 0 <= i < labels.len() ==> #[trigger] labels[i] < log_probs.len(),
        blank_id < log_probs.len() <= u32::MAX,
        handing_on_rounds(m, value, q, e, log_probs[blank_id as int]),
        forall|j: int|
            0 <= j < labels.len() && labels[j] != blank_id ==> label_rounds(
                m,
                value,
                q,
                e,
                (#[trigger] labels[j]) as u32,
                log_probs[labels[j] as int],
            ),
        ctc_beam::is_blank_gain(m, e, log_probs[blank_id as int], blank_gain),
        ctc_beam::labels_add(
            m,
            e,
            log_probs,
            labels,
            n,
            blank_id,
            held.push(blank_gain),
            gains,
        ),
    ensures
        near(
            power(q, 3),
            gained(gains, value, to, to_blank) - gained(held, value, to, to_blank),
            value(e.log_pb) * going_on(
                taken(labels, n, blank_id),
                t,
                blank_id as u32,
                chances,
                e.prefix,
                true,
                to,
                to_blank,
            ) + value(e.log_pnb) * going_on(
                taken(labels, n, blank_id),
                t,
                blank_id as u32,
                chances,
                e.prefix,
                false,
                to,
                to_blank,
            ),
        ),
    decreases n,
{
    let blank = blank_id as u32;
    let c = power(q, 3);
    let pb = value(e.log_pb);
    let pnb = value(e.log_pnb);
    if n == 0 {
        let chance = chances(t, blank);
        let log_p = log_probs[blank_id as int];
        assert(near(q, value(log_p), chance));
        assert(gains.drop_last() =~= held);
        lemma_handed_on_is_near(m, value, q, e, log_p, chance, blank_gain.value);
        lemma_product_of_sum(chance, pb, pnb);
        lemma_product_of_sum(pb, chance, chance);
        lemma_product_of_sum(pnb, chance, chance);
        lemma_only_near(
            c,
            e.prefix == to && to_blank,
            value(blank_gain.value),
            (pb + pnb) * chance,
        );
        let only = taken(labels, 0, blank_id);
        assert(only.drop_last() =~= Seq::empty());
        assert(going_on(only.drop_last(), t, blank, chances, e.prefix, true, to, to_blank)
            == 0 as real);
        assert(going_on(only.drop_last(), t, blank, chances, e.prefix, false, to, to_blank)
            == 0 as real);
    } else {
        let k = (n - 1) as nat;
        let label = labels[n - 1];
        if label == blank_id {
            lemma_labels_gain(
                m,
                value,
                q,
                e,
                log_probs,
                labels,
                k,
                t,
                chances,
                blank_id,
                held,
                blank_gain,
                gains,
                to,
                to_blank,
            );
        } else {
            let token = label as u32;
            let log_p = log_probs[label as int];
            let chance = chances(t, token);
            assert(near(q, value(log_p), chance));
            let before = choose|before: Seq<CtcGain>|
                {
                    &&& ctc_beam::labels_add(
                        m,
                        e,
                        log_probs,
                        labels,
                        k,
                        blank_id,
                        held.push(blank_gain),
                        before,
                    )
                    &&& #[trigger] ctc_beam::label_adds(m, e, token, log_p, before, gains)
                };
            lemma_labels_gain(
                m,
                value,
                q,
                e,
                log_probs,
                labels,
                k,
                t,
                chances,
                blank_id,
                held,
                blank_gain,
                before,
                to,
                to_blank,
            );
            assert(token != blank);
            lemma_label_gains(
                m,
                value,
                q,
                e,
                token,
                blank,
                log_p,
                chance,
                before,
                gains,
                to,
                to_blank,
            );
            let few = taken(labels, k, blank_id);
            assert(taken(labels, n, blank_id).drop_last() =~= few);
            let x = going_on(few, t, blank, chances, e.prefix, true, to, to_blank);
            let y = going_on(few, t, blank, chances, e.prefix, false, to, to_blank);
            let v = only_if(
                ctc_laws::continued(e.prefix, true, token, blank) == to && !to_blank,
                chance,
            );
            let w = only_if(
                ctc_laws::continued(e.prefix, false, token, blank) == to && !to_blank,
                chance,
            );
            lemma_product_of_sum(pb, x, v);
            lemma_product_of_sum(pnb, y, w);
            rounding::lemma_near_adds(
                c,
                gained(before, value, to, to_blank) - gained(held, value, to, to_blank),
                pb * x + pnb * y,
                gained(gains, value, to, to_blank) - gained(before, value, to, to_blank),
                pb * v + pnb * w,
            );
        }
    }
}

/// What a frame adds to a prefix is what the entries hand on to it, up to rounding.
proof fn lemma_beam_gains<A: Arithmetic>(
    m: &A,
    value: spec_fn(Bits) -> real,
    q: real,
    beam: Seq<CtcPrefix>,
    log_probs: Seq<Bits>,
    labels: Seq<usize>,
    t: nat,
    chances: spec_fn(nat, u32) -> real,
    blank_id: usize,
    gains: Seq<CtcGain>,
    to: Seq<u32>,
    to_blank: bool,
)
    requires
        rounding::stands_for(value),
        q >= 1 as real,
        are_chances(chances),
        row_fits(value, q, log_probs, t, chances),
        forall|i: int| 0 <= i < labels.len() ==> #[trigger] labels[i] < log_probs.len(),
        blank_id < log_probs.len() <= u32::MAX,
        spreading_rounds(m, value, q, beam, log_probs, labels, blank_id),
        ctc_beam::beam_adds(m, beam, log_probs, labels, blank_id, gains),
    ensures
        near(
            power(q, 3),
            gained(gains, value, to, to_blank),
            weighted_entries(
                beam,
                held_amount(value),
                going_on_from(
                    taken(labels, labels.len(), blank_id),
                    t,
                    blank_id as u32,
                    chances,
                    to,
                    to_blank,
                ),
            ),
        ),
    decreases beam.len(),
{
    let c = power(q, 3);
    if beam.len() > 0 {
        let e = beam.last();
        let front = beam.drop_last();
        let held = choose|held: Seq<CtcGain>|
            {
                &&& ctc_beam::beam_adds(m, front, log_probs, labels, blank_id, held)
                &&& #[trigger] ctc_beam::entry_adds(
                    m,
                    e,
                    log_probs,
                    labels,
                    blank_id,
                    held,
                    gains,
                )
            };
        assert(spreading_rounds(m, value, q, front, log_probs, labels, blank_id)) by {
            assert forall|i: int| 0 <= i < front.len() implies handing_on_rounds(
                m,
                value,
                q,
                #[trigger] front[i],
                log_probs[blank_id as int],
            ) by {
                assert(front[i] == beam[i]);
            }
            assert forall|i: int, j: int|
                0 <= i < front.len() && 0 <= j < labels.len() && labels[j] != blank_id implies
                label_rounds(
                m,
                value,
                q,
                #[trigger] front[i],
                (#[trigger] labels[j]) as u32,
                log_probs[labels[j] as int],
            ) by {
                assert(front[i] == beam[i]);
            }
        }
        lemma_beam_gains(
            m,
            value,
            q,
            front,
            log_probs,
            labels,
            t,
            chances,
            blank_id,
            held,
            to,
            to_blank,
        );
        let blank_gain = choose|blank_gain: CtcGain|
            {
                &&& #[trigger] ctc_beam::is_blank_gain(
                    m,
                    e,
                    log_probs[blank_id as int],
                    blank_gain,
                )
                &&& ctc_beam::labels_add(
                    m,
                    e,
                    log_probs,
                    labels,
                    labels.len(),
                    blank_id,
                    held.push(blank_gain),
                    gains,
                )
            };
        assert(beam[beam.len() - 1] == e);
        lemma_labels_gain(
            m,
            value,
            q,
            e,
            log_probs,
            labels,
            labels.len(),
            t,
            chances,
            blank_id,
            held,
            blank_gain,
            gains,
            to,
            to_blank,
        );
        let list = taken(labels, labels.len(), blank_id);
        let blank = blank_id as u32;
        let weight = going_on_from(list, t, blank, chances, to, to_blank);
        rounding::lemma_near_adds(
            c,
            gained(held, value, to, to_blank),
            weighted_entries(front, held_amount(value), weight),
            gained(gains, value, to, to_blank) - gained(held, value, to, to_blank),
            value(e.log_pb) * weight(e.prefix, true) + value(e.log_pnb) * weight(e.prefix, false),
        );
    } else {
        rounding::lemma_powers_grow(q, 0, 3);
        rounding::lemma_equal_is_near(c, 0 as real);
    }
}

/// Taking a prefix out of a weight takes the total of its paths out.
proof fn lemma_weight_of_paths_without(
    paths: Seq<Seq<u32>>,
    blank: u32,
    chances: spec_fn(nat, u32) -> real,
    prefix: Seq<u32>,
    weight: spec_fn(Seq<u32>, bool) -> real,
    rest: spec_fn(Seq<u32>, bool) -> real,
)
    requires
        rest == (|c: Seq<u32>, b: bool| only_if(c != prefix, weight(c, b))),
    ensures
        weighted_paths(paths, blank, chances, weight) == weighted_paths(
            paths,
            blank,
            chances,
            rest,
        ) + total(paths, blank, chances, prefix, true) * weight(prefix, true) + total(
            paths,
            blank,
            chances,
            prefix,
            false,
        ) * weight(prefix, false),
    decreases paths.len(),
{
    let x = weight(prefix, true);
    let y = weight(prefix, false);
    if paths.len() > 0 {
        let front = paths.drop_last();
        lemma_weight_of_paths_without(front, blank, chances, prefix, weight, rest);
        let p = path_probability(paths.last(), chances);
        let c = ctc_beam::collapsed(paths.last(), blank);
        let b = ctc_laws::ends_in_blank(paths.last(), blank);
        let t = total(front, blank, chances, prefix, true);
        let f = total(front, blank, chances, prefix, false);
        lemma_product_of_sum(x, t, only_if(c == prefix && b == true, p));
        lemma_product_of_sum(y, f, only_if(c == prefix && b == false, p));
        lemma_product_of_sum(p, x, y);
        lemma_product_of_sum(x, p, p);
        lemma_product_of_sum(y, p, p);
    } else {
        lemma_product_of_sum(x, x, x);
        lemma_product_of_sum(y, y, y);
    }
}
/// Taking a prefix out of a weight changes nothing for entries of other prefixes.
proof fn lemma_weight_of_entries_without(
    beam: Seq<CtcPrefix>,
    amount: spec_fn(CtcPrefix, bool) -> real,
    prefix: Seq<u32>,
    weight: spec_fn(Seq<u32>, bool) -> real,
    rest: spec_fn(Seq<u32>, bool) -> real,
)
    requires
        rest == (|c: Seq<u32>, b: bool| only_if(c != prefix, weight(c, b))),
        forall|j: int| 0 <= j < beam.len() ==> (#[trigger] beam[j]).prefix != prefix,
    ensures
        weighted_entries(beam, amount, weight) == weighted_entries(beam, amount, rest),
    decreases beam.len(),
{
    if beam.len() > 0 {
        let front = beam.drop_last();
        assert forall|j: int| 0 <= j < front.len() implies (#[trigger] front[j]).prefix
            != prefix by {
            assert(beam[j].prefix != prefix);
        }
        lemma_weight_of_entries_without(front, amount, prefix, weight, rest);
        assert(beam[beam.len() - 1].prefix != prefix);
    }
}

/// The scores of the entries stand for the totals of the paths, up to the factor
/// `c`.
pub open spec fn holds_near(
    beam: Seq<CtcPrefix>,
    paths: Seq<Seq<u32>>,
    blank: u32,
    chances: spec_fn(nat, u32) -> real,
    value: spec_fn(Bits) -> real,
    c: real,
) -> bool {
    forall|i: int, b: bool|
        0 <= i < beam.len() ==> near(
            c,
            #[trigger] value(share(beam[i], b)),
            total(paths, blank, chances, beam[i].prefix, b),
        )
}

/// Every path counts for nothing, by its probability or by the weight of its
/// collapse, unless an entry is for its collapse.
pub open spec fn vanishes_outside(
    beam: Seq<CtcPrefix>,
    paths: Seq<Seq<u32>>,
    blank: u32,
    chances: spec_fn(nat, u32) -> real,
    weight: spec_fn(Seq<u32>, bool) -> real,
) -> bool {
    forall|k: int|
        0 <= k < paths.len() && !ctc_laws::is_held(
            beam,
            ctc_beam::collapsed(#[trigger] paths[k], blank),
        ) ==> path_probability(paths[k], chances) == 0 as real || weight(
            ctc_beam::collapsed(paths[k], blank),
            ctc_laws::ends_in_blank(paths[k], blank),
        ) == 0 as real
}

proof fn lemma_nothing_is_weighted(
    paths: Seq<Seq<u32>>,
    blank: u32,
    chances: spec_fn(nat, u32) -> real,
    weight: spec_fn(Seq<u32>, bool) -> real,
)
    requires
        forall|k: int|
            0 <= k < paths.len() ==> path_probability(#[trigger] paths[k], chances) == 0 as real
                || weight(
                ctc_beam::collapsed(paths[k], blank),
                ctc_laws::ends_in_blank(paths[k], blank),
            ) == 0 as real,
    ensures
        weighted_paths(paths, blank, chances, weight) == 0 as real,
    decreases paths.len(),
{
    if paths.len() > 0 {
        let front = paths.drop_last();
        assert forall|k: int| 0 <= k < front.len() implies path_probability(
            #[trigger] front[k],
            chances,
        ) == 0 as real || weight(
            ctc_beam::collapsed(front[k], blank),
            ctc_laws::ends_in_blank(front[k], blank),
        ) == 0 as real by {
            assert(front[k] == paths[k]);
        }
        lemma_nothing_is_weighted(front, blank, chances, weight);
        let last = paths[paths.len() - 1];
        let p = path_probability(last, chances);
        let w = weight(ctc_beam::collapsed(last, blank), ctc_laws::ends_in_blank(last, blank));
        lemma_product_of_sum(p, w, w);
        lemma_product_of_sum(w, p, p);
    }
}

/// Entries of the totals of the paths weigh as the paths do.
proof fn lemma_entries_weigh_as_paths(
    beam: Seq<CtcPrefix>,
    paths: Seq<Seq<u32>>,
    blank: u32,
    chances: spec_fn(nat, u32) -> real,
    weight: spec_fn(Seq<u32>, bool) -> real,
)
    requires
        ctc_laws::prefixes_differ(beam),
        vanishes_outside(beam, paths, blank, chances, weight),
    ensures
        weighted_entries(beam, total_amount(paths, blank, chances), weight) == weighted_paths(
            paths,
            blank,
            chances,
            weight,
        ),
    decreases beam.len(),
{
    let amount = total_amount(paths, blank, chances);
    if beam.len() == 0 {
        assert forall|k: int| 0 <= k < paths.len() implies path_probability(
            #[trigger] paths[k],
            chances,
        ) == 0 as real || weight(
            ctc_beam::collapsed(paths[k], blank),
            ctc_laws::ends_in_blank(paths[k], blank),
        ) == 0 as real by {
            assert(!ctc_laws::is_held(beam, ctc_beam::collapsed(paths[k], blank)));
        }
        lemma_nothing_is_weighted(paths, blank, chances, weight);
    } else {
        let front = beam.drop_last();
        let e = beam.last();
        let prefix = e.prefix;
        let rest = |c: Seq<u32>, b: bool| only_if(c != prefix, weight(c, b));
        assert(beam[beam.len() - 1] == e);
        assert forall|i: int, j: int| 0 <= i < j < front.len() implies (
        #[trigger] front[i]).prefix != (#[trigger] front[j]).prefix by {
            assert(beam[i].prefix != beam[j].prefix);
        }
        assert forall|j: int| 0 <= j < front.len() implies (#[trigger] front[j]).prefix
            != prefix by {
            assert(beam[j].prefix != beam[beam.len() - 1].prefix);
        }
        assert forall|k: int|
            0 <= k < paths.len() && !ctc_laws::is_held(
                front,
                ctc_beam::collapsed(#[trigger] paths[k], blank),
            ) implies path_probability(paths[k], chances) == 0 as real || rest(
            ctc_beam::collapsed(paths[k], blank),
            ctc_laws::ends_in_blank(paths[k], blank),
        ) == 0 as real by {
            let c = ctc_beam::collapsed(paths[k], blank);
            if c != prefix {
                assert(!ctc_laws::is_held(beam, c)) by {
                    if ctc_laws::is_held(beam, c) {
                        let i = choose|i: int|
                            0 <= i < beam.len() && (#[trigger] beam[i]).prefix == c;
                        assert(front[i].prefix == c);
                    }
                }
            }
        }
        lemma_entries_weigh_as_paths(front, paths, blank, chances, rest);
        lemma_weight_of_entries_without(front, amount, prefix, weight, rest);
        lemma_weight_of_paths_without(paths, blank, chances, prefix, weight, rest);
    }
}

/// Entries whose scores stand for the totals of the paths weigh as the totals do,
/// up to the same factor.
proof fn lemma_entries_weigh_near(
    beam: Seq<CtcPrefix>,
    paths: Seq<Seq<u32>>,
    blank: u32,
    chances: spec_fn(nat, u32) -> real,
    value: spec_fn(Bits) -> real,
    c: real,
    weight: spec_fn(Seq<u32>, bool) -> real,
)
    requires
        c >= 1 as real,
        holds_near(beam, paths, blank, chances, value, c),
        forall|prefix: Seq<u32>, b: bool| #[trigger] weight(prefix, b) >= 0 as real,
    ensures
        near(
            c,
            weighted_entries(beam, held_amount(value), weight),
            weighted_entries(beam, total_amount(paths, blank, chances), weight),
        ),
    decreases beam.len(),
{
    if beam.len() == 0 {
        rounding::lemma_equal_is_near(c, 0 as real);
    } else {
        let front = beam.drop_last();
        let e = beam.last();
        assert forall|i: int, b: bool| 0 <= i < front.len() implies near(
            c,
            #[trigger] value(share(front[i], b)),
            total(paths, blank, chances, front[i].prefix, b),
        ) by {
            assert(front[i] == beam[i]);
            assert(near(
                c,
                value(share(beam[i], b)),
                total(paths, blank, chances, beam[i].prefix, b),
            ));
        }
        lemma_entries_weigh_near(front, paths, blank, chances, value, c, weight);
        let last = beam.len() - 1;
        assert(beam[last] == e);
        let x = value(share(beam[last], true));
        let y = value(share(beam[last], false));
        let v = total(paths, blank, chances, e.prefix, true);
        let w = total(paths, blank, chances, e.prefix, false);
        assert(weight(e.prefix, true) >= 0 as real);
        assert(weight(e.prefix, false) >= 0 as real);
        rounding::lemma_near_scales(c, x, v, weight(e.prefix, true));
        rounding::lemma_near_scales(c, y, w, weight(e.prefix, false));
        rounding::lemma_near_adds(
            c,
            x * weight(e.prefix, true),
            v * weight(e.prefix, true),
            y * weight(e.prefix, false),
            w * weight(e.prefix, false),
        );
        rounding::lemma_near_adds(
            c,
            weighted_entries(front, held_amount(value), weight),
            weighted_entries(front, total_amount(paths, blank, chances), weight),
            x * weight(e.prefix, true) + y * weight(e.prefix, false),
            v * weight(e.prefix, true) + w * weight(e.prefix, false),
        );
    }
}

proof fn lemma_total_of_both(
    a: Seq<Seq<u32>>,
    b: Seq<Seq<u32>>,
    blank: u32,
    chances: spec_fn(nat, u32) -> real,
    prefix: Seq<u32>,
    after_blank: bool,
)
    ensures
        total(a + b, blank, chances, prefix, after_blank) == total(
            a,
            blank,
            chances,
            prefix,
            after_blank,
        ) + total(b, blank, chances, prefix, after_blank),
    decreases b.len(),
{
    if b.len() > 0 {
        lemma_total_of_both(a, b.drop_last(), blank, chances, prefix, after_blank);
        assert((a + b).drop_last() =~= a + b.drop_last());
    } else {
        assert(a + b =~= a);
    }
}

proof fn lemma_total_of_longer(
    path: Seq<u32>,
    labels: Seq<u32>,
    blank: u32,
    chances: spec_fn(nat, u32) -> real,
    to: Seq<u32>,
    to_blank: bool,
)
    ensures
        total(longer(path, labels), blank, chances, to, to_blank) == path_probability(
            path,
            chances,
        ) * going_on(
            labels,
            path.len(),
            blank,
            chances,
            ctc_beam::collapsed(path, blank),
            ctc_laws::ends_in_blank(path, blank),
            to,
            to_blank,
        ),
    decreases labels.len(),
{
    let p = path_probability(path, chances);
    let c = ctc_beam::collapsed(path, blank);
    let b = ctc_laws::ends_in_blank(path, blank);
    if labels.len() > 0 {
        let few = labels.drop_last();
        let label = labels.last();
        lemma_total_of_longer(path, few, blank, chances, to, to_blank);
        assert(longer(path, labels).drop_last() =~= longer(path, few));
        assert(longer(path, labels).last() == path.push(label));
        ctc_laws::law_paths_add_to_their_own_collapse(path, label, blank);
        assert(path.push(label).drop_last() =~= path);
        lemma_product_of_sum(
            p,
            going_on(few, path.len(), blank, chances, c, b, to, to_blank),
            only_if(
                ctc_laws::continued(c, b, label, blank) == to && (label == blank) == to_blank,
                chances(path.len(), label),
            ),
        );
    } else {
        lemma_product_of_sum(p, p, p);
    }
}

/// Growing the paths by a label weighs each by how it goes on.
proof fn lemma_total_of_all_longer(
    paths: Seq<Seq<u32>>,
    labels: Seq<u32>,
    t: nat,
    blank: u32,
    chances: spec_fn(nat, u32) -> real,
    to: Seq<u32>,
    to_blank: bool,
)
    requires
        forall|k: int| 0 <= k < paths.len() ==> (#[trigger] paths[k]).len() == t,
    ensures
        total(all_longer(paths, labels), blank, chances, to, to_blank) == weighted_paths(
            paths,
            blank,
            chances,
            going_on_from(labels, t, blank, chances, to, to_blank),
        ),
    decreases paths.len(),
{
    if paths.len() > 0 {
        let front = paths.drop_last();
        assert forall|k: int| 0 <= k < front.len() implies (#[trigger] front[k]).len() == t by {
            assert(front[k] == paths[k]);
        }
        lemma_total_of_all_longer(front, labels, t, blank, chances, to, to_blank);
        lemma_total_of_both(
            all_longer(front, labels),
            longer(paths.last(), labels),
            blank,
            chances,
            to,
            to_blank,
        );
        assert(paths[paths.len() - 1].len() == t);
        lemma_total_of_longer(paths.last(), labels, blank, chances, to, to_blank);
    }
}

proof fn lemma_all_longer(paths: Seq<Seq<u32>>, labels: Seq<u32>)
    ensures
        forall|x: Seq<u32>| #[trigger]
            all_longer(paths, labels).contains(x) <==> x.len() > 0 && paths.contains(x.drop_last())
                && labels.contains(x.last()),
    decreases paths.len(),
{
    let all = all_longer(paths, labels);
    if paths.len() > 0 {
        let front = paths.drop_last();
        let held = all_longer(front, labels);
        let more = longer(paths.last(), labels);
        lemma_all_longer(front, labels);
        assert forall|x: Seq<u32>| #[trigger] all.contains(x) <==> x.len() > 0 && paths.contains(
            x.drop_last(),
        ) && labels.contains(x.last()) by {
            if all.contains(x) {
                let i = choose|i: int| 0 <= i < all.len() && all[i] == x;
                if i < held.len() {
                    assert(held[i] == x);
                    assert(held.contains(x));
                    let k = choose|k: int| 0 <= k < front.len() && front[k] == x.drop_last();
                    assert(paths[k] == x.drop_last());
                } else {
                    let j = i - held.len();
                    assert(more[j] == x);
                    assert(x.drop_last() =~= paths.last());
                    assert(paths[paths.len() - 1] == x.drop_last());
                    assert(labels[j] == x.last());
                }
            }
            if x.len() > 0 && paths.contains(x.drop_last()) && labels.contains(x.last()) {
                let k = choose|k: int| 0 <= k < paths.len() && paths[k] == x.drop_last();
                if k < front.len() {
                    assert(front[k] == x.drop_last());
                    assert(held.contains(x));
                    let i = choose|i: int| 0 <= i < held.len() && held[i] == x;
                    assert(all[i] == x);
                } else {
                    let j = choose|j: int| 0 <= j < labels.len() && labels[j] == x.last();
                    assert(x.drop_last().push(x.last()) =~= x);
                    assert(more[j] == x);
                    assert(all[held.len() + j] == x);
                }
            }
        }
    }
}

/// The frame may leave out what goes on from an entry by a label: where the label
/// repeats the last one after a blank, and the entry holds nothing after a blank.
spec fn is_left_out(e: CtcPrefix, after_blank: bool, label: u32) -> bool {
    after_blank && ctc_beam::ends_with(e.prefix, label) && e.log_pb == NEG_INFINITY
}

/// A frame adds to every prefix that a path goes on to, unless it is left out.
proof fn lemma_labels_are_gained<A: Arithmetic>(
    m: &A,
    e: CtcPrefix,
    log_probs: Seq<Bits>,
    labels: Seq<usize>,
    n: nat,
    blank_id: usize,
    held: Seq<CtcGain>,
    blank_gain: CtcGain,
    gains: Seq<CtcGain>,
)
    requires
        n <= labels.len(),
        ctc_beam::is_blank_gain(m, e, log_probs[blank_id as int], blank_gain),
        ctc_beam::labels_add(
            m,
            e,
            log_probs,
            labels,
            n,
            blank_id,
            held.push(blank_gain),
            gains,
        ),
    ensures
        gains.len() >= held.len(),
        gains.take(held.len() as int) == held,
        forall|label: u32, b: bool|
            taken(labels, n, blank_id).contains(label) && !is_left_out(e, b, label)
                ==> ctc_laws::is_gained(
                gains,
                #[trigger] ctc_laws::continued(e.prefix, b, label, blank_id as u32),
            ),
    decreases n,
{
    let blank = blank_id as u32;
    let list = taken(labels, n, blank_id);
    if n == 0 {
        assert(gains.take(held.len() as int) =~= held);
        assert forall|label: u32, b: bool|
            list.contains(label) && !is_left_out(e, b, label) implies ctc_laws::is_gained(
            gains,
            #[trigger] ctc_laws::continued(e.prefix, b, label, blank),
        ) by {
            assert(label == blank);
            assert(gains[held.len() as int].prefix == e.prefix);
        }
    } else if labels[n - 1] == blank_id {
        lemma_labels_are_gained(
            m,
            e,
            log_probs,
            labels,
            (n - 1) as nat,
            blank_id,
            held,
            blank_gain,
            gains,
        );
    } else {
        let k = (n - 1) as nat;
        let token = labels[n - 1] as u32;
        let log_p = log_probs[labels[n - 1] as int];
        let before = choose|before: Seq<CtcGain>|
            {
                &&& ctc_beam::labels_add(
                    m,
                    e,
                    log_probs,
                    labels,
                    k,
                    blank_id,
                    held.push(blank_gain),
                    before,
                )
                &&& #[trigger] ctc_beam::label_adds(m, e, token, log_p, before, gains)
            };
        lemma_labels_are_gained(
            m,
            e,
            log_probs,
            labels,
            k,
            blank_id,
            held,
            blank_gain,
            before,
        );
        let at = before.len() as int;
        assert forall|i: int| 0 <= i < at implies #[trigger] gains[i] == before[i] by {
            assert(gains.take(at)[i] == before[i]);
        }
        assert(gains.take(held.len() as int) =~= held) by {
            assert forall|i: int| 0 <= i < held.len() implies gains[i] == held[i] by {
                assert(before.take(held.len() as int)[i] == held[i]);
            }
        }
        let few = taken(labels, k, blank_id);
        assert forall|label: u32, b: bool|
            list.contains(label) && !is_left_out(e, b, label) implies ctc_laws::is_gained(
            gains,
            #[trigger] ctc_laws::continued(e.prefix, b, label, blank),
        ) by {
            let to = ctc_laws::continued(e.prefix, b, label, blank);
            let j = choose|j: int| 0 <= j < list.len() && list[j] == label;
            if j < few.len() {
                assert(few[j] == label);
                assert(ctc_laws::is_gained(before, to));
                let i = choose|i: int|
                    0 <= i < before.len() && (#[trigger] before[i]).prefix == to;
                assert(gains[i].prefix == to);
            } else {
                assert(label == token);
                if label == blank {
                    lemma_blank_is_taken(labels, k, blank_id);
                    assert(few[0] == label);
                    assert(ctc_laws::is_gained(before, to));
                    let i = choose|i: int|
                        0 <= i < before.len() && (#[trigger] before[i]).prefix == to;
                    assert(gains[i].prefix == to);
                } else if ctc_beam::ends_with(e.prefix, token) {
                    if b {
                        assert(gains[at + 1].prefix == to);
                    } else {
                        assert(gains[at].prefix == to);
                    }
                } else {
                    assert(gains[at].prefix == to);
                }
            }
        }
    }
}

proof fn lemma_blank_is_taken(labels: Seq<usize>, n: nat, blank_id: usize)
    ensures
        taken(labels, n, blank_id).len() > 0,
        taken(labels, n, blank_id)[0] == blank_id as u32,
    decreases n,
{
    if n > 0 {
        lemma_blank_is_taken(labels, (n - 1) as nat, blank_id);
    }
}

proof fn lemma_paths_are_gained<A: Arithmetic>(
    m: &A,
    beam: Seq<CtcPrefix>,
    log_probs: Seq<Bits>,
    labels: Seq<usize>,
    blank_id: usize,
    gains: Seq<CtcGain>,
    i: int,
    label: u32,
    b: bool,
)
    requires
        ctc_beam::beam_adds(m, beam, log_probs, labels, blank_id, gains),
        0 <= i < beam.len(),
        taken(labels, labels.len(), blank_id).contains(label),
        !is_left_out(beam[i], b, label),
    ensures
        ctc_laws::is_gained(
            gains,
            ctc_laws::continued(beam[i].prefix, b, label, blank_id as u32),
        ),
    decreases beam.len(),
{
    let e = beam.last();
    let held = choose|held: Seq<CtcGain>|
        {
            &&& ctc_beam::beam_adds(m, beam.drop_last(), log_probs, labels, blank_id, held)
            &&& #[trigger] ctc_beam::entry_adds(m, e, log_probs, labels, blank_id, held, gains)
        };
    let blank_gain = choose|blank_gain: CtcGain|
        {
            &&& #[trigger] ctc_beam::is_blank_gain(
                m,
                e,
                log_probs[blank_id as int],
                blank_gain,
            )
            &&& ctc_beam::labels_add(
                m,
                e,
                log_probs,
                labels,
                labels.len(),
                blank_id,
                held.push(blank_gain),
                gains,
            )
        };
    lemma_labels_are_gained(
        m,
        e,
        log_probs,
        labels,
        labels.len(),
        blank_id,
        held,
        blank_gain,
        gains,
    );
    if i < beam.len() - 1 {
        lemma_paths_are_gained(
            m,
            beam.drop_last(),
            log_probs,
            labels,
            blank_id,
            held,
            i,
            label,
            b,
        );
        let to = ctc_laws::continued(beam[i].prefix, b, label, blank_id as u32);
        let j = choose|j: int| 0 <= j < held.len() && (#[trigger] held[j]).prefix == to;
        assert(gains.take(held.len() as int)[j] == held[j]);
        assert(gains[j].prefix == to);
    }
}

/// A listing of as many different places as there are lists every place.
proof fn lemma_full_order_has_every_place(order: Seq<usize>, k: usize)
    requires
        order.no_duplicates(),
        forall|i: int| 0 <= i < order.len() ==> (#[trigger] order[i]) < order.len(),
        k < order.len(),
    ensures
        order.contains(k),
{
    if !order.contains(k) {
        let n = order.len() as int;
        let places = order.map_values(|x: usize| x as int);
        assert forall|i: int, j: int| 0 <= i < places.len() && 0 <= j < places.len() && i
            != j implies places[i] != places[j] by {
            assert(order[i] != order[j]);
        }
        places.unique_seq_to_set();
        vstd::set_lib::lemma_int_range(0, n);
        let others = vstd::set_lib::set_int_range(0, n).remove(k as int);
        assert(places.to_set().subset_of(others)) by {
            assert forall|x: int| places.to_set().contains(x) implies others.contains(x) by {
                let i = choose|i: int| 0 <= i < places.len() && places[i] == x;
                assert(order[i] as int == x);
            }
        }
        vstd::set_lib::lemma_len_subset(places.to_set(), others);
    }
}

/// The frames take up these labels, of these log-probabilities.
pub open spec fn takes_up<A: Arithmetic>(
    m: &A,
    logits: Tensor2,
    beam_size: usize,
    log_probs: Seq<Seq<Bits>>,
    orders: Seq<Seq<usize>>,
) -> bool {
    forall|t: int|
        0 <= t < tensor::tensor2_shape(logits).0 ==> {
            &&& arithmetic::log_softmax_is(
                m,
                tensor::row_items(logits, t),
                #[trigger] log_probs[t],
            )
            &&& ranking::is_top(log_probs[t], beam_size as nat, orders[t])
        }
}

/// Every path of some probability collapses to a prefix that an entry is for.
pub open spec fn covers(
    beam: Seq<CtcPrefix>,
    paths: Seq<Seq<u32>>,
    blank: u32,
    chances: spec_fn(nat, u32) -> real,
) -> bool {
    forall|k: int|
        0 <= k < paths.len() && path_probability(#[trigger] paths[k], chances) != 0 as real
            ==> ctc_laws::is_held(beam, ctc_beam::collapsed(paths[k], blank))
}

proof fn lemma_paths_have_a_label_on_each_frame(
    orders: Seq<Seq<usize>>,
    blank_id: usize,
    t: nat,
)
    ensures
        forall|k: int|
            0 <= k < label_paths(orders, blank_id, t).len() ==> (#[trigger] label_paths(
                orders,
                blank_id,
                t,
            )[k]).len() == t,
    decreases t,
{
    let paths = label_paths(orders, blank_id, t);
    if t > 0 {
        let before = label_paths(orders, blank_id, (t - 1) as nat);
        let labels = taken(orders[t - 1], orders[t - 1].len(), blank_id);
        lemma_paths_have_a_label_on_each_frame(orders, blank_id, (t - 1) as nat);
        lemma_all_longer(before, labels);
        assert forall|k: int| 0 <= k < paths.len() implies (#[trigger] paths[k]).len() == t by {
            let x = paths[k];
            assert(all_longer(before, labels).contains(x));
            let j = choose|j: int| 0 <= j < before.len() && before[j] == x.drop_last();
            assert(before[j].len() == t - 1);
        }
    }
}

proof fn lemma_grown_paths_are_covered<A: Arithmetic>(
    m: &A,
    value: spec_fn(Bits) -> real,
    c: real,
    beam: Seq<CtcPrefix>,
    log_probs: Seq<Bits>,
    labels: Seq<usize>,
    blank_id: usize,
    gains: Seq<CtcGain>,
    entries: Seq<CtcPrefix>,
    paths: Seq<Seq<u32>>,
    chances: spec_fn(nat, u32) -> real,
)
    requires
        rounding::stands_for(value),
        are_chances(chances),
        ctc_beam::beam_adds(m, beam, log_probs, labels, blank_id, gains),
        ctc_beam::added_up(m, gains, entries),
        holds_near(beam, paths, blank_id as u32, chances, value, c),
        covers(beam, paths, blank_id as u32, chances),
    ensures
        covers(
            entries,
            all_longer(paths, taken(labels, labels.len(), blank_id)),
            blank_id as u32,
            chances,
        ),
{
    let blank = blank_id as u32;
    let list = taken(labels, labels.len(), blank_id);
    let grown = all_longer(paths, list);
    lemma_all_longer(paths, list);
    ctc_laws::law_adding_up_leaves_one_of_each_prefix(m, gains, entries);
    assert forall|k: int|
        0 <= k < grown.len() && path_probability(#[trigger] grown[k], chances) != 0 as real
        implies ctc_laws::is_held(entries, ctc_beam::collapsed(grown[k], blank)) by {
        let x = grown[k];
        assert(grown.contains(x));
        let front = x.drop_last();
        let label = x.last();
        let p = path_probability(front, chances);
        let chance = chances((x.len() - 1) as nat, label);
        lemma_product_of_sum(chance, p, p);
        let j = choose|j: int| 0 <= j < paths.len() && paths[j] == front;
        assert(path_probability(paths[j], chances) != 0 as real);
        assert(ctc_laws::is_held(beam, ctc_beam::collapsed(paths[j], blank)));
        let i = choose|i: int|
            0 <= i < beam.len() && (#[trigger] beam[i]).prefix == ctc_beam::collapsed(
                front,
                blank,
            );
        let b = ctc_laws::ends_in_blank(front, blank);
        if is_left_out(beam[i], b, label) {
            let held = value(share(beam[i], b));
            let all = total(paths, blank, chances, beam[i].prefix, b);
            assert(held == 0 as real);
            assert(near(c, held, all));
            lemma_totals_are_not_negative(paths, blank, chances, beam[i].prefix, b);
            rounding::lemma_near_nothing(c, all);
            lemma_total_has_its_paths(paths, blank, chances, j);
            lemma_probabilities_are_not_negative(front, chances);
        }
        lemma_paths_are_gained(m, beam, log_probs, labels, blank_id, gains, i, label, b);
        ctc_laws::law_paths_add_to_their_own_collapse(front, label, blank);
        assert(front.push(label) =~= x);
    }
}

/// The log-probabilities of each of the first `t` frames stand for the chances of
/// its labels, up to the factor `q`.
pub open spec fn frames_fit(
    value: spec_fn(Bits) -> real,
    q: real,
    log_probs: Seq<Seq<Bits>>,
    t: nat,
    chances: spec_fn(nat, u32) -> real,
) -> bool {
    forall|k: nat| k < t ==> row_fits(value, q, #[trigger] log_probs[k as int], k, chances)
}

/// The scores after a frame stand for the totals of the paths that are one label
/// longer, up to the rounding of the frame.
proof fn lemma_entry_stands_for_its_total<A: Arithmetic>(
    m: &A,
    value: spec_fn(Bits) -> real,
    q: real,
    chances: spec_fn(nat, u32) -> real,
    beam: Seq<CtcPrefix>,
    log_probs: Seq<Bits>,
    labels: Seq<usize>,
    blank_id: usize,
    gains: Seq<CtcGain>,
    entries: Seq<CtcPrefix>,
    paths: Seq<Seq<u32>>,
    t: nat,
    rounds: nat,
    i: int,
    b: bool,
)
    requires
        rounding::stands_for(value),
        q >= 1 as real,
        are_chances(chances),
        row_fits(value, q, log_probs, t, chances),
        forall|j: int| 0 <= j < labels.len() ==> #[trigger] labels[j] < log_probs.len(),
        blank_id < log_probs.len() <= u32::MAX,
        spreading_rounds(m, value, q, beam, log_probs, labels, blank_id),
        adding_up_rounds(m, value, q, gains),
        ctc_beam::beam_adds(m, beam, log_probs, labels, blank_id, gains),
        ctc_beam::added_up(m, gains, entries),
        ctc_laws::prefixes_differ(beam),
        covers(beam, paths, blank_id as u32, chances),
        holds_near(beam, paths, blank_id as u32, chances, value, power(q, rounds)),
        forall|k: int| 0 <= k < paths.len() ==> (#[trigger] paths[k]).len() == t,
        0 <= i < entries.len(),
    ensures
        near(
            power(q, gains.len() + 3 + rounds),
            value(share(entries[i], b)),
            total(
                all_longer(paths, taken(labels, labels.len(), blank_id)),
                blank_id as u32,
                chances,
                entries[i].prefix,
                b,
            ),
        ),
{
    let blank = blank_id as u32;
    let to = entries[i].prefix;
    let list = taken(labels, labels.len(), blank_id);
    let weight = going_on_from(list, t, blank, chances, to, b);
    let amount = total_amount(paths, blank, chances);
    ctc_laws::law_adding_up_leaves_one_of_each_prefix(m, gains, entries);
    lemma_entry_holds_its_total(entries, value, i, b);
    assert(gains.take(gains.len() as int) =~= gains);
    lemma_entries_hold_what_was_gained(m, value, q, gains, gains.len(), entries, to, b);
    lemma_beam_gains(m, value, q, beam, log_probs, labels, t, chances, blank_id, gains, to, b);
    assert forall|from: Seq<u32>, from_blank: bool| #[trigger] weight(from, from_blank)
        >= 0 as real by {
        lemma_going_on_is_not_negative(list, t, blank, chances, from, from_blank, to, b);
    }
    rounding::lemma_powers_grow(q, 0, rounds);
    rounding::lemma_powers_grow(q, 0, 3);
    rounding::lemma_powers_grow(q, 0, gains.len());
    lemma_entries_weigh_near(beam, paths, blank, chances, value, power(q, rounds), weight);
    lemma_entries_weigh_as_paths(beam, paths, blank, chances, weight);
    lemma_total_of_all_longer(paths, list, t, blank, chances, to, b);
    let held = value(share(entries[i], b));
    let all = gained(gains, value, to, b);
    let spread = weighted_entries(beam, held_amount(value), weight);
    let weighed = weighted_entries(beam, amount, weight);
    rounding::lemma_near_chains(power(q, gains.len()), power(q, 3), held, all, spread);
    rounding::lemma_powers_multiply(q, gains.len(), 3);
    rounding::lemma_powers_grow(q, 0, gains.len() + 3);
    rounding::lemma_near_chains(
        power(q, gains.len() + 3),
        power(q, rounds),
        held,
        spread,
        weighed,
    );
    rounding::lemma_powers_multiply(q, gains.len() + 3, rounds);
}

/// Where nothing is pruned, the beam after `t` frames holds one entry for every
/// prefix that a label path of some probability collapses to. The two scores of an
/// entry stand for the total probabilities of the label paths that collapse to its
/// prefix, of those that end in a blank and of the others, up to rounding: where
/// no operation on the frames is off by more than the factor `q`, and no frame adds
/// more than `n` gains, the scores are off by no more than the factor `q` for each
/// of `n + 3` operations on each frame.
pub proof fn law_scores_are_total_probabilities<A: Arithmetic>(
    m: &A,
    value: spec_fn(Bits) -> real,
    q: real,
    chances: spec_fn(nat, u32) -> real,
    logits: Tensor2,
    blank_id: usize,
    beam_size: usize,
    log_probs: Seq<Seq<Bits>>,
    orders: Seq<Seq<usize>>,
    n: nat,
    t: nat,
    beam: Seq<CtcPrefix>,
)
    requires
        single_valued::is_function(m),
        rounding::stands_for(value),
        q >= 1 as real,
        are_chances(chances),
        t <= tensor::tensor2_shape(logits).0,
        blank_id < tensor::tensor2_shape(logits).1 <= u32::MAX,
        takes_up(m, logits, beam_size, log_probs, orders),
        frames_fit(value, q, log_probs, t, chances),
        frames_round(m, value, q, logits, blank_id, beam_size, t),
        prunes_nothing(m, logits, blank_id, beam_size, n, t),
        ctc_beam::beam_after(m, logits, blank_id, beam_size, t, beam),
    ensures
        ctc_laws::prefixes_differ(beam),
        covers(beam, label_paths(orders, blank_id, t), blank_id as u32, chances),
        holds_near(
            beam,
            label_paths(orders, blank_id, t),
            blank_id as u32,
            chances,
            value,
            power(q, t * (n + 3)),
        ),
    decreases t,
{
    let blank = blank_id as u32;
    let paths = label_paths(orders, blank_id, t);
    if t == 0 {
        let none = Seq::<u32>::empty();
        assert(paths.drop_last() =~= Seq::empty());
        assert(paths[0] == none);
        assert(ctc_beam::collapsed(none, blank) =~= none);
        assert(beam[0].prefix == none);
        assert(total(paths.drop_last(), blank, chances, none, true) == 0 as real);
        assert(total(paths.drop_last(), blank, chances, none, false) == 0 as real);
        assert(total(paths, blank, chances, none, true) == 1 as real);
        assert(total(paths, blank, chances, none, false) == 0 as real);
        assert(0 * (n + 3) == 0);
        rounding::lemma_equal_is_near(1 as real, 0 as real);
        rounding::lemma_equal_is_near(1 as real, 1 as real);
    } else {
        let k = (t - 1) as nat;
        let row = tensor::row_items(logits, t - 1);
        let shorter = label_paths(orders, blank_id, k);
        let before = choose|before: Seq<CtcPrefix>|
            {
                &&& ctc_beam::beam_after(m, logits, blank_id, beam_size, k, before)
                &&& #[trigger] ctc_beam::frame_is(m, row, blank_id, beam_size, before, beam)
            };
        law_scores_are_total_probabilities(
            m,
            value,
            q,
            chances,
            logits,
            blank_id,
            beam_size,
            log_probs,
            orders,
            n,
            k,
            before,
        );
        let w = choose|w: CtcFrameTrace| #[trigger]
            ctc_beam::frame_traced(m, row, blank_id, beam_size, before, w, beam);
        assert(row == tensor::row_items(logits, k as int));
        assert(arithmetic::log_softmax_is(m, row, log_probs[t - 1]));
        single_valued::lemma_one_log_softmax(m, row, w.log_probs, log_probs[t - 1]);
        ranking::law_top_is_unique(w.log_probs, beam_size as nat, w.labels, orders[t - 1]);
        ranking::law_top_keeps_the_best(w.log_probs, beam_size as nat, w.labels);
        assert(row_fits(value, q, log_probs[k as int], k, chances));
        let rounds = k * (n + 3);
        let c = power(q, t * (n + 3));
        lemma_paths_have_a_label_on_each_frame(orders, blank_id, k);
        lemma_grown_paths_are_covered(
            m,
            value,
            power(q, rounds),
            before,
            w.log_probs,
            w.labels,
            blank_id,
            w.gains,
            w.entries,
            shorter,
            chances,
        );
        ctc_laws::law_adding_up_leaves_one_of_each_prefix(m, w.gains, w.entries);
        assert(w.gains.len() + 3 + rounds <= t * (n + 3)) by (nonlinear_arith)
            requires
                w.gains.len() <= n,
                rounds == k * (n + 3),
                t == k + 1,
        ;
        assert forall|i: int, b: bool| 0 <= i < w.entries.len() implies near(
            c,
            #[trigger] value(share(w.entries[i], b)),
            total(paths, blank, chances, w.entries[i].prefix, b),
        ) by {
            lemma_entry_stands_for_its_total(
                m,
                value,
                q,
                chances,
                before,
                w.log_probs,
                w.labels,
                blank_id,
                w.gains,
                w.entries,
                shorter,
                k,
                rounds,
                i,
                b,
            );
            rounding::lemma_powers_grow(q, w.gains.len() + 3 + rounds, t * (n + 3));
            lemma_totals_are_not_negative(paths, blank, chances, w.entries[i].prefix, b);
            rounding::lemma_near_widens(
                power(q, w.gains.len() + 3 + rounds),
                c,
                value(share(w.entries[i], b)),
                total(paths, blank, chances, w.entries[i].prefix, b),
            );
        }
        let (keys, order) = choose|keys: Seq<Bits>, order: Seq<usize>|
            {
                &&& #[trigger] ctc_beam::keys_are(m, w.entries, keys)
                &&& #[trigger] ranking::is_top(keys, beam_size as nat, order)
                &&& beam == ranking::pick(w.entries, order)
            };
        ranking::law_top_keeps_the_best(keys, beam_size as nat, order);
        assert(order.len() == w.entries.len());
        assert forall|i: int, j: int| 0 <= i < j < beam.len() implies (#[trigger] beam[i]).prefix
            != (#[trigger] beam[j]).prefix by {
            assert(order[i] != order[j]);
            if order[i] < order[j] {
                assert(w.entries[order[i] as int].prefix != w.entries[order[j] as int].prefix);
            } else {
                assert(w.entries[order[j] as int].prefix != w.entries[order[i] as int].prefix);
            }
        }
        assert forall|i: int, b: bool| 0 <= i < beam.len() implies near(
            c,
            #[trigger] value(share(beam[i], b)),
            total(paths, blank, chances, beam[i].prefix, b),
        ) by {
            let j = order[i] as int;
            assert(beam[i] == w.entries[j]);
            assert(near(
                c,
                value(share(w.entries[j], b)),
                total(paths, blank, chances, w.entries[j].prefix, b),
            ));
        }
        assert forall|j: int|
            0 <= j < paths.len() && path_probability(#[trigger] paths[j], chances) != 0 as real
            implies ctc_laws::is_held(beam, ctc_beam::collapsed(paths[j], blank)) by {
            let p = ctc_beam::collapsed(paths[j], blank);
            assert(ctc_laws::is_held(w.entries, p));
            let x = choose|x: int|
                0 <= x < w.entries.len() && (#[trigger] w.entries[x]).prefix == p;
            assert(x <= order.len());
            lemma_full_order_has_every_place(order, x as usize);
            let y = choose|y: int| 0 <= y < order.len() && order[y] == x as usize;
            assert(beam[y].prefix == p);
        }
    }
}

proof fn lemma_taken_labels(labels: Seq<usize>, n: nat, blank_id: usize, vocab: usize)
    requires
        n <= labels.len(),
        labels.no_duplicates(),
        forall|i: int| 0 <= i < labels.len() ==> (#[trigger] labels[i]) < vocab,
        blank_id < vocab <= u32::MAX,
    ensures
        taken(labels, n, blank_id).no_duplicates(),
        forall|x: u32| #[trigger]
            taken(labels, n, blank_id).contains(x) <==> x == blank_id || exists|i: int|
                0 <= i < n && #[trigger] labels[i] == x,
    decreases n,
{
    let list = taken(labels, n, blank_id);
    if n == 0 {
        assert(list[0] == blank_id as u32);
    } else {
        let few = taken(labels, (n - 1) as nat, blank_id);
        lemma_taken_labels(labels, (n - 1) as nat, blank_id, vocab);
        let last = labels[n - 1];
        if last != blank_id {
            assert(!few.contains(last as u32)) by {
                if few.contains(last as u32) {
                    let i = choose|i: int| 0 <= i < n - 1 && #[trigger] labels[i] == last as u32;
                    assert(labels[i] == labels[n - 1]);
                }
            }
        }
        assert forall|x: u32| #[trigger] list.contains(x) <==> x == blank_id || exists|i: int|
            0 <= i < n && #[trigger] labels[i] == x by {
            if list.contains(x) {
                let j = choose|j: int| 0 <= j < list.len() && list[j] == x;
                if j < few.len() {
                    assert(few[j] == x);
                    assert(few.contains(x));
                } else {
                    assert(labels[n - 1] == x);
                }
            }
            if x == blank_id || exists|i: int| 0 <= i < n && #[trigger] labels[i] == x {
                if x != blank_id {
                    let i = choose|i: int| 0 <= i < n && #[trigger] labels[i] == x;
                    if i == n - 1 {
                        assert(list[list.len() - 1] == x);
                    } else {
                        assert(few.contains(x));
                    }
                } else {
                    assert(few.contains(x));
                }
                if few.contains(x) {
                    let j = choose|j: int| 0 <= j < few.len() && few[j] == x;
                    assert(list[j] == x);
                }
            }
        }
    }
}

proof fn lemma_all_longer_differ(paths: Seq<Seq<u32>>, labels: Seq<u32>)
    requires
        paths.no_duplicates(),
        labels.no_duplicates(),
    ensures
        all_longer(paths, labels).no_duplicates(),
    decreases paths.len(),
{
    if paths.len() > 0 {
        let front = paths.drop_last();
        let held = all_longer(front, labels);
        let more = longer(paths.last(), labels);
        lemma_all_longer_differ(front, labels);
        lemma_all_longer(front, labels);
        assert forall|i: int, j: int| 0 <= i < held.len() && 0 <= j < more.len() implies held[i]
            != more[j] by {
            assert(held.contains(held[i]));
            let k = choose|k: int| 0 <= k < front.len() && front[k] == held[i].drop_last();
            assert(more[j].drop_last() =~= paths.last());
            assert(paths[k] != paths[paths.len() - 1]);
        }
        assert forall|i: int, j: int| 0 <= i < more.len() && 0 <= j < more.len() && i
            != j implies more[i] != more[j] by {
            assert(more[i].last() == labels[i]);
            assert(more[j].last() == labels[j]);
        }
    }
}

/// Where the beam is no smaller than the vocabulary, the label paths through the
/// labels taken up are all the label paths, each listed once.
pub proof fn law_every_label_path_is_listed_once<A: Arithmetic>(
    m: &A,
    logits: Tensor2,
    blank_id: usize,
    beam_size: usize,
    log_probs: Seq<Seq<Bits>>,
    orders: Seq<Seq<usize>>,
    t: nat,
)
    requires
        t <= tensor::tensor2_shape(logits).0,
        blank_id < tensor::tensor2_shape(logits).1 <= u32::MAX,
        tensor::tensor2_shape(logits).1 <= beam_size,
        takes_up(m, logits, beam_size, log_probs, orders),
    ensures
        label_paths(orders, blank_id, t).no_duplicates(),
        forall|path: Seq<u32>| #[trigger]
            label_paths(orders, blank_id, t).contains(path) <==> ctc_laws::is_label_path(
                path,
                t,
                tensor::tensor2_shape(logits).1,
            ),
    decreases t,
{
    let vocab = tensor::tensor2_shape(logits).1;
    let paths = label_paths(orders, blank_id, t);
    if t == 0 {
        assert(paths[0] =~= Seq::empty());
        assert forall|path: Seq<u32>| #[trigger] paths.contains(path) <==> ctc_laws::is_label_path(
            path,
            0,
            vocab,
        ) by {
            if ctc_laws::is_label_path(path, 0, vocab) {
                assert(path =~= paths[0]);
            }
        }
    } else {
        let k = (t - 1) as nat;
        let before = label_paths(orders, blank_id, k);
        let order = orders[t - 1];
        let labels = taken(order, order.len(), blank_id);
        law_every_label_path_is_listed_once(
            m,
            logits,
            blank_id,
            beam_size,
            log_probs,
            orders,
            k,
        );
        assert(log_probs[t - 1].len() == vocab);
        ranking::law_top_keeps_the_best(log_probs[t - 1], beam_size as nat, order);
        lemma_taken_labels(order, order.len(), blank_id, vocab);
        lemma_all_longer(before, labels);
        lemma_all_longer_differ(before, labels);
        assert forall|path: Seq<u32>| #[trigger] paths.contains(path) <==> ctc_laws::is_label_path(
            path,
            t,
            vocab,
        ) by {
            if paths.contains(path) {
                let front = path.drop_last();
                assert(before.contains(front));
                assert(ctc_laws::is_label_path(front, k, vocab));
                assert(labels.contains(path.last()));
                assert forall|i: int| 0 <= i < path.len() implies (#[trigger] path[i]) < vocab by {
                    if i < front.len() {
                        assert(front[i] == path[i]);
                    }
                }
            }
            if ctc_laws::is_label_path(path, t, vocab) {
                let front = path.drop_last();
                assert(ctc_laws::is_label_path(front, k, vocab)) by {
                    assert forall|i: int| 0 <= i < front.len() implies (#[trigger] front[i])
                        < vocab by {
                        assert(front[i] == path[i]);
                    }
                }
                assert(path[t - 1] < vocab);
                lemma_full_order_has_every_place(order, path.last() as usize);
                let j = choose|j: int| 0 <= j < order.len() && order[j] == path.last() as usize;
                assert(order[j] == path.last());
                assert(labels.contains(path.last()));
            }
        }
    }
}

proof fn lemma_unreached_has_no_probability(
    paths: Seq<Seq<u32>>,
    blank: u32,
    chances: spec_fn(nat, u32) -> real,
    tokens: Seq<u32>,
)
    requires
        forall|k: int|
            0 <= k < paths.len() && path_probability(#[trigger] paths[k], chances) != 0 as real
                ==> ctc_beam::collapsed(paths[k], blank) != tokens,
    ensures
        probability(paths, blank, chances, tokens) == 0 as real,
    decreases paths.len(),
{
    if paths.len() > 0 {
        let front = paths.drop_last();
        assert forall|k: int|
            0 <= k < front.len() && path_probability(#[trigger] front[k], chances) != 0 as real
            implies ctc_beam::collapsed(front[k], blank) != tokens by {
            assert(front[k] == paths[k]);
        }
        lemma_unreached_has_no_probability(front, blank, chances, tokens);
        assert(paths[paths.len() - 1] == paths.last());
    }
}

/// The scores that the search ends with are numbers, and none is off by more than
/// the factor `q`.
pub open spec fn scores_round<A: Arithmetic>(
    m: &A,
    value: spec_fn(Bits) -> real,
    q: real,
    logits: Tensor2,
    blank_id: usize,
    beam_size: usize,
) -> bool {
    forall|beam: Seq<CtcPrefix>, keys: Seq<Bits>, i: int|
        ctc_beam::beam_after(
            m,
            logits,
            blank_id,
            beam_size,
            tensor::tensor2_shape(logits).0 as nat,
            beam,
        ) && #[trigger] ctc_beam::keys_are(m, beam, keys) && 0 <= i < keys.len() ==> {
            &&& !single::is_nan(#[trigger] keys[i])
            &&& rounding::rounds_sum(m, value, q, beam[i].log_pb, beam[i].log_pnb)
        }
}

proof fn lemma_key_is_near_probability<A: Arithmetic>(
    m: &A,
    value: spec_fn(Bits) -> real,
    q: real,
    rounds: nat,
    paths: Seq<Seq<u32>>,
    blank: u32,
    chances: spec_fn(nat, u32) -> real,
    beam: Seq<CtcPrefix>,
    keys: Seq<Bits>,
    i: int,
)
    requires
        q >= 1 as real,
        holds_near(beam, paths, blank, chances, value, power(q, rounds)),
        ctc_beam::keys_are(m, beam, keys),
        0 <= i < beam.len(),
        rounding::rounds_sum(m, value, q, beam[i].log_pb, beam[i].log_pnb),
    ensures
        near(
            power(q, rounds + 1),
            value(keys[i]),
            probability(paths, blank, chances, beam[i].prefix),
        ),
{
    assert(ctc_beam::prefix_score_is(m, beam[i], keys[i]));
    let c = power(q, rounds);
    let x = value(share(beam[i], true));
    let y = value(share(beam[i], false));
    let v = total(paths, blank, chances, beam[i].prefix, true);
    let w = total(paths, blank, chances, beam[i].prefix, false);
    assert(near(c, x, v) && near(c, y, w));
    rounding::lemma_near_adds(c, x, v, y, w);
    rounding::lemma_powers_grow(q, 0, rounds);
    rounding::lemma_near_chains(q, c, value(keys[i]), x + y, v + w);
    assert(q * c == c * q) by (nonlinear_arith);
}

/// Where nothing is pruned, the decoded tokens are the most probable: no others
/// have a greater total over their label paths, up to rounding. Where no operation
/// is off by more than the factor `q`, they are not more probable by more than that
/// factor for each operation that leads to either score; without rounding they are
/// not more probable at all.
pub proof fn law_result_is_the_most_probable<A: Arithmetic>(
    m: &A,
    value: spec_fn(Bits) -> real,
    q: real,
    chances: spec_fn(nat, u32) -> real,
    logits: Tensor2,
    blank_id: usize,
    config: BeamConfig,
    log_probs: Seq<Seq<Bits>>,
    orders: Seq<Seq<usize>>,
    n: nat,
    tokens: Seq<u32>,
    others: Seq<u32>,
)
    requires
        single_valued::is_function(m),
        rounding::stands_for(value),
        q >= 1 as real,
        are_chances(chances),
        tensor::tensor2_shape(logits).0 > 0,
        blank_id < tensor::tensor2_shape(logits).1 <= u32::MAX,
        takes_up(m, logits, ctc_beam::effective_beam_size(config), log_probs, orders),
        frames_fit(value, q, log_probs, tensor::tensor2_shape(logits).0 as nat, chances),
        frames_round(
            m,
            value,
            q,
            logits,
            blank_id,
            ctc_beam::effective_beam_size(config),
            tensor::tensor2_shape(logits).0 as nat,
        ),
        prunes_nothing(
            m,
            logits,
            blank_id,
            ctc_beam::effective_beam_size(config),
            n,
            tensor::tensor2_shape(logits).0 as nat,
        ),
        scores_round(m, value, q, logits, blank_id, ctc_beam::effective_beam_size(config)),
        ctc_beam::decodes(m, logits, blank_id, config, tokens),
    ensures
        probability(
            label_paths(orders, blank_id, tensor::tensor2_shape(logits).0 as nat),
            blank_id as u32,
            chances,
            others,
        ) <= power(q, 2 * (tensor::tensor2_shape(logits).0 as nat * (n + 3) + 1)) * probability(
            label_paths(orders, blank_id, tensor::tensor2_shape(logits).0 as nat),
            blank_id as u32,
            chances,
            tokens,
        ),
        q == 1 as real ==> probability(
            label_paths(orders, blank_id, tensor::tensor2_shape(logits).0 as nat),
            blank_id as u32,
            chances,
            others,
        ) <= probability(
            label_paths(orders, blank_id, tensor::tensor2_shape(logits).0 as nat),
            blank_id as u32,
            chances,
            tokens,
        ),
{
    let frames = tensor::tensor2_shape(logits).0 as nat;
    let blank = blank_id as u32;
    let size = ctc_beam::effective_beam_size(config);
    let paths = label_paths(orders, blank_id, frames);
    let rounds = frames * (n + 3);
    let (beam, keys) = choose|beam: Seq<CtcPrefix>, keys: Seq<Bits>|
        {
            &&& ctc_beam::beam_after(m, logits, blank_id, size, frames, beam)
            &&& #[trigger] ctc_beam::keys_are(m, beam, keys)
            &&& if beam.len() == 0 {
                tokens.len() == 0
            } else {
                tokens == beam[ranking::last_max(keys)].prefix
            }
        };
    law_scores_are_total_probabilities(
        m,
        value,
        q,
        chances,
        logits,
        blank_id,
        size,
        log_probs,
        orders,
        n,
        frames,
        beam,
    );
    ctc_laws::law_prefixes_are_collapsed_paths(m, logits, blank_id, size, frames, beam);
    assert forall|i: int| 0 <= i < keys.len() implies !single::is_nan(#[trigger] keys[i]) by {}
    ranking::law_last_max_is_greatest(keys);
    let best = ranking::last_max(keys);
    assert(!single::is_nan(keys[best]));
    lemma_key_is_near_probability(
        m,
        value,
        q,
        rounds,
        paths,
        blank,
        chances,
        beam,
        keys,
        best,
    );
    let d = power(q, rounds + 1);
    let p = probability(paths, blank, chances, tokens);
    let r = probability(paths, blank, chances, others);
    lemma_totals_are_not_negative(paths, blank, chances, tokens, true);
    lemma_totals_are_not_negative(paths, blank, chances, tokens, false);
    rounding::lemma_powers_grow(q, 0, rounds + 1);
    rounding::lemma_powers_multiply(q, rounds + 1, rounds + 1);
    assert(power(q, 2 * (rounds + 1)) == d * d);
    assert(r <= (d * d) * p) by {
        if ctc_laws::is_held(beam, others) {
            let i = choose|i: int| 0 <= i < beam.len() && (#[trigger] beam[i]).prefix == others;
            assert(!single::is_nan(keys[i]));
            lemma_key_is_near_probability(
                m,
                value,
                q,
                rounds,
                paths,
                blank,
                chances,
                beam,
                keys,
                i,
            );
            assert(!single::greater(keys[i], keys[best]));
            assert(single::rank(keys[best]) >= single::rank(keys[i]));
            let x = value(keys[i]);
            let y = value(keys[best]);
            assert(r <= (d * d) * p) by (nonlinear_arith)
                requires
                    r <= d * x,
                    x <= y,
                    y <= d * p,
                    d >= 1 as real,
            ;
        } else {
            assert forall|k: int|
                0 <= k < paths.len() && path_probability(#[trigger] paths[k], chances)
                    != 0 as real implies ctc_beam::collapsed(paths[k], blank) != others by {
                assert(ctc_laws::is_held(beam, ctc_beam::collapsed(paths[k], blank)));
            }
            lemma_unreached_has_no_probability(paths, blank, chances, others);
            lemma_product_is_not_negative(d, d);
            lemma_product_is_not_negative(d * d, p);
        }
    }
    if q == 1 as real {
        rounding::lemma_powers_of_one(2 * (rounds + 1));
        assert((1 as real) * p == p) by (nonlinear_arith);
    }
}

} // verus!
