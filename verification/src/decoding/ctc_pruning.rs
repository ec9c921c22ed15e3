//! What CTC prefix beam search keeps where it cannot keep everything: the most
//! probable prefixes, by all their label paths.
use vstd::prelude::*;
use crate::arithmetic;
use crate::arithmetic::Arithmetic;
use crate::decoding::ctc_beam;
use crate::decoding::ctc_beam::{CtcFrameTrace, CtcPrefix};
use crate::decoding::BeamConfig;
use crate::ranking;
use crate::rounding;
use crate::rounding::near;
use crate::single;
use crate::single::Bits;
use crate::tensor;
use crate::tensor::Tensor2;

verus! {

/// The probability of a prefix: of its label paths that end in a blank, and of
/// those that do not.
pub open spec fn whole(e: CtcPrefix, value: spec_fn(Bits) -> real) -> real {
    value(e.log_pb) + value(e.log_pnb)
}

/// Adding up the two log-probabilities of each entry comes to a number, and is off
/// by no more than the factor `q`.
pub open spec fn entries_round<A: Arithmetic>(
    m: &A,
    value: spec_fn(Bits) -> real,
    q: real,
    beam: Seq<CtcPrefix>,
) -> bool {
    forall|i: int, r: Bits|
        0 <= i < beam.len() && #[trigger] arithmetic::log_sum_exp_is(
            m,
            beam[i].log_pb,
            beam[i].log_pnb,
            r,
        ) ==> !single::is_nan(r) && near(q, value(r), whole(beam[i], value))
}

proof fn lemma_keys_compare<A: Arithmetic>(
    m: &A,
    value: spec_fn(Bits) -> real,
    q: real,
    beam: Seq<CtcPrefix>,
    keys: Seq<Bits>,
    i: int,
    j: int,
)
    requires
        rounding::stands_for(value),
        q >= 1 as real,
        entries_round(m, value, q, beam),
        ctc_beam::keys_are(m, beam, keys),
        0 <= i < beam.len(),
        0 <= j < beam.len(),
        single::rank(keys[i]) >= single::rank(keys[j]),
    ensures
        whole(beam[j], value) <= (q * q) * whole(beam[i], value),
        !single::is_nan(keys[i]),
        !single::is_nan(keys[j]),
{
    assert(ctc_beam::prefix_score_is(m, beam[i], keys[i]));
    assert(ctc_beam::prefix_score_is(m, beam[j], keys[j]));
    let x = value(keys[i]);
    let y = value(keys[j]);
    let a = whole(beam[i], value);
    let b = whole(beam[j], value);
    assert(near(q, x, a));
    assert(near(q, y, b));
    assert(x >= y);
    assert(b <= (q * q) * a) by (nonlinear_arith)
        requires
            b <= q * y,
            y <= x,
            x <= q * a,
            q >= 1 as real,
    ;
}

/// What pruning drops is no more probable than what it keeps: for every entry kept
/// and every entry left out, the probability of the one kept, over all its label
/// paths, is not below that of the one left out, up to the rounding of the two sums.
/// Kept are as many as the beam holds, the more probable ones before the others.
pub proof fn law_pruning_drops_nothing_more_probable<A: Arithmetic>(
    m: &A,
    value: spec_fn(Bits) -> real,
    q: real,
    beam: Seq<CtcPrefix>,
    beam_size: usize,
    pruned: Seq<CtcPrefix>,
)
    requires
        rounding::stands_for(value),
        q >= 1 as real,
        beam.len() <= usize::MAX,
        entries_round(m, value, q, beam),
        ctc_beam::pruned_is(m, beam, beam_size, pruned),
    ensures
        beam.len() <= beam_size ==> pruned.len() == beam.len(),
        beam.len() > beam_size ==> pruned.len() == beam_size,
        forall|i: int| 0 <= i < pruned.len() ==> beam.contains(#[trigger] pruned[i]),
        forall|i: int, j: int|
            0 <= i < pruned.len() && 0 <= j < beam.len() && !pruned.contains(#[trigger] beam[j])
                ==> whole(beam[j], value) <= (q * q) * whole(#[trigger] pruned[i], value),
        forall|i: int, j: int|
            0 <= i < j < pruned.len() ==> whole(#[trigger] pruned[j], value) <= (q * q) * whole(
                #[trigger] pruned[i],
                value,
            ),
{
    let (keys, order) = choose|keys: Seq<Bits>, order: Seq<usize>|
        {
            &&& #[trigger] ctc_beam::keys_are(m, beam, keys)
            &&& #[trigger] ranking::is_top(keys, beam_size as nat, order)
            &&& pruned == ranking::pick(beam, order)
        };
    assert forall|i: int| 0 <= i < pruned.len() implies beam.contains(#[trigger] pruned[i]) by {
        assert(pruned[i] == beam[order[i] as int]);
    }
    assert forall|i: int, j: int|
        0 <= i < pruned.len() && 0 <= j < beam.len() && !pruned.contains(#[trigger] beam[j]) implies
        whole(beam[j], value) <= (q * q) * whole(#[trigger] pruned[i], value) by {
        let at = j as usize;
        assert(!order.contains(at)) by {
            if order.contains(at) {
                let k = choose|k: int| 0 <= k < order.len() && order[k] == at;
                assert(pruned[k] == beam[j]);
            }
        }
        assert(ranking::before(keys, order[i] as int, at as int));
        lemma_keys_compare(m, value, q, beam, keys, order[i] as int, j);
    }
    assert forall|i: int, j: int| 0 <= i < j < pruned.len() implies whole(
        #[trigger] pruned[j],
        value,
    ) <= (q * q) * whole(#[trigger] pruned[i], value) by {
        assert(ranking::before(keys, order[i] as int, order[j] as int));
        lemma_keys_compare(m, value, q, beam, keys, order[i] as int, order[j] as int);
    }
}

/// A prefix that is more probable than every other, by more than the rounding,
/// survives every pruning to at least one entry.
pub proof fn law_most_probable_prefix_survives<A: Arithmetic>(
    m: &A,
    value: spec_fn(Bits) -> real,
    q: real,
    beam: Seq<CtcPrefix>,
    beam_size: usize,
    pruned: Seq<CtcPrefix>,
    j: int,
)
    requires
        rounding::stands_for(value),
        q >= 1 as real,
        beam.len() <= usize::MAX,
        entries_round(m, value, q, beam),
        ctc_beam::pruned_is(m, beam, beam_size, pruned),
        beam_size >= 1,
        0 <= j < beam.len(),
        forall|i: int|
            0 <= i < beam.len() && i != j ==> (q * q) * whole(#[trigger] beam[i], value) < whole(
                beam[j],
                value,
            ),
    ensures
        pruned.contains(beam[j]),
{
    law_pruning_drops_nothing_more_probable(m, value, q, beam, beam_size, pruned);
    if !pruned.contains(beam[j]) {
        assert(pruned.len() > 0);
        assert(beam.contains(pruned[0]));
        let i = choose|i: int| 0 <= i < beam.len() && beam[i] == pruned[0];
        assert(i != j);
        assert(whole(beam[j], value) <= (q * q) * whole(beam[i], value));
    }
}

/// A frame ends with the most probable of the prefixes that it leads to: none that
/// it leaves out is more probable than one that it keeps, up to rounding.
pub proof fn law_frames_keep_the_most_probable_prefixes<A: Arithmetic>(
    m: &A,
    value: spec_fn(Bits) -> real,
    q: real,
    logits: Seq<Bits>,
    blank_id: usize,
    beam_size: usize,
    beam: Seq<CtcPrefix>,
    w: CtcFrameTrace,
    next: Seq<CtcPrefix>,
)
    requires
        rounding::stands_for(value),
        q >= 1 as real,
        ctc_beam::frame_traced(m, logits, blank_id, beam_size, beam, w, next),
        w.entries.len() <= usize::MAX,
        entries_round(m, value, q, w.entries),
    ensures
        w.entries.len() <= beam_size ==> next.len() == w.entries.len(),
        w.entries.len() > beam_size ==> next.len() == beam_size,
        forall|i: int| 0 <= i < next.len() ==> w.entries.contains(#[trigger] next[i]),
        forall|i: int, j: int|
            0 <= i < next.len() && 0 <= j < w.entries.len() && !next.contains(
                #[trigger] w.entries[j],
            ) ==> whole(w.entries[j], value) <= (q * q) * whole(#[trigger] next[i], value),
{
    law_pruning_drops_nothing_more_probable(m, value, q, w.entries, beam_size, next);
}

/// The tokens are the prefix of an entry that no other of the beam is more probable
/// than, up to rounding.
pub open spec fn is_most_probable_of(
    tokens: Seq<u32>,
    beam: Seq<CtcPrefix>,
    value: spec_fn(Bits) -> real,
    q: real,
) -> bool {
    exists|k: int|
        {
            &&& 0 <= k < beam.len()
            &&& (#[trigger] beam[k]).prefix == tokens
            &&& forall|j: int|
                0 <= j < beam.len() ==> whole(#[trigger] beam[j], value) <= (q * q) * whole(
                    beam[k],
                    value,
                )
        }
}

/// `beam` is what all the frames may lead to.
pub open spec fn is_last_beam<A: Arithmetic>(
    m: &A,
    logits: Tensor2,
    blank_id: usize,
    config: BeamConfig,
    beam: Seq<CtcPrefix>,
) -> bool {
    ctc_beam::beam_after(
        m,
        logits,
        blank_id,
        if config.beam_size == 0 {
            1
        } else {
            config.beam_size
        },
        tensor::tensor2_shape(logits).0 as nat,
        beam,
    )
}

/// The decoded tokens are a prefix of the last beam that no other is more probable
/// than, over all its label paths and up to rounding.
pub proof fn law_result_is_the_most_probable_of_the_last_beam<A: Arithmetic>(
    m: &A,
    value: spec_fn(Bits) -> real,
    q: real,
    logits: Tensor2,
    blank_id: usize,
    config: BeamConfig,
    tokens: Seq<u32>,
)
    requires
        rounding::stands_for(value),
        q >= 1 as real,
        tensor::tensor2_shape(logits).0 > 0,
        ctc_beam::decodes(m, logits, blank_id, config, tokens),
        forall|beam: Seq<CtcPrefix>| #[trigger]
            is_last_beam(m, logits, blank_id, config, beam) ==> entries_round(m, value, q, beam),
    ensures
        exists|beam: Seq<CtcPrefix>| #[trigger]
            is_last_beam(m, logits, blank_id, config, beam) && (beam.len() == 0 ==> tokens.len()
                == 0) && (beam.len() > 0 ==> is_most_probable_of(tokens, beam, value, q)),
{
    let (beam, keys) = choose|beam: Seq<CtcPrefix>, keys: Seq<Bits>|
        {
            &&& ctc_beam::beam_after(
                m,
                logits,
                blank_id,
                ctc_beam::effective_beam_size(config),
                tensor::tensor2_shape(logits).0 as nat,
                beam,
            )
            &&& #[trigger] ctc_beam::keys_are(m, beam, keys)
            &&& if beam.len() == 0 {
                tokens.len() == 0
            } else {
                tokens == beam[ranking::last_max(keys)].prefix
            }
        };
    assert(is_last_beam(m, logits, blank_id, config, beam));
    if beam.len() > 0 {
        assert forall|i: int| 0 <= i < keys.len() implies !single::is_nan(#[trigger] keys[i]) by {
            lemma_keys_compare(m, value, q, beam, keys, i, i);
        }
        ranking::law_last_max_is_greatest(keys);
        let k = ranking::last_max(keys);
        assert forall|j: int| 0 <= j < beam.len() implies whole(#[trigger] beam[j], value) <= (q
            * q) * whole(beam[k], value) by {
            assert(!single::greater(keys[j], keys[k]));
            lemma_keys_compare(m, value, q, beam, keys, k, j);
        }
        assert(beam[k].prefix == tokens);
    }
}

/// The label that greedy decoding takes on a frame: one that none scores above, and
/// of equals the last.
pub proof fn law_greedy_takes_the_best_label(logits: Tensor2, t: int)
    requires
        0 <= t < tensor::tensor2_shape(logits).0,
        0 < tensor::tensor2_shape(logits).1 <= u32::MAX,
        forall|i: int|
            0 <= i < tensor::tensor2_shape(logits).1 ==> !single::is_nan(
                #[trigger] tensor::row_items(logits, t)[i],
            ),
    ensures
        ctc_beam::greedy_path(logits).len() == tensor::tensor2_shape(logits).0,
        ctc_beam::greedy_path(logits)[t] < tensor::tensor2_shape(logits).1,
        forall|i: int|
            0 <= i < tensor::tensor2_shape(logits).1 ==> !single::greater(
                #[trigger] tensor::row_items(logits, t)[i],
                tensor::row_items(logits, t)[ctc_beam::greedy_path(logits)[t] as int],
            ),
        forall|i: int|
            ctc_beam::greedy_path(logits)[t] < i < tensor::tensor2_shape(logits).1
                ==> single::greater(
                tensor::row_items(logits, t)[ctc_beam::greedy_path(logits)[t] as int],
                #[trigger] tensor::row_items(logits, t)[i],
            ),
{
    ranking::law_last_max_is_greatest(tensor::row_items(logits, t));
}

} // verus!
