//! What RNN-T beam search does with its hypotheses: merging keeps probability, and
//! pruning drops nothing better than what it keeps.
use vstd::prelude::*;
use crate::arithmetic::Arithmetic;
use crate::arithmetic_laws;
use crate::decoding::rnnt_beam;
use crate::decoding::rnnt_beam::{
    RnntBeamOutput, RnntContext, RnntFrameTrace, RnntPath, RnntStep,
};
use crate::decoding::rnnt_laws;
use crate::decoding::BeamConfig;
use crate::error::Error;
use crate::ranking;
use crate::rounding;
use crate::rounding::{near, power};
use crate::single;
use crate::single::Bits;
use crate::tensor::Tensor3;

verus! {

/// Two paths are alignments of the same tokens: they stand on the same frame, are
/// fed the same token, and have emitted the same token ids, on whatever frames.
pub open spec fn align_the_same(a: RnntPath, b: RnntPath) -> bool {
    &&& a.frame == b.frame
    &&& a.last_token == b.last_token
    &&& a.tokens.len() == b.tokens.len()
    &&& forall|i: int| 0 <= i < a.tokens.len() ==> (#[trigger] a.tokens[i]).0 == b.tokens[i].0
}

/// The probability of those paths that are alignments of the same tokens as `p`.
pub open spec fn mass(
    paths: Seq<RnntPath>,
    value: spec_fn(Bits) -> real,
    p: RnntPath,
) -> real
    decreases paths.len(),
{
    if paths.len() == 0 {
        0 as real
    } else {
        mass(paths.drop_last(), value, p) + if align_the_same(paths.last(), p) {
            value(paths.last().score)
        } else {
            0 as real
        }
    }
}

/// The first `n` of the paths may merge into `held`.
pub open spec fn first_merge<A: Arithmetic>(
    m: &A,
    all: Seq<RnntPath>,
    n: int,
    held: Seq<RnntPath>,
) -> bool {
    rnnt_beam::merged_is(m, all.take(n), held)
}

/// Adding each of the paths to an alignment of the same tokens, where there is one
/// already, is off by no more than the factor `q`.
pub open spec fn merging_rounds<A: Arithmetic>(
    m: &A,
    value: spec_fn(Bits) -> real,
    q: real,
    all: Seq<RnntPath>,
) -> bool {
    forall|n: int, held: Seq<RnntPath>, i: int|
        0 <= n < all.len() && #[trigger] first_merge(m, all, n, held) && 0 <= i < held.len()
            && align_the_same(#[trigger] held[i], all[n]) ==> rounding::rounds_sum(
            m,
            value,
            q,
            held[i].score,
            all[n].score,
        )
}

proof fn lemma_keys_are_alignments(a: RnntPath, b: RnntPath)
    ensures
        rnnt_beam::same_key(a, b) <==> align_the_same(a, b),
{
    let x = rnnt_beam::token_ids(a.tokens);
    let y = rnnt_beam::token_ids(b.tokens);
    if rnnt_beam::same_key(a, b) {
        assert(x.len() == y.len());
        assert forall|i: int| 0 <= i < a.tokens.len() implies (#[trigger] a.tokens[i]).0
            == b.tokens[i].0 by {
            assert(x[i] == y[i]);
        }
    }
    if align_the_same(a, b) {
        assert(x =~= y);
    }
}

proof fn lemma_mass_after_update(
    paths: Seq<RnntPath>,
    value: spec_fn(Bits) -> real,
    i: int,
    score: Bits,
    p: RnntPath,
)
    requires
        0 <= i < paths.len(),
    ensures
        mass(paths.update(i, (RnntPath { score, ..paths[i] })), value, p) == mass(paths, value, p)
            + if align_the_same(paths[i], p) {
            value(score) - value(paths[i].score)
        } else {
            0 as real
        },
    decreases paths.len(),
{
    let after = RnntPath { score, ..paths[i] };
    let updated = paths.update(i, after);
    assert(align_the_same(after, p) == align_the_same(paths[i], p)) by {
        assert(after.tokens == paths[i].tokens);
    }
    if i == paths.len() - 1 {
        assert(updated.drop_last() =~= paths.drop_last());
    } else {
        assert(updated.drop_last() =~= paths.drop_last().update(i, after));
        lemma_mass_after_update(paths.drop_last(), value, i, score, p);
    }
}

proof fn lemma_mass_has_its_paths(
    paths: Seq<RnntPath>,
    value: spec_fn(Bits) -> real,
    p: RnntPath,
)
    requires
        rounding::stands_for(value),
    ensures
        mass(paths, value, p) >= 0 as real,
        forall|i: int|
            0 <= i < paths.len() && align_the_same(#[trigger] paths[i], p) ==> value(
                paths[i].score,
            ) <= mass(paths, value, p),
    decreases paths.len(),
{
    if paths.len() > 0 {
        let front = paths.drop_last();
        lemma_mass_has_its_paths(front, value, p);
        assert(value(paths.last().score) >= 0 as real);
        assert forall|i: int|
            0 <= i < paths.len() && align_the_same(#[trigger] paths[i], p) implies value(
            paths[i].score,
        ) <= mass(paths, value, p) by {
            if i < front.len() {
                assert(front[i] == paths[i]);
            }
        }
    }
}

proof fn lemma_mass_of_one(paths: Seq<RnntPath>, value: spec_fn(Bits) -> real, i: int)
    requires
        0 <= i < paths.len(),
        forall|j: int, k: int|
            0 <= j < k < paths.len() ==> !align_the_same(
                #[trigger] paths[j],
                #[trigger] paths[k],
            ),
    ensures
        mass(paths, value, paths[i]) == value(paths[i].score),
    decreases paths.len(),
{
    let front = paths.drop_last();
    let last = paths.len() - 1;
    if i == last {
        assert forall|j: int| 0 <= j < front.len() implies !align_the_same(
            #[trigger] front[j],
            paths[i],
        ) by {
            assert(!align_the_same(paths[j], paths[last]));
        }
        lemma_no_mass(front, value, paths[i]);
        assert(align_the_same(paths[i], paths[i]));
    } else {
        assert forall|j: int, k: int| 0 <= j < k < front.len() implies !align_the_same(
            #[trigger] front[j],
            #[trigger] front[k],
        ) by {
            assert(!align_the_same(paths[j], paths[k]));
        }
        lemma_mass_of_one(front, value, i);
        assert(front[i] == paths[i]);
        assert(!align_the_same(paths[i], paths[last]));
        lemma_alignment_turns(paths[i], paths[last]);
    }
}

proof fn lemma_alignment_turns(a: RnntPath, b: RnntPath)
    ensures
        align_the_same(a, b) == align_the_same(b, a),
{
    if align_the_same(a, b) {
        assert forall|i: int| 0 <= i < b.tokens.len() implies (#[trigger] b.tokens[i]).0
            == a.tokens[i].0 by {
            assert(a.tokens[i].0 == b.tokens[i].0);
        }
    }
    if align_the_same(b, a) {
        assert forall|i: int| 0 <= i < a.tokens.len() implies (#[trigger] a.tokens[i]).0
            == b.tokens[i].0 by {
            assert(b.tokens[i].0 == a.tokens[i].0);
        }
    }
}

proof fn lemma_no_mass(paths: Seq<RnntPath>, value: spec_fn(Bits) -> real, p: RnntPath)
    requires
        forall|j: int| 0 <= j < paths.len() ==> !align_the_same(#[trigger] paths[j], p),
    ensures
        mass(paths, value, p) == 0 as real,
    decreases paths.len(),
{
    if paths.len() > 0 {
        let front = paths.drop_last();
        assert forall|j: int| 0 <= j < front.len() implies !align_the_same(
            #[trigger] front[j],
            p,
        ) by {
            assert(!align_the_same(paths[j], p));
        }
        lemma_no_mass(front, value, p);
        assert(!align_the_same(paths[paths.len() - 1], p));
    }
}

proof fn lemma_merging_keeps_mass<A: Arithmetic>(
    m: &A,
    value: spec_fn(Bits) -> real,
    q: real,
    all: Seq<RnntPath>,
    n: nat,
    merged: Seq<RnntPath>,
    p: RnntPath,
)
    requires
        rounding::stands_for(value),
        q >= 1 as real,
        n <= all.len(),
        merging_rounds(m, value, q, all),
        first_merge(m, all, n as int, merged),
    ensures
        near(power(q, n), mass(merged, value, p), mass(all.take(n as int), value, p)),
    decreases n,
{
    let some = all.take(n as int);
    if n == 0 {
        rounding::lemma_equal_is_near(1 as real, 0 as real);
    } else {
        let k = (n - 1) as nat;
        let front = all.take(k as int);
        let new = all[k as int];
        assert(some.drop_last() =~= front && some.last() == new);
        let (held, i, score) = choose|held: Seq<RnntPath>, i: int, score: Bits|
            rnnt_beam::merged_is(m, some.drop_last(), held) && #[trigger] rnnt_beam::absorbs(
                m,
                held,
                some.last(),
                i,
                score,
                merged,
            );
        assert(first_merge(m, all, k as int, held));
        lemma_merging_keeps_mass(m, value, q, all, k, held, p);
        let c = power(q, k);
        let x = mass(held, value, p);
        let y = mass(front, value, p);
        lemma_mass_has_its_paths(held, value, p);
        lemma_mass_has_its_paths(front, value, p);
        lemma_mass_has_its_paths(merged, value, p);
        lemma_mass_has_its_paths(some, value, p);
        rounding::lemma_powers_grow(q, k, n);
        rounding::lemma_powers_grow(q, 0, k);
        let v = value(new.score);
        assert(v >= 0 as real);
        if align_the_same(new, p) {
            rounding::lemma_equal_is_near(c, v);
            rounding::lemma_near_adds(c, x, y, v, v);
            if i < held.len() {
                lemma_keys_are_alignments(held[i], new);
                lemma_mass_after_update(held, value, i, score, p);
                assert(align_the_same(held[i], p)) by {
                    let a = held[i];
                    assert forall|j: int| 0 <= j < a.tokens.len() implies (
                    #[trigger] a.tokens[j]).0 == p.tokens[j].0 by {
                        assert(new.tokens[j].0 == p.tokens[j].0);
                    }
                }
                let w = value(held[i].score);
                let s = value(score);
                assert(rounding::rounds_sum(m, value, q, held[i].score, new.score));
                assert(near(q, s, w + v));
                let rest = x - w;
                rounding::lemma_equal_is_near(q, rest);
                rounding::lemma_near_adds(q, rest, rest, s, w + v);
                rounding::lemma_near_chains(q, c, rest + s, x + v, y + v);
                assert(q * c == c * q) by (nonlinear_arith);
            } else {
                assert(merged.drop_last() =~= held);
                rounding::lemma_near_widens(c, power(q, n), x + v, y + v);
            }
        } else {
            if i < held.len() {
                lemma_keys_are_alignments(held[i], new);
                lemma_mass_after_update(held, value, i, score, p);
                assert(!align_the_same(held[i], p)) by {
                    if align_the_same(held[i], p) {
                        assert forall|j: int| 0 <= j < new.tokens.len() implies (
                        #[trigger] new.tokens[j]).0 == p.tokens[j].0 by {
                            assert(held[i].tokens[j].0 == new.tokens[j].0);
                        }
                    }
                }
            } else {
                assert(merged.drop_last() =~= held);
            }
            rounding::lemma_near_widens(c, power(q, n), x, y);
        }
    }
}

proof fn lemma_merged_differ<A: Arithmetic>(
    m: &A,
    all: Seq<RnntPath>,
    merged: Seq<RnntPath>,
)
    requires
        rnnt_beam::merged_is(m, all, merged),
    ensures
        forall|i: int, j: int|
            0 <= i < j < merged.len() ==> !align_the_same(
                #[trigger] merged[i],
                #[trigger] merged[j],
            ),
{
    rnnt_laws::law_merging_leaves_one_of_each_key(m, all, merged);
    assert forall|i: int, j: int| 0 <= i < j < merged.len() implies !align_the_same(
        #[trigger] merged[i],
        #[trigger] merged[j],
    ) by {
        lemma_keys_are_alignments(merged[i], merged[j]);
    }
}

/// Merging keeps probability. Of the alignments of some tokens one path is left, and
/// its score stands for the sum of what their scores stood for, in whatever order
/// they came: it is off by no more than the factor `q` for each of the paths, where
/// no addition is off by more.
pub proof fn law_merging_keeps_probability<A: Arithmetic>(
    m: &A,
    value: spec_fn(Bits) -> real,
    q: real,
    all: Seq<RnntPath>,
    merged: Seq<RnntPath>,
)
    requires
        rounding::stands_for(value),
        q >= 1 as real,
        merging_rounds(m, value, q, all),
        rnnt_beam::merged_is(m, all, merged),
    ensures
        forall|i: int|
            0 <= i < merged.len() ==> near(
                power(q, all.len()),
                value((#[trigger] merged[i]).score),
                mass(all, value, merged[i]),
            ),
        forall|p: RnntPath|
            near(
                power(q, all.len()),
                #[trigger] mass(merged, value, p),
                mass(all, value, p),
            ),
        forall|i: int, j: int|
            0 <= i < j < merged.len() ==> !align_the_same(
                #[trigger] merged[i],
                #[trigger] merged[j],
            ),
{
    assert(all.take(all.len() as int) =~= all);
    assert(first_merge(m, all, all.len() as int, merged));
    lemma_merged_differ(m, all, merged);
    assert forall|p: RnntPath|
        near(
            power(q, all.len()),
            #[trigger] mass(merged, value, p),
            mass(all, value, p),
        ) by {
        lemma_merging_keeps_mass(m, value, q, all, all.len(), merged, p);
    }
    assert forall|i: int| 0 <= i < merged.len() implies near(
        power(q, all.len()),
        value((#[trigger] merged[i]).score),
        mass(all, value, merged[i]),
    ) by {
        lemma_mass_of_one(merged, value, i);
        assert(near(
            power(q, all.len()),
            mass(merged, value, merged[i]),
            mass(all, value, merged[i]),
        ));
    }
}

/// `p` is the first of the paths that are alignments of its tokens, but for its
/// score.
pub open spec fn is_first_alignment(p: RnntPath, all: Seq<RnntPath>, j: int) -> bool {
    &&& 0 <= j < all.len()
    &&& p == (RnntPath { score: p.score, ..all[j] })
    &&& forall|k: int| 0 <= k < j ==> !align_the_same(#[trigger] all[k], p)
}

/// `p` is, but for its score, the first of the paths that are alignments of its
/// tokens.
pub open spec fn is_a_first_alignment(p: RnntPath, all: Seq<RnntPath>) -> bool {
    exists|j: int| #[trigger] is_first_alignment(p, all, j)
}

/// One of the paths is an alignment of the tokens of `p`.
pub open spec fn has_alignment_of(paths: Seq<RnntPath>, p: RnntPath) -> bool {
    exists|i: int| 0 <= i < paths.len() && align_the_same(#[trigger] paths[i], p)
}

/// Of the alignments of some tokens merging leaves the first, with its states and
/// the frames of its tokens, and it leaves one of every alignment that was there.
pub proof fn law_merging_leaves_the_first_alignment<A: Arithmetic>(
    m: &A,
    all: Seq<RnntPath>,
    merged: Seq<RnntPath>,
)
    requires
        rnnt_beam::merged_is(m, all, merged),
    ensures
        forall|i: int| 0 <= i < merged.len() ==> #[trigger] is_a_first_alignment(merged[i], all),
        forall|j: int| 0 <= j < all.len() ==> #[trigger] has_alignment_of(merged, all[j]),
    decreases all.len(),
{
    lemma_every_alignment_is_left(m, all, merged);
    if all.len() > 0 {
        let front = all.drop_last();
        let new = all.last();
        let (held, at, score) = choose|held: Seq<RnntPath>, at: int, score: Bits|
            rnnt_beam::merged_is(m, front, held) && #[trigger] rnnt_beam::absorbs(
                m,
                held,
                new,
                at,
                score,
                merged,
            );
        law_merging_leaves_the_first_alignment(m, front, held);
        assert forall|i: int| 0 <= i < merged.len() implies #[trigger] is_a_first_alignment(
            merged[i],
            all,
        ) by {
            if i < held.len() {
                assert(is_a_first_alignment(held[i], front));
                lemma_first_stays_first(held[i], merged[i].score, front, new);
                assert(merged[i] == (RnntPath { score: merged[i].score, ..held[i] }));
                assert(front.push(new) =~= all);
            } else {
                assert(merged[i] == new);
                lemma_new_is_first(front, held, new);
                assert(front.push(new) =~= all);
            }
        }
    }
}

proof fn lemma_every_alignment_is_left<A: Arithmetic>(
    m: &A,
    all: Seq<RnntPath>,
    merged: Seq<RnntPath>,
)
    requires
        rnnt_beam::merged_is(m, all, merged),
    ensures
        forall|j: int| 0 <= j < all.len() ==> #[trigger] has_alignment_of(merged, all[j]),
{
    rnnt_laws::law_merging_leaves_one_of_each_key(m, all, merged);
    assert forall|j: int| 0 <= j < all.len() implies #[trigger] has_alignment_of(
        merged,
        all[j],
    ) by {
        assert(rnnt_laws::has_key_of(merged, all[j]));
        let i = choose|i: int|
            0 <= i < merged.len() && rnnt_beam::same_key(#[trigger] merged[i], all[j]);
        lemma_keys_are_alignments(merged[i], all[j]);
    }
}

proof fn lemma_first_stays_first(p: RnntPath, score: Bits, front: Seq<RnntPath>, new: RnntPath)
    requires
        is_a_first_alignment(p, front),
    ensures
        is_a_first_alignment((RnntPath { score, ..p }), front.push(new)),
{
    let j = choose|j: int| #[trigger] is_first_alignment(p, front, j);
    let r = RnntPath { score, ..p };
    let all = front.push(new);
    assert forall|k: int| 0 <= k < j implies !align_the_same(#[trigger] all[k], r) by {
        assert(!align_the_same(front[k], p));
        if align_the_same(all[k], r) {
            assert(align_the_same(front[k], p));
        }
    }
    assert(is_first_alignment(r, all, j));
}

proof fn lemma_new_is_first(front: Seq<RnntPath>, held: Seq<RnntPath>, new: RnntPath)
    requires
        forall|j: int| 0 <= j < front.len() ==> #[trigger] has_alignment_of(held, front[j]),
        forall|h: int| 0 <= h < held.len() ==> !rnnt_beam::same_key(#[trigger] held[h], new),
    ensures
        is_a_first_alignment(new, front.push(new)),
{
    let all = front.push(new);
    let j = front.len() as int;
    assert forall|k: int| 0 <= k < j implies !align_the_same(#[trigger] all[k], new) by {
        if align_the_same(all[k], new) {
            assert(has_alignment_of(held, front[k]));
            let h = choose|h: int| 0 <= h < held.len() && align_the_same(#[trigger] held[h], front[k]);
            let a = held[h];
            assert(align_the_same(a, new)) by {
                assert forall|l: int| 0 <= l < a.tokens.len() implies (#[trigger] a.tokens[l]).0
                    == new.tokens[l].0 by {
                    assert(all[k].tokens[l].0 == new.tokens[l].0);
                }
            }
            lemma_keys_are_alignments(a, new);
        }
    }
    assert(is_first_alignment(new, all, j));
}

/// Merging does not depend on the order of two paths: where two neighbours change
/// places, what is left for some tokens has the same probability, up to rounding.
pub proof fn law_merging_ignores_the_order<A: Arithmetic>(
    m: &A,
    value: spec_fn(Bits) -> real,
    q: real,
    all: Seq<RnntPath>,
    k: int,
    merged: Seq<RnntPath>,
    other: Seq<RnntPath>,
    p: RnntPath,
)
    requires
        rounding::stands_for(value),
        q >= 1 as real,
        0 <= k < all.len() - 1,
        merging_rounds(m, value, q, all),
        merging_rounds(m, value, q, all.update(k, all[k + 1]).update(k + 1, all[k])),
        rnnt_beam::merged_is(m, all, merged),
        rnnt_beam::merged_is(m, all.update(k, all[k + 1]).update(k + 1, all[k]), other),
    ensures
        near(power(q, all.len() + all.len()), mass(merged, value, p), mass(other, value, p)),
{
    let turned = all.update(k, all[k + 1]).update(k + 1, all[k]);
    let c = power(q, all.len());
    law_merging_keeps_probability(m, value, q, all, merged);
    law_merging_keeps_probability(m, value, q, turned, other);
    lemma_mass_of_turned(all, value, k, p);
    rounding::lemma_powers_grow(q, 0, all.len());
    rounding::lemma_near_chains(
        c,
        c,
        mass(merged, value, p),
        mass(all, value, p),
        mass(other, value, p),
    );
    rounding::lemma_powers_multiply(q, all.len(), all.len());
}

proof fn lemma_mass_of_turned(
    all: Seq<RnntPath>,
    value: spec_fn(Bits) -> real,
    k: int,
    p: RnntPath,
)
    requires
        0 <= k < all.len() - 1,
    ensures
        mass(all.update(k, all[k + 1]).update(k + 1, all[k]), value, p) == mass(all, value, p),
    decreases all.len(),
{
    let turned = all.update(k, all[k + 1]).update(k + 1, all[k]);
    let front = all.drop_last();
    if k + 1 == all.len() - 1 {
        let rest = front.drop_last();
        assert(turned.drop_last().drop_last() =~= rest);
        assert(turned.drop_last().last() == all[k + 1]);
        assert(front.last() == all[k]);
        assert(mass(turned.drop_last(), value, p) == mass(rest, value, p) + if align_the_same(
            all[k + 1],
            p,
        ) {
            value(all[k + 1].score)
        } else {
            0 as real
        });
        assert(mass(front, value, p) == mass(rest, value, p) + if align_the_same(all[k], p) {
            value(all[k].score)
        } else {
            0 as real
        });
    } else {
        lemma_mass_of_turned(front, value, k, p);
        assert(turned.drop_last() =~= front.update(k, front[k + 1]).update(k + 1, front[k]));
    }
}

/// The paths of a beam are ranked within `e`, where `weights` says what scores are
/// divided by.
pub open spec fn ranks_within<A: Arithmetic>(
    m: &A,
    amount: spec_fn(Bits) -> real,
    weights: spec_fn(nat) -> real,
    e: real,
    beam: Seq<RnntPath>,
    penalty: Bits,
) -> bool {
    forall|i: int|
        0 <= i < beam.len() ==> (#[trigger] beam[i]).tokens.len() <= usize::MAX
            && arithmetic_laws::normalizes_within(
            m,
            amount,
            weights,
            e,
            beam[i].score,
            beam[i].tokens.len(),
            penalty,
        )
}

/// `p` is no worse than `r` by the score for each weight of its length, up to the
/// error `e` of either.
pub open spec fn is_no_worse(
    amount: spec_fn(Bits) -> real,
    weights: spec_fn(nat) -> real,
    e: real,
    p: RnntPath,
    r: RnntPath,
) -> bool {
    amount(r.score) * weights(p.tokens.len()) <= amount(p.score) * weights(r.tokens.len()) + (e
        + e) * (weights(p.tokens.len()) * weights(r.tokens.len()))
}

/// What pruning drops is no better than what it keeps: no path that is left out has
/// a better score for its length than one that is kept. Kept are as many as the
/// beam holds, the better ones before the others.
pub proof fn law_pruning_drops_nothing_better<A: Arithmetic>(
    m: &A,
    amount: spec_fn(Bits) -> real,
    weights: spec_fn(nat) -> real,
    e: real,
    beam: Seq<RnntPath>,
    config: BeamConfig,
    pruned: Seq<RnntPath>,
)
    requires
        arithmetic_laws::are_amounts(amount),
        beam.len() <= usize::MAX,
        ranks_within(m, amount, weights, e, beam, config.length_penalty),
        rnnt_beam::pruned_is(m, beam, config, pruned),
    ensures
        beam.len() <= config.beam_size ==> pruned.len() == beam.len(),
        beam.len() > config.beam_size ==> pruned.len() == config.beam_size,
        forall|i: int| 0 <= i < pruned.len() ==> beam.contains(#[trigger] pruned[i]),
        forall|i: int, j: int|
            0 <= i < pruned.len() && 0 <= j < beam.len() && !pruned.contains(
                #[trigger] beam[j],
            ) ==> is_no_worse(amount, weights, e, #[trigger] pruned[i], beam[j]),
        forall|i: int, j: int|
            0 <= i < j < pruned.len() ==> is_no_worse(
                amount,
                weights,
                e,
                #[trigger] pruned[i],
                #[trigger] pruned[j],
            ),
{
    let penalty = config.length_penalty;
    let (keys, order) = choose|keys: Seq<Bits>, order: Seq<usize>|
        {
            &&& #[trigger] rnnt_beam::keys_are(m, beam, penalty, keys)
            &&& #[trigger] ranking::is_top(keys, config.beam_size as nat, order)
            &&& pruned == ranking::pick(beam, order)
        };
    assert forall|i: int, j: int|
        0 <= i < beam.len() && 0 <= j < beam.len() && single::rank(#[trigger] keys[i])
            >= single::rank(#[trigger] keys[j]) implies is_no_worse(
        amount,
        weights,
        e,
        beam[i],
        beam[j],
    ) by {
        lemma_keys_compare(m, amount, weights, e, beam, penalty, keys, i, j);
    }
    assert forall|i: int| 0 <= i < pruned.len() implies beam.contains(#[trigger] pruned[i]) by {
        assert(pruned[i] == beam[order[i] as int]);
    }
    assert forall|i: int, j: int|
        0 <= i < pruned.len() && 0 <= j < beam.len() && !pruned.contains(
            #[trigger] beam[j],
        ) implies is_no_worse(amount, weights, e, #[trigger] pruned[i], beam[j]) by {
        let at = j as usize;
        assert(!order.contains(at)) by {
            if order.contains(at) {
                let k = choose|k: int| 0 <= k < order.len() && order[k] == at;
                assert(pruned[k] == beam[j]);
            }
        }
        assert(ranking::before(keys, order[i] as int, at as int));
        assert(single::rank(keys[order[i] as int]) >= single::rank(keys[j]));
    }
    assert forall|i: int, j: int| 0 <= i < j < pruned.len() implies is_no_worse(
        amount,
        weights,
        e,
        #[trigger] pruned[i],
        #[trigger] pruned[j],
    ) by {
        assert(ranking::before(keys, order[i] as int, order[j] as int));
        assert(single::rank(keys[order[i] as int]) >= single::rank(keys[order[j] as int]));
    }
}

proof fn lemma_keys_compare<A: Arithmetic>(
    m: &A,
    amount: spec_fn(Bits) -> real,
    weights: spec_fn(nat) -> real,
    e: real,
    beam: Seq<RnntPath>,
    penalty: Bits,
    keys: Seq<Bits>,
    i: int,
    j: int,
)
    requires
        arithmetic_laws::are_amounts(amount),
        ranks_within(m, amount, weights, e, beam, penalty),
        rnnt_beam::keys_are(m, beam, penalty, keys),
        0 <= i < beam.len(),
        0 <= j < beam.len(),
        single::rank(keys[i]) >= single::rank(keys[j]),
    ensures
        is_no_worse(amount, weights, e, beam[i], beam[j]),
        !single::is_nan(keys[i]),
        !single::is_nan(keys[j]),
{
    let p = beam[i];
    let r = beam[j];
    arithmetic_laws::law_normalized_score_times_weight_is_score(
        m,
        amount,
        weights,
        e,
        p.score,
        p.tokens.len(),
        penalty,
        keys[i],
    );
    arithmetic_laws::law_normalized_score_times_weight_is_score(
        m,
        amount,
        weights,
        e,
        r.score,
        r.tokens.len(),
        penalty,
        keys[j],
    );
    arithmetic_laws::law_ranking_compares_scores_by_weight(
        amount,
        e,
        amount(p.score),
        weights(p.tokens.len()),
        keys[i],
        amount(r.score),
        weights(r.tokens.len()),
        keys[j],
    );
}

/// The best path is one of the beam that none is better than, by the score for its
/// length; there is none of an empty beam alone.
pub proof fn law_best_is_no_worse_than_any<A: Arithmetic>(
    m: &A,
    amount: spec_fn(Bits) -> real,
    weights: spec_fn(nat) -> real,
    e: real,
    beam: Seq<RnntPath>,
    penalty: Bits,
    best: Option<RnntPath>,
)
    requires
        arithmetic_laws::are_amounts(amount),
        ranks_within(m, amount, weights, e, beam, penalty),
        rnnt_beam::best_is(m, beam, penalty, best),
    ensures
        best is None <==> beam.len() == 0,
        best matches Some(p) ==> {
            &&& beam.contains(p)
            &&& forall|j: int|
                0 <= j < beam.len() ==> is_no_worse(amount, weights, e, p, #[trigger] beam[j])
        },
{
    if beam.len() > 0 {
        let keys = choose|keys: Seq<Bits>|
            {
                &&& #[trigger] rnnt_beam::keys_are(m, beam, penalty, keys)
                &&& best == Some(beam[ranking::last_max(keys)])
            };
        assert forall|i: int| 0 <= i < keys.len() implies !single::is_nan(#[trigger] keys[i]) by {
            lemma_keys_compare(m, amount, weights, e, beam, penalty, keys, i, i);
        }
        ranking::law_last_max_is_greatest(keys);
        let k = ranking::last_max(keys);
        assert(beam.contains(beam[k]));
        assert forall|j: int| 0 <= j < beam.len() implies is_no_worse(
            amount,
            weights,
            e,
            beam[k],
            #[trigger] beam[j],
        ) by {
            assert(!single::greater(keys[j], keys[k]));
            lemma_keys_compare(m, amount, weights, e, beam, penalty, keys, k, j);
        }
    }
}

/// Whether a path stands on frame `t`.
pub open spec fn stands_on(t: usize) -> spec_fn(RnntPath) -> bool {
    |p: RnntPath| p.frame == t
}

proof fn lemma_on_frame_is_a_filter(beam: Seq<RnntPath>, t: usize)
    ensures
        rnnt_beam::on_frame(beam, t) == beam.filter(stands_on(t)),
    decreases beam.len(),
{
    reveal(Seq::filter);
    if beam.len() > 0 {
        lemma_on_frame_is_a_filter(beam.drop_last(), t);
    } else {
        assert(rnnt_beam::on_frame(beam, t) =~= beam.filter(stands_on(t)));
    }
}

impl<'a, A: Arithmetic, D: Fn(&Tensor3, i32, &Tensor3, &Tensor3) -> Result<RnntStep, Error>>
    RnntContext<'a, A, D> {
    /// At the end of a frame every path that moves on is merged with the alignments
    /// of its tokens, keeping their probability, and the beam that comes out holds
    /// none that is worse than one left out.
    pub proof fn law_frame_ends_with_the_best_transcripts(
        self,
        value: spec_fn(Bits) -> real,
        q: real,
        amount: spec_fn(Bits) -> real,
        weights: spec_fn(nat) -> real,
        e: real,
        t: usize,
        at: usize,
        beam: Seq<RnntPath>,
        w: RnntFrameTrace,
        next: Seq<RnntPath>,
    )
        requires
            rounding::stands_for(value),
            q >= 1 as real,
            arithmetic_laws::are_amounts(amount),
            self.frame_traced(t, at, beam, w, next),
            merging_rounds(self.arithmetic, value, q, w.all),
            ranks_within(
                self.arithmetic,
                amount,
                weights,
                e,
                w.merged,
                self.config.length_penalty,
            ),
            w.merged.len() <= usize::MAX,
        ensures
            forall|i: int|
                0 <= i < next.len() ==> near(
                    power(q, w.all.len()),
                    value((#[trigger] next[i]).score),
                    mass(w.all, value, next[i]),
                ),
            forall|i: int, j: int|
                0 <= i < next.len() && 0 <= j < w.merged.len() && !next.contains(
                    #[trigger] w.merged[j],
                ) ==> is_no_worse(amount, weights, e, #[trigger] next[i], w.merged[j]),
            w.merged.len() <= self.config.beam_size ==> next.len() == w.merged.len(),
            w.merged.len() > self.config.beam_size ==> next.len() == self.config.beam_size,
    {
        law_merging_keeps_probability(self.arithmetic, value, q, w.all, w.merged);
        law_pruning_drops_nothing_better(
            self.arithmetic,
            amount,
            weights,
            e,
            w.merged,
            self.config,
            next,
        );
        assert forall|i: int| 0 <= i < next.len() implies near(
            power(q, w.all.len()),
            value((#[trigger] next[i]).score),
            mass(w.all, value, next[i]),
        ) by {
            let j = choose|j: int| 0 <= j < w.merged.len() && w.merged[j] == next[i];
            assert(near(
                power(q, w.all.len()),
                value(w.merged[j].score),
                mass(w.all, value, w.merged[j]),
            ));
        }
    }

    /// A frame starts from the paths that stand on it and from no others: those that
    /// stand elsewhere are dropped, and of the others the best are kept.
    pub proof fn law_frames_start_from_the_paths_on_them(
        self,
        amount: spec_fn(Bits) -> real,
        weights: spec_fn(nat) -> real,
        e: real,
        t: usize,
        at: usize,
        beam: Seq<RnntPath>,
        w: RnntFrameTrace,
        next: Seq<RnntPath>,
    )
        requires
            arithmetic_laws::are_amounts(amount),
            self.frame_traced(t, at, beam, w, next),
            beam.len() <= usize::MAX,
            ranks_within(
                self.arithmetic,
                amount,
                weights,
                e,
                beam,
                self.config.length_penalty,
            ),
        ensures
            forall|i: int|
                0 <= i < w.entered.len() ==> (#[trigger] w.entered[i]).frame == t
                    && beam.contains(w.entered[i]),
            forall|i: int, j: int|
                0 <= i < w.entered.len() && 0 <= j < beam.len() && (#[trigger] beam[j]).frame == t
                    && !w.entered.contains(beam[j]) ==> is_no_worse(
                    amount,
                    weights,
                    e,
                    #[trigger] w.entered[i],
                    beam[j],
                ),
            self.config.beam_size > 0 && (exists|j: int|
                0 <= j < beam.len() && (#[trigger] beam[j]).frame == t) ==> w.entered.len() > 0,
            beam.filter(stands_on(t)).len() <= self.config.beam_size ==> w.entered.len()
                == beam.filter(stands_on(t)).len(),
            beam.filter(stands_on(t)).len() > self.config.beam_size ==> w.entered.len()
                == self.config.beam_size,
            forall|i: int, j: int|
                0 <= i < j < w.entered.len() ==> is_no_worse(
                    amount,
                    weights,
                    e,
                    #[trigger] w.entered[i],
                    #[trigger] w.entered[j],
                ),
    {
        let standing = rnnt_beam::on_frame(beam, t);
        lemma_on_frame_is_a_filter(beam, t);
        rnnt_laws::lemma_on_frame(beam, t);
        lemma_no_more_stand_on_a_frame(beam, t);
        assert forall|i: int| 0 <= i < standing.len() implies (
        #[trigger] standing[i]).tokens.len() <= usize::MAX && arithmetic_laws::normalizes_within(
            self.arithmetic,
            amount,
            weights,
            e,
            standing[i].score,
            standing[i].tokens.len(),
            self.config.length_penalty,
        ) by {
            let j = choose|j: int| 0 <= j < beam.len() && beam[j] == standing[i];
            assert(beam[j].tokens.len() <= usize::MAX);
        }
        law_pruning_drops_nothing_better(
            self.arithmetic,
            amount,
            weights,
            e,
            standing,
            self.config,
            w.entered,
        );
        assert forall|i: int| 0 <= i < w.entered.len() implies (#[trigger] w.entered[i]).frame == t
            && beam.contains(w.entered[i]) by {
            let j = choose|j: int| 0 <= j < standing.len() && standing[j] == w.entered[i];
            assert(standing[j].frame == t);
        }
        assert forall|i: int, j: int|
            0 <= i < w.entered.len() && 0 <= j < beam.len() && (#[trigger] beam[j]).frame == t
                && !w.entered.contains(beam[j]) implies is_no_worse(
            amount,
            weights,
            e,
            #[trigger] w.entered[i],
            beam[j],
        ) by {
            let k = choose|k: int| 0 <= k < standing.len() && standing[k] == beam[j];
            assert(!w.entered.contains(standing[k]));
        }
    }

    /// The best hypothesis of a pass is one of its survivors that none is better than,
    /// by the score for its length.
    pub proof fn law_best_hypothesis_is_no_worse_than_any(
        self,
        amount: spec_fn(Bits) -> real,
        weights: spec_fn(nat) -> real,
        e: real,
        start: usize,
        end: usize,
        offset: usize,
        carried: Seq<RnntPath>,
        out: RnntBeamOutput,
    )
        requires
            arithmetic_laws::are_amounts(amount),
            self.decodes(start, end, offset, carried, out),
            ranks_within(
                self.arithmetic,
                amount,
                weights,
                e,
                rnnt_beam::paths(out.hypotheses@),
                self.config.length_penalty,
            ),
        ensures
            out.best_hypothesis is None <==> out.hypotheses@.len() == 0,
            out.best_hypothesis matches Some(best) ==> forall|j: int|
                0 <= j < out.hypotheses@.len() ==> is_no_worse(
                    amount,
                    weights,
                    e,
                    best@,
                    #[trigger] rnnt_beam::paths(out.hypotheses@)[j],
                ),
    {
        law_best_is_no_worse_than_any(
            self.arithmetic,
            amount,
            weights,
            e,
            rnnt_beam::paths(out.hypotheses@),
            self.config.length_penalty,
            rnnt_beam::optional_path(out.best_hypothesis),
        );
    }
}

proof fn lemma_no_more_stand_on_a_frame(beam: Seq<RnntPath>, t: usize)
    ensures
        rnnt_beam::on_frame(beam, t).len() <= beam.len(),
    decreases beam.len(),
{
    if beam.len() > 0 {
        lemma_no_more_stand_on_a_frame(beam.drop_last(), t);
    }
}

} // verus!
