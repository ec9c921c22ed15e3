//! What TDT beam search does with its hypotheses: merging keeps probability, and
//! pruning drops nothing better than what it keeps.
use vstd::prelude::*;
use crate::arithmetic::Arithmetic;
use crate::arithmetic_laws;
use crate::decoding::tdt_beam;
use crate::decoding::tdt_beam::TdtPath;
use crate::decoding::tdt_laws;
use crate::decoding::BeamConfig;
use crate::ranking;
use crate::rounding;
use crate::rounding::{near, power};
use crate::single;
use crate::single::Bits;

verus! {

/// Two paths are alignments of the same tokens: they stand on the same frame, are
/// fed the same token, and have emitted the same token ids, on whatever frames.
pub open spec fn align_the_same(a: TdtPath, b: TdtPath) -> bool {
    &&& a.step == b.step
    &&& a.last_token == b.last_token
    &&& a.tokens.len() == b.tokens.len()
    &&& forall|i: int| 0 <= i < a.tokens.len() ==> (#[trigger] a.tokens[i]).0 == b.tokens[i].0
}

/// The probability of those paths that are alignments of the same tokens as `p`.
pub open spec fn mass(
    paths: Seq<TdtPath>,
    value: spec_fn(Bits) -> real,
    p: TdtPath,
) -> real
    decreases paths.len(),
{
    if paths.len() == 0 {
        0 as real
    } else {
        mass(paths.drop_last(), value, p) + if align_the_same(paths.last(), p) {
            value(paths.last().score)
        } else {
            0 as real
        }
    }
}

/// The first `n` of the paths may merge into `held`.
pub open spec fn first_merge<A: Arithmetic>(
    m: &A,
    all: Seq<TdtPath>,
    n: int,
    held: Seq<TdtPath>,
) -> bool {
    tdt_beam::merged_is(m, all.take(n), held)
}

/// Adding each of the paths to an alignment of the same tokens, where there is one
/// already, is off by no more than the factor `q`.
pub open spec fn merging_rounds<A: Arithmetic>(
    m: &A,
    value: spec_fn(Bits) -> real,
    q: real,
    all: Seq<TdtPath>,
) -> bool {
    forall|n: int, held: Seq<TdtPath>, i: int|
        0 <= n < all.len() && #[trigger] first_merge(m, all, n, held) && 0 <= i < held.len()
            && align_the_same(#[trigger] held[i], all[n]) ==> rounding::rounds_sum(
            m,
            value,
            q,
            held[i].score,
            all[n].score,
        )
}

proof fn lemma_keys_are_alignments(a: TdtPath, b: TdtPath)
    ensures
        tdt_beam::same_key(a, b) <==> align_the_same(a, b),
{
    let x = tdt_beam::token_ids(a.tokens);
    let y = tdt_beam::token_ids(b.tokens);
    if tdt_beam::same_key(a, b) {
        assert(x.len() == y.len());
        assert forall|i: int| 0 <= i < a.tokens.len() implies (#[trigger] a.tokens[i]).0
            == b.tokens[i].0 by {
            assert(x[i] == y[i]);
        }
    }
    if align_the_same(a, b) {
        assert(x =~= y);
    }
}

proof fn lemma_mass_after_update(
    paths: Seq<TdtPath>,
    value: spec_fn(Bits) -> real,
    i: int,
    after: TdtPath,
    p: TdtPath,
)
    requires
        0 <= i < paths.len(),
        align_the_same(after, p) == align_the_same(paths[i], p),
    ensures
        mass(paths.update(i, after), value, p) == mass(paths, value, p) + if align_the_same(
            paths[i],
            p,
        ) {
            value(after.score) - value(paths[i].score)
        } else {
            0 as real
        },
    decreases paths.len(),
{
    let updated = paths.update(i, after);
    if i == paths.len() - 1 {
        assert(updated.drop_last() =~= paths.drop_last());
    } else {
        assert(updated.drop_last() =~= paths.drop_last().update(i, after));
        lemma_mass_after_update(paths.drop_last(), value, i, after, p);
    }
}

proof fn lemma_mass_has_its_paths(
    paths: Seq<TdtPath>,
    value: spec_fn(Bits) -> real,
    p: TdtPath,
)
    requires
        rounding::stands_for(value),
    ensures
        mass(paths, value, p) >= 0 as real,
        forall|i: int|
            0 <= i < paths.len() && align_the_same(#[trigger] paths[i], p) ==> value(
                paths[i].score,
            ) <= mass(paths, value, p),
    decreases paths.len(),
{
    if paths.len() > 0 {
        let front = paths.drop_last();
        lemma_mass_has_its_paths(front, value, p);
        assert(value(paths.last().score) >= 0 as real);
        assert forall|i: int|
            0 <= i < paths.len() && align_the_same(#[trigger] paths[i], p) implies value(
            paths[i].score,
        ) <= mass(paths, value, p) by {
            if i < front.len() {
                assert(front[i] == paths[i]);
            }
        }
    }
}

proof fn lemma_mass_of_one(paths: Seq<TdtPath>, value: spec_fn(Bits) -> real, i: int)
    requires
        0 <= i < paths.len(),
        forall|j: int, k: int|
            0 <= j < k < paths.len() ==> !align_the_same(
                #[trigger] paths[j],
                #[trigger] paths[k],
            ),
    ensures
        mass(paths, value, paths[i]) == value(paths[i].score),
    decreases paths.len(),
{
    let front = paths.drop_last();
    let last = paths.len() - 1;
    if i == last {
        assert forall|j: int| 0 <= j < front.len() implies !align_the_same(
            #[trigger] front[j],
            paths[i],
        ) by {
            assert(!align_the_same(paths[j], paths[last]));
        }
        lemma_no_mass(front, value, paths[i]);
        assert(align_the_same(paths[i], paths[i]));
    } else {
        assert forall|j: int, k: int| 0 <= j < k < front.len() implies !align_the_same(
            #[trigger] front[j],
            #[trigger] front[k],
        ) by {
            assert(!align_the_same(paths[j], paths[k]));
        }
        lemma_mass_of_one(front, value, i);
        assert(front[i] == paths[i]);
        assert(!align_the_same(paths[i], paths[last]));
        lemma_alignment_turns(paths[i], paths[last]);
    }
}

proof fn lemma_alignment_turns(a: TdtPath, b: TdtPath)
    ensures
        align_the_same(a, b) == align_the_same(b, a),
{
    if align_the_same(a, b) {
        assert forall|i: int| 0 <= i < b.tokens.len() implies (#[trigger] b.tokens[i]).0
            == a.tokens[i].0 by {
            assert(a.tokens[i].0 == b.tokens[i].0);
        }
    }
    if align_the_same(b, a) {
        assert forall|i: int| 0 <= i < a.tokens.len() implies (#[trigger] a.tokens[i]).0
            == b.tokens[i].0 by {
            assert(b.tokens[i].0 == a.tokens[i].0);
        }
    }
}

proof fn lemma_no_mass(paths: Seq<TdtPath>, value: spec_fn(Bits) -> real, p: TdtPath)
    requires
        forall|j: int| 0 <= j < paths.len() ==> !align_the_same(#[trigger] paths[j], p),
    ensures
        mass(paths, value, p) == 0 as real,
    decreases paths.len(),
{
    if paths.len() > 0 {
        let front = paths.drop_last();
        assert forall|j: int| 0 <= j < front.len() implies !align_the_same(
            #[trigger] front[j],
            p,
        ) by {
            assert(!align_the_same(paths[j], p));
        }
        lemma_no_mass(front, value, p);
        assert(!align_the_same(paths[paths.len() - 1], p));
    }
}

proof fn lemma_merging_keeps_mass<A: Arithmetic>(
    m: &A,
    value: spec_fn(Bits) -> real,
    q: real,
    all: Seq<TdtPath>,
    n: nat,
    merged: Seq<TdtPath>,
    p: TdtPath,
)
    requires
        rounding::stands_for(value),
        q >= 1 as real,
        n <= all.len(),
        merging_rounds(m, value, q, all),
        first_merge(m, all, n as int, merged),
    ensures
        near(power(q, n), mass(merged, value, p), mass(all.take(n as int), value, p)),
    decreases n,
{
    let some = all.take(n as int);
    if n == 0 {
        rounding::lemma_equal_is_near(1 as real, 0 as real);
    } else {
        let k = (n - 1) as nat;
        let front = all.take(k as int);
        let new = all[k as int];
        assert(some.drop_last() =~= front && some.last() == new);
        let (held, i, score) = choose|held: Seq<TdtPath>, i: int, score: Bits|
            tdt_beam::merged_is(m, some.drop_last(), held) && #[trigger] tdt_beam::absorbs(
                m,
                held,
                some.last(),
                i,
                score,
                merged,
            );
        assert(first_merge(m, all, k as int, held));
        lemma_merging_keeps_mass(m, value, q, all, k, held, p);
        let c = power(q, k);
        let x = mass(held, value, p);
        let y = mass(front, value, p);
        lemma_mass_has_its_paths(held, value, p);
        lemma_mass_has_its_paths(front, value, p);
        lemma_mass_has_its_paths(merged, value, p);
        lemma_mass_has_its_paths(some, value, p);
        rounding::lemma_powers_grow(q, k, n);
        rounding::lemma_powers_grow(q, 0, k);
        let v = value(new.score);
        assert(v >= 0 as real);
        if i < held.len() {
            lemma_keys_are_alignments(held[i], new);
            lemma_alignments_chain(held[i], new, p);
            let after = merged[i];
            assert(after.tokens == held[i].tokens && after.last_token == held[i].last_token
                && after.step == held[i].step || after.tokens == new.tokens && after.last_token
                == new.last_token && after.step == new.step);
            assert(align_the_same(after, p) == align_the_same(held[i], p));
            assert(merged =~= held.update(i, after));
            lemma_mass_after_update(held, value, i, after, p);
        } else {
            assert(merged.drop_last() =~= held);
        }
        if align_the_same(new, p) {
            rounding::lemma_equal_is_near(c, v);
            rounding::lemma_near_adds(c, x, y, v, v);
            if i < held.len() {
                let w = value(held[i].score);
                let s = value(score);
                assert(rounding::rounds_sum(m, value, q, held[i].score, new.score));
                assert(near(q, s, w + v));
                let rest = x - w;
                rounding::lemma_equal_is_near(q, rest);
                rounding::lemma_near_adds(q, rest, rest, s, w + v);
                rounding::lemma_near_chains(q, c, rest + s, x + v, y + v);
                assert(q * c == c * q) by (nonlinear_arith);
            } else {
                rounding::lemma_near_widens(c, power(q, n), x + v, y + v);
            }
        } else {
            rounding::lemma_near_widens(c, power(q, n), x, y);
        }
    }
}

proof fn lemma_alignments_chain(a: TdtPath, b: TdtPath, p: TdtPath)
    requires
        align_the_same(a, b),
    ensures
        align_the_same(a, p) == align_the_same(b, p),
{
    if align_the_same(a, p) {
        assert forall|j: int| 0 <= j < b.tokens.len() implies (#[trigger] b.tokens[j]).0
            == p.tokens[j].0 by {
            assert(a.tokens[j].0 == b.tokens[j].0);
        }
    }
    if align_the_same(b, p) {
        assert forall|j: int| 0 <= j < a.tokens.len() implies (#[trigger] a.tokens[j]).0
            == p.tokens[j].0 by {
            assert(b.tokens[j].0 == p.tokens[j].0);
        }
    }
}

proof fn lemma_merged_differ<A: Arithmetic>(
    m: &A,
    all: Seq<TdtPath>,
    merged: Seq<TdtPath>,
)
    requires
        tdt_beam::merged_is(m, all, merged),
    ensures
        forall|i: int, j: int|
            0 <= i < j < merged.len() ==> !align_the_same(
                #[trigger] merged[i],
                #[trigger] merged[j],
            ),
{
    tdt_laws::law_merging_leaves_one_of_each_key(m, all, merged);
    assert forall|i: int, j: int| 0 <= i < j < merged.len() implies !align_the_same(
        #[trigger] merged[i],
        #[trigger] merged[j],
    ) by {
        lemma_keys_are_alignments(merged[i], merged[j]);
    }
}

/// Merging keeps probability. Of the alignments of some tokens one path is left, and
/// its score stands for the sum of what their scores stood for, in whatever order
/// they came: it is off by no more than the factor `q` for each of the paths, where
/// no addition is off by more.
pub proof fn law_merging_keeps_probability<A: Arithmetic>(
    m: &A,
    value: spec_fn(Bits) -> real,
    q: real,
    all: Seq<TdtPath>,
    merged: Seq<TdtPath>,
)
    requires
        rounding::stands_for(value),
        q >= 1 as real,
        merging_rounds(m, value, q, all),
        tdt_beam::merged_is(m, all, merged),
    ensures
        forall|i: int|
            0 <= i < merged.len() ==> near(
                power(q, all.len()),
                value((#[trigger] merged[i]).score),
                mass(all, value, merged[i]),
            ),
        forall|p: TdtPath|
            near(
                power(q, all.len()),
                #[trigger] mass(merged, value, p),
                mass(all, value, p),
            ),
        forall|i: int, j: int|
            0 <= i < j < merged.len() ==> !align_the_same(
                #[trigger] merged[i],
                #[trigger] merged[j],
            ),
{
    assert(all.take(all.len() as int) =~= all);
    assert(first_merge(m, all, all.len() as int, merged));
    lemma_merged_differ(m, all, merged);
    assert forall|p: TdtPath|
        near(
            power(q, all.len()),
            #[trigger] mass(merged, value, p),
            mass(all, value, p),
        ) by {
        lemma_merging_keeps_mass(m, value, q, all, all.len(), merged, p);
    }
    assert forall|i: int| 0 <= i < merged.len() implies near(
        power(q, all.len()),
        value((#[trigger] merged[i]).score),
        mass(all, value, merged[i]),
    ) by {
        lemma_mass_of_one(merged, value, i);
        assert(near(
            power(q, all.len()),
            mass(merged, value, merged[i]),
            mass(all, value, merged[i]),
        ));
    }
}

/// Merging does not depend on the order of two paths: where two neighbours change
/// places, what is left for some tokens has the same probability, up to rounding.
pub proof fn law_merging_ignores_the_order<A: Arithmetic>(
    m: &A,
    value: spec_fn(Bits) -> real,
    q: real,
    all: Seq<TdtPath>,
    k: int,
    merged: Seq<TdtPath>,
    other: Seq<TdtPath>,
    p: TdtPath,
)
    requires
        rounding::stands_for(value),
        q >= 1 as real,
        0 <= k < all.len() - 1,
        merging_rounds(m, value, q, all),
        merging_rounds(m, value, q, all.update(k, all[k + 1]).update(k + 1, all[k])),
        tdt_beam::merged_is(m, all, merged),
        tdt_beam::merged_is(m, all.update(k, all[k + 1]).update(k + 1, all[k]), other),
    ensures
        near(power(q, all.len() + all.len()), mass(merged, value, p), mass(other, value, p)),
{
    let turned = all.update(k, all[k + 1]).update(k + 1, all[k]);
    let c = power(q, all.len());
    law_merging_keeps_probability(m, value, q, all, merged);
    law_merging_keeps_probability(m, value, q, turned, other);
    lemma_mass_of_turned(all, value, k, p);
    rounding::lemma_powers_grow(q, 0, all.len());
    rounding::lemma_near_chains(
        c,
        c,
        mass(merged, value, p),
        mass(all, value, p),
        mass(other, value, p),
    );
    rounding::lemma_powers_multiply(q, all.len(), all.len());
}

proof fn lemma_mass_of_turned(
    all: Seq<TdtPath>,
    value: spec_fn(Bits) -> real,
    k: int,
    p: TdtPath,
)
    requires
        0 <= k < all.len() - 1,
    ensures
        mass(all.update(k, all[k + 1]).update(k + 1, all[k]), value, p) == mass(all, value, p),
    decreases all.len(),
{
    let turned = all.update(k, all[k + 1]).update(k + 1, all[k]);
    let front = all.drop_last();
    if k + 1 == all.len() - 1 {
        let rest = front.drop_last();
        assert(turned.drop_last().drop_last() =~= rest);
        assert(turned.drop_last().last() == all[k + 1]);
        assert(front.last() == all[k]);
        assert(mass(turned.drop_last(), value, p) == mass(rest, value, p) + if align_the_same(
            all[k + 1],
            p,
        ) {
            value(all[k + 1].score)
        } else {
            0 as real
        });
        assert(mass(front, value, p) == mass(rest, value, p) + if align_the_same(all[k], p) {
            value(all[k].score)
        } else {
            0 as real
        });
    } else {
        lemma_mass_of_turned(front, value, k, p);
        assert(turned.drop_last() =~= front.update(k, front[k + 1]).update(k + 1, front[k]));
    }
}

/// The paths of a beam are ranked within `e`, where `weights` says what scores are
/// divided by.
pub open spec fn ranks_within<A: Arithmetic>(
    m: &A,
    amount: spec_fn(Bits) -> real,
    weights: spec_fn(nat) -> real,
    e: real,
    beam: Seq<TdtPath>,
    penalty: Bits,
) -> bool {
    forall|i: int|
        0 <= i < beam.len() ==> (#[trigger] beam[i]).tokens.len() <= usize::MAX
            && arithmetic_laws::normalizes_within(
            m,
            amount,
            weights,
            e,
            beam[i].score,
            beam[i].tokens.len(),
            penalty,
        )
}

/// `p` is no worse than `r` by the score for each weight of its length, up to the
/// error `e` of either.
pub open spec fn is_no_worse(
    amount: spec_fn(Bits) -> real,
    weights: spec_fn(nat) -> real,
    e: real,
    p: TdtPath,
    r: TdtPath,
) -> bool {
    amount(r.score) * weights(p.tokens.len()) <= amount(p.score) * weights(r.tokens.len()) + (e
        + e) * (weights(p.tokens.len()) * weights(r.tokens.len()))
}

/// What pruning drops is no better than what it keeps: no path that is left out has
/// a better score for its length than one that is kept. Kept are as many as the
/// beam holds, the better ones before the others.
pub proof fn law_pruning_drops_nothing_better<A: Arithmetic>(
    m: &A,
    amount: spec_fn(Bits) -> real,
    weights: spec_fn(nat) -> real,
    e: real,
    beam: Seq<TdtPath>,
    config: BeamConfig,
    pruned: Seq<TdtPath>,
)
    requires
        arithmetic_laws::are_amounts(amount),
        beam.len() <= usize::MAX,
        ranks_within(m, amount, weights, e, beam, config.length_penalty),
        tdt_beam::pruned_is(m, beam, config, pruned),
    ensures
        beam.len() <= config.beam_size ==> pruned.len() == beam.len(),
        beam.len() > config.beam_size ==> pruned.len() == config.beam_size,
        forall|i: int| 0 <= i < pruned.len() ==> beam.contains(#[trigger] pruned[i]),
        forall|i: int, j: int|
            0 <= i < pruned.len() && 0 <= j < beam.len() && !pruned.contains(
                #[trigger] beam[j],
            ) ==> is_no_worse(amount, weights, e, #[trigger] pruned[i], beam[j]),
        forall|i: int, j: int|
            0 <= i < j < pruned.len() ==> is_no_worse(
                amount,
                weights,
                e,
                #[trigger] pruned[i],
                #[trigger] pruned[j],
            ),
{
    let penalty = config.length_penalty;
    let (keys, order) = choose|keys: Seq<Bits>, order: Seq<usize>|
        {
            &&& #[trigger] tdt_beam::keys_are(m, beam, penalty, keys)
            &&& #[trigger] ranking::is_top(keys, config.beam_size as nat, order)
            &&& pruned == ranking::pick(beam, order)
        };
    assert forall|i: int, j: int|
        0 <= i < beam.len() && 0 <= j < beam.len() && single::rank(#[trigger] keys[i])
            >= single::rank(#[trigger] keys[j]) implies is_no_worse(
        amount,
        weights,
        e,
        beam[i],
        beam[j],
    ) by {
        lemma_keys_compare(m, amount, weights, e, beam, penalty, keys, i, j);
    }
    assert forall|i: int| 0 <= i < pruned.len() implies beam.contains(#[trigger] pruned[i]) by {
        assert(pruned[i] == beam[order[i] as int]);
    }
    assert forall|i: int, j: int|
        0 <= i < pruned.len() && 0 <= j < beam.len() && !pruned.contains(
            #[trigger] beam[j],
        ) implies is_no_worse(amount, weights, e, #[trigger] pruned[i], beam[j]) by {
        let at = j as usize;
        assert(!order.contains(at)) by {
            if order.contains(at) {
                let k = choose|k: int| 0 <= k < order.len() && order[k] == at;
                assert(pruned[k] == beam[j]);
            }
        }
        assert(ranking::before(keys, order[i] as int, at as int));
        assert(single::rank(keys[order[i] as int]) >= single::rank(keys[j]));
    }
    assert forall|i: int, j: int| 0 <= i < j < pruned.len() implies is_no_worse(
        amount,
        weights,
        e,
        #[trigger] pruned[i],
        #[trigger] pruned[j],
    ) by {
        assert(ranking::before(keys, order[i] as int, order[j] as int));
        assert(single::rank(keys[order[i] as int]) >= single::rank(keys[order[j] as int]));
    }
}

proof fn lemma_keys_compare<A: Arithmetic>(
    m: &A,
    amount: spec_fn(Bits) -> real,
    weights: spec_fn(nat) -> real,
    e: real,
    beam: Seq<TdtPath>,
    penalty: Bits,
    keys: Seq<Bits>,
    i: int,
    j: int,
)
    requires
        arithmetic_laws::are_amounts(amount),
        ranks_within(m, amount, weights, e, beam, penalty),
        tdt_beam::keys_are(m, beam, penalty, keys),
        0 <= i < beam.len(),
        0 <= j < beam.len(),
        single::rank(keys[i]) >= single::rank(keys[j]),
    ensures
        is_no_worse(amount, weights, e, beam[i], beam[j]),
        !single::is_nan(keys[i]),
        !single::is_nan(keys[j]),
{
    let p = beam[i];
    let r = beam[j];
    arithmetic_laws::law_normalized_score_times_weight_is_score(
        m,
        amount,
        weights,
        e,
        p.score,
        p.tokens.len(),
        penalty,
        keys[i],
    );
    arithmetic_laws::law_normalized_score_times_weight_is_score(
        m,
        amount,
        weights,
        e,
        r.score,
        r.tokens.len(),
        penalty,
        keys[j],
    );
    arithmetic_laws::law_ranking_compares_scores_by_weight(
        amount,
        e,
        amount(p.score),
        weights(p.tokens.len()),
        keys[i],
        amount(r.score),
        weights(r.tokens.len()),
        keys[j],
    );
}

/// The best path is one of the beam that none is better than, by the score for its
/// length; there is none of an empty beam alone.
pub proof fn law_best_is_no_worse_than_any<A: Arithmetic>(
    m: &A,
    amount: spec_fn(Bits) -> real,
    weights: spec_fn(nat) -> real,
    e: real,
    beam: Seq<TdtPath>,
    penalty: Bits,
    best: Option<TdtPath>,
)
    requires
        arithmetic_laws::are_amounts(amount),
        ranks_within(m, amount, weights, e, beam, penalty),
        tdt_beam::best_is(m, beam, penalty, best),
    ensures
        best is None <==> beam.len() == 0,
        best matches Some(p) ==> {
            &&& beam.contains(p)
            &&& forall|j: int|
                0 <= j < beam.len() ==> is_no_worse(amount, weights, e, p, #[trigger] beam[j])
        },
{
    if beam.len() > 0 {
        let keys = choose|keys: Seq<Bits>|
            {
                &&& #[trigger] tdt_beam::keys_are(m, beam, penalty, keys)
                &&& best == Some(beam[ranking::last_max(keys)])
            };
        assert forall|i: int| 0 <= i < keys.len() implies !single::is_nan(#[trigger] keys[i]) by {
            lemma_keys_compare(m, amount, weights, e, beam, penalty, keys, i, i);
        }
        ranking::law_last_max_is_greatest(keys);
        let k = ranking::last_max(keys);
        assert(beam.contains(beam[k]));
        assert forall|j: int| 0 <= j < beam.len() implies is_no_worse(
            amount,
            weights,
            e,
            beam[k],
            #[trigger] beam[j],
        ) by {
            assert(!single::greater(keys[j], keys[k]));
            lemma_keys_compare(m, amount, weights, e, beam, penalty, keys, k, j);
        }
    }
}

/// `p` is, but for its score, path `j` of the paths. That one is no less probable
/// than all earlier alignments of its tokens together, and no later one is more
/// probable than all before it together, up to the factor `c`.
pub open spec fn leads(
    p: TdtPath,
    all: Seq<TdtPath>,
    value: spec_fn(Bits) -> real,
    c: real,
    j: int,
) -> bool {
    &&& 0 <= j < all.len()
    &&& p == (TdtPath { score: p.score, ..all[j] })
    &&& mass(all.take(j), value, p) <= c * value(all[j].score)
    &&& forall|k: int|
        j < k < all.len() && align_the_same(#[trigger] all[k], p) ==> value(all[k].score) <= c
            * mass(all.take(k), value, p)
}

/// `p` is, but for its score, a path that leads the alignments of its tokens.
pub open spec fn is_a_leader(
    p: TdtPath,
    all: Seq<TdtPath>,
    value: spec_fn(Bits) -> real,
    c: real,
) -> bool {
    exists|j: int| #[trigger] leads(p, all, value, c, j)
}

/// Every score on the way of a merging is a number.
pub open spec fn merging_meets_numbers<A: Arithmetic>(m: &A, all: Seq<TdtPath>) -> bool {
    &&& forall|n: int| 0 <= n < all.len() ==> !single::is_nan((#[trigger] all[n]).score)
    &&& forall|n: int, held: Seq<TdtPath>, i: int|
        0 <= n < all.len() && #[trigger] first_merge(m, all, n, held) && 0 <= i < held.len()
            ==> !single::is_nan((#[trigger] held[i]).score)
}

/// Of the alignments of some tokens merging leaves one that leads them, with its
/// states and the frames and durations of its tokens: a path takes the place of the
/// one held where it is more probable than all that were added up there.
pub proof fn law_merging_leaves_the_leading_alignment<A: Arithmetic>(
    m: &A,
    value: spec_fn(Bits) -> real,
    q: real,
    all: Seq<TdtPath>,
    merged: Seq<TdtPath>,
)
    requires
        rounding::stands_for(value),
        q >= 1 as real,
        merging_rounds(m, value, q, all),
        merging_meets_numbers(m, all),
        tdt_beam::merged_is(m, all, merged),
    ensures
        forall|i: int|
            0 <= i < merged.len() ==> #[trigger] is_a_leader(
                merged[i],
                all,
                value,
                power(q, all.len()),
            ),
        forall|j: int| 0 <= j < all.len() ==> #[trigger] has_alignment_of(merged, all[j]),
{
    assert(all.take(all.len() as int) =~= all);
    assert(first_merge(m, all, all.len() as int, merged));
    lemma_leaders(m, value, q, all, all.len(), merged);
    tdt_laws::law_merging_leaves_one_of_each_key(m, all, merged);
    assert forall|j: int| 0 <= j < all.len() implies #[trigger] has_alignment_of(
        merged,
        all[j],
    ) by {
        assert(tdt_laws::has_key_of(merged, all[j]));
        let i = choose|i: int|
            0 <= i < merged.len() && tdt_beam::same_key(#[trigger] merged[i], all[j]);
        lemma_keys_are_alignments(merged[i], all[j]);
    }
}

/// One of the paths is an alignment of the tokens of `p`.
pub open spec fn has_alignment_of(paths: Seq<TdtPath>, p: TdtPath) -> bool {
    exists|i: int| 0 <= i < paths.len() && align_the_same(#[trigger] paths[i], p)
}

proof fn lemma_same_mass(
    paths: Seq<TdtPath>,
    value: spec_fn(Bits) -> real,
    p: TdtPath,
    r: TdtPath,
)
    requires
        align_the_same(p, r),
    ensures
        mass(paths, value, p) == mass(paths, value, r),
    decreases paths.len(),
{
    if paths.len() > 0 {
        lemma_same_mass(paths.drop_last(), value, p, r);
        let last = paths.last();
        lemma_alignments_chain(p, r, last);
        lemma_alignment_turns(p, last);
        lemma_alignment_turns(r, last);
    }
}

proof fn lemma_leader_stays(
    p: TdtPath,
    score: Bits,
    front: Seq<TdtPath>,
    new: TdtPath,
    value: spec_fn(Bits) -> real,
    c: real,
    d: real,
)
    requires
        rounding::stands_for(value),
        is_a_leader(p, front, value, c),
        0 as real <= c <= d,
        align_the_same(new, p) ==> value(new.score) <= d * mass(front, value, p),
    ensures
        is_a_leader((TdtPath { score, ..p }), front.push(new), value, d),
{
    let j = choose|j: int| #[trigger] leads(p, front, value, c, j);
    let r = TdtPath { score, ..p };
    let all = front.push(new);
    assert(align_the_same(p, r));
    assert(all.take(j) =~= front.take(j));
    lemma_same_mass(front.take(j), value, p, r);
    let v = value(front[j].score);
    assert(v >= 0 as real);
    assert(c * v <= d * v) by (nonlinear_arith)
        requires
            c <= d,
            v >= 0 as real,
    ;
    assert forall|k: int| j < k < all.len() && align_the_same(#[trigger] all[k], r) implies value(
        all[k].score,
    ) <= d * mass(all.take(k), value, r) by {
        lemma_alignments_chain(p, r, all[k]);
        lemma_alignment_turns(p, all[k]);
        lemma_alignment_turns(r, all[k]);
        assert(all.take(k) =~= front.take(k));
        lemma_same_mass(front.take(k), value, p, r);
        lemma_mass_has_its_paths(front.take(k), value, p);
        let x = mass(front.take(k), value, p);
        if k < front.len() {
            assert(align_the_same(front[k], p));
            assert(c * x <= d * x) by (nonlinear_arith)
                requires
                    c <= d,
                    x >= 0 as real,
            ;
        } else {
            assert(front.take(k) =~= front);
        }
    }
    assert(leads(r, all, value, d, j));
}

proof fn lemma_new_leads(
    new: TdtPath,
    score: Bits,
    front: Seq<TdtPath>,
    value: spec_fn(Bits) -> real,
    d: real,
)
    requires
        mass(front, value, new) <= d * value(new.score),
    ensures
        is_a_leader((TdtPath { score, ..new }), front.push(new), value, d),
{
    let r = TdtPath { score, ..new };
    let all = front.push(new);
    let j = front.len() as int;
    assert(align_the_same(new, r));
    assert(all.take(j) =~= front);
    lemma_same_mass(front, value, new, r);
    assert(leads(r, all, value, d, j));
}

proof fn lemma_leaders<A: Arithmetic>(
    m: &A,
    value: spec_fn(Bits) -> real,
    q: real,
    all: Seq<TdtPath>,
    n: nat,
    merged: Seq<TdtPath>,
)
    requires
        rounding::stands_for(value),
        q >= 1 as real,
        n <= all.len(),
        merging_rounds(m, value, q, all),
        merging_meets_numbers(m, all),
        first_merge(m, all, n as int, merged),
    ensures
        forall|i: int|
            0 <= i < merged.len() ==> #[trigger] is_a_leader(
                merged[i],
                all.take(n as int),
                value,
                power(q, n),
            ),
    decreases n,
{
    if n > 0 {
        let k = (n - 1) as nat;
        let some = all.take(n as int);
        let front = all.take(k as int);
        let new = all[k as int];
        assert(some.drop_last() =~= front && some.last() == new);
        assert(front.push(new) =~= some);
        let (held, at, score) = choose|held: Seq<TdtPath>, at: int, score: Bits|
            tdt_beam::merged_is(m, some.drop_last(), held) && #[trigger] tdt_beam::absorbs(
                m,
                held,
                some.last(),
                at,
                score,
                merged,
            );
        assert(first_merge(m, all, k as int, held));
        lemma_leaders(m, value, q, all, k, held);
        lemma_merged_differ(m, front, held);
        let c = power(q, k);
        let d = power(q, n);
        rounding::lemma_powers_grow(q, 0, k);
        rounding::lemma_powers_grow(q, k, n);
        assert forall|i: int| 0 <= i < merged.len() implies #[trigger] is_a_leader(
            merged[i],
            some,
            value,
            d,
        ) by {
            if i < held.len() && i != at {
                assert(is_a_leader(held[i], front, value, c));
                assert(merged[i] == held[i]);
                assert(!align_the_same(new, held[i])) by {
                    lemma_alignment_turns(new, held[i]);
                    lemma_keys_are_alignments(held[i], new);
                    if at < held.len() {
                        lemma_keys_are_alignments(held[at], new);
                        if align_the_same(held[i], new) {
                            lemma_alignment_turns(held[at], new);
                            lemma_alignments_chain(held[i], new, held[at]);
                            if i < at {
                                assert(!align_the_same(held[i], held[at]));
                            } else {
                                assert(!align_the_same(held[at], held[i]));
                                lemma_alignment_turns(held[at], held[i]);
                            }
                        }
                    } else {
                        assert(!tdt_beam::same_key(held[i], new));
                    }
                }
                lemma_leader_stays(held[i], held[i].score, front, new, value, c, d);
            } else if i < held.len() {
                let p = held[at];
                lemma_keys_are_alignments(p, new);
                lemma_alignment_turns(p, new);
                assert(is_a_leader(p, front, value, c));
                lemma_merging_keeps_mass(m, value, q, all, k, held, p);
                lemma_mass_of_one(held, value, at);
                lemma_same_mass(front, value, p, new);
                lemma_mass_has_its_paths(front, value, p);
                let x = value(p.score);
                let y = value(new.score);
                let f = mass(front, value, p);
                assert(x >= 0 as real && y >= 0 as real);
                assert(near(c, x, f));
                assert(!single::is_nan(p.score));
                assert(!single::is_nan(new.score));
                if single::greater(new.score, p.score) {
                    assert(single::rank(new.score) >= single::rank(p.score));
                    assert(x <= y);
                    assert(f <= d * y) by (nonlinear_arith)
                        requires
                            f <= c * x,
                            x <= y,
                            x >= 0 as real,
                            0 as real <= c <= d,
                    ;
                    lemma_new_leads(new, score, front, value, d);
                    assert(merged[i] == (TdtPath { score, ..new }));
                } else {
                    assert(single::rank(p.score) >= single::rank(new.score));
                    assert(y <= x);
                    assert(y <= d * f) by (nonlinear_arith)
                        requires
                            y <= x,
                            x <= c * f,
                            f >= 0 as real,
                            0 as real <= c <= d,
                    ;
                    lemma_leader_stays(p, score, front, new, value, c, d);
                    assert(merged[i] == (TdtPath { score, ..p }));
                }
            } else {
                assert(merged[i] == new);
                assert forall|j: int| 0 <= j < held.len() implies !align_the_same(
                    #[trigger] held[j],
                    new,
                ) by {
                    lemma_keys_are_alignments(held[j], new);
                }
                lemma_no_mass(held, value, new);
                lemma_merging_keeps_mass(m, value, q, all, k, held, new);
                lemma_mass_has_its_paths(front, value, new);
                rounding::lemma_near_nothing(c, mass(front, value, new));
                let y = value(new.score);
                assert(0 as real <= d * y) by (nonlinear_arith)
                    requires
                        d >= 0 as real,
                        y >= 0 as real,
                ;
                lemma_new_leads(new, new.score, front, value, d);
                assert(new == (TdtPath { score: new.score, ..new }));
            }
        }
    }
}

/// Where there is room for every path, every path is kept.
pub proof fn law_pruning_keeps_all_where_there_is_room<A: Arithmetic>(
    m: &A,
    beam: Seq<TdtPath>,
    config: BeamConfig,
    pruned: Seq<TdtPath>,
)
    requires
        tdt_beam::pruned_is(m, beam, config, pruned),
        pruned.len() < config.beam_size,
        beam.len() <= usize::MAX,
    ensures
        pruned.len() == beam.len(),
        forall|j: int| 0 <= j < beam.len() ==> pruned.contains(#[trigger] beam[j]),
{
    let (keys, order) = choose|keys: Seq<Bits>, order: Seq<usize>|
        {
            &&& #[trigger] tdt_beam::keys_are(m, beam, config.length_penalty, keys)
            &&& #[trigger] ranking::is_top(keys, config.beam_size as nat, order)
            &&& pruned == ranking::pick(beam, order)
        };
    assert forall|j: int| 0 <= j < beam.len() implies pruned.contains(#[trigger] beam[j]) by {
        ranking::law_full_listing_has_every_place(keys, config.beam_size as nat, order, j as usize);
        let k = choose|k: int| 0 <= k < order.len() && order[k] == j as usize;
        assert(pruned[k] == beam[j]);
    }
}

} // verus!
