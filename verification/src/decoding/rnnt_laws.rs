//! What RNN-T beam search keeps, from frame to frame and from chunk to chunk.
use vstd::prelude::*;
use crate::arithmetic;
use crate::arithmetic::Arithmetic;
use crate::decoding::rnnt_beam;
use crate::decoding::rnnt_beam::{RnntContext, RnntExpansion, RnntFrameTrace, RnntPath, RnntStep};
use crate::decoding::BeamConfig;
use crate::error::Error;
use crate::ranking;
use crate::single;
use crate::single::Bits;
use crate::tensor::Tensor3;

verus! {

/// Every path of `beam` is `good`.
pub open spec fn all_are(beam: Seq<RnntPath>, good: spec_fn(RnntPath) -> bool) -> bool {
    forall|i: int| 0 <= i < beam.len() ==> #[trigger] good(beam[i])
}

/// `good` does not read the score.
pub open spec fn ignores_score(good: spec_fn(RnntPath) -> bool) -> bool {
    forall|p: RnntPath, score: Bits| #[trigger] good(p) ==> good(#[trigger] rescored(p, score))
}

/// The path with another score.
pub open spec fn rescored(p: RnntPath, score: Bits) -> RnntPath {
    RnntPath { score, ..p }
}

/// Pruning keeps at most `beam_size` paths, all of them from the beam, and does
/// not empty a beam unless `beam_size` is zero.
pub proof fn law_pruning_selects<A: Arithmetic>(
    m: &A,
    beam: Seq<RnntPath>,
    config: BeamConfig,
    pruned: Seq<RnntPath>,
)
    requires
        rnnt_beam::pruned_is(m, beam, config, pruned),
    ensures
        pruned.len() == ranking::at_most(config.beam_size as nat, beam.len()),
        forall|i: int| 0 <= i < pruned.len() ==> beam.contains(#[trigger] pruned[i]),
{
    let (keys, order) = choose|keys: Seq<Bits>, order: Seq<usize>|
        {
            &&& #[trigger] rnnt_beam::keys_are(m, beam, config.length_penalty, keys)
            &&& #[trigger] ranking::is_top(keys, config.beam_size as nat, order)
            &&& pruned == ranking::pick(beam, order)
        };
    assert forall|i: int| 0 <= i < pruned.len() implies beam.contains(#[trigger] pruned[i]) by {
        assert(pruned[i] == beam[order[i] as int]);
    }
}

/// A property of every path of the beam survives pruning.
pub proof fn lemma_pruned_keeps<A: Arithmetic>(
    m: &A,
    beam: Seq<RnntPath>,
    config: BeamConfig,
    pruned: Seq<RnntPath>,
    good: spec_fn(RnntPath) -> bool,
)
    requires
        rnnt_beam::pruned_is(m, beam, config, pruned),
        all_are(beam, good),
    ensures
        all_are(pruned, good),
{
    law_pruning_selects(m, beam, config, pruned);
    assert forall|i: int| 0 <= i < pruned.len() implies #[trigger] good(pruned[i]) by {
        let j = choose|j: int| 0 <= j < beam.len() && beam[j] == pruned[i];
        assert(good(beam[j]));
    }
}

/// No two paths of `beam` have the same key.
pub open spec fn keys_differ(beam: Seq<RnntPath>) -> bool {
    forall|i: int, j: int|
        0 <= i < j < beam.len() ==> !rnnt_beam::same_key(#[trigger] beam[i], #[trigger] beam[j])
}

/// `p` is a path of `all` but for its score.
pub open spec fn stems_from(p: RnntPath, all: Seq<RnntPath>) -> bool {
    exists|j: int| 0 <= j < all.len() && p == rescored(#[trigger] all[j], p.score)
}

/// The key of `p` occurs in `beam`.
pub open spec fn has_key_of(beam: Seq<RnntPath>, p: RnntPath) -> bool {
    exists|i: int| 0 <= i < beam.len() && rnnt_beam::same_key(#[trigger] beam[i], p)
}

proof fn lemma_absorbing<A: Arithmetic>(
    m: &A,
    held: Seq<RnntPath>,
    p: RnntPath,
    at: int,
    score: Bits,
    next: Seq<RnntPath>,
)
    requires
        rnnt_beam::absorbs(m, held, p, at, score, next),
        keys_differ(held),
    ensures
        keys_differ(next),
        has_key_of(next, p),
        forall|i: int|
            0 <= i < held.len() ==> #[trigger] next[i] == rescored(held[i], next[i].score),
        forall|i: int| held.len() <= i < next.len() ==> #[trigger] next[i] == p,
        held.len() <= next.len() <= held.len() + 1,
{
    if at < held.len() {
        assert(rnnt_beam::same_key(next[at], p));
        assert forall|i: int, j: int| 0 <= i < j < next.len() implies !rnnt_beam::same_key(
            #[trigger] next[i],
            #[trigger] next[j],
        ) by {
            assert(!rnnt_beam::same_key(held[i], held[j]));
        }
    } else {
        assert(rnnt_beam::same_key(next[held.len() as int], p));
        assert forall|i: int, j: int| 0 <= i < j < next.len() implies !rnnt_beam::same_key(
            #[trigger] next[i],
            #[trigger] next[j],
        ) by {
            assert(next[i] == held[i]);
            if j < held.len() {
                assert(next[j] == held[j]);
            }
        }
    }
}

/// After a merging no two paths have the same key, every merged path is one of
/// the given paths but for its score, and the key of every given path is still
/// there.
pub proof fn law_merging_leaves_one_of_each_key<A: Arithmetic>(
    m: &A,
    all: Seq<RnntPath>,
    merged: Seq<RnntPath>,
)
    requires
        rnnt_beam::merged_is(m, all, merged),
    ensures
        keys_differ(merged),
        forall|i: int| 0 <= i < merged.len() ==> #[trigger] stems_from(merged[i], all),
        forall|j: int| 0 <= j < all.len() ==> has_key_of(merged, #[trigger] all[j]),
    decreases all.len(),
{
    if all.len() > 0 {
        let front = all.drop_last();
        let p = all.last();
        let (held, at, score) = choose|held: Seq<RnntPath>, at: int, score: Bits|
            rnnt_beam::merged_is(m, front, held) && #[trigger] rnnt_beam::absorbs(
                m,
                held,
                p,
                at,
                score,
                merged,
            );
        law_merging_leaves_one_of_each_key(m, front, held);
        lemma_absorbing(m, held, p, at, score, merged);
        assert forall|i: int| 0 <= i < merged.len() implies #[trigger] stems_from(
            merged[i],
            all,
        ) by {
            if i < held.len() {
                assert(stems_from(held[i], front));
                let j = choose|j: int|
                    0 <= j < front.len() && held[i] == rescored(#[trigger] front[j], held[i].score);
                assert(merged[i] == rescored(all[j], merged[i].score));
            } else {
                assert(merged[i] == rescored(all[all.len() - 1], merged[i].score));
            }
        }
        assert forall|j: int| 0 <= j < all.len() implies has_key_of(merged, #[trigger] all[j]) by {
            if j < front.len() {
                assert(has_key_of(held, front[j]));
                let i = choose|i: int|
                    0 <= i < held.len() && rnnt_beam::same_key(#[trigger] held[i], front[j]);
                assert(rnnt_beam::same_key(merged[i], all[j]));
            }
        }
    }
}

/// A property of every given path that does not read the score survives merging.
pub proof fn lemma_merged_keeps<A: Arithmetic>(
    m: &A,
    all: Seq<RnntPath>,
    merged: Seq<RnntPath>,
    good: spec_fn(RnntPath) -> bool,
)
    requires
        rnnt_beam::merged_is(m, all, merged),
        all_are(all, good),
        ignores_score(good),
    ensures
        all_are(merged, good),
{
    law_merging_leaves_one_of_each_key(m, all, merged);
    assert forall|i: int| 0 <= i < merged.len() implies #[trigger] good(merged[i]) by {
        assert(stems_from(merged[i], all));
        let j = choose|j: int|
            0 <= j < all.len() && merged[i] == rescored(#[trigger] all[j], merged[i].score);
        assert(good(all[j]));
        assert(good(rescored(all[j], merged[i].score)));
    }
}

/// A merging of paths leaves a path.
pub proof fn lemma_merged_not_empty<A: Arithmetic>(
    m: &A,
    all: Seq<RnntPath>,
    merged: Seq<RnntPath>,
)
    requires
        rnnt_beam::merged_is(m, all, merged),
    ensures
        (merged.len() == 0) == (all.len() == 0),
{
    law_merging_leaves_one_of_each_key(m, all, merged);
    if all.len() > 0 {
        assert(has_key_of(merged, all[0]));
    } else if merged.len() > 0 {
        assert(stems_from(merged[0], all));
    }
}

/// What holds of a path after the best tokens holds of every child.
proof fn lemma_children_are(
    p: RnntPath,
    x: RnntExpansion,
    n: nat,
    blank_id: usize,
    next_frame: usize,
    at: usize,
    emitted: spec_fn(RnntPath) -> bool,
    moved: spec_fn(RnntPath) -> bool,
)
    requires
        forall|token: usize, score: Bits|
            token != blank_id ==> emitted(
                #[trigger] rnnt_beam::after_symbol(p, token, score, x.state_1, x.state_2, at),
            ),
        forall|score: Bits| moved(#[trigger] rnnt_beam::after_blank(p, score, next_frame)),
    ensures
        all_are(rnnt_beam::symbols_of(p, x, n, blank_id, at), emitted),
        all_are(rnnt_beam::blanks_of(p, x, n, blank_id, next_frame), moved),
        rnnt_beam::symbols_of(p, x, n, blank_id, at).len() + rnnt_beam::blanks_of(
            p,
            x,
            n,
            blank_id,
            next_frame,
        ).len() == n,
    decreases n,
{
    if n > 0 {
        lemma_children_are(p, x, (n - 1) as nat, blank_id, next_frame, at, emitted, moved);
    }
}

/// How properties of active paths pass to their children on frame `t`.
pub open spec fn passes_on(
    blank_id: usize,
    t: usize,
    at: usize,
    on: spec_fn(RnntPath) -> bool,
    emitted: spec_fn(RnntPath) -> bool,
    moved: spec_fn(RnntPath) -> bool,
) -> bool {
    &&& forall|p: RnntPath, token: usize, score: Bits, state_1: Tensor3, state_2: Tensor3|
        on(p) && token != blank_id ==> emitted(
            #[trigger] rnnt_beam::after_symbol(p, token, score, state_1, state_2, at),
        )
    &&& forall|p: RnntPath, score: Bits|
        on(p) ==> moved(#[trigger] rnnt_beam::after_blank(p, score, (t + 1) as usize))
}

impl<'a, A: Arithmetic, D: Fn(&Tensor3, i32, &Tensor3, &Tensor3) -> Result<RnntStep, Error>>
    RnntContext<'a, A, D> {
    /// Properties pass through the expansion of every active path.
    pub proof fn lemma_expanded_keeps(
        self,
        frame: Tensor3,
        t: usize,
        at: usize,
        active: Seq<RnntPath>,
        held: Seq<RnntPath>,
        advanced: Seq<RnntPath>,
        symbols: Seq<RnntPath>,
        on: spec_fn(RnntPath) -> bool,
        emitted: spec_fn(RnntPath) -> bool,
        moved: spec_fn(RnntPath) -> bool,
    )
        requires
            self.all_expanded(frame, t, at, active, held, advanced, symbols),
            all_are(active, on),
            all_are(held, moved),
            passes_on(self.blank_id, t, at, on, emitted, moved),
        ensures
            all_are(symbols, emitted),
            all_are(advanced, moved),
            advanced.len() >= held.len(),
        decreases active.len(),
    {
        if active.len() > 0 {
            let (a, s, x) = choose|a: Seq<RnntPath>, s: Seq<RnntPath>, x: RnntExpansion|
                self.all_expanded(frame, t, at, active.drop_last(), held, a, s)
                    && #[trigger] self.expands(
                    frame,
                    t,
                    at,
                    active.last(),
                    x,
                    a,
                    s,
                    advanced,
                    symbols,
                );
            let front = active.drop_last();
            assert forall|i: int| 0 <= i < front.len() implies #[trigger] on(front[i]) by {
                assert(on(active[i]));
            }
            self.lemma_expanded_keeps(frame, t, at, front, held, a, s, on, emitted, moved);
            let p = active.last();
            assert(on(active[active.len() - 1]));
            lemma_children_are(
                p,
                x,
                x.order.len(),
                self.blank_id,
                (t + 1) as usize,
                at,
                emitted,
                moved,
            );
            let new_symbols = rnnt_beam::symbols_of(p, x, x.order.len(), self.blank_id, at);
            let new_advanced = rnnt_beam::blanks_of(
                p,
                x,
                x.order.len(),
                self.blank_id,
                (t + 1) as usize,
            );
            assert forall|i: int| 0 <= i < symbols.len() implies #[trigger] emitted(symbols[i]) by {
                if i < s.len() {
                    assert(symbols[i] == s[i]);
                } else {
                    assert(symbols[i] == new_symbols[i - s.len()]);
                }
            }
            assert forall|i: int| 0 <= i < advanced.len() implies #[trigger] moved(advanced[i]) by {
                if i < a.len() {
                    assert(advanced[i] == a[i]);
                } else {
                    assert(advanced[i] == new_advanced[i - a.len()]);
                }
            }
        }
    }
}

/// The property that `on` says of the paths after `k` rounds.
pub open spec fn in_round(
    on: spec_fn(nat, RnntPath) -> bool,
    k: nat,
) -> spec_fn(RnntPath) -> bool {
    |p: RnntPath| on(k, p)
}

/// The property `on` passes from each of the first `n` rounds to the next, and
/// turns into `moved` after a blank.
pub open spec fn keeps_through_rounds(
    blank_id: usize,
    t: usize,
    at: usize,
    n: nat,
    on: spec_fn(nat, RnntPath) -> bool,
    moved: spec_fn(RnntPath) -> bool,
) -> bool {
    &&& forall|k: nat|
        k < n ==> passes_on(
            blank_id,
            t,
            at,
            #[trigger] in_round(on, k),
            in_round(on, k + 1),
            moved,
        )
    &&& forall|k: nat| k <= n ==> ignores_score(#[trigger] in_round(on, k))
}

/// Every path that stands on a frame stands in the beam.
pub proof fn lemma_on_frame(beam: Seq<RnntPath>, t: usize)
    ensures
        forall|i: int|
            0 <= i < rnnt_beam::on_frame(beam, t).len() ==> {
                &&& (#[trigger] rnnt_beam::on_frame(beam, t)[i]).frame == t
                &&& beam.contains(rnnt_beam::on_frame(beam, t)[i])
            },
        forall|i: int|
            0 <= i < beam.len() && (#[trigger] beam[i]).frame == t ==> rnnt_beam::on_frame(
                beam,
                t,
            ).contains(beam[i]),
    decreases beam.len(),
{
    if beam.len() > 0 {
        let front = beam.drop_last();
        let rest = rnnt_beam::on_frame(front, t);
        lemma_on_frame(front, t);
        let whole = rnnt_beam::on_frame(beam, t);
        assert forall|i: int| 0 <= i < whole.len() implies {
            &&& (#[trigger] whole[i]).frame == t
            &&& beam.contains(whole[i])
        } by {
            if i < rest.len() {
                assert(whole[i] == rest[i]);
                let j = choose|j: int| 0 <= j < front.len() && front[j] == rest[i];
                assert(beam[j] == whole[i]);
            } else {
                assert(beam[beam.len() - 1] == whole[i]);
            }
        }
        assert forall|i: int|
            0 <= i < beam.len() && (#[trigger] beam[i]).frame == t implies whole.contains(
            beam[i],
        ) by {
            if i < front.len() {
                assert(front[i].frame == t);
                let j = choose|j: int| 0 <= j < rest.len() && rest[j] == front[i];
                assert(whole[j] == beam[i]);
            } else {
                assert(whole[whole.len() - 1] == beam[i]);
            }
        }
    }
}

impl<'a, A: Arithmetic, D: Fn(&Tensor3, i32, &Tensor3, &Tensor3) -> Result<RnntStep, Error>>
    RnntContext<'a, A, D> {
    /// A property that may change with every round holds of the active paths
    /// after `n` rounds, and what a blank turns it into holds of those moved on.
    proof fn lemma_rounds_keep(
        self,
        frame: Tensor3,
        t: usize,
        at: usize,
        n: nat,
        entered: Seq<RnntPath>,
        active: Seq<RnntPath>,
        advanced: Seq<RnntPath>,
        on: spec_fn(nat, RnntPath) -> bool,
        moved: spec_fn(RnntPath) -> bool,
    )
        requires
            self.symbol_rounds(frame, t, at, n, entered, active, advanced),
            all_are(entered, in_round(on, 0)),
            keeps_through_rounds(self.blank_id, t, at, n, on, moved),
        ensures
            all_are(active, in_round(on, n)),
            all_are(advanced, moved),
        decreases n,
    {
        if n > 0 {
            let (a, d) = choose|a: Seq<RnntPath>, d: Seq<RnntPath>|
                self.symbol_rounds(frame, t, at, (n - 1) as nat, entered, a, d)
                    && #[trigger] self.symbol_round(frame, t, at, a, d, active, advanced);
            self.lemma_rounds_keep(frame, t, at, (n - 1) as nat, entered, a, d, on, moved);
            let now = in_round(on, (n - 1) as nat);
            let then = in_round(on, n);
            if a.len() > 0 {
                let (symbols, merged) = choose|symbols: Seq<RnntPath>, merged: Seq<RnntPath>|
                    {
                        &&& self.all_expanded(frame, t, at, a, d, advanced, symbols)
                        &&& #[trigger] rnnt_beam::merged_is(self.arithmetic, symbols, merged)
                        &&& rnnt_beam::pruned_is(self.arithmetic, merged, self.config, active)
                    };
                self.lemma_expanded_keeps(
                    frame,
                    t,
                    at,
                    a,
                    d,
                    advanced,
                    symbols,
                    now,
                    then,
                    moved,
                );
                lemma_merged_keeps(self.arithmetic, symbols, merged, then);
                lemma_pruned_keeps(self.arithmetic, merged, self.config, active, then);
            }
        }
    }

    /// What a blank turns a property into holds of every path that it moves on.
    pub proof fn lemma_forced_keep(
        self,
        frame: Tensor3,
        t: usize,
        active: Seq<RnntPath>,
        held: Seq<RnntPath>,
        advanced: Seq<RnntPath>,
        on: spec_fn(RnntPath) -> bool,
        moved: spec_fn(RnntPath) -> bool,
    )
        requires
            self.all_forced(frame, t, active, held, advanced),
            all_are(active, on),
            all_are(held, moved),
            forall|p: RnntPath, score: Bits|
                on(p) ==> moved(#[trigger] rnnt_beam::after_blank(p, score, (t + 1) as usize)),
        ensures
            all_are(advanced, moved),
            advanced.len() == held.len() + active.len(),
        decreases active.len(),
    {
        if active.len() > 0 {
            let (d, x, score) = choose|d: Seq<RnntPath>, x: RnntExpansion, score: Bits|
                self.all_forced(frame, t, active.drop_last(), held, d) && #[trigger] self.forces(
                    frame,
                    t,
                    active.last(),
                    x,
                    score,
                    d,
                    advanced,
                );
            let front = active.drop_last();
            assert forall|i: int| 0 <= i < front.len() implies #[trigger] on(front[i]) by {
                assert(on(active[i]));
            }
            self.lemma_forced_keep(frame, t, front, held, d, on, moved);
            assert(on(active[active.len() - 1]));
            assert forall|i: int| 0 <= i < advanced.len() implies #[trigger] moved(advanced[i]) by {
                if i < d.len() {
                    assert(advanced[i] == d[i]);
                }
            }
        }
    }

    /// A property that may change with every round of symbols passes through a
    /// frame, into what a blank turns it into.
    pub proof fn lemma_frame_keeps_counted(
        self,
        t: usize,
        at: usize,
        beam: Seq<RnntPath>,
        next: Seq<RnntPath>,
        on: spec_fn(nat, RnntPath) -> bool,
        moved: spec_fn(RnntPath) -> bool,
    )
        requires
            self.frame_is(t, at, beam, next),
            forall|i: int|
                0 <= i < beam.len() && beam[i].frame == t ==> on(0, #[trigger] beam[i]),
            ignores_score(moved),
            keeps_through_rounds(
                self.blank_id,
                t,
                at,
                self.config.max_symbols_per_step as nat,
                on,
                moved,
            ),
            forall|p: RnntPath, score: Bits|
                on(self.config.max_symbols_per_step as nat, p) ==> moved(
                    #[trigger] rnnt_beam::after_blank(p, score, (t + 1) as usize),
                ),
        ensures
            all_are(next, moved),
            next.len() <= self.config.beam_size,
    {
        let w = choose|w: RnntFrameTrace| #[trigger] self.frame_traced(t, at, beam, w, next);
        let standing = rnnt_beam::on_frame(beam, t);
        let first = in_round(on, 0);
        let limit = self.config.max_symbols_per_step as nat;
        let last = in_round(on, limit);
        lemma_on_frame(beam, t);
        assert forall|i: int| 0 <= i < standing.len() implies #[trigger] first(standing[i]) by {
            let j = choose|j: int| 0 <= j < beam.len() && beam[j] == standing[i];
            assert(on(0, beam[j]));
        }
        lemma_pruned_keeps(self.arithmetic, standing, self.config, w.entered, first);
        self.lemma_rounds_keep(
            w.frame,
            t,
            at,
            limit,
            w.entered,
            w.active,
            w.advanced,
            on,
            moved,
        );
        assert(all_are(w.active, last));
        self.lemma_forced_keep(w.frame, t, w.active, w.advanced, w.all, last, moved);
        lemma_merged_keeps(self.arithmetic, w.all, w.merged, moved);
        lemma_pruned_keeps(self.arithmetic, w.merged, self.config, next, moved);
        law_pruning_selects(self.arithmetic, w.merged, self.config, next);
    }

    /// After frame `t` every path stands on the next frame with no symbol
    /// emitted there.
    pub proof fn lemma_frame_advances(
        self,
        t: usize,
        at: usize,
        beam: Seq<RnntPath>,
        next: Seq<RnntPath>,
    )
        requires
            self.frame_is(t, at, beam, next),
        ensures
            all_are(next, |p: RnntPath| p.frame == (t + 1) as usize && p.symbols_on_frame == 0),
            next.len() <= self.config.beam_size,
    {
        let any = |k: nat, p: RnntPath| true;
        let there = |p: RnntPath| p.frame == (t + 1) as usize && p.symbols_on_frame == 0;
        self.lemma_frame_keeps_counted(t, at, beam, next, any, there);
    }
}

/// `p` continues `q` on absolute frames from `from` up to `to`: it has the
/// tokens of `q` and behind them new ones, none of them blank, in the order of
/// their frames, at most `cap` to a frame. The decoder input and state are those
/// of `q` until a token is emitted, and the input is the last token from then on.
pub open spec fn continues(
    p: RnntPath,
    q: RnntPath,
    blank_id: usize,
    from: int,
    to: int,
    cap: nat,
) -> bool {
    let old_count = q.tokens.len();
    &&& old_count <= p.tokens.len()
    &&& p.tokens.take(old_count as int) == q.tokens
    &&& forall|i: int|
        old_count <= i < p.tokens.len() ==> (#[trigger] p.tokens[i]).0 != blank_id && from
            <= p.tokens[i].1 < to
    &&& forall|i: int, j: int|
        old_count <= i <= j < p.tokens.len() ==> (#[trigger] p.tokens[i]).1 <= (
        #[trigger] p.tokens[j]).1
    &&& forall|i: int, j: int|
        old_count <= i && i + cap <= j < p.tokens.len() ==> (#[trigger] p.tokens[i]).1 < (
        #[trigger] p.tokens[j]).1
    &&& p.prev_token_count == q.prev_token_count
    &&& if p.tokens.len() == old_count {
        p.last_token == q.last_token && p.state_1 == q.state_1 && p.state_2 == q.state_2
    } else {
        p.last_token == p.tokens.last().0 as i32
    }
}

/// The paths that a range of frames goes on from: those that stand on its first
/// frame, or all of them where there is no frame.
pub open spec fn roots(beam: Seq<RnntPath>, start: int, end: int) -> Seq<RnntPath> {
    if start < end {
        rnnt_beam::on_frame(beam, start as usize)
    } else {
        beam
    }
}

/// `p` continues a path of `beam`.
pub open spec fn continues_one_of(
    p: RnntPath,
    beam: Seq<RnntPath>,
    blank_id: usize,
    from: int,
    to: int,
    cap: nat,
) -> bool {
    exists|k: int|
        0 <= k < beam.len() && continues(p, #[trigger] beam[k], blank_id, from, to, cap)
}

/// Of the tokens that `p` has beyond those of `q`, at most the last `n` were
/// emitted on the absolute frame `at`, and the others before.
pub open spec fn emitted_at_most(p: RnntPath, q: RnntPath, at: usize, n: nat) -> bool {
    forall|i: int|
        q.tokens.len() <= i < p.tokens.len() - n ==> (#[trigger] p.tokens[i]).1 < at
}

/// In round `n` on the absolute frame `at`, `p` continues a path of `beam`, with
/// at most `n` tokens emitted on the frame.
pub open spec fn continues_in_round(
    p: RnntPath,
    beam: Seq<RnntPath>,
    blank_id: usize,
    from: int,
    at: usize,
    cap: nat,
    n: nat,
) -> bool {
    exists|k: int|
        {
            &&& 0 <= k < beam.len()
            &&& continues(p, #[trigger] beam[k], blank_id, from, at + 1, cap)
            &&& emitted_at_most(p, beam[k], at, n)
        }
}

proof fn lemma_symbol_continues(
    p: RnntPath,
    q: RnntPath,
    blank_id: usize,
    from: int,
    at: usize,
    cap: nat,
    n: nat,
    token: usize,
    score: Bits,
    state_1: Tensor3,
    state_2: Tensor3,
)
    requires
        continues(p, q, blank_id, from, at + 1, cap),
        emitted_at_most(p, q, at, n),
        from <= at,
        n < cap,
        token != blank_id,
    ensures
        continues(
            rnnt_beam::after_symbol(p, token, score, state_1, state_2, at),
            q,
            blank_id,
            from,
            at + 1,
            cap,
        ),
        emitted_at_most(
            rnnt_beam::after_symbol(p, token, score, state_1, state_2, at),
            q,
            at,
            n + 1,
        ),
{
    let r = rnnt_beam::after_symbol(p, token, score, state_1, state_2, at);
    assert(r.tokens.take(q.tokens.len() as int) =~= p.tokens.take(q.tokens.len() as int));
    assert forall|i: int| q.tokens.len() <= i < r.tokens.len() implies (#[trigger] r.tokens[i]).0
        != blank_id && from <= r.tokens[i].1 < at + 1 by {
        if i < p.tokens.len() {
            assert(r.tokens[i] == p.tokens[i]);
        }
    }
    assert forall|i: int, j: int| q.tokens.len() <= i <= j < r.tokens.len() implies (
    #[trigger] r.tokens[i]).1 <= (#[trigger] r.tokens[j]).1 by {
        if j < p.tokens.len() {
            assert(r.tokens[i] == p.tokens[i]);
            assert(r.tokens[j] == p.tokens[j]);
        } else if i < p.tokens.len() {
            assert(r.tokens[i] == p.tokens[i]);
        }
    }
    assert forall|i: int, j: int|
        q.tokens.len() <= i && i + cap <= j < r.tokens.len() implies (#[trigger] r.tokens[i]).1 < (
    #[trigger] r.tokens[j]).1 by {
        assert(r.tokens[i] == p.tokens[i]);
        if j < p.tokens.len() {
            assert(r.tokens[j] == p.tokens[j]);
        }
    }
    assert forall|i: int| q.tokens.len() <= i < r.tokens.len() - (n + 1) implies (
    #[trigger] r.tokens[i]).1 < at by {
        assert(r.tokens[i] == p.tokens[i]);
    }
}

impl<'a, A: Arithmetic, D: Fn(&Tensor3, i32, &Tensor3, &Tensor3) -> Result<RnntStep, Error>>
    RnntContext<'a, A, D> {
    /// What holds of the paths on a frame passes from round to round.
    proof fn lemma_continuing_passes_on(
        self,
        t: usize,
        at: usize,
        from: int,
        beam: Seq<RnntPath>,
        on: spec_fn(nat, RnntPath) -> bool,
        moved: spec_fn(RnntPath) -> bool,
    )
        requires
            from <= at,
            on == (|n: nat, p: RnntPath|
                continues_in_round(
                    p,
                    beam,
                    self.blank_id,
                    from,
                    at,
                    self.config.max_symbols_per_step as nat,
                    n,
                )),
            moved == (|p: RnntPath|
                continues_one_of(
                    p,
                    beam,
                    self.blank_id,
                    from,
                    at + 1,
                    self.config.max_symbols_per_step as nat,
                )),
        ensures
            keeps_through_rounds(
                self.blank_id,
                t,
                at,
                self.config.max_symbols_per_step as nat,
                on,
                moved,
            ),
            ignores_score(moved),
            forall|n: nat, p: RnntPath, score: Bits| #[trigger]
                on(n, p) ==> moved(
                    #[trigger] rnnt_beam::after_blank(p, score, (t + 1) as usize),
                ),
    {
        let cap = self.config.max_symbols_per_step as nat;
        let blank = self.blank_id;
        assert forall|n: nat, p: RnntPath, score: Bits| #[trigger] on(n, p) implies moved(
            #[trigger] rnnt_beam::after_blank(p, score, (t + 1) as usize),
        ) by {
            let k = choose|k: int|
                {
                    &&& 0 <= k < beam.len()
                    &&& continues(p, #[trigger] beam[k], blank, from, at + 1, cap)
                    &&& emitted_at_most(p, beam[k], at, n)
                };
            assert(continues(
                rnnt_beam::after_blank(p, score, (t + 1) as usize),
                beam[k],
                blank,
                from,
                at + 1,
                cap,
            ));
        }
        assert forall|p: RnntPath, score: Bits| #[trigger] moved(p) implies moved(
            #[trigger] rescored(p, score),
        ) by {
            let k = choose|k: int|
                0 <= k < beam.len() && continues(p, #[trigger] beam[k], blank, from, at + 1, cap);
            assert(continues(rescored(p, score), beam[k], blank, from, at + 1, cap));
        }
        assert forall|n: nat| n <= cap implies ignores_score(#[trigger] in_round(on, n)) by {
            let now = in_round(on, n);
            assert forall|p: RnntPath, score: Bits| #[trigger] now(p) implies now(
                #[trigger] rescored(p, score),
            ) by {
                assert(on(n, p));
                let k = choose|k: int|
                    {
                        &&& 0 <= k < beam.len()
                        &&& continues(p, #[trigger] beam[k], blank, from, at + 1, cap)
                        &&& emitted_at_most(p, beam[k], at, n)
                    };
                assert(continues(rescored(p, score), beam[k], blank, from, at + 1, cap));
                assert(emitted_at_most(rescored(p, score), beam[k], at, n));
            }
        }
        assert forall|n: nat| n < cap implies passes_on(
            blank,
            t,
            at,
            #[trigger] in_round(on, n),
            in_round(on, n + 1),
            moved,
        ) by {
            let now = in_round(on, n);
            let then = in_round(on, n + 1);
            assert forall|
                p: RnntPath,
                token: usize,
                score: Bits,
                state_1: Tensor3,
                state_2: Tensor3,
            | now(p) && token != blank implies then(
                #[trigger] rnnt_beam::after_symbol(p, token, score, state_1, state_2, at),
            ) by {
                assert(on(n, p));
                let k = choose|k: int|
                    {
                        &&& 0 <= k < beam.len()
                        &&& continues(p, #[trigger] beam[k], blank, from, at + 1, cap)
                        &&& emitted_at_most(p, beam[k], at, n)
                    };
                lemma_symbol_continues(
                    p,
                    beam[k],
                    blank,
                    from,
                    at,
                    cap,
                    n,
                    token,
                    score,
                    state_1,
                    state_2,
                );
            }
            assert forall|p: RnntPath, score: Bits| now(p) implies moved(
                #[trigger] rnnt_beam::after_blank(p, score, (t + 1) as usize),
            ) by {
                assert(on(n, p));
            }
        }
    }

    /// Every path after a range of frames continues one of the paths that stood on
    /// its first frame:
    /// tokens are only ever added behind, a blank is never emitted and never fed
    /// to the decoder, tokens are stamped with the frames of the range, in order,
    /// and no frame has more than `max_symbols_per_step` of them.
    pub proof fn law_paths_continue(
        self,
        shift: int,
        start: int,
        end: int,
        beam: Seq<RnntPath>,
        next: Seq<RnntPath>,
    )
        requires
            self.frames_are(shift, start, end, beam, next),
            0 <= start <= end <= usize::MAX,
            0 <= start + shift,
            end + shift <= usize::MAX,
        ensures
            forall|i: int|
                0 <= i < next.len() ==> #[trigger] continues_one_of(
                    next[i],
                    roots(beam, start, end),
                    self.blank_id,
                    start + shift,
                    end + shift,
                    self.config.max_symbols_per_step as nat,
                ),
        decreases end - start,
    {
        let cap = self.config.max_symbols_per_step as nat;
        let blank = self.blank_id;
        let root = roots(beam, start, end);
        if end <= start {
            assert forall|i: int| 0 <= i < next.len() implies #[trigger] continues_one_of(
                next[i],
                root,
                blank,
                start + shift,
                end + shift,
                cap,
            ) by {
                assert(beam[i].tokens.take(beam[i].tokens.len() as int) =~= beam[i].tokens);
                assert(continues(next[i], beam[i], blank, start + shift, end + shift, cap));
            }
        } else {
            let t = (end - 1) as usize;
            let at = (end - 1 + shift) as usize;
            let from = start + shift;
            let mid = choose|mid: Seq<RnntPath>|
                self.frames_are(shift, start, end - 1, beam, mid) && #[trigger] self.frame_is(
                    t,
                    at,
                    mid,
                    next,
                );
            self.law_paths_continue(shift, start, end - 1, beam, mid);
            let on = |n: nat, p: RnntPath| continues_in_round(p, root, blank, from, at, cap, n);
            let moved = |p: RnntPath| continues_one_of(p, root, blank, from, at + 1, cap);
            assert forall|i: int| 0 <= i < mid.len() && mid[i].frame == t implies on(
                0,
                #[trigger] mid[i],
            ) by {
                assert(continues_one_of(
                    mid[i],
                    roots(beam, start, end - 1),
                    blank,
                    from,
                    at as int,
                    cap,
                ));
                if start < end - 1 {
                    let k = choose|k: int|
                        0 <= k < root.len() && continues(
                            mid[i],
                            #[trigger] root[k],
                            blank,
                            from,
                            at as int,
                            cap,
                        );
                    assert(continues(mid[i], root[k], blank, from, at + 1, cap));
                    assert(emitted_at_most(mid[i], root[k], at, 0));
                } else {
                    lemma_on_frame(beam, t);
                    assert(beam[i] == mid[i]);
                    let k = choose|k: int| 0 <= k < root.len() && root[k] == mid[i];
                    assert(mid[i].tokens.take(mid[i].tokens.len() as int) =~= mid[i].tokens);
                    assert(continues(mid[i], root[k], blank, from, at + 1, cap));
                    assert(emitted_at_most(mid[i], root[k], at, 0));
                }
            }
            self.lemma_continuing_passes_on(t, at, from, root, on, moved);
            self.lemma_frame_keeps_counted(t, at, mid, next, on, moved);
            assert forall|i: int| 0 <= i < next.len() implies #[trigger] continues_one_of(
                next[i],
                root,
                blank,
                start + shift,
                end + shift,
                cap,
            ) by {
                assert(moved(next[i]));
            }
        }
    }

    /// The best hypothesis of a pass is one of those carried on, and the new
    /// tokens are what it has gained in the pass: its tokens are those of a path
    /// that entered the pass on its first frame with the new ones behind, none of
    /// them blank, each stamped with a frame of the pass, in order.
    pub proof fn law_new_tokens_are_those_of_the_pass(
        self,
        start: usize,
        end: usize,
        offset: usize,
        carried: Seq<RnntPath>,
        out: rnnt_beam::RnntBeamOutput,
    )
        requires
            self.decodes(start, end, offset, carried, out),
            start <= end,
            offset + (end - start) <= usize::MAX,
            forall|i: int| 0 <= i < carried.len() ==> (#[trigger] carried[i]).tokens.len() <= usize::MAX,
        ensures
            out.best_hypothesis is None <==> out.hypotheses@.len() == 0,
            out.best_hypothesis matches Some(best) ==> {
                &&& rnnt_beam::paths(out.hypotheses@).contains(best@)
                &&& exists|beam: Seq<RnntPath>, k: int|
                    {
                        &&& #[trigger] rnnt_beam::enters(carried, self.blank_id, start, beam)
                        &&& 0 <= k < beam.len()
                        &&& start < end ==> beam[k].frame == start
                        &&& best.tokens@ == beam[k].tokens + out.new_tokens@
                        &&& #[trigger] continues(
                            best@,
                            beam[k],
                            self.blank_id,
                            offset as int,
                            offset + (end - start),
                            self.config.max_symbols_per_step as nat,
                        )
                    }
            },
    {
        let survivors = rnnt_beam::paths(out.hypotheses@);
        let penalty = self.config.length_penalty;
        let best = rnnt_beam::optional_path(out.best_hypothesis);
        let beam = choose|beam: Seq<RnntPath>|
            {
                &&& #[trigger] rnnt_beam::enters(carried, self.blank_id, start, beam)
                &&& self.frames_are(offset - start, start as int, end as int, beam, survivors)
            };
        self.law_paths_continue(offset - start, start as int, end as int, beam, survivors);
        if survivors.len() > 0 {
            let keys = choose|keys: Seq<Bits>|
                {
                    &&& #[trigger] rnnt_beam::keys_are(self.arithmetic, survivors, penalty, keys)
                    &&& best == Some(survivors[ranking::last_max(keys)])
                };
            let i = ranking::last_max(keys);
            ranking::lemma_last_max_bounds(keys);
            let p = survivors[i];
            let root = roots(beam, start as int, end as int);
            assert(continues_one_of(
                survivors[i],
                root,
                self.blank_id,
                start + (offset - start),
                end + (offset - start),
                self.config.max_symbols_per_step as nat,
            ));
            let j = choose|j: int|
                0 <= j < root.len() && continues(
                    p,
                    #[trigger] root[j],
                    self.blank_id,
                    offset as int,
                    offset + (end - start),
                    self.config.max_symbols_per_step as nat,
                );
            lemma_on_frame(beam, start);
            assert(beam.contains(root[j]));
            let k = choose|k: int| 0 <= k < beam.len() && beam[k] == root[j];
            assert(beam[k].prev_token_count == beam[k].tokens.len()) by {
                if carried.len() > 0 {
                    assert(carried[k].tokens.len() <= usize::MAX);
                }
            }
            assert(p.tokens =~= beam[k].tokens + p.tokens.skip(beam[k].tokens.len() as int)) by {
                assert(p.tokens.take(beam[k].tokens.len() as int) == beam[k].tokens);
            }
        }
    }
}

impl<'a, A: Arithmetic, D: Fn(&Tensor3, i32, &Tensor3, &Tensor3) -> Result<RnntStep, Error>>
    RnntContext<'a, A, D> {
    /// Every answer of the decoder holds a logit.
    pub open spec fn answers_are_not_empty(self) -> bool {
        forall|
            frame: &Tensor3,
            token: i32,
            state_1: &Tensor3,
            state_2: &Tensor3,
            step: RnntStep,
        | #[trigger]
            call_ensures(*self.decoder, (frame, token, state_1, state_2), Ok::<RnntStep, Error>(step))
                ==> step.0@.len() > 0
    }

    /// Expanding a path leaves at least one child.
    proof fn lemma_expansion_has_children(
        self,
        frame: Tensor3,
        t: usize,
        at: usize,
        active: Seq<RnntPath>,
        held: Seq<RnntPath>,
        advanced: Seq<RnntPath>,
        symbols: Seq<RnntPath>,
    )
        requires
            self.all_expanded(frame, t, at, active, held, advanced, symbols),
            self.answers_are_not_empty(),
            self.config.beam_size > 0,
        ensures
            advanced.len() >= held.len(),
            advanced.len() + symbols.len() >= held.len() + active.len(),
        decreases active.len(),
    {
        if active.len() > 0 {
            let (a, s, x) = choose|a: Seq<RnntPath>, s: Seq<RnntPath>, x: RnntExpansion|
                self.all_expanded(frame, t, at, active.drop_last(), held, a, s)
                    && #[trigger] self.expands(
                    frame,
                    t,
                    at,
                    active.last(),
                    x,
                    a,
                    s,
                    advanced,
                    symbols,
                );
            self.lemma_expansion_has_children(frame, t, at, active.drop_last(), held, a, s);
            let p = active.last();
            let v = choose|v: Vec<Bits>|
                v@ == x.logits && #[trigger] call_ensures(
                    *self.decoder,
                    (&frame, p.last_token, &p.state_1, &p.state_2),
                    Ok::<RnntStep, Error>((v, x.state_1, x.state_2)),
                );
            assert((v, x.state_1, x.state_2).0@.len() > 0);
            let any = |q: RnntPath| true;
            lemma_children_are(
                p,
                x,
                x.order.len(),
                self.blank_id,
                (t + 1) as usize,
                at,
                any,
                any,
            );
        }
    }

    proof fn lemma_rounds_lose_no_path(
        self,
        frame: Tensor3,
        t: usize,
        at: usize,
        n: nat,
        entered: Seq<RnntPath>,
        active: Seq<RnntPath>,
        advanced: Seq<RnntPath>,
    )
        requires
            self.symbol_rounds(frame, t, at, n, entered, active, advanced),
            self.answers_are_not_empty(),
            self.config.beam_size > 0,
            entered.len() > 0,
        ensures
            active.len() + advanced.len() > 0,
        decreases n,
    {
        if n > 0 {
            let (a, d) = choose|a: Seq<RnntPath>, d: Seq<RnntPath>|
                self.symbol_rounds(frame, t, at, (n - 1) as nat, entered, a, d)
                    && #[trigger] self.symbol_round(frame, t, at, a, d, active, advanced);
            self.lemma_rounds_lose_no_path(frame, t, at, (n - 1) as nat, entered, a, d);
            if a.len() > 0 {
                let (symbols, merged) = choose|symbols: Seq<RnntPath>, merged: Seq<RnntPath>|
                    {
                        &&& self.all_expanded(frame, t, at, a, d, advanced, symbols)
                        &&& #[trigger] rnnt_beam::merged_is(self.arithmetic, symbols, merged)
                        &&& rnnt_beam::pruned_is(self.arithmetic, merged, self.config, active)
                    };
                self.lemma_expansion_has_children(frame, t, at, a, d, advanced, symbols);
                lemma_merged_not_empty(self.arithmetic, symbols, merged);
                law_pruning_selects(self.arithmetic, merged, self.config, active);
            }
        }
    }

    /// The search never runs out of paths: where the beam may hold a path and
    /// one enters on the first frame, one is left after the last.
    pub proof fn law_beam_never_dies(
        self,
        shift: int,
        start: int,
        end: int,
        beam: Seq<RnntPath>,
        next: Seq<RnntPath>,
    )
        requires
            self.frames_are(shift, start, end, beam, next),
            0 <= start <= end <= usize::MAX,
            self.answers_are_not_empty(),
            self.config.beam_size > 0,
            exists|i: int| 0 <= i < beam.len() && (#[trigger] beam[i]).frame == start,
        ensures
            next.len() > 0,
        decreases end - start,
    {
        if start < end {
            let t = (end - 1) as usize;
            let at = (end - 1 + shift) as usize;
            let mid = choose|mid: Seq<RnntPath>|
                self.frames_are(shift, start, end - 1, beam, mid) && #[trigger] self.frame_is(
                    t,
                    at,
                    mid,
                    next,
                );
            self.law_beam_never_dies(shift, start, end - 1, beam, mid);
            assert(exists|i: int| 0 <= i < mid.len() && (#[trigger] mid[i]).frame == t) by {
                if start < end - 1 {
                    let before = choose|before: Seq<RnntPath>|
                        self.frames_are(shift, start, end - 2, beam, before)
                            && #[trigger] self.frame_is(
                            (end - 2) as usize,
                            (end - 2 + shift) as usize,
                            before,
                            mid,
                        );
                    self.lemma_frame_advances(
                        (end - 2) as usize,
                        (end - 2 + shift) as usize,
                        before,
                        mid,
                    );
                    let there = |p: RnntPath|
                        p.frame == ((end - 2) as usize + 1) as usize && p.symbols_on_frame == 0;
                    assert(there(mid[0]));
                }
            }
            let w = choose|w: RnntFrameTrace| #[trigger] self.frame_traced(t, at, mid, w, next);
            let standing = rnnt_beam::on_frame(mid, t);
            lemma_on_frame(mid, t);
            law_pruning_selects(self.arithmetic, standing, self.config, w.entered);
            self.lemma_rounds_lose_no_path(
                w.frame,
                t,
                at,
                self.config.max_symbols_per_step as nat,
                w.entered,
                w.active,
                w.advanced,
            );
            let any = |p: RnntPath| true;
            self.lemma_forced_keep(w.frame, t, w.active, w.advanced, w.all, any, any);
            lemma_merged_not_empty(self.arithmetic, w.all, w.merged);
            law_pruning_selects(self.arithmetic, w.merged, self.config, next);
        }
    }
}

/// The length-normalized scores of `beam` may come to keys that never rise.
pub open spec fn is_sorted<A: Arithmetic>(m: &A, beam: Seq<RnntPath>, penalty: Bits) -> bool {
    exists|keys: Seq<Bits>|
        {
            &&& #[trigger] rnnt_beam::keys_are(m, beam, penalty, keys)
            &&& forall|i: int, j: int|
                0 <= i < j < keys.len() ==> single::rank(#[trigger] keys[i]) >= single::rank(
                    #[trigger] keys[j],
                )
        }
}

/// Pruning sorts a beam by length-normalized score, and leaves keys different
/// that were.
pub proof fn law_pruning_sorts<A: Arithmetic>(
    m: &A,
    beam: Seq<RnntPath>,
    config: BeamConfig,
    pruned: Seq<RnntPath>,
)
    requires
        rnnt_beam::pruned_is(m, beam, config, pruned),
    ensures
        is_sorted(m, pruned, config.length_penalty),
        keys_differ(beam) ==> keys_differ(pruned),
{
    let (keys, order) = choose|keys: Seq<Bits>, order: Seq<usize>|
        {
            &&& #[trigger] rnnt_beam::keys_are(m, beam, config.length_penalty, keys)
            &&& #[trigger] ranking::is_top(keys, config.beam_size as nat, order)
            &&& pruned == ranking::pick(beam, order)
        };
    ranking::law_top_keeps_the_best(keys, config.beam_size as nat, order);
    let picked = ranking::pick(keys, order);
    assert forall|i: int| 0 <= i < pruned.len() implies arithmetic::length_normalized_score_is(
        m,
        pruned[i].score,
        pruned[i].tokens.len(),
        config.length_penalty,
        #[trigger] picked[i],
    ) by {
        let k = order[i] as int;
        assert(arithmetic::length_normalized_score_is(
            m,
            beam[k].score,
            beam[k].tokens.len(),
            config.length_penalty,
            keys[k],
        ));
    }
    assert(rnnt_beam::keys_are(m, pruned, config.length_penalty, picked));
    assert forall|i: int, j: int| 0 <= i < j < picked.len() implies single::rank(
        #[trigger] picked[i],
    ) >= single::rank(#[trigger] picked[j]) by {
        assert(picked[i] == keys[order[i] as int]);
        assert(picked[j] == keys[order[j] as int]);
    }
    if keys_differ(beam) {
        assert forall|i: int, j: int| 0 <= i < j < pruned.len() implies !rnnt_beam::same_key(
            #[trigger] pruned[i],
            #[trigger] pruned[j],
        ) by {
            assert(order[i] != order[j]);
            assert(pruned[i] == beam[order[i] as int]);
            assert(pruned[j] == beam[order[j] as int]);
            if order[i] < order[j] {
                assert(!rnnt_beam::same_key(beam[order[i] as int], beam[order[j] as int]));
            } else {
                assert(!rnnt_beam::same_key(beam[order[j] as int], beam[order[i] as int]));
            }
        }
    }
}

impl<'a, A: Arithmetic, D: Fn(&Tensor3, i32, &Tensor3, &Tensor3) -> Result<RnntStep, Error>>
    RnntContext<'a, A, D> {
    /// The hypotheses that a pass hands on all stand on the frame after it, no two
    /// of them have the same key, they are sorted by length-normalized score, and
    /// there are no more of them than the beam holds.
    pub proof fn law_survivors_are_sorted_and_differ(
        self,
        start: usize,
        end: usize,
        offset: usize,
        carried: Seq<RnntPath>,
        out: rnnt_beam::RnntBeamOutput,
    )
        requires
            self.decodes(start, end, offset, carried, out),
            start < end,
        ensures
            keys_differ(rnnt_beam::paths(out.hypotheses@)),
            is_sorted(
                self.arithmetic,
                rnnt_beam::paths(out.hypotheses@),
                self.config.length_penalty,
            ),
            out.hypotheses@.len() <= self.config.beam_size,
            forall|i: int|
                0 <= i < out.hypotheses@.len() ==> (#[trigger] out.hypotheses@[i]).frame == end,
    {
        let next = rnnt_beam::paths(out.hypotheses@);
        let shift = offset - start;
        let t = (end - 1) as usize;
        let at = (end - 1 + shift) as usize;
        let beam = choose|beam: Seq<RnntPath>|
            {
                &&& #[trigger] rnnt_beam::enters(carried, self.blank_id, start, beam)
                &&& self.frames_are(shift, start as int, end as int, beam, next)
            };
        let mid = choose|mid: Seq<RnntPath>|
            self.frames_are(shift, start as int, end - 1, beam, mid) && #[trigger] self.frame_is(
                t,
                at,
                mid,
                next,
            );
        let w = choose|w: RnntFrameTrace| #[trigger] self.frame_traced(t, at, mid, w, next);
        law_merging_leaves_one_of_each_key(self.arithmetic, w.all, w.merged);
        law_pruning_sorts(self.arithmetic, w.merged, self.config, next);
        law_pruning_selects(self.arithmetic, w.merged, self.config, next);
        self.lemma_frame_advances(t, at, mid, next);
        let there = |p: RnntPath| p.frame == (t + 1) as usize && p.symbols_on_frame == 0;
        assert forall|i: int| 0 <= i < out.hypotheses@.len() implies (
        #[trigger] out.hypotheses@[i]).frame == end by {
            assert(there(next[i]));
        }
    }

    proof fn lemma_nothing_stays_nothing(
        self,
        frame: Tensor3,
        t: usize,
        at: usize,
        n: nat,
        entered: Seq<RnntPath>,
        active: Seq<RnntPath>,
        advanced: Seq<RnntPath>,
    )
        requires
            self.symbol_rounds(frame, t, at, n, entered, active, advanced),
            entered.len() == 0,
        ensures
            active.len() == 0,
            advanced.len() == 0,
        decreases n,
    {
        if n > 0 {
            let (a, d) = choose|a: Seq<RnntPath>, d: Seq<RnntPath>|
                self.symbol_rounds(frame, t, at, (n - 1) as nat, entered, a, d)
                    && #[trigger] self.symbol_round(frame, t, at, a, d, active, advanced);
            self.lemma_nothing_stays_nothing(frame, t, at, (n - 1) as nat, entered, a, d);
        }
    }

    proof fn lemma_no_root_no_path(
        self,
        shift: int,
        start: int,
        end: int,
        beam: Seq<RnntPath>,
        next: Seq<RnntPath>,
    )
        requires
            self.frames_are(shift, start, end, beam, next),
            0 <= start < end <= usize::MAX,
            self.config.beam_size == 0 || rnnt_beam::on_frame(beam, start as usize).len() == 0,
        ensures
            next.len() == 0,
        decreases end - start,
    {
        let t = (end - 1) as usize;
        let at = (end - 1 + shift) as usize;
        let mid = choose|mid: Seq<RnntPath>|
            self.frames_are(shift, start, end - 1, beam, mid) && #[trigger] self.frame_is(
                t,
                at,
                mid,
                next,
            );
        if start < end - 1 {
            self.lemma_no_root_no_path(shift, start, end - 1, beam, mid);
        }
        let w = choose|w: RnntFrameTrace| #[trigger] self.frame_traced(t, at, mid, w, next);
        law_pruning_selects(
            self.arithmetic,
            rnnt_beam::on_frame(mid, t),
            self.config,
            w.entered,
        );
        self.lemma_nothing_stays_nothing(
            w.frame,
            t,
            at,
            self.config.max_symbols_per_step as nat,
            w.entered,
            w.active,
            w.advanced,
        );
        law_pruning_selects(self.arithmetic, w.merged, self.config, next);
    }

    /// A pass hands on no hypothesis exactly where the beam holds none, or where
    /// hypotheses were carried in and none of them stands on the first frame. The
    /// decoder must answer with some logits for that.
    pub proof fn law_survivors_are_lacking_only_without_a_root(
        self,
        start: usize,
        end: usize,
        offset: usize,
        carried: Seq<RnntPath>,
        out: rnnt_beam::RnntBeamOutput,
    )
        requires
            self.decodes(start, end, offset, carried, out),
            start < end,
            self.answers_are_not_empty(),
        ensures
            out.hypotheses@.len() == 0 <==> {
                ||| self.config.beam_size == 0
                ||| carried.len() > 0 && forall|i: int|
                    0 <= i < carried.len() ==> (#[trigger] carried[i]).frame != start
            },
    {
        let next = rnnt_beam::paths(out.hypotheses@);
        let shift = offset - start;
        let beam = choose|beam: Seq<RnntPath>|
            {
                &&& #[trigger] rnnt_beam::enters(carried, self.blank_id, start, beam)
                &&& self.frames_are(shift, start as int, end as int, beam, next)
            };
        let rootless = carried.len() > 0 && forall|i: int|
            0 <= i < carried.len() ==> (#[trigger] carried[i]).frame != start;
        if self.config.beam_size == 0 || rootless {
            if rootless {
                lemma_on_frame(beam, start);
                let standing = rnnt_beam::on_frame(beam, start);
                if standing.len() > 0 {
                    assert(beam.contains(standing[0]));
                    let k = choose|k: int| 0 <= k < beam.len() && beam[k] == standing[0];
                    assert(carried[k].frame == beam[k].frame);
                }
            }
            self.lemma_no_root_no_path(shift, start as int, end as int, beam, next);
        } else {
            if carried.len() > 0 {
                let k = choose|k: int| 0 <= k < carried.len() && (#[trigger] carried[k]).frame == start;
                assert(beam[k].frame == start);
            } else {
                assert(beam[0].frame == start);
            }
            self.law_beam_never_dies(shift, start as int, end as int, beam, next);
        }
    }

    /// A decoder that always answers with a logit for the blank does so wherever a
    /// path may have to be moved on by a blank.
    pub proof fn law_full_answers_score_blanks(
        self,
        start: usize,
        end: usize,
        offset: usize,
        carried: Seq<RnntPath>,
    )
        requires
            forall|
                frame: &Tensor3,
                token: i32,
                state_1: &Tensor3,
                state_2: &Tensor3,
                step: RnntStep,
            | #[trigger]
                call_ensures(
                    *self.decoder,
                    (frame, token, state_1, state_2),
                    Ok::<RnntStep, Error>(step),
                ) ==> self.blank_id < step.0@.len(),
        ensures
            self.scores_blanks(start, end, offset, carried),
    {
    }
}

} // verus!
