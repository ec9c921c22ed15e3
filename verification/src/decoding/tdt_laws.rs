//! What TDT beam search keeps, from round to round.
use vstd::prelude::*;
use crate::arithmetic;
use crate::arithmetic::Arithmetic;
use crate::decoding::tdt_beam;
use crate::decoding::tdt_beam::{TdtBeamOutput, TdtContext, TdtExpansion, TdtPath, TdtStep};
use crate::decoding::BeamConfig;
use crate::error::Error;
use crate::ranking;
use crate::single::Bits;
use crate::tensor::Tensor3;

verus! {

/// Every path of `beam` is `good`.
pub open spec fn all_are(beam: Seq<TdtPath>, good: spec_fn(TdtPath) -> bool) -> bool {
    forall|i: int| 0 <= i < beam.len() ==> #[trigger] good(beam[i])
}

/// The path with another score.
pub open spec fn rescored(p: TdtPath, score: Bits) -> TdtPath {
    TdtPath { score, ..p }
}

/// `good` does not read the score.
pub open spec fn ignores_score(good: spec_fn(TdtPath) -> bool) -> bool {
    forall|p: TdtPath, score: Bits| #[trigger] good(p) ==> good(#[trigger] rescored(p, score))
}

/// Pruning keeps at most `beam_size` paths, all of them from the beam, and does
/// not empty a beam unless `beam_size` is zero.
pub proof fn law_pruning_selects<A: Arithmetic>(
    m: &A,
    beam: Seq<TdtPath>,
    config: BeamConfig,
    pruned: Seq<TdtPath>,
)
    requires
        tdt_beam::pruned_is(m, beam, config, pruned),
    ensures
        pruned.len() == ranking::at_most(config.beam_size as nat, beam.len()),
        forall|i: int| 0 <= i < pruned.len() ==> beam.contains(#[trigger] pruned[i]),
{
    let (keys, order) = choose|keys: Seq<Bits>, order: Seq<usize>|
        {
            &&& #[trigger] tdt_beam::keys_are(m, beam, config.length_penalty, keys)
            &&& #[trigger] ranking::is_top(keys, config.beam_size as nat, order)
            &&& pruned == ranking::pick(beam, order)
        };
    assert forall|i: int| 0 <= i < pruned.len() implies beam.contains(#[trigger] pruned[i]) by {
        assert(pruned[i] == beam[order[i] as int]);
    }
}

/// A property of every path of the beam survives pruning.
pub proof fn lemma_pruned_keeps<A: Arithmetic>(
    m: &A,
    beam: Seq<TdtPath>,
    config: BeamConfig,
    pruned: Seq<TdtPath>,
    good: spec_fn(TdtPath) -> bool,
)
    requires
        tdt_beam::pruned_is(m, beam, config, pruned),
        all_are(beam, good),
    ensures
        all_are(pruned, good),
{
    law_pruning_selects(m, beam, config, pruned);
    assert forall|i: int| 0 <= i < pruned.len() implies #[trigger] good(pruned[i]) by {
        let j = choose|j: int| 0 <= j < beam.len() && beam[j] == pruned[i];
        assert(good(beam[j]));
    }
}

/// No two paths of `beam` have the same key.
pub open spec fn keys_differ(beam: Seq<TdtPath>) -> bool {
    forall|i: int, j: int|
        0 <= i < j < beam.len() ==> !tdt_beam::same_key(#[trigger] beam[i], #[trigger] beam[j])
}

/// `p` is a path of `all` but for its score.
pub open spec fn stems_from(p: TdtPath, all: Seq<TdtPath>) -> bool {
    exists|j: int| 0 <= j < all.len() && p == rescored(#[trigger] all[j], p.score)
}

/// The key of `p` occurs in `beam`.
pub open spec fn has_key_of(beam: Seq<TdtPath>, p: TdtPath) -> bool {
    exists|i: int| 0 <= i < beam.len() && tdt_beam::same_key(#[trigger] beam[i], p)
}

proof fn lemma_absorbing<A: Arithmetic>(
    m: &A,
    held: Seq<TdtPath>,
    p: TdtPath,
    at: int,
    score: Bits,
    next: Seq<TdtPath>,
)
    requires
        tdt_beam::absorbs(m, held, p, at, score, next),
        keys_differ(held),
    ensures
        keys_differ(next),
        has_key_of(next, p),
        forall|i: int|
            0 <= i < next.len() ==> {
                ||| i < held.len() && #[trigger] next[i] == rescored(held[i], next[i].score)
                ||| next[i] == rescored(p, next[i].score)
            },
        forall|i: int|
            0 <= i < held.len() ==> tdt_beam::same_key(#[trigger] next[i], held[i]),
        held.len() <= next.len(),
{
    if at < held.len() {
        assert(tdt_beam::same_key(next[at], p));
        assert forall|i: int, j: int| 0 <= i < j < next.len() implies !tdt_beam::same_key(
            #[trigger] next[i],
            #[trigger] next[j],
        ) by {
            assert(!tdt_beam::same_key(held[i], held[j]));
        }
    } else {
        assert(tdt_beam::same_key(next[held.len() as int], p));
        assert forall|i: int, j: int| 0 <= i < j < next.len() implies !tdt_beam::same_key(
            #[trigger] next[i],
            #[trigger] next[j],
        ) by {
            assert(next[i] == held[i]);
            if j < held.len() {
                assert(next[j] == held[j]);
            }
        }
    }
}

/// After a merging no two paths have the same key, every merged path is one of
/// the given paths but for its score, and the key of every given path is still
/// there.
pub proof fn law_merging_leaves_one_of_each_key<A: Arithmetic>(
    m: &A,
    all: Seq<TdtPath>,
    merged: Seq<TdtPath>,
)
    requires
        tdt_beam::merged_is(m, all, merged),
    ensures
        keys_differ(merged),
        forall|i: int| 0 <= i < merged.len() ==> #[trigger] stems_from(merged[i], all),
        forall|j: int| 0 <= j < all.len() ==> has_key_of(merged, #[trigger] all[j]),
    decreases all.len(),
{
    if all.len() > 0 {
        let front = all.drop_last();
        let p = all.last();
        let (held, at, score) = choose|held: Seq<TdtPath>, at: int, score: Bits|
            tdt_beam::merged_is(m, front, held) && #[trigger] tdt_beam::absorbs(
                m,
                held,
                p,
                at,
                score,
                merged,
            );
        law_merging_leaves_one_of_each_key(m, front, held);
        lemma_absorbing(m, held, p, at, score, merged);
        assert forall|i: int| 0 <= i < merged.len() implies #[trigger] stems_from(
            merged[i],
            all,
        ) by {
            if i < held.len() && merged[i] == rescored(held[i], merged[i].score) {
                assert(stems_from(held[i], front));
                let j = choose|j: int|
                    0 <= j < front.len() && held[i] == rescored(#[trigger] front[j], held[i].score);
                assert(merged[i] == rescored(all[j], merged[i].score));
            } else {
                assert(merged[i] == rescored(all[all.len() - 1], merged[i].score));
            }
        }
        assert forall|j: int| 0 <= j < all.len() implies has_key_of(merged, #[trigger] all[j]) by {
            if j < front.len() {
                assert(has_key_of(held, front[j]));
                let i = choose|i: int|
                    0 <= i < held.len() && tdt_beam::same_key(#[trigger] held[i], front[j]);
                assert(tdt_beam::same_key(merged[i], all[j]));
            }
        }
    }
}

/// A property of every given path that does not read the score survives merging.
pub proof fn lemma_merged_keeps<A: Arithmetic>(
    m: &A,
    all: Seq<TdtPath>,
    merged: Seq<TdtPath>,
    good: spec_fn(TdtPath) -> bool,
)
    requires
        tdt_beam::merged_is(m, all, merged),
        all_are(all, good),
        ignores_score(good),
    ensures
        all_are(merged, good),
{
    law_merging_leaves_one_of_each_key(m, all, merged);
    assert forall|i: int| 0 <= i < merged.len() implies #[trigger] good(merged[i]) by {
        assert(stems_from(merged[i], all));
        let j = choose|j: int|
            0 <= j < all.len() && merged[i] == rescored(#[trigger] all[j], merged[i].score);
        assert(good(all[j]));
        assert(good(rescored(all[j], merged[i].score)));
    }
}

/// What is sorted out of a beam is in it, on the right side of the last frame.
pub proof fn lemma_sorted_out(beam: Seq<TdtPath>, time_steps: usize, done: bool)
    ensures
        forall|i: int|
            0 <= i < tdt_beam::sorted_out(beam, time_steps, done).len() ==> {
                &&& beam.contains(#[trigger] tdt_beam::sorted_out(beam, time_steps, done)[i])
                &&& (tdt_beam::sorted_out(beam, time_steps, done)[i].step >= time_steps) == done
            },
    decreases beam.len(),
{
    if beam.len() > 0 {
        let front = beam.drop_last();
        lemma_sorted_out(front, time_steps, done);
        let rest = tdt_beam::sorted_out(front, time_steps, done);
        let whole = tdt_beam::sorted_out(beam, time_steps, done);
        assert forall|i: int| 0 <= i < whole.len() implies {
            &&& beam.contains(#[trigger] whole[i])
            &&& (whole[i].step >= time_steps) == done
        } by {
            if i < rest.len() {
                assert(whole[i] == rest[i]);
                let j = choose|j: int| 0 <= j < front.len() && front[j] == rest[i];
                assert(beam[j] == whole[i]);
            } else {
                assert(beam[beam.len() - 1] == whole[i]);
            }
        }
    }
}

/// A property of every path of a beam is one of those sorted out.
pub proof fn lemma_sorted_out_keeps(
    beam: Seq<TdtPath>,
    time_steps: usize,
    done: bool,
    good: spec_fn(TdtPath) -> bool,
)
    requires
        all_are(beam, good),
    ensures
        all_are(tdt_beam::sorted_out(beam, time_steps, done), good),
{
    let whole = tdt_beam::sorted_out(beam, time_steps, done);
    lemma_sorted_out(beam, time_steps, done);
    assert forall|i: int| 0 <= i < whole.len() implies #[trigger] good(whole[i]) by {
        let j = choose|j: int| 0 <= j < beam.len() && beam[j] == whole[i];
        assert(good(beam[j]));
    }
}

/// The durations of the table are its indices, so that an index can stand for
/// its duration.
pub proof fn law_durations_are_their_indices(class: usize)
    requires
        class < 5,
    ensures
        tdt_beam::TDT_DURATIONS@[class as int] == class,
{
}

impl<'a, A: Arithmetic, D: Fn(&Tensor3, i32, &Tensor3, &Tensor3) -> Result<TdtStep, Error>>
    TdtContext<'a, A, D> {
    /// How a property of active paths passes to their children.
    pub open spec fn passes_on(
        self,
        on: spec_fn(TdtPath) -> bool,
        next: spec_fn(TdtPath) -> bool,
    ) -> bool {
        forall|
            p: TdtPath,
            token: usize,
            duration: usize,
            score: Bits,
            state_1: Tensor3,
            state_2: Tensor3,
        |
            on(p) && p.step < self.time_steps && duration <= 4 ==> next(
                #[trigger] tdt_beam::child(
                    p,
                    token,
                    duration,
                    score,
                    state_1,
                    state_2,
                    self.blank_id,
                    self.config.max_symbols_per_step,
                ),
            )
    }

    proof fn lemma_children_are(
        self,
        p: TdtPath,
        x: TdtExpansion,
        n: nat,
        on: spec_fn(TdtPath) -> bool,
        next: spec_fn(TdtPath) -> bool,
    )
        requires
            self.passes_on(on, next),
            on(p),
            p.step < self.time_steps,
            n > 0 ==> forall|j: int| 0 <= j < x.durations.len() ==> #[trigger] x.durations[j] < 5,
        ensures
            all_are(self.children_of(p, x, n), next),
        decreases n,
    {
        if n > 0 {
            self.lemma_children_are(p, x, (n - 1) as nat, on, next);
            let rest = self.children_of(p, x, (n - 1) as nat);
            let row = self.row_of(p, x, n - 1, x.scores[n - 1], x.durations.len());
            let whole = self.children_of(p, x, n);
            assert forall|i: int| 0 <= i < whole.len() implies #[trigger] next(whole[i]) by {
                if i < rest.len() {
                    assert(whole[i] == rest[i]);
                } else {
                    let j = i - rest.len();
                    assert(whole[i] == row[j]);
                    assert(x.durations[j] < 5);
                    law_durations_are_their_indices(x.durations[j]);
                }
            }
        }
    }

    /// A property passes through the expansion of every active path.
    pub proof fn lemma_expanded_keeps(
        self,
        active: Seq<TdtPath>,
        all: Seq<TdtPath>,
        on: spec_fn(TdtPath) -> bool,
        next: spec_fn(TdtPath) -> bool,
    )
        requires
            self.all_expanded(active, all),
            all_are(active, on),
            self.passes_on(on, next),
        ensures
            all_are(all, next),
        decreases active.len(),
    {
        if active.len() > 0 {
            let (held, frame, x) = choose|held: Seq<TdtPath>, frame: Tensor3, x: TdtExpansion|
                self.all_expanded(active.drop_last(), held) && #[trigger] self.expands(
                    frame,
                    active.last(),
                    x,
                    held,
                    all,
                );
            let front = active.drop_last();
            assert forall|i: int| 0 <= i < front.len() implies #[trigger] on(front[i]) by {
                assert(on(active[i]));
            }
            self.lemma_expanded_keeps(front, held, on, next);
            let p = active.last();
            assert(on(active[active.len() - 1]));
            if p.step < self.time_steps {
                self.lemma_children_are(p, x, x.tokens.len(), on, next);
                let children = self.children_of(p, x, x.tokens.len());
                assert forall|i: int| 0 <= i < all.len() implies #[trigger] next(all[i]) by {
                    if i < held.len() {
                        assert(all[i] == held[i]);
                    } else {
                        assert(all[i] == children[i - held.len()]);
                    }
                }
            }
        }
    }

    /// A property passes through a round.
    pub proof fn lemma_round_keeps(
        self,
        held: Seq<TdtPath>,
        active: Seq<TdtPath>,
        finished: Seq<TdtPath>,
        next_active: Seq<TdtPath>,
        on: spec_fn(TdtPath) -> bool,
        next: spec_fn(TdtPath) -> bool,
    )
        requires
            self.round_is(held, active, finished, next_active),
            all_are(active, on),
            all_are(held, next),
            self.passes_on(on, next),
            ignores_score(next),
        ensures
            all_are(finished, next),
            all_are(next_active, next),
            all_are(next_active, |p: TdtPath| p.step < self.time_steps),
            next_active.len() <= self.config.beam_size,
    {
        let (all, merged) = choose|all: Seq<TdtPath>, merged: Seq<TdtPath>|
            {
                &&& self.all_expanded(active, all)
                &&& #[trigger] tdt_beam::merged_is(self.arithmetic, all, merged)
                &&& finished == held + tdt_beam::sorted_out(merged, self.time_steps, true)
                &&& tdt_beam::pruned_is(
                    self.arithmetic,
                    tdt_beam::sorted_out(merged, self.time_steps, false),
                    self.config,
                    next_active,
                )
            };
        self.lemma_expanded_keeps(active, all, on, next);
        lemma_merged_keeps(self.arithmetic, all, merged, next);
        let done = tdt_beam::sorted_out(merged, self.time_steps, true);
        let left = tdt_beam::sorted_out(merged, self.time_steps, false);
        lemma_sorted_out_keeps(merged, self.time_steps, true, next);
        lemma_sorted_out_keeps(merged, self.time_steps, false, next);
        assert forall|i: int| 0 <= i < finished.len() implies #[trigger] next(finished[i]) by {
            if i < held.len() {
                assert(finished[i] == held[i]);
            } else {
                assert(finished[i] == done[i - held.len()]);
            }
        }
        lemma_pruned_keeps(self.arithmetic, left, self.config, next_active, next);
        let unfinished = |p: TdtPath| p.step < self.time_steps;
        lemma_sorted_out(merged, self.time_steps, false);
        assert forall|i: int| 0 <= i < left.len() implies #[trigger] unfinished(left[i]) by {}
        lemma_pruned_keeps(self.arithmetic, left, self.config, next_active, unfinished);
        law_pruning_selects(self.arithmetic, left, self.config, next_active);
    }

    /// A property of active paths passes through a round, to the paths that are
    /// active after it.
    pub proof fn lemma_active_keep(
        self,
        held: Seq<TdtPath>,
        active: Seq<TdtPath>,
        finished: Seq<TdtPath>,
        next_active: Seq<TdtPath>,
        on: spec_fn(TdtPath) -> bool,
        next: spec_fn(TdtPath) -> bool,
    )
        requires
            self.round_is(held, active, finished, next_active),
            all_are(active, on),
            self.passes_on(on, next),
            ignores_score(next),
        ensures
            all_are(next_active, next),
            all_are(next_active, |p: TdtPath| p.step < self.time_steps),
            next_active.len() <= self.config.beam_size,
    {
        let (all, merged) = choose|all: Seq<TdtPath>, merged: Seq<TdtPath>|
            {
                &&& self.all_expanded(active, all)
                &&& #[trigger] tdt_beam::merged_is(self.arithmetic, all, merged)
                &&& finished == held + tdt_beam::sorted_out(merged, self.time_steps, true)
                &&& tdt_beam::pruned_is(
                    self.arithmetic,
                    tdt_beam::sorted_out(merged, self.time_steps, false),
                    self.config,
                    next_active,
                )
            };
        let none = Seq::<TdtPath>::empty();
        let done = none + tdt_beam::sorted_out(merged, self.time_steps, true);
        assert(self.round_is(none, active, done, next_active));
        self.lemma_round_keeps(none, active, done, next_active, on, next);
    }
}

/// The tokens of `p` are laid out on the frames in order: no blank among them,
/// each on one of the `time_steps` frames and with a duration of the table, none
/// before the end of an earlier one, and `p` standing where the last one ends or
/// later. The end of a token counts only where `max_symbols` is not zero: with
/// zero, every expansion moves on by exactly one frame, whatever its duration.
pub open spec fn laid_out(
    p: TdtPath,
    blank_id: usize,
    time_steps: usize,
    max_symbols: usize,
) -> bool {
    &&& forall|i: int|
        0 <= i < p.tokens.len() ==> {
            &&& (#[trigger] p.tokens[i]).0 != blank_id
            &&& p.tokens[i].1 < time_steps
            &&& p.tokens[i].2 <= 4
            &&& token_end(p.tokens[i], max_symbols) <= p.step
        }
    &&& forall|i: int, j: int|
        0 <= i < j < p.tokens.len() ==> token_end(#[trigger] p.tokens[i], max_symbols) <= (
        #[trigger] p.tokens[j]).1
}

/// Most tokens that a frame can have: `max_symbols`, and one where that is zero.
pub open spec fn frame_cap(max_symbols: usize) -> int {
    if max_symbols > 0 {
        max_symbols as int
    } else {
        1
    }
}

/// No frame of `p` has more tokens than `max_symbols` allows, and of those on
/// the frame that `p` stands on, none was emitted before the count of expansions
/// without moving on began.
pub open spec fn is_capped(p: TdtPath, max_symbols: usize) -> bool {
    &&& forall|i: int| 0 <= i < p.tokens.len() - p.stuck ==> (#[trigger] p.tokens[i]).1 < p.step
    &&& forall|i: int, j: int|
        0 <= i && i + frame_cap(max_symbols) <= j < p.tokens.len() ==> (
        #[trigger] p.tokens[i]).1 < (#[trigger] p.tokens[j]).1
}

/// The frame that a token ends on.
pub open spec fn token_end(token: (usize, usize, usize), max_symbols: usize) -> int {
    if max_symbols > 0 {
        token.1 + token.2
    } else {
        token.1 as int
    }
}

/// The decoder input of `p` is its last token, and the blank before the first.
pub open spec fn is_fed_its_last_token(p: TdtPath, blank_id: usize) -> bool {
    p.last_token == if p.tokens.len() == 0 {
        blank_id as i32
    } else {
        p.tokens.last().0 as i32
    }
}

impl<'a, A: Arithmetic, D: Fn(&Tensor3, i32, &Tensor3, &Tensor3) -> Result<TdtStep, Error>>
    TdtContext<'a, A, D> {
    /// What every path of the search fulfils.
    pub open spec fn is_sound(self) -> spec_fn(TdtPath) -> bool {
        |p: TdtPath|
            {
                &&& laid_out(p, self.blank_id, self.time_steps, self.config.max_symbols_per_step)
                &&& is_capped(p, self.config.max_symbols_per_step)
                &&& is_fed_its_last_token(p, self.blank_id)
                &&& p.stuck < self.config.max_symbols_per_step || p.stuck == 0
            }
    }

    proof fn lemma_soundness_passes_on(self)
        requires
            self.time_steps + 4 <= usize::MAX,
        ensures
            self.passes_on(self.is_sound(), self.is_sound()),
    {
        let max = self.config.max_symbols_per_step;
        let good = self.is_sound();
        assert forall|
            p: TdtPath,
            token: usize,
            duration: usize,
            score: Bits,
            state_1: Tensor3,
            state_2: Tensor3,
        | good(p) && p.step < self.time_steps && duration <= 4 implies good(
            #[trigger] tdt_beam::child(
                p,
                token,
                duration,
                score,
                state_1,
                state_2,
                self.blank_id,
                max,
            ),
        ) by {
            let q = tdt_beam::child(
                p,
                token,
                duration,
                score,
                state_1,
                state_2,
                self.blank_id,
                max,
            );
            assert(p.step <= q.step);
            assert(max > 0 ==> p.step + duration <= q.step);
            assert forall|i: int| 0 <= i < q.tokens.len() implies {
                &&& (#[trigger] q.tokens[i]).0 != self.blank_id
                &&& q.tokens[i].1 < self.time_steps
                &&& q.tokens[i].2 <= 4
                &&& token_end(q.tokens[i], max) <= q.step
            } by {
                if i < p.tokens.len() {
                    assert(q.tokens[i] == p.tokens[i]);
                }
            }
            assert forall|i: int, j: int| 0 <= i < j < q.tokens.len() implies token_end(
                #[trigger] q.tokens[i],
                max,
            ) <= (#[trigger] q.tokens[j]).1 by {
                assert(q.tokens[i] == p.tokens[i]);
                if j < p.tokens.len() {
                    assert(q.tokens[j] == p.tokens[j]);
                }
            }
            assert(is_capped(q, max)) by {
                assert forall|i: int| 0 <= i < q.tokens.len() - q.stuck implies (
                #[trigger] q.tokens[i]).1 < q.step by {
                    if i < p.tokens.len() {
                        assert(q.tokens[i] == p.tokens[i]);
                        assert(token_end(p.tokens[i], max) <= p.step);
                    }
                }
                assert forall|i: int, j: int|
                    0 <= i && i + frame_cap(max) <= j < q.tokens.len() implies (
                #[trigger] q.tokens[i]).1 < (#[trigger] q.tokens[j]).1 by {
                    assert(q.tokens[i] == p.tokens[i]);
                    if j < p.tokens.len() {
                        assert(q.tokens[j] == p.tokens[j]);
                    }
                }
            }
        }
    }

    /// Every path that the search has finished or still follows is sound, the
    /// active beam holds at most `beam_size` paths after the first round, and
    /// finished are exactly those past the last frame.
    pub proof fn law_paths_are_sound(
        self,
        room: usize,
        n: nat,
        seed: TdtPath,
        finished: Seq<TdtPath>,
        active: Seq<TdtPath>,
    )
        requires
            self.time_steps + 4 <= usize::MAX,
            tdt_beam::is_seed(seed, self.blank_id),
            self.rounds_are(room, n, seed, finished, active),
        ensures
            all_are(finished, self.is_sound()),
            all_are(active, self.is_sound()),
            forall|i: int|
                0 <= i < finished.len() ==> (#[trigger] finished[i]).step >= self.time_steps,
            n > 0 ==> {
                &&& active.len() <= self.config.beam_size
                &&& forall|i: int|
                    0 <= i < active.len() ==> (#[trigger] active[i]).step < self.time_steps
            },
        decreases n,
    {
        if n > 0 {
            let (f, a) = choose|f: Seq<TdtPath>, a: Seq<TdtPath>|
                {
                    &&& self.rounds_are(room, (n - 1) as nat, seed, f, a)
                    &&& self.goes_on(room, f, a)
                    &&& #[trigger] self.round_is(f, a, finished, active)
                };
            self.law_paths_are_sound(room, (n - 1) as nat, seed, f, a);
            self.lemma_soundness_passes_on();
            let good = self.is_sound();
            assert(ignores_score(good)) by {
                assert forall|p: TdtPath, score: Bits| #[trigger] good(p) implies good(
                    #[trigger] rescored(p, score),
                ) by {}
            }
            self.lemma_round_keeps(f, a, finished, active, good, good);
            let unfinished = |p: TdtPath| p.step < self.time_steps;
            assert forall|i: int| 0 <= i < active.len() implies (#[trigger] active[i]).step
                < self.time_steps by {
                assert(unfinished(active[i]));
            }
            let (all, merged) = choose|all: Seq<TdtPath>, merged: Seq<TdtPath>|
                {
                    &&& self.all_expanded(a, all)
                    &&& #[trigger] tdt_beam::merged_is(self.arithmetic, all, merged)
                    &&& finished == f + tdt_beam::sorted_out(merged, self.time_steps, true)
                    &&& tdt_beam::pruned_is(
                        self.arithmetic,
                        tdt_beam::sorted_out(merged, self.time_steps, false),
                        self.config,
                        active,
                    )
                };
            lemma_sorted_out(merged, self.time_steps, true);
            assert forall|i: int| 0 <= i < finished.len() implies (#[trigger] finished[i]).step
                >= self.time_steps by {
                if i < f.len() {
                    assert(finished[i] == f[i]);
                } else {
                    assert(finished[i] == tdt_beam::sorted_out(merged, self.time_steps, true)[i
                        - f.len()]);
                }
            }
        }
    }

    /// The output is well laid out: the three lists have the same length, no
    /// token is blank, frames and durations are in range, no token starts before
    /// an earlier one ends, and no frame has more tokens than allowed.
    pub proof fn law_output_is_laid_out(self, out: TdtBeamOutput)
        requires
            self.time_steps + 4 <= usize::MAX,
            self.decodes(out),
        ensures
            out.tokens@.len() == out.frame_indices@.len(),
            out.tokens@.len() == out.durations@.len(),
            forall|i: int|
                0 <= i < out.tokens@.len() ==> {
                    &&& #[trigger] out.tokens@[i] != self.blank_id
                    &&& out.frame_indices@[i] < self.time_steps
                    &&& out.durations@[i] <= 4
                },
            forall|i: int, j: int|
                0 <= i < j < out.tokens@.len() ==> #[trigger] out.frame_indices@[i] <= (
                #[trigger] out.frame_indices@[j]),
            self.config.max_symbols_per_step > 0 ==> forall|i: int, j: int|
                0 <= i < j < out.tokens@.len() ==> #[trigger] out.frame_indices@[i]
                    + out.durations@[i] <= (#[trigger] out.frame_indices@[j]),
            forall|i: int, j: int|
                0 <= i && i + frame_cap(self.config.max_symbols_per_step) <= j
                    < out.tokens@.len() ==> #[trigger] out.frame_indices@[i] < (
                #[trigger] out.frame_indices@[j]),
            self.time_steps == 0 ==> out.tokens@.len() == 0,
    {
        let (finished, active, best) = choose|
            finished: Seq<TdtPath>,
            active: Seq<TdtPath>,
            best: Option<TdtPath>,
        |
            {
                &&& #[trigger] self.ends_with(finished, active)
                &&& #[trigger] tdt_beam::best_is(
                    self.arithmetic,
                    finished + active,
                    self.config.length_penalty,
                    best,
                )
                &&& tdt_beam::gives(best, out)
            };
        let (room, n, seed) = choose|room: usize, n: nat, seed: TdtPath|
            {
                &&& arithmetic::scaled_count_is(
                    self.arithmetic,
                    self.config.beam_size,
                    self.config.patience,
                    room,
                )
                &&& #[trigger] tdt_beam::is_seed(seed, self.blank_id)
                &&& #[trigger] self.rounds_are(room, n, seed, finished, active)
                &&& !self.goes_on(room, finished, active)
            };
        self.law_paths_are_sound(room, n, seed, finished, active);
        let all = finished + active;
        if all.len() > 0 {
            let keys = choose|keys: Seq<Bits>|
                {
                    &&& #[trigger] tdt_beam::keys_are(
                        self.arithmetic,
                        all,
                        self.config.length_penalty,
                        keys,
                    )
                    &&& best == Some(all[ranking::last_max(keys)])
                };
            ranking::lemma_last_max_bounds(keys);
            let k = ranking::last_max(keys);
            let good = self.is_sound();
            if k < finished.len() {
                assert(good(finished[k]));
            } else {
                assert(good(active[k - finished.len()]));
            }
            let p = best->0;
            assert(good(p));
            assert forall|i: int| 0 <= i < out.tokens@.len() implies {
                &&& #[trigger] out.tokens@[i] != self.blank_id
                &&& out.frame_indices@[i] < self.time_steps
                &&& out.durations@[i] <= 4
            } by {
                assert(p.tokens[i].0 != self.blank_id);
            }
            assert forall|i: int, j: int| 0 <= i < j < out.tokens@.len() implies token_end(
                p.tokens[i],
                self.config.max_symbols_per_step,
            ) <= p.tokens[j].1 && #[trigger] out.frame_indices@[i] == p.tokens[i].1
                && #[trigger] out.frame_indices@[j] == p.tokens[j].1 && out.durations@[i]
                == p.tokens[i].2 by {}
            assert forall|i: int, j: int|
                0 <= i && i + frame_cap(self.config.max_symbols_per_step) <= j
                    < out.tokens@.len() implies #[trigger] out.frame_indices@[i] < (
            #[trigger] out.frame_indices@[j]) by {
                assert(p.tokens[i].1 < p.tokens[j].1);
            }
            if self.time_steps == 0 && out.tokens@.len() > 0 {
                assert(p.tokens[0].1 < self.time_steps);
            }
        }
    }

    /// Where the pool of finished paths has no room, nothing is decoded.
    pub proof fn law_no_room_no_tokens(self, out: TdtBeamOutput)
        requires
            self.decodes(out),
            forall|room: usize| #[trigger]
                arithmetic::scaled_count_is(
                    self.arithmetic,
                    self.config.beam_size,
                    self.config.patience,
                    room,
                ) ==> room == 0,
        ensures
            out.tokens@.len() == 0,
            out.frame_indices@.len() == 0,
            out.durations@.len() == 0,
    {
        let (finished, active, best) = choose|
            finished: Seq<TdtPath>,
            active: Seq<TdtPath>,
            best: Option<TdtPath>,
        |
            {
                &&& #[trigger] self.ends_with(finished, active)
                &&& #[trigger] tdt_beam::best_is(
                    self.arithmetic,
                    finished + active,
                    self.config.length_penalty,
                    best,
                )
                &&& tdt_beam::gives(best, out)
            };
        let (room, n, seed) = choose|room: usize, n: nat, seed: TdtPath|
            {
                &&& arithmetic::scaled_count_is(
                    self.arithmetic,
                    self.config.beam_size,
                    self.config.patience,
                    room,
                )
                &&& #[trigger] tdt_beam::is_seed(seed, self.blank_id)
                &&& #[trigger] self.rounds_are(room, n, seed, finished, active)
                &&& !self.goes_on(room, finished, active)
            };
        assert(n == 0);
        let all = finished + active;
        let keys = choose|keys: Seq<Bits>|
            {
                &&& #[trigger] tdt_beam::keys_are(
                    self.arithmetic,
                    all,
                    self.config.length_penalty,
                    keys,
                )
                &&& best == Some(all[ranking::last_max(keys)])
            };
        assert(keys.len() == 1);
        assert(best == Some(seed));
    }

    /// No more than five duration logits are always known: every class that can
    /// be taken up is in the table.
    pub proof fn law_five_durations_are_known(
        self,
        token_logits: Seq<Bits>,
        duration_logits: Seq<Bits>,
    )
        requires
            duration_logits.len() <= 5,
        ensures
            self.knows_durations(token_logits, duration_logits),
    {
    }
}

} // verus!
