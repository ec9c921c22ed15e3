//! Bounds on TDT beam search: how many rounds it takes, and which tokens it emits.
use vstd::prelude::*;
use crate::arithmetic;
use crate::arithmetic::Arithmetic;
use crate::decoding::tdt_beam;
use crate::decoding::tdt_beam::{TdtBeamOutput, TdtContext, TdtExpansion, TdtPath, TdtStep};
use crate::decoding::tdt_laws;
use crate::decoding::tdt_laws::all_are;
use crate::error::Error;
use crate::ranking;
use crate::single::Bits;
use crate::tensor::Tensor3;

verus! {

/// A path that has taken no more than `frame_cap` expansions on any frame has
/// taken at least `n` in all.
pub open spec fn has_taken(max_symbols: usize, n: nat) -> spec_fn(TdtPath) -> bool {
    |p: TdtPath|
        {
            &&& p.stuck < max_symbols || p.stuck == 0
            &&& p.step * tdt_laws::frame_cap(max_symbols) + p.stuck >= n
        }
}

/// The ids of the tokens of a path are below `v`.
pub open spec fn has_ids_below(v: int) -> spec_fn(TdtPath) -> bool {
    |p: TdtPath| forall|i: int| 0 <= i < p.tokens.len() ==> (#[trigger] p.tokens[i]).0 < v
}

impl<'a, A: Arithmetic, D: Fn(&Tensor3, i32, &Tensor3, &Tensor3) -> Result<TdtStep, Error>>
    TdtContext<'a, A, D> {
    proof fn lemma_taking_passes_on(self, n: nat)
        requires
            self.time_steps + 4 <= usize::MAX,
        ensures
            self.passes_on(
                has_taken(self.config.max_symbols_per_step, n),
                has_taken(self.config.max_symbols_per_step, n + 1),
            ),
    {
        let max = self.config.max_symbols_per_step;
        let on = has_taken(max, n);
        let next = has_taken(max, n + 1);
        assert forall|
            p: TdtPath,
            token: usize,
            duration: usize,
            score: Bits,
            state_1: Tensor3,
            state_2: Tensor3,
        | on(p) && p.step < self.time_steps && duration <= 4 implies next(
            #[trigger] tdt_beam::child(
                p,
                token,
                duration,
                score,
                state_1,
                state_2,
                self.blank_id,
                max,
            ),
        ) by {
            let k = tdt_laws::frame_cap(max);
            let step = p.step as int;
            let q = tdt_beam::child(
                p,
                token,
                duration,
                score,
                state_1,
                state_2,
                self.blank_id,
                max,
            );
            if q.step > p.step {
                let further = q.step as int;
                assert(further * k >= step * k + k) by (nonlinear_arith)
                    requires
                        further >= step + 1,
                        k >= 1,
                ;
            }
        }
    }

    proof fn lemma_rounds_are_taken(
        self,
        room: usize,
        n: nat,
        seed: TdtPath,
        finished: Seq<TdtPath>,
        active: Seq<TdtPath>,
    )
        requires
            self.time_steps + 4 <= usize::MAX,
            tdt_beam::is_seed(seed, self.blank_id),
            self.rounds_are(room, n, seed, finished, active),
        ensures
            all_are(active, has_taken(self.config.max_symbols_per_step, n)),
            n > 0 ==> forall|i: int|
                0 <= i < active.len() ==> (#[trigger] active[i]).step < self.time_steps,
        decreases n,
    {
        let max = self.config.max_symbols_per_step;
        let good = has_taken(max, n);
        if n == 0 {
            assert(0 * tdt_laws::frame_cap(max) == 0);
            assert(good(active[0]));
        } else {
            let k = (n - 1) as nat;
            let (f, a) = choose|f: Seq<TdtPath>, a: Seq<TdtPath>|
                {
                    &&& self.rounds_are(room, k, seed, f, a)
                    &&& self.goes_on(room, f, a)
                    &&& #[trigger] self.round_is(f, a, finished, active)
                };
            self.lemma_rounds_are_taken(room, k, seed, f, a);
            self.lemma_taking_passes_on(k);
            assert(tdt_laws::ignores_score(good)) by {
                assert forall|p: TdtPath, score: Bits| #[trigger] good(p) implies good(
                    #[trigger] tdt_laws::rescored(p, score),
                ) by {}
            }
            self.lemma_active_keep(f, a, finished, active, has_taken(max, k), good);
            let unfinished = |p: TdtPath| p.step < self.time_steps;
            assert forall|i: int| 0 <= i < active.len() implies (#[trigger] active[i]).step
                < self.time_steps by {
                assert(unfinished(active[i]));
            }
        }
    }

    /// The search takes no more rounds than its frames have expansions: as many as
    /// the most symbols per frame for each frame. Without frames it takes at most
    /// one, in which no decoder call is made. A round makes at most one call for
    /// each active path, and after the first round there are no more of those than
    /// `beam_size`.
    pub proof fn law_rounds_are_bounded(
        self,
        room: usize,
        n: nat,
        seed: TdtPath,
        finished: Seq<TdtPath>,
        active: Seq<TdtPath>,
    )
        requires
            self.time_steps + 4 <= usize::MAX,
            tdt_beam::is_seed(seed, self.blank_id),
            self.rounds_are(room, n, seed, finished, active),
        ensures
            self.time_steps > 0 ==> n <= self.time_steps * tdt_laws::frame_cap(
                self.config.max_symbols_per_step,
            ),
            self.time_steps == 0 ==> n <= 1,
            n == 0 ==> active.len() == 1,
            n > 0 ==> active.len() <= self.config.beam_size,
    {
        self.law_paths_are_sound(room, n, seed, finished, active);
        let max = self.config.max_symbols_per_step;
        let cap = tdt_laws::frame_cap(max);
        if n == 0 {
            assert(self.time_steps * cap >= 0) by (nonlinear_arith)
                requires
                    cap >= 1,
                    self.time_steps >= 0,
            ;
        } else {
            let k = (n - 1) as nat;
            let (f, a) = choose|f: Seq<TdtPath>, a: Seq<TdtPath>|
                {
                    &&& self.rounds_are(room, k, seed, f, a)
                    &&& self.goes_on(room, f, a)
                    &&& #[trigger] self.round_is(f, a, finished, active)
                };
            self.lemma_rounds_are_taken(room, k, seed, f, a);
            let good = has_taken(max, k);
            assert(good(a[0]));
            let step = a[0].step as int;
            let stuck = a[0].stuck as int;
            if self.time_steps > 0 {
                assert(step < self.time_steps);
                let frames = self.time_steps as int;
                assert(k + 1 <= frames * cap) by (nonlinear_arith)
                    requires
                        step * cap + stuck >= k,
                        stuck < cap,
                        step < frames,
                        cap >= 1,
                ;
            }
        }
    }

    /// No decoder answer has more than `v` token logits.
    pub open spec fn answers_are_within(self, v: int) -> bool {
        forall|frame: &Tensor3, token: i32, s: &Tensor3, u: &Tensor3, step: TdtStep| #[trigger]
            call_ensures(
                *self.decoder,
                (frame, token, s, u),
                Ok::<TdtStep, Error>(step),
            ) ==> step.0@.len() <= v
    }

    proof fn lemma_children_have_ids_below(self, p: TdtPath, x: TdtExpansion, n: nat, v: int)
        requires
            has_ids_below(v)(p),
            n <= x.tokens.len(),
            forall|i: int| 0 <= i < x.tokens.len() ==> #[trigger] x.tokens[i] < v,
        ensures
            all_are(self.children_of(p, x, n), has_ids_below(v)),
        decreases n,
    {
        let good = has_ids_below(v);
        if n > 0 {
            self.lemma_children_have_ids_below(p, x, (n - 1) as nat, v);
            let rest = self.children_of(p, x, (n - 1) as nat);
            let row = self.row_of(p, x, n - 1, x.scores[n - 1], x.durations.len());
            let whole = self.children_of(p, x, n);
            assert(x.tokens[n - 1] < v);
            assert forall|i: int| 0 <= i < whole.len() implies #[trigger] good(whole[i]) by {
                if i < rest.len() {
                    assert(whole[i] == rest[i]);
                    assert(good(rest[i]));
                } else {
                    let q = row[i - rest.len()];
                    assert(whole[i] == q);
                    assert forall|j: int| 0 <= j < q.tokens.len() implies (
                    #[trigger] q.tokens[j]).0 < v by {
                        if j < p.tokens.len() {
                            assert(q.tokens[j] == p.tokens[j]);
                        }
                    }
                }
            }
        }
    }

    proof fn lemma_expanded_have_ids_below(
        self,
        active: Seq<TdtPath>,
        all: Seq<TdtPath>,
        v: int,
    )
        requires
            self.all_expanded(active, all),
            self.answers_are_within(v),
            all_are(active, has_ids_below(v)),
        ensures
            all_are(all, has_ids_below(v)),
        decreases active.len(),
    {
        let good = has_ids_below(v);
        if active.len() > 0 {
            let (held, frame, x) = choose|held: Seq<TdtPath>, frame: Tensor3, x: TdtExpansion|
                self.all_expanded(active.drop_last(), held) && #[trigger] self.expands(
                    frame,
                    active.last(),
                    x,
                    held,
                    all,
                );
            let front = active.drop_last();
            assert forall|i: int| 0 <= i < front.len() implies #[trigger] good(front[i]) by {
                assert(good(active[i]));
            }
            self.lemma_expanded_have_ids_below(front, held, v);
            let p = active.last();
            assert(good(active[active.len() - 1]));
            if p.step < self.time_steps {
                let (logits, durations) = choose|logits: Vec<Bits>, durations: Vec<Bits>|
                    logits@ == x.token_logits && durations@ == x.duration_logits
                        && #[trigger] call_ensures(
                        *self.decoder,
                        (&frame, p.last_token, &p.state_1, &p.state_2),
                        Ok::<TdtStep, Error>((logits, durations, x.state_1, x.state_2)),
                    );
                assert(x.token_logits.len() <= v);
                assert(x.token_log_probs.len() == x.token_logits.len());
                self.lemma_children_have_ids_below(p, x, x.tokens.len(), v);
                let children = self.children_of(p, x, x.tokens.len());
                assert forall|i: int| 0 <= i < all.len() implies #[trigger] good(all[i]) by {
                    if i < held.len() {
                        assert(all[i] == held[i]);
                        assert(good(held[i]));
                    } else {
                        assert(all[i] == children[i - held.len()]);
                        assert(good(children[i - held.len()]));
                    }
                }
            }
        }
    }

    proof fn lemma_rounds_have_ids_below(
        self,
        room: usize,
        n: nat,
        seed: TdtPath,
        finished: Seq<TdtPath>,
        active: Seq<TdtPath>,
        v: int,
    )
        requires
            self.answers_are_within(v),
            tdt_beam::is_seed(seed, self.blank_id),
            self.rounds_are(room, n, seed, finished, active),
        ensures
            all_are(finished, has_ids_below(v)),
            all_are(active, has_ids_below(v)),
        decreases n,
    {
        let good = has_ids_below(v);
        if n == 0 {
            assert(good(active[0]));
        } else {
            let (f, a) = choose|f: Seq<TdtPath>, a: Seq<TdtPath>|
                {
                    &&& self.rounds_are(room, (n - 1) as nat, seed, f, a)
                    &&& self.goes_on(room, f, a)
                    &&& #[trigger] self.round_is(f, a, finished, active)
                };
            self.lemma_rounds_have_ids_below(room, (n - 1) as nat, seed, f, a, v);
            let (all, merged) = choose|all: Seq<TdtPath>, merged: Seq<TdtPath>|
                {
                    &&& self.all_expanded(a, all)
                    &&& #[trigger] tdt_beam::merged_is(self.arithmetic, all, merged)
                    &&& finished == f + tdt_beam::sorted_out(merged, self.time_steps, true)
                    &&& tdt_beam::pruned_is(
                        self.arithmetic,
                        tdt_beam::sorted_out(merged, self.time_steps, false),
                        self.config,
                        active,
                    )
                };
            self.lemma_expanded_have_ids_below(a, all, v);
            assert(tdt_laws::ignores_score(good)) by {
                assert forall|p: TdtPath, score: Bits| #[trigger] good(p) implies good(
                    #[trigger] tdt_laws::rescored(p, score),
                ) by {}
            }
            tdt_laws::lemma_merged_keeps(self.arithmetic, all, merged, good);
            let done = tdt_beam::sorted_out(merged, self.time_steps, true);
            let left = tdt_beam::sorted_out(merged, self.time_steps, false);
            tdt_laws::lemma_sorted_out_keeps(merged, self.time_steps, true, good);
            tdt_laws::lemma_sorted_out_keeps(merged, self.time_steps, false, good);
            tdt_laws::lemma_pruned_keeps(self.arithmetic, left, self.config, active, good);
            assert forall|i: int| 0 <= i < finished.len() implies #[trigger] good(finished[i]) by {
                if i < f.len() {
                    assert(finished[i] == f[i]);
                    assert(good(f[i]));
                } else {
                    assert(finished[i] == done[i - f.len()]);
                    assert(good(done[i - f.len()]));
                }
            }
        }
    }

    /// Where no decoder answer has more than `v` token logits, every decoded token
    /// is below `v`.
    pub proof fn law_tokens_are_below(self, out: TdtBeamOutput, v: int)
        requires
            self.decodes(out),
            self.answers_are_within(v),
        ensures
            forall|i: int| 0 <= i < out.tokens@.len() ==> #[trigger] out.tokens@[i] < v,
    {
        let (finished, active, best) = choose|
            finished: Seq<TdtPath>,
            active: Seq<TdtPath>,
            best: Option<TdtPath>,
        |
            {
                &&& #[trigger] self.ends_with(finished, active)
                &&& #[trigger] tdt_beam::best_is(
                    self.arithmetic,
                    finished + active,
                    self.config.length_penalty,
                    best,
                )
                &&& tdt_beam::gives(best, out)
            };
        let (room, n, seed) = choose|room: usize, n: nat, seed: TdtPath|
            {
                &&& arithmetic::scaled_count_is(
                    self.arithmetic,
                    self.config.beam_size,
                    self.config.patience,
                    room,
                )
                &&& #[trigger] tdt_beam::is_seed(seed, self.blank_id)
                &&& #[trigger] self.rounds_are(room, n, seed, finished, active)
                &&& !self.goes_on(room, finished, active)
            };
        self.lemma_rounds_have_ids_below(room, n, seed, finished, active, v);
        let all = finished + active;
        if all.len() > 0 {
            let keys = choose|keys: Seq<Bits>|
                {
                    &&& #[trigger] tdt_beam::keys_are(
                        self.arithmetic,
                        all,
                        self.config.length_penalty,
                        keys,
                    )
                    &&& best == Some(all[ranking::last_max(keys)])
                };
            ranking::lemma_last_max_bounds(keys);
            let k = ranking::last_max(keys);
            let good = has_ids_below(v);
            if k < finished.len() {
                assert(good(finished[k]));
            } else {
                assert(good(active[k - finished.len()]));
            }
            assert forall|i: int| 0 <= i < out.tokens@.len() implies #[trigger] out.tokens@[i]
                < v by {
                assert(best->0.tokens[i].0 < v);
            }
        }
    }
}

} // verus!
