//! Bounds on RNN-T beam search: how many paths a round expands, and which tokens a
//! pass emits.
use vstd::prelude::*;
use crate::arithmetic::Arithmetic;
use crate::decoding::rnnt_beam;
use crate::decoding::rnnt_beam::{
    RnntBeamOutput, RnntContext, RnntExpansion, RnntFrameTrace, RnntPath, RnntStep,
};
use crate::decoding::rnnt_laws;
use crate::decoding::rnnt_laws::all_are;
use crate::error::Error;
use crate::ranking;
use crate::single::Bits;
use crate::tensor::Tensor3;

verus! {

/// The ids of the tokens that a path has emitted during the pass are below `v`.
pub open spec fn has_new_ids_below(v: int) -> spec_fn(RnntPath) -> bool {
    |p: RnntPath|
        forall|i: int|
            p.prev_token_count <= i < p.tokens.len() ==> (#[trigger] p.tokens[i]).0 < v
}

proof fn lemma_children_have_ids_below(
    p: RnntPath,
    x: RnntExpansion,
    n: nat,
    blank_id: usize,
    next_frame: usize,
    at: usize,
    v: int,
)
    requires
        has_new_ids_below(v)(p),
        n <= x.order.len(),
        forall|i: int| 0 <= i < x.order.len() ==> #[trigger] x.order[i] < v,
    ensures
        all_are(rnnt_beam::symbols_of(p, x, n, blank_id, at), has_new_ids_below(v)),
        all_are(rnnt_beam::blanks_of(p, x, n, blank_id, next_frame), has_new_ids_below(v)),
    decreases n,
{
    if n > 0 {
        let good = has_new_ids_below(v);
        lemma_children_have_ids_below(p, x, (n - 1) as nat, blank_id, next_frame, at, v);
        let token = x.order[n - 1];
        let score = x.scores[n - 1];
        assert(token < v);
        let q = rnnt_beam::after_symbol(p, token, score, x.state_1, x.state_2, at);
        assert(good(q)) by {
            assert forall|i: int| q.prev_token_count <= i < q.tokens.len() implies (
            #[trigger] q.tokens[i]).0 < v by {
                if i < p.tokens.len() {
                    assert(q.tokens[i] == p.tokens[i]);
                }
            }
        }
        assert(good(rnnt_beam::after_blank(p, score, next_frame)));
    }
}

impl<'a, A: Arithmetic, D: Fn(&Tensor3, i32, &Tensor3, &Tensor3) -> Result<RnntStep, Error>>
    RnntContext<'a, A, D> {
    /// No round of symbols leaves more paths on a frame than `beam_size`, where no
    /// more entered it: a frame is decoded in as many rounds as symbols are allowed
    /// on it and a last one that moves on by blanks, each with at most one decoder
    /// call for each of these paths.
    pub proof fn law_rounds_expand_few_paths(
        self,
        frame: Tensor3,
        t: usize,
        at: usize,
        n: nat,
        entered: Seq<RnntPath>,
        active: Seq<RnntPath>,
        advanced: Seq<RnntPath>,
    )
        requires
            entered.len() <= self.config.beam_size,
            self.symbol_rounds(frame, t, at, n, entered, active, advanced),
        ensures
            active.len() <= self.config.beam_size,
        decreases n,
    {
        if n > 0 {
            let (a, d) = choose|a: Seq<RnntPath>, d: Seq<RnntPath>|
                self.symbol_rounds(frame, t, at, (n - 1) as nat, entered, a, d)
                    && #[trigger] self.symbol_round(frame, t, at, a, d, active, advanced);
            self.law_rounds_expand_few_paths(frame, t, at, (n - 1) as nat, entered, a, d);
            if a.len() > 0 {
                let (symbols, merged) = choose|symbols: Seq<RnntPath>, merged: Seq<RnntPath>|
                    {
                        &&& self.all_expanded(frame, t, at, a, d, advanced, symbols)
                        &&& #[trigger] rnnt_beam::merged_is(self.arithmetic, symbols, merged)
                        &&& rnnt_beam::pruned_is(self.arithmetic, merged, self.config, active)
                    };
                rnnt_laws::law_pruning_selects(self.arithmetic, merged, self.config, active);
            }
        }
    }

    /// No decoder answer has more than `v` logits.
    pub open spec fn answers_are_within(self, v: int) -> bool {
        forall|frame: &Tensor3, token: i32, s: &Tensor3, u: &Tensor3, step: RnntStep| #[trigger]
            call_ensures(
                *self.decoder,
                (frame, token, s, u),
                Ok::<RnntStep, Error>(step),
            ) ==> step.0@.len() <= v
    }

    proof fn lemma_expanded_have_ids_below(
        self,
        frame: Tensor3,
        t: usize,
        at: usize,
        active: Seq<RnntPath>,
        held: Seq<RnntPath>,
        advanced: Seq<RnntPath>,
        symbols: Seq<RnntPath>,
        v: int,
    )
        requires
            self.all_expanded(frame, t, at, active, held, advanced, symbols),
            self.answers_are_within(v),
            all_are(active, has_new_ids_below(v)),
            all_are(held, has_new_ids_below(v)),
        ensures
            all_are(symbols, has_new_ids_below(v)),
            all_are(advanced, has_new_ids_below(v)),
        decreases active.len(),
    {
        let good = has_new_ids_below(v);
        if active.len() > 0 {
            let (a, s, x) = choose|a: Seq<RnntPath>, s: Seq<RnntPath>, x: RnntExpansion|
                self.all_expanded(frame, t, at, active.drop_last(), held, a, s)
                    && #[trigger] self.expands(
                    frame,
                    t,
                    at,
                    active.last(),
                    x,
                    a,
                    s,
                    advanced,
                    symbols,
                );
            let front = active.drop_last();
            assert forall|i: int| 0 <= i < front.len() implies #[trigger] good(front[i]) by {
                assert(good(active[i]));
            }
            self.lemma_expanded_have_ids_below(frame, t, at, front, held, a, s, v);
            let p = active.last();
            assert(good(active[active.len() - 1]));
            let logits = choose|logits: Vec<Bits>|
                logits@ == x.logits && #[trigger] call_ensures(
                    *self.decoder,
                    (&frame, p.last_token, &p.state_1, &p.state_2),
                    Ok::<RnntStep, Error>((logits, x.state_1, x.state_2)),
                );
            assert(x.logits.len() <= v);
            assert(x.log_probs.len() == x.logits.len());
            let next_frame = (t + 1) as usize;
            let n = x.order.len();
            lemma_children_have_ids_below(p, x, n, self.blank_id, next_frame, at, v);
            let new_symbols = rnnt_beam::symbols_of(p, x, n, self.blank_id, at);
            let new_advanced = rnnt_beam::blanks_of(p, x, n, self.blank_id, next_frame);
            assert forall|i: int| 0 <= i < symbols.len() implies #[trigger] good(symbols[i]) by {
                if i < s.len() {
                    assert(symbols[i] == s[i]);
                    assert(good(s[i]));
                } else {
                    assert(symbols[i] == new_symbols[i - s.len()]);
                    assert(good(new_symbols[i - s.len()]));
                }
            }
            assert forall|i: int| 0 <= i < advanced.len() implies #[trigger] good(advanced[i]) by {
                if i < a.len() {
                    assert(advanced[i] == a[i]);
                    assert(good(a[i]));
                } else {
                    assert(advanced[i] == new_advanced[i - a.len()]);
                    assert(good(new_advanced[i - a.len()]));
                }
            }
        }
    }

    proof fn lemma_rounds_have_ids_below(
        self,
        frame: Tensor3,
        t: usize,
        at: usize,
        n: nat,
        entered: Seq<RnntPath>,
        active: Seq<RnntPath>,
        advanced: Seq<RnntPath>,
        v: int,
    )
        requires
            self.symbol_rounds(frame, t, at, n, entered, active, advanced),
            self.answers_are_within(v),
            all_are(entered, has_new_ids_below(v)),
        ensures
            all_are(active, has_new_ids_below(v)),
            all_are(advanced, has_new_ids_below(v)),
        decreases n,
    {
        if n > 0 {
            let good = has_new_ids_below(v);
            let (a, d) = choose|a: Seq<RnntPath>, d: Seq<RnntPath>|
                self.symbol_rounds(frame, t, at, (n - 1) as nat, entered, a, d)
                    && #[trigger] self.symbol_round(frame, t, at, a, d, active, advanced);
            self.lemma_rounds_have_ids_below(frame, t, at, (n - 1) as nat, entered, a, d, v);
            if a.len() > 0 {
                let (symbols, merged) = choose|symbols: Seq<RnntPath>, merged: Seq<RnntPath>|
                    {
                        &&& self.all_expanded(frame, t, at, a, d, advanced, symbols)
                        &&& #[trigger] rnnt_beam::merged_is(self.arithmetic, symbols, merged)
                        &&& rnnt_beam::pruned_is(self.arithmetic, merged, self.config, active)
                    };
                self.lemma_expanded_have_ids_below(frame, t, at, a, d, advanced, symbols, v);
                lemma_ids_ignore_the_score(v);
                rnnt_laws::lemma_merged_keeps(self.arithmetic, symbols, merged, good);
                rnnt_laws::lemma_pruned_keeps(
                    self.arithmetic,
                    merged,
                    self.config,
                    active,
                    good,
                );
            }
        }
    }

    proof fn lemma_frames_have_ids_below(
        self,
        shift: int,
        start: int,
        end: int,
        beam: Seq<RnntPath>,
        next: Seq<RnntPath>,
        v: int,
    )
        requires
            self.frames_are(shift, start, end, beam, next),
            self.answers_are_within(v),
            all_are(beam, has_new_ids_below(v)),
        ensures
            all_are(next, has_new_ids_below(v)),
        decreases end - start,
    {
        if start < end {
            let m = self.arithmetic;
            let good = has_new_ids_below(v);
            let t = (end - 1) as usize;
            let at = (end - 1 + shift) as usize;
            let mid = choose|mid: Seq<RnntPath>|
                self.frames_are(shift, start, end - 1, beam, mid) && #[trigger] self.frame_is(
                    t,
                    at,
                    mid,
                    next,
                );
            self.lemma_frames_have_ids_below(shift, start, end - 1, beam, mid, v);
            let w = choose|w: RnntFrameTrace| #[trigger] self.frame_traced(t, at, mid, w, next);
            let standing = rnnt_beam::on_frame(mid, t);
            rnnt_laws::lemma_on_frame(mid, t);
            assert forall|i: int| 0 <= i < standing.len() implies #[trigger] good(standing[i]) by {
                let j = choose|j: int| 0 <= j < mid.len() && mid[j] == standing[i];
                assert(good(mid[j]));
            }
            rnnt_laws::lemma_pruned_keeps(m, standing, self.config, w.entered, good);
            self.lemma_rounds_have_ids_below(
                w.frame,
                t,
                at,
                self.config.max_symbols_per_step as nat,
                w.entered,
                w.active,
                w.advanced,
                v,
            );
            self.lemma_forced_keep(w.frame, t, w.active, w.advanced, w.all, good, good);
            lemma_ids_ignore_the_score(v);
            rnnt_laws::lemma_merged_keeps(m, w.all, w.merged, good);
            rnnt_laws::lemma_pruned_keeps(m, w.merged, self.config, next, good);
        }
    }

    /// Where no decoder answer has more than `v` logits, every token that a pass
    /// emits is below `v`, on the best path and on every survivor.
    pub proof fn law_tokens_are_below(
        self,
        start: usize,
        end: usize,
        offset: usize,
        carried: Seq<RnntPath>,
        out: RnntBeamOutput,
        v: int,
    )
        requires
            self.decodes(start, end, offset, carried, out),
            self.answers_are_within(v),
            forall|i: int|
                0 <= i < carried.len() ==> (#[trigger] carried[i]).tokens.len() <= usize::MAX,
        ensures
            all_are(rnnt_beam::paths(out.hypotheses@), has_new_ids_below(v)),
            forall|i: int| 0 <= i < out.new_tokens@.len() ==> (#[trigger] out.new_tokens@[i]).0 < v,
    {
        let good = has_new_ids_below(v);
        let survivors = rnnt_beam::paths(out.hypotheses@);
        let best = rnnt_beam::optional_path(out.best_hypothesis);
        let penalty = self.config.length_penalty;
        let beam = choose|beam: Seq<RnntPath>|
            {
                &&& #[trigger] rnnt_beam::enters(carried, self.blank_id, start, beam)
                &&& self.frames_are(offset - start, start as int, end as int, beam, survivors)
            };
        assert forall|i: int| 0 <= i < beam.len() implies #[trigger] good(beam[i]) by {
            if carried.len() > 0 {
                assert(carried[i].tokens.len() <= usize::MAX);
            }
        }
        self.lemma_frames_have_ids_below(
            offset - start,
            start as int,
            end as int,
            beam,
            survivors,
            v,
        );
        if survivors.len() > 0 {
            let keys = choose|keys: Seq<Bits>|
                {
                    &&& #[trigger] rnnt_beam::keys_are(self.arithmetic, survivors, penalty, keys)
                    &&& best == Some(survivors[ranking::last_max(keys)])
                };
            ranking::lemma_last_max_bounds(keys);
            let p = survivors[ranking::last_max(keys)];
            assert(good(p));
            assert forall|i: int| 0 <= i < out.new_tokens@.len() implies (
            #[trigger] out.new_tokens@[i]).0 < v by {
                assert(p.tokens[p.prev_token_count + i].0 < v);
            }
        }
    }
}

proof fn lemma_ids_ignore_the_score(v: int)
    ensures
        rnnt_laws::ignores_score(has_new_ids_below(v)),
{
    let good = has_new_ids_below(v);
    assert forall|p: RnntPath, score: Bits| #[trigger] good(p) implies good(
        #[trigger] rnnt_laws::rescored(p, score),
    ) by {}
}

} // verus!
