//! Which of the search parameters RNN-T decoding reads.
use vstd::prelude::*;
use crate::arithmetic::Arithmetic;
use crate::decoding::rnnt_beam;
use crate::decoding::rnnt_beam::{
    RnntBeamOutput, RnntContext, RnntExpansion, RnntFrameTrace, RnntPath, RnntStep,
};
use crate::decoding::BeamConfig;
use crate::error::Error;
use crate::ranking;
use crate::single::Bits;
use crate::tensor::Tensor3;

verus! {

/// The two parameter sets agree on what RNN-T decoding reads.
pub open spec fn agree_for_rnnt(a: BeamConfig, b: BeamConfig) -> bool {
    &&& a.beam_size == b.beam_size
    &&& a.length_penalty == b.length_penalty
    &&& a.max_symbols_per_step == b.max_symbols_per_step
}

proof fn lemma_pruning_reads_less<A: Arithmetic>(
    m: &A,
    beam: Seq<RnntPath>,
    a: BeamConfig,
    b: BeamConfig,
    pruned: Seq<RnntPath>,
)
    requires
        agree_for_rnnt(a, b),
        rnnt_beam::pruned_is(m, beam, a, pruned),
    ensures
        rnnt_beam::pruned_is(m, beam, b, pruned),
{
    let (keys, order) = choose|keys: Seq<Bits>, order: Seq<usize>|
        {
            &&& #[trigger] rnnt_beam::keys_are(m, beam, a.length_penalty, keys)
            &&& #[trigger] ranking::is_top(keys, a.beam_size as nat, order)
            &&& pruned == ranking::pick(beam, order)
        };
    assert(rnnt_beam::keys_are(m, beam, b.length_penalty, keys));
    assert(ranking::is_top(keys, b.beam_size as nat, order));
}

impl<'a, A: Arithmetic, D: Fn(&Tensor3, i32, &Tensor3, &Tensor3) -> Result<RnntStep, Error>>
    RnntContext<'a, A, D> {
    /// The same context with other search parameters.
    pub open spec fn with_config(self, config: BeamConfig) -> Self {
        RnntContext { config, ..self }
    }

    proof fn lemma_answers_read_less(
        self,
        other: BeamConfig,
        frame: Tensor3,
        p: RnntPath,
        x: RnntExpansion,
    )
        requires
            self.answers(frame, p, x.logits, x.state_1, x.state_2),
        ensures
            self.with_config(other).answers(frame, p, x.logits, x.state_1, x.state_2),
    {
        let v = choose|v: Vec<Bits>|
            v@ == x.logits && #[trigger] call_ensures(
                *self.decoder,
                (&frame, p.last_token, &p.state_1, &p.state_2),
                Ok::<RnntStep, Error>((v, x.state_1, x.state_2)),
            );
        assert(call_ensures(
            *self.with_config(other).decoder,
            (&frame, p.last_token, &p.state_1, &p.state_2),
            Ok::<RnntStep, Error>((v, x.state_1, x.state_2)),
        ));
    }

    proof fn lemma_expansion_reads_less(
        self,
        other: BeamConfig,
        frame: Tensor3,
        t: usize,
        at: usize,
        active: Seq<RnntPath>,
        held: Seq<RnntPath>,
        advanced: Seq<RnntPath>,
        symbols: Seq<RnntPath>,
    )
        requires
            agree_for_rnnt(self.config, other),
            self.all_expanded(frame, t, at, active, held, advanced, symbols),
        ensures
            self.with_config(other).all_expanded(frame, t, at, active, held, advanced, symbols),
        decreases active.len(),
    {
        if active.len() > 0 {
            let (a, s, x) = choose|a: Seq<RnntPath>, s: Seq<RnntPath>, x: RnntExpansion|
                self.all_expanded(frame, t, at, active.drop_last(), held, a, s)
                    && #[trigger] self.expands(
                    frame,
                    t,
                    at,
                    active.last(),
                    x,
                    a,
                    s,
                    advanced,
                    symbols,
                );
            self.lemma_expansion_reads_less(other, frame, t, at, active.drop_last(), held, a, s);
            self.lemma_answers_read_less(other, frame, active.last(), x);
            assert(self.with_config(other).expands(
                frame,
                t,
                at,
                active.last(),
                x,
                a,
                s,
                advanced,
                symbols,
            ));
        }
    }

    proof fn lemma_rounds_read_less(
        self,
        other: BeamConfig,
        frame: Tensor3,
        t: usize,
        at: usize,
        n: nat,
        entered: Seq<RnntPath>,
        active: Seq<RnntPath>,
        advanced: Seq<RnntPath>,
    )
        requires
            agree_for_rnnt(self.config, other),
            self.symbol_rounds(frame, t, at, n, entered, active, advanced),
        ensures
            self.with_config(other).symbol_rounds(frame, t, at, n, entered, active, advanced),
        decreases n,
    {
        if n > 0 {
            let (a, d) = choose|a: Seq<RnntPath>, d: Seq<RnntPath>|
                self.symbol_rounds(frame, t, at, (n - 1) as nat, entered, a, d)
                    && #[trigger] self.symbol_round(frame, t, at, a, d, active, advanced);
            self.lemma_rounds_read_less(other, frame, t, at, (n - 1) as nat, entered, a, d);
            if a.len() > 0 {
                let (symbols, merged) = choose|symbols: Seq<RnntPath>, merged: Seq<RnntPath>|
                    {
                        &&& self.all_expanded(frame, t, at, a, d, advanced, symbols)
                        &&& #[trigger] rnnt_beam::merged_is(self.arithmetic, symbols, merged)
                        &&& rnnt_beam::pruned_is(self.arithmetic, merged, self.config, active)
                    };
                self.lemma_expansion_reads_less(other, frame, t, at, a, d, advanced, symbols);
                lemma_pruning_reads_less(self.arithmetic, merged, self.config, other, active);
            }
            assert(self.with_config(other).symbol_round(frame, t, at, a, d, active, advanced));
        }
    }

    proof fn lemma_forcing_reads_less(
        self,
        other: BeamConfig,
        frame: Tensor3,
        t: usize,
        active: Seq<RnntPath>,
        held: Seq<RnntPath>,
        advanced: Seq<RnntPath>,
    )
        requires
            agree_for_rnnt(self.config, other),
            self.all_forced(frame, t, active, held, advanced),
        ensures
            self.with_config(other).all_forced(frame, t, active, held, advanced),
        decreases active.len(),
    {
        if active.len() > 0 {
            let (d, x, score) = choose|d: Seq<RnntPath>, x: RnntExpansion, score: Bits|
                self.all_forced(frame, t, active.drop_last(), held, d) && #[trigger] self.forces(
                    frame,
                    t,
                    active.last(),
                    x,
                    score,
                    d,
                    advanced,
                );
            self.lemma_forcing_reads_less(other, frame, t, active.drop_last(), held, d);
            self.lemma_answers_read_less(other, frame, active.last(), x);
            assert(self.with_config(other).forces(
                frame,
                t,
                active.last(),
                x,
                score,
                d,
                advanced,
            ));
        }
    }

    proof fn lemma_frames_read_less(
        self,
        other: BeamConfig,
        shift: int,
        start: int,
        end: int,
        beam: Seq<RnntPath>,
        next: Seq<RnntPath>,
    )
        requires
            agree_for_rnnt(self.config, other),
            self.frames_are(shift, start, end, beam, next),
        ensures
            self.with_config(other).frames_are(shift, start, end, beam, next),
        decreases end - start,
    {
        if start < end {
            let t = (end - 1) as usize;
            let at = (end - 1 + shift) as usize;
            let m = self.arithmetic;
            let mid = choose|mid: Seq<RnntPath>|
                self.frames_are(shift, start, end - 1, beam, mid) && #[trigger] self.frame_is(
                    t,
                    at,
                    mid,
                    next,
                );
            self.lemma_frames_read_less(other, shift, start, end - 1, beam, mid);
            let w = choose|w: RnntFrameTrace| #[trigger] self.frame_traced(t, at, mid, w, next);
            lemma_pruning_reads_less(
                m,
                rnnt_beam::on_frame(mid, t),
                self.config,
                other,
                w.entered,
            );
            self.lemma_rounds_read_less(
                other,
                w.frame,
                t,
                at,
                self.config.max_symbols_per_step as nat,
                w.entered,
                w.active,
                w.advanced,
            );
            self.lemma_forcing_reads_less(other, w.frame, t, w.active, w.advanced, w.all);
            lemma_pruning_reads_less(m, w.merged, self.config, other, next);
            assert(self.with_config(other).frame_traced(t, at, mid, w, next));
            assert(self.with_config(other).frame_is(t, at, mid, next));
        }
    }

    /// RNN-T decoding reads neither the patience nor the duration reward: with
    /// other values of them it may give exactly the same.
    pub proof fn law_patience_and_duration_reward_are_not_read(
        self,
        other: BeamConfig,
        start: usize,
        end: usize,
        offset: usize,
        carried: Seq<RnntPath>,
        out: RnntBeamOutput,
    )
        requires
            agree_for_rnnt(self.config, other),
        ensures
            self.decodes(start, end, offset, carried, out) == self.with_config(other).decodes(
                start,
                end,
                offset,
                carried,
                out,
            ),
    {
        if self.decodes(start, end, offset, carried, out) {
            self.lemma_decoding_reads_less(other, start, end, offset, carried, out);
        }
        let changed = self.with_config(other);
        if changed.decodes(start, end, offset, carried, out) {
            changed.lemma_decoding_reads_less(self.config, start, end, offset, carried, out);
            assert(changed.with_config(self.config) == self);
        }
    }

    proof fn lemma_decoding_reads_less(
        self,
        other: BeamConfig,
        start: usize,
        end: usize,
        offset: usize,
        carried: Seq<RnntPath>,
        out: RnntBeamOutput,
    )
        requires
            agree_for_rnnt(self.config, other),
            self.decodes(start, end, offset, carried, out),
        ensures
            self.with_config(other).decodes(start, end, offset, carried, out),
    {
        let survivors = rnnt_beam::paths(out.hypotheses@);
        let beam = choose|beam: Seq<RnntPath>|
            {
                &&& #[trigger] rnnt_beam::enters(carried, self.blank_id, start, beam)
                &&& self.frames_are(offset - start, start as int, end as int, beam, survivors)
            };
        self.lemma_frames_read_less(
            other,
            offset - start,
            start as int,
            end as int,
            beam,
            survivors,
        );
        assert(rnnt_beam::enters(carried, self.with_config(other).blank_id, start, beam));
    }

    /// Nor do refused passes: with other values of the patience and of the duration
    /// reward a pass may end with exactly the same errors.
    pub proof fn law_refusals_do_not_read_them(
        self,
        other: BeamConfig,
        start: usize,
        end: usize,
        offset: usize,
        carried: Seq<RnntPath>,
        e: Error,
    )
        requires
            agree_for_rnnt(self.config, other),
        ensures
            self.may_refuse(start, end, offset, carried, e) == self.with_config(other).may_refuse(
                start,
                end,
                offset,
                carried,
                e,
            ),
    {
        if self.may_refuse(start, end, offset, carried, e) {
            self.lemma_refusing_reads_less(other, start, end, offset, carried, e);
        }
        let changed = self.with_config(other);
        if changed.may_refuse(start, end, offset, carried, e) {
            changed.lemma_refusing_reads_less(self.config, start, end, offset, carried, e);
            assert(changed.with_config(self.config) == self);
        }
    }

    proof fn lemma_refusal_of_one_reads_less(
        self,
        other: BeamConfig,
        frame: Tensor3,
        active: Seq<RnntPath>,
        e: Error,
    )
        requires
            self.refuses_one_of(frame, active, e),
        ensures
            self.with_config(other).refuses_one_of(frame, active, e),
    {
        let changed = self.with_config(other);
        let i = choose|i: int|
            {
                &&& 0 <= i < active.len()
                &&& forall|j: int| 0 <= j < i ==> self.may_answer(frame, #[trigger] active[j])
                &&& #[trigger] call_ensures(
                    *self.decoder,
                    (&frame, active[i].last_token, &active[i].state_1, &active[i].state_2),
                    Err::<RnntStep, Error>(e),
                )
            };
        assert forall|j: int| 0 <= j < i implies changed.may_answer(
            frame,
            #[trigger] active[j],
        ) by {
            let p = active[j];
            assert(self.may_answer(frame, p));
            let step = choose|step: RnntStep| #[trigger]
                call_ensures(
                    *self.decoder,
                    (&frame, p.last_token, &p.state_1, &p.state_2),
                    Ok::<RnntStep, Error>(step),
                );
            assert(call_ensures(
                *changed.decoder,
                (&frame, p.last_token, &p.state_1, &p.state_2),
                Ok::<RnntStep, Error>(step),
            ));
        }
        assert(call_ensures(
            *changed.decoder,
            (&frame, active[i].last_token, &active[i].state_1, &active[i].state_2),
            Err::<RnntStep, Error>(e),
        ));
    }

    proof fn lemma_refusing_reads_less(
        self,
        other: BeamConfig,
        start: usize,
        end: usize,
        offset: usize,
        carried: Seq<RnntPath>,
        e: Error,
    )
        requires
            agree_for_rnnt(self.config, other),
            self.may_refuse(start, end, offset, carried, e),
        ensures
            self.with_config(other).may_refuse(start, end, offset, carried, e),
    {
        let changed = self.with_config(other);
        let m = self.arithmetic;
        let (t, entered, beam) = choose|t: usize, entered: Seq<RnntPath>, beam: Seq<RnntPath>|
            {
                &&& start <= t < end
                &&& rnnt_beam::enters(carried, self.blank_id, start, entered)
                &&& #[trigger] self.refuses_at(start, offset, t, entered, beam, e)
            };
        let at = (t + (offset - start)) as usize;
        let (w, n) = choose|w: RnntFrameTrace, n: nat| #[trigger]
            self.frame_refuses(t, at, beam, w, n, e);
        self.lemma_frames_read_less(
            other,
            offset - start,
            start as int,
            t as int,
            entered,
            beam,
        );
        lemma_pruning_reads_less(
            m,
            rnnt_beam::on_frame(beam, t),
            self.config,
            other,
            w.entered,
        );
        self.lemma_rounds_read_less(other, w.frame, t, at, n, w.entered, w.active, w.advanced);
        self.lemma_refusal_of_one_reads_less(other, w.frame, w.active, e);
        assert(changed.frame_refuses(t, at, beam, w, n, e));
        assert(changed.refuses_at(start, offset, t, entered, beam, e));
        assert(rnnt_beam::enters(carried, changed.blank_id, start, entered));
    }
}

} // verus!
