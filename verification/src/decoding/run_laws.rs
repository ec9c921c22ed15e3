//! What holds of every call: where searches start and end, which frames they read,
//! whose errors they hand on, and what their results are to their inputs.

use vstd::prelude::*;

use crate::arithmetic::Arithmetic;
use crate::arithmetic_laws;
use crate::decoding::ctc_beam;
use crate::decoding::ctc_beam::CtcBeamEntry;
use crate::decoding::ctc_pruning;
use crate::decoding::rnnt_beam;
use crate::decoding::rnnt_beam::{
    RnntBeamOutput, RnntContext, RnntFrameTrace, RnntHypothesis, RnntPath, RnntStep,
};
use crate::decoding::rnnt_laws;
use crate::decoding::rnnt_merging;
use crate::decoding::tdt_beam;
use crate::decoding::tdt_beam::{TdtBeamOutput, TdtContext, TdtHypothesis, TdtPath, TdtStep};
use crate::decoding::tdt_greedy;
use crate::decoding::tdt_greedy::{GreedyContext, GreedyPath, GreedySearch};
use crate::decoding::tdt_merging;
use crate::decoding::tdt_search;
use crate::decoding::BeamConfig;
use crate::error::Error;
use crate::rounding;
use crate::rounding::{near, power};
use crate::single::Bits;
use crate::tensor;
use crate::tensor::{Tensor2, Tensor3};

verus! {

/// Every element of the tensor is zero, and it has the shape of a decoder state.
pub open spec fn is_blank_state(t: Tensor3) -> bool {
    &&& tensor::tensor3_shape(t) == (2usize, 1usize, 640usize)
    &&& tensor::tensor3_items(t).len() == 1280
    &&& forall|i: int| 0 <= i < 1280 ==> #[trigger] tensor::tensor3_items(t)[i] == 0
}

proof fn lemma_blank_state(t: Tensor3)
    requires
        tensor::is_zero(t, (2, 1, 640)),
    ensures
        is_blank_state(t),
{
}

/// A fresh RNN-T hypothesis has emitted nothing and costs nothing: the decoder is fed
/// the blank and states of zeros.
pub proof fn law_fresh_rnnt_hypotheses_are_blank(
    blank_id: usize,
    start_frame: usize,
    r: RnntHypothesis,
)
    requires
        call_ensures(rnnt_beam::seed_hypothesis, (blank_id, start_frame), r),
    ensures
        r.tokens@.len() == 0,
        r.score == 0,
        r.frame == start_frame,
        r.last_token == blank_id as i32,
        r.symbols_on_frame == 0,
        r.prev_token_count == 0,
        is_blank_state(r.state_1),
        is_blank_state(r.state_2),
{
    assert(rnnt_beam::is_seed(r@, blank_id, start_frame));
    lemma_blank_state(r@.state_1);
    lemma_blank_state(r@.state_2);
}

/// A fresh TDT hypothesis has emitted nothing and costs nothing: the decoder is fed
/// the blank and states of zeros on the first frame.
pub proof fn law_fresh_tdt_hypotheses_are_blank(blank_id: usize, r: TdtHypothesis)
    requires
        call_ensures(tdt_beam::seed_hypothesis, (blank_id,), r),
    ensures
        r.tokens@.len() == 0,
        r.score == 0,
        r.step == 0,
        r.stuck == 0,
        r.last_token == blank_id as i32,
        is_blank_state(r.state_1),
        is_blank_state(r.state_2),
{
    assert(tdt_beam::is_seed(r@, blank_id));
    lemma_blank_state(r@.state_1);
    lemma_blank_state(r@.state_2);
}

/// A fresh greedy search stands on the first frame and has emitted nothing: the
/// decoder is fed the blank and states of zeros.
pub proof fn law_fresh_greedy_searches_are_blank(blank_id: usize, r: GreedySearch)
    requires
        call_ensures(GreedySearch::start, (blank_id,), r),
    ensures
        r.tokens@.len() == 0,
        r.frame_indices@.len() == 0,
        r.durations@.len() == 0,
        r.t == 0,
        r.emitted == 0,
        r.last_token == blank_id as i32,
        is_blank_state(r.state_1),
        is_blank_state(r.state_2),
{
    assert(tdt_greedy::is_start(r@, blank_id));
    lemma_blank_state(r@.state_1);
    lemma_blank_state(r@.state_2);
}

impl<
    A: Arithmetic,
    D: Fn(&Tensor3, i32, &Tensor3, &Tensor3) -> Result<RnntStep, Error>,
> RnntContext<'_, A, D> {
    /// The frame that the decoder is handed while frame `t` is decoded: it holds what
    /// the encoder output holds at time step `t`.
    pub proof fn law_calls_read_the_frame_they_stand_on(
        self,
        t: usize,
        at: usize,
        beam: Seq<RnntPath>,
        w: RnntFrameTrace,
        next: Seq<RnntPath>,
        j: int,
    )
        requires
            self.frame_traced(t, at, beam, w, next),
            0 <= j < tensor::tensor3_shape(*self.encoder_out).1,
        ensures
            tensor::tensor3_items(w.frame).len() == tensor::tensor3_shape(*self.encoder_out).1,
            tensor::tensor3_items(w.frame)[j] == tensor::tensor3_items(*self.encoder_out)[j
                * tensor::tensor3_shape(*self.encoder_out).2 + t],
    {
        tensor::law_frame_holds_one_time_step(*self.encoder_out, t as int, w.frame, j);
    }

    /// A pass without hypotheses is a pass that a single blank hypothesis is carried
    /// into.
    pub proof fn law_fresh_passes_start_from_a_blank_hypothesis(
        self,
        start: usize,
        end: usize,
        offset: usize,
        out: RnntBeamOutput,
    )
        requires
            self.decodes(start, end, offset, Seq::empty(), out),
        ensures
            exists|p: RnntPath|
                {
                    &&& p.tokens.len() == 0
                    &&& p.score == 0
                    &&& p.frame == start
                    &&& p.last_token == self.blank_id as i32
                    &&& is_blank_state(p.state_1)
                    &&& is_blank_state(p.state_2)
                    &&& #[trigger] self.decodes(start, end, offset, seq![p], out)
                },
    {
        let beam = choose|beam: Seq<RnntPath>|
            {
                &&& #[trigger] rnnt_beam::enters(Seq::empty(), self.blank_id, start, beam)
                &&& self.frames_are(
                    offset - start,
                    start as int,
                    end as int,
                    beam,
                    rnnt_beam::paths(out.hypotheses@),
                )
            };
        let p = beam[0];
        lemma_blank_state(p.state_1);
        lemma_blank_state(p.state_2);
        assert(rnnt_beam::committed(seq![p]) =~= beam) by {
            assert(rnnt_beam::committed(seq![p])[0] == p);
        }
        assert(rnnt_beam::enters(seq![p], self.blank_id, start, beam));
        assert(self.decodes(start, end, offset, seq![p], out));
    }

    /// An error of a pass is an error that the decoder answered with, on a frame of
    /// the pass.
    pub proof fn law_errors_are_those_of_the_decoder(
        self,
        start: usize,
        end: usize,
        offset: usize,
        carried: Seq<RnntPath>,
        e: Error,
    )
        requires
            self.may_refuse(start, end, offset, carried, e),
        ensures
            exists|t: usize, frame: Tensor3, token: i32, state_1: Tensor3, state_2: Tensor3|
                {
                    &&& start <= t < end
                    &&& #[trigger] tensor::is_frame(*self.encoder_out, t as int, frame)
                    &&& #[trigger] call_ensures(
                        *self.decoder,
                        (&frame, token, &state_1, &state_2),
                        Err::<RnntStep, Error>(e),
                    )
                },
    {
        let (t, entered, beam) = choose|
            t: usize,
            entered: Seq<RnntPath>,
            beam: Seq<RnntPath>,
        |
            {
                &&& start <= t < end
                &&& rnnt_beam::enters(carried, self.blank_id, start, entered)
                &&& #[trigger] self.refuses_at(start, offset, t, entered, beam, e)
            };
        let (w, n) = choose|w: RnntFrameTrace, n: nat| #[trigger]
            self.frame_refuses(t, (t + (offset - start)) as usize, beam, w, n, e);
        assert(self.refuses_one_of(w.frame, w.active, e));
        let i = choose|i: int|
            {
                &&& 0 <= i < w.active.len()
                &&& forall|j: int| 0 <= j < i ==> self.may_answer(w.frame, #[trigger] w.active[j])
                &&& #[trigger] call_ensures(
                    *self.decoder,
                    (&w.frame, w.active[i].last_token, &w.active[i].state_1, &w.active[i].state_2),
                    Err::<RnntStep, Error>(e),
                )
            };
        assert(tensor::is_frame(*self.encoder_out, t as int, w.frame));
    }

    /// A round of symbols keeps the best of what it merges: of the merged paths as many
    /// stay active as the beam holds, and none that is dropped is better.
    pub proof fn law_rounds_keep_the_best(
        self,
        amount: spec_fn(Bits) -> real,
        weights: spec_fn(nat) -> real,
        e: real,
        frame: Tensor3,
        t: usize,
        at: usize,
        active: Seq<RnntPath>,
        held: Seq<RnntPath>,
        next_active: Seq<RnntPath>,
        advanced: Seq<RnntPath>,
    )
        requires
            arithmetic_laws::are_amounts(amount),
            active.len() > 0,
            self.symbol_round(frame, t, at, active, held, next_active, advanced),
            forall|symbols: Seq<RnntPath>, merged: Seq<RnntPath>|
                self.all_expanded(frame, t, at, active, held, advanced, symbols)
                    && #[trigger] rnnt_beam::merged_is(self.arithmetic, symbols, merged)
                    ==> merged.len() <= usize::MAX && rnnt_merging::ranks_within(
                    self.arithmetic,
                    amount,
                    weights,
                    e,
                    merged,
                    self.config.length_penalty,
                ),
        ensures
            exists|symbols: Seq<RnntPath>, merged: Seq<RnntPath>|
                {
                    &&& self.all_expanded(frame, t, at, active, held, advanced, symbols)
                    &&& #[trigger] rnnt_beam::merged_is(self.arithmetic, symbols, merged)
                    &&& merged.len() <= self.config.beam_size ==> next_active.len()
                        == merged.len()
                    &&& merged.len() > self.config.beam_size ==> next_active.len()
                        == self.config.beam_size
                    &&& forall|i: int|
                        0 <= i < next_active.len() ==> merged.contains(#[trigger] next_active[i])
                    &&& forall|i: int, j: int|
                        0 <= i < next_active.len() && 0 <= j < merged.len()
                            && !next_active.contains(#[trigger] merged[j])
                            ==> rnnt_merging::is_no_worse(
                            amount,
                            weights,
                            e,
                            #[trigger] next_active[i],
                            merged[j],
                        )
                },
    {
        let (symbols, merged) = choose|symbols: Seq<RnntPath>, merged: Seq<RnntPath>|
            {
                &&& self.all_expanded(frame, t, at, active, held, advanced, symbols)
                &&& #[trigger] rnnt_beam::merged_is(self.arithmetic, symbols, merged)
                &&& rnnt_beam::pruned_is(self.arithmetic, merged, self.config, next_active)
            };
        rnnt_merging::law_pruning_drops_nothing_better(
            self.arithmetic,
            amount,
            weights,
            e,
            merged,
            self.config,
            next_active,
        );
    }
}

/// Merging RNN-T hypotheses keeps probability: what is left for some tokens stands for
/// the sum of what was there for them, up to rounding.
pub proof fn law_merging_rnnt_hypotheses_keeps_probability<A: Arithmetic>(
    m: &A,
    value: spec_fn(Bits) -> real,
    q: real,
    hyps: Vec<RnntHypothesis>,
    merged: Vec<RnntHypothesis>,
    p: RnntPath,
)
    requires
        rounding::stands_for(value),
        q >= 1 as real,
        call_ensures(rnnt_beam::merge_hypotheses::<A>, (m, hyps), merged),
        rnnt_merging::merging_rounds(m, value, q, rnnt_beam::paths(hyps@)),
    ensures
        near(
            power(q, hyps@.len()),
            rnnt_merging::mass(rnnt_beam::paths(merged@), value, p),
            rnnt_merging::mass(rnnt_beam::paths(hyps@), value, p),
        ),
        forall|i: int, j: int|
            0 <= i < j < merged@.len() ==> !rnnt_merging::align_the_same(
                (#[trigger] merged@[i])@,
                (#[trigger] merged@[j])@,
            ),
{
    rnnt_merging::law_merging_keeps_probability(
        m,
        value,
        q,
        rnnt_beam::paths(hyps@),
        rnnt_beam::paths(merged@),
    );
    assert forall|i: int, j: int| 0 <= i < j < merged@.len() implies
        !rnnt_merging::align_the_same(
        (#[trigger] merged@[i])@,
        (#[trigger] merged@[j])@,
    ) by {
        assert(rnnt_beam::paths(merged@)[i] == merged@[i]@);
        assert(rnnt_beam::paths(merged@)[j] == merged@[j]@);
    }
}

/// Pruning RNN-T hypotheses keeps as many as the beam holds, and drops none that is
/// better than one kept.
pub proof fn law_pruning_rnnt_hypotheses_drops_nothing_better<A: Arithmetic>(
    m: &A,
    amount: spec_fn(Bits) -> real,
    weights: spec_fn(nat) -> real,
    e: real,
    beam: Vec<RnntHypothesis>,
    config: &BeamConfig,
    pruned: Vec<RnntHypothesis>,
    i: int,
    j: int,
)
    requires
        arithmetic_laws::are_amounts(amount),
        beam@.len() <= usize::MAX,
        call_ensures(rnnt_beam::prune_beam::<A>, (m, beam, config), pruned),
        rnnt_merging::ranks_within(
            m,
            amount,
            weights,
            e,
            rnnt_beam::paths(beam@),
            config.length_penalty,
        ),
        0 <= i < pruned@.len(),
        0 <= j < beam@.len(),
    ensures
        beam@.len() <= config.beam_size ==> pruned@.len() == beam@.len(),
        beam@.len() > config.beam_size ==> pruned@.len() == config.beam_size,
        rnnt_beam::paths(beam@).contains(pruned@[i]@),
        rnnt_beam::paths(pruned@).contains(beam@[j]@) || rnnt_merging::is_no_worse(
            amount,
            weights,
            e,
            pruned@[i]@,
            beam@[j]@,
        ),
{
    rnnt_merging::law_pruning_drops_nothing_better(
        m,
        amount,
        weights,
        e,
        rnnt_beam::paths(beam@),
        *config,
        rnnt_beam::paths(pruned@),
    );
    assert(rnnt_beam::paths(beam@)[j] == beam@[j]@);
    assert(rnnt_beam::paths(pruned@)[i] == pruned@[i]@);
}

/// The RNN-T hypothesis that is selected is one of the beam that none is better than.
pub proof fn law_selected_rnnt_hypothesis_is_no_worse_than_any<A: Arithmetic>(
    m: &A,
    amount: spec_fn(Bits) -> real,
    weights: spec_fn(nat) -> real,
    e: real,
    beam: &Vec<RnntHypothesis>,
    penalty: Bits,
    best: Option<RnntHypothesis>,
)
    requires
        arithmetic_laws::are_amounts(amount),
        call_ensures(rnnt_beam::select_best::<A>, (m, beam, penalty), best),
        rnnt_merging::ranks_within(m, amount, weights, e, rnnt_beam::paths(beam@), penalty),
    ensures
        best is None <==> beam@.len() == 0,
        best matches Some(p) ==> {
            &&& rnnt_beam::paths(beam@).contains(p@)
            &&& forall|j: int|
                0 <= j < beam@.len() ==> rnnt_merging::is_no_worse(
                    amount,
                    weights,
                    e,
                    p@,
                    (#[trigger] beam@[j])@,
                )
        },
{
    rnnt_merging::law_best_is_no_worse_than_any(
        m,
        amount,
        weights,
        e,
        rnnt_beam::paths(beam@),
        penalty,
        rnnt_beam::optional_path(best),
    );
    if let Some(p) = best {
        assert forall|j: int| 0 <= j < beam@.len() implies rnnt_merging::is_no_worse(
            amount,
            weights,
            e,
            p@,
            (#[trigger] beam@[j])@,
        ) by {
            assert(rnnt_beam::paths(beam@)[j] == beam@[j]@);
        }
    }
}

/// The TDT hypothesis that is selected is one of the beam that none is better than.
pub proof fn law_selected_tdt_hypothesis_is_no_worse_than_any<A: Arithmetic>(
    m: &A,
    amount: spec_fn(Bits) -> real,
    weights: spec_fn(nat) -> real,
    e: real,
    beam: &Vec<TdtHypothesis>,
    penalty: Bits,
    best: Option<TdtHypothesis>,
)
    requires
        arithmetic_laws::are_amounts(amount),
        call_ensures(tdt_beam::select_best::<A>, (m, beam, penalty), best),
        tdt_merging::ranks_within(m, amount, weights, e, tdt_beam::paths(beam@), penalty),
    ensures
        best is None <==> beam@.len() == 0,
        best matches Some(p) ==> {
            &&& tdt_beam::paths(beam@).contains(p@)
            &&& forall|j: int|
                0 <= j < beam@.len() ==> tdt_merging::is_no_worse(
                    amount,
                    weights,
                    e,
                    p@,
                    (#[trigger] beam@[j])@,
                )
        },
{
    tdt_merging::law_best_is_no_worse_than_any(
        m,
        amount,
        weights,
        e,
        tdt_beam::paths(beam@),
        penalty,
        tdt_beam::optional_path(best),
    );
    if let Some(p) = best {
        assert forall|j: int| 0 <= j < beam@.len() implies tdt_merging::is_no_worse(
            amount,
            weights,
            e,
            p@,
            (#[trigger] beam@[j])@,
        ) by {
            assert(tdt_beam::paths(beam@)[j] == beam@[j]@);
        }
    }
}

/// Hypotheses are merged exactly where they are alignments of the same tokens.
pub proof fn law_keys_are_those_of_alignments(
    a: &RnntHypothesis,
    b: &RnntHypothesis,
    c: &TdtHypothesis,
    d: &TdtHypothesis,
    r: bool,
)
    ensures
        call_ensures(rnnt_beam::has_same_key, (a, b), r) ==> r == rnnt_merging::align_the_same(
            a@,
            b@,
        ),
        call_ensures(tdt_beam::has_same_key, (c, d), r) ==> r == tdt_merging::align_the_same(
            c@,
            d@,
        ),
{
    let x = rnnt_beam::token_ids(a@.tokens);
    let y = rnnt_beam::token_ids(b@.tokens);
    if rnnt_merging::align_the_same(a@, b@) {
        assert(x =~= y);
    } else if x == y {
        assert(x.len() == y.len());
        assert forall|i: int| 0 <= i < a@.tokens.len() implies (#[trigger] a@.tokens[i]).0
            == b@.tokens[i].0 by {
            assert(x[i] == y[i]);
        }
    }
    let u = tdt_beam::token_ids(c@.tokens);
    let v = tdt_beam::token_ids(d@.tokens);
    if tdt_merging::align_the_same(c@, d@) {
        assert(u =~= v);
    } else if u == v {
        assert(u.len() == v.len());
        assert forall|i: int| 0 <= i < c@.tokens.len() implies (#[trigger] c@.tokens[i]).0
            == d@.tokens[i].0 by {
            assert(u[i] == v[i]);
        }
    }
}

/// What one expansion of a TDT hypothesis leads to: it moves by its duration and holds
/// the token, unless it is the blank.
pub proof fn law_expanding_moves_by_the_duration(
    hyp: &TdtHypothesis,
    token: usize,
    duration: usize,
    score: Bits,
    state_1: &Tensor3,
    state_2: &Tensor3,
    blank_id: usize,
    max_symbols: usize,
    next: TdtHypothesis,
)
    requires
        hyp.step + duration < usize::MAX,
        hyp.stuck < usize::MAX,
        call_ensures(
            tdt_beam::expand_hypothesis,
            (hyp, token, duration, score, state_1, state_2, blank_id, max_symbols),
            next,
        ),
    ensures
        tdt_search::stands_after(hyp@, next@, duration as int, max_symbols as int),
        tdt_search::holds_after(hyp@, next@, token, duration, *state_1, *state_2, blank_id),
        next.score == score,
{
    tdt_search::law_expansions_move_by_their_duration(
        hyp@,
        token,
        duration,
        score,
        *state_1,
        *state_2,
        blank_id,
        max_symbols,
    );
}

/// The best hypothesis has the new tokens behind those that it had on entry: those of
/// a hypothesis that was carried in on the first frame, or none where none was.
pub open spec fn gained_in_the_pass(
    input: Seq<RnntHypothesis>,
    start_frame: usize,
    best: RnntHypothesis,
    new_tokens: Seq<(usize, usize)>,
) -> bool {
    &&& input.len() == 0 ==> best.tokens@ == new_tokens
    &&& input.len() > 0 ==> exists|k: int|
        0 <= k < input.len() && (#[trigger] input[k]).frame == start_frame && best.tokens@
            == input[k].tokens@ + new_tokens
}

/// None of the tokens is the blank, and they are stamped with frames from `from` up to
/// `to`, in order.
pub open spec fn are_stamped(
    tokens: Seq<(usize, usize)>,
    blank_id: usize,
    from: int,
    to: int,
) -> bool {
    &&& forall|i: int|
        0 <= i < tokens.len() ==> (#[trigger] tokens[i]).0 != blank_id && from <= tokens[i].1 < to
    &&& forall|i: int, j: int|
        0 <= i <= j < tokens.len() ==> (#[trigger] tokens[i]).1 <= (#[trigger] tokens[j]).1
}

proof fn lemma_new_tokens_are_stamped(
    best: RnntPath,
    root: RnntPath,
    new_tokens: Seq<(usize, usize)>,
    blank_id: usize,
    from: int,
    to: int,
    cap: nat,
)
    requires
        best.tokens == root.tokens + new_tokens,
        rnnt_laws::continues(best, root, blank_id, from, to, cap),
    ensures
        are_stamped(new_tokens, blank_id, from, to),
{
    let n = root.tokens.len();
    assert forall|i: int| 0 <= i < new_tokens.len() implies (#[trigger] new_tokens[i]).0 != blank_id
        && from <= new_tokens[i].1 < to by {
        assert(best.tokens[n + i] == new_tokens[i]);
    }
    assert forall|i: int, j: int| 0 <= i <= j < new_tokens.len() implies (
    #[trigger] new_tokens[i]).1 <= (#[trigger] new_tokens[j]).1 by {
        assert(best.tokens[n + i] == new_tokens[i]);
        assert(best.tokens[n + j] == new_tokens[j]);
    }
}

proof fn lemma_roots_are_carried(
    input: Seq<RnntHypothesis>,
    blank_id: usize,
    start_frame: usize,
    beam: Seq<RnntPath>,
    k: int,
    best: RnntHypothesis,
    new_tokens: Seq<(usize, usize)>,
)
    requires
        rnnt_beam::enters(rnnt_beam::paths(input), blank_id, start_frame, beam),
        0 <= k < beam.len(),
        beam[k].frame == start_frame,
        best.tokens@ == beam[k].tokens + new_tokens,
    ensures
        gained_in_the_pass(input, start_frame, best, new_tokens),
{
    if input.len() > 0 {
        assert(beam.len() == input.len());
        assert(rnnt_beam::paths(input)[k] == input[k]@);
        assert(beam[k].tokens == input[k].tokens@);
        assert(beam[k].frame == input[k].frame);
    } else {
        assert(best.tokens@ =~= new_tokens);
    }
}

impl<
    A: Arithmetic,
    D: Fn(&Tensor3, i32, &Tensor3, &Tensor3) -> Result<RnntStep, Error>,
> RnntContext<'_, A, D> {
    proof fn lemma_pass_gains(
        self,
        start: usize,
        end: usize,
        offset: usize,
        input: Seq<RnntHypothesis>,
        out: RnntBeamOutput,
    )
        requires
            self.decodes(start, end, offset, rnnt_beam::paths(input), out),
            start < end,
            offset + (end - start) <= usize::MAX,
            forall|i: int| 0 <= i < input.len() ==> (#[trigger] input[i]).tokens@.len() <= usize::MAX,
        ensures
            out.best_hypothesis is None <==> out.hypotheses@.len() == 0,
            are_stamped(
                out.new_tokens@,
                self.blank_id,
                offset as int,
                offset + (end - start),
            ),
            out.best_hypothesis matches Some(best) ==> rnnt_beam::paths(
                out.hypotheses@,
            ).contains(best@) && gained_in_the_pass(input, start, best, out.new_tokens@),
    {
        let carried = rnnt_beam::paths(input);
        assert forall|i: int| 0 <= i < carried.len() implies (#[trigger] carried[i]).tokens.len()
            <= usize::MAX by {
            assert(carried[i] == input[i]@);
        }
        self.law_new_tokens_are_those_of_the_pass(start, end, offset, carried, out);
        if let Some(best) = out.best_hypothesis {
            let (beam, k) = choose|beam: Seq<RnntPath>, k: int|
                {
                    &&& #[trigger] rnnt_beam::enters(carried, self.blank_id, start, beam)
                    &&& 0 <= k < beam.len()
                    &&& start < end ==> beam[k].frame == start
                    &&& best.tokens@ == beam[k].tokens + out.new_tokens@
                    &&& #[trigger] rnnt_laws::continues(
                        best@,
                        beam[k],
                        self.blank_id,
                        offset as int,
                        offset + (end - start),
                        self.config.max_symbols_per_step as nat,
                    )
                };
            lemma_new_tokens_are_stamped(
                best@,
                beam[k],
                out.new_tokens@,
                self.blank_id,
                offset as int,
                offset + (end - start),
                self.config.max_symbols_per_step as nat,
            );
            lemma_roots_are_carried(
                input,
                self.blank_id,
                start,
                beam,
                k,
                best,
                out.new_tokens@,
            );
        }
    }
}

/// What a call of RNN-T decoding gives. Without a frame to decode it hands the
/// hypotheses back and emits nothing. Otherwise all hypotheses stand behind the last
/// frame, which is neither past `end_frame` nor past the encoder output, and the best
/// of them has the new tokens behind those that it had on entry, each stamped with a
/// frame counted from the offset, in order.
pub proof fn law_rnnt_calls_decode_their_range<
    A: Arithmetic,
    D: Fn(&Tensor3, i32, &Tensor3, &Tensor3) -> Result<RnntStep, Error>,
>(
    arithmetic: &A,
    encoder_out: &Tensor3,
    start_frame: usize,
    end_frame: usize,
    offset: usize,
    blank_id: usize,
    config: &BeamConfig,
    input: Vec<RnntHypothesis>,
    decoder: &D,
    out: RnntBeamOutput,
    last: int,
)
    requires
        call_ensures(
            rnnt_beam::decode_rnnt_beam::<A, D>,
            (
                arithmetic,
                encoder_out,
                start_frame,
                end_frame,
                offset,
                blank_id,
                config,
                input,
                decoder,
            ),
            Ok::<RnntBeamOutput, Error>(out),
        ),
        last <= end_frame,
        last <= tensor::tensor3_shape(*encoder_out).2,
        last == end_frame || last == tensor::tensor3_shape(*encoder_out).2,
        offset + (last - start_frame) <= usize::MAX,
        forall|i: int| 0 <= i < input@.len() ==> (#[trigger] input@[i]).tokens@.len() <= usize::MAX,
    ensures
        start_frame >= last ==> {
            &&& out.hypotheses == input
            &&& out.new_tokens@.len() == 0
            &&& out.best_hypothesis is None
        },
        start_frame < last ==> {
            &&& out.hypotheses@.len() <= config.beam_size
            &&& forall|i: int|
                0 <= i < out.hypotheses@.len() ==> (#[trigger] out.hypotheses@[i]).frame == last
            &&& out.best_hypothesis is None <==> out.hypotheses@.len() == 0
            &&& are_stamped(
                out.new_tokens@,
                blank_id,
                offset as int,
                offset + (last - start_frame),
            )
            &&& out.best_hypothesis matches Some(best) ==> rnnt_beam::paths(
                out.hypotheses@,
            ).contains(best@) && gained_in_the_pass(
                input@,
                start_frame,
                best,
                out.new_tokens@,
            )
        },
{
    let end = rnnt_beam::last_frame(*encoder_out, end_frame);
    assert(end == last);
    if start_frame < last {
        let c = RnntContext { arithmetic, decoder, encoder_out, blank_id, config: *config };
        assert(c.decodes(start_frame, end, offset, rnnt_beam::paths(input@), out));
        c.lemma_pass_gains(start_frame, end, offset, input@, out);
    }
}

/// A call of RNN-T decoding fails only where the decoder does: on a frame of the
/// range, and with the error that the decoder answered with.
pub proof fn law_rnnt_calls_fail_with_their_decoder<
    A: Arithmetic,
    D: Fn(&Tensor3, i32, &Tensor3, &Tensor3) -> Result<RnntStep, Error>,
>(
    arithmetic: &A,
    encoder_out: &Tensor3,
    start_frame: usize,
    end_frame: usize,
    offset: usize,
    blank_id: usize,
    config: &BeamConfig,
    input: Vec<RnntHypothesis>,
    decoder: &D,
    e: Error,
)
    requires
        call_ensures(
            rnnt_beam::decode_rnnt_beam::<A, D>,
            (
                arithmetic,
                encoder_out,
                start_frame,
                end_frame,
                offset,
                blank_id,
                config,
                input,
                decoder,
            ),
            Err::<RnntBeamOutput, Error>(e),
        ),
    ensures
        exists|t: usize, frame: Tensor3, token: i32, state_1: Tensor3, state_2: Tensor3|
            {
                &&& start_frame <= t < end_frame
                &&& #[trigger] tensor::is_frame(*encoder_out, t as int, frame)
                &&& #[trigger] call_ensures(
                    *decoder,
                    (&frame, token, &state_1, &state_2),
                    Err::<RnntStep, Error>(e),
                )
            },
{
    let c = RnntContext { arithmetic, decoder, encoder_out, blank_id, config: *config };
    c.law_errors_are_those_of_the_decoder(
        start_frame,
        rnnt_beam::last_frame(*encoder_out, end_frame),
        offset,
        rnnt_beam::paths(input@),
        e,
    );
}

impl<
    A: Arithmetic,
    D: Fn(&Tensor3, i32, &Tensor3, &Tensor3) -> Result<TdtStep, Error>,
> TdtContext<'_, A, D> {
    /// An error of a search is an error that the decoder answered with, on a frame that
    /// is decoded.
    pub proof fn law_errors_are_those_of_the_decoder(self, e: Error)
        requires
            self.may_refuse(e),
        ensures
            exists|t: usize, frame: Tensor3, token: i32, state_1: Tensor3, state_2: Tensor3|
                {
                    &&& t < self.time_steps
                    &&& #[trigger] tensor::is_frame(*self.encoder_out, t as int, frame)
                    &&& #[trigger] call_ensures(
                        *self.decoder,
                        (&frame, token, &state_1, &state_2),
                        Err::<TdtStep, Error>(e),
                    )
                },
    {
        let (room, n, seed, finished, active) = choose|
            room: usize,
            n: nat,
            seed: TdtPath,
            finished: Seq<TdtPath>,
            active: Seq<TdtPath>,
        | #[trigger]
            self.round_refuses(room, n, seed, finished, active, e);
        let (i, frame) = choose|i: int, frame: Tensor3|
            {
                &&& 0 <= i < active.len()
                &&& forall|j: int| 0 <= j < i ==> self.may_answer(#[trigger] active[j])
                &&& active[i].step < self.time_steps
                &&& tensor::is_frame(*self.encoder_out, active[i].step as int, frame)
                &&& #[trigger] call_ensures(
                    *self.decoder,
                    (&frame, active[i].last_token, &active[i].state_1, &active[i].state_2),
                    Err::<TdtStep, Error>(e),
                )
            };
        assert(tensor::is_frame(*self.encoder_out, active[i].step as int, frame));
    }
}

/// What a call of TDT decoding gives: tokens with their frames and durations, none of
/// them the blank, none on a frame past the encoder output or past its length, in the
/// order of their frames, and none before the one before it has lasted.
pub proof fn law_tdt_calls_lay_their_tokens_out<
    A: Arithmetic,
    D: Fn(&Tensor3, i32, &Tensor3, &Tensor3) -> Result<TdtStep, Error>,
>(
    arithmetic: &A,
    encoder_out: &Tensor3,
    encoder_len: usize,
    blank_id: usize,
    vocab_size: usize,
    config: &BeamConfig,
    decoder: &D,
    out: TdtBeamOutput,
)
    requires
        call_ensures(
            tdt_beam::decode_tdt_beam::<A, D>,
            (arithmetic, encoder_out, encoder_len, blank_id, vocab_size, config, decoder),
            Ok::<TdtBeamOutput, Error>(out),
        ),
        tensor::tensor3_shape(*encoder_out).2 + 4 <= usize::MAX,
    ensures
        out.tokens@.len() == out.frame_indices@.len(),
        out.tokens@.len() == out.durations@.len(),
        forall|i: int|
            0 <= i < out.tokens@.len() ==> {
                &&& #[trigger] out.tokens@[i] != blank_id
                &&& out.frame_indices@[i] < encoder_len
                &&& out.frame_indices@[i] < tensor::tensor3_shape(*encoder_out).2
                &&& out.durations@[i] <= 4
            },
        forall|i: int, j: int|
            0 <= i < j < out.tokens@.len() ==> #[trigger] out.frame_indices@[i] <= (
            #[trigger] out.frame_indices@[j]),
        config.max_symbols_per_step > 0 ==> forall|i: int, j: int|
            0 <= i < j < out.tokens@.len() ==> #[trigger] out.frame_indices@[i]
                + out.durations@[i] <= (#[trigger] out.frame_indices@[j]),
{
    let c = TdtContext {
        arithmetic,
        decoder,
        encoder_out,
        time_steps: tdt_beam::fewer(tensor::tensor3_shape(*encoder_out).2, encoder_len),
        blank_id,
        vocab_size,
        config: *config,
    };
    c.law_output_is_laid_out(out);
}

/// A call of TDT decoding fails only where the decoder does: on a frame that is
/// decoded, and with the error that the decoder answered with.
pub proof fn law_tdt_calls_fail_with_their_decoder<
    A: Arithmetic,
    D: Fn(&Tensor3, i32, &Tensor3, &Tensor3) -> Result<TdtStep, Error>,
>(
    arithmetic: &A,
    encoder_out: &Tensor3,
    encoder_len: usize,
    blank_id: usize,
    vocab_size: usize,
    config: &BeamConfig,
    decoder: &D,
    e: Error,
)
    requires
        call_ensures(
            tdt_beam::decode_tdt_beam::<A, D>,
            (arithmetic, encoder_out, encoder_len, blank_id, vocab_size, config, decoder),
            Err::<TdtBeamOutput, Error>(e),
        ),
    ensures
        exists|t: usize, frame: Tensor3, token: i32, state_1: Tensor3, state_2: Tensor3|
            {
                &&& t < encoder_len
                &&& #[trigger] tensor::is_frame(*encoder_out, t as int, frame)
                &&& #[trigger] call_ensures(
                    *decoder,
                    (&frame, token, &state_1, &state_2),
                    Err::<TdtStep, Error>(e),
                )
            },
{
    let c = TdtContext {
        arithmetic,
        decoder,
        encoder_out,
        time_steps: tdt_beam::fewer(tensor::tensor3_shape(*encoder_out).2, encoder_len),
        blank_id,
        vocab_size,
        config: *config,
    };
    c.law_errors_are_those_of_the_decoder(e);
}

impl<
    D: Fn(&Tensor3, i32, &Tensor3, &Tensor3) -> Result<TdtStep, Error>,
> GreedyContext<'_, D> {
    /// Every decoder call reads the frame that the search stands on.
    pub proof fn law_calls_read_the_frame_they_stand_on(
        self,
        p: GreedyPath,
        frame: Tensor3,
        step: TdtStep,
        next: GreedyPath,
        j: int,
    )
        requires
            self.steps_to(p, frame, step, next),
            0 <= j < tensor::tensor3_shape(*self.encoder_out).1,
        ensures
            tensor::tensor3_items(frame).len() == tensor::tensor3_shape(*self.encoder_out).1,
            tensor::tensor3_items(frame)[j] == tensor::tensor3_items(*self.encoder_out)[j
                * tensor::tensor3_shape(*self.encoder_out).2 + p.t],
    {
        tensor::law_frame_holds_one_time_step(*self.encoder_out, p.t as int, frame, j);
    }

    /// `out` lists what a run of `n` calls from the first frame has emitted when it has
    /// read the last frame.
    pub open spec fn lists_a_whole_run(
        self,
        n: nat,
        start: GreedyPath,
        end: GreedyPath,
        out: TdtBeamOutput,
    ) -> bool {
        &&& start.t == 0
        &&& start.tokens.len() == 0
        &&& start.last_token == self.blank_id as i32
        &&& is_blank_state(start.state_1)
        &&& is_blank_state(start.state_2)
        &&& self.runs_to(n, start, end)
        &&& end.t == tensor::tensor3_shape(*self.encoder_out).2
        &&& out.tokens@ == end.tokens
        &&& out.frame_indices@ == end.frame_indices
        &&& out.durations@ == end.durations
    }

    /// A call of greedy decoding reads from the first frame to the last: its output is
    /// what a run has emitted that starts on the first frame with the blank and ends
    /// behind the last frame. It fails only where the decoder does.
    pub proof fn law_greedy_calls_read_to_the_end(&self, r: Result<TdtBeamOutput, Error>)
        requires
            call_ensures(GreedyContext::<'_, D>::decode, (self,), r),
        ensures
            r matches Ok(out) ==> exists|n: nat, start: GreedyPath, end: GreedyPath| #[trigger]
                self.lists_a_whole_run(n, start, end, out),
            r matches Err(e) ==> exists|
                t: usize,
                frame: Tensor3,
                token: i32,
                state_1: Tensor3,
                state_2: Tensor3,
            |
                {
                    &&& t < tensor::tensor3_shape(*self.encoder_out).2
                    &&& #[trigger] tensor::is_frame(*self.encoder_out, t as int, frame)
                    &&& #[trigger] call_ensures(
                        *self.decoder,
                        (&frame, token, &state_1, &state_2),
                        Err::<TdtStep, Error>(e),
                    )
                },
    {
        match r {
            Ok(out) => {
                let (n, start, end) = choose|n: nat, start: GreedyPath, end: GreedyPath|
                    {
                        &&& #[trigger] tdt_greedy::is_start(start, self.blank_id)
                        &&& #[trigger] self.runs_to(n, start, end)
                        &&& end.t >= self.time_steps()
                        &&& tdt_greedy::gives(end, out)
                    };
                self.law_search_is_laid_out(n, start, end);
                lemma_blank_state(start.state_1);
                lemma_blank_state(start.state_2);
                assert(self.lists_a_whole_run(n, start, end, out));
            },
            Err(e) => {
                let (n, start, p, frame) = choose|
                    n: nat,
                    start: GreedyPath,
                    p: GreedyPath,
                    frame: Tensor3,
                | #[trigger]
                    self.call_refuses(n, start, p, frame, e);
                assert(tensor::is_frame(*self.encoder_out, p.t as int, frame));
            },
        }
    }

    /// An answer without token logits counts as a blank: it moves the search by its
    /// duration, or by one frame without one, and emits nothing. One without duration
    /// logits counts as a duration of zero: a token stays on its frame as long as it may.
    pub proof fn law_missing_logits_count_as_blank_and_zero(
        self,
        p: GreedyPath,
        frame: Tensor3,
        step: TdtStep,
        next: GreedyPath,
        best: int,
    )
        requires
            self.steps_to(p, frame, step, next),
            p.emitted < 10,
            self.time_steps() <= isize::MAX,
        ensures
            step.0@.len() == 0 && tdt_greedy::is_best(step.1@, best) ==> {
                &&& next.tokens == p.tokens
                &&& next.last_token == p.last_token
                &&& next.emitted == 0
                &&& best > 0 && p.t + best < self.time_steps() ==> next.t == p.t + best
                &&& best > 0 && p.t + best >= self.time_steps() ==> next.t == self.time_steps()
                &&& best == 0 ==> next.t == p.t + 1
            },
            step.1@.len() == 0 && tdt_greedy::is_best(step.0@, best) ==> {
                &&& best == self.blank_id ==> next.t == p.t + 1 && next.tokens == p.tokens
                &&& best != self.blank_id ==> next.tokens == p.tokens + seq![best as usize]
                    && next.durations == p.durations + seq![0usize]
                &&& best != self.blank_id && p.emitted + 1 < 10 ==> next.t == p.t
                &&& best != self.blank_id && p.emitted + 1 == 10 ==> next.t == p.t + 1
            },
    {
        if tdt_greedy::is_best(step.1@, best) {
            tdt_greedy::lemma_best_is_last_max(step.1@, best);
        }
        if tdt_greedy::is_best(step.0@, best) {
            tdt_greedy::lemma_best_is_last_max(step.0@, best);
        }
    }
}

/// Pruning a CTC beam keeps as many entries as asked for, and drops none that is more
/// probable than one kept, over all the label paths of either.
pub proof fn law_pruning_ctc_entries_drops_nothing_more_probable<A: Arithmetic>(
    m: &A,
    value: spec_fn(Bits) -> real,
    q: real,
    beam: &Vec<CtcBeamEntry>,
    beam_size: usize,
    pruned: Vec<CtcBeamEntry>,
    i: int,
    j: int,
)
    requires
        rounding::stands_for(value),
        q >= 1 as real,
        beam@.len() <= usize::MAX,
        ctc_pruning::entries_round(m, value, q, ctc_beam::prefixes(beam@)),
        call_ensures(ctc_beam::prune_beam::<A>, (m, beam, beam_size), pruned),
        0 <= i < pruned@.len(),
        0 <= j < beam@.len(),
    ensures
        beam@.len() <= beam_size ==> pruned@.len() == beam@.len(),
        beam@.len() > beam_size ==> pruned@.len() == beam_size,
        ctc_beam::prefixes(beam@).contains(pruned@[i]@),
        ctc_beam::prefixes(pruned@).contains(beam@[j]@) || ctc_pruning::whole(beam@[j]@, value) <= (
        q * q) * ctc_pruning::whole(pruned@[i]@, value),
{
    ctc_pruning::law_pruning_drops_nothing_more_probable(
        m,
        value,
        q,
        ctc_beam::prefixes(beam@),
        beam_size,
        ctc_beam::prefixes(pruned@),
    );
    assert(ctc_beam::prefixes(beam@)[j] == beam@[j]@);
    assert(ctc_beam::prefixes(pruned@)[i] == pruned@[i]@);
}

/// The score of an entry stands for the probability of its prefix: of the label paths
/// that end in a blank and of those that do not.
pub proof fn law_prefix_scores_are_of_both_kinds_of_paths<A: Arithmetic>(
    m: &A,
    value: spec_fn(Bits) -> real,
    q: real,
    entry: &CtcBeamEntry,
    r: Bits,
)
    requires
        rounding::rounds_sum(m, value, q, entry.log_pb, entry.log_pnb),
        call_ensures(ctc_beam::prefix_score::<A>, (m, entry), r),
    ensures
        near(q, value(r), value(entry.log_pb) + value(entry.log_pnb)),
{
}

/// Collapsing a row of labels: a label more adds itself, unless it is the blank or
/// repeats the label before it.
pub proof fn law_collapsing_adds_new_labels(
    labels: &Vec<u32>,
    longer: &Vec<u32>,
    blank_id: usize,
    r: Vec<u32>,
    s: Vec<u32>,
)
    requires
        longer@.len() == labels@.len() + 1,
        longer@.take(labels@.len() as int) == labels@,
        blank_id <= u32::MAX,
        call_ensures(ctc_beam::ctc_collapse, (labels, blank_id), r),
        call_ensures(ctc_beam::ctc_collapse, (longer, blank_id), s),
    ensures
        labels@.len() == 0 ==> r@.len() == 0,
        longer@.last() == blank_id ==> s@ == r@,
        labels@.len() > 0 && longer@.last() == labels@.last() ==> s@ == r@,
        longer@.last() != blank_id && (labels@.len() == 0 || longer@.last() != labels@.last())
            ==> s@ == r@ + seq![longer@.last()],
{
    assert(longer@.drop_last() =~= labels@);
}

/// Greedy CTC decoding collapses the row of the best labels, one for each frame.
pub proof fn law_greedy_ctc_collapses_the_best_labels(
    logits: &Tensor2,
    blank_id: usize,
    labels: &Vec<u32>,
    r: Vec<u32>,
    s: Vec<u32>,
)
    requires
        0 < tensor::tensor2_shape(*logits).1 <= u32::MAX,
        labels@.len() == tensor::tensor2_shape(*logits).0,
        forall|t: int|
            0 <= t < labels@.len() ==> tdt_greedy::is_best(
                tensor::row_items(*logits, t),
                (#[trigger] labels@[t]) as int,
            ),
        call_ensures(ctc_beam::decode_ctc_greedy, (logits, blank_id), r),
        call_ensures(ctc_beam::ctc_collapse, (labels, blank_id), s),
    ensures
        r@ == s@,
{
    let path = ctc_beam::greedy_path(*logits);
    assert forall|t: int| 0 <= t < path.len() implies path[t] == labels@[t] by {
        tdt_greedy::lemma_best_is_last_max(tensor::row_items(*logits, t), labels@[t] as int);
    }
    assert(path =~= labels@);
}

/// The result of a call of CTC beam decoding is a prefix of the last beam that none is
/// more probable than, up to rounding, and holds no blank. Without a frame it is empty.
pub proof fn law_ctc_calls_give_the_most_probable_prefix<A: Arithmetic>(
    m: &A,
    value: spec_fn(Bits) -> real,
    q: real,
    logits: &Tensor2,
    blank_id: usize,
    config: &BeamConfig,
    tokens: Vec<u32>,
)
    requires
        rounding::stands_for(value),
        q >= 1 as real,
        call_ensures(ctc_beam::decode_ctc_beam::<A>, (m, logits, blank_id, config), tokens),
        forall|beam: Seq<ctc_beam::CtcPrefix>| #[trigger]
            ctc_pruning::is_last_beam(m, *logits, blank_id, *config, beam)
                ==> ctc_pruning::entries_round(m, value, q, beam),
    ensures
        tensor::tensor2_shape(*logits).0 == 0 ==> tokens@.len() == 0,
        tensor::tensor2_shape(*logits).0 > 0 ==> exists|beam: Seq<ctc_beam::CtcPrefix>| #[trigger]
            ctc_pruning::is_last_beam(m, *logits, blank_id, *config, beam) && (beam.len() == 0
                ==> tokens@.len() == 0) && (beam.len() > 0 ==> ctc_pruning::is_most_probable_of(
                tokens@,
                beam,
                value,
                q,
            )),
{
    if tensor::tensor2_shape(*logits).0 > 0 {
        ctc_pruning::law_result_is_the_most_probable_of_the_last_beam(
            m,
            value,
            q,
            *logits,
            blank_id,
            *config,
            tokens@,
        );
    }
}

} // verus!
