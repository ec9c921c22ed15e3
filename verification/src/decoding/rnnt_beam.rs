//! RNN-T beam search over a decoder callback.
//!
//! On every encoder frame each hypothesis is expanded by its best tokens: a
//! blank moves it to the next frame, any other token extends it on the same
//! frame. Hypotheses that emitted the same tokens are merged, and the beam is
//! pruned by length-normalized score. The surviving beam can be carried into
//! the next chunk of a stream.
use vstd::prelude::*;
use crate::arithmetic;
use crate::arithmetic::{length_normalized_score, log_softmax, log_sum_exp, Arithmetic};
use crate::decoding::rnnt_laws;
use crate::decoding::{initial_state, BeamConfig};
use crate::error::Error;
use crate::ranking;
use crate::ranking::{max_index, top_k_indices};
use crate::single;
use crate::single::Bits;
use crate::tensor;
use crate::tensor::Tensor3;

verus! {

/// One RNN-T beam hypothesis: decoder state and emitted tokens.
#[derive(Debug)]
pub struct RnntHypothesis {
    /// Log-probability of the path.
    pub score: Bits,
    /// The encoder frame that the path stands on.
    pub frame: usize,
    /// The last token that is not blank, which the decoder is fed.
    pub last_token: i32,
    /// First decoder state.
    pub state_1: Tensor3,
    /// Second decoder state.
    pub state_2: Tensor3,
    /// Tokens emitted on the current frame.
    pub symbols_on_frame: usize,
    /// Emitted tokens, each with the absolute encoder frame it was emitted on.
    pub tokens: Vec<(usize, usize)>,
    /// How many of the tokens were emitted before the current decode pass.
    pub prev_token_count: usize,
}

/// Output of one decode pass over a range of encoder frames.
#[derive(Debug, Clone)]
pub struct RnntBeamOutput {
    /// Tokens that the best path emitted during this pass.
    pub new_tokens: Vec<(usize, usize)>,
    /// Hypotheses to carry into the next chunk.
    pub hypotheses: Vec<RnntHypothesis>,
    /// The best hypothesis by length-normalized score.
    pub best_hypothesis: Option<RnntHypothesis>,
}

/// What a hypothesis holds.
pub struct RnntPath {
    pub score: Bits,
    pub frame: usize,
    pub last_token: i32,
    pub state_1: Tensor3,
    pub state_2: Tensor3,
    pub symbols_on_frame: usize,
    pub tokens: Seq<(usize, usize)>,
    pub prev_token_count: usize,
}

/// What a decoder call returns: the logits and the two new states.
pub type RnntStep = (Vec<Bits>, Tensor3, Tensor3);

impl View for RnntHypothesis {
    type V = RnntPath;

    open spec fn view(&self) -> RnntPath {
        RnntPath {
            score: self.score,
            frame: self.frame,
            last_token: self.last_token,
            state_1: self.state_1,
            state_2: self.state_2,
            symbols_on_frame: self.symbols_on_frame,
            tokens: self.tokens@,
            prev_token_count: self.prev_token_count,
        }
    }
}

/// What each of a row of hypotheses holds.
pub open spec fn paths(hyps: Seq<RnntHypothesis>) -> Seq<RnntPath> {
    Seq::new(hyps.len(), |i: int| hyps[i]@)
}

fn copy_tokens(tokens: &Vec<(usize, usize)>, from: usize) -> (r: Vec<(usize, usize)>)
    requires
        from <= tokens@.len(),
    ensures
        r@ == tokens@.skip(from as int),
{
    let mut r: Vec<(usize, usize)> = Vec::new();
    let mut i: usize = from;
    while i < tokens.len()
        invariant
            from <= i <= tokens@.len(),
            r@ == tokens@.subrange(from as int, i as int),
        decreases tokens@.len() - i,
    {
        r.push(tokens[i]);
        i = i + 1;
        assert(r@ =~= tokens@.subrange(from as int, i as int));
    }
    assert(r@ =~= tokens@.skip(from as int));
    r
}

impl Clone for RnntHypothesis {
    fn clone(&self) -> (r: Self)
        ensures
            r@ == self@,
    {
        let tokens = copy_tokens(&self.tokens, 0);
        assert(tokens@ =~= self.tokens@);
        RnntHypothesis {
            score: self.score,
            frame: self.frame,
            last_token: self.last_token,
            state_1: self.state_1.clone(),
            state_2: self.state_2.clone(),
            symbols_on_frame: self.symbols_on_frame,
            tokens,
            prev_token_count: self.prev_token_count,
        }
    }
}

/// The path after a blank: the score changes and time advances; the decoder
/// input and state stay at the last token that is not blank.
pub open spec fn after_blank(p: RnntPath, score: Bits, next_frame: usize) -> RnntPath {
    RnntPath { score, frame: next_frame, symbols_on_frame: 0, ..p }
}

/// The path after the token `token`, emitted on the absolute frame `at`.
pub open spec fn after_symbol(
    p: RnntPath,
    token: usize,
    score: Bits,
    state_1: Tensor3,
    state_2: Tensor3,
    at: usize,
) -> RnntPath {
    RnntPath {
        score,
        last_token: token as i32,
        state_1,
        state_2,
        symbols_on_frame: (p.symbols_on_frame + 1) as usize,
        tokens: p.tokens.push((token, at)),
        ..p
    }
}

/// The token ids of a path.
pub open spec fn token_ids(tokens: Seq<(usize, usize)>) -> Seq<usize> {
    Seq::new(tokens.len(), |i: int| tokens[i].0)
}

/// Two paths that are merged: they stand on the same frame, were fed the same
/// last token, and emitted the same token ids.
pub open spec fn same_key(a: RnntPath, b: RnntPath) -> bool {
    &&& a.frame == b.frame
    &&& a.last_token == b.last_token
    &&& token_ids(a.tokens) == token_ids(b.tokens)
}

/// `i` is the first place in `held` with the key of `p`, or its length where
/// there is none.
pub open spec fn is_place_of(held: Seq<RnntPath>, p: RnntPath, i: int) -> bool {
    &&& 0 <= i <= held.len()
    &&& forall|j: int| 0 <= j < i ==> !same_key(#[trigger] held[j], p)
    &&& i < held.len() ==> same_key(held[i], p)
}

/// `next` is `held` after taking in `p`: a path with the same key takes over its
/// probability, and otherwise `p` comes last.
pub open spec fn absorbs<A: Arithmetic>(
    m: &A,
    held: Seq<RnntPath>,
    p: RnntPath,
    i: int,
    score: Bits,
    next: Seq<RnntPath>,
) -> bool {
    &&& is_place_of(held, p, i)
    &&& if i < held.len() {
        &&& arithmetic::log_sum_exp_is(m, held[i].score, p.score, score)
        &&& next == held.update(i, RnntPath { score, ..held[i] })
    } else {
        next == held.push(p)
    }
}

/// `merged` is what is left of `all` after merging, in the order in which keys
/// first occur.
pub open spec fn merged_is<A: Arithmetic>(
    m: &A,
    all: Seq<RnntPath>,
    merged: Seq<RnntPath>,
) -> bool
    decreases all.len(),
{
    if all.len() == 0 {
        merged.len() == 0
    } else {
        exists|held: Seq<RnntPath>, i: int, score: Bits|
            merged_is(m, all.drop_last(), held) && #[trigger] absorbs(
                m,
                held,
                all.last(),
                i,
                score,
                merged,
            )
    }
}

/// `keys` holds what the length-normalized scores of `beam` may come to.
pub open spec fn keys_are<A: Arithmetic>(
    m: &A,
    beam: Seq<RnntPath>,
    penalty: Bits,
    keys: Seq<Bits>,
) -> bool {
    &&& keys.len() == beam.len()
    &&& forall|i: int|
        0 <= i < beam.len() ==> arithmetic::length_normalized_score_is(
            m,
            beam[i].score,
            beam[i].tokens.len(),
            penalty,
            #[trigger] keys[i],
        )
}

/// `pruned` is the best `beam_size` of `beam` by length-normalized score, best
/// first.
pub open spec fn pruned_is<A: Arithmetic>(
    m: &A,
    beam: Seq<RnntPath>,
    config: BeamConfig,
    pruned: Seq<RnntPath>,
) -> bool {
    exists|keys: Seq<Bits>, order: Seq<usize>|
        {
            &&& #[trigger] keys_are(m, beam, config.length_penalty, keys)
            &&& #[trigger] ranking::is_top(keys, config.beam_size as nat, order)
            &&& pruned == ranking::pick(beam, order)
        }
}

/// `best` is the best of `beam` by length-normalized score, the last one among
/// equals.
pub open spec fn best_is<A: Arithmetic>(
    m: &A,
    beam: Seq<RnntPath>,
    penalty: Bits,
    best: Option<RnntPath>,
) -> bool {
    if beam.len() == 0 {
        best is None
    } else {
        exists|keys: Seq<Bits>|
            {
                &&& #[trigger] keys_are(m, beam, penalty, keys)
                &&& best == Some(beam[ranking::last_max(keys)])
            }
    }
}

/// The paths of `beam` that stand on frame `t`, in order.
pub open spec fn on_frame(beam: Seq<RnntPath>, t: usize) -> Seq<RnntPath>
    decreases beam.len(),
{
    if beam.len() == 0 {
        Seq::empty()
    } else {
        let rest = on_frame(beam.drop_last(), t);
        if beam.last().frame == t {
            rest.push(beam.last())
        } else {
            rest
        }
    }
}

/// One expansion of a path: what the decoder answered, the log-probabilities,
/// the tokens taken up, best first, and the score after each.
pub struct RnntExpansion {
    pub logits: Seq<Bits>,
    pub state_1: Tensor3,
    pub state_2: Tensor3,
    pub log_probs: Seq<Bits>,
    pub order: Seq<usize>,
    pub scores: Seq<Bits>,
}

/// The path after a blank, where the blank is among the first `n` tokens taken up.
pub open spec fn blanks_of(
    p: RnntPath,
    x: RnntExpansion,
    n: nat,
    blank_id: usize,
    next_frame: usize,
) -> Seq<RnntPath>
    decreases n,
{
    if n == 0 {
        Seq::empty()
    } else {
        let rest = blanks_of(p, x, (n - 1) as nat, blank_id, next_frame);
        if x.order[n - 1] == blank_id {
            rest.push(after_blank(p, x.scores[n - 1], next_frame))
        } else {
            rest
        }
    }
}

/// The paths after the first `n` tokens taken up, the blank left out.
pub open spec fn symbols_of(
    p: RnntPath,
    x: RnntExpansion,
    n: nat,
    blank_id: usize,
    at: usize,
) -> Seq<RnntPath>
    decreases n,
{
    if n == 0 {
        Seq::empty()
    } else {
        let rest = symbols_of(p, x, (n - 1) as nat, blank_id, at);
        if x.order[n - 1] == blank_id {
            rest
        } else {
            rest.push(
                after_symbol(p, x.order[n - 1], x.scores[n - 1], x.state_1, x.state_2, at),
            )
        }
    }
}

/// What stays the same during a decode pass.
pub struct RnntContext<'a, A, D> {
    /// The arithmetic on scores.
    pub arithmetic: &'a A,
    /// The decoder callback.
    pub decoder: &'a D,
    /// Encoder output of shape `(batch, hidden, time)`.
    pub encoder_out: &'a Tensor3,
    /// The blank token.
    pub blank_id: usize,
    /// The search parameters.
    pub config: BeamConfig,
}

/// How one frame was decoded.
pub struct RnntFrameTrace {
    /// The encoder frame handed to the decoder.
    pub frame: Tensor3,
    /// The paths that entered the frame.
    pub entered: Seq<RnntPath>,
    /// The paths still on the frame after the last round of symbols.
    pub active: Seq<RnntPath>,
    /// The paths that a blank has moved on.
    pub advanced: Seq<RnntPath>,
    /// All paths that move on to the next frame.
    pub all: Seq<RnntPath>,
    /// The same paths after merging.
    pub merged: Seq<RnntPath>,
}

impl<'a, A: Arithmetic, D: Fn(&Tensor3, i32, &Tensor3, &Tensor3) -> Result<RnntStep, Error>>
    RnntContext<'a, A, D> {
    /// `logits` and the two states are what the decoder may answer on `frame`
    /// for `p`: it is handed the last token that is not blank, and the states
    /// that belong to it.
    pub open spec fn answers(
        self,
        frame: Tensor3,
        p: RnntPath,
        logits: Seq<Bits>,
        state_1: Tensor3,
        state_2: Tensor3,
    ) -> bool {
        exists|v: Vec<Bits>|
            v@ == logits && #[trigger] call_ensures(
                *self.decoder,
                (&frame, p.last_token, &p.state_1, &p.state_2),
                Ok::<RnntStep, Error>((v, state_1, state_2)),
            )
    }

    /// `x` ranks and scores the best tokens by its own logits.
    pub open spec fn scores_tokens(self, p: RnntPath, x: RnntExpansion) -> bool {
        &&& arithmetic::log_softmax_is(self.arithmetic, x.logits, x.log_probs)
        &&& ranking::is_top(x.log_probs, self.config.beam_size as nat, x.order)
        &&& x.scores.len() == x.order.len()
        &&& forall|i: int|
            0 <= i < x.order.len() ==> arithmetic::sum_is(
                self.arithmetic,
                p.score,
                x.log_probs[x.order[i] as int],
                #[trigger] x.scores[i],
            )
    }

    /// `advanced` and `symbols` are `held_advanced` and `held_symbols` with the
    /// children of `p` behind: the one after a blank, and those after a symbol.
    pub open spec fn places(
        self,
        t: usize,
        at: usize,
        p: RnntPath,
        x: RnntExpansion,
        held_advanced: Seq<RnntPath>,
        held_symbols: Seq<RnntPath>,
        advanced: Seq<RnntPath>,
        symbols: Seq<RnntPath>,
    ) -> bool {
        &&& self.scores_tokens(p, x)
        &&& advanced == held_advanced + blanks_of(
            p,
            x,
            x.order.len(),
            self.blank_id,
            (t + 1) as usize,
        )
        &&& symbols == held_symbols + symbols_of(p, x, x.order.len(), self.blank_id, at)
    }

    /// One path is expanded on frame `t`.
    pub open spec fn expands(
        self,
        frame: Tensor3,
        t: usize,
        at: usize,
        p: RnntPath,
        x: RnntExpansion,
        held_advanced: Seq<RnntPath>,
        held_symbols: Seq<RnntPath>,
        advanced: Seq<RnntPath>,
        symbols: Seq<RnntPath>,
    ) -> bool {
        &&& self.answers(frame, p, x.logits, x.state_1, x.state_2)
        &&& self.places(t, at, p, x, held_advanced, held_symbols, advanced, symbols)
    }

    /// Every path of `active` is expanded, in order, onto `held` and onto no
    /// symbols.
    pub open spec fn all_expanded(
        self,
        frame: Tensor3,
        t: usize,
        at: usize,
        active: Seq<RnntPath>,
        held: Seq<RnntPath>,
        advanced: Seq<RnntPath>,
        symbols: Seq<RnntPath>,
    ) -> bool
        decreases active.len(),
    {
        if active.len() == 0 {
            advanced == held && symbols.len() == 0
        } else {
            exists|a: Seq<RnntPath>, s: Seq<RnntPath>, x: RnntExpansion|
                self.all_expanded(frame, t, at, active.drop_last(), held, a, s)
                    && #[trigger] self.expands(
                    frame,
                    t,
                    at,
                    active.last(),
                    x,
                    a,
                    s,
                    advanced,
                    symbols,
                )
        }
    }

    /// One round of symbols: every active path is expanded, and the children
    /// that stay on the frame are merged and pruned. Nothing happens where no
    /// path is active.
    pub open spec fn symbol_round(
        self,
        frame: Tensor3,
        t: usize,
        at: usize,
        active: Seq<RnntPath>,
        held: Seq<RnntPath>,
        next_active: Seq<RnntPath>,
        advanced: Seq<RnntPath>,
    ) -> bool {
        if active.len() == 0 {
            next_active == active && advanced == held
        } else {
            exists|symbols: Seq<RnntPath>, merged: Seq<RnntPath>|
                {
                    &&& self.all_expanded(frame, t, at, active, held, advanced, symbols)
                    &&& #[trigger] merged_is(self.arithmetic, symbols, merged)
                    &&& pruned_is(self.arithmetic, merged, self.config, next_active)
                }
        }
    }

    /// `n` rounds of symbols lead from `entered` to `active` and `advanced`.
    pub open spec fn symbol_rounds(
        self,
        frame: Tensor3,
        t: usize,
        at: usize,
        n: nat,
        entered: Seq<RnntPath>,
        active: Seq<RnntPath>,
        advanced: Seq<RnntPath>,
    ) -> bool
        decreases n,
    {
        if n == 0 {
            active == entered && advanced.len() == 0
        } else {
            exists|a: Seq<RnntPath>, d: Seq<RnntPath>|
                self.symbol_rounds(frame, t, at, (n - 1) as nat, entered, a, d)
                    && #[trigger] self.symbol_round(frame, t, at, a, d, active, advanced)
        }
    }

    /// `advanced` is `held` with `p` behind, moved on by a blank whatever its
    /// rank: a path that has used up its symbols for the frame still advances.
    pub open spec fn forces(
        self,
        frame: Tensor3,
        t: usize,
        p: RnntPath,
        x: RnntExpansion,
        score: Bits,
        held: Seq<RnntPath>,
        advanced: Seq<RnntPath>,
    ) -> bool {
        &&& self.answers(frame, p, x.logits, x.state_1, x.state_2)
        &&& arithmetic::log_softmax_is(self.arithmetic, x.logits, x.log_probs)
        &&& arithmetic::sum_is(
            self.arithmetic,
            p.score,
            x.log_probs[self.blank_id as int],
            score,
        )
        &&& advanced == held.push(after_blank(p, score, (t + 1) as usize))
    }

    /// Every path of `active` is moved on by a blank, in order, onto `held`.
    pub open spec fn all_forced(
        self,
        frame: Tensor3,
        t: usize,
        active: Seq<RnntPath>,
        held: Seq<RnntPath>,
        advanced: Seq<RnntPath>,
    ) -> bool
        decreases active.len(),
    {
        if active.len() == 0 {
            advanced == held
        } else {
            exists|d: Seq<RnntPath>, x: RnntExpansion, score: Bits|
                self.all_forced(frame, t, active.drop_last(), held, d) && #[trigger] self.forces(
                    frame,
                    t,
                    active.last(),
                    x,
                    score,
                    d,
                    advanced,
                )
        }
    }

    /// Frame `t`, decoded along the trace `w`, leads from `beam` to `next`.
    pub open spec fn frame_traced(
        self,
        t: usize,
        at: usize,
        beam: Seq<RnntPath>,
        w: RnntFrameTrace,
        next: Seq<RnntPath>,
    ) -> bool {
        &&& tensor::is_frame(*self.encoder_out, t as int, w.frame)
        &&& pruned_is(self.arithmetic, on_frame(beam, t), self.config, w.entered)
        &&& self.symbol_rounds(
            w.frame,
            t,
            at,
            self.config.max_symbols_per_step as nat,
            w.entered,
            w.active,
            w.advanced,
        )
        &&& self.all_forced(w.frame, t, w.active, w.advanced, w.all)
        &&& merged_is(self.arithmetic, w.all, w.merged)
        &&& pruned_is(self.arithmetic, w.merged, self.config, next)
    }

    /// Frame `t`, whose absolute number is `at`, may lead from `beam` to `next`.
    pub open spec fn frame_is(
        self,
        t: usize,
        at: usize,
        beam: Seq<RnntPath>,
        next: Seq<RnntPath>,
    ) -> bool {
        exists|w: RnntFrameTrace| #[trigger] self.frame_traced(t, at, beam, w, next)
    }

    /// The frames from `start` up to `end` may lead from `beam` to `next`; the
    /// absolute number of frame `t` is `t + shift`.
    pub open spec fn frames_are(
        self,
        shift: int,
        start: int,
        end: int,
        beam: Seq<RnntPath>,
        next: Seq<RnntPath>,
    ) -> bool
        decreases end - start,
    {
        if end <= start {
            next == beam
        } else {
            exists|mid: Seq<RnntPath>|
                self.frames_are(shift, start, end - 1, beam, mid) && #[trigger] self.frame_is(
                    (end - 1) as usize,
                    (end - 1 + shift) as usize,
                    mid,
                    next,
                )
        }
    }

    /// The decoder may answer on `frame` for `p`.
    pub open spec fn may_answer(self, frame: Tensor3, p: RnntPath) -> bool {
        exists|step: RnntStep| #[trigger]
            call_ensures(
                *self.decoder,
                (&frame, p.last_token, &p.state_1, &p.state_2),
                Ok::<RnntStep, Error>(step),
            )
    }

    /// The decoder may refuse one of the paths with the error `e`, after it has
    /// answered for those before it.
    pub open spec fn refuses_one_of(
        self,
        frame: Tensor3,
        active: Seq<RnntPath>,
        e: Error,
    ) -> bool {
        exists|i: int|
            {
                &&& 0 <= i < active.len()
                &&& forall|j: int| 0 <= j < i ==> self.may_answer(frame, #[trigger] active[j])
                &&& #[trigger] call_ensures(
                    *self.decoder,
                    (&frame, active[i].last_token, &active[i].state_1, &active[i].state_2),
                    Err::<RnntStep, Error>(e),
                )
            }
    }

    /// The decoder may refuse, with the error `e`, a path that is active after
    /// `n` rounds of symbols.
    pub open spec fn round_refuses(
        self,
        frame: Tensor3,
        t: usize,
        at: usize,
        n: nat,
        entered: Seq<RnntPath>,
        active: Seq<RnntPath>,
        advanced: Seq<RnntPath>,
        e: Error,
    ) -> bool {
        &&& n <= self.config.max_symbols_per_step
        &&& self.symbol_rounds(frame, t, at, n, entered, active, advanced)
        &&& self.refuses_one_of(frame, active, e)
    }

    /// The decoder may refuse frame `t` with the error `e`, where `beam` has
    /// reached the frame.
    pub open spec fn frame_refuses(
        self,
        t: usize,
        at: usize,
        beam: Seq<RnntPath>,
        w: RnntFrameTrace,
        n: nat,
        e: Error,
    ) -> bool {
        &&& tensor::is_frame(*self.encoder_out, t as int, w.frame)
        &&& pruned_is(self.arithmetic, on_frame(beam, t), self.config, w.entered)
        &&& self.round_refuses(w.frame, t, at, n, w.entered, w.active, w.advanced, e)
    }

    /// The decoder takes every call.
    pub open spec fn decoder_is_total(self) -> bool {
        forall|frame: &Tensor3, token: i32, state_1: &Tensor3, state_2: &Tensor3| #[trigger]
            call_requires(*self.decoder, (frame, token, state_1, state_2))
    }

    /// Frame `t` may have to move on the path `w.active[i]` by a blank, where
    /// `beam` has reached the frame: the path has used up its symbols.
    pub open spec fn may_force(
        self,
        t: usize,
        at: usize,
        beam: Seq<RnntPath>,
        w: RnntFrameTrace,
        i: int,
    ) -> bool {
        &&& 0 <= i < w.active.len()
        &&& tensor::is_frame(*self.encoder_out, t as int, w.frame)
        &&& pruned_is(self.arithmetic, on_frame(beam, t), self.config, w.entered)
        &&& self.symbol_rounds(
            w.frame,
            t,
            at,
            self.config.max_symbols_per_step as nat,
            w.entered,
            w.active,
            w.advanced,
        )
    }

    /// The decoder answers with a logit for the blank wherever frame `t` may have
    /// to move a path on by a blank.
    pub open spec fn frame_scores_blanks(self, t: usize, at: usize, beam: Seq<RnntPath>) -> bool {
        forall|w: RnntFrameTrace, i: int, step: RnntStep| #[trigger]
            self.may_force(t, at, beam, w, i) && #[trigger] call_ensures(
                *self.decoder,
                (&w.frame, w.active[i].last_token, &w.active[i].state_1, &w.active[i].state_2),
                Ok::<RnntStep, Error>(step),
            ) ==> self.blank_id < step.0@.len()
    }
}

/// A fresh path on `start_frame`: no token, no score, zero states, and the blank
/// as decoder input.
pub open spec fn is_seed(p: RnntPath, blank_id: usize, start_frame: usize) -> bool {
    &&& p.score == single::ZERO
    &&& p.frame == start_frame
    &&& p.last_token == blank_id as i32
    &&& tensor::is_zero(p.state_1, (2, 1, 640))
    &&& tensor::is_zero(p.state_2, (2, 1, 640))
    &&& p.symbols_on_frame == 0
    &&& p.tokens.len() == 0
    &&& p.prev_token_count == 0
}

/// `beam` is what a pass over frames from `start_frame` on starts with: a seed
/// where nothing is carried over, and otherwise the carried paths with all their
/// tokens counted as emitted before.
pub open spec fn enters(
    carried: Seq<RnntPath>,
    blank_id: usize,
    start_frame: usize,
    beam: Seq<RnntPath>,
) -> bool {
    if carried.len() == 0 {
        beam.len() == 1 && is_seed(beam[0], blank_id, start_frame)
    } else {
        beam == committed(carried)
    }
}

/// The paths with all their tokens counted as emitted before.
pub open spec fn committed(carried: Seq<RnntPath>) -> Seq<RnntPath> {
    Seq::new(
        carried.len(),
        |i: int| RnntPath { prev_token_count: carried[i].tokens.len() as usize, ..carried[i] },
    )
}

/// The tokens of `best` that were emitted during the pass.
pub open spec fn fresh_tokens(best: Option<RnntPath>) -> Seq<(usize, usize)> {
    match best {
        None => Seq::empty(),
        Some(p) => if p.prev_token_count <= p.tokens.len() {
            p.tokens.skip(p.prev_token_count as int)
        } else {
            Seq::empty()
        },
    }
}

/// The path that a hypothesis, if any, holds.
pub open spec fn optional_path(h: Option<RnntHypothesis>) -> Option<RnntPath> {
    match h {
        None => None,
        Some(h) => Some(h@),
    }
}

impl<'a, A: Arithmetic, D: Fn(&Tensor3, i32, &Tensor3, &Tensor3) -> Result<RnntStep, Error>>
    RnntContext<'a, A, D> {
    /// The decoder may refuse frame `t` with the error `e`, where the frames from
    /// `start` on have led from `entered` to `beam`.
    pub open spec fn refuses_at(
        self,
        start: usize,
        offset: usize,
        t: usize,
        entered: Seq<RnntPath>,
        beam: Seq<RnntPath>,
        e: Error,
    ) -> bool {
        &&& self.frames_are(offset - start, start as int, t as int, entered, beam)
        &&& exists|w: RnntFrameTrace, n: nat| #[trigger]
            self.frame_refuses(t, (t + (offset - start)) as usize, beam, w, n, e)
    }

    /// The frames from `start` up to `t` may lead from `entered` to `beam`, where
    /// frame `start` has the absolute number `offset`.
    pub open spec fn reaches(
        self,
        start: usize,
        offset: usize,
        t: usize,
        entered: Seq<RnntPath>,
        beam: Seq<RnntPath>,
    ) -> bool {
        self.frames_are(offset - start, start as int, t as int, entered, beam)
    }

    /// The decoder answers with a logit for the blank wherever a pass over the
    /// frames from `start` up to `end` may have to move a path on by a blank.
    pub open spec fn scores_blanks(
        self,
        start: usize,
        end: usize,
        offset: usize,
        carried: Seq<RnntPath>,
    ) -> bool {
        forall|t: usize, entered: Seq<RnntPath>, beam: Seq<RnntPath>|
            start <= t < end && enters(carried, self.blank_id, start, entered)
                && #[trigger] self.reaches(start, offset, t, entered, beam)
                ==> self.frame_scores_blanks(t, (t + (offset - start)) as usize, beam)
    }

    /// A pass over the frames from `start` up to `end` may end with the error `e`,
    /// where `carried` is carried in and frame `start` has the absolute number
    /// `offset`: the decoder refuses a path that the pass has reached.
    pub open spec fn may_refuse(
        self,
        start: usize,
        end: usize,
        offset: usize,
        carried: Seq<RnntPath>,
        e: Error,
    ) -> bool {
        exists|t: usize, entered: Seq<RnntPath>, beam: Seq<RnntPath>|
            {
                &&& start <= t < end
                &&& enters(carried, self.blank_id, start, entered)
                &&& #[trigger] self.refuses_at(start, offset, t, entered, beam, e)
            }
    }

    /// `out` is what a pass over the frames from `start` up to `end` may give,
    /// where `carried` is carried in and frame `start` has the absolute number
    /// `offset`.
    pub open spec fn decodes(
        self,
        start: usize,
        end: usize,
        offset: usize,
        carried: Seq<RnntPath>,
        out: RnntBeamOutput,
    ) -> bool {
        &&& exists|beam: Seq<RnntPath>|
            {
                &&& #[trigger] enters(carried, self.blank_id, start, beam)
                &&& self.frames_are(
                    offset - start,
                    start as int,
                    end as int,
                    beam,
                    paths(out.hypotheses@),
                )
            }
        &&& best_is(
            self.arithmetic,
            paths(out.hypotheses@),
            self.config.length_penalty,
            optional_path(out.best_hypothesis),
        )
        &&& out.new_tokens@ == fresh_tokens(optional_path(out.best_hypothesis))
    }
}

/// A fresh hypothesis on `start_frame`.
pub fn seed_hypothesis(blank_id: usize, start_frame: usize) -> (r: RnntHypothesis)
    ensures
        is_seed(r@, blank_id, start_frame),
{
    RnntHypothesis {
        score: single::ZERO,
        frame: start_frame,
        last_token: blank_id as i32,
        state_1: initial_state(),
        state_2: initial_state(),
        symbols_on_frame: 0,
        tokens: Vec::new(),
        prev_token_count: 0,
    }
}

/// Whether two hypotheses are merged.
pub fn has_same_key(a: &RnntHypothesis, b: &RnntHypothesis) -> (r: bool)
    ensures
        r == same_key(a@, b@),
{
    if a.frame != b.frame || a.last_token != b.last_token || a.tokens.len() != b.tokens.len() {
        assert(token_ids(a.tokens@).len() == a.tokens@.len());
        assert(token_ids(b.tokens@).len() == b.tokens@.len());
        return false;
    }
    let mut i: usize = 0;
    while i < a.tokens.len()
        invariant
            a.tokens@.len() == b.tokens@.len(),
            i <= a.tokens@.len(),
            forall|j: int| 0 <= j < i ==> (#[trigger] a.tokens@[j]).0 == b.tokens@[j].0,
        decreases a.tokens@.len() - i,
    {
        if a.tokens[i].0 != b.tokens[i].0 {
            assert(token_ids(a.tokens@)[i as int] != token_ids(b.tokens@)[i as int]);
            return false;
        }
        i = i + 1;
    }
    assert(token_ids(a.tokens@) =~= token_ids(b.tokens@));
    true
}

/// Merges hypotheses that emitted the same tokens, adding up their
/// probabilities. The first one of each key gives its state and its token
/// frames.
pub fn merge_hypotheses<A: Arithmetic>(m: &A, hyps: Vec<RnntHypothesis>) -> (merged: Vec<
    RnntHypothesis,
>)
    ensures
        merged_is(m, paths(hyps@), paths(merged@)),
{
    let mut merged: Vec<RnntHypothesis> = Vec::new();
    let mut n: usize = 0;
    assert(paths(merged@).len() == 0);
    while n < hyps.len()
        invariant
            n <= hyps@.len(),
            merged_is(m, paths(hyps@.take(n as int)), paths(merged@)),
        decreases hyps@.len() - n,
    {
        let ghost held = paths(merged@);
        let hyp = hyps[n].clone();
        let mut i: usize = 0;
        while i < merged.len() && !has_same_key(&merged[i], &hyp)
            invariant
                i <= merged@.len(),
                held == paths(merged@),
                forall|j: int| 0 <= j < i ==> !same_key(#[trigger] held[j], hyp@),
            decreases merged@.len() - i,
        {
            i = i + 1;
        }
        let mut score: Bits = single::ZERO;
        if i < merged.len() {
            score = log_sum_exp(m, merged[i].score, hyp.score);
            merged[i].score = score;
            assert(paths(merged@) =~= held.update(i as int, RnntPath { score, ..held[i as int] }));
        } else {
            merged.push(hyp);
            assert(paths(merged@) =~= held.push(hyp@));
        }
        proof {
            let seen = paths(hyps@.take(n + 1));
            assert(seen.drop_last() =~= paths(hyps@.take(n as int)));
            assert(seen.last() == hyps@[n as int]@);
            assert(absorbs(m, held, seen.last(), i as int, score, paths(merged@)));
        }
        n = n + 1;
    }
    assert(hyps@.take(n as int) =~= hyps@);
    merged
}

/// The length-normalized scores of a beam.
fn score_keys<A: Arithmetic>(m: &A, beam: &Vec<RnntHypothesis>, penalty: Bits) -> (keys: Vec<Bits>)
    ensures
        keys_are(m, paths(beam@), penalty, keys@),
{
    let mut keys: Vec<Bits> = Vec::new();
    let mut i: usize = 0;
    while i < beam.len()
        invariant
            i <= beam@.len(),
            keys@.len() == i,
            forall|j: int|
                0 <= j < i ==> arithmetic::length_normalized_score_is(
                    m,
                    paths(beam@)[j].score,
                    paths(beam@)[j].tokens.len(),
                    penalty,
                    #[trigger] keys@[j],
                ),
        decreases beam@.len() - i,
    {
        keys.push(length_normalized_score(m, beam[i].score, beam[i].tokens.len(), penalty));
        i = i + 1;
    }
    keys
}

/// Keeps the best `beam_size` hypotheses by length-normalized score.
pub fn prune_beam<A: Arithmetic>(m: &A, beam: Vec<RnntHypothesis>, config: &BeamConfig) -> (pruned:
    Vec<RnntHypothesis>)
    ensures
        pruned_is(m, paths(beam@), *config, paths(pruned@)),
{
    let keys = score_keys(m, &beam, config.length_penalty);
    let order = top_k_indices(&keys, config.beam_size);
    let mut pruned: Vec<RnntHypothesis> = Vec::new();
    let mut i: usize = 0;
    while i < order.len()
        invariant
            i <= order@.len(),
            ranking::is_top(keys@, config.beam_size as nat, order@),
            keys@.len() == beam@.len(),
            pruned@.len() == i,
            forall|j: int|
                0 <= j < i ==> (#[trigger] pruned@[j])@ == paths(beam@)[order@[j] as int],
        decreases order@.len() - i,
    {
        let at: usize = order[i];
        pruned.push(beam[at].clone());
        i = i + 1;
    }
    assert(paths(pruned@) =~= ranking::pick(paths(beam@), order@));
    pruned
}

/// The best hypothesis by length-normalized score.
pub fn select_best<A: Arithmetic>(m: &A, beam: &Vec<RnntHypothesis>, penalty: Bits) -> (best: Option<
    RnntHypothesis,
>)
    ensures
        best_is(m, paths(beam@), penalty, optional_path(best)),
{
    let keys = score_keys(m, beam, penalty);
    match max_index(&keys) {
        None => None,
        Some(i) => Some(beam[i].clone()),
    }
}

/// The hypotheses that stand on frame `t`.
fn hypotheses_on_frame(beam: &Vec<RnntHypothesis>, t: usize) -> (r: Vec<RnntHypothesis>)
    ensures
        paths(r@) == on_frame(paths(beam@), t),
{
    let mut r: Vec<RnntHypothesis> = Vec::new();
    let mut i: usize = 0;
    assert(paths(r@) =~= on_frame(paths(beam@.take(0)), t));
    while i < beam.len()
        invariant
            i <= beam@.len(),
            paths(r@) == on_frame(paths(beam@.take(i as int)), t),
        decreases beam@.len() - i,
    {
        let ghost held = r@;
        if beam[i].frame == t {
            r.push(beam[i].clone());
            assert(paths(r@) =~= paths(held).push(beam@[i as int]@));
        }
        proof {
            let seen = paths(beam@.take(i + 1));
            assert(seen.drop_last() =~= paths(beam@.take(i as int)));
            assert(seen.last() == beam@[i as int]@);
        }
        i = i + 1;
    }
    assert(beam@.take(i as int) =~= beam@);
    r
}

impl<'a, A: Arithmetic, D: Fn(&Tensor3, i32, &Tensor3, &Tensor3) -> Result<RnntStep, Error>>
    RnntContext<'a, A, D> {
    /// Sorts the children of `hyp` on frame `t`, for a decoder answer that is at
    /// hand: a blank child onto `advanced`, the others onto `symbols`.
    pub fn place(
        &self,
        t: usize,
        at: usize,
        hyp: &RnntHypothesis,
        step: &RnntStep,
        advanced: &mut Vec<RnntHypothesis>,
        symbols: &mut Vec<RnntHypothesis>,
    )
        requires
            t < usize::MAX,
            hyp.symbols_on_frame < usize::MAX,
        ensures
            exists|x: RnntExpansion|
                {
                    &&& x.logits == step.0@
                    &&& x.state_1 == step.1
                    &&& x.state_2 == step.2
                    &&& #[trigger] self.places(
                        t,
                        at,
                        hyp@,
                        x,
                        paths(old(advanced)@),
                        paths(old(symbols)@),
                        paths(final(advanced)@),
                        paths(final(symbols)@),
                    )
                },
    {
        let ghost held_advanced = paths(advanced@);
        let ghost held_symbols = paths(symbols@);
        let log_probs = log_softmax(self.arithmetic, &step.0);
        let order = top_k_indices(&log_probs, self.config.beam_size);
        let ghost mut x = RnntExpansion {
            logits: step.0@,
            state_1: step.1,
            state_2: step.2,
            log_probs: log_probs@,
            order: order@,
            scores: Seq::empty(),
        };
        let mut i: usize = 0;
        assert(paths(advanced@) =~= held_advanced + blanks_of(
            hyp@,
            x,
            0,
            self.blank_id,
            (t + 1) as usize,
        ));
        assert(paths(symbols@) =~= held_symbols + symbols_of(hyp@, x, 0, self.blank_id, at));
        while i < order.len()
            invariant
                i <= order@.len(),
                t < usize::MAX,
                hyp.symbols_on_frame < usize::MAX,
                x.logits == step.0@,
                x.state_1 == step.1,
                x.state_2 == step.2,
                x.log_probs == log_probs@,
                x.order == order@,
                ranking::is_top(log_probs@, self.config.beam_size as nat, order@),
                x.scores.len() == i,
                forall|j: int|
                    0 <= j < i ==> arithmetic::sum_is(
                        self.arithmetic,
                        hyp.score,
                        log_probs@[order@[j] as int],
                        #[trigger] x.scores[j],
                    ),
                paths(advanced@) == held_advanced + blanks_of(
                    hyp@,
                    x,
                    i as nat,
                    self.blank_id,
                    (t + 1) as usize,
                ),
                paths(symbols@) == held_symbols + symbols_of(
                    hyp@,
                    x,
                    i as nat,
                    self.blank_id,
                    at,
                ),
            decreases order@.len() - i,
        {
            let token: usize = order[i];
            let score: Bits = self.arithmetic.sum(hyp.score, log_probs[token]);
            let ghost y = RnntExpansion { scores: x.scores.push(score), ..x };
            proof {
                lemma_children_read_their_scores(hyp@, x, y, i as nat, self.blank_id, t, at);
            }
            let mut next = hyp.clone();
            next.score = score;
            if token == self.blank_id {
                next.frame = t + 1;
                next.symbols_on_frame = 0;
                let ghost child = next@;
                let ghost before = advanced@;
                advanced.push(next);
                assert(paths(advanced@) =~= paths(before).push(child));
                assert(child == after_blank(hyp@, score, (t + 1) as usize));
                assert(paths(advanced@) =~= held_advanced + blanks_of(
                    hyp@,
                    y,
                    (i + 1) as nat,
                    self.blank_id,
                    (t + 1) as usize,
                ));
            } else {
                next.last_token = token as i32;
                next.state_1 = step.1.clone();
                next.state_2 = step.2.clone();
                next.symbols_on_frame = hyp.symbols_on_frame + 1;
                next.tokens.push((token, at));
                let ghost child = next@;
                let ghost before = symbols@;
                symbols.push(next);
                assert(paths(symbols@) =~= paths(before).push(child));
                assert(child == after_symbol(hyp@, token, score, step.1, step.2, at));
                assert(paths(symbols@) =~= held_symbols + symbols_of(
                    hyp@,
                    y,
                    (i + 1) as nat,
                    self.blank_id,
                    at,
                ));
            }
            proof {
                x = y;
            }
            i = i + 1;
        }
        assert(self.places(
            t,
            at,
            hyp@,
            x,
            held_advanced,
            held_symbols,
            paths(advanced@),
            paths(symbols@),
        ));
    }
}

/// The children of the first `n` tokens do not read later scores.
proof fn lemma_children_read_their_scores(
    p: RnntPath,
    x: RnntExpansion,
    y: RnntExpansion,
    n: nat,
    blank_id: usize,
    t: usize,
    at: usize,
)
    requires
        n <= x.scores.len(),
        y == (RnntExpansion { scores: y.scores, ..x }),
        forall|i: int| 0 <= i < n ==> x.scores[i] == y.scores[i],
    ensures
        blanks_of(p, x, n, blank_id, (t + 1) as usize) == blanks_of(
            p,
            y,
            n,
            blank_id,
            (t + 1) as usize,
        ),
        symbols_of(p, x, n, blank_id, at) == symbols_of(p, y, n, blank_id, at),
    decreases n,
{
    if n > 0 {
        lemma_children_read_their_scores(p, x, y, (n - 1) as nat, blank_id, t, at);
    }
}

impl<'a, A: Arithmetic, D: Fn(&Tensor3, i32, &Tensor3, &Tensor3) -> Result<RnntStep, Error>>
    RnntContext<'a, A, D> {
    /// Expands every active hypothesis on frame `t`. Children after a blank go
    /// onto `advanced`; the others are returned.
    fn expand_all(
        &self,
        frame: &Tensor3,
        t: usize,
        at: usize,
        active: &Vec<RnntHypothesis>,
        advanced: &mut Vec<RnntHypothesis>,
    ) -> (r: Result<Vec<RnntHypothesis>, Error>)
        requires
            self.decoder_is_total(),
            tensor::is_frame(*self.encoder_out, t as int, *frame),
            t < usize::MAX,
            forall|i: int|
                0 <= i < active@.len() ==> (#[trigger] active@[i]).symbols_on_frame < usize::MAX,
        ensures
            r matches Ok(symbols) ==> self.all_expanded(
                *frame,
                t,
                at,
                paths(active@),
                paths(old(advanced)@),
                paths(final(advanced)@),
                paths(symbols@),
            ),
            r matches Err(e) ==> self.refuses_one_of(*frame, paths(active@), e),
    {
        let ghost held = paths(advanced@);
        let mut symbols: Vec<RnntHypothesis> = Vec::new();
        let mut i: usize = 0;
        assert(paths(active@.take(0)).len() == 0 && paths(symbols@).len() == 0);
        while i < active.len()
            invariant
                self.decoder_is_total(),
                tensor::is_frame(*self.encoder_out, t as int, *frame),
                t < usize::MAX,
                i <= active@.len(),
                forall|j: int|
                    0 <= j < active@.len() ==> (#[trigger] active@[j]).symbols_on_frame
                        < usize::MAX,
                self.all_expanded(
                    *frame,
                    t,
                    at,
                    paths(active@.take(i as int)),
                    held,
                    paths(advanced@),
                    paths(symbols@),
                ),
                forall|j: int|
                    0 <= j < i ==> self.may_answer(*frame, #[trigger] paths(active@)[j]),
            decreases active@.len() - i,
        {
            let hyp = &active[i];
            let decoder = self.decoder;
            let answer = decoder(frame, hyp.last_token, &hyp.state_1, &hyp.state_2);
            match answer {
                Err(e) => {
                    let ghost p = paths(active@)[i as int];
                    assert(call_ensures(
                        *self.decoder,
                        (frame, p.last_token, &p.state_1, &p.state_2),
                        Err::<RnntStep, Error>(e),
                    ));
                    return Err(e);
                },
                Ok(step) => {
                    assert(self.may_answer(*frame, paths(active@)[i as int])) by {
                        let p = paths(active@)[i as int];
                        assert(call_ensures(
                            *self.decoder,
                            (frame, p.last_token, &p.state_1, &p.state_2),
                            Ok::<RnntStep, Error>(step),
                        ));
                    }
                    let ghost a = paths(advanced@);
                    let ghost s = paths(symbols@);
                    self.place(t, at, hyp, &step, advanced, &mut symbols);
                    proof {
                        let x = choose|x: RnntExpansion|
                            {
                                &&& x.logits == step.0@
                                &&& x.state_1 == step.1
                                &&& x.state_2 == step.2
                                &&& #[trigger] self.places(
                                    t,
                                    at,
                                    hyp@,
                                    x,
                                    a,
                                    s,
                                    paths(advanced@),
                                    paths(symbols@),
                                )
                            };
                        let seen = paths(active@.take(i + 1));
                        assert(seen.drop_last() =~= paths(active@.take(i as int)));
                        assert(seen.last() == hyp@);
                        assert(self.answers(*frame, hyp@, x.logits, x.state_1, x.state_2)) by {
                            assert(call_ensures(
                                *self.decoder,
                                (frame, hyp@.last_token, &hyp@.state_1, &hyp@.state_2),
                                Ok::<RnntStep, Error>((step.0, x.state_1, x.state_2)),
                            ));
                        }
                        assert(self.expands(
                            *frame,
                            t,
                            at,
                            seen.last(),
                            x,
                            a,
                            s,
                            paths(advanced@),
                            paths(symbols@),
                        ));
                    }
                },
            }
            i = i + 1;
        }
        assert(active@.take(i as int) =~= active@);
        Ok(symbols)
    }

    /// Moves every active hypothesis to the next frame by a blank.
    fn force_all(
        &self,
        frame: &Tensor3,
        t: usize,
        active: &Vec<RnntHypothesis>,
        advanced: &mut Vec<RnntHypothesis>,
    ) -> (r: Result<(), Error>)
        requires
            self.decoder_is_total(),
            tensor::is_frame(*self.encoder_out, t as int, *frame),
            t < usize::MAX,
            forall|i: int, step: RnntStep|
                0 <= i < active@.len() && #[trigger] call_ensures(
                    *self.decoder,
                    (
                        frame,
                        paths(active@)[i].last_token,
                        &paths(active@)[i].state_1,
                        &paths(active@)[i].state_2,
                    ),
                    Ok::<RnntStep, Error>(step),
                ) ==> self.blank_id < step.0@.len(),
        ensures
            r is Ok ==> self.all_forced(
                *frame,
                t,
                paths(active@),
                paths(old(advanced)@),
                paths(final(advanced)@),
            ),
            r matches Err(e) ==> self.refuses_one_of(*frame, paths(active@), e),
    {
        let ghost held = paths(advanced@);
        let mut i: usize = 0;
        assert(paths(active@.take(0)).len() == 0);
        while i < active.len()
            invariant
                self.decoder_is_total(),
                tensor::is_frame(*self.encoder_out, t as int, *frame),
                t < usize::MAX,
                forall|j: int, step: RnntStep|
                    0 <= j < active@.len() && #[trigger] call_ensures(
                        *self.decoder,
                        (
                            frame,
                            paths(active@)[j].last_token,
                            &paths(active@)[j].state_1,
                            &paths(active@)[j].state_2,
                        ),
                        Ok::<RnntStep, Error>(step),
                    ) ==> self.blank_id < step.0@.len(),
                i <= active@.len(),
                self.all_forced(
                    *frame,
                    t,
                    paths(active@.take(i as int)),
                    held,
                    paths(advanced@),
                ),
                forall|j: int|
                    0 <= j < i ==> self.may_answer(*frame, #[trigger] paths(active@)[j]),
            decreases active@.len() - i,
        {
            let hyp = &active[i];
            let decoder = self.decoder;
            let answer = decoder(frame, hyp.last_token, &hyp.state_1, &hyp.state_2);
            match answer {
                Err(e) => {
                    let ghost p = paths(active@)[i as int];
                    assert(call_ensures(
                        *self.decoder,
                        (frame, p.last_token, &p.state_1, &p.state_2),
                        Err::<RnntStep, Error>(e),
                    ));
                    return Err(e);
                },
                Ok(step) => {
                    let ghost d = paths(advanced@);
                    assert(self.blank_id < step.0@.len() && self.may_answer(
                        *frame,
                        paths(active@)[i as int],
                    )) by {
                        let p = paths(active@)[i as int];
                        assert(call_ensures(
                            *self.decoder,
                            (frame, p.last_token, &p.state_1, &p.state_2),
                            Ok::<RnntStep, Error>(step),
                        ));
                    }
                    let log_probs = log_softmax(self.arithmetic, &step.0);
                    let score: Bits = self.arithmetic.sum(hyp.score, log_probs[self.blank_id]);
                    let mut next = hyp.clone();
                    next.score = score;
                    next.frame = t + 1;
                    next.symbols_on_frame = 0;
                    let ghost child = next@;
                    advanced.push(next);
                    proof {
                        assert(paths(advanced@) =~= d.push(child));
                        let x = RnntExpansion {
                            logits: step.0@,
                            state_1: step.1,
                            state_2: step.2,
                            log_probs: log_probs@,
                            order: Seq::empty(),
                            scores: Seq::empty(),
                        };
                        let seen = paths(active@.take(i + 1));
                        assert(seen.drop_last() =~= paths(active@.take(i as int)));
                        assert(seen.last() == hyp@);
                        assert(self.answers(*frame, hyp@, x.logits, x.state_1, x.state_2)) by {
                            assert(call_ensures(
                                *self.decoder,
                                (frame, hyp@.last_token, &hyp@.state_1, &hyp@.state_2),
                                Ok::<RnntStep, Error>((step.0, x.state_1, x.state_2)),
                            ));
                        }
                        assert(self.forces(
                            *frame,
                            t,
                            seen.last(),
                            x,
                            score,
                            d,
                            paths(advanced@),
                        ));
                    }
                },
            }
            i = i + 1;
        }
        assert(active@.take(i as int) =~= active@);
        Ok(())
    }
}

/// There is room for `left` more symbols on the frame.
pub open spec fn has_room(left: nat) -> spec_fn(RnntPath) -> bool {
    |p: RnntPath| p.symbols_on_frame + left <= usize::MAX
}

impl<'a, A: Arithmetic, D: Fn(&Tensor3, i32, &Tensor3, &Tensor3) -> Result<RnntStep, Error>>
    RnntContext<'a, A, D> {
    /// Where no path is active, further rounds change nothing.
    proof fn lemma_idle_rounds(
        self,
        frame: Tensor3,
        t: usize,
        at: usize,
        n: nat,
        more: nat,
        entered: Seq<RnntPath>,
        active: Seq<RnntPath>,
        advanced: Seq<RnntPath>,
    )
        requires
            self.symbol_rounds(frame, t, at, n, entered, active, advanced),
            active.len() == 0,
            n <= more,
        ensures
            self.symbol_rounds(frame, t, at, more, entered, active, advanced),
        decreases more - n,
    {
        if n < more {
            self.lemma_idle_rounds(frame, t, at, n, (more - 1) as nat, entered, active, advanced);
            assert(self.symbol_round(frame, t, at, active, advanced, active, advanced));
        }
    }

    /// Expands the entered hypotheses on frame `t`, round by round, up to the
    /// most symbols that a frame may have. Children after a blank go onto
    /// `advanced`; what is still on the frame at the end is returned.
    fn emit_symbols(
        &self,
        frame: &Tensor3,
        t: usize,
        at: usize,
        entered: Vec<RnntHypothesis>,
        advanced: &mut Vec<RnntHypothesis>,
    ) -> (r: Result<Vec<RnntHypothesis>, Error>)
        requires
            self.decoder_is_total(),
            tensor::is_frame(*self.encoder_out, t as int, *frame),
            t < usize::MAX,
            old(advanced)@.len() == 0,
            rnnt_laws::all_are(
                paths(entered@),
                has_room(self.config.max_symbols_per_step as nat),
            ),
        ensures
            r matches Ok(active) ==> self.symbol_rounds(
                *frame,
                t,
                at,
                self.config.max_symbols_per_step as nat,
                paths(entered@),
                paths(active@),
                paths(final(advanced)@),
            ),
            r matches Err(e) ==> exists|n: nat, active: Seq<RnntPath>, moved: Seq<RnntPath>|
                #[trigger] self.round_refuses(
                    *frame,
                    t,
                    at,
                    n,
                    paths(entered@),
                    active,
                    moved,
                    e,
                ),
    {
        let ghost start = paths(entered@);
        let limit: usize = self.config.max_symbols_per_step;
        let mut active = entered;
        let mut n: usize = 0;
        while n < limit && active.len() > 0
            invariant
                self.decoder_is_total(),
                tensor::is_frame(*self.encoder_out, t as int, *frame),
                t < usize::MAX,
                limit == self.config.max_symbols_per_step,
                start == paths(entered@),
                n <= limit,
                rnnt_laws::all_are(paths(active@), has_room((limit - n) as nat)),
                self.symbol_rounds(
                    *frame,
                    t,
                    at,
                    n as nat,
                    start,
                    paths(active@),
                    paths(advanced@),
                ),
            decreases limit - n,
        {
            let ghost a = paths(active@);
            let ghost d = paths(advanced@);
            assert forall|i: int| 0 <= i < active@.len() implies (#[trigger] active@[i]).symbols_on_frame
                < usize::MAX by {
                assert(has_room((limit - n) as nat)(a[i]));
            }
            let symbols = match self.expand_all(frame, t, at, &active, advanced) {
                Err(e) => {
                    assert(self.round_refuses(*frame, t, at, n as nat, start, a, d, e));
                    return Err(e);
                },
                Ok(symbols) => symbols,
            };
            let ghost s = paths(symbols@);
            let merged = merge_hypotheses(self.arithmetic, symbols);
            let ghost merged_paths = paths(merged@);
            active = prune_beam(self.arithmetic, merged, &self.config);
            proof {
                assert(self.symbol_round(*frame, t, at, a, d, paths(active@), paths(advanced@)));
                let left = (limit - n) as nat;
                let room = has_room((left - 1) as nat);
                let any = |p: RnntPath| true;
                self.lemma_expanded_keeps(
                    *frame,
                    t,
                    at,
                    a,
                    d,
                    paths(advanced@),
                    s,
                    has_room(left),
                    room,
                    any,
                );
                rnnt_laws::lemma_merged_keeps(self.arithmetic, s, merged_paths, room);
                rnnt_laws::lemma_pruned_keeps(
                    self.arithmetic,
                    merged_paths,
                    self.config,
                    paths(active@),
                    room,
                );
            }
            n = n + 1;
        }
        proof {
            if n < limit {
                self.lemma_idle_rounds(
                    *frame,
                    t,
                    at,
                    n as nat,
                    limit as nat,
                    start,
                    paths(active@),
                    paths(advanced@),
                );
            }
        }
        Ok(active)
    }

    /// Decodes frame `t`, whose absolute number is `at`.
    fn decode_frame(&self, t: usize, at: usize, beam: &Vec<RnntHypothesis>) -> (r: Result<
        Vec<RnntHypothesis>,
        Error,
    >)
        requires
            self.decoder_is_total(),
            tensor::tensor3_shape(*self.encoder_out).0 > 0,
            t < tensor::tensor3_shape(*self.encoder_out).2,
            self.frame_scores_blanks(t, at, paths(beam@)),
            rnnt_laws::all_are(
                on_frame(paths(beam@), t),
                has_room(self.config.max_symbols_per_step as nat),
            ),
        ensures
            r matches Ok(next) ==> self.frame_is(t, at, paths(beam@), paths(next@)),
            r matches Err(e) ==> exists|w: RnntFrameTrace, n: nat| #[trigger]
                self.frame_refuses(t, at, paths(beam@), w, n, e),
    {
        let frame = match self.encoder_out.frame(t, "encoder frame") {
            Err(e) => {
                return Err(e);
            },
            Ok(frame) => frame,
        };
        let standing = hypotheses_on_frame(beam, t);
        let ghost on = paths(standing@);
        let entered = prune_beam(self.arithmetic, standing, &self.config);
        let ghost entered_paths = paths(entered@);
        proof {
            rnnt_laws::lemma_pruned_keeps(
                self.arithmetic,
                on,
                self.config,
                entered_paths,
                has_room(self.config.max_symbols_per_step as nat),
            );
        }
        let mut advanced: Vec<RnntHypothesis> = Vec::new();
        let active = match self.emit_symbols(&frame, t, at, entered, &mut advanced) {
            Err(e) => {
                proof {
                    let (n, active, moved) = choose|
                        n: nat,
                        active: Seq<RnntPath>,
                        moved: Seq<RnntPath>,
                    | #[trigger]
                        self.round_refuses(frame, t, at, n, entered_paths, active, moved, e);
                    let w = RnntFrameTrace {
                        frame,
                        entered: entered_paths,
                        active,
                        advanced: moved,
                        all: Seq::empty(),
                        merged: Seq::empty(),
                    };
                    assert(self.frame_refuses(t, at, paths(beam@), w, n, e));
                }
                return Err(e);
            },
            Ok(active) => active,
        };
        let ghost advanced_paths = paths(advanced@);
        proof {
            let w = RnntFrameTrace {
                frame,
                entered: entered_paths,
                active: paths(active@),
                advanced: advanced_paths,
                all: Seq::empty(),
                merged: Seq::empty(),
            };
            assert forall|i: int, step: RnntStep|
                0 <= i < active@.len() && #[trigger] call_ensures(
                    *self.decoder,
                    (
                        &frame,
                        paths(active@)[i].last_token,
                        &paths(active@)[i].state_1,
                        &paths(active@)[i].state_2,
                    ),
                    Ok::<RnntStep, Error>(step),
                ) implies self.blank_id < step.0@.len() by {
                assert(self.may_force(t, at, paths(beam@), w, i));
                assert(call_ensures(
                    *self.decoder,
                    (&w.frame, w.active[i].last_token, &w.active[i].state_1, &w.active[i].state_2),
                    Ok::<RnntStep, Error>(step),
                ));
            }
        }
        match self.force_all(&frame, t, &active, &mut advanced) {
            Err(e) => {
                proof {
                    let w = RnntFrameTrace {
                        frame,
                        entered: entered_paths,
                        active: paths(active@),
                        advanced: advanced_paths,
                        all: Seq::empty(),
                        merged: Seq::empty(),
                    };
                    let n = self.config.max_symbols_per_step as nat;
                    assert(self.frame_refuses(t, at, paths(beam@), w, n, e));
                }
                return Err(e);
            },
            Ok(_) => {},
        }
        let ghost all = paths(advanced@);
        let merged = merge_hypotheses(self.arithmetic, advanced);
        let ghost merged_paths = paths(merged@);
        let next = prune_beam(self.arithmetic, merged, &self.config);
        proof {
            let w = RnntFrameTrace {
                frame,
                entered: entered_paths,
                active: paths(active@),
                advanced: advanced_paths,
                all,
                merged: merged_paths,
            };
            assert(self.frame_traced(t, at, paths(beam@), w, paths(next@)));
        }
        Ok(next)
    }
}

/// Counts all tokens of the carried hypotheses as emitted before.
fn commit_tokens(carried: Vec<RnntHypothesis>) -> (r: Vec<RnntHypothesis>)
    ensures
        paths(r@) == committed(paths(carried@)),
{
    let mut r = carried;
    let mut i: usize = 0;
    while i < r.len()
        invariant
            i <= r@.len(),
            r@.len() == carried@.len(),
            forall|j: int| i <= j < r@.len() ==> #[trigger] r@[j] == carried@[j],
            forall|j: int|
                0 <= j < i ==> (#[trigger] r@[j])@ == committed(paths(carried@))[j],
        decreases r@.len() - i,
    {
        let n: usize = r[i].tokens.len();
        r[i].prev_token_count = n;
        i = i + 1;
    }
    assert(paths(r@) =~= committed(paths(carried@)));
    r
}

/// The frame after the last one that is decoded: frames that the encoder output
/// does not have are left out.
pub open spec fn last_frame(encoder_out: Tensor3, end_frame: usize) -> usize {
    let frames = tensor::tensor3_shape(encoder_out).2;
    if end_frame <= frames {
        end_frame
    } else {
        frames
    }
}

/// RNN-T beam search over the frames from `start_frame` up to `end_frame` of
/// `encoder_out`, whatever model answers.
///
/// `absolute_frame_offset` is the absolute number of frame `start_frame`, by
/// which tokens are stamped. `input_hypotheses` is carried over from the chunk
/// before, with each frame set to `start_frame`; hypotheses that stand elsewhere
/// are dropped. Where it is empty, the search starts afresh.
pub fn decode_rnnt_beam<
    A: Arithmetic,
    D: Fn(&Tensor3, i32, &Tensor3, &Tensor3) -> Result<RnntStep, Error>,
>(
    arithmetic: &A,
    encoder_out: &Tensor3,
    start_frame: usize,
    end_frame: usize,
    absolute_frame_offset: usize,
    blank_id: usize,
    config: &BeamConfig,
    input_hypotheses: Vec<RnntHypothesis>,
    decoder: &D,
) -> (r: Result<RnntBeamOutput, Error>)
    requires
        start_frame < last_frame(*encoder_out, end_frame) ==> {
            &&& tensor::tensor3_shape(*encoder_out).0 > 0
            &&& (RnntContext {
                arithmetic,
                decoder,
                encoder_out,
                blank_id,
                config: *config,
            }).decoder_is_total()
            &&& (RnntContext {
                arithmetic,
                decoder,
                encoder_out,
                blank_id,
                config: *config,
            }).scores_blanks(
                start_frame,
                last_frame(*encoder_out, end_frame),
                absolute_frame_offset,
                paths(input_hypotheses@),
            )
            &&& absolute_frame_offset + (last_frame(*encoder_out, end_frame) - start_frame)
                <= usize::MAX
            &&& forall|i: int|
                0 <= i < input_hypotheses@.len() && input_hypotheses@[i].frame == start_frame
                    ==> (#[trigger] input_hypotheses@[i]).symbols_on_frame
                    + config.max_symbols_per_step <= usize::MAX
        },
    ensures
        start_frame >= last_frame(*encoder_out, end_frame) ==> {
            &&& r is Ok
            &&& r->Ok_0.new_tokens@.len() == 0
            &&& r->Ok_0.hypotheses == input_hypotheses
            &&& r->Ok_0.best_hypothesis is None
        },
        start_frame < last_frame(*encoder_out, end_frame) ==> match r {
            Ok(out) => {
                &&& (RnntContext {
                    arithmetic,
                    decoder,
                    encoder_out,
                    blank_id,
                    config: *config,
                }).decodes(
                    start_frame,
                    last_frame(*encoder_out, end_frame),
                    absolute_frame_offset,
                    paths(input_hypotheses@),
                    out,
                )
                &&& out.hypotheses@.len() <= config.beam_size
                &&& forall|i: int|
                    0 <= i < out.hypotheses@.len() ==> (#[trigger] out.hypotheses@[i]).frame
                        == last_frame(*encoder_out, end_frame)
            },
            Err(e) => (RnntContext {
                arithmetic,
                decoder,
                encoder_out,
                blank_id,
                config: *config,
            }).may_refuse(
                start_frame,
                last_frame(*encoder_out, end_frame),
                absolute_frame_offset,
                paths(input_hypotheses@),
                e,
            ),
        },
{
    let (_, _, frames) = encoder_out.shape();
    let end: usize = if end_frame <= frames {
        end_frame
    } else {
        frames
    };
    if start_frame >= end {
        return Ok(
            RnntBeamOutput {
                new_tokens: Vec::new(),
                hypotheses: input_hypotheses,
                best_hypothesis: None,
            },
        );
    }
    let context = RnntContext { arithmetic, decoder, encoder_out, blank_id, config: *config };
    let ghost shift = absolute_frame_offset - start_frame;
    let ghost room = has_room(config.max_symbols_per_step as nat);
    let mut beam: Vec<RnntHypothesis>;
    if input_hypotheses.len() == 0 {
        beam = Vec::new();
        beam.push(seed_hypothesis(blank_id, start_frame));
    } else {
        beam = commit_tokens(input_hypotheses);
        assert(paths(input_hypotheses@).len() > 0);
    }
    let ghost entered = paths(beam@);
    assert(enters(paths(input_hypotheses@), blank_id, start_frame, entered));
    proof {
        assert forall|i: int| 0 <= i < entered.len() && entered[i].frame == start_frame implies room(
            #[trigger] entered[i],
        ) by {
            if input_hypotheses@.len() > 0 {
                assert(entered[i].symbols_on_frame == input_hypotheses@[i].symbols_on_frame);
                assert(entered[i].frame == input_hypotheses@[i].frame);
            }
        }
    }
    let mut t: usize = start_frame;
    while t < end
        invariant
            start_frame <= t <= end,
            start_frame < end,
            end == last_frame(*encoder_out, end_frame),
            tensor::tensor3_shape(*encoder_out).0 > 0,
            context.decoder_is_total(),
            context.scores_blanks(
                start_frame,
                end,
                absolute_frame_offset,
                paths(input_hypotheses@),
            ),
            context == (RnntContext { arithmetic, decoder, encoder_out, blank_id, config: *config }),
            enters(paths(input_hypotheses@), blank_id, start_frame, entered),
            absolute_frame_offset + (end - start_frame) <= usize::MAX,
            shift == absolute_frame_offset - start_frame,
            room == has_room(config.max_symbols_per_step as nat),
            forall|i: int|
                0 <= i < beam@.len() && paths(beam@)[i].frame == t ==> room(
                    #[trigger] paths(beam@)[i],
                ),
            context.frames_are(shift, start_frame as int, t as int, entered, paths(beam@)),
            t > start_frame ==> {
                &&& beam@.len() <= config.beam_size
                &&& forall|i: int|
                    0 <= i < beam@.len() ==> (#[trigger] paths(beam@)[i]).frame == t
            },
        decreases end - t,
    {
        let ghost held = paths(beam@);
        proof {
            rnnt_laws::lemma_on_frame(held, t);
            let standing = on_frame(held, t);
            assert forall|i: int| 0 <= i < standing.len() implies #[trigger] room(standing[i]) by {
                let j = choose|j: int| 0 <= j < held.len() && held[j] == standing[i];
                assert(room(held[j]));
            }
        }
        let at: usize = absolute_frame_offset + (t - start_frame);
        assert(context.reaches(start_frame, absolute_frame_offset, t, entered, held));
        match context.decode_frame(t, at, &beam) {
            Err(e) => {
                assert(at == (t + (absolute_frame_offset - start_frame)) as usize);
                assert(context.refuses_at(
                    start_frame,
                    absolute_frame_offset,
                    t,
                    entered,
                    held,
                    e,
                ));
                return Err(e);
            },
            Ok(next) => {
                proof {
                    assert(context.frame_is(
                        (t + 1 - 1) as usize,
                        (t + 1 - 1 + shift) as usize,
                        held,
                        paths(next@),
                    ));
                    context.lemma_frame_advances(t, at, held, paths(next@));
                    let there = |p: RnntPath|
                        p.frame == (t + 1) as usize && p.symbols_on_frame == 0;
                    assert forall|i: int| 0 <= i < next@.len() implies (#[trigger] paths(
                        next@,
                    )[i]).frame == t + 1 && room(paths(next@)[i]) by {
                        assert(there(paths(next@)[i]));
                    }
                }
                beam = next;
            },
        }
        t = t + 1;
    }
    let best = select_best(arithmetic, &beam, config.length_penalty);
    let new_tokens = match &best {
        None => Vec::new(),
        Some(h) => {
            let from: usize = if h.prev_token_count <= h.tokens.len() {
                h.prev_token_count
            } else {
                h.tokens.len()
            };
            copy_tokens(&h.tokens, from)
        },
    };
    assert(new_tokens@ =~= fresh_tokens(optional_path(best)));
    let out = RnntBeamOutput { new_tokens, hypotheses: beam, best_hypothesis: best };
    proof {
        assert(context.frames_are(
            absolute_frame_offset - start_frame,
            start_frame as int,
            end as int,
            entered,
            paths(out.hypotheses@),
        ));
        assert(enters(paths(input_hypotheses@), context.blank_id, start_frame, entered));
        assert forall|i: int| 0 <= i < out.hypotheses@.len() implies (#[trigger] out.hypotheses@[i]).frame
            == end by {
            assert(paths(out.hypotheses@)[i].frame == end);
        }
    }
    Ok(out)
}

} // verus!
