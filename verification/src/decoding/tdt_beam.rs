//! TDT beam search over a decoder callback.
//!
//! A token-and-duration transducer predicts, beside each token, how many frames
//! to move on. Every round expands each active hypothesis by its best tokens and
//! best durations, merges the candidates that came to the same place with the
//! same tokens, and keeps the best of those that have frames left. A hypothesis
//! past the last frame is finished.
use vstd::prelude::*;
use crate::arithmetic;
use crate::arithmetic::{
    length_normalized_score, log_softmax, log_sum_exp, scaled_count, weighted_score, Arithmetic,
};
use crate::decoding::tdt_laws;
use crate::decoding::{initial_state, BeamConfig};
use crate::error::Error;
use crate::ranking;
use crate::ranking::{max_index, top_k_indices};
use crate::single;
use crate::single::{is_greater, Bits};
use crate::tensor;
use crate::tensor::Tensor3;

verus! {

/// The frames that each duration class moves on.
pub const TDT_DURATIONS: [usize; 5] = [0, 1, 2, 3, 4];

/// One TDT beam hypothesis: decoder state and emitted tokens.
#[derive(Debug)]
pub struct TdtHypothesis {
    /// Weighed log-probability of the path.
    pub score: Bits,
    /// The encoder frame that the path stands on.
    pub step: usize,
    /// The last token that is not blank, which the decoder is fed.
    pub last_token: i32,
    /// First decoder state.
    pub state_1: Tensor3,
    /// Second decoder state.
    pub state_2: Tensor3,
    /// Expansions in a row that did not move on.
    pub stuck: usize,
    /// Emitted tokens, each with its encoder frame and its duration.
    pub tokens: Vec<(usize, usize, usize)>,
}

/// Output of TDT beam search.
#[derive(Debug, Clone)]
pub struct TdtBeamOutput {
    /// Emitted token ids.
    pub tokens: Vec<usize>,
    /// The encoder frame of each token.
    pub frame_indices: Vec<usize>,
    /// The duration of each token.
    pub durations: Vec<usize>,
}

/// What a hypothesis holds.
pub struct TdtPath {
    pub score: Bits,
    pub step: usize,
    pub last_token: i32,
    pub state_1: Tensor3,
    pub state_2: Tensor3,
    pub stuck: usize,
    pub tokens: Seq<(usize, usize, usize)>,
}

/// What a decoder call returns: token logits, duration logits and the two new
/// states.
pub type TdtStep = (Vec<Bits>, Vec<Bits>, Tensor3, Tensor3);

impl View for TdtHypothesis {
    type V = TdtPath;

    open spec fn view(&self) -> TdtPath {
        TdtPath {
            score: self.score,
            step: self.step,
            last_token: self.last_token,
            state_1: self.state_1,
            state_2: self.state_2,
            stuck: self.stuck,
            tokens: self.tokens@,
        }
    }
}

/// What each of a row of hypotheses holds.
pub open spec fn paths(hyps: Seq<TdtHypothesis>) -> Seq<TdtPath> {
    Seq::new(hyps.len(), |i: int| hyps[i]@)
}

impl Clone for TdtHypothesis {
    fn clone(&self) -> (r: Self)
        ensures
            r@ == self@,
    {
        let mut tokens: Vec<(usize, usize, usize)> = Vec::new();
        let mut i: usize = 0;
        while i < self.tokens.len()
            invariant
                i <= self.tokens@.len(),
                tokens@ == self.tokens@.take(i as int),
            decreases self.tokens@.len() - i,
        {
            tokens.push(self.tokens[i]);
            i = i + 1;
            assert(tokens@ =~= self.tokens@.take(i as int));
        }
        assert(tokens@ =~= self.tokens@);
        TdtHypothesis {
            score: self.score,
            step: self.step,
            last_token: self.last_token,
            state_1: self.state_1.clone(),
            state_2: self.state_2.clone(),
            stuck: self.stuck,
            tokens,
        }
    }
}

/// The expansions in a row without moving on, counting one of the given
/// duration.
pub open spec fn waited(stuck: usize, duration: usize) -> int {
    if duration != 0 {
        0
    } else {
        stuck + 1
    }
}

/// The frame after an expansion: the duration further, or one further where the
/// most symbols per frame are used up.
pub open spec fn next_step(step: usize, stuck: usize, duration: usize, max_symbols: usize) -> int {
    if waited(stuck, duration) >= max_symbols {
        step + 1
    } else {
        step + duration
    }
}

/// The count of expansions without moving on, after an expansion.
pub open spec fn next_stuck(stuck: usize, duration: usize, max_symbols: usize) -> int {
    if waited(stuck, duration) >= max_symbols {
        0
    } else {
        waited(stuck, duration)
    }
}

/// The path after one expansion. A blank leaves tokens, decoder input and state
/// as they are.
pub open spec fn child(
    p: TdtPath,
    token: usize,
    duration: usize,
    score: Bits,
    state_1: Tensor3,
    state_2: Tensor3,
    blank_id: usize,
    max_symbols: usize,
) -> TdtPath {
    let moved = TdtPath {
        score,
        step: next_step(p.step, p.stuck, duration, max_symbols) as usize,
        stuck: next_stuck(p.stuck, duration, max_symbols) as usize,
        ..p
    };
    if token == blank_id {
        moved
    } else {
        TdtPath {
            last_token: token as i32,
            state_1,
            state_2,
            tokens: p.tokens.push((token, p.step, duration)),
            ..moved
        }
    }
}

/// The token ids of a path.
pub open spec fn token_ids(tokens: Seq<(usize, usize, usize)>) -> Seq<usize> {
    Seq::new(tokens.len(), |i: int| tokens[i].0)
}

/// The encoder frames of the tokens of a path.
pub open spec fn token_frames(tokens: Seq<(usize, usize, usize)>) -> Seq<usize> {
    Seq::new(tokens.len(), |i: int| tokens[i].1)
}

/// The durations of the tokens of a path.
pub open spec fn token_durations(tokens: Seq<(usize, usize, usize)>) -> Seq<usize> {
    Seq::new(tokens.len(), |i: int| tokens[i].2)
}

/// Two paths that are merged: they stand on the same frame, were fed the same
/// last token, and emitted the same token ids.
pub open spec fn same_key(a: TdtPath, b: TdtPath) -> bool {
    &&& a.step == b.step
    &&& a.last_token == b.last_token
    &&& token_ids(a.tokens) == token_ids(b.tokens)
}

/// `i` is the first place in `held` with the key of `p`, or its length where
/// there is none.
pub open spec fn is_place_of(held: Seq<TdtPath>, p: TdtPath, i: int) -> bool {
    &&& 0 <= i <= held.len()
    &&& forall|j: int| 0 <= j < i ==> !same_key(#[trigger] held[j], p)
    &&& i < held.len() ==> same_key(held[i], p)
}

/// The better of two paths with the same key, the first one among equals.
pub open spec fn better(a: TdtPath, b: TdtPath) -> TdtPath {
    if single::greater(b.score, a.score) {
        b
    } else {
        a
    }
}

/// `next` is `held` after taking in `p`: with a path of the same key it leaves
/// the better one of the two, with their probabilities added up, and otherwise
/// `p` comes last.
pub open spec fn absorbs<A: Arithmetic>(
    m: &A,
    held: Seq<TdtPath>,
    p: TdtPath,
    i: int,
    score: Bits,
    next: Seq<TdtPath>,
) -> bool {
    &&& is_place_of(held, p, i)
    &&& if i < held.len() {
        &&& arithmetic::log_sum_exp_is(m, held[i].score, p.score, score)
        &&& next == held.update(i, TdtPath { score, ..better(held[i], p) })
    } else {
        next == held.push(p)
    }
}

/// `merged` is what is left of `all` after merging, in the order in which keys
/// first occur.
pub open spec fn merged_is<A: Arithmetic>(m: &A, all: Seq<TdtPath>, merged: Seq<TdtPath>) -> bool
    decreases all.len(),
{
    if all.len() == 0 {
        merged.len() == 0
    } else {
        exists|held: Seq<TdtPath>, i: int, score: Bits|
            merged_is(m, all.drop_last(), held) && #[trigger] absorbs(
                m,
                held,
                all.last(),
                i,
                score,
                merged,
            )
    }
}

/// `keys` holds what the length-normalized scores of `beam` may come to.
pub open spec fn keys_are<A: Arithmetic>(
    m: &A,
    beam: Seq<TdtPath>,
    penalty: Bits,
    keys: Seq<Bits>,
) -> bool {
    &&& keys.len() == beam.len()
    &&& forall|i: int|
        0 <= i < beam.len() ==> arithmetic::length_normalized_score_is(
            m,
            beam[i].score,
            beam[i].tokens.len(),
            penalty,
            #[trigger] keys[i],
        )
}

/// `pruned` is the best `beam_size` of `beam` by length-normalized score, best
/// first.
pub open spec fn pruned_is<A: Arithmetic>(
    m: &A,
    beam: Seq<TdtPath>,
    config: BeamConfig,
    pruned: Seq<TdtPath>,
) -> bool {
    exists|keys: Seq<Bits>, order: Seq<usize>|
        {
            &&& #[trigger] keys_are(m, beam, config.length_penalty, keys)
            &&& #[trigger] ranking::is_top(keys, config.beam_size as nat, order)
            &&& pruned == ranking::pick(beam, order)
        }
}

/// `best` is the best of `beam` by length-normalized score, the last one among
/// equals.
pub open spec fn best_is<A: Arithmetic>(
    m: &A,
    beam: Seq<TdtPath>,
    penalty: Bits,
    best: Option<TdtPath>,
) -> bool {
    if beam.len() == 0 {
        best is None
    } else {
        exists|keys: Seq<Bits>|
            {
                &&& #[trigger] keys_are(m, beam, penalty, keys)
                &&& best == Some(beam[ranking::last_max(keys)])
            }
    }
}

/// The paths of `beam` that have frames left (`done` false), or those that are
/// past the last frame (`done` true), in order.
pub open spec fn sorted_out(beam: Seq<TdtPath>, time_steps: usize, done: bool) -> Seq<TdtPath>
    decreases beam.len(),
{
    if beam.len() == 0 {
        Seq::empty()
    } else {
        let rest = sorted_out(beam.drop_last(), time_steps, done);
        if (beam.last().step >= time_steps) == done {
            rest.push(beam.last())
        } else {
            rest
        }
    }
}

/// One expansion of a path: what the decoder answered, the log-probabilities,
/// the tokens and the duration classes taken up, best first, and the score after
/// each pair.
pub struct TdtExpansion {
    pub token_logits: Seq<Bits>,
    pub duration_logits: Seq<Bits>,
    pub state_1: Tensor3,
    pub state_2: Tensor3,
    pub token_log_probs: Seq<Bits>,
    pub duration_log_probs: Seq<Bits>,
    pub tokens: Seq<usize>,
    pub durations: Seq<usize>,
    pub scores: Seq<Seq<Bits>>,
}

/// The smaller of two counts.
pub open spec fn fewer(a: usize, b: usize) -> usize {
    if a <= b {
        a
    } else {
        b
    }
}

/// What stays the same during a search.
pub struct TdtContext<'a, A, D> {
    /// The arithmetic on scores.
    pub arithmetic: &'a A,
    /// The decoder callback.
    pub decoder: &'a D,
    /// Encoder output of shape `(batch, hidden, time)`.
    pub encoder_out: &'a Tensor3,
    /// The frames that are decoded.
    pub time_steps: usize,
    /// The blank token.
    pub blank_id: usize,
    /// The size of the vocabulary.
    pub vocab_size: usize,
    /// The search parameters.
    pub config: BeamConfig,
}

impl<'a, A: Arithmetic, D: Fn(&Tensor3, i32, &Tensor3, &Tensor3) -> Result<TdtStep, Error>>
    TdtContext<'a, A, D> {
    /// The decoder may answer, for `p` on `frame`, what `x` says.
    pub open spec fn answers(self, frame: Tensor3, p: TdtPath, x: TdtExpansion) -> bool {
        exists|v: Vec<Bits>, d: Vec<Bits>|
            v@ == x.token_logits && d@ == x.duration_logits && #[trigger] call_ensures(
                *self.decoder,
                (&frame, p.last_token, &p.state_1, &p.state_2),
                Ok::<TdtStep, Error>((v, d, x.state_1, x.state_2)),
            )
    }

    /// `score` is what `p` may score after token `token` with duration class
    /// `class`.
    pub open spec fn score_is(
        self,
        p: TdtPath,
        x: TdtExpansion,
        token: usize,
        class: usize,
        score: Bits,
    ) -> bool {
        exists|gain: Bits|
            {
                &&& #[trigger] arithmetic::weighted_score_is(
                    self.arithmetic,
                    x.token_log_probs[token as int],
                    x.duration_log_probs[class as int],
                    self.config.duration_reward,
                    gain,
                )
                &&& arithmetic::sum_is(self.arithmetic, p.score, gain, score)
            }
    }

    /// `x` ranks the tokens and durations by its own logits and scores each pair
    /// taken up; the durations of the pairs are in the table.
    pub open spec fn scores_pairs(self, p: TdtPath, x: TdtExpansion) -> bool {
        &&& arithmetic::log_softmax_is(self.arithmetic, x.token_logits, x.token_log_probs)
        &&& arithmetic::log_softmax_is(self.arithmetic, x.duration_logits, x.duration_log_probs)
        &&& ranking::is_top(
            x.token_log_probs,
            fewer(self.config.beam_size, self.vocab_size) as nat,
            x.tokens,
        )
        &&& ranking::is_top(
            x.duration_log_probs,
            fewer(self.config.beam_size, 5) as nat,
            x.durations,
        )
        &&& x.tokens.len() > 0 ==> forall|j: int|
            0 <= j < x.durations.len() ==> #[trigger] x.durations[j] < 5
        &&& x.scores.len() == x.tokens.len()
        &&& forall|i: int|
            0 <= i < x.tokens.len() ==> self.row_scored(p, x, i, #[trigger] x.scores[i])
    }

    /// `row` scores the `i`-th token with each duration.
    pub open spec fn row_scored(self, p: TdtPath, x: TdtExpansion, i: int, row: Seq<Bits>) -> bool {
        &&& row.len() == x.durations.len()
        &&& forall|j: int|
            0 <= j < x.durations.len() ==> self.score_is(
                p,
                x,
                x.tokens[i],
                x.durations[j],
                #[trigger] row[j],
            )
    }

    /// The children of `p` after its `i`-th token with the first `n` durations.
    pub open spec fn row_of(
        self,
        p: TdtPath,
        x: TdtExpansion,
        i: int,
        row: Seq<Bits>,
        n: nat,
    ) -> Seq<TdtPath> {
        Seq::new(
            n,
            |j: int|
                child(
                    p,
                    x.tokens[i],
                    TDT_DURATIONS@[x.durations[j] as int],
                    row[j],
                    x.state_1,
                    x.state_2,
                    self.blank_id,
                    self.config.max_symbols_per_step,
                ),
        )
    }

    /// The children of `p` after its first `n` tokens, each with every duration.
    pub open spec fn children_of(self, p: TdtPath, x: TdtExpansion, n: nat) -> Seq<TdtPath>
        decreases n,
    {
        if n == 0 {
            Seq::empty()
        } else {
            self.children_of(p, x, (n - 1) as nat) + self.row_of(
                p,
                x,
                n - 1,
                x.scores[n - 1],
                x.durations.len(),
            )
        }
    }

    /// `all` is `held` with the children of `p` behind.
    pub open spec fn places(
        self,
        p: TdtPath,
        x: TdtExpansion,
        held: Seq<TdtPath>,
        all: Seq<TdtPath>,
    ) -> bool {
        &&& self.scores_pairs(p, x)
        &&& all == held + self.children_of(p, x, x.tokens.len())
    }

    /// `all` is `held` with the children of `p` behind; a path past the last
    /// frame has none.
    pub open spec fn expands(
        self,
        frame: Tensor3,
        p: TdtPath,
        x: TdtExpansion,
        held: Seq<TdtPath>,
        all: Seq<TdtPath>,
    ) -> bool {
        if p.step >= self.time_steps {
            all == held
        } else {
            &&& tensor::is_frame(*self.encoder_out, p.step as int, frame)
            &&& self.answers(frame, p, x)
            &&& self.places(p, x, held, all)
        }
    }

    /// `all` lists the children of every active path, in order.
    pub open spec fn all_expanded(self, active: Seq<TdtPath>, all: Seq<TdtPath>) -> bool
        decreases active.len(),
    {
        if active.len() == 0 {
            all.len() == 0
        } else {
            exists|held: Seq<TdtPath>, frame: Tensor3, x: TdtExpansion|
                self.all_expanded(active.drop_last(), held) && #[trigger] self.expands(
                    frame,
                    active.last(),
                    x,
                    held,
                    all,
                )
        }
    }

    /// One round leads from `held` finished and `active` paths to `finished` and
    /// `next`.
    pub open spec fn round_is(
        self,
        held: Seq<TdtPath>,
        active: Seq<TdtPath>,
        finished: Seq<TdtPath>,
        next: Seq<TdtPath>,
    ) -> bool {
        exists|all: Seq<TdtPath>, merged: Seq<TdtPath>|
            {
                &&& self.all_expanded(active, all)
                &&& #[trigger] merged_is(self.arithmetic, all, merged)
                &&& finished == held + sorted_out(merged, self.time_steps, true)
                &&& pruned_is(
                    self.arithmetic,
                    sorted_out(merged, self.time_steps, false),
                    self.config,
                    next,
                )
            }
    }

    /// The search goes on: the pool of finished paths has room, and there are
    /// active ones.
    pub open spec fn goes_on(
        self,
        room: usize,
        finished: Seq<TdtPath>,
        active: Seq<TdtPath>,
    ) -> bool {
        finished.len() < room && active.len() > 0
    }

    /// `n` rounds lead from `seed` to `finished` and `active`.
    pub open spec fn rounds_are(
        self,
        room: usize,
        n: nat,
        seed: TdtPath,
        finished: Seq<TdtPath>,
        active: Seq<TdtPath>,
    ) -> bool
        decreases n,
    {
        if n == 0 {
            finished.len() == 0 && active == seq![seed]
        } else {
            exists|f: Seq<TdtPath>, a: Seq<TdtPath>|
                {
                    &&& self.rounds_are(room, (n - 1) as nat, seed, f, a)
                    &&& self.goes_on(room, f, a)
                    &&& #[trigger] self.round_is(f, a, finished, active)
                }
        }
    }

    /// The search may end with `finished` and `active` paths.
    pub open spec fn ends_with(self, finished: Seq<TdtPath>, active: Seq<TdtPath>) -> bool {
        exists|room: usize, n: nat, seed: TdtPath|
            {
                &&& arithmetic::scaled_count_is(
                    self.arithmetic,
                    self.config.beam_size,
                    self.config.patience,
                    room,
                )
                &&& #[trigger] is_seed(seed, self.blank_id)
                &&& #[trigger] self.rounds_are(room, n, seed, finished, active)
                &&& !self.goes_on(room, finished, active)
            }
    }

    /// `out` is what the search may give: the tokens of the best path, be it
    /// finished or not, and none where there is no path.
    pub open spec fn decodes(self, out: TdtBeamOutput) -> bool {
        exists|finished: Seq<TdtPath>, active: Seq<TdtPath>, best: Option<TdtPath>|
            {
                &&& #[trigger] self.ends_with(finished, active)
                &&& #[trigger] best_is(
                    self.arithmetic,
                    finished + active,
                    self.config.length_penalty,
                    best,
                )
                &&& gives(best, out)
            }
    }

    /// The decoder may answer for `p` on the frame that it stands on; none is asked
    /// for a path past the last frame.
    pub open spec fn may_answer(self, p: TdtPath) -> bool {
        p.step < self.time_steps ==> exists|frame: Tensor3, step: TdtStep|
            {
                &&& tensor::is_frame(*self.encoder_out, p.step as int, frame)
                &&& #[trigger] call_ensures(
                    *self.decoder,
                    (&frame, p.last_token, &p.state_1, &p.state_2),
                    Ok::<TdtStep, Error>(step),
                )
            }
    }

    /// The decoder may refuse one of the paths with the error `e`, on the frame
    /// that it stands on, after it has answered for those before it.
    pub open spec fn refuses_one_of(self, active: Seq<TdtPath>, e: Error) -> bool {
        exists|i: int, frame: Tensor3|
            {
                &&& 0 <= i < active.len()
                &&& forall|j: int| 0 <= j < i ==> self.may_answer(#[trigger] active[j])
                &&& active[i].step < self.time_steps
                &&& tensor::is_frame(*self.encoder_out, active[i].step as int, frame)
                &&& #[trigger] call_ensures(
                    *self.decoder,
                    (&frame, active[i].last_token, &active[i].state_1, &active[i].state_2),
                    Err::<TdtStep, Error>(e),
                )
            }
    }

    /// The decoder may refuse, with the error `e`, a path that is active after
    /// `n` rounds.
    pub open spec fn round_refuses(
        self,
        room: usize,
        n: nat,
        seed: TdtPath,
        finished: Seq<TdtPath>,
        active: Seq<TdtPath>,
        e: Error,
    ) -> bool {
        &&& self.may_go_on(room, n, seed, finished, active)
        &&& self.refuses_one_of(active, e)
    }

    /// The search may end with the error `e`: the decoder refuses a path that it
    /// has reached.
    pub open spec fn may_refuse(self, e: Error) -> bool {
        exists|
            room: usize,
            n: nat,
            seed: TdtPath,
            finished: Seq<TdtPath>,
            active: Seq<TdtPath>,
        | #[trigger]
            self.round_refuses(room, n, seed, finished, active, e)
    }

    /// The duration classes that are taken up for these logits are in the table;
    /// none is where no token is taken up.
    pub open spec fn knows_durations(
        self,
        token_logits: Seq<Bits>,
        duration_logits: Seq<Bits>,
    ) -> bool {
        forall|log_probs: Seq<Bits>, order: Seq<usize>, j: int|
            {
                &&& token_logits.len() > 0
                &&& self.vocab_size > 0
                &&& #[trigger] arithmetic::log_softmax_is(
                    self.arithmetic,
                    duration_logits,
                    log_probs,
                )
                &&& ranking::is_top(log_probs, fewer(self.config.beam_size, 5) as nat, order)
                &&& 0 <= j < order.len()
            } ==> #[trigger] order[j] < 5
    }

    /// The decoder takes every call.
    pub open spec fn decoder_is_total(self) -> bool {
        forall|frame: &Tensor3, token: i32, state_1: &Tensor3, state_2: &Tensor3| #[trigger]
            call_requires(*self.decoder, (frame, token, state_1, state_2))
    }

    /// The durations of every answer for one of the paths are known, on the frame
    /// that the path stands on.
    pub open spec fn answers_are_known(self, active: Seq<TdtPath>) -> bool {
        forall|i: int, frame: Tensor3, step: TdtStep|
            0 <= i < active.len() && active[i].step < self.time_steps && tensor::is_frame(
                *self.encoder_out,
                active[i].step as int,
                frame,
            ) && #[trigger] call_ensures(
                *self.decoder,
                (&frame, active[i].last_token, &active[i].state_1, &active[i].state_2),
                Ok::<TdtStep, Error>(step),
            ) ==> self.knows_durations(step.0@, step.1@)
    }

    /// The search may go on from these paths after `n` rounds.
    pub open spec fn may_go_on(
        self,
        room: usize,
        n: nat,
        seed: TdtPath,
        finished: Seq<TdtPath>,
        active: Seq<TdtPath>,
    ) -> bool {
        &&& arithmetic::scaled_count_is(
            self.arithmetic,
            self.config.beam_size,
            self.config.patience,
            room,
        )
        &&& is_seed(seed, self.blank_id)
        &&& self.rounds_are(room, n, seed, finished, active)
        &&& self.goes_on(room, finished, active)
    }

    /// The durations of every answer for a path that the search reaches are known.
    pub open spec fn durations_are_known(self) -> bool {
        forall|
            room: usize,
            n: nat,
            seed: TdtPath,
            finished: Seq<TdtPath>,
            active: Seq<TdtPath>,
        | #[trigger]
            self.may_go_on(room, n, seed, finished, active) ==> self.answers_are_known(active)
    }
}

/// A fresh path: no token, no score, zero states, and the blank as decoder
/// input.
pub open spec fn is_seed(p: TdtPath, blank_id: usize) -> bool {
    &&& p.score == single::ZERO
    &&& p.step == 0
    &&& p.last_token == blank_id as i32
    &&& tensor::is_zero(p.state_1, (2, 1, 640))
    &&& tensor::is_zero(p.state_2, (2, 1, 640))
    &&& p.stuck == 0
    &&& p.tokens.len() == 0
}

/// `out` lists the tokens of `best`, none where there is no path.
pub open spec fn gives(best: Option<TdtPath>, out: TdtBeamOutput) -> bool {
    let tokens = match best {
        None => Seq::empty(),
        Some(p) => p.tokens,
    };
    &&& out.tokens@ == token_ids(tokens)
    &&& out.frame_indices@ == token_frames(tokens)
    &&& out.durations@ == token_durations(tokens)
}

/// The path that a hypothesis, if any, holds.
pub open spec fn optional_path(h: Option<TdtHypothesis>) -> Option<TdtPath> {
    match h {
        None => None,
        Some(h) => Some(h@),
    }
}

/// A fresh hypothesis.
pub fn seed_hypothesis(blank_id: usize) -> (r: TdtHypothesis)
    ensures
        is_seed(r@, blank_id),
{
    TdtHypothesis {
        score: single::ZERO,
        step: 0,
        last_token: blank_id as i32,
        state_1: initial_state(),
        state_2: initial_state(),
        stuck: 0,
        tokens: Vec::new(),
    }
}

/// Whether two hypotheses are merged.
pub fn has_same_key(a: &TdtHypothesis, b: &TdtHypothesis) -> (r: bool)
    ensures
        r == same_key(a@, b@),
{
    if a.step != b.step || a.last_token != b.last_token || a.tokens.len() != b.tokens.len() {
        assert(token_ids(a.tokens@).len() == a.tokens@.len());
        assert(token_ids(b.tokens@).len() == b.tokens@.len());
        return false;
    }
    let mut i: usize = 0;
    while i < a.tokens.len()
        invariant
            a.tokens@.len() == b.tokens@.len(),
            i <= a.tokens@.len(),
            forall|j: int| 0 <= j < i ==> (#[trigger] a.tokens@[j]).0 == b.tokens@[j].0,
        decreases a.tokens@.len() - i,
    {
        if a.tokens[i].0 != b.tokens[i].0 {
            assert(token_ids(a.tokens@)[i as int] != token_ids(b.tokens@)[i as int]);
            return false;
        }
        i = i + 1;
    }
    assert(token_ids(a.tokens@) =~= token_ids(b.tokens@));
    true
}

/// Takes `hyp` in among the candidates. With a candidate of the same key the
/// better of the two is kept, with their probabilities added up.
pub fn merge_candidate<A: Arithmetic>(
    m: &A,
    candidates: &mut Vec<TdtHypothesis>,
    hyp: TdtHypothesis,
)
    ensures
        exists|i: int, score: Bits| #[trigger]
            absorbs(m, paths(old(candidates)@), hyp@, i, score, paths(final(candidates)@)),
{
    let ghost held = paths(candidates@);
    let ghost p = hyp@;
    let mut i: usize = 0;
    while i < candidates.len() && !has_same_key(&candidates[i], &hyp)
        invariant
            i <= candidates@.len(),
            held == paths(candidates@),
            p == hyp@,
            forall|j: int| 0 <= j < i ==> !same_key(#[trigger] held[j], p),
        decreases candidates@.len() - i,
    {
        i = i + 1;
    }
    let mut score: Bits = single::ZERO;
    if i < candidates.len() {
        score = log_sum_exp(m, candidates[i].score, hyp.score);
        if is_greater(hyp.score, candidates[i].score) {
            candidates[i] = hyp;
        }
        candidates[i].score = score;
        assert(paths(candidates@) =~= held.update(
            i as int,
            TdtPath { score, ..better(held[i as int], p) },
        ));
    } else {
        candidates.push(hyp);
        assert(paths(candidates@) =~= held.push(p));
    }
    assert(absorbs(m, held, p, i as int, score, paths(candidates@)));
}

/// Merges all candidates.
fn merge_all<A: Arithmetic>(m: &A, all: &Vec<TdtHypothesis>) -> (merged: Vec<TdtHypothesis>)
    ensures
        merged_is(m, paths(all@), paths(merged@)),
{
    let mut merged: Vec<TdtHypothesis> = Vec::new();
    let mut n: usize = 0;
    assert(paths(merged@).len() == 0);
    while n < all.len()
        invariant
            n <= all@.len(),
            merged_is(m, paths(all@.take(n as int)), paths(merged@)),
        decreases all@.len() - n,
    {
        proof {
            let seen = paths(all@.take(n + 1));
            assert(seen.drop_last() =~= paths(all@.take(n as int)));
            assert(seen.last() == all@[n as int]@);
        }
        merge_candidate(m, &mut merged, all[n].clone());
        n = n + 1;
    }
    assert(all@.take(n as int) =~= all@);
    merged
}

/// The length-normalized scores of a beam.
fn score_keys<A: Arithmetic>(m: &A, beam: &Vec<TdtHypothesis>, penalty: Bits) -> (keys: Vec<Bits>)
    ensures
        keys_are(m, paths(beam@), penalty, keys@),
{
    let mut keys: Vec<Bits> = Vec::new();
    let mut i: usize = 0;
    while i < beam.len()
        invariant
            i <= beam@.len(),
            keys@.len() == i,
            forall|j: int|
                0 <= j < i ==> arithmetic::length_normalized_score_is(
                    m,
                    paths(beam@)[j].score,
                    paths(beam@)[j].tokens.len(),
                    penalty,
                    #[trigger] keys@[j],
                ),
        decreases beam@.len() - i,
    {
        keys.push(length_normalized_score(m, beam[i].score, beam[i].tokens.len(), penalty));
        i = i + 1;
    }
    keys
}

/// Keeps the best `beam_size` hypotheses by length-normalized score.
fn prune_beam<A: Arithmetic>(m: &A, beam: &Vec<TdtHypothesis>, config: &BeamConfig) -> (pruned: Vec<
    TdtHypothesis,
>)
    ensures
        pruned_is(m, paths(beam@), *config, paths(pruned@)),
{
    let keys = score_keys(m, beam, config.length_penalty);
    let order = top_k_indices(&keys, config.beam_size);
    let mut pruned: Vec<TdtHypothesis> = Vec::new();
    let mut i: usize = 0;
    while i < order.len()
        invariant
            i <= order@.len(),
            ranking::is_top(keys@, config.beam_size as nat, order@),
            keys@.len() == beam@.len(),
            pruned@.len() == i,
            forall|j: int|
                0 <= j < i ==> (#[trigger] pruned@[j])@ == paths(beam@)[order@[j] as int],
        decreases order@.len() - i,
    {
        let at: usize = order[i];
        pruned.push(beam[at].clone());
        i = i + 1;
    }
    assert(paths(pruned@) =~= ranking::pick(paths(beam@), order@));
    pruned
}

/// The best hypothesis by length-normalized score.
pub fn select_best<A: Arithmetic>(m: &A, beam: &Vec<TdtHypothesis>, penalty: Bits) -> (best: Option<
    TdtHypothesis,
>)
    ensures
        best_is(m, paths(beam@), penalty, optional_path(best)),
{
    let keys = score_keys(m, beam, penalty);
    match max_index(&keys) {
        None => None,
        Some(i) => Some(beam[i].clone()),
    }
}

/// A single expansion of `hyp` by a token and a duration.
///
/// `score` is the score of the new hypothesis, and the two states are what the
/// decoder answered.
pub fn expand_hypothesis(
    hyp: &TdtHypothesis,
    token: usize,
    duration: usize,
    score: Bits,
    state_1: &Tensor3,
    state_2: &Tensor3,
    blank_id: usize,
    max_symbols: usize,
) -> (next: TdtHypothesis)
    requires
        duration == 0 ==> hyp.stuck < usize::MAX,
        next_step(hyp.step, hyp.stuck, duration, max_symbols) <= usize::MAX,
    ensures
        next@ == child(
            hyp@,
            token,
            duration,
            score,
            *state_1,
            *state_2,
            blank_id,
            max_symbols,
        ),
{
    let waited: usize = if duration != 0 {
        0
    } else {
        hyp.stuck + 1
    };
    let mut next = hyp.clone();
    next.score = score;
    if waited >= max_symbols {
        next.step = hyp.step + 1;
        next.stuck = 0;
    } else {
        next.step = hyp.step + duration;
        next.stuck = waited;
    }
    if token != blank_id {
        next.last_token = token as i32;
        next.state_1 = state_1.clone();
        next.state_2 = state_2.clone();
        next.tokens.push((token, hyp.step, duration));
    }
    next
}

impl<'a, A: Arithmetic, D: Fn(&Tensor3, i32, &Tensor3, &Tensor3) -> Result<TdtStep, Error>>
    TdtContext<'a, A, D> {
    /// The children of the first `n` tokens do not read later scores.
    proof fn lemma_children_read_their_scores(
        self,
        p: TdtPath,
        x: TdtExpansion,
        y: TdtExpansion,
        n: nat,
    )
        requires
            y == (TdtExpansion { scores: y.scores, ..x }),
            forall|i: int| 0 <= i < n ==> x.scores[i] == y.scores[i],
        ensures
            self.children_of(p, x, n) == self.children_of(p, y, n),
        decreases n,
    {
        if n > 0 {
            self.lemma_children_read_their_scores(p, x, y, (n - 1) as nat);
            assert(self.row_of(p, x, n - 1, x.scores[n - 1], x.durations.len()) =~= self.row_of(
                p,
                y,
                n - 1,
                y.scores[n - 1],
                y.durations.len(),
            ));
        }
    }

    /// Puts the children of `hyp` behind `all`, for a decoder answer that is at
    /// hand.
    pub fn place(&self, hyp: &TdtHypothesis, step: &TdtStep, all: &mut Vec<TdtHypothesis>)
        requires
            self.knows_durations(step.0@, step.1@),
            hyp.step + 4 <= usize::MAX,
            hyp.stuck < usize::MAX,
        ensures
            exists|x: TdtExpansion|
                {
                    &&& x.token_logits == step.0@
                    &&& x.duration_logits == step.1@
                    &&& x.state_1 == step.2
                    &&& x.state_2 == step.3
                    &&& #[trigger] self.places(hyp@, x, paths(old(all)@), paths(final(all)@))
                },
    {
        let ghost held = paths(all@);
        let ghost p = hyp@;
        let beam_token: usize = if self.config.beam_size <= self.vocab_size {
            self.config.beam_size
        } else {
            self.vocab_size
        };
        let beam_duration: usize = if self.config.beam_size <= 5 {
            self.config.beam_size
        } else {
            5
        };
        let token_log_probs = log_softmax(self.arithmetic, &step.0);
        let duration_log_probs = log_softmax(self.arithmetic, &step.1);
        let tokens = top_k_indices(&token_log_probs, beam_token);
        let durations = top_k_indices(&duration_log_probs, beam_duration);
        assert forall|j: int|
            tokens@.len() > 0 && 0 <= j < durations@.len() implies #[trigger] durations@[j] < 5 by {
            assert(arithmetic::log_softmax_is(self.arithmetic, step.1@, duration_log_probs@));
        }
        let ghost mut x = TdtExpansion {
            token_logits: step.0@,
            duration_logits: step.1@,
            state_1: step.2,
            state_2: step.3,
            token_log_probs: token_log_probs@,
            duration_log_probs: duration_log_probs@,
            tokens: tokens@,
            durations: durations@,
            scores: Seq::empty(),
        };
        assert(paths(all@) =~= held + self.children_of(p, x, 0));
        let mut i: usize = 0;
        while i < tokens.len()
            invariant
                i <= tokens@.len(),
                p == hyp@,
                hyp.step + 4 <= usize::MAX,
                hyp.stuck < usize::MAX,
                x == (TdtExpansion {
                    token_logits: step.0@,
                    duration_logits: step.1@,
                    state_1: step.2,
                    state_2: step.3,
                    token_log_probs: token_log_probs@,
                    duration_log_probs: duration_log_probs@,
                    tokens: tokens@,
                    durations: durations@,
                    scores: x.scores,
                }),
                ranking::is_top(token_log_probs@, beam_token as nat, tokens@),
                ranking::is_top(duration_log_probs@, beam_duration as nat, durations@),
                tokens@.len() > 0 ==> forall|j: int|
                    0 <= j < durations@.len() ==> #[trigger] durations@[j] < 5,
                x.scores.len() == i,
                forall|k: int|
                    0 <= k < i ==> self.row_scored(p, x, k, #[trigger] x.scores[k]),
                paths(all@) == held + self.children_of(p, x, i as nat),
            decreases tokens@.len() - i,
        {
            let token: usize = tokens[i];
            let ghost before = paths(all@);
            let ghost mut row: Seq<Bits> = Seq::empty();
            assert(paths(all@) =~= before + self.row_of(p, x, i as int, row, 0));
            let mut j: usize = 0;
            while j < durations.len()
                invariant
                    i < tokens@.len(),
                    j <= durations@.len(),
                    p == hyp@,
                    hyp.step + 4 <= usize::MAX,
                    hyp.stuck < usize::MAX,
                    token == tokens@[i as int],
                    token < token_log_probs@.len(),
                    x == (TdtExpansion {
                        token_logits: step.0@,
                        duration_logits: step.1@,
                        state_1: step.2,
                        state_2: step.3,
                        token_log_probs: token_log_probs@,
                        duration_log_probs: duration_log_probs@,
                        tokens: tokens@,
                        durations: durations@,
                        scores: x.scores,
                    }),
                    ranking::is_top(duration_log_probs@, beam_duration as nat, durations@),
                    forall|k: int| 0 <= k < durations@.len() ==> #[trigger] durations@[k] < 5,
                    row.len() == j,
                    forall|k: int|
                        0 <= k < j ==> self.score_is(
                            p,
                            x,
                            tokens@[i as int],
                            durations@[k],
                            #[trigger] row[k],
                        ),
                    paths(all@) == before + self.row_of(p, x, i as int, row, j as nat),
                decreases durations@.len() - j,
            {
                let class: usize = durations[j];
                let duration: usize = TDT_DURATIONS[class];
                assert(duration <= 4);
                let gain: Bits = weighted_score(
                    self.arithmetic,
                    token_log_probs[token],
                    duration_log_probs[class],
                    self.config.duration_reward,
                );
                let score: Bits = self.arithmetic.sum(hyp.score, gain);
                let next = expand_hypothesis(
                    hyp,
                    token,
                    duration,
                    score,
                    &step.2,
                    &step.3,
                    self.blank_id,
                    self.config.max_symbols_per_step,
                );
                let ghost longer = row.push(score);
                let ghost already = all@;
                let ghost added = next@;
                all.push(next);
                proof {
                    assert(self.score_is(p, x, token, class, score)) by {
                        assert(arithmetic::weighted_score_is(
                            self.arithmetic,
                            x.token_log_probs[token as int],
                            x.duration_log_probs[class as int],
                            self.config.duration_reward,
                            gain,
                        ));
                    }
                    assert(paths(all@) =~= paths(already).push(added));
                    assert(self.row_of(p, x, i as int, longer, (j + 1) as nat) =~= self.row_of(
                        p,
                        x,
                        i as int,
                        row,
                        j as nat,
                    ).push(added));
                    assert(paths(all@) =~= before + self.row_of(
                        p,
                        x,
                        i as int,
                        longer,
                        (j + 1) as nat,
                    ));
                    row = longer;
                }
                j = j + 1;
            }
            proof {
                let y = TdtExpansion { scores: x.scores.push(row), ..x };
                self.lemma_children_read_their_scores(p, x, y, i as nat);
                assert(self.row_of(p, x, i as int, row, x.durations.len()) =~= self.row_of(
                    p,
                    y,
                    i as int,
                    y.scores[i as int],
                    y.durations.len(),
                ));
                assert forall|k: int| 0 <= k < i + 1 implies self.row_scored(
                    p,
                    y,
                    k,
                    #[trigger] y.scores[k],
                ) by {
                    if k < i {
                        assert(self.row_scored(p, x, k, x.scores[k]));
                        self.lemma_rows_read_log_probs(p, x, y, k, x.scores[k]);
                    } else {
                        assert(self.row_scored(p, x, k, row));
                        self.lemma_rows_read_log_probs(p, x, y, k, row);
                    }
                }
                assert(paths(all@) =~= held + self.children_of(p, y, (i + 1) as nat));
                x = y;
            }
            i = i + 1;
        }
        assert(self.places(p, x, held, paths(all@)));
    }

    proof fn lemma_rows_read_log_probs(
        self,
        p: TdtPath,
        x: TdtExpansion,
        y: TdtExpansion,
        i: int,
        row: Seq<Bits>,
    )
        requires
            y == (TdtExpansion { scores: y.scores, ..x }),
            self.row_scored(p, x, i, row),
        ensures
            self.row_scored(p, y, i, row),
    {
        assert forall|j: int| 0 <= j < y.durations.len() implies self.score_is(
            p,
            y,
            y.tokens[i],
            y.durations[j],
            #[trigger] row[j],
        ) by {
            let token = x.tokens[i];
            let class = x.durations[j];
            assert(self.score_is(p, x, token, class, row[j]));
            let gain = choose|gain: Bits|
                {
                    &&& #[trigger] arithmetic::weighted_score_is(
                        self.arithmetic,
                        x.token_log_probs[token as int],
                        x.duration_log_probs[class as int],
                        self.config.duration_reward,
                        gain,
                    )
                    &&& arithmetic::sum_is(self.arithmetic, p.score, gain, row[j])
                };
            assert(arithmetic::weighted_score_is(
                self.arithmetic,
                y.token_log_probs[token as int],
                y.duration_log_probs[class as int],
                self.config.duration_reward,
                gain,
            ));
        }
    }
}

/// The hypotheses on one side of the last frame.
fn sort_out(beam: &Vec<TdtHypothesis>, time_steps: usize, done: bool) -> (r: Vec<TdtHypothesis>)
    ensures
        paths(r@) == sorted_out(paths(beam@), time_steps, done),
{
    let mut r: Vec<TdtHypothesis> = Vec::new();
    let mut i: usize = 0;
    assert(paths(r@) =~= sorted_out(paths(beam@.take(0)), time_steps, done));
    while i < beam.len()
        invariant
            i <= beam@.len(),
            paths(r@) == sorted_out(paths(beam@.take(i as int)), time_steps, done),
        decreases beam@.len() - i,
    {
        let ghost held = r@;
        if (beam[i].step >= time_steps) == done {
            r.push(beam[i].clone());
            assert(paths(r@) =~= paths(held).push(beam@[i as int]@));
        }
        proof {
            let seen = paths(beam@.take(i + 1));
            assert(seen.drop_last() =~= paths(beam@.take(i as int)));
            assert(seen.last() == beam@[i as int]@);
        }
        i = i + 1;
    }
    assert(beam@.take(i as int) =~= beam@);
    r
}

/// Puts `more` behind `hyps`.
fn append_all(hyps: &mut Vec<TdtHypothesis>, more: &Vec<TdtHypothesis>)
    ensures
        paths(final(hyps)@) == paths(old(hyps)@) + paths(more@),
{
    let ghost held = paths(hyps@);
    let mut i: usize = 0;
    assert(paths(hyps@) =~= held + paths(more@.take(0)));
    while i < more.len()
        invariant
            i <= more@.len(),
            paths(hyps@) == held + paths(more@.take(i as int)),
        decreases more@.len() - i,
    {
        let ghost before = hyps@;
        hyps.push(more[i].clone());
        assert(paths(hyps@) =~= paths(before).push(more@[i as int]@));
        assert(paths(more@.take(i + 1)) =~= paths(more@.take(i as int)).push(more@[i as int]@));
        assert(paths(hyps@) =~= held + paths(more@.take(i + 1)));
        i = i + 1;
    }
    assert(more@.take(i as int) =~= more@);
}

impl<'a, A: Arithmetic, D: Fn(&Tensor3, i32, &Tensor3, &Tensor3) -> Result<TdtStep, Error>>
    TdtContext<'a, A, D> {
    /// The pool of finished hypotheses may have room for one.
    pub open spec fn may_have_room(self) -> bool {
        exists|room: usize|
            room > 0 && #[trigger] arithmetic::scaled_count_is(
                self.arithmetic,
                self.config.beam_size,
                self.config.patience,
                room,
            )
    }

    /// What an expansion needs: a decoder that takes every call, and frames to hand
    /// to it.
    pub open spec fn can_expand(self) -> bool {
        &&& self.time_steps <= tensor::tensor3_shape(*self.encoder_out).2
        &&& self.time_steps > 0 ==> {
            &&& self.decoder_is_total()
            &&& tensor::tensor3_shape(*self.encoder_out).0 > 0
        }
    }

    /// What the search needs of its inputs: that it can expand, unless the pool of
    /// finished hypotheses has no room from the start, and that the durations it
    /// comes upon are known.
    pub open spec fn is_ready(self) -> bool {
        &&& self.time_steps <= tensor::tensor3_shape(*self.encoder_out).2
        &&& self.may_have_room() ==> self.can_expand()
        &&& self.durations_are_known()
    }

    /// Expands every active hypothesis.
    fn expand_all(&self, active: &Vec<TdtHypothesis>) -> (r: Result<Vec<TdtHypothesis>, Error>)
        requires
            self.can_expand(),
            self.answers_are_known(paths(active@)),
            self.time_steps + 4 <= usize::MAX,
            forall|i: int|
                0 <= i < active@.len() ==> (#[trigger] active@[i]).stuck < usize::MAX,
        ensures
            r matches Ok(all) ==> self.all_expanded(paths(active@), paths(all@)),
            r matches Err(e) ==> self.refuses_one_of(paths(active@), e),
    {
        let mut all: Vec<TdtHypothesis> = Vec::new();
        let mut i: usize = 0;
        assert(paths(active@.take(0)).len() == 0 && paths(all@).len() == 0);
        while i < active.len()
            invariant
                self.can_expand(),
                self.answers_are_known(paths(active@)),
                self.time_steps + 4 <= usize::MAX,
                i <= active@.len(),
                forall|j: int|
                    0 <= j < active@.len() ==> (#[trigger] active@[j]).stuck < usize::MAX,
                self.all_expanded(paths(active@.take(i as int)), paths(all@)),
                forall|j: int| 0 <= j < i ==> self.may_answer(#[trigger] paths(active@)[j]),
            decreases active@.len() - i,
        {
            let hyp = &active[i];
            let ghost held = paths(all@);
            proof {
                let seen = paths(active@.take(i + 1));
                assert(seen.drop_last() =~= paths(active@.take(i as int)));
                assert(seen.last() == hyp@);
            }
            if hyp.step >= self.time_steps {
                proof {
                    let frame = arbitrary::<Tensor3>();
                    let x = arbitrary::<TdtExpansion>();
                    assert(self.expands(frame, hyp@, x, held, paths(all@)));
                }
            } else {
                let frame = match self.encoder_out.frame(hyp.step, "frame") {
                    Err(e) => {
                        return Err(e);
                    },
                    Ok(frame) => frame,
                };
                let decoder = self.decoder;
                let answer = decoder(&frame, hyp.last_token, &hyp.state_1, &hyp.state_2);
                match answer {
                    Err(e) => {
                        let ghost p = paths(active@)[i as int];
                        assert(call_ensures(
                            *self.decoder,
                            (&frame, p.last_token, &p.state_1, &p.state_2),
                            Err::<TdtStep, Error>(e),
                        ));
                        return Err(e);
                    },
                    Ok(step) => {
                        assert(self.knows_durations(step.0@, step.1@) && self.may_answer(
                            paths(active@)[i as int],
                        )) by {
                            let p = paths(active@)[i as int];
                            assert(call_ensures(
                                *self.decoder,
                                (&frame, p.last_token, &p.state_1, &p.state_2),
                                Ok::<TdtStep, Error>(step),
                            ));
                        }
                        self.place(hyp, &step, &mut all);
                        proof {
                            let x = choose|x: TdtExpansion|
                                {
                                    &&& x.token_logits == step.0@
                                    &&& x.duration_logits == step.1@
                                    &&& x.state_1 == step.2
                                    &&& x.state_2 == step.3
                                    &&& #[trigger] self.places(hyp@, x, held, paths(all@))
                                };
                            assert(self.answers(frame, hyp@, x)) by {
                                assert(call_ensures(
                                    *self.decoder,
                                    (&frame, hyp@.last_token, &hyp@.state_1, &hyp@.state_2),
                                    Ok::<TdtStep, Error>((step.0, step.1, x.state_1, x.state_2)),
                                ));
                            }
                            assert(self.expands(frame, hyp@, x, held, paths(all@)));
                        }
                    },
                }
            }
            i = i + 1;
        }
        assert(active@.take(i as int) =~= active@);
        Ok(all)
    }

    /// Runs rounds until the pool of `room` finished hypotheses is full or none
    /// is active, and returns the finished and the active ones.
    fn search(&self, room: usize) -> (r: Result<(Vec<TdtHypothesis>, Vec<TdtHypothesis>), Error>)
        requires
            self.is_ready(),
            self.time_steps + 4 <= usize::MAX,
            arithmetic::scaled_count_is(
                self.arithmetic,
                self.config.beam_size,
                self.config.patience,
                room,
            ),
        ensures
            r matches Ok(ends) ==> self.ends_with(paths(ends.0@), paths(ends.1@)),
            r matches Err(e) ==> self.may_refuse(e),
    {
        let seed = seed_hypothesis(self.blank_id);
        let ghost s = seed@;
        let mut finished: Vec<TdtHypothesis> = Vec::new();
        let mut active: Vec<TdtHypothesis> = Vec::new();
        active.push(seed);
        let ghost mut n: nat = 0;
        let ghost cap = tdt_laws::frame_cap(self.config.max_symbols_per_step);
        assert(paths(active@) =~= seq![s]);
        while finished.len() < room && active.len() > 0
            invariant
                self.is_ready(),
                self.time_steps + 4 <= usize::MAX,
                arithmetic::scaled_count_is(
                    self.arithmetic,
                    self.config.beam_size,
                    self.config.patience,
                    room,
                ),
                is_seed(s, self.blank_id),
                cap == tdt_laws::frame_cap(self.config.max_symbols_per_step),
                self.rounds_are(room, n, s, paths(finished@), paths(active@)),
            decreases self.time_steps * cap + 2 - n,
        {
            let ghost f = paths(finished@);
            let ghost a = paths(active@);
            assert(self.may_have_room());
            proof {
                self.law_rounds_are_bounded(room, n, s, f, a);
                self.law_paths_are_sound(room, n, s, f, a);
                let steps = self.time_steps as int;
                assert(steps * cap >= 0) by (nonlinear_arith)
                    requires
                        steps >= 0,
                        cap >= 1,
                ;
            }
            assert forall|i: int| 0 <= i < active@.len() implies (#[trigger] active@[i]).stuck
                < usize::MAX by {
                assert(self.is_sound()(a[i]));
            }
            assert(self.may_go_on(room, n, s, f, a));
            let all = match self.expand_all(&active) {
                Err(e) => {
                    assert(self.round_refuses(room, n, s, f, a, e));
                    return Err(e);
                },
                Ok(all) => all,
            };
            let merged = merge_all(self.arithmetic, &all);
            let done = sort_out(&merged, self.time_steps, true);
            append_all(&mut finished, &done);
            let left = sort_out(&merged, self.time_steps, false);
            active = prune_beam(self.arithmetic, &left, &self.config);
            proof {
                assert(self.round_is(f, a, paths(finished@), paths(active@)));
                n = n + 1;
            }
        }
        proof {
            assert(is_seed(s, self.blank_id));
            assert(self.rounds_are(room, n, s, paths(finished@), paths(active@)));
        }
        Ok((finished, active))
    }
}

/// TDT beam search over the encoder output, whatever model answers.
///
/// Frames from `encoder_len` on are left out. The output lists the tokens of the
/// best hypothesis by length-normalized score.
pub fn decode_tdt_beam<
    A: Arithmetic,
    D: Fn(&Tensor3, i32, &Tensor3, &Tensor3) -> Result<TdtStep, Error>,
>(
    arithmetic: &A,
    encoder_out: &Tensor3,
    encoder_len: usize,
    blank_id: usize,
    vocab_size: usize,
    config: &BeamConfig,
    decoder: &D,
) -> (r: Result<TdtBeamOutput, Error>)
    requires
        (TdtContext {
            arithmetic,
            decoder,
            encoder_out,
            time_steps: fewer(tensor::tensor3_shape(*encoder_out).2, encoder_len),
            blank_id,
            vocab_size,
            config: *config,
        }).is_ready(),
    ensures
        match r {
            Ok(out) => (TdtContext {
                arithmetic,
                decoder,
                encoder_out,
                time_steps: fewer(tensor::tensor3_shape(*encoder_out).2, encoder_len),
                blank_id,
                vocab_size,
                config: *config,
            }).decodes(out),
            Err(e) => (TdtContext {
                arithmetic,
                decoder,
                encoder_out,
                time_steps: fewer(tensor::tensor3_shape(*encoder_out).2, encoder_len),
                blank_id,
                vocab_size,
                config: *config,
            }).may_refuse(e),
        },
{
    let (_, _, frames) = encoder_out.shape();
    let time_steps: usize = if frames <= encoder_len {
        frames
    } else {
        encoder_len
    };
    let context = TdtContext {
        arithmetic,
        decoder,
        encoder_out,
        time_steps,
        blank_id,
        vocab_size,
        config: *config,
    };
    let room: usize = scaled_count(arithmetic, config.beam_size, config.patience);
    let (finished, active) = match context.search(room) {
        Err(e) => {
            return Err(e);
        },
        Ok(ends) => ends,
    };
    let ghost done = paths(finished@);
    let mut all = finished;
    append_all(&mut all, &active);
    let best = select_best(arithmetic, &all, config.length_penalty);
    let mut tokens: Vec<usize> = Vec::new();
    let mut frame_indices: Vec<usize> = Vec::new();
    let mut durations: Vec<usize> = Vec::new();
    match &best {
        None => {
            assert(tokens@ =~= token_ids(Seq::empty()));
            assert(frame_indices@ =~= token_frames(Seq::empty()));
            assert(durations@ =~= token_durations(Seq::empty()));
        },
        Some(h) => {
            let mut i: usize = 0;
            while i < h.tokens.len()
                invariant
                    i <= h.tokens@.len(),
                    tokens@ =~= token_ids(h.tokens@.take(i as int)),
                    frame_indices@ =~= token_frames(h.tokens@.take(i as int)),
                    durations@ =~= token_durations(h.tokens@.take(i as int)),
                decreases h.tokens@.len() - i,
            {
                let (token, frame, duration) = h.tokens[i];
                tokens.push(token);
                frame_indices.push(frame);
                durations.push(duration);
                i = i + 1;
            }
            assert(h.tokens@.take(i as int) =~= h.tokens@);
        },
    }
    let out = TdtBeamOutput { tokens, frame_indices, durations };
    proof {
        assert(context.ends_with(done, paths(active@)));
        assert(best_is(
            arithmetic,
            done + paths(active@),
            config.length_penalty,
            optional_path(best),
        ));
        assert(gives(optional_path(best), out));
    }
    Ok(out)
}

} // verus!
