//! TDT greedy search over a decoder callback.
//!
//! On the current frame the best token and the best duration are taken. A token
//! that is not blank is emitted and fed back to the decoder; the duration says
//! how many frames to move on. Without a duration the search stays on the frame
//! until a blank comes or the frame has emitted enough tokens.
use vstd::prelude::*;
use crate::decoding::initial_state;
use crate::decoding::tdt_beam::{TdtBeamOutput, TdtStep};
use crate::error::Error;
use crate::ranking;
use crate::ranking::max_index;
use crate::single;
use crate::single::Bits;
use crate::tensor;
use crate::tensor::Tensor3;

verus! {

/// Most tokens emitted on a frame without a duration.
pub const MAX_TOKENS_PER_STEP: usize = 10;

/// Where a greedy search stands.
#[derive(Debug)]
pub struct GreedySearch {
    /// The encoder frame that comes next.
    pub t: usize,
    /// Tokens emitted since the search last moved on.
    pub emitted: usize,
    /// The last token that is not blank, which the decoder is fed.
    pub last_token: i32,
    /// First decoder state.
    pub state_1: Tensor3,
    /// Second decoder state.
    pub state_2: Tensor3,
    /// Emitted token ids.
    pub tokens: Vec<usize>,
    /// The encoder frame of each token.
    pub frame_indices: Vec<usize>,
    /// The duration of each token.
    pub durations: Vec<usize>,
}

/// What a greedy search holds.
pub struct GreedyPath {
    pub t: usize,
    pub emitted: usize,
    pub last_token: i32,
    pub state_1: Tensor3,
    pub state_2: Tensor3,
    pub tokens: Seq<usize>,
    pub frame_indices: Seq<usize>,
    pub durations: Seq<usize>,
}

impl View for GreedySearch {
    type V = GreedyPath;

    open spec fn view(&self) -> GreedyPath {
        GreedyPath {
            t: self.t,
            emitted: self.emitted,
            last_token: self.last_token,
            state_1: self.state_1,
            state_2: self.state_2,
            tokens: self.tokens@,
            frame_indices: self.frame_indices@,
            durations: self.durations@,
        }
    }
}

/// The best token, the last one among equals; the blank where there is none.
pub open spec fn best_token(logits: Seq<Bits>, blank_id: usize) -> usize {
    if logits.len() == 0 {
        blank_id
    } else {
        ranking::last_max(logits) as usize
    }
}

/// The best duration, the last one among equals; zero where there is none.
pub open spec fn best_duration(logits: Seq<Bits>) -> usize {
    if logits.len() == 0 {
        0
    } else {
        ranking::last_max(logits) as usize
    }
}

/// The search after the token is emitted; a blank changes nothing.
pub open spec fn after_token(
    p: GreedyPath,
    token: usize,
    duration: usize,
    state_1: Tensor3,
    state_2: Tensor3,
    blank_id: usize,
) -> GreedyPath {
    if token == blank_id {
        p
    } else {
        GreedyPath {
            emitted: (p.emitted + 1) as usize,
            last_token: token as i32,
            state_1,
            state_2,
            tokens: p.tokens.push(token),
            frame_indices: p.frame_indices.push(p.t),
            durations: p.durations.push(duration),
            ..p
        }
    }
}

/// The frame `duration` further, but none past the last.
pub open spec fn frame_after(t: usize, duration: usize, time_steps: usize) -> usize {
    if t + duration >= time_steps {
        time_steps
    } else {
        (t + duration) as usize
    }
}

/// The search after it has moved on as far as token and duration say.
pub open spec fn after_move(
    p: GreedyPath,
    token: usize,
    duration: usize,
    time_steps: usize,
    blank_id: usize,
) -> GreedyPath {
    if duration > 0 {
        GreedyPath { t: frame_after(p.t, duration, time_steps), emitted: 0, ..p }
    } else if token == blank_id || p.emitted >= MAX_TOKENS_PER_STEP {
        GreedyPath { t: frame_after(p.t, 1, time_steps), emitted: 0, ..p }
    } else {
        p
    }
}

/// The search after one decoder answer.
pub open spec fn after_answer(
    p: GreedyPath,
    token_logits: Seq<Bits>,
    duration_logits: Seq<Bits>,
    state_1: Tensor3,
    state_2: Tensor3,
    time_steps: usize,
    blank_id: usize,
) -> GreedyPath {
    let token = best_token(token_logits, blank_id);
    let duration = best_duration(duration_logits);
    after_move(
        after_token(p, token, duration, state_1, state_2, blank_id),
        token,
        duration,
        time_steps,
        blank_id,
    )
}

/// A search that has not begun: no token, zero states, and the blank as decoder
/// input.
pub open spec fn is_start(p: GreedyPath, blank_id: usize) -> bool {
    &&& p.t == 0
    &&& p.emitted == 0
    &&& p.last_token == blank_id as i32
    &&& tensor::is_zero(p.state_1, (2, 1, 640))
    &&& tensor::is_zero(p.state_2, (2, 1, 640))
    &&& p.tokens.len() == 0
    &&& p.frame_indices.len() == 0
    &&& p.durations.len() == 0
}

impl GreedySearch {
    /// A search before its first frame.
    pub fn start(blank_id: usize) -> (r: GreedySearch)
        ensures
            is_start(r@, blank_id),
    {
        GreedySearch {
            t: 0,
            emitted: 0,
            last_token: blank_id as i32,
            state_1: initial_state(),
            state_2: initial_state(),
            tokens: Vec::new(),
            frame_indices: Vec::new(),
            durations: Vec::new(),
        }
    }

    /// Takes in a decoder answer.
    pub fn take_in(&mut self, step: TdtStep, time_steps: usize, blank_id: usize)
        requires
            old(self).emitted < MAX_TOKENS_PER_STEP,
            old(self).t < time_steps,
        ensures
            final(self)@ == after_answer(
                old(self)@,
                step.0@,
                step.1@,
                step.2,
                step.3,
                time_steps,
                blank_id,
            ),
    {
        let (token_logits, duration_logits, state_1, state_2) = step;
        let token: usize = match max_index(&token_logits) {
            None => blank_id,
            Some(i) => i,
        };
        let duration: usize = match max_index(&duration_logits) {
            None => 0,
            Some(i) => i,
        };
        if token != blank_id {
            self.state_1 = state_1;
            self.state_2 = state_2;
            self.tokens.push(token);
            self.frame_indices.push(self.t);
            self.durations.push(duration);
            self.last_token = token as i32;
            self.emitted = self.emitted + 1;
        }
        if duration > 0 {
            let left: usize = time_steps - self.t;
            self.t = if duration >= left {
                time_steps
            } else {
                self.t + duration
            };
            self.emitted = 0;
        } else if token == blank_id || self.emitted >= MAX_TOKENS_PER_STEP {
            self.t = self.t + 1;
            self.emitted = 0;
        }
    }
}

/// Place `i` holds the greatest of the logits, the last one among equals.
pub open spec fn is_best(logits: Seq<Bits>, i: int) -> bool {
    &&& 0 <= i < logits.len() <= usize::MAX
    &&& forall|j: int| 0 <= j < logits.len() ==> !single::is_nan(#[trigger] logits[j])
    &&& forall|j: int| 0 <= j < logits.len() ==> !single::greater(#[trigger] logits[j], logits[i])
    &&& forall|j: int| i < j < logits.len() ==> single::greater(logits[i], #[trigger] logits[j])
}

/// The best logit is where the search for the greatest ends.
pub proof fn lemma_best_is_last_max(logits: Seq<Bits>, i: int)
    requires
        is_best(logits, i),
    ensures
        ranking::last_max(logits) == i,
{
    ranking::law_last_max_is_greatest(logits);
    let k = ranking::last_max(logits);
    if k < i {
        assert(single::greater(logits[k], logits[i]));
    } else if i < k {
        assert(single::greater(logits[i], logits[k]));
        assert(!single::greater(logits[i], logits[k]));
    }
}

/// What stays the same during a greedy search.
pub struct GreedyContext<'a, D> {
    /// The decoder callback.
    pub decoder: &'a D,
    /// Encoder output of shape `(batch, hidden, time)`.
    pub encoder_out: &'a Tensor3,
    /// The blank token.
    pub blank_id: usize,
}

/// `out` lists what the search has emitted.
pub open spec fn gives(p: GreedyPath, out: TdtBeamOutput) -> bool {
    &&& out.tokens@ == p.tokens
    &&& out.frame_indices@ == p.frame_indices
    &&& out.durations@ == p.durations
}

impl<'a, D: Fn(&Tensor3, i32, &Tensor3, &Tensor3) -> Result<TdtStep, Error>> GreedyContext<'a, D> {
    /// The frames of the encoder output.
    pub open spec fn time_steps(self) -> usize {
        tensor::tensor3_shape(*self.encoder_out).2
    }

    /// One decoder call, which is handed the frame that comes next, may lead
    /// from `p` to `next`.
    pub open spec fn steps_to(
        self,
        p: GreedyPath,
        frame: Tensor3,
        step: TdtStep,
        next: GreedyPath,
    ) -> bool {
        &&& p.t < self.time_steps()
        &&& tensor::is_frame(*self.encoder_out, p.t as int, frame)
        &&& call_ensures(
            *self.decoder,
            (&frame, p.last_token, &p.state_1, &p.state_2),
            Ok::<TdtStep, Error>(step),
        )
        &&& next == after_answer(
            p,
            step.0@,
            step.1@,
            step.2,
            step.3,
            self.time_steps(),
            self.blank_id,
        )
    }

    /// `n` decoder calls may lead from `start` to `p`.
    pub open spec fn runs_to(self, n: nat, start: GreedyPath, p: GreedyPath) -> bool
        decreases n,
    {
        if n == 0 {
            p == start
        } else {
            exists|before: GreedyPath, frame: Tensor3, step: TdtStep|
                self.runs_to((n - 1) as nat, start, before) && #[trigger] self.steps_to(
                    before,
                    frame,
                    step,
                    p,
                )
        }
    }

    /// `out` is what the search may give: it ends past the last frame.
    pub open spec fn decodes(self, out: TdtBeamOutput) -> bool {
        exists|n: nat, start: GreedyPath, end: GreedyPath|
            {
                &&& #[trigger] is_start(start, self.blank_id)
                &&& #[trigger] self.runs_to(n, start, end)
                &&& end.t >= self.time_steps()
                &&& gives(end, out)
            }
    }

    /// The decoder may refuse, with the error `e`, the frame that comes next
    /// after `n` calls.
    pub open spec fn call_refuses(
        self,
        n: nat,
        start: GreedyPath,
        p: GreedyPath,
        frame: Tensor3,
        e: Error,
    ) -> bool {
        &&& is_start(start, self.blank_id)
        &&& self.runs_to(n, start, p)
        &&& p.t < self.time_steps()
        &&& tensor::is_frame(*self.encoder_out, p.t as int, frame)
        &&& call_ensures(
            *self.decoder,
            (&frame, p.last_token, &p.state_1, &p.state_2),
            Err::<TdtStep, Error>(e),
        )
    }

    /// The search may end with the error `e`: the decoder refuses a frame that it
    /// has reached.
    pub open spec fn may_refuse(self, e: Error) -> bool {
        exists|n: nat, start: GreedyPath, p: GreedyPath, frame: Tensor3| #[trigger]
            self.call_refuses(n, start, p, frame, e)
    }

    /// The decoder takes every call.
    pub open spec fn decoder_is_total(self) -> bool {
        forall|frame: &Tensor3, token: i32, state_1: &Tensor3, state_2: &Tensor3|
            #[trigger] call_requires(*self.decoder, (frame, token, state_1, state_2))
    }

    /// What the search needs of its inputs: a decoder that takes every call, and
    /// frames to hand to it.
    pub open spec fn is_ready(self) -> bool {
        self.time_steps() > 0 ==> {
            &&& self.decoder_is_total()
            &&& tensor::tensor3_shape(*self.encoder_out).0 > 0
        }
    }

    /// Runs the search over all frames of the encoder output.
    pub fn decode(&self) -> (r: Result<TdtBeamOutput, Error>)
        requires
            self.is_ready(),
        ensures
            r matches Ok(out) ==> self.decodes(out),
            r matches Err(e) ==> self.may_refuse(e),
    {
        let (_, _, time_steps) = self.encoder_out.shape();
        let mut search = GreedySearch::start(self.blank_id);
        let ghost start = search@;
        let ghost mut n: nat = 0;
        while search.t < time_steps
            invariant
                self.is_ready(),
                is_start(start, self.blank_id),
                time_steps == self.time_steps(),
                search.t <= time_steps,
                search.emitted < MAX_TOKENS_PER_STEP,
                self.runs_to(n, start, search@),
            decreases time_steps - search.t, MAX_TOKENS_PER_STEP - search.emitted,
        {
            let frame = match self.encoder_out.frame(search.t, "frame") {
                Err(e) => {
                    return Err(e);
                },
                Ok(frame) => frame,
            };
            let decoder = self.decoder;
            let answer = decoder(&frame, search.last_token, &search.state_1, &search.state_2);
            match answer {
                Err(e) => {
                    assert(self.call_refuses(n, start, search@, frame, e));
                    return Err(e);
                },
                Ok(step) => {
                    let ghost before = search@;
                    let ghost answered = step;
                    search.take_in(step, time_steps, self.blank_id);
                    proof {
                        assert(self.steps_to(before, frame, answered, search@));
                        n = n + 1;
                    }
                },
            }
        }
        let ghost end = search@;
        let out = TdtBeamOutput {
            tokens: search.tokens,
            frame_indices: search.frame_indices,
            durations: search.durations,
        };
        proof {
            assert(is_start(start, self.blank_id));
            assert(self.runs_to(n, start, end));
            assert(gives(end, out));
        }
        Ok(out)
    }
}

/// The tokens of a greedy search are laid out on the frames in order: as many
/// frames and durations as tokens, no blank, each token on one of the frames,
/// none before the end of an earlier one, no more than [`MAX_TOKENS_PER_STEP`]
/// on a frame, and the search standing where the last one ends or past the last
/// frame. The decoder input is the last token.
pub open spec fn laid_out(p: GreedyPath, blank_id: usize, time_steps: usize) -> bool {
    &&& p.frame_indices.len() == p.tokens.len()
    &&& p.durations.len() == p.tokens.len()
    &&& p.t <= time_steps
    &&& p.emitted < MAX_TOKENS_PER_STEP
    &&& forall|i: int|
        0 <= i < p.tokens.len() ==> {
            &&& #[trigger] p.tokens[i] != blank_id
            &&& p.frame_indices[i] < time_steps
            &&& p.frame_indices[i] + p.durations[i] <= p.t || p.t == time_steps
            &&& p.frame_indices[i] <= p.t
        }
    &&& forall|i: int, j: int|
        0 <= i < j < p.tokens.len() ==> (#[trigger] p.frame_indices[i]) + p.durations[i] <= (
        #[trigger] p.frame_indices[j])
    &&& forall|i: int|
        0 <= i < p.tokens.len() - p.emitted ==> (#[trigger] p.frame_indices[i]) < p.t
    &&& forall|i: int, j: int|
        0 <= i && i + MAX_TOKENS_PER_STEP <= j < p.tokens.len() ==> (
        #[trigger] p.frame_indices[i]) < (#[trigger] p.frame_indices[j])
    &&& p.last_token == if p.tokens.len() == 0 {
        blank_id as i32
    } else {
        p.tokens.last() as i32
    }
}

impl<'a, D: Fn(&Tensor3, i32, &Tensor3, &Tensor3) -> Result<TdtStep, Error>> GreedyContext<'a, D> {
    /// Every state of the search is well laid out.
    pub proof fn law_search_is_laid_out(self, n: nat, start: GreedyPath, p: GreedyPath)
        requires
            is_start(start, self.blank_id),
            self.runs_to(n, start, p),
        ensures
            laid_out(p, self.blank_id, self.time_steps()),
        decreases n,
    {
        if n > 0 {
            let (before, frame, step) = choose|before: GreedyPath, frame: Tensor3, step: TdtStep|
                self.runs_to((n - 1) as nat, start, before) && #[trigger] self.steps_to(
                    before,
                    frame,
                    step,
                    p,
                );
            self.law_search_is_laid_out((n - 1) as nat, start, before);
            let token = best_token(step.0@, self.blank_id);
            let duration = best_duration(step.1@);
            let q = after_token(before, token, duration, step.2, step.3, self.blank_id);
            assert(p.tokens == q.tokens && p.frame_indices == q.frame_indices && p.durations
                == q.durations);
            assert forall|i: int| 0 <= i < p.tokens.len() implies {
                &&& #[trigger] p.tokens[i] != self.blank_id
                &&& p.frame_indices[i] < self.time_steps()
                &&& p.frame_indices[i] + p.durations[i] <= p.t || p.t == self.time_steps()
                &&& p.frame_indices[i] <= p.t
            } by {
                if i < before.tokens.len() {
                    assert(p.tokens[i] == before.tokens[i]);
                    assert(p.frame_indices[i] == before.frame_indices[i]);
                    assert(p.durations[i] == before.durations[i]);
                }
            }
            assert forall|i: int, j: int| 0 <= i < j < p.tokens.len() implies (
            #[trigger] p.frame_indices[i]) + p.durations[i] <= (#[trigger] p.frame_indices[j]) by {
                assert(p.tokens[i] == before.tokens[i]);
                assert(p.frame_indices[i] == before.frame_indices[i]);
                assert(p.durations[i] == before.durations[i]);
                if j < before.tokens.len() {
                    assert(p.frame_indices[j] == before.frame_indices[j]);
                }
            }
            assert forall|i: int| 0 <= i < p.tokens.len() - p.emitted implies (
            #[trigger] p.frame_indices[i]) < p.t by {
                if i < before.tokens.len() {
                    assert(p.frame_indices[i] == before.frame_indices[i]);
                    assert(before.tokens[i] != self.blank_id);
                }
            }
            assert forall|i: int, j: int|
                0 <= i && i + MAX_TOKENS_PER_STEP <= j < p.tokens.len() implies (
            #[trigger] p.frame_indices[i]) < (#[trigger] p.frame_indices[j]) by {
                assert(p.frame_indices[i] == before.frame_indices[i]);
                if j < before.tokens.len() {
                    assert(p.frame_indices[j] == before.frame_indices[j]);
                }
            }
        }
    }

    /// The output of a greedy search is well laid out: the three lists have the
    /// same length, no token is blank, no token starts before an earlier one
    /// ends, and no frame has more than [`MAX_TOKENS_PER_STEP`] of them.
    pub proof fn law_output_is_laid_out(self, out: TdtBeamOutput)
        requires
            self.decodes(out),
        ensures
            out.frame_indices@.len() == out.tokens@.len(),
            out.durations@.len() == out.tokens@.len(),
            forall|i: int|
                0 <= i < out.tokens@.len() ==> #[trigger] out.tokens@[i] != self.blank_id
                    && out.frame_indices@[i] < self.time_steps(),
            forall|i: int, j: int|
                0 <= i < j < out.tokens@.len() ==> (#[trigger] out.frame_indices@[i])
                    + out.durations@[i] <= (#[trigger] out.frame_indices@[j]),
            forall|i: int, j: int|
                0 <= i && i + MAX_TOKENS_PER_STEP <= j < out.tokens@.len() ==> (
                #[trigger] out.frame_indices@[i]) < (#[trigger] out.frame_indices@[j]),
    {
        let (n, start, end) = choose|n: nat, start: GreedyPath, end: GreedyPath|
            {
                &&& #[trigger] is_start(start, self.blank_id)
                &&& #[trigger] self.runs_to(n, start, end)
                &&& end.t >= self.time_steps()
                &&& gives(end, out)
            };
        self.law_search_is_laid_out(n, start, end);
    }

    /// A greedy search makes at most [`MAX_TOKENS_PER_STEP`] decoder calls for each
    /// frame, and fewer where it has not ended.
    pub proof fn law_calls_are_bounded(self, n: nat, start: GreedyPath, p: GreedyPath)
        requires
            is_start(start, self.blank_id),
            self.runs_to(n, start, p),
        ensures
            n <= MAX_TOKENS_PER_STEP * p.t + p.emitted,
            n <= MAX_TOKENS_PER_STEP * self.time_steps(),
            p.t < self.time_steps() ==> n < MAX_TOKENS_PER_STEP * self.time_steps(),
        decreases n,
    {
        self.law_search_is_laid_out(n, start, p);
        if n > 0 {
            let (before, frame, step) = choose|before: GreedyPath, frame: Tensor3, step: TdtStep|
                self.runs_to((n - 1) as nat, start, before) && #[trigger] self.steps_to(
                    before,
                    frame,
                    step,
                    p,
                );
            self.law_calls_are_bounded((n - 1) as nat, start, before);
            self.law_search_is_laid_out((n - 1) as nat, start, before);
        }
    }

    /// No decoder answer has more than `v` token logits.
    pub open spec fn answers_are_within(self, v: int) -> bool {
        forall|frame: &Tensor3, token: i32, s: &Tensor3, u: &Tensor3, step: TdtStep| #[trigger]
            call_ensures(
                *self.decoder,
                (frame, token, s, u),
                Ok::<TdtStep, Error>(step),
            ) ==> step.0@.len() <= v
    }

    proof fn lemma_tokens_stay_below(self, n: nat, start: GreedyPath, p: GreedyPath, v: int)
        requires
            is_start(start, self.blank_id),
            self.runs_to(n, start, p),
            self.answers_are_within(v),
        ensures
            forall|i: int| 0 <= i < p.tokens.len() ==> #[trigger] p.tokens[i] < v,
        decreases n,
    {
        if n > 0 {
            let (before, frame, step) = choose|before: GreedyPath, frame: Tensor3, step: TdtStep|
                self.runs_to((n - 1) as nat, start, before) && #[trigger] self.steps_to(
                    before,
                    frame,
                    step,
                    p,
                );
            self.lemma_tokens_stay_below((n - 1) as nat, start, before, v);
            if step.0@.len() > 0 {
                ranking::lemma_last_max_bounds(step.0@);
            }
            assert(step.0@.len() <= v);
            assert(step.0.len() == step.0@.len());
            assert forall|i: int| 0 <= i < p.tokens.len() implies #[trigger] p.tokens[i] < v by {
                if i < before.tokens.len() {
                    assert(p.tokens[i] == before.tokens[i]);
                }
            }
        }
    }

    /// Where no decoder answer has more than `v` token logits, every token of the
    /// output is below `v`.
    pub proof fn law_tokens_are_below(self, out: TdtBeamOutput, v: int)
        requires
            self.decodes(out),
            self.answers_are_within(v),
        ensures
            forall|i: int| 0 <= i < out.tokens@.len() ==> #[trigger] out.tokens@[i] < v,
    {
        let (n, start, end) = choose|n: nat, start: GreedyPath, end: GreedyPath|
            {
                &&& #[trigger] is_start(start, self.blank_id)
                &&& #[trigger] self.runs_to(n, start, end)
                &&& end.t >= self.time_steps()
                &&& gives(end, out)
            };
        self.lemma_tokens_stay_below(n, start, end, v);
    }

    /// What a decoder call does to the search. The best token is a token that no
    /// other scores above, and of equals the last; so is the best duration. The
    /// search moves on by the best duration where there is one, whatever the token,
    /// but not past the last frame; the next call is made on that frame. Without a
    /// duration it moves on by one frame after a blank and after a frame's last
    /// token, and stays where it is otherwise.
    pub proof fn law_durations_move_the_search(
        self,
        p: GreedyPath,
        frame: Tensor3,
        step: TdtStep,
        next: GreedyPath,
        token: int,
        duration: int,
    )
        requires
            self.steps_to(p, frame, step, next),
            is_best(step.0@, token),
            is_best(step.1@, duration),
            p.emitted < 10,
        ensures
            duration > 0 && p.t + duration < self.time_steps() ==> next.t == p.t + duration,
            duration > 0 && p.t + duration >= self.time_steps() ==> next.t == self.time_steps(),
            duration > 0 ==> next.emitted == 0,
            duration == 0 && token == self.blank_id ==> next.t == p.t + 1 && next.emitted == 0,
            duration == 0 && token != self.blank_id && p.emitted + 1 < 10 ==> next.t == p.t
                && next.emitted == p.emitted + 1,
            duration == 0 && token != self.blank_id && p.emitted + 1 == 10 ==> next.t == p.t + 1
                && next.emitted == 0,
    {
        lemma_best_is_last_max(step.0@, token);
        lemma_best_is_last_max(step.1@, duration);
    }

    /// What a decoder call emits: the best token with the frame that the call was
    /// made on and the best duration, and a blank nothing. After a token the decoder
    /// is fed that token and the states it answered with; after a blank it is fed
    /// what it was fed before.
    pub proof fn law_tokens_are_stamped_with_their_call(
        self,
        p: GreedyPath,
        frame: Tensor3,
        step: TdtStep,
        next: GreedyPath,
        token: int,
        duration: int,
    )
        requires
            self.steps_to(p, frame, step, next),
            is_best(step.0@, token),
            is_best(step.1@, duration),
            p.tokens.len() == p.frame_indices.len() == p.durations.len(),
        ensures
            token == self.blank_id ==> {
                &&& next.tokens == p.tokens
                &&& next.frame_indices == p.frame_indices
                &&& next.durations == p.durations
                &&& next.last_token == p.last_token
                &&& next.state_1 == p.state_1
                &&& next.state_2 == p.state_2
            },
            token != self.blank_id ==> {
                &&& next.tokens == p.tokens + seq![token as usize]
                &&& next.frame_indices == p.frame_indices + seq![p.t]
                &&& next.durations == p.durations + seq![duration as usize]
                &&& next.last_token == token as usize as i32
                &&& next.state_1 == step.2
                &&& next.state_2 == step.3
            },
    {
        lemma_best_is_last_max(step.0@, token);
        lemma_best_is_last_max(step.1@, duration);
        assert(p.tokens.push(token as usize) =~= p.tokens + seq![token as usize]);
        assert(p.frame_indices.push(p.t) =~= p.frame_indices + seq![p.t]);
        assert(p.durations.push(duration as usize) =~= p.durations + seq![duration as usize]);
    }

    /// An answer without token logits counts as a blank, and one without duration
    /// logits as a duration of zero: without both the search moves on by one frame
    /// and emits nothing.
    pub proof fn law_empty_answers_move_on_by_one_frame(
        self,
        p: GreedyPath,
        frame: Tensor3,
        step: TdtStep,
        next: GreedyPath,
    )
        requires
            self.steps_to(p, frame, step, next),
            step.0@.len() == 0,
            step.1@.len() == 0,
        ensures
            next.t == p.t + 1,
            next.emitted == 0,
            next.tokens == p.tokens,
            next.last_token == p.last_token,
    {
    }
}

} // verus!
