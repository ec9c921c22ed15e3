//! What TDT beam search does from round to round, and when it ends.
use vstd::prelude::*;
use crate::arithmetic;
use crate::arithmetic::Arithmetic;
use crate::arithmetic_laws;
use crate::decoding::tdt_beam;
use crate::decoding::tdt_beam::{TdtBeamOutput, TdtContext, TdtExpansion, TdtPath, TdtStep};
use crate::decoding::tdt_laws;
use crate::decoding::tdt_merging;
use crate::error::Error;
use crate::ranking;
use crate::rounding;
use crate::rounding::{near, power};
use crate::single::Bits;
use crate::tensor;
use crate::tensor::Tensor3;

verus! {

/// `r` stands where an expansion of `p` by `duration` leads. The path moves on by the
/// duration; without one it stays on its frame until it has waited there for
/// `max_symbols` expansions, and then moves on by one. Where no symbol is allowed on
/// a frame it moves on by one, whatever the duration.
pub open spec fn stands_after(p: TdtPath, r: TdtPath, duration: int, max_symbols: int) -> bool {
    &&& max_symbols > 0 && duration > 0 ==> r.step == p.step + duration && r.stuck == 0
    &&& max_symbols > 0 && duration == 0 && p.stuck + 1 < max_symbols ==> r.step == p.step
        && r.stuck == p.stuck + 1
    &&& max_symbols > 0 && duration == 0 && p.stuck + 1 >= max_symbols ==> r.step == p.step + 1
        && r.stuck == 0
    &&& max_symbols == 0 ==> r.step == p.step + 1 && r.stuck == 0
}

/// `r` holds the tokens of `p` and behind them, unless it is the blank, the token
/// with the frame of `p` and the duration. After a token the decoder is fed the token
/// and the given states, and after a blank what it was fed for `p`.
pub open spec fn holds_after(
    p: TdtPath,
    r: TdtPath,
    token: usize,
    duration: usize,
    state_1: Tensor3,
    state_2: Tensor3,
    blank_id: usize,
) -> bool {
    &&& token == blank_id ==> {
        &&& r.tokens == p.tokens
        &&& r.last_token == p.last_token
        &&& r.state_1 == p.state_1
        &&& r.state_2 == p.state_2
    }
    &&& token != blank_id ==> {
        &&& r.tokens == p.tokens + seq![(token, p.step, duration)]
        &&& r.last_token == token as i32
        &&& r.state_1 == state_1
        &&& r.state_2 == state_2
    }
}

/// Whether a path is past the last frame.
pub open spec fn is_past(time_steps: usize) -> spec_fn(TdtPath) -> bool {
    |p: TdtPath| p.step >= time_steps
}

proof fn lemma_finished_are_a_filter(beam: Seq<TdtPath>, time_steps: usize)
    ensures
        tdt_beam::sorted_out(beam, time_steps, true) == beam.filter(is_past(time_steps)),
    decreases beam.len(),
{
    reveal(Seq::filter);
    if beam.len() > 0 {
        lemma_finished_are_a_filter(beam.drop_last(), time_steps);
    } else {
        assert(tdt_beam::sorted_out(beam, time_steps, true) =~= beam.filter(
            is_past(time_steps),
        ));
    }
}

/// What one expansion of a hypothesis leads to.
pub proof fn law_expansions_move_by_their_duration(
    p: TdtPath,
    token: usize,
    duration: usize,
    score: Bits,
    state_1: Tensor3,
    state_2: Tensor3,
    blank_id: usize,
    max_symbols: usize,
)
    requires
        p.step + duration < usize::MAX,
        p.stuck < usize::MAX,
    ensures
        stands_after(
            p,
            tdt_beam::child(
                p,
                token,
                duration,
                score,
                state_1,
                state_2,
                blank_id,
                max_symbols,
            ),
            duration as int,
            max_symbols as int,
        ),
        holds_after(
            p,
            tdt_beam::child(
                p,
                token,
                duration,
                score,
                state_1,
                state_2,
                blank_id,
                max_symbols,
            ),
            token,
            duration,
            state_1,
            state_2,
            blank_id,
        ),
        tdt_beam::child(
            p,
            token,
            duration,
            score,
            state_1,
            state_2,
            blank_id,
            max_symbols,
        ).score == score,
{
    assert(p.tokens.push((token, p.step, duration)) =~= p.tokens + seq![
        (token, p.step, duration),
    ]);
}

impl<'a, A: Arithmetic, D: Fn(&Tensor3, i32, &Tensor3, &Tensor3) -> Result<TdtStep, Error>>
    TdtContext<'a, A, D> {
    /// The decoder may answer `step` for `p` on the frame that it stands on, and
    /// these may be the log-probabilities of the tokens and of the durations.
    pub open spec fn is_answered(
        self,
        p: TdtPath,
        frame: Tensor3,
        step: TdtStep,
        token_log_probs: Seq<Bits>,
        duration_log_probs: Seq<Bits>,
    ) -> bool {
        &&& p.step < self.time_steps
        &&& tensor::is_frame(*self.encoder_out, p.step as int, frame)
        &&& call_ensures(
            *self.decoder,
            (&frame, p.last_token, &p.state_1, &p.state_2),
            Ok::<TdtStep, Error>(step),
        )
        &&& arithmetic::log_softmax_is(self.arithmetic, step.0@, token_log_probs)
        &&& arithmetic::log_softmax_is(self.arithmetic, step.1@, duration_log_probs)
    }

    /// `r` continues `p` by the token and the duration: its score is the score of `p`
    /// and the weighed log-probabilities of the two.
    pub open spec fn continues_by(
        self,
        p: TdtPath,
        step: TdtStep,
        token_log_probs: Seq<Bits>,
        duration_log_probs: Seq<Bits>,
        token: usize,
        duration: usize,
        r: TdtPath,
    ) -> bool {
        &&& token < token_log_probs.len()
        &&& duration < duration_log_probs.len()
        &&& duration < 5
        &&& stands_after(p, r, duration as int, self.config.max_symbols_per_step as int)
        &&& holds_after(p, r, token, duration, step.2, step.3, self.blank_id)
        &&& exists|gain: Bits| #[trigger]
            arithmetic::weighted_score_is(
                self.arithmetic,
                token_log_probs[token as int],
                duration_log_probs[duration as int],
                self.config.duration_reward,
                gain,
            ) && arithmetic::sum_is(self.arithmetic, p.score, gain, r.score)
    }

    /// `r` continues `p` by some token and some duration.
    pub open spec fn continues(
        self,
        p: TdtPath,
        step: TdtStep,
        token_log_probs: Seq<Bits>,
        duration_log_probs: Seq<Bits>,
        r: TdtPath,
    ) -> bool {
        exists|token: usize, duration: usize| #[trigger]
            self.continues_by(
                p,
                step,
                token_log_probs,
                duration_log_probs,
                token,
                duration,
                r,
            )
    }

    /// `r` continues one of the active paths.
    pub open spec fn comes_from(self, active: Seq<TdtPath>, r: TdtPath) -> bool {
        exists|
            k: int,
            frame: Tensor3,
            step: TdtStep,
            token_log_probs: Seq<Bits>,
            duration_log_probs: Seq<Bits>,
        |
            {
                &&& 0 <= k < active.len()
                &&& #[trigger] self.is_answered(
                    active[k],
                    frame,
                    step,
                    token_log_probs,
                    duration_log_probs,
                )
                &&& self.continues(
                    active[k],
                    step,
                    token_log_probs,
                    duration_log_probs,
                    r,
                )
            }
    }

    /// One of the paths continues `p` by the token and the duration.
    pub open spec fn some_continues_by(
        self,
        p: TdtPath,
        step: TdtStep,
        token_log_probs: Seq<Bits>,
        duration_log_probs: Seq<Bits>,
        token: usize,
        duration: usize,
        paths: Seq<TdtPath>,
    ) -> bool {
        exists|i: int|
            0 <= i < paths.len() && self.continues_by(
                p,
                step,
                token_log_probs,
                duration_log_probs,
                token,
                duration,
                #[trigger] paths[i],
            )
    }

    /// `p` goes on by every one of the best tokens of an answer with every one of its
    /// best durations.
    pub open spec fn goes_on_by_its_best(self, p: TdtPath, paths: Seq<TdtPath>) -> bool {
        exists|
            frame: Tensor3,
            step: TdtStep,
            token_log_probs: Seq<Bits>,
            duration_log_probs: Seq<Bits>,
        |
            {
                &&& #[trigger] self.is_answered(
                    p,
                    frame,
                    step,
                    token_log_probs,
                    duration_log_probs,
                )
                &&& forall|
                    n: nat,
                    k: nat,
                    tokens: Seq<usize>,
                    durations: Seq<usize>,
                    i: int,
                    j: int,
                |
                    #![trigger ranking::is_top(token_log_probs, n, tokens), ranking::is_top(
                        duration_log_probs,
                        k,
                        durations,
                    ), tokens[i], durations[j]]
                    n <= self.config.beam_size && n <= self.vocab_size && (n
                        == self.config.beam_size || n == self.vocab_size) && k
                        <= self.config.beam_size && k <= 5 && (k == self.config.beam_size || k
                        == 5) && ranking::is_top(token_log_probs, n, tokens) && ranking::is_top(
                        duration_log_probs,
                        k,
                        durations,
                    ) && 0 <= i < tokens.len() && 0 <= j < durations.len()
                        ==> self.some_continues_by(
                        p,
                        step,
                        token_log_probs,
                        duration_log_probs,
                        tokens[i],
                        durations[j],
                        paths,
                    )
            }
    }

    proof fn lemma_child_of_pair(
        self,
        p: TdtPath,
        x: TdtExpansion,
        step: TdtStep,
        i: int,
        j: int,
    )
        requires
            self.scores_pairs(p, x),
            step.2 == x.state_1,
            step.3 == x.state_2,
            0 <= i < x.tokens.len(),
            0 <= j < x.durations.len(),
            p.step < self.time_steps,
            self.time_steps + 4 <= usize::MAX,
            p.stuck < usize::MAX,
        ensures
            self.continues_by(
                p,
                step,
                x.token_log_probs,
                x.duration_log_probs,
                x.tokens[i],
                x.durations[j],
                self.row_of(p, x, i, x.scores[i], x.durations.len())[j],
            ),
    {
        let row = self.row_of(p, x, i, x.scores[i], x.durations.len());
        assert(self.row_scored(p, x, i, x.scores[i]));
        assert(self.score_is(p, x, x.tokens[i], x.durations[j], x.scores[i][j]));
        assert(x.durations[j] < 5);
        tdt_laws::law_durations_are_their_indices(x.durations[j]);
        law_expansions_move_by_their_duration(
            p,
            x.tokens[i],
            x.durations[j],
            x.scores[i][j],
            x.state_1,
            x.state_2,
            self.blank_id,
            self.config.max_symbols_per_step,
        );
        assert(row[j].score == x.scores[i][j]);
    }

    proof fn lemma_children(self, p: TdtPath, x: TdtExpansion, step: TdtStep, n: nat)
        requires
            self.scores_pairs(p, x),
            step.2 == x.state_1,
            step.3 == x.state_2,
            n <= x.tokens.len(),
            p.step < self.time_steps,
            self.time_steps + 4 <= usize::MAX,
            p.stuck < usize::MAX,
        ensures
            forall|c: int|
                0 <= c < self.children_of(p, x, n).len() ==> self.continues(
                    p,
                    step,
                    x.token_log_probs,
                    x.duration_log_probs,
                    #[trigger] self.children_of(p, x, n)[c],
                ),
            forall|i: int, j: int|
                0 <= i < n && 0 <= j < x.durations.len() ==> self.some_continues_by(
                    p,
                    step,
                    x.token_log_probs,
                    x.duration_log_probs,
                    #[trigger] x.tokens[i],
                    #[trigger] x.durations[j],
                    self.children_of(p, x, n),
                ),
        decreases n,
    {
        if n > 0 {
            let k = (n - 1) as nat;
            self.lemma_children(p, x, step, k);
            let rest = self.children_of(p, x, k);
            let row = self.row_of(p, x, n - 1, x.scores[n - 1], x.durations.len());
            let whole = self.children_of(p, x, n);
            assert forall|c: int| 0 <= c < whole.len() implies self.continues(
                p,
                step,
                x.token_log_probs,
                x.duration_log_probs,
                #[trigger] whole[c],
            ) by {
                if c < rest.len() {
                    assert(whole[c] == rest[c]);
                } else {
                    let j = c - rest.len();
                    assert(whole[c] == row[j]);
                    self.lemma_child_of_pair(p, x, step, n - 1, j);
                }
            }
            assert forall|i: int, j: int| 0 <= i < n && 0 <= j < x.durations.len() implies
                self.some_continues_by(
                p,
                step,
                x.token_log_probs,
                x.duration_log_probs,
                #[trigger] x.tokens[i],
                #[trigger] x.durations[j],
                whole,
            ) by {
                if i < k {
                    let c = choose|c: int|
                        0 <= c < rest.len() && self.continues_by(
                            p,
                            step,
                            x.token_log_probs,
                            x.duration_log_probs,
                            x.tokens[i],
                            x.durations[j],
                            #[trigger] rest[c],
                        );
                    assert(whole[c] == rest[c]);
                } else {
                    self.lemma_child_of_pair(p, x, step, n - 1, j);
                    assert(whole[rest.len() + j] == row[j]);
                }
            }
        }
    }

    proof fn lemma_last_goes_on(
        self,
        p: TdtPath,
        frame: Tensor3,
        x: TdtExpansion,
        step: TdtStep,
        held: Seq<TdtPath>,
        all: Seq<TdtPath>,
    )
        requires
            self.is_answered(p, frame, step, x.token_log_probs, x.duration_log_probs),
            step.2 == x.state_1,
            step.3 == x.state_2,
            self.places(p, x, held, all),
            self.time_steps + 4 <= usize::MAX,
            p.stuck < usize::MAX,
        ensures
            self.goes_on_by_its_best(p, all),
    {
        let n = x.tokens.len();
        self.lemma_children(p, x, step, n);
        let children = self.children_of(p, x, n);
        assert forall|
            n: nat,
            k: nat,
            tokens: Seq<usize>,
            durations: Seq<usize>,
            i: int,
            j: int,
        |
            #![trigger ranking::is_top(x.token_log_probs, n, tokens), ranking::is_top(
                x.duration_log_probs,
                k,
                durations,
            ), tokens[i], durations[j]]
            n <= self.config.beam_size && n <= self.vocab_size && (n == self.config.beam_size || n
                == self.vocab_size) && k <= self.config.beam_size && k <= 5 && (k
                == self.config.beam_size || k == 5) && ranking::is_top(
                x.token_log_probs,
                n,
                tokens,
            ) && ranking::is_top(x.duration_log_probs, k, durations) && 0 <= i < tokens.len() && 0
                <= j < durations.len() implies self.some_continues_by(
            p,
            step,
            x.token_log_probs,
            x.duration_log_probs,
            tokens[i],
            durations[j],
            all,
        ) by {
            assert(n == tdt_beam::fewer(self.config.beam_size, self.vocab_size));
            assert(k == tdt_beam::fewer(self.config.beam_size, 5));
            ranking::law_top_is_unique(x.token_log_probs, n, tokens, x.tokens);
            ranking::law_top_is_unique(x.duration_log_probs, k, durations, x.durations);
            assert(self.some_continues_by(
                p,
                step,
                x.token_log_probs,
                x.duration_log_probs,
                x.tokens[i],
                x.durations[j],
                children,
            ));
            let c = choose|c: int|
                0 <= c < children.len() && self.continues_by(
                    p,
                    step,
                    x.token_log_probs,
                    x.duration_log_probs,
                    x.tokens[i],
                    x.durations[j],
                    #[trigger] children[c],
                );
            assert(all[held.len() + c] == children[c]);
        }
    }

    proof fn lemma_going_on_stays(self, p: TdtPath, paths: Seq<TdtPath>, more: Seq<TdtPath>)
        requires
            self.goes_on_by_its_best(p, paths),
        ensures
            self.goes_on_by_its_best(p, paths + more),
    {
        let (frame, step, tl, dl) = choose|
            frame: Tensor3,
            step: TdtStep,
            tl: Seq<Bits>,
            dl: Seq<Bits>,
        |
            {
                &&& #[trigger] self.is_answered(p, frame, step, tl, dl)
                &&& forall|
                    n: nat,
                    k: nat,
                    tokens: Seq<usize>,
                    durations: Seq<usize>,
                    i: int,
                    j: int,
                |
                    #![trigger ranking::is_top(tl, n, tokens), ranking::is_top(
                        dl,
                        k,
                        durations,
                    ), tokens[i], durations[j]]
                    n <= self.config.beam_size && n <= self.vocab_size && (n
                        == self.config.beam_size || n == self.vocab_size) && k
                        <= self.config.beam_size && k <= 5 && (k == self.config.beam_size || k
                        == 5) && ranking::is_top(tl, n, tokens) && ranking::is_top(
                        dl,
                        k,
                        durations,
                    ) && 0 <= i < tokens.len() && 0 <= j < durations.len()
                        ==> self.some_continues_by(
                        p,
                        step,
                        tl,
                        dl,
                        tokens[i],
                        durations[j],
                        paths,
                    )
            };
        let all = paths + more;
        assert forall|
            n: nat,
            k: nat,
            tokens: Seq<usize>,
            durations: Seq<usize>,
            i: int,
            j: int,
        |
            #![trigger ranking::is_top(tl, n, tokens), ranking::is_top(
                dl,
                k,
                durations,
            ), tokens[i], durations[j]]
            n <= self.config.beam_size && n <= self.vocab_size && (n == self.config.beam_size || n
                == self.vocab_size) && k <= self.config.beam_size && k <= 5 && (k
                == self.config.beam_size || k == 5) && ranking::is_top(tl, n, tokens)
                && ranking::is_top(dl, k, durations) && 0 <= i < tokens.len() && 0 <= j
                < durations.len() implies self.some_continues_by(
            p,
            step,
            tl,
            dl,
            tokens[i],
            durations[j],
            all,
        ) by {
            let c = choose|c: int|
                0 <= c < paths.len() && self.continues_by(
                    p,
                    step,
                    tl,
                    dl,
                    tokens[i],
                    durations[j],
                    #[trigger] paths[c],
                );
            assert(all[c] == paths[c]);
        }
    }

    /// How a round expands: every candidate continues an active path by a token and a
    /// duration, and every active path that has frames left goes on by each of its
    /// best tokens, as many as the beam and the vocabulary hold, with each of its
    /// best durations, as many as the beam and the table hold.
    pub proof fn law_paths_go_on_by_their_best_pairs(
        self,
        active: Seq<TdtPath>,
        all: Seq<TdtPath>,
    )
        requires
            self.time_steps + 4 <= usize::MAX,
            forall|k: int| 0 <= k < active.len() ==> (#[trigger] active[k]).stuck < usize::MAX,
            self.all_expanded(active, all),
        ensures
            forall|c: int| 0 <= c < all.len() ==> self.comes_from(active, #[trigger] all[c]),
            forall|k: int|
                0 <= k < active.len() && (#[trigger] active[k]).step < self.time_steps
                    ==> self.goes_on_by_its_best(active[k], all),
        decreases active.len(),
    {
        if active.len() > 0 {
            let front = active.drop_last();
            let p = active.last();
            let last = active.len() - 1;
            assert(active[last].stuck < usize::MAX);
            let (held, frame, x) = choose|held: Seq<TdtPath>, frame: Tensor3, x: TdtExpansion|
                self.all_expanded(front, held) && #[trigger] self.expands(
                    frame,
                    p,
                    x,
                    held,
                    all,
                );
            assert forall|k: int| 0 <= k < front.len() implies (#[trigger] front[k]).stuck
                < usize::MAX by {
                assert(front[k] == active[k]);
            }
            self.law_paths_go_on_by_their_best_pairs(front, held);
            let more = all.skip(held.len() as int);
            assert(all =~= held + more);
            assert forall|c: int| 0 <= c < held.len() implies self.comes_from(
                active,
                #[trigger] held[c],
            ) by {
                assert(self.comes_from(front, held[c]));
                let (k, f, step, tl, dl) = choose|
                    k: int,
                    f: Tensor3,
                    step: TdtStep,
                    tl: Seq<Bits>,
                    dl: Seq<Bits>,
                |
                    {
                        &&& 0 <= k < front.len()
                        &&& #[trigger] self.is_answered(front[k], f, step, tl, dl)
                        &&& self.continues(front[k], step, tl, dl, held[c])
                    };
                assert(self.is_answered(active[k], f, step, tl, dl));
            }
            if p.step < self.time_steps {
                let (v, d) = choose|v: Vec<Bits>, d: Vec<Bits>|
                    v@ == x.token_logits && d@ == x.duration_logits && #[trigger] call_ensures(
                        *self.decoder,
                        (&frame, p.last_token, &p.state_1, &p.state_2),
                        Ok::<TdtStep, Error>((v, d, x.state_1, x.state_2)),
                    );
                let step: TdtStep = (v, d, x.state_1, x.state_2);
                assert(self.is_answered(
                    active[last],
                    frame,
                    step,
                    x.token_log_probs,
                    x.duration_log_probs,
                ));
                self.lemma_children(p, x, step, x.tokens.len());
                let children = self.children_of(p, x, x.tokens.len());
                assert forall|c: int| 0 <= c < all.len() implies self.comes_from(
                    active,
                    #[trigger] all[c],
                ) by {
                    if c < held.len() {
                        assert(all[c] == held[c]);
                    } else {
                        assert(all[c] == children[c - held.len()]);
                    }
                }
                self.lemma_last_goes_on(p, frame, x, step, held, all);
            }
            assert forall|k: int|
                0 <= k < active.len() && (#[trigger] active[k]).step < self.time_steps implies
                self.goes_on_by_its_best(active[k], all) by {
                if k < last {
                    assert(front[k] == active[k]);
                    self.lemma_going_on_stays(front[k], held, more);
                }
            }
        }
    }

    /// The candidates that a round may expand to before they are merged.
    pub open spec fn may_expand_to(self, active: Seq<TdtPath>, all: Seq<TdtPath>) -> bool {
        self.all_expanded(active, all)
    }

    /// What a round leaves: the finished paths of before and behind them those merged
    /// paths that are past the last frame, and of the others the best.
    pub open spec fn is_what_a_round_leaves(
        self,
        amount: spec_fn(Bits) -> real,
        weights: spec_fn(nat) -> real,
        e: real,
        held: Seq<TdtPath>,
        merged: Seq<TdtPath>,
        finished: Seq<TdtPath>,
        next: Seq<TdtPath>,
    ) -> bool {
        &&& held.len() <= finished.len()
        &&& forall|i: int| 0 <= i < held.len() ==> #[trigger] finished[i] == held[i]
        &&& forall|i: int|
            held.len() <= i < finished.len() ==> merged.contains(#[trigger] finished[i])
                && finished[i].step >= self.time_steps
        &&& forall|j: int|
            0 <= j < merged.len() && (#[trigger] merged[j]).step >= self.time_steps
                ==> finished.contains(merged[j])
        &&& forall|i: int|
            0 <= i < next.len() ==> merged.contains(#[trigger] next[i]) && next[i].step
                < self.time_steps
        &&& forall|i: int, j: int|
            0 <= i < next.len() && 0 <= j < merged.len() && (#[trigger] merged[j]).step
                < self.time_steps && !next.contains(merged[j]) ==> tdt_merging::is_no_worse(
                amount,
                weights,
                e,
                #[trigger] next[i],
                merged[j],
            )
        &&& next.len() < self.config.beam_size ==> forall|j: int|
            0 <= j < merged.len() && (#[trigger] merged[j]).step < self.time_steps
                ==> next.contains(merged[j])
        &&& next.len() <= self.config.beam_size
        &&& forall|i: int, j: int|
            0 <= i < j < next.len() ==> tdt_merging::is_no_worse(
                amount,
                weights,
                e,
                #[trigger] next[i],
                #[trigger] next[j],
            )
        &&& finished == held + merged.filter(is_past(self.time_steps))
    }

    /// A round merges its candidates, keeping the probability of what leads to the
    /// same tokens, sets those aside that are past the last frame, and keeps the best
    /// of the others.
    pub proof fn law_rounds_merge_and_sort_out(
        self,
        value: spec_fn(Bits) -> real,
        q: real,
        amount: spec_fn(Bits) -> real,
        weights: spec_fn(nat) -> real,
        e: real,
        held: Seq<TdtPath>,
        active: Seq<TdtPath>,
        finished: Seq<TdtPath>,
        next: Seq<TdtPath>,
    )
        requires
            rounding::stands_for(value),
            q >= 1 as real,
            arithmetic_laws::are_amounts(amount),
            self.round_is(held, active, finished, next),
            forall|all: Seq<TdtPath>| #[trigger]
                self.may_expand_to(active, all) ==> tdt_merging::merging_rounds(
                    self.arithmetic,
                    value,
                    q,
                    all,
                ) && all.len() <= usize::MAX,
            forall|all: Seq<TdtPath>, merged: Seq<TdtPath>| #[trigger]
                self.may_expand_to(active, all) && #[trigger] tdt_merging::first_merge(
                    self.arithmetic,
                    all,
                    all.len() as int,
                    merged,
                ) ==> tdt_merging::ranks_within(
                    self.arithmetic,
                    amount,
                    weights,
                    e,
                    merged,
                    self.config.length_penalty,
                ),
        ensures
            exists|all: Seq<TdtPath>, merged: Seq<TdtPath>|
                {
                    &&& #[trigger] self.may_expand_to(active, all)
                    &&& forall|i: int|
                        0 <= i < merged.len() ==> near(
                            power(q, all.len()),
                            value((#[trigger] merged[i]).score),
                            tdt_merging::mass(all, value, merged[i]),
                        )
                    &&& #[trigger] self.is_what_a_round_leaves(
                        amount,
                        weights,
                        e,
                        held,
                        merged,
                        finished,
                        next,
                    )
                },
    {
        let m = self.arithmetic;
        let (all, merged) = choose|all: Seq<TdtPath>, merged: Seq<TdtPath>|
            {
                &&& self.all_expanded(active, all)
                &&& #[trigger] tdt_beam::merged_is(m, all, merged)
                &&& finished == held + tdt_beam::sorted_out(merged, self.time_steps, true)
                &&& tdt_beam::pruned_is(
                    m,
                    tdt_beam::sorted_out(merged, self.time_steps, false),
                    self.config,
                    next,
                )
            };
        assert(self.may_expand_to(active, all));
        assert(all.take(all.len() as int) =~= all);
        assert(tdt_merging::first_merge(m, all, all.len() as int, merged));
        tdt_merging::law_merging_keeps_probability(m, value, q, all, merged);
        let done = tdt_beam::sorted_out(merged, self.time_steps, true);
        let left = tdt_beam::sorted_out(merged, self.time_steps, false);
        lemma_sorting_out(merged, self.time_steps, true);
        lemma_sorting_out(merged, self.time_steps, false);
        lemma_finished_are_a_filter(merged, self.time_steps);
        lemma_merged_are_no_more(m, all, merged);
        assert forall|i: int| 0 <= i < left.len() implies (#[trigger] left[i]).tokens.len()
            <= usize::MAX && arithmetic_laws::normalizes_within(
            m,
            amount,
            weights,
            e,
            left[i].score,
            left[i].tokens.len(),
            self.config.length_penalty,
        ) by {
            assert(merged.contains(left[i]));
            let j = choose|j: int| 0 <= j < merged.len() && merged[j] == left[i];
            assert(merged[j].tokens.len() <= usize::MAX);
        }
        tdt_merging::law_pruning_drops_nothing_better(
            m,
            amount,
            weights,
            e,
            left,
            self.config,
            next,
        );
        assert forall|i: int| held.len() <= i < finished.len() implies merged.contains(
            #[trigger] finished[i],
        ) && finished[i].step >= self.time_steps by {
            assert(finished[i] == done[i - held.len()]);
        }
        assert forall|j: int|
            0 <= j < merged.len() && (#[trigger] merged[j]).step >= self.time_steps implies
            finished.contains(merged[j]) by {
            assert(done.contains(merged[j]));
            let k = choose|k: int| 0 <= k < done.len() && done[k] == merged[j];
            assert(finished[held.len() + k] == merged[j]);
        }
        assert forall|i: int| 0 <= i < next.len() implies merged.contains(#[trigger] next[i])
            && next[i].step < self.time_steps by {
            let k = choose|k: int| 0 <= k < left.len() && left[k] == next[i];
            assert(merged.contains(left[k]));
        }
        assert forall|i: int, j: int|
            0 <= i < next.len() && 0 <= j < merged.len() && (#[trigger] merged[j]).step
                < self.time_steps && !next.contains(merged[j]) implies tdt_merging::is_no_worse(
            amount,
            weights,
            e,
            #[trigger] next[i],
            merged[j],
        ) by {
            assert(left.contains(merged[j]));
            let k = choose|k: int| 0 <= k < left.len() && left[k] == merged[j];
            assert(!next.contains(left[k]));
        }
        if next.len() < self.config.beam_size {
            tdt_merging::law_pruning_keeps_all_where_there_is_room(m, left, self.config, next);
            assert forall|j: int|
                0 <= j < merged.len() && (#[trigger] merged[j]).step < self.time_steps implies
                next.contains(merged[j]) by {
                assert(left.contains(merged[j]));
                let k = choose|k: int| 0 <= k < left.len() && left[k] == merged[j];
                assert(next.contains(left[k]));
            }
        }
        assert(self.is_what_a_round_leaves(amount, weights, e, held, merged, finished, next));
    }

    /// When the search ends: where it ends without an error, the pool of finished
    /// hypotheses is full or no hypothesis is left to follow. The pool holds as many
    /// as the beam times the patience, rounded.
    pub proof fn law_search_ends_full_or_without_a_path(
        self,
        finished: Seq<TdtPath>,
        active: Seq<TdtPath>,
    )
        requires
            self.ends_with(finished, active),
        ensures
            exists|room: usize|
                {
                    &&& #[trigger] arithmetic::scaled_count_is(
                        self.arithmetic,
                        self.config.beam_size,
                        self.config.patience,
                        room,
                    )
                    &&& finished.len() >= room || active.len() == 0
                },
    {
        let (room, n, seed) = choose|room: usize, n: nat, seed: TdtPath|
            {
                &&& arithmetic::scaled_count_is(
                    self.arithmetic,
                    self.config.beam_size,
                    self.config.patience,
                    room,
                )
                &&& #[trigger] tdt_beam::is_seed(seed, self.blank_id)
                &&& #[trigger] self.rounds_are(room, n, seed, finished, active)
                &&& !self.goes_on(room, finished, active)
            };
        assert(finished.len() >= room || active.len() == 0);
    }

    /// Nor does the search go on for longer: before every round there was room in the
    /// pool and a hypothesis to follow.
    pub proof fn law_rounds_need_room_and_a_path(
        self,
        room: usize,
        n: nat,
        seed: TdtPath,
        finished: Seq<TdtPath>,
        active: Seq<TdtPath>,
    )
        requires
            n > 0,
            self.rounds_are(room, n, seed, finished, active),
        ensures
            exists|f: Seq<TdtPath>, a: Seq<TdtPath>|
                {
                    &&& #[trigger] self.round_is(f, a, finished, active)
                    &&& f.len() < room
                    &&& a.len() > 0
                },
    {
        let (f, a) = choose|f: Seq<TdtPath>, a: Seq<TdtPath>|
            {
                &&& self.rounds_are(room, (n - 1) as nat, seed, f, a)
                &&& self.goes_on(room, f, a)
                &&& #[trigger] self.round_is(f, a, finished, active)
            };
        assert(f.len() < room && a.len() > 0);
    }

    /// The output lists the tokens of `p`, place by place, with their frames and
    /// durations.
    pub open spec fn lists(p: TdtPath, out: TdtBeamOutput) -> bool {
        &&& out.tokens@.len() == p.tokens.len()
        &&& out.frame_indices@.len() == p.tokens.len()
        &&& out.durations@.len() == p.tokens.len()
        &&& forall|i: int|
            0 <= i < p.tokens.len() ==> (#[trigger] p.tokens[i]) == (
                out.tokens@[i],
                out.frame_indices@[i],
                out.durations@[i],
            )
    }

    /// The finished paths and those still followed are what a search may end with,
    /// and `p` is the one of them that is listed: none is better.
    pub open spec fn is_the_listed_path(
        self,
        amount: spec_fn(Bits) -> real,
        weights: spec_fn(nat) -> real,
        e: real,
        finished: Seq<TdtPath>,
        active: Seq<TdtPath>,
        p: TdtPath,
    ) -> bool {
        &&& self.ends_with(finished, active)
        &&& finished.contains(p) || active.contains(p)
        &&& forall|i: int|
            0 <= i < finished.len() ==> tdt_merging::is_no_worse(
                amount,
                weights,
                e,
                p,
                #[trigger] finished[i],
            )
        &&& forall|i: int|
            0 <= i < active.len() ==> tdt_merging::is_no_worse(
                amount,
                weights,
                e,
                p,
                #[trigger] active[i],
            )
    }

    /// `out` lists the best of the paths that a search ends with, and nothing where
    /// there is none.
    pub open spec fn is_listed(
        self,
        amount: spec_fn(Bits) -> real,
        weights: spec_fn(nat) -> real,
        e: real,
        finished: Seq<TdtPath>,
        active: Seq<TdtPath>,
        out: TdtBeamOutput,
    ) -> bool {
        &&& self.ends_with(finished, active)
        &&& finished.len() == 0 && active.len() == 0 ==> {
            &&& out.tokens@.len() == 0
            &&& out.frame_indices@.len() == 0
            &&& out.durations@.len() == 0
        }
        &&& finished.len() > 0 || active.len() > 0 ==> exists|p: TdtPath| #[trigger]
            self.is_the_listed_path(amount, weights, e, finished, active, p) && Self::lists(
                p,
                out,
            )
    }

    /// The output lists a path that none of those the search ends with is better
    /// than, be it finished or not; it is empty where the search ends with none.
    pub proof fn law_output_lists_the_best_path(
        self,
        amount: spec_fn(Bits) -> real,
        weights: spec_fn(nat) -> real,
        e: real,
        out: TdtBeamOutput,
    )
        requires
            arithmetic_laws::are_amounts(amount),
            self.decodes(out),
            forall|finished: Seq<TdtPath>, active: Seq<TdtPath>| #[trigger]
                self.ends_with(finished, active) ==> tdt_merging::ranks_within(
                    self.arithmetic,
                    amount,
                    weights,
                    e,
                    finished + active,
                    self.config.length_penalty,
                ),
        ensures
            exists|finished: Seq<TdtPath>, active: Seq<TdtPath>| #[trigger]
                self.is_listed(amount, weights, e, finished, active, out),
    {
        let (finished, active, best) = choose|
            finished: Seq<TdtPath>,
            active: Seq<TdtPath>,
            best: Option<TdtPath>,
        |
            {
                &&& #[trigger] self.ends_with(finished, active)
                &&& #[trigger] tdt_beam::best_is(
                    self.arithmetic,
                    finished + active,
                    self.config.length_penalty,
                    best,
                )
                &&& tdt_beam::gives(best, out)
            };
        let all = finished + active;
        tdt_merging::law_best_is_no_worse_than_any(
            self.arithmetic,
            amount,
            weights,
            e,
            all,
            self.config.length_penalty,
            best,
        );
        if let Some(p) = best {
            let k = choose|k: int| 0 <= k < all.len() && all[k] == p;
            if k < finished.len() {
                assert(finished[k] == p);
            } else {
                assert(active[k - finished.len()] == p);
            }
            assert forall|i: int| 0 <= i < finished.len() implies tdt_merging::is_no_worse(
                amount,
                weights,
                e,
                p,
                #[trigger] finished[i],
            ) by {
                assert(all[i] == finished[i]);
            }
            assert forall|i: int| 0 <= i < active.len() implies tdt_merging::is_no_worse(
                amount,
                weights,
                e,
                p,
                #[trigger] active[i],
            ) by {
                assert(all[finished.len() + i] == active[i]);
            }
            assert(self.is_the_listed_path(amount, weights, e, finished, active, p));
            assert(Self::lists(p, out));
        }
        assert(self.is_listed(amount, weights, e, finished, active, out));
    }
}

proof fn lemma_sorting_out(beam: Seq<TdtPath>, time_steps: usize, done: bool)
    ensures
        forall|i: int|
            0 <= i < tdt_beam::sorted_out(beam, time_steps, done).len() ==> {
                &&& beam.contains(#[trigger] tdt_beam::sorted_out(beam, time_steps, done)[i])
                &&& (tdt_beam::sorted_out(beam, time_steps, done)[i].step >= time_steps) == done
            },
        forall|j: int|
            0 <= j < beam.len() && ((#[trigger] beam[j]).step >= time_steps) == done
                ==> tdt_beam::sorted_out(beam, time_steps, done).contains(beam[j]),
        tdt_beam::sorted_out(beam, time_steps, done).len() <= beam.len(),
    decreases beam.len(),
{
    tdt_laws::lemma_sorted_out(beam, time_steps, done);
    if beam.len() > 0 {
        let front = beam.drop_last();
        lemma_sorting_out(front, time_steps, done);
        let rest = tdt_beam::sorted_out(front, time_steps, done);
        let whole = tdt_beam::sorted_out(beam, time_steps, done);
        assert forall|j: int|
            0 <= j < beam.len() && ((#[trigger] beam[j]).step >= time_steps) == done implies
            whole.contains(beam[j]) by {
            if j < front.len() {
                assert(front[j] == beam[j]);
                assert(rest.contains(front[j]));
                let k = choose|k: int| 0 <= k < rest.len() && rest[k] == front[j];
                assert(whole[k] == beam[j]);
            } else {
                assert(whole[whole.len() - 1] == beam[j]);
            }
        }
    }
}

proof fn lemma_merged_are_no_more<A: Arithmetic>(
    m: &A,
    all: Seq<TdtPath>,
    merged: Seq<TdtPath>,
)
    requires
        tdt_beam::merged_is(m, all, merged),
    ensures
        merged.len() <= all.len(),
    decreases all.len(),
{
    if all.len() > 0 {
        let (held, i, score) = choose|held: Seq<TdtPath>, i: int, score: Bits|
            tdt_beam::merged_is(m, all.drop_last(), held) && #[trigger] tdt_beam::absorbs(
                m,
                held,
                all.last(),
                i,
                score,
                merged,
            );
        lemma_merged_are_no_more(m, all.drop_last(), held);
    }
}

} // verus!
