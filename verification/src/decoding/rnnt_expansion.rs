//! How RNN-T beam search goes on from a hypothesis: by a symbol on the same frame,
//! or by a blank to the next.
use vstd::prelude::*;
use crate::arithmetic;
use crate::arithmetic::Arithmetic;
use crate::decoding::rnnt_beam;
use crate::decoding::rnnt_beam::{
    RnntContext, RnntExpansion, RnntFrameTrace, RnntPath, RnntStep,
};
use crate::decoding::rnnt_laws;
use crate::decoding::rnnt_merging;
use crate::error::Error;
use crate::ranking;
use crate::rounding;
use crate::rounding::{near, power};
use crate::single::Bits;
use crate::tensor::Tensor3;

verus! {

/// `r` is `p` with one more token, stamped with the absolute frame `at`: it stays on
/// its frame, the decoder is fed the token and the given states, and one more
/// symbol counts for the frame.
pub open spec fn has_emitted(
    p: RnntPath,
    r: RnntPath,
    token: usize,
    at: usize,
    state_1: Tensor3,
    state_2: Tensor3,
) -> bool {
    &&& r.tokens == p.tokens + seq![(token, at)]
    &&& r.frame == p.frame
    &&& r.last_token == token as i32
    &&& r.state_1 == state_1
    &&& r.state_2 == state_2
    &&& p.symbols_on_frame < usize::MAX ==> r.symbols_on_frame == p.symbols_on_frame + 1
    &&& r.prev_token_count == p.prev_token_count
}

/// `r` is `p` on the frame after `t`: it has the tokens of `p`, the decoder is fed
/// what it was fed for `p`, and no symbol counts for the new frame.
pub open spec fn has_moved_on(p: RnntPath, r: RnntPath, t: usize) -> bool {
    &&& r.tokens == p.tokens
    &&& t < usize::MAX ==> r.frame == t + 1
    &&& r.last_token == p.last_token
    &&& r.state_1 == p.state_1
    &&& r.state_2 == p.state_2
    &&& r.symbols_on_frame == 0
    &&& r.prev_token_count == p.prev_token_count
}

impl<'a, A: Arithmetic, D: Fn(&Tensor3, i32, &Tensor3, &Tensor3) -> Result<RnntStep, Error>>
    RnntContext<'a, A, D> {
    /// The decoder may answer `step` for `p` on the frame, and `log_probs` may be the
    /// log-probabilities of its tokens.
    pub open spec fn is_answered(
        self,
        frame: Tensor3,
        p: RnntPath,
        step: RnntStep,
        log_probs: Seq<Bits>,
    ) -> bool {
        &&& call_ensures(
            *self.decoder,
            (&frame, p.last_token, &p.state_1, &p.state_2),
            Ok::<RnntStep, Error>(step),
        )
        &&& arithmetic::log_softmax_is(self.arithmetic, step.0@, log_probs)
    }

    /// `r` continues `p` by a token that is not blank: its score is the score of `p`
    /// and the log-probability of the token.
    pub open spec fn continues_by_symbol(
        self,
        at: usize,
        p: RnntPath,
        step: RnntStep,
        log_probs: Seq<Bits>,
        token: usize,
        r: RnntPath,
    ) -> bool {
        &&& token < log_probs.len()
        &&& token != self.blank_id
        &&& has_emitted(p, r, token, at, step.1, step.2)
        &&& arithmetic::sum_is(self.arithmetic, p.score, log_probs[token as int], r.score)
    }

    /// `r` continues `p` by some token that is not blank.
    pub open spec fn continues_by_some_symbol(
        self,
        at: usize,
        p: RnntPath,
        step: RnntStep,
        log_probs: Seq<Bits>,
        r: RnntPath,
    ) -> bool {
        exists|token: usize| #[trigger]
            self.continues_by_symbol(at, p, step, log_probs, token, r)
    }

    /// `r` continues `p` by a blank: its score is the score of `p` and the
    /// log-probability of the blank.
    pub open spec fn continues_by_blank(
        self,
        t: usize,
        p: RnntPath,
        log_probs: Seq<Bits>,
        r: RnntPath,
    ) -> bool {
        &&& has_moved_on(p, r, t)
        &&& arithmetic::sum_is(
            self.arithmetic,
            p.score,
            log_probs[self.blank_id as int],
            r.score,
        )
    }

    /// `r` continues one of the active paths by a symbol.
    pub open spec fn comes_by_symbol(
        self,
        frame: Tensor3,
        at: usize,
        active: Seq<RnntPath>,
        r: RnntPath,
    ) -> bool {
        exists|k: int, step: RnntStep, log_probs: Seq<Bits>|
            {
                &&& 0 <= k < active.len()
                &&& #[trigger] self.is_answered(frame, active[k], step, log_probs)
                &&& self.continues_by_some_symbol(at, active[k], step, log_probs, r)
            }
    }

    /// `r` continues one of the active paths by a blank.
    pub open spec fn comes_by_blank(
        self,
        frame: Tensor3,
        t: usize,
        active: Seq<RnntPath>,
        r: RnntPath,
    ) -> bool {
        exists|k: int, step: RnntStep, log_probs: Seq<Bits>|
            {
                &&& 0 <= k < active.len()
                &&& #[trigger] self.is_answered(frame, active[k], step, log_probs)
                &&& self.continues_by_blank(t, active[k], log_probs, r)
            }
    }

    /// Some of the paths continues `p` by the token.
    pub open spec fn some_continues_by_symbol(
        self,
        at: usize,
        p: RnntPath,
        step: RnntStep,
        log_probs: Seq<Bits>,
        token: usize,
        paths: Seq<RnntPath>,
    ) -> bool {
        exists|i: int|
            0 <= i < paths.len() && self.continues_by_symbol(
                at,
                p,
                step,
                log_probs,
                token,
                #[trigger] paths[i],
            )
    }

    /// Some of the paths continues `p` by a blank.
    pub open spec fn some_continues_by_blank(
        self,
        t: usize,
        p: RnntPath,
        log_probs: Seq<Bits>,
        paths: Seq<RnntPath>,
    ) -> bool {
        exists|i: int|
            0 <= i < paths.len() && self.continues_by_blank(
                t,
                p,
                log_probs,
                #[trigger] paths[i],
            )
    }

    /// `p` goes on by every one of the best tokens of an answer: by the blank to the
    /// next frame, and by the others on its frame.
    pub open spec fn goes_on_by_its_best(
        self,
        frame: Tensor3,
        t: usize,
        at: usize,
        p: RnntPath,
        advanced: Seq<RnntPath>,
        symbols: Seq<RnntPath>,
    ) -> bool {
        exists|step: RnntStep, log_probs: Seq<Bits>|
            {
                &&& #[trigger] self.is_answered(frame, p, step, log_probs)
                &&& forall|order: Seq<usize>, j: int|
                    #![trigger ranking::is_top(
                        log_probs,
                        self.config.beam_size as nat,
                        order,
                    ), order[j]]
                    ranking::is_top(log_probs, self.config.beam_size as nat, order) && 0 <= j
                        < order.len() ==> {
                        &&& order[j] == self.blank_id ==> self.some_continues_by_blank(
                            t,
                            p,
                            log_probs,
                            advanced,
                        )
                        &&& order[j] != self.blank_id ==> self.some_continues_by_symbol(
                            at,
                            p,
                            step,
                            log_probs,
                            order[j],
                            symbols,
                        )
                    }
            }
    }

    /// One child of an expanded path comes by its token.
    proof fn lemma_child_of_place(
        self,
        t: usize,
        at: usize,
        p: RnntPath,
        x: RnntExpansion,
        step: RnntStep,
        j: int,
    )
        requires
            self.scores_tokens(p, x),
            step.1 == x.state_1,
            step.2 == x.state_2,
            0 <= j < x.order.len(),
        ensures
            x.order[j] != self.blank_id ==> self.continues_by_symbol(
                at,
                p,
                step,
                x.log_probs,
                x.order[j],
                rnnt_beam::after_symbol(
                    p,
                    x.order[j],
                    x.scores[j],
                    x.state_1,
                    x.state_2,
                    at,
                ),
            ),
            x.order[j] == self.blank_id ==> self.continues_by_blank(
                t,
                p,
                x.log_probs,
                rnnt_beam::after_blank(p, x.scores[j], (t + 1) as usize),
            ),
    {
        let token = x.order[j];
        assert(p.tokens.push((token, at)) =~= p.tokens + seq![(token, at)]);
        assert(arithmetic::sum_is(
            self.arithmetic,
            p.score,
            x.log_probs[token as int],
            x.scores[j],
        ));
    }

    proof fn lemma_children(
        self,
        t: usize,
        at: usize,
        p: RnntPath,
        x: RnntExpansion,
        step: RnntStep,
        n: nat,
    )
        requires
            self.scores_tokens(p, x),
            step.1 == x.state_1,
            step.2 == x.state_2,
            n <= x.order.len(),
        ensures
            forall|i: int|
                0 <= i < rnnt_beam::symbols_of(p, x, n, self.blank_id, at).len()
                    ==> self.continues_by_some_symbol(
                    at,
                    p,
                    step,
                    x.log_probs,
                    #[trigger] rnnt_beam::symbols_of(p, x, n, self.blank_id, at)[i],
                ),
            forall|i: int|
                0 <= i < rnnt_beam::blanks_of(p, x, n, self.blank_id, (t + 1) as usize).len()
                    ==> self.continues_by_blank(
                    t,
                    p,
                    x.log_probs,
                    #[trigger] rnnt_beam::blanks_of(
                        p,
                        x,
                        n,
                        self.blank_id,
                        (t + 1) as usize,
                    )[i],
                ),
            forall|j: int|
                0 <= j < n ==> {
                    &&& #[trigger] x.order[j] != self.blank_id ==> self.some_continues_by_symbol(
                        at,
                        p,
                        step,
                        x.log_probs,
                        x.order[j],
                        rnnt_beam::symbols_of(p, x, n, self.blank_id, at),
                    )
                    &&& x.order[j] == self.blank_id ==> self.some_continues_by_blank(
                        t,
                        p,
                        x.log_probs,
                        rnnt_beam::blanks_of(p, x, n, self.blank_id, (t + 1) as usize),
                    )
                },
        decreases n,
    {
        if n > 0 {
            let k = (n - 1) as nat;
            let next = (t + 1) as usize;
            self.lemma_children(t, at, p, x, step, k);
            self.lemma_child_of_place(t, at, p, x, step, n - 1);
            let few = rnnt_beam::symbols_of(p, x, k, self.blank_id, at);
            let symbols = rnnt_beam::symbols_of(p, x, n, self.blank_id, at);
            let rest = rnnt_beam::blanks_of(p, x, k, self.blank_id, next);
            let blanks = rnnt_beam::blanks_of(p, x, n, self.blank_id, next);
            let token = x.order[n - 1];
            let made = rnnt_beam::after_symbol(
                p,
                token,
                x.scores[n - 1],
                x.state_1,
                x.state_2,
                at,
            );
            assert forall|i: int| 0 <= i < symbols.len() implies self.continues_by_some_symbol(
                at,
                p,
                step,
                x.log_probs,
                #[trigger] symbols[i],
            ) by {
                if i < few.len() {
                    assert(symbols[i] == few[i]);
                } else {
                    assert(self.continues_by_symbol(at, p, step, x.log_probs, token, symbols[i]));
                }
            }
            assert forall|i: int| 0 <= i < blanks.len() implies self.continues_by_blank(
                t,
                p,
                x.log_probs,
                #[trigger] blanks[i],
            ) by {
                if i < rest.len() {
                    assert(blanks[i] == rest[i]);
                }
            }
            assert forall|j: int| 0 <= j < n implies {
                &&& #[trigger] x.order[j] != self.blank_id ==> self.some_continues_by_symbol(
                    at,
                    p,
                    step,
                    x.log_probs,
                    x.order[j],
                    symbols,
                )
                &&& x.order[j] == self.blank_id ==> self.some_continues_by_blank(
                    t,
                    p,
                    x.log_probs,
                    blanks,
                )
            } by {
                if j < k {
                    if x.order[j] != self.blank_id {
                        assert(self.some_continues_by_symbol(
                            at,
                            p,
                            step,
                            x.log_probs,
                            x.order[j],
                            few,
                        ));
                        let i = choose|i: int|
                            0 <= i < few.len() && self.continues_by_symbol(
                                at,
                                p,
                                step,
                                x.log_probs,
                                x.order[j],
                                #[trigger] few[i],
                            );
                        assert(symbols[i] == few[i]);
                    } else {
                        let i = choose|i: int|
                            0 <= i < rest.len() && self.continues_by_blank(
                                t,
                                p,
                                x.log_probs,
                                #[trigger] rest[i],
                            );
                        assert(blanks[i] == rest[i]);
                    }
                } else if token != self.blank_id {
                    assert(symbols[few.len() as int] == made);
                } else {
                    assert(blanks[rest.len() as int] == rnnt_beam::after_blank(
                        p,
                        x.scores[n - 1],
                        next,
                    ));
                }
            }
        }
    }

    /// How a round of symbols expands: every path of `symbols` continues an active
    /// path by a token on the same frame, every path behind the `held` ones of
    /// `advanced` continues one by a blank to the next frame, and every active path
    /// goes on by each of its best `beam_size` tokens. A score is the score of the
    /// path gone on from and the log-probability of the token.
    pub proof fn law_paths_go_on_by_their_best_tokens(
        self,
        frame: Tensor3,
        t: usize,
        at: usize,
        active: Seq<RnntPath>,
        held: Seq<RnntPath>,
        advanced: Seq<RnntPath>,
        symbols: Seq<RnntPath>,
    )
        requires
            self.all_expanded(frame, t, at, active, held, advanced, symbols),
        ensures
            forall|i: int|
                0 <= i < symbols.len() ==> self.comes_by_symbol(
                    frame,
                    at,
                    active,
                    #[trigger] symbols[i],
                ),
            held.len() <= advanced.len(),
            forall|i: int| 0 <= i < held.len() ==> #[trigger] advanced[i] == held[i],
            forall|i: int|
                held.len() <= i < advanced.len() ==> self.comes_by_blank(
                    frame,
                    t,
                    active,
                    #[trigger] advanced[i],
                ),
            forall|k: int|
                0 <= k < active.len() ==> self.goes_on_by_its_best(
                    frame,
                    t,
                    at,
                    #[trigger] active[k],
                    advanced,
                    symbols,
                ),
        decreases active.len(),
    {
        if active.len() > 0 {
            let front = active.drop_last();
            let p = active.last();
            let last = active.len() - 1;
            let (a, s, x) = choose|a: Seq<RnntPath>, s: Seq<RnntPath>, x: RnntExpansion|
                self.all_expanded(frame, t, at, front, held, a, s) && #[trigger] self.expands(
                    frame,
                    t,
                    at,
                    p,
                    x,
                    a,
                    s,
                    advanced,
                    symbols,
                );
            self.law_paths_go_on_by_their_best_tokens(frame, t, at, front, held, a, s);
            let v = choose|v: Vec<Bits>|
                v@ == x.logits && #[trigger] call_ensures(
                    *self.decoder,
                    (&frame, p.last_token, &p.state_1, &p.state_2),
                    Ok::<RnntStep, Error>((v, x.state_1, x.state_2)),
                );
            let step: RnntStep = (v, x.state_1, x.state_2);
            let n = x.order.len();
            let next = (t + 1) as usize;
            self.lemma_children(t, at, p, x, step, n);
            let new_symbols = rnnt_beam::symbols_of(p, x, n, self.blank_id, at);
            let new_advanced = rnnt_beam::blanks_of(p, x, n, self.blank_id, next);
            assert(self.is_answered(frame, active[last], step, x.log_probs));
            assert forall|i: int| 0 <= i < symbols.len() implies self.comes_by_symbol(
                frame,
                at,
                active,
                #[trigger] symbols[i],
            ) by {
                if i < s.len() {
                    assert(symbols[i] == s[i]);
                    assert(self.comes_by_symbol(frame, at, front, s[i]));
                    let (k, step_k, lp) = choose|k: int, step_k: RnntStep, lp: Seq<Bits>|
                        {
                            &&& 0 <= k < front.len()
                            &&& #[trigger] self.is_answered(frame, front[k], step_k, lp)
                            &&& self.continues_by_some_symbol(at, front[k], step_k, lp, s[i])
                        };
                    assert(self.is_answered(frame, active[k], step_k, lp));
                } else {
                    assert(symbols[i] == new_symbols[i - s.len()]);
                }
            }
            assert forall|i: int| held.len() <= i < advanced.len() implies self.comes_by_blank(
                frame,
                t,
                active,
                #[trigger] advanced[i],
            ) by {
                if i < a.len() {
                    assert(advanced[i] == a[i]);
                    assert(self.comes_by_blank(frame, t, front, a[i]));
                    let (k, step_k, lp) = choose|k: int, step_k: RnntStep, lp: Seq<Bits>|
                        {
                            &&& 0 <= k < front.len()
                            &&& #[trigger] self.is_answered(frame, front[k], step_k, lp)
                            &&& self.continues_by_blank(t, front[k], lp, a[i])
                        };
                    assert(self.is_answered(frame, active[k], step_k, lp));
                } else {
                    assert(advanced[i] == new_advanced[i - a.len()]);
                }
            }
            assert forall|i: int| 0 <= i < held.len() implies #[trigger] advanced[i] == held[i] by {
                assert(advanced[i] == a[i]);
            }
            assert forall|k: int| 0 <= k < active.len() implies self.goes_on_by_its_best(
                frame,
                t,
                at,
                #[trigger] active[k],
                advanced,
                symbols,
            ) by {
                if k < last {
                    assert(front[k] == active[k]);
                    self.lemma_going_on_stays(
                        frame,
                        t,
                        at,
                        front[k],
                        a,
                        s,
                        new_advanced,
                        new_symbols,
                    );
                } else {
                    self.lemma_last_goes_on(frame, t, at, p, x, step, a, s, advanced, symbols);
                }
            }
        }
    }

    proof fn lemma_going_on_stays(
        self,
        frame: Tensor3,
        t: usize,
        at: usize,
        p: RnntPath,
        advanced: Seq<RnntPath>,
        symbols: Seq<RnntPath>,
        more_advanced: Seq<RnntPath>,
        more_symbols: Seq<RnntPath>,
    )
        requires
            self.goes_on_by_its_best(frame, t, at, p, advanced, symbols),
        ensures
            self.goes_on_by_its_best(
                frame,
                t,
                at,
                p,
                advanced + more_advanced,
                symbols + more_symbols,
            ),
    {
        let (step, log_probs) = choose|step: RnntStep, log_probs: Seq<Bits>|
            {
                &&& #[trigger] self.is_answered(frame, p, step, log_probs)
                &&& forall|order: Seq<usize>, j: int|
                    #![trigger ranking::is_top(
                        log_probs,
                        self.config.beam_size as nat,
                        order,
                    ), order[j]]
                    ranking::is_top(log_probs, self.config.beam_size as nat, order) && 0 <= j
                        < order.len() ==> {
                        &&& order[j] == self.blank_id ==> self.some_continues_by_blank(
                            t,
                            p,
                            log_probs,
                            advanced,
                        )
                        &&& order[j] != self.blank_id ==> self.some_continues_by_symbol(
                            at,
                            p,
                            step,
                            log_probs,
                            order[j],
                            symbols,
                        )
                    }
            };
        let all_advanced = advanced + more_advanced;
        let all_symbols = symbols + more_symbols;
        assert forall|order: Seq<usize>, j: int|
            #![trigger ranking::is_top(log_probs, self.config.beam_size as nat, order), order[j]]
            ranking::is_top(log_probs, self.config.beam_size as nat, order) && 0 <= j
                < order.len() implies {
            &&& order[j] == self.blank_id ==> self.some_continues_by_blank(
                t,
                p,
                log_probs,
                all_advanced,
            )
            &&& order[j] != self.blank_id ==> self.some_continues_by_symbol(
                at,
                p,
                step,
                log_probs,
                order[j],
                all_symbols,
            )
        } by {
            if order[j] == self.blank_id {
                let i = choose|i: int|
                    0 <= i < advanced.len() && self.continues_by_blank(
                        t,
                        p,
                        log_probs,
                        #[trigger] advanced[i],
                    );
                assert(all_advanced[i] == advanced[i]);
            } else {
                let i = choose|i: int|
                    0 <= i < symbols.len() && self.continues_by_symbol(
                        at,
                        p,
                        step,
                        log_probs,
                        order[j],
                        #[trigger] symbols[i],
                    );
                assert(all_symbols[i] == symbols[i]);
            }
        }
    }

    proof fn lemma_last_goes_on(
        self,
        frame: Tensor3,
        t: usize,
        at: usize,
        p: RnntPath,
        x: RnntExpansion,
        step: RnntStep,
        a: Seq<RnntPath>,
        s: Seq<RnntPath>,
        advanced: Seq<RnntPath>,
        symbols: Seq<RnntPath>,
    )
        requires
            self.is_answered(frame, p, step, x.log_probs),
            step.1 == x.state_1,
            step.2 == x.state_2,
            self.places(t, at, p, x, a, s, advanced, symbols),
        ensures
            self.goes_on_by_its_best(frame, t, at, p, advanced, symbols),
    {
        let n = x.order.len();
        self.lemma_children(t, at, p, x, step, n);
        let new_symbols = rnnt_beam::symbols_of(p, x, n, self.blank_id, at);
        let new_advanced = rnnt_beam::blanks_of(p, x, n, self.blank_id, (t + 1) as usize);
        assert forall|order: Seq<usize>, j: int|
            #![trigger ranking::is_top(
                x.log_probs,
                self.config.beam_size as nat,
                order,
            ), order[j]]
            ranking::is_top(x.log_probs, self.config.beam_size as nat, order) && 0 <= j
                < order.len() implies {
            &&& order[j] == self.blank_id ==> self.some_continues_by_blank(
                t,
                p,
                x.log_probs,
                advanced,
            )
            &&& order[j] != self.blank_id ==> self.some_continues_by_symbol(
                at,
                p,
                step,
                x.log_probs,
                order[j],
                symbols,
            )
        } by {
            ranking::law_top_is_unique(
                x.log_probs,
                self.config.beam_size as nat,
                order,
                x.order,
            );
            if x.order[j] == self.blank_id {
                let i = choose|i: int|
                    0 <= i < new_advanced.len() && self.continues_by_blank(
                        t,
                        p,
                        x.log_probs,
                        #[trigger] new_advanced[i],
                    );
                assert(advanced[a.len() + i] == new_advanced[i]);
            } else {
                let i = choose|i: int|
                    0 <= i < new_symbols.len() && self.continues_by_symbol(
                        at,
                        p,
                        step,
                        x.log_probs,
                        x.order[j],
                        #[trigger] new_symbols[i],
                    );
                assert(symbols[s.len() + i] == new_symbols[i]);
            }
        }
    }

    /// Paths that have used up their symbols move on by a blank, every one of them
    /// and in order, and nothing else is added: the score is the score of the path
    /// and the log-probability of the blank, whatever its rank.
    pub proof fn law_forced_paths_move_on_by_a_blank(
        self,
        frame: Tensor3,
        t: usize,
        active: Seq<RnntPath>,
        held: Seq<RnntPath>,
        all: Seq<RnntPath>,
    )
        requires
            self.all_forced(frame, t, active, held, all),
        ensures
            all.len() == held.len() + active.len(),
            forall|i: int| 0 <= i < held.len() ==> #[trigger] all[i] == held[i],
            forall|k: int|
                0 <= k < active.len() ==> self.is_forced(
                    frame,
                    t,
                    #[trigger] active[k],
                    all[held.len() + k],
                ),
        decreases active.len(),
    {
        if active.len() > 0 {
            let front = active.drop_last();
            let p = active.last();
            let (d, x, score) = choose|d: Seq<RnntPath>, x: RnntExpansion, score: Bits|
                self.all_forced(frame, t, front, held, d) && #[trigger] self.forces(
                    frame,
                    t,
                    p,
                    x,
                    score,
                    d,
                    all,
                );
            self.law_forced_paths_move_on_by_a_blank(frame, t, front, held, d);
            let v = choose|v: Vec<Bits>|
                v@ == x.logits && #[trigger] call_ensures(
                    *self.decoder,
                    (&frame, p.last_token, &p.state_1, &p.state_2),
                    Ok::<RnntStep, Error>((v, x.state_1, x.state_2)),
                );
            let step: RnntStep = (v, x.state_1, x.state_2);
            assert forall|k: int| 0 <= k < active.len() implies self.is_forced(
                frame,
                t,
                #[trigger] active[k],
                all[held.len() + k],
            ) by {
                if k < front.len() {
                    assert(front[k] == active[k]);
                    assert(all[held.len() + k] == d[held.len() + k]);
                } else {
                    assert(self.is_answered(frame, p, step, x.log_probs));
                }
            }
            assert forall|i: int| 0 <= i < held.len() implies #[trigger] all[i] == held[i] by {
                assert(all[i] == d[i]);
            }
        }
    }

    /// `r` is `p` moved on by a blank of an answer.
    pub open spec fn is_forced(
        self,
        frame: Tensor3,
        t: usize,
        p: RnntPath,
        r: RnntPath,
    ) -> bool {
        exists|step: RnntStep, log_probs: Seq<Bits>| #[trigger]
            self.is_answered(frame, p, step, log_probs) && self.continues_by_blank(
                t,
                p,
                log_probs,
                r,
            )
    }

    proof fn lemma_rounds_emit(
        self,
        frame: Tensor3,
        t: usize,
        at: usize,
        n: nat,
        entered: Seq<RnntPath>,
        active: Seq<RnntPath>,
        advanced: Seq<RnntPath>,
        least: nat,
    )
        requires
            self.symbol_rounds(frame, t, at, n, entered, active, advanced),
            forall|i: int| 0 <= i < entered.len() ==> (#[trigger] entered[i]).tokens.len() >= least,
        ensures
            forall|i: int|
                0 <= i < active.len() ==> (#[trigger] active[i]).tokens.len() >= least + n,
        decreases n,
    {
        if n > 0 {
            let k = (n - 1) as nat;
            let (a, d) = choose|a: Seq<RnntPath>, d: Seq<RnntPath>|
                self.symbol_rounds(frame, t, at, k, entered, a, d)
                    && #[trigger] self.symbol_round(frame, t, at, a, d, active, advanced);
            self.lemma_rounds_emit(frame, t, at, k, entered, a, d, least);
            if a.len() > 0 {
                let (symbols, merged) = choose|symbols: Seq<RnntPath>, merged: Seq<RnntPath>|
                    {
                        &&& self.all_expanded(frame, t, at, a, d, advanced, symbols)
                        &&& #[trigger] rnnt_beam::merged_is(self.arithmetic, symbols, merged)
                        &&& rnnt_beam::pruned_is(self.arithmetic, merged, self.config, active)
                    };
                let long = |p: RnntPath| p.tokens.len() >= least + n;
                self.law_paths_go_on_by_their_best_tokens(frame, t, at, a, d, advanced, symbols);
                assert forall|i: int| 0 <= i < symbols.len() implies #[trigger] long(
                    symbols[i],
                ) by {
                    assert(self.comes_by_symbol(frame, at, a, symbols[i]));
                    let (j, step, lp) = choose|j: int, step: RnntStep, lp: Seq<Bits>|
                        {
                            &&& 0 <= j < a.len()
                            &&& #[trigger] self.is_answered(frame, a[j], step, lp)
                            &&& self.continues_by_some_symbol(at, a[j], step, lp, symbols[i])
                        };
                    assert(a[j].tokens.len() >= least + k);
                }
                rnnt_laws::lemma_merged_keeps(self.arithmetic, symbols, merged, long);
                rnnt_laws::lemma_pruned_keeps(
                    self.arithmetic,
                    merged,
                    self.config,
                    active,
                    long,
                );
                assert forall|i: int| 0 <= i < active.len() implies (
                #[trigger] active[i]).tokens.len() >= least + n by {
                    assert(long(active[i]));
                }
            }
        }
    }

    /// No path is moved on by force before it has used up its symbols: one that is
    /// has emitted as many tokens on the frame as are allowed.
    pub proof fn law_forced_paths_have_used_up_their_symbols(
        self,
        t: usize,
        at: usize,
        beam: Seq<RnntPath>,
        w: RnntFrameTrace,
        next: Seq<RnntPath>,
        least: nat,
    )
        requires
            self.frame_traced(t, at, beam, w, next),
            forall|i: int|
                0 <= i < beam.len() && (#[trigger] beam[i]).frame == t ==> beam[i].tokens.len()
                    >= least,
        ensures
            forall|i: int|
                0 <= i < w.active.len() ==> (#[trigger] w.active[i]).tokens.len() >= least
                    + self.config.max_symbols_per_step,
            w.all.len() == w.advanced.len() + w.active.len(),
    {
        let long = |p: RnntPath| p.tokens.len() >= least;
        let standing = rnnt_beam::on_frame(beam, t);
        rnnt_laws::lemma_on_frame(beam, t);
        assert forall|i: int| 0 <= i < standing.len() implies #[trigger] long(standing[i]) by {
            let j = choose|j: int| 0 <= j < beam.len() && beam[j] == standing[i];
            assert(beam[j].tokens.len() >= least);
        }
        rnnt_laws::lemma_pruned_keeps(
            self.arithmetic,
            standing,
            self.config,
            w.entered,
            long,
        );
        assert forall|i: int| 0 <= i < w.entered.len() implies (
        #[trigger] w.entered[i]).tokens.len() >= least by {
            assert(long(w.entered[i]));
        }
        self.lemma_rounds_emit(
            w.frame,
            t,
            at,
            self.config.max_symbols_per_step as nat,
            w.entered,
            w.active,
            w.advanced,
            least,
        );
        self.law_forced_paths_move_on_by_a_blank(w.frame, t, w.active, w.advanced, w.all);
    }

    /// The paths that a round of symbols may lead to before they are merged.
    pub open spec fn may_expand_to(
        self,
        frame: Tensor3,
        t: usize,
        at: usize,
        active: Seq<RnntPath>,
        held: Seq<RnntPath>,
        advanced: Seq<RnntPath>,
        symbols: Seq<RnntPath>,
    ) -> bool {
        self.all_expanded(frame, t, at, active, held, advanced, symbols)
    }

    /// A round of symbols leaves, for each of the tokens it leads to, one path with
    /// the probability of all that lead there, up to rounding.
    pub proof fn law_rounds_merge_what_they_lead_to(
        self,
        value: spec_fn(Bits) -> real,
        q: real,
        frame: Tensor3,
        t: usize,
        at: usize,
        active: Seq<RnntPath>,
        held: Seq<RnntPath>,
        next_active: Seq<RnntPath>,
        advanced: Seq<RnntPath>,
    )
        requires
            rounding::stands_for(value),
            q >= 1 as real,
            active.len() > 0,
            self.symbol_round(frame, t, at, active, held, next_active, advanced),
            forall|symbols: Seq<RnntPath>| #[trigger]
                self.may_expand_to(frame, t, at, active, held, advanced, symbols)
                    ==> rnnt_merging::merging_rounds(self.arithmetic, value, q, symbols),
        ensures
            exists|symbols: Seq<RnntPath>| #[trigger]
                self.may_expand_to(frame, t, at, active, held, advanced, symbols) && forall|i: int|
                    0 <= i < next_active.len() ==> near(
                        power(q, symbols.len()),
                        value((#[trigger] next_active[i]).score),
                        rnnt_merging::mass(symbols, value, next_active[i]),
                    ),
    {
        let m = self.arithmetic;
        let (symbols, merged) = choose|symbols: Seq<RnntPath>, merged: Seq<RnntPath>|
            {
                &&& self.all_expanded(frame, t, at, active, held, advanced, symbols)
                &&& #[trigger] rnnt_beam::merged_is(m, symbols, merged)
                &&& rnnt_beam::pruned_is(m, merged, self.config, next_active)
            };
        assert(self.may_expand_to(frame, t, at, active, held, advanced, symbols));
        rnnt_merging::law_merging_keeps_probability(m, value, q, symbols, merged);
        rnnt_laws::law_pruning_selects(m, merged, self.config, next_active);
        assert forall|i: int| 0 <= i < next_active.len() implies near(
            power(q, symbols.len()),
            value((#[trigger] next_active[i]).score),
            rnnt_merging::mass(symbols, value, next_active[i]),
        ) by {
            let j = choose|j: int| 0 <= j < merged.len() && merged[j] == next_active[i];
            assert(near(
                power(q, symbols.len()),
                value(merged[j].score),
                rnnt_merging::mass(symbols, value, merged[j]),
            ));
        }
    }
}

} // verus!
