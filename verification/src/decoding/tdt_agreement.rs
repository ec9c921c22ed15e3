//! TDT search has one result for one input, where the arithmetic and the decoder
//! have.
//!
//! A decoder is handed tensors, of which the search knows shape and elements
//! alone. So two runs agree where their paths are equal but for states that have
//! the same shape and elements.
use vstd::prelude::*;
use crate::arithmetic;
use crate::arithmetic::Arithmetic;
use crate::decoding::tdt_beam;
use crate::decoding::tdt_beam::{TdtBeamOutput, TdtContext, TdtExpansion, TdtPath, TdtStep};
use crate::decoding::tdt_greedy;
use crate::decoding::tdt_greedy::{GreedyContext, GreedyPath};
use crate::decoding::BeamConfig;
use crate::error;
use crate::error::Error;
use crate::ranking;
use crate::single::Bits;
use crate::single_valued;
use crate::tensor;
use crate::tensor::Tensor3;

verus! {

/// The two paths agree: in every field, the states by shape and elements.
pub open spec fn agree(a: TdtPath, b: TdtPath) -> bool {
    &&& a.score == b.score
    &&& a.step == b.step
    &&& a.last_token == b.last_token
    &&& tensor::same_tensor(a.state_1, b.state_1)
    &&& tensor::same_tensor(a.state_2, b.state_2)
    &&& a.stuck == b.stuck
    &&& a.tokens == b.tokens
}

/// The two beams agree path by path.
pub open spec fn beams_agree(a: Seq<TdtPath>, b: Seq<TdtPath>) -> bool {
    &&& a.len() == b.len()
    &&& forall|i: int| 0 <= i < a.len() ==> agree(#[trigger] a[i], b[i])
}

/// The two paths, if any, agree.
pub open spec fn options_agree(a: Option<TdtPath>, b: Option<TdtPath>) -> bool {
    match (a, b) {
        (None, None) => true,
        (Some(p), Some(q)) => agree(p, q),
        _ => false,
    }
}

/// The two outputs list the same tokens, frames and durations.
pub open spec fn outputs_agree(a: TdtBeamOutput, b: TdtBeamOutput) -> bool {
    &&& a.tokens@ == b.tokens@
    &&& a.frame_indices@ == b.frame_indices@
    &&& a.durations@ == b.durations@
}

/// The two decoder answers agree: both refuse with the same error, or both give
/// the same logits and the same states by shape and elements.
pub open spec fn answers_agree(a: Result<TdtStep, Error>, b: Result<TdtStep, Error>) -> bool {
    match (a, b) {
        (Ok(x), Ok(y)) => {
            &&& x.0@ == y.0@
            &&& x.1@ == y.1@
            &&& tensor::same_tensor(x.2, y.2)
            &&& tensor::same_tensor(x.3, y.3)
        },
        (Err(e), Err(f)) => error::same_error(e, f),
        _ => false,
    }
}

/// The decoder answers alike where it is handed the same token and tensors of the
/// same shape and elements.
pub open spec fn decoder_agrees<
    D: Fn(&Tensor3, i32, &Tensor3, &Tensor3) -> Result<TdtStep, Error>,
>(decoder: D) -> bool {
    forall|
        frame: &Tensor3,
        other_frame: &Tensor3,
        token: i32,
        state_1: &Tensor3,
        other_1: &Tensor3,
        state_2: &Tensor3,
        other_2: &Tensor3,
        a: Result<TdtStep, Error>,
        b: Result<TdtStep, Error>,
    |
        tensor::same_tensor(*frame, *other_frame) && tensor::same_tensor(*state_1, *other_1)
            && tensor::same_tensor(*state_2, *other_2) && #[trigger] call_ensures(
            decoder,
            (frame, token, state_1, state_2),
            a,
        ) && #[trigger] call_ensures(decoder, (other_frame, token, other_1, other_2), b)
            ==> answers_agree(a, b)
}

proof fn lemma_agreeing_fronts(a: Seq<TdtPath>, b: Seq<TdtPath>)
    requires
        beams_agree(a, b),
        a.len() > 0,
    ensures
        beams_agree(a.drop_last(), b.drop_last()),
        agree(a.last(), b.last()),
{
    assert(agree(a[a.len() - 1], b[a.len() - 1]));
    assert forall|i: int| 0 <= i < a.drop_last().len() implies agree(
        #[trigger] a.drop_last()[i],
        b.drop_last()[i],
    ) by {
        assert(agree(a[i], b[i]));
    }
}

proof fn lemma_agreeing_turns(a: Seq<TdtPath>, b: Seq<TdtPath>)
    requires
        beams_agree(a, b),
    ensures
        beams_agree(b, a),
{
    assert forall|i: int| 0 <= i < b.len() implies agree(#[trigger] b[i], a[i]) by {
        assert(agree(a[i], b[i]));
    }
}

proof fn lemma_agreeing_ends(
    a: Seq<TdtPath>,
    b: Seq<TdtPath>,
    p: TdtPath,
    q: TdtPath,
)
    requires
        beams_agree(a, b),
        agree(p, q),
    ensures
        beams_agree(a.push(p), b.push(q)),
{
    assert forall|i: int| 0 <= i < a.push(p).len() implies agree(
        #[trigger] a.push(p)[i],
        b.push(q)[i],
    ) by {
        if i < a.len() {
            assert(agree(a[i], b[i]));
        }
    }
}

proof fn lemma_agreeing_joins(
    a: Seq<TdtPath>,
    b: Seq<TdtPath>,
    c: Seq<TdtPath>,
    d: Seq<TdtPath>,
)
    requires
        beams_agree(a, b),
        beams_agree(c, d),
    ensures
        beams_agree(a + c, b + d),
{
    assert forall|i: int| 0 <= i < (a + c).len() implies agree(
        #[trigger] (a + c)[i],
        (b + d)[i],
    ) by {
        if i < a.len() {
            assert(agree(a[i], b[i]));
        } else {
            assert(agree(c[i - a.len()], d[i - a.len()]));
        }
    }
}

proof fn lemma_keys_agree<A: Arithmetic>(
    m: &A,
    a: Seq<TdtPath>,
    b: Seq<TdtPath>,
    penalty: Bits,
    r: Seq<Bits>,
    s: Seq<Bits>,
)
    requires
        single_valued::is_function(m),
        beams_agree(a, b),
        tdt_beam::keys_are(m, a, penalty, r),
        tdt_beam::keys_are(m, b, penalty, s),
    ensures
        r == s,
{
    assert forall|i: int| 0 <= i < r.len() implies #[trigger] r[i] == s[i] by {
        assert(agree(a[i], b[i]));
        assert(arithmetic::length_normalized_score_is(
            m,
            b[i].score,
            b[i].tokens.len(),
            penalty,
            s[i],
        ));
        single_valued::lemma_one_normalized_score(
            m,
            a[i].score,
            a[i].tokens.len(),
            penalty,
            r[i],
            s[i],
        );
    }
    assert(r =~= s);
}

proof fn lemma_pruned_agree<A: Arithmetic>(
    m: &A,
    a: Seq<TdtPath>,
    b: Seq<TdtPath>,
    config: BeamConfig,
    r: Seq<TdtPath>,
    s: Seq<TdtPath>,
)
    requires
        single_valued::is_function(m),
        beams_agree(a, b),
        tdt_beam::pruned_is(m, a, config, r),
        tdt_beam::pruned_is(m, b, config, s),
    ensures
        beams_agree(r, s),
{
    let (ka, oa) = choose|ka: Seq<Bits>, oa: Seq<usize>|
        {
            &&& #[trigger] tdt_beam::keys_are(m, a, config.length_penalty, ka)
            &&& #[trigger] ranking::is_top(ka, config.beam_size as nat, oa)
            &&& r == ranking::pick(a, oa)
        };
    let (kb, ob) = choose|kb: Seq<Bits>, ob: Seq<usize>|
        {
            &&& #[trigger] tdt_beam::keys_are(m, b, config.length_penalty, kb)
            &&& #[trigger] ranking::is_top(kb, config.beam_size as nat, ob)
            &&& s == ranking::pick(b, ob)
        };
    lemma_keys_agree(m, a, b, config.length_penalty, ka, kb);
    ranking::law_top_is_unique(ka, config.beam_size as nat, oa, ob);
    assert forall|i: int| 0 <= i < r.len() implies agree(#[trigger] r[i], s[i]) by {
        assert(agree(a[oa[i] as int], b[oa[i] as int]));
    }
}

proof fn lemma_best_agree<A: Arithmetic>(
    m: &A,
    a: Seq<TdtPath>,
    b: Seq<TdtPath>,
    penalty: Bits,
    r: Option<TdtPath>,
    s: Option<TdtPath>,
)
    requires
        single_valued::is_function(m),
        beams_agree(a, b),
        tdt_beam::best_is(m, a, penalty, r),
        tdt_beam::best_is(m, b, penalty, s),
    ensures
        options_agree(r, s),
{
    if a.len() > 0 {
        let ka = choose|ka: Seq<Bits>|
            {
                &&& #[trigger] tdt_beam::keys_are(m, a, penalty, ka)
                &&& r == Some(a[ranking::last_max(ka)])
            };
        let kb = choose|kb: Seq<Bits>|
            {
                &&& #[trigger] tdt_beam::keys_are(m, b, penalty, kb)
                &&& s == Some(b[ranking::last_max(kb)])
            };
        lemma_keys_agree(m, a, b, penalty, ka, kb);
        ranking::lemma_last_max_bounds(ka);
        assert(agree(a[ranking::last_max(ka)], b[ranking::last_max(ka)]));
    }
}

proof fn lemma_places_agree(
    a: Seq<TdtPath>,
    b: Seq<TdtPath>,
    p: TdtPath,
    q: TdtPath,
    i: int,
    j: int,
)
    requires
        beams_agree(a, b),
        agree(p, q),
        tdt_beam::is_place_of(a, p, i),
        tdt_beam::is_place_of(b, q, j),
    ensures
        i == j,
{
    if i < j {
        assert(agree(a[i], b[i]));
        assert(!tdt_beam::same_key(b[i], q));
    } else if j < i {
        assert(agree(a[j], b[j]));
        assert(!tdt_beam::same_key(a[j], p));
    }
}

proof fn lemma_merged_agree<A: Arithmetic>(
    m: &A,
    a: Seq<TdtPath>,
    b: Seq<TdtPath>,
    r: Seq<TdtPath>,
    s: Seq<TdtPath>,
)
    requires
        single_valued::is_function(m),
        beams_agree(a, b),
        tdt_beam::merged_is(m, a, r),
        tdt_beam::merged_is(m, b, s),
    ensures
        beams_agree(r, s),
    decreases a.len(),
{
    if a.len() > 0 {
        let (ha, i, sa) = choose|ha: Seq<TdtPath>, i: int, sa: Bits|
            tdt_beam::merged_is(m, a.drop_last(), ha) && #[trigger] tdt_beam::absorbs(
                m,
                ha,
                a.last(),
                i,
                sa,
                r,
            );
        let (hb, j, sb) = choose|hb: Seq<TdtPath>, j: int, sb: Bits|
            tdt_beam::merged_is(m, b.drop_last(), hb) && #[trigger] tdt_beam::absorbs(
                m,
                hb,
                b.last(),
                j,
                sb,
                s,
            );
        lemma_agreeing_fronts(a, b);
        lemma_merged_agree(m, a.drop_last(), b.drop_last(), ha, hb);
        lemma_places_agree(ha, hb, a.last(), b.last(), i, j);
        if i < ha.len() {
            assert(agree(ha[i], hb[i]));
            single_valued::lemma_one_log_sum_exp(m, ha[i].score, a.last().score, sa, sb);
            assert forall|k: int| 0 <= k < r.len() implies agree(
                    #[trigger] r[k],
                s[k],
            ) by {
                assert(agree(ha[k], hb[k]));
            }
        } else {
            lemma_agreeing_ends(ha, hb, a.last(), b.last());
        }
    }
}

proof fn lemma_sorted_out_agree(a: Seq<TdtPath>, b: Seq<TdtPath>, time_steps: usize, done: bool)
    requires
        beams_agree(a, b),
    ensures
        beams_agree(
            tdt_beam::sorted_out(a, time_steps, done),
            tdt_beam::sorted_out(b, time_steps, done),
        ),
    decreases a.len(),
{
    if a.len() > 0 {
        lemma_agreeing_fronts(a, b);
        lemma_sorted_out_agree(a.drop_last(), b.drop_last(), time_steps, done);
        lemma_agreeing_ends(
            tdt_beam::sorted_out(a.drop_last(), time_steps, done),
            tdt_beam::sorted_out(b.drop_last(), time_steps, done),
            a.last(),
            b.last(),
        );
    }
}

impl<'a, A: Arithmetic, D: Fn(&Tensor3, i32, &Tensor3, &Tensor3) -> Result<TdtStep, Error>>
    TdtContext<'a, A, D> {
    /// The arithmetic has one result for the same operands, and the decoder
    /// answers alike.
    pub open spec fn is_determined(self) -> bool {
        single_valued::is_function(self.arithmetic) && decoder_agrees(*self.decoder)
    }

    /// The two searches have the same input, the encoder output by shape and
    /// elements.
    pub open spec fn has_input_of(self, other: Self) -> bool {
        &&& self.arithmetic == other.arithmetic
        &&& self.decoder == other.decoder
        &&& tensor::same_tensor(*self.encoder_out, *other.encoder_out)
        &&& self.time_steps == other.time_steps
        &&& self.blank_id == other.blank_id
        &&& self.vocab_size == other.vocab_size
        &&& self.config == other.config
    }

    proof fn lemma_answers_agree(
        self,
        other: Self,
        frame: Tensor3,
        other_frame: Tensor3,
        p: TdtPath,
        q: TdtPath,
        x: TdtExpansion,
        y: TdtExpansion,
    )
        requires
            self.has_input_of(other),
            decoder_agrees(*self.decoder),
            tensor::same_tensor(frame, other_frame),
            agree(p, q),
            self.answers(frame, p, x),
            other.answers(other_frame, q, y),
        ensures
            x.token_logits == y.token_logits,
            x.duration_logits == y.duration_logits,
            tensor::same_tensor(x.state_1, y.state_1),
            tensor::same_tensor(x.state_2, y.state_2),
    {
        let (v, d) = choose|v: Vec<Bits>, d: Vec<Bits>|
            v@ == x.token_logits && d@ == x.duration_logits && #[trigger] call_ensures(
                *self.decoder,
                (&frame, p.last_token, &p.state_1, &p.state_2),
                Ok::<TdtStep, Error>((v, d, x.state_1, x.state_2)),
            );
        let (u, e) = choose|u: Vec<Bits>, e: Vec<Bits>|
            u@ == y.token_logits && e@ == y.duration_logits && #[trigger] call_ensures(
                *other.decoder,
                (&other_frame, q.last_token, &q.state_1, &q.state_2),
                Ok::<TdtStep, Error>((u, e, y.state_1, y.state_2)),
            );
        assert(answers_agree(
            Ok::<TdtStep, Error>((v, d, x.state_1, x.state_2)),
            Ok::<TdtStep, Error>((u, e, y.state_1, y.state_2)),
        ));
    }

    proof fn lemma_scores_agree(
        self,
        other: Self,
        p: TdtPath,
        q: TdtPath,
        x: TdtExpansion,
        y: TdtExpansion,
    )
        requires
            self.has_input_of(other),
            single_valued::is_function(self.arithmetic),
            agree(p, q),
            x.token_logits == y.token_logits,
            x.duration_logits == y.duration_logits,
            self.scores_pairs(p, x),
            other.scores_pairs(q, y),
        ensures
            x.tokens == y.tokens,
            x.durations == y.durations,
            x.scores == y.scores,
    {
        let m = self.arithmetic;
        single_valued::lemma_one_log_softmax(
            m,
            x.token_logits,
            x.token_log_probs,
            y.token_log_probs,
        );
        single_valued::lemma_one_log_softmax(
            m,
            x.duration_logits,
            x.duration_log_probs,
            y.duration_log_probs,
        );
        ranking::law_top_is_unique(
            x.token_log_probs,
            tdt_beam::fewer(self.config.beam_size, self.vocab_size) as nat,
            x.tokens,
            y.tokens,
        );
        ranking::law_top_is_unique(
            x.duration_log_probs,
            tdt_beam::fewer(self.config.beam_size, 5) as nat,
            x.durations,
            y.durations,
        );
        assert forall|i: int| 0 <= i < x.scores.len() implies #[trigger] x.scores[i]
            == y.scores[i] by {
            assert(self.row_scored(p, x, i, x.scores[i]));
            assert(other.row_scored(q, y, i, y.scores[i]));
            assert forall|j: int| 0 <= j < x.scores[i].len() implies #[trigger] x.scores[i][j]
                == y.scores[i][j] by {
                self.lemma_pair_scores_agree(
                    other,
                    p,
                    q,
                    x,
                    y,
                    x.tokens[i],
                    x.durations[j],
                    x.scores[i][j],
                    y.scores[i][j],
                );
            }
            assert(x.scores[i] =~= y.scores[i]);
        }
        assert(x.scores =~= y.scores);
    }

    proof fn lemma_pair_scores_agree(
        self,
        other: Self,
        p: TdtPath,
        q: TdtPath,
        x: TdtExpansion,
        y: TdtExpansion,
        token: usize,
        class: usize,
        r: Bits,
        s: Bits,
    )
        requires
            self.has_input_of(other),
            single_valued::is_function(self.arithmetic),
            agree(p, q),
            x.token_log_probs == y.token_log_probs,
            x.duration_log_probs == y.duration_log_probs,
            self.score_is(p, x, token, class, r),
            other.score_is(q, y, token, class, s),
        ensures
            r == s,
    {
        let m = self.arithmetic;
        let a = x.token_log_probs[token as int];
        let b = x.duration_log_probs[class as int];
        let weight = self.config.duration_reward;
        let g = choose|g: Bits|
            {
                &&& #[trigger] arithmetic::weighted_score_is(m, a, b, weight, g)
                &&& arithmetic::sum_is(m, p.score, g, r)
            };
        let h = choose|h: Bits|
            {
                &&& #[trigger] arithmetic::weighted_score_is(m, a, b, weight, h)
                &&& arithmetic::sum_is(m, q.score, h, s)
            };
        single_valued::lemma_one_weighted_score(m, a, b, weight, g, h);
        single_valued::lemma_one_sum(m, p.score, g, r, s);
    }

    proof fn lemma_children_agree(
        self,
        other: Self,
        p: TdtPath,
        q: TdtPath,
        x: TdtExpansion,
        y: TdtExpansion,
        n: nat,
    )
        requires
            self.has_input_of(other),
            agree(p, q),
            x.tokens == y.tokens,
            x.durations == y.durations,
            x.scores == y.scores,
            tensor::same_tensor(x.state_1, y.state_1),
            tensor::same_tensor(x.state_2, y.state_2),
        ensures
            beams_agree(self.children_of(p, x, n), other.children_of(q, y, n)),
        decreases n,
    {
        if n > 0 {
            let k = (n - 1) as nat;
            self.lemma_children_agree(other, p, q, x, y, k);
            let row = self.row_of(p, x, n - 1, x.scores[n - 1], x.durations.len());
            let other_row = other.row_of(q, y, n - 1, y.scores[n - 1], y.durations.len());
            assert forall|j: int| 0 <= j < row.len() implies agree(
                #[trigger] row[j],
                other_row[j],
            ) by {}
            lemma_agreeing_joins(
                self.children_of(p, x, k),
                other.children_of(q, y, k),
                row,
                other_row,
            );
        }
    }

    proof fn lemma_expansions_agree(
        self,
        other: Self,
        active: Seq<TdtPath>,
        other_active: Seq<TdtPath>,
        all: Seq<TdtPath>,
        other_all: Seq<TdtPath>,
    )
        requires
            self.has_input_of(other),
            self.is_determined(),
            beams_agree(active, other_active),
            self.all_expanded(active, all),
            other.all_expanded(other_active, other_all),
        ensures
            beams_agree(all, other_all),
        decreases active.len(),
    {
        if active.len() > 0 {
            let p = active.last();
            let q = other_active.last();
            let (a, f, x) = choose|a: Seq<TdtPath>, f: Tensor3, x: TdtExpansion|
                self.all_expanded(active.drop_last(), a) && #[trigger] self.expands(
                    f,
                    p,
                    x,
                    a,
                    all,
                );
            let (b, g, y) = choose|b: Seq<TdtPath>, g: Tensor3, y: TdtExpansion|
                other.all_expanded(other_active.drop_last(), b) && #[trigger] other.expands(
                    g,
                    q,
                    y,
                    b,
                    other_all,
                );
            lemma_agreeing_fronts(active, other_active);
            self.lemma_expansions_agree(
                other,
                active.drop_last(),
                other_active.drop_last(),
                a,
                b,
            );
            if p.step < self.time_steps {
                self.lemma_answers_agree(other, f, g, p, q, x, y);
                self.lemma_scores_agree(other, p, q, x, y);
                let n = x.tokens.len();
                self.lemma_children_agree(other, p, q, x, y, n);
                lemma_agreeing_joins(
                    a,
                    b,
                    self.children_of(p, x, n),
                    other.children_of(q, y, n),
                );
            }
        }
    }

    proof fn lemma_round_agrees(
        self,
        other: Self,
        held: Seq<TdtPath>,
        other_held: Seq<TdtPath>,
        active: Seq<TdtPath>,
        other_active: Seq<TdtPath>,
        finished: Seq<TdtPath>,
        other_finished: Seq<TdtPath>,
        next: Seq<TdtPath>,
        other_next: Seq<TdtPath>,
    )
        requires
            self.has_input_of(other),
            self.is_determined(),
            beams_agree(held, other_held),
            beams_agree(active, other_active),
            self.round_is(held, active, finished, next),
            other.round_is(other_held, other_active, other_finished, other_next),
        ensures
            beams_agree(finished, other_finished),
            beams_agree(next, other_next),
    {
        let m = self.arithmetic;
        let steps = self.time_steps;
        let (a, r) = choose|a: Seq<TdtPath>, r: Seq<TdtPath>|
            {
                &&& self.all_expanded(active, a)
                &&& #[trigger] tdt_beam::merged_is(m, a, r)
                &&& finished == held + tdt_beam::sorted_out(r, steps, true)
                &&& tdt_beam::pruned_is(
                    m,
                    tdt_beam::sorted_out(r, steps, false),
                    self.config,
                    next,
                )
            };
        let (b, s) = choose|b: Seq<TdtPath>, s: Seq<TdtPath>|
            {
                &&& other.all_expanded(other_active, b)
                &&& #[trigger] tdt_beam::merged_is(m, b, s)
                &&& other_finished == other_held + tdt_beam::sorted_out(s, steps, true)
                &&& tdt_beam::pruned_is(
                    m,
                    tdt_beam::sorted_out(s, steps, false),
                    self.config,
                    other_next,
                )
            };
        self.lemma_expansions_agree(other, active, other_active, a, b);
        lemma_merged_agree(m, a, b, r, s);
        lemma_sorted_out_agree(r, s, steps, true);
        lemma_sorted_out_agree(r, s, steps, false);
        lemma_agreeing_joins(
            held,
            other_held,
            tdt_beam::sorted_out(r, steps, true),
            tdt_beam::sorted_out(s, steps, true),
        );
        lemma_pruned_agree(
            m,
            tdt_beam::sorted_out(r, steps, false),
            tdt_beam::sorted_out(s, steps, false),
            self.config,
            next,
            other_next,
        );
    }

    proof fn lemma_rounds_agree(
        self,
        other: Self,
        room: usize,
        n: nat,
        seed: TdtPath,
        other_seed: TdtPath,
        finished: Seq<TdtPath>,
        other_finished: Seq<TdtPath>,
        active: Seq<TdtPath>,
        other_active: Seq<TdtPath>,
    )
        requires
            self.has_input_of(other),
            self.is_determined(),
            agree(seed, other_seed),
            self.rounds_are(room, n, seed, finished, active),
            other.rounds_are(room, n, other_seed, other_finished, other_active),
        ensures
            beams_agree(finished, other_finished),
            beams_agree(active, other_active),
        decreases n,
    {
        if n > 0 {
            let k = (n - 1) as nat;
            let (f, a) = choose|f: Seq<TdtPath>, a: Seq<TdtPath>|
                {
                    &&& self.rounds_are(room, k, seed, f, a)
                    &&& self.goes_on(room, f, a)
                    &&& #[trigger] self.round_is(f, a, finished, active)
                };
            let (g, b) = choose|g: Seq<TdtPath>, b: Seq<TdtPath>|
                {
                    &&& other.rounds_are(room, k, other_seed, g, b)
                    &&& other.goes_on(room, g, b)
                    &&& #[trigger] other.round_is(g, b, other_finished, other_active)
                };
            self.lemma_rounds_agree(other, room, k, seed, other_seed, f, g, a, b);
            self.lemma_round_agrees(
                other,
                f,
                g,
                a,
                b,
                finished,
                other_finished,
                active,
                other_active,
            );
        }
    }

    /// What a search of `n` rounds had after `k` of them, where it went on, and what
    /// the next round made of it.
    proof fn lemma_rounds_go_through(
        self,
        room: usize,
        k: nat,
        n: nat,
        seed: TdtPath,
        finished: Seq<TdtPath>,
        active: Seq<TdtPath>,
    ) -> (r: (Seq<TdtPath>, Seq<TdtPath>, Seq<TdtPath>, Seq<TdtPath>))
        requires
            self.rounds_are(room, n, seed, finished, active),
            k < n,
        ensures
            self.rounds_are(room, k, seed, r.0, r.1),
            self.goes_on(room, r.0, r.1),
            self.round_is(r.0, r.1, r.2, r.3),
        decreases n,
    {
        let (f, a) = choose|f: Seq<TdtPath>, a: Seq<TdtPath>|
            {
                &&& self.rounds_are(room, (n - 1) as nat, seed, f, a)
                &&& self.goes_on(room, f, a)
                &&& #[trigger] self.round_is(f, a, finished, active)
            };
        if k == n - 1 {
            (f, a, finished, active)
        } else {
            self.lemma_rounds_go_through(room, k, (n - 1) as nat, seed, f, a)
        }
    }

    proof fn lemma_ends_agree(
        self,
        other: Self,
        finished: Seq<TdtPath>,
        other_finished: Seq<TdtPath>,
        active: Seq<TdtPath>,
        other_active: Seq<TdtPath>,
    )
        requires
            self.has_input_of(other),
            self.is_determined(),
            self.ends_with(finished, active),
            other.ends_with(other_finished, other_active),
        ensures
            beams_agree(finished, other_finished),
            beams_agree(active, other_active),
    {
        let m = self.arithmetic;
        let (room, n, seed) = choose|room: usize, n: nat, seed: TdtPath|
            {
                &&& arithmetic::scaled_count_is(
                    m,
                    self.config.beam_size,
                    self.config.patience,
                    room,
                )
                &&& #[trigger] tdt_beam::is_seed(seed, self.blank_id)
                &&& #[trigger] self.rounds_are(room, n, seed, finished, active)
                &&& !self.goes_on(room, finished, active)
            };
        let (other_room, k, other_seed) = choose|room: usize, k: nat, seed: TdtPath|
            {
                &&& arithmetic::scaled_count_is(
                    m,
                    self.config.beam_size,
                    self.config.patience,
                    room,
                )
                &&& #[trigger] tdt_beam::is_seed(seed, other.blank_id)
                &&& #[trigger] other.rounds_are(room, k, seed, other_finished, other_active)
                &&& !other.goes_on(room, other_finished, other_active)
            };
        single_valued::lemma_one_scaled_count(
            m,
            self.config.beam_size,
            self.config.patience,
            room,
            other_room,
        );
        assert(seed.tokens =~= other_seed.tokens);
        if n < k {
            let (g, b, _, _) = other.lemma_rounds_go_through(
                room,
                n,
                k,
                other_seed,
                other_finished,
                other_active,
            );
            self.lemma_rounds_agree(other, room, n, seed, other_seed, finished, g, active, b);
        } else if k < n {
            let (f, a, _, _) = self.lemma_rounds_go_through(room, k, n, seed, finished, active);
            self.lemma_rounds_agree(
                other,
                room,
                k,
                seed,
                other_seed,
                f,
                other_finished,
                a,
                other_active,
            );
        }
        self.lemma_rounds_agree(
            other,
            room,
            n,
            seed,
            other_seed,
            finished,
            other_finished,
            active,
            other_active,
        );
    }

    /// One input has one result: two searches with the same input list the same
    /// tokens, frames and durations.
    pub proof fn law_one_input_has_one_result(
        self,
        other: Self,
        out: TdtBeamOutput,
        other_out: TdtBeamOutput,
    )
        requires
            self.has_input_of(other),
            self.is_determined(),
            self.decodes(out),
            other.decodes(other_out),
        ensures
            outputs_agree(out, other_out),
    {
        let m = self.arithmetic;
        let penalty = self.config.length_penalty;
        let (f, a, best) = choose|f: Seq<TdtPath>, a: Seq<TdtPath>, best: Option<TdtPath>|
            {
                &&& #[trigger] self.ends_with(f, a)
                &&& #[trigger] tdt_beam::best_is(m, f + a, penalty, best)
                &&& tdt_beam::gives(best, out)
            };
        let (g, b, other_best) = choose|
            g: Seq<TdtPath>,
            b: Seq<TdtPath>,
            other_best: Option<TdtPath>,
        |
            {
                &&& #[trigger] other.ends_with(g, b)
                &&& #[trigger] tdt_beam::best_is(m, g + b, penalty, other_best)
                &&& tdt_beam::gives(other_best, other_out)
            };
        self.lemma_ends_agree(other, f, g, a, b);
        lemma_agreeing_joins(f, g, a, b);
        lemma_best_agree(m, f + a, g + b, penalty, best, other_best);
    }

    proof fn lemma_expanded_are_answered(self, active: Seq<TdtPath>, all: Seq<TdtPath>)
        requires
            self.all_expanded(active, all),
        ensures
            forall|j: int| 0 <= j < active.len() ==> self.may_answer(#[trigger] active[j]),
        decreases active.len(),
    {
        if active.len() > 0 {
            let p = active.last();
            let front = active.drop_last();
            let (held, frame, x) = choose|held: Seq<TdtPath>, frame: Tensor3, x: TdtExpansion|
                self.all_expanded(front, held) && #[trigger] self.expands(frame, p, x, held, all);
            self.lemma_expanded_are_answered(front, held);
            assert(self.may_answer(p));
            assert forall|j: int| 0 <= j < active.len() implies self.may_answer(
                #[trigger] active[j],
            ) by {
                if j < front.len() {
                    assert(front[j] == active[j]);
                }
            }
        }
    }

    proof fn lemma_no_answer_and_refusal(
        self,
        other: Self,
        p: TdtPath,
        q: TdtPath,
        frame: Tensor3,
        e: Error,
    )
        requires
            self.has_input_of(other),
            decoder_agrees(*self.decoder),
            agree(p, q),
            self.may_answer(p),
            q.step < other.time_steps,
            tensor::is_frame(*other.encoder_out, q.step as int, frame),
        ensures
            !call_ensures(
                *other.decoder,
                (&frame, q.last_token, &q.state_1, &q.state_2),
                Err::<TdtStep, Error>(e),
            ),
    {
        let (own, step) = choose|own: Tensor3, step: TdtStep|
            {
                &&& tensor::is_frame(*self.encoder_out, p.step as int, own)
                &&& #[trigger] call_ensures(
                    *self.decoder,
                    (&own, p.last_token, &p.state_1, &p.state_2),
                    Ok::<TdtStep, Error>(step),
                )
            };
        assert(tensor::same_tensor(own, frame));
        assert(!answers_agree(Ok::<TdtStep, Error>(step), Err::<TdtStep, Error>(e)));
    }

    /// A round that went on is not refused.
    proof fn lemma_round_is_not_refused(
        self,
        other: Self,
        held: Seq<TdtPath>,
        active: Seq<TdtPath>,
        other_active: Seq<TdtPath>,
        finished: Seq<TdtPath>,
        next: Seq<TdtPath>,
        e: Error,
    )
        requires
            self.has_input_of(other),
            decoder_agrees(*self.decoder),
            beams_agree(active, other_active),
            self.round_is(held, active, finished, next),
        ensures
            !other.refuses_one_of(other_active, e),
    {
        let (all, merged) = choose|all: Seq<TdtPath>, merged: Seq<TdtPath>|
            {
                &&& self.all_expanded(active, all)
                &&& #[trigger] tdt_beam::merged_is(self.arithmetic, all, merged)
                &&& finished == held + tdt_beam::sorted_out(merged, self.time_steps, true)
                &&& tdt_beam::pruned_is(
                    self.arithmetic,
                    tdt_beam::sorted_out(merged, self.time_steps, false),
                    self.config,
                    next,
                )
            };
        self.lemma_expanded_are_answered(active, all);
        if other.refuses_one_of(other_active, e) {
            let (i, frame) = other.lemma_refused_path(other_active, e);
            self.lemma_no_answer_and_refusal(other, active[i], other_active[i], frame, e);
        }
    }

    proof fn lemma_refused_path(self, active: Seq<TdtPath>, e: Error) -> (r: (int, Tensor3))
        requires
            self.refuses_one_of(active, e),
        ensures
            0 <= r.0 < active.len(),
            forall|j: int| 0 <= j < r.0 ==> self.may_answer(#[trigger] active[j]),
            active[r.0].step < self.time_steps,
            tensor::is_frame(*self.encoder_out, active[r.0].step as int, r.1),
            call_ensures(
                *self.decoder,
                (&r.1, active[r.0].last_token, &active[r.0].state_1, &active[r.0].state_2),
                Err::<TdtStep, Error>(e),
            ),
    {
        choose|i: int, frame: Tensor3|
            {
                &&& 0 <= i < active.len()
                &&& forall|j: int| 0 <= j < i ==> self.may_answer(#[trigger] active[j])
                &&& active[i].step < self.time_steps
                &&& tensor::is_frame(*self.encoder_out, active[i].step as int, frame)
                &&& #[trigger] call_ensures(
                    *self.decoder,
                    (&frame, active[i].last_token, &active[i].state_1, &active[i].state_2),
                    Err::<TdtStep, Error>(e),
                )
            }
    }

    /// A search that gives a result does not end with an error.
    pub proof fn law_decoded_is_not_refused(self, other: Self, out: TdtBeamOutput, e: Error)
        requires
            self.has_input_of(other),
            self.is_determined(),
            self.decodes(out),
        ensures
            !other.may_refuse(e),
    {
        if other.may_refuse(e) {
            let m = self.arithmetic;
            let (finished, active, best) = choose|
                finished: Seq<TdtPath>,
                active: Seq<TdtPath>,
                best: Option<TdtPath>,
            |
                {
                    &&& #[trigger] self.ends_with(finished, active)
                    &&& #[trigger] tdt_beam::best_is(
                        m,
                        finished + active,
                        self.config.length_penalty,
                        best,
                    )
                    &&& tdt_beam::gives(best, out)
                };
            let (room, n, seed) = choose|room: usize, n: nat, seed: TdtPath|
                {
                    &&& arithmetic::scaled_count_is(
                        m,
                        self.config.beam_size,
                        self.config.patience,
                        room,
                    )
                    &&& #[trigger] tdt_beam::is_seed(seed, self.blank_id)
                    &&& #[trigger] self.rounds_are(room, n, seed, finished, active)
                    &&& !self.goes_on(room, finished, active)
                };
            let (other_room, k, other_seed, g, b) = choose|
                room: usize,
                k: nat,
                seed: TdtPath,
                g: Seq<TdtPath>,
                b: Seq<TdtPath>,
            | #[trigger]
                other.round_refuses(room, k, seed, g, b, e);
            single_valued::lemma_one_scaled_count(
                m,
                self.config.beam_size,
                self.config.patience,
                room,
                other_room,
            );
            assert(seed.tokens =~= other_seed.tokens);
            if k < n {
                let (f, a, c, d) = self.lemma_rounds_go_through(
                    room,
                    k,
                    n,
                    seed,
                    finished,
                    active,
                );
                self.lemma_rounds_agree(other, room, k, seed, other_seed, f, g, a, b);
                self.lemma_round_is_not_refused(other, f, a, b, c, d, e);
            } else if n < k {
                let (f, a, _, _) = other.lemma_rounds_go_through(room, n, k, other_seed, g, b);
                self.lemma_rounds_agree(
                    other,
                    room,
                    n,
                    seed,
                    other_seed,
                    finished,
                    f,
                    active,
                    a,
                );
            } else {
                self.lemma_rounds_agree(
                    other,
                    room,
                    n,
                    seed,
                    other_seed,
                    finished,
                    g,
                    active,
                    b,
                );
            }
        }
    }

    /// A search that ends with an error ends with one error.
    pub proof fn law_one_input_has_one_error(self, other: Self, e: Error, f: Error)
        requires
            self.has_input_of(other),
            self.is_determined(),
            self.may_refuse(e),
            other.may_refuse(f),
        ensures
            error::same_error(e, f),
    {
        let (room, n, seed, done, active) = choose|
            room: usize,
            n: nat,
            seed: TdtPath,
            done: Seq<TdtPath>,
            active: Seq<TdtPath>,
        | #[trigger]
            self.round_refuses(room, n, seed, done, active, e);
        let (other_room, k, other_seed, other_done, other_active) = choose|
            room: usize,
            k: nat,
            seed: TdtPath,
            done: Seq<TdtPath>,
            active: Seq<TdtPath>,
        | #[trigger]
            other.round_refuses(room, k, seed, done, active, f);
        single_valued::lemma_one_scaled_count(
            self.arithmetic,
            self.config.beam_size,
            self.config.patience,
            room,
            other_room,
        );
        assert(seed.tokens =~= other_seed.tokens);
        if n < k {
            let (g, b, c, d) = other.lemma_rounds_go_through(
                room,
                n,
                k,
                other_seed,
                other_done,
                other_active,
            );
            self.lemma_rounds_agree(other, room, n, seed, other_seed, done, g, active, b);
            lemma_agreeing_turns(active, b);
            other.lemma_round_is_not_refused(self, g, b, active, c, d, e);
        } else if k < n {
            let (g, b, c, d) = self.lemma_rounds_go_through(room, k, n, seed, done, active);
            self.lemma_rounds_agree(
                other,
                room,
                k,
                seed,
                other_seed,
                g,
                other_done,
                b,
                other_active,
            );
            self.lemma_round_is_not_refused(other, g, b, other_active, c, d, f);
        } else {
            self.lemma_rounds_agree(
                other,
                room,
                n,
                seed,
                other_seed,
                done,
                other_done,
                active,
                other_active,
            );
            lemma_agreeing_turns(active, other_active);
            let (i, x) = self.lemma_refused_path(active, e);
            let (j, y) = other.lemma_refused_path(other_active, f);
            if i < j {
                assert(agree(other_active[i], active[i]));
                other.lemma_no_answer_and_refusal(self, other_active[i], active[i], x, e);
            } else if j < i {
                assert(agree(active[j], other_active[j]));
                self.lemma_no_answer_and_refusal(other, active[j], other_active[j], y, f);
            } else {
                assert(agree(active[i], other_active[i]));
                assert(tensor::same_tensor(x, y));
                assert(answers_agree(Err::<TdtStep, Error>(e), Err::<TdtStep, Error>(f)));
            }
        }
    }
}

/// The two greedy searches agree: in every field, the states by shape and
/// elements.
pub open spec fn greedy_paths_agree(a: GreedyPath, b: GreedyPath) -> bool {
    &&& a.t == b.t
    &&& a.emitted == b.emitted
    &&& a.last_token == b.last_token
    &&& tensor::same_tensor(a.state_1, b.state_1)
    &&& tensor::same_tensor(a.state_2, b.state_2)
    &&& a.tokens == b.tokens
    &&& a.frame_indices == b.frame_indices
    &&& a.durations == b.durations
}

proof fn lemma_starts_agree(a: GreedyPath, b: GreedyPath, blank_id: usize)
    requires
        tdt_greedy::is_start(a, blank_id),
        tdt_greedy::is_start(b, blank_id),
    ensures
        greedy_paths_agree(a, b),
{
    assert(a.tokens =~= b.tokens);
    assert(a.frame_indices =~= b.frame_indices);
    assert(a.durations =~= b.durations);
}

impl<'a, D: Fn(&Tensor3, i32, &Tensor3, &Tensor3) -> Result<TdtStep, Error>> GreedyContext<'a, D> {
    /// The two searches have the same input, the encoder output by shape and
    /// elements.
    pub open spec fn has_input_of(self, other: Self) -> bool {
        &&& self.decoder == other.decoder
        &&& tensor::same_tensor(*self.encoder_out, *other.encoder_out)
        &&& self.blank_id == other.blank_id
    }

    proof fn lemma_runs_agree(
        self,
        other: Self,
        n: nat,
        start: GreedyPath,
        other_start: GreedyPath,
        p: GreedyPath,
        q: GreedyPath,
    )
        requires
            self.has_input_of(other),
            decoder_agrees(*self.decoder),
            greedy_paths_agree(start, other_start),
            self.runs_to(n, start, p),
            other.runs_to(n, other_start, q),
        ensures
            greedy_paths_agree(p, q),
        decreases n,
    {
        if n > 0 {
            let k = (n - 1) as nat;
            let (a, f, x) = choose|a: GreedyPath, f: Tensor3, x: TdtStep|
                self.runs_to(k, start, a) && #[trigger] self.steps_to(a, f, x, p);
            let (b, g, y) = choose|b: GreedyPath, g: Tensor3, y: TdtStep|
                other.runs_to(k, other_start, b) && #[trigger] other.steps_to(b, g, y, q);
            self.lemma_runs_agree(other, k, start, other_start, a, b);
            assert(answers_agree(Ok::<TdtStep, Error>(x), Ok::<TdtStep, Error>(y)));
        }
    }

    /// Where a search of `n` calls stood after `k` of them, and the call that
    /// followed.
    proof fn lemma_runs_go_through(
        self,
        k: nat,
        n: nat,
        start: GreedyPath,
        p: GreedyPath,
    ) -> (r: (GreedyPath, Tensor3, TdtStep))
        requires
            self.runs_to(n, start, p),
            k < n,
        ensures
            self.runs_to(k, start, r.0),
            exists|next: GreedyPath| #[trigger] self.steps_to(r.0, r.1, r.2, next),
        decreases n,
    {
        let (a, f, x) = choose|a: GreedyPath, f: Tensor3, x: TdtStep|
            self.runs_to((n - 1) as nat, start, a) && #[trigger] self.steps_to(a, f, x, p);
        if k == n - 1 {
            (a, f, x)
        } else {
            self.lemma_runs_go_through(k, (n - 1) as nat, start, a)
        }
    }

    /// One input has one result: two searches with the same input list the same
    /// tokens, frames and durations.
    pub proof fn law_one_input_has_one_result(
        self,
        other: Self,
        out: TdtBeamOutput,
        other_out: TdtBeamOutput,
    )
        requires
            self.has_input_of(other),
            decoder_agrees(*self.decoder),
            self.decodes(out),
            other.decodes(other_out),
        ensures
            outputs_agree(out, other_out),
    {
        let (n, start, end) = choose|n: nat, start: GreedyPath, end: GreedyPath|
            {
                &&& #[trigger] tdt_greedy::is_start(start, self.blank_id)
                &&& #[trigger] self.runs_to(n, start, end)
                &&& end.t >= self.time_steps()
                &&& tdt_greedy::gives(end, out)
            };
        let (k, other_start, other_end) = choose|k: nat, start: GreedyPath, end: GreedyPath|
            {
                &&& #[trigger] tdt_greedy::is_start(start, other.blank_id)
                &&& #[trigger] other.runs_to(k, start, end)
                &&& end.t >= other.time_steps()
                &&& tdt_greedy::gives(end, other_out)
            };
        lemma_starts_agree(start, other_start, self.blank_id);
        if n < k {
            let (q, _, _) = other.lemma_runs_go_through(n, k, other_start, other_end);
            self.lemma_runs_agree(other, n, start, other_start, end, q);
        } else if k < n {
            let (p, _, _) = self.lemma_runs_go_through(k, n, start, end);
            self.lemma_runs_agree(other, k, start, other_start, p, other_end);
        }
        self.lemma_runs_agree(other, n, start, other_start, end, other_end);
    }

    /// A search that gives a result does not end with an error.
    pub proof fn law_decoded_is_not_refused(self, other: Self, out: TdtBeamOutput, e: Error)
        requires
            self.has_input_of(other),
            decoder_agrees(*self.decoder),
            self.decodes(out),
        ensures
            !other.may_refuse(e),
    {
        if other.may_refuse(e) {
            let (n, start, end) = choose|n: nat, start: GreedyPath, end: GreedyPath|
                {
                    &&& #[trigger] tdt_greedy::is_start(start, self.blank_id)
                    &&& #[trigger] self.runs_to(n, start, end)
                    &&& end.t >= self.time_steps()
                    &&& tdt_greedy::gives(end, out)
                };
            let (k, other_start, q, frame) = choose|
                k: nat,
                start: GreedyPath,
                q: GreedyPath,
                frame: Tensor3,
            | #[trigger]
                other.call_refuses(k, start, q, frame, e);
            lemma_starts_agree(start, other_start, self.blank_id);
            if k < n {
                let (p, own, step) = self.lemma_runs_go_through(k, n, start, end);
                self.lemma_runs_agree(other, k, start, other_start, p, q);
                assert(!answers_agree(Ok::<TdtStep, Error>(step), Err::<TdtStep, Error>(e)));
            } else if n < k {
                let (p, _, _) = other.lemma_runs_go_through(n, k, other_start, q);
                self.lemma_runs_agree(other, n, start, other_start, end, p);
            } else {
                self.lemma_runs_agree(other, n, start, other_start, end, q);
            }
        }
    }

    /// A search that ends with an error ends with one error.
    pub proof fn law_one_input_has_one_error(self, other: Self, e: Error, f: Error)
        requires
            self.has_input_of(other),
            decoder_agrees(*self.decoder),
            self.may_refuse(e),
            other.may_refuse(f),
        ensures
            error::same_error(e, f),
    {
        let (n, start, p, x) = choose|n: nat, start: GreedyPath, p: GreedyPath, x: Tensor3|
            #[trigger] self.call_refuses(n, start, p, x, e);
        let (k, other_start, q, y) = choose|k: nat, start: GreedyPath, q: GreedyPath, y: Tensor3|
            #[trigger] other.call_refuses(k, start, q, y, f);
        lemma_starts_agree(start, other_start, self.blank_id);
        if n < k {
            let (r, _, step) = other.lemma_runs_go_through(n, k, other_start, q);
            self.lemma_runs_agree(other, n, start, other_start, p, r);
            assert(!answers_agree(Err::<TdtStep, Error>(e), Ok::<TdtStep, Error>(step)));
        } else if k < n {
            let (r, _, step) = self.lemma_runs_go_through(k, n, start, p);
            self.lemma_runs_agree(other, k, start, other_start, r, q);
            assert(!answers_agree(Ok::<TdtStep, Error>(step), Err::<TdtStep, Error>(f)));
        } else {
            self.lemma_runs_agree(other, n, start, other_start, p, q);
            assert(answers_agree(Err::<TdtStep, Error>(e), Err::<TdtStep, Error>(f)));
        }
    }
}

} // verus!
