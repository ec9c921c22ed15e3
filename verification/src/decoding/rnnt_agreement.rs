//! RNN-T beam search has one result for one input, where the arithmetic and the
//! decoder have.
//!
//! A decoder is handed tensors, of which the search knows shape and elements
//! alone. So two runs agree where their paths are equal but for states that have
//! the same shape and elements.
use vstd::prelude::*;
use crate::arithmetic;
use crate::arithmetic::Arithmetic;
use crate::decoding::rnnt_beam;
use crate::decoding::rnnt_beam::{
    RnntBeamOutput, RnntContext, RnntExpansion, RnntFrameTrace, RnntPath, RnntStep,
};
use crate::decoding::rnnt_chunks;
use crate::decoding::rnnt_parameters;
use crate::decoding::BeamConfig;
use crate::error;
use crate::error::Error;
use crate::ranking;
use crate::single::Bits;
use crate::single_valued;
use crate::tensor;
use crate::tensor::Tensor3;

verus! {

/// The two paths agree: in every field, the states by shape and elements. The
/// counts of tokens emitted before are compared where `counted` says so.
pub open spec fn agree(counted: bool, a: RnntPath, b: RnntPath) -> bool {
    &&& a.score == b.score
    &&& a.frame == b.frame
    &&& a.last_token == b.last_token
    &&& tensor::same_tensor(a.state_1, b.state_1)
    &&& tensor::same_tensor(a.state_2, b.state_2)
    &&& a.symbols_on_frame == b.symbols_on_frame
    &&& a.tokens == b.tokens
    &&& counted ==> a.prev_token_count == b.prev_token_count
}

/// The two beams agree path by path.
pub open spec fn beams_agree(counted: bool, a: Seq<RnntPath>, b: Seq<RnntPath>) -> bool {
    &&& a.len() == b.len()
    &&& forall|i: int| 0 <= i < a.len() ==> agree(counted, #[trigger] a[i], b[i])
}

/// The two paths, if any, agree.
pub open spec fn options_agree(counted: bool, a: Option<RnntPath>, b: Option<RnntPath>) -> bool {
    match (a, b) {
        (None, None) => true,
        (Some(p), Some(q)) => agree(counted, p, q),
        _ => false,
    }
}

/// The two decoder answers agree: both refuse with the same error, or both give
/// the same logits and the same states by shape and elements.
pub open spec fn answers_agree(a: Result<RnntStep, Error>, b: Result<RnntStep, Error>) -> bool {
    match (a, b) {
        (Ok(x), Ok(y)) => {
            &&& x.0@ == y.0@
            &&& tensor::same_tensor(x.1, y.1)
            &&& tensor::same_tensor(x.2, y.2)
        },
        (Err(e), Err(f)) => error::same_error(e, f),
        _ => false,
    }
}

proof fn lemma_agreeing_fronts(counted: bool, a: Seq<RnntPath>, b: Seq<RnntPath>)
    requires
        beams_agree(counted, a, b),
        a.len() > 0,
    ensures
        beams_agree(counted, a.drop_last(), b.drop_last()),
        agree(counted, a.last(), b.last()),
{
    assert(agree(counted, a[a.len() - 1], b[a.len() - 1]));
    assert forall|i: int| 0 <= i < a.drop_last().len() implies agree(
        counted,
        #[trigger] a.drop_last()[i],
        b.drop_last()[i],
    ) by {
        assert(agree(counted, a[i], b[i]));
    }
}

proof fn lemma_agreeing_turns(counted: bool, a: Seq<RnntPath>, b: Seq<RnntPath>)
    requires
        beams_agree(counted, a, b),
    ensures
        beams_agree(counted, b, a),
{
    assert forall|i: int| 0 <= i < b.len() implies agree(counted, #[trigger] b[i], a[i]) by {
        assert(agree(counted, a[i], b[i]));
    }
}

proof fn lemma_agreeing_ends(
    counted: bool,
    a: Seq<RnntPath>,
    b: Seq<RnntPath>,
    p: RnntPath,
    q: RnntPath,
)
    requires
        beams_agree(counted, a, b),
        agree(counted, p, q),
    ensures
        beams_agree(counted, a.push(p), b.push(q)),
{
    assert forall|i: int| 0 <= i < a.push(p).len() implies agree(
        counted,
        #[trigger] a.push(p)[i],
        b.push(q)[i],
    ) by {
        if i < a.len() {
            assert(agree(counted, a[i], b[i]));
        }
    }
}

proof fn lemma_agreeing_joins(
    counted: bool,
    a: Seq<RnntPath>,
    b: Seq<RnntPath>,
    c: Seq<RnntPath>,
    d: Seq<RnntPath>,
)
    requires
        beams_agree(counted, a, b),
        beams_agree(counted, c, d),
    ensures
        beams_agree(counted, a + c, b + d),
{
    assert forall|i: int| 0 <= i < (a + c).len() implies agree(
        counted,
        #[trigger] (a + c)[i],
        (b + d)[i],
    ) by {
        if i < a.len() {
            assert(agree(counted, a[i], b[i]));
        } else {
            assert(agree(counted, c[i - a.len()], d[i - a.len()]));
        }
    }
}

proof fn lemma_keys_agree<A: Arithmetic>(
    m: &A,
    counted: bool,
    a: Seq<RnntPath>,
    b: Seq<RnntPath>,
    penalty: Bits,
    r: Seq<Bits>,
    s: Seq<Bits>,
)
    requires
        single_valued::is_function(m),
        beams_agree(counted, a, b),
        rnnt_beam::keys_are(m, a, penalty, r),
        rnnt_beam::keys_are(m, b, penalty, s),
    ensures
        r == s,
{
    assert forall|i: int| 0 <= i < r.len() implies #[trigger] r[i] == s[i] by {
        assert(agree(counted, a[i], b[i]));
        assert(arithmetic::length_normalized_score_is(
            m,
            b[i].score,
            b[i].tokens.len(),
            penalty,
            s[i],
        ));
        single_valued::lemma_one_normalized_score(
            m,
            a[i].score,
            a[i].tokens.len(),
            penalty,
            r[i],
            s[i],
        );
    }
    assert(r =~= s);
}

proof fn lemma_pruned_agree<A: Arithmetic>(
    m: &A,
    counted: bool,
    a: Seq<RnntPath>,
    b: Seq<RnntPath>,
    config: BeamConfig,
    r: Seq<RnntPath>,
    s: Seq<RnntPath>,
)
    requires
        single_valued::is_function(m),
        beams_agree(counted, a, b),
        rnnt_beam::pruned_is(m, a, config, r),
        rnnt_beam::pruned_is(m, b, config, s),
    ensures
        beams_agree(counted, r, s),
{
    let (ka, oa) = choose|ka: Seq<Bits>, oa: Seq<usize>|
        {
            &&& #[trigger] rnnt_beam::keys_are(m, a, config.length_penalty, ka)
            &&& #[trigger] ranking::is_top(ka, config.beam_size as nat, oa)
            &&& r == ranking::pick(a, oa)
        };
    let (kb, ob) = choose|kb: Seq<Bits>, ob: Seq<usize>|
        {
            &&& #[trigger] rnnt_beam::keys_are(m, b, config.length_penalty, kb)
            &&& #[trigger] ranking::is_top(kb, config.beam_size as nat, ob)
            &&& s == ranking::pick(b, ob)
        };
    lemma_keys_agree(m, counted, a, b, config.length_penalty, ka, kb);
    ranking::law_top_is_unique(ka, config.beam_size as nat, oa, ob);
    assert forall|i: int| 0 <= i < r.len() implies agree(counted, #[trigger] r[i], s[i]) by {
        assert(agree(counted, a[oa[i] as int], b[oa[i] as int]));
    }
}

proof fn lemma_best_agree<A: Arithmetic>(
    m: &A,
    counted: bool,
    a: Seq<RnntPath>,
    b: Seq<RnntPath>,
    penalty: Bits,
    r: Option<RnntPath>,
    s: Option<RnntPath>,
)
    requires
        single_valued::is_function(m),
        beams_agree(counted, a, b),
        rnnt_beam::best_is(m, a, penalty, r),
        rnnt_beam::best_is(m, b, penalty, s),
    ensures
        options_agree(counted, r, s),
{
    if a.len() > 0 {
        let ka = choose|ka: Seq<Bits>|
            {
                &&& #[trigger] rnnt_beam::keys_are(m, a, penalty, ka)
                &&& r == Some(a[ranking::last_max(ka)])
            };
        let kb = choose|kb: Seq<Bits>|
            {
                &&& #[trigger] rnnt_beam::keys_are(m, b, penalty, kb)
                &&& s == Some(b[ranking::last_max(kb)])
            };
        lemma_keys_agree(m, counted, a, b, penalty, ka, kb);
        ranking::lemma_last_max_bounds(ka);
        assert(agree(counted, a[ranking::last_max(ka)], b[ranking::last_max(ka)]));
    }
}

proof fn lemma_places_agree(
    counted: bool,
    a: Seq<RnntPath>,
    b: Seq<RnntPath>,
    p: RnntPath,
    q: RnntPath,
    i: int,
    j: int,
)
    requires
        beams_agree(counted, a, b),
        agree(counted, p, q),
        rnnt_beam::is_place_of(a, p, i),
        rnnt_beam::is_place_of(b, q, j),
    ensures
        i == j,
{
    if i < j {
        assert(agree(counted, a[i], b[i]));
        assert(!rnnt_beam::same_key(b[i], q));
    } else if j < i {
        assert(agree(counted, a[j], b[j]));
        assert(!rnnt_beam::same_key(a[j], p));
    }
}

proof fn lemma_merged_agree<A: Arithmetic>(
    m: &A,
    counted: bool,
    a: Seq<RnntPath>,
    b: Seq<RnntPath>,
    r: Seq<RnntPath>,
    s: Seq<RnntPath>,
)
    requires
        single_valued::is_function(m),
        beams_agree(counted, a, b),
        rnnt_beam::merged_is(m, a, r),
        rnnt_beam::merged_is(m, b, s),
    ensures
        beams_agree(counted, r, s),
    decreases a.len(),
{
    if a.len() > 0 {
        let (ha, i, sa) = choose|ha: Seq<RnntPath>, i: int, sa: Bits|
            rnnt_beam::merged_is(m, a.drop_last(), ha) && #[trigger] rnnt_beam::absorbs(
                m,
                ha,
                a.last(),
                i,
                sa,
                r,
            );
        let (hb, j, sb) = choose|hb: Seq<RnntPath>, j: int, sb: Bits|
            rnnt_beam::merged_is(m, b.drop_last(), hb) && #[trigger] rnnt_beam::absorbs(
                m,
                hb,
                b.last(),
                j,
                sb,
                s,
            );
        lemma_agreeing_fronts(counted, a, b);
        lemma_merged_agree(m, counted, a.drop_last(), b.drop_last(), ha, hb);
        lemma_places_agree(counted, ha, hb, a.last(), b.last(), i, j);
        if i < ha.len() {
            assert(agree(counted, ha[i], hb[i]));
            single_valued::lemma_one_log_sum_exp(m, ha[i].score, a.last().score, sa, sb);
            assert forall|k: int| 0 <= k < r.len() implies agree(
                counted,
                #[trigger] r[k],
                s[k],
            ) by {
                assert(agree(counted, ha[k], hb[k]));
            }
        } else {
            lemma_agreeing_ends(counted, ha, hb, a.last(), b.last());
        }
    }
}

proof fn lemma_on_frame_agree(counted: bool, a: Seq<RnntPath>, b: Seq<RnntPath>, t: usize)
    requires
        beams_agree(counted, a, b),
    ensures
        beams_agree(counted, rnnt_beam::on_frame(a, t), rnnt_beam::on_frame(b, t)),
    decreases a.len(),
{
    if a.len() > 0 {
        lemma_agreeing_fronts(counted, a, b);
        lemma_on_frame_agree(counted, a.drop_last(), b.drop_last(), t);
        lemma_agreeing_ends(
            counted,
            rnnt_beam::on_frame(a.drop_last(), t),
            rnnt_beam::on_frame(b.drop_last(), t),
            a.last(),
            b.last(),
        );
    }
}

proof fn lemma_children_agree(
    counted: bool,
    p: RnntPath,
    q: RnntPath,
    x: RnntExpansion,
    y: RnntExpansion,
    n: nat,
    blank_id: usize,
    next_frame: usize,
    at: usize,
)
    requires
        agree(counted, p, q),
        x.order == y.order,
        x.scores == y.scores,
        tensor::same_tensor(x.state_1, y.state_1),
        tensor::same_tensor(x.state_2, y.state_2),
    ensures
        beams_agree(
            counted,
            rnnt_beam::blanks_of(p, x, n, blank_id, next_frame),
            rnnt_beam::blanks_of(q, y, n, blank_id, next_frame),
        ),
        beams_agree(
            counted,
            rnnt_beam::symbols_of(p, x, n, blank_id, at),
            rnnt_beam::symbols_of(q, y, n, blank_id, at),
        ),
    decreases n,
{
    if n > 0 {
        let k = (n - 1) as nat;
        lemma_children_agree(counted, p, q, x, y, k, blank_id, next_frame, at);
        let score = x.scores[n - 1];
        let token = x.order[n - 1];
        if token == blank_id {
            lemma_agreeing_ends(
                counted,
                rnnt_beam::blanks_of(p, x, k, blank_id, next_frame),
                rnnt_beam::blanks_of(q, y, k, blank_id, next_frame),
                rnnt_beam::after_blank(p, score, next_frame),
                rnnt_beam::after_blank(q, score, next_frame),
            );
        } else {
            lemma_agreeing_ends(
                counted,
                rnnt_beam::symbols_of(p, x, k, blank_id, at),
                rnnt_beam::symbols_of(q, y, k, blank_id, at),
                rnnt_beam::after_symbol(p, token, score, x.state_1, x.state_2, at),
                rnnt_beam::after_symbol(q, token, score, y.state_1, y.state_2, at),
            );
        }
    }
}

impl<'a, A: Arithmetic, D: Fn(&Tensor3, i32, &Tensor3, &Tensor3) -> Result<RnntStep, Error>>
    RnntContext<'a, A, D> {
    /// The decoder answers alike where it is handed the same token and tensors of
    /// the same shape and elements.
    pub open spec fn decoder_agrees(self) -> bool {
        forall|
            frame: &Tensor3,
            other_frame: &Tensor3,
            token: i32,
            state_1: &Tensor3,
            other_1: &Tensor3,
            state_2: &Tensor3,
            other_2: &Tensor3,
            a: Result<RnntStep, Error>,
            b: Result<RnntStep, Error>,
        |
            tensor::same_tensor(*frame, *other_frame) && tensor::same_tensor(*state_1, *other_1)
                && tensor::same_tensor(*state_2, *other_2) && #[trigger] call_ensures(
                *self.decoder,
                (frame, token, state_1, state_2),
                a,
            ) && #[trigger] call_ensures(
                *self.decoder,
                (other_frame, token, other_1, other_2),
                b,
            ) ==> answers_agree(a, b)
    }

    /// The arithmetic has one result for the same operands, and the decoder
    /// answers alike.
    pub open spec fn is_determined(self) -> bool {
        single_valued::is_function(self.arithmetic) && self.decoder_agrees()
    }

    proof fn lemma_answers_agree(
        self,
        counted: bool,
        frame: Tensor3,
        other_frame: Tensor3,
        p: RnntPath,
        q: RnntPath,
        x: RnntExpansion,
        y: RnntExpansion,
    )
        requires
            self.decoder_agrees(),
            tensor::same_tensor(frame, other_frame),
            agree(counted, p, q),
            self.answers(frame, p, x.logits, x.state_1, x.state_2),
            self.answers(other_frame, q, y.logits, y.state_1, y.state_2),
        ensures
            x.logits == y.logits,
            tensor::same_tensor(x.state_1, y.state_1),
            tensor::same_tensor(x.state_2, y.state_2),
    {
        let v = choose|v: Vec<Bits>|
            v@ == x.logits && #[trigger] call_ensures(
                *self.decoder,
                (&frame, p.last_token, &p.state_1, &p.state_2),
                Ok::<RnntStep, Error>((v, x.state_1, x.state_2)),
            );
        let u = choose|u: Vec<Bits>|
            u@ == y.logits && #[trigger] call_ensures(
                *self.decoder,
                (&other_frame, q.last_token, &q.state_1, &q.state_2),
                Ok::<RnntStep, Error>((u, y.state_1, y.state_2)),
            );
        assert(answers_agree(
            Ok::<RnntStep, Error>((v, x.state_1, x.state_2)),
            Ok::<RnntStep, Error>((u, y.state_1, y.state_2)),
        ));
    }

    proof fn lemma_expansions_agree(
        self,
        counted: bool,
        frame: Tensor3,
        other_frame: Tensor3,
        t: usize,
        at: usize,
        active: Seq<RnntPath>,
        other_active: Seq<RnntPath>,
        held: Seq<RnntPath>,
        other_held: Seq<RnntPath>,
        advanced: Seq<RnntPath>,
        other_advanced: Seq<RnntPath>,
        symbols: Seq<RnntPath>,
        other_symbols: Seq<RnntPath>,
    )
        requires
            self.is_determined(),
            tensor::same_tensor(frame, other_frame),
            beams_agree(counted, active, other_active),
            beams_agree(counted, held, other_held),
            self.all_expanded(frame, t, at, active, held, advanced, symbols),
            self.all_expanded(
                other_frame,
                t,
                at,
                other_active,
                other_held,
                other_advanced,
                other_symbols,
            ),
        ensures
            beams_agree(counted, advanced, other_advanced),
            beams_agree(counted, symbols, other_symbols),
        decreases active.len(),
    {
        if active.len() > 0 {
            let p = active.last();
            let q = other_active.last();
            let (a, s, x) = choose|a: Seq<RnntPath>, s: Seq<RnntPath>, x: RnntExpansion|
                self.all_expanded(frame, t, at, active.drop_last(), held, a, s)
                    && #[trigger] self.expands(frame, t, at, p, x, a, s, advanced, symbols);
            let (b, u, y) = choose|b: Seq<RnntPath>, u: Seq<RnntPath>, y: RnntExpansion|
                self.all_expanded(
                    other_frame,
                    t,
                    at,
                    other_active.drop_last(),
                    other_held,
                    b,
                    u,
                ) && #[trigger] self.expands(
                    other_frame,
                    t,
                    at,
                    q,
                    y,
                    b,
                    u,
                    other_advanced,
                    other_symbols,
                );
            lemma_agreeing_fronts(counted, active, other_active);
            self.lemma_expansions_agree(
                counted,
                frame,
                other_frame,
                t,
                at,
                active.drop_last(),
                other_active.drop_last(),
                held,
                other_held,
                a,
                b,
                s,
                u,
            );
            self.lemma_answers_agree(counted, frame, other_frame, p, q, x, y);
            self.lemma_scores_agree(counted, p, q, x, y);
            let n = x.order.len();
            let next_frame = (t + 1) as usize;
            lemma_children_agree(counted, p, q, x, y, n, self.blank_id, next_frame, at);
            lemma_agreeing_joins(
                counted,
                a,
                b,
                rnnt_beam::blanks_of(p, x, n, self.blank_id, next_frame),
                rnnt_beam::blanks_of(q, y, n, self.blank_id, next_frame),
            );
            lemma_agreeing_joins(
                counted,
                s,
                u,
                rnnt_beam::symbols_of(p, x, n, self.blank_id, at),
                rnnt_beam::symbols_of(q, y, n, self.blank_id, at),
            );
        }
    }

    proof fn lemma_scores_agree(
        self,
        counted: bool,
        p: RnntPath,
        q: RnntPath,
        x: RnntExpansion,
        y: RnntExpansion,
    )
        requires
            single_valued::is_function(self.arithmetic),
            agree(counted, p, q),
            x.logits == y.logits,
            self.scores_tokens(p, x),
            self.scores_tokens(q, y),
        ensures
            x.order == y.order,
            x.scores == y.scores,
    {
        let m = self.arithmetic;
        single_valued::lemma_one_log_softmax(m, x.logits, x.log_probs, y.log_probs);
        ranking::law_top_is_unique(
            x.log_probs,
            self.config.beam_size as nat,
            x.order,
            y.order,
        );
        assert forall|i: int| 0 <= i < x.scores.len() implies #[trigger] x.scores[i]
            == y.scores[i] by {
            assert(arithmetic::sum_is(
                m,
                q.score,
                y.log_probs[y.order[i] as int],
                y.scores[i],
            ));
            single_valued::lemma_one_sum(
                m,
                p.score,
                x.log_probs[x.order[i] as int],
                x.scores[i],
                y.scores[i],
            );
        }
        assert(x.scores =~= y.scores);
    }

    proof fn lemma_rounds_agree(
        self,
        counted: bool,
        frame: Tensor3,
        other_frame: Tensor3,
        t: usize,
        at: usize,
        n: nat,
        entered: Seq<RnntPath>,
        other_entered: Seq<RnntPath>,
        active: Seq<RnntPath>,
        other_active: Seq<RnntPath>,
        advanced: Seq<RnntPath>,
        other_advanced: Seq<RnntPath>,
    )
        requires
            self.is_determined(),
            tensor::same_tensor(frame, other_frame),
            beams_agree(counted, entered, other_entered),
            self.symbol_rounds(frame, t, at, n, entered, active, advanced),
            self.symbol_rounds(
                other_frame,
                t,
                at,
                n,
                other_entered,
                other_active,
                other_advanced,
            ),
        ensures
            beams_agree(counted, active, other_active),
            beams_agree(counted, advanced, other_advanced),
        decreases n,
    {
        if n > 0 {
            let k = (n - 1) as nat;
            let (a, d) = choose|a: Seq<RnntPath>, d: Seq<RnntPath>|
                self.symbol_rounds(frame, t, at, k, entered, a, d) && #[trigger] self.symbol_round(
                    frame,
                    t,
                    at,
                    a,
                    d,
                    active,
                    advanced,
                );
            let (b, e) = choose|b: Seq<RnntPath>, e: Seq<RnntPath>|
                self.symbol_rounds(other_frame, t, at, k, other_entered, b, e)
                    && #[trigger] self.symbol_round(
                    other_frame,
                    t,
                    at,
                    b,
                    e,
                    other_active,
                    other_advanced,
                );
            self.lemma_rounds_agree(
                counted,
                frame,
                other_frame,
                t,
                at,
                k,
                entered,
                other_entered,
                a,
                b,
                d,
                e,
            );
            if a.len() > 0 {
                let (s, r) = choose|s: Seq<RnntPath>, r: Seq<RnntPath>|
                    {
                        &&& self.all_expanded(frame, t, at, a, d, advanced, s)
                        &&& #[trigger] rnnt_beam::merged_is(self.arithmetic, s, r)
                        &&& rnnt_beam::pruned_is(self.arithmetic, r, self.config, active)
                    };
                let (u, v) = choose|u: Seq<RnntPath>, v: Seq<RnntPath>|
                    {
                        &&& self.all_expanded(other_frame, t, at, b, e, other_advanced, u)
                        &&& #[trigger] rnnt_beam::merged_is(self.arithmetic, u, v)
                        &&& rnnt_beam::pruned_is(self.arithmetic, v, self.config, other_active)
                    };
                self.lemma_expansions_agree(
                    counted,
                    frame,
                    other_frame,
                    t,
                    at,
                    a,
                    b,
                    d,
                    e,
                    advanced,
                    other_advanced,
                    s,
                    u,
                );
                lemma_merged_agree(self.arithmetic, counted, s, u, r, v);
                lemma_pruned_agree(
                    self.arithmetic,
                    counted,
                    r,
                    v,
                    self.config,
                    active,
                    other_active,
                );
            }
        }
    }

    proof fn lemma_forced_agree(
        self,
        counted: bool,
        frame: Tensor3,
        other_frame: Tensor3,
        t: usize,
        active: Seq<RnntPath>,
        other_active: Seq<RnntPath>,
        held: Seq<RnntPath>,
        other_held: Seq<RnntPath>,
        advanced: Seq<RnntPath>,
        other_advanced: Seq<RnntPath>,
    )
        requires
            self.is_determined(),
            tensor::same_tensor(frame, other_frame),
            beams_agree(counted, active, other_active),
            beams_agree(counted, held, other_held),
            self.all_forced(frame, t, active, held, advanced),
            self.all_forced(other_frame, t, other_active, other_held, other_advanced),
        ensures
            beams_agree(counted, advanced, other_advanced),
        decreases active.len(),
    {
        if active.len() > 0 {
            let p = active.last();
            let q = other_active.last();
            let (d, x, sx) = choose|d: Seq<RnntPath>, x: RnntExpansion, sx: Bits|
                self.all_forced(frame, t, active.drop_last(), held, d) && #[trigger] self.forces(
                    frame,
                    t,
                    p,
                    x,
                    sx,
                    d,
                    advanced,
                );
            let (e, y, sy) = choose|e: Seq<RnntPath>, y: RnntExpansion, sy: Bits|
                self.all_forced(other_frame, t, other_active.drop_last(), other_held, e)
                    && #[trigger] self.forces(other_frame, t, q, y, sy, e, other_advanced);
            lemma_agreeing_fronts(counted, active, other_active);
            self.lemma_forced_agree(
                counted,
                frame,
                other_frame,
                t,
                active.drop_last(),
                other_active.drop_last(),
                held,
                other_held,
                d,
                e,
            );
            self.lemma_answers_agree(counted, frame, other_frame, p, q, x, y);
            let m = self.arithmetic;
            single_valued::lemma_one_log_softmax(m, x.logits, x.log_probs, y.log_probs);
            single_valued::lemma_one_sum(
                m,
                p.score,
                x.log_probs[self.blank_id as int],
                sx,
                sy,
            );
            lemma_agreeing_ends(
                counted,
                d,
                e,
                rnnt_beam::after_blank(p, sx, (t + 1) as usize),
                rnnt_beam::after_blank(q, sy, (t + 1) as usize),
            );
        }
    }

    proof fn lemma_frames_agree(
        self,
        counted: bool,
        shift: int,
        start: int,
        end: int,
        beam: Seq<RnntPath>,
        other_beam: Seq<RnntPath>,
        next: Seq<RnntPath>,
        other_next: Seq<RnntPath>,
    )
        requires
            self.is_determined(),
            beams_agree(counted, beam, other_beam),
            self.frames_are(shift, start, end, beam, next),
            self.frames_are(shift, start, end, other_beam, other_next),
        ensures
            beams_agree(counted, next, other_next),
        decreases end - start,
    {
        if start < end {
            let t = (end - 1) as usize;
            let at = (end - 1 + shift) as usize;
            let mid = choose|mid: Seq<RnntPath>|
                self.frames_are(shift, start, end - 1, beam, mid) && #[trigger] self.frame_is(
                    t,
                    at,
                    mid,
                    next,
                );
            let other_mid = choose|mid: Seq<RnntPath>|
                self.frames_are(shift, start, end - 1, other_beam, mid)
                    && #[trigger] self.frame_is(t, at, mid, other_next);
            self.lemma_frames_agree(
                counted,
                shift,
                start,
                end - 1,
                beam,
                other_beam,
                mid,
                other_mid,
            );
            let w = choose|w: RnntFrameTrace| #[trigger] self.frame_traced(t, at, mid, w, next);
            let v = choose|v: RnntFrameTrace| #[trigger]
                self.frame_traced(t, at, other_mid, v, other_next);
            let m = self.arithmetic;
            lemma_on_frame_agree(counted, mid, other_mid, t);
            lemma_pruned_agree(
                m,
                counted,
                rnnt_beam::on_frame(mid, t),
                rnnt_beam::on_frame(other_mid, t),
                self.config,
                w.entered,
                v.entered,
            );
            self.lemma_rounds_agree(
                counted,
                w.frame,
                v.frame,
                t,
                at,
                self.config.max_symbols_per_step as nat,
                w.entered,
                v.entered,
                w.active,
                v.active,
                w.advanced,
                v.advanced,
            );
            self.lemma_forced_agree(
                counted,
                w.frame,
                v.frame,
                t,
                w.active,
                v.active,
                w.advanced,
                v.advanced,
                w.all,
                v.all,
            );
            lemma_merged_agree(m, counted, w.all, v.all, w.merged, v.merged);
            lemma_pruned_agree(
                m,
                counted,
                w.merged,
                v.merged,
                self.config,
                next,
                other_next,
            );
        }
    }

    proof fn lemma_entering_agrees(
        self,
        start: usize,
        carried: Seq<RnntPath>,
        other_carried: Seq<RnntPath>,
        beam: Seq<RnntPath>,
        other_beam: Seq<RnntPath>,
    )
        requires
            beams_agree(false, carried, other_carried),
            rnnt_beam::enters(carried, self.blank_id, start, beam),
            rnnt_beam::enters(other_carried, self.blank_id, start, other_beam),
        ensures
            beams_agree(true, beam, other_beam),
    {
        assert forall|i: int| 0 <= i < beam.len() implies agree(
            true,
            #[trigger] beam[i],
            other_beam[i],
        ) by {
            if carried.len() > 0 {
                assert(agree(false, carried[i], other_carried[i]));
            } else {
                assert(beam[i].tokens =~= other_beam[i].tokens);
            }
        }
    }

    /// One input has one result: two passes over the same frames that carry in
    /// agreeing hypotheses give the same new tokens, and hypotheses and a best one
    /// that agree. What a decoder is not shown, the counts of tokens emitted
    /// before, need not agree in what is carried in.
    pub proof fn law_one_input_has_one_result(
        self,
        start: usize,
        end: usize,
        offset: usize,
        carried: Seq<RnntPath>,
        other_carried: Seq<RnntPath>,
        out: RnntBeamOutput,
        other: RnntBeamOutput,
    )
        requires
            self.is_determined(),
            beams_agree(false, carried, other_carried),
            self.decodes(start, end, offset, carried, out),
            self.decodes(start, end, offset, other_carried, other),
        ensures
            out.new_tokens@ == other.new_tokens@,
            beams_agree(
                true,
                rnnt_beam::paths(out.hypotheses@),
                rnnt_beam::paths(other.hypotheses@),
            ),
            options_agree(
                true,
                rnnt_beam::optional_path(out.best_hypothesis),
                rnnt_beam::optional_path(other.best_hypothesis),
            ),
    {
        let next = rnnt_beam::paths(out.hypotheses@);
        let other_next = rnnt_beam::paths(other.hypotheses@);
        let shift = offset - start;
        let beam = choose|beam: Seq<RnntPath>|
            {
                &&& #[trigger] rnnt_beam::enters(carried, self.blank_id, start, beam)
                &&& self.frames_are(shift, start as int, end as int, beam, next)
            };
        let other_beam = choose|beam: Seq<RnntPath>|
            {
                &&& #[trigger] rnnt_beam::enters(other_carried, self.blank_id, start, beam)
                &&& self.frames_are(shift, start as int, end as int, beam, other_next)
            };
        self.lemma_entering_agrees(start, carried, other_carried, beam, other_beam);
        self.lemma_frames_agree(
            true,
            shift,
            start as int,
            end as int,
            beam,
            other_beam,
            next,
            other_next,
        );
        lemma_best_agree(
            self.arithmetic,
            true,
            next,
            other_next,
            self.config.length_penalty,
            rnnt_beam::optional_path(out.best_hypothesis),
            rnnt_beam::optional_path(other.best_hypothesis),
        );
    }

    /// A stream decoded in two chunks ends as it does in one pass: the survivors
    /// and the best hypothesis of the second chunk agree with those of a pass over
    /// all the frames, transcript and score included, but for the counts of tokens
    /// emitted before.
    pub proof fn law_chunks_end_as_one_pass(
        self,
        start: usize,
        middle: usize,
        end: usize,
        offset: usize,
        carried: Seq<RnntPath>,
        first: RnntBeamOutput,
        second: RnntBeamOutput,
        whole: RnntBeamOutput,
    )
        requires
            self.is_determined(),
            start <= middle <= end,
            offset + (end - start) <= usize::MAX,
            self.decodes(start, middle, offset, carried, first),
            first.hypotheses@.len() > 0,
            self.decodes(
                middle,
                end,
                (offset + (middle - start)) as usize,
                rnnt_beam::paths(first.hypotheses@),
                second,
            ),
            self.decodes(start, end, offset, carried, whole),
        ensures
            beams_agree(
                false,
                rnnt_beam::paths(second.hypotheses@),
                rnnt_beam::paths(whole.hypotheses@),
            ),
            options_agree(
                false,
                rnnt_beam::optional_path(second.best_hypothesis),
                rnnt_beam::optional_path(whole.best_hypothesis),
            ),
    {
        self.law_chunks_match_a_single_pass(start, middle, end, offset, carried, first, second);
        let finals = rnnt_beam::paths(second.hypotheses@);
        let (beam, next, best) = choose|
            beam: Seq<RnntPath>,
            next: Seq<RnntPath>,
            best: Option<RnntPath>,
        |
            {
                &&& #[trigger] rnnt_beam::enters(carried, self.blank_id, start, beam)
                &&& #[trigger] self.frames_are(
                    offset - start,
                    start as int,
                    end as int,
                    beam,
                    next,
                )
                &&& rnnt_chunks::beams_alike(next, finals)
                &&& #[trigger] rnnt_beam::best_is(
                    self.arithmetic,
                    next,
                    self.config.length_penalty,
                    best,
                )
                &&& match best {
                    None => second.best_hypothesis is None,
                    Some(p) => second.best_hypothesis is Some && rnnt_chunks::alike(
                        p,
                        second.best_hypothesis->0@,
                    ),
                }
            };
        let all = rnnt_beam::paths(whole.hypotheses@);
        let other = choose|other: Seq<RnntPath>|
            {
                &&& #[trigger] rnnt_beam::enters(carried, self.blank_id, start, other)
                &&& self.frames_are(offset - start, start as int, end as int, other, all)
            };
        self.lemma_entering_agrees(start, carried, carried, beam, other);
        self.lemma_frames_agree(
            true,
            offset - start,
            start as int,
            end as int,
            beam,
            other,
            next,
            all,
        );
        lemma_best_agree(
            self.arithmetic,
            true,
            next,
            all,
            self.config.length_penalty,
            best,
            rnnt_beam::optional_path(whole.best_hypothesis),
        );
        assert forall|i: int| 0 <= i < finals.len() implies agree(
            false,
            #[trigger] finals[i],
            all[i],
        ) by {
            assert(agree(true, next[i], all[i]));
            assert(rnnt_chunks::alike(next[i], finals[i]));
        }
    }

    /// A fresh stream decoded in two chunks ends as it does in one pass, wherever
    /// the beam holds a path and the decoder answers with some logits.
    pub proof fn law_fresh_chunks_end_as_one_pass(
        self,
        start: usize,
        middle: usize,
        end: usize,
        offset: usize,
        first: RnntBeamOutput,
        second: RnntBeamOutput,
        whole: RnntBeamOutput,
    )
        requires
            self.is_determined(),
            self.answers_are_not_empty(),
            self.config.beam_size > 0,
            start < middle <= end,
            offset + (end - start) <= usize::MAX,
            self.decodes(start, middle, offset, Seq::empty(), first),
            self.decodes(
                middle,
                end,
                (offset + (middle - start)) as usize,
                rnnt_beam::paths(first.hypotheses@),
                second,
            ),
            self.decodes(start, end, offset, Seq::empty(), whole),
        ensures
            beams_agree(
                false,
                rnnt_beam::paths(second.hypotheses@),
                rnnt_beam::paths(whole.hypotheses@),
            ),
            second.best_hypothesis is Some,
            whole.best_hypothesis is Some,
            second.best_hypothesis->0.tokens@ == whole.best_hypothesis->0.tokens@,
            second.best_hypothesis->0.score == whole.best_hypothesis->0.score,
    {
        let none = Seq::<RnntPath>::empty();
        self.law_survivors_are_lacking_only_without_a_root(start, middle, offset, none, first);
        self.law_survivors_are_lacking_only_without_a_root(start, end, offset, none, whole);
        self.law_chunks_end_as_one_pass(
            start,
            middle,
            end,
            offset,
            none,
            first,
            second,
            whole,
        );
    }

    /// Passes whose parameters agree on beam size, length penalty and symbols per
    /// frame have one result, whatever their patience and duration reward.
    pub proof fn law_unread_parameters_change_nothing(
        self,
        config: BeamConfig,
        start: usize,
        end: usize,
        offset: usize,
        carried: Seq<RnntPath>,
        out: RnntBeamOutput,
        other: RnntBeamOutput,
    )
        requires
            self.is_determined(),
            rnnt_parameters::agree_for_rnnt(self.config, config),
            self.decodes(start, end, offset, carried, out),
            self.with_config(config).decodes(start, end, offset, carried, other),
        ensures
            out.new_tokens@ == other.new_tokens@,
            beams_agree(
                true,
                rnnt_beam::paths(out.hypotheses@),
                rnnt_beam::paths(other.hypotheses@),
            ),
            options_agree(
                true,
                rnnt_beam::optional_path(out.best_hypothesis),
                rnnt_beam::optional_path(other.best_hypothesis),
            ),
    {
        self.law_patience_and_duration_reward_are_not_read(
            config,
            start,
            end,
            offset,
            carried,
            other,
        );
        self.law_one_input_has_one_result(start, end, offset, carried, carried, out, other);
    }

    /// Where such a pass is refused, so is the other, with one error: one does not
    /// end with an error where the other gives a result.
    pub proof fn law_unread_parameters_change_no_error(
        self,
        config: BeamConfig,
        start: usize,
        end: usize,
        offset: usize,
        carried: Seq<RnntPath>,
        e: Error,
        f: Error,
        out: RnntBeamOutput,
    )
        requires
            self.is_determined(),
            rnnt_parameters::agree_for_rnnt(self.config, config),
            self.may_refuse(start, end, offset, carried, e),
        ensures
            self.with_config(config).may_refuse(start, end, offset, carried, e),
            self.with_config(config).may_refuse(start, end, offset, carried, f)
                ==> error::same_error(e, f),
            !self.with_config(config).decodes(start, end, offset, carried, out),
    {
        self.law_refusals_do_not_read_them(config, start, end, offset, carried, e);
        self.law_refusals_do_not_read_them(config, start, end, offset, carried, f);
        self.law_patience_and_duration_reward_are_not_read(
            config,
            start,
            end,
            offset,
            carried,
            out,
        );
        assert(beams_agree(false, carried, carried));
        if self.may_refuse(start, end, offset, carried, f) {
            self.law_one_input_has_one_error(start, end, offset, carried, carried, e, f);
        }
        if self.decodes(start, end, offset, carried, out) {
            self.law_decoded_is_not_refused(start, end, offset, carried, carried, out, e);
        }
    }

    proof fn lemma_expanded_are_answered(
        self,
        frame: Tensor3,
        t: usize,
        at: usize,
        active: Seq<RnntPath>,
        held: Seq<RnntPath>,
        advanced: Seq<RnntPath>,
        symbols: Seq<RnntPath>,
    )
        requires
            self.all_expanded(frame, t, at, active, held, advanced, symbols),
        ensures
            forall|j: int| 0 <= j < active.len() ==> self.may_answer(frame, #[trigger] active[j]),
        decreases active.len(),
    {
        if active.len() > 0 {
            let p = active.last();
            let front = active.drop_last();
            let (a, s, x) = choose|a: Seq<RnntPath>, s: Seq<RnntPath>, x: RnntExpansion|
                self.all_expanded(frame, t, at, front, held, a, s) && #[trigger] self.expands(
                    frame,
                    t,
                    at,
                    p,
                    x,
                    a,
                    s,
                    advanced,
                    symbols,
                );
            self.lemma_expanded_are_answered(frame, t, at, front, held, a, s);
            assert(self.may_answer(frame, p));
            assert forall|j: int| 0 <= j < active.len() implies self.may_answer(
                frame,
                #[trigger] active[j],
            ) by {
                if j < front.len() {
                    assert(front[j] == active[j]);
                }
            }
        }
    }

    proof fn lemma_forced_are_answered(
        self,
        frame: Tensor3,
        t: usize,
        active: Seq<RnntPath>,
        held: Seq<RnntPath>,
        advanced: Seq<RnntPath>,
    )
        requires
            self.all_forced(frame, t, active, held, advanced),
        ensures
            forall|j: int| 0 <= j < active.len() ==> self.may_answer(frame, #[trigger] active[j]),
        decreases active.len(),
    {
        if active.len() > 0 {
            let p = active.last();
            let front = active.drop_last();
            let (d, x, score) = choose|d: Seq<RnntPath>, x: RnntExpansion, score: Bits|
                self.all_forced(frame, t, front, held, d) && #[trigger] self.forces(
                    frame,
                    t,
                    p,
                    x,
                    score,
                    d,
                    advanced,
                );
            self.lemma_forced_are_answered(frame, t, front, held, d);
            assert(self.may_answer(frame, p));
            assert forall|j: int| 0 <= j < active.len() implies self.may_answer(
                frame,
                #[trigger] active[j],
            ) by {
                if j < front.len() {
                    assert(front[j] == active[j]);
                }
            }
        }
    }

    /// What `n` rounds of symbols had after `k` of them, and what the next one made
    /// of it.
    proof fn lemma_rounds_go_through(
        self,
        frame: Tensor3,
        t: usize,
        at: usize,
        k: nat,
        n: nat,
        entered: Seq<RnntPath>,
        active: Seq<RnntPath>,
        advanced: Seq<RnntPath>,
    ) -> (r: (Seq<RnntPath>, Seq<RnntPath>, Seq<RnntPath>, Seq<RnntPath>))
        requires
            self.symbol_rounds(frame, t, at, n, entered, active, advanced),
            k < n,
        ensures
            self.symbol_rounds(frame, t, at, k, entered, r.0, r.1),
            self.symbol_round(frame, t, at, r.0, r.1, r.2, r.3),
        decreases n,
    {
        let (a, d) = choose|a: Seq<RnntPath>, d: Seq<RnntPath>|
            self.symbol_rounds(frame, t, at, (n - 1) as nat, entered, a, d)
                && #[trigger] self.symbol_round(frame, t, at, a, d, active, advanced);
        if k == n - 1 {
            (a, d, active, advanced)
        } else {
            self.lemma_rounds_go_through(frame, t, at, k, (n - 1) as nat, entered, a, d)
        }
    }

    /// What a range of frames had reached before frame `t`, and what the frame made
    /// of it.
    proof fn lemma_frames_go_through(
        self,
        shift: int,
        start: int,
        t: int,
        end: int,
        beam: Seq<RnntPath>,
        next: Seq<RnntPath>,
    ) -> (r: (Seq<RnntPath>, Seq<RnntPath>))
        requires
            self.frames_are(shift, start, end, beam, next),
            start <= t < end,
        ensures
            self.frames_are(shift, start, t, beam, r.0),
            self.frame_is(t as usize, (t + shift) as usize, r.0, r.1),
        decreases end - start,
    {
        let mid = choose|mid: Seq<RnntPath>|
            self.frames_are(shift, start, end - 1, beam, mid) && #[trigger] self.frame_is(
                (end - 1) as usize,
                (end - 1 + shift) as usize,
                mid,
                next,
            );
        if t == end - 1 {
            (mid, next)
        } else {
            self.lemma_frames_go_through(shift, start, t, end - 1, beam, mid)
        }
    }

    proof fn lemma_answered_are_not_refused(
        self,
        counted: bool,
        frame: Tensor3,
        other_frame: Tensor3,
        active: Seq<RnntPath>,
        other_active: Seq<RnntPath>,
        e: Error,
    )
        requires
            self.decoder_agrees(),
            tensor::same_tensor(frame, other_frame),
            beams_agree(counted, active, other_active),
            forall|j: int| 0 <= j < active.len() ==> self.may_answer(frame, #[trigger] active[j]),
        ensures
            !self.refuses_one_of(other_frame, other_active, e),
    {
        if self.refuses_one_of(other_frame, other_active, e) {
            let i = choose|i: int|
                {
                    &&& 0 <= i < other_active.len()
                    &&& forall|j: int|
                        0 <= j < i ==> self.may_answer(other_frame, #[trigger] other_active[j])
                    &&& #[trigger] call_ensures(
                        *self.decoder,
                        (
                            &other_frame,
                            other_active[i].last_token,
                            &other_active[i].state_1,
                            &other_active[i].state_2,
                        ),
                        Err::<RnntStep, Error>(e),
                    )
                };
            self.lemma_no_answer_and_refusal(
                counted,
                frame,
                other_frame,
                active[i],
                other_active[i],
                e,
            );
        }
    }

    proof fn lemma_no_answer_and_refusal(
        self,
        counted: bool,
        frame: Tensor3,
        other_frame: Tensor3,
        p: RnntPath,
        q: RnntPath,
        e: Error,
    )
        requires
            self.decoder_agrees(),
            tensor::same_tensor(frame, other_frame),
            agree(counted, p, q),
            self.may_answer(frame, p),
        ensures
            !call_ensures(
                *self.decoder,
                (&other_frame, q.last_token, &q.state_1, &q.state_2),
                Err::<RnntStep, Error>(e),
            ),
    {
        let step = choose|step: RnntStep| #[trigger]
            call_ensures(
                *self.decoder,
                (&frame, p.last_token, &p.state_1, &p.state_2),
                Ok::<RnntStep, Error>(step),
            );
        assert(!answers_agree(Ok::<RnntStep, Error>(step), Err::<RnntStep, Error>(e)));
    }

    /// A round that went on is not refused.
    proof fn lemma_round_is_not_refused(
        self,
        counted: bool,
        frame: Tensor3,
        other_frame: Tensor3,
        t: usize,
        at: usize,
        active: Seq<RnntPath>,
        other_active: Seq<RnntPath>,
        held: Seq<RnntPath>,
        next_active: Seq<RnntPath>,
        advanced: Seq<RnntPath>,
        e: Error,
    )
        requires
            self.decoder_agrees(),
            tensor::same_tensor(frame, other_frame),
            beams_agree(counted, active, other_active),
            self.symbol_round(frame, t, at, active, held, next_active, advanced),
        ensures
            !self.refuses_one_of(other_frame, other_active, e),
    {
        if active.len() > 0 {
            let (s, r) = choose|s: Seq<RnntPath>, r: Seq<RnntPath>|
                {
                    &&& self.all_expanded(frame, t, at, active, held, advanced, s)
                    &&& #[trigger] rnnt_beam::merged_is(self.arithmetic, s, r)
                    &&& rnnt_beam::pruned_is(self.arithmetic, r, self.config, next_active)
                };
            self.lemma_expanded_are_answered(frame, t, at, active, held, advanced, s);
        }
        self.lemma_answered_are_not_refused(
            counted,
            frame,
            other_frame,
            active,
            other_active,
            e,
        );
    }

    /// A frame that was decoded is not refused.
    proof fn lemma_frame_is_not_refused(
        self,
        counted: bool,
        t: usize,
        at: usize,
        beam: Seq<RnntPath>,
        other_beam: Seq<RnntPath>,
        next: Seq<RnntPath>,
        w: RnntFrameTrace,
        n: nat,
        e: Error,
    )
        requires
            self.is_determined(),
            beams_agree(counted, beam, other_beam),
            self.frame_is(t, at, beam, next),
        ensures
            !self.frame_refuses(t, at, other_beam, w, n, e),
    {
        if self.frame_refuses(t, at, other_beam, w, n, e) {
            self.lemma_decoded_frame_is_answered(counted, t, at, beam, other_beam, next, w, n, e);
        }
    }

    proof fn lemma_decoded_frame_is_answered(
        self,
        counted: bool,
        t: usize,
        at: usize,
        beam: Seq<RnntPath>,
        other_beam: Seq<RnntPath>,
        next: Seq<RnntPath>,
        w: RnntFrameTrace,
        n: nat,
        e: Error,
    )
        requires
            self.is_determined(),
            beams_agree(counted, beam, other_beam),
            self.frame_is(t, at, beam, next),
            n <= self.config.max_symbols_per_step,
            tensor::is_frame(*self.encoder_out, t as int, w.frame),
            rnnt_beam::pruned_is(
                self.arithmetic,
                rnnt_beam::on_frame(other_beam, t),
                self.config,
                w.entered,
            ),
            self.symbol_rounds(w.frame, t, at, n, w.entered, w.active, w.advanced),
        ensures
            !self.refuses_one_of(w.frame, w.active, e),
    {
        let max = self.config.max_symbols_per_step as nat;
        let v = choose|v: RnntFrameTrace| #[trigger] self.frame_traced(t, at, beam, v, next);
        lemma_on_frame_agree(counted, beam, other_beam, t);
        lemma_pruned_agree(
            self.arithmetic,
            counted,
            rnnt_beam::on_frame(beam, t),
            rnnt_beam::on_frame(other_beam, t),
            self.config,
            v.entered,
            w.entered,
        );
        if n < max {
            let (a, d, b, c) = self.lemma_rounds_go_through(
                v.frame,
                t,
                at,
                n,
                max,
                v.entered,
                v.active,
                v.advanced,
            );
            self.lemma_rounds_agree(
                counted,
                v.frame,
                w.frame,
                t,
                at,
                n,
                v.entered,
                w.entered,
                a,
                w.active,
                d,
                w.advanced,
            );
            self.lemma_round_is_not_refused(
                counted,
                v.frame,
                w.frame,
                t,
                at,
                a,
                w.active,
                d,
                b,
                c,
                e,
            );
        } else {
            self.lemma_rounds_agree(
                counted,
                v.frame,
                w.frame,
                t,
                at,
                n,
                v.entered,
                w.entered,
                v.active,
                w.active,
                v.advanced,
                w.advanced,
            );
            self.lemma_forced_are_answered(v.frame, t, v.active, v.advanced, v.all);
            self.lemma_answered_are_not_refused(
                counted,
                v.frame,
                w.frame,
                v.active,
                w.active,
                e,
            );
        }
    }

    /// A pass that gives a result does not end with an error.
    pub proof fn law_decoded_is_not_refused(
        self,
        start: usize,
        end: usize,
        offset: usize,
        carried: Seq<RnntPath>,
        other_carried: Seq<RnntPath>,
        out: RnntBeamOutput,
        e: Error,
    )
        requires
            self.is_determined(),
            beams_agree(false, carried, other_carried),
            self.decodes(start, end, offset, carried, out),
        ensures
            !self.may_refuse(start, end, offset, other_carried, e),
    {
        if self.may_refuse(start, end, offset, other_carried, e) {
            let shift = offset - start;
            let next = rnnt_beam::paths(out.hypotheses@);
            let beam = choose|beam: Seq<RnntPath>|
                {
                    &&& #[trigger] rnnt_beam::enters(carried, self.blank_id, start, beam)
                    &&& self.frames_are(shift, start as int, end as int, beam, next)
                };
            let (t, entered, reached) = choose|
                t: usize,
                entered: Seq<RnntPath>,
                reached: Seq<RnntPath>,
            |
                {
                    &&& start <= t < end
                    &&& rnnt_beam::enters(other_carried, self.blank_id, start, entered)
                    &&& #[trigger] self.refuses_at(start, offset, t, entered, reached, e)
                };
            let (w, n) = choose|w: RnntFrameTrace, n: nat| #[trigger]
                self.frame_refuses(t, (t + shift) as usize, reached, w, n, e);
            let (mid, after) = self.lemma_frames_go_through(
                shift,
                start as int,
                t as int,
                end as int,
                beam,
                next,
            );
            self.lemma_entering_agrees(start, carried, other_carried, beam, entered);
            self.lemma_frames_agree(
                true,
                shift,
                start as int,
                t as int,
                beam,
                entered,
                mid,
                reached,
            );
            self.lemma_frame_is_not_refused(
                true,
                t,
                (t + shift) as usize,
                mid,
                reached,
                after,
                w,
                n,
                e,
            );
        }
    }

    /// A pass that ends with an error ends with one error.
    pub proof fn law_one_input_has_one_error(
        self,
        start: usize,
        end: usize,
        offset: usize,
        carried: Seq<RnntPath>,
        other_carried: Seq<RnntPath>,
        e: Error,
        f: Error,
    )
        requires
            self.is_determined(),
            beams_agree(false, carried, other_carried),
            self.may_refuse(start, end, offset, carried, e),
            self.may_refuse(start, end, offset, other_carried, f),
        ensures
            error::same_error(e, f),
    {
        let shift = offset - start;
        let (t, a, r) = choose|t: usize, a: Seq<RnntPath>, r: Seq<RnntPath>|
            {
                &&& start <= t < end
                &&& rnnt_beam::enters(carried, self.blank_id, start, a)
                &&& #[trigger] self.refuses_at(start, offset, t, a, r, e)
            };
        let (u, b, s) = choose|u: usize, b: Seq<RnntPath>, s: Seq<RnntPath>|
            {
                &&& start <= u < end
                &&& rnnt_beam::enters(other_carried, self.blank_id, start, b)
                &&& #[trigger] self.refuses_at(start, offset, u, b, s, f)
            };
        let (w, n) = choose|w: RnntFrameTrace, n: nat| #[trigger]
            self.frame_refuses(t, (t + shift) as usize, r, w, n, e);
        let (v, k) = choose|v: RnntFrameTrace, k: nat| #[trigger]
            self.frame_refuses(u, (u + shift) as usize, s, v, k, f);
        self.lemma_entering_agrees(start, carried, other_carried, a, b);
        if t < u {
            let (mid, after) = self.lemma_frames_go_through(
                shift,
                start as int,
                t as int,
                u as int,
                b,
                s,
            );
            self.lemma_frames_agree(true, shift, start as int, t as int, a, b, r, mid);
            lemma_agreeing_turns(true, r, mid);
            self.lemma_frame_is_not_refused(
                true,
                t,
                (t + shift) as usize,
                mid,
                r,
                after,
                w,
                n,
                e,
            );
        } else if u < t {
            let (mid, after) = self.lemma_frames_go_through(
                shift,
                start as int,
                u as int,
                t as int,
                a,
                r,
            );
            self.lemma_frames_agree(true, shift, start as int, u as int, a, b, mid, s);
            self.lemma_frame_is_not_refused(
                true,
                u,
                (u + shift) as usize,
                mid,
                s,
                after,
                v,
                k,
                f,
            );
        } else {
            self.lemma_frames_agree(true, shift, start as int, t as int, a, b, r, s);
            self.lemma_one_frame_has_one_error(
                t,
                (t + shift) as usize,
                r,
                s,
                w,
                v,
                n,
                k,
                e,
                f,
            );
        }
    }

    proof fn lemma_one_frame_has_one_error(
        self,
        t: usize,
        at: usize,
        beam: Seq<RnntPath>,
        other_beam: Seq<RnntPath>,
        w: RnntFrameTrace,
        v: RnntFrameTrace,
        n: nat,
        k: nat,
        e: Error,
        f: Error,
    )
        requires
            self.is_determined(),
            beams_agree(true, beam, other_beam),
            self.frame_refuses(t, at, beam, w, n, e),
            self.frame_refuses(t, at, other_beam, v, k, f),
        ensures
            error::same_error(e, f),
    {
        lemma_on_frame_agree(true, beam, other_beam, t);
        lemma_pruned_agree(
            self.arithmetic,
            true,
            rnnt_beam::on_frame(beam, t),
            rnnt_beam::on_frame(other_beam, t),
            self.config,
            w.entered,
            v.entered,
        );
        if n < k {
            let (a, d, b, c) = self.lemma_rounds_go_through(
                v.frame,
                t,
                at,
                n,
                k,
                v.entered,
                v.active,
                v.advanced,
            );
            self.lemma_rounds_agree(
                true,
                w.frame,
                v.frame,
                t,
                at,
                n,
                w.entered,
                v.entered,
                w.active,
                a,
                w.advanced,
                d,
            );
            lemma_agreeing_turns(true, w.active, a);
            self.lemma_round_is_not_refused(
                true,
                v.frame,
                w.frame,
                t,
                at,
                a,
                w.active,
                d,
                b,
                c,
                e,
            );
        } else if k < n {
            let (a, d, b, c) = self.lemma_rounds_go_through(
                w.frame,
                t,
                at,
                k,
                n,
                w.entered,
                w.active,
                w.advanced,
            );
            self.lemma_rounds_agree(
                true,
                w.frame,
                v.frame,
                t,
                at,
                k,
                w.entered,
                v.entered,
                a,
                v.active,
                d,
                v.advanced,
            );
            self.lemma_round_is_not_refused(
                true,
                w.frame,
                v.frame,
                t,
                at,
                a,
                v.active,
                d,
                b,
                c,
                f,
            );
        } else {
            self.lemma_rounds_agree(
                true,
                w.frame,
                v.frame,
                t,
                at,
                n,
                w.entered,
                v.entered,
                w.active,
                v.active,
                w.advanced,
                v.advanced,
            );
            lemma_agreeing_turns(true, w.active, v.active);
            let i = choose|i: int|
                {
                    &&& 0 <= i < w.active.len()
                    &&& forall|j: int|
                        0 <= j < i ==> self.may_answer(w.frame, #[trigger] w.active[j])
                    &&& #[trigger] call_ensures(
                        *self.decoder,
                        (
                            &w.frame,
                            w.active[i].last_token,
                            &w.active[i].state_1,
                            &w.active[i].state_2,
                        ),
                        Err::<RnntStep, Error>(e),
                    )
                };
            let j = choose|j: int|
                {
                    &&& 0 <= j < v.active.len()
                    &&& forall|i: int|
                        0 <= i < j ==> self.may_answer(v.frame, #[trigger] v.active[i])
                    &&& #[trigger] call_ensures(
                        *self.decoder,
                        (
                            &v.frame,
                            v.active[j].last_token,
                            &v.active[j].state_1,
                            &v.active[j].state_2,
                        ),
                        Err::<RnntStep, Error>(f),
                    )
                };
            if i < j {
                assert(agree(true, v.active[i], w.active[i]));
                self.lemma_no_answer_and_refusal(
                    true,
                    v.frame,
                    w.frame,
                    v.active[i],
                    w.active[i],
                    e,
                );
            } else if j < i {
                assert(agree(true, w.active[j], v.active[j]));
                self.lemma_no_answer_and_refusal(
                    true,
                    w.frame,
                    v.frame,
                    w.active[j],
                    v.active[j],
                    f,
                );
            } else {
                assert(agree(true, w.active[i], v.active[i]));
                assert(answers_agree(
                    Err::<RnntStep, Error>(e),
                    Err::<RnntStep, Error>(f),
                ));
            }
        }
    }
}

} // verus!
