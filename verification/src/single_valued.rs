//! Arithmetic in which every operation has one result, and what then has one
//! result too.
use vstd::prelude::*;
use crate::arithmetic;
use crate::arithmetic::Arithmetic;
use crate::single;
use crate::single::{Bits, NEG_INFINITY};

verus! {

/// Every operation of `m` has one result for the same operands.
#[verifier::opaque]
pub open spec fn is_function<A: Arithmetic>(m: &A) -> bool {
    &&& forall|a: Bits, b: Bits, r: Bits, s: Bits| #[trigger]
        arithmetic::sum_is(m, a, b, r) && #[trigger] arithmetic::sum_is(m, a, b, s) ==> r == s
    &&& forall|a: Bits, b: Bits, r: Bits, s: Bits| #[trigger]
        arithmetic::difference_is(m, a, b, r) && #[trigger] arithmetic::difference_is(m, a, b, s)
            ==> r == s
    &&& forall|a: Bits, b: Bits, r: Bits, s: Bits| #[trigger]
        arithmetic::product_is(m, a, b, r) && #[trigger] arithmetic::product_is(m, a, b, s) ==> r
            == s
    &&& forall|a: Bits, b: Bits, r: Bits, s: Bits| #[trigger]
        arithmetic::quotient_is(m, a, b, r) && #[trigger] arithmetic::quotient_is(m, a, b, s)
            ==> r == s
    &&& forall|a: Bits, r: Bits, s: Bits| #[trigger]
        arithmetic::exp_is(m, a, r) && #[trigger] arithmetic::exp_is(m, a, s) ==> r == s
    &&& forall|a: Bits, r: Bits, s: Bits| #[trigger]
        arithmetic::ln_is(m, a, r) && #[trigger] arithmetic::ln_is(m, a, s) ==> r == s
    &&& forall|a: Bits, b: Bits, r: Bits, s: Bits| #[trigger]
        arithmetic::power_is(m, a, b, r) && #[trigger] arithmetic::power_is(m, a, b, s) ==> r == s
    &&& forall|n: usize, r: Bits, s: Bits| #[trigger]
        arithmetic::from_count_is(m, n, r) && #[trigger] arithmetic::from_count_is(m, n, s) ==> r
            == s
    &&& forall|a: Bits, r: usize, s: usize| #[trigger]
        arithmetic::round_to_count_is(m, a, r) && #[trigger] arithmetic::round_to_count_is(m, a, s)
            ==> r == s
}

/// A sum has one result.
pub proof fn lemma_one_sum<A: Arithmetic>(m: &A, a: Bits, b: Bits, r: Bits, s: Bits)
    requires
        is_function(m),
        arithmetic::sum_is(m, a, b, r),
        arithmetic::sum_is(m, a, b, s),
    ensures
        r == s,
{
    reveal(is_function);
}

proof fn lemma_one_shifted_exp<A: Arithmetic>(m: &A, x: Bits, shift: Bits, r: Bits, s: Bits)
    requires
        is_function(m),
        arithmetic::shifted_exp_is(m, x, shift, r),
        arithmetic::shifted_exp_is(m, x, shift, s),
    ensures
        r == s,
{
    reveal(is_function);
}

proof fn lemma_one_total<A: Arithmetic>(m: &A, values: Seq<Bits>, r: Bits, s: Bits)
    requires
        is_function(m),
        arithmetic::total_is(m, values, r),
        arithmetic::total_is(m, values, s),
    ensures
        r == s,
    decreases values.len(),
{
    if values.len() > 0 {
        let t = choose|t: Bits|
            arithmetic::total_is(m, values.drop_last(), t) && #[trigger] arithmetic::sum_is(
                m,
                t,
                values.last(),
                r,
            );
        let u = choose|u: Bits|
            arithmetic::total_is(m, values.drop_last(), u) && #[trigger] arithmetic::sum_is(
                m,
                u,
                values.last(),
                s,
            );
        lemma_one_total(m, values.drop_last(), t, u);
        lemma_one_sum(m, t, values.last(), r, s);
    }
}

proof fn lemma_one_log_total<A: Arithmetic>(m: &A, logits: Seq<Bits>, r: Bits, s: Bits)
    requires
        is_function(m),
        arithmetic::log_total_is(m, logits, r),
        arithmetic::log_total_is(m, logits, s),
    ensures
        r == s,
{
    let max = arithmetic::greatest(logits);
    let (e, t, l) = choose|e: Seq<Bits>, t: Bits, l: Bits|
        {
            &&& #[trigger] arithmetic::shifted_exps_are(m, logits, max, e)
            &&& #[trigger] arithmetic::total_is(m, e, t)
            &&& #[trigger] arithmetic::ln_is(m, t, l)
            &&& arithmetic::sum_is(m, l, max, r)
        };
    let (f, u, k) = choose|f: Seq<Bits>, u: Bits, k: Bits|
        {
            &&& #[trigger] arithmetic::shifted_exps_are(m, logits, max, f)
            &&& #[trigger] arithmetic::total_is(m, f, u)
            &&& #[trigger] arithmetic::ln_is(m, u, k)
            &&& arithmetic::sum_is(m, k, max, s)
        };
    assert forall|i: int| 0 <= i < e.len() implies #[trigger] e[i] == f[i] by {
        lemma_one_shifted_exp(m, logits[i], max, e[i], f[i]);
    }
    assert(e =~= f);
    lemma_one_total(m, e, t, u);
    assert(l == k) by {
        reveal(is_function);
    }
    lemma_one_sum(m, l, max, r, s);
}

/// Logits have one row of log-probabilities.
pub proof fn lemma_one_log_softmax<A: Arithmetic>(
    m: &A,
    logits: Seq<Bits>,
    r: Seq<Bits>,
    s: Seq<Bits>,
)
    requires
        is_function(m),
        arithmetic::log_softmax_is(m, logits, r),
        arithmetic::log_softmax_is(m, logits, s),
    ensures
        r == s,
{
    let t = choose|t: Bits|
        {
            &&& #[trigger] arithmetic::log_total_is(m, logits, t)
            &&& forall|i: int|
                0 <= i < logits.len() ==> arithmetic::difference_is(m, logits[i], t, #[trigger] r[i])
        };
    let u = choose|u: Bits|
        {
            &&& #[trigger] arithmetic::log_total_is(m, logits, u)
            &&& forall|i: int|
                0 <= i < logits.len() ==> arithmetic::difference_is(m, logits[i], u, #[trigger] s[i])
        };
    lemma_one_log_total(m, logits, t, u);
    assert forall|i: int| 0 <= i < r.len() implies #[trigger] r[i] == s[i] by {
        reveal(is_function);
        assert(arithmetic::difference_is(m, logits[i], t, s[i]));
    }
    assert(r =~= s);
}

/// Two log-probabilities add up to one result.
pub proof fn lemma_one_log_sum_exp<A: Arithmetic>(m: &A, a: Bits, b: Bits, r: Bits, s: Bits)
    requires
        is_function(m),
        arithmetic::log_sum_exp_is(m, a, b, r),
        arithmetic::log_sum_exp_is(m, a, b, s),
    ensures
        r == s,
{
    if a != NEG_INFINITY && b != NEG_INFINITY {
        let max = single::larger(a, b);
        let (ea, eb, t, l) = choose|ea: Bits, eb: Bits, t: Bits, l: Bits|
            {
                &&& #[trigger] arithmetic::shifted_exp_is(m, a, max, ea)
                &&& #[trigger] arithmetic::shifted_exp_is(m, b, max, eb)
                &&& #[trigger] arithmetic::sum_is(m, ea, eb, t)
                &&& #[trigger] arithmetic::ln_is(m, t, l)
                &&& arithmetic::sum_is(m, max, l, r)
            };
        let (fa, fb, u, k) = choose|fa: Bits, fb: Bits, u: Bits, k: Bits|
            {
                &&& #[trigger] arithmetic::shifted_exp_is(m, a, max, fa)
                &&& #[trigger] arithmetic::shifted_exp_is(m, b, max, fb)
                &&& #[trigger] arithmetic::sum_is(m, fa, fb, u)
                &&& #[trigger] arithmetic::ln_is(m, u, k)
                &&& arithmetic::sum_is(m, max, k, s)
            };
        lemma_one_shifted_exp(m, a, max, ea, fa);
        lemma_one_shifted_exp(m, b, max, eb, fb);
        lemma_one_sum(m, ea, eb, t, u);
        assert(l == k) by {
            reveal(is_function);
        }
        lemma_one_sum(m, max, l, r, s);
    }
}

/// A score has one length-normalized score.
pub proof fn lemma_one_normalized_score<A: Arithmetic>(
    m: &A,
    score: Bits,
    length: nat,
    penalty: Bits,
    r: Bits,
    s: Bits,
)
    requires
        is_function(m),
        arithmetic::length_normalized_score_is(m, score, length, penalty, r),
        arithmetic::length_normalized_score_is(m, score, length, penalty, s),
    ensures
        r == s,
{
    reveal(is_function);
}

/// A token and a duration have one weighted score.
pub proof fn lemma_one_weighted_score<A: Arithmetic>(
    m: &A,
    token: Bits,
    duration: Bits,
    weight: Bits,
    r: Bits,
    s: Bits,
)
    requires
        is_function(m),
        arithmetic::weighted_score_is(m, token, duration, weight, r),
        arithmetic::weighted_score_is(m, token, duration, weight, s),
    ensures
        r == s,
{
    reveal(is_function);
}

/// A count has one multiple by a factor.
pub proof fn lemma_one_scaled_count<A: Arithmetic>(
    m: &A,
    count: usize,
    factor: Bits,
    r: usize,
    s: usize,
)
    requires
        is_function(m),
        arithmetic::scaled_count_is(m, count, factor, r),
        arithmetic::scaled_count_is(m, count, factor, s),
    ensures
        r == s,
{
    reveal(is_function);
}

} // verus!
