//! Score arithmetic in the log domain, over arithmetic that the caller hands in.
//!
//! The elementary operations on singles belong to the machine and the
//! mathematics library; [`Arithmetic`] names them and promises nothing of what
//! they return. Each function here has a relation of the same name with `_is`
//! behind it, which says which elementary operations lead from the arguments to
//! the result.
use vstd::prelude::*;
use crate::single;
use crate::single::{larger_of, Bits, NEG_INFINITY, ONE, ZERO};

verus! {

/// The elementary operations on single-precision numbers.
pub trait Arithmetic {
    /// `a + b`.
    fn sum(&self, a: Bits, b: Bits) -> Bits;

    /// `a - b`.
    fn difference(&self, a: Bits, b: Bits) -> Bits;

    /// `a * b`.
    fn product(&self, a: Bits, b: Bits) -> Bits;

    /// `a / b`.
    fn quotient(&self, a: Bits, b: Bits) -> Bits;

    /// The exponential of `a`.
    fn exp(&self, a: Bits) -> Bits;

    /// The natural logarithm of `a`.
    fn ln(&self, a: Bits) -> Bits;

    /// `base` raised to `exponent`.
    fn power(&self, base: Bits, exponent: Bits) -> Bits;

    /// The single nearest to the count `n`.
    fn from_count(&self, n: usize) -> Bits;

    /// The count nearest to `a`.
    fn round_to_count(&self, a: Bits) -> usize;

    /// The single nearest to the number that the decimal digits write.
    fn from_digits(&self, digits: &Vec<char>) -> Bits;
}

/// `r` is what `a + b` may come to.
pub open spec fn sum_is<A: Arithmetic>(m: &A, a: Bits, b: Bits, r: Bits) -> bool {
    call_ensures(A::sum, (m, a, b), r)
}

/// `r` is what `a - b` may come to.
pub open spec fn difference_is<A: Arithmetic>(m: &A, a: Bits, b: Bits, r: Bits) -> bool {
    call_ensures(A::difference, (m, a, b), r)
}

/// `r` is what `a * b` may come to.
pub open spec fn product_is<A: Arithmetic>(m: &A, a: Bits, b: Bits, r: Bits) -> bool {
    call_ensures(A::product, (m, a, b), r)
}

/// `r` is what `a / b` may come to.
pub open spec fn quotient_is<A: Arithmetic>(m: &A, a: Bits, b: Bits, r: Bits) -> bool {
    call_ensures(A::quotient, (m, a, b), r)
}

/// `r` is what the exponential of `a` may come to.
pub open spec fn exp_is<A: Arithmetic>(m: &A, a: Bits, r: Bits) -> bool {
    call_ensures(A::exp, (m, a), r)
}

/// `r` is what the natural logarithm of `a` may come to.
pub open spec fn ln_is<A: Arithmetic>(m: &A, a: Bits, r: Bits) -> bool {
    call_ensures(A::ln, (m, a), r)
}

/// `r` is what `base` raised to `exponent` may come to.
pub open spec fn power_is<A: Arithmetic>(m: &A, base: Bits, exponent: Bits, r: Bits) -> bool {
    call_ensures(A::power, (m, base, exponent), r)
}

/// `r` is what the single nearest to `n` may come to.
pub open spec fn from_count_is<A: Arithmetic>(m: &A, n: usize, r: Bits) -> bool {
    call_ensures(A::from_count, (m, n), r)
}

/// `r` is what the count nearest to `a` may come to.
pub open spec fn round_to_count_is<A: Arithmetic>(m: &A, a: Bits, r: usize) -> bool {
    call_ensures(A::round_to_count, (m, a), r)
}

/// `r` is what the single nearest to the number that `digits` write may come to.
pub open spec fn from_digits_is<A: Arithmetic>(m: &A, digits: Seq<char>, r: Bits) -> bool {
    exists|v: Vec<char>| v@ == digits && #[trigger] call_ensures(A::from_digits, (m, &v), r)
}

/// `r` is what the share of `part` in `whole` may come to.
pub open spec fn ratio_is<A: Arithmetic>(m: &A, part: usize, whole: usize, r: Bits) -> bool {
    exists|a: Bits, b: Bits|
        {
            &&& #[trigger] from_count_is(m, part, a)
            &&& #[trigger] from_count_is(m, whole, b)
            &&& quotient_is(m, a, b, r)
        }
}

/// The greatest of `values`, negative infinity where there is none.
pub open spec fn greatest(values: Seq<Bits>) -> Bits
    decreases values.len(),
{
    if values.len() == 0 {
        NEG_INFINITY
    } else {
        single::larger(greatest(values.drop_last()), values.last())
    }
}

/// `r` is what the exponential of `x - shift` may come to.
pub open spec fn shifted_exp_is<A: Arithmetic>(m: &A, x: Bits, shift: Bits, r: Bits) -> bool {
    exists|d: Bits| #[trigger] difference_is(m, x, shift, d) && exp_is(m, d, r)
}

/// `r` is what adding up `values` from left to right may come to.
pub open spec fn total_is<A: Arithmetic>(m: &A, values: Seq<Bits>, r: Bits) -> bool
    decreases values.len(),
{
    if values.len() == 0 {
        r == ZERO
    } else {
        exists|t: Bits|
            total_is(m, values.drop_last(), t) && #[trigger] sum_is(m, t, values.last(), r)
    }
}

/// `exps` holds what the exponentials of `values`, each less `shift`, may come to.
pub open spec fn shifted_exps_are<A: Arithmetic>(
    m: &A,
    values: Seq<Bits>,
    shift: Bits,
    exps: Seq<Bits>,
) -> bool {
    &&& exps.len() == values.len()
    &&& forall|i: int|
        0 <= i < values.len() ==> shifted_exp_is(m, values[i], shift, #[trigger] exps[i])
}

/// `r` is what the logarithm of the summed exponentials of `logits` may come
/// to, computed after taking the greatest logit out of each.
pub open spec fn log_total_is<A: Arithmetic>(m: &A, logits: Seq<Bits>, r: Bits) -> bool {
    exists|exps: Seq<Bits>, total: Bits, log: Bits|
        {
            &&& #[trigger] shifted_exps_are(m, logits, greatest(logits), exps)
            &&& #[trigger] total_is(m, exps, total)
            &&& #[trigger] ln_is(m, total, log)
            &&& sum_is(m, log, greatest(logits), r)
        }
}

/// `r` holds what the log-probabilities that belong to `logits` may come to.
pub open spec fn log_softmax_is<A: Arithmetic>(m: &A, logits: Seq<Bits>, r: Seq<Bits>) -> bool {
    &&& r.len() == logits.len()
    &&& exists|log_total: Bits|
        {
            &&& #[trigger] log_total_is(m, logits, log_total)
            &&& forall|i: int|
                0 <= i < logits.len() ==> difference_is(m, logits[i], log_total, #[trigger] r[i])
        }
}

/// `r` is what adding two log-probabilities as probabilities may come to.
/// Negative infinity is exactly neutral.
pub open spec fn log_sum_exp_is<A: Arithmetic>(m: &A, a: Bits, b: Bits, r: Bits) -> bool {
    if a == NEG_INFINITY {
        r == b
    } else if b == NEG_INFINITY {
        r == a
    } else {
        exists|ea: Bits, eb: Bits, s: Bits, log: Bits|
            {
                &&& #[trigger] shifted_exp_is(m, a, single::larger(a, b), ea)
                &&& #[trigger] shifted_exp_is(m, b, single::larger(a, b), eb)
                &&& #[trigger] sum_is(m, ea, eb, s)
                &&& #[trigger] ln_is(m, s, log)
                &&& sum_is(m, single::larger(a, b), log, r)
            }
    }
}

/// The length that a score is divided by: no token counts as one.
pub open spec fn counted_length(length: nat) -> usize {
    if length == 0 {
        1
    } else {
        length as usize
    }
}

/// `r` is what dividing `score` by the length raised to `penalty` may come to.
pub open spec fn length_normalized_score_is<A: Arithmetic>(
    m: &A,
    score: Bits,
    length: nat,
    penalty: Bits,
    r: Bits,
) -> bool {
    exists|count: Bits, divisor: Bits|
        {
            &&& #[trigger] from_count_is(m, counted_length(length), count)
            &&& #[trigger] power_is(m, count, penalty, divisor)
            &&& quotient_is(m, score, divisor, r)
        }
}

/// `r` is what `token * (1 - weight) + duration * weight` may come to.
pub open spec fn weighted_score_is<A: Arithmetic>(
    m: &A,
    token: Bits,
    duration: Bits,
    weight: Bits,
    r: Bits,
) -> bool {
    exists|rest: Bits, token_part: Bits, duration_part: Bits|
        {
            &&& #[trigger] difference_is(m, ONE, weight, rest)
            &&& #[trigger] product_is(m, token, rest, token_part)
            &&& #[trigger] product_is(m, duration, weight, duration_part)
            &&& sum_is(m, token_part, duration_part, r)
        }
}

/// `r` is what rounding `count * factor` may come to.
pub open spec fn scaled_count_is<A: Arithmetic>(m: &A, count: usize, factor: Bits, r: usize) -> bool {
    exists|c: Bits, scaled: Bits|
        {
            &&& #[trigger] from_count_is(m, count, c)
            &&& #[trigger] product_is(m, c, factor, scaled)
            &&& round_to_count_is(m, scaled, r)
        }
}

/// The exponential of `x - shift`.
fn shifted_exp<A: Arithmetic>(m: &A, x: Bits, shift: Bits) -> (r: Bits)
    ensures
        shifted_exp_is(m, x, shift, r),
{
    let d: Bits = m.difference(x, shift);
    assert(difference_is(m, x, shift, d));
    m.exp(d)
}

/// The log-probabilities that belong to `logits`.
pub fn log_softmax<A: Arithmetic>(m: &A, logits: &Vec<Bits>) -> (r: Vec<Bits>)
    ensures
        log_softmax_is(m, logits@, r@),
{
    let n: usize = logits.len();
    let mut max: Bits = NEG_INFINITY;
    let mut i: usize = 0;
    while i < n
        invariant
            n == logits@.len(),
            i <= n,
            max == greatest(logits@.take(i as int)),
        decreases n - i,
    {
        assert(logits@.take(i + 1).drop_last() =~= logits@.take(i as int));
        max = larger_of(max, logits[i]);
        i = i + 1;
    }
    assert(logits@.take(n as int) =~= logits@);
    let mut exps: Vec<Bits> = Vec::new();
    let mut total: Bits = ZERO;
    i = 0;
    while i < n
        invariant
            n == logits@.len(),
            i <= n,
            exps@.len() == i,
            forall|j: int|
                0 <= j < i ==> shifted_exp_is(m, logits@[j], max, #[trigger] exps@[j]),
            total_is(m, exps@, total),
        decreases n - i,
    {
        let e: Bits = shifted_exp(m, logits[i], max);
        let ghost summed = exps@;
        let ghost partial = total;
        exps.push(e);
        assert(exps@.drop_last() =~= summed && exps@.last() == e);
        total = m.sum(total, e);
        assert(total_is(m, exps@.drop_last(), partial) && sum_is(m, partial, e, total));
        i = i + 1;
    }
    let log: Bits = m.ln(total);
    let log_total: Bits = m.sum(log, max);
    assert(shifted_exps_are(m, logits@, greatest(logits@), exps@));
    assert(ln_is(m, total, log));
    assert(log_total_is(m, logits@, log_total));
    let mut r: Vec<Bits> = Vec::new();
    i = 0;
    while i < n
        invariant
            n == logits@.len(),
            i <= n,
            r@.len() == i,
            forall|j: int|
                0 <= j < i ==> difference_is(m, logits@[j], log_total, #[trigger] r@[j]),
        decreases n - i,
    {
        r.push(m.difference(logits[i], log_total));
        i = i + 1;
    }
    r
}

/// The sum of two probabilities, in the log domain.
pub fn log_sum_exp<A: Arithmetic>(m: &A, a: Bits, b: Bits) -> (r: Bits)
    ensures
        log_sum_exp_is(m, a, b, r),
{
    if a == NEG_INFINITY {
        return b;
    }
    if b == NEG_INFINITY {
        return a;
    }
    let max: Bits = larger_of(a, b);
    let ea: Bits = shifted_exp(m, a, max);
    let eb: Bits = shifted_exp(m, b, max);
    let s: Bits = m.sum(ea, eb);
    let log: Bits = m.ln(s);
    assert(sum_is(m, ea, eb, s) && ln_is(m, s, log));
    m.sum(max, log)
}

/// A hypothesis score over its token count raised to `penalty`.
pub fn length_normalized_score<A: Arithmetic>(
    m: &A,
    score: Bits,
    length: usize,
    penalty: Bits,
) -> (r: Bits)
    ensures
        length_normalized_score_is(m, score, length as nat, penalty, r),
{
    let n: usize = if length == 0 {
        1
    } else {
        length
    };
    let count: Bits = m.from_count(n);
    let divisor: Bits = m.power(count, penalty);
    assert(from_count_is(m, counted_length(length as nat), count));
    assert(power_is(m, count, penalty, divisor));
    m.quotient(score, divisor)
}

/// A token and a duration log-probability, weighed against each other.
pub fn weighted_score<A: Arithmetic>(m: &A, token: Bits, duration: Bits, weight: Bits) -> (r: Bits)
    ensures
        weighted_score_is(m, token, duration, weight, r),
{
    let rest: Bits = m.difference(ONE, weight);
    let token_part: Bits = m.product(token, rest);
    let duration_part: Bits = m.product(duration, weight);
    assert(difference_is(m, ONE, weight, rest));
    assert(product_is(m, token, rest, token_part));
    assert(product_is(m, duration, weight, duration_part));
    m.sum(token_part, duration_part)
}

/// A count scaled by a factor and rounded.
pub fn scaled_count<A: Arithmetic>(m: &A, count: usize, factor: Bits) -> (r: usize)
    ensures
        scaled_count_is(m, count, factor, r),
{
    let c: Bits = m.from_count(count);
    let scaled: Bits = m.product(c, factor);
    assert(from_count_is(m, count, c) && product_is(m, c, factor, scaled));
    m.round_to_count(scaled)
}

/// The share of `part` in `whole`.
pub fn ratio<A: Arithmetic>(m: &A, part: usize, whole: usize) -> (r: Bits)
    ensures
        ratio_is(m, part, whole, r),
{
    let a: Bits = m.from_count(part);
    let b: Bits = m.from_count(whole);
    assert(from_count_is(m, part, a) && from_count_is(m, whole, b));
    m.quotient(a, b)
}

/// The sum of two singles does not depend on their order.
pub open spec fn sum_commutes<A: Arithmetic>(m: &A) -> bool {
    forall|a: Bits, b: Bits, r: Bits| #[trigger] sum_is(m, a, b, r) ==> sum_is(m, b, a, r)
}

/// Adding two log-probabilities does not depend on their order, where the sum does
/// not, unless they are the two zeros or one of them is not a number.
pub proof fn law_log_sum_exp_is_symmetric<A: Arithmetic>(m: &A, a: Bits, b: Bits, r: Bits)
    requires
        sum_commutes(m),
        !single::is_nan(a),
        !single::is_nan(b),
        single::rank(a) != single::rank(b) || a == b,
    ensures
        log_sum_exp_is(m, a, b, r) == log_sum_exp_is(m, b, a, r),
{
    lemma_log_sum_exp_turns(m, a, b, r);
    lemma_log_sum_exp_turns(m, b, a, r);
}

proof fn lemma_log_sum_exp_turns<A: Arithmetic>(m: &A, a: Bits, b: Bits, r: Bits)
    requires
        sum_commutes(m),
        single::larger(a, b) == single::larger(b, a),
    ensures
        log_sum_exp_is(m, a, b, r) ==> log_sum_exp_is(m, b, a, r),
{
    if log_sum_exp_is(m, a, b, r) && a != NEG_INFINITY && b != NEG_INFINITY {
        let max = single::larger(a, b);
        let (ea, eb, s, log) = choose|ea: Bits, eb: Bits, s: Bits, log: Bits|
            {
                &&& #[trigger] shifted_exp_is(m, a, max, ea)
                &&& #[trigger] shifted_exp_is(m, b, max, eb)
                &&& #[trigger] sum_is(m, ea, eb, s)
                &&& #[trigger] ln_is(m, s, log)
                &&& sum_is(m, max, log, r)
            };
        assert(sum_is(m, eb, ea, s));
        assert(shifted_exp_is(m, b, single::larger(b, a), eb));
        assert(shifted_exp_is(m, a, single::larger(b, a), ea));
    }
}

/// Adding nothing changes nothing: negative infinity is neutral on both sides.
pub proof fn law_negative_infinity_is_neutral<A: Arithmetic>(m: &A, a: Bits, r: Bits)
    ensures
        log_sum_exp_is(m, NEG_INFINITY, a, r) == (r == a),
        log_sum_exp_is(m, a, NEG_INFINITY, r) == (r == a),
{
}

} // verus!
