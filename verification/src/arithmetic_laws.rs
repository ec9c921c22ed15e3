//! What the functions of [`crate::arithmetic`] compute, as numbers.
//!
//! A single is a number, its amount, and as a log-probability it stands for
//! another, its value. How far each operation is off is a premise, asked of the
//! operations that a call performs and of no others; a call is then off by that
//! much for each of its operations.
use vstd::prelude::*;
use crate::arithmetic;
use crate::arithmetic::Arithmetic;
use crate::rounding;
use crate::rounding::{near, power};
use crate::single;
use crate::single::{Bits, NEG_INFINITY, ONE, ZERO};

verus! {

/// The difference of `a` and `b` stands for the quotient, up to the factor `q`.
pub open spec fn rounds_quotient<A: Arithmetic>(
    m: &A,
    value: spec_fn(Bits) -> real,
    q: real,
    a: Bits,
    b: Bits,
) -> bool {
    forall|r: Bits| #[trigger]
        arithmetic::difference_is(m, a, b, r) ==> near(q, value(r) * value(b), value(a))
}

/// The exponential of `a` is what `a` stands for, up to the factor `q`.
pub open spec fn rounds_exp<A: Arithmetic>(
    m: &A,
    amount: spec_fn(Bits) -> real,
    value: spec_fn(Bits) -> real,
    q: real,
    a: Bits,
) -> bool {
    forall|r: Bits| #[trigger] arithmetic::exp_is(m, a, r) ==> near(q, amount(r), value(a))
}

/// The logarithm of `a` stands for `a`, up to the factor `q`.
pub open spec fn rounds_ln<A: Arithmetic>(
    m: &A,
    amount: spec_fn(Bits) -> real,
    value: spec_fn(Bits) -> real,
    q: real,
    a: Bits,
) -> bool {
    forall|r: Bits| #[trigger] arithmetic::ln_is(m, a, r) ==> near(q, value(r), amount(a))
}

/// The sum of `a` and `b` is the sum of their amounts, up to the factor `q`.
pub open spec fn rounds_plain_sum<A: Arithmetic>(
    m: &A,
    amount: spec_fn(Bits) -> real,
    q: real,
    a: Bits,
    b: Bits,
) -> bool {
    forall|r: Bits| #[trigger]
        arithmetic::sum_is(m, a, b, r) ==> near(q, amount(r), amount(a) + amount(b))
}

/// `max` is one of `a` and `b` that the other is not above.
pub open spec fn is_max_of(a: Bits, b: Bits, max: Bits) -> bool {
    &&& max == a || max == b
    &&& !single::greater(a, max)
    &&& !single::greater(b, max)
}

/// `e` is what the exponential of `x - shift` may come to, by way of the difference
/// `d`.
pub open spec fn exp_by_way_of<A: Arithmetic>(
    m: &A,
    x: Bits,
    shift: Bits,
    d: Bits,
    e: Bits,
) -> bool {
    arithmetic::difference_is(m, x, shift, d) && arithmetic::exp_is(m, d, e)
}

/// No operation on the way from `a` and `b` to their sum as probabilities is off by
/// more than the factor `q`: with `max` the larger one, the differences from it,
/// their exponentials, the sum of those, its logarithm, and the sum with `max`.
pub open spec fn adding_rounds<A: Arithmetic>(
    m: &A,
    amount: spec_fn(Bits) -> real,
    value: spec_fn(Bits) -> real,
    q: real,
    a: Bits,
    b: Bits,
    max: Bits,
) -> bool {
    &&& rounds_quotient(m, value, q, a, max)
    &&& rounds_quotient(m, value, q, b, max)
    &&& forall|d: Bits| #[trigger]
        arithmetic::difference_is(m, a, max, d) ==> rounds_exp(m, amount, value, q, d)
    &&& forall|d: Bits| #[trigger]
        arithmetic::difference_is(m, b, max, d) ==> rounds_exp(m, amount, value, q, d)
    &&& forall|d: Bits, x: Bits, e: Bits, y: Bits| #[trigger]
        exp_by_way_of(m, a, max, d, x) && #[trigger] exp_by_way_of(m, b, max, e, y)
            ==> rounds_plain_sum(m, amount, q, x, y)
    &&& forall|d: Bits, x: Bits, e: Bits, y: Bits, s: Bits| #[trigger]
        exp_by_way_of(m, a, max, d, x) && #[trigger] exp_by_way_of(m, b, max, e, y)
            && #[trigger] arithmetic::sum_is(m, x, y, s) ==> rounds_ln(m, amount, value, q, s)
    &&& forall|d: Bits, x: Bits, e: Bits, y: Bits, s: Bits, l: Bits| #[trigger]
        exp_by_way_of(m, a, max, d, x) && #[trigger] exp_by_way_of(m, b, max, e, y)
            && #[trigger] arithmetic::sum_is(m, x, y, s) && #[trigger] arithmetic::ln_is(m, s, l)
            ==> rounding::rounds_product(m, value, q, max, l)
}

/// Amounts are what the order of singles says: a single above another has the
/// greater amount, and zero and one are what they are called.
pub open spec fn are_amounts(amount: spec_fn(Bits) -> real) -> bool {
    &&& amount(ZERO) == 0 as real
    &&& amount(ONE) == 1 as real
    &&& forall|a: Bits, b: Bits|
        !single::is_nan(a) && !single::is_nan(b) && single::signed(a) >= single::signed(b)
            ==> #[trigger] amount(a) >= #[trigger] amount(b)
}

proof fn lemma_scale_out(q: real, x: real, v: real, w: real, y: real)
    requires
        near(q, x, v),
        near(q, v * w, y),
        q >= 1 as real,
        w >= 0 as real,
    ensures
        near(q * q, x * w, y),
{
    rounding::lemma_near_scales(q, x, v, w);
    rounding::lemma_near_chains(q, q, x * w, v * w, y);
}

/// The sum of two log-probabilities stands for the sum of what they stand for: up
/// to the factor of each of its five steps, the exponential of the result is the
/// sum of the exponentials.
pub proof fn law_log_sum_exp_adds_probabilities<A: Arithmetic>(
    m: &A,
    amount: spec_fn(Bits) -> real,
    value: spec_fn(Bits) -> real,
    q: real,
    a: Bits,
    b: Bits,
    r: Bits,
)
    requires
        rounding::stands_for(value),
        q >= 1 as real,
        !single::is_nan(a),
        !single::is_nan(b),
        a != NEG_INFINITY && b != NEG_INFINITY ==> forall|max: Bits| #[trigger]
            is_max_of(a, b, max) ==> adding_rounds(m, amount, value, q, a, b, max),
        arithmetic::log_sum_exp_is(m, a, b, r),
    ensures
        near(power(q, 5), value(r), value(a) + value(b)),
{
    rounding::lemma_powers_grow(q, 0, 5);
    let va = value(a);
    let vb = value(b);
    assert(va >= 0 as real && vb >= 0 as real);
    if a == NEG_INFINITY || b == NEG_INFINITY {
        rounding::lemma_equal_is_near(power(q, 5), va + vb);
    } else {
        let max = single::larger(a, b);
        assert(is_max_of(a, b, max));
        let (ea, eb, s, log) = choose|ea: Bits, eb: Bits, s: Bits, log: Bits|
            {
                &&& #[trigger] arithmetic::shifted_exp_is(m, a, max, ea)
                &&& #[trigger] arithmetic::shifted_exp_is(m, b, max, eb)
                &&& #[trigger] arithmetic::sum_is(m, ea, eb, s)
                &&& #[trigger] arithmetic::ln_is(m, s, log)
                &&& arithmetic::sum_is(m, max, log, r)
            };
        let d = choose|d: Bits| #[trigger]
            arithmetic::difference_is(m, a, max, d) && arithmetic::exp_is(m, d, ea);
        let e = choose|e: Bits| #[trigger]
            arithmetic::difference_is(m, b, max, e) && arithmetic::exp_is(m, e, eb);
        assert(exp_by_way_of(m, a, max, d, ea));
        assert(exp_by_way_of(m, b, max, e, eb));
        let w = value(max);
        assert(w >= 0 as real);
        assert(near(q, amount(ea), value(d)));
        assert(near(q, value(d) * w, va));
        assert(near(q, amount(eb), value(e)));
        assert(near(q, value(e) * w, vb));
        lemma_scale_out(q, amount(ea), value(d), w, va);
        lemma_scale_out(q, amount(eb), value(e), w, vb);
        let x = amount(ea) * w;
        let y = amount(eb) * w;
        rounding::lemma_near_adds(q * q, x, va, y, vb);
        assert(near(q, amount(s), amount(ea) + amount(eb)));
        rounding::lemma_near_scales(q, amount(s), amount(ea) + amount(eb), w);
        assert((amount(ea) + amount(eb)) * w == x + y) by (nonlinear_arith)
            requires
                x == amount(ea) * w,
                y == amount(eb) * w,
        ;
        assert(q * q >= 0 as real) by (nonlinear_arith)
            requires
                q >= 1 as real,
        ;
        rounding::lemma_near_chains(q, q * q, amount(s) * w, x + y, va + vb);
        assert(near(q, value(log), amount(s)));
        assert(near(q, value(r), w * value(log)));
        rounding::lemma_near_scales(q, value(log), amount(s), w);
        rounding::lemma_near_chains(q, q, value(r), w * value(log), w * amount(s));
        assert(w * amount(s) == amount(s) * w) by (nonlinear_arith);
        let c = q * (q * q);
        assert(c >= 0 as real) by (nonlinear_arith)
            requires
                q >= 1 as real,
                c == q * (q * q),
        ;
        rounding::lemma_near_chains(q * q, c, value(r), w * amount(s), va + vb);
        reveal_with_fuel(power, 6);
        assert((q * q) * c == (1 as real) * q * q * q * q * q) by (nonlinear_arith)
            requires
                c == q * (q * q),
        ;
    }
}

/// `max` is one of the values, and none of them is above it.
pub open spec fn is_max_among(values: Seq<Bits>, max: Bits) -> bool {
    &&& values.contains(max)
    &&& forall|i: int| 0 <= i < values.len() ==> !single::greater(#[trigger] values[i], max)
}

/// The greatest of some numbers is one of them that none of them is above, and of
/// no numbers negative infinity.
pub proof fn law_greatest_is_a_maximum(values: Seq<Bits>)
    requires
        forall|i: int| 0 <= i < values.len() ==> !single::is_nan(#[trigger] values[i]),
    ensures
        values.len() == 0 ==> arithmetic::greatest(values) == NEG_INFINITY,
        values.len() > 0 ==> is_max_among(values, arithmetic::greatest(values)),
        !single::is_nan(arithmetic::greatest(values)),
    decreases values.len(),
{
    if values.len() > 0 {
        let front = values.drop_last();
        let last = values.len() - 1;
        assert forall|i: int| 0 <= i < front.len() implies !single::is_nan(#[trigger] front[i]) by {
            assert(front[i] == values[i]);
        }
        law_greatest_is_a_maximum(front);
        let held = arithmetic::greatest(front);
        let max = arithmetic::greatest(values);
        assert(!single::is_nan(values[last]));
        if max == values[last] {
            assert(values.contains(max));
        } else {
            if front.len() > 0 {
                let k = choose|k: int| 0 <= k < front.len() && front[k] == held;
                assert(values[k] == max);
            } else {
                assert(single::signed(NEG_INFINITY) >= single::signed(values[last]));
                assert(values[last] == NEG_INFINITY);
            }
        }
        assert forall|i: int| 0 <= i < values.len() implies !single::greater(
            #[trigger] values[i],
            max,
        ) by {
            if i < front.len() {
                assert(front[i] == values[i]);
                assert(!single::greater(front[i], held));
            }
        }
    }
}

/// The sum of what `f` says of the singles.
pub open spec fn summed(items: Seq<Bits>, f: spec_fn(Bits) -> real) -> real
    decreases items.len(),
{
    if items.len() == 0 {
        0 as real
    } else {
        summed(items.drop_last(), f) + f(items.last())
    }
}

/// The first `k` of the items may add up to `t`.
pub open spec fn first_total<A: Arithmetic>(m: &A, items: Seq<Bits>, k: int, t: Bits) -> bool {
    arithmetic::total_is(m, items.take(k), t)
}

/// No operation on the way from logits to log-probabilities is off by more than the
/// factor `q`, where `max` is the greatest logit.
pub open spec fn softmax_rounds<A: Arithmetic>(
    m: &A,
    amount: spec_fn(Bits) -> real,
    value: spec_fn(Bits) -> real,
    q: real,
    logits: Seq<Bits>,
    max: Bits,
) -> bool {
    &&& forall|i: int|
        0 <= i < logits.len() ==> rounds_quotient(m, value, q, #[trigger] logits[i], max)
    &&& forall|i: int, d: Bits|
        0 <= i < logits.len() && #[trigger] arithmetic::difference_is(m, logits[i], max, d)
            ==> rounds_exp(m, amount, value, q, d)
    &&& forall|exps: Seq<Bits>, k: int, t: Bits| #[trigger]
        arithmetic::shifted_exps_are(m, logits, max, exps) && 0 <= k < exps.len()
            && #[trigger] first_total(m, exps, k, t) ==> rounds_plain_sum(
            m,
            amount,
            q,
            t,
            exps[k],
        )
    &&& forall|exps: Seq<Bits>, t: Bits| #[trigger]
        arithmetic::shifted_exps_are(m, logits, max, exps) && #[trigger] first_total(
            m,
            exps,
            exps.len() as int,
            t,
        ) ==> rounds_ln(m, amount, value, q, t)
    &&& forall|exps: Seq<Bits>, t: Bits, l: Bits| #[trigger]
        arithmetic::shifted_exps_are(m, logits, max, exps) && #[trigger] first_total(
            m,
            exps,
            exps.len() as int,
            t,
        ) && #[trigger] arithmetic::ln_is(m, t, l) ==> rounding::rounds_product(
            m,
            value,
            q,
            l,
            max,
        )
    &&& forall|l: Bits, i: int| #[trigger]
        arithmetic::log_total_is(m, logits, l) && 0 <= i < logits.len() ==> rounds_quotient(
            m,
            value,
            q,
            #[trigger] logits[i],
            l,
        )
}

proof fn lemma_near_is_not_negative(q: real, x: real, y: real)
    by (nonlinear_arith)
    requires
        near(q, x, y),
        q >= 1 as real,
        y >= 0 as real,
    ensures
        x >= 0 as real,
{
}

proof fn lemma_total_is_near<A: Arithmetic>(
    m: &A,
    amount: spec_fn(Bits) -> real,
    q: real,
    items: Seq<Bits>,
    k: nat,
    t: Bits,
)
    requires
        q >= 1 as real,
        amount(ZERO) == 0 as real,
        k <= items.len(),
        forall|i: int| 0 <= i < items.len() ==> amount(#[trigger] items[i]) >= 0 as real,
        forall|i: int, u: Bits|
            0 <= i < items.len() && #[trigger] first_total(m, items, i, u) ==> rounds_plain_sum(
                m,
                amount,
                q,
                u,
                items[i],
            ),
        first_total(m, items, k as int, t),
    ensures
        near(power(q, k), amount(t), summed(items.take(k as int), amount)),
    decreases k,
{
    let some = items.take(k as int);
    if k == 0 {
        rounding::lemma_equal_is_near(1 as real, 0 as real);
    } else {
        let j = (k - 1) as nat;
        assert(some.drop_last() =~= items.take(j as int));
        let u = choose|u: Bits|
            arithmetic::total_is(m, some.drop_last(), u) && #[trigger] arithmetic::sum_is(
                m,
                u,
                some.last(),
                t,
            );
        assert(first_total(m, items, j as int, u));
        lemma_total_is_near(m, amount, q, items, j, u);
        let c = power(q, j);
        let x = amount(items[j as int]);
        let sum = summed(items.take(j as int), amount);
        rounding::lemma_powers_grow(q, 0, j);
        rounding::lemma_equal_is_near(c, x);
        rounding::lemma_near_adds(c, amount(u), sum, x, x);
        assert(near(q, amount(t), amount(u) + x));
        rounding::lemma_near_chains(q, c, amount(t), amount(u) + x, sum + x);
        assert(q * c == c * q) by (nonlinear_arith);
    }
}

proof fn lemma_exps_are_near<A: Arithmetic>(
    m: &A,
    amount: spec_fn(Bits) -> real,
    value: spec_fn(Bits) -> real,
    q: real,
    logits: Seq<Bits>,
    max: Bits,
    exps: Seq<Bits>,
    k: nat,
)
    requires
        rounding::stands_for(value),
        q >= 1 as real,
        k <= logits.len(),
        arithmetic::shifted_exps_are(m, logits, max, exps),
        forall|i: int|
            0 <= i < logits.len() ==> rounds_quotient(m, value, q, #[trigger] logits[i], max),
        forall|i: int, d: Bits|
            0 <= i < logits.len() && #[trigger] arithmetic::difference_is(m, logits[i], max, d)
                ==> rounds_exp(m, amount, value, q, d),
    ensures
        near(
            q * q,
            summed(exps.take(k as int), amount) * value(max),
            summed(logits.take(k as int), value),
        ),
        forall|i: int| 0 <= i < k ==> amount(#[trigger] exps[i]) >= 0 as real,
    decreases k,
{
    let w = value(max);
    if k == 0 {
        assert((0 as real) * w == 0 as real) by (nonlinear_arith);
        assert(q * q >= 1 as real) by (nonlinear_arith)
            requires
                q >= 1 as real,
        ;
        rounding::lemma_equal_is_near(q * q, 0 as real);
    } else {
        let j = k - 1;
        lemma_exps_are_near(m, amount, value, q, logits, max, exps, j as nat);
        assert(exps.take(k as int).drop_last() =~= exps.take(j));
        assert(logits.take(k as int).drop_last() =~= logits.take(j));
        assert(arithmetic::shifted_exp_is(m, logits[j], max, exps[j]));
        let d = choose|d: Bits| #[trigger]
            arithmetic::difference_is(m, logits[j], max, d) && arithmetic::exp_is(m, d, exps[j]);
        assert(near(q, amount(exps[j]), value(d)));
        assert(near(q, value(d) * w, value(logits[j])));
        assert(value(d) >= 0 as real);
        assert(w >= 0 as real);
        lemma_near_is_not_negative(q, amount(exps[j]), value(d));
        lemma_scale_out(q, amount(exps[j]), value(d), w, value(logits[j]));
        let x = summed(exps.take(j), amount);
        rounding::lemma_near_adds(
            q * q,
            x * w,
            summed(logits.take(j), value),
            amount(exps[j]) * w,
            value(logits[j]),
        );
        assert((x + amount(exps[j])) * w == x * w + amount(exps[j]) * w) by (nonlinear_arith);
    }
}

/// A log-probability is the share of its logit: its exponential, times the sum of
/// the exponentials of all logits, is the exponential of the logit, up to rounding.
pub proof fn law_log_softmax_gives_shares<A: Arithmetic>(
    m: &A,
    amount: spec_fn(Bits) -> real,
    value: spec_fn(Bits) -> real,
    q: real,
    logits: Seq<Bits>,
    r: Seq<Bits>,
    i: int,
)
    requires
        rounding::stands_for(value),
        q >= 1 as real,
        amount(ZERO) == 0 as real,
        forall|j: int| 0 <= j < logits.len() ==> !single::is_nan(#[trigger] logits[j]),
        forall|max: Bits| #[trigger]
            is_max_among(logits, max) ==> softmax_rounds(m, amount, value, q, logits, max),
        arithmetic::log_softmax_is(m, logits, r),
        0 <= i < logits.len(),
    ensures
        r.len() == logits.len(),
        near(
            power(q, logits.len() + 5),
            value(r[i]) * summed(logits, value),
            value(logits[i]),
        ),
{
    let n = logits.len();
    law_greatest_is_a_maximum(logits);
    let max = arithmetic::greatest(logits);
    let w = value(max);
    let l = choose|l: Bits|
        {
            &&& #[trigger] arithmetic::log_total_is(m, logits, l)
            &&& forall|j: int|
                0 <= j < logits.len() ==> arithmetic::difference_is(
                    m,
                    logits[j],
                    l,
                    #[trigger] r[j],
                )
        };
    let (exps, t, log) = choose|exps: Seq<Bits>, t: Bits, log: Bits|
        {
            &&& #[trigger] arithmetic::shifted_exps_are(m, logits, max, exps)
            &&& #[trigger] arithmetic::total_is(m, exps, t)
            &&& #[trigger] arithmetic::ln_is(m, t, log)
            &&& arithmetic::sum_is(m, log, max, l)
        };
    assert(exps.take(n as int) =~= exps);
    assert(logits.take(n as int) =~= logits);
    assert(first_total(m, exps, n as int, t));
    lemma_exps_are_near(m, amount, value, q, logits, max, exps, n);
    lemma_total_is_near(m, amount, q, exps, n, t);
    let sum = summed(logits, value);
    let plain = summed(exps, amount);
    let c = power(q, n);
    rounding::lemma_powers_grow(q, 0, n);
    rounding::lemma_near_scales(c, amount(t), plain, w);
    assert(q * q >= 0 as real) by (nonlinear_arith)
        requires
            q >= 1 as real,
    ;
    rounding::lemma_near_chains(c, q * q, amount(t) * w, plain * w, sum);
    assert(near(q, value(log), amount(t)));
    assert(near(q, value(l), value(log) * w));
    rounding::lemma_near_scales(q, value(log), amount(t), w);
    rounding::lemma_near_chains(q, q, value(l), value(log) * w, amount(t) * w);
    let d = c * (q * q);
    assert(d >= 0 as real) by (nonlinear_arith)
        requires
            c >= 1 as real,
            q >= 1 as real,
            d == c * (q * q),
    ;
    rounding::lemma_near_chains(q * q, d, value(l), amount(t) * w, sum);
    let e = (q * q) * d;
    assert(e >= 0 as real) by (nonlinear_arith)
        requires
            d >= 0 as real,
            q >= 1 as real,
            e == (q * q) * d,
    ;
    let x = value(r[i]);
    assert(arithmetic::difference_is(m, logits[i], l, r[i]));
    assert(near(q, x * value(l), value(logits[i])));
    assert(near(e, sum, value(l)));
    rounding::lemma_near_scales(e, sum, value(l), x);
    rounding::lemma_near_chains(e, q, x * sum, x * value(l), value(logits[i]));
    rounding::lemma_powers_multiply(q, n, 5);
    reveal_with_fuel(power, 6);
    assert(e * q == c * ((1 as real) * q * q * q * q * q)) by (nonlinear_arith)
        requires
            e == (q * q) * d,
            d == c * (q * q),
    ;
}

/// No more than `e` apart.
pub open spec fn within(e: real, x: real, y: real) -> bool {
    x - y <= e && y - x <= e
}

/// The absolute amount.
pub open spec fn absolute(x: real) -> real {
    if x >= 0 as real {
        x
    } else {
        -x
    }
}

/// A token and a duration log-probability are weighed by what is left of the
/// weight and by the weight itself, where each of the four operations is off by no
/// more than `e`.
pub proof fn law_weights_share_out_to_one<A: Arithmetic>(
    m: &A,
    amount: spec_fn(Bits) -> real,
    e: real,
    token: Bits,
    duration: Bits,
    weight: Bits,
    r: Bits,
)
    requires
        e >= 0 as real,
        amount(ONE) == 1 as real,
        forall|d: Bits| #[trigger]
            arithmetic::difference_is(m, ONE, weight, d) ==> within(
                e,
                amount(d),
                1 as real - amount(weight),
            ),
        forall|d: Bits, p: Bits| #[trigger]
            arithmetic::difference_is(m, ONE, weight, d) && #[trigger] arithmetic::product_is(
                m,
                token,
                d,
                p,
            ) ==> within(e, amount(p), amount(token) * amount(d)),
        forall|p: Bits| #[trigger]
            arithmetic::product_is(m, duration, weight, p) ==> within(
                e,
                amount(p),
                amount(duration) * amount(weight),
            ),
        forall|d: Bits, p: Bits, o: Bits, s: Bits| #[trigger]
            arithmetic::difference_is(m, ONE, weight, d) && #[trigger] arithmetic::product_is(
                m,
                token,
                d,
                p,
            ) && #[trigger] arithmetic::product_is(m, duration, weight, o)
                && #[trigger] arithmetic::sum_is(m, p, o, s) ==> within(
                e,
                amount(s),
                amount(p) + amount(o),
            ),
        arithmetic::weighted_score_is(m, token, duration, weight, r),
    ensures
        within(
            e * (3 as real + absolute(amount(token))),
            amount(r),
            amount(token) * (1 as real - amount(weight)) + amount(duration) * amount(weight),
        ),
{
    let (d, p, o) = choose|d: Bits, p: Bits, o: Bits|
        {
            &&& #[trigger] arithmetic::difference_is(m, ONE, weight, d)
            &&& #[trigger] arithmetic::product_is(m, token, d, p)
            &&& #[trigger] arithmetic::product_is(m, duration, weight, o)
            &&& arithmetic::sum_is(m, p, o, r)
        };
    let t = amount(token);
    let rest = 1 as real - amount(weight);
    let a = absolute(t);
    let gap = amount(d) - rest;
    assert(t * amount(d) - t * rest == t * gap) by (nonlinear_arith)
        requires
            gap == amount(d) - rest,
    ;
    assert(t * gap <= a * e && -(t * gap) <= a * e) by (nonlinear_arith)
        requires
            gap <= e,
            -gap <= e,
            a >= t,
            a >= -t,
            a == t || a == -t,
    ;
    assert(e * (3 as real + a) == e + e + e + a * e) by (nonlinear_arith);
}

/// The pool that a factor makes of a count is their product, rounded: no more than
/// a half and the error of the product away from it.
pub proof fn law_scaled_count_is_the_rounded_product<A: Arithmetic>(
    m: &A,
    amount: spec_fn(Bits) -> real,
    e: real,
    count: usize,
    factor: Bits,
    r: usize,
)
    requires
        e >= 0 as real,
        forall|c: Bits| #[trigger]
            arithmetic::from_count_is(m, count, c) ==> amount(c) == count as real,
        forall|c: Bits, p: Bits| #[trigger]
            arithmetic::from_count_is(m, count, c) && #[trigger] arithmetic::product_is(
                m,
                c,
                factor,
                p,
            ) ==> within(e, amount(p), amount(c) * amount(factor)),
        forall|c: Bits, p: Bits, n: usize| #[trigger]
            arithmetic::from_count_is(m, count, c) && #[trigger] arithmetic::product_is(
                m,
                c,
                factor,
                p,
            ) && #[trigger] arithmetic::round_to_count_is(m, p, n) ==> within(
                1 as real / 2 as real,
                n as real,
                amount(p),
            ),
        arithmetic::scaled_count_is(m, count, factor, r),
    ensures
        within(1 as real / 2 as real + e, r as real, count as real * amount(factor)),
{
    let (c, p) = choose|c: Bits, p: Bits|
        {
            &&& #[trigger] arithmetic::from_count_is(m, count, c)
            &&& #[trigger] arithmetic::product_is(m, c, factor, p)
            &&& arithmetic::round_to_count_is(m, p, r)
        };
}

/// A ratio times the whole is the part, up to the error of the division.
pub proof fn law_ratio_times_whole_is_part<A: Arithmetic>(
    m: &A,
    amount: spec_fn(Bits) -> real,
    q: real,
    part: usize,
    whole: usize,
    r: Bits,
)
    requires
        forall|c: Bits| #[trigger]
            arithmetic::from_count_is(m, part, c) ==> amount(c) == part as real,
        forall|c: Bits| #[trigger]
            arithmetic::from_count_is(m, whole, c) ==> amount(c) == whole as real,
        forall|a: Bits, b: Bits, d: Bits| #[trigger]
            arithmetic::from_count_is(m, part, a) && #[trigger] arithmetic::from_count_is(
                m,
                whole,
                b,
            ) && #[trigger] arithmetic::quotient_is(m, a, b, d) ==> near(
                q,
                amount(d) * amount(b),
                amount(a),
            ),
        arithmetic::ratio_is(m, part, whole, r),
    ensures
        near(q, amount(r) * (whole as real), part as real),
{
    let (a, b) = choose|a: Bits, b: Bits|
        {
            &&& #[trigger] arithmetic::from_count_is(m, part, a)
            &&& #[trigger] arithmetic::from_count_is(m, whole, b)
            &&& arithmetic::quotient_is(m, a, b, r)
        };
}

/// `weights` says what scores are divided by, for each number of tokens, and the
/// division of `score` for `tokens` tokens is off by no more than `e`: the count is
/// raised to the penalty, no token counting as one, and the score is divided by
/// that.
pub open spec fn normalizes_within<A: Arithmetic>(
    m: &A,
    amount: spec_fn(Bits) -> real,
    weights: spec_fn(nat) -> real,
    e: real,
    score: Bits,
    tokens: nat,
    penalty: Bits,
) -> bool {
    &&& weights(tokens) > 0 as real
    &&& forall|n: usize, c: Bits, d: Bits, r: Bits|
        n == (if tokens == 0 {
            1
        } else {
            tokens
        }) && #[trigger] arithmetic::from_count_is(m, n, c) && #[trigger] arithmetic::power_is(
            m,
            c,
            penalty,
            d,
        ) && #[trigger] arithmetic::quotient_is(m, score, d, r) ==> {
            &&& !single::is_nan(r)
            &&& within(e * weights(tokens), amount(r) * weights(tokens), amount(score))
        }
}

/// The normalized score, times what the score was divided by, is the score.
pub proof fn law_normalized_score_times_weight_is_score<A: Arithmetic>(
    m: &A,
    amount: spec_fn(Bits) -> real,
    weights: spec_fn(nat) -> real,
    e: real,
    score: Bits,
    tokens: nat,
    penalty: Bits,
    r: Bits,
)
    requires
        tokens <= usize::MAX,
        normalizes_within(m, amount, weights, e, score, tokens, penalty),
        arithmetic::length_normalized_score_is(m, score, tokens, penalty, r),
    ensures
        !single::is_nan(r),
        within(e * weights(tokens), amount(r) * weights(tokens), amount(score)),
{
    let (c, d) = choose|c: Bits, d: Bits|
        {
            &&& #[trigger] arithmetic::from_count_is(m, arithmetic::counted_length(tokens), c)
            &&& #[trigger] arithmetic::power_is(m, c, penalty, d)
            &&& arithmetic::quotient_is(m, score, d, r)
        };
}

/// Of two scores that are ranked by their normalized scores, the one ranked no
/// lower is no worse per weight, up to the errors of the two divisions.
pub proof fn law_ranking_compares_scores_by_weight(
    amount: spec_fn(Bits) -> real,
    e: real,
    score: real,
    weight: real,
    key: Bits,
    other: real,
    other_weight: real,
    other_key: Bits,
)
    requires
        are_amounts(amount),
        weight > 0 as real,
        other_weight > 0 as real,
        !single::is_nan(key),
        !single::is_nan(other_key),
        within(e * weight, amount(key) * weight, score),
        within(e * other_weight, amount(other_key) * other_weight, other),
        single::rank(key) >= single::rank(other_key),
    ensures
        other * weight <= score * other_weight + (e + e) * (weight * other_weight),
{
    let k = amount(key);
    let o = amount(other_key);
    assert(k >= o);
    assert(other * weight <= (o * other_weight + e * other_weight) * weight) by (nonlinear_arith)
        requires
            other <= o * other_weight + e * other_weight,
            weight > 0 as real,
    ;
    assert(score * other_weight >= (k * weight - e * weight) * other_weight) by (nonlinear_arith)
        requires
            score >= k * weight - e * weight,
            other_weight > 0 as real,
    ;
    let both = weight * other_weight;
    assert(both >= 0 as real) by (nonlinear_arith)
        requires
            weight > 0 as real,
            other_weight > 0 as real,
            both == weight * other_weight,
    ;
    assert((o * other_weight + e * other_weight) * weight == o * both + e * both)
        by (nonlinear_arith)
        requires
            both == weight * other_weight,
    ;
    assert((k * weight - e * weight) * other_weight == k * both - e * both) by (nonlinear_arith)
        requires
            both == weight * other_weight,
    ;
    assert(o * both <= k * both) by (nonlinear_arith)
        requires
            o <= k,
            both >= 0 as real,
    ;
    assert((e + e) * both == e * both + e * both) by (nonlinear_arith);
}

} // verus!
