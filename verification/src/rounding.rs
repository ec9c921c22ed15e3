//! What log-probabilities stand for, and how far an operation on them is off.
//!
//! A log-probability stands for a number, its probability. The operations on
//! singles are rounded, so that what they come to stands for the right number up
//! to a factor only.
use vstd::prelude::*;
use crate::arithmetic;
use crate::arithmetic::Arithmetic;
use crate::single;
use crate::single::{Bits, NEG_INFINITY, ZERO};

verus! {

/// `x` and `y` are the same up to the factor `c`, one way or the other.
pub open spec fn near(c: real, x: real, y: real) -> bool {
    x <= c * y && y <= c * x
}

/// `q` multiplied with itself `n` times.
pub open spec fn power(q: real, n: nat) -> real
    decreases n,
{
    if n == 0 {
        1 as real
    } else {
        power(q, (n - 1) as nat) * q
    }
}

/// `value` says what log-probabilities stand for: negative infinity for nothing,
/// zero for one, and a greater one for a number that is no smaller.
pub open spec fn stands_for(value: spec_fn(Bits) -> real) -> bool {
    &&& value(NEG_INFINITY) == 0 as real
    &&& value(ZERO) == 1 as real
    &&& forall|a: Bits| #[trigger] value(a) >= 0 as real
    &&& forall|a: Bits, b: Bits|
        single::rank(a) >= single::rank(b) ==> #[trigger] value(a) >= #[trigger] value(b)
}

/// The sum of `a` and `b` stands for the product, up to the factor `q`.
pub open spec fn rounds_product<A: Arithmetic>(
    m: &A,
    value: spec_fn(Bits) -> real,
    q: real,
    a: Bits,
    b: Bits,
) -> bool {
    forall|r: Bits| #[trigger]
        arithmetic::sum_is(m, a, b, r) ==> near(q, value(r), value(a) * value(b))
}

/// Adding `a` and `b` as probabilities comes to what stands for the sum, up to the
/// factor `q`.
pub open spec fn rounds_sum<A: Arithmetic>(
    m: &A,
    value: spec_fn(Bits) -> real,
    q: real,
    a: Bits,
    b: Bits,
) -> bool {
    forall|r: Bits| #[trigger]
        arithmetic::log_sum_exp_is(m, a, b, r) ==> near(q, value(r), value(a) + value(b))
}

/// Adding two log-probabilities comes to no less than the larger and no more than
/// twice the larger, up to the factor that the operation rounds by.
pub proof fn law_log_sum_exp_lies_between<A: Arithmetic>(
    m: &A,
    value: spec_fn(Bits) -> real,
    q: real,
    a: Bits,
    b: Bits,
    r: Bits,
)
    requires
        stands_for(value),
        q >= 1 as real,
        rounds_sum(m, value, q, a, b),
        arithmetic::log_sum_exp_is(m, a, b, r),
        value(a) <= value(b),
    ensures
        value(b) <= q * value(r),
        value(r) <= q * (value(b) + value(b)),
{
    let x = value(a);
    let y = value(b);
    let z = value(r);
    assert(near(q, z, x + y));
    assert(z <= q * (y + y)) by (nonlinear_arith)
        requires
            z <= q * (x + y),
            x <= y,
            q >= 1 as real,
    ;
    assert(x >= 0 as real);
}

/// A factor of at least one leaves room for equality.
pub proof fn lemma_equal_is_near(c: real, x: real)
    by (nonlinear_arith)
    requires
        c >= 1 as real,
        x >= 0 as real,
    ensures
        near(c, x, x),
{
}

/// What is near up to a factor is near up to a larger one.
pub proof fn lemma_near_widens(c: real, d: real, x: real, y: real)
    by (nonlinear_arith)
    requires
        near(c, x, y),
        c <= d,
        x >= 0 as real,
        y >= 0 as real,
    ensures
        near(d, x, y),
{
}

/// Factors multiply along a chain.
pub proof fn lemma_near_chains(c: real, d: real, x: real, y: real, z: real)
    requires
        near(c, x, y),
        near(d, y, z),
        c >= 0 as real,
        d >= 0 as real,
    ensures
        near(c * d, x, z),
{
    assert(x <= (c * d) * z) by (nonlinear_arith)
        requires
            x <= c * y,
            y <= d * z,
            c >= 0 as real,
    ;
    assert(z <= (c * d) * x) by (nonlinear_arith)
        requires
            z <= d * y,
            y <= c * x,
            d >= 0 as real,
    ;
}

/// Sums of what is near are near.
pub proof fn lemma_near_adds(c: real, x: real, y: real, v: real, w: real)
    by (nonlinear_arith)
    requires
        near(c, x, y),
        near(c, v, w),
    ensures
        near(c, x + v, y + w),
{
}

/// Multiples of what is near are near.
pub proof fn lemma_near_scales(c: real, x: real, y: real, w: real)
    requires
        near(c, x, y),
        w >= 0 as real,
    ensures
        near(c, x * w, y * w),
        near(c, w * x, w * y),
{
    assert(x * w <= c * (y * w) && w * x <= c * (w * y)) by (nonlinear_arith)
        requires
            x <= c * y,
            w >= 0 as real,
    ;
    assert(y * w <= c * (x * w) && w * y <= c * (w * x)) by (nonlinear_arith)
        requires
            y <= c * x,
            w >= 0 as real,
    ;
}

/// Nothing is near nothing alone.
pub proof fn lemma_near_nothing(c: real, x: real)
    requires
        near(c, 0 as real, x),
        x >= 0 as real,
    ensures
        x == 0 as real,
{
    assert(c * (0 as real) == 0 as real) by (nonlinear_arith);
}

/// Powers of a factor of at least one are at least one, and grow.
pub proof fn lemma_powers_grow(q: real, n: nat, k: nat)
    requires
        q >= 1 as real,
        n <= k,
    ensures
        1 as real <= power(q, n) <= power(q, k),
    decreases k,
{
    if k > 0 {
        if n == k {
            lemma_powers_grow(q, (n - 1) as nat, (k - 1) as nat);
        } else {
            lemma_powers_grow(q, n, (k - 1) as nat);
        }
        let p = power(q, (k - 1) as nat);
        assert(p * q >= p) by (nonlinear_arith)
            requires
                p >= 1 as real,
                q >= 1 as real,
        ;
    }
}

/// Exponents add.
pub proof fn lemma_powers_multiply(q: real, n: nat, k: nat)
    ensures
        power(q, n) * power(q, k) == power(q, n + k),
    decreases k,
{
    let p = power(q, n);
    if k == 0 {
        assert(p * (1 as real) == p) by (nonlinear_arith);
    } else {
        lemma_powers_multiply(q, n, (k - 1) as nat);
        let r = power(q, (k - 1) as nat);
        assert(p * (r * q) == (p * r) * q) by (nonlinear_arith);
        assert((n + k - 1) as nat == n + (k - 1) as nat);
    }
}

/// Every power of one is one.
pub proof fn lemma_powers_of_one(n: nat)
    ensures
        power(1 as real, n) == 1 as real,
    decreases n,
{
    if n > 0 {
        lemma_powers_of_one((n - 1) as nat);
    }
}

} // verus!
