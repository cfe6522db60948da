//! Real numbers that differ by a few roundings at most.
use crate::binary64::Binary64;
use vstd::prelude::*;

verus! {

/// Whether two positive numbers agree but for one part in `2^48`.
pub open spec fn near(a: real, b: real) -> bool {
    &&& 0real < a
    &&& 0real < b
    &&& 281474976710656real * a <= 281474976710657real * b
    &&& 281474976710656real * b <= 281474976710657real * a
}

/// The factor by which `k` roundings can move a number.
spec fn drift(k: nat) -> real
    decreases k,
{
    if k == 0 {
        1real
    } else {
        drift((k - 1) as nat) * crate::rounding_slack::slack()
    }
}

/// Whether two positive numbers agree but for `k` roundings.
pub closed spec fn within(a: real, b: real, k: nat) -> bool {
    &&& 0real < a
    &&& 0real < b
    &&& a <= b * drift(k)
    &&& b <= a * drift(k)
}

/// Another rounding can only move a number farther.
proof fn lemma_drift_step(k: nat)
    ensures
        1real <= drift(k),
        drift(k) <= drift(k + 1),
    decreases k,
{
    let g = crate::rounding_slack::slack();
    assert(g > 1real);
    if k > 0 {
        lemma_drift_step((k - 1) as nat);
    }
    let d = drift(k);
    assert(1real <= d);
    assert(d <= d * g) by (nonlinear_arith)
        requires
            1real <= d,
            g > 1real,
    ;
}

/// More roundings can only move a number farther.
proof fn lemma_drift_order(j: nat, k: nat)
    requires
        j <= k,
    ensures
        1real <= drift(j) <= drift(k),
    decreases k,
{
    lemma_drift_step(j);
    if j < k {
        lemma_drift_order(j, (k - 1) as nat);
        lemma_drift_step((k - 1) as nat);
    }
}

/// Factors of roundings multiply.
proof fn lemma_drift_add(j: nat, k: nat)
    ensures
        drift(j + k) == drift(j) * drift(k),
    decreases k,
{
    let g = crate::rounding_slack::slack();
    if k > 0 {
        let i = (k - 1) as nat;
        lemma_drift_add(j, i);
        let a = drift(j);
        let b = drift(i);
        assert(drift(j + k) == drift(j + i) * g);
        assert((a * b) * g == a * (b * g)) by (nonlinear_arith);
    } else {
        assert(drift(j) * 1real == drift(j));
    }
}

/// Sixteen roundings keep numbers near.
pub proof fn lemma_near(a: real, b: real, k: nat)
    requires
        within(a, b, k),
        k <= 16,
    ensures
        near(a, b),
{
    let g = crate::rounding_slack::slack();
    let d = drift(k);
    lemma_drift_order(k, 16);
    crate::rounding_slack::lemma_eighth_power();
    let g2 = g * g;
    let g4 = g2 * g2;
    let e = 1real / 9007199254740991real;
    let t = e * e;
    reveal_with_fuel(drift, 3);
    assert(drift(2) == g2);
    lemma_drift_add(2, 2);
    lemma_drift_add(4, 4);
    lemma_drift_add(8, 8);
    let g8 = drift(8);
    assert(g8 <= 1real + 9real * e) by {
        assert(31real * t <= e) by (nonlinear_arith)
            requires
                t == e * e,
                0real < e <= 1real / 31real,
        ;
    }
    assert(g8 * g8 <= (1real + 9real * e) * (1real + 9real * e)) by (nonlinear_arith)
        requires
            1real <= g8 <= 1real + 9real * e,
    ;
    assert((1real + 9real * e) * (1real + 9real * e) == 1real + 18real * e + 81real * t)
        by (nonlinear_arith)
        requires
            t == e * e,
    ;
    assert(81real * t <= e) by (nonlinear_arith)
        requires
            t == e * e,
            0real < e <= 1real / 81real,
    ;
    assert(t <= e) by (nonlinear_arith)
        requires
            t == e * e,
            0real < e <= 1real,
    ;
    assert(281474976710656real * d <= 281474976710657real);
    assert(281474976710656real * (b * d) <= 281474976710657real * b) by (nonlinear_arith)
        requires
            281474976710656real * d <= 281474976710657real,
            0real < b,
    ;
    assert(281474976710656real * (a * d) <= 281474976710657real * a) by (nonlinear_arith)
        requires
            281474976710656real * d <= 281474976710657real,
            0real < a,
    ;
}

/// A number agrees with itself.
pub proof fn lemma_same(a: real)
    requires
        0real < a,
    ensures
        within(a, a, 0),
{
    assert(a * 1real == a);
}

/// What fewer roundings allow, more allow.
pub proof fn lemma_more(a: real, b: real, j: nat, k: nat)
    requires
        within(a, b, j),
        j <= k,
    ensures
        within(a, b, k),
{
    lemma_drift_order(j, k);
    let x = drift(j);
    let y = drift(k);
    assert(a * x <= a * y && b * x <= b * y) by (nonlinear_arith)
        requires
            0real < a,
            0real < b,
            x <= y,
    ;
}

/// Roundings add up.
pub proof fn lemma_chain(a: real, b: real, c: real, j: nat, k: nat)
    requires
        within(a, b, j),
        within(b, c, k),
    ensures
        within(a, c, j + k),
{
    lemma_drift_add(j, k);
    lemma_drift_order(j, j);
    lemma_drift_order(k, k);
    let x = drift(j);
    let y = drift(k);
    assert(b * x <= (c * y) * x) by (nonlinear_arith)
        requires
            b <= c * y,
            1real <= x,
    ;
    assert((c * y) * x == c * (x * y)) by (nonlinear_arith);
    assert(b * y <= (a * x) * y) by (nonlinear_arith)
        requires
            b <= a * x,
            1real <= y,
    ;
    assert((a * x) * y == a * (x * y)) by (nonlinear_arith);
}

/// Multiples agree as their numbers do.
pub proof fn lemma_times(a: real, b: real, c: real, k: nat)
    requires
        within(a, b, k),
        0real < c,
    ensures
        within(a * c, b * c, k),
{
    let x = drift(k);
    assert(0real < a * c && 0real < b * c) by (nonlinear_arith)
        requires
            0real < a,
            0real < b,
            0real < c,
    ;
    assert(a * c <= (b * c) * x) by (nonlinear_arith)
        requires
            a <= b * x,
            0real < c,
    ;
    assert(b * c <= (a * c) * x) by (nonlinear_arith)
        requires
            b <= a * x,
            0real < c,
    ;
}

/// Quotients agree as their dividends do.
pub proof fn lemma_over(a: real, b: real, c: real, k: nat)
    requires
        within(a, b, k),
        0real < c,
    ensures
        within(a / c, b / c, k),
{
    let i = 1real / c;
    assert(0real < i) by (nonlinear_arith)
        requires
            i == 1real / c,
            0real < c,
    ;
    lemma_times(a, b, i, k);
    assert(a * i == a / c && b * i == b / c) by (nonlinear_arith)
        requires
            i == 1real / c,
            0real < c,
    ;
}

/// Quotients agree as their divisors do.
pub proof fn lemma_under(a: real, b: real, c: real, k: nat)
    requires
        within(a, b, k),
        0real < c,
    ensures
        within(c / a, c / b, k),
{
    let x = drift(k);
    let p = c / a;
    let q = c / b;
    assert(p * a == c && q * b == c && 0real < p && 0real < q) by (nonlinear_arith)
        requires
            p == c / a,
            q == c / b,
            0real < a,
            0real < b,
            0real < c,
    ;
    assert(p * b <= (p * a) * x) by (nonlinear_arith)
        requires
            b <= a * x,
            0real < p,
    ;
    assert(q * a <= (q * b) * x) by (nonlinear_arith)
        requires
            a <= b * x,
            0real < q,
    ;
    assert(p <= q * x) by (nonlinear_arith)
        requires
            p * b <= c * x,
            q * b == c,
            0real < b,
    ;
    assert(q <= p * x) by (nonlinear_arith)
        requires
            q * a <= c * x,
            p * a == c,
            0real < a,
    ;
}

/// The smaller of two numbers.
pub open spec fn smaller(a: real, b: real) -> real {
    if a < b {
        a
    } else {
        b
    }
}

/// The smaller of two numbers agree as both do.
pub proof fn lemma_smaller(a: real, b: real, c: real, d: real, k: nat)
    requires
        within(a, b, k),
        within(c, d, k),
    ensures
        within(smaller(a, c), smaller(b, d), k),
{
    lemma_drift_order(k, k);
    let x = drift(k);
    let m = smaller(b, d);
    let n = smaller(a, c);
    if n == a && m == d {
        assert(a <= c);
    }
}

/// A number and what it rounds to.
pub proof fn lemma_rounded(r: real, x: Binary64)
    requires
        crate::binary64::rounds_to(r, x),
    ensures
        within(x.value(), r, 1),
{
    crate::rounding_slack::lemma_slack(r, x);
    reveal_with_fuel(drift, 2);
    assert(drift(1) == crate::rounding_slack::slack());
}

/// A number and the square of its rounded root.
pub proof fn lemma_rounded_root(r: real, x: Binary64)
    requires
        0real < r,
        crate::binary64::root_rounds_to(r, x),
    ensures
        within(x.value() * x.value(), r, 2),
{
    crate::rounding_slack::lemma_root_slack(r, x);
    reveal_with_fuel(drift, 3);
    let g = crate::rounding_slack::slack();
    assert(drift(2) == g * g);
    let v = x.value();
    assert(0real < v * v) by (nonlinear_arith)
        requires
            0real < v,
    ;
}

/// An integer and the binary64 number it rounds to.
pub proof fn lemma_double(n: int)
    requires
        0 < n <= u64::MAX,
    ensures
        within(crate::binary64::double(n), n as real, 1),
        1real / 2real <= crate::binary64::double(n) <= 36893488147419103232real,
{
    crate::binary64::lemma_nearest_of_int(n);
    crate::binary64::lemma_within_twice(n as real, crate::binary64::nearest(n as real));
    lemma_rounded(n as real, crate::binary64::nearest(n as real));
}

/// Powers of two at the ends of the range.
pub proof fn lemma_p2_small()
    ensures
        crate::binary64::p2(-130) * crate::binary64::p2(128) * 4real == 1real,
        crate::binary64::p2(-66) * crate::binary64::p2(64) * 4real == 1real,
        crate::binary64::p2(-260) * (crate::binary64::p2(128) * crate::binary64::p2(128)) * 16real
            == 1real,
        crate::binary64::p2(260) == 16real * (crate::binary64::p2(128) * crate::binary64::p2(128)),
        0real < crate::binary64::p2(-260),
        0real < crate::binary64::p2(-130),
{
    crate::binary64::lemma_p2_add(-130, 128);
    crate::binary64::lemma_p2_add(-66, 64);
    crate::binary64::lemma_p2_add(128, 128);
    crate::binary64::lemma_p2_add(-260, 256);
    crate::binary64::lemma_p2_add(256, 4);
    crate::binary64::lemma_p2_pos(-260);
    crate::binary64::lemma_p2_pos(-130);
    reveal_with_fuel(crate::binary64::p2, 6);
    assert(crate::binary64::p2(-2) == 1real / 4real);
    assert(crate::binary64::p2(-4) == 1real / 16real);
    assert(crate::binary64::p2(4) == 16real);
}

/// A product in binary64.
#[verifier::spinoff_prover]
pub proof fn lemma_product(x: real, y: real, a: real, b: real, j: nat, k: nat)
    requires
        within(x, a, j),
        within(y, b, k),
        crate::binary64::p2(-260) <= x * y < crate::binary64::p2(260),
    ensures
        ({
            let v = crate::binary64::nearest(x * y);
            &&& crate::binary64::rounds_to(x * y, v)
            &&& within(v.value(), a * b, j + k + 1)
        }),
{
    let r = x * y;
    crate::binary64::lemma_nearest_exists(r, -260, 260);
    let v = crate::binary64::nearest(r);
    lemma_rounded(r, v);
    lemma_times(x, a, y, j);
    lemma_times(y, b, a, k);
    assert(y * a == a * y && b * a == a * b) by (nonlinear_arith);
    lemma_chain(x * y, a * y, a * b, j, k);
    lemma_chain(v.value(), r, a * b, 1, j + k);
}

/// A quotient in binary64.
#[verifier::spinoff_prover]
pub proof fn lemma_quotient(x: real, y: real, a: real, b: real, j: nat, k: nat)
    requires
        within(x, a, j),
        within(y, b, k),
        crate::binary64::p2(-260) <= x / y < crate::binary64::p2(260),
    ensures
        ({
            let v = crate::binary64::nearest(x / y);
            &&& crate::binary64::rounds_to(x / y, v)
            &&& within(v.value(), a / b, j + k + 1)
        }),
{
    let r = x / y;
    crate::binary64::lemma_nearest_exists(r, -260, 260);
    let v = crate::binary64::nearest(r);
    lemma_rounded(r, v);
    lemma_over(x, a, y, j);
    lemma_under(y, b, a, k);
    lemma_chain(x / y, a / y, a / b, j, k);
    lemma_chain(v.value(), r, a / b, 1, j + k);
}

}
