//! Single-precision numbers, held by their binary32 encoding.
//!
//! Pixel normalization is defined by single-precision arithmetic. The
//! operations here compute the encodings that IEEE 754 prescribes under
//! round-to-nearest, ties-to-even, on integers: every finite result is a real
//! number rounded once.
use crate::binary64::power_of_two;
use vstd::prelude::*;

verus! {

/// Encodings of magnitudes from this one on are infinite or no numbers.
pub const INFINITY: u32 = 0x7f80_0000;

/// The encoding that stands for results that are no numbers.
pub const NOT_A_NUMBER: u32 = 0x7fc0_0000;

/// The weight of the sign bit.
pub const SIGN: u32 = 0x8000_0000;

/// The weight of the lowest exponent bit, `2^23`.
pub const HIDDEN: u32 = 0x80_0000;

/// A binary32 number: sign, 8 exponent bits and 23 fraction bits.
#[derive(Clone, Copy, Debug, PartialEq, Eq, Structural)]
pub struct Binary32 {
    pub bits: u32,
}

/// The significand of the magnitude that `n` encodes.
pub open spec fn significand(n: int) -> int {
    if n / HIDDEN as int == 0 {
        n
    } else {
        HIDDEN + n % HIDDEN as int
    }
}

/// The exponent of the magnitude that `n` encodes.
pub open spec fn exponent(n: int) -> int {
    if n / HIDDEN as int == 0 {
        -149
    } else {
        n / HIDDEN as int - 150
    }
}

/// The magnitude that `n` encodes. Past the largest finite one the encoding
/// goes on to `2^128`.
pub open spec fn magnitude(n: int) -> real {
    significand(n) as real * crate::binary64::p2(exponent(n))
}

/// Whether round-to-nearest, ties-to-even makes `n` of the magnitude `r`: `r`
/// lies between the midpoints to the neighbouring magnitudes, and at a midpoint
/// `n` is even. Beyond the midpoint between the largest finite magnitude and
/// `2^128` lies infinity.
pub open spec fn encodes(r: real, n: int) -> bool {
    &&& 0 <= n <= INFINITY
    &&& n > 0 ==> {
        let low = magnitude(n - 1) + magnitude(n);
        low <= 2real * r && (low == 2real * r ==> n % 2 == 0)
    }
    &&& n < INFINITY ==> {
        let high = magnitude(n) + magnitude(n + 1);
        2real * r <= high && (high == 2real * r ==> n % 2 == 0)
    }
}

/// The encoding of the magnitude that `r` rounds to.
pub open spec fn encoding(r: real) -> int {
    choose|n: int| encodes(r, n)
}

impl Binary32 {
    /// The encoding of the magnitude.
    pub open spec fn abs(self) -> int {
        self.bits as int % SIGN as int
    }

    /// Whether the sign bit is set.
    pub open spec fn negative(self) -> bool {
        self.bits >= SIGN
    }

    pub open spec fn finite(self) -> bool {
        self.abs() < INFINITY
    }

    pub open spec fn infinite(self) -> bool {
        self.abs() == INFINITY
    }

    pub open spec fn nan(self) -> bool {
        self.abs() > INFINITY
    }

    pub open spec fn zero(self) -> bool {
        self.abs() == 0
    }

    /// The real number that a finite encoding represents.
    pub open spec fn value(self) -> real {
        if self.negative() {
            -magnitude(self.abs())
        } else {
            magnitude(self.abs())
        }
    }
}

/// The number with a sign and the encoding of a magnitude.
pub open spec fn signed(negative: bool, abs: int) -> Binary32 {
    Binary32 {
        bits: (if negative {
            abs + SIGN
        } else {
            abs
        }) as u32,
    }
}

/// What a nonzero real number rounds to.
pub open spec fn rounded(r: real) -> Binary32 {
    if r < 0real {
        signed(true, encoding(-r))
    } else {
        signed(false, encoding(r))
    }
}

/// A quotient, as IEEE 754 defines it.
pub open spec fn quotient(a: Binary32, b: Binary32) -> Binary32 {
    let sign = a.negative() != b.negative();
    if a.nan() || b.nan() || (a.infinite() && b.infinite()) || (a.zero() && b.zero()) {
        Binary32 { bits: NOT_A_NUMBER }
    } else if a.infinite() || b.zero() {
        signed(sign, INFINITY as int)
    } else if a.zero() || b.infinite() {
        signed(sign, 0)
    } else {
        signed(sign, encoding(magnitude(a.abs()) / magnitude(b.abs())))
    }
}

/// A product, as IEEE 754 defines it.
pub open spec fn product(a: Binary32, b: Binary32) -> Binary32 {
    let sign = a.negative() != b.negative();
    if a.nan() || b.nan() || (a.infinite() && b.zero()) || (a.zero() && b.infinite()) {
        Binary32 { bits: NOT_A_NUMBER }
    } else if a.infinite() || b.infinite() {
        signed(sign, INFINITY as int)
    } else if a.zero() || b.zero() {
        signed(sign, 0)
    } else {
        signed(sign, encoding(magnitude(a.abs()) * magnitude(b.abs())))
    }
}

/// A difference, as IEEE 754 defines it: equal numbers differ by +0, unless
/// both are zeros and -0 is what +0 is taken from.
pub open spec fn difference(a: Binary32, b: Binary32) -> Binary32 {
    if a.nan() || b.nan() || (a.infinite() && b.infinite() && a.negative() == b.negative()) {
        Binary32 { bits: NOT_A_NUMBER }
    } else if a.infinite() {
        a
    } else if b.infinite() {
        signed(!b.negative(), INFINITY as int)
    } else if a.value() != b.value() {
        rounded(a.value() - b.value())
    } else {
        signed(a.zero() && a.negative() && !b.negative(), 0)
    }
}

/// Consecutive encodings have increasing magnitudes, a unit of the smaller
/// one's exponent apart.
pub proof fn lemma_step(n: int)
    requires
        0 <= n < INFINITY,
    ensures
        magnitude(n + 1) == magnitude(n) + crate::binary64::p2(exponent(n)),
        magnitude(n) >= 0real,
        crate::binary64::p2(exponent(n)) > 0real,
{
    let e = n / HIDDEN as int;
    let f = n % HIDDEN as int;
    let u = crate::binary64::p2(exponent(n));
    crate::binary64::lemma_p2_pos(exponent(n));
    crate::binary64::lemma_p2_step(exponent(n));
    let m = significand(n) as real;
    assert(m * u >= 0real) by (nonlinear_arith)
        requires
            m >= 0real,
            u > 0real,
    ;
    assert((m + 1real) * u == m * u + u) by (nonlinear_arith);
    if f == HIDDEN - 1 && e > 0 {
        assert((n + 1) / HIDDEN as int == e + 1 && (n + 1) % HIDDEN as int == 0);
        assert(8388608real * (2real * u) == 16777216real * u) by (nonlinear_arith);
    } else if f == HIDDEN - 1 {
        assert((n + 1) / HIDDEN as int == 1 && (n + 1) % HIDDEN as int == 0);
    } else {
        assert((n + 1) / HIDDEN as int == e && (n + 1) % HIDDEN as int == f + 1);
    }
}

pub proof fn lemma_monotone(n: int, m: int)
    requires
        0 <= n <= m <= INFINITY,
    ensures
        magnitude(n) <= magnitude(m),
        n < m ==> magnitude(n) < magnitude(m),
    decreases m - n,
{
    if n < m {
        lemma_monotone(n, m - 1);
        lemma_step(m - 1);
    }
}

/// A magnitude has one encoding.
pub proof fn lemma_encoding(r: real, n: int)
    requires
        encodes(r, n),
    ensures
        encoding(r) == n,
{
    let m = encoding(r);
    assert(encodes(r, m));
    if n < m {
        lemma_monotone(n, m - 1);
        lemma_monotone(n + 1, m);
    } else if m < n {
        lemma_monotone(m, n - 1);
        lemma_monotone(m + 1, n);
    }
}

/// The magnitude `m * 2^e` has a simple encoding.
proof fn lemma_compose(e: int, m: int)
    requires
        -149 <= e <= 105,
        0 <= m <= 2 * HIDDEN,
        e == -149 || HIDDEN <= m,
        (e + 149) * HIDDEN + m <= INFINITY,
    ensures
        magnitude((e + 149) * HIDDEN + m) == m as real * crate::binary64::p2(e),
        m < 2 * HIDDEN ==> exponent((e + 149) * HIDDEN + m) == e,
        m == 2 * HIDDEN ==> exponent((e + 149) * HIDDEN + m) == e + 1,
        m > 0 && (e == -149 || HIDDEN < m) ==> exponent((e + 149) * HIDDEN + m - 1) == e,
{
    let n = (e + 149) * HIDDEN + m;
    crate::binary64::lemma_p2_step(e);
    if m == 2 * HIDDEN {
        assert(n / HIDDEN as int == e + 151 && n % HIDDEN as int == 0);
        let u = crate::binary64::p2(e);
        assert(8388608real * (2real * u) == 16777216real * u) by (nonlinear_arith);
    } else if m >= HIDDEN {
        assert(n / HIDDEN as int == e + 150 && n % HIDDEN as int == m - HIDDEN);
    } else {
        assert(n / HIDDEN as int == 0);
    }
    if m > 0 && (e == -149 || HIDDEN < m) {
        if m - 1 >= HIDDEN {
            assert((n - 1) / HIDDEN as int == e + 150);
        } else {
            assert((n - 1) / HIDDEN as int == 0);
        }
    }
}

/// A number with 24 integer bits, or any smaller one at the smallest exponent,
/// rounded to an integer and then scaled, is correctly rounded.
proof fn lemma_round_scaled(t: real, m: int, e: int)
    requires
        -149 <= e <= 104,
        0 <= m <= 2 * HIDDEN,
        e == -149 || HIDDEN as real <= t,
        -1real <= 2real * (t - m as real) <= 1real,
        2real * (t - m as real) == 1real || 2real * (t - m as real) == -1real ==> m % 2 == 0,
    ensures
        encodes(t * crate::binary64::p2(e), (e + 149) * HIDDEN + m),
{
    let n = (e + 149) * HIDDEN + m;
    let u = crate::binary64::p2(e);
    let mr = m as real;
    let g = t - mr;
    assert(e == -149 || HIDDEN <= m);
    crate::binary64::lemma_p2_pos(e);
    crate::binary64::lemma_p2_step(e);
    lemma_compose(e, m);
    assert(t * u == mr * u + g * u) by (nonlinear_arith)
        requires
            g == t - mr,
    ;
    let d = g * u;
    assert(-u <= 2real * d <= u) by (nonlinear_arith)
        requires
            d == g * u,
            -1real <= 2real * g <= 1real,
            u > 0real,
    ;
    if 2real * g < 1real {
        assert(2real * d < u) by (nonlinear_arith)
            requires
                d == g * u,
                2real * g < 1real,
                u > 0real,
        ;
    }
    if 2real * g > -1real {
        assert(2real * d > -u) by (nonlinear_arith)
            requires
                d == g * u,
                2real * g > -1real,
                u > 0real,
        ;
    }
    if n < INFINITY {
        lemma_step(n);
    }
    if n > 0 {
        lemma_step(n - 1);
        if e != -149 && m == HIDDEN {
            assert(d >= 0real) by (nonlinear_arith)
                requires
                    d == g * u,
                    g >= 0real,
                    u > 0real,
            ;
        }
    }
}

/// Numbers from `2^128` on are encoded as infinity.
proof fn lemma_overflow(t: real, e: int)
    requires
        105 <= e,
        HIDDEN as real <= t,
    ensures
        encodes(t * crate::binary64::p2(e), INFINITY as int),
{
    lemma_compose(105, HIDDEN as int);
    crate::binary64::lemma_p2_le(105, e);
    crate::binary64::lemma_p2_pos(105);
    let u = crate::binary64::p2(e);
    let w = crate::binary64::p2(105);
    assert(8388608real * w <= t * u) by (nonlinear_arith)
        requires
            8388608real <= t,
            0real < w <= u,
    ;
    lemma_step(INFINITY - 1);
}

/// Numbers far below the smallest magnitude are encoded as zero.
proof fn lemma_underflow(t: real, e: int)
    requires
        e < -175,
        0real < t < 16777216real,
    ensures
        encodes(t * crate::binary64::p2(e), 0),
{
    lemma_step(0);
    assert(magnitude(0) == 0real) by {
        let w = crate::binary64::p2(-149);
        assert(0real * w == 0real) by (nonlinear_arith);
    }
    crate::binary64::lemma_p2_le(e, -176);
    crate::binary64::lemma_p2_pos(e);
    crate::binary64::lemma_p2_add(-176, 27);
    let u = crate::binary64::p2(e);
    let w = crate::binary64::p2(-176);
    assert(crate::binary64::p2(27) == 134217728real) by {
        reveal_with_fuel(crate::binary64::p2, 28);
    }
    assert(2real * (t * u) <= w * 134217728real) by (nonlinear_arith)
        requires
            0real < t < 16777216real,
            0real < u <= w,
    ;
}

proof fn lemma_p2_72()
    ensures
        crate::binary64::p2(72) == 4722366482869645213696real,
{
    crate::binary64::lemma_p2_64();
    crate::binary64::lemma_p2_add(64, 8);
    assert(crate::binary64::p2(8) == 256real) by {
        reveal_with_fuel(crate::binary64::p2, 9);
    }
}

/// Doubling a numerator halves the scale.
proof fn lemma_double_numerator(n: real, k: int, r: real)
    requires
        n * crate::binary64::p2(k) == r,
    ensures
        (2real * n) * crate::binary64::p2(k - 1) == r,
{
    crate::binary64::lemma_p2_step(k - 1);
    let w = crate::binary64::p2(k - 1);
    assert((2real * n) * w == n * (2real * w)) by (nonlinear_arith);
}

/// Doubling a denominator doubles the scale.
proof fn lemma_double_denominator(n: real, k: int, r: real, d: real)
    requires
        n * crate::binary64::p2(k) == r * d,
    ensures
        n * crate::binary64::p2(k + 1) == r * (2real * d),
{
    crate::binary64::lemma_p2_step(k);
    let w = crate::binary64::p2(k);
    assert(n * (2real * w) == 2real * (n * w)) by (nonlinear_arith);
    assert(r * (2real * d) == 2real * (r * d)) by (nonlinear_arith);
}

/// The encoding of the magnitude `r = n / d * 2^k`.
fn encode(n: u128, d: u128, k: i32, Ghost(r): Ghost<real>) -> (abs: u32)
    requires
        0 < n < 0x10_0000_0000_0000_0000_0000_0000,
        0 < d < 0x1_0000_0000_0000,
        -1000 <= k <= 1000,
        n as real * crate::binary64::p2(k as int) == r * d as real,
    ensures
        abs == encoding(r),
        abs <= INFINITY,
{
    let mut num: u128 = n;
    let mut den: u128 = d;
    let mut exp: i32 = k;
    let ghost mut steps: int = 0;
    while num < den * 0x80_0000
        invariant
            0 < num < 0x10_0000_0000_0000_0000_0000_0000,
            0 < den < 0x1_0000_0000_0000,
            num as real * crate::binary64::p2(exp as int) == r * den as real,
            0 <= steps,
            exp == k - steps,
            exp >= -1100,
            k <= 1000,
            k >= -1000,
            num as real >= crate::binary64::p2(steps),
        decreases den * 0x100_0000 - num,
    {
        proof {
            if steps >= 72 {
                crate::binary64::lemma_p2_le(72, steps);
                lemma_p2_72();
            }
            lemma_double_numerator(num as real, exp as int, r * den as real);
            crate::binary64::lemma_p2_step(steps);
            steps = steps + 1;
        }
        num = num * 2;
        exp = exp - 1;
    }
    let ghost start = exp;
    proof {
        steps = 0;
    }
    while num / den >= 0x100_0000
        invariant
            0 < num < 0x10_0000_0000_0000_0000_0000_0000,
            0 < den,
            den * 0x80_0000 <= num,
            num as real * crate::binary64::p2(exp as int) == r * den as real,
            0 <= steps,
            exp == start + steps,
            -1100 <= start <= 1000,
            exp <= 1200,
            den as real >= crate::binary64::p2(steps),
        decreases num - den,
    {
        proof {
            assert(den * 0x100_0000 <= num) by (nonlinear_arith)
                requires
                    num / den >= 0x100_0000,
                    0 < den,
            ;
            if steps >= 100 {
                crate::binary64::lemma_p2_le(100, steps);
                lemma_p2_72();
                crate::binary64::lemma_p2_add(72, 28);
                assert(crate::binary64::p2(28) == 268435456real) by {
                    reveal_with_fuel(crate::binary64::p2, 29);
                }
            }
            lemma_double_denominator(num as real, exp as int, r, den as real);
            crate::binary64::lemma_p2_step(steps);
            steps = steps + 1;
        }
        den = den * 2;
        exp = exp + 1;
    }
    proof {
        assert(num < den * 0x100_0000) by (nonlinear_arith)
            requires
                num / den < 0x100_0000,
                0 < den,
        ;
    }
    if exp >= 105 {
        proof {
            let t = lemma_scaled(num as int, den as int, exp as int, r);
            lemma_overflow(t, exp as int);
            lemma_encoding(r, INFINITY as int);
        }
        return INFINITY;
    }
    if exp < -175 {
        proof {
            let t = lemma_scaled(num as int, den as int, exp as int, r);
            lemma_underflow(t, exp as int);
            lemma_encoding(r, 0);
        }
        return 0;
    }
    let ghost first = exp;
    let ghost mut scale: int = 1;
    while exp < -149
        invariant
            0 < num,
            0 < den <= 0x20_0000_0000_0000_0000_0000 * scale,
            -175 <= first <= exp <= 104,
            first < exp ==> exp <= -149,
            exp > -149 ==> den * 0x80_0000 <= num,
            num < den * 0x100_0000,
            num as real * crate::binary64::p2(exp as int) == r * den as real,
            scale as real == crate::binary64::p2(exp - first),
            0 < scale <= 0x400_0000,
        decreases -149 - exp,
    {
        proof {
            lemma_double_denominator(num as real, exp as int, r, den as real);
            crate::binary64::lemma_p2_step(exp - first);
            crate::binary64::lemma_p2_le(exp - first, 25);
            assert(crate::binary64::p2(25) == 33554432real) by {
                reveal_with_fuel(crate::binary64::p2, 26);
            }
            scale = scale * 2;
        }
        den = den * 2;
        exp = exp + 1;
    }
    let q: u128 = num / den;
    let rest: u128 = num % den;
    let up: bool = rest > den - rest || (rest == den - rest && q % 2 == 1);
    proof {
        assert(q < 0x100_0000) by (nonlinear_arith)
            requires
                q == num / den,
                num < den * 0x100_0000,
                0 < den,
        ;
    }
    let m: u32 = if up { q as u32 + 1 } else { q as u32 };
    let abs: u32 = (exp + 149) as u32 * 0x80_0000 + m;
    proof {
        let t = num as real / den as real;
        let n = num as real;
        let dr = den as real;
        let w = crate::binary64::p2(exp as int);
        assert(t * dr == n) by (nonlinear_arith)
            requires
                t == n / dr,
                dr > 0real,
        ;
        assert((t * w) * dr == r * dr) by (nonlinear_arith)
            requires
                t * dr == n,
                n * w == r * dr,
        ;
        assert(t * w == r) by (nonlinear_arith)
            requires
                (t * w) * dr == r * dr,
                dr > 0real,
        ;
        if exp > -149 {
            assert(8388608real <= t) by (nonlinear_arith)
                requires
                    t * dr == n,
                    dr * 8388608real <= n,
                    dr > 0real,
            ;
        }
        lemma_half_even(num as int, den as int, q as int, rest as int, m as int, t);
        lemma_round_scaled(t, m as int, exp as int);
        lemma_encoding(r, abs as int);
    }
    abs
}

/// The integer nearest to a quotient, the even one of two.
proof fn lemma_half_even(num: int, den: int, q: int, rest: int, m: int, t: real)
    requires
        0 < den,
        q == num / den,
        rest == num % den,
        t * den as real == num as real,
        m == if 2 * rest > den || (2 * rest == den && q % 2 == 1) {
            q + 1
        } else {
            q
        },
    ensures
        -1real <= 2real * (t - m as real) <= 1real,
        2real * (t - m as real) == 1real || 2real * (t - m as real) == -1real ==> m % 2 == 0,
{
    vstd::arithmetic::div_mod::lemma_fundamental_div_mod(num, den);
    vstd::arithmetic::div_mod::lemma_mod_bound(num, den);
    crate::binary64::lemma_product_as_real(den, q);
    let d = den as real;
    let s = rest as real;
    let g = t - q as real;
    let qr = q as real;
    let n = num as real;
    assert(g * d == s) by (nonlinear_arith)
        requires
            g == t - qr,
            t * d == n,
            n == d * qr + s,
    ;
    assert(0real <= g < 1real) by (nonlinear_arith)
        requires
            g * d == s,
            0real <= s < d,
    ;
    if 2 * rest > den {
        assert(2real * g > 1real) by (nonlinear_arith)
            requires
                g * d == s,
                2real * s > d,
                d > 0real,
        ;
    } else if 2 * rest == den {
        assert(2real * g == 1real) by (nonlinear_arith)
            requires
                g * d == s,
                2real * s == d,
                d > 0real,
        ;
    } else {
        assert(2real * g < 1real) by (nonlinear_arith)
            requires
                g * d == s,
                2real * s < d,
                d > 0real,
        ;
    }
}

/// The number that is scaled, between `2^23` and `2^24`.
proof fn lemma_scaled(num: int, den: int, exp: int, r: real) -> (t: real)
    requires
        0 < num,
        0 < den,
        den * 0x80_0000 <= num < den * 0x100_0000,
        num as real * crate::binary64::p2(exp) == r * den as real,
    ensures
        t == num as real / den as real,
        HIDDEN as real <= t < 16777216real,
        t * crate::binary64::p2(exp) == r,
{
    let t = num as real / den as real;
    let n = num as real;
    let d = den as real;
    let w = crate::binary64::p2(exp);
    assert(t * d == n) by (nonlinear_arith)
        requires
            t == n / d,
            d > 0real,
    ;
    assert(8388608real <= t < 16777216real) by (nonlinear_arith)
        requires
            t * d == n,
            d * 8388608real <= n < d * 16777216real,
            d > 0real,
    ;
    assert((t * w) * d == r * d) by (nonlinear_arith)
        requires
            t * d == n,
            n * w == r * d,
    ;
    assert(t * w == r) by (nonlinear_arith)
        requires
            (t * w) * d == r * d,
            d > 0real,
    ;
    t
}

/// A magnitude is encoded by itself.
pub proof fn lemma_exact(n: int)
    requires
        0 <= n <= INFINITY,
    ensures
        encodes(magnitude(n), n),
        encoding(magnitude(n)) == n,
        n > 0 ==> magnitude(n) > 0real,
        magnitude(0) == 0real,
{
    if n > 0 {
        lemma_monotone(0, n);
        lemma_step(n - 1);
    }
    if n < INFINITY {
        lemma_step(n);
    }
    let w = crate::binary64::p2(-149);
    assert(0real * w == 0real) by (nonlinear_arith);
    lemma_encoding(magnitude(n), n);
}

/// Significand and exponent of a finite magnitude.
fn parts(abs: u32) -> (p: (u32, i32))
    requires
        abs < INFINITY,
    ensures
        p.0 == significand(abs as int),
        p.1 == exponent(abs as int),
        p.0 < 0x100_0000,
        -149 <= p.1 <= 104,
        abs > 0 ==> p.0 > 0,
        p.1 > -149 ==> p.0 >= HIDDEN,
{
    let field: u32 = abs / HIDDEN;
    if field == 0 {
        (abs, -149)
    } else {
        (HIDDEN + abs % HIDDEN, field as i32 - 150)
    }
}

fn with_sign(negative: bool, abs: u32) -> (x: Binary32)
    requires
        abs < SIGN,
    ensures
        x == signed(negative, abs as int),
        x.negative() == negative,
        x.abs() == abs,
{
    if negative {
        Binary32 { bits: abs + SIGN }
    } else {
        Binary32 { bits: abs }
    }
}

impl Binary32 {
    fn magnitude_bits(self) -> (abs: u32)
        ensures
            abs == self.abs(),
            abs < SIGN,
    {
        self.bits % SIGN
    }

    /// Whether the number is neither infinite nor no number.
    pub fn is_finite(self) -> (b: bool)
        ensures
            b == self.finite(),
    {
        self.magnitude_bits() < INFINITY
    }

    /// Whether the number is +0 or -0.
    pub fn is_zero(self) -> (b: bool)
        ensures
            b == self.zero(),
    {
        self.magnitude_bits() == 0
    }

    /// A byte as a number.
    pub fn from_byte(v: u8) -> (x: Binary32)
        ensures
            x == signed(false, encoding(v as real)),
            x.finite(),
            !x.negative(),
            v > 0 ==> !x.zero(),
            x.value() == v as real,
    {
        proof {
            lemma_exact(0);
        }
        if v == 0 {
            return Binary32 { bits: 0 };
        }
        let ghost r = v as real;
        proof {
            assert(crate::binary64::p2(0) == 1real);
        }
        let abs: u32 = encode(v as u128, 1, 0, Ghost(r));
        proof {
            lemma_byte(v as int);
        }
        with_sign(false, abs)
    }

    /// The quotient of two numbers, rounded.
    pub fn div(self, other: Binary32) -> (x: Binary32)
        ensures
            x == quotient(self, other),
    {
        let a: u32 = self.magnitude_bits();
        let b: u32 = other.magnitude_bits();
        let negative: bool = (self.bits >= SIGN) != (other.bits >= SIGN);
        if a > INFINITY || b > INFINITY || (a == INFINITY && b == INFINITY) || (a == 0 && b == 0) {
            return Binary32 { bits: NOT_A_NUMBER };
        }
        if a == INFINITY || b == 0 {
            return with_sign(negative, INFINITY);
        }
        if a == 0 || b == INFINITY {
            return with_sign(negative, 0);
        }
        let (ma, xa) = parts(a);
        let (mb, xb) = parts(b);
        let ghost r = magnitude(a as int) / magnitude(b as int);
        proof {
            lemma_exact(b as int);
            crate::binary64::lemma_p2_add(xa - xb, xb as int);
            lemma_ratio(
                ma as real,
                mb as real,
                crate::binary64::p2(xa - xb),
                crate::binary64::p2(xb as int),
            );
        }
        let abs: u32 = encode(ma as u128, mb as u128, xa - xb, Ghost(r));
        with_sign(negative, abs)
    }

    /// The product of two numbers, rounded.
    pub fn mul(self, other: Binary32) -> (x: Binary32)
        ensures
            x == product(self, other),
    {
        let a: u32 = self.magnitude_bits();
        let b: u32 = other.magnitude_bits();
        let negative: bool = (self.bits >= SIGN) != (other.bits >= SIGN);
        if a > INFINITY || b > INFINITY || (a == INFINITY && b == 0) || (a == 0 && b == INFINITY) {
            return Binary32 { bits: NOT_A_NUMBER };
        }
        if a == INFINITY || b == INFINITY {
            return with_sign(negative, INFINITY);
        }
        if a == 0 || b == 0 {
            return with_sign(negative, 0);
        }
        let (ma, xa) = parts(a);
        let (mb, xb) = parts(b);
        let ghost r = magnitude(a as int) * magnitude(b as int);
        proof {
            crate::binary64::lemma_p2_add(xa as int, xb as int);
            crate::binary64::lemma_product_as_real(ma as int, mb as int);
            assert(0 < ma * mb < 0x1_0000_0000_0000) by (nonlinear_arith)
                requires
                    0 < ma < 0x100_0000,
                    0 < mb < 0x100_0000,
            ;
            let (x, y) = (ma as real, mb as real);
            let (u, w) = (crate::binary64::p2(xa as int), crate::binary64::p2(xb as int));
            assert((x * y) * (u * w) == (x * u) * (y * w)) by (nonlinear_arith);
        }
        let abs: u32 = encode(ma as u128 * mb as u128, 1, xa + xb, Ghost(r));
        with_sign(negative, abs)
    }
}

pub proof fn lemma_byte(v: int)
    requires
        0 < v < 256,
    ensures
        0 < encoding(v as real) < INFINITY,
        magnitude(encoding(v as real)) == v as real,
{
    assert(crate::binary64::p2(0) == 1real);
    lemma_normalize(v, 0, v as real);
}

/// A number with few bits has a normal encoding.
proof fn lemma_normalize(m: int, e: int, r: real)
    requires
        0 < m < 2 * HIDDEN,
        -30 <= e <= 0,
        r == m as real * crate::binary64::p2(e),
        m as real >= crate::binary64::p2(-e),
    ensures
        0 < encoding(r) < INFINITY,
        magnitude(encoding(r)) == r,
    decreases 2 * HIDDEN - m,
{
    if m >= HIDDEN {
        lemma_compose(e, m);
        lemma_exact((e + 149) * HIDDEN + m);
    } else {
        crate::binary64::lemma_p2_step(-e);
        if e <= -29 {
            crate::binary64::lemma_p2_le(29, -e);
            assert(crate::binary64::p2(29) == 536870912real) by {
                reveal_with_fuel(crate::binary64::p2, 30);
            }
        }
        lemma_double_numerator(m as real, e, r);
        lemma_normalize(2 * m, e - 1, r);
    }
}

proof fn lemma_ratio(ma: real, mb: real, u: real, w: real)
    requires
        mb * w > 0real,
    ensures
        ma * u == ((ma * (u * w)) / (mb * w)) * mb,
{
    let d = mb * w;
    let n = ma * (u * w);
    let q = n / d;
    assert(q * d == n) by (nonlinear_arith)
        requires
            q == n / d,
            d > 0real,
    ;
    assert((q * mb) * w == (ma * u) * w) by (nonlinear_arith)
        requires
            q * d == n,
            d == mb * w,
            n == ma * (u * w),
    ;
    assert(w != 0real) by (nonlinear_arith)
        requires
            mb * w > 0real,
    ;
    let x = q * mb;
    let y = ma * u;
    assert(x == y) by (nonlinear_arith)
        requires
            x * w == y * w,
            w != 0real,
    ;
}

/// A magnitude of at least 24 bits absorbs another one that is more than 64
/// exponents below it.
proof fn lemma_absorbed(hi: int, lo: int, t: real)
    requires
        0 < hi < INFINITY,
        0 < lo < INFINITY,
        exponent(lo) + 64 < exponent(hi),
        t == magnitude(hi) + magnitude(lo) || t == magnitude(hi) - magnitude(lo),
    ensures
        t > 0real,
        encoding(t) == hi,
{
    let x = exponent(hi);
    let u = crate::binary64::p2(x);
    crate::binary64::lemma_p2_pos(x);
    lemma_exact(lo);
    lemma_exact(hi);
    lemma_exact(hi - 1);
    let m = significand(lo) as real;
    let w = crate::binary64::p2(exponent(lo));
    crate::binary64::lemma_p2_pos(exponent(lo));
    crate::binary64::lemma_p2_le(exponent(lo), x - 64);
    crate::binary64::lemma_p2_add(x - 64, 64);
    crate::binary64::lemma_p2_64();
    let z = crate::binary64::p2(x - 64);
    assert(m * w <= 16777216real * z) by (nonlinear_arith)
        requires
            0real < m <= 16777216real,
            0real < w <= z,
    ;
    let small = magnitude(lo);
    assert(8real * small < u);
    lemma_step(hi);
    lemma_step(hi - 1);
    assert(exponent(hi - 1) >= x - 1);
    crate::binary64::lemma_p2_step(x - 1);
    crate::binary64::lemma_p2_le(x - 1, exponent(hi - 1));
    assert(encodes(t, hi));
    lemma_encoding(t, hi);
}

/// The sum of aligned significands, scaled, is the sum of the magnitudes.
proof fn lemma_aligned(hi: int, lo: int, scale: int)
    requires
        scale as real == crate::binary64::p2(exponent(hi) - exponent(lo)),
    ensures
        (significand(hi) * scale) as real * crate::binary64::p2(exponent(lo)) == magnitude(hi),
{
    crate::binary64::lemma_product_as_real(significand(hi), scale);
    crate::binary64::lemma_p2_add(exponent(hi) - exponent(lo), exponent(lo));
    let m = significand(hi) as real;
    let c = scale as real;
    let w = crate::binary64::p2(exponent(lo));
    assert((m * c) * w == m * (c * w)) by (nonlinear_arith);
}

/// The sum of two nonzero finite numbers, of which the first has the larger
/// exponent.
fn add_ordered(hi: Binary32, lo: Binary32) -> (x: Binary32)
    requires
        hi.finite(),
        lo.finite(),
        !hi.zero(),
        !lo.zero(),
        exponent(hi.abs()) >= exponent(lo.abs()),
    ensures
        x == (if hi.value() + lo.value() != 0real {
            rounded(hi.value() + lo.value())
        } else {
            signed(false, 0)
        }),
{
    let a: u32 = hi.magnitude_bits();
    let b: u32 = lo.magnitude_bits();
    let (ma, xa) = parts(a);
    let (mb, xb) = parts(b);
    let same: bool = (hi.bits >= SIGN) == (lo.bits >= SIGN);
    proof {
        lemma_exact(a as int);
        lemma_exact(b as int);
    }
    if xa - xb > 64 {
        proof {
            if same {
                lemma_absorbed(a as int, b as int, magnitude(a as int) + magnitude(b as int));
            } else {
                lemma_absorbed(a as int, b as int, magnitude(a as int) - magnitude(b as int));
            }
        }
        return with_sign(hi.bits >= SIGN, a);
    }
    let scale: u128 = power_of_two((xa - xb) as u32);
    proof {
        lemma_aligned(a as int, b as int, scale as int);
        assert(0 < ma * scale <= 0x100_0000 * 0x1_0000_0000_0000_0000) by (nonlinear_arith)
            requires
                0 < ma <= 0x100_0000,
                0 < scale <= 0x1_0000_0000_0000_0000,
        ;
    }
    let wide: u128 = ma as u128 * scale;
    let ghost w = crate::binary64::p2(xb as int);
    let ghost x = wide as real;
    let ghost y = mb as real;
    if same {
        proof {
            assert((x + y) * w == x * w + y * w) by (nonlinear_arith);
        }
        let ghost r = magnitude(a as int) + magnitude(b as int);
        let abs: u32 = encode(wide + mb as u128, 1, xb, Ghost(r));
        with_sign(hi.bits >= SIGN, abs)
    } else if wide > mb as u128 {
        proof {
            assert((x - y) * w == x * w - y * w) by (nonlinear_arith);
            lemma_positive(x - y, w, xb as int);
        }
        let ghost r = magnitude(a as int) - magnitude(b as int);
        let abs: u32 = encode(wide - mb as u128, 1, xb, Ghost(r));
        with_sign(hi.bits >= SIGN, abs)
    } else if wide < mb as u128 {
        proof {
            assert((y - x) * w == y * w - x * w) by (nonlinear_arith);
            lemma_positive(y - x, w, xb as int);
        }
        let ghost r = magnitude(b as int) - magnitude(a as int);
        let abs: u32 = encode(mb as u128 - wide, 1, xb, Ghost(r));
        with_sign(lo.bits >= SIGN, abs)
    } else {
        with_sign(false, 0)
    }
}

proof fn lemma_positive(a: real, w: real, e: int)
    requires
        0real < a,
        w == crate::binary64::p2(e),
    ensures
        0real < a * w,
{
    crate::binary64::lemma_p2_pos(e);
    assert(0real < a * w) by (nonlinear_arith)
        requires
            0real < a,
            0real < w,
    ;
}

impl Binary32 {
    /// The difference of two numbers, rounded.
    pub fn sub(self, other: Binary32) -> (x: Binary32)
        ensures
            x == difference(self, other),
    {
        let a: u32 = self.magnitude_bits();
        let b: u32 = other.magnitude_bits();
        let neg_a: bool = self.bits >= SIGN;
        let neg_b: bool = other.bits >= SIGN;
        if a > INFINITY || b > INFINITY || (a == INFINITY && b == INFINITY && neg_a == neg_b) {
            return Binary32 { bits: NOT_A_NUMBER };
        }
        if a == INFINITY {
            return self;
        }
        if b == INFINITY {
            return with_sign(!neg_b, INFINITY);
        }
        proof {
            lemma_exact(a as int);
            lemma_exact(b as int);
        }
        let opposite = with_sign(!neg_b, b);
        if a == 0 && b == 0 {
            return with_sign(neg_a && !neg_b, 0);
        }
        if a == 0 {
            return opposite;
        }
        if b == 0 {
            return self;
        }
        let (ma, xa) = parts(a);
        let (mb, xb) = parts(b);
        if xa >= xb {
            add_ordered(self, opposite)
        } else {
            add_ordered(opposite, self)
        }
    }
}

}
