//! Positive binary64 numbers with exact, correctly rounded arithmetic.
//!
//! Resize geometry is defined by double-precision arithmetic: the rounding of
//! each quotient, product and square root decides the last multiple of the
//! patch size. The operations here produce the significand and exponent that
//! round-to-nearest, ties-to-even gives, computed on integers, so that their
//! results can be specified as real numbers rounded once.
use vstd::prelude::*;

verus! {

/// Smallest significand of a normal number, `2^52`.
pub const MANT_MIN: u64 = 0x10_0000_0000_0000;

/// One past the largest significand, `2^53`.
pub const MANT_END: u64 = 0x20_0000_0000_0000;

/// `2^105`, from which on a product of two significands has 106 bits.
const WIDE_PRODUCT: u128 = 0x2_0000_0000_0000_0000_0000_0000_00;

/// Two to the power of `e`, for any integer `e`.
pub open spec fn p2(e: int) -> real
    decreases (if e >= 0 { e } else { -e }),
{
    if e == 0 {
        1real
    } else if e > 0 {
        2real * p2(e - 1)
    } else {
        p2(e + 1) / 2real
    }
}

/// Whether `n` is the greatest integer that is not above `r`.
pub open spec fn is_floor(r: real, n: int) -> bool {
    n as real <= r < n as real + 1real
}

/// The greatest integer that is not above `r`.
pub open spec fn floor(r: real) -> int {
    choose|n: int| is_floor(r, n)
}

/// Whether `n` is the least integer that is not below `r`.
pub open spec fn is_ceil(r: real, n: int) -> bool {
    n as real - 1real < r <= n as real
}

/// The least integer that is not below `r`.
pub open spec fn ceil(r: real) -> int {
    choose|n: int| is_ceil(r, n)
}

/// A positive normal binary64 number, `mant * 2^exp`.
#[derive(Clone, Copy, Debug, PartialEq, Eq, Structural)]
pub struct Binary64 {
    pub mant: u64,
    pub exp: i32,
}

impl Binary64 {
    /// The significand has exactly 53 bits and the exponent is in the normal range.
    pub open spec fn wf(self) -> bool {
        &&& MANT_MIN <= self.mant < MANT_END
        &&& -1074 <= self.exp <= 971
    }

    /// The real number that is represented.
    pub open spec fn value(self) -> real {
        (self.mant as real) * p2(self.exp as int)
    }
}

/// Whether `x` is what round-to-nearest, ties-to-even makes of `r`: `x` lies
/// within half a unit in the last place, on the even side of a tie. Just below
/// a power of two the units are half as large.
pub open spec fn rounds_to(r: real, x: Binary64) -> bool {
    let unit = p2(x.exp as int);
    let above = 2real * (r - x.value());
    let below = 2real * (x.value() - r);
    &&& x.wf()
    &&& above <= unit
    &&& above == unit ==> x.mant % 2 == 0
    &&& if x.mant == MANT_MIN {
        2real * below <= unit
    } else {
        below <= unit && (below == unit ==> x.mant % 2 == 0)
    }
}

/// The binary64 number that `r` rounds to.
pub open spec fn nearest(r: real) -> Binary64 {
    choose|x: Binary64| rounds_to(r, x)
}

/// An integer as a binary64 number.
pub open spec fn double(n: int) -> real {
    nearest(n as real).value()
}

/// Whether `x` is the correctly rounded square root of `r`: the root lies
/// strictly inside the interval of numbers that round to `x`.
pub open spec fn root_rounds_to(r: real, x: Binary64) -> bool {
    let unit = p2(x.exp as int);
    let low = x.value() - (if x.mant == MANT_MIN { unit / 4real } else { unit / 2real });
    let high = x.value() + unit / 2real;
    &&& x.wf()
    &&& low * low < r
    &&& r < high * high
}

/// The binary64 number that the square root of `r` rounds to.
pub open spec fn nearest_root(r: real) -> Binary64 {
    choose|x: Binary64| root_rounds_to(r, x)
}

pub proof fn lemma_p2_step(e: int)
    ensures
        p2(e + 1) == 2real * p2(e),
{
    reveal_with_fuel(p2, 3);
}

pub proof fn lemma_p2_pos(e: int)
    ensures
        p2(e) > 0real,
    decreases (if e >= 0 { e } else { -e }),
{
    if e > 0 {
        lemma_p2_pos(e - 1);
    } else if e < 0 {
        lemma_p2_pos(e + 1);
    }
}

pub proof fn lemma_p2_add(a: int, b: int)
    ensures
        p2(a + b) == p2(a) * p2(b),
    decreases (if b >= 0 { b } else { -b }),
{
    if b > 0 {
        lemma_p2_add(a, b - 1);
        lemma_p2_step(a + b - 1);
        lemma_p2_step(b - 1);
        let x = p2(a);
        let y = p2(b - 1);
        assert(2real * (x * y) == x * (2real * y)) by (nonlinear_arith);
    } else if b < 0 {
        lemma_p2_add(a, b + 1);
        lemma_p2_step(a + b);
        lemma_p2_step(b);
        let x = p2(a);
        let y = p2(b);
        assert((x * (2real * y)) == 2real * (x * y)) by (nonlinear_arith);
    }
}

pub proof fn lemma_p2_le(a: int, b: int)
    requires
        a <= b,
    ensures
        p2(a) <= p2(b),
    decreases b - a,
{
    if a < b {
        lemma_p2_le(a, b - 1);
        lemma_p2_step(b - 1);
        lemma_p2_pos(b - 1);
    }
}

pub proof fn lemma_floor(r: real, n: int)
    requires
        is_floor(r, n),
    ensures
        floor(r) == n,
{
    assert(is_floor(r, floor(r)));
}

pub proof fn lemma_ceil(r: real, n: int)
    requires
        is_ceil(r, n),
    ensures
        ceil(r) == n,
{
    assert(is_ceil(r, ceil(r)));
}

/// The value of a smaller exponent lies below every value of a larger one.
pub proof fn lemma_binades(x: Binary64, y: Binary64)
    requires
        x.wf(),
        y.wf(),
        x.exp < y.exp,
    ensures
        p2(x.exp as int) * 2real <= p2(y.exp as int),
        x.value() + p2(x.exp as int) <= MANT_MIN as real * p2(y.exp as int),
        MANT_MIN as real * p2(y.exp as int) <= y.value(),
{
    let u = p2(x.exp as int);
    let w = p2(y.exp as int);
    lemma_p2_step(x.exp as int);
    lemma_p2_le(x.exp + 1, y.exp as int);
    lemma_p2_pos(x.exp as int);
    lemma_p2_pos(y.exp as int);
    let m = x.mant as real;
    let k = y.mant as real;
    assert(m + 1real <= 9007199254740992real);
    assert(m * u + u <= 4503599627370496real * w) by (nonlinear_arith)
        requires
            m + 1real <= 9007199254740992real,
            u > 0real,
            2real * u <= w,
    ;
    assert(4503599627370496real * w <= k * w) by (nonlinear_arith)
        requires
            k >= 4503599627370496real,
            w > 0real,
    ;
}

proof fn lemma_rounds_to_one_binade(r: real, x: Binary64, y: Binary64)
    requires
        rounds_to(r, x),
        rounds_to(r, y),
    ensures
        x.exp >= y.exp,
{
    if x.exp < y.exp {
        lemma_binades(x, y);
        let u = p2(x.exp as int);
        let w = p2(y.exp as int);
        let m = x.mant as real;
        let k = y.mant as real;
        lemma_p2_pos(x.exp as int);
        assert(18014398509481983real * w <= 4real * r) by {
            if y.mant > MANT_MIN {
                assert(k >= 4503599627370497real);
                assert(4real * (k * w) - 2real * w >= 18014398509481983real * w) by (nonlinear_arith)
                    requires
                        k >= 4503599627370497real,
                        w > 0real,
                ;
            } else {
                assert(k == 4503599627370496real);
                assert(y.value() == 4503599627370496real * w);
            }
        }
        assert(18014398509481983real * u <= 2real * r);
        if x.mant == MANT_END - 1 {
            assert(2real * (r - m * u) == u) by (nonlinear_arith)
                requires
                    18014398509481983real * u <= 2real * r,
                    2real * (r - m * u) <= u,
                    m == 9007199254740991real,
            ;
        } else {
            assert(2real * (m * u) + u < 18014398509481983real * u) by (nonlinear_arith)
                requires
                    m <= 9007199254740990real,
                    u > 0real,
            ;
        }
    }
}

/// Rounding is a function: no real number rounds to two different numbers.
pub proof fn lemma_rounds_to_unique(r: real, x: Binary64, y: Binary64)
    requires
        rounds_to(r, x),
        rounds_to(r, y),
    ensures
        x == y,
{
    lemma_p2_pos(x.exp as int);
    lemma_rounds_to_one_binade(r, x, y);
    lemma_rounds_to_one_binade(r, y, x);
    if x.mant != y.mant {
        let u = p2(x.exp as int);
        let a = x.mant as real;
        let b = y.mant as real;
        if x.mant < y.mant {
            assert((b - a) * u >= u) by (nonlinear_arith)
                requires
                    b - a >= 1real,
                    u > 0real,
            ;
            assert((b - a) * u == b * u - a * u) by (nonlinear_arith);
            if y.mant - x.mant >= 2 {
                assert((b - a) * u >= 2real * u) by (nonlinear_arith)
                    requires
                        b - a >= 2real,
                        u > 0real,
                ;
            }
        } else {
            assert((a - b) * u >= u) by (nonlinear_arith)
                requires
                    a - b >= 1real,
                    u > 0real,
            ;
            assert((a - b) * u == a * u - b * u) by (nonlinear_arith);
            if x.mant - y.mant >= 2 {
                assert((a - b) * u >= 2real * u) by (nonlinear_arith)
                    requires
                        a - b >= 2real,
                        u > 0real,
                ;
            }
        }
    }
}

pub proof fn lemma_nearest(r: real, x: Binary64)
    requires
        rounds_to(r, x),
    ensures
        nearest(r) == x,
{
    lemma_rounds_to_unique(r, nearest(r), x);
}

/// A number with 53 integer bits, rounded to an integer and then scaled, is
/// correctly rounded.
proof fn lemma_round_scaled(t: real, q: int, m: int, exp: int)
    requires
        is_floor(t, q),
        MANT_MIN <= q < MANT_END,
        -1074 <= exp < 971,
        m == if 2real * (t - q as real) > 1real || (2real * (t - q as real) == 1real && q % 2 == 1) {
            q + 1
        } else {
            q
        },
    ensures
        ({
            let x = if m == MANT_END {
                Binary64 { mant: MANT_MIN, exp: (exp + 1) as i32 }
            } else {
                Binary64 { mant: m as u64, exp: exp as i32 }
            };
            rounds_to(t * p2(exp), x)
        }),
{
    let u = p2(exp);
    let mr = m as real;
    lemma_p2_pos(exp);
    lemma_p2_step(exp);
    let g = t - mr;
    assert(t * u - mr * u == g * u) by (nonlinear_arith)
        requires
            g == t - mr,
    ;
    assert(2real * g <= 1real && 2real * g >= -1real);
    assert(2real * (g * u) <= u && 2real * (g * u) >= -u) by (nonlinear_arith)
        requires
            2real * g <= 1real && 2real * g >= -1real,
            u > 0real,
    ;
    if 2real * g < 1real {
        assert(2real * (g * u) < u) by (nonlinear_arith)
            requires
                2real * g < 1real,
                u > 0real,
        ;
    }
    if 2real * g > -1real {
        assert(2real * (g * u) > -u) by (nonlinear_arith)
            requires
                2real * g > -1real,
                u > 0real,
        ;
    }
    if m == MANT_END {
        assert(mr == 9007199254740992real);
        assert(mr * u == 4503599627370496real * (2real * u)) by (nonlinear_arith)
            requires
                mr == 9007199254740992real,
        ;
    } else if m == MANT_MIN {
        assert(g >= 0real);
        assert(g * u >= 0real) by (nonlinear_arith)
            requires
                g >= 0real,
                u > 0real,
        ;
    }
}

proof fn lemma_round_up_or_down(n: int, d: int, q: int, m: int, exp: int)
    requires
        0 < d,
        q == n / d,
        MANT_MIN <= q < MANT_END,
        -1074 <= exp < 971,
        ({
            let r = n - q * d;
            m == if 2 * r > d || (2 * r == d && q % 2 == 1) {
                q + 1
            } else {
                q
            }
        }),
    ensures
        ({
            let x = if m == MANT_END {
                Binary64 { mant: MANT_MIN, exp: (exp + 1) as i32 }
            } else {
                Binary64 { mant: m as u64, exp: exp as i32 }
            };
            rounds_to((n as real / d as real) * p2(exp), x)
        }),
{
    let r = n - q * d;
    assert(q * d <= n < q * d + d) by (nonlinear_arith)
        requires
            0 < d,
            q == n / d,
    ;
    let t = n as real / d as real;
    let dr = d as real;
    let qr = q as real;
    let rr = r as real;
    assert((q * d) as real == qr * dr) by (nonlinear_arith)
        requires
            qr == q as real,
            dr == d as real,
    ;
    assert(n as real == qr * dr + rr);
    let nr = n as real;
    assert(t * dr == nr) by (nonlinear_arith)
        requires
            t == nr / dr,
            dr > 0real,
    ;
    let f = t - qr;
    assert(f * dr == rr) by (nonlinear_arith)
        requires
            f == t - qr,
            t * dr == nr,
            nr == qr * dr + rr,
    ;
    assert(0real <= f < 1real) by (nonlinear_arith)
        requires
            f * dr == rr,
            0real <= rr < dr,
    ;
    if 2 * r > d {
        assert(2real * f > 1real) by (nonlinear_arith)
            requires
                f * dr == rr,
                2real * rr > dr,
                dr > 0real,
        ;
    } else if 2 * r == d {
        assert(2real * f == 1real) by (nonlinear_arith)
            requires
                f * dr == rr,
                2real * rr == dr,
                dr > 0real,
        ;
    } else {
        assert(2real * f < 1real) by (nonlinear_arith)
            requires
                f * dr == rr,
                2real * rr < dr,
                dr > 0real,
        ;
    }
    lemma_round_scaled(t, q, m, exp);
}

/// Rounds `n / d * 2^exp`, where the quotient has 53 integer bits.
fn round_quotient(n: u128, d: u128, exp: i32) -> (x: Binary64)
    requires
        0 < d,
        MANT_MIN * d <= n < MANT_END * d,
        -1074 <= exp < 971,
    ensures
        x.wf(),
        x == nearest((n as real / d as real) * p2(exp as int)),
        rounds_to((n as real / d as real) * p2(exp as int), x),
        exp <= x.exp <= exp + 1,
{
    let q: u128 = n / d;
    proof {
        assert(MANT_MIN <= q < MANT_END && q * d <= n) by (nonlinear_arith)
            requires
                0 < d,
                MANT_MIN * d <= n < MANT_END * d,
                q == n / d,
        ;
        assert(n - q * d < d) by (nonlinear_arith)
            requires
                0 < d,
                q == n / d,
        ;
    }
    let r: u128 = n - q * d;
    let up: bool = r > d - r || (r == d - r && q % 2 == 1);
    let m: u64 = if up { q as u64 + 1 } else { q as u64 };
    proof {
        lemma_round_up_or_down(n as int, d as int, q as int, m as int, exp as int);
    }
    let x = if m == MANT_END {
        Binary64 { mant: MANT_MIN, exp: exp + 1 }
    } else {
        Binary64 { mant: m, exp }
    };
    proof {
        lemma_nearest((n as real / d as real) * p2(exp as int), x);
    }
    x
}

proof fn lemma_p2_52()
    ensures
        p2(52) == 4503599627370496real,
        p2(53) == 9007199254740992real,
        p2(-52) * 4503599627370496real == 1real,
{
    reveal_with_fuel(p2, 54);
    lemma_p2_add(52, -52);
}

/// Numbers of different exponents, or of one exponent and different
/// significands, have disjoint rounding intervals.
proof fn lemma_interval_order(x: Binary64, y: Binary64)
    requires
        x.wf(),
        y.wf(),
        x.exp < y.exp || (x.exp == y.exp && x.mant < y.mant),
    ensures
        0real < x.value() + p2(x.exp as int) / 2real,
        x.value() + p2(x.exp as int) / 2real <= y.value() - (if y.mant == MANT_MIN {
            p2(y.exp as int) / 4real
        } else {
            p2(y.exp as int) / 2real
        }),
        x.value() < y.value(),
{
    let u = p2(x.exp as int);
    let w = p2(y.exp as int);
    let m = x.mant as real;
    let k = y.mant as real;
    lemma_p2_pos(x.exp as int);
    lemma_p2_pos(y.exp as int);
    assert(m * u > 0real) by (nonlinear_arith)
        requires
            m > 0real,
            u > 0real,
    ;
    if x.exp < y.exp {
        lemma_binades(x, y);
        assert(2real * (m * u) + u <= 18014398509481983real * u) by (nonlinear_arith)
            requires
                m <= 9007199254740991real,
                u > 0real,
        ;
        if y.mant > MANT_MIN {
            assert(4real * (k * w) - 2real * w >= 18014398509481983real * w) by (nonlinear_arith)
                requires
                    k >= 4503599627370497real,
                    w > 0real,
            ;
        } else {
            assert(k == 4503599627370496real);
            assert(y.value() == 4503599627370496real * w);
        }
    } else {
        assert(m * u + u <= k * u) by (nonlinear_arith)
            requires
                m + 1real <= k,
                u > 0real,
        ;
    }
}

proof fn lemma_square_order(a: real, b: real)
    requires
        0real < a <= b,
    ensures
        a * a <= b * b,
{
    assert(a * a <= b * b) by (nonlinear_arith)
        requires
            0real < a <= b,
    ;
}

pub proof fn lemma_nearest_root(r: real, x: Binary64)
    requires
        root_rounds_to(r, x),
    ensures
        nearest_root(r) == x,
{
    let y = nearest_root(r);
    assert(root_rounds_to(r, y));
    let xu = p2(x.exp as int);
    let yu = p2(y.exp as int);
    if x.exp < y.exp || (x.exp == y.exp && x.mant < y.mant) {
        lemma_interval_order(x, y);
        lemma_square_order(
            x.value() + xu / 2real,
            y.value() - (if y.mant == MANT_MIN { yu / 4real } else { yu / 2real }),
        );
    } else if x != y {
        lemma_interval_order(y, x);
        lemma_square_order(
            y.value() + yu / 2real,
            x.value() - (if x.mant == MANT_MIN { xu / 4real } else { xu / 2real }),
        );
    }
}

/// A number that is representable rounds to itself.
pub proof fn lemma_nearest_exact(x: Binary64)
    requires
        x.wf(),
    ensures
        nearest(x.value()) == x,
        rounds_to(x.value(), x),
{
    lemma_p2_pos(x.exp as int);
    lemma_nearest(x.value(), x);
}

impl Binary64 {
    /// The quotient of two numbers, rounded.
    #[verifier::spinoff_prover]
    pub fn div(self, other: Binary64) -> (x: Binary64)
        requires
            self.wf(),
            other.wf(),
            -1021 <= self.exp - other.exp < 1022,
        ensures
            x.wf(),
            x == nearest(self.value() / other.value()),
            rounds_to(self.value() / other.value(), x),
            self.exp - other.exp - 53 <= x.exp <= self.exp - other.exp - 51,
    {
        let s: i32 = if self.mant >= other.mant { 52 } else { 53 };
        let scale: u128 = if self.mant >= other.mant { MANT_MIN as u128 } else { MANT_END as u128 };
        proof {
            let a = self.mant as int;
            let b = other.mant as int;
            assert(a * MANT_END <= MANT_END * MANT_END && a * MANT_MIN <= MANT_END * MANT_END)
                by (nonlinear_arith)
                requires
                    0 <= a <= MANT_END,
            ;
            if a >= b {
                assert(MANT_MIN * b <= a * MANT_MIN < MANT_END * b) by (nonlinear_arith)
                    requires
                        b <= a < MANT_END,
                        MANT_MIN <= b,
                        MANT_END == 2 * MANT_MIN,
                ;
            } else {
                assert(MANT_MIN * b <= a * MANT_END < MANT_END * b) by (nonlinear_arith)
                    requires
                        MANT_MIN <= a < b < MANT_END,
                        MANT_END == 2 * MANT_MIN,
                ;
            }
        }
        let n: u128 = self.mant as u128 * scale;
        let d: u128 = other.mant as u128;
        let exp: i32 = self.exp - other.exp - s;
        proof {
            lemma_p2_52();
            lemma_p2_add(exp as int, s as int);
            lemma_p2_add(exp + s, other.exp as int);
            lemma_p2_pos(other.exp as int);
            let a = self.mant as real;
            let b = other.mant as real;
            let c = p2(s as int);
            let e = p2(exp as int);
            let w = p2(other.exp as int);
            let nr = n as real;
            assert(n as real == a * c) by (nonlinear_arith)
                requires
                    n == self.mant * scale,
                    a == self.mant as real,
                    c == scale as real,
            ;
            assert((nr / b) * e == (a * ((e * c) * w)) / (b * w)) by (nonlinear_arith)
                requires
                    nr == a * c,
                    b > 0real,
                    w > 0real,
            ;
        }
        round_quotient(n, d, exp)
    }

    /// The product of two numbers, rounded.
    #[verifier::spinoff_prover]
    pub fn mul(self, other: Binary64) -> (x: Binary64)
        requires
            self.wf(),
            other.wf(),
            -1126 <= self.exp + other.exp < 918,
        ensures
            x.wf(),
            x == nearest(self.value() * other.value()),
            rounds_to(self.value() * other.value(), x),
            self.exp + other.exp + 52 <= x.exp <= self.exp + other.exp + 54,
    {
        proof {
            let a = self.mant as int;
            let b = other.mant as int;
            assert(MANT_MIN * MANT_MIN <= a * b < MANT_END * MANT_END) by (nonlinear_arith)
                requires
                    MANT_MIN <= a < MANT_END,
                    MANT_MIN <= b < MANT_END,
            ;
        }
        let n: u128 = self.mant as u128 * other.mant as u128;
        let wide: bool = n >= WIDE_PRODUCT;
        let s: i32 = if wide { 53 } else { 52 };
        let d: u128 = if wide { MANT_END as u128 } else { MANT_MIN as u128 };
        let exp: i32 = self.exp + other.exp + s;
        proof {
            lemma_p2_52();
            lemma_p2_add(self.exp + other.exp, s as int);
            lemma_p2_add(self.exp as int, other.exp as int);
            let a = self.mant as real;
            let b = other.mant as real;
            let c = p2(s as int);
            let v = p2(self.exp as int);
            let w = p2(other.exp as int);
            let nr = n as real;
            assert(n as real == a * b) by (nonlinear_arith)
                requires
                    n == self.mant * other.mant,
                    a == self.mant as real,
                    b == other.mant as real,
            ;
            assert((nr / c) * ((v * w) * c) == (a * v) * (b * w)) by (nonlinear_arith)
                requires
                    nr == a * b,
                    c > 0real,
            ;
        }
        round_quotient(n, d, exp)
    }

    /// The number nearest to a positive integer.
    pub fn from_int(n: u128) -> (x: Binary64)
        requires
            0 < n,
        ensures
            x.wf(),
            x == nearest(n as real),
            rounds_to(n as real, x),
            -52 <= x.exp <= 76,
            n < MANT_END ==> x.value() == n as real,
    {
        if n < MANT_END as u128 {
            let mut mant: u64 = n as u64;
            let mut exp: i32 = 0;
            let ghost left: int = 52;
            proof {
                lemma_p2_pos(52);
                assert(mant as real * p2(52) >= p2(52)) by (nonlinear_arith)
                    requires
                        mant as real >= 1real,
                        p2(52) > 0real,
                ;
            }
            while mant < MANT_MIN
                invariant
                    0 < mant < MANT_END,
                    -52 <= exp <= 0,
                    mant as real * p2(exp as int) == n as real,
                    left == 52 + exp,
                    mant as real * p2(left) >= p2(52),
                decreases MANT_END - mant,
            {
                let ghost w = p2(exp - 1);
                let ghost z = p2(left - 1);
                let ghost m = mant as real;
                proof {
                    lemma_p2_step(exp - 1);
                    lemma_p2_step(left - 1);
                    lemma_p2_52();
                    lemma_p2_pos(left);
                    if left <= 0 {
                        lemma_p2_le(left, 0);
                        assert(m * p2(left) < 4503599627370496real) by (nonlinear_arith)
                            requires
                                m < 4503599627370496real,
                                m > 0real,
                                0real < p2(left) <= 1real,
                        ;
                    }
                }
                mant = mant * 2;
                exp = exp - 1;
                proof {
                    left = left - 1;
                    assert((2real * m) * w == m * (2real * w)) by (nonlinear_arith);
                    assert((2real * m) * z == m * (2real * z)) by (nonlinear_arith);
                }
            }
            let x = Binary64 { mant, exp };
            proof {
                lemma_nearest_exact(x);
            }
            x
        } else {
            let mut d: u128 = 1;
            let mut exp: i32 = 0;
            while n / d >= MANT_END as u128
                invariant
                    0 < d,
                    MANT_MIN * d <= n,
                    0 <= exp <= 75,
                    d as real == p2(exp as int),
                decreases n - d,
            {
                proof {
                    lemma_p2_step(exp as int);
                    assert(MANT_END * d <= n) by (nonlinear_arith)
                        requires
                            n / d >= MANT_END,
                            0 < d,
                    ;
                    if exp >= 75 {
                        lemma_p2_le(75, exp as int);
                        lemma_p2_75();
                        assert(d >= 37778931862957161709568);
                    }
                }
                d = d * 2;
                exp = exp + 1;
            }
            proof {
                assert(n < MANT_END * d) by (nonlinear_arith)
                    requires
                        n / d < MANT_END,
                        0 < d,
                ;
                let c = d as real;
                let nr = n as real;
                assert((nr / c) * c == nr) by (nonlinear_arith)
                    requires
                        c > 0real,
                ;
            }
            round_quotient(n, d, exp)
        }
    }

    /// The square root, rounded.
    #[verifier::spinoff_prover]
    pub fn sqrt(self) -> (x: Binary64)
        requires
            self.wf(),
        ensures
            x.wf(),
            x == nearest_root(self.value()),
            root_rounds_to(self.value(), x),
            self.exp - 54 <= 2 * x.exp <= self.exp - 51,
    {
        let biased: u32 = (self.exp + 1200) as u32;
        let odd: bool = biased % 2 == 1;
        let s: u32 = if odd { 53 } else { 52 };
        let n: u128 = if odd {
            self.mant as u128 * 0x20_0000_0000_0000u128
        } else {
            self.mant as u128 * 0x10_0000_0000_0000u128
        };
        let exp: i32 = ((biased - s) / 2) as i32 - 600;
        assert(2 * exp == self.exp - s);
        let (low, up) = integer_root(n);
        let mant: u64 = if up { low + 1 } else { low };
        let x = Binary64 { mant, exp };
        proof {
            lemma_root_of_scaled(self, n as int, low as int, x);
        }
        x
    }
}

/// The integer square root of a number of 105 or 106 bits, and whether the
/// root lies above its midpoint to the next integer.
fn integer_root(n: u128) -> (r: (u64, bool))
    requires
        MANT_MIN * MANT_MIN <= n < MANT_END * MANT_END,
    ensures
        MANT_MIN <= r.0 < MANT_END,
        r.0 * r.0 <= n < (r.0 + 1) * (r.0 + 1),
        r.1 == (n - r.0 * r.0 > r.0),
{
    let mut low: u64 = MANT_MIN;
    let mut high: u64 = MANT_END;
    while high - low > 1
        invariant
            MANT_MIN <= low < high <= MANT_END,
            low * low <= n < high * high,
        decreases high - low,
    {
        let mid: u64 = low + (high - low) / 2;
        proof {
            vstd::arithmetic::mul::lemma_mul_upper_bound(
                mid as int,
                MANT_END as int,
                mid as int,
                MANT_END as int,
            );
        }
        if mid as u128 * mid as u128 <= n {
            low = mid;
        } else {
            high = mid;
        }
    }
    proof {
        vstd::arithmetic::mul::lemma_mul_upper_bound(
            low as int,
            MANT_END as int,
            low as int,
            MANT_END as int,
        );
    }
    let rest: u128 = n - low as u128 * low as u128;
    (low, rest > low as u128)
}

proof fn lemma_regroup(a: real, b: real, c: real)
    ensures
        a * (b * c) == (a * c) * b,
{
    assert(a * (b * c) == (a * c) * b) by (nonlinear_arith);
}

pub proof fn lemma_product_as_real(a: int, b: int)
    ensures
        (a * b) as real == (a as real) * (b as real),
{
    assert((a * b) as real == (a as real) * (b as real)) by (nonlinear_arith);
}

proof fn lemma_nearby_squares(a: real)
    ensures
        (a - 1real / 2real) * (a - 1real / 2real) == a * a - a + 1real / 4real,
        (a - 1real / 4real) * (a - 1real / 4real) == a * a - a / 2real + 1real / 16real,
        (a + 1real / 2real) * (a + 1real / 2real) == a * a + a + 1real / 4real,
        (a + 1real) * (a + 1real) == a * a + 2real * a + 1real,
        (a + 3real / 2real) * (a + 3real / 2real) == a * a + 3real * a + 9real / 4real,
{
    assert((a - 1real / 2real) * (a - 1real / 2real) == a * a - a + 1real / 4real)
        by (nonlinear_arith);
    assert((a - 1real / 4real) * (a - 1real / 4real) == a * a - a / 2real + 1real / 16real)
        by (nonlinear_arith);
    assert((a + 1real / 2real) * (a + 1real / 2real) == a * a + a + 1real / 4real)
        by (nonlinear_arith);
    assert((a + 1real) * (a + 1real) == a * a + 2real * a + 1real) by (nonlinear_arith);
    assert((a + 3real / 2real) * (a + 3real / 2real) == a * a + 3real * a + 9real / 4real)
        by (nonlinear_arith);
}

proof fn lemma_square_of_product(a: real, b: real)
    ensures
        (a * b) * (a * b) == (a * a) * (b * b),
{
    assert((a * b) * (a * b) == (a * a) * (b * b)) by (nonlinear_arith);
}

proof fn lemma_scale_less(a: real, b: real, c: real)
    requires
        a < b,
    ensures
        c > 0real ==> a * c < b * c,
{
    if c > 0real {
        assert(a * c < b * c) by (nonlinear_arith)
            requires
                a < b,
                c > 0real,
        ;
    }
}

proof fn lemma_p2_75()
    ensures
        p2(75) == 37778931862957161709568real,
{
    lemma_p2_52();
    lemma_p2_add(53, 22);
    reveal_with_fuel(p2, 24);
}

proof fn lemma_root_of_scaled(v: Binary64, n: int, low: int, x: Binary64)
    requires
        v.wf(),
        MANT_MIN <= low < MANT_END,
        low * low <= n < (low + 1) * (low + 1),
        n <= (MANT_END - 1) * MANT_END,
        x.mant == if n - low * low > low {
            low + 1
        } else {
            low
        },
        v.exp - 53 <= 2 * x.exp <= v.exp - 52,
        n == v.mant * (if 2 * x.exp == v.exp - 53 {
            MANT_END
        } else {
            MANT_MIN
        }),
    ensures
        x.wf(),
        root_rounds_to(v.value(), x),
        x == nearest_root(v.value()),
{
    assert(x.mant < MANT_END) by {
        if low == MANT_END - 1 {
            assert(low * low + low == (MANT_END - 1) * MANT_END) by (nonlinear_arith)
                requires
                    low == MANT_END - 1,
            ;
        }
    }
    let u = p2(x.exp as int);
    let s = v.exp - 2 * x.exp;
    let c = p2(s);
    let a = v.mant as real;
    let nr = n as real;
    lemma_p2_52();
    lemma_p2_pos(x.exp as int);
    lemma_p2_add(x.exp as int, x.exp as int);
    lemma_p2_add(2 * x.exp, s);
    if s == 53 {
        assert(n == v.mant * 9007199254740992);
        assert(nr == a * 9007199254740992real);
    } else {
        assert(n == v.mant * 4503599627370496);
        assert(nr == a * 4503599627370496real);
    }
    let q = u * u;
    lemma_regroup(a, q, c);
    let m = x.mant as real;
    let l = low as real;
    let sq = l * l;
    lemma_product_as_real(low, low);
    lemma_product_as_real(low + 1, low + 1);
    lemma_nearby_squares(l);
    let below = if x.mant == MANT_MIN {
        m - 1real / 4real
    } else {
        m - 1real / 2real
    };
    let above = m + 1real / 2real;
    assert(below * below < nr && nr < above * above) by {
        if n - low * low > low {
            assert(nr >= sq + l + 1real);
            assert(below == l + 1real / 2real);
            assert(above == l + 3real / 2real);
        } else {
            assert(nr <= sq + l);
            assert(above == l + 1real / 2real);
        }
    }
    lemma_scale_less(below * below, nr, q);
    lemma_scale_less(nr, above * above, q);
    lemma_square_of_product(below, u);
    lemma_square_of_product(above, u);
    assert(q > 0real) by (nonlinear_arith)
        requires
            q == u * u,
            u > 0real,
    ;
    assert(above * u == m * u + u / 2real) by (nonlinear_arith)
        requires
            above == m + 1real / 2real,
    ;
    if x.mant == MANT_MIN {
        assert(below * u == m * u - u / 4real) by (nonlinear_arith)
            requires
                below == m - 1real / 4real,
        ;
    } else {
        assert(below * u == m * u - u / 2real) by (nonlinear_arith)
            requires
                below == m - 1real / 2real,
        ;
    }
    lemma_nearest_root(v.value(), x);
}

/// `n` clamped to the largest `usize`, as a conversion from binary64 clamps it.
pub open spec fn saturate(n: int) -> int {
    if n > usize::MAX {
        usize::MAX as int
    } else {
        n
    }
}

pub(crate) fn power_of_two(e: u32) -> (d: u128)
    requires
        e <= 64,
    ensures
        1 <= d <= 0x1_0000_0000_0000_0000,
        d as real == p2(e as int),
{
    let mut d: u128 = 1;
    let mut i: u32 = 0;
    while i < e
        invariant
            i <= e <= 64,
            1 <= d,
            d as real == p2(i as int),
        decreases e - i,
    {
        proof {
            lemma_p2_step(i as int);
            lemma_p2_le(i as int, 63);
            lemma_p2_64();
        }
        d = d * 2;
        i = i + 1;
    }
    proof {
        lemma_p2_le(e as int, 64);
        lemma_p2_64();
    }
    d
}

pub proof fn lemma_p2_44()
    ensures
        p2(44) == 17592186044416real,
        p2(0) == 1real,
{
    reveal_with_fuel(p2, 12);
    lemma_p2_add(11, 11);
    lemma_p2_add(22, 22);
    assert(p2(11) == 2048real);
    assert(2048real * 2048real == 4194304real) by (nonlinear_arith);
    assert(4194304real * 4194304real == 17592186044416real) by (nonlinear_arith);
}

pub proof fn lemma_p2_64()
    ensures
        p2(63) == 9223372036854775808real,
        p2(64) == 18446744073709551616real,
        p2(128) == 340282366920938463463374607431768211456real,
{
    lemma_p2_52();
    lemma_p2_add(53, 10);
    lemma_p2_add(53, 11);
    reveal_with_fuel(p2, 12);
    lemma_p2_add(64, 64);
    let big = p2(64);
    assert(big * big == 340282366920938463463374607431768211456real) by (nonlinear_arith)
        requires
            big == 18446744073709551616real,
    ;
}

/// Powers of two with a natural exponent are integers.
proof fn lemma_p2_is_integer(e: nat) -> (n: int)
    ensures
        n as real == p2(e as int),
    decreases e,
{
    if e == 0 {
        1
    } else {
        2 * lemma_p2_is_integer((e - 1) as nat)
    }
}

/// A number with a large exponent is an integer above every `usize`.
proof fn lemma_large_value(x: Binary64)
    requires
        x.wf(),
        x.exp > 64,
    ensures
        saturate(floor(x.value())) == usize::MAX,
        saturate(ceil(x.value())) == usize::MAX,
{
    let c = lemma_p2_is_integer(x.exp as nat);
    let n = x.mant * c;
    lemma_product_as_real(x.mant as int, c);
    lemma_floor(x.value(), n);
    lemma_ceil(x.value(), n);
    lemma_p2_64();
    lemma_p2_le(64, x.exp as int);
    assert(n >= 18446744073709551616) by (nonlinear_arith)
        requires
            n == x.mant * c,
            x.mant >= 1,
            c >= 18446744073709551616,
    ;
}

/// The integer part of a number with a negative exponent.
proof fn lemma_shift_right(m: int, d: int, k: int)
    requires
        0 < m,
        0 < d,
        d as real == p2(k),
    ensures
        is_floor(m as real * p2(-k), m / d),
        m % d == 0 ==> is_ceil(m as real * p2(-k), m / d),
        m % d != 0 ==> is_ceil(m as real * p2(-k), m / d + 1),
{
    let q = m / d;
    let r = m % d;
    vstd::arithmetic::div_mod::lemma_fundamental_div_mod(m, d);
    lemma_p2_add(k, -k);
    lemma_product_as_real(d, q);
    let w = p2(-k);
    let dr = d as real;
    let qr = q as real;
    let rr = r as real;
    assert(m as real == dr * qr + rr);
    assert((dr * qr + rr) * w == qr + rr * w) by (nonlinear_arith)
        requires
            dr * w == 1real,
    ;
    lemma_p2_pos(-k);
    assert(0real <= rr * w < 1real) by (nonlinear_arith)
        requires
            0real <= rr < dr,
            dr * w == 1real,
            w > 0real,
    ;
    if r != 0 {
        assert(rr * w > 0real) by (nonlinear_arith)
            requires
                rr > 0real,
                w > 0real,
        ;
    } else {
        assert(rr * w == 0real) by (nonlinear_arith)
            requires
                rr == 0real,
        ;
    }
}

/// A number with a very negative exponent lies strictly between 0 and 1.
proof fn lemma_small_value(x: Binary64)
    requires
        x.wf(),
        x.exp <= -53,
    ensures
        floor(x.value()) == 0,
        ceil(x.value()) == 1,
{
    lemma_p2_52();
    lemma_p2_add(53, -53);
    lemma_p2_le(x.exp as int, -53);
    lemma_p2_pos(x.exp as int);
    let m = x.mant as real;
    let w = p2(x.exp as int);
    let z = p2(-53);
    assert(0real < m * w < 1real) by (nonlinear_arith)
        requires
            0real < m < 9007199254740992real,
            0real < w <= z,
            9007199254740992real * z == 1real,
    ;
    lemma_floor(x.value(), 0);
    lemma_ceil(x.value(), 1);
}

/// Larger numbers have larger exponents, or larger significands.
proof fn lemma_order(x: Binary64, y: Binary64)
    requires
        x.wf(),
        y.wf(),
    ensures
        (x.value() < y.value()) == (x.exp < y.exp || (x.exp == y.exp && x.mant < y.mant)),
        (x.value() == y.value()) ==> x == y,
{
    if x.exp < y.exp || (x.exp == y.exp && x.mant < y.mant) {
        lemma_interval_order(x, y);
    } else if x != y {
        lemma_interval_order(y, x);
    }
}

impl Binary64 {
    /// The integer part, clamped to the range of `usize`.
    pub fn floor_to_usize(self) -> (n: usize)
        requires
            self.wf(),
        ensures
            n == saturate(floor(self.value())),
    {
        if self.exp > 64 {
            proof {
                lemma_large_value(self);
            }
            usize::MAX
        } else if self.exp >= 0 {
            let d: u128 = power_of_two(self.exp as u32);
            let n: u128 = self.shift_left(d);
            proof {
                lemma_floor(self.value(), n as int);
            }
            clamp_to_usize(n)
        } else if self.exp <= -53 {
            proof {
                lemma_small_value(self);
            }
            0
        } else {
            let d: u128 = power_of_two((0 - self.exp) as u32);
            proof {
                lemma_shift_right(self.mant as int, d as int, -self.exp as int);
                lemma_floor(self.value(), self.mant as int / d as int);
            }
            clamp_to_usize(self.mant as u128 / d)
        }
    }

    /// The least integer not below the number, clamped to the range of `usize`.
    pub fn ceil_to_usize(self) -> (n: usize)
        requires
            self.wf(),
        ensures
            n == saturate(ceil(self.value())),
    {
        if self.exp > 64 {
            proof {
                lemma_large_value(self);
            }
            usize::MAX
        } else if self.exp >= 0 {
            let d: u128 = power_of_two(self.exp as u32);
            let n: u128 = self.shift_left(d);
            proof {
                lemma_ceil(self.value(), n as int);
            }
            clamp_to_usize(n)
        } else if self.exp <= -53 {
            proof {
                lemma_small_value(self);
            }
            1
        } else {
            let d: u128 = power_of_two((0 - self.exp) as u32);
            let m: u128 = self.mant as u128;
            let rest: u128 = m % d;
            let n: u128 = if rest == 0 { m / d } else { m / d + 1 };
            proof {
                lemma_shift_right(self.mant as int, d as int, -self.exp as int);
                lemma_ceil(self.value(), n as int);
            }
            clamp_to_usize(n)
        }
    }

    fn shift_left(self, d: u128) -> (n: u128)
        requires
            self.wf(),
            1 <= d <= 0x1_0000_0000_0000_0000,
            d as real == p2(self.exp as int),
        ensures
            n as real == self.value(),
    {
        proof {
            vstd::arithmetic::mul::lemma_mul_upper_bound(
                self.mant as int,
                MANT_END as int,
                d as int,
                0x1_0000_0000_0000_0000,
            );
            lemma_product_as_real(self.mant as int, d as int);
        }
        self.mant as u128 * d
    }

    /// Whether the number is below another.
    pub fn less_than(self, other: Binary64) -> (b: bool)
        requires
            self.wf(),
            other.wf(),
        ensures
            b == (self.value() < other.value()),
    {
        proof {
            lemma_order(self, other);
        }
        self.exp < other.exp || (self.exp == other.exp && self.mant < other.mant)
    }

    /// The smaller of two numbers.
    pub fn min(self, other: Binary64) -> (x: Binary64)
        requires
            self.wf(),
            other.wf(),
        ensures
            x == (if other.value() < self.value() {
                other
            } else {
                self
            }),
    {
        if other.less_than(self) {
            other
        } else {
            self
        }
    }
}

fn clamp_to_usize(n: u128) -> (r: usize)
    ensures
        r == saturate(n as int),
{
    if n > usize::MAX as u128 {
        usize::MAX
    } else {
        n as usize
    }
}

/// The relative error of rounding is at most one in `2^53 - 1`.
pub proof fn lemma_relative_error(r: real, x: Binary64)
    requires
        rounds_to(r, x),
    ensures
        x.value() > 0real,
        r > 0real,
        9007199254740991real * (x.value() - r) <= r,
        9007199254740991real * (r - x.value()) <= x.value(),
        9007199254740991real * (r - x.value()) <= r,
{
    let u = p2(x.exp as int);
    let m = x.mant as real;
    let v = x.value();
    lemma_p2_pos(x.exp as int);
    assert(v >= 4503599627370496real * u) by (nonlinear_arith)
        requires
            v == m * u,
            m >= 4503599627370496real,
            u > 0real,
    ;
    if x.mant > MANT_MIN {
        assert(v >= 4503599627370497real * u) by (nonlinear_arith)
            requires
                v == m * u,
                m >= 4503599627370497real,
                u > 0real,
        ;
    }
}

/// The relative error of a rounded square root is at most one in `2^53`.
pub proof fn lemma_root_relative_error(r: real, x: Binary64)
    requires
        root_rounds_to(r, x),
    ensures
        x.value() > 0real,
        ({
            let low = x.value() - x.value() / 9007199254740992real;
            let high = x.value() + x.value() / 9007199254740992real;
            low * low < r && r < high * high
        }),
{
    let u = p2(x.exp as int);
    let m = x.mant as real;
    let v = x.value();
    lemma_p2_pos(x.exp as int);
    assert(v >= 4503599627370496real * u) by (nonlinear_arith)
        requires
            v == m * u,
            m >= 4503599627370496real,
            u > 0real,
    ;
    let d = v / 9007199254740992real;
    assert(u / 2real <= d);
    lemma_square_order(v - d, v - (if x.mant == MANT_MIN { u / 4real } else { u / 2real }));
    lemma_square_order(v + u / 2real, v + d);
}

/// Rounding keeps a number within a factor of two.
pub proof fn lemma_within_twice(r: real, x: Binary64)
    requires
        rounds_to(r, x),
    ensures
        0real < r <= 2real * x.value(),
        0real < x.value() <= 2real * r,
{
    lemma_relative_error(r, x);
}

/// Rounding a square root keeps its square within a factor of four.
pub proof fn lemma_root_within(r: real, x: Binary64)
    requires
        root_rounds_to(r, x),
    ensures
        x.value() > 0real,
        r < 4real * (x.value() * x.value()),
        x.value() * x.value() < 4real * r,
{
    lemma_root_relative_error(r, x);
    let v = x.value();
    let d = v / 9007199254740992real;
    lemma_square_order(v + d, 2real * v);
    lemma_square_order(v / 2real, v - d);
    assert((2real * v) * (2real * v) == 4real * (v * v)) by (nonlinear_arith);
    assert(4real * ((v / 2real) * (v / 2real)) == v * v) by (nonlinear_arith);
}

/// Every real number has an integer part.
pub proof fn lemma_floor_exists(r: real, bound: nat)
    requires
        0real <= r < bound as real,
    ensures
        is_floor(r, floor(r)),
        0 <= floor(r) < bound,
    decreases bound,
{
    if r < bound as real - 1real {
        lemma_floor_exists(r, (bound - 1) as nat);
    } else {
        lemma_floor(r, bound - 1);
    }
}

proof fn lemma_nearest_in_binade(r: real, e: int)
    requires
        -1074 <= e < 971,
        p2(e + 52) <= r < p2(e + 53),
    ensures
        rounds_to(r, nearest(r)),
{
    let u = p2(e);
    lemma_p2_pos(e);
    lemma_p2_52();
    lemma_p2_add(e, 52);
    lemma_p2_add(e, 53);
    let t = r / u;
    assert(t * u == r) by (nonlinear_arith)
        requires
            t == r / u,
            u > 0real,
    ;
    assert(4503599627370496real <= t < 9007199254740992real) by (nonlinear_arith)
        requires
            t * u == r,
            u * 4503599627370496real <= r < u * 9007199254740992real,
            u > 0real,
    ;
    lemma_floor_exists(t, 9007199254740992);
    let q = floor(t);
    let m = if 2real * (t - q as real) > 1real || (2real * (t - q as real) == 1real && q % 2 == 1) {
        q + 1
    } else {
        q
    };
    lemma_round_scaled(t, q, m, e);
    let x = if m == MANT_END {
        Binary64 { mant: MANT_MIN, exp: (e + 1) as i32 }
    } else {
        Binary64 { mant: m as u64, exp: e as i32 }
    };
    lemma_nearest(r, x);
}

/// Every real number in the normal range rounds to some binary64 number.
pub proof fn lemma_nearest_exists(r: real, low: int, high: int)
    requires
        -1022 <= low,
        high <= 1023,
        low < high,
        p2(low) <= r < p2(high),
    ensures
        rounds_to(r, nearest(r)),
    decreases high - low,
{
    if r < p2(low + 1) {
        lemma_nearest_in_binade(r, low - 52);
    } else {
        assert(low + 1 < high);
        lemma_nearest_exists(r, low + 1, high);
    }
}

/// Every integer from 1 to `2^128` rounds to some binary64 number.
pub proof fn lemma_nearest_of_int(n: int)
    requires
        0 < n < 0x1_0000_0000_0000_0000_0000_0000_0000_0000,
    ensures
        rounds_to(n as real, nearest(n as real)),
{
    lemma_p2_64();
    lemma_p2_add(64, 64);
    lemma_nearest_exists(n as real, 0, 128);
}

proof fn lemma_integer_root_exists(n: int, low: int, high: int) -> (r: int)
    requires
        0 <= low < high,
        low * low <= n < high * high,
    ensures
        low <= r < high,
        r * r <= n < (r + 1) * (r + 1),
    decreases high - low,
{
    if n < (low + 1) * (low + 1) {
        low
    } else {
        lemma_integer_root_exists(n, low + 1, high)
    }
}

/// Every binary64 number has a rounded square root.
pub proof fn lemma_root_exists(v: Binary64)
    requires
        v.wf(),
    ensures
        root_rounds_to(v.value(), nearest_root(v.value())),
{
    let biased = v.exp + 1200;
    let s = if biased % 2 == 1 {
        53int
    } else {
        52int
    };
    let n = if s == 53 {
        v.mant * 9007199254740992
    } else {
        v.mant * 4503599627370496
    };
    let exp = (biased - s) / 2 - 600;
    let low = lemma_integer_root_exists(n, MANT_MIN as int, MANT_END as int);
    let mant = if n - low * low > low {
        low + 1
    } else {
        low
    };
    lemma_root_of_scaled(v, n, low, Binary64 { mant: mant as u64, exp: exp as i32 });
}

/// The integer part of a number is a natural number, and so is the least
/// integer above it.
pub proof fn lemma_floor_of_number(x: Binary64)
    requires
        x.wf(),
    ensures
        is_floor(x.value(), floor(x.value())),
        is_ceil(x.value(), ceil(x.value())),
        0 <= floor(x.value()),
        0 <= ceil(x.value()),
{
    lemma_p2_pos(x.exp as int);
    if x.exp >= 0 {
        let c = lemma_p2_is_integer(x.exp as nat);
        lemma_product_as_real(x.mant as int, c);
        lemma_floor(x.value(), x.mant * c);
        lemma_ceil(x.value(), x.mant * c);
        assert(x.mant * c >= 0) by (nonlinear_arith)
            requires
                c > 0,
        ;
    } else {
        let d = lemma_p2_is_integer((-x.exp) as nat);
        lemma_p2_pos(-x.exp as int);
        lemma_shift_right(x.mant as int, d, -x.exp as int);
        let n = if x.mant as int % d == 0 {
            x.mant as int / d
        } else {
            x.mant as int / d + 1
        };
        lemma_floor(x.value(), x.mant as int / d);
        lemma_ceil(x.value(), n);
        vstd::arithmetic::div_mod::lemma_div_pos_is_pos(x.mant as int, d);
    }
}

/// Half of a number is a number.
proof fn lemma_half(x: Binary64) -> (y: Binary64)
    requires
        x.wf(),
        -1074 < x.exp,
    ensures
        y.wf(),
        y.exp == x.exp - 1,
        y.value() * 2real == x.value(),
        nearest(x.value() / 2real) == y,
{
    let y = Binary64 { mant: x.mant, exp: (x.exp - 1) as i32 };
    lemma_p2_step(x.exp - 1);
    let m = x.mant as real;
    let w = p2(x.exp - 1);
    assert((m * w) * 2real == m * (2real * w)) by (nonlinear_arith);
    lemma_nearest_exact(y);
    y
}

/// Integers below `2^53` are numbers, and so are their halves.
pub proof fn lemma_int_exact(n: int)
    requires
        0 < n < MANT_END,
    ensures
        nearest(n as real).wf(),
        nearest(n as real).value() == n as real,
        -52 <= nearest(n as real).exp <= 0,
        nearest(n as real / 2real).value() == n as real / 2real,
    decreases MANT_END - n,
{
    if n >= MANT_MIN {
        let x = Binary64 { mant: n as u64, exp: 0 };
        assert(x.value() == n as real);
        lemma_nearest_exact(x);
        let y = lemma_half(x);
    } else {
        lemma_int_exact(2 * n);
        let x = nearest((2 * n) as real);
        lemma_small_exponent(x, n);
        let y = lemma_half(x);
        let z = lemma_half(y);
    }
}

/// A number above 0 that is at most `2^53` and at least 2 has an exponent of at
/// least -51.
proof fn lemma_small_exponent(x: Binary64, n: int)
    requires
        x.wf(),
        0 < n,
        x.value() == (2 * n) as real,
    ensures
        -51 <= x.exp,
{
    if x.exp < -51 {
        lemma_p2_52();
        lemma_p2_le(x.exp as int, -52);
        lemma_p2_pos(x.exp as int);
        let m = x.mant as real;
        let w = p2(x.exp as int);
        let z = p2(-52);
        assert(m * w < 2real) by (nonlinear_arith)
            requires
                0real < m < 9007199254740992real,
                0real < w <= z,
                z * 4503599627370496real == 1real,
        ;
    }
}

/// Rounding keeps the order.
pub proof fn lemma_nearest_order(r: real, x: Binary64, s: real, y: Binary64)
    requires
        rounds_to(r, x),
        rounds_to(s, y),
        r <= s,
    ensures
        x.value() <= y.value(),
{
    if y.exp < x.exp || (y.exp == x.exp && y.mant < x.mant) {
        lemma_interval_order(y, x);
        assert(r == s);
        lemma_rounds_to_unique(r, x, y);
    } else if x != y {
        lemma_interval_order(x, y);
    }
}

}
