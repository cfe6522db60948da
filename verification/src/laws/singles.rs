//! What single-precision arithmetic gives: the number nearest to the exact result.
use crate::binary32::Binary32;
use crate::common::grid::normalize_lut;
use crate::qwen_vl::Resampler;
use vstd::prelude::*;

verus! {

/// Two to the power of `e`.
pub open spec fn power(e: int) -> real
    decreases (if e >= 0 { e } else { -e }),
{
    if e > 0 {
        2real * power(e - 1)
    } else if e < 0 {
        power(e + 1) / 2real
    } else {
        1real
    }
}

/// The exponent field.
pub open spec fn exponent_field(x: Binary32) -> int {
    (x.bits as int / 0x80_0000) % 256
}

/// The fraction field.
pub open spec fn fraction_field(x: Binary32) -> int {
    x.bits as int % 0x80_0000
}

/// Whether the sign bit is set.
pub open spec fn has_sign(x: Binary32) -> bool {
    x.bits >= 0x8000_0000
}

/// Whether an encoding is that of a number.
pub open spec fn is_number(x: Binary32) -> bool {
    exponent_field(x) != 255
}

/// Whether an encoding is that of an infinity.
pub open spec fn is_infinity(x: Binary32) -> bool {
    exponent_field(x) == 255 && fraction_field(x) == 0
}

/// Whether an encoding is that of no number.
pub open spec fn is_nan(x: Binary32) -> bool {
    exponent_field(x) == 255 && fraction_field(x) != 0
}

/// The number that is encoded.
pub open spec fn number(x: Binary32) -> real {
    let size = if exponent_field(x) == 0 {
        fraction_field(x) as real * power(-149)
    } else {
        (0x80_0000 + fraction_field(x)) as real * power(exponent_field(x) - 150)
    };
    if has_sign(x) {
        -size
    } else {
        size
    }
}

/// How far apart two numbers are.
pub open spec fn gap(a: real, b: real) -> real {
    if a >= b {
        a - b
    } else {
        b - a
    }
}

/// Whether no number is nearer to `r` than `x` is, and `x` is even where another one is as
/// near. From half a unit above the greatest number on, infinity is nearest.
pub open spec fn nearest_number(r: real, x: Binary32) -> bool {
    if gap(r, 0real) < 33554431real * power(103) {
        &&& is_number(x)
        &&& forall|y: Binary32| #[trigger]
            is_number(y) ==> {
                &&& gap(number(x), r) <= gap(number(y), r)
                &&& gap(number(x), r) == gap(number(y), r) && number(x) != number(y) ==> x.bits
                    % 2 == 0
            }
    } else {
        is_infinity(x)
    }
}

/// Powers of two are those of the contract.
pub proof fn lemma_power(e: int)
    ensures
        power(e) == crate::binary64::p2(e),
    decreases (if e >= 0 { e } else { -e }),
{
    if e > 0 {
        lemma_power(e - 1);
    } else if e < 0 {
        lemma_power(e + 1);
    }
}

/// The fields and the contract's view of an encoding.
pub proof fn lemma_fields(x: Binary32)
    ensures
        has_sign(x) == x.negative(),
        is_number(x) == x.finite(),
        is_infinity(x) == x.infinite(),
        is_nan(x) == x.nan(),
        is_number(x) ==> number(x) == x.value(),
        is_number(x) ==> (number(x) == 0real <==> x.zero()),
        x.zero() ==> x.finite(),
        x.bits % 2 == x.abs() % 2,
        0 <= x.abs(),
{
    let n = x.abs();
    assert(exponent_field(x) == n / 0x80_0000);
    assert(fraction_field(x) == n % 0x80_0000);
    lemma_power(-149);
    lemma_power(exponent_field(x) - 150);
    if is_number(x) {
        crate::binary32::lemma_exact(n);
        crate::binary32::lemma_exact(0);
    }
}

/// Every magnitude has an encoding.
proof fn lemma_encoding_exists(r: real, n: int)
    requires
        0 <= n <= crate::binary32::INFINITY,
        n < crate::binary32::INFINITY ==> {
            let high = crate::binary32::magnitude(n) + crate::binary32::magnitude(n + 1);
            2real * r <= high && (high == 2real * r ==> n % 2 == 0)
        },
    ensures
        crate::binary32::encodes(r, crate::binary32::encoding(r)),
    decreases n,
{
    let low = crate::binary32::magnitude(n - 1) + crate::binary32::magnitude(n);
    if n > 0 && !(low <= 2real * r && (low == 2real * r ==> n % 2 == 0)) {
        lemma_encoding_exists(r, n - 1);
    } else {
        assert(crate::binary32::encodes(r, n));
        crate::binary32::lemma_encoding(r, n);
    }
}

/// Where infinity begins.
proof fn lemma_limit()
    ensures
        crate::binary32::magnitude(crate::binary32::INFINITY - 1) + crate::binary32::magnitude(
            crate::binary32::INFINITY as int,
        ) == 2real * (33554431real * power(103)),
{
    lemma_power(103);
    crate::binary64::lemma_p2_step(103);
    crate::binary64::lemma_p2_step(104);
    let u = crate::binary64::p2(103);
    assert(crate::binary32::exponent(crate::binary32::INFINITY as int) == 105);
    assert(crate::binary32::significand(crate::binary32::INFINITY as int) == 0x80_0000);
    assert(crate::binary32::exponent(crate::binary32::INFINITY - 1) == 104);
    assert(crate::binary32::significand(crate::binary32::INFINITY - 1) == 0xff_ffff);
    assert(8388608real * (4real * u) + 16777215real * (2real * u) == 2real * (33554431real * u))
        by (nonlinear_arith);
}

/// An encoded magnitude is not farther than another.
proof fn lemma_no_nearer(r: real, n: int, m: int)
    requires
        crate::binary32::encodes(r, n),
        0real <= r,
        0 <= n < crate::binary32::INFINITY,
        0 <= m < crate::binary32::INFINITY,
    ensures
        ({
            let a = crate::binary32::magnitude(n);
            let b = crate::binary32::magnitude(m);
            &&& 0real <= a
            &&& 0real <= b
            &&& gap(a, r) <= gap(b, r)
            &&& gap(a, r) == gap(b, r) && a != b ==> n % 2 == 0
        }),
{
    crate::binary32::lemma_exact(0);
    crate::binary32::lemma_monotone(0, n);
    crate::binary32::lemma_monotone(0, m);
    crate::binary32::lemma_monotone(n, n + 1);
    if m > n {
        crate::binary32::lemma_monotone(n + 1, m);
    } else if m < n {
        crate::binary32::lemma_monotone(m, n - 1);
        crate::binary32::lemma_monotone(n - 1, n);
    }
}

/// What a magnitude rounds to, with a sign.
proof fn lemma_nearest(r: real, negative: bool)
    requires
        0real <= r,
    ensures
        ({
            let x = crate::binary32::signed(negative, crate::binary32::encoding(r));
            &&& nearest_number(
                if negative {
                    -r
                } else {
                    r
                },
                x,
            )
            &&& has_sign(x) == negative
        }),
{
    let limit = crate::binary32::INFINITY as int;
    lemma_encoding_exists(r, limit);
    let n = crate::binary32::encoding(r);
    let x = crate::binary32::signed(negative, n);
    let target = if negative {
        -r
    } else {
        r
    };
    assert(x.abs() == n);
    assert(x.negative() == negative);
    lemma_fields(x);
    lemma_limit();
    crate::binary32::lemma_monotone(limit - 1, limit);
    if n < limit {
        crate::binary32::lemma_monotone(n, limit - 1);
        crate::binary32::lemma_monotone(n + 1, limit);
        if n < limit - 1 {
            crate::binary32::lemma_monotone(n + 1, limit - 1);
        }
        assert(r < 33554431real * power(103));
        assert forall|y: Binary32| #[trigger] is_number(y) implies {
            &&& gap(number(x), target) <= gap(number(y), target)
            &&& gap(number(x), target) == gap(number(y), target) && number(x) != number(y)
                ==> x.bits % 2 == 0
        } by {
            lemma_fields(y);
            crate::binary32::lemma_exact(0);
            lemma_no_nearer(r, n, y.abs());
            lemma_no_nearer(r, n, 0);
        }
    }
}

/// Whether `x` is the quotient of `a` and `b`.
pub open spec fn is_quotient(a: Binary32, b: Binary32, x: Binary32) -> bool {
    let zero_a = is_number(a) && number(a) == 0real;
    let zero_b = is_number(b) && number(b) == 0real;
    if is_nan(a) || is_nan(b) || (is_infinity(a) && is_infinity(b)) || (zero_a && zero_b) {
        x.bits == 0x7fc0_0000
    } else {
        &&& has_sign(x) == (has_sign(a) != has_sign(b))
        &&& if is_infinity(a) || zero_b {
            is_infinity(x)
        } else if is_infinity(b) {
            is_number(x) && number(x) == 0real
        } else {
            nearest_number(number(a) / number(b), x)
        }
    }
}

/// Whether `x` is the product of `a` and `b`.
pub open spec fn is_product(a: Binary32, b: Binary32, x: Binary32) -> bool {
    let zero_a = is_number(a) && number(a) == 0real;
    let zero_b = is_number(b) && number(b) == 0real;
    if is_nan(a) || is_nan(b) || (is_infinity(a) && zero_b) || (zero_a && is_infinity(b)) {
        x.bits == 0x7fc0_0000
    } else {
        &&& has_sign(x) == (has_sign(a) != has_sign(b))
        &&& if is_infinity(a) || is_infinity(b) {
            is_infinity(x)
        } else {
            nearest_number(number(a) * number(b), x)
        }
    }
}

/// Whether `x` is `a` less `b`.
pub open spec fn is_difference(a: Binary32, b: Binary32, x: Binary32) -> bool {
    if is_nan(a) || is_nan(b) || (is_infinity(a) && is_infinity(b) && has_sign(a) == has_sign(
        b,
    )) {
        x.bits == 0x7fc0_0000
    } else if is_infinity(a) {
        is_infinity(x) && has_sign(x) == has_sign(a)
    } else if is_infinity(b) {
        is_infinity(x) && has_sign(x) != has_sign(b)
    } else if number(a) == number(b) {
        x.bits == (if number(a) == 0real && has_sign(a) && !has_sign(b) {
            0x8000_0000u32
        } else {
            0u32
        })
    } else {
        nearest_number(number(a) - number(b), x) && has_sign(x) == (number(a) < number(b))
    }
}

/// Infinities and zeros of the contract.
proof fn lemma_infinity(negative: bool)
    ensures
        ({
            let x = crate::binary32::signed(negative, crate::binary32::INFINITY as int);
            is_infinity(x) && has_sign(x) == negative
        }),
        ({
            let x = crate::binary32::signed(negative, 0);
            is_number(x) && number(x) == 0real && has_sign(x) == negative
        }),
{
    let x = crate::binary32::signed(negative, crate::binary32::INFINITY as int);
    let z = crate::binary32::signed(negative, 0);
    assert(x.abs() == crate::binary32::INFINITY);
    assert(z.abs() == 0);
    lemma_fields(x);
    lemma_fields(z);
}

/// The contract's quotient.
proof fn lemma_is_quotient(a: Binary32, b: Binary32)
    ensures
        is_quotient(a, b, crate::binary32::quotient(a, b)),
{
    let sign = a.negative() != b.negative();
    lemma_fields(a);
    lemma_fields(b);
    lemma_infinity(sign);
    if a.finite() && b.finite() && !b.zero() {
        crate::binary32::lemma_exact(a.abs());
        crate::binary32::lemma_exact(b.abs());
        let p = crate::binary32::magnitude(a.abs());
        let q = crate::binary32::magnitude(b.abs());
        let r = p / q;
        crate::binary32::lemma_monotone(0, a.abs());
        assert(0real <= r) by (nonlinear_arith)
            requires
                r == p / q,
                0real <= p,
                0real < q,
        ;
        assert((-p) / q == -r && p / (-q) == -r && (-p) / (-q) == r) by (nonlinear_arith)
            requires
                r == p / q,
                0real < q,
        ;
        lemma_nearest(r, sign);
        if a.zero() {
            crate::binary32::lemma_exact(0);
            assert(r == 0real) by (nonlinear_arith)
                requires
                    r == p / q,
                    p == 0real,
                    0real < q,
            ;
            assert(crate::binary32::encoding(0real) == 0);
        }
    }
}

/// The contract's product.
proof fn lemma_is_product(a: Binary32, b: Binary32)
    ensures
        is_product(a, b, crate::binary32::product(a, b)),
{
    let sign = a.negative() != b.negative();
    lemma_fields(a);
    lemma_fields(b);
    lemma_infinity(sign);
    if a.finite() && b.finite() {
        crate::binary32::lemma_exact(a.abs());
        crate::binary32::lemma_exact(b.abs());
        let p = crate::binary32::magnitude(a.abs());
        let q = crate::binary32::magnitude(b.abs());
        let r = p * q;
        crate::binary32::lemma_monotone(0, a.abs());
        crate::binary32::lemma_monotone(0, b.abs());
        assert(0real <= r) by (nonlinear_arith)
            requires
                r == p * q,
                0real <= p,
                0real <= q,
        ;
        assert((-p) * q == -r && p * (-q) == -r && (-p) * (-q) == r) by (nonlinear_arith)
            requires
                r == p * q,
        ;
        lemma_nearest(r, sign);
        if a.zero() || b.zero() {
            crate::binary32::lemma_exact(0);
            assert(r == 0real) by (nonlinear_arith)
                requires
                    r == p * q,
                    p == 0real || q == 0real,
            ;
            assert(crate::binary32::encoding(0real) == 0);
        }
    }
}

/// The contract's difference.
proof fn lemma_is_difference(a: Binary32, b: Binary32)
    ensures
        is_difference(a, b, crate::binary32::difference(a, b)),
{
    lemma_fields(a);
    lemma_fields(b);
    lemma_infinity(!b.negative());
    if a.finite() && b.finite() && a.value() != b.value() {
        let r = a.value() - b.value();
        if r < 0real {
            lemma_nearest(-r, true);
        } else {
            lemma_nearest(r, false);
        }
    }
}

/// Division gives the nearest number.
pub proof fn law_div(a: Binary32, b: Binary32, x: Binary32)
    requires
        call_ensures(Binary32::div, (a, b), x),
    ensures
        is_quotient(a, b, x),
{
    lemma_is_quotient(a, b);
}

/// Multiplication gives the nearest number.
pub proof fn law_mul(a: Binary32, b: Binary32, x: Binary32)
    requires
        call_ensures(Binary32::mul, (a, b), x),
    ensures
        is_product(a, b, x),
{
    lemma_is_product(a, b);
}

/// Subtraction gives the nearest number.
pub proof fn law_sub(a: Binary32, b: Binary32, x: Binary32)
    requires
        call_ensures(Binary32::sub, (a, b), x),
    ensures
        is_difference(a, b, x),
{
    lemma_is_difference(a, b);
}

/// A byte is a number.
pub proof fn law_from_byte(v: u8, x: Binary32)
    requires
        call_ensures(Binary32::from_byte, (v,), x),
    ensures
        is_byte(v as int, x),
{
    lemma_fields(x);
}

/// Whether `x` encodes the number `v`, without a sign.
pub open spec fn is_byte(v: int, x: Binary32) -> bool {
    is_number(x) && number(x) == v as real && !has_sign(x)
}

/// Whether a number is finite or zero is read off its fields.
pub proof fn law_classification(x: Binary32, finite: bool, zero: bool)
    requires
        call_ensures(Binary32::is_finite, (x,), finite),
        call_ensures(Binary32::is_zero, (x,), zero),
    ensures
        finite == is_number(x),
        zero == (is_number(x) && number(x) == 0real),
{
    lemma_fields(x);
}

/// Whether `x` is the byte `v`, normalized: the slow processor takes the mean from the byte
/// on a scale of 255 and divides by the deviation, the fast one scales mean and deviation
/// instead.
pub open spec fn normalizes(
    resample: Resampler,
    mean: Binary32,
    std: Binary32,
    v: int,
    x: Binary32,
) -> bool {
    match resample {
        Resampler::Pil => exists|
            byte: Binary32,
            scale: Binary32,
            unit: Binary32,
            centred: Binary32,
        |
            {
                &&& #[trigger] is_byte(v, byte)
                &&& #[trigger] is_byte(255, scale)
                &&& #[trigger] is_quotient(byte, scale, unit)
                &&& #[trigger] is_difference(unit, mean, centred)
                &&& is_quotient(centred, std, x)
            },
        Resampler::AtenU8 => exists|
            byte: Binary32,
            scale: Binary32,
            scaled_mean: Binary32,
            scaled_std: Binary32,
            centred: Binary32,
        |
            {
                &&& #[trigger] is_byte(v, byte)
                &&& #[trigger] is_byte(255, scale)
                &&& #[trigger] is_product(mean, scale, scaled_mean)
                &&& #[trigger] is_product(std, scale, scaled_std)
                &&& #[trigger] is_difference(byte, scaled_mean, centred)
                &&& is_quotient(centred, scaled_std, x)
            },
    }
}

/// A byte of the contract.
proof fn lemma_is_byte(v: int)
    requires
        0 <= v < 256,
    ensures
        is_byte(v, crate::common::grid::byte_number(v)),
{
    let x = crate::common::grid::byte_number(v);
    if v > 0 {
        crate::binary32::lemma_byte(v);
    } else {
        crate::binary32::lemma_exact(0);
    }
    lemma_encoding_exists(v as real, crate::binary32::INFINITY as int);
    assert(x.abs() == crate::binary32::encoding(v as real));
    lemma_fields(x);
}

/// The contract's normalized byte.
pub proof fn lemma_normalizes(resample: Resampler, mean: Binary32, std: Binary32, v: int)
    requires
        0 <= v < 256,
    ensures
        normalizes(
            resample,
            mean,
            std,
            v,
            crate::common::grid::normalized(resample, mean, std, v),
        ),
{
    let byte = crate::common::grid::byte_number(v);
    let scale = crate::common::grid::byte_number(255);
    lemma_is_byte(v);
    lemma_is_byte(255);
    match resample {
        Resampler::Pil => {
            let unit = crate::binary32::quotient(byte, scale);
            let centred = crate::binary32::difference(unit, mean);
            lemma_is_quotient(byte, scale);
            lemma_is_difference(unit, mean);
            lemma_is_quotient(centred, std);
        },
        Resampler::AtenU8 => {
            let scaled_mean = crate::binary32::product(mean, scale);
            let scaled_std = crate::binary32::product(std, scale);
            let centred = crate::binary32::difference(byte, scaled_mean);
            lemma_is_product(mean, scale);
            lemma_is_product(std, scale);
            lemma_is_difference(byte, scaled_mean);
            lemma_is_quotient(centred, scaled_std);
        },
    }
}

/// A table holds every byte, normalized.
pub proof fn law_normalize_lut(
    resample: Resampler,
    mean: Binary32,
    std: Binary32,
    lut: [Binary32; 256],
)
    requires
        call_ensures(normalize_lut, (resample, mean, std), lut),
    ensures
        forall|v: int| 0 <= v < 256 ==> normalizes(resample, mean, std, v, #[trigger] lut@[v]),
{
    assert forall|v: int| 0 <= v < 256 implies normalizes(
        resample,
        mean,
        std,
        v,
        #[trigger] lut@[v],
    ) by {
        lemma_normalizes(resample, mean, std, v);
    }
}

}
