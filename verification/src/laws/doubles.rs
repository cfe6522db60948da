//! What double-precision arithmetic gives: the number nearest to the exact result.
use crate::binary64::Binary64;
use vstd::prelude::*;

verus! {

/// Whether `x` has 53 bits and an exponent in the normal range.
pub open spec fn is_double(x: Binary64) -> bool {
    0x10_0000_0000_0000 <= x.mant < 0x20_0000_0000_0000 && -1074 <= x.exp <= 971
}

/// The number that is held.
pub open spec fn number(x: Binary64) -> real {
    x.mant as real * super::singles::power(x.exp as int)
}

/// Whether no number is nearer to `r` than `x` is, and `x` is even where another one is as
/// near.
pub open spec fn nearest_double(r: real, x: Binary64) -> bool {
    &&& is_double(x)
    &&& forall|y: Binary64| #[trigger]
        is_double(y) ==> {
            let a = super::singles::gap(number(x), r);
            let b = super::singles::gap(number(y), r);
            &&& a <= b
            &&& a == b && number(x) != number(y) ==> x.mant % 2 == 0
        }
}

/// Whether no number is nearer to the root of `r` than `x` is: the middle between `x` and
/// another number is on the other side of the root.
pub open spec fn nearest_root(r: real, x: Binary64) -> bool {
    &&& is_double(x)
    &&& forall|y: Binary64| #[trigger]
        is_double(y) ==> {
            let middle = (number(x) + number(y)) / 2real;
            &&& number(y) > number(x) ==> r < middle * middle
            &&& number(y) < number(x) ==> middle * middle < r
        }
}

/// Whether `x` is an integer, rounded.
pub open spec fn is_integer(n: int, x: Binary64) -> bool {
    nearest_double(n as real, x)
}

/// Whether `x` is the product of two numbers, rounded.
pub open spec fn is_product(a: Binary64, b: Binary64, x: Binary64) -> bool {
    nearest_double(number(a) * number(b), x)
}

/// Whether `x` is the quotient of two numbers, rounded.
pub open spec fn is_quotient(a: Binary64, b: Binary64, x: Binary64) -> bool {
    nearest_double(number(a) / number(b), x)
}

/// Whether `x` is the root of a number, rounded.
pub open spec fn is_root(a: Binary64, x: Binary64) -> bool {
    nearest_root(number(a), x)
}

/// A number and the contract's view of it.
pub proof fn lemma_number(x: Binary64)
    ensures
        is_double(x) == x.wf(),
        number(x) == x.value(),
{
    super::singles::lemma_power(x.exp as int);
}

/// Numbers are at least a unit apart, or half a unit below a power of two.
proof fn lemma_spacing(x: Binary64, y: Binary64)
    requires
        x.wf(),
        y.wf(),
    ensures
        y.value() > x.value() ==> y.value() >= x.value() + crate::binary64::p2(x.exp as int),
        y.value() < x.value() ==> y.value() <= x.value() - (if x.mant
            == crate::binary64::MANT_MIN {
            crate::binary64::p2(x.exp as int) / 2real
        } else {
            crate::binary64::p2(x.exp as int)
        }),
        crate::binary64::p2(x.exp as int) > 0real,
        x.value() > 0real,
{
    let u = crate::binary64::p2(x.exp as int);
    let m = x.mant as real;
    let k = y.mant as real;
    crate::binary64::lemma_p2_pos(x.exp as int);
    crate::binary64::lemma_p2_pos(y.exp as int);
    assert(m * u >= 4503599627370496real * u) by (nonlinear_arith)
        requires
            m >= 4503599627370496real,
            u > 0real,
    ;
    if x.exp < y.exp {
        crate::binary64::lemma_binades(x, y);
    } else if y.exp < x.exp {
        crate::binary64::lemma_binades(y, x);
        if x.mant > crate::binary64::MANT_MIN {
            assert(m * u >= 4503599627370496real * u + u) by (nonlinear_arith)
                requires
                    m >= 4503599627370497real,
                    u > 0real,
            ;
        } else {
            crate::binary64::lemma_p2_step(x.exp - 1);
            let half = crate::binary64::p2(x.exp - 1);
            let w = crate::binary64::p2(y.exp as int);
            if y.exp < x.exp - 1 {
                crate::binary64::lemma_p2_step(y.exp as int);
                crate::binary64::lemma_p2_le(y.exp + 1, x.exp - 1);
                assert(k * w <= 4503599627370496real * half) by (nonlinear_arith)
                    requires
                        k <= 9007199254740992real,
                        2real * w <= half,
                        w > 0real,
                ;
                assert(u == 2real * half);
            }
        }
    } else if x.mant < y.mant {
        assert(k * u >= m * u + u) by (nonlinear_arith)
            requires
                k >= m + 1real,
                u > 0real,
        ;
    } else if y.mant < x.mant {
        assert(m * u >= k * u + u) by (nonlinear_arith)
            requires
                m >= k + 1real,
                u > 0real,
        ;
    }
}

/// The contract's rounded number is the nearest one.
pub proof fn lemma_nearest_double(r: real, x: Binary64)
    requires
        crate::binary64::rounds_to(r, x),
    ensures
        nearest_double(r, x),
{
    lemma_number(x);
    assert forall|y: Binary64| #[trigger] is_double(y) implies {
        let a = super::singles::gap(number(x), r);
        let b = super::singles::gap(number(y), r);
        &&& a <= b
        &&& a == b && number(x) != number(y) ==> x.mant % 2 == 0
    } by {
        lemma_number(y);
        lemma_spacing(x, y);
    }
}

/// The contract's rounded root is the nearest one.
pub proof fn lemma_nearest_root(r: real, x: Binary64)
    requires
        crate::binary64::root_rounds_to(r, x),
    ensures
        nearest_root(r, x),
{
    lemma_number(x);
    let u = crate::binary64::p2(x.exp as int);
    let low = x.value() - (if x.mant == crate::binary64::MANT_MIN {
        u / 4real
    } else {
        u / 2real
    });
    let high = x.value() + u / 2real;
    assert forall|y: Binary64| #[trigger] is_double(y) implies {
        let middle = (number(x) + number(y)) / 2real;
        &&& number(y) > number(x) ==> r < middle * middle
        &&& number(y) < number(x) ==> middle * middle < r
    } by {
        lemma_number(y);
        lemma_spacing(x, y);
        lemma_spacing(y, x);
        let middle = (number(x) + number(y)) / 2real;
        if number(y) > number(x) {
            assert(high * high <= middle * middle) by (nonlinear_arith)
                requires
                    0real < high <= middle,
            ;
        } else if number(y) < number(x) {
            assert(middle * middle <= low * low) by (nonlinear_arith)
                requires
                    0real < middle <= low,
            ;
        }
    }
}

/// The contract's integers.
pub proof fn lemma_integer(n: int)
    requires
        0 < n < 0x1_0000_0000_0000_0000_0000_0000_0000_0000,
    ensures
        is_integer(n, crate::binary64::nearest(n as real)),
        number(crate::binary64::nearest(n as real)) == crate::binary64::double(n),
{
    crate::binary64::lemma_nearest_of_int(n);
    lemma_nearest_double(n as real, crate::binary64::nearest(n as real));
    lemma_number(crate::binary64::nearest(n as real));
}

/// Division gives the nearest number.
pub proof fn law_div(a: Binary64, b: Binary64, x: Binary64)
    requires
        call_ensures(Binary64::div, (a, b), x),
    ensures
        nearest_double(number(a) / number(b), x),
{
    lemma_number(a);
    lemma_number(b);
    lemma_nearest_double(a.value() / b.value(), x);
}

/// Multiplication gives the nearest number.
pub proof fn law_mul(a: Binary64, b: Binary64, x: Binary64)
    requires
        call_ensures(Binary64::mul, (a, b), x),
    ensures
        nearest_double(number(a) * number(b), x),
{
    lemma_number(a);
    lemma_number(b);
    lemma_nearest_double(a.value() * b.value(), x);
}

/// An integer becomes the nearest number.
pub proof fn law_from_int(n: u128, x: Binary64)
    requires
        call_ensures(Binary64::from_int, (n,), x),
    ensures
        nearest_double(n as real, x),
{
    lemma_nearest_double(n as real, x);
}

/// A root is the nearest number.
pub proof fn law_sqrt(a: Binary64, x: Binary64)
    requires
        call_ensures(Binary64::sqrt, (a,), x),
    ensures
        nearest_root(number(a), x),
{
    lemma_number(a);
    lemma_nearest_root(a.value(), x);
}

/// Whole parts are below and above a number by less than one, as far as a `usize` reaches.
pub proof fn law_whole_parts(x: Binary64, below: usize, above: usize)
    requires
        is_double(x),
        call_ensures(Binary64::floor_to_usize, (x,), below),
        call_ensures(Binary64::ceil_to_usize, (x,), above),
    ensures
        below as real <= number(x),
        below == usize::MAX || number(x) < below as real + 1real,
        above == usize::MAX || number(x) <= above as real,
        above as real - 1real < number(x),
{
    lemma_number(x);
    crate::binary64::lemma_floor_of_number(x);
}

/// Numbers are ordered by what they hold.
pub proof fn law_order(a: Binary64, b: Binary64, below: bool, x: Binary64)
    requires
        call_ensures(Binary64::less_than, (a, b), below),
        call_ensures(Binary64::min, (a, b), x),
    ensures
        below == (number(a) < number(b)),
        x == a || x == b,
        number(x) <= number(a),
        number(x) <= number(b),
{
    lemma_number(a);
    lemma_number(b);
}

}
