//! How far rounding moves a number, as a factor, and what is left of a pixel
//! budget after a chain of rounded steps.
use crate::binary64::Binary64;
use vstd::prelude::*;

verus! {

/// A pixel budget, just below `2^50`, that eight roundings cannot move by a whole
/// pixel.
pub const EXACT_BUDGET: u64 = 0x3_ffff_ffff_fff0;

/// The part of a budget, in pixels, of which nine roundings can cost at most one.
pub const SLACK_PART: u64 = 0x1_0000_0000_0000;

/// One and the relative error of a rounding.
pub open spec fn slack() -> real {
    9007199254740992real / 9007199254740991real
}

/// A number and what it rounds to differ by a factor of at most one slack.
pub proof fn lemma_slack(r: real, x: Binary64)
    requires
        crate::binary64::rounds_to(r, x),
    ensures
        0real < r <= x.value() * slack(),
        0real < x.value() <= r * slack(),
{
    crate::binary64::lemma_relative_error(r, x);
    let v = x.value();
    let g = slack();
    assert(9007199254740991real * g == 9007199254740992real);
    assert(9007199254740991real * (v * g) == 9007199254740992real * v) by (nonlinear_arith)
        requires
            9007199254740991real * g == 9007199254740992real,
    ;
    assert(9007199254740991real * (r * g) == 9007199254740992real * r) by (nonlinear_arith)
        requires
            9007199254740991real * g == 9007199254740992real,
    ;
}

/// A number and the square of its rounded root differ by a factor of at most two
/// slacks.
pub proof fn lemma_root_slack(r: real, x: Binary64)
    requires
        crate::binary64::root_rounds_to(r, x),
    ensures
        x.value() > 0real,
        r <= (x.value() * x.value()) * (slack() * slack()),
        x.value() * x.value() <= r * (slack() * slack()),
{
    crate::binary64::lemma_root_relative_error(r, x);
    let v = x.value();
    let g = slack();
    let high = v + v / 9007199254740992real;
    assert(9007199254740991real * g == 9007199254740992real);
    assert(9007199254740991real * (v * g) == 9007199254740992real * v) by (nonlinear_arith)
        requires
            9007199254740991real * g == 9007199254740992real,
    ;
    assert(0real < high <= v * g);
    assert(high * high <= (v * g) * (v * g)) by (nonlinear_arith)
        requires
            0real < high <= v * g,
    ;
    assert((v * g) * (v * g) == (v * v) * (g * g)) by (nonlinear_arith);
    let low = v - v / 9007199254740992real;
    let g2 = g * g;
    assert(low * g == v) by (nonlinear_arith)
        requires
            9007199254740992real * low == 9007199254740991real * v,
            9007199254740991real * g == 9007199254740992real,
    ;
    assert((low * g) * (low * g) == (low * low) * g2) by (nonlinear_arith)
        requires
            g2 == g * g,
    ;
    let square = low * low;
    assert(0real < g2) by (nonlinear_arith)
        requires
            g2 == g * g,
            0real < g,
    ;
    assert(square * g2 <= r * g2) by (nonlinear_arith)
        requires
            square < r,
            0real < g2,
    ;
}

/// Eight slacks are little more than eight relative errors.
pub proof fn lemma_eighth_power()
    ensures
        ({
            let e = 1real / 9007199254740991real;
            let g2 = slack() * slack();
            let g4 = g2 * g2;
            &&& slack() == 1real + e
            &&& 1real <= g4 * g4 <= 1real + 8real * e + 31real * (e * e)
        }),
{
    let g = slack();
    let e = 1real / 9007199254740991real;
    let d = e * e;
    let g2 = g * g;
    let g4 = g2 * g2;
    let g8 = g4 * g4;
    assert(g == 1real + e);
    assert(0real < d && 1000real * d <= e) by (nonlinear_arith)
        requires
            d == e * e,
            0real < e < 1real / 1000real,
    ;
    assert(g2 == 1real + 2real * e + d) by (nonlinear_arith)
        requires
            g2 == g * g,
            g == 1real + e,
            d == e * e,
    ;
    lemma_square_bound(g2, e, 2real, 1real);
    lemma_square_bound(g4, e, 4real, 7real);
}

/// Squaring doubles the relative error, up to its square.
proof fn lemma_square_bound(g: real, e: real, a: real, b: real)
    requires
        0real < e < 1real / 1000000real,
        1real <= a <= 4real,
        1real <= b <= 7real,
        1real <= g <= 1real + a * e + b * (e * e),
    ensures
        1real <= g * g <= 1real + 2real * a * e + (a * a + 2real * b + 1real) * (e * e),
{
    let d = e * e;
    let t = a * e + b * d;
    let x = a * e;
    let y = b * d;
    assert(0real < d && 1000000real * d <= e) by (nonlinear_arith)
        requires
            d == e * e,
            0real < e < 1real / 1000000real,
    ;
    assert(0real < x <= 4real * e && x * x == (a * a) * d) by (nonlinear_arith)
        requires
            x == a * e,
            d == e * e,
            1real <= a <= 4real,
            0real < e,
    ;
    assert(0real < y <= 7real * d) by (nonlinear_arith)
        requires
            y == b * d,
            1real <= b <= 7real,
            0real < d,
    ;
    assert(x * y <= 28real * (e * d)) by (nonlinear_arith)
        requires
            0real < x <= 4real * e,
            0real < y <= 7real * d,
    ;
    assert(e * d <= d / 1000000real) by (nonlinear_arith)
        requires
            0real < e < 1real / 1000000real,
            0real < d,
    ;
    assert(y * y <= 49real * (d * d)) by (nonlinear_arith)
        requires
            0real < y <= 7real * d,
    ;
    assert(d * d <= d / 1000000real) by (nonlinear_arith)
        requires
            0real < d < 1real / 1000000real,
    ;
    assert(g * g <= (1real + x + y) * (1real + x + y)) by (nonlinear_arith)
        requires
            1real <= g <= 1real + x + y,
    ;
    assert((1real + x + y) * (1real + x + y) == 1real + 2real * x + 2real * y + x * x + 2real * (x
        * y) + y * y) by (nonlinear_arith);
    assert(1real <= g * g) by (nonlinear_arith)
        requires
            1real <= g,
    ;
    assert((a * a + 2real * b + 1real) * d == (a * a) * d + 2real * y + d) by (nonlinear_arith)
        requires
            y == b * d,
    ;
    assert(2real * a * e == 2real * x) by (nonlinear_arith)
        requires
            x == a * e,
    ;
}

/// Eight slacks of a budget are less than one pixel.
pub proof fn lemma_eight_slacks(pixels: int)
    requires
        0 <= pixels <= EXACT_BUDGET,
    ensures
        ({
            let g2 = slack() * slack();
            let g4 = g2 * g2;
            (g4 * g4) * (pixels as real) < (pixels as real) + 1real
        }),
{
    lemma_eighth_power();
    let e = 1real / 9007199254740991real;
    let d = e * e;
    let g2 = slack() * slack();
    let g4 = g2 * g2;
    let g8 = g4 * g4;
    let p = pixels as real;
    assert(g8 * p <= (1real + 8real * e + 31real * d) * p) by (nonlinear_arith)
        requires
            g8 <= 1real + 8real * e + 31real * d,
            0real <= p,
    ;
    assert((1real + 8real * e + 31real * d) * p == p + 8real * (e * p) + 31real * (d * p))
        by (nonlinear_arith);
    assert(9007199254740991real * (e * p) == p) by (nonlinear_arith)
        requires
            9007199254740991real * e == 1real,
    ;
    assert(9007199254740991real * (d * p) == e * p) by (nonlinear_arith)
        requires
            9007199254740991real * e == 1real,
            d == e * e,
    ;
}

/// Nine slacks of a budget are at most the part of it that is called slack.
pub proof fn lemma_nine_slacks(pixels: real)
    requires
        0real <= pixels,
    ensures
        ({
            let g2 = slack() * slack();
            let g4 = g2 * g2;
            281474976710656real * ((g4 * g4) * (slack() * pixels)) <= 281474976710657real * pixels
        }),
{
    lemma_eighth_power();
    let e = 1real / 9007199254740991real;
    let d = e * e;
    let g = slack();
    let g2 = g * g;
    let g4 = g2 * g2;
    let g8 = g4 * g4;
    assert(0real < d && 1000real * d <= e) by (nonlinear_arith)
        requires
            d == e * e,
            0real < e < 1real / 1000real,
    ;
    assert(g8 <= 1real + 9real * e);
    assert(g8 * g <= 1real + 11real * e) by (nonlinear_arith)
        requires
            0real <= g8 <= 1real + 9real * e,
            g == 1real + e,
            0real < e < 1real / 1000real,
    ;
    assert(g8 * (g * pixels) == (g8 * g) * pixels) by (nonlinear_arith);
    let n = g8 * g;
    assert(281474976710656real * n <= 281474976710657real);
    assert(281474976710656real * (n * pixels) <= 281474976710657real * pixels) by (nonlinear_arith)
        requires
            281474976710656real * n <= 281474976710657real,
            0real <= pixels,
    ;
}

/// A rounded quotient, multiplied by the divisor again, is the dividend up to
/// one slack.
pub proof fn lemma_quotient_slack(a: real, b: real, x: real)
    requires
        0real < b,
        a / b <= x * slack(),
        x <= (a / b) * slack(),
    ensures
        x * b <= a * slack(),
        a <= (x * b) * slack(),
{
    let q = a / b;
    let g = slack();
    assert(q * b == a) by (nonlinear_arith)
        requires
            q == a / b,
            0real < b,
    ;
    assert(x * b <= (q * g) * b && q * b <= (x * g) * b) by (nonlinear_arith)
        requires
            x <= q * g,
            q <= x * g,
            0real < b,
    ;
    assert((q * g) * b == (q * b) * g && (x * g) * b == (x * b) * g) by (nonlinear_arith);
}

/// The sides of a stretched image have the budget's pixels up to slack.
pub proof fn lemma_stretched_budget(
    h: real,
    w: real,
    p: real,
    area: real,
    lack: real,
    beta: real,
    hb: real,
    wb: real,
)
    requires
        0real < h,
        0real < w,
        0real < p,
        0real < area,
        0real < lack,
        0real < beta,
        0real <= hb,
        0real <= wb,
        area <= (h * w) * slack(),
        p <= (lack * area) * slack(),
        lack <= (beta * beta) * (slack() * slack()),
        h * beta <= hb * (slack() * slack()),
        w * beta <= wb * (slack() * slack()),
    ensures
        ({
            let g2 = slack() * slack();
            let g4 = g2 * g2;
            p <= (g4 * g4) * (hb * wb)
        }),
{
    let g = slack();
    let g2 = g * g;
    let g4 = g2 * g2;
    assert(g > 0real && g2 > 0real && g4 > 0real) by (nonlinear_arith)
        requires
            g == slack(),
            slack() > 0real,
            g2 == g * g,
            g4 == g2 * g2,
    ;
    let b = beta * beta;
    let a = h * w;
    let c = hb * wb;
    assert(a > 0real) by (nonlinear_arith)
        requires
            a == h * w,
            h > 0real,
            w > 0real,
    ;
    assert(lack * area <= lack * (a * g)) by (nonlinear_arith)
        requires
            area <= a * g,
            lack > 0real,
    ;
    let la = lack * area;
    assert(la * g <= (lack * (a * g)) * g) by (nonlinear_arith)
        requires
            la <= lack * (a * g),
            g > 0real,
    ;
    assert((lack * (a * g)) * g == lack * (a * g2)) by (nonlinear_arith)
        requires
            g2 == g * g,
    ;
    let ag = a * g2;
    assert(ag > 0real) by (nonlinear_arith)
        requires
            ag == a * g2,
            a > 0real,
            g2 > 0real,
    ;
    assert(lack * ag <= (b * g2) * ag) by (nonlinear_arith)
        requires
            lack <= b * g2,
            ag > 0real,
    ;
    assert((b * g2) * ag == (a * b) * g4) by (nonlinear_arith)
        requires
            ag == a * g2,
            g4 == g2 * g2,
    ;
    let x = h * beta;
    let y = w * beta;
    assert(0real <= x && 0real <= y) by (nonlinear_arith)
        requires
            x == h * beta,
            y == w * beta,
            h > 0real,
            w > 0real,
            beta > 0real,
    ;
    assert(x * y <= (hb * g2) * (wb * g2)) by (nonlinear_arith)
        requires
            0real <= x <= hb * g2,
            0real <= y <= wb * g2,
    ;
    assert(x * y == a * b) by (nonlinear_arith)
        requires
            x == h * beta,
            y == w * beta,
            a == h * w,
            b == beta * beta,
    ;
    assert((hb * g2) * (wb * g2) == c * g4) by (nonlinear_arith)
        requires
            c == hb * wb,
            g4 == g2 * g2,
    ;
    let ab = a * b;
    assert(ab * g4 <= (c * g4) * g4) by (nonlinear_arith)
        requires
            ab <= c * g4,
            g4 > 0real,
    ;
    assert((c * g4) * g4 == (g4 * g4) * c) by (nonlinear_arith);
}

/// The sides that scaling by a rounded root leads to, up to two slacks each, have the
/// pixels of the budget, up to eight slacks.
pub proof fn lemma_scaled_budget(
    p: real,
    area: real,
    lack: real,
    beta: real,
    h: real,
    w: real,
)
    requires
        0real < h,
        0real < w,
        0real < beta,
        0real < area,
        0real < lack,
        h * w <= area * slack(),
        lack * area <= p * slack(),
        beta * beta <= lack * (slack() * slack()),
    ensures
        ({
            let g2 = slack() * slack();
            let g4 = g2 * g2;
            ((h * beta) * g2) * ((w * beta) * g2) <= (g4 * g4) * p
        }),
{
    let g = slack();
    let g2 = g * g;
    let g4 = g2 * g2;
    assert(g > 0real && g2 > 0real && g4 > 0real) by (nonlinear_arith)
        requires
            g == slack(),
            slack() > 0real,
            g2 == g * g,
            g4 == g2 * g2,
    ;
    let a = h * w;
    let b = beta * beta;
    assert(a > 0real && b > 0real) by (nonlinear_arith)
        requires
            a == h * w,
            b == beta * beta,
            h > 0real,
            w > 0real,
            beta > 0real,
    ;
    let x = (h * beta) * g2;
    let y = (w * beta) * g2;
    assert(x * y == (a * b) * g4) by (nonlinear_arith)
        requires
            x == (h * beta) * g2,
            y == (w * beta) * g2,
            a == h * w,
            b == beta * beta,
            g4 == g2 * g2,
    ;
    let ag = area * g;
    let lg = lack * g2;
    assert(a * b <= ag * lg) by (nonlinear_arith)
        requires
            0real < a <= ag,
            0real < b <= lg,
    ;
    let la = lack * area;
    assert(ag * lg == la * (g * g2)) by (nonlinear_arith)
        requires
            ag == area * g,
            lg == lack * g2,
            la == lack * area,
    ;
    let g3 = g * g2;
    assert(g3 > 0real) by (nonlinear_arith)
        requires
            g3 == g * g2,
            g > 0real,
            g2 > 0real,
    ;
    assert(la * g3 <= (p * g) * g3) by (nonlinear_arith)
        requires
            la <= p * g,
            g3 > 0real,
    ;
    assert((p * g) * g3 == p * g4) by (nonlinear_arith)
        requires
            g3 == g * g2,
            g2 == g * g,
            g4 == g2 * g2,
    ;
    let ab = a * b;
    assert(ab * g4 <= (p * g4) * g4) by (nonlinear_arith)
        requires
            ab <= p * g4,
            g4 > 0real,
    ;
    assert((p * g4) * g4 == (g4 * g4) * p) by (nonlinear_arith);
}

}
