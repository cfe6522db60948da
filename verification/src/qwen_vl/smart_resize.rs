//! The target size of an image: both sides multiples of a factor, and the
//! number of pixels inside a budget.
use crate::binary64::Binary64;
use crate::text::decimal_text;
use vstd::prelude::*;
use vstd::string::StringExecFns;

verus! {

/// Aspect ratios above this one are refused.
pub const MAX_RATIO: u128 = 200;

/// Why an image has no target size.
#[derive(Clone, Copy, Debug, PartialEq, Eq, Structural)]
pub enum ResizeError {
    /// One of the sides is 0.
    EmptyImage,
    /// The sides differ too much.
    AspectRatio { ratio: Binary64 },
    /// One of the target's sides is 0.
    Degenerate {
        height: usize,
        width: usize,
        h_bar: usize,
        w_bar: usize,
        max_pixels: usize,
    },
}

impl ResizeError {
    /// The message for a request that fails with this error. `ratio` is the
    /// decimal rendering of the aspect ratio, if the error is about one.
    pub open spec fn text(self, ratio: Seq<char>) -> Seq<char> {
        match self {
            ResizeError::EmptyImage => "empty image"@,
            ResizeError::AspectRatio { .. } =>
                "absolute aspect ratio must be smaller than 200, got "@ + ratio,
            ResizeError::Degenerate { height, width, h_bar, w_bar, max_pixels } =>
                "smart_resize: "@ + crate::text::decimal(height as nat) + "x"@
                    + crate::text::decimal(width as nat) + " degenerates to "@
                    + crate::text::decimal(h_bar as nat) + "x"@ + crate::text::decimal(
                    w_bar as nat,
                ) + " at max_pixels="@ + crate::text::decimal(max_pixels as nat)
                    + "; image is too thin for this pixel budget"@,
        }
    }

    /// The message for a request that fails with this error.
    pub fn message(&self, ratio: &str) -> (s: String)
        ensures
            s@ == self.text(ratio@),
    {
        match self {
            ResizeError::EmptyImage => String::from_str("empty image"),
            ResizeError::AspectRatio { .. } => {
                let mut s = String::from_str(
                    "absolute aspect ratio must be smaller than 200, got ",
                );
                s.append(ratio);
                s
            },
            ResizeError::Degenerate { height, width, h_bar, w_bar, max_pixels } => {
                let mut s = String::from_str("smart_resize: ");
                s.append(decimal_text(*height).as_str());
                s.append("x");
                s.append(decimal_text(*width).as_str());
                s.append(" degenerates to ");
                s.append(decimal_text(*h_bar).as_str());
                s.append("x");
                s.append(decimal_text(*w_bar).as_str());
                s.append(" at max_pixels=");
                s.append(decimal_text(*max_pixels).as_str());
                s.append("; image is too thin for this pixel budget");
                s
            },
        }
    }
}

/// The integer nearest to `n / d`, the even one of two.
pub open spec fn half_even(n: int, d: int) -> int {
    let q = n / d;
    let r = n % d;
    if 2 * r > d || (2 * r == d && q % 2 == 1) {
        q + 1
    } else {
        q
    }
}

/// The multiple of `factor` nearest to a side, at least `factor`.
pub open spec fn round_side(n: int, factor: int) -> int {
    let k = half_even(n, factor) * factor;
    if k >= factor {
        k
    } else {
        factor
    }
}

/// The longer side divided by the shorter one, in binary64.
pub open spec fn aspect_ratio(height: int, width: int) -> Binary64 {
    if height >= width {
        crate::binary64::nearest(crate::binary64::double(height) / crate::binary64::double(width))
    } else {
        crate::binary64::nearest(crate::binary64::double(width) / crate::binary64::double(height))
    }
}

/// By how much the sides are divided to reach `pixels`, in binary64.
pub open spec fn shrink(height: int, width: int, pixels: int) -> real {
    let area = crate::binary64::nearest(
        crate::binary64::double(height) * crate::binary64::double(width),
    ).value();
    let excess = crate::binary64::nearest(area / crate::binary64::double(pixels)).value();
    crate::binary64::nearest_root(excess).value()
}

/// A side divided by `beta` and rounded down to a multiple of `factor`, in
/// binary64.
pub open spec fn shrunk_side(n: int, beta: real, factor: int) -> int {
    let side = crate::binary64::nearest(crate::binary64::double(n) / beta).value();
    let blocks = crate::binary64::nearest(side / crate::binary64::double(factor)).value();
    crate::binary64::floor(blocks) * factor
}

/// By how much the sides are multiplied to reach `pixels`, in binary64.
pub open spec fn stretch(height: int, width: int, pixels: int) -> real {
    let area = crate::binary64::nearest(
        crate::binary64::double(height) * crate::binary64::double(width),
    ).value();
    let lack = crate::binary64::nearest(crate::binary64::double(pixels) / area).value();
    crate::binary64::nearest_root(lack).value()
}

/// A side multiplied by `beta` and rounded up to a multiple of `factor`, in
/// binary64.
pub open spec fn stretched_side(n: int, beta: real, factor: int) -> int {
    let side = crate::binary64::nearest(crate::binary64::double(n) * beta).value();
    let blocks = crate::binary64::nearest(side / crate::binary64::double(factor)).value();
    crate::binary64::ceil(blocks) * factor
}

/// The sides that an image is resized to, before degenerate ones are refused.
pub open spec fn target_sides(
    height: int,
    width: int,
    factor: int,
    min_pixels: int,
    max_pixels: int,
) -> (int, int) {
    if factor == 0 {
        (0, 0)
    } else {
        let h = round_side(height, factor);
        let w = round_side(width, factor);
        if h * w > max_pixels {
            if max_pixels == 0 {
                (0, 0)
            } else {
                let beta = shrink(height, width, max_pixels);
                (shrunk_side(height, beta, factor), shrunk_side(width, beta, factor))
            }
        } else if h * w < min_pixels {
            let beta = stretch(height, width, min_pixels);
            (stretched_side(height, beta, factor), stretched_side(width, beta, factor))
        } else {
            (h, w)
        }
    }
}

/// The target size of an image, or why it has none.
pub open spec fn resized(
    height: usize,
    width: usize,
    factor: usize,
    min_pixels: usize,
    max_pixels: usize,
) -> Result<(usize, usize), ResizeError> {
    let ratio = aspect_ratio(height as int, width as int);
    let (h, w) = target_sides(
        height as int,
        width as int,
        factor as int,
        min_pixels as int,
        max_pixels as int,
    );
    if height == 0 || width == 0 {
        Err(ResizeError::EmptyImage)
    } else if ratio.value() > MAX_RATIO as real {
        Err(ResizeError::AspectRatio { ratio })
    } else if h == 0 || w == 0 {
        Err(
            ResizeError::Degenerate {
                height,
                width,
                h_bar: h as usize,
                w_bar: w as usize,
                max_pixels,
            },
        )
    } else {
        Ok((h as usize, w as usize))
    }
}

/// Whether the sides of the target, where there are any, are held in full.
pub open spec fn holds_target_sides(
    height: usize,
    width: usize,
    factor: usize,
    min_pixels: usize,
    max_pixels: usize,
    result: Result<(usize, usize), ResizeError>,
) -> bool {
    let sides = target_sides(
        height as int,
        width as int,
        factor as int,
        min_pixels as int,
        max_pixels as int,
    );
    match result {
        Ok((h, w)) => sides == (h as int, w as int),
        Err(ResizeError::Degenerate { h_bar, w_bar, .. }) => sides == (h_bar as int, w_bar as int),
        Err(_) => true,
    }
}

/// Whether the number of pixels of the rounded sides is a `usize`. Sides that
/// are refused before they are rounded need not be.
pub open spec fn pixels_fit(height: int, width: int, factor: int) -> bool {
    ||| height == 0
    ||| width == 0
    ||| factor == 0
    ||| aspect_ratio(height, width).value() > MAX_RATIO as real
    ||| round_side(height, factor) * round_side(width, factor) <= usize::MAX
}

/// Rounding to a multiple of the factor stays within half a factor, and does
/// not go below it.
pub proof fn lemma_round_side(n: int, factor: int)
    requires
        0 < n,
        0 < factor,
    ensures
        factor <= round_side(n, factor),
        round_side(n, factor) % factor == 0,
        n <= 2 * round_side(n, factor),
        round_side(n, factor) <= n + factor,
        0 <= half_even(n, factor),
        0 <= half_even(n, factor) * factor <= round_side(n, factor),
{
    let q = n / factor;
    let r = n % factor;
    let k = half_even(n, factor);
    vstd::arithmetic::div_mod::lemma_fundamental_div_mod(n, factor);
    vstd::arithmetic::div_mod::lemma_mod_bound(n, factor);
    vstd::arithmetic::div_mod::lemma_div_pos_is_pos(n, factor);
    vstd::arithmetic::mul::lemma_mul_is_commutative(factor, q);
    vstd::arithmetic::mul::lemma_mul_is_distributive_add_other_way(factor, q, 1);
    vstd::arithmetic::mul::lemma_mul_nonnegative(k, factor);
    vstd::arithmetic::div_mod::lemma_mod_multiples_basic(k, factor);
    vstd::arithmetic::div_mod::lemma_mod_self_0(factor);
}

/// An accepted aspect ratio bounds one side by the other.
proof fn lemma_ratio(height: int, width: int)
    requires
        0 < height <= usize::MAX,
        0 < width <= usize::MAX,
        !(aspect_ratio(height, width).value() > MAX_RATIO as real),
    ensures
        height <= 202 * width,
        width <= 202 * height,
{
    let (long, short) = if height >= width {
        (height, width)
    } else {
        (width, height)
    };
    let a = crate::binary64::double(long);
    let b = crate::binary64::double(short);
    crate::binary64::lemma_nearest_of_int(long);
    crate::binary64::lemma_nearest_of_int(short);
    crate::binary64::lemma_relative_error(long as real, crate::binary64::nearest(long as real));
    crate::binary64::lemma_relative_error(short as real, crate::binary64::nearest(short as real));
    lemma_quotient_exists(long, short);
    let x = crate::binary64::nearest(a / b);
    crate::binary64::lemma_relative_error(a / b, x);
    let t = a / b;
    assert(t <= 201real);
    assert(a <= 201real * b) by (nonlinear_arith)
        requires
            t == a / b,
            t <= 201real,
            b > 0real,
    ;
    assert(a * 9007199254740992real >= long as real * 9007199254740991real);
    assert(b * 9007199254740991real <= short as real * 9007199254740992real);
}

/// The quotient of two sides is in the normal range.
proof fn lemma_quotient_exists(a: int, b: int)
    requires
        0 < a <= usize::MAX,
        0 < b <= usize::MAX,
    ensures
        crate::binary64::rounds_to(
            crate::binary64::double(a) / crate::binary64::double(b),
            crate::binary64::nearest(crate::binary64::double(a) / crate::binary64::double(b)),
        ),
        crate::binary64::double(a) > 0real,
        crate::binary64::double(b) > 0real,
{
    crate::binary64::lemma_nearest_of_int(a);
    crate::binary64::lemma_nearest_of_int(b);
    crate::binary64::lemma_within_twice(a as real, crate::binary64::nearest(a as real));
    crate::binary64::lemma_within_twice(b as real, crate::binary64::nearest(b as real));
    crate::binary64::lemma_p2_64();
    crate::binary64::lemma_p2_add(64, 64);
    crate::binary64::lemma_p2_add(128, -128);
    let x = crate::binary64::double(a);
    let y = crate::binary64::double(b);
    let big = crate::binary64::p2(64);
    let low = crate::binary64::p2(-128);
    let high = crate::binary64::p2(128);
    let q = x / y;
    assert(q * y == x) by (nonlinear_arith)
        requires
            q == x / y,
            y > 0real,
    ;
    assert(y <= 2real * big && x <= 2real * big);
    assert(low * high == 1real);
    assert(q >= low) by (nonlinear_arith)
        requires
            q * y == x,
            1real <= 2real * x,
            0real < y <= 36893488147419103232real,
            low * 340282366920938463463374607431768211456real == 1real,
    ;
    assert(q < high) by (nonlinear_arith)
        requires
            q * y == x,
            x <= 36893488147419103232real,
            2real * y >= 1real,
            high == 340282366920938463463374607431768211456real,
    ;
    crate::binary64::lemma_nearest_exists(q, -128, 128);
}

/// Sides that pass the checks before scaling are far below `2^53`.
proof fn lemma_small_sides(height: int, width: int, factor: int)
    requires
        0 < height <= usize::MAX,
        0 < width <= usize::MAX,
        0 < factor,
        !(aspect_ratio(height, width).value() > MAX_RATIO as real),
        round_side(height, factor) * round_side(width, factor) <= usize::MAX,
    ensures
        height <= 202 * width,
        width <= 202 * height,
        height < 0x100_0000_0000,
        width < 0x100_0000_0000,
        factor * factor <= round_side(height, factor) * round_side(width, factor),
        factor < 0x1_0000_0001,
        1 <= round_side(height, factor) <= usize::MAX,
        1 <= round_side(width, factor) <= usize::MAX,
{
    lemma_ratio(height, width);
    lemma_round_side(height, factor);
    lemma_round_side(width, factor);
    let h = round_side(height, factor);
    let w = round_side(width, factor);
    assert(factor * factor <= h * w && h <= h * w && w <= h * w) by (nonlinear_arith)
        requires
            0 < factor,
            factor <= h,
            factor <= w,
    ;
    assert(height * width <= 4 * (h * w)) by (nonlinear_arith)
        requires
            0 < height <= 2 * h,
            0 < width <= 2 * w,
    ;
    let area = height * width;
    assert(height * height <= 202 * area && width * width <= 202 * area) by (nonlinear_arith)
        requires
            0 < height <= 202 * width,
            0 < width <= 202 * height,
            area == height * width,
    ;
    lemma_root_bound(height, 0x100_0000_0000);
    lemma_root_bound(width, 0x100_0000_0000);
    lemma_root_bound(factor, 0x1_0000_0001);
}

proof fn lemma_root_bound(a: int, b: int)
    requires
        0 <= a,
        0 < b,
    ensures
        a * a < b * b ==> a < b,
{
    if a >= b {
        assert(a * a >= b * b) by (nonlinear_arith)
            requires
                a >= b,
                0 < b,
        ;
    }
}

proof fn lemma_shrink_algebra(
    n: real,
    o: real,
    pixels: real,
    area: real,
    budget: real,
    excess: real,
    beta: real,
    v: real,
)
    requires
        0real < n <= 202real * o,
        0real < o,
        0real < pixels,
        n * o <= 2real * area,
        0real < budget <= 2real * pixels,
        0real < excess,
        area <= 2real * (excess * budget),
        0real < beta,
        excess < 4real * (beta * beta),
        0real <= v,
        v * beta <= 4real * n,
    ensures
        v * v <= 103424real * pixels,
{
    let b = beta * beta;
    assert(excess * budget <= 2real * (excess * pixels)) by (nonlinear_arith)
        requires
            0real < excess,
            budget <= 2real * pixels,
    ;
    assert(excess * pixels <= 4real * (b * pixels)) by (nonlinear_arith)
        requires
            excess < 4real * b,
            0real < pixels,
    ;
    assert(n * o <= 32real * (b * pixels));
    let vb = v * beta;
    assert((v * v) * b == vb * vb) by (nonlinear_arith)
        requires
            vb == v * beta,
            b == beta * beta,
    ;
    assert(0real <= vb) by (nonlinear_arith)
        requires
            vb == v * beta,
            0real <= v,
            0real < beta,
    ;
    assert(vb * vb <= 16real * (n * n)) by (nonlinear_arith)
        requires
            0real <= vb <= 4real * n,
    ;
    let vv = v * v;
    let no = n * o;
    let bp = b * pixels;
    assert(vv >= 0real) by (nonlinear_arith)
        requires
            vv == v * v,
    ;
    assert(vv * no <= 32real * (vv * bp)) by (nonlinear_arith)
        requires
            no <= 32real * bp,
            vv >= 0real,
    ;
    assert(vv * bp == (vv * b) * pixels) by (nonlinear_arith)
        requires
            bp == b * pixels,
    ;
    let nn = n * n;
    assert((vv * b) * pixels <= (16real * nn) * pixels) by (nonlinear_arith)
        requires
            vv * b <= 16real * nn,
            0real < pixels,
    ;
    assert(vv * no == (vv * o) * n) by (nonlinear_arith)
        requires
            no == n * o,
    ;
    assert((16real * nn) * pixels == (16real * (n * pixels)) * n) by (nonlinear_arith)
        requires
            nn == n * n,
    ;
    lemma_cancel(vv * o, 512real * (n * pixels), n);
    assert((512real * (n * pixels)) * n == 32real * ((16real * (n * pixels)) * n)) by (nonlinear_arith);
    assert(n * pixels <= (202real * o) * pixels) by (nonlinear_arith)
        requires
            n <= 202real * o,
            0real < pixels,
    ;
    assert((202real * o) * pixels == 202real * (pixels * o)) by (nonlinear_arith);
    assert((103424real * pixels) * o == 103424real * (pixels * o)) by (nonlinear_arith);
    lemma_cancel(vv, 103424real * pixels, o);
}

pub proof fn lemma_cancel(a: real, b: real, c: real)
    requires
        0real < c,
    ensures
        a * c <= b * c ==> a <= b,
{
    if a > b {
        assert(a * c > b * c) by (nonlinear_arith)
            requires
                a > b,
                0real < c,
        ;
    }
}

/// What is known of the numbers from which a shrunk side comes.
spec fn shrinking(
    n: int,
    o: int,
    factor: int,
    pixels: int,
    area: Binary64,
    excess: Binary64,
    beta: Binary64,
    side: Binary64,
    blocks: Binary64,
) -> bool {
    &&& 0 < n < 0x100_0000_0000
    &&& 0 < o < 0x100_0000_0000
    &&& 0 < factor < 0x1_0000_0001
    &&& 0 < pixels <= usize::MAX
    &&& crate::binary64::rounds_to(n as real * o as real, area)
    &&& crate::binary64::rounds_to(area.value() / crate::binary64::double(pixels), excess)
    &&& crate::binary64::root_rounds_to(excess.value(), beta)
    &&& crate::binary64::rounds_to(n as real / beta.value(), side)
    &&& crate::binary64::rounds_to(side.value() / factor as real, blocks)
}

/// A shrunk side is a `usize`.
proof fn lemma_shrunk_side(
    n: int,
    o: int,
    factor: int,
    pixels: int,
    area: Binary64,
    excess: Binary64,
    beta: Binary64,
    side: Binary64,
    blocks: Binary64,
    k: int,
)
    requires
        shrinking(n, o, factor, pixels, area, excess, beta, side, blocks),
        n <= 202 * o,
        0 <= k,
        k as real <= blocks.value(),
    ensures
        k <= k * factor <= usize::MAX,
{
    let nr = n as real;
    let or = o as real;
    let fr = factor as real;
    let budget = crate::binary64::double(pixels);
    crate::binary64::lemma_nearest_of_int(pixels);
    crate::binary64::lemma_within_twice(
        pixels as real,
        crate::binary64::nearest(pixels as real),
    );
    crate::binary64::lemma_within_twice(nr * or, area);
    crate::binary64::lemma_within_twice(area.value() / budget, excess);
    crate::binary64::lemma_root_within(excess.value(), beta);
    crate::binary64::lemma_within_twice(nr / beta.value(), side);
    crate::binary64::lemma_within_twice(side.value() / fr, blocks);
    lemma_quotient_bounds(area.value(), budget, excess.value());
    lemma_quotient_bounds(nr, beta.value(), side.value());
    lemma_quotient_bounds(side.value(), fr, blocks.value());
    let v = k as real * fr;
    let b = beta.value();
    let t = blocks.value();
    assert(0real <= v <= t * fr) by (nonlinear_arith)
        requires
            v == k as real * fr,
            0real <= k as real <= t,
            0real < fr,
    ;
    assert(v * b <= (2real * side.value()) * b) by (nonlinear_arith)
        requires
            v <= 2real * side.value(),
            0real < b,
    ;
    assert((2real * side.value()) * b == 2real * (side.value() * b)) by (nonlinear_arith);
    lemma_shrink_algebra(
        nr,
        or,
        pixels as real,
        area.value(),
        budget,
        excess.value(),
        b,
        v,
    );
    crate::binary64::lemma_product_as_real(k, factor);
    crate::binary64::lemma_product_as_real(k * factor, k * factor);
    let side_bar = k * factor;
    assert(side_bar * side_bar <= 103424 * pixels);
    assert(k <= k * factor) by (nonlinear_arith)
        requires
            0 <= k,
            0 < factor,
    ;
    lemma_root_bound(side_bar, usize::MAX + 1);
    assert(103424 * pixels < (usize::MAX + 1) * (usize::MAX + 1)) by (nonlinear_arith)
        requires
            pixels <= usize::MAX,
            usize::MAX >= 0xffff_ffff,
    ;
}

/// A rounded quotient, multiplied by the divisor again, is within a factor of
/// two of the dividend.
proof fn lemma_quotient_bounds(a: real, b: real, x: real)
    requires
        0real < a,
        0real < b,
        0real < x,
        x <= 2real * (a / b),
        a / b <= 2real * x,
    ensures
        x * b <= 2real * a,
        a <= 2real * (x * b),
{
    let q = a / b;
    assert(q * b == a) by (nonlinear_arith)
        requires
            q == a / b,
            0real < b,
    ;
    assert(x * b <= 2real * (q * b) && q * b <= 2real * (x * b)) by (nonlinear_arith)
        requires
            x <= 2real * q,
            q <= 2real * x,
            0real < b,
    ;
}

/// The integer nearest to `n / d`, the even one of two.
pub fn round_half_even(n: usize, d: usize) -> (k: u128)
    requires
        0 < d,
    ensures
        k == half_even(n as int, d as int),
{
    let q: usize = n / d;
    let r: usize = n % d;
    if r > d - r || (r == d - r && q % 2 == 1) {
        q as u128 + 1
    } else {
        q as u128
    }
}

fn round_by_factor(n: usize, factor: usize) -> (side: usize)
    requires
        0 < n,
        0 < factor,
        round_side(n as int, factor as int) <= usize::MAX,
    ensures
        side == round_side(n as int, factor as int),
{
    let k: u128 = round_half_even(n, factor);
    proof {
        lemma_round_side(n as int, factor as int);
    }
    let side: usize = (k * factor as u128) as usize;
    if side >= factor {
        side
    } else {
        factor
    }
}

/// A side divided by `beta` and rounded down to a multiple of the factor.
fn shrink_side(
    n: usize,
    factor: usize,
    beta: Binary64,
    Ghost(o): Ghost<int>,
    Ghost(pixels): Ghost<int>,
    Ghost(area): Ghost<Binary64>,
    Ghost(excess): Ghost<Binary64>,
) -> (side: usize)
    requires
        0 < n < 0x100_0000_0000,
        0 < o < 0x100_0000_0000,
        n <= 202 * o,
        0 < factor < 0x1_0000_0001,
        0 < pixels <= usize::MAX,
        beta.wf(),
        -200 <= beta.exp <= 200,
        crate::binary64::rounds_to(n as real * o as real, area),
        crate::binary64::rounds_to(area.value() / crate::binary64::double(pixels), excess),
        crate::binary64::root_rounds_to(excess.value(), beta),
    ensures
        side == shrunk_side(n as int, beta.value(), factor as int),
        side % factor == 0,
        side as real * beta.value() <= n as real * (crate::rounding_slack::slack()
            * crate::rounding_slack::slack()),
        side > 0 ==> n as real <= (2real * side as real * beta.value()) * (
        crate::rounding_slack::slack() * crate::rounding_slack::slack()),
{
    let dividend = Binary64::from_int(n as u128);
    let divisor = Binary64::from_int(factor as u128);
    let scaled = dividend.div(beta);
    let blocks = scaled.div(divisor);
    let k: usize = blocks.floor_to_usize();
    proof {
        let bound = blocks.value();
        crate::binary64::lemma_floor_of_number(blocks);
        lemma_shrunk_side(
            n as int,
            o,
            factor as int,
            pixels,
            area,
            excess,
            beta,
            scaled,
            blocks,
            crate::binary64::floor(blocks.value()),
        );
        vstd::arithmetic::div_mod::lemma_mod_multiples_basic(k as int, factor as int);
        crate::rounding_slack::lemma_slack(dividend.value() / beta.value(), scaled);
        crate::rounding_slack::lemma_slack(scaled.value() / divisor.value(), blocks);
        crate::binary64::lemma_root_relative_error(excess.value(), beta);
        crate::rounding_slack::lemma_quotient_slack(dividend.value(), beta.value(), scaled.value());
        crate::rounding_slack::lemma_quotient_slack(
            scaled.value(),
            divisor.value(),
            blocks.value(),
        );
        crate::binary64::lemma_product_as_real(k as int, factor as int);
        lemma_shrunk_slack(
            k as real,
            factor as real,
            blocks.value(),
            scaled.value(),
            beta.value(),
            n as real,
        );
        vstd::arithmetic::mul::lemma_mul_basics(factor as int);
        if k > 0 {
            super::block_rounding::lemma_half_kept(
                k as real,
                factor as real,
                blocks.value(),
                scaled.value(),
                beta.value(),
                n as real,
            );
        }
    }
    k * factor
}

proof fn lemma_shrunk_slack(k: real, f: real, blocks: real, side: real, beta: real, n: real)
    requires
        0real < f,
        0real < beta,
        k <= blocks,
        blocks * f <= side * crate::rounding_slack::slack(),
        side * beta <= n * crate::rounding_slack::slack(),
    ensures
        (k * f) * beta <= n * (crate::rounding_slack::slack() * crate::rounding_slack::slack()),
{
    let g = crate::rounding_slack::slack();
    assert(k * f <= blocks * f) by (nonlinear_arith)
        requires
            k <= blocks,
            0real < f,
    ;
    let v = k * f;
    assert(v * beta <= (side * g) * beta) by (nonlinear_arith)
        requires
            v <= side * g,
            0real < beta,
    ;
    assert((side * g) * beta == (side * beta) * g) by (nonlinear_arith);
    let sb = side * beta;
    assert(sb * g <= (n * g) * g) by (nonlinear_arith)
        requires
            sb <= n * g,
            0real < g,
    ;
    assert((n * g) * g == n * (g * g)) by (nonlinear_arith);
}

proof fn lemma_stretched_slack(k: real, f: real, blocks: real, side: real, beta: real, n: real)
    requires
        0real < f,
        blocks <= k,
        side <= (blocks * f) * crate::rounding_slack::slack(),
        n * beta <= side * crate::rounding_slack::slack(),
    ensures
        n * beta <= (k * f) * (crate::rounding_slack::slack() * crate::rounding_slack::slack()),
{
    let g = crate::rounding_slack::slack();
    assert(blocks * f <= k * f) by (nonlinear_arith)
        requires
            blocks <= k,
            0real < f,
    ;
    let v = k * f;
    let bf = blocks * f;
    assert(bf * g <= v * g) by (nonlinear_arith)
        requires
            bf <= v,
            0real < g,
    ;
    assert(side * g <= (v * g) * g) by (nonlinear_arith)
        requires
            side <= v * g,
            0real < g,
    ;
    assert((v * g) * g == v * (g * g)) by (nonlinear_arith);
}

proof fn lemma_stretch_algebra(
    n: real,
    o: real,
    pixels: real,
    area: real,
    budget: real,
    lack: real,
    beta: real,
    v: real,
)
    requires
        0real < n <= 202real * o,
        0real < o,
        0real < pixels,
        0real < area,
        n * o <= 2real * area,
        0real < budget <= 2real * pixels,
        0real < lack,
        lack * area <= 2real * budget,
        0real < beta,
        beta * beta < 4real * lack,
        0real <= v <= 4real * (n * beta),
    ensures
        v * v <= 103424real * pixels,
{
    let b = beta * beta;
    let nb = n * beta;
    let vv = v * v;
    let nn = n * n;
    let no = n * o;
    assert(vv <= 16real * (nb * nb)) by (nonlinear_arith)
        requires
            vv == v * v,
            0real <= v <= 4real * nb,
    ;
    assert(nb * nb == nn * b) by (nonlinear_arith)
        requires
            nb == n * beta,
            nn == n * n,
            b == beta * beta,
    ;
    assert(nn > 0real) by (nonlinear_arith)
        requires
            nn == n * n,
            0real < n,
    ;
    assert(nn * b <= 4real * (nn * lack)) by (nonlinear_arith)
        requires
            b < 4real * lack,
            nn > 0real,
    ;
    assert(vv <= 64real * (nn * lack));
    assert(lack * no <= 2real * (lack * area)) by (nonlinear_arith)
        requires
            no <= 2real * area,
            0real < lack,
    ;
    assert(lack * no <= 8real * pixels);
    assert(no > 0real) by (nonlinear_arith)
        requires
            no == n * o,
            0real < n,
            0real < o,
    ;
    assert(vv * no <= (64real * (nn * lack)) * no) by (nonlinear_arith)
        requires
            vv <= 64real * (nn * lack),
            no > 0real,
    ;
    assert((64real * (nn * lack)) * no == 64real * (nn * (lack * no))) by (nonlinear_arith);
    let ln = lack * no;
    assert(nn * ln <= nn * (8real * pixels)) by (nonlinear_arith)
        requires
            ln <= 8real * pixels,
            nn > 0real,
    ;
    assert(nn * (8real * pixels) == (8real * (n * pixels)) * n) by (nonlinear_arith)
        requires
            nn == n * n,
    ;
    assert(vv * no == (vv * o) * n) by (nonlinear_arith)
        requires
            no == n * o,
    ;
    assert((512real * (n * pixels)) * n == 64real * ((8real * (n * pixels)) * n)) by (nonlinear_arith);
    lemma_cancel(vv * o, 512real * (n * pixels), n);
    assert(n * pixels <= (202real * o) * pixels) by (nonlinear_arith)
        requires
            n <= 202real * o,
            0real < pixels,
    ;
    assert((202real * o) * pixels == 202real * (pixels * o)) by (nonlinear_arith);
    assert((103424real * pixels) * o == 103424real * (pixels * o)) by (nonlinear_arith);
    lemma_cancel(vv, 103424real * pixels, o);
}

/// What is known of the numbers from which a stretched side comes.
spec fn stretching(
    n: int,
    o: int,
    factor: int,
    pixels: int,
    area: Binary64,
    lack: Binary64,
    beta: Binary64,
    side: Binary64,
    blocks: Binary64,
) -> bool {
    &&& 0 < n < 0x100_0000_0000
    &&& 0 < o < 0x100_0000_0000
    &&& 0 < factor < 0x1_0000_0001
    &&& factor * factor <= usize::MAX
    &&& 0 < pixels <= usize::MAX
    &&& crate::binary64::rounds_to(n as real * o as real, area)
    &&& crate::binary64::rounds_to(crate::binary64::double(pixels) / area.value(), lack)
    &&& crate::binary64::root_rounds_to(lack.value(), beta)
    &&& crate::binary64::rounds_to(n as real * beta.value(), side)
    &&& crate::binary64::rounds_to(side.value() / factor as real, blocks)
}

/// A stretched side is a `usize`.
proof fn lemma_stretched_side(
    n: int,
    o: int,
    factor: int,
    pixels: int,
    area: Binary64,
    lack: Binary64,
    beta: Binary64,
    side: Binary64,
    blocks: Binary64,
    k: int,
)
    requires
        stretching(n, o, factor, pixels, area, lack, beta, side, blocks),
        n <= 202 * o,
        0 <= k,
        k as real - 1real < blocks.value(),
    ensures
        k <= k * factor <= usize::MAX,
{
    let nr = n as real;
    let or = o as real;
    let fr = factor as real;
    let budget = crate::binary64::double(pixels);
    crate::binary64::lemma_nearest_of_int(pixels);
    crate::binary64::lemma_within_twice(
        pixels as real,
        crate::binary64::nearest(pixels as real),
    );
    crate::binary64::lemma_within_twice(nr * or, area);
    crate::binary64::lemma_within_twice(budget / area.value(), lack);
    crate::binary64::lemma_root_within(lack.value(), beta);
    crate::binary64::lemma_within_twice(nr * beta.value(), side);
    crate::binary64::lemma_within_twice(side.value() / fr, blocks);
    lemma_quotient_bounds(budget, area.value(), lack.value());
    lemma_quotient_bounds(side.value(), fr, blocks.value());
    assert(k <= k * factor) by (nonlinear_arith)
        requires
            0 <= k,
            0 < factor,
    ;
    if k > 0 {
        let j = k - 1;
        let v = j as real * fr;
        let t = blocks.value();
        assert(0real <= v <= t * fr) by (nonlinear_arith)
            requires
                v == j as real * fr,
                0real <= j as real <= t,
                0real < fr,
        ;
        lemma_stretch_algebra(
            nr,
            or,
            pixels as real,
            area.value(),
            budget,
            lack.value(),
            beta.value(),
            v,
        );
        crate::binary64::lemma_product_as_real(j, factor);
        crate::binary64::lemma_product_as_real(j * factor, j * factor);
        let a = j * factor;
        assert(a * a <= 103424 * pixels);
        assert(a >= 0) by (nonlinear_arith)
            requires
                a == j * factor,
                j >= 0,
                factor > 0,
        ;
        let all = usize::MAX + 1;
        assert(k * factor == a + factor) by (nonlinear_arith)
            requires
                a == j * factor,
                j == k - 1,
        ;
        assert((2 * a) * (2 * a) == 4 * (a * a)) by (nonlinear_arith);
        assert((2 * factor) * (2 * factor) == 4 * (factor * factor)) by (nonlinear_arith);
        assert(4 * (103424 * pixels) < all * all && 4 * usize::MAX < all * all) by (nonlinear_arith)
            requires
                pixels <= usize::MAX,
                all == usize::MAX + 1,
                usize::MAX >= 0xffff_ffff,
        ;
        lemma_root_bound(2 * a, all);
        lemma_root_bound(2 * factor, all);
    } else {
        assert(k * factor == 0) by (nonlinear_arith)
            requires
                k == 0,
        ;
    }
}

/// A side multiplied by `beta` and rounded up to a multiple of the factor.
fn stretch_side(
    n: usize,
    factor: usize,
    beta: Binary64,
    Ghost(o): Ghost<int>,
    Ghost(pixels): Ghost<int>,
    Ghost(area): Ghost<Binary64>,
    Ghost(lack): Ghost<Binary64>,
) -> (side: usize)
    requires
        0 < n < 0x100_0000_0000,
        0 < o < 0x100_0000_0000,
        n <= 202 * o,
        0 < factor < 0x1_0000_0001,
        factor * factor <= usize::MAX,
        0 < pixels <= usize::MAX,
        beta.wf(),
        -200 <= beta.exp <= 200,
        crate::binary64::rounds_to(n as real * o as real, area),
        crate::binary64::rounds_to(crate::binary64::double(pixels) / area.value(), lack),
        crate::binary64::root_rounds_to(lack.value(), beta),
    ensures
        side == stretched_side(n as int, beta.value(), factor as int),
        side % factor == 0,
        side > 0,
        n as real * beta.value() <= side as real * (crate::rounding_slack::slack()
            * crate::rounding_slack::slack()),
        super::block_rounding::grows_by_a_block(side as real, n as real, beta.value(), factor as real),
{
    let multiplicand = Binary64::from_int(n as u128);
    let divisor = Binary64::from_int(factor as u128);
    let scaled = multiplicand.mul(beta);
    let blocks = scaled.div(divisor);
    let k: usize = blocks.ceil_to_usize();
    proof {
        crate::binary64::lemma_floor_of_number(blocks);
        crate::binary64::lemma_relative_error(scaled.value() / divisor.value(), blocks);
        lemma_stretched_side(
            n as int,
            o,
            factor as int,
            pixels,
            area,
            lack,
            beta,
            scaled,
            blocks,
            crate::binary64::ceil(blocks.value()),
        );
        vstd::arithmetic::div_mod::lemma_mod_multiples_basic(k as int, factor as int);
        crate::rounding_slack::lemma_slack(multiplicand.value() * beta.value(), scaled);
        crate::rounding_slack::lemma_slack(scaled.value() / divisor.value(), blocks);
        crate::rounding_slack::lemma_quotient_slack(
            scaled.value(),
            divisor.value(),
            blocks.value(),
        );
        crate::binary64::lemma_product_as_real(k as int, factor as int);
        lemma_stretched_slack(
            k as real,
            factor as real,
            blocks.value(),
            scaled.value(),
            beta.value(),
            n as real,
        );
        super::block_rounding::lemma_block_added(
            k as real,
            factor as real,
            blocks.value(),
            scaled.value(),
            beta.value(),
            n as real,
        );
        if blocks.value() <= 1real {
            crate::binary64::lemma_ceil(blocks.value(), 1);
        }
    }
    k * factor
}

/// Whether the pixels of a target size respect the budget: an image whose
/// rounded sides are inside it keeps them, one above it is shrunk to at most
/// `max_pixels`, and one below it is stretched to at least `min_pixels`. Rounding
/// can cost budgets above `EXACT_BUDGET` one pixel in `SLACK_PART`.
///
/// Rounding to whole blocks costs a shrunk image less than four fifths of
/// `max_pixels`, and makes a stretched one smaller than 16 times `min_pixels`. So
/// where the bounds are that far apart, both are kept.
pub open spec fn respects_budget(
    height: int,
    width: int,
    factor: int,
    min_pixels: int,
    max_pixels: int,
    h: int,
    w: int,
) -> bool {
    let pixels = round_side(height, factor) * round_side(width, factor);
    &&& min_pixels <= pixels <= max_pixels ==> min_pixels <= h * w <= max_pixels
    &&& max_pixels < pixels ==> {
        &&& max_pixels <= crate::rounding_slack::EXACT_BUDGET ==> h * w <= max_pixels
        &&& (h * w - max_pixels) * crate::rounding_slack::SLACK_PART <= max_pixels
        &&& max_pixels < 5 * (h * w)
    }
    &&& pixels <= max_pixels && pixels < min_pixels ==> {
        &&& min_pixels <= crate::rounding_slack::EXACT_BUDGET ==> min_pixels <= h * w
        &&& (min_pixels - h * w) * crate::rounding_slack::SLACK_PART <= h * w
        &&& h * w < 16 * min_pixels
    }
    &&& 16 * min_pixels <= max_pixels && max_pixels <= crate::rounding_slack::EXACT_BUDGET
        ==> min_pixels <= h * w <= max_pixels
}

/// The size to which an image is resized: both sides are multiples of
/// `factor`, and the number of pixels is between `min_pixels` and
/// `max_pixels` as far as one scaling of the sides brings it there, which it does
/// where `max_pixels` is at least 16 times `min_pixels`.
pub fn smart_resize(
    height: usize,
    width: usize,
    factor: usize,
    min_pixels: usize,
    max_pixels: usize,
) -> (result: Result<(usize, usize), ResizeError>)
    requires
        pixels_fit(height as int, width as int, factor as int),
    ensures
        result == resized(height, width, factor, min_pixels, max_pixels),
        holds_target_sides(height, width, factor, min_pixels, max_pixels, result),
        result matches Ok((h, w)) ==> {
            &&& 0 < h
            &&& 0 < w
            &&& 0 < factor
            &&& h % factor == 0
            &&& w % factor == 0
            &&& respects_budget(
                height as int,
                width as int,
                factor as int,
                min_pixels as int,
                max_pixels as int,
                h as int,
                w as int,
            )
        },
{
    if height == 0 || width == 0 {
        return Err(ResizeError::EmptyImage);
    }
    let h = Binary64::from_int(height as u128);
    let w = Binary64::from_int(width as u128);
    let ratio = if height >= width {
        h.div(w)
    } else {
        w.div(h)
    };
    let limit = Binary64::from_int(MAX_RATIO);
    if limit.less_than(ratio) {
        return Err(ResizeError::AspectRatio { ratio });
    }
    let mut h_bar: usize = 0;
    let mut w_bar: usize = 0;
    if factor > 0 {
        proof {
            lemma_small_sides(height as int, width as int, factor as int);
            lemma_round_side(height as int, factor as int);
            lemma_round_side(width as int, factor as int);
        }
        h_bar = round_by_factor(height, factor);
        w_bar = round_by_factor(width, factor);
        let pixels: usize = h_bar * w_bar;
        if pixels > max_pixels {
            if max_pixels == 0 {
                h_bar = 0;
                w_bar = 0;
            } else {
                let area = h.mul(w);
                let budget = Binary64::from_int(max_pixels as u128);
                let excess = area.div(budget);
                let beta = excess.sqrt();
                proof {
                    lemma_commuted(height as int, width as int, area);
                }
                h_bar = shrink_side(
                    height,
                    factor,
                    beta,
                    Ghost(width as int),
                    Ghost(max_pixels as int),
                    Ghost(area),
                    Ghost(excess),
                );
                w_bar = shrink_side(
                    width,
                    factor,
                    beta,
                    Ghost(height as int),
                    Ghost(max_pixels as int),
                    Ghost(area),
                    Ghost(excess),
                );
                proof {
                    crate::rounding_slack::lemma_slack(max_pixels as real, budget);
                    crate::rounding_slack::lemma_slack(h.value() * w.value(), area);
                    crate::rounding_slack::lemma_slack(area.value() / budget.value(), excess);
                    crate::rounding_slack::lemma_quotient_slack(
                        area.value(),
                        budget.value(),
                        excess.value(),
                    );
                    crate::rounding_slack::lemma_root_slack(excess.value(), beta);
                    lemma_shrunk_budget(
                        h.value(),
                        w.value(),
                        budget.value(),
                        area.value(),
                        excess.value(),
                        beta.value(),
                        h_bar as real,
                        w_bar as real,
                    );
                    lemma_shrunk_pixels(h_bar as int, w_bar as int, max_pixels as int, budget);
                    if h_bar > 0 && w_bar > 0 {
                        super::block_rounding::lemma_shrunk_above(
                            h.value(),
                            w.value(),
                            max_pixels as int,
                            budget,
                            area.value(),
                            excess.value(),
                            beta.value(),
                            h_bar as int,
                            w_bar as int,
                        );
                    }
                }
            }
        } else if pixels < min_pixels {
            let area = h.mul(w);
            let budget = Binary64::from_int(min_pixels as u128);
            let lack = budget.div(area);
            let beta = lack.sqrt();
            proof {
                lemma_commuted(height as int, width as int, area);
            }
            h_bar = stretch_side(
                height,
                factor,
                beta,
                Ghost(width as int),
                Ghost(min_pixels as int),
                Ghost(area),
                Ghost(lack),
            );
            w_bar = stretch_side(
                width,
                factor,
                beta,
                Ghost(height as int),
                Ghost(min_pixels as int),
                Ghost(area),
                Ghost(lack),
            );
            proof {
                crate::rounding_slack::lemma_slack(min_pixels as real, budget);
                crate::rounding_slack::lemma_slack(h.value() * w.value(), area);
                crate::rounding_slack::lemma_slack(budget.value() / area.value(), lack);
                crate::rounding_slack::lemma_quotient_slack(
                    budget.value(),
                    area.value(),
                    lack.value(),
                );
                crate::rounding_slack::lemma_root_slack(lack.value(), beta);
                crate::rounding_slack::lemma_stretched_budget(
                    h.value(),
                    w.value(),
                    budget.value(),
                    area.value(),
                    lack.value(),
                    beta.value(),
                    h_bar as real,
                    w_bar as real,
                );
                lemma_stretched_pixels(h_bar as int, w_bar as int, min_pixels as int, budget);
                super::block_rounding::lemma_stretched_below(
                    h.value(),
                    w.value(),
                    min_pixels as int,
                    budget,
                    area.value(),
                    lack.value(),
                    beta.value(),
                    factor as int,
                    h_bar as int,
                    w_bar as int,
                );
            }
        }
    }
    if h_bar == 0 || w_bar == 0 {
        return Err(
            ResizeError::Degenerate { height, width, h_bar, w_bar, max_pixels },
        );
    }
    Ok((h_bar, w_bar))
}

/// The pixels of shrunk sides.
#[verifier::spinoff_prover]
proof fn lemma_shrunk_pixels(hb: int, wb: int, most: int, budget: Binary64)
    requires
        0 < most,
        crate::binary64::rounds_to(most as real, budget),
        most < crate::binary64::MANT_END ==> budget.value() == most as real,
        ({
            let g2 = crate::rounding_slack::slack() * crate::rounding_slack::slack();
            let g4 = g2 * g2;
            hb as real * wb as real <= (g4 * g4) * budget.value()
        }),
    ensures
        most <= crate::rounding_slack::EXACT_BUDGET ==> hb * wb <= most,
        (hb * wb - most) * crate::rounding_slack::SLACK_PART <= most,
{
    crate::binary64::lemma_product_as_real(hb, wb);
    lemma_shrunk_within(hb * wb, hb as real * wb as real, most, budget);
}

/// The pixels of stretched sides.
#[verifier::spinoff_prover]
proof fn lemma_stretched_pixels(hb: int, wb: int, least: int, budget: Binary64)
    requires
        0 < least,
        0 <= hb,
        0 <= wb,
        crate::binary64::rounds_to(least as real, budget),
        least < crate::binary64::MANT_END ==> budget.value() == least as real,
        ({
            let g2 = crate::rounding_slack::slack() * crate::rounding_slack::slack();
            let g4 = g2 * g2;
            budget.value() <= (g4 * g4) * (hb as real * wb as real)
        }),
    ensures
        least <= crate::rounding_slack::EXACT_BUDGET ==> least <= hb * wb,
        (least - hb * wb) * crate::rounding_slack::SLACK_PART <= hb * wb,
{
    crate::binary64::lemma_product_as_real(hb, wb);
    vstd::arithmetic::mul::lemma_mul_nonnegative(hb, wb);
    lemma_stretched_within(hb * wb, hb as real * wb as real, least, budget);
}

/// Pixels that eight slacks keep below the rounded budget.
proof fn lemma_shrunk_within(pixels: int, c: real, most: int, budget: Binary64)
    requires
        0 < most,
        c == pixels as real,
        crate::binary64::rounds_to(most as real, budget),
        most < crate::binary64::MANT_END ==> budget.value() == most as real,
        ({
            let g2 = crate::rounding_slack::slack() * crate::rounding_slack::slack();
            let g4 = g2 * g2;
            c <= (g4 * g4) * budget.value()
        }),
    ensures
        most <= crate::rounding_slack::EXACT_BUDGET ==> pixels <= most,
        (pixels - most) * crate::rounding_slack::SLACK_PART <= most,
{
    let g = crate::rounding_slack::slack();
    let g2 = g * g;
    let g4 = g2 * g2;
    let g8 = g4 * g4;
    let p = most as real;
    let b = budget.value();
    crate::rounding_slack::lemma_slack(p, budget);
    crate::rounding_slack::lemma_nine_slacks(p);
    assert(g8 > 0real) by (nonlinear_arith)
        requires
            g > 0real,
            g2 == g * g,
            g4 == g2 * g2,
            g8 == g4 * g4,
    ;
    assert(b <= g * p) by (nonlinear_arith)
        requires
            b <= p * g,
    ;
    assert(g8 * b <= g8 * (g * p)) by (nonlinear_arith)
        requires
            b <= g * p,
            g8 > 0real,
    ;
    if most <= crate::rounding_slack::EXACT_BUDGET {
        crate::rounding_slack::lemma_eight_slacks(most);
    }
}

/// Pixels that eight slacks bring above the rounded budget.
proof fn lemma_stretched_within(pixels: int, c: real, least: int, budget: Binary64)
    requires
        0 < least,
        c == pixels as real,
        0 <= pixels,
        crate::binary64::rounds_to(least as real, budget),
        least < crate::binary64::MANT_END ==> budget.value() == least as real,
        ({
            let g2 = crate::rounding_slack::slack() * crate::rounding_slack::slack();
            let g4 = g2 * g2;
            budget.value() <= (g4 * g4) * c
        }),
    ensures
        least <= crate::rounding_slack::EXACT_BUDGET ==> least <= pixels,
        (least - pixels) * crate::rounding_slack::SLACK_PART <= pixels,
{
    let g = crate::rounding_slack::slack();
    let g2 = g * g;
    let g4 = g2 * g2;
    let g8 = g4 * g4;
    let p = least as real;
    let b = budget.value();
    crate::rounding_slack::lemma_slack(p, budget);
    crate::rounding_slack::lemma_nine_slacks(c);
    assert(b * g <= (g8 * c) * g) by (nonlinear_arith)
        requires
            b <= g8 * c,
            g > 0real,
    ;
    assert((g8 * c) * g == g8 * (g * c)) by (nonlinear_arith);
    if least <= crate::rounding_slack::EXACT_BUDGET && pixels < least {
        crate::rounding_slack::lemma_eight_slacks(pixels);
    }
}

proof fn lemma_commuted(a: int, b: int, area: Binary64)
    ensures
        crate::binary64::rounds_to(a as real * b as real, area)
            == crate::binary64::rounds_to(b as real * a as real, area),
{
    let x = a as real;
    let y = b as real;
    assert(x * y == y * x) by (nonlinear_arith);
}

/// The sides of a shrunk image, before rounding down, have the budget's pixels
/// up to slack.
proof fn lemma_shrunk_budget(
    h: real,
    w: real,
    p: real,
    area: real,
    excess: real,
    beta: real,
    hb: real,
    wb: real,
)
    requires
        0real < h,
        0real < w,
        0real < p,
        0real < area,
        0real < excess,
        0real < beta,
        0real <= hb,
        0real <= wb,
        h * w <= area * crate::rounding_slack::slack(),
        area <= (excess * p) * crate::rounding_slack::slack(),
        excess <= (beta * beta) * (crate::rounding_slack::slack() * crate::rounding_slack::slack()),
        hb * beta <= h * (crate::rounding_slack::slack() * crate::rounding_slack::slack()),
        wb * beta <= w * (crate::rounding_slack::slack() * crate::rounding_slack::slack()),
    ensures
        ({
            let g2 = crate::rounding_slack::slack() * crate::rounding_slack::slack();
            let g4 = g2 * g2;
            hb * wb <= (g4 * g4) * p
        }),
{
    let g = crate::rounding_slack::slack();
    let g2 = g * g;
    let g4 = g2 * g2;
    assert(g > 0real && g2 > 0real && g4 > 0real) by (nonlinear_arith)
        requires
            g == crate::rounding_slack::slack(),
            crate::rounding_slack::slack() > 0real,
            g2 == g * g,
            g4 == g2 * g2,
    ;
    let b = beta * beta;
    let a = h * w;
    let c = hb * wb;
    assert(b > 0real && a > 0real && c >= 0real) by (nonlinear_arith)
        requires
            b == beta * beta,
            beta > 0real,
            a == h * w,
            h > 0real,
            w > 0real,
            c == hb * wb,
            hb >= 0real,
            wb >= 0real,
    ;
    assert(area * g <= ((excess * p) * g) * g) by (nonlinear_arith)
        requires
            area <= (excess * p) * g,
            g > 0real,
    ;
    assert(((excess * p) * g) * g == excess * (p * g2)) by (nonlinear_arith)
        requires
            g2 == g * g,
    ;
    let pg = p * g2;
    assert(pg > 0real) by (nonlinear_arith)
        requires
            pg == p * g2,
            p > 0real,
            g2 > 0real,
    ;
    assert(excess * pg <= (b * g2) * pg) by (nonlinear_arith)
        requires
            excess <= b * g2,
            pg > 0real,
    ;
    assert((b * g2) * pg == b * (g4 * p)) by (nonlinear_arith)
        requires
            pg == p * g2,
            g4 == g2 * g2,
    ;
    assert(a <= b * (g4 * p));
    let x = hb * beta;
    let y = wb * beta;
    assert(0real <= x && 0real <= y) by (nonlinear_arith)
        requires
            x == hb * beta,
            y == wb * beta,
            hb >= 0real,
            wb >= 0real,
            beta > 0real,
    ;
    assert(x * y <= (h * g2) * (w * g2)) by (nonlinear_arith)
        requires
            0real <= x <= h * g2,
            0real <= y <= w * g2,
    ;
    assert(x * y == c * b) by (nonlinear_arith)
        requires
            x == hb * beta,
            y == wb * beta,
            c == hb * wb,
            b == beta * beta,
    ;
    assert((h * g2) * (w * g2) == a * g4) by (nonlinear_arith)
        requires
            a == h * w,
            g4 == g2 * g2,
    ;
    let q = g4 * p;
    assert(a * g4 <= (b * q) * g4) by (nonlinear_arith)
        requires
            a <= b * q,
            g4 > 0real,
    ;
    assert((b * q) * g4 == ((g4 * g4) * p) * b) by (nonlinear_arith)
        requires
            q == g4 * p,
    ;
    lemma_cancel(c, (g4 * g4) * p, b);
}

/// Whether `k` is the integer nearest to `r`, the even one of two.
pub open spec fn rounds_half_even(r: real, k: int) -> bool {
    let twice = 2real * (r - k as real);
    &&& -1real <= twice <= 1real
    &&& twice == 1real || twice == -1real ==> k % 2 == 0
}

/// Rounding a quotient of integers to an integer gives the same whether or not
/// the quotient was rounded to binary64 before: the integer rounding of
/// `half_even` is the double-precision one.
#[verifier::spinoff_prover]
pub proof fn law_rounding_is_exact(n: int, d: int)
    requires
        0 < n < crate::binary64::MANT_MIN,
        0 < d < crate::binary64::MANT_END,
    ensures
        crate::binary64::double(n) == n as real,
        crate::binary64::double(d) == d as real,
        rounds_half_even(
            crate::binary64::nearest(
                crate::binary64::double(n) / crate::binary64::double(d),
            ).value(),
            half_even(n, d),
        ),
{
    crate::binary64::lemma_int_exact(n);
    crate::binary64::lemma_int_exact(d);
    let k = half_even(n, d);
    let q = n / d;
    let r = n % d;
    vstd::arithmetic::div_mod::lemma_fundamental_div_mod(n, d);
    vstd::arithmetic::div_mod::lemma_mod_bound(n, d);
    vstd::arithmetic::div_mod::lemma_div_pos_is_pos(n, d);
    vstd::arithmetic::div_mod::lemma_div_nonincreasing(n, d);
    vstd::arithmetic::mul::lemma_mul_is_commutative(d, q);
    vstd::arithmetic::mul::lemma_mul_is_distributive_add_other_way(d, q, 1);
    let t = n as real / d as real;
    let nr = n as real;
    let dr = d as real;
    let kr = k as real;
    assert(t * dr == nr) by (nonlinear_arith)
        requires
            t == nr / dr,
            dr > 0real,
    ;
    crate::binary64::lemma_product_as_real(k, d);
    let gap = n - k * d;
    assert((t - kr) * dr == gap as real) by (nonlinear_arith)
        requires
            t * dr == nr,
            gap as real == nr - kr * dr,
    ;
    let f = t - kr;
    if 2 * gap == d || 2 * gap == -d {
        let sign = if 2 * gap == d {
            1real
        } else {
            -1real
        };
        let half = gap as real;
        assert(2real * half == sign * dr) by (nonlinear_arith)
            requires
                half == gap as real,
                dr == d as real,
                (2 * gap == d && sign == 1real) || (2 * gap == -d && sign == -1real),
        ;
        assert(2real * f == sign) by (nonlinear_arith)
            requires
                f * dr == half,
                2real * half == sign * dr,
                dr > 0real,
        ;
        let twice = if 2 * gap == d {
            2 * k + 1
        } else {
            2 * k - 1
        };
        assert(t == twice as real / 2real);
        assert(t > 0real) by (nonlinear_arith)
            requires
                t * dr == nr,
                nr > 0real,
                dr > 0real,
        ;
        crate::binary64::lemma_int_exact(twice);
    } else {
        lemma_quotient_exists_small(n, d);
        crate::binary64::lemma_relative_error(t, crate::binary64::nearest(t));
        let x = crate::binary64::nearest(t).value();
        assert(2real * f * dr <= dr - 1real && 2real * f * dr >= 1real - dr) by (nonlinear_arith)
            requires
                f * dr == gap as real,
                2 * gap <= d - 1,
                2 * gap >= 1 - d,
                dr == d as real,
        ;
        let e = x - t;
        assert(9007199254740991real * (e * dr) <= nr && 9007199254740991real * (e * dr) >= -nr)
            by (nonlinear_arith)
            requires
                9007199254740991real * e <= t,
                9007199254740991real * e >= -t,
                t * dr == nr,
                dr > 0real,
        ;
        assert(2real * (e * dr) < 1real && 2real * (e * dr) > -1real);
        let s = 2real * (x - kr);
        assert(s * dr == 2real * f * dr + 2real * (e * dr)) by (nonlinear_arith)
            requires
                s == 2real * (x - kr),
                f == t - kr,
                e == x - t,
        ;
        assert(-1real < s && s < 1real) by (nonlinear_arith)
            requires
                s * dr < dr,
                s * dr > -dr,
                dr > 0real,
        ;
    }
}

/// The quotient of two small integers is in the normal range.
proof fn lemma_quotient_exists_small(a: int, b: int)
    requires
        0 < a < crate::binary64::MANT_END,
        0 < b < crate::binary64::MANT_END,
    ensures
        crate::binary64::rounds_to(
            a as real / b as real,
            crate::binary64::nearest(a as real / b as real),
        ),
{
    crate::binary64::lemma_p2_64();
    crate::binary64::lemma_p2_add(64, -64);
    let low = crate::binary64::p2(-64);
    let x = a as real;
    let y = b as real;
    let q = x / y;
    assert(q * y == x) by (nonlinear_arith)
        requires
            q == x / y,
            y > 0real,
    ;
    assert(q >= low) by (nonlinear_arith)
        requires
            q * y == x,
            1real <= x,
            0real < y < 18446744073709551616real,
            18446744073709551616real * low == 1real,
    ;
    assert(q < 18446744073709551616real) by (nonlinear_arith)
        requires
            q * y == x,
            x < 18446744073709551616real,
            y >= 1real,
    ;
    crate::binary64::lemma_nearest_exists(q, -64, 64);
}

/// For sides below `2^44` the aspect ratio is refused exactly where one side is more
/// than 200 times the other: rounding to binary64 does not matter.
pub proof fn law_ratio_is_exact(height: int, width: int)
    requires
        0 < height < 0x1000_0000_0000,
        0 < width < 0x1000_0000_0000,
    ensures
        (aspect_ratio(height, width).value() > MAX_RATIO as real) == (height > 200 * width || width
            > 200 * height),
{
    if height >= width {
        lemma_ratio_is_exact(height, width);
    } else {
        lemma_ratio_is_exact(width, height);
    }
}

proof fn lemma_ratio_is_exact(a: int, b: int)
    requires
        0 < b <= a < 0x1000_0000_0000,
    ensures
        (crate::binary64::nearest(
            crate::binary64::double(a) / crate::binary64::double(b),
        ).value() > 200real) == (a > 200 * b),
{
    crate::binary64::lemma_int_exact(a);
    crate::binary64::lemma_int_exact(b);
    crate::binary64::lemma_int_exact(200);
    lemma_quotient_exists_small(a, b);
    let x = a as real;
    let y = b as real;
    let q = x / y;
    let near = crate::binary64::nearest(q);
    if a > 200 * b {
        let unit = crate::binary64::p2(-44);
        crate::binary64::lemma_p2_add(44, -44);
        crate::binary64::lemma_p2_step(-45);
        crate::binary64::lemma_p2_44();
        let above = Binary64 { mant: 0x19_0000_0000_0002, exp: (-45) as i32 };
        assert(above.value() == 200real + unit) by (nonlinear_arith)
            requires
                above.value() == 7036874417766402real * crate::binary64::p2(-45),
                unit == 2real * crate::binary64::p2(-45),
                17592186044416real * unit == 1real,
        ;
        crate::binary64::lemma_nearest_exact(above);
        assert(q >= 200real + unit) by (nonlinear_arith)
            requires
                q == x / y,
                x >= 200real * y + 1real,
                0real < y <= 17592186044416real,
                17592186044416real * unit == 1real,
        ;
        crate::binary64::lemma_nearest_order(above.value(), above, q, near);
    } else {
        crate::binary64::lemma_nearest_exact(crate::binary64::nearest(200real));
        assert(q <= 200real) by (nonlinear_arith)
            requires
                q == x / y,
                x <= 200real * y,
                0real < y,
        ;
        crate::binary64::lemma_nearest_order(
            q,
            near,
            200real,
            crate::binary64::nearest(200real),
        );
    }
}

}
