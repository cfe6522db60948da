//! Which canvas an image gets, and how its content is scaled.
use crate::binary64::Binary64;
use crate::glm_vl::geometry::{CanvasRules, GlmResize};
use crate::glm_vl::GlmVlProcessor;
use vstd::prelude::*;

verus! {

/// Whether `side` is the least multiple of `factor` that is not below `n`.
pub open spec fn least_multiple(factor: int, n: int, side: int) -> bool {
    side % factor == 0 && n <= side < n + factor
}

/// The pixels of all frames.
pub open spec fn all_pixels(rules: CanvasRules, h: int, w: int) -> int {
    rules.frames * h * w
}

/// Whether a canvas has more pixels than allowed. The largest number of 128 bits allows
/// any number.
pub open spec fn too_many(rules: CanvasRules, h: int, w: int) -> bool {
    rules.max_pixels < u128::MAX && all_pixels(rules, h, w) > rules.max_pixels
}

/// Whether `width` goes with `height` in an image of the shape `h` by `w`: it is the whole
/// part of the width that keeps the shape, and at least 1.
pub open spec fn goes_with(h: int, w: int, height: int, width: int) -> bool {
    ||| width >= 1 && width * h <= w * height < (width + 1) * h
    ||| width == 1 && w * height < h
}

/// Whether an image of the shape `h` by `w` gets the canvas `ch` by `cw` at a height.
pub open spec fn canvas_at(
    rules: CanvasRules,
    h: int,
    w: int,
    height: int,
    ch: int,
    cw: int,
) -> bool {
    &&& least_multiple(rules.factor as int, height, ch)
    &&& exists|width: int| #[trigger]
        goes_with(h, w, height, width) && least_multiple(rules.factor as int, width, cw)
}

/// Whether `height` is the greatest one, up to that of the image, whose canvas is allowed.
pub open spec fn greatest_height(rules: CanvasRules, h: int, w: int, height: int) -> bool {
    &&& 0 <= height <= h
    &&& height > 0 ==> exists|ch: int, cw: int| #[trigger]
        canvas_at(rules, h, w, height, ch, cw) && !too_many(rules, ch, cw)
    &&& forall|k: int, ch: int, cw: int|
        height < k <= h && #[trigger] canvas_at(rules, h, w, k, ch, cw) ==> too_many(
            rules,
            ch,
            cw,
        )
}

/// Whether the canvas is that of the greatest height that is allowed, or one unit on each
/// side where no height is.
pub open spec fn cut_down(rules: CanvasRules, h: int, w: int, ch: int, cw: int) -> bool {
    exists|height: int|
        {
            &&& #[trigger] greatest_height(rules, h, w, height)
            &&& if height > 0 {
                canvas_at(rules, h, w, height, ch, cw)
            } else {
                ch == rules.factor && cw == rules.factor
            }
        }
}

/// There is only one least multiple.
proof fn lemma_least_multiple(factor: int, n: int, a: int, b: int)
    requires
        0 < factor,
        least_multiple(factor, n, a),
        least_multiple(factor, n, b),
    ensures
        a == b,
{
    vstd::arithmetic::div_mod::lemma_fundamental_div_mod(a, factor);
    vstd::arithmetic::div_mod::lemma_fundamental_div_mod(b, factor);
    let p = a / factor;
    let q = b / factor;
    assert(p == q) by (nonlinear_arith)
        requires
            a == factor * p,
            b == factor * q,
            a < b + factor,
            b < a + factor,
            0 < factor,
    ;
}

/// The contract's aligned side is the least multiple.
proof fn lemma_aligned(rules: CanvasRules, n: int, side: int)
    requires
        0 < rules.factor,
        0 <= n,
    ensures
        least_multiple(rules.factor as int, n, side) <==> side == rules.aligned(n),
{
    crate::glm_vl::geometry::lemma_aligned_order(rules, n, n);
    if least_multiple(rules.factor as int, n, side) {
        lemma_least_multiple(rules.factor as int, n, side, rules.aligned(n));
    }
}

/// The contract's width is the one that goes with a height.
proof fn lemma_goes_with(rules: CanvasRules, h: int, w: int, height: int, width: int)
    requires
        0 < h,
        0 < w,
        1 <= height,
    ensures
        goes_with(h, w, height, width) <==> width == rules.width_at(h, w, height),
{
    let n = w * height;
    let q = n / h;
    vstd::arithmetic::mul::lemma_mul_strictly_positive(w, height);
    vstd::arithmetic::div_mod::lemma_fundamental_div_mod(n, h);
    vstd::arithmetic::div_mod::lemma_mod_bound(n, h);
    vstd::arithmetic::div_mod::lemma_div_pos_is_pos(n, h);
    vstd::arithmetic::mul::lemma_mul_is_commutative(h, q);
    assert(q * h <= n < (q + 1) * h) by (nonlinear_arith)
        requires
            n == h * q + n % h,
            0 <= n % h < h,
    ;
    if width >= 1 && width * h <= n && n < (width + 1) * h {
        assert(width == q) by (nonlinear_arith)
            requires
                q * h <= n < (q + 1) * h,
                width * h <= n < (width + 1) * h,
                0 < h,
        ;
    }
    if q >= 1 {
        assert(n >= h) by (nonlinear_arith)
            requires
                q * h <= n,
                q >= 1,
                0 < h,
        ;
    } else {
        assert(n < h) by (nonlinear_arith)
            requires
                n < (q + 1) * h,
                q <= 0,
                0 < h,
        ;
        assert(width >= 1 ==> width * h >= h) by (nonlinear_arith)
            requires
                0 < h,
        ;
    }
}

/// The contract's bound on pixels.
proof fn lemma_too_many(rules: CanvasRules, h: int, w: int)
    ensures
        rules.budget(h, w) > rules.max_pixels <==> too_many(rules, h, w),
        rules.budget(h, w) < rules.min_pixels <==> all_pixels(rules, h, w) < rules.min_pixels,
{
}

/// The canvas at a height, in the contract's words.
proof fn lemma_canvas_at(rules: CanvasRules, h: int, w: int, height: int, ch: int, cw: int)
    requires
        0 < rules.factor,
        0 < h,
        0 < w,
        1 <= height,
    ensures
        canvas_at(rules, h, w, height, ch, cw) <==> ch == rules.aligned(height) && cw
            == rules.aligned(rules.width_at(h, w, height)),
{
    let width = rules.width_at(h, w, height);
    lemma_aligned(rules, height, ch);
    lemma_goes_with(rules, h, w, height, width);
    lemma_aligned(rules, width, cw);
    if canvas_at(rules, h, w, height, ch, cw) {
        let v = choose|v: int| #[trigger]
            goes_with(h, w, height, v) && least_multiple(rules.factor as int, v, cw);
        lemma_goes_with(rules, h, w, height, v);
    } else if ch == rules.aligned(height) && cw == rules.aligned(width) {
        assert(goes_with(h, w, height, width) && least_multiple(rules.factor as int, width, cw));
    }
}

/// The contract's search finds the greatest height.
proof fn lemma_searched(rules: CanvasRules, h: int, w: int)
    requires
        0 < rules.factor,
        0 < h,
        0 < w,
    ensures
        cut_down(rules, h, w, rules.searched(h, w).0, rules.searched(h, w).1),
{
    let (ch, cw) = rules.searched(h, w);
    let height = if exists|mid: int| rules.is_tallest(h, w, mid) {
        choose|mid: int| rules.is_tallest(h, w, mid)
    } else {
        0
    };
    if height > 0 {
        assert(rules.is_tallest(h, w, height) || !exists|mid: int| rules.is_tallest(h, w, mid));
        lemma_canvas_at(rules, h, w, height, ch, cw);
        lemma_too_many(rules, ch, cw);
    } else if exists|mid: int| rules.is_tallest(h, w, mid) {
        assert(rules.is_tallest(h, w, height));
    }
    assert forall|k: int, a: int, b: int|
        height < k <= h && #[trigger] canvas_at(rules, h, w, k, a, b) implies too_many(
        rules,
        a,
        b,
    ) by {
        lemma_canvas_at(rules, h, w, k, a, b);
        lemma_too_many(rules, a, b);
        if height > 0 {
            assert(!rules.fits(h, w, k));
        } else if rules.fits(h, w, k) {
            lemma_some_tallest(rules, h, w, k, h);
        }
    }
    assert(greatest_height(rules, h, w, height));
}

/// Where some height fits, one is the tallest.
proof fn lemma_some_tallest(rules: CanvasRules, h: int, w: int, k: int, top: int)
    requires
        1 <= k <= top <= h,
        rules.fits(h, w, k),
        forall|i: int| top < i <= h ==> !#[trigger] rules.fits(h, w, i),
    ensures
        exists|mid: int| rules.is_tallest(h, w, mid),
    decreases top,
{
    if rules.fits(h, w, top) {
        assert(rules.is_tallest(h, w, top));
    } else {
        lemma_some_tallest(rules, h, w, k, top - 1);
    }
}

/// By how much the content is ideally scaled: as much as both sides of the canvas allow,
/// and not enlarged where the image has enough pixels.
pub open spec fn ideal_scale(rules: CanvasRules, h: int, w: int, ch: int, cw: int) -> real {
    let scale = super::nearness::smaller(ch as real / h as real, cw as real / w as real);
    if all_pixels(rules, h, w) >= rules.min_pixels {
        super::nearness::smaller(scale, 1real)
    } else {
        scale
    }
}

/// Whether `side` is `n` times a scale, rounded down, but not 0 and not above `limit`.
pub open spec fn scaled_down(n: int, scale: real, limit: int, side: int) -> bool {
    &&& 1 <= side <= limit
    &&& exists|exact: real|
        {
            &&& #[trigger] super::nearness::near(exact, n as real * scale)
            &&& side == 1 || side as real <= exact
            &&& side == limit || exact < side as real + 1real
        }
}

/// Whether `side` is `n` times a scale, rounded up, but not 0.
pub open spec fn scaled_up(n: int, scale: real, side: int) -> bool {
    &&& 1 <= side <= usize::MAX
    &&& exists|exact: real|
        {
            &&& #[trigger] super::nearness::near(exact, n as real * scale)
            &&& side == 1 || side as real - 1real < exact
            &&& side == usize::MAX || exact <= side as real
        }
}

/// A ratio of two sides in binary64.
#[verifier::spinoff_prover]
pub proof fn lemma_ratio(a: int, b: int)
    requires
        0 < a <= u64::MAX,
        0 < b <= u64::MAX,
    ensures
        ({
            let v = crate::binary64::nearest(
                crate::binary64::double(a) / crate::binary64::double(b),
            ).value();
            &&& super::nearness::within(v, a as real / b as real, 3)
            &&& 1real / 147573952589676412928real <= v <= 147573952589676412928real
        }),
        crate::binary64::rounds_to(
            crate::binary64::double(a) / crate::binary64::double(b),
            crate::binary64::nearest(crate::binary64::double(a) / crate::binary64::double(b)),
        ),
{
    let x = crate::binary64::double(a);
    let y = crate::binary64::double(b);
    super::nearness::lemma_double(a);
    super::nearness::lemma_double(b);
    let q = x / y;
    assert(1real / 73786976294838206464real <= q && q <= 73786976294838206464real)
        by (nonlinear_arith)
        requires
            q == x / y,
            1real / 2real <= x <= 36893488147419103232real,
            1real / 2real <= y <= 36893488147419103232real,
    ;
    super::nearness::lemma_p2_small();
    crate::binary64::lemma_p2_64();
    let low = crate::binary64::p2(-66);
    assert(low * 18446744073709551616real * 4real == 1real);
    assert(low == 1real / 73786976294838206464real);
    crate::binary64::lemma_nearest_exists(q, -66, 128);
    let v = crate::binary64::nearest(q);
    crate::binary64::lemma_within_twice(q, v);
    super::nearness::lemma_rounded(q, v);
    super::nearness::lemma_over(x, a as real, y, 1);
    super::nearness::lemma_under(y, b as real, a as real, 1);
    super::nearness::lemma_chain(x / y, a as real / y, a as real / b as real, 1, 1);
    super::nearness::lemma_chain(v.value(), q, a as real / b as real, 1, 2);
}

/// A side times a scale in binary64.
#[verifier::spinoff_prover]
proof fn lemma_scaled(n: int, scale: real)
    requires
        0 < n <= u64::MAX,
        1real / 147573952589676412928real <= scale <= 147573952589676412928real,
    ensures
        ({
            let r = crate::binary64::double(n) * scale;
            &&& crate::binary64::rounds_to(r, crate::binary64::nearest(r))
            &&& super::nearness::within(
                crate::binary64::nearest(r).value(),
                n as real * scale,
                2,
            )
        }),
{
    let x = crate::binary64::double(n);
    super::nearness::lemma_double(n);
    let r = x * scale;
    assert(1real / 295147905179352825856real <= r && r <= 36893488147419103232real
        * 147573952589676412928real) by (nonlinear_arith)
        requires
            r == x * scale,
            1real / 2real <= x <= 36893488147419103232real,
            1real / 147573952589676412928real <= scale <= 147573952589676412928real,
    ;
    super::nearness::lemma_p2_small();
    crate::binary64::lemma_p2_64();
    let low = crate::binary64::p2(-130);
    assert(low <= 1real / 295147905179352825856real) by (nonlinear_arith)
        requires
            low * 340282366920938463463374607431768211456real * 4real == 1real,
            0real < low,
    ;
    assert(crate::binary64::p2(260) > r) by {
        let big = 340282366920938463463374607431768211456real;
        assert(crate::binary64::p2(260) == 16real * (big * big));
    }
    crate::binary64::lemma_nearest_exists(r, -130, 260);
    let v = crate::binary64::nearest(r);
    super::nearness::lemma_rounded(r, v);
    super::nearness::lemma_times(x, n as real, scale, 1);
    super::nearness::lemma_chain(v.value(), r, n as real * scale, 1, 1);
}

/// A side of the content.
proof fn lemma_content(n: int, scale: real, ideal: real, limit: int)
    requires
        0 < n <= usize::MAX,
        1 <= limit <= usize::MAX,
        1real / 147573952589676412928real <= scale <= 147573952589676412928real,
        super::nearness::within(scale, ideal, 3),
        0real < ideal,
    ensures
        scaled_down(n, ideal, limit, crate::glm_vl::geometry::content_side(n, scale, limit)),
{
    lemma_scaled(n, scale);
    let x = crate::binary64::nearest(crate::binary64::double(n) * scale);
    let v = x.value();
    super::nearness::lemma_times(scale, ideal, n as real, 3);
    assert(scale * n as real == n as real * scale && ideal * n as real == n as real * ideal)
        by (nonlinear_arith);
    super::nearness::lemma_chain(v, n as real * scale, n as real * ideal, 2, 3);
    super::nearness::lemma_near(v, n as real * ideal, 5);
    crate::binary64::lemma_floor_of_number(x);
    let f = crate::binary64::floor(v);
    let side = crate::glm_vl::geometry::content_side(n, scale, limit);
    assert(f as real <= v < f as real + 1real);
    if side != 1 {
        assert(side <= f);
        assert(side as real <= v);
    }
    if side != limit {
        assert(f <= side);
        assert(v < side as real + 1real);
    }
}

/// A side of the content in double precision.
proof fn lemma_exact_side(n: int, scale: Binary64, limit: int)
    requires
        0 < n <= usize::MAX,
        1 <= limit <= usize::MAX,
        1real / 147573952589676412928real <= super::doubles::number(scale)
            <= 147573952589676412928real,
    ensures
        content_side(
            n,
            scale,
            limit,
            crate::glm_vl::geometry::content_side(n, super::doubles::number(scale), limit),
        ),
{
    let s = super::doubles::number(scale);
    lemma_scaled(n, s);
    let x = crate::binary64::nearest(crate::binary64::double(n) * s);
    let v = x.value();
    super::doubles::lemma_integer(n);
    super::doubles::lemma_number(x);
    super::doubles::lemma_nearest_double(crate::binary64::double(n) * s, x);
    assert(super::doubles::is_product(crate::binary64::nearest(n as real), scale, x));
    crate::binary64::lemma_floor_of_number(x);
    let f = crate::binary64::floor(v);
    let side = crate::glm_vl::geometry::content_side(n, s, limit);
    assert(f as real <= v < f as real + 1real);
    if side != 1 {
        assert(side <= f);
    }
    if side != limit {
        assert(f <= side);
    }
}

/// The scale of the content in double precision.
proof fn lemma_exact_contents(rules: CanvasRules, h: int, w: int)
    requires
        rules.wf(),
        0 < h <= usize::MAX,
        0 < w <= usize::MAX,
        !rules.overflows(h, w),
    ensures
        scales_content(rules, h, w, rules.sizes(h, w)),
{
    let (ch, cw) = rules.canvas(h, w);
    crate::glm_vl::geometry::law_content_in_canvas(rules, h, w);
    crate::glm_vl::geometry::law_canvas(rules, h, w);
    lemma_ratio(ch, h);
    lemma_ratio(cw, w);
    lemma_too_many(rules, h, w);
    let down = crate::binary64::nearest(crate::binary64::double(ch) / crate::binary64::double(h));
    let across = crate::binary64::nearest(crate::binary64::double(cw) / crate::binary64::double(w));
    let one = crate::binary64::nearest(1real);
    crate::binary64::lemma_int_exact(1);
    super::doubles::lemma_number(one);
    super::doubles::lemma_number(down);
    super::doubles::lemma_number(across);
    super::doubles::lemma_integer(h);
    super::doubles::lemma_integer(w);
    super::doubles::lemma_integer(ch);
    super::doubles::lemma_integer(cw);
    super::doubles::lemma_nearest_double(
        crate::binary64::double(ch) / crate::binary64::double(h),
        down,
    );
    super::doubles::lemma_nearest_double(
        crate::binary64::double(cw) / crate::binary64::double(w),
        across,
    );
    let height = crate::binary64::nearest(h as real);
    let width = crate::binary64::nearest(w as real);
    let rows = crate::binary64::nearest(ch as real);
    let columns = crate::binary64::nearest(cw as real);
    let both = if across.value() < down.value() {
        across
    } else {
        down
    };
    let scale = if rules.budget(h, w) >= rules.min_pixels && 1real < both.value() {
        one
    } else {
        both
    };
    assert(super::doubles::number(scale) == rules.content_scale(h, w));
    assert(super::doubles::is_integer(h, height));
    assert(super::doubles::is_integer(w, width));
    assert(super::doubles::is_integer(ch, rows));
    assert(super::doubles::is_integer(cw, columns));
    assert(super::doubles::is_quotient(rows, height, down));
    assert(super::doubles::is_quotient(columns, width, across));
    assert(content_ratio(rules, h, w, ch, cw, scale));
    lemma_exact_side(h, scale, ch);
    lemma_exact_side(w, scale, cw);
}

/// The contents of the contract are scaled as is ideal.
proof fn lemma_contents(rules: CanvasRules, h: int, w: int)
    requires
        rules.wf(),
        0 < h <= usize::MAX,
        0 < w <= usize::MAX,
        !rules.overflows(h, w),
    ensures
        ({
            let sizes = rules.sizes(h, w);
            let (ch, cw) = (sizes.canvas_h as int, sizes.canvas_w as int);
            let scale = ideal_scale(rules, h, w, ch, cw);
            &&& scaled_down(h, scale, ch, sizes.content_h as int)
            &&& scaled_down(w, scale, cw, sizes.content_w as int)
        }),
{
    let (ch, cw) = rules.canvas(h, w);
    crate::glm_vl::geometry::law_content_in_canvas(rules, h, w);
    crate::glm_vl::geometry::law_canvas(rules, h, w);
    lemma_ratio(ch, h);
    lemma_ratio(cw, w);
    let down = crate::binary64::nearest(
        crate::binary64::double(ch) / crate::binary64::double(h),
    ).value();
    let across = crate::binary64::nearest(
        crate::binary64::double(cw) / crate::binary64::double(w),
    ).value();
    super::nearness::lemma_smaller(down, ch as real / h as real, across, cw as real / w as real, 3);
    let both = super::nearness::smaller(down, across);
    let exact = super::nearness::smaller(ch as real / h as real, cw as real / w as real);
    super::nearness::lemma_same(1real);
    super::nearness::lemma_more(1real, 1real, 0, 3);
    super::nearness::lemma_smaller(both, exact, 1real, 1real, 3);
    lemma_too_many(rules, h, w);
    let scale = rules.content_scale(h, w);
    let ideal = ideal_scale(rules, h, w, ch, cw);
    assert(super::nearness::within(scale, ideal, 3));
    lemma_positive_ratio(ch, h);
    lemma_positive_ratio(cw, w);
    lemma_content(h, scale, ideal, ch);
    lemma_content(w, scale, ideal, cw);
}

/// A ratio of sides is positive.
proof fn lemma_positive_ratio(a: int, b: int)
    requires
        0 < a,
        0 < b,
    ensures
        0real < a as real / b as real,
{
    let x = a as real;
    let y = b as real;
    assert(0real < x / y) by (nonlinear_arith)
        requires
            0real < x,
            0real < y,
    ;
}

/// Whether a scale brings the pixels of an image to the least number.
pub open spec fn raising_scale(rules: CanvasRules, h: int, w: int, scale: real) -> bool {
    &&& 0real < scale
    &&& super::nearness::near(
        scale * scale * all_pixels(rules, h, w) as real,
        rules.min_pixels as real,
    )
}

/// The contract's scale raises an image that is too small.
#[verifier::spinoff_prover]
proof fn lemma_raise(rules: CanvasRules, h: int, w: int)
    requires
        rules.wf(),
        0 < h <= usize::MAX,
        0 < w <= usize::MAX,
        all_pixels(rules, h, w) < rules.min_pixels,
    ensures
        raising_scale(rules, h, w, rules.raise(h, w)),
        1real / 147573952589676412928real <= rules.raise(h, w) <= 147573952589676412928real,
        exists|root: Binary64| #[trigger]
            raising_root(rules, h, w, root) && super::doubles::number(root) == rules.raise(h, w),
{
    let f = rules.frames as int;
    let p = rules.min_pixels as int;
    let x = crate::binary64::double(f);
    let y = crate::binary64::double(h);
    let z = crate::binary64::double(w);
    super::nearness::lemma_double(f);
    super::nearness::lemma_double(h);
    super::nearness::lemma_double(w);
    let big = 340282366920938463463374607431768211456real;
    let huge = big * big;
    super::nearness::lemma_p2_small();
    crate::binary64::lemma_p2_64();
    let low = crate::binary64::p2(-260);
    assert(huge == 115792089237316195423570985008687907853269984665640564039457584007913129639936real)
        by (nonlinear_arith)
        requires
            huge == big * big,
            big == 340282366920938463463374607431768211456real,
    ;
    assert(low * huge * 16real == 1real);
    assert(crate::binary64::p2(260) == 16real * huge);
    let tiny = 1real / 147573952589676412928real;
    assert(low <= 1real / 16real) by (nonlinear_arith)
        requires
            low * huge * 16real == 1real,
            huge >= 1real,
            0real < low,
    ;
    let top = 36893488147419103232real;
    let r1 = x * y;
    assert(1real / 4real <= r1 && r1 <= 4real * big) by (nonlinear_arith)
        requires
            r1 == x * y,
            1real / 2real <= x <= top,
            1real / 2real <= y <= top,
            top == 36893488147419103232real,
            big == 340282366920938463463374607431768211456real,
    ;
    super::nearness::lemma_product(x, y, f as real, h as real, 1, 1);
    let rows = crate::binary64::nearest(r1);
    crate::binary64::lemma_within_twice(r1, rows);
    let a = rows.value();
    let r2 = a * z;
    assert(1real / 16real <= r2 && r2 <= 8real * big * top) by (nonlinear_arith)
        requires
            r2 == a * z,
            1real / 8real <= a <= 8real * big,
            1real / 2real <= z <= top,
            0real < big,
    ;
    let fh = f as real * h as real;
    crate::binary64::lemma_product_as_real(f, h);
    crate::binary64::lemma_product_as_real(f * h, w);
    assert(0real < fh) by (nonlinear_arith)
        requires
            fh == f as real * h as real,
            1real <= f as real,
            1real <= h as real,
    ;
    super::nearness::lemma_product(a, z, fh, w as real, 3, 1);
    let pixels = crate::binary64::nearest(r2);
    crate::binary64::lemma_within_twice(r2, pixels);
    let b = pixels.value();
    let area = fh * w as real;
    assert(area == all_pixels(rules, h, w) as real);
    assert(0real < area) by (nonlinear_arith)
        requires
            area == fh * w as real,
            0real < fh,
            1real <= w as real,
    ;
    crate::binary64::lemma_nearest_of_int(p);
    let least = crate::binary64::nearest(p as real);
    crate::binary64::lemma_within_twice(p as real, least);
    super::nearness::lemma_rounded(p as real, least);
    let c = least.value();
    let q = c / b;
    assert(q * b == c) by (nonlinear_arith)
        requires
            q == c / b,
            0real < b,
    ;
    let m = 32real * big * top;
    assert(1real <= q * m) by (nonlinear_arith)
        requires
            q * b == c,
            1real / 2real <= c,
            0real < b <= 16real * big * top,
            m == 32real * big * top,
            0real < c,
    ;
    assert(m <= huge) by (nonlinear_arith)
        requires
            m == 32real * big * top,
            huge == big * big,
            top == 36893488147419103232real,
            big == 340282366920938463463374607431768211456real,
    ;
    assert(low <= q) by (nonlinear_arith)
        requires
            1real <= q * m,
            0real < m <= huge,
            low * huge * 16real == 1real,
            0real < low,
    ;
    assert(q <= 64real * big) by (nonlinear_arith)
        requires
            q * b == c,
            1real / 32real <= b,
            c <= 2real * big,
            0real < c,
    ;
    assert(64real * big < 16real * huge);
    crate::binary64::lemma_nearest_exists(q, -260, 260);
    let lack = crate::binary64::nearest(q);
    super::nearness::lemma_rounded(q, lack);
    crate::binary64::lemma_within_twice(q, lack);
    super::nearness::lemma_over(c, p as real, b, 1);
    super::nearness::lemma_under(b, area, p as real, 5);
    super::nearness::lemma_chain(q, p as real / b, p as real / area, 1, 5);
    super::nearness::lemma_chain(lack.value(), q, p as real / area, 1, 6);
    crate::binary64::lemma_root_exists(lack);
    let root = crate::binary64::nearest_root(lack.value());
    let s = root.value();
    assert(s == rules.raise(h, w));
    super::nearness::lemma_rounded_root(lack.value(), root);
    crate::binary64::lemma_root_within(lack.value(), root);
    super::nearness::lemma_chain(s * s, lack.value(), p as real / area, 2, 7);
    super::nearness::lemma_times(s * s, p as real / area, area, 9);
    let share = p as real / area;
    assert(share * area == p as real) by (nonlinear_arith)
        requires
            share == p as real / area,
            0real < area,
    ;
    super::nearness::lemma_near(s * s * area, p as real, 9);
    super::nearness::lemma_near(lack.value(), share, 7);
    assert(share >= 1real) by (nonlinear_arith)
        requires
            share * area == p as real,
            area <= p as real,
            0real < area,
    ;
    lemma_raising_root(rules, h, w, rows, pixels, lack, root);
    let l = lack.value();
    assert(area >= 1real);
    assert(share <= p as real) by (nonlinear_arith)
        requires
            share * area == p as real,
            area >= 1real,
            share >= 1real,
    ;
    assert(1real / 2real <= l <= 2real * big);
    assert(tiny <= s) by (nonlinear_arith)
        requires
            l < 4real * (s * s),
            1real / 2real <= l,
            0real < s,
            tiny == 1real / 147573952589676412928real,
    ;
    assert(s <= 147573952589676412928real) by (nonlinear_arith)
        requires
            s * s < 4real * l,
            l <= 2real * big,
            0real < s,
            big == 340282366920938463463374607431768211456real,
    ;
}

/// The steps to the contract's scale.
proof fn lemma_raising_root(
    rules: CanvasRules,
    h: int,
    w: int,
    rows: Binary64,
    pixels: Binary64,
    lack: Binary64,
    root: Binary64,
)
    requires
        rules.wf(),
        0 < h <= usize::MAX,
        0 < w <= usize::MAX,
        crate::binary64::rounds_to(
            crate::binary64::double(rules.frames as int) * crate::binary64::double(h),
            rows,
        ),
        crate::binary64::rounds_to(rows.value() * crate::binary64::double(w), pixels),
        crate::binary64::rounds_to(
            crate::binary64::double(rules.min_pixels as int) / pixels.value(),
            lack,
        ),
        crate::binary64::root_rounds_to(lack.value(), root),
    ensures
        raising_root(rules, h, w, root),
        super::doubles::number(root) == root.value(),
{
    let f = rules.frames as int;
    let p = rules.min_pixels as int;
    super::doubles::lemma_integer(f);
    super::doubles::lemma_integer(h);
    super::doubles::lemma_integer(w);
    super::doubles::lemma_integer(p);
    super::doubles::lemma_number(rows);
    super::doubles::lemma_number(pixels);
    super::doubles::lemma_number(lack);
    super::doubles::lemma_number(root);
    super::doubles::lemma_nearest_double(
        crate::binary64::double(f) * crate::binary64::double(h),
        rows,
    );
    super::doubles::lemma_nearest_double(rows.value() * crate::binary64::double(w), pixels);
    super::doubles::lemma_nearest_double(crate::binary64::double(p) / pixels.value(), lack);
    super::doubles::lemma_nearest_root(lack.value(), root);
    let frames = crate::binary64::nearest(f as real);
    let height = crate::binary64::nearest(h as real);
    let width = crate::binary64::nearest(w as real);
    let least = crate::binary64::nearest(p as real);
    assert(super::doubles::is_integer(f, frames));
    assert(super::doubles::is_integer(h, height));
    assert(super::doubles::is_integer(w, width));
    assert(super::doubles::is_product(frames, height, rows));
    assert(super::doubles::is_product(rows, width, pixels));
    assert(super::doubles::is_integer(p, least));
    assert(super::doubles::is_quotient(least, pixels, lack));
    assert(super::doubles::is_root(lack, root));
}

/// A raised side.
proof fn lemma_raised(n: int, root: Binary64)
    requires
        0 < n <= usize::MAX,
        1real / 147573952589676412928real <= super::doubles::number(root)
            <= 147573952589676412928real,
    ensures
        raised_side(
            n,
            root,
            crate::glm_vl::geometry::raised_side(n, super::doubles::number(root)),
        ),
{
    let scale = super::doubles::number(root);
    lemma_scaled(n, scale);
    let x = crate::binary64::nearest(crate::binary64::double(n) * scale);
    let v = x.value();
    super::doubles::lemma_integer(n);
    super::doubles::lemma_number(x);
    super::doubles::lemma_nearest_double(crate::binary64::double(n) * scale, x);
    assert(super::doubles::is_product(crate::binary64::nearest(n as real), root, x));
    super::nearness::lemma_near(v, n as real * scale, 2);
    crate::binary64::lemma_floor_of_number(x);
    let c = crate::binary64::ceil(v);
    let side = crate::glm_vl::geometry::raised_side(n, scale);
    assert(c as real - 1real < v <= c as real);
    if side != 1 {
        assert(side <= c);
        assert(side as real - 1real < v);
    }
    if side != usize::MAX {
        assert(c <= side);
        assert(v <= side as real);
    }
}

/// Whether a scale is the root of the least number of pixels over the image's, in double
/// precision.
pub open spec fn raising_root(rules: CanvasRules, h: int, w: int, root: Binary64) -> bool {
    exists|
        frames: Binary64,
        height: Binary64,
        width: Binary64,
        rows: Binary64,
        pixels: Binary64,
        least: Binary64,
        lack: Binary64,
    |
        {
            &&& #[trigger] super::doubles::is_integer(rules.frames as int, frames)
            &&& #[trigger] super::doubles::is_integer(h, height)
            &&& #[trigger] super::doubles::is_integer(w, width)
            &&& #[trigger] super::doubles::is_product(frames, height, rows)
            &&& #[trigger] super::doubles::is_product(rows, width, pixels)
            &&& #[trigger] super::doubles::is_integer(rules.min_pixels as int, least)
            &&& #[trigger] super::doubles::is_quotient(least, pixels, lack)
            &&& super::doubles::is_root(lack, root)
        }
}

/// Whether `side` is `n` times a scale in double precision, rounded up, but not 0.
pub open spec fn raised_side(n: int, root: Binary64, side: int) -> bool {
    &&& scaled_up(n, super::doubles::number(root), side)
    &&& exists|length: Binary64, exact: Binary64|
        {
            &&& #[trigger] super::doubles::is_integer(n, length)
            &&& #[trigger] super::doubles::is_product(length, root, exact)
            &&& side == 1 || side as real - 1real < super::doubles::number(exact)
            &&& side == usize::MAX || super::doubles::number(exact) <= side as real
        }
}

/// Whether a canvas is that of an image raised to the least number of pixels.
pub open spec fn raised_canvas(rules: CanvasRules, h: int, w: int, ch: int, cw: int) -> bool {
    exists|root: Binary64, rh: int, rw: int|
        {
            &&& raising_root(rules, h, w, root)
            &&& raising_scale(rules, h, w, super::doubles::number(root))
            &&& #[trigger] raised_side(h, root, rh)
            &&& #[trigger] raised_side(w, root, rw)
            &&& least_multiple(rules.factor as int, rh, ch)
            &&& least_multiple(rules.factor as int, rw, cw)
        }
}

/// Whether a scale is the smaller of the two ratios of canvas and image in double precision,
/// or 1 where that is smaller still and the image has enough pixels.
pub open spec fn content_ratio(
    rules: CanvasRules,
    h: int,
    w: int,
    ch: int,
    cw: int,
    scale: Binary64,
) -> bool {
    let enlarges = all_pixels(rules, h, w) < rules.min_pixels;
    exists|
        height: Binary64,
        width: Binary64,
        rows: Binary64,
        columns: Binary64,
        down: Binary64,
        across: Binary64,
    |
        {
            &&& #[trigger] super::doubles::is_integer(h, height)
            &&& #[trigger] super::doubles::is_integer(w, width)
            &&& #[trigger] super::doubles::is_integer(ch, rows)
            &&& #[trigger] super::doubles::is_integer(cw, columns)
            &&& #[trigger] super::doubles::is_quotient(rows, height, down)
            &&& #[trigger] super::doubles::is_quotient(columns, width, across)
            &&& super::doubles::number(scale) <= super::doubles::number(down)
            &&& super::doubles::number(scale) <= super::doubles::number(across)
            &&& enlarges || super::doubles::number(scale) <= 1real
            &&& scale == down || scale == across || (!enlarges && super::doubles::number(scale)
                == 1real)
        }
}

/// Whether `side` is `n` times a scale in double precision, rounded down, but not 0 and not
/// above `limit`.
pub open spec fn content_side(n: int, scale: Binary64, limit: int, side: int) -> bool {
    &&& 1 <= side <= limit
    &&& exists|length: Binary64, exact: Binary64|
        {
            &&& #[trigger] super::doubles::is_integer(n, length)
            &&& #[trigger] super::doubles::is_product(length, scale, exact)
            &&& side == 1 || side as real <= super::doubles::number(exact)
            &&& side == limit || super::doubles::number(exact) < side as real + 1real
        }
}

/// Whether the content is scaled in double precision.
pub open spec fn scales_content(rules: CanvasRules, h: int, w: int, sizes: GlmResize) -> bool {
    exists|scale: Binary64|
        {
            &&& #[trigger] content_ratio(
                rules,
                h,
                w,
                sizes.canvas_h as int,
                sizes.canvas_w as int,
                scale,
            )
            &&& content_side(h, scale, sizes.canvas_h as int, sizes.content_h as int)
            &&& content_side(w, scale, sizes.canvas_w as int, sizes.content_w as int)
        }
}

/// Whether a canvas `a` by `b` that just covers an image, and a canvas `ch` by `cw`, are
/// the same where the former has enough pixels, and the latter is raised where not.
pub open spec fn enough(
    rules: CanvasRules,
    h: int,
    w: int,
    a: int,
    b: int,
    ch: int,
    cw: int,
) -> bool {
    &&& least_multiple(rules.factor as int, h, a)
    &&& least_multiple(rules.factor as int, w, b)
    &&& if all_pixels(rules, a, b) >= rules.min_pixels {
        ch == a && cw == b
    } else {
        raised_canvas(rules, h, w, ch, cw)
    }
}

/// Whether `sizes` has the canvas `ch` by `cw`, cut down where that has too many pixels,
/// and the content scaled as is ideal.
pub open spec fn given_sizes(
    rules: CanvasRules,
    h: int,
    w: int,
    ch: int,
    cw: int,
    sizes: GlmResize,
) -> bool {
    let scale = ideal_scale(rules, h, w, sizes.canvas_h as int, sizes.canvas_w as int);
    &&& if too_many(rules, ch, cw) {
        cut_down(rules, h, w, sizes.canvas_h as int, sizes.canvas_w as int)
    } else {
        sizes.canvas_h == ch && sizes.canvas_w == cw
    }
    &&& !too_many(rules, sizes.canvas_h as int, sizes.canvas_w as int)
    &&& sizes.canvas_h >= rules.factor
    &&& sizes.canvas_w >= rules.factor
    &&& sizes.canvas_h % rules.factor == 0
    &&& sizes.canvas_w % rules.factor == 0
    &&& scaled_down(h, scale, sizes.canvas_h as int, sizes.content_h as int)
    &&& scaled_down(w, scale, sizes.canvas_w as int, sizes.content_w as int)
    &&& scales_content(rules, h, w, sizes)
}

/// Whether `result` holds the sizes of an image exactly where it is not empty and all of
/// its canvases can be addressed, and otherwise a message.
pub open spec fn gives_sizes(
    rules: CanvasRules,
    h: int,
    w: int,
    result: Result<GlmResize, String>,
) -> bool {
    if h == 0 || w == 0 {
        result is Err && result->Err_0@ == "glm_vl: empty image"@
    } else {
        exists|a: int, b: int, ch: int, cw: int|
            {
                &&& #[trigger] enough(rules, h, w, a, b, ch, cw)
                &&& if a <= usize::MAX && b <= usize::MAX && ch <= usize::MAX && cw <= usize::MAX {
                    result is Ok && given_sizes(rules, h, w, ch, cw, result->Ok_0)
                } else {
                    result is Err && result->Err_0@ == "glm_vl: aligned dimension overflow"@
                }
            }
    }
}

/// The contract's raised canvas.
#[verifier::spinoff_prover]
proof fn lemma_raised_canvas(rules: CanvasRules, h: int, w: int)
    requires
        rules.wf(),
        0 < h <= usize::MAX,
        0 < w <= usize::MAX,
        rules.too_small(h, w),
    ensures
        raised_canvas(rules, h, w, rules.raised(h, w).0, rules.raised(h, w).1),
{
    let a = rules.aligned(h);
    let b = rules.aligned(w);
    let (ch, cw) = rules.raised(h, w);
    let scale = rules.raise(h, w);
    lemma_too_many(rules, a, b);
    crate::glm_vl::geometry::lemma_aligned_order(rules, h, h);
    crate::glm_vl::geometry::lemma_aligned_order(rules, w, w);
    let f = rules.frames as int;
    assert(f * h * w <= f * a * b) by (nonlinear_arith)
        requires
            0 <= f,
            0 <= h <= a,
            0 <= w <= b,
    ;
    lemma_raise(rules, h, w);
    let root = choose|root: Binary64| #[trigger]
        raising_root(rules, h, w, root) && super::doubles::number(root) == scale;
    lemma_raised(h, root);
    lemma_raised(w, root);
    let rh = crate::glm_vl::geometry::raised_side(h, scale);
    let rw = crate::glm_vl::geometry::raised_side(w, scale);
    lemma_aligned(rules, rh, ch);
    lemma_aligned(rules, rw, cw);
    assert(raised_side(h, root, rh) && raised_side(w, root, rw));
}

/// The contract's sizes.
#[verifier::spinoff_prover]
proof fn lemma_given_sizes(rules: CanvasRules, h: int, w: int)
    requires
        rules.wf(),
        0 < h <= usize::MAX,
        0 < w <= usize::MAX,
        !rules.overflows(h, w),
    ensures
        given_sizes(
            rules,
            h,
            w,
            rules.raised(h, w).0,
            rules.raised(h, w).1,
            rules.sizes(h, w),
        ),
{
    let (ch, cw) = rules.raised(h, w);
    lemma_too_many(rules, ch, cw);
    crate::glm_vl::geometry::law_canvas(rules, h, w);
    crate::glm_vl::geometry::law_content_in_canvas(rules, h, w);
    lemma_contents(rules, h, w);
    lemma_exact_contents(rules, h, w);
    lemma_searched(rules, h, w);
    let sizes = rules.sizes(h, w);
    lemma_too_many(rules, sizes.canvas_h as int, sizes.canvas_w as int);
}

/// What the contract of the geometry says of an image.
#[verifier::spinoff_prover]
pub proof fn lemma_gives_sizes(
    rules: CanvasRules,
    height: usize,
    width: usize,
    result: Result<GlmResize, String>,
)
    requires
        rules.wf(),
        rules.is_geometry(height, width, result),
    ensures
        gives_sizes(rules, height as int, width as int, result),
{
    let h = height as int;
    let w = width as int;
    if 0 < h && 0 < w {
        let a = rules.aligned(h);
        let b = rules.aligned(w);
        let (ch, cw) = rules.raised(h, w);
        lemma_aligned(rules, h, a);
        lemma_aligned(rules, w, b);
        lemma_too_many(rules, a, b);
        if rules.too_small(h, w) {
            lemma_raised_canvas(rules, h, w);
        }
        assert(enough(rules, h, w, a, b, ch, cw));
        if !rules.overflows(h, w) {
            lemma_given_sizes(rules, h, w);
        }
    }
}

/// What the sizes of an image are.
pub proof fn law_resize_geometry(
    rules: &CanvasRules,
    height: usize,
    width: usize,
    result: Result<GlmResize, String>,
)
    requires
        rules.wf(),
        call_ensures(CanvasRules::resize_geometry, (rules, height, width), result),
    ensures
        gives_sizes(*rules, height as int, width as int, result),
{
    lemma_gives_sizes(*rules, height, width, result);
}

/// A processor gives an image sizes by its own rules.
pub proof fn law_processor_resize_geometry(
    processor: &GlmVlProcessor,
    height: usize,
    width: usize,
    result: Result<GlmResize, String>,
)
    requires
        processor.wf(),
        call_ensures(GlmVlProcessor::resize_geometry, (processor, height, width), result),
    ensures
        gives_sizes(processor.canvas(), height as int, width as int, result),
{
    lemma_gives_sizes(processor.canvas(), height, width, result);
}

/// Aligning gives the least multiple that is not below a side, where there is one.
pub proof fn law_align(rules: &CanvasRules, value: usize, result: Result<usize, String>)
    requires
        rules.wf(),
        call_ensures(CanvasRules::align, (rules, value), result),
    ensures
        exists|n: int|
            {
                &&& #[trigger] least_multiple(rules.factor as int, value as int, n)
                &&& match result {
                    Ok(side) => side == n,
                    Err(e) => n > usize::MAX && e@ == "glm_vl: aligned dimension overflow"@,
                }
            },
{
    let n = rules.aligned(value as int);
    lemma_aligned(*rules, value as int, n);
}

/// The pixels of all frames are counted as far as 128 bits reach.
pub proof fn law_frame_pixels(rules: &CanvasRules, h: usize, w: usize, n: u128)
    requires
        call_ensures(CanvasRules::frame_pixels, (rules, h, w), n),
    ensures
        n <= rules.frames * h * w,
        n < u128::MAX ==> n == rules.frames * h * w,
        rules.frames * h * w <= u128::MAX ==> n == rules.frames * h * w,
{
}

}
