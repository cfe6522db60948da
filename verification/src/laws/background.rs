//! What a transparent image looks like over its background, and which background its
//! edges choose.
use crate::glm_vl::alpha::composite_alpha;
use vstd::prelude::*;

verus! {

/// The byte of channel `c` of the pixel at column `x` and row `y`.
pub open spec fn byte_at(rgba: Seq<u8>, w: int, x: int, y: int, c: int) -> int {
    rgba[(y * w + x) * 4 + c] as int
}

/// The distance of the samples on a side: a twentieth of it, and at least one pixel.
pub open spec fn distance(n: int) -> int {
    if n < 20 {
        1
    } else {
        n / 20
    }
}

/// Whether the pixel at column `x` and row `y` is a sample of one of the four edges.
pub open spec fn sampled(w: int, h: int, x: int, y: int) -> bool {
    ||| (y == 0 || y == h - 1) && x % distance(w) == 0
    ||| (x == 0 || x == w - 1) && y % distance(h) == 0
}

/// Whether the pixel at column `x` and row `y` is more opaque than not.
pub open spec fn visible(rgba: Seq<u8>, w: int, x: int, y: int) -> bool {
    byte_at(rgba, w, x, y, 3) > 128
}

/// How much lighter than middle grey the pixel at column `x` and row `y` is, summed over
/// its colours, where it is visible.
pub open spec fn excess(rgba: Seq<u8>, w: int, x: int, y: int) -> int {
    if visible(rgba, w, x, y) {
        byte_at(rgba, w, x, y, 0) + byte_at(rgba, w, x, y, 1) + byte_at(rgba, w, x, y, 2) - 384
    } else {
        0
    }
}

/// The sum of `f` over the multiples of `step` below `n`.
pub open spec fn sum_of_multiples(f: spec_fn(int) -> int, step: int, n: int) -> int
    decreases n,
{
    if n <= 0 {
        0
    } else {
        sum_of_multiples(f, step, n - 1) + (if (n - 1) % step == 0 {
            f(n - 1)
        } else {
            0
        })
    }
}

/// The excess of the samples of each of the four edges, summed. A corner counts for both
/// of its edges.
pub open spec fn edge_excess(rgba: Seq<u8>, w: int, h: int) -> int {
    sum_of_multiples(|x: int| excess(rgba, w, x, 0), distance(w), w) + sum_of_multiples(
        |x: int| excess(rgba, w, x, h - 1),
        distance(w),
        w,
    ) + sum_of_multiples(|y: int| excess(rgba, w, 0, y), distance(h), h) + sum_of_multiples(
        |y: int| excess(rgba, w, w - 1, y),
        distance(h),
        h,
    )
}

/// Whether `rgb` is the image over the grey `bg`: every byte is the nearest whole number
/// to the mean of its colour and the grey, weighted by the opacity.
pub open spec fn lies_over(rgba: Seq<u8>, bg: int, rgb: Seq<u8>) -> bool {
    &&& rgb.len() == 3 * (rgba.len() / 4)
    &&& forall|p: int, c: int|
        0 <= p < rgba.len() / 4 && 0 <= c < 3 ==> {
            let alpha = rgba[4 * p + 3] as int;
            let mean = rgba[4 * p + c] * alpha + bg * (255 - alpha);
            -127 <= 255 * #[trigger] rgb[3 * p + c] - mean <= 127
        }
}

/// How many samples a side has below `n`.
spec fn marks(step: int, n: int) -> int {
    if n <= 0 {
        0
    } else {
        (n - 1) / step + 1
    }
}

/// Walking along an edge in steps sums the multiples of the step.
proof fn lemma_along(
    measure: spec_fn(int) -> int,
    first: int,
    scale: int,
    f: spec_fn(int) -> int,
    step: int,
    n: int,
)
    requires
        0 < step,
        forall|i: int| #[trigger] f(i) == measure(first + i * scale),
    ensures
        crate::glm_vl::alpha::along(measure, first, step * scale, marks(step, n))
            == sum_of_multiples(f, step, n),
    decreases n,
{
    if n > 0 {
        lemma_along(measure, first, scale, f, step, n - 1);
        let i = n - 1;
        let q = i / step;
        vstd::arithmetic::div_mod::lemma_fundamental_div_mod(i, step);
        vstd::arithmetic::div_mod::lemma_mod_bound(i, step);
        vstd::arithmetic::div_mod::lemma_div_pos_is_pos(i, step);
        if i % step == 0 {
            assert(q * (step * scale) == i * scale) by (nonlinear_arith)
                requires
                    i == step * q,
            ;
            assert(f(i) == measure(first + q * (step * scale)));
            assert(marks(step, n) == q + 1);
            if i == 0 {
                assert(q == 0) by (nonlinear_arith)
                    requires
                        0 == step * q,
                        0 < step,
                ;
            } else {
                assert(i - 1 == (q - 1) * step + (step - 1)) by (nonlinear_arith)
                    requires
                        i == step * q,
                ;
                vstd::arithmetic::div_mod::lemma_fundamental_div_mod_converse(
                    i - 1,
                    step,
                    q - 1,
                    step - 1,
                );
            }
            assert(marks(step, n - 1) == q);
        } else {
            assert(i != 0) by {
                if i == 0 {
                    vstd::arithmetic::div_mod::lemma_small_mod(0, step as nat);
                }
            }
            assert(i - 1 == q * step + (i % step - 1)) by (nonlinear_arith)
                requires
                    i == step * q + i % step,
            ;
            vstd::arithmetic::div_mod::lemma_fundamental_div_mod_converse(
                i - 1,
                step,
                q,
                i % step - 1,
            );
            assert(marks(step, n) == marks(step, n - 1));
        }
    }
}

/// The contract's sums over the edges, edge by edge.
proof fn lemma_around(
    measure: spec_fn(int) -> int,
    f: spec_fn(int, int) -> int,
    w: int,
    h: int,
)
    requires
        0 <= w,
        0 <= h,
        forall|x: int, y: int| #[trigger] f(x, y) == measure(y * w + x),
    ensures
        crate::glm_vl::alpha::around(measure, w, h) == sum_of_multiples(
            |x: int| f(x, 0),
            distance(w),
            w,
        ) + sum_of_multiples(|x: int| f(x, h - 1), distance(w), w) + sum_of_multiples(
            |y: int| f(0, y),
            distance(h),
            h,
        ) + sum_of_multiples(|y: int| f(w - 1, y), distance(h), h),
{
    let top = |x: int| f(x, 0);
    let bottom = |x: int| f(x, h - 1);
    let left = |y: int| f(0, y);
    let right = |y: int| f(w - 1, y);
    assert forall|i: int| #[trigger] top(i) == measure(0 + i * 1) by {
        assert(0 * w + i == 0 + i * 1);
        assert(top(i) == f(i, 0));
    }
    assert forall|i: int| #[trigger] bottom(i) == measure((h - 1) * w + i * 1) by {
        assert(bottom(i) == f(i, h - 1));
    }
    assert forall|i: int| #[trigger] left(i) == measure(0 + i * w) by {
        assert(left(i) == f(0, i));
    }
    assert forall|i: int| #[trigger] right(i) == measure(w - 1 + i * w) by {
        assert(right(i) == f(w - 1, i));
    }
    lemma_along(measure, 0, 1, top, distance(w), w);
    lemma_along(measure, (h - 1) * w, 1, bottom, distance(w), w);
    lemma_along(measure, 0, w, left, distance(h), h);
    lemma_along(measure, w - 1, w, right, distance(h), h);
    assert(distance(w) * 1 == distance(w));
}

/// A sum is linear.
proof fn lemma_sum_less(
    f: spec_fn(int) -> int,
    g: spec_fn(int) -> int,
    e: spec_fn(int) -> int,
    k: int,
    step: int,
    n: int,
)
    requires
        forall|i: int| #[trigger] e(i) == f(i) - k * g(i),
    ensures
        sum_of_multiples(e, step, n) == sum_of_multiples(f, step, n) - k * sum_of_multiples(
            g,
            step,
            n,
        ),
    decreases n,
{
    if n > 0 {
        lemma_sum_less(f, g, e, k, step, n - 1);
        let a = sum_of_multiples(g, step, n - 1);
        assert(e(n - 1) == f(n - 1) - k * g(n - 1));
        vstd::arithmetic::mul::lemma_mul_is_distributive_add(k, a, g(n - 1));
    }
}

/// A sum of counts is zero exactly where nothing is counted.
proof fn lemma_sum_zero(g: spec_fn(int) -> int, step: int, n: int)
    requires
        forall|i: int| 0 <= #[trigger] g(i),
    ensures
        0 <= sum_of_multiples(g, step, n),
        sum_of_multiples(g, step, n) == 0 <==> forall|i: int|
            0 <= i < n && i % step == 0 ==> #[trigger] g(i) == 0,
    decreases n,
{
    if n > 0 {
        lemma_sum_zero(g, step, n - 1);
        let i = n - 1;
        assert(0 <= g(i));
        if sum_of_multiples(g, step, n) == 0 {
            assert forall|j: int| 0 <= j < n && j % step == 0 implies #[trigger] g(j) == 0 by {
                if j == i {
                    assert(g(i) == 0);
                }
            }
        } else if forall|j: int| 0 <= j < n && j % step == 0 ==> #[trigger] g(j) == 0 {
            assert(i % step == 0 ==> g(i) == 0);
        }
    }
}

/// Counts a visible pixel.
spec fn count(rgba: Seq<u8>, w: int, x: int, y: int) -> int {
    if visible(rgba, w, x, y) {
        1
    } else {
        0
    }
}

/// The light of a visible pixel.
spec fn visible_light(rgba: Seq<u8>, w: int, x: int, y: int) -> int {
    if visible(rgba, w, x, y) {
        byte_at(rgba, w, x, y, 0) + byte_at(rgba, w, x, y, 1) + byte_at(rgba, w, x, y, 2)
    } else {
        0
    }
}

/// The sums of the contract, over columns and rows.
proof fn lemma_edges(rgba: Seq<u8>, w: int, h: int)
    requires
        0 <= w,
        0 <= h,
    ensures
        ({
            let n = crate::glm_vl::alpha::around(
                |p: int| crate::glm_vl::alpha::opacity(rgba, p),
                w,
                h,
            );
            let sum = crate::glm_vl::alpha::around(
                |p: int| crate::glm_vl::alpha::light(rgba, p),
                w,
                h,
            );
            &&& sum - 384 * n == edge_excess(rgba, w, h)
            &&& n == 0 <==> {
                &&& forall|x: int|
                    0 <= x < w && x % distance(w) == 0 ==> #[trigger] count(rgba, w, x, 0) == 0
                &&& forall|x: int|
                    0 <= x < w && x % distance(w) == 0 ==> #[trigger] count(rgba, w, x, h - 1)
                        == 0
                &&& forall|y: int|
                    0 <= y < h && y % distance(h) == 0 ==> #[trigger] count(rgba, w, 0, y) == 0
                &&& forall|y: int|
                    0 <= y < h && y % distance(h) == 0 ==> #[trigger] count(rgba, w, w - 1, y)
                        == 0
            }
        }),
{
    let opacities = |p: int| crate::glm_vl::alpha::opacity(rgba, p);
    let lights = |p: int| crate::glm_vl::alpha::light(rgba, p);
    let c = |x: int, y: int| count(rgba, w, x, y);
    let l = |x: int, y: int| visible_light(rgba, w, x, y);
    lemma_around(opacities, c, w, h);
    lemma_around(lights, l, w, h);
    let c0 = |x: int| c(x, 0);
    let c1 = |x: int| c(x, h - 1);
    let c2 = |y: int| c(0, y);
    let c3 = |y: int| c(w - 1, y);
    let e0 = |x: int| excess(rgba, w, x, 0);
    let e1 = |x: int| excess(rgba, w, x, h - 1);
    let e2 = |y: int| excess(rgba, w, 0, y);
    let e3 = |y: int| excess(rgba, w, w - 1, y);
    lemma_sum_less(|x: int| l(x, 0), c0, e0, 384, distance(w), w);
    lemma_sum_less(|x: int| l(x, h - 1), c1, e1, 384, distance(w), w);
    lemma_sum_less(|y: int| l(0, y), c2, e2, 384, distance(h), h);
    lemma_sum_less(|y: int| l(w - 1, y), c3, e3, 384, distance(h), h);
    lemma_sum_zero(c0, distance(w), w);
    lemma_sum_zero(c1, distance(w), w);
    lemma_sum_zero(c2, distance(h), h);
    lemma_sum_zero(c3, distance(h), h);
    let n = crate::glm_vl::alpha::around(opacities, w, h);
    if n == 0 {
        assert forall|x: int| 0 <= x < w && x % distance(w) == 0 implies #[trigger] count(
            rgba,
            w,
            x,
            0,
        ) == 0 by {
            assert(c0(x) == 0);
        }
        assert forall|x: int| 0 <= x < w && x % distance(w) == 0 implies #[trigger] count(
            rgba,
            w,
            x,
            h - 1,
        ) == 0 by {
            assert(c1(x) == 0);
        }
        assert forall|y: int| 0 <= y < h && y % distance(h) == 0 implies #[trigger] count(
            rgba,
            w,
            0,
            y,
        ) == 0 by {
            assert(c2(y) == 0);
        }
        assert forall|y: int| 0 <= y < h && y % distance(h) == 0 implies #[trigger] count(
            rgba,
            w,
            w - 1,
            y,
        ) == 0 by {
            assert(c3(y) == 0);
        }
    }
}

/// The background is white exactly where no sample of the four edges is visible.
pub proof fn law_white_background(rgba: Seq<u8>, w: int, h: int)
    requires
        0 < w,
        0 < h,
    ensures
        crate::glm_vl::alpha::background(rgba, w, h) == 255 <==> forall|x: int, y: int|
            0 <= x < w && 0 <= y < h && sampled(w, h, x, y) ==> !#[trigger] visible(
                rgba,
                w,
                x,
                y,
            ),
{
    lemma_edges(rgba, w, h);
    vstd::arithmetic::div_mod::lemma_small_mod(0, distance(w) as nat);
    vstd::arithmetic::div_mod::lemma_small_mod(0, distance(h) as nat);
    if crate::glm_vl::alpha::background(rgba, w, h) == 255 {
        assert forall|x: int, y: int|
            0 <= x < w && 0 <= y < h && sampled(w, h, x, y) implies !#[trigger] visible(
            rgba,
            w,
            x,
            y,
        ) by {
            assert(count(rgba, w, x, y) == 0);
        }
    } else if forall|x: int, y: int|
        0 <= x < w && 0 <= y < h && sampled(w, h, x, y) ==> !#[trigger] visible(rgba, w, x, y) {
        assert forall|x: int| 0 <= x < w && x % distance(w) == 0 implies #[trigger] count(
            rgba,
            w,
            x,
            0,
        ) == 0 by {
            assert(!visible(rgba, w, x, 0));
        }
        assert forall|x: int| 0 <= x < w && x % distance(w) == 0 implies #[trigger] count(
            rgba,
            w,
            x,
            h - 1,
        ) == 0 by {
            assert(!visible(rgba, w, x, h - 1));
        }
        assert forall|y: int| 0 <= y < h && y % distance(h) == 0 implies #[trigger] count(
            rgba,
            w,
            0,
            y,
        ) == 0 by {
            assert(!visible(rgba, w, 0, y));
        }
        assert forall|y: int| 0 <= y < h && y % distance(h) == 0 implies #[trigger] count(
            rgba,
            w,
            w - 1,
            y,
        ) == 0 by {
            assert(!visible(rgba, w, w - 1, y));
        }
    }
}

/// Where the background is not white, it is dark if the visible samples are on average
/// lighter than middle grey, and bright if they are not.
pub proof fn law_contrasting_background(rgba: Seq<u8>, w: int, h: int)
    requires
        0 <= w,
        0 <= h,
    ensures
        ({
            let bg = crate::glm_vl::alpha::background(rgba, w, h);
            &&& bg == 255 || bg == 32 || bg == 240
            &&& bg == 32 <==> edge_excess(rgba, w, h) > 0
            &&& w == 0 && h == 0 ==> bg == 255
        }),
{
    lemma_edges(rgba, w, h);
    let n = crate::glm_vl::alpha::around(
        |p: int| crate::glm_vl::alpha::opacity(rgba, p),
        w,
        h,
    );
    if n == 0 {
        lemma_no_excess(rgba, w, h);
    }
}

/// Without visible samples there is no excess.
proof fn lemma_no_excess(rgba: Seq<u8>, w: int, h: int)
    requires
        0 <= w,
        0 <= h,
        crate::glm_vl::alpha::around(
            |p: int| crate::glm_vl::alpha::opacity(rgba, p),
            w,
            h,
        ) == 0,
    ensures
        edge_excess(rgba, w, h) == 0,
{
    lemma_edges(rgba, w, h);
    lemma_sum_of_none(|x: int| excess(rgba, w, x, 0), |x: int| count(rgba, w, x, 0), distance(w), w);
    lemma_sum_of_none(
        |x: int| excess(rgba, w, x, h - 1),
        |x: int| count(rgba, w, x, h - 1),
        distance(w),
        w,
    );
    lemma_sum_of_none(|y: int| excess(rgba, w, 0, y), |y: int| count(rgba, w, 0, y), distance(h), h);
    lemma_sum_of_none(
        |y: int| excess(rgba, w, w - 1, y),
        |y: int| count(rgba, w, w - 1, y),
        distance(h),
        h,
    );
}

/// A sum over what is not counted is zero.
proof fn lemma_sum_of_none(f: spec_fn(int) -> int, g: spec_fn(int) -> int, step: int, n: int)
    requires
        forall|i: int| #[trigger] g(i) == 0 ==> f(i) == 0,
        forall|i: int| 0 <= i < n && i % step == 0 ==> #[trigger] g(i) == 0,
    ensures
        sum_of_multiples(f, step, n) == 0,
    decreases n,
{
    if n > 0 {
        lemma_sum_of_none(f, g, step, n - 1);
        if (n - 1) % step == 0 {
            assert(g(n - 1) == 0);
        }
    }
}

/// The image lies over the grey that the edges choose, the same for all of its pixels.
pub proof fn law_composite(rgba: Seq<u8>, w: int, h: int)
    ensures
        lies_over(
            rgba,
            crate::glm_vl::alpha::background(rgba, w, h),
            crate::glm_vl::alpha::composite(rgba, w, h),
        ),
{
    let bg = crate::glm_vl::alpha::background(rgba, w, h);
    let rgb = crate::glm_vl::alpha::composite(rgba, w, h);
    assert forall|p: int, c: int| 0 <= p < rgba.len() / 4 && 0 <= c < 3 implies {
        let alpha = rgba[4 * p + 3] as int;
        let mean = rgba[4 * p + c] * alpha + bg * (255 - alpha);
        -127 <= 255 * #[trigger] rgb[3 * p + c] - mean <= 127
    } by {
        let alpha = rgba[4 * p + 3] as int;
        let colour = rgba[4 * p + c] as int;
        crate::glm_vl::alpha::law_blend(colour, alpha, bg);
        assert((3 * p + c) / 3 == p && (3 * p + c) % 3 == c);
        assert(rgb[3 * p + c] == crate::glm_vl::alpha::blend(colour, alpha, bg));
    }
}

/// Sums of equal terms are equal.
proof fn lemma_sum_equal(f: spec_fn(int) -> int, g: spec_fn(int) -> int, step: int, n: int)
    requires
        forall|i: int| 0 <= i < n ==> #[trigger] f(i) == g(i),
    ensures
        sum_of_multiples(f, step, n) == sum_of_multiples(g, step, n),
    decreases n,
{
    if n > 0 {
        lemma_sum_equal(f, g, step, n - 1);
        assert(f(n - 1) == g(n - 1));
    }
}

/// A sum of all terms from a later one on starts with that one.
proof fn lemma_sum_first(f: spec_fn(int) -> int, n: int)
    requires
        0 < n,
    ensures
        sum_of_multiples(f, 1, n) == f(0) + sum_of_multiples(|i: int| f(i + 1), 1, n - 1),
    decreases n,
{
    let later = |i: int| f(i + 1);
    if n > 1 {
        lemma_sum_first(f, n - 1);
        assert(later(n - 2) == f(n - 1));
    } else {
        assert(sum_of_multiples(f, 1, 0) == 0);
    }
}

/// A sum of all terms does not depend on the direction.
proof fn lemma_sum_backwards(f: spec_fn(int) -> int, g: spec_fn(int) -> int, n: int)
    requires
        forall|i: int| 0 <= i < n ==> #[trigger] g(i) == f(n - 1 - i),
    ensures
        sum_of_multiples(g, 1, n) == sum_of_multiples(f, 1, n),
    decreases n,
{
    if n > 0 {
        let later = |i: int| f(i + 1);
        lemma_sum_first(f, n);
        assert forall|i: int| 0 <= i < n - 1 implies #[trigger] g(i) == later(n - 1 - 1 - i) by {
            assert(g(i) == f(n - 1 - i));
        }
        lemma_sum_backwards(later, g, n - 1);
        assert(g(n - 1) == f(0));
    }
}

/// Turning an image by half a turn turns what lies over the background by half a turn
/// and leaves the background as it is, where all pixels of the edges are samples.
pub proof fn law_half_turn(rgba: Seq<u8>, turned: Seq<u8>, w: int, h: int)
    requires
        0 < w < 40,
        0 < h < 40,
        forall|x: int, y: int, c: int|
            0 <= x < w && 0 <= y < h && 0 <= c < 4 ==> #[trigger] byte_at(turned, w, x, y, c)
                == byte_at(rgba, w, w - 1 - x, h - 1 - y, c),
    ensures
        crate::glm_vl::alpha::background(turned, w, h) == crate::glm_vl::alpha::background(
            rgba,
            w,
            h,
        ),
{
    assert forall|x: int, y: int| 0 <= x < w && 0 <= y < h implies #[trigger] excess(
        turned,
        w,
        x,
        y,
    ) == excess(rgba, w, w - 1 - x, h - 1 - y) && visible(turned, w, x, y) == visible(
        rgba,
        w,
        w - 1 - x,
        h - 1 - y,
    ) by {
        assert(byte_at(turned, w, x, y, 0) == byte_at(rgba, w, w - 1 - x, h - 1 - y, 0));
        assert(byte_at(turned, w, x, y, 1) == byte_at(rgba, w, w - 1 - x, h - 1 - y, 1));
        assert(byte_at(turned, w, x, y, 2) == byte_at(rgba, w, w - 1 - x, h - 1 - y, 2));
        assert(byte_at(turned, w, x, y, 3) == byte_at(rgba, w, w - 1 - x, h - 1 - y, 3));
    }
    assert(distance(w) == 1 && distance(h) == 1);
    lemma_sum_backwards(
        |x: int| excess(rgba, w, x, 0),
        |x: int| excess(turned, w, x, h - 1),
        w,
    );
    lemma_sum_backwards(
        |x: int| excess(rgba, w, x, h - 1),
        |x: int| excess(turned, w, x, 0),
        w,
    );
    lemma_sum_backwards(
        |y: int| excess(rgba, w, 0, y),
        |y: int| excess(turned, w, w - 1, y),
        h,
    );
    lemma_sum_backwards(
        |y: int| excess(rgba, w, w - 1, y),
        |y: int| excess(turned, w, 0, y),
        h,
    );
    law_contrasting_background(rgba, w, h);
    law_contrasting_background(turned, w, h);
    law_white_background(rgba, w, h);
    law_white_background(turned, w, h);
    if crate::glm_vl::alpha::background(turned, w, h) == 255 {
        assert forall|x: int, y: int|
            0 <= x < w && 0 <= y < h && sampled(w, h, x, y) implies !#[trigger] visible(
            rgba,
            w,
            x,
            y,
        ) by {
            assert(sampled(w, h, w - 1 - x, h - 1 - y));
            assert(!visible(turned, w, w - 1 - x, h - 1 - y));
            assert(excess(turned, w, w - 1 - x, h - 1 - y) == excess(rgba, w, x, y));
        }
    }
    if crate::glm_vl::alpha::background(rgba, w, h) == 255 {
        assert forall|x: int, y: int|
            0 <= x < w && 0 <= y < h && sampled(w, h, x, y) implies !#[trigger] visible(
            turned,
            w,
            x,
            y,
        ) by {
            assert(sampled(w, h, w - 1 - x, h - 1 - y));
            assert(!visible(rgba, w, w - 1 - x, h - 1 - y));
            assert(excess(turned, w, x, y) == excess(rgba, w, w - 1 - x, h - 1 - y));
        }
    }
}

/// Swapping columns and rows leaves the background as it is.
pub proof fn law_transposition(rgba: Seq<u8>, turned: Seq<u8>, w: int, h: int)
    requires
        0 < w,
        0 < h,
        forall|x: int, y: int, c: int|
            0 <= x < h && 0 <= y < w && 0 <= c < 4 ==> #[trigger] byte_at(turned, h, x, y, c)
                == byte_at(rgba, w, y, x, c),
    ensures
        crate::glm_vl::alpha::background(turned, h, w) == crate::glm_vl::alpha::background(
            rgba,
            w,
            h,
        ),
{
    assert forall|x: int, y: int| 0 <= x < h && 0 <= y < w implies #[trigger] excess(
        turned,
        h,
        x,
        y,
    ) == excess(rgba, w, y, x) && visible(turned, h, x, y) == visible(rgba, w, y, x) by {
        assert(byte_at(turned, h, x, y, 0) == byte_at(rgba, w, y, x, 0));
        assert(byte_at(turned, h, x, y, 1) == byte_at(rgba, w, y, x, 1));
        assert(byte_at(turned, h, x, y, 2) == byte_at(rgba, w, y, x, 2));
        assert(byte_at(turned, h, x, y, 3) == byte_at(rgba, w, y, x, 3));
    }
    lemma_sum_equal(
        |x: int| excess(turned, h, x, 0),
        |y: int| excess(rgba, w, 0, y),
        distance(h),
        h,
    );
    lemma_sum_equal(
        |x: int| excess(turned, h, x, w - 1),
        |y: int| excess(rgba, w, w - 1, y),
        distance(h),
        h,
    );
    lemma_sum_equal(
        |y: int| excess(turned, h, 0, y),
        |x: int| excess(rgba, w, x, 0),
        distance(w),
        w,
    );
    lemma_sum_equal(
        |y: int| excess(turned, h, h - 1, y),
        |x: int| excess(rgba, w, x, h - 1),
        distance(w),
        w,
    );
    law_contrasting_background(rgba, w, h);
    law_contrasting_background(turned, h, w);
    law_white_background(rgba, w, h);
    law_white_background(turned, h, w);
    if crate::glm_vl::alpha::background(turned, h, w) == 255 {
        assert forall|x: int, y: int|
            0 <= x < w && 0 <= y < h && sampled(w, h, x, y) implies !#[trigger] visible(
            rgba,
            w,
            x,
            y,
        ) by {
            assert(sampled(h, w, y, x));
            assert(!visible(turned, h, y, x));
            assert(excess(turned, h, y, x) == excess(rgba, w, x, y));
        }
    }
    if crate::glm_vl::alpha::background(rgba, w, h) == 255 {
        assert forall|x: int, y: int|
            0 <= x < h && 0 <= y < w && sampled(h, w, x, y) implies !#[trigger] visible(
            turned,
            h,
            x,
            y,
        ) by {
            assert(sampled(w, h, y, x));
            assert(!visible(rgba, w, y, x));
            assert(excess(turned, h, x, y) == excess(rgba, w, y, x));
        }
    }
}

/// The background depends on the pixels alone, not on what follows them.
pub proof fn law_background_of_pixels(rgba: Seq<u8>, other: Seq<u8>, w: int, h: int)
    requires
        0 < w,
        0 < h,
        forall|x: int, y: int, c: int|
            0 <= x < w && 0 <= y < h && 0 <= c < 4 ==> #[trigger] byte_at(rgba, w, x, y, c)
                == byte_at(other, w, x, y, c),
    ensures
        crate::glm_vl::alpha::background(rgba, w, h) == crate::glm_vl::alpha::background(
            other,
            w,
            h,
        ),
{
    assert forall|x: int, y: int| 0 <= x < w && 0 <= y < h implies #[trigger] excess(
        rgba,
        w,
        x,
        y,
    ) == excess(other, w, x, y) && visible(rgba, w, x, y) == visible(other, w, x, y) by {
        assert(byte_at(rgba, w, x, y, 0) == byte_at(other, w, x, y, 0));
        assert(byte_at(rgba, w, x, y, 1) == byte_at(other, w, x, y, 1));
        assert(byte_at(rgba, w, x, y, 2) == byte_at(other, w, x, y, 2));
        assert(byte_at(rgba, w, x, y, 3) == byte_at(other, w, x, y, 3));
    }
    lemma_sum_equal(
        |x: int| excess(rgba, w, x, 0),
        |x: int| excess(other, w, x, 0),
        distance(w),
        w,
    );
    lemma_sum_equal(
        |x: int| excess(rgba, w, x, h - 1),
        |x: int| excess(other, w, x, h - 1),
        distance(w),
        w,
    );
    lemma_sum_equal(
        |y: int| excess(rgba, w, 0, y),
        |y: int| excess(other, w, 0, y),
        distance(h),
        h,
    );
    lemma_sum_equal(
        |y: int| excess(rgba, w, w - 1, y),
        |y: int| excess(other, w, w - 1, y),
        distance(h),
        h,
    );
    law_contrasting_background(rgba, w, h);
    law_contrasting_background(other, w, h);
    law_white_background(rgba, w, h);
    law_white_background(other, w, h);
    if crate::glm_vl::alpha::background(rgba, w, h) == 255 {
        assert forall|x: int, y: int|
            0 <= x < w && 0 <= y < h && sampled(w, h, x, y) implies !#[trigger] visible(
            other,
            w,
            x,
            y,
        ) by {
            assert(!visible(rgba, w, x, y));
            assert(excess(rgba, w, x, y) == excess(other, w, x, y));
        }
    }
    if crate::glm_vl::alpha::background(other, w, h) == 255 {
        assert forall|x: int, y: int|
            0 <= x < w && 0 <= y < h && sampled(w, h, x, y) implies !#[trigger] visible(
            rgba,
            w,
            x,
            y,
        ) by {
            assert(!visible(other, w, x, y));
            assert(excess(rgba, w, x, y) == excess(other, w, x, y));
        }
    }
}

/// Whether the edges of an image choose the grey `bg`: white where no sample is visible,
/// dark behind edges that are on average lighter than middle grey, and bright behind
/// others.
pub open spec fn chooses(rgba: Seq<u8>, w: int, h: int, bg: int) -> bool {
    &&& bg == 255 || bg == 32 || bg == 240
    &&& bg == 255 <==> forall|x: int, y: int|
        0 <= x < w && 0 <= y < h && sampled(w, h, x, y) ==> !#[trigger] visible(rgba, w, x, y)
    &&& bg == 32 <==> edge_excess(rgba, w, h) > 0
}

/// What the background of the contract is.
pub proof fn lemma_chooses(rgba: Seq<u8>, w: int, h: int)
    requires
        (w == 0 && h == 0) || (0 < w && 0 < h),
    ensures
        chooses(rgba, w, h, crate::glm_vl::alpha::background(rgba, w, h)),
{
    law_contrasting_background(rgba, w, h);
    if 0 < w {
        law_white_background(rgba, w, h);
    }
}

/// An image is put over the grey that its edges choose.
pub proof fn law_composite_alpha(rgba: &[u8], w: usize, h: usize, rgb: Vec<u8>)
    requires
        (w == 0 && h == 0) || (0 < w && 0 < h),
        call_ensures(composite_alpha, (rgba, w, h), rgb),
    ensures
        exists|bg: int| #[trigger]
            chooses(rgba@, w as int, h as int, bg) && lies_over(rgba@, bg, rgb@),
{
    lemma_chooses(rgba@, w as int, h as int);
    law_composite(rgba@, w as int, h as int);
}

/// A pixel's place in reading order.
proof fn lemma_place(w: int, h: int, x: int, y: int)
    requires
        0 <= x < w,
        0 <= y < h,
    ensures
        0 <= y * w + x < w * h,
{
    assert(0 <= y * w && y * w + w <= h * w && h * w == w * h) by (nonlinear_arith)
        requires
            0 <= y <= h - 1,
            0 < w,
    ;
}

/// Equal pixels over equal backgrounds are equal.
proof fn lemma_same_byte(
    rgba: Seq<u8>,
    other: Seq<u8>,
    rgb: Seq<u8>,
    other_rgb: Seq<u8>,
    bg: int,
    p: int,
    q: int,
    c: int,
)
    requires
        lies_over(rgba, bg, rgb),
        lies_over(other, bg, other_rgb),
        0 <= p < rgba.len() / 4,
        0 <= q < other.len() / 4,
        0 <= c < 3,
        rgba[4 * p + c] == other[4 * q + c],
        rgba[4 * p + 3] == other[4 * q + 3],
    ensures
        rgb[3 * p + c] == other_rgb[3 * q + c],
{
    assert(255 * rgb[3 * p + c] - 255 * other_rgb[3 * q + c] <= 254);
}

/// Putting an image over its background and turning it by half a turn can be done in any
/// order, where all pixels of the edges are samples.
pub proof fn law_half_turn_commutes(
    rgba: &[u8],
    turned: &[u8],
    w: usize,
    h: usize,
    rgb: Vec<u8>,
    turned_rgb: Vec<u8>,
    x: int,
    y: int,
    c: int,
)
    requires
        0 < w < 40,
        0 < h < 40,
        rgba@.len() == w * h * 4,
        turned@.len() == w * h * 4,
        call_ensures(composite_alpha, (rgba, w, h), rgb),
        call_ensures(composite_alpha, (turned, w, h), turned_rgb),
        forall|x: int, y: int, c: int|
            0 <= x < w && 0 <= y < h && 0 <= c < 4 ==> #[trigger] byte_at(
                turned@,
                w as int,
                x,
                y,
                c,
            ) == byte_at(rgba@, w as int, w - 1 - x, h - 1 - y, c),
        0 <= x < w,
        0 <= y < h,
        0 <= c < 3,
    ensures
        turned_rgb@[(y * w + x) * 3 + c] == rgb@[((h - 1 - y) * w + (w - 1 - x)) * 3 + c],
{
    law_half_turn(rgba@, turned@, w as int, h as int);
    law_composite(rgba@, w as int, h as int);
    law_composite(turned@, w as int, h as int);
    lemma_place(w as int, h as int, x, y);
    lemma_place(w as int, h as int, w - 1 - x, h - 1 - y);
    assert(byte_at(turned@, w as int, x, y, c) == byte_at(
        rgba@,
        w as int,
        w - 1 - x,
        h - 1 - y,
        c,
    ));
    assert(byte_at(turned@, w as int, x, y, 3) == byte_at(
        rgba@,
        w as int,
        w - 1 - x,
        h - 1 - y,
        3,
    ));
    lemma_same_byte(
        turned@,
        rgba@,
        turned_rgb@,
        rgb@,
        crate::glm_vl::alpha::background(rgba@, w as int, h as int),
        y * w + x,
        (h - 1 - y) * w + (w - 1 - x),
        c,
    );
}

/// Putting an image over its background and swapping columns and rows can be done in any
/// order.
pub proof fn law_transposition_commutes(
    rgba: &[u8],
    turned: &[u8],
    w: usize,
    h: usize,
    rgb: Vec<u8>,
    turned_rgb: Vec<u8>,
    x: int,
    y: int,
    c: int,
)
    requires
        0 < w,
        0 < h,
        rgba@.len() == w * h * 4,
        turned@.len() == w * h * 4,
        call_ensures(composite_alpha, (rgba, w, h), rgb),
        call_ensures(composite_alpha, (turned, h, w), turned_rgb),
        forall|x: int, y: int, c: int|
            0 <= x < h && 0 <= y < w && 0 <= c < 4 ==> #[trigger] byte_at(
                turned@,
                h as int,
                x,
                y,
                c,
            ) == byte_at(rgba@, w as int, y, x, c),
        0 <= x < h,
        0 <= y < w,
        0 <= c < 3,
    ensures
        turned_rgb@[(y * h + x) * 3 + c] == rgb@[(x * w + y) * 3 + c],
{
    law_transposition(rgba@, turned@, w as int, h as int);
    law_composite(rgba@, w as int, h as int);
    law_composite(turned@, h as int, w as int);
    lemma_place(h as int, w as int, x, y);
    lemma_place(w as int, h as int, y, x);
    vstd::arithmetic::mul::lemma_mul_is_commutative(w as int, h as int);
    assert(byte_at(turned@, h as int, x, y, c) == byte_at(rgba@, w as int, y, x, c));
    assert(byte_at(turned@, h as int, x, y, 3) == byte_at(rgba@, w as int, y, x, 3));
    lemma_same_byte(
        turned@,
        rgba@,
        turned_rgb@,
        rgb@,
        crate::glm_vl::alpha::background(rgba@, w as int, h as int),
        y * h + x,
        x * w + y,
        c,
    );
}

}
