//! Transparent images over a background that their edges choose.
use vstd::prelude::*;

verus! {

/// The distance of the samples along a side of `n` pixels.
pub open spec fn stride(n: int) -> int {
    if n / 20 >= 1 {
        n / 20
    } else {
        1
    }
}

/// The number of samples along a side of `n` pixels.
pub open spec fn samples(n: int) -> int {
    if n <= 0 {
        0
    } else {
        (n - 1) / stride(n) + 1
    }
}

/// The sum of `measure` over `n` pixels in steps of `step`.
pub open spec fn along(measure: spec_fn(int) -> int, first: int, step: int, n: int) -> int
    decreases n,
{
    if n <= 0 {
        0
    } else {
        along(measure, first, step, n - 1) + measure(first + (n - 1) * step)
    }
}

/// The sum of `measure` over the samples on the four edges of an image.
pub open spec fn around(measure: spec_fn(int) -> int, w: int, h: int) -> int {
    along(measure, 0, stride(w), samples(w)) + along(measure, (h - 1) * w, stride(w), samples(w))
        + along(measure, 0, stride(h) * w, samples(h)) + along(
        measure,
        w - 1,
        stride(h) * w,
        samples(h),
    )
}

/// Whether pixel `p` is more opaque than not.
pub open spec fn opaque_pixel(rgba: Seq<u8>, p: int) -> bool {
    rgba[p * 4 + 3] > 128
}

/// Counts a pixel that is more opaque than not.
pub open spec fn opacity(rgba: Seq<u8>, p: int) -> int {
    if opaque_pixel(rgba, p) {
        1
    } else {
        0
    }
}

/// The light of a pixel that is more opaque than not.
pub open spec fn light(rgba: Seq<u8>, p: int) -> int {
    if opaque_pixel(rgba, p) {
        rgba[p * 4] + rgba[p * 4 + 1] + rgba[p * 4 + 2]
    } else {
        0
    }
}

/// The grey of the background: dark behind bright edges and bright behind dark
/// ones, or white where all edges are transparent.
pub open spec fn background(rgba: Seq<u8>, w: int, h: int) -> int {
    let n = around(|p: int| opacity(rgba, p), w, h);
    let sum = around(|p: int| light(rgba, p), w, h);
    if n == 0 {
        255
    } else if sum > n * 3 * 128 {
        32
    } else {
        240
    }
}

/// A colour of the given opacity over the background, rounded.
pub open spec fn blend(colour: int, alpha: int, background: int) -> int {
    (colour * alpha + background * (255 - alpha) + 127) / 255
}

/// The image over its background, without opacity.
pub open spec fn composite(rgba: Seq<u8>, w: int, h: int) -> Seq<u8> {
    Seq::new(
        (rgba.len() as int / 4 * 3) as nat,
        |i: int|
            blend(
                rgba[i / 3 * 4 + i % 3] as int,
                rgba[i / 3 * 4 + 3] as int,
                background(rgba, w, h),
            ) as u8,
    )
}

/// The last pixel, in reading order, that the edges' samples reach.
pub open spec fn last_sample(w: int, h: int) -> int {
    let bottom = (h - 1) * w + (samples(w) - 1) * stride(w);
    let right = w - 1 + (samples(h) - 1) * (stride(h) * w);
    if bottom >= right {
        bottom
    } else {
        right
    }
}

/// Few samples reach along a side.
proof fn lemma_samples(n: int)
    requires
        0 < n,
    ensures
        1 <= stride(n) <= n,
        1 <= samples(n) <= 40,
        0 <= (samples(n) - 1) * stride(n) < n,
{
    let s = stride(n);
    let q = (n - 1) / s;
    vstd::arithmetic::div_mod::lemma_fundamental_div_mod(n - 1, s);
    vstd::arithmetic::div_mod::lemma_div_pos_is_pos(n - 1, s);
    vstd::arithmetic::div_mod::lemma_mod_bound(n - 1, s);
    vstd::arithmetic::mul::lemma_mul_is_commutative(s, q);
    assert(n <= 40 * s);
    assert(q < 40) by (nonlinear_arith)
        requires
            q * s <= n - 1,
            n <= 40 * s,
            0 < s,
    ;
    assert(0 <= q * s) by (nonlinear_arith)
        requires
            0 <= q,
            0 < s,
    ;
}

/// The samples lie in the image.
pub proof fn lemma_last_sample(w: int, h: int)
    requires
        0 < w,
        0 < h,
    ensures
        last_sample(w, h) < w * h,
{
    lemma_samples(w);
    lemma_samples(h);
    let k = samples(h) - 1;
    let s = stride(h);
    assert(k * (s * w) == (k * s) * w) by (nonlinear_arith);
    assert((k * s) * w <= (h - 1) * w && (h - 1) * w + w == w * h) by (nonlinear_arith)
        requires
            k * s <= h - 1,
            0 < w,
    ;
}

/// Sums light and opacity over `n` pixels in steps of `step`.
fn tally(rgba: &[u8], first: usize, step: usize, n: usize) -> (sums: (u64, u64))
    requires
        n <= 40,
        0 < n ==> 4 * (first + (n - 1) * step + 1) <= rgba@.len(),
    ensures
        sums.0 == along(|p: int| light(rgba@, p), first as int, step as int, n as int),
        sums.1 == along(|p: int| opacity(rgba@, p), first as int, step as int, n as int),
        sums.0 <= 765 * n,
        sums.1 <= n,
{
    assert(rgba@.len() == rgba.len());
    let ghost lights = |p: int| light(rgba@, p);
    let ghost counts = |p: int| opacity(rgba@, p);
    let mut sum: u64 = 0;
    let mut count: u64 = 0;
    let mut k: usize = 0;
    while k < n
        invariant
            k <= n <= 40,
            rgba@.len() <= usize::MAX,
            lights == (|p: int| light(rgba@, p)),
            counts == (|p: int| opacity(rgba@, p)),
            0 < n ==> 4 * (first + (n - 1) * step + 1) <= rgba@.len(),
            sum == along(lights, first as int, step as int, k as int),
            count == along(counts, first as int, step as int, k as int),
            sum <= 765 * k,
            count <= k,
        decreases n - k,
    {
        proof {
            assert(0 <= k * step <= (n - 1) * step) by (nonlinear_arith)
                requires
                    0 <= k <= n - 1,
                    0 <= step,
            ;
        }
        let p: usize = (first + k * step) * 4;
        if rgba[p + 3] > 128 {
            sum = sum + rgba[p] as u64 + rgba[p + 1] as u64 + rgba[p + 2] as u64;
            count = count + 1;
        }
        proof {
            let i = first + k * step;
            assert(lights(i) == light(rgba@, i));
            assert(counts(i) == opacity(rgba@, i));
        }
        k = k + 1;
    }
    (sum, count)
}

/// The distance of the samples along a side of `n` pixels.
fn sample_stride(n: usize) -> (s: usize)
    ensures
        s == stride(n as int),
        1 <= s,
{
    if n / 20 >= 1 {
        n / 20
    } else {
        1
    }
}

/// The grey of the background.
fn edge_background(rgba: &[u8], w: usize, h: usize) -> (bg: u32)
    requires
        (w == 0 && h == 0) || (0 < w && 0 < h && 4 * (last_sample(w as int, h as int) + 1)
            <= rgba@.len()),
    ensures
        bg == background(rgba@, w as int, h as int),
        bg <= 255,
{
    if w == 0 || h == 0 {
        return 255;
    }
    assert(rgba@.len() == rgba.len());
    let sx: usize = sample_stride(w);
    let sy: usize = sample_stride(h);
    let nx: usize = (w - 1) / sx + 1;
    let ny: usize = (h - 1) / sy + 1;
    proof {
        lemma_samples(w as int);
        lemma_samples(h as int);
        let down = sy * w;
        assert(0 <= (h - 1) * w && 0 <= (ny - 1) * (sy * w) && sy * w <= h * w
            && h * w == (h - 1) * w + w) by (nonlinear_arith)
            requires
                1 <= h,
                0 <= w,
                1 <= ny,
                0 <= sy <= h,
        ;
        if sy > 1 {
            assert(ny >= 2) by {
                assert(20 * sy <= h);
                vstd::arithmetic::div_mod::lemma_div_is_ordered(sy as int, h - 1, sy as int);
                vstd::arithmetic::div_mod::lemma_div_by_self(sy as int);
            }
            assert(down <= (ny - 1) * down) by (nonlinear_arith)
                requires
                    0 <= down,
                    2 <= ny,
            ;
        }
    }
    let bottom: usize = (h - 1) * w;
    let down: usize = sy * w;
    let top_sums = tally(rgba, 0, sx, nx);
    let bottom_sums = tally(rgba, bottom, sx, nx);
    let left_sums = tally(rgba, 0, down, ny);
    let right_sums = tally(rgba, w - 1, down, ny);
    let sum: u64 = top_sums.0 + bottom_sums.0 + left_sums.0 + right_sums.0;
    let count: u64 = top_sums.1 + bottom_sums.1 + left_sums.1 + right_sums.1;
    if count == 0 {
        255
    } else if sum > count * 3 * 128 {
        32
    } else {
        240
    }
}

/// Puts a transparent image over the background that its edges choose. Pixels
/// are four bytes each, row by row.
pub fn composite_alpha(rgba: &[u8], w: usize, h: usize) -> (rgb: Vec<u8>)
    requires
        (w == 0 && h == 0) || (0 < w && 0 < h && 4 * (last_sample(w as int, h as int) + 1)
            <= rgba@.len()),
    ensures
        rgb@ == composite(rgba@, w as int, h as int),
{
    let bg: u32 = edge_background(rgba, w, h);
    let len: usize = rgba.len();
    let ghost full = composite(rgba@, w as int, h as int);
    let pixels: usize = len / 4;
    let mut rgb: Vec<u8> = Vec::new();
    let mut p: usize = 0;
    while p < pixels
        invariant
            p <= pixels,
            len == rgba@.len(),
            pixels == len / 4,
            bg == background(rgba@, w as int, h as int),
            bg <= 255,
            full == composite(rgba@, w as int, h as int),
            full.len() == 3 * pixels,
            rgb@ == full.take(3 * p),
        decreases pixels - p,
    {
        let alpha: u32 = rgba[4 * p + 3] as u32;
        let red: u8 = blend_byte(rgba[4 * p], alpha, bg);
        let green: u8 = blend_byte(rgba[4 * p + 1], alpha, bg);
        let blue: u8 = blend_byte(rgba[4 * p + 2], alpha, bg);
        rgb.push(red);
        rgb.push(green);
        rgb.push(blue);
        proof {
            assert(full[3 * p] == red);
            assert(full[3 * p + 1] == green);
            assert(full[3 * p + 2] == blue);
            assert(full.take(3 * (p + 1)) =~= full.take(3 * p).push(red).push(green).push(blue));
        }
        p = p + 1;
    }
    proof {
        assert(full.take(3 * pixels) =~= full);
    }
    rgb
}

/// A colour over the background.
fn blend_byte(colour: u8, alpha: u32, bg: u32) -> (b: u8)
    requires
        alpha <= 255,
        bg <= 255,
    ensures
        b == blend(colour as int, alpha as int, bg as int),
        b == blend(colour as int, alpha as int, bg as int) as u8,
{
    proof {
        law_blend(colour as int, alpha as int, bg as int);
        assert(colour * alpha <= 255 * 255 && bg * (255 - alpha) <= 255 * 255)
            by (nonlinear_arith)
            requires
                0 <= colour <= 255,
                0 <= alpha <= 255,
                0 <= bg <= 255,
        ;
    }
    ((colour as u32 * alpha + bg * (255 - alpha) + 127) / 255) as u8
}

/// An opaque pixel keeps its colour, a transparent one takes the background,
/// and every other lies between the two.
pub proof fn law_blend(colour: int, alpha: int, bg: int)
    requires
        0 <= colour <= 255,
        0 <= alpha <= 255,
        0 <= bg <= 255,
    ensures
        blend(colour, 255, bg) == colour,
        blend(colour, 0, bg) == bg,
        colour <= bg ==> colour <= blend(colour, alpha, bg) <= bg,
        bg <= colour ==> bg <= blend(colour, alpha, bg) <= colour,
{
    let rest = 255 - alpha;
    let n = colour * alpha + bg * rest;
    vstd::arithmetic::mul::lemma_mul_basics(colour);
    vstd::arithmetic::mul::lemma_mul_basics(bg);
    assert(blend(colour, 255, bg) == (colour * 255 + bg * 0 + 127) / 255);
    assert(blend(colour, 0, bg) == (colour * 0 + bg * 255 + 127) / 255);
    assert(blend(colour, alpha, bg) == (n + 127) / 255);
    vstd::arithmetic::mul::lemma_mul_is_distributive_add(colour, alpha, rest);
    vstd::arithmetic::mul::lemma_mul_is_distributive_add(bg, alpha, rest);
    assert(colour * alpha + colour * rest == colour * 255);
    assert(bg * alpha + bg * rest == bg * 255);
    if colour <= bg {
        vstd::arithmetic::mul::lemma_mul_inequality(colour, bg, alpha);
        vstd::arithmetic::mul::lemma_mul_inequality(colour, bg, rest);
        assert(colour * 255 <= n <= bg * 255);
    } else {
        vstd::arithmetic::mul::lemma_mul_inequality(bg, colour, alpha);
        vstd::arithmetic::mul::lemma_mul_inequality(bg, colour, rest);
        assert(bg * 255 <= n <= colour * 255);
    }
}

}
