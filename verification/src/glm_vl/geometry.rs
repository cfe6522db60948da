//! Canvas and content sizes: the canvas is aligned and inside a pixel budget,
//! the content keeps the image's shape and stands in the canvas' upper left
//! corner.
use crate::binary64::Binary64;
use vstd::prelude::*;
use vstd::string::StringExecFns;

verus! {

/// The sizes that an image is given.
#[derive(Clone, Copy, Debug, PartialEq, Eq, Structural)]
pub struct GlmResize {
    pub canvas_h: usize,
    pub canvas_w: usize,
    pub content_h: usize,
    pub content_w: usize,
}

/// What a canvas has to keep to.
#[derive(Clone, Copy, Debug, PartialEq, Eq, Structural)]
pub struct CanvasRules {
    /// Sides are multiples of this.
    pub factor: usize,
    /// How often each pixel counts.
    pub frames: usize,
    /// The least number of pixels.
    pub min_pixels: u128,
    /// The largest number of pixels.
    pub max_pixels: u128,
}

impl CanvasRules {
    /// The budget is ordered, and the smallest canvas is inside it.
    pub open spec fn wf(self) -> bool {
        &&& 0 < self.factor
        &&& 0 < self.frames
        &&& 0 < self.min_pixels <= self.max_pixels
        &&& self.frames * self.factor * self.factor <= self.max_pixels
    }

    /// The least multiple of the factor that is not below `n`.
    pub open spec fn aligned(self, n: int) -> int {
        ((n + self.factor - 1) / (self.factor as int)) * self.factor
    }

    /// The pixels of all frames, as far as they can be counted.
    pub open spec fn budget(self, h: int, w: int) -> int {
        if self.frames * h * w > u128::MAX {
            u128::MAX as int
        } else {
            self.frames * h * w
        }
    }

    /// The multiple of `factor` at or above `value`.
    pub fn align(&self, value: usize) -> (result: Result<usize, String>)
        requires
            self.wf(),
        ensures
            match result {
                Ok(n) => n == self.aligned(value as int),
                Err(e) => self.aligned(value as int) > usize::MAX && e@
                    == "glm_vl: aligned dimension overflow"@,
            },
    {
        let q: usize = value / self.factor;
        let r: usize = value % self.factor;
        proof {
            lemma_round_up(value as int, self.factor as int);
        }
        let blocks: usize = if r == 0 {
            q
        } else {
            q + 1
        };
        match blocks.checked_mul(self.factor) {
            Some(n) => Ok(n),
            None => Err(String::from_str("glm_vl: aligned dimension overflow")),
        }
    }

    /// The pixels of all frames, as far as they can be counted.
    pub fn frame_pixels(&self, h: usize, w: usize) -> (n: u128)
        ensures
            n == self.budget(h as int, w as int),
    {
        proof {
            lemma_product_fits(self.frames, h);
        }
        match (self.frames as u128 * h as u128).checked_mul(w as u128) {
            Some(n) => n,
            None => u128::MAX,
        }
    }
}

proof fn lemma_product_fits(a: usize, b: usize)
    ensures
        0 <= a * b <= 0xffff_ffff_ffff_ffff * 0xffff_ffff_ffff_ffff,
        a * b <= u128::MAX,
{
    assert(0 <= a * b <= 0xffff_ffff_ffff_ffff * 0xffff_ffff_ffff_ffff) by (nonlinear_arith)
        requires
            0 <= a <= 0xffff_ffff_ffff_ffff,
            0 <= b <= 0xffff_ffff_ffff_ffff,
    ;
}

/// Rounding a quotient up is adding one where there is a rest.
proof fn lemma_round_up(n: int, d: int)
    requires
        0 <= n,
        0 < d,
    ensures
        n % d == 0 ==> (n + d - 1) / d == n / d,
        n % d != 0 ==> (n + d - 1) / d == n / d + 1,
        n % d != 0 ==> n / d + 1 <= n,
{
    let q = n / d;
    let r = n % d;
    vstd::arithmetic::div_mod::lemma_fundamental_div_mod(n, d);
    vstd::arithmetic::div_mod::lemma_mod_bound(n, d);
    vstd::arithmetic::div_mod::lemma_div_pos_is_pos(n, d);
    vstd::arithmetic::mul::lemma_mul_is_commutative(d, q);
    if r == 0 {
        vstd::arithmetic::div_mod::lemma_fundamental_div_mod_converse(n + d - 1, d, q, d - 1);
    } else {
        vstd::arithmetic::mul::lemma_mul_is_distributive_add_other_way(d, q, 1);
        vstd::arithmetic::div_mod::lemma_fundamental_div_mod_converse(n + d - 1, d, q + 1, r - 1);
        assert(q <= q * d) by (nonlinear_arith)
            requires
                0 <= q,
                1 <= d,
        ;
    }
}

impl CanvasRules {
    /// By how much the sides are multiplied to reach the least number of
    /// pixels, in binary64.
    pub open spec fn raise(self, h: int, w: int) -> real {
        let rows = crate::binary64::nearest(
            crate::binary64::double(self.frames as int) * crate::binary64::double(h),
        ).value();
        let pixels = crate::binary64::nearest(rows * crate::binary64::double(w)).value();
        let lack = crate::binary64::nearest(
            crate::binary64::double(self.min_pixels as int) / pixels,
        ).value();
        crate::binary64::nearest_root(lack).value()
    }

    /// The width that goes with the height `mid` of an image of `h` by `w`
    /// pixels.
    pub open spec fn width_at(self, h: int, w: int, mid: int) -> int {
        if w * mid / h >= 1 {
            w * mid / h
        } else {
            1
        }
    }

    /// Whether the image fits the budget at the height `mid`.
    pub open spec fn fits(self, h: int, w: int, mid: int) -> bool {
        self.budget(self.aligned(mid), self.aligned(self.width_at(h, w, mid))) <= self.max_pixels
    }

    /// Whether `mid` is the largest height, up to the image's own, at which the
    /// image fits.
    pub open spec fn is_tallest(self, h: int, w: int, mid: int) -> bool {
        &&& 1 <= mid <= h
        &&& self.fits(h, w, mid)
        &&& forall|k: int| mid < k <= h ==> !#[trigger] self.fits(h, w, k)
    }

    /// The canvas of an image that is too large: as tall as the budget allows,
    /// or the smallest one.
    pub open spec fn searched(self, h: int, w: int) -> (int, int) {
        if exists|mid: int| self.is_tallest(h, w, mid) {
            let mid = choose|mid: int| self.is_tallest(h, w, mid);
            (self.aligned(mid), self.aligned(self.width_at(h, w, mid)))
        } else {
            (self.factor as int, self.factor as int)
        }
    }

    /// Whether the aligned image has too few pixels.
    pub open spec fn too_small(self, h: int, w: int) -> bool {
        self.budget(self.aligned(h), self.aligned(w)) < self.min_pixels
    }

    /// The canvas before it is held to the largest number of pixels.
    pub open spec fn raised(self, h: int, w: int) -> (int, int) {
        if self.too_small(h, w) {
            let scale = self.raise(h, w);
            (self.aligned(raised_side(h, scale)), self.aligned(raised_side(w, scale)))
        } else {
            (self.aligned(h), self.aligned(w))
        }
    }

    /// Whether some side of the canvas is not a `usize`.
    pub open spec fn overflows(self, h: int, w: int) -> bool {
        ||| self.aligned(h) > usize::MAX
        ||| self.aligned(w) > usize::MAX
        ||| self.raised(h, w).0 > usize::MAX
        ||| self.raised(h, w).1 > usize::MAX
    }

    /// The canvas of an image of `h` by `w` pixels.
    pub open spec fn canvas(self, h: int, w: int) -> (int, int) {
        let (ch, cw) = self.raised(h, w);
        if self.budget(ch, cw) > self.max_pixels {
            self.searched(h, w)
        } else {
            (ch, cw)
        }
    }

    /// By how much the content is scaled to fill the canvas, in binary64. An
    /// image that has enough pixels is not enlarged.
    pub open spec fn content_scale(self, h: int, w: int) -> real {
        let (ch, cw) = self.canvas(h, w);
        let down = crate::binary64::nearest(
            crate::binary64::double(ch) / crate::binary64::double(h),
        ).value();
        let across = crate::binary64::nearest(
            crate::binary64::double(cw) / crate::binary64::double(w),
        ).value();
        let scale = if across < down {
            across
        } else {
            down
        };
        if self.budget(h, w) >= self.min_pixels && 1real < scale {
            1real
        } else {
            scale
        }
    }

    /// The sizes that an image is given.
    pub open spec fn sizes(self, h: int, w: int) -> GlmResize {
        let (ch, cw) = self.canvas(h, w);
        let scale = self.content_scale(h, w);
        GlmResize {
            canvas_h: ch as usize,
            canvas_w: cw as usize,
            content_h: content_side(h, scale, ch) as usize,
            content_w: content_side(w, scale, cw) as usize,
        }
    }
}

/// A side multiplied by `scale` and rounded up, in binary64.
pub open spec fn raised_side(n: int, scale: real) -> int {
    let side = crate::binary64::saturate(
        crate::binary64::ceil(
            crate::binary64::nearest(crate::binary64::double(n) * scale).value(),
        ),
    );
    if side >= 1 {
        side
    } else {
        1
    }
}

/// A side multiplied by `scale` and rounded down, in binary64, but neither 0 nor
/// larger than the canvas.
pub open spec fn content_side(n: int, scale: real, canvas: int) -> int {
    let side = crate::binary64::saturate(
        crate::binary64::floor(
            crate::binary64::nearest(crate::binary64::double(n) * scale).value(),
        ),
    );
    if side < 1 {
        1
    } else if side > canvas {
        canvas
    } else {
        side
    }
}

/// Aligning keeps the order.
pub proof fn lemma_aligned_order(rules: CanvasRules, a: int, b: int)
    requires
        0 < rules.factor,
        0 <= a <= b,
    ensures
        rules.aligned(a) <= rules.aligned(b),
        a <= rules.aligned(a) < a + rules.factor,
        rules.aligned(a) % (rules.factor as int) == 0,
{
    let f = rules.factor as int;
    let x = (a + f - 1) / f;
    let y = (b + f - 1) / f;
    vstd::arithmetic::div_mod::lemma_div_is_ordered(a + f - 1, b + f - 1, f);
    vstd::arithmetic::mul::lemma_mul_inequality(x, y, f);
    vstd::arithmetic::div_mod::lemma_mod_multiples_basic(x, f);
    vstd::arithmetic::div_mod::lemma_fundamental_div_mod(a + f - 1, f);
    vstd::arithmetic::div_mod::lemma_mod_bound(a + f - 1, f);
    vstd::arithmetic::mul::lemma_mul_is_commutative(f, x);
}

/// The more rows and columns, the more pixels.
proof fn lemma_budget_order(rules: CanvasRules, a: int, b: int, c: int, d: int)
    requires
        0 <= a <= c,
        0 <= b <= d,
    ensures
        0 <= rules.budget(a, b) <= rules.budget(c, d),
{
    let f = rules.frames as int;
    assert(0 <= f * a * b <= f * c * d) by (nonlinear_arith)
        requires
            0 <= f,
            0 <= a <= c,
            0 <= b <= d,
    ;
}

/// What fits at some height fits at every smaller one.
proof fn lemma_fits_below(rules: CanvasRules, h: int, w: int, a: int, b: int)
    requires
        0 < rules.factor,
        0 < h,
        0 < w,
        1 <= a <= b,
        rules.fits(h, w, b),
    ensures
        rules.fits(h, w, a),
{
    lemma_width_order(rules, h, w, a, b);
    lemma_aligned_order(rules, a, b);
    lemma_aligned_order(rules, rules.width_at(h, w, a), rules.width_at(h, w, b));
    lemma_budget_order(
        rules,
        rules.aligned(a),
        rules.aligned(rules.width_at(h, w, a)),
        rules.aligned(b),
        rules.aligned(rules.width_at(h, w, b)),
    );
}

/// The width goes with the height, and is the image's own at its own height.
pub proof fn lemma_width_order(rules: CanvasRules, h: int, w: int, a: int, b: int)
    requires
        0 < h,
        0 < w,
        1 <= a <= b,
    ensures
        1 <= rules.width_at(h, w, a) <= rules.width_at(h, w, b),
        0 <= w * a / h,
        rules.width_at(h, w, h) == w,
{
    vstd::arithmetic::mul::lemma_mul_inequality(a, b, w);
    vstd::arithmetic::mul::lemma_mul_is_commutative(a, w);
    vstd::arithmetic::mul::lemma_mul_is_commutative(b, w);
    vstd::arithmetic::mul::lemma_mul_nonnegative(w, a);
    vstd::arithmetic::div_mod::lemma_div_is_ordered(w * a, w * b, h);
    vstd::arithmetic::div_mod::lemma_div_pos_is_pos(w * a, h);
    vstd::arithmetic::div_mod::lemma_div_by_multiple(w, h);
}

/// There is only one largest height.
proof fn lemma_tallest(rules: CanvasRules, h: int, w: int, mid: int)
    requires
        rules.is_tallest(h, w, mid),
    ensures
        rules.searched(h, w) == (rules.aligned(mid), rules.aligned(rules.width_at(h, w, mid))),
{
    let m = choose|m: int| rules.is_tallest(h, w, m);
    assert(rules.is_tallest(h, w, m));
    if m < mid {
        assert(!rules.fits(h, w, mid));
    } else if mid < m {
        assert(!rules.fits(h, w, m));
    }
}

impl CanvasRules {
    /// The canvas of an image that is too large.
    fn search(&self, height: usize, width: usize) -> (canvas: (usize, usize))
        requires
            self.wf(),
            0 < height,
            0 < width,
            self.aligned(height as int) <= usize::MAX,
            self.aligned(width as int) <= usize::MAX,
        ensures
            canvas.0 == self.searched(height as int, width as int).0,
            canvas.1 == self.searched(height as int, width as int).1,
    {
        let ghost h = height as int;
        let ghost w = width as int;
        let mut canvas: (usize, usize) = (self.factor, self.factor);
        let mut below: usize = 0;
        let mut high: usize = height;
        while below < high
            invariant
                self.wf(),
                h == height,
                w == width,
                0 < h,
                0 < w,
                self.aligned(h) <= usize::MAX,
                self.aligned(w) <= usize::MAX,
                0 <= below <= high <= h,
                below == 0 ==> canvas == (self.factor, self.factor),
                below > 0 ==> {
                    &&& self.fits(h, w, below as int)
                    &&& canvas.0 == self.aligned(below as int)
                    &&& canvas.1 == self.aligned(self.width_at(h, w, below as int))
                },
                forall|k: int| high < k <= h ==> !#[trigger] self.fits(h, w, k),
            decreases high - below,
        {
            let mid: usize = below + 1 + (high - below - 1) / 2;
            proof {
                lemma_product_fits(width, mid);
                lemma_width_order(*self, h, w, mid as int, h);
                lemma_aligned_order(*self, mid as int, h);
                lemma_aligned_order(*self, self.width_at(h, w, mid as int), w);
            }
            let quotient: u128 = (width as u128 * mid as u128) / height as u128;
            let content_w: usize = if quotient >= 1 {
                quotient as usize
            } else {
                1
            };
            let candidate_h: usize = self.aligned_side(mid);
            let candidate_w: usize = self.aligned_side(content_w);
            if self.frame_pixels(candidate_h, candidate_w) <= self.max_pixels {
                canvas = (candidate_h, candidate_w);
                below = mid;
            } else {
                proof {
                    assert forall|k: int| mid <= k <= h implies !#[trigger] self.fits(h, w, k) by {
                        if self.fits(h, w, k) {
                            lemma_fits_below(*self, h, w, mid as int, k);
                        }
                    }
                }
                high = mid - 1;
            }
        }
        proof {
            if below > 0 {
                assert(self.is_tallest(h, w, below as int));
                lemma_tallest(*self, h, w, below as int);
            } else {
                assert forall|m: int| !self.is_tallest(h, w, m) by {
                    if self.is_tallest(h, w, m) {
                        assert(self.fits(h, w, m));
                    }
                }
            }
        }
        canvas
    }

    /// The multiple of `factor` at or above `value`, where there is one.
    fn aligned_side(&self, value: usize) -> (n: usize)
        requires
            self.wf(),
            self.aligned(value as int) <= usize::MAX,
        ensures
            n == self.aligned(value as int),
    {
        match self.align(value) {
            Ok(n) => n,
            Err(_) => 0,
        }
    }

    /// By how much the sides are multiplied to reach the least number of pixels.
    fn raise_scale(&self, height: usize, width: usize) -> (scale: Binary64)
        requires
            self.wf(),
            0 < height,
            0 < width,
        ensures
            scale.wf(),
            scale.value() == self.raise(height as int, width as int),
            -300 <= scale.exp <= 100,
    {
        let frames = Binary64::from_int(self.frames as u128);
        let h = Binary64::from_int(height as u128);
        let w = Binary64::from_int(width as u128);
        let pixels = frames.mul(h).mul(w);
        let least = Binary64::from_int(self.min_pixels);
        least.div(pixels).sqrt()
    }

    /// Canvas and content of an image.
    pub fn resize_geometry(&self, height: usize, width: usize) -> (result: Result<
        GlmResize,
        String,
    >)
        requires
            self.wf(),
        ensures
            self.is_geometry(height, width, result),
    {
        if height == 0 || width == 0 {
            return Err(String::from_str("glm_vl: empty image"));
        }
        let ghost h = height as int;
        let ghost w = width as int;
        let mut ch: usize = match self.align(height) {
            Ok(n) => n,
            Err(e) => return Err(e),
        };
        let mut cw: usize = match self.align(width) {
            Ok(n) => n,
            Err(e) => return Err(e),
        };
        if self.frame_pixels(ch, cw) < self.min_pixels {
            let scale = self.raise_scale(height, width);
            ch = match self.align(raise_side(height, scale)) {
                Ok(n) => n,
                Err(e) => return Err(e),
            };
            cw = match self.align(raise_side(width, scale)) {
                Ok(n) => n,
                Err(e) => return Err(e),
            };
        }
        if self.frame_pixels(ch, cw) > self.max_pixels {
            let canvas = self.search(height, width);
            ch = canvas.0;
            cw = canvas.1;
        }
        proof {
            law_canvas(*self, h, w);
        }
        let hd = Binary64::from_int(height as u128);
        let wd = Binary64::from_int(width as u128);
        let down = Binary64::from_int(ch as u128).div(hd);
        let across = Binary64::from_int(cw as u128).div(wd);
        let mut scale = down.min(across);
        if self.frame_pixels(height, width) >= self.min_pixels {
            scale = scale.min(Binary64::from_int(1));
        }
        let content_h: usize = shrink_into(hd.mul(scale).floor_to_usize(), ch);
        let content_w: usize = shrink_into(wd.mul(scale).floor_to_usize(), cw);
        Ok(GlmResize { canvas_h: ch, canvas_w: cw, content_h, content_w })
    }

    /// Whether `result` holds the sizes of an image, or the message of its
    /// refusal.
    pub open spec fn is_geometry(
        self,
        height: usize,
        width: usize,
        result: Result<GlmResize, String>,
    ) -> bool {
        let h = height as int;
        let w = width as int;
        match result {
            Ok(sizes) => {
                &&& 0 < height
                &&& 0 < width
                &&& !self.overflows(h, w)
                &&& sizes == self.sizes(h, w)
            },
            Err(e) => if height == 0 || width == 0 {
                e@ == "glm_vl: empty image"@
            } else {
                self.overflows(h, w) && e@ == "glm_vl: aligned dimension overflow"@
            },
        }
    }
}

/// An aligned side is at least one unit of alignment.
proof fn lemma_aligned_unit(rules: CanvasRules, n: int)
    requires
        0 < rules.factor,
        1 <= n,
    ensures
        rules.factor <= rules.aligned(n),
        rules.aligned(n) % (rules.factor as int) == 0,
{
    let f = rules.factor as int;
    lemma_aligned_order(rules, 1, n);
    vstd::arithmetic::div_mod::lemma_div_by_self(f);
    vstd::arithmetic::mul::lemma_mul_basics(f);
    vstd::arithmetic::div_mod::lemma_mod_multiples_basic((n + f - 1) / f, f);
}

/// The sides of a canvas are multiples of the factor, at least one, and the
/// canvas never has more pixels than allowed.
pub proof fn law_canvas(rules: CanvasRules, h: int, w: int)
    requires
        rules.wf(),
        0 < h,
        0 < w,
    ensures
        ({
            let (ch, cw) = rules.canvas(h, w);
            &&& rules.factor <= ch
            &&& rules.factor <= cw
            &&& ch % (rules.factor as int) == 0
            &&& cw % (rules.factor as int) == 0
            &&& rules.budget(ch, cw) <= rules.max_pixels
            &&& rules.max_pixels < u128::MAX ==> rules.frames * ch * cw <= rules.max_pixels
        }),
{
    let (ch, cw) = rules.raised(h, w);
    lemma_aligned_unit(rules, h);
    lemma_aligned_unit(rules, w);
    lemma_aligned_unit(rules, raised_side(h, rules.raise(h, w)));
    lemma_aligned_unit(rules, raised_side(w, rules.raise(h, w)));
    if rules.budget(ch, cw) > rules.max_pixels {
        if exists|mid: int| rules.is_tallest(h, w, mid) {
            let mid = choose|mid: int| rules.is_tallest(h, w, mid);
            lemma_aligned_unit(rules, mid);
            lemma_aligned_unit(rules, rules.width_at(h, w, mid));
        } else {
            vstd::arithmetic::div_mod::lemma_mod_self_0(rules.factor as int);
        }
    }
}

/// A side multiplied by `scale` and rounded up.
fn raise_side(n: usize, scale: Binary64) -> (side: usize)
    requires
        0 < n,
        scale.wf(),
        -300 <= scale.exp <= 100,
    ensures
        side == raised_side(n as int, scale.value()),
        1 <= side,
{
    let side: usize = Binary64::from_int(n as u128).mul(scale).ceil_to_usize();
    if side >= 1 {
        side
    } else {
        1
    }
}

/// A side of the content inside a side of the canvas.
fn shrink_into(side: usize, canvas: usize) -> (n: usize)
    requires
        1 <= canvas,
    ensures
        n == (if side < 1 {
            1
        } else if side > canvas {
            canvas
        } else {
            side
        }),
{
    if side < 1 {
        1
    } else if side > canvas {
        canvas
    } else {
        side
    }
}

/// The content is not empty and stands inside the canvas.
pub proof fn law_content_in_canvas(rules: CanvasRules, h: int, w: int)
    requires
        rules.wf(),
        0 < h,
        0 < w,
        !rules.overflows(h, w),
    ensures
        ({
            let sizes = rules.sizes(h, w);
            &&& rules.canvas(h, w) == (sizes.canvas_h as int, sizes.canvas_w as int)
            &&& 1 <= sizes.content_h <= sizes.canvas_h
            &&& 1 <= sizes.content_w <= sizes.canvas_w
        }),
{
    law_canvas(rules, h, w);
    lemma_canvas_fits(rules, h, w);
}

/// Where no side overflows, the canvas' sides are `usize` numbers.
pub proof fn lemma_canvas_fits(rules: CanvasRules, h: int, w: int)
    requires
        rules.wf(),
        0 < h,
        0 < w,
        !rules.overflows(h, w),
    ensures
        rules.canvas(h, w).0 <= usize::MAX,
        rules.canvas(h, w).1 <= usize::MAX,
{
    let (ch, cw) = rules.raised(h, w);
    if rules.budget(ch, cw) > rules.max_pixels {
        if exists|mid: int| rules.is_tallest(h, w, mid) {
            let mid = choose|mid: int| rules.is_tallest(h, w, mid);
            lemma_width_order(rules, h, w, mid, h);
            lemma_aligned_order(rules, mid, h);
            lemma_aligned_order(rules, rules.width_at(h, w, mid), w);
        }
    }
}

/// The quotient of two positive integers is in the normal range, and not below 1
/// where the first is not below the second, which is exact in binary64.
proof fn lemma_ratio_at_least_one(a: int, b: int)
    requires
        0 < b <= a <= u64::MAX,
        crate::binary64::double(b) == b as real,
    ensures
        crate::binary64::nearest(crate::binary64::double(a) / crate::binary64::double(b)).value()
            >= 1real,
{
    crate::binary64::lemma_nearest_of_int(a);
    crate::binary64::lemma_nearest_of_int(b);
    crate::binary64::lemma_int_exact(1);
    let x = crate::binary64::double(a);
    let y = b as real;
    crate::binary64::lemma_nearest_order(
        b as real,
        crate::binary64::nearest(b as real),
        a as real,
        crate::binary64::nearest(a as real),
    );
    crate::binary64::lemma_within_twice(a as real, crate::binary64::nearest(a as real));
    let q = x / y;
    assert(q >= 1real) by (nonlinear_arith)
        requires
            q == x / y,
            x >= y,
            y > 0real,
    ;
    assert(q <= x) by (nonlinear_arith)
        requires
            q == x / y,
            x >= y,
            y >= 1real,
    ;
    crate::binary64::lemma_p2_64();
    crate::binary64::lemma_nearest_exists(q, 0, 128);
    crate::binary64::lemma_nearest_exact(crate::binary64::nearest(1real));
    crate::binary64::lemma_nearest_order(
        1real,
        crate::binary64::nearest(1real),
        q,
        crate::binary64::nearest(q),
    );
}

/// An image that has enough pixels, and not too many once it is aligned, keeps
/// its size: it is only padded. The sides must be numbers of binary64, as all
/// integers up to `2^53` are.
pub proof fn law_fitting_image_keeps_its_size(rules: CanvasRules, h: int, w: int)
    requires
        rules.wf(),
        0 < h <= usize::MAX,
        0 < w <= usize::MAX,
        !rules.overflows(h, w),
        rules.min_pixels <= rules.budget(h, w),
        rules.budget(rules.aligned(h), rules.aligned(w)) <= rules.max_pixels,
        crate::binary64::double(h) == h as real,
        crate::binary64::double(w) == w as real,
    ensures
        rules.canvas(h, w) == (rules.aligned(h), rules.aligned(w)),
        rules.sizes(h, w).content_h == h,
        rules.sizes(h, w).content_w == w,
{
    lemma_aligned_order(rules, h, h);
    lemma_aligned_order(rules, w, w);
    lemma_budget_order(rules, h, w, rules.aligned(h), rules.aligned(w));
    lemma_ratio_at_least_one(rules.aligned(h), h);
    lemma_ratio_at_least_one(rules.aligned(w), w);
    assert(rules.content_scale(h, w) == 1real);
    lemma_content_of_one(h, rules.aligned(h));
    lemma_content_of_one(w, rules.aligned(w));
}

proof fn lemma_content_of_one(n: int, canvas: int)
    requires
        0 < n <= usize::MAX,
        n <= canvas,
        crate::binary64::double(n) == n as real,
    ensures
        content_side(n, 1real, canvas) == n,
{
    crate::binary64::lemma_nearest_of_int(n);
    crate::binary64::lemma_nearest_exact(crate::binary64::nearest(n as real));
    assert(crate::binary64::double(n) * 1real == n as real);
    crate::binary64::lemma_floor(n as real, n);
}

/// A product of positive integers bounds its factors.
proof fn lemma_factors_below(a: int, b: int, c: int, bound: int)
    requires
        0 < a,
        0 < b,
        0 < c,
        a * b * c < bound,
    ensures
        a < bound,
        b < bound,
        c < bound,
        0 < a * b < bound,
        a * b <= a * b * c,
{
    assert(0 < a * b && a * b <= a * b * c && a <= a * b && b <= a * b && c <= a * b * c)
        by (nonlinear_arith)
        requires
            0 < a,
            0 < b,
            0 < c,
    ;
}

/// A raised side, up to one rounding, is not below the exact one.
proof fn lemma_raised_side(n: int, beta: real)
    requires
        0 < n < crate::binary64::MANT_MIN,
        1real / 2real <= beta <= 4503599627370496real,
    ensures
        1 <= raised_side(n, beta) <= usize::MAX,
        raised_side(n, beta) == usize::MAX || n as real * beta <= raised_side(n, beta) as real
            * crate::rounding_slack::slack(),
{
    crate::binary64::lemma_int_exact(n);
    let r = n as real * beta;
    assert(1real / 2real <= r && r <= 4503599627370496real * 4503599627370496real)
        by (nonlinear_arith)
        requires
            r == n as real * beta,
            1 <= n <= 4503599627370496,
            1real / 2real <= beta <= 4503599627370496real,
    ;
    crate::binary64::lemma_p2_64();
    crate::binary64::lemma_p2_step(-1);
    assert(crate::binary64::p2(0) == 1real);
    crate::binary64::lemma_nearest_exists(r, -1, 128);
    let x = crate::binary64::nearest(r);
    crate::rounding_slack::lemma_slack(r, x);
    crate::binary64::lemma_floor_of_number(x);
    let v = x.value();
    let g = crate::rounding_slack::slack();
    let side = raised_side(n, beta);
    if side != usize::MAX {
        let s = side as real;
        assert(v <= s);
        assert(v * g <= s * g) by (nonlinear_arith)
            requires
                v <= s,
                g > 0real,
        ;
    }
}

/// The raised sides of an image that is too small have enough pixels.
proof fn lemma_raised_pixels(rules: CanvasRules, h: int, w: int)
    requires
        rules.wf(),
        0 < h,
        0 < w,
        rules.too_small(h, w),
        rules.min_pixels <= crate::rounding_slack::EXACT_BUDGET,
        rules.min_pixels <= usize::MAX,
    ensures
        ({
            let rh = raised_side(h, rules.raise(h, w));
            let rw = raised_side(w, rules.raise(h, w));
            &&& 1 <= rh
            &&& 1 <= rw
            &&& rules.min_pixels <= rules.frames * rh * rw
        }),
{
    let f = rules.frames as int;
    let p = rules.min_pixels as int;
    let g = crate::rounding_slack::slack();
    lemma_aligned_order(rules, h, h);
    lemma_aligned_order(rules, w, w);
    lemma_budget_order(rules, h, w, rules.aligned(h), rules.aligned(w));
    lemma_factors_below(f, h, w, p);
    let area = f * h * w;
    crate::binary64::lemma_int_exact(f);
    crate::binary64::lemma_int_exact(h);
    crate::binary64::lemma_int_exact(w);
    crate::binary64::lemma_int_exact(f * h);
    crate::binary64::lemma_int_exact(area);
    crate::binary64::lemma_int_exact(p);
    crate::binary64::lemma_product_as_real(f, h);
    crate::binary64::lemma_product_as_real(f * h, w);
    let q = p as real / area as real;
    let pr = p as real;
    let ar = area as real;
    assert(1real <= q && q <= pr) by (nonlinear_arith)
        requires
            q == pr / ar,
            1real <= ar <= pr,
    ;
    crate::binary64::lemma_p2_64();
    crate::binary64::lemma_nearest_exists(q, 0, 64);
    let lack = crate::binary64::nearest(q);
    crate::rounding_slack::lemma_slack(q, lack);
    crate::binary64::lemma_within_twice(q, lack);
    crate::binary64::lemma_int_exact(1);
    crate::binary64::lemma_nearest_exact(crate::binary64::nearest(1real));
    crate::binary64::lemma_nearest_order(1real, crate::binary64::nearest(1real), q, lack);
    crate::rounding_slack::lemma_quotient_slack(pr, ar, lack.value());
    crate::binary64::lemma_root_exists(lack);
    let root = crate::binary64::nearest_root(lack.value());
    crate::rounding_slack::lemma_root_slack(lack.value(), root);
    crate::binary64::lemma_root_within(lack.value(), root);
    let beta = root.value();
    assert(beta == rules.raise(h, w));
    let l = lack.value();
    assert(1real / 2real <= beta && beta <= 4503599627370496real) by (nonlinear_arith)
        requires
            1real <= l <= 2251799813685248real,
            l < 4real * (beta * beta),
            beta * beta < 4real * l,
            beta > 0real,
    ;
    let rh = raised_side(h, beta);
    let rw = raised_side(w, beta);
    lemma_raised_side(h, beta);
    lemma_raised_side(w, beta);
    if rh == usize::MAX || rw == usize::MAX {
        assert(p <= f * rh * rw) by (nonlinear_arith)
            requires
                1 <= f,
                1 <= rh,
                1 <= rw,
                p <= rh || p <= rw,
        ;
    } else {
        lemma_raised_product(f, h, w, p, l, beta, rh, rw);
    }
}

proof fn lemma_raised_product(
    f: int,
    h: int,
    w: int,
    p: int,
    lack: real,
    beta: real,
    rh: int,
    rw: int,
)
    requires
        0 < f,
        0 < h,
        0 < w,
        0 < p <= crate::rounding_slack::EXACT_BUDGET,
        0real < lack,
        0real < beta,
        1 <= rh,
        1 <= rw,
        p as real <= (lack * ((f * h * w) as real)) * crate::rounding_slack::slack(),
        lack <= (beta * beta) * (crate::rounding_slack::slack() * crate::rounding_slack::slack()),
        h as real * beta <= rh as real * crate::rounding_slack::slack(),
        w as real * beta <= rw as real * crate::rounding_slack::slack(),
    ensures
        p <= f * rh * rw,
{
    let g = crate::rounding_slack::slack();
    let fr = f as real;
    let hr = h as real;
    let wr = w as real;
    let x = rh as real;
    let y = rw as real;
    let rows = (f * h) as real;
    let high = (f * rh) as real;
    let area = (f * h * w) as real;
    crate::binary64::lemma_product_as_real(f, h);
    crate::binary64::lemma_product_as_real(f * h, w);
    crate::binary64::lemma_product_as_real(f, rh);
    crate::binary64::lemma_product_as_real(f * rh, rw);
    assert(0real < rows && 0real < high && 0real < area) by (nonlinear_arith)
        requires
            rows == fr * hr,
            high == fr * x,
            area == rows * wr,
            fr >= 1real,
            hr >= 1real,
            wr >= 1real,
            x >= 1real,
    ;
    assert(g > 1real);
    assert(area <= (rows * wr) * g) by (nonlinear_arith)
        requires
            area == rows * wr,
            area > 0real,
            g > 1real,
    ;
    let hb = hr * beta;
    let xg = x * g;
    assert(fr * hb <= fr * xg) by (nonlinear_arith)
        requires
            hb <= xg,
            fr >= 1real,
    ;
    assert(fr * hb == rows * beta) by (nonlinear_arith)
        requires
            hb == hr * beta,
            rows == fr * hr,
    ;
    assert(fr * xg == high * g) by (nonlinear_arith)
        requires
            xg == x * g,
            high == fr * x,
    ;
    assert(high * g <= high * (g * g) && y * g <= y * (g * g)) by (nonlinear_arith)
        requires
            high > 0real,
            y >= 1real,
            g > 1real,
    ;
    crate::rounding_slack::lemma_stretched_budget(
        rows,
        wr,
        p as real,
        area,
        lack,
        beta,
        high,
        y,
    );
    let c = f * rh * rw;
    if c < p {
        assert(0 <= c) by (nonlinear_arith)
            requires
                c == f * rh * rw,
                0 < f,
                1 <= rh,
                1 <= rw,
        ;
        crate::rounding_slack::lemma_eight_slacks(c);
    }
}

/// A canvas that was not cut down reaches the least number of pixels, as long as that
/// is at most `EXACT_BUDGET`: above it rounding can cost a pixel.
pub proof fn law_least_pixels(rules: CanvasRules, h: int, w: int)
    requires
        rules.wf(),
        0 < h <= usize::MAX,
        0 < w <= usize::MAX,
        rules.budget(rules.raised(h, w).0, rules.raised(h, w).1) <= rules.max_pixels,
        rules.min_pixels <= crate::rounding_slack::EXACT_BUDGET,
        rules.min_pixels <= usize::MAX,
    ensures
        rules.min_pixels <= rules.budget(rules.canvas(h, w).0, rules.canvas(h, w).1),
{
    if rules.too_small(h, w) {
        let scale = rules.raise(h, w);
        let rh = raised_side(h, scale);
        let rw = raised_side(w, scale);
        lemma_raised_pixels(rules, h, w);
        lemma_aligned_order(rules, rh, rh);
        lemma_aligned_order(rules, rw, rw);
        let f = rules.frames as int;
        assert(f * rh * rw <= f * rules.aligned(rh) * rules.aligned(rw)) by (nonlinear_arith)
            requires
                0 <= f,
                0 <= rh <= rules.aligned(rh),
                0 <= rw <= rules.aligned(rw),
        ;
    }
}

}
