//! GLM VL family: an aligned canvas with padding at the right and bottom, in
//! which the content is resized on its own.
use crate::binary32::Binary32;
use crate::common::grid::{image_item, normalize_lut, Lut};
use crate::common::placement::{mrope_output, place};
use crate::common::resize::Resample;
use crate::common::token_layout::layout_by_placeholder;
use crate::pipeline::{
    Capabilities, DecodedMedia, Geometry, PositionOutput, ProcessedItem, TokenLayout,
};
use crate::qwen_vl::Resampler;
use vstd::prelude::*;
use vstd::string::StringExecFns;

pub mod alpha;
pub mod decode;
pub mod geometry;
pub mod padding;

pub use alpha::composite_alpha;
pub use decode::{DecodeError, StoredImage};
pub use geometry::{CanvasRules, GlmResize};
use padding::pad;

verus! {

/// Parameters of a processor.
#[derive(Clone, Copy, Debug, PartialEq, Eq)]
pub struct GlmVlSpec {
    pub image_token_id: i32,
    pub image_start_token_id: i32,
    pub image_end_token_id: i32,
    pub video_start_token_id: i32,
    pub video_end_token_id: i32,
    pub patch_size: usize,
    pub merge_size: usize,
    pub temporal_patch_size: usize,
    pub patch_expand_factor: usize,
    pub min_image_tokens: usize,
    pub max_image_tokens: usize,
    pub image_mean: [Binary32; 3],
    pub image_std: [Binary32; 3],
    pub resample: Resampler,
}

impl GlmVlSpec {
    /// All sizes and budgets are positive, and the budgets are ordered.
    pub open spec fn sizes_valid(self) -> bool {
        &&& 0 < self.patch_size
        &&& 0 < self.merge_size
        &&& 0 < self.temporal_patch_size
        &&& 0 < self.patch_expand_factor
        &&& 0 < self.min_image_tokens <= self.max_image_tokens
    }

    /// The bytes of channel `c` can be normalized with mean and deviation.
    pub open spec fn channel_valid(self, c: int) -> bool {
        self.image_std@[c].finite() && !self.image_std@[c].zero() && self.image_mean@[c].finite()
    }

    /// Bytes can be normalized with mean and deviation.
    pub open spec fn numbers_valid(self) -> bool {
        forall|c: int| 0 <= c < 3 ==> #[trigger] self.channel_valid(c)
    }

    /// The side of a token, in pixels.
    pub open spec fn token_side(self) -> int {
        self.patch_size * self.merge_size
    }

    /// What the sides of a canvas are multiples of.
    pub open spec fn side_factor(self) -> int {
        self.patch_size * self.merge_size * self.patch_expand_factor
    }

    /// The pixels of a token, in all frames.
    pub open spec fn token_pixels(self) -> int {
        self.temporal_patch_size * self.token_side() * self.token_side()
    }

    /// The pixels of the smallest canvas, in all frames.
    pub open spec fn smallest_canvas(self) -> int {
        self.temporal_patch_size * self.side_factor() * self.side_factor()
    }

    /// Why there is no processor with these parameters.
    pub open spec fn error(self) -> Option<Seq<char>> {
        if !self.sizes_valid() {
            Some("glm_vl spec: sizes and token budgets must be positive and ordered"@)
        } else if !self.numbers_valid() {
            Some("glm_vl spec: mean/std must be finite and std nonzero"@)
        } else if self.resample == Resampler::Pil && self.patch_expand_factor != 1 {
            Some("glm_vl spec: PIL backend requires patch_expand_factor=1"@)
        } else if self.side_factor() > usize::MAX {
            Some("glm_vl spec: factor overflow"@)
        } else if self.token_pixels() > u128::MAX {
            Some("glm_vl spec: pixel budget overflow"@)
        } else if self.min_image_tokens * self.token_pixels() > u128::MAX {
            Some("glm_vl spec: minimum pixel budget overflow"@)
        } else if self.max_image_tokens * self.token_pixels() > u128::MAX {
            Some("glm_vl spec: maximum pixel budget overflow"@)
        } else if self.smallest_canvas() > u128::MAX {
            Some("glm_vl spec: minimum canvas overflow"@)
        } else if self.max_image_tokens * self.token_pixels() < self.smallest_canvas() {
            Some("glm_vl spec: max_image_tokens cannot fit the minimum canvas"@)
        } else {
            None
        }
    }

    /// The rules that canvases keep to.
    pub open spec fn canvas_rules(self) -> CanvasRules {
        CanvasRules {
            factor: self.side_factor() as usize,
            frames: self.temporal_patch_size,
            min_pixels: (self.min_image_tokens * self.token_pixels()) as u128,
            max_pixels: (self.max_image_tokens * self.token_pixels()) as u128,
        }
    }

    /// Whether bytes can be normalized with mean and deviation.
    fn has_valid_numbers(&self) -> (b: bool)
        ensures
            b == self.numbers_valid(),
    {
        let mut c: usize = 0;
        while c < 3
            invariant
                c <= 3,
                forall|i: int| 0 <= i < c ==> #[trigger] self.channel_valid(i),
            decreases 3 - c,
        {
            if !self.image_std[c].is_finite() || self.image_std[c].is_zero()
                || !self.image_mean[c].is_finite() {
                assert(!self.channel_valid(c as int));
                return false;
            }
            c = c + 1;
        }
        true
    }
}

proof fn lemma_positive_product(a: int, b: int, c: int)
    requires
        0 < a,
        0 < b,
        0 < c,
    ensures
        0 < a * b <= a * b * c,
        a <= a * b,
        b <= a * b,
{
    assert(0 < a * b <= a * b * c && a <= a * b && b <= a * b) by (nonlinear_arith)
        requires
            0 < a,
            0 < b,
            0 < c,
    ;
}

/// Preprocesses the images of requests.
pub struct GlmVlProcessor {
    spec: GlmVlSpec,
    /// The normalized value of every byte, per channel.
    lut: Lut,
    rules: CanvasRules,
}

impl GlmVlProcessor {
    /// The parameters.
    pub closed spec fn params(self) -> GlmVlSpec {
        self.spec
    }

    /// The normalized values of bytes.
    pub closed spec fn table(self) -> Lut {
        self.lut
    }

    /// The rules that canvases keep to.
    pub closed spec fn canvas(self) -> CanvasRules {
        self.rules
    }

    /// The parameters are valid, and tables and rules are theirs.
    pub open spec fn wf(self) -> bool {
        &&& self.params().error() is None
        &&& self.canvas() == self.params().canvas_rules()
        &&& self.canvas().wf()
        &&& forall|c: int, v: int|
            0 <= c < 3 && 0 <= v < 256 ==> #[trigger] self.table()@[c]@[v]
                == crate::common::grid::normalized(
                self.params().resample,
                self.params().image_mean@[c],
                self.params().image_std@[c],
                v,
            )
    }

    /// A processor with the given parameters.
    pub fn new(spec: GlmVlSpec) -> (result: Result<Self, String>)
        ensures
            match result {
                Ok(p) => spec.error() is None && p.params() == spec && p.wf(),
                Err(e) => spec.error() == Some(e@),
            },
    {
        if spec.patch_size == 0 || spec.merge_size == 0 || spec.temporal_patch_size == 0
            || spec.patch_expand_factor == 0 || spec.min_image_tokens == 0
            || spec.max_image_tokens == 0 || spec.min_image_tokens > spec.max_image_tokens {
            return Err(
                String::from_str(
                    "glm_vl spec: sizes and token budgets must be positive and ordered",
                ),
            );
        }
        if !spec.has_valid_numbers() {
            return Err(
                String::from_str("glm_vl spec: mean/std must be finite and std nonzero"),
            );
        }
        if spec.resample == Resampler::Pil && spec.patch_expand_factor != 1 {
            return Err(
                String::from_str("glm_vl spec: PIL backend requires patch_expand_factor=1"),
            );
        }
        proof {
            lemma_positive_product(
                spec.patch_size as int,
                spec.merge_size as int,
                spec.patch_expand_factor as int,
            );
        }
        let factor: usize = match triple_product(
            spec.patch_size,
            spec.merge_size,
            spec.patch_expand_factor,
        ) {
            Some(factor) => factor,
            None => return Err(String::from_str("glm_vl spec: factor overflow")),
        };
        let frames: u128 = spec.temporal_patch_size as u128;
        let base: u128 = spec.patch_size as u128 * spec.merge_size as u128;
        let pixels_per_token: u128 = match wide_product(frames, base, base) {
            Some(n) => n,
            None => return Err(String::from_str("glm_vl spec: pixel budget overflow")),
        };
        let min_pixels: u128 = match (spec.min_image_tokens as u128).checked_mul(
            pixels_per_token,
        ) {
            Some(n) => n,
            None => return Err(String::from_str("glm_vl spec: minimum pixel budget overflow")),
        };
        let max_pixels: u128 = match (spec.max_image_tokens as u128).checked_mul(
            pixels_per_token,
        ) {
            Some(n) => n,
            None => return Err(String::from_str("glm_vl spec: maximum pixel budget overflow")),
        };
        let minimum_canvas: u128 = match wide_product(frames, factor as u128, factor as u128) {
            Some(n) => n,
            None => return Err(String::from_str("glm_vl spec: minimum canvas overflow")),
        };
        if max_pixels < minimum_canvas {
            return Err(
                String::from_str("glm_vl spec: max_image_tokens cannot fit the minimum canvas"),
            );
        }
        let lut: Lut = [
            normalize_lut(spec.resample, spec.image_mean[0], spec.image_std[0]),
            normalize_lut(spec.resample, spec.image_mean[1], spec.image_std[1]),
            normalize_lut(spec.resample, spec.image_mean[2], spec.image_std[2]),
        ];
        let rules = CanvasRules {
            factor,
            frames: spec.temporal_patch_size,
            min_pixels,
            max_pixels,
        };
        proof {
            lemma_positive_product(
                spec.temporal_patch_size as int,
                spec.token_side(),
                spec.token_side(),
            );
            assert(0 < min_pixels <= max_pixels) by (nonlinear_arith)
                requires
                    min_pixels == spec.min_image_tokens * pixels_per_token,
                    max_pixels == spec.max_image_tokens * pixels_per_token,
                    0 < pixels_per_token,
                    0 < spec.min_image_tokens <= spec.max_image_tokens,
            ;
        }
        Ok(GlmVlProcessor { spec, lut, rules })
    }

    /// The modalities beside images.
    pub fn capabilities(&self) -> (c: Capabilities)
        ensures
            !c.video,
            !c.audio,
    {
        Capabilities { video: false, audio: false }
    }
}

/// The product of three positive numbers, where it is a `usize`.
fn triple_product(a: usize, b: usize, c: usize) -> (n: Option<usize>)
    requires
        0 < a,
        0 < b,
        0 < c,
    ensures
        match n {
            Some(n) => n == a * b * c,
            None => a * b * c > usize::MAX,
        },
{
    proof {
        lemma_positive_product(a as int, b as int, c as int);
    }
    match a.checked_mul(b) {
        Some(ab) => ab.checked_mul(c),
        None => None,
    }
}

/// The product of three positive numbers, where it is a `u128`.
fn wide_product(a: u128, b: u128, c: u128) -> (n: Option<u128>)
    requires
        0 < a,
        0 < b,
        0 < c,
    ensures
        match n {
            Some(n) => n == a * b * c,
            None => a * b * c > u128::MAX,
        },
{
    proof {
        lemma_positive_product(a as int, b as int, c as int);
    }
    match a.checked_mul(b) {
        Some(ab) => ab.checked_mul(c),
        None => None,
    }
}

impl GlmVlProcessor {
    /// Canvas and content of an image.
    pub fn resize_geometry(&self, height: usize, width: usize) -> (result: Result<
        GlmResize,
        String,
    >)
        requires
            self.wf(),
        ensures
            self.canvas().is_geometry(height, width, result),
    {
        self.rules.resize_geometry(height, width)
    }

    /// Why `len` bytes cannot be preprocessed as an image.
    pub open spec fn image_error(self, len: int, height: usize, width: usize) -> Option<Seq<char>> {
        let h = height as int;
        let w = width as int;
        let sizes = self.canvas().sizes(h, w);
        if h * w * 3 > usize::MAX {
            Some("glm_vl: image dimensions overflow"@)
        } else if len != h * w * 3 {
            Some("glm_vl: invalid RGB buffer length"@)
        } else if h == 0 || w == 0 {
            Some("glm_vl: empty image"@)
        } else if self.canvas().overflows(h, w) {
            Some("glm_vl: aligned dimension overflow"@)
        } else if sizes.canvas_h * sizes.canvas_w * 3 > usize::MAX {
            Some("glm_vl: canvas overflow"@)
        } else if sizes.canvas_h / self.params().patch_size > u32::MAX {
            Some("glm_vl: grid height overflow"@)
        } else if sizes.canvas_w / self.params().patch_size > u32::MAX {
            Some("glm_vl: grid width overflow"@)
        } else {
            None
        }
    }

    /// Whether an image can be preprocessed in memory, with `resize`.
    pub open spec fn can_preprocess<
        F: Fn(&[u8], usize, usize, usize, usize, Resample) -> Vec<u8>,
    >(self, rgb: Seq<u8>, height: usize, width: usize, resize: F) -> bool {
        let sizes = self.canvas().sizes(height as int, width as int);
        self.image_error(rgb.len() as int, height, width) is None ==> {
            &&& 4 * (3 * self.params().temporal_patch_size * (sizes.canvas_h * sizes.canvas_w))
                <= isize::MAX
            &&& (sizes.content_h, sizes.content_w) != (height, width)
                ==> crate::common::resize::resizes(
                resize,
                rgb,
                height,
                width,
                sizes.content_h,
                sizes.content_w,
                self.params().resample.kernel(),
            )
        }
    }

    /// Whether `result` is the image `rgb`, at its content size, padded and
    /// flattened, or the message of its refusal.
    pub open spec fn is_preprocessed<
        F: Fn(&[u8], usize, usize, usize, usize, Resample) -> Vec<u8>,
    >(
        self,
        rgb: Seq<u8>,
        height: usize,
        width: usize,
        resize: F,
        result: Result<ProcessedItem, String>,
    ) -> bool {
        let error = self.image_error(rgb.len() as int, height, width);
        let sizes = self.canvas().sizes(height as int, width as int);
        match result {
            Err(e) => error == Some(e@),
            Ok(item) => error is None && exists|content: Seq<u8>|
                {
                    &&& #[trigger] crate::common::resize::at_target(
                        resize,
                        rgb,
                        height,
                        width,
                        sizes.content_h,
                        sizes.content_w,
                        self.params().resample.kernel(),
                        content,
                    )
                    &&& self.is_padded_item(content, sizes, item)
                },
        }
    }

    /// Whether `item` is the content, padded and flattened.
    pub open spec fn is_padded_item(
        self,
        content: Seq<u8>,
        sizes: GlmResize,
        item: ProcessedItem,
    ) -> bool {
        crate::common::grid::is_image_item(
            item,
            padding::padded(
                content,
                sizes.content_h as int,
                sizes.content_w as int,
                sizes.canvas_h as int,
                sizes.canvas_w as int,
            ),
            sizes.canvas_h,
            sizes.canvas_w,
            self.params().patch_size,
            self.params().merge_size,
            self.params().temporal_patch_size,
            self.table(),
        )
    }

    /// Pads the content to the canvas and flattens it.
    fn padded_item(&self, content: &[u8], sizes: GlmResize) -> (item: ProcessedItem)
        requires
            self.wf(),
            1 <= sizes.content_h <= sizes.canvas_h,
            1 <= sizes.content_w <= sizes.canvas_w,
            sizes.content_h * sizes.content_w * 3 <= content@.len(),
            sizes.canvas_h * sizes.canvas_w * 3 <= usize::MAX,
            sizes.canvas_h as int % self.params().side_factor() == 0,
            sizes.canvas_w as int % self.params().side_factor() == 0,
            4 * (3 * self.params().temporal_patch_size * (sizes.canvas_h * sizes.canvas_w))
                <= isize::MAX,
        ensures
            self.is_padded_item(content@, sizes, item),
    {
        let padded = pad(
            content,
            sizes.content_h,
            sizes.content_w,
            sizes.canvas_h,
            sizes.canvas_w,
        );
        proof {
            let ps = self.params().patch_size as int;
            let m = self.params().merge_size as int;
            let e = self.params().patch_expand_factor as int;
            vstd::arithmetic::mul::lemma_mul_strictly_positive(ps, m);
            vstd::arithmetic::div_mod::lemma_mod_mod(sizes.canvas_h as int, ps * m, e);
            vstd::arithmetic::div_mod::lemma_mod_mod(sizes.canvas_w as int, ps * m, e);
        }
        image_item(
            padded.as_slice(),
            sizes.canvas_h,
            sizes.canvas_w,
            self.spec.patch_size,
            self.spec.merge_size,
            self.spec.temporal_patch_size,
            &self.lut,
        )
    }

    /// Resizes an image with `resize`, pads it to its canvas and flattens it.
    pub fn preprocess_image<F: Fn(&[u8], usize, usize, usize, usize, Resample) -> Vec<u8>>(
        &self,
        rgb: &[u8],
        height: usize,
        width: usize,
        resize: F,
    ) -> (result: Result<ProcessedItem, String>)
        requires
            self.wf(),
            self.can_preprocess(rgb@, height, width, resize),
        ensures
            self.is_preprocessed(rgb@, height, width, resize, result),
    {
        match image_bytes(height, width) {
            None => return Err(String::from_str("glm_vl: image dimensions overflow")),
            Some(n) => {
                if rgb.len() != n {
                    return Err(String::from_str("glm_vl: invalid RGB buffer length"));
                }
            },
        }
        let sizes = match self.resize_geometry(height, width) {
            Ok(sizes) => sizes,
            Err(e) => return Err(e),
        };
        proof {
            geometry::law_canvas(self.canvas(), height as int, width as int);
            geometry::law_content_in_canvas(self.canvas(), height as int, width as int);
        }
        if image_bytes(sizes.canvas_h, sizes.canvas_w).is_none() {
            return Err(String::from_str("glm_vl: canvas overflow"));
        }
        if sizes.canvas_h / self.spec.patch_size > 0xffff_ffff {
            return Err(String::from_str("glm_vl: grid height overflow"));
        }
        if sizes.canvas_w / self.spec.patch_size > 0xffff_ffff {
            return Err(String::from_str("glm_vl: grid width overflow"));
        }
        if sizes.content_h == height && sizes.content_w == width {
            let item = self.padded_item(rgb, sizes);
            proof {
                assert(crate::common::resize::at_target(
                    resize,
                    rgb@,
                    height,
                    width,
                    sizes.content_h,
                    sizes.content_w,
                    self.params().resample.kernel(),
                    rgb@,
                ));
            }
            Ok(item)
        } else {
            let kernel = Resample::from(self.spec.resample);
            let content = resize(rgb, height, width, sizes.content_h, sizes.content_w, kernel);
            let item = self.padded_item(content.as_slice(), sizes);
            proof {
                assert(crate::common::resize::at_target(
                    resize,
                    rgb@,
                    height,
                    width,
                    sizes.content_h,
                    sizes.content_w,
                    kernel,
                    content@,
                ));
            }
            Ok(item)
        }
    }

    /// Preprocesses an image.
    pub fn process_item<F: Fn(&[u8], usize, usize, usize, usize, Resample) -> Vec<u8>>(
        &self,
        media: &DecodedMedia,
        resize: F,
    ) -> (result: Result<ProcessedItem, String>)
        requires
            self.wf(),
            ({
                let DecodedMedia::Image { rgb, height, width } = *media;
                self.can_preprocess(rgb@, height, width, resize)
            }),
        ensures
            ({
                let DecodedMedia::Image { rgb, height, width } = *media;
                self.is_preprocessed(rgb@, height, width, resize, result)
            }),
    {
        let DecodedMedia::Image { rgb, height, width } = media;
        self.preprocess_image(rgb.as_slice(), *height, *width, resize)
    }
}

/// The bytes of an image, where they can be counted.
fn image_bytes(height: usize, width: usize) -> (n: Option<usize>)
    ensures
        match n {
            Some(n) => n == height * width * 3,
            None => height * width * 3 > usize::MAX,
        },
{
    match height.checked_mul(width) {
        Some(pixels) => pixels.checked_mul(3),
        None => None,
    }
}

/// Why the tokens of an image with the given patch grid cannot be counted.
pub open spec fn count_error(grid: Seq<u32>, merge: int) -> Option<Seq<char>> {
    if grid[0] * grid[1] > usize::MAX || grid[0] * grid[1] * grid[2] > usize::MAX {
        Some("glm_vl: token count overflow"@)
    } else if merge * merge > usize::MAX {
        Some("glm_vl: merge size overflow"@)
    } else if (grid[0] * grid[1] * grid[2]) % (merge * merge) != 0 {
        Some("glm_vl: patch grid is not divisible by merge size"@)
    } else {
        None
    }
}

/// The first error among the images in the given order.
pub open spec fn counts_error(items: Seq<Geometry>, merge: int) -> Option<Seq<char>>
    decreases items.len(),
{
    if items.len() == 0 {
        None
    } else if counts_error(items.drop_last(), merge) is Some {
        counts_error(items.drop_last(), merge)
    } else {
        count_error(items.last().grid()@, merge)
    }
}

/// An error among the first images is an error of all.
proof fn lemma_first_error(items: Seq<Geometry>, merge: int, n: int)
    requires
        0 <= n <= items.len(),
        counts_error(items.take(n), merge) is Some,
    ensures
        counts_error(items, merge) == counts_error(items.take(n), merge),
    decreases items.len() - n,
{
    if n < items.len() {
        assert(items.take(n + 1).drop_last() =~= items.take(n));
        lemma_first_error(items, merge, n + 1);
    } else {
        assert(items.take(n) =~= items);
    }
}

impl GlmVlProcessor {
    /// Whether a prompt holds a token that wraps a video.
    pub open spec fn wraps_video(self, ids: Seq<i32>) -> bool {
        exists|i: int|
            0 <= i < ids.len() && (#[trigger] ids[i] == self.params().video_start_token_id
                || ids[i] == self.params().video_end_token_id)
    }

    /// The number of tokens of an image with the given patch grid.
    fn count_tokens(&self, grid: [u32; 3]) -> (result: Result<usize, String>)
        requires
            self.wf(),
        ensures
            match result {
                Ok(n) => count_error(grid@, self.params().merge_size as int) is None && n
                    == crate::common::placement::image_tokens(
                    grid@,
                    self.params().merge_size as int,
                ),
                Err(e) => count_error(grid@, self.params().merge_size as int) == Some(e@),
            },
    {
        let overflow = "glm_vl: token count overflow";
        let area: usize = match (grid[0] as usize).checked_mul(grid[1] as usize) {
            Some(n) => n,
            None => return Err(String::from_str(overflow)),
        };
        let patches: usize = match area.checked_mul(grid[2] as usize) {
            Some(n) => n,
            None => return Err(String::from_str(overflow)),
        };
        let merged: usize = match self.spec.merge_size.checked_mul(self.spec.merge_size) {
            Some(n) => n,
            None => return Err(String::from_str("glm_vl: merge size overflow")),
        };
        proof {
            vstd::arithmetic::mul::lemma_mul_strictly_positive(
                self.params().merge_size as int,
                self.params().merge_size as int,
            );
        }
        if patches % merged != 0 {
            return Err(String::from_str("glm_vl: patch grid is not divisible by merge size"));
        }
        Ok(patches / merged)
    }

    /// The token layout of a prompt in which each image token stands for the
    /// next image.
    pub fn layout(&self, input_ids: &[i32], items: &[Geometry]) -> (result: Result<
        TokenLayout,
        String,
    >)
        requires
            self.wf(),
        ensures
            if self.wraps_video(input_ids@) {
                result is Err && result->Err_0@ == "glm_vl: video wrapper token in image prompt"@
            } else if counts_error(items@, self.params().merge_size as int) is Some {
                result is Err && Some(result->Err_0@) == counts_error(
                    items@,
                    self.params().merge_size as int,
                )
            } else {
                crate::common::token_layout::is_layout(
                    input_ids@,
                    self.params().image_token_id,
                    crate::common::placement::token_counts(
                        items@,
                        self.params().merge_size as int,
                    ),
                    result,
                )
            },
    {
        let ghost merge = self.params().merge_size as int;
        let mut i: usize = 0;
        while i < input_ids.len()
            invariant
                i <= input_ids@.len(),
                forall|k: int|
                    0 <= k < i ==> #[trigger] input_ids@[k] != self.params().video_start_token_id
                        && input_ids@[k] != self.params().video_end_token_id,
            decreases input_ids@.len() - i,
        {
            let id: i32 = input_ids[i];
            if id == self.spec.video_start_token_id || id == self.spec.video_end_token_id {
                assert(self.wraps_video(input_ids@)) by {
                    assert(input_ids@[i as int] == id);
                }
                return Err(String::from_str("glm_vl: video wrapper token in image prompt"));
            }
            i = i + 1;
        }
        assert(!self.wraps_video(input_ids@));
        let ghost all = crate::common::placement::token_counts(items@, merge);
        let mut counts: Vec<usize> = Vec::new();
        let mut j: usize = 0;
        proof {
            assert(items@.take(0) =~= Seq::<Geometry>::empty());
        }
        while j < items.len()
            invariant
                j <= items@.len(),
                self.wf(),
                !self.wraps_video(input_ids@),
                merge == self.params().merge_size,
                all == crate::common::placement::token_counts(items@, merge),
                counts@ == all.take(j as int),
                counts_error(items@.take(j as int), merge) is None,
            decreases items@.len() - j,
        {
            let Geometry::Grid(grid) = items[j];
            let counted = self.count_tokens(grid);
            proof {
                assert(items@.take(j + 1).drop_last() =~= items@.take(j as int));
                assert(items@.take(j + 1).last() == items@[j as int]);
            }
            match counted {
                Ok(n) => {
                    counts.push(n);
                    proof {
                        assert(all.take(j + 1) =~= all.take(j as int).push(all[j as int]));
                    }
                },
                Err(e) => {
                    proof {
                        lemma_first_error(items@, merge, j + 1);
                    }
                    return Err(e);
                },
            }
            j = j + 1;
        }
        proof {
            assert(items@.take(j as int) =~= items@);
            assert(all.take(j as int) =~= all);
        }
        layout_by_placeholder(input_ids, self.spec.image_token_id, counts.as_slice())
    }

    /// The M-RoPE positions of an expanded prompt.
    pub fn positions(
        &self,
        input_len: usize,
        offsets: &[(u32, u32)],
        items: &[Geometry],
    ) -> (result: Result<PositionOutput, String>)
        requires
            offsets@.len() == items@.len() ==> 24 * input_len <= isize::MAX,
        ensures
            if offsets@.len() != items@.len() {
                result is Err && result->Err_0@ == "glm_vl: offsets/grid count mismatch"@
            } else {
                crate::common::placement::is_positions(
                    input_len as int,
                    crate::common::placement::placements(offsets@, items@),
                    self.params().merge_size as int,
                    result,
                )
            },
    {
        if offsets.len() != items.len() {
            return Err(String::from_str("glm_vl: offsets/grid count mismatch"));
        }
        let placed = place(offsets, items);
        mrope_output(input_len, placed.as_slice(), self.spec.merge_size)
    }
}

impl GlmVlProcessor {
    /// Decodes an image, turns it upright and puts it over its background where
    /// it is transparent. Whatever the outcome of reading the bytes is, the result
    /// is what becomes of it.
    pub fn decode_image(&self, bytes: &[u8]) -> (result: Result<DecodedMedia, String>)
        ensures
            exists|outcome: Result<StoredImage, DecodeError>|
                {
                    &&& decode::read_gives(bytes, outcome)
                    &&& outcome matches Ok(image) ==> image.wf()
                    &&& #[trigger] decode::is_decoded(outcome, result)
                },
    {
        decode::decode_image(bytes)
    }
}

/// A preprocessed image has no more tokens than allowed. Where its canvas was not
/// cut down it also has no fewer, as long as rounding cannot cost a pixel of the
/// least number.
pub proof fn law_token_budget(
    processor: GlmVlProcessor,
    len: int,
    height: usize,
    width: usize,
    item: ProcessedItem,
    content: Seq<u8>,
)
    requires
        processor.wf(),
        processor.image_error(len, height, width) is None,
        processor.is_padded_item(
            content,
            processor.canvas().sizes(height as int, width as int),
            item,
        ),
    ensures
        ({
            let rules = processor.canvas();
            let spec = processor.params();
            let tokens = crate::common::placement::image_tokens(
                item.geometry.grid()@,
                spec.merge_size as int,
            );
            let raised = rules.raised(height as int, width as int);
            &&& crate::common::placement::whole_tokens(
                item.geometry.grid()@,
                spec.merge_size as int,
            )
            &&& tokens <= spec.max_image_tokens
            &&& rules.budget(raised.0, raised.1) <= rules.max_pixels && rules.min_pixels
                <= crate::rounding_slack::EXACT_BUDGET && rules.min_pixels <= usize::MAX
                ==> spec.min_image_tokens <= tokens
        }),
{
    let rules = processor.canvas();
    let spec = processor.params();
    let h = height as int;
    let w = width as int;
    let sizes = rules.sizes(h, w);
    let ps = spec.patch_size as int;
    let m = spec.merge_size as int;
    let e = spec.patch_expand_factor as int;
    let f = spec.temporal_patch_size as int;
    let side = spec.token_side();
    geometry::law_canvas(rules, h, w);
    geometry::law_content_in_canvas(rules, h, w);
    vstd::arithmetic::mul::lemma_mul_strictly_positive(ps, m);
    vstd::arithmetic::div_mod::lemma_mod_mod(sizes.canvas_h as int, ps * m, e);
    vstd::arithmetic::div_mod::lemma_mod_mod(sizes.canvas_w as int, ps * m, e);
    crate::common::grid::law_images_have_whole_tokens(
        item,
        padding::padded(
            content,
            sizes.content_h as int,
            sizes.content_w as int,
            sizes.canvas_h as int,
            sizes.canvas_w as int,
        ),
        sizes.canvas_h,
        sizes.canvas_w,
        spec.patch_size,
        spec.merge_size,
        spec.temporal_patch_size,
        processor.table(),
    );
    let tokens = crate::common::placement::image_tokens(item.geometry.grid()@, m);
    let area = sizes.canvas_h * sizes.canvas_w;
    let used = f * sizes.canvas_h * sizes.canvas_w;
    assert(used == f * area && 0 <= used <= 0xffff_ffff_ffff_ffff * 0xffff_ffff_ffff_ffff)
        by (nonlinear_arith)
        requires
            used == f * sizes.canvas_h * sizes.canvas_w,
            area == sizes.canvas_h * sizes.canvas_w,
            0 <= f <= 0xffff_ffff_ffff_ffff,
            0 <= area <= 0xffff_ffff_ffff_ffff,
    ;
    assert(used == tokens * spec.token_pixels()) by (nonlinear_arith)
        requires
            used == f * area,
            area == tokens * side * side,
            spec.token_pixels() == f * side * side,
    ;
    lemma_positive_product(f, side, side);
    let unit = spec.token_pixels();
    let most = spec.max_image_tokens as int;
    let least = spec.min_image_tokens as int;
    assert(tokens <= most) by (nonlinear_arith)
        requires
            tokens * unit <= most * unit,
            0 < unit,
    ;
    let raised = rules.raised(h, w);
    if rules.budget(raised.0, raised.1) <= rules.max_pixels && rules.min_pixels
        <= crate::rounding_slack::EXACT_BUDGET && rules.min_pixels <= usize::MAX {
        geometry::law_least_pixels(rules, h, w);
        assert(least <= tokens) by (nonlinear_arith)
            requires
                least * unit <= tokens * unit,
                0 < unit,
        ;
    }
}

}
