//! Qwen VL family: smart resize, normalization, patch flattening and image-only
//! M-RoPE. Nothing is fixed per model: all parameters are handed to the processor.
use crate::binary32::Binary32;
use crate::common::grid::{image_item, normalize_lut, patchify, Lut};
use crate::common::placement::{mrope_output, place};
use crate::common::resize::{Filter, Resample};
use crate::common::token_layout::layout_by_placeholder;
use crate::grid_packing::pack_grid_output;
use crate::pipeline::{
    Capabilities, DecodedMedia, Geometry, Output, PositionOutput, ProcessedItem, TokenLayout,
};
use vstd::prelude::*;
use vstd::string::StringExecFns;

pub mod block_rounding;
pub mod smart_resize;

pub use crate::common::grid::{mrope_image_only, MropeItem};
pub use crate::grid_packing::GridPackedOutput as QwenPackedOutput;
pub use smart_resize::{smart_resize, ResizeError};

verus! {

/// The image processor whose rounding is followed.
#[derive(Clone, Copy, Debug, PartialEq, Eq, Structural)]
pub enum Resampler {
    /// The fast processor, on byte tensors.
    AtenU8,
    /// The slow processor, on the Python imaging library.
    Pil,
}

impl Resampler {
    /// How images are resized.
    pub open spec fn kernel(self) -> Resample {
        match self {
            Resampler::AtenU8 => Resample::AtenU8,
            Resampler::Pil => Resample::Pil(Filter::Bicubic),
        }
    }
}

impl Default for Resampler {
    /// The processor that a default server runs.
    fn default() -> (r: Self)
        ensures
            r == Resampler::AtenU8,
    {
        Resampler::AtenU8
    }
}

impl From<Resampler> for Resample {
    fn from(r: Resampler) -> (s: Self) {
        match r {
            Resampler::AtenU8 => Resample::AtenU8,
            Resampler::Pil => Resample::Pil(Filter::Bicubic),
        }
    }
}

impl vstd::std_specs::convert::FromSpecImpl<Resampler> for Resample {
    open spec fn obeys_from_spec() -> bool {
        true
    }

    open spec fn from_spec(r: Resampler) -> Self {
        r.kernel()
    }
}

/// Parameters of a processor.
#[derive(Clone, Copy, Debug, PartialEq, Eq)]
pub struct QwenVlSpec {
    pub image_token_id: i32,
    pub patch_size: usize,
    pub merge_size: usize,
    pub temporal_patch_size: usize,
    pub min_pixels: usize,
    pub max_pixels: usize,
    pub image_mean: [Binary32; 3],
    pub image_std: [Binary32; 3],
    pub resample: Resampler,
}

impl QwenVlSpec {
    /// All sizes are positive.
    pub open spec fn valid(self) -> bool {
        self.patch_size > 0 && self.merge_size > 0 && self.temporal_patch_size > 0
    }
}

/// Preprocesses the images of requests.
pub struct QwenVlProcessor {
    spec: QwenVlSpec,
    /// The normalized value of every byte, per channel.
    lut: Lut,
}

impl QwenVlProcessor {
    /// The parameters.
    pub closed spec fn params(self) -> QwenVlSpec {
        self.spec
    }

    /// The normalized values of bytes.
    pub closed spec fn table(self) -> Lut {
        self.lut
    }

    /// The parameters are valid, and the tables are theirs.
    pub open spec fn wf(self) -> bool {
        &&& self.params().valid()
        &&& forall|c: int, v: int|
            0 <= c < 3 && 0 <= v < 256 ==> #[trigger] self.table()@[c]@[v]
                == crate::common::grid::normalized(
                self.params().resample,
                self.params().image_mean@[c],
                self.params().image_std@[c],
                v,
            )
    }

    /// A processor with the given parameters.
    pub fn new(spec: QwenVlSpec) -> (result: Result<Self, String>)
        ensures
            match result {
                Ok(p) => spec.valid() && p.params() == spec && p.wf(),
                Err(e) => !spec.valid() && e@ == "qwen_vl spec: sizes must be positive"@,
            },
    {
        if spec.patch_size == 0 || spec.merge_size == 0 || spec.temporal_patch_size == 0 {
            return Err(String::from_str("qwen_vl spec: sizes must be positive"));
        }
        let lut: Lut = [
            normalize_lut(spec.resample, spec.image_mean[0], spec.image_std[0]),
            normalize_lut(spec.resample, spec.image_mean[1], spec.image_std[1]),
            normalize_lut(spec.resample, spec.image_mean[2], spec.image_std[2]),
        ];
        Ok(QwenVlProcessor { spec, lut })
    }

    /// The modalities beside images.
    pub fn capabilities(&self) -> (c: Capabilities)
        ensures
            !c.video,
            !c.audio,
    {
        Capabilities { video: false, audio: false }
    }

    /// What both sides of a resized image are multiples of.
    pub open spec fn side_factor(self) -> int {
        self.params().patch_size * self.params().merge_size
    }

    /// What both sides of a resized image are multiples of.
    pub fn factor(&self) -> (f: usize)
        requires
            self.side_factor() <= usize::MAX,
        ensures
            f == self.side_factor(),
    {
        self.spec.patch_size * self.spec.merge_size
    }
}

/// Whether the tokens of an image can be counted in a `usize`.
pub open spec fn countable(grid: Seq<u32>) -> bool {
    grid[0] * grid[1] <= usize::MAX && grid[0] * grid[1] * grid[2] <= usize::MAX
}

impl QwenVlProcessor {
    /// The number of tokens of an image with the given patch grid.
    pub fn tokens_per_image(&self, grid: &[u32; 3]) -> (n: usize)
        requires
            self.wf(),
            countable(grid@),
            self.params().merge_size * self.params().merge_size <= usize::MAX,
        ensures
            n == crate::common::placement::image_tokens(grid@, self.params().merge_size as int),
    {
        proof {
            vstd::arithmetic::mul::lemma_mul_strictly_positive(
                self.params().merge_size as int,
                self.params().merge_size as int,
            );
        }
        (grid[0] as usize * grid[1] as usize * grid[2] as usize) / (self.spec.merge_size
            * self.spec.merge_size)
    }

    /// The token layout of a prompt in which each image token stands for the
    /// next image.
    pub fn layout(&self, input_ids: &[i32], items: &[Geometry]) -> (result: Result<
        TokenLayout,
        String,
    >)
        requires
            self.wf(),
            forall|i: int| 0 <= i < items@.len() ==> countable((#[trigger] items@[i]).grid()@),
            0 < items@.len() ==> self.params().merge_size * self.params().merge_size <= usize::MAX,
        ensures
            crate::common::token_layout::is_layout(
                input_ids@,
                self.params().image_token_id,
                crate::common::placement::token_counts(items@, self.params().merge_size as int),
                result,
            ),
    {
        let ghost merge = self.params().merge_size as int;
        let ghost all = crate::common::placement::token_counts(items@, merge);
        let mut counts: Vec<usize> = Vec::new();
        let mut i: usize = 0;
        while i < items.len()
            invariant
                i <= items@.len(),
                self.wf(),
                merge == self.params().merge_size,
                all == crate::common::placement::token_counts(items@, merge),
                forall|i: int| 0 <= i < items@.len() ==> countable((#[trigger] items@[i]).grid()@),
                0 < items@.len() ==> self.params().merge_size * self.params().merge_size
                    <= usize::MAX,
                counts@ == all.take(i as int),
            decreases items@.len() - i,
        {
            let Geometry::Grid(grid) = items[i];
            counts.push(self.tokens_per_image(&grid));
            proof {
                assert(all.take(i + 1) =~= all.take(i as int).push(all[i as int]));
            }
            i = i + 1;
        }
        proof {
            assert(all.take(i as int) =~= all);
        }
        layout_by_placeholder(input_ids, self.spec.image_token_id, counts.as_slice())
    }

    /// The M-RoPE positions of an expanded prompt.
    pub fn positions(
        &self,
        input_len: usize,
        offsets: &[(u32, u32)],
        items: &[Geometry],
    ) -> (result: Result<PositionOutput, String>)
        requires
            24 * input_len <= isize::MAX,
        ensures
            crate::common::placement::is_positions(
                input_len as int,
                crate::common::placement::placements(offsets@, items@),
                self.params().merge_size as int,
                result,
            ),
    {
        let placed = place(offsets, items);
        mrope_output(input_len, placed.as_slice(), self.spec.merge_size)
    }
}

impl QwenVlProcessor {
    /// The target size of an image.
    pub open spec fn target(self, height: usize, width: usize) -> Result<
        (usize, usize),
        ResizeError,
    > {
        smart_resize::resized(
            height,
            width,
            self.side_factor() as usize,
            self.params().min_pixels,
            self.params().max_pixels,
        )
    }

    /// Flattens an image.
    pub fn patchify(&self, rgb: &[u8], h: usize, w: usize) -> (out: Vec<Binary32>)
        requires
            self.wf(),
            self.params().patch_size <= w,
            ({
                let ps = self.params().patch_size as int;
                let m = self.params().merge_size as int;
                let gh = h as int / ps;
                let gw = w as int / ps;
                let dim = crate::common::grid::patch_len(
                    ps,
                    self.params().temporal_patch_size as int,
                );
                &&& dim <= usize::MAX
                &&& gw * m * dim <= usize::MAX
                &&& 4 * (gh * gw * dim) <= isize::MAX
                &&& gh % m == 0 || crate::common::grid::band_patches(gw, m) <= (gh % m) * gw
                &&& crate::common::grid::bytes_read(h as int, w as int, ps, m) <= rgb@.len()
            }),
        ensures
            ({
                let ps = self.params().patch_size as int;
                let m = self.params().merge_size as int;
                let tps = self.params().temporal_patch_size as int;
                out@ == crate::common::grid::image_values(
                    rgb@,
                    w as int,
                    ps,
                    m,
                    tps,
                    self.table(),
                    (h as int / ps) * (w as int / ps) * crate::common::grid::patch_len(ps, tps),
                )
            }),
    {
        patchify(
            rgb,
            h,
            w,
            self.spec.patch_size,
            self.spec.merge_size,
            self.spec.temporal_patch_size,
            &self.lut,
        )
    }

    /// Resizes an image to its target size, with `resize`, and flattens it.
    pub fn process_item<F: Fn(&[u8], usize, usize, usize, usize, Resample) -> Vec<u8>>(
        &self,
        media: &DecodedMedia,
        resize: F,
    ) -> (result: Result<ProcessedItem, ResizeError>)
        requires
            self.wf(),
            self.side_factor() <= usize::MAX,
            ({
                let DecodedMedia::Image { rgb, height, width } = *media;
                &&& smart_resize::pixels_fit(height as int, width as int, self.side_factor())
                &&& self.target(height, width) matches Ok((th, tw)) ==> {
                    &&& 4 * (3 * self.params().temporal_patch_size * (th * tw)) <= isize::MAX
                    &&& if (th, tw) == (height, width) {
                        height * width * 3 <= rgb@.len()
                    } else {
                        crate::common::resize::resizes(
                            resize,
                            rgb@,
                            height,
                            width,
                            th,
                            tw,
                            self.params().resample.kernel(),
                        )
                    }
                }
            }),
        ensures
            ({
                let DecodedMedia::Image { rgb, height, width } = *media;
                smart_resize::holds_target_sides(
                    height,
                    width,
                    self.side_factor() as usize,
                    self.params().min_pixels,
                    self.params().max_pixels,
                    self.target(height, width),
                )
            }),
            ({
                let DecodedMedia::Image { rgb, height, width } = *media;
                match self.target(height, width) {
                    Err(e) => result == Err::<ProcessedItem, ResizeError>(e),
                    Ok((th, tw)) => result is Ok && exists|data: Seq<u8>|
                        {
                            &&& #[trigger] crate::common::resize::at_target(
                                resize,
                                rgb@,
                                height,
                                width,
                                th,
                                tw,
                                self.params().resample.kernel(),
                                data,
                            )
                            &&& crate::common::grid::is_image_item(
                                result->Ok_0,
                                data,
                                th,
                                tw,
                                self.params().patch_size,
                                self.params().merge_size,
                                self.params().temporal_patch_size,
                                self.table(),
                            )
                        },
                }
            }),
    {
        let DecodedMedia::Image { rgb, height, width } = media;
        let h: usize = *height;
        let w: usize = *width;
        let (th, tw) = match smart_resize(
            h,
            w,
            self.factor(),
            self.spec.min_pixels,
            self.spec.max_pixels,
        ) {
            Ok(target) => target,
            Err(e) => return Err(e),
        };
        if th == h && tw == w {
            let item = image_item(
                rgb.as_slice(),
                th,
                tw,
                self.spec.patch_size,
                self.spec.merge_size,
                self.spec.temporal_patch_size,
                &self.lut,
            );
            proof {
                assert(crate::common::resize::at_target(
                    resize,
                    rgb@,
                    h,
                    w,
                    th,
                    tw,
                    self.params().resample.kernel(),
                    rgb@,
                ));
            }
            Ok(item)
        } else {
            let src = rgb.as_slice();
            let kernel = Resample::from(self.spec.resample);
            let data = resize(src, h, w, th, tw, kernel);
            let item = image_item(
                data.as_slice(),
                th,
                tw,
                self.spec.patch_size,
                self.spec.merge_size,
                self.spec.temporal_patch_size,
                &self.lut,
            );
            proof {
                assert(crate::common::resize::at_target(resize, rgb@, h, w, th, tw, kernel, data@));
            }
            Ok(item)
        }
    }
}

/// Packs a request for the scheduler.
pub fn pack_output(output: Output) -> (result: Result<QwenPackedOutput, String>)
    ensures
        match result {
            Err(e) => {
                &&& crate::grid_packing::pack_error(output) is Some
                &&& e@ == "qwen_vl"@ + crate::grid_packing::pack_error(output)->0
            },
            Ok(packed) => {
                &&& crate::grid_packing::pack_error(output) is None
                &&& crate::grid_packing::packs(output, packed)
            },
        },
{
    pack_grid_output(output, "qwen_vl")
}

}
