//! What the processors of the image families do with images and prompts.
use crate::common::resize::{Filter, Resample};
use crate::glm_vl::geometry::GlmResize;
use crate::glm_vl::{GlmVlProcessor, GlmVlSpec};
use crate::pipeline::{Capabilities, DecodedMedia, Geometry, ProcessedItem, TokenLayout};
use crate::qwen_vl::smart_resize::ResizeError;
use crate::qwen_vl::{QwenVlProcessor, QwenVlSpec, Resampler};
use vstd::prelude::*;

verus! {

/// Whether `n` is the number of whole blocks of `merge` by `merge` patches of a grid.
pub open spec fn counts_tokens(grid: Seq<u32>, merge: int, n: int) -> bool {
    &&& 0 <= n
    &&& n * (merge * merge) <= grid[0] * grid[1] * grid[2] < (n + 1) * (merge * merge)
}

/// The contract's number of tokens.
proof fn lemma_counts_tokens(grid: Seq<u32>, merge: int)
    requires
        0 < merge,
    ensures
        counts_tokens(grid, merge, crate::common::placement::image_tokens(grid, merge)),
        crate::common::placement::image_tokens(grid, merge) <= grid[0] * grid[1] * grid[2],
{
    let patches = grid[0] * grid[1] * grid[2];
    let mm = merge * merge;
    let n = patches / mm;
    vstd::arithmetic::mul::lemma_mul_strictly_positive(merge, merge);
    vstd::arithmetic::mul::lemma_mul_nonnegative(grid[0] as int, grid[1] as int);
    vstd::arithmetic::mul::lemma_mul_nonnegative(grid[0] * grid[1], grid[2] as int);
    vstd::arithmetic::div_mod::lemma_fundamental_div_mod(patches, mm);
    vstd::arithmetic::div_mod::lemma_mod_bound(patches, mm);
    vstd::arithmetic::div_mod::lemma_div_pos_is_pos(patches, mm);
    vstd::arithmetic::div_mod::lemma_div_nonincreasing(patches, mm);
    vstd::arithmetic::mul::lemma_mul_is_commutative(mm, n);
    vstd::arithmetic::mul::lemma_mul_is_distributive_add_other_way(mm, n, 1);
}

/// The tokens of an image are the whole blocks of its patch grid.
pub proof fn law_tokens_per_image(processor: &QwenVlProcessor, grid: &[u32; 3], n: usize)
    requires
        processor.wf(),
        call_ensures(QwenVlProcessor::tokens_per_image, (processor, grid), n),
    ensures
        counts_tokens(grid@, processor.params().merge_size as int, n as int),
{
    lemma_counts_tokens(grid@, processor.params().merge_size as int);
}

/// Whether `counts` are the numbers of tokens of images.
pub open spec fn counts_all(items: Seq<Geometry>, merge: int, counts: Seq<usize>) -> bool {
    &&& counts.len() == items.len()
    &&& forall|i: int|
        0 <= i < items.len() ==> (#[trigger] items[i] matches Geometry::Grid(grid)
            ==> counts_tokens(grid@, merge, counts[i] as int))
}

/// The contract's numbers of tokens.
proof fn lemma_counts_all(items: Seq<Geometry>, merge: int)
    requires
        0 < merge,
        forall|i: int|
            0 <= i < items.len() ==> (#[trigger] items[i] matches Geometry::Grid(grid) ==> grid@[0]
                * grid@[1] * grid@[2] <= usize::MAX),
    ensures
        counts_all(items, merge, crate::common::placement::token_counts(items, merge)),
{
    assert forall|i: int| 0 <= i < items.len() implies (
    #[trigger] items[i] matches Geometry::Grid(grid) ==> counts_tokens(
        grid@,
        merge,
        crate::common::placement::token_counts(items, merge)[i] as int,
    )) by {
        match items[i] {
            Geometry::Grid(grid) => {
                lemma_counts_tokens(grid@, merge);
            },
        }
    }
}

/// The Qwen VL family lays out a prompt with the tokens of its images.
pub proof fn law_qwen_layout(
    processor: &QwenVlProcessor,
    ids: &[i32],
    items: &[Geometry],
    result: Result<TokenLayout, String>,
)
    requires
        processor.wf(),
        ids@.len() <= usize::MAX,
        forall|i: int|
            0 <= i < items@.len() ==> (#[trigger] items@[i] matches Geometry::Grid(grid)
                ==> grid@[0] * grid@[1] * grid@[2] <= usize::MAX),
        call_ensures(QwenVlProcessor::layout, (processor, ids, items), result),
    ensures
        exists|counts: Seq<usize>|
            {
                &&& #[trigger] counts_all(
                    items@,
                    processor.params().merge_size as int,
                    counts,
                )
                &&& super::tokens::lays_out(
                    ids@,
                    processor.params().image_token_id,
                    counts,
                    result,
                )
            },
{
    let merge = processor.params().merge_size as int;
    let counts = crate::common::placement::token_counts(items@, merge);
    lemma_counts_all(items@, merge);
    super::tokens::law_layout_covers_the_prompt(
        ids@,
        processor.params().image_token_id,
        counts,
        result,
    );
}

/// Whether the tokens of an image can be counted, and are whole.
pub open spec fn whole(item: Geometry, merge: int) -> bool {
    match item {
        Geometry::Grid(grid) => {
            &&& grid@[0] * grid@[1] <= usize::MAX
            &&& grid@[0] * grid@[1] * grid@[2] <= usize::MAX
            &&& merge * merge <= usize::MAX
            &&& exists|n: int| #[trigger] (n * (merge * merge)) == grid@[0] * grid@[1] * grid@[2]
        },
    }
}

/// Why the tokens of an image are refused.
pub open spec fn count_reason(item: Geometry, merge: int) -> Seq<char> {
    match item {
        Geometry::Grid(grid) => if grid@[0] * grid@[1] > usize::MAX || grid@[0] * grid@[1]
            * grid@[2] > usize::MAX {
            "glm_vl: token count overflow"@
        } else if merge * merge > usize::MAX {
            "glm_vl: merge size overflow"@
        } else {
            "glm_vl: patch grid is not divisible by merge size"@
        },
    }
}

/// The contract's refusal of an image.
proof fn lemma_count_error(item: Geometry, merge: int)
    requires
        0 < merge,
    ensures
        crate::glm_vl::count_error(item.grid()@, merge) is None <==> whole(item, merge),
        crate::glm_vl::count_error(item.grid()@, merge) is Some
            ==> crate::glm_vl::count_error(item.grid()@, merge) == Some(count_reason(item, merge)),
{
    let grid = item.grid()@;
    let patches = grid[0] * grid[1] * grid[2];
    let mm = merge * merge;
    vstd::arithmetic::mul::lemma_mul_strictly_positive(merge, merge);
    vstd::arithmetic::div_mod::lemma_fundamental_div_mod(patches, mm);
    vstd::arithmetic::mul::lemma_mul_is_commutative(mm, patches / mm);
    if patches % mm == 0 {
        assert((patches / mm) * (merge * merge) == patches);
    }
    if whole(item, merge) {
        let n = choose|n: int| #[trigger] (n * (merge * merge)) == patches;
        vstd::arithmetic::div_mod::lemma_mod_multiples_basic(n, mm);
    }
}

/// The contract's first refusal of an image.
proof fn lemma_counts_error(items: Seq<Geometry>, merge: int)
    requires
        0 < merge,
    ensures
        crate::glm_vl::counts_error(items, merge) is None <==> forall|i: int|
            0 <= i < items.len() ==> #[trigger] whole(items[i], merge),
        crate::glm_vl::counts_error(items, merge) is Some ==> exists|i: int|
            {
                &&& 0 <= i < items.len()
                &&& !#[trigger] whole(items[i], merge)
                &&& forall|k: int| 0 <= k < i ==> #[trigger] whole(items[k], merge)
                &&& crate::glm_vl::counts_error(items, merge) == Some(
                    count_reason(items[i], merge),
                )
            },
    decreases items.len(),
{
    if items.len() > 0 {
        let before = items.drop_last();
        let last = items.len() - 1;
        lemma_counts_error(before, merge);
        lemma_count_error(items[last], merge);
        assert(items.last() == items[last]);
        assert forall|k: int| 0 <= k < last implies before[k] == items[k] by {}
        if crate::glm_vl::counts_error(before, merge) is Some {
            let i = choose|i: int|
                {
                    &&& 0 <= i < before.len()
                    &&& !#[trigger] whole(before[i], merge)
                    &&& forall|k: int| 0 <= k < i ==> #[trigger] whole(before[k], merge)
                    &&& crate::glm_vl::counts_error(before, merge) == Some(
                        count_reason(before[i], merge),
                    )
                };
            assert(!whole(items[i], merge));
            assert forall|k: int| 0 <= k < i implies #[trigger] whole(items[k], merge) by {
                assert(whole(before[k], merge));
            }
        } else {
            assert forall|k: int| 0 <= k < last implies #[trigger] whole(items[k], merge) by {
                assert(whole(before[k], merge));
            }
        }
    }
}

/// The GLM VL family lays out a prompt with the tokens of its images, unless it holds a
/// token that wraps a video or an image whose tokens cannot be counted or are not whole.
pub proof fn law_glm_layout(
    processor: &GlmVlProcessor,
    ids: &[i32],
    items: &[Geometry],
    result: Result<TokenLayout, String>,
)
    requires
        processor.wf(),
        ids@.len() <= usize::MAX,
        call_ensures(GlmVlProcessor::layout, (processor, ids, items), result),
    ensures
        ({
            let spec = processor.params();
            let merge = spec.merge_size as int;
            if ids@.contains(spec.video_start_token_id) || ids@.contains(
                spec.video_end_token_id,
            ) {
                result is Err && result->Err_0@ == "glm_vl: video wrapper token in image prompt"@
            } else if exists|i: int| 0 <= i < items@.len() && !#[trigger] whole(items@[i], merge) {
                result is Err && exists|i: int|
                    {
                        &&& 0 <= i < items@.len()
                        &&& !#[trigger] whole(items@[i], merge)
                        &&& forall|k: int| 0 <= k < i ==> #[trigger] whole(items@[k], merge)
                        &&& result->Err_0@ == count_reason(items@[i], merge)
                    }
            } else {
                exists|counts: Seq<usize>|
                    {
                        &&& #[trigger] counts_all(items@, merge, counts)
                        &&& super::tokens::lays_out(ids@, spec.image_token_id, counts, result)
                    }
            }
        }),
{
    let spec = processor.params();
    let merge = spec.merge_size as int;
    if ids@.contains(spec.video_start_token_id) {
        let i = ids@.index_of(spec.video_start_token_id);
        assert(ids@[i] == spec.video_start_token_id);
        assert(processor.wraps_video(ids@));
    } else if ids@.contains(spec.video_end_token_id) {
        let i = ids@.index_of(spec.video_end_token_id);
        assert(ids@[i] == spec.video_end_token_id);
        assert(processor.wraps_video(ids@));
    } else {
        assert(!processor.wraps_video(ids@));
        lemma_counts_error(items@, merge);
        if forall|i: int| 0 <= i < items@.len() ==> #[trigger] whole(items@[i], merge) {
            assert forall|i: int| 0 <= i < items@.len() implies (
            #[trigger] items@[i] matches Geometry::Grid(grid) ==> grid@[0] * grid@[1] * grid@[2]
                <= usize::MAX) by {
                assert(whole(items@[i], merge));
            }
            lemma_counts_all(items@, merge);
            super::tokens::law_layout_covers_the_prompt(
                ids@,
                spec.image_token_id,
                crate::common::placement::token_counts(items@, merge),
                result,
            );
        }
    }
}

/// Neither family takes videos or sounds.
pub proof fn law_images_only(
    qwen: &QwenVlProcessor,
    glm: &GlmVlProcessor,
    a: Capabilities,
    b: Capabilities,
)
    requires
        call_ensures(QwenVlProcessor::capabilities, (qwen,), a),
        call_ensures(GlmVlProcessor::capabilities, (glm,), b),
    ensures
        a == (Capabilities { video: false, audio: false }),
        b == (Capabilities { video: false, audio: false }),
{
}

/// The sides of a resized image are multiples of a block's side.
pub proof fn law_factor(processor: &QwenVlProcessor, f: usize)
    requires
        call_ensures(QwenVlProcessor::factor, (processor,), f),
    ensures
        f == processor.params().patch_size * processor.params().merge_size,
{
}

/// The filter with which a processor resizes.
pub open spec fn filter_of(resampler: Resampler) -> Resample {
    match resampler {
        Resampler::AtenU8 => Resample::AtenU8,
        Resampler::Pil => Resample::Pil(Filter::Bicubic),
    }
}

/// Whether `data` is the image `rgb` at a target size: itself where it has that size, and
/// else what `resize` makes of it with the family's filter.
pub open spec fn at_size<F: Fn(&[u8], usize, usize, usize, usize, Resample) -> Vec<u8>>(
    resize: F,
    rgb: Seq<u8>,
    height: usize,
    width: usize,
    th: usize,
    tw: usize,
    resampler: Resampler,
    data: Seq<u8>,
) -> bool {
    if th == height && tw == width {
        data == rgb
    } else {
        exists|src: &[u8], out: Vec<u8>|
            {
                &&& #[trigger] call_ensures(
                    resize,
                    (src, height, width, th, tw, filter_of(resampler)),
                    out,
                )
                &&& src@ == rgb
                &&& out@ == data
            }
    }
}

/// The image that the contract flattens.
proof fn lemma_at_size<F: Fn(&[u8], usize, usize, usize, usize, Resample) -> Vec<u8>>(
    resize: F,
    rgb: Seq<u8>,
    height: usize,
    width: usize,
    th: usize,
    tw: usize,
    resampler: Resampler,
    data: Seq<u8>,
)
    requires
        crate::common::resize::at_target(
            resize,
            rgb,
            height,
            width,
            th,
            tw,
            resampler.kernel(),
            data,
        ),
    ensures
        at_size(resize, rgb, height, width, th, tw, resampler, data),
{
    assert(resampler.kernel() == filter_of(resampler));
}

/// An image of the Qwen VL family is brought to its target size and flattened, or refused
/// as it has none.
pub proof fn law_qwen_process_item<
    F: Fn(&[u8], usize, usize, usize, usize, Resample) -> Vec<u8>,
>(
    processor: &QwenVlProcessor,
    media: &DecodedMedia,
    resize: F,
    result: Result<ProcessedItem, ResizeError>,
)
    requires
        processor.wf(),
        processor.side_factor() <= usize::MAX,
        ({
            let DecodedMedia::Image { rgb, height, width } = *media;
            processor.target(height, width) matches Ok((th, tw)) ==> 4 * (3
                * processor.params().temporal_patch_size * (th * tw)) <= isize::MAX
        }),
        call_ensures(QwenVlProcessor::process_item::<F>, (processor, media, resize), result),
    ensures
        ({
            let DecodedMedia::Image { rgb, height, width } = *media;
            let spec = processor.params();
            exists|target: Result<(usize, usize), ResizeError>|
                {
                    &&& #[trigger] super::resizing::resizes(
                        height,
                        width,
                        (spec.patch_size * spec.merge_size) as usize,
                        spec.min_pixels,
                        spec.max_pixels,
                        target,
                    )
                    &&& super::resizing::refuses_ratio(height, width, target)
                    &&& match target {
                        Err(e) => result == Err::<ProcessedItem, ResizeError>(e),
                        Ok((th, tw)) => result is Ok && exists|data: Seq<u8>|
                            {
                                &&& #[trigger] at_size(
                                    resize,
                                    rgb@,
                                    height,
                                    width,
                                    th,
                                    tw,
                                    spec.resample,
                                    data,
                                )
                                &&& super::flattening::holds_image(
                                    result->Ok_0,
                                    data,
                                    th as int,
                                    tw as int,
                                    spec.patch_size as int,
                                    spec.merge_size as int,
                                    spec.temporal_patch_size as int,
                                    processor.table(),
                                )
                            },
                    }
                }
        }),
{
    let DecodedMedia::Image { rgb, height, width } = *media;
    let spec = processor.params();
    let target = processor.target(height, width);
    let factor = (spec.patch_size * spec.merge_size) as usize;
    vstd::arithmetic::mul::lemma_mul_strictly_positive(
        spec.patch_size as int,
        spec.merge_size as int,
    );
    super::resizing::lemma_resizes(
        height,
        width,
        factor,
        spec.min_pixels,
        spec.max_pixels,
        target,
    );
    if let Ok((th, tw)) = target {
        super::resizing::lemma_target_multiples(
            height as int,
            width as int,
            factor as int,
            spec.min_pixels as int,
            spec.max_pixels as int,
            th as int,
            tw as int,
        );
        let data = choose|data: Seq<u8>|
            {
                &&& #[trigger] crate::common::resize::at_target(
                    resize,
                    rgb@,
                    height,
                    width,
                    th,
                    tw,
                    spec.resample.kernel(),
                    data,
                )
                &&& crate::common::grid::is_image_item(
                    result->Ok_0,
                    data,
                    th,
                    tw,
                    spec.patch_size,
                    spec.merge_size,
                    spec.temporal_patch_size,
                    processor.table(),
                )
            };
        lemma_at_size(resize, rgb@, height, width, th, tw, spec.resample, data);
        super::flattening::lemma_holds_image(
            result->Ok_0,
            data,
            th,
            tw,
            spec.patch_size,
            spec.merge_size,
            spec.temporal_patch_size,
            processor.table(),
        );
        assert(at_size(resize, rgb@, height, width, th, tw, spec.resample, data));
    }
}

/// Whether `item` is the image `rgb` at its content size, padded to its canvas and
/// flattened.
pub open spec fn holds_canvas<F: Fn(&[u8], usize, usize, usize, usize, Resample) -> Vec<u8>>(
    processor: &GlmVlProcessor,
    rgb: Seq<u8>,
    height: usize,
    width: usize,
    resize: F,
    sizes: GlmResize,
    item: ProcessedItem,
) -> bool {
    let spec = processor.params();
    exists|content: Seq<u8>, canvas: Seq<u8>|
        {
            &&& #[trigger] at_size(
                resize,
                rgb,
                height,
                width,
                sizes.content_h,
                sizes.content_w,
                spec.resample,
                content,
            )
            &&& #[trigger] super::flattening::pads(
                content,
                sizes.content_h as int,
                sizes.content_w as int,
                sizes.canvas_h as int,
                sizes.canvas_w as int,
                canvas,
            )
            &&& super::flattening::holds_image(
                item,
                canvas,
                sizes.canvas_h as int,
                sizes.canvas_w as int,
                spec.patch_size as int,
                spec.merge_size as int,
                spec.temporal_patch_size as int,
                processor.table(),
            )
        }
}

/// Whether `result` is the preprocessed image, or the first reason why there is none: its
/// bytes cannot be counted or are not as many as its pixels need, it has no sizes, or its
/// canvas or grid is too large.
pub open spec fn preprocesses<F: Fn(&[u8], usize, usize, usize, usize, Resample) -> Vec<u8>>(
    processor: &GlmVlProcessor,
    rgb: Seq<u8>,
    height: usize,
    width: usize,
    resize: F,
    result: Result<ProcessedItem, String>,
) -> bool {
    let ps = processor.params().patch_size as int;
    if height * width * 3 > usize::MAX {
        result is Err && result->Err_0@ == "glm_vl: image dimensions overflow"@
    } else if rgb.len() != height * width * 3 {
        result is Err && result->Err_0@ == "glm_vl: invalid RGB buffer length"@
    } else {
        exists|geometry: Result<GlmResize, String>|
            {
                &&& #[trigger] super::canvas::gives_sizes(
                    processor.canvas(),
                    height as int,
                    width as int,
                    geometry,
                )
                &&& match geometry {
                    Err(e) => result is Err && result->Err_0@ == e@,
                    Ok(sizes) => if sizes.canvas_h * sizes.canvas_w * 3 > usize::MAX {
                        result is Err && result->Err_0@ == "glm_vl: canvas overflow"@
                    } else if sizes.canvas_h as int / ps > u32::MAX {
                        result is Err && result->Err_0@ == "glm_vl: grid height overflow"@
                    } else if sizes.canvas_w as int / ps > u32::MAX {
                        result is Err && result->Err_0@ == "glm_vl: grid width overflow"@
                    } else {
                        result is Ok && holds_canvas(
                            processor,
                            rgb,
                            height,
                            width,
                            resize,
                            sizes,
                            result->Ok_0,
                        )
                    },
                }
            }
    }
}

/// What the contract of preprocessing says of an image.
proof fn lemma_preprocesses<F: Fn(&[u8], usize, usize, usize, usize, Resample) -> Vec<u8>>(
    processor: &GlmVlProcessor,
    rgb: Seq<u8>,
    height: usize,
    width: usize,
    resize: F,
    result: Result<ProcessedItem, String>,
)
    requires
        processor.wf(),
        processor.can_preprocess(rgb, height, width, resize),
        processor.is_preprocessed(rgb, height, width, resize, result),
    ensures
        preprocesses(processor, rgb, height, width, resize, result),
{
    let rules = processor.canvas();
    let h = height as int;
    let w = width as int;
    if h * w * 3 <= usize::MAX && rgb.len() == h * w * 3 {
        let geometry: Result<GlmResize, String> = if h == 0 || w == 0 || rules.overflows(h, w) {
            Err(result->Err_0)
        } else {
            Ok(rules.sizes(h, w))
        };
        super::canvas::lemma_gives_sizes(rules, height, width, geometry);
        if let Ok(item) = result {
            lemma_holds_canvas(processor, rgb, height, width, resize, item);
        }
        assert(super::canvas::gives_sizes(rules, h, w, geometry));
    }
}

/// What the contract of preprocessing says of an item.
proof fn lemma_holds_canvas<F: Fn(&[u8], usize, usize, usize, usize, Resample) -> Vec<u8>>(
    processor: &GlmVlProcessor,
    rgb: Seq<u8>,
    height: usize,
    width: usize,
    resize: F,
    item: ProcessedItem,
)
    requires
        processor.wf(),
        processor.can_preprocess(rgb, height, width, resize),
        processor.is_preprocessed(rgb, height, width, resize, Ok(item)),
    ensures
        holds_canvas(
            processor,
            rgb,
            height,
            width,
            resize,
            processor.canvas().sizes(height as int, width as int),
            item,
        ),
{
    let spec = processor.params();
    let rules = processor.canvas();
    let h = height as int;
    let w = width as int;
    let sizes = rules.sizes(h, w);
    let content = choose|content: Seq<u8>|
        {
            &&& #[trigger] crate::common::resize::at_target(
                resize,
                rgb,
                height,
                width,
                sizes.content_h,
                sizes.content_w,
                spec.resample.kernel(),
                content,
            )
            &&& processor.is_padded_item(content, sizes, item)
        };
    lemma_at_size(
        resize,
        rgb,
        height,
        width,
        sizes.content_h,
        sizes.content_w,
        spec.resample,
        content,
    );
    crate::glm_vl::geometry::law_canvas(rules, h, w);
    crate::glm_vl::geometry::law_content_in_canvas(rules, h, w);
    assert(sizes.content_h * sizes.content_w * 3 <= content.len());
    super::flattening::lemma_pads(
        content,
        sizes.content_h as int,
        sizes.content_w as int,
        sizes.canvas_h as int,
        sizes.canvas_w as int,
    );
    let canvas = crate::glm_vl::padding::padded(
        content,
        sizes.content_h as int,
        sizes.content_w as int,
        sizes.canvas_h as int,
        sizes.canvas_w as int,
    );
    let ps = spec.patch_size as int;
    let m = spec.merge_size as int;
    let e = spec.patch_expand_factor as int;
    vstd::arithmetic::mul::lemma_mul_strictly_positive(ps, m);
    vstd::arithmetic::div_mod::lemma_mod_mod(sizes.canvas_h as int, ps * m, e);
    vstd::arithmetic::div_mod::lemma_mod_mod(sizes.canvas_w as int, ps * m, e);
    super::flattening::lemma_holds_image(
        item,
        canvas,
        sizes.canvas_h,
        sizes.canvas_w,
        spec.patch_size,
        spec.merge_size,
        spec.temporal_patch_size,
        processor.table(),
    );
    assert(at_size(
        resize,
        rgb,
        height,
        width,
        sizes.content_h,
        sizes.content_w,
        spec.resample,
        content,
    ));
}

/// What preprocessing an image gives in the GLM VL family.
pub proof fn law_glm_preprocess_image<
    F: Fn(&[u8], usize, usize, usize, usize, Resample) -> Vec<u8>,
>(
    processor: &GlmVlProcessor,
    rgb: &[u8],
    height: usize,
    width: usize,
    resize: F,
    result: Result<ProcessedItem, String>,
)
    requires
        processor.wf(),
        processor.can_preprocess(rgb@, height, width, resize),
        call_ensures(
            GlmVlProcessor::preprocess_image::<F>,
            (processor, rgb, height, width, resize),
            result,
        ),
    ensures
        preprocesses(processor, rgb@, height, width, resize, result),
{
    lemma_preprocesses(processor, rgb@, height, width, resize, result);
}

/// What processing decoded media gives in the GLM VL family.
pub proof fn law_glm_process_item<
    F: Fn(&[u8], usize, usize, usize, usize, Resample) -> Vec<u8>,
>(
    processor: &GlmVlProcessor,
    media: &DecodedMedia,
    resize: F,
    result: Result<ProcessedItem, String>,
)
    requires
        processor.wf(),
        ({
            let DecodedMedia::Image { rgb, height, width } = *media;
            processor.can_preprocess(rgb@, height, width, resize)
        }),
        call_ensures(GlmVlProcessor::process_item::<F>, (processor, media, resize), result),
    ensures
        ({
            let DecodedMedia::Image { rgb, height, width } = *media;
            preprocesses(processor, rgb@, height, width, resize, result)
        }),
{
    let DecodedMedia::Image { rgb, height, width } = *media;
    lemma_preprocesses(processor, rgb@, height, width, resize, result);
}

/// Whether a table holds every byte of every channel, normalized.
pub open spec fn normalizes_all(
    resample: Resampler,
    mean: Seq<crate::binary32::Binary32>,
    std: Seq<crate::binary32::Binary32>,
    table: crate::common::grid::Lut,
) -> bool {
    forall|c: int, v: int|
        0 <= c < 3 && 0 <= v < 256 ==> super::singles::normalizes(
            resample,
            mean[c],
            std[c],
            v,
            #[trigger] table@[c]@[v],
        )
}

/// A Qwen VL processor is made of positive sizes, and keeps its parameters and the
/// normalized bytes.
pub proof fn law_qwen_new(spec: QwenVlSpec, result: Result<QwenVlProcessor, String>)
    requires
        call_ensures(QwenVlProcessor::new, (spec,), result),
    ensures
        result is Ok <==> 0 < spec.patch_size && 0 < spec.merge_size && 0
            < spec.temporal_patch_size,
        result matches Ok(processor) ==> {
            &&& processor.params() == spec
            &&& processor.wf()
            &&& normalizes_all(
                spec.resample,
                spec.image_mean@,
                spec.image_std@,
                processor.table(),
            )
        },
        result matches Err(e) ==> e@ == "qwen_vl spec: sizes must be positive"@,
{
    if let Ok(processor) = result {
        assert forall|c: int, v: int| 0 <= c < 3 && 0 <= v < 256 implies super::singles::normalizes(
            spec.resample,
            spec.image_mean@[c],
            spec.image_std@[c],
            v,
            #[trigger] processor.table()@[c]@[v],
        ) by {
            super::singles::lemma_normalizes(
                spec.resample,
                spec.image_mean@[c],
                spec.image_std@[c],
                v,
            );
        }
    }
}

/// Whether a channel can be normalized: mean and deviation are numbers, the latter not 0.
pub open spec fn usable_channel(spec: GlmVlSpec, c: int) -> bool {
    &&& super::singles::is_number(spec.image_mean@[c])
    &&& super::singles::is_number(spec.image_std@[c])
    &&& super::singles::number(spec.image_std@[c]) != 0real
}

/// Why there is no GLM VL processor with the given parameters, reason by reason, or `None`.
pub open spec fn glm_reason(spec: GlmVlSpec) -> Option<Seq<char>> {
    let side = spec.patch_size * spec.merge_size;
    let factor = side * spec.patch_expand_factor;
    let token = spec.temporal_patch_size * (side * side);
    let smallest = spec.temporal_patch_size * (factor * factor);
    if spec.patch_size == 0 || spec.merge_size == 0 || spec.temporal_patch_size == 0
        || spec.patch_expand_factor == 0 || spec.min_image_tokens == 0 || spec.min_image_tokens
        > spec.max_image_tokens {
        Some("glm_vl spec: sizes and token budgets must be positive and ordered"@)
    } else if !usable_channel(spec, 0) || !usable_channel(spec, 1) || !usable_channel(spec, 2) {
        Some("glm_vl spec: mean/std must be finite and std nonzero"@)
    } else if spec.resample == Resampler::Pil && spec.patch_expand_factor > 1 {
        Some("glm_vl spec: PIL backend requires patch_expand_factor=1"@)
    } else if factor > usize::MAX {
        Some("glm_vl spec: factor overflow"@)
    } else if token > u128::MAX {
        Some("glm_vl spec: pixel budget overflow"@)
    } else if spec.min_image_tokens * token > u128::MAX {
        Some("glm_vl spec: minimum pixel budget overflow"@)
    } else if spec.max_image_tokens * token > u128::MAX {
        Some("glm_vl spec: maximum pixel budget overflow"@)
    } else if smallest > u128::MAX {
        Some("glm_vl spec: minimum canvas overflow"@)
    } else if smallest > spec.max_image_tokens * token {
        Some("glm_vl spec: max_image_tokens cannot fit the minimum canvas"@)
    } else {
        None
    }
}

/// The contract's reasons.
proof fn lemma_glm_reason(spec: GlmVlSpec)
    ensures
        spec.error() == glm_reason(spec),
{
    let side = spec.token_side();
    let factor = spec.side_factor();
    let f = spec.temporal_patch_size as int;
    vstd::arithmetic::mul::lemma_mul_is_associative(f, side, side);
    vstd::arithmetic::mul::lemma_mul_is_associative(f, factor, factor);
    super::singles::lemma_fields(spec.image_mean@[0]);
    super::singles::lemma_fields(spec.image_mean@[1]);
    super::singles::lemma_fields(spec.image_mean@[2]);
    super::singles::lemma_fields(spec.image_std@[0]);
    super::singles::lemma_fields(spec.image_std@[1]);
    super::singles::lemma_fields(spec.image_std@[2]);
    assert(usable_channel(spec, 0) == spec.channel_valid(0));
    assert(usable_channel(spec, 1) == spec.channel_valid(1));
    assert(usable_channel(spec, 2) == spec.channel_valid(2));
    if usable_channel(spec, 0) && usable_channel(spec, 1) && usable_channel(spec, 2) {
        assert forall|c: int| 0 <= c < 3 implies #[trigger] spec.channel_valid(c) by {
            if c == 0 {
            } else if c == 1 {
            } else {
                assert(c == 2);
            }
        }
    }
}

/// A GLM VL processor is made unless there is a reason not to, and keeps its parameters,
/// the rules of its canvases and the normalized bytes.
pub proof fn law_glm_new(spec: GlmVlSpec, result: Result<GlmVlProcessor, String>)
    requires
        call_ensures(GlmVlProcessor::new, (spec,), result),
    ensures
        match result {
            Ok(processor) => {
                let side = spec.patch_size * spec.merge_size;
                let token = spec.temporal_patch_size * (side * side);
                let rules = processor.canvas();
                &&& glm_reason(spec) is None
                &&& processor.params() == spec
                &&& processor.wf()
                &&& rules.factor == side * spec.patch_expand_factor
                &&& rules.frames == spec.temporal_patch_size
                &&& rules.min_pixels == spec.min_image_tokens * token
                &&& rules.max_pixels == spec.max_image_tokens * token
                &&& normalizes_all(
                    spec.resample,
                    spec.image_mean@,
                    spec.image_std@,
                    processor.table(),
                )
            },
            Err(e) => glm_reason(spec) == Some(e@),
        },
{
    lemma_glm_reason(spec);
    if let Ok(processor) = result {
        let side = spec.token_side();
        let f = spec.temporal_patch_size as int;
        vstd::arithmetic::mul::lemma_mul_is_associative(f, side, side);
        vstd::arithmetic::mul::lemma_mul_nonnegative(
            spec.patch_size as int,
            spec.merge_size as int,
        );
        vstd::arithmetic::mul::lemma_mul_nonnegative(side, spec.patch_expand_factor as int);
        vstd::arithmetic::mul::lemma_mul_nonnegative(f, side);
        vstd::arithmetic::mul::lemma_mul_nonnegative(f * side, side);
        vstd::arithmetic::mul::lemma_mul_nonnegative(
            spec.min_image_tokens as int,
            spec.token_pixels(),
        );
        vstd::arithmetic::mul::lemma_mul_nonnegative(
            spec.max_image_tokens as int,
            spec.token_pixels(),
        );
        assert forall|c: int, v: int| 0 <= c < 3 && 0 <= v < 256 implies super::singles::normalizes(
            spec.resample,
            spec.image_mean@[c],
            spec.image_std@[c],
            v,
            #[trigger] processor.table()@[c]@[v],
        ) by {
            super::singles::lemma_normalizes(
                spec.resample,
                spec.image_mean@[c],
                spec.image_std@[c],
                v,
            );
        }
    }
}

/// The default processor is the fast one, and every processor has its filter.
pub proof fn law_filters(r: Resampler, d: Resampler)
    requires
        call_ensures(Resampler::default, (), d),
    ensures
        d == Resampler::AtenU8,
        <Resample as vstd::std_specs::convert::FromSpec<Resampler>>::from_spec(r) == filter_of(r),
{
}

}
