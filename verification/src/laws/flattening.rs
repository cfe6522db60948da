//! Where the pixels of an image go when it is flattened, and what an item holds.
use crate::binary32::Binary32;
use crate::common::grid::{image_item, patchify, Lut};
use crate::glm_vl::padding::pad;
use crate::pipeline::{grid_item, Geometry, ProcessedItem};
use crate::qwen_vl::QwenVlProcessor;
use vstd::prelude::*;

verus! {

/// Where a value stands in a flattened image that is `gw` patches wide: by band of `m` patch
/// rows, block of `m` by `m` patches in the band, row and column of the patch in the block,
/// channel, copy, and row and column of the pixel in the patch.
pub open spec fn spot(
    gw: int,
    ps: int,
    m: int,
    tps: int,
    band: int,
    block: int,
    patch_row: int,
    patch_column: int,
    channel: int,
    copy: int,
    row: int,
    column: int,
) -> int {
    let patch = band * (gw * m) + (block * m + patch_row) * m + patch_column;
    (((patch * 3 + channel) * tps + copy) * ps + row) * ps + column
}

/// Where value `off` of patch `p` of a band stands in a flattened image.
pub open spec fn patch_spot(
    gw: int,
    ps: int,
    m: int,
    tps: int,
    band: int,
    p: int,
    off: int,
) -> int {
    (band * (gw * m) + p) * (3 * tps * ps * ps) + off
}

/// Whether `out` is the image `rgb` of `h` by `w` pixels, flattened: with `tps` copies of
/// every pixel of every patch, each looked up in the table of its channel, patches in blocks
/// of `m` by `m`, and zero where a band has no whole block.
pub open spec fn flattens(
    rgb: Seq<u8>,
    h: int,
    w: int,
    ps: int,
    m: int,
    tps: int,
    lut: Lut,
    out: Seq<Binary32>,
) -> bool {
    let gw = w / ps;
    &&& out.len() == (h / ps) * gw * (3 * tps * ps * ps)
    &&& forall|
        band: int,
        block: int,
        patch_row: int,
        patch_column: int,
        channel: int,
        copy: int,
        row: int,
        column: int,
    |
        {
            &&& 0 <= band
            &&& 0 <= block < gw / m
            &&& 0 <= patch_row < m
            &&& 0 <= patch_column < m
            &&& 0 <= channel < 3
            &&& 0 <= copy < tps
            &&& 0 <= row < ps
            &&& 0 <= column < ps
            &&& 0 <= #[trigger] spot(
                gw,
                ps,
                m,
                tps,
                band,
                block,
                patch_row,
                patch_column,
                channel,
                copy,
                row,
                column,
            ) < out.len()
        } ==> {
            let y = (band * m + patch_row) * ps + row;
            let x = (block * m + patch_column) * ps + column;
            out[spot(
                gw,
                ps,
                m,
                tps,
                band,
                block,
                patch_row,
                patch_column,
                channel,
                copy,
                row,
                column,
            )] == lut@[channel]@[rgb[(y * w + x) * 3 + channel] as int]
        }
    &&& forall|band: int, p: int, off: int|
        {
            &&& 0 <= band
            &&& (gw / m) * (m * m) <= p < gw * m
            &&& 0 <= off < 3 * tps * ps * ps
            &&& 0 <= #[trigger] patch_spot(gw, ps, m, tps, band, p, off) < out.len()
        } ==> out[patch_spot(gw, ps, m, tps, band, p, off)].bits == 0
}

/// The place of a value, by patch and offset.
proof fn lemma_spot(
    patch: int,
    ps: int,
    tps: int,
    channel: int,
    copy: int,
    row: int,
    column: int,
)
    ensures
        (((patch * 3 + channel) * tps + copy) * ps + row) * ps + column == patch * (3 * tps * ps
            * ps) + (((channel * tps + copy) * ps + row) * ps + column),
{
    let a = patch * 3;
    let t = patch * (3 * tps);
    assert((a + channel) * tps == t + channel * tps) by (nonlinear_arith)
        requires
            a == patch * 3,
            t == patch * (3 * tps),
    ;
    let b = channel * tps + copy;
    assert((t + b) * ps == t * ps + b * ps) by (nonlinear_arith);
    let c = b * ps + row;
    assert((t * ps + c) * ps == t * ps * ps + c * ps) by (nonlinear_arith);
    assert(t * ps * ps == patch * (3 * tps * ps * ps)) by (nonlinear_arith)
        requires
            t == patch * (3 * tps),
    ;
}

/// What the contract's values are, place by place.
proof fn lemma_flattens(
    rgb: Seq<u8>,
    h: int,
    w: int,
    ps: int,
    m: int,
    tps: int,
    lut: Lut,
)
    requires
        0 < ps,
        0 < m,
        0 < tps,
        0 <= h,
        0 <= w,
    ensures
        flattens(
            rgb,
            h,
            w,
            ps,
            m,
            tps,
            lut,
            crate::common::grid::image_values(
                rgb,
                w,
                ps,
                m,
                tps,
                lut,
                (h / ps) * (w / ps) * crate::common::grid::patch_len(ps, tps),
            ),
        ),
{
    let gw = w / ps;
    let dim = crate::common::grid::patch_len(ps, tps);
    let n = (h / ps) * gw * dim;
    let out = crate::common::grid::image_values(rgb, w, ps, m, tps, lut, n);
    crate::common::grid::lemma_patch_len_positive(ps, tps);
    vstd::arithmetic::div_mod::lemma_div_pos_is_pos(h, ps);
    vstd::arithmetic::div_mod::lemma_div_pos_is_pos(w, ps);
    assert(0 <= n) by (nonlinear_arith)
        requires
            n == (h / ps) * gw * dim,
            0 <= h / ps,
            0 <= gw,
            0 < dim,
    ;
    assert forall|
        band: int,
        block: int,
        patch_row: int,
        patch_column: int,
        channel: int,
        copy: int,
        row: int,
        column: int,
    |
        {
            &&& 0 <= band
            &&& 0 <= block < gw / m
            &&& 0 <= patch_row < m
            &&& 0 <= patch_column < m
            &&& 0 <= channel < 3
            &&& 0 <= copy < tps
            &&& 0 <= row < ps
            &&& 0 <= column < ps
            &&& 0 <= #[trigger] spot(
                gw,
                ps,
                m,
                tps,
                band,
                block,
                patch_row,
                patch_column,
                channel,
                copy,
                row,
                column,
            ) < out.len()
        } implies {
        let y = (band * m + patch_row) * ps + row;
        let x = (block * m + patch_column) * ps + column;
        out[spot(
            gw,
            ps,
            m,
            tps,
            band,
            block,
            patch_row,
            patch_column,
            channel,
            copy,
            row,
            column,
        )] == lut@[channel]@[rgb[(y * w + x) * 3 + channel] as int]
    } by {
        crate::common::grid::law_flattening_order(
            rgb,
            w,
            ps,
            m,
            tps,
            lut,
            band,
            block,
            patch_row,
            patch_column,
            channel,
            copy,
            row,
            column,
        );
        let p = (block * m + patch_row) * m + patch_column;
        let first = band * (gw * m);
        lemma_spot(first + p, ps, tps, channel, copy, row, column);
        vstd::arithmetic::mul::lemma_mul_is_distributive_add_other_way(dim, first, p);
        assert((first + p) * 3 == (first + (block * m + patch_row) * m + patch_column) * 3);
        assert(crate::common::grid::flat_index(
            gw,
            ps,
            m,
            tps,
            band,
            block,
            patch_row,
            patch_column,
            channel,
            copy,
            row,
            column,
        ) == spot(
            gw,
            ps,
            m,
            tps,
            band,
            block,
            patch_row,
            patch_column,
            channel,
            copy,
            row,
            column,
        ));
    }
    assert forall|band: int, p: int, off: int|
        {
            &&& 0 <= band
            &&& (gw / m) * (m * m) <= p < gw * m
            &&& 0 <= off < 3 * tps * ps * ps
            &&& 0 <= #[trigger] patch_spot(gw, ps, m, tps, band, p, off) < out.len()
        } implies out[patch_spot(gw, ps, m, tps, band, p, off)].bits == 0 by {
        vstd::arithmetic::div_mod::lemma_div_pos_is_pos(gw, m);
        vstd::arithmetic::mul::lemma_mul_nonnegative(m, m);
        vstd::arithmetic::mul::lemma_mul_nonnegative(gw / m, m * m);
        crate::common::grid::lemma_locate(band, p, off, gw * m, dim);
        vstd::arithmetic::mul::lemma_mul_is_distributive_add_other_way(dim, band * (gw * m), p);
    }
}

/// What flattening an image gives.
pub proof fn law_patchify(
    rgb: &[u8],
    h: usize,
    w: usize,
    ps: usize,
    m: usize,
    tps: usize,
    lut: &Lut,
    out: Vec<Binary32>,
)
    requires
        0 < ps,
        0 < m,
        0 < tps,
        call_ensures(patchify, (rgb, h, w, ps, m, tps, lut), out),
    ensures
        flattens(
            rgb@,
            h as int,
            w as int,
            ps as int,
            m as int,
            tps as int,
            *lut,
            out@,
        ),
{
    lemma_flattens(rgb@, h as int, w as int, ps as int, m as int, tps as int, *lut);
}

/// A processor flattens with its own sizes and tables.
pub proof fn law_qwen_patchify(
    processor: &QwenVlProcessor,
    rgb: &[u8],
    h: usize,
    w: usize,
    out: Vec<Binary32>,
)
    requires
        processor.wf(),
        call_ensures(QwenVlProcessor::patchify, (processor, rgb, h, w), out),
    ensures
        flattens(
            rgb@,
            h as int,
            w as int,
            processor.params().patch_size as int,
            processor.params().merge_size as int,
            processor.params().temporal_patch_size as int,
            processor.table(),
            out@,
        ),
{
    let spec = processor.params();
    lemma_flattens(
        rgb@,
        h as int,
        w as int,
        spec.patch_size as int,
        spec.merge_size as int,
        spec.temporal_patch_size as int,
        processor.table(),
    );
}

/// Whether `item` is a still image of `gh` by `gw` patches with `dim` values each: its
/// values as a matrix, and its grid as one frame of rows and columns.
pub open spec fn holds_grid(item: ProcessedItem, gh: int, gw: int, dim: int) -> bool {
    &&& item.feature.shape@.len() == 2
    &&& item.feature.shape@[0] == gh * gw
    &&& item.feature.shape@[1] == dim
    &&& item.feature.data is F32
    &&& item.aux@.len() == 1
    &&& item.aux@[0].0@ == "image_grid_thw"@
    &&& item.aux@[0].1.shape@.len() == 1
    &&& item.aux@[0].1.shape@[0] == 3
    &&& item.aux@[0].1.data is I64
    &&& item.aux@[0].1.data->I64_0@.len() == 3
    &&& item.aux@[0].1.data->I64_0@[0] == 1
    &&& item.aux@[0].1.data->I64_0@[1] == gh
    &&& item.aux@[0].1.data->I64_0@[2] == gw
    &&& match item.geometry {
        Geometry::Grid(grid) => grid@[0] == 1 && (gh <= u32::MAX ==> grid@[1] == gh) && (gw
            <= u32::MAX ==> grid@[2] == gw),
    }
}

/// The contract's item of a patch grid.
proof fn lemma_holds_grid(
    item: ProcessedItem,
    values: Seq<Binary32>,
    gh: usize,
    gw: usize,
    dim: int,
)
    requires
        gh <= i64::MAX,
        gw <= i64::MAX,
        gh * gw <= usize::MAX,
        0 <= dim <= usize::MAX,
        crate::pipeline::is_grid_item(item, values, gh, gw, dim),
    ensures
        holds_grid(item, gh as int, gw as int, dim),
        item.feature.data->F32_0@ == values,
{
    match item.geometry {
        Geometry::Grid(grid) => {
            assert(grid@ == seq![1u32, gh as u32, gw as u32]);
        },
    }
}

/// An item of a patch grid holds all values, in rows of equal length.
pub proof fn law_grid_item(values: Vec<Binary32>, gh: usize, gw: usize, item: ProcessedItem)
    requires
        0 < gh <= i64::MAX,
        0 < gw <= i64::MAX,
        gh * gw <= usize::MAX,
        values@.len() <= usize::MAX,
        call_ensures(grid_item, (values, gh, gw), item),
    ensures
        exists|dim: int|
            {
                &&& #[trigger] holds_grid(item, gh as int, gw as int, dim)
                &&& dim * (gh * gw) <= values@.len() < (dim + 1) * (gh * gw)
            },
        item.feature.data->F32_0@ == values@,
{
    let n = gh * gw;
    vstd::arithmetic::mul::lemma_mul_strictly_positive(gh as int, gw as int);
    let dim = values@.len() as int / n;
    vstd::arithmetic::div_mod::lemma_fundamental_div_mod(values@.len() as int, n);
    vstd::arithmetic::div_mod::lemma_mod_bound(values@.len() as int, n);
    vstd::arithmetic::div_mod::lemma_div_nonincreasing(values@.len() as int, n);
    vstd::arithmetic::div_mod::lemma_div_pos_is_pos(values@.len() as int, n);
    vstd::arithmetic::mul::lemma_mul_is_commutative(n, dim);
    vstd::arithmetic::mul::lemma_mul_is_distributive_add_other_way(n, dim, 1);
    lemma_holds_grid(item, values@, gh, gw, dim);
}

/// Whether `item` is the image `rgb` of `h` by `w` pixels, flattened, with its grid.
pub open spec fn holds_image(
    item: ProcessedItem,
    rgb: Seq<u8>,
    h: int,
    w: int,
    ps: int,
    m: int,
    tps: int,
    lut: Lut,
) -> bool {
    &&& holds_grid(item, h / ps, w / ps, 3 * tps * ps * ps)
    &&& flattens(rgb, h, w, ps, m, tps, lut, item.feature.data->F32_0@)
}

/// The contract's item of an image.
pub proof fn lemma_holds_image(
    item: ProcessedItem,
    rgb: Seq<u8>,
    h: usize,
    w: usize,
    ps: usize,
    m: usize,
    tps: usize,
    lut: Lut,
)
    requires
        0 < ps,
        0 < m,
        0 < tps,
        0 < h,
        0 < w,
        h as int % (ps * m) == 0,
        w as int % (ps * m) == 0,
        4 * (3 * tps * (h * w)) <= isize::MAX,
        crate::common::grid::is_image_item(item, rgb, h, w, ps, m, tps, lut),
    ensures
        holds_image(
            item,
            rgb,
            h as int,
            w as int,
            ps as int,
            m as int,
            tps as int,
            lut,
        ),
{
    let gh = h as int / ps as int;
    let gw = w as int / ps as int;
    let dim = crate::common::grid::patch_len(ps as int, tps as int);
    crate::common::grid::lemma_flattenable(h as int, w as int, ps as int, m as int, tps as int);
    lemma_flattens(rgb, h as int, w as int, ps as int, m as int, tps as int, lut);
    vstd::arithmetic::div_mod::lemma_div_pos_is_pos(h as int, ps as int);
    vstd::arithmetic::div_mod::lemma_div_pos_is_pos(w as int, ps as int);
    assert(gh <= gh * gw && gw <= gh * gw) by (nonlinear_arith)
        requires
            0 < gh * gw,
            0 <= gh,
            0 <= gw,
    ;
    lemma_holds_grid(
        item,
        crate::common::grid::image_values(
            rgb,
            w as int,
            ps as int,
            m as int,
            tps as int,
            lut,
            gh * gw * dim,
        ),
        h / ps,
        w / ps,
        dim,
    );
}

/// What flattening an image into an item gives.
pub proof fn law_image_item(
    rgb: &[u8],
    h: usize,
    w: usize,
    ps: usize,
    m: usize,
    tps: usize,
    lut: &Lut,
    item: ProcessedItem,
)
    requires
        0 < ps,
        0 < m,
        0 < tps,
        0 < h,
        0 < w,
        h as int % (ps * m) == 0,
        w as int % (ps * m) == 0,
        4 * (3 * tps * (h * w)) <= isize::MAX,
        call_ensures(image_item, (rgb, h, w, ps, m, tps, lut), item),
    ensures
        holds_image(
            item,
            rgb@,
            h as int,
            w as int,
            ps as int,
            m as int,
            tps as int,
            *lut,
        ),
{
    lemma_holds_image(item, rgb@, h, w, ps, m, tps, *lut);
}

/// Whether `canvas` has `height` by `width` pixels, with the content in its upper left
/// corner and zero elsewhere.
pub open spec fn pads(
    content: Seq<u8>,
    content_h: int,
    content_w: int,
    height: int,
    width: int,
    canvas: Seq<u8>,
) -> bool {
    &&& canvas.len() == height * width * 3
    &&& forall|y: int, x: int, c: int|
        0 <= y < height && 0 <= x < width && 0 <= c < 3 ==> #[trigger] canvas[(y * width + x) * 3
            + c] == (if y < content_h && x < content_w {
            content[(y * content_w + x) * 3 + c]
        } else {
            0
        })
}

/// The contract's canvas.
pub proof fn lemma_pads(
    content: Seq<u8>,
    content_h: int,
    content_w: int,
    height: int,
    width: int,
)
    requires
        1 <= content_h <= height,
        1 <= content_w <= width,
        content_h * content_w * 3 <= content.len(),
    ensures
        pads(
            content,
            content_h,
            content_w,
            height,
            width,
            crate::glm_vl::padding::padded(content, content_h, content_w, height, width),
        ),
{
    let canvas = crate::glm_vl::padding::padded(content, content_h, content_w, height, width);
    assert(0 <= height * width * 3) by (nonlinear_arith)
        requires
            1 <= height,
            1 <= width,
    ;
    assert forall|y: int, x: int, c: int|
        0 <= y < height && 0 <= x < width && 0 <= c < 3 implies #[trigger] canvas[(y * width + x)
        * 3 + c] == (if y < content_h && x < content_w {
        content[(y * content_w + x) * 3 + c]
    } else {
        0
    }) by {
        crate::glm_vl::padding::law_padding(
            content,
            content_h,
            content_w,
            height,
            width,
            y,
            x,
            c,
        );
    }
}

/// What padding gives.
pub proof fn law_pad(
    content: &[u8],
    content_h: usize,
    content_w: usize,
    height: usize,
    width: usize,
    canvas: Vec<u8>,
)
    requires
        1 <= content_h <= height,
        1 <= content_w <= width,
        content_h * content_w * 3 <= content@.len(),
        call_ensures(pad, (content, content_h, content_w, height, width), canvas),
    ensures
        pads(
            content@,
            content_h as int,
            content_w as int,
            height as int,
            width as int,
            canvas@,
        ),
{
    lemma_pads(
        content@,
        content_h as int,
        content_w as int,
        height as int,
        width as int,
    );
}

}
