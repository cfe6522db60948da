//! Patch flattening of grid images, and their M-RoPE positions.
use crate::binary32::Binary32;
use crate::pipeline::{grid_item, ProcessedItem};
use crate::qwen_vl::Resampler;
use vstd::prelude::*;

pub use super::mrope::{mrope_image_only, MropeItem};

verus! {

/// The normalized value of every byte, per colour channel.
pub type Lut = [[Binary32; 256]; 3];

/// A byte as a binary32 number.
pub open spec fn byte_number(v: int) -> Binary32 {
    crate::binary32::signed(false, crate::binary32::encoding(v as real))
}

/// A byte, normalized as the chosen processor rounds it. The slow one rescales
/// to the unit interval and then normalizes; the fast one rescales mean and
/// deviation instead.
pub open spec fn normalized(
    resample: Resampler,
    mean: Binary32,
    std: Binary32,
    v: int,
) -> Binary32 {
    let scale = byte_number(255);
    match resample {
        Resampler::Pil => crate::binary32::quotient(
            crate::binary32::difference(
                crate::binary32::quotient(byte_number(v), scale),
                mean,
            ),
            std,
        ),
        Resampler::AtenU8 => crate::binary32::quotient(
            crate::binary32::difference(
                byte_number(v),
                crate::binary32::product(mean, scale),
            ),
            crate::binary32::product(std, scale),
        ),
    }
}

/// The normalized value of every byte, for a channel's mean and deviation.
pub fn normalize_lut(resample: Resampler, mean: Binary32, std: Binary32) -> (lut: [Binary32; 256])
    ensures
        forall|v: int| 0 <= v < 256 ==> #[trigger] lut@[v] == normalized(resample, mean, std, v),
{
    let scale = Binary32::from_byte(255);
    let mut lut: [Binary32; 256] = [Binary32 { bits: 0 };256];
    let mut v: usize = 0;
    let fused_mean = mean.mul(scale);
    let fused_std = std.mul(scale);
    while v < 256
        invariant
            v <= 256,
            scale == byte_number(255),
            fused_mean == crate::binary32::product(mean, scale),
            fused_std == crate::binary32::product(std, scale),
            forall|i: int| 0 <= i < v ==> #[trigger] lut@[i] == normalized(resample, mean, std, i),
        decreases 256 - v,
    {
        let byte = Binary32::from_byte(v as u8);
        let value = match resample {
            Resampler::Pil => byte.div(scale).sub(mean).div(std),
            Resampler::AtenU8 => byte.sub(fused_mean).div(fused_std),
        };
        lut[v] = value;
        v = v + 1;
    }
    lut
}

/// Values of one flattened patch: `tps` copies of a square of `ps` pixels per
/// side, for each of three channels.
pub open spec fn patch_len(ps: int, tps: int) -> int {
    3 * tps * ps * ps
}

/// Where the pixel at row `y` and column `x` keeps its channel `c`.
pub open spec fn byte_index(w: int, y: int, x: int, c: int) -> int {
    (y * w + x) * 3 + c
}

/// Value `off` of the patch whose upper left pixel is at row `y0` and column
/// `x0`: channels are outermost, then temporal copies, rows and columns.
pub open spec fn patch_value(
    rgb: Seq<u8>,
    w: int,
    ps: int,
    tps: int,
    lut: Lut,
    y0: int,
    x0: int,
    off: int,
) -> Binary32 {
    let c = off / (tps * ps * ps);
    let py = (off / ps) % ps;
    let px = off % ps;
    lut@[c]@[rgb[byte_index(w, y0 + py, x0 + px, c)] as int]
}

/// Patches of a band of blocks that lie in whole blocks of `m` by `m` patches.
pub open spec fn band_patches(gw: int, m: int) -> int {
    (gw / m) * (m * m)
}

/// Value `k` of the flattened image. Patches come in bands of `m` patch rows,
/// within a band in blocks of `m` by `m` patches from left to right, and
/// within a block row by row; what a band has left beside its whole blocks is
/// zero.
pub open spec fn image_value(
    rgb: Seq<u8>,
    w: int,
    ps: int,
    m: int,
    tps: int,
    lut: Lut,
    k: int,
) -> Binary32 {
    let gw = w / ps;
    let patch = k / patch_len(ps, tps);
    let band = patch / (gw * m);
    let p = patch % (gw * m);
    if p < band_patches(gw, m) {
        let y0 = (band * m + (p / m) % m) * ps;
        let x0 = ((p / (m * m)) * m + p % m) * ps;
        patch_value(rgb, w, ps, tps, lut, y0, x0, k % patch_len(ps, tps))
    } else {
        Binary32 { bits: 0 }
    }
}

/// Bands of `m` patch rows, the last one possibly cut short.
pub open spec fn bands(gh: int, m: int) -> int {
    (gh + m - 1) / m
}

/// Bytes up to the last one that the flattening reads.
pub open spec fn bytes_read(h: int, w: int, ps: int, m: int) -> int {
    if h / ps == 0 || (w / ps) / m == 0 {
        0
    } else {
        byte_index(w, bands(h / ps, m) * m * ps - 1, ((w / ps) / m) * m * ps, 0)
    }
}

/// Splits an offset in a patch into channel, copy, row and column.
proof fn lemma_patch_offset(c: int, t: int, py: int, px: int, ps: int, tps: int)
    requires
        0 <= c,
        0 <= t < tps,
        0 <= py < ps,
        0 <= px < ps,
    ensures
        ({
            let off = ((c * tps + t) * ps + py) * ps + px;
            &&& off / (tps * ps * ps) == c
            &&& (off / ps) % ps == py
            &&& off % ps == px
        }),
{
    let a = c * tps + t;
    let b = a * ps + py;
    let off = b * ps + px;
    vstd::arithmetic::div_mod::lemma_fundamental_div_mod_converse(off, ps, b, px);
    vstd::arithmetic::div_mod::lemma_fundamental_div_mod_converse(b, ps, a, py);
    vstd::arithmetic::div_mod::lemma_fundamental_div_mod_converse(a, tps, c, t);
    assert(0 <= c * tps && 0 <= a * ps && 0 <= b * ps) by (nonlinear_arith)
        requires
            0 <= c,
            0 <= t < tps,
            a == c * tps + t,
            0 <= py < ps,
            b == a * ps + py,
    ;
    vstd::arithmetic::div_mod::lemma_div_denominator(off, ps, ps);
    vstd::arithmetic::mul::lemma_mul_strictly_positive(ps, ps);
    vstd::arithmetic::div_mod::lemma_div_denominator(off, ps * ps, tps);
    assert((ps * ps) * tps == tps * ps * ps) by (nonlinear_arith);
}

/// The first `n` values of a patch.
pub open spec fn patch_values(
    rgb: Seq<u8>,
    w: int,
    ps: int,
    tps: int,
    lut: Lut,
    y0: int,
    x0: int,
    n: int,
) -> Seq<Binary32> {
    Seq::new(n as nat, |off: int| patch_value(rgb, w, ps, tps, lut, y0, x0, off))
}

proof fn lemma_byte_order(w: int, y: int, x: int, c: int, y1: int, x1: int)
    requires
        0 <= w,
        0 <= y <= y1,
        0 <= x <= x1,
        0 <= c <= 2,
    ensures
        0 <= y * w <= y1 * w,
        0 <= byte_index(w, y, x, c) <= byte_index(w, y1, x1, 2),
{
    assert(0 <= y * w <= y1 * w) by (nonlinear_arith)
        requires
            0 <= w,
            0 <= y <= y1,
    ;
}

/// Appends the values of one patch.
fn push_patch(
    out: &mut Vec<Binary32>,
    rgb: &[u8],
    w: usize,
    ps: usize,
    tps: usize,
    lut: &Lut,
    y0: usize,
    x0: usize,
)
    requires
        0 < ps,
        0 < tps,
        byte_index(w as int, y0 + ps - 1, x0 + ps - 1, 2) < rgb@.len(),
        y0 + ps <= usize::MAX,
        x0 + ps <= usize::MAX,
        patch_len(ps as int, tps as int) <= usize::MAX,
    ensures
        final(out)@ == old(out)@ + patch_values(
            rgb@,
            w as int,
            ps as int,
            tps as int,
            *lut,
            y0 as int,
            x0 as int,
            patch_len(ps as int, tps as int),
        ),
{
    let ghost (gw, gps, gtps) = (w as int, ps as int, tps as int);
    let ghost start = out@;
    let ghost mut off: int = 0;
    let size: usize = rgb.len();
    proof {
        assert(0 * gtps * gps * gps == 0) by (nonlinear_arith);
        assert(start + patch_values(rgb@, gw, gps, gtps, *lut, y0 as int, x0 as int, 0)
            =~= start);
    }
    let mut c: usize = 0;
    while c < 3
        invariant
            c <= 3,
            0 < ps,
            0 < tps,
            gw == w,
            gps == ps,
            gtps == tps,
            byte_index(gw, y0 + gps - 1, x0 + gps - 1, 2) < rgb@.len() == size,
            y0 + ps <= usize::MAX,
            x0 + ps <= usize::MAX,
            off == c * gtps * gps * gps,
            out@ == start + patch_values(
                rgb@,
                gw,
                gps,
                gtps,
                *lut,
                y0 as int,
                x0 as int,
                off,
            ),
        decreases 3 - c,
    {
        let mut t: usize = 0;
        while t < tps
            invariant
                c < 3,
                t <= tps,
                0 < ps,
                0 < tps,
                gw == w,
                gps == ps,
                gtps == tps,
                byte_index(gw, y0 + gps - 1, x0 + gps - 1, 2) < rgb@.len() == size,
                y0 + ps <= usize::MAX,
                x0 + ps <= usize::MAX,
                off == (c * gtps + t) * gps * gps,
                out@ == start + patch_values(
                    rgb@,
                    gw,
                    gps,
                    gtps,
                    *lut,
                    y0 as int,
                    x0 as int,
                    off,
                ),
            decreases tps - t,
        {
            let mut py: usize = 0;
            while py < ps
                invariant
                    c < 3,
                    t < tps,
                    py <= ps,
                    0 < ps,
                    0 < tps,
                    gw == w,
                    gps == ps,
                    gtps == tps,
                    byte_index(gw, y0 + gps - 1, x0 + gps - 1, 2) < rgb@.len() == size,
                    y0 + ps <= usize::MAX,
                    x0 + ps <= usize::MAX,
                    off == ((c * gtps + t) * gps + py) * gps,
                    out@ == start + patch_values(
                        rgb@,
                        gw,
                        gps,
                        gtps,
                        *lut,
                        y0 as int,
                        x0 as int,
                        off,
                    ),
                decreases ps - py,
            {
                let mut px: usize = 0;
                while px < ps
                    invariant
                        c < 3,
                        t < tps,
                        py < ps,
                        px <= ps,
                        0 < ps,
                        0 < tps,
                        gw == w,
                        gps == ps,
                        gtps == tps,
                        byte_index(gw, y0 + gps - 1, x0 + gps - 1, 2) < rgb@.len() == size,
                        y0 + ps <= usize::MAX,
                        x0 + ps <= usize::MAX,
                        off == ((c * gtps + t) * gps + py) * gps + px,
                        out@ == start + patch_values(
                            rgb@,
                            gw,
                            gps,
                            gtps,
                            *lut,
                            y0 as int,
                            x0 as int,
                            off,
                        ),
                    decreases ps - px,
                {
                    proof {
                        lemma_patch_offset(
                            c as int,
                            t as int,
                            py as int,
                            px as int,
                            gps,
                            gtps,
                        );
                        lemma_byte_order(
                            gw,
                            y0 + py,
                            x0 + px,
                            c as int,
                            y0 + gps - 1,
                            x0 + gps - 1,
                        );
                        assert(0 <= off) by (nonlinear_arith)
                            requires
                                off == ((c * gtps + t) * gps + py) * gps + px,
                                0 < gps,
                                0 < gtps,
                                0 <= c,
                                0 <= t,
                                0 <= py,
                                0 <= px,
                        ;
                    }
                    let src: usize = ((y0 + py) * w + (x0 + px)) * 3 + c;
                    let v: Binary32 = lut[c][rgb[src] as usize];
                    out.push(v);
                    proof {
                        assert(out@ =~= start + patch_values(
                            rgb@,
                            gw,
                            gps,
                            gtps,
                            *lut,
                            y0 as int,
                            x0 as int,
                            off + 1,
                        ));
                        off = off + 1;
                    }
                    px = px + 1;
                }
                proof {
                    vstd::arithmetic::mul::lemma_mul_is_distributive_add_other_way(
                        gps,
                        (c * gtps + t) * gps + py,
                        1,
                    );
                }
                py = py + 1;
            }
            proof {
                vstd::arithmetic::mul::lemma_mul_is_distributive_add_other_way(
                    gps,
                    c * gtps + t,
                    1,
                );
            }
            t = t + 1;
        }
        proof {
            vstd::arithmetic::mul::lemma_mul_is_distributive_add_other_way(gtps, c as int, 1);
        }
        c = c + 1;
    }
}

/// The first `n` values of a band.
pub open spec fn band_values(
    rgb: Seq<u8>,
    w: int,
    ps: int,
    m: int,
    tps: int,
    lut: Lut,
    band: int,
    n: int,
) -> Seq<Binary32> {
    Seq::new(
        n as nat,
        |q: int|
            image_value(
                rgb,
                w,
                ps,
                m,
                tps,
                lut,
                band * ((w / ps) * m) * patch_len(ps, tps) + q,
            ),
    )
}

/// Splits an index of the flattened image into band, patch and offset.
pub proof fn lemma_locate(band: int, p: int, off: int, block: int, dim: int)
    requires
        0 <= band,
        0 <= p < block,
        0 <= off < dim,
    ensures
        ({
            let k = band * block * dim + (p * dim + off);
            &&& k / dim == band * block + p
            &&& k % dim == off
            &&& (k / dim) / block == band
            &&& (k / dim) % block == p
        }),
{
    let patch = band * block + p;
    let k = band * block * dim + (p * dim + off);
    vstd::arithmetic::mul::lemma_mul_is_distributive_add_other_way(dim, band * block, p);
    vstd::arithmetic::div_mod::lemma_fundamental_div_mod_converse(k, dim, patch, off);
    vstd::arithmetic::div_mod::lemma_fundamental_div_mod_converse(patch, block, band, p);
}

/// Splits the index of a patch in a band into block, row and column.
proof fn lemma_block_patch(j: int, mh: int, mw: int, m: int)
    requires
        0 <= j,
        0 <= mh < m,
        0 <= mw < m,
    ensures
        ({
            let p = (j * m + mh) * m + mw;
            &&& 0 <= p
            &&& (p / m) % m == mh
            &&& p % m == mw
            &&& p / (m * m) == j
        }),
{
    let a = j * m + mh;
    let p = a * m + mw;
    vstd::arithmetic::div_mod::lemma_fundamental_div_mod_converse(p, m, a, mw);
    vstd::arithmetic::div_mod::lemma_fundamental_div_mod_converse(a, m, j, mh);
    assert(0 <= j * m && 0 <= a * m) by (nonlinear_arith)
        requires
            0 <= j,
            0 <= mh < m,
            a == j * m + mh,
    ;
    vstd::arithmetic::div_mod::lemma_div_denominator(p, m, m);
}

/// The values of one patch inside a whole block continue its band.
proof fn lemma_append_patch(
    rgb: Seq<u8>,
    w: int,
    ps: int,
    m: int,
    tps: int,
    lut: Lut,
    band: int,
    j: int,
    mh: int,
    mw: int,
)
    requires
        0 < ps,
        0 < m,
        0 < tps,
        0 <= w,
        0 <= band,
        0 <= j < (w / ps) / m,
        0 <= mh < m,
        0 <= mw < m,
    ensures
        ({
            let p = (j * m + mh) * m + mw;
            let dim = patch_len(ps, tps);
            &&& 0 <= p < band_patches(w / ps, m) <= (w / ps) * m
            &&& 0 < dim
            &&& 0 <= p * dim
            &&& band_values(rgb, w, ps, m, tps, lut, band, p * dim) + patch_values(
                rgb,
                w,
                ps,
                tps,
                lut,
                (band * m + mh) * ps,
                (j * m + mw) * ps,
                dim,
            ) == band_values(rgb, w, ps, m, tps, lut, band, p * dim + dim)
        }),
{
    let gw = w / ps;
    let block = gw * m;
    let dim = patch_len(ps, tps);
    let p = (j * m + mh) * m + mw;
    lemma_block_patch(j, mh, mw, m);
    lemma_patch_len_positive(ps, tps);
    lemma_band_patches(gw, m);
    assert(p < band_patches(gw, m)) by (nonlinear_arith)
        requires
            p == (j * m + mh) * m + mw,
            0 <= j,
            j + 1 <= gw / m,
            0 <= mh < m,
            0 <= mw < m,
            band_patches(gw, m) == (gw / m) * (m * m),
    ;
    assert(0 <= p * dim) by (nonlinear_arith)
        requires
            0 <= p,
            0 < dim,
    ;
    let y0 = (band * m + mh) * ps;
    let x0 = (j * m + mw) * ps;
    let left = band_values(rgb, w, ps, m, tps, lut, band, p * dim) + patch_values(
        rgb,
        w,
        ps,
        tps,
        lut,
        y0,
        x0,
        dim,
    );
    let right = band_values(rgb, w, ps, m, tps, lut, band, p * dim + dim);
    assert forall|q: int| 0 <= q < p * dim + dim implies left[q] == right[q] by {
        if q >= p * dim {
            lemma_locate(band, p, q - p * dim, block, dim);
        }
    }
    assert(left =~= right);
}

pub proof fn lemma_patch_len_positive(ps: int, tps: int)
    requires
        0 < ps,
        0 < tps,
    ensures
        0 < patch_len(ps, tps),
{
    assert(0 < 3 * tps * ps * ps) by (nonlinear_arith)
        requires
            0 < ps,
            0 < tps,
    ;
}

/// Whole blocks hold no more patches than the band.
proof fn lemma_band_patches(gw: int, m: int)
    requires
        0 <= gw,
        0 < m,
    ensures
        0 <= band_patches(gw, m) <= gw * m,
        0 <= (gw / m) * m <= gw,
{
    vstd::arithmetic::div_mod::lemma_fundamental_div_mod(gw, m);
    vstd::arithmetic::div_mod::lemma_mod_bound(gw, m);
    vstd::arithmetic::div_mod::lemma_div_pos_is_pos(gw, m);
    let a = gw / m;
    assert(m * a == a * m) by (nonlinear_arith);
    assert(0 <= a * (m * m) <= gw * m && 0 <= a * m) by (nonlinear_arith)
        requires
            0 <= a,
            a * m <= gw,
            0 < m,
    ;
}

/// Zeros continue a band behind its whole blocks.
proof fn lemma_append_zero(
    rgb: Seq<u8>,
    w: int,
    ps: int,
    m: int,
    tps: int,
    lut: Lut,
    band: int,
    q: int,
)
    requires
        0 < ps,
        0 < m,
        0 < tps,
        0 <= w,
        0 <= band,
        band_patches(w / ps, m) * patch_len(ps, tps) <= q < ((w / ps) * m) * patch_len(ps, tps),
    ensures
        band_values(rgb, w, ps, m, tps, lut, band, q).push(Binary32 { bits: 0 }) == band_values(
            rgb,
            w,
            ps,
            m,
            tps,
            lut,
            band,
            q + 1,
        ),
{
    let gw = w / ps;
    let block = gw * m;
    let dim = patch_len(ps, tps);
    let full = band_patches(gw, m);
    lemma_patch_len_positive(ps, tps);
    vstd::arithmetic::div_mod::lemma_div_pos_is_pos(w, ps);
    lemma_band_patches(gw, m);
    assert(0 <= full * dim) by (nonlinear_arith)
        requires
            0 <= full,
            0 < dim,
    ;
    let p = q / dim;
    let off = q % dim;
    vstd::arithmetic::div_mod::lemma_fundamental_div_mod(q, dim);
    vstd::arithmetic::mul::lemma_mul_is_commutative(dim, p);
    vstd::arithmetic::div_mod::lemma_mod_bound(q, dim);
    assert(full <= p < block) by (nonlinear_arith)
        requires
            full * dim <= q < block * dim,
            q == p * dim + off,
            0 <= off < dim,
    ;
    lemma_locate(band, p, off, block, dim);
    assert(band_values(rgb, w, ps, m, tps, lut, band, q).push(Binary32 { bits: 0 })
        =~= band_values(rgb, w, ps, m, tps, lut, band, q + 1));
}

/// Whether the bytes that a band reads are there.
spec fn band_readable(len: int, w: int, ps: int, m: int, band: int) -> bool {
    (w / ps) / m == 0 || byte_index(
        w,
        (band + 1) * m * ps - 1,
        ((w / ps) / m) * m * ps,
        0,
    ) <= len
}

/// A patch of a readable band reads bytes that are there.
proof fn lemma_patch_readable(
    len: int,
    w: int,
    ps: int,
    m: int,
    band: int,
    j: int,
    mh: int,
    mw: int,
)
    requires
        0 < ps,
        0 < m,
        0 <= w,
        0 <= band,
        0 <= j < (w / ps) / m,
        0 <= mh < m,
        0 <= mw < m,
        band_readable(len, w, ps, m, band),
    ensures
        0 <= (band * m + mh) * ps,
        0 <= (j * m + mw) * ps,
        0 <= band * m + mh,
        0 <= j * m + mw,
        (band * m + mh) * ps + ps <= (band + 1) * m * ps,
        (j * m + mw) * ps + ps <= w,
        byte_index(w, (band * m + mh) * ps + ps - 1, (j * m + mw) * ps + ps - 1, 2) < len,
{
    let gw = w / ps;
    let blocks = gw / m;
    vstd::arithmetic::div_mod::lemma_div_pos_is_pos(w, ps);
    lemma_band_patches(gw, m);
    vstd::arithmetic::div_mod::lemma_fundamental_div_mod(w, ps);
    vstd::arithmetic::div_mod::lemma_mod_bound(w, ps);
    vstd::arithmetic::mul::lemma_mul_is_commutative(ps, gw);
    let row = band * m + mh;
    let col = j * m + mw;
    assert(0 <= row && row + 1 <= (band + 1) * m) by (nonlinear_arith)
        requires
            0 <= band,
            0 <= mh < m,
            row == band * m + mh,
    ;
    assert(0 <= col && col + 1 <= blocks * m) by (nonlinear_arith)
        requires
            0 <= j,
            j + 1 <= blocks,
            0 <= mw < m,
            col == j * m + mw,
    ;
    let rows = (band + 1) * m;
    let cols = blocks * m;
    assert(0 <= row * ps && row * ps + ps <= rows * ps) by (nonlinear_arith)
        requires
            0 <= row,
            row + 1 <= rows,
            0 < ps,
    ;
    assert(0 <= col * ps && col * ps + ps <= cols * ps && cols * ps <= gw * ps) by (nonlinear_arith)
        requires
            0 <= col,
            col + 1 <= cols,
            cols <= gw,
            0 < ps,
    ;
    lemma_byte_order(w, row * ps + ps - 1, col * ps + ps - 1, 2, rows * ps - 1, cols * ps - 1);
}

/// Appends the values of one band: its whole blocks, then zeros up to `n`
/// values.
fn push_band(
    out: &mut Vec<Binary32>,
    rgb: &[u8],
    w: usize,
    ps: usize,
    m: usize,
    tps: usize,
    lut: &Lut,
    band: usize,
    n: usize,
)
    requires
        0 < ps,
        0 < m,
        0 < tps,
        patch_len(ps as int, tps as int) <= usize::MAX,
        (w as int / ps as int) / (m as int) == 0 || (band + 1) * m * ps <= usize::MAX,
        band_readable(rgb@.len() as int, w as int, ps as int, m as int, band as int),
        band_patches(w as int / ps as int, m as int) * patch_len(ps as int, tps as int) <= n,
        n <= ((w as int / ps as int) * m) * patch_len(ps as int, tps as int),
    ensures
        final(out)@ == old(out)@ + band_values(
            rgb@,
            w as int,
            ps as int,
            m as int,
            tps as int,
            *lut,
            band as int,
            n as int,
        ),
{
    let ghost (gw, gps, gm, gtps) = (w as int, ps as int, m as int, tps as int);
    let ghost start = out@;
    let ghost dim = patch_len(gps, gtps);
    let ghost mut p: int = 0;
    let first: usize = out.len();
    let blocks: usize = w / ps / m;
    proof {
        assert(0 * dim == 0 && 0 * (gm * gm) == 0);
        assert(start + band_values(rgb@, gw, gps, gm, gtps, *lut, band as int, 0) =~= start);
    }
    let mut j: usize = 0;
    while j < blocks
        invariant
            j <= blocks,
            blocks == (gw / gps) / gm,
            0 < ps,
            0 < m,
            0 < tps,
            gw == w,
            gps == ps,
            gm == m,
            gtps == tps,
            dim == patch_len(gps, gtps) <= usize::MAX,
            blocks == 0 || (band + 1) * m * ps <= usize::MAX,
            band_readable(rgb@.len() as int, gw, gps, gm, band as int),
            p == (j * gm) * gm,
            out@ == start + band_values(rgb@, gw, gps, gm, gtps, *lut, band as int, p * dim),
        decreases blocks - j,
    {
        let mut mh: usize = 0;
        while mh < m
            invariant
                j < blocks,
                mh <= m,
                blocks == (gw / gps) / gm,
                0 < ps,
                0 < m,
                0 < tps,
                gw == w,
                gps == ps,
                gm == m,
                gtps == tps,
                dim == patch_len(gps, gtps) <= usize::MAX,
                blocks == 0 || (band + 1) * m * ps <= usize::MAX,
                band_readable(rgb@.len() as int, gw, gps, gm, band as int),
                p == (j * gm + mh) * gm,
                out@ == start + band_values(rgb@, gw, gps, gm, gtps, *lut, band as int, p * dim),
            decreases m - mh,
        {
            let mut mw: usize = 0;
            while mw < m
                invariant
                    j < blocks,
                    mh < m,
                    mw <= m,
                    blocks == (gw / gps) / gm,
                    0 < ps,
                    0 < m,
                    0 < tps,
                    gw == w,
                    gps == ps,
                    gm == m,
                    gtps == tps,
                    dim == patch_len(gps, gtps) <= usize::MAX,
                    blocks == 0 || (band + 1) * m * ps <= usize::MAX,
                    band_readable(rgb@.len() as int, gw, gps, gm, band as int),
                    p == (j * gm + mh) * gm + mw,
                    out@ == start + band_values(
                        rgb@,
                        gw,
                        gps,
                        gm,
                        gtps,
                        *lut,
                        band as int,
                        p * dim,
                    ),
                decreases m - mw,
            {
                proof {
                    lemma_append_patch(
                        rgb@,
                        gw,
                        gps,
                        gm,
                        gtps,
                        *lut,
                        band as int,
                        j as int,
                        mh as int,
                        mw as int,
                    );
                    lemma_patch_readable(
                        rgb@.len() as int,
                        gw,
                        gps,
                        gm,
                        band as int,
                        j as int,
                        mh as int,
                        mw as int,
                    );
                    lemma_factors_fit(band * gm + mh, gps);
                    lemma_factors_fit(j * gm + mw, gps);
                    lemma_factors_fit(band as int, gm);
                    lemma_factors_fit(j as int, gm);
                    vstd::arithmetic::mul::lemma_mul_is_distributive_add_other_way(dim, p, 1);
                }
                let y0: usize = (band * m + mh) * ps;
                let x0: usize = (j * m + mw) * ps;
                let ghost before = band_values(
                    rgb@,
                    gw,
                    gps,
                    gm,
                    gtps,
                    *lut,
                    band as int,
                    p * dim,
                );
                push_patch(out, rgb, w, ps, tps, lut, y0, x0);
                proof {
                    let added = patch_values(
                        rgb@,
                        gw,
                        gps,
                        gtps,
                        *lut,
                        y0 as int,
                        x0 as int,
                        dim,
                    );
                    assert((start + before) + added =~= start + (before + added));
                    p = p + 1;
                }
                mw = mw + 1;
            }
            proof {
                vstd::arithmetic::mul::lemma_mul_is_distributive_add_other_way(
                    gm,
                    j * gm + mh,
                    1,
                );
            }
            mh = mh + 1;
        }
        proof {
            vstd::arithmetic::mul::lemma_mul_is_distributive_add_other_way(gm, j as int, 1);
        }
        j = j + 1;
    }
    let ghost mut q: int = p * dim;
    proof {
        vstd::arithmetic::mul::lemma_mul_is_associative(blocks as int, gm, gm);
        assert(p == band_patches(gw / gps, gm));
        lemma_patch_len_positive(gps, gtps);
        vstd::arithmetic::div_mod::lemma_div_pos_is_pos(gw, gps);
        lemma_band_patches(gw / gps, gm);
        vstd::arithmetic::mul::lemma_mul_nonnegative(p, dim);
    }
    let mut left: usize = n - (out.len() - first);
    while left > 0
        invariant
            0 < ps,
            0 < m,
            0 < tps,
            gw == w,
            gps == ps,
            gm == m,
            gtps == tps,
            dim == patch_len(gps, gtps),
            q + left == n,
            band_patches(gw / gps, gm) * dim <= q,
            n <= ((gw / gps) * gm) * dim,
            0 <= q,
            out@ == start + band_values(rgb@, gw, gps, gm, gtps, *lut, band as int, q),
        decreases left,
    {
        proof {
            lemma_append_zero(rgb@, gw, gps, gm, gtps, *lut, band as int, q);
        }
        let ghost before = band_values(rgb@, gw, gps, gm, gtps, *lut, band as int, q);
        out.push(Binary32 { bits: 0 });
        proof {
            assert((start + before).push(Binary32 { bits: 0 }) =~= start + before.push(
                Binary32 { bits: 0 },
            ));
            q = q + 1;
        }
        left = left - 1;
    }
}

/// A factor of a product with a positive number is no larger than the product.
proof fn lemma_factors_fit(a: int, b: int)
    requires
        0 <= a,
        0 < b,
    ensures
        0 <= a <= a * b,
{
    assert(0 <= a <= a * b) by (nonlinear_arith)
        requires
            0 <= a,
            0 < b,
    ;
}

/// The first `n` values of the flattened image.
pub open spec fn image_values(
    rgb: Seq<u8>,
    w: int,
    ps: int,
    m: int,
    tps: int,
    lut: Lut,
    n: int,
) -> Seq<Binary32> {
    Seq::new(n as nat, |k: int| image_value(rgb, w, ps, m, tps, lut, k))
}

/// Flattens an RGB image of `h` by `w` pixels into patches of `ps` by `ps`
/// pixels, repeated `tps` times, in blocks of `m` by `m` patches. Every byte is
/// looked up in the table of its channel.
///
/// A patch grid whose height is not a multiple of `m` is accepted as far as
/// its last band has room for whole blocks.
pub fn patchify(
    rgb: &[u8],
    h: usize,
    w: usize,
    ps: usize,
    m: usize,
    tps: usize,
    lut: &Lut,
) -> (out: Vec<Binary32>)
    requires
        0 < ps <= w,
        0 < m,
        0 < tps,
        ({
            let gh = h as int / ps as int;
            let gw = w as int / ps as int;
            let dim = patch_len(ps as int, tps as int);
            &&& dim <= usize::MAX
            &&& gw * m * dim <= usize::MAX
            &&& 4 * (gh * gw * dim) <= isize::MAX
            &&& gh % (m as int) == 0 || band_patches(gw, m as int) <= (gh % (m as int)) * gw
            &&& bytes_read(h as int, w as int, ps as int, m as int) <= rgb@.len()
        }),
    ensures
        out@ == image_values(
            rgb@,
            w as int,
            ps as int,
            m as int,
            tps as int,
            *lut,
            (h as int / ps as int) * (w as int / ps as int) * patch_len(ps as int, tps as int),
        ),
{
    let gh: usize = h / ps;
    let gw: usize = w / ps;
    let len: usize = rgb.len();
    let ghost dim = patch_len(ps as int, tps as int);
    proof {
        lemma_patch_len_positive(ps as int, tps as int);
        lemma_patch_factors(ps as int, tps as int);
        vstd::arithmetic::div_mod::lemma_div_non_zero(w as int, ps as int);
        lemma_flattened_size(gh as int, gw as int, m as int, dim);
    }
    let size: usize = 3 * tps * ps * ps;
    let total: usize = gh * gw * size;
    let block: usize = gw * m * size;
    let mut out: Vec<Binary32> = Vec::with_capacity(total);
    let mut band: usize = 0;
    proof {
        assert(0 * (gw * m) * dim == 0) by (nonlinear_arith);
        assert(out@ =~= image_values(
            rgb@,
            w as int,
            ps as int,
            m as int,
            tps as int,
            *lut,
            0,
        ));
    }
    while out.len() < total
        invariant
            0 < ps <= w,
            0 < m,
            0 < tps,
            len == rgb@.len(),
            gh == h as int / ps as int,
            gw == w as int / ps as int,
            dim == patch_len(ps as int, tps as int),
            0 < dim <= usize::MAX,
            total == gh * gw * dim,
            block == gw * m * dim,
            0 < block,
            gh % m == 0 || band_patches(gw as int, m as int) <= (gh as int % m as int) * gw,
            bytes_read(h as int, w as int, ps as int, m as int) <= rgb@.len(),
            band * block == band * (gw * m) * dim,
            out@.len() == (if band * block <= total {
                band * block
            } else {
                total as int
            }),
            out@ == image_values(
                rgb@,
                w as int,
                ps as int,
                m as int,
                tps as int,
                *lut,
                out@.len() as int,
            ),
        decreases total - out@.len(),
    {
        let left: usize = total - out.len();
        let n: usize = if left < block { left } else { block };
        proof {
            lemma_band_in_image(
                rgb@.len() as int,
                h as int,
                w as int,
                ps as int,
                m as int,
                dim,
                band as int,
                n as int,
            );
            vstd::arithmetic::mul::lemma_mul_is_distributive_add_other_way(
                block as int,
                band as int,
                1,
            );
            assert((band + 1) * block == (band + 1) * (gw * m) * dim) by {
                vstd::arithmetic::mul::lemma_mul_is_associative(band + 1, gw * m, dim);
            }
        }
        push_band(&mut out, rgb, w, ps, m, tps, lut, band, n);
        proof {
            assert(out@ =~= image_values(
                rgb@,
                w as int,
                ps as int,
                m as int,
                tps as int,
                *lut,
                out@.len() as int,
            ));
        }
        band = band + 1;
    }
    out
}

/// The factors of a patch length are bounded by it.
proof fn lemma_patch_factors(ps: int, tps: int)
    requires
        0 < ps,
        0 < tps,
    ensures
        0 < 3 * tps <= 3 * tps * ps <= patch_len(ps, tps),
        ps <= patch_len(ps, tps),
{
    assert(3 * tps <= 3 * tps * ps) by (nonlinear_arith)
        requires
            0 < tps,
            0 < ps,
    ;
    let a = 3 * tps * ps;
    assert(a <= a * ps && ps <= a * ps) by (nonlinear_arith)
        requires
            0 < a,
            0 < ps,
    ;
}

/// The sizes of the output and of a band are bounded by their own products.
proof fn lemma_flattened_size(gh: int, gw: int, m: int, dim: int)
    requires
        0 <= gh,
        0 < gw,
        0 < m,
        0 < dim,
    ensures
        0 <= gh * gw <= gh * gw * dim,
        0 < gw * m <= gw * m * dim,
{
    assert(0 <= gh * gw && 0 < gw * m) by (nonlinear_arith)
        requires
            0 <= gh,
            0 < gw,
            0 < m,
    ;
    lemma_factors_fit(gh * gw, dim);
    lemma_factors_fit(gw * m, dim);
}

/// A band that begins inside the image has room for its whole blocks and
/// reads bytes that are there.
proof fn lemma_band_in_image(
    len: int,
    h: int,
    w: int,
    ps: int,
    m: int,
    dim: int,
    band: int,
    n: int,
)
    requires
        0 < ps <= w,
        w <= usize::MAX,
        len <= usize::MAX,
        0 <= h <= usize::MAX,
        0 < m,
        0 < dim,
        0 <= band,
        (h / ps) % m == 0 || band_patches(w / ps, m) <= ((h / ps) % m) * (w / ps),
        bytes_read(h, w, ps, m) <= len,
        band * ((w / ps) * m) * dim < (h / ps) * (w / ps) * dim,
        n == (if (h / ps) * (w / ps) * dim - band * ((w / ps) * m) * dim < (w / ps) * m * dim {
            (h / ps) * (w / ps) * dim - band * ((w / ps) * m) * dim
        } else {
            (w / ps) * m * dim
        }),
    ensures
        band < usize::MAX,
        (band + 1) * m * ps <= usize::MAX || (w / ps) / m == 0,
        band_readable(len, w, ps, m, band),
        band_patches(w / ps, m) * dim <= n,
        n <= ((w / ps) * m) * dim,
{
    let gh = h / ps;
    let gw = w / ps;
    let full = band_patches(gw, m);
    vstd::arithmetic::div_mod::lemma_div_pos_is_pos(h, ps);
    vstd::arithmetic::div_mod::lemma_div_nonincreasing(h, ps);
    vstd::arithmetic::div_mod::lemma_div_non_zero(w, ps);
    lemma_band_patches(gw, m);
    assert(band * (gw * m) < gh * gw) by (nonlinear_arith)
        requires
            band * (gw * m) * dim < gh * gw * dim,
            0 < dim,
    ;
    let done = band * m;
    assert(band * (gw * m) == done * gw) by (nonlinear_arith)
        requires
            done == band * m,
    ;
    assert(done < gh) by (nonlinear_arith)
        requires
            done * gw < gh * gw,
            0 < gw,
    ;
    lemma_factors_fit(band, m);
    let rest = gh - done;
    assert(gh * gw * dim - band * (gw * m) * dim == rest * gw * dim) by (nonlinear_arith)
        requires
            band * (gw * m) == done * gw,
            rest == gh - done,
    ;
    if n == gw * m * dim {
        assert(full * dim <= (gw * m) * dim) by (nonlinear_arith)
            requires
                full <= gw * m,
                0 < dim,
        ;
    } else {
        assert(rest < m) by (nonlinear_arith)
            requires
                rest * gw * dim < gw * m * dim,
                0 < gw,
                0 < dim,
        ;
        vstd::arithmetic::div_mod::lemma_fundamental_div_mod_converse(gh, m, band, rest);
        assert(full * dim <= rest * gw * dim) by (nonlinear_arith)
            requires
                full <= rest * gw,
                0 < dim,
        ;
    }
    if gw / m != 0 {
        let count = bands(gh, m);
        vstd::arithmetic::div_mod::lemma_fundamental_div_mod(gh + m - 1, m);
        vstd::arithmetic::div_mod::lemma_mod_bound(gh + m - 1, m);
        assert(band + 1 <= count) by (nonlinear_arith)
            requires
                band * m < gh,
                gh <= m * count,
                0 < m,
        ;
        let y = (band + 1) * m * ps;
        let y1 = count * m * ps;
        assert(1 <= y <= y1) by (nonlinear_arith)
            requires
                0 <= band,
                band + 1 <= count,
                0 < m,
                0 < ps,
                y == (band + 1) * m * ps,
                y1 == count * m * ps,
        ;
        let x = (gw / m) * m * ps;
        vstd::arithmetic::div_mod::lemma_div_pos_is_pos(gw, m);
        assert(1 <= x) by (nonlinear_arith)
            requires
                1 <= gw / m,
                0 < m,
                0 < ps,
                x == (gw / m) * m * ps,
        ;
        lemma_byte_order(w, y - 1, x, 0, y1 - 1, x);
        lemma_factors_fit(y - 1, w);
    }
}

/// The index of a value in the flattened image, by band, block, patch row and
/// column in the block, channel, temporal copy, and row and column in the
/// patch.
pub open spec fn flat_index(
    gw: int,
    ps: int,
    m: int,
    tps: int,
    band: int,
    j: int,
    mh: int,
    mw: int,
    c: int,
    t: int,
    py: int,
    px: int,
) -> int {
    band * (gw * m) * patch_len(ps, tps) + (((j * m + mh) * m + mw) * patch_len(ps, tps) + (((c
        * tps + t) * ps + py) * ps + px))
}

/// Patches are ordered by band, block, and row and column in the block; values
/// by channel, temporal copy, row and column. All temporal copies of a pixel
/// are alike.
pub proof fn law_flattening_order(
    rgb: Seq<u8>,
    w: int,
    ps: int,
    m: int,
    tps: int,
    lut: Lut,
    band: int,
    j: int,
    mh: int,
    mw: int,
    c: int,
    t: int,
    py: int,
    px: int,
)
    requires
        0 < ps,
        0 < m,
        0 < tps,
        0 <= w,
        0 <= band,
        0 <= j < (w / ps) / m,
        0 <= mh < m,
        0 <= mw < m,
        0 <= c < 3,
        0 <= t < tps,
        0 <= py < ps,
        0 <= px < ps,
    ensures
        image_value(
            rgb,
            w,
            ps,
            m,
            tps,
            lut,
            flat_index(w / ps, ps, m, tps, band, j, mh, mw, c, t, py, px),
        ) == lut@[c]@[rgb[byte_index(
            w,
            (band * m + mh) * ps + py,
            (j * m + mw) * ps + px,
            c,
        )] as int],
{
    let gw = w / ps;
    let dim = patch_len(ps, tps);
    let p = (j * m + mh) * m + mw;
    let off = ((c * tps + t) * ps + py) * ps + px;
    lemma_append_patch(rgb, w, ps, m, tps, lut, band, j, mh, mw);
    lemma_block_patch(j, mh, mw, m);
    lemma_patch_offset(c, t, py, px, ps, tps);
    lemma_offset_in_patch(c, t, py, px, ps, tps);
    lemma_locate(band, p, off, gw * m, dim);
}

proof fn lemma_offset_in_patch(c: int, t: int, py: int, px: int, ps: int, tps: int)
    requires
        0 <= c < 3,
        0 <= t < tps,
        0 <= py < ps,
        0 <= px < ps,
    ensures
        0 <= ((c * tps + t) * ps + py) * ps + px < patch_len(ps, tps),
{
    let a = c * tps + t;
    assert(0 <= a && a + 1 <= 3 * tps) by (nonlinear_arith)
        requires
            0 <= c < 3,
            0 <= t < tps,
            a == c * tps + t,
    ;
    let b = a * ps + py;
    let q = 3 * tps;
    assert(0 <= b && b + 1 <= q * ps) by (nonlinear_arith)
        requires
            0 <= a,
            a + 1 <= q,
            0 <= py < ps,
            b == a * ps + py,
    ;
    let d = q * ps;
    assert(0 <= b * ps + px && b * ps + px < d * ps) by (nonlinear_arith)
        requires
            0 <= b,
            b + 1 <= d,
            0 <= px < ps,
    ;
}

/// No pixel is lost: when the patch grid divides into blocks, every byte of the
/// grid's area is looked up at some index of the output.
pub proof fn law_every_pixel_appears(
    rgb: Seq<u8>,
    h: int,
    w: int,
    ps: int,
    m: int,
    tps: int,
    lut: Lut,
    y: int,
    x: int,
    c: int,
) -> (k: int)
    requires
        0 < ps,
        0 < m,
        0 < tps,
        0 <= h,
        0 <= w,
        (h / ps) % m == 0,
        (w / ps) % m == 0,
        0 <= y < (h / ps) * ps,
        0 <= x < (w / ps) * ps,
        0 <= c < 3,
    ensures
        0 <= k < (h / ps) * (w / ps) * patch_len(ps, tps),
        image_value(rgb, w, ps, m, tps, lut, k) == lut@[c]@[rgb[byte_index(w, y, x, c)] as int],
{
    let gh = h / ps;
    let gw = w / ps;
    let dim = patch_len(ps, tps);
    let (row, py) = (y / ps, y % ps);
    let (col, px) = (x / ps, x % ps);
    lemma_split(y, ps, gh);
    lemma_split(x, ps, gw);
    vstd::arithmetic::div_mod::lemma_fundamental_div_mod(gh, m);
    vstd::arithmetic::div_mod::lemma_fundamental_div_mod(gw, m);
    vstd::arithmetic::mul::lemma_mul_is_commutative(m, gh / m);
    vstd::arithmetic::mul::lemma_mul_is_commutative(m, gw / m);
    let (band, mh) = (row / m, row % m);
    let (j, mw) = (col / m, col % m);
    lemma_split(row, m, gh / m);
    lemma_split(col, m, gw / m);
    law_flattening_order(rgb, w, ps, m, tps, lut, band, j, mh, mw, c, 0, py, px);
    lemma_append_patch(rgb, w, ps, m, tps, lut, band, j, mh, mw);
    lemma_offset_in_patch(c, 0, py, px, ps, tps);
    let k = flat_index(gw, ps, m, tps, band, j, mh, mw, c, 0, py, px);
    let p = (j * m + mh) * m + mw;
    let off = ((c * tps + 0) * ps + py) * ps + px;
    let block = gw * m;
    assert(0 <= k < gh * gw * dim) by {
        let rows = (band + 1) * m;
        let all = gh / m;
        assert(rows <= all * m) by (nonlinear_arith)
            requires
                band + 1 <= all,
                rows == (band + 1) * m,
                0 < m,
        ;
        assert((band + 1) * block == rows * gw) by (nonlinear_arith)
            requires
                block == gw * m,
                rows == (band + 1) * m,
        ;
        assert(rows * gw <= gh * gw) by (nonlinear_arith)
            requires
                rows <= gh,
                0 <= gw,
        ;
        assert(0 <= band * block) by (nonlinear_arith)
            requires
                0 <= band,
                0 <= block,
        ;
        assert(0 <= band * block * dim + (p * dim + off) < gh * gw * dim) by (nonlinear_arith)
            requires
                (band + 1) * block <= gh * gw,
                0 <= band * block,
                0 <= p,
                p + 1 <= block,
                0 <= off < dim,
        ;
    }
    k
}

/// The patch of a flattened image as row and column of the patch grid, `gw` patches
/// wide, in blocks of `m` by `m` patches.
pub open spec fn cell_of(gw: int, m: int, patch: int) -> (int, int) {
    let p = patch % (gw * m);
    ((patch / (gw * m)) * m + (p / m) % m, (p / (m * m)) * m + p % m)
}

/// The patch of a flattened image that stands at a row and a column of the patch grid.
pub open spec fn patch_at(gw: int, m: int, row: int, col: int) -> int {
    (row / m) * (gw * m) + (((col / m) * m + row % m) * m + col % m)
}

/// The place, in a flattened image without blocks, of a patch of one with blocks of `m`
/// by `m` patches.
pub open spec fn place_without_blocks(gw: int, m: int, patch: int) -> int {
    cell_of(gw, m, patch).0 * gw + cell_of(gw, m, patch).1
}

/// The place, in a flattened image with blocks of `m` by `m` patches, of a patch of one
/// without blocks.
pub open spec fn place_in_blocks(gw: int, m: int, patch: int) -> int {
    patch_at(gw, m, patch / gw, patch % gw)
}

/// The flattened image of `h` by `w` pixels, one patch after the other.
pub open spec fn patch_rows(
    rgb: Seq<u8>,
    h: int,
    w: int,
    ps: int,
    m: int,
    tps: int,
    lut: Lut,
) -> Seq<Seq<Binary32>> {
    let n = (h / ps) * (w / ps);
    let dim = patch_len(ps, tps);
    let values = image_values(rgb, w, ps, m, tps, lut, n * dim);
    Seq::new(n as nat, |patch: int| values.subrange(patch * dim, patch * dim + dim))
}

/// Every cell of a grid of whole blocks is at one patch.
proof fn lemma_patch_at(gh: int, gw: int, m: int, row: int, col: int)
    requires
        0 < m,
        gh % m == 0,
        gw % m == 0,
        0 <= row < gh,
        0 <= col < gw,
    ensures
        0 <= patch_at(gw, m, row, col) < gh * gw,
        cell_of(gw, m, patch_at(gw, m, row, col)) == (row, col),
{
    let block = gw * m;
    let (band, mh) = (row / m, row % m);
    let (j, mw) = (col / m, col % m);
    vstd::arithmetic::div_mod::lemma_fundamental_div_mod(gh, m);
    vstd::arithmetic::div_mod::lemma_fundamental_div_mod(gw, m);
    vstd::arithmetic::mul::lemma_mul_is_commutative(m, gh / m);
    vstd::arithmetic::mul::lemma_mul_is_commutative(m, gw / m);
    lemma_split(row, m, gh / m);
    lemma_split(col, m, gw / m);
    lemma_block_patch(j, mh, mw, m);
    let p = (j * m + mh) * m + mw;
    let blocks = gw / m;
    assert(p < block) by (nonlinear_arith)
        requires
            p == (j * m + mh) * m + mw,
            block == gw * m,
            gw == blocks * m,
            0 <= j,
            j + 1 <= blocks,
            0 <= mh < m,
            0 <= mw < m,
    ;
    vstd::arithmetic::div_mod::lemma_fundamental_div_mod_converse(
        band * block + p,
        block,
        band,
        p,
    );
    let all = gh / m;
    assert(0 <= band * block && band * block + block <= gh * gw) by (nonlinear_arith)
        requires
            block == gw * m,
            gh == all * m,
            0 <= band,
            band + 1 <= all,
            0 < gw,
            0 < m,
    ;
}

/// Every patch of a grid of whole blocks is at one cell.
proof fn lemma_cell_of(gh: int, gw: int, m: int, patch: int)
    requires
        0 < m,
        0 < gw,
        gh % m == 0,
        gw % m == 0,
        0 <= patch < gh * gw,
    ensures
        0 <= cell_of(gw, m, patch).0 < gh,
        0 <= cell_of(gw, m, patch).1 < gw,
        patch % (gw * m) < band_patches(gw, m),
        patch_at(gw, m, cell_of(gw, m, patch).0, cell_of(gw, m, patch).1) == patch,
{
    let block = gw * m;
    let all = gh / m;
    let blocks = gw / m;
    vstd::arithmetic::mul::lemma_mul_strictly_positive(gw, m);
    vstd::arithmetic::mul::lemma_mul_strictly_positive(m, m);
    vstd::arithmetic::div_mod::lemma_fundamental_div_mod(gh, m);
    vstd::arithmetic::div_mod::lemma_fundamental_div_mod(gw, m);
    vstd::arithmetic::mul::lemma_mul_is_commutative(m, all);
    vstd::arithmetic::mul::lemma_mul_is_commutative(m, blocks);
    assert(gh * gw == all * block) by (nonlinear_arith)
        requires
            block == gw * m,
            gh == all * m,
    ;
    lemma_split(patch, block, all);
    let band = patch / block;
    let p = patch % block;
    assert(block == blocks * (m * m)) by (nonlinear_arith)
        requires
            block == gw * m,
            gw == blocks * m,
    ;
    lemma_split(p, m * m, blocks);
    let j = p / (m * m);
    vstd::arithmetic::div_mod::lemma_div_denominator(p, m, m);
    assert(p < gw * m);
    lemma_split(p, m, gw);
    let a = p / m;
    let mw = p % m;
    lemma_split(a, m, blocks);
    let mh = a % m;
    assert(a == j * m + mh);
    let row = band * m + mh;
    let col = j * m + mw;
    vstd::arithmetic::div_mod::lemma_fundamental_div_mod_converse(row, m, band, mh);
    vstd::arithmetic::div_mod::lemma_fundamental_div_mod_converse(col, m, j, mw);
    assert(0 <= row < gh) by (nonlinear_arith)
        requires
            row == band * m + mh,
            gh == all * m,
            0 <= band,
            band + 1 <= all,
            0 <= mh < m,
    ;
    assert(0 <= col < gw) by (nonlinear_arith)
        requires
            col == j * m + mw,
            gw == blocks * m,
            0 <= j,
            j + 1 <= blocks,
            0 <= mw < m,
    ;
}

/// A patch of a grid of whole blocks holds the values at its cell.
proof fn lemma_patch_row(
    rgb: Seq<u8>,
    h: int,
    w: int,
    ps: int,
    m: int,
    tps: int,
    lut: Lut,
    patch: int,
)
    requires
        0 < ps,
        0 < m,
        0 < tps,
        0 < w / ps,
        (h / ps) % m == 0,
        (w / ps) % m == 0,
        0 <= patch < (h / ps) * (w / ps),
    ensures
        patch_rows(rgb, h, w, ps, m, tps, lut)[patch] == patch_values(
            rgb,
            w,
            ps,
            tps,
            lut,
            cell_of(w / ps, m, patch).0 * ps,
            cell_of(w / ps, m, patch).1 * ps,
            patch_len(ps, tps),
        ),
{
    let gw = w / ps;
    let n = (h / ps) * gw;
    let dim = patch_len(ps, tps);
    lemma_patch_len_positive(ps, tps);
    lemma_cell_of(h / ps, gw, m, patch);
    assert(0 <= patch * dim && patch * dim + dim <= n * dim) by (nonlinear_arith)
        requires
            0 <= patch,
            patch + 1 <= n,
            0 < dim,
    ;
    let (row, col) = cell_of(gw, m, patch);
    let expected = patch_values(rgb, w, ps, tps, lut, row * ps, col * ps, dim);
    let found = patch_rows(rgb, h, w, ps, m, tps, lut)[patch];
    assert forall|off: int| 0 <= off < dim implies #[trigger] found[off] == expected[off] by {
        vstd::arithmetic::div_mod::lemma_fundamental_div_mod_converse(
            patch * dim + off,
            dim,
            patch,
            off,
        );
    }
    assert(found =~= expected);
}

/// Without blocks, patches come row by row.
proof fn lemma_cell_without_blocks(gw: int, patch: int)
    requires
        0 < gw,
        0 <= patch,
    ensures
        cell_of(gw, 1, patch) == (patch / gw, patch % gw),
{
    let p = patch % gw;
    assert(gw * 1 == gw);
    assert(p / 1 == p && p % 1 == 0 && (p / 1) % 1 == 0);
}

/// Sequences whose elements correspond one to one have the same elements, each as often.
proof fn lemma_same_elements<A>(a: Seq<A>, b: Seq<A>, f: spec_fn(int) -> int)
    requires
        a.len() == b.len(),
        forall|i: int| 0 <= i < a.len() ==> 0 <= #[trigger] f(i) < b.len() && a[i] == b[f(i)],
        forall|i: int, j: int|
            0 <= i < a.len() && 0 <= j < a.len() && i != j ==> #[trigger] f(i) != #[trigger] f(j),
    ensures
        a.to_multiset() == b.to_multiset(),
    decreases a.len(),
{
    broadcast use vstd::seq_lib::group_to_multiset_ensures;

    if a.len() == 0 {
        assert(a =~= b);
    } else {
        let last = a.len() - 1;
        let k = f(last);
        let rest = b.remove(k);
        let g = |i: int|
            if f(i) > k {
                f(i) - 1
            } else {
                f(i)
            };
        assert forall|i: int| 0 <= i < a.drop_last().len() implies 0 <= #[trigger] g(i)
            < rest.len() && a.drop_last()[i] == rest[g(i)] by {
            assert(f(i) != f(last));
        }
        assert forall|i: int, j: int|
            0 <= i < a.drop_last().len() && 0 <= j < a.drop_last().len() && i
                != j implies #[trigger] g(i) != #[trigger] g(j) by {
            assert(f(i) != f(j));
            assert(f(i) != f(last));
            assert(f(j) != f(last));
        }
        lemma_same_elements(a.drop_last(), rest, g);
        assert(a =~= a.drop_last().push(a[last]));
        assert(b.contains(b[k]));
        assert(b.to_multiset() =~= rest.to_multiset().insert(b[k]));
    }
}

/// Blocks only reorder the patches: where both sides are multiples of a block, the patches
/// with blocks of `m` by `m` and those without are the same, each as often, and correspond
/// one to one. Without blocks, patch `k` is the one at row `k / gw` and column `k % gw` of
/// the grid, which is `gw` patches wide.
pub proof fn law_blocks_reorder_patches(
    rgb: Seq<u8>,
    h: int,
    w: int,
    ps: int,
    m: int,
    tps: int,
    lut: Lut,
)
    requires
        0 < ps,
        0 < m,
        0 < tps,
        0 < h,
        0 < w,
        h % (ps * m) == 0,
        w % (ps * m) == 0,
    ensures
        ({
            let gw = w / ps;
            let n = (h / ps) * gw;
            let blocks = patch_rows(rgb, h, w, ps, m, tps, lut);
            let plain = patch_rows(rgb, h, w, ps, 1, tps, lut);
            &&& blocks.len() == n
            &&& plain.len() == n
            &&& blocks.to_multiset() == plain.to_multiset()
            &&& forall|r: int|
                0 <= r < n ==> {
                    &&& 0 <= #[trigger] place_without_blocks(gw, m, r) < n
                    &&& place_in_blocks(gw, m, place_without_blocks(gw, m, r)) == r
                    &&& blocks[r] == plain[place_without_blocks(gw, m, r)]
                }
            &&& forall|k: int|
                0 <= k < n ==> {
                    &&& 0 <= #[trigger] place_in_blocks(gw, m, k) < n
                    &&& place_without_blocks(gw, m, place_in_blocks(gw, m, k)) == k
                }
            &&& forall|k: int|
                0 <= k < n ==> #[trigger] plain[k] == patch_values(
                    rgb,
                    w,
                    ps,
                    tps,
                    lut,
                    (k / gw) * ps,
                    (k % gw) * ps,
                    patch_len(ps, tps),
                )
        }),
{
    lemma_whole_side(h, ps, m);
    lemma_whole_side(w, ps, m);
    let gh = h / ps;
    let gw = w / ps;
    let n = gh * gw;
    let blocks = patch_rows(rgb, h, w, ps, m, tps, lut);
    let plain = patch_rows(rgb, h, w, ps, 1, tps, lut);
    vstd::arithmetic::mul::lemma_mul_strictly_positive(gh, gw);
    assert forall|k: int| 0 <= k < n implies #[trigger] plain[k] == patch_values(
        rgb,
        w,
        ps,
        tps,
        lut,
        (k / gw) * ps,
        (k % gw) * ps,
        patch_len(ps, tps),
    ) by {
        lemma_patch_row(rgb, h, w, ps, 1, tps, lut, k);
        lemma_cell_without_blocks(gw, k);
    }
    assert forall|r: int| 0 <= r < n implies {
        &&& 0 <= #[trigger] place_without_blocks(gw, m, r) < n
        &&& place_in_blocks(gw, m, place_without_blocks(gw, m, r)) == r
        &&& blocks[r] == plain[place_without_blocks(gw, m, r)]
    } by {
        let (row, col) = cell_of(gw, m, r);
        let k = place_without_blocks(gw, m, r);
        lemma_cell_of(gh, gw, m, r);
        assert(0 <= row * gw + col < gh * gw) by (nonlinear_arith)
            requires
                0 <= row,
                row + 1 <= gh,
                0 <= col < gw,
        ;
        vstd::arithmetic::div_mod::lemma_fundamental_div_mod_converse(k, gw, row, col);
        lemma_patch_row(rgb, h, w, ps, m, tps, lut, r);
        assert(plain[k] == patch_values(
            rgb,
            w,
            ps,
            tps,
            lut,
            (k / gw) * ps,
            (k % gw) * ps,
            patch_len(ps, tps),
        ));
    }
    assert forall|k: int| 0 <= k < n implies {
        &&& 0 <= #[trigger] place_in_blocks(gw, m, k) < n
        &&& place_without_blocks(gw, m, place_in_blocks(gw, m, k)) == k
    } by {
        lemma_split(k, gw, gh);
        lemma_patch_at(gh, gw, m, k / gw, k % gw);
    }
    let f = |r: int| place_without_blocks(gw, m, r);
    assert forall|i: int| 0 <= i < n implies 0 <= #[trigger] f(i) < n && blocks[i] == plain[f(
        i,
    )] by {
        assert(f(i) == place_without_blocks(gw, m, i));
    }
    assert forall|i: int, j: int| 0 <= i < n && 0 <= j < n && i != j implies #[trigger] f(i)
        != #[trigger] f(j) by {
        assert(place_in_blocks(gw, m, place_without_blocks(gw, m, i)) == i);
        assert(place_in_blocks(gw, m, place_without_blocks(gw, m, j)) == j);
    }
    lemma_same_elements(blocks, plain, f);
}

/// Quotient and remainder of a number below `d * n`.
proof fn lemma_split(a: int, d: int, n: int)
    requires
        0 < d,
        0 <= a < n * d,
    ensures
        0 <= a / d < n,
        0 <= a % d < d,
        a == (a / d) * d + a % d,
{
    vstd::arithmetic::div_mod::lemma_fundamental_div_mod(a, d);
    vstd::arithmetic::div_mod::lemma_mod_bound(a, d);
    vstd::arithmetic::mul::lemma_mul_is_commutative(d, a / d);
    vstd::arithmetic::div_mod::lemma_div_pos_is_pos(a, d);
    vstd::arithmetic::mul::lemma_mul_is_commutative(d, n);
    vstd::arithmetic::div_mod::lemma_multiply_divide_lt(a, d, n);
}

/// Sides that are multiples of a patch and a block: whole blocks of patches,
/// and every byte is read.
proof fn lemma_whole_blocks(h: int, w: int, ps: int, m: int, tps: int)
    requires
        0 < ps,
        0 < m,
        0 < tps,
        0 < h,
        0 < w,
        h % (ps * m) == 0,
        w % (ps * m) == 0,
    ensures
        ps * m <= h,
        ps * m <= w,
        m <= h / ps,
        m <= w / ps,
        (h / ps) % m == 0,
        (w / ps) % m == 0,
        (h / ps) * ps == h,
        (w / ps) * ps == w,
        bytes_read(h, w, ps, m) == h * w * 3,
        (h / ps) * (w / ps) * patch_len(ps, tps) == 3 * tps * (h * w),
{
    lemma_whole_side(h, ps, m);
    lemma_whole_side(w, ps, m);
    let gh = h / ps;
    let gw = w / ps;
    let kh = gh / m;
    let kw = gw / m;
    assert(bands(gh, m) == kh) by {
        assert(gh + m - 1 == kh * m + (m - 1)) by {
            vstd::arithmetic::div_mod::lemma_fundamental_div_mod(gh, m);
            vstd::arithmetic::mul::lemma_mul_is_commutative(m, kh);
        }
        vstd::arithmetic::div_mod::lemma_fundamental_div_mod_converse(
            gh + m - 1,
            m,
            kh,
            m - 1,
        );
    }
    vstd::arithmetic::div_mod::lemma_fundamental_div_mod(gh, m);
    vstd::arithmetic::div_mod::lemma_fundamental_div_mod(gw, m);
    vstd::arithmetic::mul::lemma_mul_is_commutative(m, kh);
    vstd::arithmetic::mul::lemma_mul_is_commutative(m, kw);
    assert(kw * m * ps == w);
    assert(kh * m * ps == h);
    vstd::arithmetic::mul::lemma_mul_is_distributive_sub_other_way(w, h, 1);
    assert((h / ps) * (w / ps) * patch_len(ps, tps) == 3 * tps * (h * w)) by (nonlinear_arith)
        requires
            gh == h / ps,
            gw == w / ps,
            gh * ps == h,
            gw * ps == w,
            patch_len(ps, tps) == 3 * tps * ps * ps,
    ;
}

proof fn lemma_whole_side(h: int, ps: int, m: int)
    requires
        0 < ps,
        0 < m,
        0 < h,
        h % (ps * m) == 0,
    ensures
        ps * m <= h,
        m <= h / ps,
        (h / ps) % m == 0,
        (h / ps) * ps == h,
        0 < (h / ps) / m,
{
    let f = ps * m;
    vstd::arithmetic::mul::lemma_mul_strictly_positive(ps, m);
    let k = h / f;
    vstd::arithmetic::div_mod::lemma_fundamental_div_mod(h, f);
    assert(k >= 1) by (nonlinear_arith)
        requires
            h == f * k,
            h > 0,
            f > 0,
    ;
    assert(h == (k * m) * ps) by (nonlinear_arith)
        requires
            h == f * k,
            f == ps * m,
    ;
    vstd::arithmetic::div_mod::lemma_div_by_multiple(k * m, ps);
    vstd::arithmetic::div_mod::lemma_div_by_multiple(k, m);
    vstd::arithmetic::div_mod::lemma_mod_multiples_basic(k, m);
    assert(k * m >= m && f * k >= f) by (nonlinear_arith)
        requires
            k >= 1,
            m > 0,
            f > 0,
    ;
}

/// What flattening needs to know of an image with sides that are multiples of a
/// block.
pub proof fn lemma_flattenable(h: int, w: int, ps: int, m: int, tps: int)
    requires
        0 < ps,
        0 < m,
        0 < tps,
        0 < h,
        0 < w,
        h % (ps * m) == 0,
        w % (ps * m) == 0,
    ensures
        ps <= w,
        (h / ps) % m == 0,
        0 < patch_len(ps, tps) <= (w / ps) * m * patch_len(ps, tps),
        (w / ps) * m * patch_len(ps, tps) <= (h / ps) * (w / ps) * patch_len(ps, tps),
        0 < (h / ps) * (w / ps) <= (h / ps) * (w / ps) * patch_len(ps, tps),
        (h / ps) * (w / ps) * patch_len(ps, tps) == 3 * tps * (h * w),
        bytes_read(h, w, ps, m) == h * w * 3,
{
    let gh = h / ps;
    let gw = w / ps;
    let dim = patch_len(ps, tps);
    lemma_whole_blocks(h, w, ps, m, tps);
    lemma_patch_len_positive(ps, tps);
    assert(ps <= w) by (nonlinear_arith)
        requires
            ps * m <= w,
            0 < ps,
            0 < m,
    ;
    assert(gw * m * dim <= gh * gw * dim) by (nonlinear_arith)
        requires
            m <= gh,
            0 < gw,
            0 < dim,
    ;
    assert(dim <= gw * m * dim) by (nonlinear_arith)
        requires
            0 < gw,
            0 < m,
            0 < dim,
    ;
    assert(0 < gh * gw <= gh * gw * dim) by (nonlinear_arith)
        requires
            0 < gh,
            0 < gw,
            0 < dim,
    ;
}

/// Whether `item` is the image of `h` by `w` pixels in `rgb`, flattened.
pub open spec fn is_image_item(
    item: ProcessedItem,
    rgb: Seq<u8>,
    h: usize,
    w: usize,
    ps: usize,
    m: usize,
    tps: usize,
    lut: Lut,
) -> bool {
    let gh = h / ps;
    let gw = w / ps;
    let dim = patch_len(ps as int, tps as int);
    crate::pipeline::is_grid_item(
        item,
        image_values(rgb, w as int, ps as int, m as int, tps as int, lut, gh * gw * dim),
        gh,
        gw,
        dim,
    )
}

/// Flattens an image whose sides are multiples of a block.
pub fn image_item(
    rgb: &[u8],
    h: usize,
    w: usize,
    ps: usize,
    m: usize,
    tps: usize,
    lut: &Lut,
) -> (item: ProcessedItem)
    requires
        0 < ps,
        0 < m,
        0 < tps,
        0 < h,
        0 < w,
        h as int % (ps * m) == 0,
        w as int % (ps * m) == 0,
        h * w * 3 <= rgb@.len(),
        4 * (3 * tps * (h * w)) <= isize::MAX,
    ensures
        is_image_item(item, rgb@, h, w, ps, m, tps, *lut),
{
    let gh: usize = h / ps;
    let gw: usize = w / ps;
    let ghost dim = patch_len(ps as int, tps as int);
    proof {
        lemma_flattenable(h as int, w as int, ps as int, m as int, tps as int);
    }
    let values = patchify(rgb, h, w, ps, m, tps, lut);
    proof {
        assert(values@.len() as int / (gh * gw) == dim) by {
            vstd::arithmetic::div_mod::lemma_div_multiples_vanish(dim, gh * gw);
        }
    }
    grid_item(values, gh, gw)
}

/// An image whose sides are multiples of a block is made of whole tokens: one for
/// each block of `m` by `m` patches.
pub proof fn law_images_have_whole_tokens(
    item: ProcessedItem,
    rgb: Seq<u8>,
    h: usize,
    w: usize,
    ps: usize,
    m: usize,
    tps: usize,
    lut: Lut,
)
    requires
        0 < ps,
        0 < m,
        0 < tps,
        0 < h,
        0 < w,
        h as int % (ps * m) == 0,
        w as int % (ps * m) == 0,
        h / ps <= u32::MAX,
        w / ps <= u32::MAX,
        is_image_item(item, rgb, h, w, ps, m, tps, lut),
    ensures
        item.geometry.grid()@ == seq![1u32, (h / ps) as u32, (w / ps) as u32],
        super::placement::whole_tokens(item.geometry.grid()@, m as int),
        super::placement::image_tokens(item.geometry.grid()@, m as int) == (h as int / (ps * m))
            * (w as int / (ps * m)),
        super::placement::image_tokens(item.geometry.grid()@, m as int) * (ps * m) * (ps * m) == h
            * w,
{
    let grid = item.geometry.grid()@;
    let f = ps * m;
    lemma_whole_side(h as int, ps as int, m as int);
    lemma_whole_side(w as int, ps as int, m as int);
    super::placement::lemma_whole_tokens(grid, m as int);
    vstd::arithmetic::div_mod::lemma_div_denominator(h as int, ps as int, m as int);
    vstd::arithmetic::div_mod::lemma_div_denominator(w as int, ps as int, m as int);
    vstd::arithmetic::mul::lemma_mul_strictly_positive(ps as int, m as int);
    vstd::arithmetic::div_mod::lemma_fundamental_div_mod(h as int, f);
    vstd::arithmetic::div_mod::lemma_fundamental_div_mod(w as int, f);
    let a = h as int / f;
    let b = w as int / f;
    assert(a * b * f * f == h * w) by (nonlinear_arith)
        requires
            h == f * a,
            w == f * b,
    ;
}

}
