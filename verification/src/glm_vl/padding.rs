//! Content in the upper left corner of a canvas that is zero elsewhere.
use vstd::prelude::*;

verus! {

/// Byte `i` of a canvas that is `width` pixels wide and holds the content in its
/// upper left corner.
pub open spec fn padded_byte(
    content: Seq<u8>,
    content_h: int,
    content_w: int,
    width: int,
    i: int,
) -> u8 {
    let y = i / (3 * width);
    let r = i % (3 * width);
    if y < content_h && r < 3 * content_w {
        content[y * (3 * content_w) + r]
    } else {
        0
    }
}

/// A canvas of `height` by `width` pixels with the content in its upper left
/// corner.
pub open spec fn padded(
    content: Seq<u8>,
    content_h: int,
    content_w: int,
    height: int,
    width: int,
) -> Seq<u8> {
    Seq::new(
        (height * width * 3) as nat,
        |i: int| padded_byte(content, content_h, content_w, width, i),
    )
}

/// Puts the content in the upper left corner of a canvas.
pub fn pad(
    content: &[u8],
    content_h: usize,
    content_w: usize,
    height: usize,
    width: usize,
) -> (canvas: Vec<u8>)
    requires
        1 <= content_h <= height,
        1 <= content_w <= width,
        content_h * content_w * 3 <= content@.len(),
        height * width * 3 <= usize::MAX,
    ensures
        canvas@ == padded(
            content@,
            content_h as int,
            content_w as int,
            height as int,
            width as int,
        ),
{
    let ghost full = padded(
        content@,
        content_h as int,
        content_w as int,
        height as int,
        width as int,
    );
    let ghost row = 3 * width as int;
    let ghost content_row = 3 * content_w as int;
    proof {
        assert(height * width * 3 == height * row) by (nonlinear_arith)
            requires
                row == 3 * width,
        ;
        assert(content_h * content_w * 3 == content_h * content_row) by (nonlinear_arith)
            requires
                content_row == 3 * content_w,
        ;
        assert(content_h * content_w * 3 <= height * width * 3) by (nonlinear_arith)
            requires
                1 <= content_h <= height,
                1 <= content_w <= width,
        ;
        assert(row <= height * row) by (nonlinear_arith)
            requires
                1 <= height,
                0 <= row,
        ;
    }
    let width3: usize = width * 3;
    let content3: usize = content_w * 3;
    let mut canvas: Vec<u8> = Vec::new();
    let mut y: usize = 0;
    while y < height
        invariant
            y <= height,
            1 <= width,
            width3 == row,
            content3 == content_row,
            row == 3 * width,
            content_row == 3 * content_w,
            content_row <= row,
            content_h * content_row <= content@.len(),
            content_h * content_row <= usize::MAX,
            full == padded(
                content@,
                content_h as int,
                content_w as int,
                height as int,
                width as int,
            ),
            full.len() == height * row,
            canvas@.len() == y * row,
            canvas@ == full.take(y * row),
        decreases height - y,
    {
        let mut r: usize = 0;
        let ghost start = y * row;
        proof {
            assert(start + row <= height * row) by (nonlinear_arith)
                requires
                    start == y * row,
                    y < height,
                    0 < row,
            ;
        }
        while r < width3
            invariant
                r <= width3,
                y < height,
                1 <= width,
                width3 == row,
                content3 == content_row,
                row == 3 * width,
                content_row == 3 * content_w,
                content_h * content_row <= content@.len(),
                content_h * content_row <= usize::MAX,
                full == padded(
                    content@,
                    content_h as int,
                    content_w as int,
                    height as int,
                    width as int,
                ),
                full.len() == height * row,
                start == y * row,
                start + row <= full.len(),
                canvas@.len() == start + r,
                canvas@ == full.take(start + r),
            decreases width3 - r,
        {
            proof {
                vstd::arithmetic::div_mod::lemma_fundamental_div_mod_converse(
                    start + r,
                    row,
                    y as int,
                    r as int,
                );
            }
            let byte: u8 = if y < content_h && r < content3 {
                proof {
                    assert(0 <= y * content_row && y * content_row + content_row <= content_h
                        * content_row) by (nonlinear_arith)
                        requires
                            0 <= y < content_h,
                            0 <= content_row,
                    ;
                    assert(y * content_row + r < content@.len());
                }
                content[y * content3 + r]
            } else {
                0
            };
            canvas.push(byte);
            proof {
                assert(full.take(start + r + 1) =~= full.take(start + r).push(full[start + r]));
            }
            r = r + 1;
        }
        proof {
            assert(start + row == (y + 1) * row) by (nonlinear_arith)
                requires
                    start == y * row,
            ;
        }
        y = y + 1;
    }
    proof {
        assert(full.take(height * row) =~= full);
    }
    canvas
}

/// Every pixel of the content keeps its place, and every other pixel of the
/// canvas is zero.
pub proof fn law_padding(
    content: Seq<u8>,
    content_h: int,
    content_w: int,
    height: int,
    width: int,
    y: int,
    x: int,
    c: int,
)
    requires
        1 <= content_h <= height,
        1 <= content_w <= width,
        content_h * content_w * 3 <= content.len(),
        0 <= y < height,
        0 <= x < width,
        0 <= c < 3,
    ensures
        0 <= crate::common::grid::byte_index(width, y, x, c) < padded(
            content,
            content_h,
            content_w,
            height,
            width,
        ).len(),
        padded(content, content_h, content_w, height, width)[crate::common::grid::byte_index(
            width,
            y,
            x,
            c,
        )] == (if y < content_h && x < content_w {
            content[crate::common::grid::byte_index(content_w, y, x, c)]
        } else {
            0
        }),
{
    let i = crate::common::grid::byte_index(width, y, x, c);
    let r = 3 * x + c;
    assert(i == y * (3 * width) + r) by (nonlinear_arith)
        requires
            i == (y * width + x) * 3 + c,
            r == 3 * x + c,
    ;
    assert(crate::common::grid::byte_index(content_w, y, x, c) == y * (3 * content_w) + r)
        by (nonlinear_arith)
        requires
            crate::common::grid::byte_index(content_w, y, x, c) == (y * content_w + x) * 3 + c,
            r == 3 * x + c,
    ;
    vstd::arithmetic::div_mod::lemma_fundamental_div_mod_converse(i, 3 * width, y, r);
    assert(0 <= y * (3 * width) && y * (3 * width) + 3 * width <= height * width * 3)
        by (nonlinear_arith)
        requires
            0 <= y < height,
            1 <= width,
    ;
}

/// A flattened canvas holds the normalized content, and the normalized value of byte 0
/// wherever it is padded.
pub proof fn law_padding_is_normalized(
    content: Seq<u8>,
    content_h: int,
    content_w: int,
    height: int,
    width: int,
    ps: int,
    m: int,
    tps: int,
    lut: crate::common::grid::Lut,
    band: int,
    j: int,
    mh: int,
    mw: int,
    c: int,
    t: int,
    py: int,
    px: int,
)
    requires
        1 <= content_h <= height,
        1 <= content_w <= width,
        content_h * content_w * 3 <= content.len(),
        0 < ps,
        0 < m,
        0 < tps,
        0 <= band,
        (band * m + mh) * ps + py < height,
        0 <= j < (width / ps) / m,
        0 <= mh < m,
        0 <= mw < m,
        0 <= c < 3,
        0 <= t < tps,
        0 <= py < ps,
        0 <= px < ps,
    ensures
        ({
            let y = (band * m + mh) * ps + py;
            let x = (j * m + mw) * ps + px;
            let value = crate::common::grid::image_value(
                padded(content, content_h, content_w, height, width),
                width,
                ps,
                m,
                tps,
                lut,
                crate::common::grid::flat_index(
                    width / ps,
                    ps,
                    m,
                    tps,
                    band,
                    j,
                    mh,
                    mw,
                    c,
                    t,
                    py,
                    px,
                ),
            );
            if y < content_h && x < content_w {
                value == lut@[c]@[content[crate::common::grid::byte_index(
                    content_w,
                    y,
                    x,
                    c,
                )] as int]
            } else {
                value == lut@[c]@[0]
            }
        }),
{
    let y = (band * m + mh) * ps + py;
    let x = (j * m + mw) * ps + px;
    let gw = width / ps;
    vstd::arithmetic::div_mod::lemma_fundamental_div_mod(width, ps);
    vstd::arithmetic::div_mod::lemma_mod_bound(width, ps);
    vstd::arithmetic::div_mod::lemma_fundamental_div_mod(gw, m);
    vstd::arithmetic::div_mod::lemma_mod_bound(gw, m);
    assert(0 <= y) by (nonlinear_arith)
        requires
            y == (band * m + mh) * ps + py,
            0 <= band,
            0 < m,
            0 <= mh,
            0 < ps,
            0 <= py,
    ;
    let col = j * m + mw;
    let blocks = gw / m;
    assert(0 <= col < blocks * m) by (nonlinear_arith)
        requires
            col == j * m + mw,
            0 <= j < blocks,
            0 <= mw < m,
    ;
    vstd::arithmetic::mul::lemma_mul_is_commutative(m, blocks);
    assert(0 <= x < gw * ps) by (nonlinear_arith)
        requires
            x == col * ps + px,
            0 <= col < gw,
            0 <= px < ps,
    ;
    vstd::arithmetic::mul::lemma_mul_is_commutative(ps, gw);
    law_padding(content, content_h, content_w, height, width, y, x, c);
    crate::common::grid::law_flattening_order(
        padded(content, content_h, content_w, height, width),
        width,
        ps,
        m,
        tps,
        lut,
        band,
        j,
        mh,
        mw,
        c,
        t,
        py,
        px,
    );
}

}
