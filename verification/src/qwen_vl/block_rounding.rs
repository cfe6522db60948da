//! What rounding the sides of an image to whole blocks does to its pixels.
use crate::binary64::Binary64;
use vstd::prelude::*;

verus! {

/// Rounding down to at least one block keeps more than half of a side.
#[verifier::spinoff_prover]
pub proof fn lemma_half_kept(k: real, f: real, blocks: real, side: real, beta: real, n: real)
    requires
        0real < f,
        0real < beta,
        1real <= k,
        blocks < k + 1real,
        side <= (blocks * f) * crate::rounding_slack::slack(),
        n <= (side * beta) * crate::rounding_slack::slack(),
    ensures
        n <= (2real * (k * f) * beta) * (crate::rounding_slack::slack()
            * crate::rounding_slack::slack()),
{
    let g = crate::rounding_slack::slack();
    let v = 2real * (k * f);
    let bf = blocks * f;
    assert(bf <= v) by (nonlinear_arith)
        requires
            bf == blocks * f,
            v == 2real * (k * f),
            blocks <= 2real * k,
            0real < f,
    ;
    assert(bf * g <= v * g) by (nonlinear_arith)
        requires
            bf <= v,
            0real < g,
    ;
    assert(side * beta <= (v * g) * beta) by (nonlinear_arith)
        requires
            side <= v * g,
            0real < beta,
    ;
    let sb = side * beta;
    let vgb = (v * g) * beta;
    assert(sb * g <= vgb * g) by (nonlinear_arith)
        requires
            sb <= vgb,
            0real < g,
    ;
    assert(vgb * g == (v * beta) * (g * g)) by (nonlinear_arith)
        requires
            vgb == (v * g) * beta,
    ;
}

/// Rounding up adds less than a block to a side. One that takes more than a block was
/// longer than a block before, up to two roundings.
#[verifier::spinoff_prover]
pub proof fn lemma_block_added(k: real, f: real, blocks: real, side: real, beta: real, n: real)
    requires
        0real < f,
        k < blocks + 1real,
        blocks * f <= side * crate::rounding_slack::slack(),
        side <= (n * beta) * crate::rounding_slack::slack(),
    ensures
        ({
            let g2 = crate::rounding_slack::slack() * crate::rounding_slack::slack();
            &&& k * f < (n * beta) * g2 + f
            &&& 1real < blocks ==> f < (n * beta) * g2
        }),
{
    let g = crate::rounding_slack::slack();
    let nb = n * beta;
    assert(side * g <= (nb * g) * g) by (nonlinear_arith)
        requires
            side <= nb * g,
            0real < g,
    ;
    assert((nb * g) * g == nb * (g * g)) by (nonlinear_arith);
    let bf = blocks * f;
    assert(k * f < bf + f) by (nonlinear_arith)
        requires
            bf == blocks * f,
            k < blocks + 1real,
            0real < f,
    ;
    if 1real < blocks {
        assert(f < bf) by (nonlinear_arith)
            requires
                bf == blocks * f,
                1real < blocks,
                0real < f,
        ;
    }
}

/// Whether a stretched side is one block, or the scaled side and less than a block, up to
/// two roundings.
pub open spec fn grows_by_a_block(side: real, n: real, beta: real, f: real) -> bool {
    let scaled = (n * beta) * (crate::rounding_slack::slack() * crate::rounding_slack::slack());
    &&& side < scaled + f
    &&& side == f || f < scaled
}

/// Sides of which rounding down keeps more than half have more than a fifth of the
/// budget.
#[verifier::spinoff_prover]
pub proof fn lemma_shrunk_above(
    h: real,
    w: real,
    most: int,
    budget: Binary64,
    area: real,
    excess: real,
    beta: real,
    hb: int,
    wb: int,
)
    requires
        0real < h,
        0real < w,
        0 < most,
        0 < hb,
        0 < wb,
        0real < beta,
        0real < area,
        0real < excess,
        crate::binary64::rounds_to(most as real, budget),
        area <= (h * w) * crate::rounding_slack::slack(),
        excess * budget.value() <= area * crate::rounding_slack::slack(),
        beta * beta <= excess * (crate::rounding_slack::slack() * crate::rounding_slack::slack()),
        h <= (2real * hb as real * beta) * (crate::rounding_slack::slack()
            * crate::rounding_slack::slack()),
        w <= (2real * wb as real * beta) * (crate::rounding_slack::slack()
            * crate::rounding_slack::slack()),
    ensures
        most < 5 * (hb * wb),
{
    let g = crate::rounding_slack::slack();
    let g2 = g * g;
    let g4 = g2 * g2;
    let g8 = g4 * g4;
    assert(g > 0real && g2 > 0real && g4 > 0real && g8 > 0real) by (nonlinear_arith)
        requires
            g == crate::rounding_slack::slack(),
            crate::rounding_slack::slack() > 0real,
            g2 == g * g,
            g4 == g2 * g2,
            g8 == g4 * g4,
    ;
    let p = budget.value();
    let x = hb as real;
    let y = wb as real;
    let c = x * y;
    let b = beta * beta;
    let a = h * w;
    crate::rounding_slack::lemma_slack(most as real, budget);
    crate::binary64::lemma_product_as_real(hb, wb);
    assert(b > 0real && c >= 1real) by (nonlinear_arith)
        requires
            b == beta * beta,
            beta > 0real,
            c == x * y,
            x >= 1real,
            y >= 1real,
    ;
    let u = (2real * x * beta) * g2;
    let v = (2real * y * beta) * g2;
    assert(a <= u * v) by (nonlinear_arith)
        requires
            a == h * w,
            0real < h <= u,
            0real < w <= v,
    ;
    assert(u * v == (4real * c) * (b * g4)) by (nonlinear_arith)
        requires
            u == (2real * x * beta) * g2,
            v == (2real * y * beta) * g2,
            c == x * y,
            b == beta * beta,
            g4 == g2 * g2,
    ;
    let eg = excess * g2;
    assert(b * p <= eg * p) by (nonlinear_arith)
        requires
            b <= eg,
            p > 0real,
    ;
    let ep = excess * p;
    assert(eg * p == ep * g2) by (nonlinear_arith)
        requires
            eg == excess * g2,
            ep == excess * p,
    ;
    let ag = area * g;
    assert(ag <= (a * g) * g) by (nonlinear_arith)
        requires
            ag == area * g,
            area <= a * g,
            g > 0real,
    ;
    assert((a * g) * g == a * g2) by (nonlinear_arith)
        requires
            g2 == g * g,
    ;
    let a2 = a * g2;
    assert(ep * g2 <= a2 * g2) by (nonlinear_arith)
        requires
            ep <= a2,
            g2 > 0real,
    ;
    assert(a2 * g2 == a * g4) by (nonlinear_arith)
        requires
            a2 == a * g2,
            g4 == g2 * g2,
    ;
    let top = (4real * c) * (b * g4);
    assert(a * g4 <= top * g4) by (nonlinear_arith)
        requires
            a <= top,
            g4 > 0real,
    ;
    assert(top * g4 == (g8 * (4real * c)) * b) by (nonlinear_arith)
        requires
            top == (4real * c) * (b * g4),
            g8 == g4 * g4,
    ;
    assert(b * p == p * b) by (nonlinear_arith);
    super::smart_resize::lemma_cancel(p, g8 * (4real * c), b);
    let q = 4real * c;
    assert(p * g <= (g8 * q) * g) by (nonlinear_arith)
        requires
            p <= g8 * q,
            g > 0real,
    ;
    assert((g8 * q) * g == g8 * (g * q)) by (nonlinear_arith);
    crate::rounding_slack::lemma_nine_slacks(q);
}

/// Sides that rounding up makes less than a block longer, or one block, have less than
/// 16 times the budget, as long as a block is below the budget and neither side is more
/// than 202 times the other.
#[verifier::spinoff_prover]
pub proof fn lemma_stretched_below(
    h: real,
    w: real,
    least: int,
    budget: Binary64,
    area: real,
    lack: real,
    beta: real,
    factor: int,
    hb: int,
    wb: int,
)
    requires
        0real < h <= 202real * w,
        0real < w <= 202real * h,
        0 < factor,
        factor * factor < least,
        0real < beta,
        0real < area,
        0real < lack,
        crate::binary64::rounds_to(least as real, budget),
        h * w <= area * crate::rounding_slack::slack(),
        lack * area <= budget.value() * crate::rounding_slack::slack(),
        beta * beta <= lack * (crate::rounding_slack::slack() * crate::rounding_slack::slack()),
        0 < hb,
        0 < wb,
        grows_by_a_block(hb as real, h, beta, factor as real),
        grows_by_a_block(wb as real, w, beta, factor as real),
    ensures
        hb * wb < 16 * least,
{
    let g = crate::rounding_slack::slack();
    let g2 = g * g;
    let g4 = g2 * g2;
    let g8 = g4 * g4;
    let p = budget.value();
    let m = least as real;
    let f = factor as real;
    let x = (h * beta) * g2;
    let y = (w * beta) * g2;
    crate::rounding_slack::lemma_scaled_budget(p, area, lack, beta, h, w);
    crate::rounding_slack::lemma_slack(m, budget);
    crate::rounding_slack::lemma_nine_slacks(m);
    assert(g2 > 0real && g8 > 0real) by (nonlinear_arith)
        requires
            g == crate::rounding_slack::slack(),
            crate::rounding_slack::slack() > 0real,
            g2 == g * g,
            g4 == g2 * g2,
            g8 == g4 * g4,
    ;
    assert(p <= g * m) by (nonlinear_arith)
        requires
            p <= m * g,
    ;
    assert(g8 * p <= g8 * (g * m)) by (nonlinear_arith)
        requires
            p <= g * m,
            g8 > 0real,
    ;
    let e = beta * g2;
    assert(e > 0real) by (nonlinear_arith)
        requires
            e == beta * g2,
            beta > 0real,
            g2 > 0real,
    ;
    assert(x == h * e && y == w * e) by (nonlinear_arith)
        requires
            x == (h * beta) * g2,
            y == (w * beta) * g2,
            e == beta * g2,
    ;
    lemma_scaled_ratio(h, w, e);
    lemma_scaled_ratio(w, h, e);
    crate::binary64::lemma_product_as_real(factor, factor);
    crate::binary64::lemma_product_as_real(hb, wb);
    let u = hb as real;
    let v = wb as real;
    if u == f {
        lemma_long_side(y, x, f, m);
        assert(u * v < f * (y + f)) by (nonlinear_arith)
            requires
                u == f,
                v < y + f,
                f > 0real,
        ;
        assert(f * (y + f) == y * f + f * f) by (nonlinear_arith);
    } else if v == f {
        assert(x * y == y * x) by (nonlinear_arith);
        lemma_long_side(x, y, f, m);
        assert(u * v < f * (x + f)) by (nonlinear_arith)
            requires
                v == f,
                u < x + f,
                f > 0real,
        ;
        assert(f * (x + f) == x * f + f * f) by (nonlinear_arith);
    } else {
        let x2 = 2real * x;
        let y2 = 2real * y;
        assert(u * v < x2 * y2) by (nonlinear_arith)
            requires
                0real < u < x2,
                0real < v < y2,
        ;
        assert(x2 * y2 == 4real * (x * y)) by (nonlinear_arith)
            requires
                x2 == 2real * x,
                y2 == 2real * y,
        ;
    }
}

/// Scaling keeps the ratio of two sides.
#[verifier::spinoff_prover]
proof fn lemma_scaled_ratio(a: real, b: real, e: real)
    requires
        0real < a <= 202real * b,
        0real < e,
    ensures
        0real < a * e <= 202real * (b * e),
{
    assert(0real < a * e <= 202real * (b * e)) by (nonlinear_arith)
        requires
            0real < a <= 202real * b,
            0real < e,
    ;
}

/// The long side of a budget, one block wide, is below 15 budgets.
#[verifier::spinoff_prover]
proof fn lemma_long_side(x: real, y: real, f: real, m: real)
    requires
        0real < x <= 202real * y,
        0real < f,
        f * f < m,
        100real * (y * x) <= 101real * m || 100real * (x * y) <= 101real * m,
    ensures
        x * f < 15real * m,
{
    assert(x * y == y * x) by (nonlinear_arith);
    let xy = x * y;
    assert(x * x <= x * (202real * y)) by (nonlinear_arith)
        requires
            0real < x <= 202real * y,
    ;
    assert(x * (202real * y) == 202real * xy) by (nonlinear_arith)
        requires
            xy == x * y,
    ;
    let xx = x * x;
    let ff = f * f;
    assert(0real < m) by (nonlinear_arith)
        requires
            f * f < m,
            0real < f,
    ;
    let mm = m * m;
    assert(0real < mm && 0real <= xx && 0real < ff) by (nonlinear_arith)
        requires
            mm == m * m,
            xx == x * x,
            ff == f * f,
            0real < m,
            0real < x,
            0real < f,
    ;
    assert(xx * ff <= (205real * m) * ff) by (nonlinear_arith)
        requires
            xx <= 205real * m,
            0real < ff,
    ;
    assert(m * ff <= mm) by (nonlinear_arith)
        requires
            mm == m * m,
            ff <= m,
            0real < m,
    ;
    assert((205real * m) * ff == 205real * (m * ff)) by (nonlinear_arith);
    let t = x * f;
    assert(t * t == xx * ff) by (nonlinear_arith)
        requires
            t == x * f,
            xx == x * x,
            ff == f * f,
    ;
    if t >= 15real * m {
        let n = 15real * m;
        assert(t * t >= n * n) by (nonlinear_arith)
            requires
                t >= n,
                0real < n,
        ;
        assert(n * n == 225real * mm) by (nonlinear_arith)
            requires
                n == 15real * m,
                mm == m * m,
        ;
    }
}

}
