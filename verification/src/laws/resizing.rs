//! Which size an image is resized to.
use crate::binary64::Binary64;
use crate::qwen_vl::smart_resize::{round_half_even, smart_resize, ResizeError};
use vstd::prelude::*;

verus! {

/// Whether `k` is the integer nearest to `n` over `d`, the even one of two.
pub open spec fn nearest_integer(n: int, d: int, k: int) -> bool {
    let rest = n - k * d;
    &&& -d <= 2 * rest <= d
    &&& 2 * rest == d || 2 * rest == -d ==> k % 2 == 0
}

/// Whether `side` is the multiple of `factor` nearest to `n`, but not 0.
pub open spec fn nearest_multiple(n: int, factor: int, side: int) -> bool {
    exists|k: int| #[trigger]
        nearest_integer(n, factor, k) && side == factor * (if k >= 1 {
            k
        } else {
            1
        })
}

/// Whether `side` is the greatest multiple of `factor` that is not above `exact`, up to
/// rounding.
pub open spec fn blocks_below(exact: real, factor: int, side: int) -> bool {
    exists|k: int, blocks: real|
        {
            &&& side == #[trigger] (k * factor)
            &&& 0 <= k
            &&& k as real <= blocks < k as real + 1real
            &&& #[trigger] super::nearness::near(blocks, exact / factor as real)
        }
}

/// Whether `side` is the least multiple of `factor` that is not below `exact`, up to
/// rounding.
pub open spec fn blocks_above(exact: real, factor: int, side: int) -> bool {
    exists|k: int, blocks: real|
        {
            &&& side == #[trigger] (k * factor)
            &&& 0 <= k
            &&& k as real - 1real < blocks <= k as real
            &&& #[trigger] super::nearness::near(blocks, exact / factor as real)
        }
}

/// Whether `side` is `n` over a scale in double precision, rounded down to a multiple of
/// `factor`.
pub open spec fn shrunk_side(n: int, scale: Binary64, factor: int, side: int) -> bool {
    &&& blocks_below(n as real / super::doubles::number(scale), factor, side)
    &&& exists|length: Binary64, unit: Binary64, exact: Binary64, blocks: Binary64, k: int|
        {
            &&& #[trigger] super::doubles::is_integer(n, length)
            &&& #[trigger] super::doubles::is_integer(factor, unit)
            &&& #[trigger] super::doubles::is_quotient(length, scale, exact)
            &&& #[trigger] super::doubles::is_quotient(exact, unit, blocks)
            &&& side == #[trigger] (k * factor)
            &&& k as real <= super::doubles::number(blocks) < k as real + 1real
        }
}

/// Whether `side` is `n` times a scale in double precision, rounded up to a multiple of
/// `factor`.
pub open spec fn stretched_side(n: int, scale: Binary64, factor: int, side: int) -> bool {
    &&& blocks_above(n as real * super::doubles::number(scale), factor, side)
    &&& exists|length: Binary64, unit: Binary64, exact: Binary64, blocks: Binary64, k: int|
        {
            &&& #[trigger] super::doubles::is_integer(n, length)
            &&& #[trigger] super::doubles::is_integer(factor, unit)
            &&& #[trigger] super::doubles::is_product(length, scale, exact)
            &&& #[trigger] super::doubles::is_quotient(exact, unit, blocks)
            &&& side == #[trigger] (k * factor)
            &&& k as real - 1real < super::doubles::number(blocks) <= k as real
        }
}

/// Whether a scale is the root of the image's pixels over `pixels`, in double precision.
pub open spec fn shrinking_root(height: int, width: int, pixels: int, scale: Binary64) -> bool {
    exists|a: Binary64, b: Binary64, area: Binary64, budget: Binary64, excess: Binary64|
        {
            &&& #[trigger] super::doubles::is_integer(height, a)
            &&& #[trigger] super::doubles::is_integer(width, b)
            &&& #[trigger] super::doubles::is_product(a, b, area)
            &&& #[trigger] super::doubles::is_integer(pixels, budget)
            &&& #[trigger] super::doubles::is_quotient(area, budget, excess)
            &&& super::doubles::is_root(excess, scale)
        }
}

/// Whether a scale is the root of `pixels` over the image's pixels, in double precision.
pub open spec fn stretching_root(height: int, width: int, pixels: int, scale: Binary64) -> bool {
    exists|a: Binary64, b: Binary64, area: Binary64, budget: Binary64, lack: Binary64|
        {
            &&& #[trigger] super::doubles::is_integer(height, a)
            &&& #[trigger] super::doubles::is_integer(width, b)
            &&& #[trigger] super::doubles::is_product(a, b, area)
            &&& #[trigger] super::doubles::is_integer(pixels, budget)
            &&& #[trigger] super::doubles::is_quotient(budget, area, lack)
            &&& super::doubles::is_root(lack, scale)
        }
}

/// Whether both sides of an image, divided by one number that leaves `pixels` pixels, are
/// rounded down to multiples of `factor`.
pub open spec fn shrunk(height: int, width: int, factor: int, pixels: int, h: int, w: int) -> bool {
    exists|scale: Binary64|
        {
            let s = super::doubles::number(scale);
            &&& #[trigger] shrinking_root(height, width, pixels, scale)
            &&& super::nearness::near(
                s * s,
                height as real * width as real / pixels as real,
            )
            &&& shrunk_side(height, scale, factor, h)
            &&& shrunk_side(width, scale, factor, w)
        }
}

/// Whether both sides of an image, multiplied by one number that makes `pixels` pixels, are
/// rounded up to multiples of `factor`.
pub open spec fn stretched(
    height: int,
    width: int,
    factor: int,
    pixels: int,
    h: int,
    w: int,
) -> bool {
    exists|scale: Binary64|
        {
            let s = super::doubles::number(scale);
            &&& #[trigger] stretching_root(height, width, pixels, scale)
            &&& super::nearness::near(
                s * s,
                pixels as real / (height as real * width as real),
            )
            &&& stretched_side(height, scale, factor, h)
            &&& stretched_side(width, scale, factor, w)
        }
}

/// Whether `h` by `w` is the size to which an image is brought: the nearest multiples of
/// `factor` where they are inside the budget, else the shrunk or stretched ones.
pub open spec fn target(
    height: int,
    width: int,
    factor: int,
    min_pixels: int,
    max_pixels: int,
    h: int,
    w: int,
) -> bool {
    if factor == 0 {
        h == 0 && w == 0
    } else {
        exists|a: int, b: int|
            {
                &&& #[trigger] nearest_multiple(height, factor, a)
                &&& #[trigger] nearest_multiple(width, factor, b)
                &&& if a * b > max_pixels {
                    if max_pixels == 0 {
                        h == 0 && w == 0
                    } else {
                        shrunk(height, width, factor, max_pixels, h, w)
                    }
                } else if a * b < min_pixels {
                    stretched(height, width, factor, min_pixels, h, w)
                } else {
                    h == a && w == b
                }
            }
    }
}

/// There is only one nearest integer, and it is the contract's.
proof fn lemma_half_even(n: int, d: int, k: int)
    requires
        0 <= n,
        0 < d,
    ensures
        nearest_integer(n, d, k) <==> k == crate::qwen_vl::smart_resize::half_even(n, d),
{
    let q = n / d;
    let r = n % d;
    vstd::arithmetic::div_mod::lemma_fundamental_div_mod(n, d);
    vstd::arithmetic::div_mod::lemma_mod_bound(n, d);
    vstd::arithmetic::mul::lemma_mul_is_commutative(d, q);
    let j = crate::qwen_vl::smart_resize::half_even(n, d);
    vstd::arithmetic::mul::lemma_mul_is_distributive_add_other_way(d, q, 1);
    assert(nearest_integer(n, d, j)) by {
        if j == q {
            assert(n - j * d == r);
        } else {
            assert(n - j * d == r - d);
        }
    }
    if nearest_integer(n, d, k) && k != j {
        let apart = k * d - j * d;
        assert(apart == (k - j) * d) by (nonlinear_arith)
            requires
                apart == k * d - j * d,
        ;
        assert(-d <= apart <= d);
        assert(k - j == 1 || k - j == -1) by (nonlinear_arith)
            requires
                apart == (k - j) * d,
                -d <= apart <= d,
                0 < d,
                k != j,
        ;
        assert(apart == d || apart == -d);
        assert(false);
    }
}

/// The contract's rounded side is the nearest multiple.
proof fn lemma_round_side(n: int, factor: int)
    requires
        0 < n,
        0 < factor,
    ensures
        nearest_multiple(n, factor, crate::qwen_vl::smart_resize::round_side(n, factor)),
{
    let k = crate::qwen_vl::smart_resize::half_even(n, factor);
    lemma_half_even(n, factor, k);
    crate::qwen_vl::smart_resize::lemma_round_side(n, factor);
    vstd::arithmetic::mul::lemma_mul_is_commutative(k, factor);
    vstd::arithmetic::mul::lemma_mul_basics(factor);
    if k >= 1 {
        assert(k * factor >= factor) by (nonlinear_arith)
            requires
                k >= 1,
                0 < factor,
        ;
    } else {
        assert(k * factor <= 0) by (nonlinear_arith)
            requires
                k <= 0,
                0 < factor,
        ;
    }
}

/// The root of a ratio of pixels.
#[verifier::spinoff_prover]
proof fn lemma_scale(x: real, y: real, a: real, b: real, j: nat, k: nat)
    requires
        super::nearness::within(x, a, j),
        super::nearness::within(y, b, k),
        j + k + 3 <= 16,
        1real / 1393796574908163946345982392040522594123776real <= x / y <= 43556142965880123323311949751266331066368real,
    ensures
        ({
            let ratio = crate::binary64::nearest(x / y);
            let s = crate::binary64::nearest_root(ratio.value()).value();
            &&& crate::binary64::rounds_to(x / y, ratio)
            &&& crate::binary64::root_rounds_to(
                ratio.value(),
                crate::binary64::nearest_root(ratio.value()),
            )
            &&& super::nearness::near(s * s, a / b)
            &&& 1real / 4722366482869645213696real <= s <= 1180591620717411303424real
        }),
{
    let q = x / y;
    lemma_range();
    super::nearness::lemma_quotient(x, y, a, b, j, k);
    let ratio = crate::binary64::nearest(q);
    let l = ratio.value();
    crate::binary64::lemma_within_twice(q, ratio);
    crate::binary64::lemma_root_exists(ratio);
    let root = crate::binary64::nearest_root(l);
    let s = root.value();
    super::nearness::lemma_rounded_root(l, root);
    crate::binary64::lemma_root_within(l, root);
    super::nearness::lemma_chain(s * s, l, a / b, 2, j + k + 1);
    super::nearness::lemma_near(s * s, a / b, j + k + 3);
    assert(1real / 4722366482869645213696real <= s) by (nonlinear_arith)
        requires
            l < 4real * (s * s),
            1real / 2787593149816327892691964784081045188247552real <= l,
            0real < s,
    ;
    assert(s <= 1180591620717411303424real) by (nonlinear_arith)
        requires
            s * s < 4real * l,
            l <= 87112285931760246646623899502532662132736real,
            0real < s,
    ;
}

/// The range in which numbers are rounded here.
proof fn lemma_range()
    ensures
        crate::binary64::p2(-260) <= 1real / 1393796574908163946345982392040522594123776real,
        crate::binary64::p2(260) > 1393796574908163946345982392040522594123776real,
{
    super::nearness::lemma_p2_small();
    crate::binary64::lemma_p2_64();
    let big = 340282366920938463463374607431768211456real;
    let huge = big * big;
    let low = crate::binary64::p2(-260);
    let m = 1393796574908163946345982392040522594123776real;
    assert(m == 4096real * big);
    assert(huge >= m) by (nonlinear_arith)
        requires
            huge == big * big,
            m == 4096real * big,
            big >= 4096real,
    ;
    assert(low <= 1real / m) by (nonlinear_arith)
        requires
            low * huge * 16real == 1real,
            0real < low,
            0real < m <= huge,
    ;
}

/// A side in blocks.
#[verifier::spinoff_prover]
proof fn lemma_blocks(side: real, exact: real, factor: int)
    requires
        super::nearness::within(side, exact, 2),
        1real / 1393796574908163946345982392040522594123776real <= side / crate::binary64::double(
            factor,
        ) <= 1393796574908163946345982392040522594123776real,
        0 < factor <= u64::MAX,
    ensures
        ({
            let blocks = crate::binary64::nearest(side / crate::binary64::double(factor));
            &&& blocks.wf()
            &&& crate::binary64::rounds_to(side / crate::binary64::double(factor), blocks)
            &&& super::nearness::near(blocks.value(), exact / factor as real)
        }),
{
    lemma_range();
    super::nearness::lemma_double(factor);
    super::nearness::lemma_quotient(
        side,
        crate::binary64::double(factor),
        exact,
        factor as real,
        2,
        1,
    );
    let blocks = crate::binary64::nearest(side / crate::binary64::double(factor));
    super::nearness::lemma_near(blocks.value(), exact / factor as real, 4);
}

/// A quotient of bounded numbers.
proof fn lemma_bounded_quotient(x: real, y: real, lx: real, hx: real, ly: real, hy: real)
    requires
        0real < lx <= x <= hx,
        0real < ly <= y <= hy,
    ensures
        lx / hy <= x / y <= hx / ly,
{
    let q = x / y;
    assert(q * y == x) by (nonlinear_arith)
        requires
            q == x / y,
            0real < y,
    ;
    let a = lx / hy;
    let b = hx / ly;
    assert(a * hy == lx && b * ly == hx && 0real < a && 0real < b) by (nonlinear_arith)
        requires
            a == lx / hy,
            b == hx / ly,
            0real < hy,
            0real < ly,
            0real < lx,
            0real < hx,
    ;
    assert(a <= q) by (nonlinear_arith)
        requires
            q * y == x,
            a * hy == lx,
            lx <= x,
            0real < y <= hy,
            0real < a,
    ;
    assert(q <= b) by (nonlinear_arith)
        requires
            q * y == x,
            b * ly == hx,
            x <= hx,
            0real < ly <= y,
            0real < b,
    ;
}

/// A shrunk side of the contract.
#[verifier::spinoff_prover]
proof fn lemma_shrunk_side(n: int, root: Binary64, factor: int)
    requires
        0 < n <= u64::MAX,
        0 < factor <= u64::MAX,
        1real / 4722366482869645213696real <= super::doubles::number(root)
            <= 1180591620717411303424real,
    ensures
        shrunk_side(
            n,
            root,
            factor,
            crate::qwen_vl::smart_resize::shrunk_side(n, super::doubles::number(root), factor),
        ),
{
    let scale = super::doubles::number(root);
    let x = crate::binary64::double(n);
    let d = crate::binary64::double(factor);
    let bound = 1180591620717411303424real;
    let least = 1real / 4722366482869645213696real;
    let top = 36893488147419103232real;
    super::nearness::lemma_double(n);
    super::nearness::lemma_double(factor);
    super::nearness::lemma_same(scale);
    lemma_range();
    lemma_bounded_quotient(x, scale, 1real / 2real, top, least, bound);
    assert(1real / 2real / bound == 1real / 2361183241434822606848real);
    assert(top / least == 174224571863520493293247799005065324265472real);
    super::nearness::lemma_quotient(x, scale, n as real, scale, 1, 0);
    let side = crate::binary64::nearest(x / scale);
    crate::binary64::lemma_within_twice(x / scale, side);
    let v = side.value();
    lemma_bounded_quotient(
        v,
        d,
        1real / 4722366482869645213696real,
        348449143727040986586495598010130648530944real,
        1real / 2real,
        top,
    );
    lemma_blocks(v, n as real / scale, factor);
    let blocks = crate::binary64::nearest(v / d);
    crate::binary64::lemma_floor_of_number(blocks);
    let k = crate::binary64::floor(blocks.value());
    assert(k * factor == crate::qwen_vl::smart_resize::shrunk_side(n, scale, factor));
    super::doubles::lemma_integer(n);
    super::doubles::lemma_integer(factor);
    super::doubles::lemma_number(side);
    super::doubles::lemma_number(blocks);
    super::doubles::lemma_nearest_double(x / scale, side);
    super::doubles::lemma_nearest_double(v / d, blocks);
    let length = crate::binary64::nearest(n as real);
    let unit = crate::binary64::nearest(factor as real);
    assert(super::doubles::is_integer(n, length));
    assert(super::doubles::is_integer(factor, unit));
    assert(super::doubles::is_quotient(length, root, side));
    assert(super::doubles::is_quotient(side, unit, blocks));
}

/// A stretched side of the contract.
#[verifier::spinoff_prover]
proof fn lemma_stretched_side(n: int, root: Binary64, factor: int)
    requires
        0 < n <= u64::MAX,
        0 < factor <= u64::MAX,
        1real / 4722366482869645213696real <= super::doubles::number(root)
            <= 1180591620717411303424real,
    ensures
        stretched_side(
            n,
            root,
            factor,
            crate::qwen_vl::smart_resize::stretched_side(n, super::doubles::number(root), factor),
        ),
{
    let scale = super::doubles::number(root);
    let x = crate::binary64::double(n);
    let d = crate::binary64::double(factor);
    let top = 36893488147419103232real;
    super::nearness::lemma_double(n);
    super::nearness::lemma_double(factor);
    super::nearness::lemma_same(scale);
    lemma_range();
    let r = x * scale;
    assert(1real / 9444732965739290427392real <= r
        && r <= 43556142965880123323311949751266331066368real) by (nonlinear_arith)
        requires
            r == x * scale,
            1real / 2real <= x <= 36893488147419103232real,
            1real / 4722366482869645213696real <= scale <= 1180591620717411303424real,
    ;
    super::nearness::lemma_product(x, scale, n as real, scale, 1, 0);
    let side = crate::binary64::nearest(r);
    crate::binary64::lemma_within_twice(r, side);
    let v = side.value();
    lemma_bounded_quotient(
        v,
        d,
        1real / 18889465931478580854784real,
        2real * 43556142965880123323311949751266331066368real,
        1real / 2real,
        top,
    );
    lemma_blocks(v, n as real * scale, factor);
    let blocks = crate::binary64::nearest(v / d);
    crate::binary64::lemma_floor_of_number(blocks);
    let k = crate::binary64::ceil(blocks.value());
    assert(k * factor == crate::qwen_vl::smart_resize::stretched_side(n, scale, factor));
    super::doubles::lemma_integer(n);
    super::doubles::lemma_integer(factor);
    super::doubles::lemma_number(side);
    super::doubles::lemma_number(blocks);
    super::doubles::lemma_nearest_double(r, side);
    super::doubles::lemma_nearest_double(v / d, blocks);
    let length = crate::binary64::nearest(n as real);
    let unit = crate::binary64::nearest(factor as real);
    assert(super::doubles::is_integer(n, length));
    assert(super::doubles::is_integer(factor, unit));
    assert(super::doubles::is_product(length, root, side));
    assert(super::doubles::is_quotient(side, unit, blocks));
}

/// The pixels of an image in binary64.
#[verifier::spinoff_prover]
proof fn lemma_area(height: int, width: int)
    requires
        0 < height <= u64::MAX,
        0 < width <= u64::MAX,
    ensures
        ({
            let area = crate::binary64::nearest(
                crate::binary64::double(height) * crate::binary64::double(width),
            ).value();
            &&& super::nearness::within(area, height as real * width as real, 3)
            &&& 1real / 8real <= area <= 2722258935367507707706996859454145691648real
        }),
        crate::binary64::rounds_to(
            crate::binary64::double(height) * crate::binary64::double(width),
            crate::binary64::nearest(
                crate::binary64::double(height) * crate::binary64::double(width),
            ),
        ),
{
    let x = crate::binary64::double(height);
    let y = crate::binary64::double(width);
    super::nearness::lemma_double(height);
    super::nearness::lemma_double(width);
    lemma_range();
    let r = x * y;
    assert(1real / 4real <= r && r <= 1361129467683753853853498429727072845824real)
        by (nonlinear_arith)
        requires
            r == x * y,
            1real / 2real <= x <= 36893488147419103232real,
            1real / 2real <= y <= 36893488147419103232real,
    ;
    super::nearness::lemma_product(x, y, height as real, width as real, 1, 1);
    crate::binary64::lemma_within_twice(r, crate::binary64::nearest(r));
}

/// The numbers that a scale is made of.
proof fn lemma_steps(height: int, width: int, pixels: int, product: Binary64)
    requires
        0 < height <= u64::MAX,
        0 < width <= u64::MAX,
        0 < pixels <= u64::MAX,
        crate::binary64::rounds_to(
            crate::binary64::double(height) * crate::binary64::double(width),
            product,
        ),
    ensures
        super::doubles::is_integer(height, crate::binary64::nearest(height as real)),
        super::doubles::is_integer(width, crate::binary64::nearest(width as real)),
        super::doubles::is_integer(pixels, crate::binary64::nearest(pixels as real)),
        super::doubles::is_product(
            crate::binary64::nearest(height as real),
            crate::binary64::nearest(width as real),
            product,
        ),
        super::doubles::number(product) == product.value(),
        super::doubles::number(crate::binary64::nearest(pixels as real))
            == crate::binary64::double(pixels),
{
    super::doubles::lemma_integer(height);
    super::doubles::lemma_integer(width);
    super::doubles::lemma_integer(pixels);
    super::doubles::lemma_number(product);
    super::doubles::lemma_nearest_double(
        crate::binary64::double(height) * crate::binary64::double(width),
        product,
    );
}

/// The contract's shrunk sides.
proof fn lemma_shrunk(height: int, width: int, factor: int, pixels: int)
    requires
        0 < height <= u64::MAX,
        0 < width <= u64::MAX,
        0 < factor <= u64::MAX,
        0 < pixels <= u64::MAX,
    ensures
        ({
            let beta = crate::qwen_vl::smart_resize::shrink(height, width, pixels);
            shrunk(
                height,
                width,
                factor,
                pixels,
                crate::qwen_vl::smart_resize::shrunk_side(height, beta, factor),
                crate::qwen_vl::smart_resize::shrunk_side(width, beta, factor),
            )
        }),
{
    let area = crate::binary64::nearest(
        crate::binary64::double(height) * crate::binary64::double(width),
    ).value();
    let budget = crate::binary64::double(pixels);
    lemma_area(height, width);
    super::nearness::lemma_double(pixels);
    let most = 2722258935367507707706996859454145691648real;
    let top = 36893488147419103232real;
    lemma_bounded_quotient(area, budget, 1real / 8real, most, 1real / 2real, top);
    assert(1real / 8real / top == 1real / 295147905179352825856real);
    lemma_scale(area, budget, height as real * width as real, pixels as real, 3, 1);
    let beta = crate::qwen_vl::smart_resize::shrink(height, width, pixels);
    let product = crate::binary64::nearest(
        crate::binary64::double(height) * crate::binary64::double(width),
    );
    let ratio = crate::binary64::nearest(area / budget);
    let root = crate::binary64::nearest_root(ratio.value());
    lemma_steps(height, width, pixels, product);
    super::doubles::lemma_number(ratio);
    super::doubles::lemma_number(root);
    super::doubles::lemma_nearest_double(area / budget, ratio);
    super::doubles::lemma_nearest_root(ratio.value(), root);
    let a = crate::binary64::nearest(height as real);
    let b = crate::binary64::nearest(width as real);
    let c = crate::binary64::nearest(pixels as real);
    assert(super::doubles::is_product(a, b, product));
    assert(super::doubles::is_quotient(product, c, ratio));
    assert(super::doubles::is_root(ratio, root));
    assert(shrinking_root(height, width, pixels, root));
    lemma_shrunk_side(height, root, factor);
    lemma_shrunk_side(width, root, factor);
}

/// The contract's stretched sides.
proof fn lemma_stretched(height: int, width: int, factor: int, pixels: int)
    requires
        0 < height <= u64::MAX,
        0 < width <= u64::MAX,
        0 < factor <= u64::MAX,
        0 < pixels <= u64::MAX,
    ensures
        ({
            let beta = crate::qwen_vl::smart_resize::stretch(height, width, pixels);
            stretched(
                height,
                width,
                factor,
                pixels,
                crate::qwen_vl::smart_resize::stretched_side(height, beta, factor),
                crate::qwen_vl::smart_resize::stretched_side(width, beta, factor),
            )
        }),
{
    let area = crate::binary64::nearest(
        crate::binary64::double(height) * crate::binary64::double(width),
    ).value();
    let budget = crate::binary64::double(pixels);
    lemma_area(height, width);
    super::nearness::lemma_double(pixels);
    let most = 2722258935367507707706996859454145691648real;
    let top = 36893488147419103232real;
    lemma_bounded_quotient(budget, area, 1real / 2real, top, 1real / 8real, most);
    lemma_scale(budget, area, pixels as real, height as real * width as real, 1, 3);
    let beta = crate::qwen_vl::smart_resize::stretch(height, width, pixels);
    let product = crate::binary64::nearest(
        crate::binary64::double(height) * crate::binary64::double(width),
    );
    let ratio = crate::binary64::nearest(budget / area);
    let root = crate::binary64::nearest_root(ratio.value());
    lemma_steps(height, width, pixels, product);
    super::doubles::lemma_number(ratio);
    super::doubles::lemma_number(root);
    super::doubles::lemma_nearest_double(budget / area, ratio);
    super::doubles::lemma_nearest_root(ratio.value(), root);
    let a = crate::binary64::nearest(height as real);
    let b = crate::binary64::nearest(width as real);
    let c = crate::binary64::nearest(pixels as real);
    assert(super::doubles::is_product(a, b, product));
    assert(super::doubles::is_quotient(c, product, ratio));
    assert(super::doubles::is_root(ratio, root));
    assert(stretching_root(height, width, pixels, root));
    lemma_stretched_side(height, root, factor);
    lemma_stretched_side(width, root, factor);
}

/// The contract's target.
proof fn lemma_target(
    height: int,
    width: int,
    factor: int,
    min_pixels: int,
    max_pixels: int,
    h: int,
    w: int,
)
    requires
        0 < height <= u64::MAX,
        0 < width <= u64::MAX,
        0 <= factor <= u64::MAX,
        0 <= min_pixels <= u64::MAX,
        0 <= max_pixels <= u64::MAX,
        crate::qwen_vl::smart_resize::target_sides(
            height,
            width,
            factor,
            min_pixels,
            max_pixels,
        ) == (h, w),
    ensures
        target(height, width, factor, min_pixels, max_pixels, h, w),
{
    if factor > 0 {
        let a = crate::qwen_vl::smart_resize::round_side(height, factor);
        let b = crate::qwen_vl::smart_resize::round_side(width, factor);
        lemma_round_side(height, factor);
        lemma_round_side(width, factor);
        crate::qwen_vl::smart_resize::lemma_round_side(height, factor);
        crate::qwen_vl::smart_resize::lemma_round_side(width, factor);
        vstd::arithmetic::mul::lemma_mul_nonnegative(a, b);
        if a * b > max_pixels {
            if max_pixels > 0 {
                lemma_shrunk(height, width, factor, max_pixels);
            }
        } else if a * b < min_pixels {
            lemma_stretched(height, width, factor, min_pixels);
        }
        assert(nearest_multiple(height, factor, a) && nearest_multiple(width, factor, b));
    }
}

/// The longer side over the shorter one.
pub open spec fn exact_ratio(height: int, width: int) -> real {
    if height >= width {
        height as real / width as real
    } else {
        width as real / height as real
    }
}

/// Whether a number is one integer over another, in double precision.
pub open spec fn is_integer_ratio(n: int, d: int, ratio: Binary64) -> bool {
    exists|a: Binary64, b: Binary64|
        {
            &&& #[trigger] super::doubles::is_integer(n, a)
            &&& #[trigger] super::doubles::is_integer(d, b)
            &&& super::doubles::is_quotient(a, b, ratio)
        }
}

/// Whether a number is the longer side over the shorter one, in double precision.
pub open spec fn is_ratio(height: int, width: int, ratio: Binary64) -> bool {
    if height >= width {
        is_integer_ratio(height, width, ratio)
    } else {
        is_integer_ratio(width, height, ratio)
    }
}

/// Whether `result` is the target size of an image, or why it has none: it is empty, one
/// side is more than 200 times the other, or a side of the target is 0.
pub open spec fn resizes(
    height: usize,
    width: usize,
    factor: usize,
    min_pixels: usize,
    max_pixels: usize,
    result: Result<(usize, usize), ResizeError>,
) -> bool {
    if height == 0 || width == 0 {
        result matches Err(ResizeError::EmptyImage)
    } else {
        match result {
            Ok((h, w)) => {
                &&& h > 0
                &&& w > 0
                &&& target(
                    height as int,
                    width as int,
                    factor as int,
                    min_pixels as int,
                    max_pixels as int,
                    h as int,
                    w as int,
                )
            },
            Err(ResizeError::EmptyImage) => false,
            Err(ResizeError::AspectRatio { ratio }) => {
                &&& super::nearness::near(
                    super::doubles::number(ratio),
                    exact_ratio(height as int, width as int),
                )
                &&& is_ratio(height as int, width as int, ratio)
                &&& super::doubles::number(ratio) > 200real
            },
            Err(ResizeError::Degenerate { height: h, width: w, h_bar, w_bar, max_pixels: most }) => {
                &&& h == height
                &&& w == width
                &&& most == max_pixels
                &&& h_bar == 0 || w_bar == 0
                &&& target(
                    height as int,
                    width as int,
                    factor as int,
                    min_pixels as int,
                    max_pixels as int,
                    h_bar as int,
                    w_bar as int,
                )
            },
        }
    }
}

/// Whether, for sides below `2^44`, the aspect ratio is refused exactly where one side is
/// more than 200 times the other, and for longer ones up to rounding.
pub open spec fn refuses_ratio(
    height: usize,
    width: usize,
    result: Result<(usize, usize), ResizeError>,
) -> bool {
    &&& 0 < height < 0x1000_0000_0000 && 0 < width < 0x1000_0000_0000 ==> (result matches Err(
        ResizeError::AspectRatio { ratio },
    ) <==> height > 200 * width || width > 200 * height)
    &&& 0 < height && 0 < width && !(result matches Err(ResizeError::AspectRatio { ratio }))
        ==> exists|ratio: Binary64|
        {
            &&& super::nearness::near(
                super::doubles::number(ratio),
                exact_ratio(height as int, width as int),
            )
            &&& #[trigger] is_ratio(height as int, width as int, ratio)
            &&& super::doubles::number(ratio) <= 200real
        }
}

/// What the contract of resizing says of the target.
pub proof fn lemma_resizes(
    height: usize,
    width: usize,
    factor: usize,
    min_pixels: usize,
    max_pixels: usize,
    result: Result<(usize, usize), ResizeError>,
)
    requires
        result == crate::qwen_vl::smart_resize::resized(
            height,
            width,
            factor,
            min_pixels,
            max_pixels,
        ),
        crate::qwen_vl::smart_resize::holds_target_sides(
            height,
            width,
            factor,
            min_pixels,
            max_pixels,
            result,
        ),
    ensures
        resizes(height, width, factor, min_pixels, max_pixels, result),
        refuses_ratio(height, width, result),
{
    if 0 < height && 0 < width {
        lemma_aspect(height as int, width as int);
        let aspect = crate::qwen_vl::smart_resize::aspect_ratio(height as int, width as int);
        assert(is_ratio(height as int, width as int, aspect));
        match result {
            Ok((h, w)) => {
                lemma_target(
                    height as int,
                    width as int,
                    factor as int,
                    min_pixels as int,
                    max_pixels as int,
                    h as int,
                    w as int,
                );
            },
            Err(ResizeError::Degenerate { height: _, width: _, h_bar, w_bar, max_pixels: _ }) => {
                lemma_target(
                    height as int,
                    width as int,
                    factor as int,
                    min_pixels as int,
                    max_pixels as int,
                    h_bar as int,
                    w_bar as int,
                );
            },
            Err(_) => {},
        }
        if height < 0x1000_0000_0000 && width < 0x1000_0000_0000 {
            crate::qwen_vl::smart_resize::law_ratio_is_exact(height as int, width as int);
        }
    }
}

/// What resizing an image gives.
pub proof fn law_smart_resize(
    height: usize,
    width: usize,
    factor: usize,
    min_pixels: usize,
    max_pixels: usize,
    result: Result<(usize, usize), ResizeError>,
)
    requires
        call_ensures(smart_resize, (height, width, factor, min_pixels, max_pixels), result),
    ensures
        resizes(height, width, factor, min_pixels, max_pixels, result),
        refuses_ratio(height, width, result),
{
    lemma_resizes(height, width, factor, min_pixels, max_pixels, result);
}

/// The sides of a target are multiples of the factor.
pub proof fn lemma_target_multiples(
    height: int,
    width: int,
    factor: int,
    min_pixels: int,
    max_pixels: int,
    h: int,
    w: int,
)
    requires
        0 < factor,
        target(height, width, factor, min_pixels, max_pixels, h, w),
    ensures
        h % factor == 0,
        w % factor == 0,
{
    vstd::arithmetic::div_mod::lemma_mod_self_0(factor);
    vstd::arithmetic::div_mod::lemma_small_mod(0, factor as nat);
    assert forall|k: int| #[trigger] (k * factor) % factor == 0 by {
        vstd::arithmetic::div_mod::lemma_mod_multiples_basic(k, factor);
    }
    assert forall|k: int| #[trigger] (factor * k) % factor == 0 by {
        vstd::arithmetic::div_mod::lemma_mod_multiples_basic(k, factor);
        vstd::arithmetic::mul::lemma_mul_is_commutative(k, factor);
    }
}

/// The contract's aspect ratio.
proof fn lemma_aspect(height: int, width: int)
    requires
        0 < height <= u64::MAX,
        0 < width <= u64::MAX,
    ensures
        ({
            let ratio = crate::qwen_vl::smart_resize::aspect_ratio(height, width);
            &&& super::nearness::near(ratio.value(), exact_ratio(height, width))
            &&& is_ratio(height, width, ratio)
            &&& super::doubles::number(ratio) == ratio.value()
        }),
{
    let ratio = crate::qwen_vl::smart_resize::aspect_ratio(height, width);
    let (long, short) = if height >= width {
        (height, width)
    } else {
        (width, height)
    };
    super::canvas::lemma_ratio(long, short);
    super::nearness::lemma_near(ratio.value(), exact_ratio(height, width), 3);
    super::doubles::lemma_integer(long);
    super::doubles::lemma_integer(short);
    super::doubles::lemma_number(ratio);
    super::doubles::lemma_nearest_double(
        crate::binary64::double(long) / crate::binary64::double(short),
        ratio,
    );
    let a = crate::binary64::nearest(long as real);
    let b = crate::binary64::nearest(short as real);
    assert(super::doubles::is_integer(long, a) && super::doubles::is_integer(short, b)
        && super::doubles::is_quotient(a, b, ratio));
}

/// Rounding a quotient gives the nearest integer, the even one of two.
pub proof fn law_round_half_even(n: usize, d: usize, k: u128)
    requires
        0 < d,
        call_ensures(round_half_even, (n, d), k),
    ensures
        nearest_integer(n as int, d as int, k as int),
{
    lemma_half_even(n as int, d as int, k as int);
}

/// Whether `text` tells of an image that is too thin.
pub open spec fn tells_of_thin_image(
    height: int,
    width: int,
    h_bar: int,
    w_bar: int,
    max_pixels: int,
    text: Seq<char>,
) -> bool {
    exists|a: Seq<char>, b: Seq<char>, c: Seq<char>, d: Seq<char>, e: Seq<char>|
        {
            &&& #[trigger] super::numerals::is_numeral(a, height)
            &&& #[trigger] super::numerals::is_numeral(b, width)
            &&& #[trigger] super::numerals::is_numeral(c, h_bar)
            &&& #[trigger] super::numerals::is_numeral(d, w_bar)
            &&& #[trigger] super::numerals::is_numeral(e, max_pixels)
            &&& text == "smart_resize: "@ + a + "x"@ + b + " degenerates to "@ + c + "x"@ + d
                + " at max_pixels="@ + e + "; image is too thin for this pixel budget"@
        }
}

/// What the message of an error says.
pub proof fn law_message(error: &ResizeError, ratio: &str, s: String)
    requires
        call_ensures(ResizeError::message, (error, ratio), s),
    ensures
        match *error {
            ResizeError::EmptyImage => s@ == "empty image"@,
            ResizeError::AspectRatio { .. } => s@
                == "absolute aspect ratio must be smaller than 200, got "@ + ratio@,
            ResizeError::Degenerate { height, width, h_bar, w_bar, max_pixels } =>
                tells_of_thin_image(
                    height as int,
                    width as int,
                    h_bar as int,
                    w_bar as int,
                    max_pixels as int,
                    s@,
                ),
        },
{
    if let ResizeError::Degenerate { height, width, h_bar, w_bar, max_pixels } = *error {
        super::numerals::law_numerals_read_back(height as nat);
        super::numerals::law_numerals_read_back(width as nat);
        super::numerals::law_numerals_read_back(h_bar as nat);
        super::numerals::law_numerals_read_back(w_bar as nat);
        super::numerals::law_numerals_read_back(max_pixels as nat);
        assert(super::numerals::is_numeral(crate::text::decimal(height as nat), height as int));
        assert(super::numerals::is_numeral(crate::text::decimal(width as nat), width as int));
        assert(super::numerals::is_numeral(crate::text::decimal(h_bar as nat), h_bar as int));
        assert(super::numerals::is_numeral(crate::text::decimal(w_bar as nat), w_bar as int));
        assert(super::numerals::is_numeral(
            crate::text::decimal(max_pixels as nat),
            max_pixels as int,
        ));
    }
}

}
