//! What a decoded image shows: the stored pixels, upright and over a background.
use crate::glm_vl::decode::{decode_image, finish_decoding, to_media, DecodeError, StoredImage};
use crate::glm_vl::GlmVlProcessor;
use crate::pipeline::DecodedMedia;
use vstd::prelude::*;

verus! {

/// Whether a colour type is one of those with byte samples.
pub open spec fn byte_colour(color: Seq<char>) -> bool {
    color == "L8"@ || color == "La8"@ || color == "Rgb8"@ || color == "Rgba8"@
}

/// The samples of a pixel of a colour type.
pub open spec fn sample_count(color: Seq<char>) -> int {
    if color == "L8"@ {
        1
    } else if color == "La8"@ {
        2
    } else if color == "Rgb8"@ {
        3
    } else {
        4
    }
}

/// Whether a colour type has an opacity.
pub open spec fn has_opacity(color: Seq<char>) -> bool {
    color == "La8"@ || color == "Rgba8"@
}

/// Sample `k` of the stored pixel at column `x` and row `y`.
pub open spec fn stored_sample(image: StoredImage, x: int, y: int, k: int) -> int {
    image.samples@[(y * image.width + x) * sample_count(image.color@) + k] as int
}

/// Red, green or blue of the stored pixel at column `x` and row `y`.
pub open spec fn stored_colour(image: StoredImage, x: int, y: int, c: int) -> int {
    if image.color@ == "L8"@ || image.color@ == "La8"@ {
        stored_sample(image, x, y, 0)
    } else {
        stored_sample(image, x, y, c)
    }
}

/// The opacity of the stored pixel at column `x` and row `y`.
pub open spec fn stored_opacity(image: StoredImage, x: int, y: int) -> int {
    if image.color@ == "La8"@ {
        stored_sample(image, x, y, 1)
    } else if image.color@ == "Rgba8"@ {
        stored_sample(image, x, y, 3)
    } else {
        255
    }
}

/// Whether columns and rows change places.
pub open spec fn sides_swap(image: StoredImage) -> bool {
    5 <= image.orientation <= 8
}

/// Width of the upright image.
pub open spec fn upright_width(image: StoredImage) -> int {
    if sides_swap(image) {
        image.height as int
    } else {
        image.width as int
    }
}

/// Height of the upright image.
pub open spec fn upright_height(image: StoredImage) -> int {
    if sides_swap(image) {
        image.width as int
    } else {
        image.height as int
    }
}

/// The stored column of the pixel at column `x` and row `y` of the upright image: for the
/// orientations 2, 3, 7 and 8 columns are stored from the right.
pub open spec fn stored_column(image: StoredImage, x: int, y: int) -> int {
    let o = image.orientation;
    let along = if sides_swap(image) {
        y
    } else {
        x
    };
    if o == 2 || o == 3 || o == 7 || o == 8 {
        image.width - 1 - along
    } else {
        along
    }
}

/// The stored row of the pixel at column `x` and row `y` of the upright image: for the
/// orientations 3, 4, 6 and 7 rows are stored from the bottom.
pub open spec fn stored_row(image: StoredImage, x: int, y: int) -> int {
    let o = image.orientation;
    let down = if sides_swap(image) {
        x
    } else {
        y
    };
    if o == 3 || o == 4 || o == 6 || o == 7 {
        image.height - 1 - down
    } else {
        down
    }
}

/// Colour `c` of the pixel at column `x` and row `y` of the upright image, as stored.
pub open spec fn upright_colour(image: StoredImage, x: int, y: int, c: int) -> int {
    stored_colour(image, stored_column(image, x, y), stored_row(image, x, y), c)
}

/// Opacity of the pixel at column `x` and row `y` of the upright image, as stored.
pub open spec fn upright_opacity(image: StoredImage, x: int, y: int) -> int {
    stored_opacity(image, stored_column(image, x, y), stored_row(image, x, y))
}

/// A pixel's place in reading order.
proof fn lemma_place(w: int, h: int, x: int, y: int)
    requires
        0 <= x < w,
        0 <= y < h,
    ensures
        0 <= y * w + x < w * h,
        (y * w + x) / w == y,
        (y * w + x) % w == x,
{
    vstd::arithmetic::div_mod::lemma_fundamental_div_mod_converse(y * w + x, w, y, x);
    assert(0 <= y * w && y * w + w <= h * w && h * w == w * h) by (nonlinear_arith)
        requires
            0 <= y <= h - 1,
            0 < w,
    ;
}

/// A sample's place among all samples.
proof fn lemma_sample_place(p: int, pixels: int, n: int, k: int)
    requires
        0 <= p < pixels,
        0 <= k < n,
    ensures
        0 <= p * n + k < pixels * n,
        (p * n + k) / n == p,
        (p * n + k) % n == k,
{
    lemma_place(n, pixels, k, p);
    vstd::arithmetic::mul::lemma_mul_is_commutative(n, pixels);
}

/// The layout of a colour type with byte samples.
spec fn layout(image: StoredImage) -> crate::glm_vl::decode::Layout {
    crate::glm_vl::decode::layout_of(image.color@)->0
}

/// A colour type and its layout.
proof fn lemma_layout(image: StoredImage)
    requires
        byte_colour(image.color@),
    ensures
        crate::glm_vl::decode::layout_of(image.color@) == Some(layout(image)),
        layout(image).channels() == sample_count(image.color@),
        layout(image).alpha() == has_opacity(image.color@),
        image.color@ == "L8"@ <==> layout(image) == crate::glm_vl::decode::Layout::L8,
        image.color@ == "La8"@ <==> layout(image) == crate::glm_vl::decode::Layout::La8,
        image.color@ == "Rgb8"@ <==> layout(image) == crate::glm_vl::decode::Layout::Rgb8,
        image.color@ == "Rgba8"@ <==> layout(image) == crate::glm_vl::decode::Layout::Rgba8,
{
    reveal_strlit("L8");
    reveal_strlit("La8");
    reveal_strlit("Rgb8");
    reveal_strlit("Rgba8");
    assert("L8"@.len() != "La8"@.len());
    assert("Rgb8"@.len() != "La8"@.len());
    assert("Rgba8"@.len() != "Rgb8"@.len());
}

/// The turned samples of the contract are the stored ones at their places.
proof fn lemma_turned_sample(image: StoredImage, x: int, y: int, k: int)
    requires
        image.wf(),
        byte_colour(image.color@),
        0 <= x < upright_width(image),
        0 <= y < upright_height(image),
        0 <= k < sample_count(image.color@),
    ensures
        ({
            let n = sample_count(image.color@);
            let samples = crate::glm_vl::decode::turned(
                image.samples@,
                image.orientation as int,
                image.width as int,
                image.height as int,
                n,
            );
            let i = (y * upright_width(image) + x) * n + k;
            &&& 0 <= i < upright_width(image) * upright_height(image) * n <= samples.len()
            &&& samples[i] == stored_sample(
                image,
                stored_column(image, x, y),
                stored_row(image, x, y),
                k,
            )
        }),
{
    let n = sample_count(image.color@);
    let (w, h) = (upright_width(image), upright_height(image));
    let p = y * w + x;
    let i = p * n + k;
    lemma_layout(image);
    vstd::arithmetic::mul::lemma_mul_is_commutative(image.width as int, image.height as int);
    lemma_place(w, h, x, y);
    lemma_sample_place(p, w * h, n, k);
}

/// What the contract's colours of the turned image are.
proof fn lemma_upright_bytes(image: StoredImage, x: int, y: int, c: int)
    requires
        image.wf(),
        byte_colour(image.color@),
        0 <= x < upright_width(image),
        0 <= y < upright_height(image),
        0 <= c < 3,
    ensures
        ({
            let (w, h) = (upright_width(image), upright_height(image));
            let samples = crate::glm_vl::decode::turned(
                image.samples@,
                image.orientation as int,
                image.width as int,
                image.height as int,
                sample_count(image.color@),
            );
            let p = y * w + x;
            &&& 0 <= p < w * h
            &&& if has_opacity(image.color@) {
                let rgba = crate::glm_vl::decode::as_rgba(samples, layout(image), w, h);
                &&& w * h * 4 <= rgba.len()
                &&& rgba[p * 4 + c] == upright_colour(image, x, y, c)
                &&& rgba[p * 4 + 3] == upright_opacity(image, x, y)
            } else {
                let rgb = crate::glm_vl::decode::as_rgb(samples, layout(image), w, h);
                &&& w * h * 3 <= rgb.len()
                &&& rgb[p * 3 + c] == upright_colour(image, x, y, c)
            }
        }),
{
    let (w, h) = (upright_width(image), upright_height(image));
    let p = y * w + x;
    lemma_layout(image);
    lemma_place(w, h, x, y);
    lemma_sample_place(p, w * h, 4, c);
    lemma_sample_place(p, w * h, 4, 3);
    lemma_sample_place(p, w * h, 3, c);
    lemma_turned_sample(image, x, y, 0);
    if sample_count(image.color@) == 2 {
        lemma_turned_sample(image, x, y, 1);
    } else if sample_count(image.color@) == 3 {
        lemma_turned_sample(image, x, y, c);
    } else if sample_count(image.color@) == 4 {
        lemma_turned_sample(image, x, y, c);
        lemma_turned_sample(image, x, y, 3);
    }
}

/// The bytes of the decoded image: those of its pixels, and what follows the samples of
/// coloured pixels that stay in their rows and columns.
pub open spec fn decoded_len(image: StoredImage) -> int {
    if image.color@ == "Rgb8"@ && !sides_swap(image) {
        image.samples@.len() as int
    } else if image.color@ == "Rgba8"@ && !sides_swap(image) {
        image.samples@.len() as int / 4 * 3
    } else {
        image.width * image.height * 3
    }
}

/// Whether an image is decoded exactly where its samples are bytes, with the stored width
/// and height, swapped where the orientation swaps columns and rows, and with all pixels,
/// and whether, for every colour type, with or without opacity, an opaque pixel has the
/// colours of the stored pixel that the orientation brings to its place.
pub open spec fn shows_upright(image: StoredImage, result: Result<DecodedMedia, String>) -> bool {
    &&& result is Ok <==> byte_colour(image.color@)
    &&& result matches Ok(DecodedMedia::Image { rgb, height, width }) ==> {
        &&& width == upright_width(image)
        &&& height == upright_height(image)
        &&& width * height * 3 <= rgb@.len()
        &&& rgb@.len() == decoded_len(image)
        &&& image.color@ == "Rgb8"@ && !sides_swap(image) ==> forall|i: int|
            width * height * 3 <= i < rgb@.len() ==> #[trigger] rgb@[i] == image.samples@[i]
        &&& forall|x: int, y: int, c: int|
            0 <= x < width && 0 <= y < height && 0 <= c < 3 && upright_opacity(image, x, y) == 255
                ==> #[trigger] rgb@[(y * width + x) * 3 + c] == upright_colour(image, x, y, c)
    }
}

/// An image is decoded upright.
pub proof fn law_opaque_pixels_come_upright(
    image: StoredImage,
    result: Result<DecodedMedia, String>,
)
    requires
        image.wf(),
        crate::glm_vl::decode::is_media(image, result),
    ensures
        shows_upright(image, result),
{
    if byte_colour(image.color@) {
        lemma_layout(image);
        let rgb = result->Ok_0->rgb@;
        let (w, h) = (upright_width(image), upright_height(image));
        lemma_rgb_len(image);
        assert forall|x: int, y: int, c: int|
            0 <= x < w && 0 <= y < h && 0 <= c < 3 && upright_opacity(image, x, y)
                == 255 implies #[trigger] rgb[(y * w + x) * 3 + c] == upright_colour(
            image,
            x,
            y,
            c,
        ) by {
            law_every_pixel_comes_upright(image, result, x, y, c);
        }
    }
}

/// The decoded image has all pixels.
proof fn lemma_rgb_len(image: StoredImage)
    requires
        image.wf(),
        byte_colour(image.color@),
    ensures
        upright_width(image) * upright_height(image) * 3
            <= crate::glm_vl::decode::upright_rgb(image, layout(image)).len(),
        crate::glm_vl::decode::upright_rgb(image, layout(image)).len() == decoded_len(image),
        image.color@ == "Rgb8"@ && !sides_swap(image) ==> forall|i: int|
            upright_width(image) * upright_height(image) * 3 <= i < image.samples@.len()
                ==> #[trigger] crate::glm_vl::decode::upright_rgb(image, layout(image))[i]
                == image.samples@[i],
{
    let (w, h) = (upright_width(image), upright_height(image));
    lemma_layout(image);
    vstd::arithmetic::mul::lemma_mul_is_commutative(image.width as int, image.height as int);
    vstd::arithmetic::mul::lemma_mul_nonnegative(w, h);
    let n = sample_count(image.color@);
    let pixels = w * h;
    let samples = crate::glm_vl::decode::turned(
        image.samples@,
        image.orientation as int,
        image.width as int,
        image.height as int,
        n,
    );
    assert(image.width * image.height == pixels);
    vstd::arithmetic::mul::lemma_mul_nonnegative(pixels, n);
    assert(samples.len() == if sides_swap(image) {
        pixels * n
    } else {
        image.samples@.len() as int
    });
    if n == 1 {
        vstd::arithmetic::mul::lemma_mul_basics(pixels);
    } else if n == 2 {
        assert(pixels * n == 2 * pixels) by (nonlinear_arith)
            requires
                n == 2,
        ;
    } else if n == 3 {
        assert(pixels * n == 3 * pixels) by (nonlinear_arith)
            requires
                n == 3,
        ;
    } else {
        assert(pixels * n == 4 * pixels) by (nonlinear_arith)
            requires
                n == 4,
        ;
    }
}

/// The bytes that the contract puts over the background.
spec fn contract_rgba(image: StoredImage) -> Seq<u8> {
    crate::glm_vl::decode::as_rgba(
        crate::glm_vl::decode::turned(
            image.samples@,
            image.orientation as int,
            image.width as int,
            image.height as int,
            sample_count(image.color@),
        ),
        layout(image),
        upright_width(image),
        upright_height(image),
    )
}

/// The contract's background is that of the upright image.
proof fn lemma_background(image: StoredImage)
    requires
        image.wf(),
        byte_colour(image.color@),
        has_opacity(image.color@),
        0 < upright_width(image),
        0 < upright_height(image),
    ensures
        crate::glm_vl::alpha::background(
            contract_rgba(image),
            upright_width(image),
            upright_height(image),
        ) == background_of(image),
{
    let (w, h) = (upright_width(image), upright_height(image));
    let rgba = contract_rgba(image);
    let other = upright_rgba(image);
    assert forall|x: int, y: int, c: int|
        0 <= x < w && 0 <= y < h && 0 <= c < 4 implies #[trigger] super::background::byte_at(
        rgba,
        w,
        x,
        y,
        c,
    ) == super::background::byte_at(other, w, x, y, c) by {
        lemma_place(w, h, x, y);
        lemma_sample_place(y * w + x, w * h, 4, c);
        if c < 3 {
            lemma_upright_bytes(image, x, y, c);
        } else {
            lemma_upright_bytes(image, x, y, 0);
        }
    }
    super::background::law_background_of_pixels(rgba, other, w, h);
}

/// Every byte of the decoded image is the colour of the stored pixel that the orientation
/// brings to its place, over one grey for the whole image by the pixel's opacity.
pub proof fn law_every_pixel_comes_upright(
    image: StoredImage,
    result: Result<DecodedMedia, String>,
    x: int,
    y: int,
    c: int,
)
    requires
        image.wf(),
        crate::glm_vl::decode::is_media(image, result),
        byte_colour(image.color@),
        0 <= x < upright_width(image),
        0 <= y < upright_height(image),
        0 <= c < 3,
    ensures
        result is Ok,
        ({
            let rgb = result->Ok_0->rgb@;
            let bg = background_of(image);
            let alpha = upright_opacity(image, x, y);
            let out = rgb[(y * upright_width(image) + x) * 3 + c];
            let colour = upright_colour(image, x, y, c);
            &&& 0 <= alpha <= 255
            &&& -127 <= 255 * out - (colour * alpha + bg * (255 - alpha)) <= 127
            &&& alpha == 255 ==> out == colour
            &&& alpha == 0 ==> out == bg
        }),
{
    lemma_layout(image);
    lemma_upright_bytes(image, x, y, c);
    let (w, h) = (upright_width(image), upright_height(image));
    let rgb = result->Ok_0->rgb@;
    let p = y * w + x;
    let alpha = upright_opacity(image, x, y);
    let colour = upright_colour(image, x, y, c);
    let bg = background_of(image);
    let out = rgb[p * 3 + c];
    if has_opacity(image.color@) {
        let rgba = contract_rgba(image);
        lemma_background(image);
        super::background::law_composite(rgba, w, h);
        assert(rgb[3 * p + c] == out);
        assert(rgba[4 * p + 3] == alpha);
        assert(rgba[4 * p + c] == colour);
    }
    if alpha == 255 {
        assert(colour * alpha + bg * (255 - alpha) == 255 * colour) by (nonlinear_arith)
            requires
                alpha == 255,
        ;
    } else if alpha == 0 {
        assert(colour * alpha + bg * (255 - alpha) == 255 * bg) by (nonlinear_arith)
            requires
                alpha == 0,
        ;
    }
}

/// The upright image with opacity.
pub open spec fn upright_rgba(image: StoredImage) -> Seq<u8> {
    Seq::new(
        (upright_width(image) * upright_height(image) * 4) as nat,
        |i: int|
            {
                let x = (i / 4) % upright_width(image);
                let y = (i / 4) / upright_width(image);
                if i % 4 == 3 {
                    upright_opacity(image, x, y) as u8
                } else {
                    upright_colour(image, x, y, i % 4) as u8
                }
            },
    )
}

/// The grey that the edges of the upright image choose.
pub open spec fn background_of(image: StoredImage) -> int {
    crate::glm_vl::alpha::background(
        upright_rgba(image),
        upright_width(image),
        upright_height(image),
    )
}

/// Whether an image can be addressed in colour, three bytes for each pixel or four where
/// it has an opacity. One with an opacity has both sides or none.
pub open spec fn fits(image: StoredImage) -> bool {
    let n: int = if has_opacity(image.color@) {
        4
    } else {
        3
    };
    &&& n * image.width <= usize::MAX
    &&& n * image.height <= usize::MAX
    &&& n * (image.width * image.height) <= isize::MAX
    &&& has_opacity(image.color@) ==> (image.width == 0) == (image.height == 0)
}

/// What is not decoded is refused with the reason: what the decoder says, a colour type
/// whose samples are no bytes, or a size that cannot be addressed.
pub proof fn law_decoding_refuses(
    outcome: Result<StoredImage, DecodeError>,
    result: Result<DecodedMedia, String>,
)
    requires
        crate::glm_vl::decode::is_decoded(outcome, result),
    ensures
        outcome matches Err(DecodeError::Image(text)) ==> result is Err && result->Err_0@
            == "glm_vl image decode: "@ + text@,
        outcome matches Err(DecodeError::Orientation(text)) ==> result is Err && result->Err_0@
            == "glm_vl image orientation: "@ + text@,
        outcome matches Ok(image) ==> {
            &&& !byte_colour(image.color@) ==> result is Err && result->Err_0@
                == "glm_vl image decode: unsupported color "@ + image.color@
            &&& byte_colour(image.color@) && !fits(image) ==> result is Err && result->Err_0@
                == "glm_vl image decode: unsupported size"@
            &&& byte_colour(image.color@) && fits(image) ==> result is Ok
                && crate::glm_vl::decode::is_media(image, result)
        },
{
    if let Ok(image) = outcome {
        if byte_colour(image.color@) {
            lemma_layout(image);
            let n = layout(image).colours();
            vstd::arithmetic::mul::lemma_mul_is_commutative(image.width * image.height, n);
            vstd::arithmetic::mul::lemma_mul_is_commutative(image.width as int, n);
            vstd::arithmetic::mul::lemma_mul_is_commutative(image.height as int, n);
        }
    }
}

/// Whether every byte of a decoded image is the colour of the stored pixel that the
/// orientation brings to its place, over the grey `bg` by the pixel's opacity, and the
/// grey is the one that the edges of the upright image choose.
pub open spec fn shows_over(image: StoredImage, rgb: Seq<u8>, bg: int) -> bool {
    let (w, h) = (upright_width(image), upright_height(image));
    &&& super::background::chooses(upright_rgba(image), w, h, bg)
    &&& forall|x: int, y: int, c: int|
        0 <= x < w && 0 <= y < h && 0 <= c < 3 ==> {
            let alpha = upright_opacity(image, x, y);
            let mean = upright_colour(image, x, y, c) * alpha + bg * (255 - alpha);
            -127 <= 255 * #[trigger] rgb[(y * w + x) * 3 + c] - mean <= 127
        }
}

/// A stored image is shown upright, over the grey that its edges choose.
pub proof fn law_to_media(image: StoredImage, result: Result<DecodedMedia, String>)
    requires
        image.wf(),
        call_ensures(to_media, (image,), result),
    ensures
        shows_upright(image, result),
        result matches Ok(DecodedMedia::Image { rgb, height, width }) ==> 0 < width && 0 < height
            ==> exists|bg: int| #[trigger] shows_over(image, rgb@, bg),
        result matches Err(e) ==> e@ == "glm_vl image decode: unsupported color "@ + image.color@,
{
    lemma_media(image, result);
}

/// What the contract of decoding says of a stored image.
proof fn lemma_media(image: StoredImage, result: Result<DecodedMedia, String>)
    requires
        image.wf(),
        crate::glm_vl::decode::is_media(image, result),
    ensures
        shows_upright(image, result),
        result matches Ok(DecodedMedia::Image { rgb, height, width }) ==> 0 < width && 0 < height
            ==> exists|bg: int| #[trigger] shows_over(image, rgb@, bg),
        result matches Err(e) ==> e@ == "glm_vl image decode: unsupported color "@ + image.color@,
{
    law_opaque_pixels_come_upright(image, result);
    if byte_colour(image.color@) {
        lemma_layout(image);
        let rgb = result->Ok_0->rgb@;
        let (w, h) = (upright_width(image), upright_height(image));
        let bg = background_of(image);
        if 0 < w && 0 < h {
            super::background::lemma_chooses(upright_rgba(image), w, h);
            assert forall|x: int, y: int, c: int| 0 <= x < w && 0 <= y < h && 0 <= c < 3 implies {
                let alpha = upright_opacity(image, x, y);
                let mean = upright_colour(image, x, y, c) * alpha + bg * (255 - alpha);
                -127 <= 255 * #[trigger] rgb[(y * w + x) * 3 + c] - mean <= 127
            } by {
                law_every_pixel_comes_upright(image, result, x, y, c);
            }
            assert(shows_over(image, rgb, bg));
        }
    }
}

/// Whether `result` is the image of an outcome of decoding, or the reason why there is
/// none: what the decoder says, a colour type whose samples are no bytes, or a size that
/// cannot be addressed.
pub open spec fn finishes(
    outcome: Result<StoredImage, DecodeError>,
    result: Result<DecodedMedia, String>,
) -> bool {
    match outcome {
        Err(DecodeError::Image(text)) => result is Err && result->Err_0@
            == "glm_vl image decode: "@ + text@,
        Err(DecodeError::Orientation(text)) => result is Err && result->Err_0@
            == "glm_vl image orientation: "@ + text@,
        Ok(image) => if !byte_colour(image.color@) {
            result is Err && result->Err_0@ == "glm_vl image decode: unsupported color "@
                + image.color@
        } else if !fits(image) {
            result is Err && result->Err_0@ == "glm_vl image decode: unsupported size"@
        } else {
            &&& result is Ok
            &&& shows_upright(image, result)
            &&& 0 < image.width && 0 < image.height ==> exists|bg: int| #[trigger]
                shows_over(image, result->Ok_0->rgb@, bg)
        },
    }
}

/// What the contract of decoding says of an outcome.
proof fn lemma_finishes(
    outcome: Result<StoredImage, DecodeError>,
    result: Result<DecodedMedia, String>,
)
    requires
        outcome matches Ok(image) ==> image.wf(),
        crate::glm_vl::decode::is_decoded(outcome, result),
    ensures
        finishes(outcome, result),
{
    law_decoding_refuses(outcome, result);
    if let Ok(image) = outcome {
        if byte_colour(image.color@) && fits(image) {
            lemma_media(image, result);
        }
    }
}

/// What becomes of an outcome of decoding.
pub proof fn law_finish_decoding(
    outcome: Result<StoredImage, DecodeError>,
    result: Result<DecodedMedia, String>,
)
    requires
        outcome matches Ok(image) ==> image.wf(),
        call_ensures(finish_decoding, (outcome,), result),
    ensures
        finishes(outcome, result),
{
    lemma_finishes(outcome, result);
}

/// Decoding bytes reads these very bytes and finishes what came of it.
pub proof fn law_decode_image(bytes: &[u8], result: Result<DecodedMedia, String>)
    requires
        call_ensures(decode_image, (bytes,), result),
    ensures
        exists|outcome: Result<StoredImage, DecodeError>|
            crate::glm_vl::decode::read_gives(bytes, outcome) && #[trigger] finishes(
                outcome,
                result,
            ),
{
    let outcome = choose|outcome: Result<StoredImage, DecodeError>|
        {
            &&& crate::glm_vl::decode::read_gives(bytes, outcome)
            &&& outcome matches Ok(image) ==> image.wf()
            &&& #[trigger] crate::glm_vl::decode::is_decoded(outcome, result)
        };
    lemma_finishes(outcome, result);
}

/// A processor decodes bytes in the same way.
pub proof fn law_processor_decodes(
    processor: &GlmVlProcessor,
    bytes: &[u8],
    result: Result<DecodedMedia, String>,
)
    requires
        call_ensures(GlmVlProcessor::decode_image, (processor, bytes), result),
    ensures
        exists|outcome: Result<StoredImage, DecodeError>|
            crate::glm_vl::decode::read_gives(bytes, outcome) && #[trigger] finishes(
                outcome,
                result,
            ),
{
    let outcome = choose|outcome: Result<StoredImage, DecodeError>|
        {
            &&& crate::glm_vl::decode::read_gives(bytes, outcome)
            &&& outcome matches Ok(image) ==> image.wf()
            &&& #[trigger] crate::glm_vl::decode::is_decoded(outcome, result)
        };
    lemma_finishes(outcome, result);
}

}
