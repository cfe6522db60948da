//! From encoded bytes to an image in memory: decoding, orientation and
//! transparency.
use super::alpha::composite_alpha;
use crate::pipeline::DecodedMedia;
use image::metadata::Orientation;
use image::{DynamicImage, ImageBuffer, ImageDecoder, ImageReader};
use std::io::Cursor;
use vstd::prelude::*;
use vstd::string::StringExecFns;

verus! {

/// How the samples of a pixel are laid out, one byte each.
#[derive(Clone, Copy, Debug, PartialEq, Eq, Structural)]
pub enum Layout {
    /// Grey.
    L8,
    /// Grey and opacity.
    La8,
    /// Red, green and blue.
    Rgb8,
    /// Red, green, blue and opacity.
    Rgba8,
}

impl Layout {
    /// The samples of a pixel.
    pub open spec fn channels(self) -> int {
        match self {
            Layout::L8 => 1,
            Layout::La8 => 2,
            Layout::Rgb8 => 3,
            Layout::Rgba8 => 4,
        }
    }

    /// Whether pixels have an opacity.
    pub open spec fn alpha(self) -> bool {
        self == Layout::La8 || self == Layout::Rgba8
    }

    /// The samples of a pixel in colour.
    pub open spec fn colours(self) -> int {
        if self.alpha() {
            4
        } else {
            3
        }
    }
}

/// A decoded image, as it is stored.
#[derive(Debug, PartialEq, Eq)]
pub struct StoredImage {
    /// The name of the colour type.
    pub color: String,
    /// How the image is to be turned, as an Exif orientation.
    pub orientation: u8,
    pub width: u32,
    pub height: u32,
    /// The samples of all pixels, row by row.
    pub samples: Vec<u8>,
}

/// Why an image cannot be decoded.
#[derive(Debug, PartialEq, Eq)]
pub enum DecodeError {
    /// The image itself is not readable.
    Image(String),
    /// The orientation is not readable.
    Orientation(String),
}

/// The layout of a colour type with byte samples.
pub open spec fn layout_of(color: Seq<char>) -> Option<Layout> {
    if color == "L8"@ {
        Some(Layout::L8)
    } else if color == "La8"@ {
        Some(Layout::La8)
    } else if color == "Rgb8"@ {
        Some(Layout::Rgb8)
    } else if color == "Rgba8"@ {
        Some(Layout::Rgba8)
    } else {
        None
    }
}

impl StoredImage {
    /// The orientation is one of Exif's, and where samples are bytes they are all
    /// there.
    pub open spec fn wf(self) -> bool {
        &&& 1 <= self.orientation <= 8
        &&& layout_of(self.color@) matches Some(layout) ==> self.width * self.height
            * layout.channels() <= self.samples@.len()
    }

    /// Whether the turned image can be addressed in colour. A transparent image
    /// also needs edges.
    pub open spec fn addressable(self, layout: Layout) -> bool {
        &&& self.width * layout.colours() <= usize::MAX
        &&& self.height * layout.colours() <= usize::MAX
        &&& self.width * self.height * layout.colours() <= isize::MAX
        &&& layout.alpha() ==> (self.width == 0 <==> self.height == 0)
    }
}

/// The pixel of a `w` by `h` image that comes to column `x` and row `y` when the
/// image is turned upright.
pub open spec fn source(orientation: int, w: int, h: int, x: int, y: int) -> (int, int) {
    if orientation == 2 {
        (w - 1 - x, y)
    } else if orientation == 3 {
        (w - 1 - x, h - 1 - y)
    } else if orientation == 4 {
        (x, h - 1 - y)
    } else if orientation == 5 {
        (y, x)
    } else if orientation == 6 {
        (y, h - 1 - x)
    } else if orientation == 7 {
        (w - 1 - y, h - 1 - x)
    } else if orientation == 8 {
        (w - 1 - y, x)
    } else {
        (x, y)
    }
}

/// Width and height of an image that is turned upright.
pub open spec fn turned_sides(orientation: int, w: int, h: int) -> (int, int) {
    if orientation >= 5 {
        (h, w)
    } else {
        (w, h)
    }
}

/// The samples of an image that is turned upright, `n` for each pixel. What
/// follows the pixels stays where no side changes.
pub open spec fn turned(samples: Seq<u8>, orientation: int, w: int, h: int, n: int) -> Seq<u8> {
    let width = turned_sides(orientation, w, h).0;
    let pixels = Seq::new(
        (w * h * n) as nat,
        |i: int|
            {
                let (x, y) = source(orientation, w, h, (i / n) % width, (i / n) / width);
                samples[(y * w + x) * n + i % n]
            },
    );
    if orientation >= 5 {
        pixels
    } else {
        pixels + samples.skip(w * h * n)
    }
}

/// The samples without opacity as red, green and blue.
pub open spec fn as_rgb(samples: Seq<u8>, layout: Layout, w: int, h: int) -> Seq<u8> {
    if layout == Layout::L8 {
        Seq::new((w * h * 3) as nat, |i: int| samples[i / 3])
    } else {
        samples
    }
}

/// The samples with opacity as red, green, blue and opacity.
pub open spec fn as_rgba(samples: Seq<u8>, layout: Layout, w: int, h: int) -> Seq<u8> {
    if layout == Layout::La8 {
        Seq::new(
            (w * h * 4) as nat,
            |i: int|
                if i % 4 == 3 {
                    samples[i / 4 * 2 + 1]
                } else {
                    samples[i / 4 * 2]
                },
        )
    } else {
        samples
    }
}

/// `ImageReader::new`, `ImageReader::with_guessed_format`, `ImageReader::into_decoder`,
/// `ImageDecoder::orientation` and `DynamicImage::from_decoder`, in one, since the type
/// of the decoder in between cannot be named. The orientation is handed out as
/// `Orientation::to_exif` numbers it, and the image as what `DynamicImage::color`,
/// `width`, `height` and `into_bytes` give. The number is one of Exif's eight, and a
/// buffer of byte samples is not shorter than its pixels. Which image the bytes decode
/// to is not stated: that rests on the decoding hooks that the process has registered.
#[verifier::external_body]
fn read(bytes: &[u8]) -> (result: Result<StoredImage, DecodeError>)
    ensures
        result matches Ok(image) ==> image.wf(),
{
    let reader = ImageReader::new(Cursor::new(bytes)).with_guessed_format();
    let reader = reader.map_err(|e| DecodeError::Image(e.to_string()))?;
    let mut decoder = reader.into_decoder().map_err(|e| DecodeError::Image(e.to_string()))?;
    let turn = decoder.orientation().map_err(|e| DecodeError::Orientation(e.to_string()))?;
    let image = DynamicImage::from_decoder(decoder);
    let image = image.map_err(|e| DecodeError::Image(e.to_string()))?;
    Ok(StoredImage {
        color: format!("{:?}", image.color()),
        orientation: turn.to_exif(),
        width: image.width(),
        height: image.height(),
        samples: image.into_bytes(),
    })
}

/// Whether reading these very bytes may end in the given outcome. Another reading of
/// them may end in another.
pub closed spec fn read_gives(bytes: &[u8], outcome: Result<StoredImage, DecodeError>) -> bool {
    call_ensures(read, (bytes,), outcome)
}

/// `DynamicImage::apply_orientation`: every pixel comes to its place in the upright
/// image. A rotation by a quarter makes a new buffer, the other orientations work in
/// place and leave what follows the pixels alone.
#[verifier::external_body]
fn apply_orientation(samples: Vec<u8>, layout: Layout, w: u32, h: u32, orientation: u8) -> (out:
    Vec<u8>)
    requires
        1 <= orientation <= 8,
        w * h * layout.channels() <= samples@.len(),
        w * layout.channels() <= usize::MAX,
        h * layout.channels() <= usize::MAX,
    ensures
        out@ == turned(samples@, orientation as int, w as int, h as int, layout.channels()),
{
    let mut image = match layout {
        Layout::L8 => DynamicImage::ImageLuma8(ImageBuffer::from_raw(w, h, samples).unwrap()),
        Layout::La8 => DynamicImage::ImageLumaA8(ImageBuffer::from_raw(w, h, samples).unwrap()),
        Layout::Rgb8 => DynamicImage::ImageRgb8(ImageBuffer::from_raw(w, h, samples).unwrap()),
        Layout::Rgba8 => DynamicImage::ImageRgba8(ImageBuffer::from_raw(w, h, samples).unwrap()),
    };
    image.apply_orientation(Orientation::from_exif(orientation).unwrap());
    image.into_bytes()
}

/// `DynamicImage::to_rgb8` on a layout without opacity: grey becomes three equal
/// colours, and colours stay as they are.
#[verifier::external_body]
fn to_rgb8(samples: Vec<u8>, layout: Layout, w: u32, h: u32) -> (rgb: Vec<u8>)
    requires
        !layout.alpha(),
        w * h * layout.channels() <= samples@.len(),
        w * layout.colours() <= usize::MAX,
        w * h * layout.colours() <= isize::MAX,
    ensures
        rgb@ == as_rgb(samples@, layout, w as int, h as int),
{
    let image = match layout {
        Layout::L8 => DynamicImage::ImageLuma8(ImageBuffer::from_raw(w, h, samples).unwrap()),
        Layout::La8 => DynamicImage::ImageLumaA8(ImageBuffer::from_raw(w, h, samples).unwrap()),
        Layout::Rgb8 => DynamicImage::ImageRgb8(ImageBuffer::from_raw(w, h, samples).unwrap()),
        Layout::Rgba8 => DynamicImage::ImageRgba8(ImageBuffer::from_raw(w, h, samples).unwrap()),
    };
    image.to_rgb8().into_raw()
}

/// `DynamicImage::to_rgba8` on a layout with opacity: grey becomes three equal
/// colours, and colours and opacity stay as they are.
#[verifier::external_body]
fn to_rgba8(samples: Vec<u8>, layout: Layout, w: u32, h: u32) -> (rgba: Vec<u8>)
    requires
        layout.alpha(),
        w * h * layout.channels() <= samples@.len(),
        w * layout.colours() <= usize::MAX,
        w * h * layout.colours() <= isize::MAX,
    ensures
        rgba@ == as_rgba(samples@, layout, w as int, h as int),
{
    let image = match layout {
        Layout::L8 => DynamicImage::ImageLuma8(ImageBuffer::from_raw(w, h, samples).unwrap()),
        Layout::La8 => DynamicImage::ImageLumaA8(ImageBuffer::from_raw(w, h, samples).unwrap()),
        Layout::Rgb8 => DynamicImage::ImageRgb8(ImageBuffer::from_raw(w, h, samples).unwrap()),
        Layout::Rgba8 => DynamicImage::ImageRgba8(ImageBuffer::from_raw(w, h, samples).unwrap()),
    };
    image.to_rgba8().into_raw()
}

/// The layout of a colour type with byte samples.
fn byte_layout(color: &String) -> (layout: Option<Layout>)
    ensures
        layout == layout_of(color@),
{
    if *color == String::from_str("L8") {
        Some(Layout::L8)
    } else if *color == String::from_str("La8") {
        Some(Layout::La8)
    } else if *color == String::from_str("Rgb8") {
        Some(Layout::Rgb8)
    } else if *color == String::from_str("Rgba8") {
        Some(Layout::Rgba8)
    } else {
        None
    }
}

/// Red, green and blue of an image that is turned upright, over its background where
/// it is transparent.
pub open spec fn upright_rgb(image: StoredImage, layout: Layout) -> Seq<u8> {
    let (w, h) = turned_sides(
        image.orientation as int,
        image.width as int,
        image.height as int,
    );
    let samples = turned(
        image.samples@,
        image.orientation as int,
        image.width as int,
        image.height as int,
        layout.channels(),
    );
    if layout.alpha() {
        super::alpha::composite(as_rgba(samples, layout, w, h), w, h)
    } else {
        as_rgb(samples, layout, w, h)
    }
}

/// Whether `result` is the stored image, upright and without transparency, or the
/// message of its refusal.
pub open spec fn is_media(image: StoredImage, result: Result<DecodedMedia, String>) -> bool {
    let sides = turned_sides(image.orientation as int, image.width as int, image.height as int);
    match layout_of(image.color@) {
        None => result is Err && result->Err_0@ == "glm_vl image decode: unsupported color "@
            + image.color@,
        Some(layout) => match result {
            Ok(DecodedMedia::Image { rgb, height, width }) => {
                &&& width == sides.0
                &&& height == sides.1
                &&& rgb@ == upright_rgb(image, layout)
            },
            Err(_) => false,
        },
    }
}

/// Turns a stored image upright and puts it over its background where it is
/// transparent.
pub fn to_media(image: StoredImage) -> (result: Result<DecodedMedia, String>)
    requires
        image.wf(),
        layout_of(image.color@) matches Some(layout) ==> image.addressable(layout),
    ensures
        is_media(image, result),
{
    let layout = match byte_layout(&image.color) {
        Some(layout) => layout,
        None => {
            let mut message = String::from_str("glm_vl image decode: unsupported color ");
            message.append(image.color.as_str());
            return Err(message);
        },
    };
    let samples = apply_orientation(
        image.samples,
        layout,
        image.width,
        image.height,
        image.orientation,
    );
    let (w, h) = if image.orientation >= 5 {
        (image.height, image.width)
    } else {
        (image.width, image.height)
    };
    proof {
        vstd::arithmetic::mul::lemma_mul_is_commutative(image.width as int, image.height as int);
        vstd::arithmetic::mul::lemma_mul_nonnegative(w as int, h as int);
        lemma_turned_len(image, layout);
    }
    let width: usize = w as usize;
    let height: usize = h as usize;
    let rgb = match layout {
        Layout::La8 | Layout::Rgba8 => {
            let rgba = to_rgba8(samples, layout, w, h);
            proof {
                if w > 0 {
                    super::alpha::lemma_last_sample(w as int, h as int);
                }
            }
            composite_alpha(rgba.as_slice(), width, height)
        },
        Layout::L8 | Layout::Rgb8 => to_rgb8(samples, layout, w, h),
    };
    Ok(DecodedMedia::Image { rgb, height, width })
}

/// Turning keeps all samples.
proof fn lemma_turned_len(image: StoredImage, layout: Layout)
    requires
        image.wf(),
        layout_of(image.color@) == Some(layout),
    ensures
        image.width * image.height * layout.channels() <= turned(
            image.samples@,
            image.orientation as int,
            image.width as int,
            image.height as int,
            layout.channels(),
        ).len(),
{
    vstd::arithmetic::mul::lemma_mul_nonnegative(image.width as int, image.height as int);
    vstd::arithmetic::mul::lemma_mul_nonnegative(
        image.width * image.height,
        layout.channels(),
    );
}

/// Whether `result` is what becomes of the given outcome of decoding.
pub open spec fn is_decoded(
    outcome: Result<StoredImage, DecodeError>,
    result: Result<DecodedMedia, String>,
) -> bool {
    match outcome {
        Err(DecodeError::Image(text)) => result is Err && result->Err_0@
            == "glm_vl image decode: "@ + text@,
        Err(DecodeError::Orientation(text)) => result is Err && result->Err_0@
            == "glm_vl image orientation: "@ + text@,
        Ok(image) => match layout_of(image.color@) {
            Some(layout) if !image.addressable(layout) => result is Err && result->Err_0@
                == "glm_vl image decode: unsupported size"@,
            _ => is_media(image, result),
        },
    }
}

/// What becomes of an outcome of decoding.
pub fn finish_decoding(outcome: Result<StoredImage, DecodeError>) -> (result: Result<
    DecodedMedia,
    String,
>)
    requires
        outcome matches Ok(image) ==> image.wf(),
    ensures
        is_decoded(outcome, result),
{
    match outcome {
        Err(DecodeError::Image(text)) => {
            let mut message = String::from_str("glm_vl image decode: ");
            message.append(text.as_str());
            Err(message)
        },
        Err(DecodeError::Orientation(text)) => {
            let mut message = String::from_str("glm_vl image orientation: ");
            message.append(text.as_str());
            Err(message)
        },
        Ok(image) => {
            if let Some(layout) = byte_layout(&image.color) {
                if !image.is_addressable(layout) {
                    return Err(String::from_str("glm_vl image decode: unsupported size"));
                }
            }
            to_media(image)
        },
    }
}

impl StoredImage {
    /// Whether the turned image can be addressed in colour.
    fn is_addressable(&self, layout: Layout) -> (b: bool)
        ensures
            b == self.addressable(layout),
    {
        let alpha: bool = match layout {
            Layout::La8 | Layout::Rgba8 => true,
            Layout::L8 | Layout::Rgb8 => false,
        };
        let colours: u128 = if alpha {
            4
        } else {
            3
        };
        let width: u128 = self.width as u128;
        let height: u128 = self.height as u128;
        proof {
            assert(0 <= width * height <= 0xffff_ffff * 0xffff_ffff) by (nonlinear_arith)
                requires
                    0 <= width <= 0xffff_ffff,
                    0 <= height <= 0xffff_ffff,
            ;
        }
        width * colours <= usize::MAX as u128 && height * colours <= usize::MAX as u128 && width
            * height * colours <= isize::MAX as u128 && (!alpha || (width == 0) == (height == 0))
    }
}

/// Decodes an image, turns it upright and puts it over its background where it is
/// transparent. Whatever the outcome of reading the bytes is, the result is what becomes
/// of it.
pub fn decode_image(bytes: &[u8]) -> (result: Result<DecodedMedia, String>)
    ensures
        exists|outcome: Result<StoredImage, DecodeError>|
            {
                &&& read_gives(bytes, outcome)
                &&& outcome matches Ok(image) ==> image.wf()
                &&& #[trigger] is_decoded(outcome, result)
            },
{
    let outcome = read(bytes);
    let ghost seen = outcome;
    let result = finish_decoding(outcome);
    assert(is_decoded(seen, result));
    result
}

/// Turning an image and turning it back brings every pixel to where it was.
pub proof fn law_turning_back(orientation: int, w: int, h: int, x: int, y: int)
    requires
        1 <= orientation <= 8,
        0 <= x < w,
        0 <= y < h,
    ensures
        ({
            let back = if orientation == 6 {
                8
            } else if orientation == 8 {
                6
            } else {
                orientation
            };
            let (tw, th) = turned_sides(orientation, w, h);
            let (sx, sy) = source(back, tw, th, x, y);
            &&& 0 <= sx < tw
            &&& 0 <= sy < th
            &&& source(orientation, w, h, sx, sy) == (x, y)
        }),
{
}

}
