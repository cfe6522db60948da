//! How an image is resampled when it is resized.
use vstd::prelude::*;

verus! {

/// Interpolation filters.
#[derive(Clone, Copy, Debug, PartialEq, Eq, Structural)]
pub enum Filter {
    Bicubic,
}

/// Resampling backends, which round differently.
#[derive(Clone, Copy, Debug, PartialEq, Eq, Structural)]
pub enum Resample {
    /// Bicubic interpolation on byte tensors.
    AtenU8,
    /// The Python imaging library, with a filter.
    Pil(Filter),
}

/// Whether `resize` can be called on the image `rgb` and gives all bytes of the
/// target.
pub open spec fn resizes<F: Fn(&[u8], usize, usize, usize, usize, Resample) -> Vec<u8>>(
    resize: F,
    rgb: Seq<u8>,
    height: usize,
    width: usize,
    target_height: usize,
    target_width: usize,
    resample: Resample,
) -> bool {
    &&& forall|src: &[u8]|
        src@ == rgb ==> #[trigger] call_requires(
            resize,
            (src, height, width, target_height, target_width, resample),
        )
    &&& forall|src: &[u8], out: Vec<u8>|
        src@ == rgb && #[trigger] call_ensures(
            resize,
            (src, height, width, target_height, target_width, resample),
            out,
        ) ==> target_height * target_width * 3 <= out@.len()
}

/// Whether `data` is the image `rgb` at its target size: itself, or what
/// `resize` makes of it.
pub open spec fn at_target<F: Fn(&[u8], usize, usize, usize, usize, Resample) -> Vec<u8>>(
    resize: F,
    rgb: Seq<u8>,
    height: usize,
    width: usize,
    target_height: usize,
    target_width: usize,
    resample: Resample,
    data: Seq<u8>,
) -> bool {
    if target_height == height && target_width == width {
        data == rgb
    } else {
        exists|src: &[u8], out: Vec<u8>| #[trigger]
            call_ensures(
                resize,
                (src, height, width, target_height, target_width, resample),
                out,
            ) && src@ == rgb && out@ == data
    }
}

}
