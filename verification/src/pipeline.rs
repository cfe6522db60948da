//! What the image families take and give: media, tensors, token layouts and
//! positions.
use crate::binary32::Binary32;
use vstd::prelude::*;
use vstd::string::StringExecFns;

verus! {

/// The elements of a tensor.
#[derive(Debug, PartialEq, Eq)]
pub enum TensorData {
    F32(Vec<Binary32>),
    I64(Vec<i64>),
    Bf16(Vec<u16>),
}

/// A dense row-major tensor.
#[derive(Debug, PartialEq, Eq)]
pub struct Tensor {
    pub shape: Vec<usize>,
    pub data: TensorData,
}

/// Positions of the prompt's tokens.
#[derive(Debug, PartialEq, Eq)]
pub enum PositionOutput {
    /// One position per token, counted from 0.
    Rope1D,
    /// Three positions per token, as a flattened row-major `[3, len]` matrix,
    /// and the offset of generated tokens.
    MRope { positions: Vec<i64>, delta: i64 },
}

/// What a media item looks like to token layout and positions.
#[derive(Clone, Copy, Debug, PartialEq, Eq)]
pub enum Geometry {
    /// Frames, rows and columns of the patch grid.
    Grid([u32; 3]),
}

impl Geometry {
    /// The patch grid.
    pub open spec fn grid(self) -> [u32; 3] {
        match self {
            Geometry::Grid(grid) => grid,
        }
    }
}

/// Media in memory.
#[derive(Debug, PartialEq, Eq)]
pub enum DecodedMedia {
    /// Three bytes per pixel, row by row.
    Image { rgb: Vec<u8>, height: usize, width: usize },
}

/// A preprocessed media item.
#[derive(Debug, PartialEq, Eq)]
pub struct ProcessedItem {
    pub feature: Tensor,
    pub aux: Vec<(String, Tensor)>,
    pub geometry: Geometry,
}

/// A preprocessed media item with the hash of its source.
#[derive(Debug, PartialEq, Eq)]
pub struct OutputItem {
    pub feature: Tensor,
    pub aux: Vec<(String, Tensor)>,
    pub hash: u64,
}

/// A preprocessed request.
#[derive(Debug, PartialEq, Eq)]
pub struct Output {
    pub input_ids: Vec<i32>,
    pub items: Vec<OutputItem>,
    pub offsets: Vec<(u32, u32)>,
    pub positions: PositionOutput,
}

/// The modalities beside images that a family takes.
#[derive(Clone, Copy, Debug, PartialEq, Eq, Structural)]
pub struct Capabilities {
    pub video: bool,
    pub audio: bool,
}

/// Which tokens stand for a media item.
#[derive(Clone, Copy, Debug, PartialEq, Eq, Structural)]
pub enum TokenPattern {
    /// One token, `n` times.
    Repeat { id: i32, n: usize },
}

/// A part of a token layout.
#[derive(Clone, Copy, Debug, PartialEq, Eq, Structural)]
pub enum Segment {
    /// Prompt tokens from `start` up to, and not including, `end`.
    Text { start: usize, end: usize },
    /// The tokens of a media item.
    Media { item: usize, pattern: TokenPattern },
}

/// How the expanded prompt is put together.
#[derive(Debug, PartialEq, Eq)]
pub struct TokenLayout {
    pub segments: Vec<Segment>,
}

/// Whether `item` is a still image of `gh` by `gw` patches with `dim` values
/// each.
pub open spec fn is_grid_item(
    item: ProcessedItem,
    values: Seq<Binary32>,
    gh: usize,
    gw: usize,
    dim: int,
) -> bool {
    &&& item.feature.shape@ == seq![(gh * gw) as usize, dim as usize]
    &&& item.feature.data is F32
    &&& item.feature.data->F32_0@ == values
    &&& item.aux@.len() == 1
    &&& item.aux@[0].0@ == "image_grid_thw"@
    &&& item.aux@[0].1.shape@ == seq![3usize]
    &&& item.aux@[0].1.data is I64
    &&& item.aux@[0].1.data->I64_0@ == seq![1i64, gh as i64, gw as i64]
    &&& item.geometry.grid()@ == seq![1u32, gh as u32, gw as u32]
}

/// A still image of `gh` by `gw` patches.
pub fn grid_item(values: Vec<Binary32>, gh: usize, gw: usize) -> (item: ProcessedItem)
    requires
        0 < gh * gw <= usize::MAX,
    ensures
        is_grid_item(item, values@, gh, gw, values@.len() as int / (gh * gw)),
{
    let patches: usize = gh * gw;
    let dim: usize = values.len() / patches;
    let shape: Vec<usize> = vec![patches, dim];
    let grid: Vec<i64> = vec![1i64, gh as i64, gw as i64];
    let grid_shape: Vec<usize> = vec![3usize];
    let mut aux: Vec<(String, Tensor)> = Vec::new();
    aux.push(
        (
            String::from_str("image_grid_thw"),
            Tensor { shape: grid_shape, data: TensorData::I64(grid) },
        ),
    );
    let item = ProcessedItem {
        feature: Tensor { shape, data: TensorData::F32(values) },
        aux,
        geometry: Geometry::Grid([1u32, gh as u32, gw as u32]),
    };
    proof {
        assert(item.feature.shape@ =~= seq![patches, dim]);
        assert(item.aux@[0].1.shape@ =~= seq![3usize]);
        assert(item.aux@[0].1.data->I64_0@ =~= seq![1i64, gh as i64, gw as i64]);
        assert(item.geometry.grid()@ =~= seq![1u32, gh as u32, gw as u32]);
    }
    item
}

}
