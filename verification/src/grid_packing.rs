//! Shared packed output for image families with a patch grid and M-RoPE.
use crate::binary32::Binary32;
use crate::pipeline::{Output, OutputItem, PositionOutput, ProcessedItem, Tensor, TensorData};
use vstd::prelude::*;
use vstd::string::StringExecFns;

verus! {

/// A request's tensors, packed for the scheduler.
#[derive(Debug, PartialEq, Eq)]
pub struct GridPackedOutput {
    pub input_ids: Vec<i32>,
    /// Concatenated pixel values, flattened in prompt order.
    pub features: Vec<Binary32>,
    /// Per-item `[t, h, w]` patch grid.
    pub grids: Vec<[u32; 3]>,
    pub hashes: Vec<u64>,
    pub offsets: Vec<(u32, u32)>,
    /// Flattened row-major `[3, input_len]` M-RoPE positions.
    pub mrope: Vec<i64>,
    pub mrope_delta: i64,
}

/// The patch grid among an item's auxiliary tensors: the first one of that name
/// that holds 64-bit integers, from entry `i` on.
pub open spec fn grid_from(aux: Seq<(String, Tensor)>, i: int) -> Option<Seq<i64>>
    decreases aux.len() - i,
{
    if i >= aux.len() {
        None
    } else if aux[i].0@ == "image_grid_thw"@ && aux[i].1.data is I64 {
        Some(aux[i].1.data->I64_0@)
    } else {
        grid_from(aux, i + 1)
    }
}

/// Whether a patch grid has three positive 32-bit dimensions.
pub open spec fn valid_grid(grid: Seq<i64>) -> bool {
    &&& grid.len() == 3
    &&& forall|i: int| 0 <= i < 3 ==> 0 < #[trigger] grid[i] <= u32::MAX
}

/// Why an item cannot be packed, without the family's label.
pub open spec fn item_error(item: OutputItem) -> Option<Seq<char>> {
    if !(item.feature.data is F32) {
        Some(" pack: expected f32 feature"@)
    } else {
        match grid_from(item.aux@, 0) {
            None => Some(" pack: missing image_grid_thw"@),
            Some(grid) => if valid_grid(grid) {
                None
            } else {
                Some(" pack: invalid image_grid_thw"@)
            },
        }
    }
}

/// Why the first of `n` items that cannot be packed cannot.
pub open spec fn items_error(items: Seq<OutputItem>, n: int) -> Option<Seq<char>>
    decreases n,
{
    if n <= 0 {
        None
    } else if items_error(items, n - 1) is Some {
        items_error(items, n - 1)
    } else {
        item_error(items[n - 1])
    }
}

/// Why a request cannot be packed, without the family's label. Positions are
/// looked at first, then each item's feature and grid.
pub open spec fn pack_error(output: Output) -> Option<Seq<char>> {
    if output.positions is MRope {
        items_error(output.items@, output.items@.len() as int)
    } else {
        Some(" pack: expected M-RoPE positions"@)
    }
}

/// The features of the first `n` items, one behind the other.
pub open spec fn joined_features(items: Seq<OutputItem>, n: int) -> Seq<Binary32>
    decreases n,
{
    if n <= 0 {
        Seq::empty()
    } else {
        joined_features(items, n - 1) + items[n - 1].feature.data->F32_0@
    }
}

/// Whether `packed` holds what `output` holds.
pub open spec fn packs(output: Output, packed: GridPackedOutput) -> bool {
    let n = output.items@.len();
    &&& packed.input_ids@ == output.input_ids@
    &&& packed.features@ == joined_features(output.items@, n as int)
    &&& packed.grids@.len() == n
    &&& forall|i: int, j: int|
        0 <= i < n && 0 <= j < 3 ==> #[trigger] packed.grids@[i]@[j] == grid_from(
            output.items@[i].aux@,
            0,
        )->0[j]
    &&& packed.hashes@ == output.items@.map_values(|item: OutputItem| item.hash)
    &&& packed.offsets@ == output.offsets@
    &&& packed.mrope@ == output.positions->positions@
    &&& packed.mrope_delta == output.positions->delta
}

/// The message with which a family refuses to pack.
fn refusal(family: &str, reason: &str) -> (s: String)
    ensures
        s@ == family@ + reason@,
{
    let mut s = String::from_str(family);
    s.append(reason);
    s
}

/// The patch grid among an item's auxiliary tensors.
fn find_grid(aux: &Vec<(String, Tensor)>) -> (grid: Option<&Vec<i64>>)
    ensures
        match grid {
            Some(v) => grid_from(aux@, 0) == Some(v@),
            None => grid_from(aux@, 0) is None,
        },
{
    let name = String::from_str("image_grid_thw");
    let mut i: usize = 0;
    while i < aux.len()
        invariant
            i <= aux@.len(),
            name@ == "image_grid_thw"@,
            grid_from(aux@, 0) == grid_from(aux@, i as int),
        decreases aux@.len() - i,
    {
        if aux[i].0 == name {
            if let TensorData::I64(v) = &aux[i].1.data {
                return Some(v);
            }
        }
        i = i + 1;
    }
    None
}

fn dimension_ok(v: i64) -> (b: bool)
    ensures
        b == (0 < v <= u32::MAX),
{
    0 < v && v <= u32::MAX as i64
}

fn extend(features: &mut Vec<Binary32>, values: &Vec<Binary32>)
    ensures
        final(features)@ == old(features)@ + values@,
{
    let mut i: usize = 0;
    proof {
        assert(features@ + values@.take(0) =~= features@);
    }
    while i < values.len()
        invariant
            i <= values@.len(),
            features@ == old(features)@ + values@.take(i as int),
        decreases values@.len() - i,
    {
        features.push(values[i]);
        proof {
            assert(old(features)@ + values@.take(i + 1) =~= (old(features)@ + values@.take(
                i as int,
            )).push(values@[i as int]));
        }
        i = i + 1;
    }
    proof {
        assert(values@.take(i as int) =~= values@);
    }
}

pub proof fn lemma_items_error_persists(items: Seq<OutputItem>, n: int, m: int)
    requires
        n <= m,
        items_error(items, n) is Some,
    ensures
        items_error(items, m) == items_error(items, n),
    decreases m - n,
{
    if n < m {
        lemma_items_error_persists(items, n, m - 1);
    }
}

/// Packs a request's items in prompt order. Errors carry the family's label.
#[verifier::loop_isolation(false)]
pub fn pack_grid_output(output: Output, family: &str) -> (result: Result<
    GridPackedOutput,
    String,
>)
    ensures
        match result {
            Err(e) => pack_error(output) is Some && e@ == family@ + pack_error(output)->0,
            Ok(packed) => pack_error(output) is None && packs(output, packed),
        },
{
    let (positions, delta) = match output.positions {
        PositionOutput::MRope { positions, delta } => (positions, delta),
        PositionOutput::Rope1D => {
            return Err(refusal(family, " pack: expected M-RoPE positions"));
        },
    };
    let items = output.items;
    let mut features: Vec<Binary32> = Vec::new();
    let mut grids: Vec<[u32; 3]> = Vec::with_capacity(items.len());
    let mut hashes: Vec<u64> = Vec::with_capacity(items.len());
    let mut i: usize = 0;
    while i < items.len()
        invariant
            i <= items@.len(),
            items_error(items@, i as int) is None,
            features@ == joined_features(items@, i as int),
            grids@.len() == i,
            forall|k: int, j: int|
                0 <= k < i && 0 <= j < 3 ==> #[trigger] grids@[k]@[j] == grid_from(
                    items@[k].aux@,
                    0,
                )->0[j],
            hashes@ == items@.take(i as int).map_values(|item: OutputItem| item.hash),
        decreases items@.len() - i,
    {
        let item = &items[i];
        proof {
            if item_error(items@[i as int]) is Some {
                lemma_items_error_persists(items@, i + 1, items@.len() as int);
            }
        }
        match &item.feature.data {
            TensorData::F32(values) => {
                extend(&mut features, values);
            },
            _ => {
                return Err(refusal(family, " pack: expected f32 feature"));
            },
        }
        let grid = match find_grid(&item.aux) {
            Some(grid) => grid,
            None => {
                return Err(refusal(family, " pack: missing image_grid_thw"));
            },
        };
        if grid.len() != 3 || !dimension_ok(grid[0]) || !dimension_ok(grid[1]) || !dimension_ok(
            grid[2],
        ) {
            proof {
                if grid@.len() == 3 {
                    assert(!valid_grid(grid@)) by {
                        if valid_grid(grid@) {
                            assert(0 < grid@[0] <= u32::MAX);
                            assert(0 < grid@[1] <= u32::MAX);
                            assert(0 < grid@[2] <= u32::MAX);
                        }
                    }
                }
            }
            return Err(refusal(family, " pack: invalid image_grid_thw"));
        }
        grids.push([grid[0] as u32, grid[1] as u32, grid[2] as u32]);
        hashes.push(item.hash);
        proof {
            assert(items@.take(i + 1).map_values(|item: OutputItem| item.hash) =~= items@.take(
                i as int,
            ).map_values(|item: OutputItem| item.hash).push(items@[i as int].hash));
        }
        i = i + 1;
    }
    proof {
        assert(items@.take(i as int) =~= items@);
    }
    Ok(
        GridPackedOutput {
            input_ids: output.input_ids,
            features,
            grids,
            hashes,
            offsets: output.offsets,
            mrope: positions,
            mrope_delta: delta,
        },
    )
}

/// Whether an item carries the tensors of a still image of `gh` by `gw` patches.
pub open spec fn carries_image(
    packed: OutputItem,
    image: ProcessedItem,
    gh: usize,
    gw: usize,
) -> bool {
    &&& packed.feature == image.feature
    &&& packed.aux == image.aux
    &&& 0 < gh <= u32::MAX
    &&& 0 < gw <= u32::MAX
    &&& exists|values: Seq<Binary32>, dim: int| #[trigger]
        crate::pipeline::is_grid_item(image, values, gh, gw, dim)
}

/// A request whose items are preprocessed images, with M-RoPE positions, is never
/// refused, and keeps every image's grid.
pub proof fn law_images_pack(
    output: Output,
    images: Seq<ProcessedItem>,
    gh: Seq<usize>,
    gw: Seq<usize>,
)
    requires
        output.positions is MRope,
        images.len() == output.items@.len(),
        gh.len() == images.len(),
        gw.len() == images.len(),
        forall|i: int|
            0 <= i < images.len() ==> #[trigger] carries_image(
                output.items@[i],
                images[i],
                gh[i],
                gw[i],
            ),
    ensures
        pack_error(output) is None,
        forall|i: int|
            0 <= i < images.len() ==> (#[trigger] grid_from(output.items@[i].aux@, 0)) == Some(
                seq![1i64, gh[i] as i64, gw[i] as i64],
            ),
{
    assert forall|i: int| 0 <= i < images.len() implies item_error(output.items@[i]) is None && (
    #[trigger] grid_from(output.items@[i].aux@, 0)) == Some(
        seq![1i64, gh[i] as i64, gw[i] as i64],
    ) by {
        assert(carries_image(output.items@[i], images[i], gh[i], gw[i]));
    }
    lemma_no_item_error(output.items@, output.items@.len() as int);
}

proof fn lemma_no_item_error(items: Seq<OutputItem>, n: int)
    requires
        0 <= n <= items.len(),
        forall|i: int| 0 <= i < items.len() ==> item_error(#[trigger] items[i]) is None,
    ensures
        items_error(items, n) is None,
    decreases n,
{
    if n > 0 {
        lemma_no_item_error(items, n - 1);
    }
}

}
