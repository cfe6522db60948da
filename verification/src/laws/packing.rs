//! What a packed request holds, and which requests are packed.
use crate::binary32::Binary32;
use crate::grid_packing::{pack_grid_output, GridPackedOutput};
use crate::pipeline::{Output, OutputItem, Tensor};
use crate::qwen_vl::pack_output;
use vstd::prelude::*;

verus! {

/// The values of an item.
pub open spec fn item_values(item: OutputItem) -> Seq<Binary32> {
    item.feature.data->F32_0@
}

/// The number of values of all items before item `i`.
pub open spec fn values_before(items: Seq<OutputItem>, i: int) -> int
    decreases i,
{
    if i <= 0 {
        0
    } else {
        values_before(items, i - 1) + item_values(items[i - 1]).len()
    }
}

/// Whether entry `a` is a tensor of integers under the name of the patch grid.
pub open spec fn holds_grid(aux: Seq<(String, Tensor)>, a: int) -> bool {
    aux[a].0@ == "image_grid_thw"@ && aux[a].1.data is I64
}

/// Whether entry `a` is the first one that holds a patch grid.
pub open spec fn first_grid(aux: Seq<(String, Tensor)>, a: int) -> bool {
    &&& 0 <= a < aux.len()
    &&& holds_grid(aux, a)
    &&& forall|b: int| 0 <= b < a ==> !#[trigger] holds_grid(aux, b)
}

/// Whether a grid has three positive sides of 32 bits.
pub open spec fn proper_grid(grid: Seq<i64>) -> bool {
    grid.len() == 3 && 1 <= grid[0] <= u32::MAX && 1 <= grid[1] <= u32::MAX && 1 <= grid[2]
        <= u32::MAX
}

/// Whether an item can be packed.
pub open spec fn packable(item: OutputItem) -> bool {
    &&& item.feature.data is F32
    &&& exists|a: int| #[trigger] first_grid(item.aux@, a) && proper_grid(
        item.aux@[a].1.data->I64_0@,
    )
}

/// The contract's grid is the first entry that holds one.
proof fn lemma_grid_from(aux: Seq<(String, Tensor)>, i: int)
    requires
        0 <= i <= aux.len(),
        forall|b: int| 0 <= b < i ==> !#[trigger] holds_grid(aux, b),
    ensures
        match crate::grid_packing::grid_from(aux, i) {
            Some(grid) => exists|a: int| #[trigger] first_grid(aux, a) && grid
                == aux[a].1.data->I64_0@,
            None => forall|b: int| 0 <= b < aux.len() ==> !#[trigger] holds_grid(aux, b),
        },
    decreases aux.len() - i,
{
    if i < aux.len() {
        if holds_grid(aux, i) {
            assert(first_grid(aux, i));
        } else {
            lemma_grid_from(aux, i + 1);
        }
    }
}

/// There is at most one first entry.
proof fn lemma_first_grid(aux: Seq<(String, Tensor)>, a: int)
    requires
        first_grid(aux, a),
    ensures
        crate::grid_packing::grid_from(aux, 0) == Some(aux[a].1.data->I64_0@),
{
    lemma_grid_from(aux, 0);
    assert(holds_grid(aux, a));
    let b = choose|b: int| #[trigger]
        first_grid(aux, b) && crate::grid_packing::grid_from(aux, 0)->0 == aux[b].1.data->I64_0@;
    if a < b {
        assert(!holds_grid(aux, a));
    } else if b < a {
        assert(!holds_grid(aux, b));
    }
}

/// The contract's refusal of an item.
proof fn lemma_item(item: OutputItem)
    ensures
        crate::grid_packing::item_error(item) is None <==> packable(item),
{
    lemma_grid_from(item.aux@, 0);
    if packable(item) {
        let a = choose|a: int| #[trigger]
            first_grid(item.aux@, a) && proper_grid(item.aux@[a].1.data->I64_0@);
        lemma_first_grid(item.aux@, a);
        assert(crate::grid_packing::valid_grid(item.aux@[a].1.data->I64_0@));
    } else if crate::grid_packing::item_error(item) is None {
        let grid = crate::grid_packing::grid_from(item.aux@, 0)->0;
        let a = choose|a: int| #[trigger]
            first_grid(item.aux@, a) && grid == item.aux@[a].1.data->I64_0@;
        assert(0 < grid[0] <= u32::MAX);
        assert(0 < grid[1] <= u32::MAX);
        assert(0 < grid[2] <= u32::MAX);
        assert(proper_grid(item.aux@[a].1.data->I64_0@));
    }
}

/// The contract's refusal of items.
proof fn lemma_items(items: Seq<OutputItem>, n: int)
    requires
        0 <= n <= items.len(),
    ensures
        crate::grid_packing::items_error(items, n) is None <==> forall|i: int|
            0 <= i < n ==> packable(#[trigger] items[i]),
    decreases n,
{
    if n > 0 {
        lemma_items(items, n - 1);
        lemma_item(items[n - 1]);
        if crate::grid_packing::items_error(items, n) is None {
            assert forall|i: int| 0 <= i < n implies packable(#[trigger] items[i]) by {
                if i == n - 1 {
                    assert(packable(items[n - 1]));
                }
            }
        } else if forall|i: int| 0 <= i < n ==> packable(#[trigger] items[i]) {
            assert(packable(items[n - 1]));
        }
    }
}

/// The contract's values, item by item.
proof fn lemma_features(items: Seq<OutputItem>, n: int)
    requires
        0 <= n,
    ensures
        crate::grid_packing::joined_features(items, n).len() == values_before(items, n),
        forall|i: int, j: int|
            0 <= i < n && 0 <= j < item_values(items[i]).len()
                ==> #[trigger] crate::grid_packing::joined_features(items, n)[values_before(
                items,
                i,
            ) + j] == item_values(items[i])[j],
    decreases n,
{
    if n > 0 {
        lemma_features(items, n - 1);
        let before = crate::grid_packing::joined_features(items, n - 1);
        let all = crate::grid_packing::joined_features(items, n);
        assert forall|i: int, j: int|
            0 <= i < n && 0 <= j < item_values(items[i]).len() implies #[trigger] all[values_before(
            items,
            i,
        ) + j] == item_values(items[i])[j] by {
            let k = values_before(items, i) + j;
            lemma_values_order(items, 0, i);
            if i < n - 1 {
                lemma_values_order(items, i + 1, n - 1);
                assert(values_before(items, i + 1) == values_before(items, i) + item_values(
                    items[i],
                ).len());
                assert(before[values_before(items, i) + j] == item_values(items[i])[j]);
            }
        }
    }
}

/// Items have their values one behind the other.
proof fn lemma_values_order(items: Seq<OutputItem>, i: int, k: int)
    requires
        0 <= i <= k,
    ensures
        values_before(items, i) <= values_before(items, k),
    decreases k - i,
{
    if i < k {
        lemma_values_order(items, i, k - 1);
    }
}

/// Whether `packed` holds the values of all items of a request, one item behind the other:
/// as many as the items have together, and value `j` of item `i` at the place that the
/// items before it leave; each item's grid and hash; and tokens, ranges and positions as
/// they are.
pub open spec fn holds_all(output: Output, packed: GridPackedOutput) -> bool {
    let items = output.items@;
    &&& packed.features@.len() == values_before(items, items.len() as int)
    &&& forall|i: int, j: int|
        0 <= i < items.len() && 0 <= j < item_values(items[i]).len()
            ==> #[trigger] packed.features@[values_before(items, i) + j] == item_values(items[i])[j]
    &&& packed.grids@.len() == items.len()
    &&& forall|i: int, a: int|
        0 <= i < items.len() && #[trigger] first_grid(items[i].aux@, a) ==> {
            let grid = items[i].aux@[a].1.data->I64_0@;
            &&& grid.len() == 3
            &&& packed.grids@[i]@[0] == grid[0]
            &&& packed.grids@[i]@[1] == grid[1]
            &&& packed.grids@[i]@[2] == grid[2]
        }
    &&& packed.hashes@.len() == items.len()
    &&& forall|i: int|
        0 <= i < items.len() ==> #[trigger] packed.hashes@[i] == items[i].hash
    &&& packed.input_ids@ == output.input_ids@
    &&& packed.offsets@ == output.offsets@
    &&& output.positions is MRope
    &&& packed.mrope@ == output.positions->positions@
    &&& packed.mrope_delta == output.positions->delta
}

/// A packed request holds all of the request.
pub proof fn law_packing_keeps_everything(output: Output, packed: GridPackedOutput)
    requires
        crate::grid_packing::pack_error(output) is None,
        crate::grid_packing::packs(output, packed),
    ensures
        holds_all(output, packed),
{
    let items = output.items@;
    let n = items.len() as int;
    lemma_features(items, n);
    lemma_items(items, n);
    assert forall|i: int, a: int|
        0 <= i < items.len() && #[trigger] first_grid(items[i].aux@, a) implies {
        let grid = items[i].aux@[a].1.data->I64_0@;
        &&& grid.len() == 3
        &&& packed.grids@[i]@[0] == grid[0]
        &&& packed.grids@[i]@[1] == grid[1]
        &&& packed.grids@[i]@[2] == grid[2]
    } by {
        lemma_first_grid(items[i].aux@, a);
        assert(packable(items[i]));
        let b = choose|b: int| #[trigger]
            first_grid(items[i].aux@, b) && proper_grid(items[i].aux@[b].1.data->I64_0@);
        lemma_first_grid(items[i].aux@, b);
        assert(packed.grids@[i]@[0] == crate::grid_packing::grid_from(items[i].aux@, 0)->0[0]);
        assert(packed.grids@[i]@[1] == crate::grid_packing::grid_from(items[i].aux@, 0)->0[1]);
        assert(packed.grids@[i]@[2] == crate::grid_packing::grid_from(items[i].aux@, 0)->0[2]);
    }
}

/// A request is packed exactly where it has M-RoPE positions and every item has 32-bit
/// values and, as its first integer tensor of that name, a grid of three positive sides.
pub proof fn law_packing_accepts(output: Output)
    ensures
        crate::grid_packing::pack_error(output) is None <==> output.positions is MRope
            && forall|i: int|
            0 <= i < output.items@.len() ==> packable(#[trigger] output.items@[i]),
{
    lemma_items(output.items@, output.items@.len() as int);
}

/// The message is about the positions first, and else about the first item that cannot be
/// packed: its values, its missing grid, or its improper grid, in this order.
pub proof fn law_packing_refuses_for_the_first_reason(output: Output, i: int)
    requires
        !(output.positions is MRope) || {
            &&& 0 <= i < output.items@.len()
            &&& !packable(output.items@[i])
            &&& forall|k: int| 0 <= k < i ==> packable(#[trigger] output.items@[k])
        },
    ensures
        crate::grid_packing::pack_error(output) == Some(
            if !(output.positions is MRope) {
                " pack: expected M-RoPE positions"@
            } else if !(output.items@[i].feature.data is F32) {
                " pack: expected f32 feature"@
            } else if forall|a: int| !#[trigger] first_grid(output.items@[i].aux@, a) {
                " pack: missing image_grid_thw"@
            } else {
                " pack: invalid image_grid_thw"@
            },
        ),
{
    if output.positions is MRope {
        let items = output.items@;
        let aux = items[i].aux@;
        lemma_items(items, i);
        lemma_item(items[i]);
        lemma_grid_from(aux, 0);
        if exists|a: int| #[trigger] first_grid(aux, a) {
            let a = choose|a: int| #[trigger] first_grid(aux, a);
            lemma_first_grid(aux, a);
        }
        assert(crate::grid_packing::items_error(items, i + 1) is Some);
        crate::grid_packing::lemma_items_error_persists(items, i + 1, items.len() as int);
    }
}

/// Whether all of a request can be packed.
pub open spec fn all_packable(output: Output) -> bool {
    &&& output.positions is MRope
    &&& forall|i: int| 0 <= i < output.items@.len() ==> packable(#[trigger] output.items@[i])
}

/// Why the first item that cannot be packed is refused, or why all of a request is.
pub open spec fn first_reason(output: Output, reason: Seq<char>) -> bool {
    if !(output.positions is MRope) {
        reason == " pack: expected M-RoPE positions"@
    } else {
        exists|i: int|
            {
                &&& 0 <= i < output.items@.len()
                &&& !packable(#[trigger] output.items@[i])
                &&& forall|k: int| 0 <= k < i ==> packable(#[trigger] output.items@[k])
                &&& reason == if !(output.items@[i].feature.data is F32) {
                    " pack: expected f32 feature"@
                } else if forall|a: int| !#[trigger] first_grid(output.items@[i].aux@, a) {
                    " pack: missing image_grid_thw"@
                } else {
                    " pack: invalid image_grid_thw"@
                }
            }
    }
}

/// The first item that cannot be packed.
proof fn lemma_first_unpackable(items: Seq<OutputItem>, n: int) -> (i: int)
    requires
        0 <= n <= items.len(),
        exists|k: int| 0 <= k < n && !packable(#[trigger] items[k]),
    ensures
        0 <= i < n,
        !packable(items[i]),
        forall|k: int| 0 <= k < i ==> packable(#[trigger] items[k]),
    decreases n,
{
    if exists|k: int| 0 <= k < n - 1 && !packable(#[trigger] items[k]) {
        lemma_first_unpackable(items, n - 1)
    } else {
        n - 1
    }
}

/// What packing a request gives: all of it, or the family's name and the first reason
/// why not.
pub proof fn law_pack_grid_output(
    output: Output,
    family: &str,
    result: Result<GridPackedOutput, String>,
)
    requires
        call_ensures(pack_grid_output, (output, family), result),
    ensures
        result is Ok <==> all_packable(output),
        result matches Ok(packed) ==> holds_all(output, packed),
        result matches Err(e) ==> exists|reason: Seq<char>| #[trigger]
            first_reason(output, reason) && e@ == family@ + reason,
{
    law_packing_accepts(output);
    if let Ok(packed) = result {
        law_packing_keeps_everything(output, packed);
    } else {
        let reason = crate::grid_packing::pack_error(output)->0;
        assert(first_reason(output, reason)) by {
            if output.positions is MRope {
                let i = lemma_first_unpackable(output.items@, output.items@.len() as int);
                law_packing_refuses_for_the_first_reason(output, i);
                assert(!packable(output.items@[i]));
            } else {
                law_packing_refuses_for_the_first_reason(output, 0);
            }
        }
    }
}

/// Packing a request of the Qwen VL family is packing it under the family's name.
pub proof fn law_pack_output(output: Output, result: Result<GridPackedOutput, String>)
    requires
        call_ensures(pack_output, (output,), result),
    ensures
        result is Ok <==> all_packable(output),
        result matches Ok(packed) ==> holds_all(output, packed),
        result matches Err(e) ==> exists|reason: Seq<char>| #[trigger]
            first_reason(output, reason) && e@ == "qwen_vl"@ + reason,
{
    law_packing_accepts(output);
    if let Ok(packed) = result {
        law_packing_keeps_everything(output, packed);
    } else {
        let reason = crate::grid_packing::pack_error(output)->0;
        assert(first_reason(output, reason)) by {
            if output.positions is MRope {
                let i = lemma_first_unpackable(output.items@, output.items@.len() as int);
                law_packing_refuses_for_the_first_reason(output, i);
                assert(!packable(output.items@[i]));
            } else {
                law_packing_refuses_for_the_first_reason(output, 0);
            }
        }
    }
}

}
