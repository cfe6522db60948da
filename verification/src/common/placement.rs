//! Where the images of a prompt stand, and the positions that follow.
use super::mrope::{mrope_image_only, MropeItem};
use crate::pipeline::{Geometry, PositionOutput};
use vstd::prelude::*;

verus! {

/// Tokens of an image with the given patch grid.
pub open spec fn image_tokens(grid: Seq<u32>, merge: int) -> int {
    (grid[0] * grid[1] * grid[2]) / (merge * merge)
}

/// The token counts of images.
pub open spec fn token_counts(items: Seq<Geometry>, merge: int) -> Seq<usize> {
    Seq::new(items.len(), |i: int| image_tokens(items[i].grid()@, merge) as usize)
}

/// The placements of images, as far as there are both ranges and grids.
pub open spec fn placements(offsets: Seq<(u32, u32)>, items: Seq<Geometry>) -> Seq<MropeItem> {
    Seq::new(
        if offsets.len() <= items.len() {
            offsets.len()
        } else {
            items.len()
        },
        |i: int|
            MropeItem { start: offsets[i].0, end: offsets[i].1, grid: items[i].grid() },
    )
}

/// The placements of images.
pub fn place(offsets: &[(u32, u32)], items: &[Geometry]) -> (placed: Vec<MropeItem>)
    ensures
        placed@ == placements(offsets@, items@),
{
    let mut placed: Vec<MropeItem> = Vec::new();
    let mut i: usize = 0;
    while i < offsets.len() && i < items.len()
        invariant
            i <= offsets@.len(),
            i <= items@.len(),
            placed@ == placements(offsets@, items@).take(i as int),
        decreases offsets@.len() - i,
    {
        let Geometry::Grid(grid) = items[i];
        placed.push(MropeItem { start: offsets[i].0, end: offsets[i].1, grid });
        proof {
            assert(placements(offsets@, items@).take(i + 1) =~= placements(
                offsets@,
                items@,
            ).take(i as int).push(placements(offsets@, items@)[i as int]));
        }
        i = i + 1;
    }
    proof {
        assert(placements(offsets@, items@).take(i as int) =~= placements(offsets@, items@));
    }
    placed
}

/// Whether `result` holds a prompt's positions, or the message of its refusal.
pub open spec fn is_positions(
    len: int,
    items: Seq<MropeItem>,
    merge: int,
    result: Result<PositionOutput, String>,
) -> bool {
    let error = crate::common::mrope::mrope_error(len, items, merge);
    match result {
        Ok(PositionOutput::MRope { positions, delta }) => error is None
            && crate::common::mrope::are_positions(len, items, merge, positions@, delta as int),
        Ok(PositionOutput::Rope1D) => false,
        Err(e) => error == Some(e@),
    }
}

/// The M-RoPE positions of a prompt with the given placements.
pub fn mrope_output(input_len: usize, items: &[MropeItem], merge_size: usize) -> (result: Result<
    PositionOutput,
    String,
>)
    requires
        merge_size == 0 || 24 * input_len <= isize::MAX,
    ensures
        is_positions(input_len as int, items@, merge_size as int, result),
{
    match mrope_image_only(input_len, items, merge_size) {
        Ok((positions, delta)) => Ok(PositionOutput::MRope { positions, delta }),
        Err(e) => Err(e),
    }
}

/// Whether a patch grid is not empty and is made of whole tokens.
pub open spec fn whole_tokens(grid: Seq<u32>, merge: int) -> bool {
    &&& 0 < grid[0]
    &&& 0 < grid[1]
    &&& 0 < grid[2]
    &&& grid[1] as int % merge == 0
    &&& grid[2] as int % merge == 0
}

/// A grid of whole tokens has one token for each block of `merge` by `merge`
/// patches of a frame.
pub proof fn lemma_whole_tokens(grid: Seq<u32>, merge: int)
    requires
        0 < merge,
        whole_tokens(grid, merge),
    ensures
        image_tokens(grid, merge) == grid[0] * (grid[1] as int / merge) * (grid[2] as int / merge),
        0 < image_tokens(grid, merge) <= grid[0] * grid[1] * grid[2],
        (grid[0] * grid[1] * grid[2]) % (merge * merge) == 0,
{
    let t = grid[0] as int;
    let a = grid[1] as int;
    let b = grid[2] as int;
    let x = a / merge;
    let y = b / merge;
    let mm = merge * merge;
    vstd::arithmetic::div_mod::lemma_fundamental_div_mod(a, merge);
    vstd::arithmetic::div_mod::lemma_fundamental_div_mod(b, merge);
    vstd::arithmetic::mul::lemma_mul_strictly_positive(merge, merge);
    assert(0 < x && 0 < y) by (nonlinear_arith)
        requires
            0 < a,
            0 < b,
            a == merge * x,
            b == merge * y,
            0 < merge,
    ;
    let n = t * x * y;
    assert(t * a * b == n * mm) by (nonlinear_arith)
        requires
            a == merge * x,
            b == merge * y,
            n == t * x * y,
            mm == merge * merge,
    ;
    vstd::arithmetic::div_mod::lemma_div_by_multiple(n, mm);
    vstd::arithmetic::div_mod::lemma_mod_multiples_basic(n, mm);
    assert(0 < n <= n * mm) by (nonlinear_arith)
        requires
            n == t * x * y,
            0 < t,
            0 < x,
            0 < y,
            0 < mm,
    ;
}

/// The images of a prompt that was laid out and expanded always have positions:
/// each range holds exactly the tokens of its grid, in order.
pub proof fn law_expanded_images_have_positions(
    ids: Seq<i32>,
    placeholder: i32,
    items: Seq<Geometry>,
    merge: int,
)
    requires
        ids.len() <= usize::MAX,
        0 < merge,
        crate::common::token_layout::seen(ids, placeholder, ids.len() as int) == items.len(),
        forall|i: int|
            0 <= i < items.len() ==> whole_tokens((#[trigger] items[i]).grid()@, merge)
                && items[i].grid()@[0] * items[i].grid()@[1] * items[i].grid()@[2] <= usize::MAX,
        crate::common::token_layout::expand(
            ids,
            placeholder,
            token_counts(items, merge),
            ids.len() as int,
        ).len() <= u32::MAX + 1,
    ensures
        ({
            let counts = token_counts(items, merge);
            let segments = crate::common::token_layout::prompt_segments(ids, placeholder, counts);
            let n = segments.len() as int;
            let offsets = crate::common::token_layout::ranges(ids, segments, n);
            let len = crate::common::token_layout::tokens(ids, segments, n).len() as int;
            &&& crate::common::token_layout::layout_applies(ids, segments, items.len() as int)
            &&& offsets.len() == items.len()
            &&& crate::common::mrope::mrope_error(len, placements(offsets, items), merge) is None
        }),
{
    let counts = token_counts(items, merge);
    assert forall|i: int| 0 <= i < counts.len() implies 0 < #[trigger] counts[i] by {
        lemma_whole_tokens(items[i].grid()@, merge);
    }
    crate::common::token_layout::law_layout_expands(ids, placeholder, counts);
    let segments = crate::common::token_layout::prompt_segments(ids, placeholder, counts);
    let n = segments.len() as int;
    let offsets = crate::common::token_layout::ranges(ids, segments, n);
    let expanded = crate::common::token_layout::expand(
        ids,
        placeholder,
        counts,
        ids.len() as int,
    );
    lemma_placed(expanded, placeholder, items, merge, offsets, items.len() as int);
}

proof fn lemma_placed(
    expanded: Seq<i32>,
    placeholder: i32,
    items: Seq<Geometry>,
    merge: int,
    offsets: Seq<(u32, u32)>,
    n: int,
)
    requires
        0 < merge,
        0 <= n <= items.len(),
        offsets.len() == items.len(),
        forall|i: int|
            0 <= i < items.len() ==> whole_tokens((#[trigger] items[i]).grid()@, merge)
                && items[i].grid()@[0] * items[i].grid()@[1] * items[i].grid()@[2] <= usize::MAX,
        forall|i: int|
            0 <= i < items.len() ==> #[trigger] crate::common::token_layout::range_matches(
                expanded,
                placeholder,
                token_counts(items, merge),
                offsets,
                i,
            ),
    ensures
        crate::common::mrope::placement_error(
            expanded.len() as int,
            placements(offsets, items),
            merge,
            n,
        ) is None,
    decreases n,
{
    if n > 0 {
        lemma_placed(expanded, placeholder, items, merge, offsets, n - 1);
        let placed = placements(offsets, items);
        let i = n - 1;
        lemma_whole_tokens(items[i].grid()@, merge);
        assert(crate::common::token_layout::range_matches(
            expanded,
            placeholder,
            token_counts(items, merge),
            offsets,
            i,
        ));
        assert(placed[i] == (MropeItem {
            start: offsets[i].0,
            end: offsets[i].1,
            grid: items[i].grid(),
        }));
        if i > 0 {
            assert(placed[i - 1] == (MropeItem {
                start: offsets[i - 1].0,
                end: offsets[i - 1].1,
                grid: items[i - 1].grid(),
            }));
        }
    }
}

}
