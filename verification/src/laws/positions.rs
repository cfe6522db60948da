//! How positions run through a prompt.
use crate::common::mrope::{mrope_image_only, MropeItem};
use crate::common::placement::{mrope_output, place};
use crate::glm_vl::GlmVlProcessor;
use crate::pipeline::{Geometry, PositionOutput};
use crate::qwen_vl::QwenVlProcessor;
use vstd::prelude::*;

verus! {

/// The position of token `k` on axis 0 (frame), 1 (row) or 2 (column).
pub open spec fn on_axis(pos: Seq<i64>, len: int, axis: int, k: int) -> int {
    pos[axis * len + k] as int
}

/// The greatest of three numbers.
pub open spec fn greatest(a: int, b: int, c: int) -> int {
    if a >= b && a >= c {
        a
    } else if b >= c {
        b
    } else {
        c
    }
}

/// Whether token `k` is a token of item `i`.
pub open spec fn in_item(items: Seq<MropeItem>, i: int, k: int) -> bool {
    0 <= i < items.len() && items[i].start <= k <= items[i].end
}

/// Whether token `k` belongs to no item.
pub open spec fn is_text(items: Seq<MropeItem>, k: int) -> bool {
    forall|i: int| !#[trigger] in_item(items, i, k)
}

/// Whether item `i` stands behind the one before it, ends inside a prompt of `len`
/// tokens, and has one token for each `merge` by `merge` patches of a frame.
pub open spec fn well_placed(len: int, items: Seq<MropeItem>, merge: int, i: int) -> bool {
    let item = items[i];
    &&& i > 0 ==> items[i - 1].end < item.start
    &&& item.start <= item.end < len
    &&& item.grid@[0] * (item.grid@[1] as int / merge) * (item.grid@[2] as int / merge) == item.end
        - item.start + 1
}

/// Whether a prompt of `len` tokens with the given items has the given positions.
spec fn numbered(len: int, items: Seq<MropeItem>, merge: int, pos: Seq<i64>, delta: int) -> bool {
    &&& 0 <= merge
    &&& 0 <= len
    &&& crate::common::mrope::mrope_error(len, items, merge) is None
    &&& crate::common::mrope::are_positions(len, items, merge, pos, delta)
}

/// The contract's refusal of items.
proof fn lemma_placed(len: int, items: Seq<MropeItem>, merge: int, n: int)
    requires
        0 <= n <= items.len(),
        merge > 0,
    ensures
        crate::common::mrope::placement_error(len, items, merge, n) is None <==> forall|i: int|
            0 <= i < n ==> #[trigger] well_placed(len, items, merge, i),
    decreases n,
{
    if n > 0 {
        lemma_placed(len, items, merge, n - 1);
        let i = n - 1;
        assert(well_placed(len, items, merge, i) <==> crate::common::mrope::in_order(
            len,
            items,
            i,
        ) && items[i].span_matches(merge));
    }
}

/// Positions are found exactly where `merge` is positive and every item is well placed.
pub proof fn law_positions_exist(len: int, items: Seq<MropeItem>, merge: int)
    requires
        0 <= merge,
    ensures
        crate::common::mrope::mrope_error(len, items, merge) is None <==> merge > 0 && forall|
            i: int,
        |
            0 <= i < items.len() ==> #[trigger] well_placed(len, items, merge, i),
{
    if merge > 0 {
        lemma_placed(len, items, merge, items.len() as int);
    }
}

/// A request is refused for its merge size, or else for the first item that is not well
/// placed: for its range where that is out of order or bounds, and else for its tokens.
pub proof fn law_positions_refused(len: int, items: Seq<MropeItem>, merge: int, i: int)
    requires
        0 <= merge,
        merge > 0 ==> {
            &&& 0 <= i < items.len()
            &&& !well_placed(len, items, merge, i)
            &&& forall|j: int| 0 <= j < i ==> #[trigger] well_placed(len, items, merge, j)
        },
    ensures
        crate::common::mrope::mrope_error(len, items, merge) == Some(
            if merge == 0 {
                "mrope: merge_size must be positive"@
            } else if items[i].end >= len || (i > 0 && items[i - 1].end >= items[i].start) {
                "mrope: item range ("@ + crate::text::decimal(items[i].start as nat) + ","@
                    + crate::text::decimal(items[i].end as nat) + ") out of order/bounds"@
            } else {
                "mrope: token span does not match grid"@
            },
        ),
{
    if merge > 0 {
        lemma_placed(len, items, merge, i);
        lemma_placed(len, items, merge, i + 1);
        crate::common::mrope::lemma_placement_error_persists(
            len,
            items,
            merge,
            i + 1,
            items.len() as int,
        );
    }
}

/// Items stand in order.
proof fn lemma_order(len: int, items: Seq<MropeItem>, merge: int, i: int, n: int)
    requires
        0 <= i < n <= items.len(),
        merge > 0,
        crate::common::mrope::placement_error(len, items, merge, n) is None,
    ensures
        items[i].start <= items[i].end,
        items[i].end < len,
        i < n - 1 ==> items[i].end < items[n - 1].start,
        items[i].end < crate::common::mrope::cursor(items, n),
    decreases n,
{
    lemma_placed(len, items, merge, n);
    assert(well_placed(len, items, merge, i));
    assert(well_placed(len, items, merge, n - 1));
    if i < n - 1 {
        lemma_order(len, items, merge, i, n - 1);
        assert(items[n - 2].end < items[n - 1].start);
    }
}

/// The position of a token of item `i`.
proof fn lemma_item_token(
    len: int,
    items: Seq<MropeItem>,
    merge: int,
    n: int,
    i: int,
    axis: int,
    k: int,
)
    requires
        0 <= i < n <= items.len(),
        merge > 0,
        crate::common::mrope::placement_error(len, items, merge, n) is None,
        items[i].start <= k <= items[i].end,
    ensures
        crate::common::mrope::position(items, merge, n, axis, k)
            == crate::common::mrope::item_position(items, merge, i) + crate::common::mrope::cell(
            k - items[i].start,
            items[i].rows(merge),
            items[i].columns(merge),
            axis,
        ),
    decreases n,
{
    if i < n - 1 {
        lemma_order(len, items, merge, i, n);
        lemma_order(len, items, merge, n - 1, n);
        lemma_item_token(len, items, merge, n - 1, i, axis, k);
    }
}

/// The position of a token of the text before item `i`, or behind all items.
proof fn lemma_text_token(
    len: int,
    items: Seq<MropeItem>,
    merge: int,
    n: int,
    i: int,
    axis: int,
    k: int,
)
    requires
        0 <= i <= n <= items.len(),
        merge > 0,
        crate::common::mrope::placement_error(len, items, merge, n) is None,
        crate::common::mrope::cursor(items, i) <= k,
        i < n ==> k < items[i].start,
    ensures
        crate::common::mrope::position(items, merge, n, axis, k)
            == crate::common::mrope::next_position(items, merge, i) + (k
            - crate::common::mrope::cursor(items, i)),
    decreases n,
{
    if i < n {
        lemma_order(len, items, merge, n - 1, n);
        if i < n - 1 {
            lemma_order(len, items, merge, i, n);
        }
        lemma_text_token(len, items, merge, n - 1, i, axis, k);
    }
}

/// The text that a token belongs to.
proof fn lemma_gap(len: int, items: Seq<MropeItem>, merge: int, n: int, k: int) -> (i: int)
    requires
        0 <= n <= items.len(),
        merge > 0,
        crate::common::mrope::placement_error(len, items, merge, n) is None,
        is_text(items, k),
        0 <= k,
    ensures
        0 <= i <= n,
        crate::common::mrope::cursor(items, i) <= k,
        i < n ==> k < items[i].start,
    decreases n,
{
    if n == 0 || k >= crate::common::mrope::cursor(items, n) {
        n
    } else {
        assert(!in_item(items, n - 1, k));
        let i = lemma_gap(len, items, merge, n - 1, k);
        i
    }
}

/// The three rows of the matrix.
proof fn lemma_row(
    len: int,
    items: Seq<MropeItem>,
    merge: int,
    pos: Seq<i64>,
    delta: int,
    axis: int,
    k: int,
)
    requires
        numbered(len, items, merge, pos, delta),
        0 <= axis < 3,
        0 <= k < len,
    ensures
        on_axis(pos, len, axis, k) == crate::common::mrope::position(
            items,
            merge,
            items.len() as int,
            axis,
            k,
        ),
{
    assert(crate::common::mrope::row(pos, len, axis, k) == crate::common::mrope::position(
        items,
        merge,
        items.len() as int,
        axis,
        k,
    ));
    assert(0 * len == 0 && 1 * len == len);
}

/// Positions begin with 0 on all axes.
pub proof fn law_positions_begin(
    len: int,
    items: Seq<MropeItem>,
    merge: int,
    pos: Seq<i64>,
    delta: int,
    axis: int,
)
    requires
        0 <= merge,
        0 < len,
        crate::common::mrope::mrope_error(len, items, merge) is None,
        crate::common::mrope::are_positions(len, items, merge, pos, delta),
        0 <= axis < 3,
    ensures
        pos.len() == 3 * len,
        on_axis(pos, len, axis, 0) == 0,
{
    let n = items.len() as int;
    lemma_row(len, items, merge, pos, delta, axis, 0);
    if n > 0 && items[0].start == 0 {
        lemma_order(len, items, merge, 0, n);
        lemma_item_token(len, items, merge, n, 0, axis, 0);
        lemma_first_cell(len, items, merge, 0, axis);
    } else {
        lemma_text_token(len, items, merge, n, 0, axis, 0);
    }
}

/// The first cell of an item has coordinate 0.
proof fn lemma_first_cell(len: int, items: Seq<MropeItem>, merge: int, i: int, axis: int)
    requires
        merge > 0,
        0 <= i < items.len(),
        crate::common::mrope::placement_error(len, items, merge, items.len() as int) is None,
        0 <= axis < 3,
    ensures
        crate::common::mrope::cell(0, items[i].rows(merge), items[i].columns(merge), axis) == 0,
        items[i].frames() >= 1,
        items[i].rows(merge) >= 1,
        items[i].columns(merge) >= 1,
{
    lemma_placed(len, items, merge, items.len() as int);
    assert(well_placed(len, items, merge, i));
    let item = items[i];
    vstd::arithmetic::div_mod::lemma_div_pos_is_pos(item.grid@[1] as int, merge);
    vstd::arithmetic::div_mod::lemma_div_pos_is_pos(item.grid@[2] as int, merge);
    crate::common::mrope::lemma_dimensions(item.frames(), item.rows(merge), item.columns(merge));
    crate::common::mrope::lemma_cell(0, 0, 0, item.rows(merge), item.columns(merge));
    assert((0 * item.rows(merge) + 0) * item.columns(merge) + 0 == 0) by (nonlinear_arith);
}

/// The token behind a text token, be it text or the first of an item, has the next
/// position on all axes.
pub proof fn law_text_advances_by_one(
    len: int,
    items: Seq<MropeItem>,
    merge: int,
    pos: Seq<i64>,
    delta: int,
    axis: int,
    other: int,
    k: int,
)
    requires
        0 <= merge,
        crate::common::mrope::mrope_error(len, items, merge) is None,
        crate::common::mrope::are_positions(len, items, merge, pos, delta),
        0 <= axis < 3,
        0 <= other < 3,
        0 <= k < len - 1,
        is_text(items, k),
    ensures
        on_axis(pos, len, other, k + 1) == on_axis(pos, len, axis, k) + 1,
{
    let n = items.len() as int;
    lemma_row(len, items, merge, pos, delta, axis, k);
    lemma_row(len, items, merge, pos, delta, other, k + 1);
    let i = lemma_gap(len, items, merge, n, k);
    lemma_text_token(len, items, merge, n, i, axis, k);
    if i < n && k + 1 == items[i].start {
        lemma_order(len, items, merge, i, n);
        lemma_item_token(len, items, merge, n, i, other, k + 1);
        lemma_first_cell(len, items, merge, i, other);
    } else {
        lemma_text_token(len, items, merge, n, i, other, k + 1);
    }
}

/// The axes of a text token agree.
pub proof fn law_text_is_on_the_diagonal(
    len: int,
    items: Seq<MropeItem>,
    merge: int,
    pos: Seq<i64>,
    delta: int,
    axis: int,
    other: int,
    k: int,
)
    requires
        0 <= merge,
        crate::common::mrope::mrope_error(len, items, merge) is None,
        crate::common::mrope::are_positions(len, items, merge, pos, delta),
        0 <= axis < 3,
        0 <= other < 3,
        0 <= k < len,
        is_text(items, k),
    ensures
        on_axis(pos, len, other, k) == on_axis(pos, len, axis, k),
{
    let n = items.len() as int;
    lemma_row(len, items, merge, pos, delta, axis, k);
    lemma_row(len, items, merge, pos, delta, other, k);
    let i = lemma_gap(len, items, merge, n, k);
    lemma_text_token(len, items, merge, n, i, axis, k);
    lemma_text_token(len, items, merge, n, i, other, k);
}

/// The tokens of an image run through its frames, rows and columns, in this order, and
/// each is as far from the first on an axis as its frame, row or column is.
pub proof fn law_image_tokens_follow_the_grid(
    len: int,
    items: Seq<MropeItem>,
    merge: int,
    pos: Seq<i64>,
    delta: int,
    i: int,
    frame: int,
    row: int,
    column: int,
)
    requires
        0 <= merge,
        crate::common::mrope::mrope_error(len, items, merge) is None,
        crate::common::mrope::are_positions(len, items, merge, pos, delta),
        0 <= i < items.len(),
        0 <= frame < items[i].grid@[0],
        0 <= row < items[i].grid@[1] as int / merge,
        0 <= column < items[i].grid@[2] as int / merge,
    ensures
        ({
            let rows = items[i].grid@[1] as int / merge;
            let columns = items[i].grid@[2] as int / merge;
            let first = items[i].start as int;
            let k = first + (frame * rows + row) * columns + column;
            &&& first <= k <= items[i].end
            &&& on_axis(pos, len, 0, k) == on_axis(pos, len, 0, first) + frame
            &&& on_axis(pos, len, 1, k) == on_axis(pos, len, 1, first) + row
            &&& on_axis(pos, len, 2, k) == on_axis(pos, len, 2, first) + column
            &&& on_axis(pos, len, 0, first) == on_axis(pos, len, 1, first)
            &&& on_axis(pos, len, 1, first) == on_axis(pos, len, 2, first)
        }),
{
    let n = items.len() as int;
    let item = items[i];
    let rows = item.grid@[1] as int / merge;
    let columns = item.grid@[2] as int / merge;
    let first = item.start as int;
    let q = (frame * rows + row) * columns + column;
    lemma_placed(len, items, merge, n);
    assert(well_placed(len, items, merge, i));
    crate::common::mrope::lemma_cell_in_grid(
        frame,
        row,
        column,
        item.grid@[0] as int,
        rows,
        columns,
    );
    crate::common::mrope::lemma_cell(frame, row, column, rows, columns);
    lemma_first_cell(len, items, merge, i, 0);
    lemma_first_cell(len, items, merge, i, 1);
    lemma_first_cell(len, items, merge, i, 2);
    lemma_item_token(len, items, merge, n, i, 0, first);
    lemma_item_token(len, items, merge, n, i, 1, first);
    lemma_item_token(len, items, merge, n, i, 2, first);
    lemma_item_token(len, items, merge, n, i, 0, first + q);
    lemma_item_token(len, items, merge, n, i, 1, first + q);
    lemma_item_token(len, items, merge, n, i, 2, first + q);
    lemma_row(len, items, merge, pos, delta, 0, first);
    lemma_row(len, items, merge, pos, delta, 1, first);
    lemma_row(len, items, merge, pos, delta, 2, first);
    lemma_row(len, items, merge, pos, delta, 0, first + q);
    lemma_row(len, items, merge, pos, delta, 1, first + q);
    lemma_row(len, items, merge, pos, delta, 2, first + q);
}

/// The token behind an image, be it text or the first of another image, is as far from
/// the image's first token as the greatest of the image's frames, rows and columns.
pub proof fn law_image_advances_by_its_greatest_side(
    len: int,
    items: Seq<MropeItem>,
    merge: int,
    pos: Seq<i64>,
    delta: int,
    i: int,
    axis: int,
    other: int,
)
    requires
        0 <= merge,
        crate::common::mrope::mrope_error(len, items, merge) is None,
        crate::common::mrope::are_positions(len, items, merge, pos, delta),
        0 <= i < items.len(),
        items[i].end + 1 < len,
        0 <= axis < 3,
        0 <= other < 3,
    ensures
        on_axis(pos, len, other, items[i].end + 1) == on_axis(
            pos,
            len,
            axis,
            items[i].start as int,
        ) + greatest(
            items[i].grid@[0] as int,
            items[i].grid@[1] as int / merge,
            items[i].grid@[2] as int / merge,
        ),
{
    let n = items.len() as int;
    let k = items[i].end + 1;
    lemma_order(len, items, merge, i, n);
    lemma_item_token(len, items, merge, n, i, axis, items[i].start as int);
    lemma_first_cell(len, items, merge, i, axis);
    lemma_row(len, items, merge, pos, delta, axis, items[i].start as int);
    lemma_row(len, items, merge, pos, delta, other, k);
    lemma_placed(len, items, merge, n);
    if i < n - 1 {
        assert(well_placed(len, items, merge, i + 1));
    }
    if i < n - 1 && items[i + 1].start == k {
        lemma_order(len, items, merge, i + 1, n);
        lemma_item_token(len, items, merge, n, i + 1, other, k);
        lemma_first_cell(len, items, merge, i + 1, other);
    } else {
        lemma_text_token(len, items, merge, n, i + 1, other, k);
    }
}

/// The offset of generated tokens leads from their index to the number behind the greatest
/// position, or to 0 where there is none.
pub proof fn law_generation_resumes(
    len: int,
    items: Seq<MropeItem>,
    merge: int,
    pos: Seq<i64>,
    delta: int,
)
    requires
        0 <= merge,
        0 <= len,
        crate::common::mrope::mrope_error(len, items, merge) is None,
        crate::common::mrope::are_positions(len, items, merge, pos, delta),
    ensures
        forall|j: int| 0 <= j < pos.len() ==> 0 <= #[trigger] pos[j] < len + delta,
        len > 0 ==> exists|j: int| 0 <= j < pos.len() && #[trigger] pos[j] == len + delta - 1,
        len == 0 ==> delta == 0,
{
    crate::common::mrope::law_delta(pos, delta, len, items, merge);
    crate::common::mrope::lemma_peak(pos);
}

/// Whether positions run through a prompt: they begin with 0, advance by one behind each
/// text token, alike on all axes, follow the grid of each image, and advance by the
/// greatest side of its grid behind it, and `delta` leads behind the greatest of them.
pub open spec fn runs_through(
    len: int,
    items: Seq<MropeItem>,
    merge: int,
    pos: Seq<i64>,
    delta: int,
) -> bool {
    &&& pos.len() == 3 * len
    &&& forall|axis: int|
        0 <= axis < 3 && 0 < len ==> #[trigger] on_axis(pos, len, axis, 0) == 0
    &&& forall|axis: int, k: int|
        0 <= axis < 3 && 0 <= k < len - 1 && is_text(items, k) ==> on_axis(pos, len, axis, k + 1)
            == #[trigger] on_axis(pos, len, axis, k) + 1
    &&& forall|axis: int, other: int, k: int|
        0 <= axis < 3 && 0 <= other < 3 && 0 <= k < len && is_text(items, k) ==> #[trigger] on_axis(
            pos,
            len,
            axis,
            k,
        ) == #[trigger] on_axis(pos, len, other, k)
    &&& forall|i: int, frame: int, row: int, column: int|
        #[trigger] is_cell(items, merge, i, frame, row, column) ==> cell_follows(
            len,
            items,
            merge,
            pos,
            i,
            frame,
            row,
            column,
        )
    &&& forall|i: int, axis: int|
        0 <= i < items.len() && items[i].end + 1 < len && 0 <= axis < 3 ==> #[trigger] on_axis(
            pos,
            len,
            axis,
            items[i].end + 1,
        ) == on_axis(pos, len, axis, items[i].start as int) + greatest(
            items[i].grid@[0] as int,
            items[i].grid@[1] as int / merge,
            items[i].grid@[2] as int / merge,
        )
    &&& forall|j: int| 0 <= j < pos.len() ==> 0 <= #[trigger] pos[j] < len + delta
    &&& len > 0 ==> exists|j: int| 0 <= j < pos.len() && #[trigger] pos[j] == len + delta - 1
    &&& len == 0 ==> delta == 0
}

/// Whether item `i` has a token in the given frame, row and column.
pub open spec fn is_cell(
    items: Seq<MropeItem>,
    merge: int,
    i: int,
    frame: int,
    row: int,
    column: int,
) -> bool {
    &&& 0 <= i < items.len()
    &&& 0 <= frame < items[i].grid@[0]
    &&& 0 <= row < items[i].grid@[1] as int / merge
    &&& 0 <= column < items[i].grid@[2] as int / merge
}

/// Whether the token of item `i` in the given frame, row and column is as far from the
/// first on each axis, which the axes agree on.
pub open spec fn cell_follows(
    len: int,
    items: Seq<MropeItem>,
    merge: int,
    pos: Seq<i64>,
    i: int,
    frame: int,
    row: int,
    column: int,
) -> bool {
    let rows = items[i].grid@[1] as int / merge;
    let columns = items[i].grid@[2] as int / merge;
    let first = items[i].start as int;
    let k = first + (frame * rows + row) * columns + column;
    &&& first <= k <= items[i].end
    &&& on_axis(pos, len, 0, k) == on_axis(pos, len, 0, first) + frame
    &&& on_axis(pos, len, 1, k) == on_axis(pos, len, 1, first) + row
    &&& on_axis(pos, len, 2, k) == on_axis(pos, len, 2, first) + column
    &&& on_axis(pos, len, 0, first) == on_axis(pos, len, 1, first)
    &&& on_axis(pos, len, 1, first) == on_axis(pos, len, 2, first)
}

/// The contract's positions.
#[verifier::spinoff_prover]
proof fn lemma_runs_through(
    len: int,
    items: Seq<MropeItem>,
    merge: int,
    pos: Seq<i64>,
    delta: int,
)
    requires
        0 <= merge,
        0 <= len,
        crate::common::mrope::mrope_error(len, items, merge) is None,
        crate::common::mrope::are_positions(len, items, merge, pos, delta),
    ensures
        runs_through(len, items, merge, pos, delta),
{
    assert forall|axis: int| 0 <= axis < 3 && 0 < len implies #[trigger] on_axis(pos, len, axis, 0)
        == 0 by {
        law_positions_begin(len, items, merge, pos, delta, axis);
    }
    assert forall|axis: int, k: int|
        0 <= axis < 3 && 0 <= k < len - 1 && is_text(items, k) implies on_axis(
        pos,
        len,
        axis,
        k + 1,
    ) == #[trigger] on_axis(pos, len, axis, k) + 1 by {
        law_text_advances_by_one(len, items, merge, pos, delta, axis, axis, k);
    }
    assert forall|axis: int, other: int, k: int|
        0 <= axis < 3 && 0 <= other < 3 && 0 <= k < len && is_text(items, k) implies
        #[trigger] on_axis(pos, len, axis, k) == #[trigger] on_axis(pos, len, other, k) by {
        law_text_is_on_the_diagonal(len, items, merge, pos, delta, axis, other, k);
    }
    assert forall|i: int, frame: int, row: int, column: int| #[trigger]
        is_cell(items, merge, i, frame, row, column) implies cell_follows(
        len,
        items,
        merge,
        pos,
        i,
        frame,
        row,
        column,
    ) by {
        law_image_tokens_follow_the_grid(len, items, merge, pos, delta, i, frame, row, column);
    }
    assert forall|i: int, axis: int|
        0 <= i < items.len() && items[i].end + 1 < len && 0 <= axis < 3 implies #[trigger] on_axis(
        pos,
        len,
        axis,
        items[i].end + 1,
    ) == on_axis(pos, len, axis, items[i].start as int) + greatest(
        items[i].grid@[0] as int,
        items[i].grid@[1] as int / merge,
        items[i].grid@[2] as int / merge,
    ) by {
        law_image_advances_by_its_greatest_side(len, items, merge, pos, delta, i, axis, axis);
    }
    law_generation_resumes(len, items, merge, pos, delta);
}

/// Whether `merge` is positive and all items are well placed.
pub open spec fn all_placed(len: int, items: Seq<MropeItem>, merge: int) -> bool {
    &&& merge > 0
    &&& forall|i: int| 0 <= i < items.len() ==> #[trigger] well_placed(len, items, merge, i)
}

/// Whether `message` is about the merge size, or else about the first item that is not
/// well placed.
pub open spec fn first_misplaced(
    len: int,
    items: Seq<MropeItem>,
    merge: int,
    message: Seq<char>,
) -> bool {
    if merge == 0 {
        message == "mrope: merge_size must be positive"@
    } else {
        exists|i: int|
            {
                &&& 0 <= i < items.len()
                &&& !#[trigger] well_placed(len, items, merge, i)
                &&& forall|j: int| 0 <= j < i ==> #[trigger] well_placed(len, items, merge, j)
                &&& if items[i].end >= len || (i > 0 && items[i - 1].end >= items[i].start) {
                    is_range_message(items[i], message)
                } else {
                    message == "mrope: token span does not match grid"@
                }
            }
    }
}

/// Whether `message` tells the range of an item.
pub open spec fn is_range_message(item: MropeItem, message: Seq<char>) -> bool {
    exists|a: Seq<char>, b: Seq<char>|
        {
            &&& #[trigger] super::numerals::is_numeral(a, item.start as int)
            &&& #[trigger] super::numerals::is_numeral(b, item.end as int)
            &&& message == "mrope: item range ("@ + a + ","@ + b + ") out of order/bounds"@
        }
}

/// The first item that is not well placed.
proof fn lemma_first_misplaced(len: int, items: Seq<MropeItem>, merge: int, n: int) -> (i: int)
    requires
        0 <= n <= items.len(),
        exists|k: int| 0 <= k < n && !#[trigger] well_placed(len, items, merge, k),
    ensures
        0 <= i < n,
        !well_placed(len, items, merge, i),
        forall|k: int| 0 <= k < i ==> #[trigger] well_placed(len, items, merge, k),
    decreases n,
{
    if exists|k: int| 0 <= k < n - 1 && !#[trigger] well_placed(len, items, merge, k) {
        lemma_first_misplaced(len, items, merge, n - 1)
    } else {
        n - 1
    }
}

/// The contract's messages.
proof fn lemma_refused(len: int, items: Seq<MropeItem>, merge: int)
    requires
        0 <= merge,
        crate::common::mrope::mrope_error(len, items, merge) is Some,
    ensures
        !all_placed(len, items, merge),
        first_misplaced(
            len,
            items,
            merge,
            crate::common::mrope::mrope_error(len, items, merge)->0,
        ),
{
    law_positions_exist(len, items, merge);
    if merge > 0 {
        let i = lemma_first_misplaced(len, items, merge, items.len() as int);
        law_positions_refused(len, items, merge, i);
        let message = crate::common::mrope::mrope_error(len, items, merge)->0;
        super::numerals::law_numerals_read_back(items[i].start as nat);
        super::numerals::law_numerals_read_back(items[i].end as nat);
        let a = crate::text::decimal(items[i].start as nat);
        let b = crate::text::decimal(items[i].end as nat);
        assert(super::numerals::is_numeral(a, items[i].start as int));
        assert(super::numerals::is_numeral(b, items[i].end as int));
        assert(!well_placed(len, items, merge, i));
    } else {
        law_positions_refused(len, items, merge, 0);
    }
}

/// What numbering a prompt gives: positions that run through it exactly where all items
/// are well placed, and otherwise a message about the first that is not.
pub proof fn law_mrope_image_only(
    input_len: usize,
    items: &[MropeItem],
    merge_size: usize,
    result: Result<(Vec<i64>, i64), String>,
)
    requires
        call_ensures(mrope_image_only, (input_len, items, merge_size), result),
    ensures
        result is Ok <==> all_placed(input_len as int, items@, merge_size as int),
        result matches Ok((pos, delta)) ==> runs_through(
            input_len as int,
            items@,
            merge_size as int,
            pos@,
            delta as int,
        ),
        result matches Err(e) ==> first_misplaced(
            input_len as int,
            items@,
            merge_size as int,
            e@,
        ),
{
    let len = input_len as int;
    let merge = merge_size as int;
    law_positions_exist(len, items@, merge);
    if let Ok((pos, delta)) = result {
        lemma_runs_through(len, items@, merge, pos@, delta as int);
    } else {
        lemma_refused(len, items@, merge);
    }
}

/// Whether `result` holds positions that run through a prompt exactly where all items are
/// well placed, and otherwise a message about the first that is not.
pub open spec fn numbers(
    len: int,
    items: Seq<MropeItem>,
    merge: int,
    result: Result<PositionOutput, String>,
) -> bool {
    match result {
        Ok(PositionOutput::MRope { positions, delta }) => {
            &&& all_placed(len, items, merge)
            &&& runs_through(len, items, merge, positions@, delta as int)
        },
        Ok(PositionOutput::Rope1D) => false,
        Err(e) => {
            &&& !all_placed(len, items, merge)
            &&& first_misplaced(len, items, merge, e@)
        },
    }
}

/// What the contract of numbering says of a prompt.
proof fn lemma_numbers(
    len: int,
    items: Seq<MropeItem>,
    merge: int,
    result: Result<PositionOutput, String>,
)
    requires
        0 <= len,
        0 <= merge,
        crate::common::placement::is_positions(len, items, merge, result),
    ensures
        numbers(len, items, merge, result),
{
    law_positions_exist(len, items, merge);
    match result {
        Ok(PositionOutput::MRope { positions, delta }) => {
            lemma_runs_through(len, items, merge, positions@, delta as int);
        },
        Ok(PositionOutput::Rope1D) => {},
        Err(e) => {
            lemma_refused(len, items, merge);
        },
    }
}

/// What numbering a prompt gives, as positions.
pub proof fn law_mrope_output(
    input_len: usize,
    items: &[MropeItem],
    merge_size: usize,
    result: Result<PositionOutput, String>,
)
    requires
        call_ensures(mrope_output, (input_len, items, merge_size), result),
    ensures
        numbers(input_len as int, items@, merge_size as int, result),
{
    lemma_numbers(input_len as int, items@, merge_size as int, result);
}

/// Whether `placed` pairs ranges and grids, as far as there are both.
pub open spec fn pairs(
    offsets: Seq<(u32, u32)>,
    items: Seq<Geometry>,
    placed: Seq<MropeItem>,
) -> bool {
    &&& placed.len() <= offsets.len()
    &&& placed.len() <= items.len()
    &&& placed.len() == offsets.len() || placed.len() == items.len()
    &&& forall|i: int|
        0 <= i < placed.len() ==> {
            &&& (#[trigger] placed[i]).start == offsets[i].0
            &&& placed[i].end == offsets[i].1
            &&& items[i] == Geometry::Grid(placed[i].grid)
        }
}

/// Placing images pairs their ranges and grids.
pub proof fn law_place(offsets: &[(u32, u32)], items: &[Geometry], placed: Vec<MropeItem>)
    requires
        call_ensures(place, (offsets, items), placed),
    ensures
        pairs(offsets@, items@, placed@),
{
    lemma_pairs(offsets@, items@);
}

/// The contract's placements.
proof fn lemma_pairs(offsets: Seq<(u32, u32)>, items: Seq<Geometry>)
    ensures
        pairs(offsets, items, crate::common::placement::placements(offsets, items)),
{
    let placed = crate::common::placement::placements(offsets, items);
    assert forall|i: int| 0 <= i < placed.len() implies {
        &&& (#[trigger] placed[i]).start == offsets[i].0
        &&& placed[i].end == offsets[i].1
        &&& items[i] == Geometry::Grid(placed[i].grid)
    } by {
        match items[i] {
            Geometry::Grid(grid) => {},
        }
    }
}

/// The Qwen VL family numbers a prompt with its images where they stand.
pub proof fn law_qwen_positions(
    processor: &QwenVlProcessor,
    input_len: usize,
    offsets: &[(u32, u32)],
    items: &[Geometry],
    result: Result<PositionOutput, String>,
)
    requires
        call_ensures(QwenVlProcessor::positions, (processor, input_len, offsets, items), result),
    ensures
        exists|placed: Seq<MropeItem>| #[trigger]
            pairs(offsets@, items@, placed) && numbers(
                input_len as int,
                placed,
                processor.params().merge_size as int,
                result,
            ),
{
    let placed = crate::common::placement::placements(offsets@, items@);
    lemma_pairs(offsets@, items@);
    lemma_numbers(input_len as int, placed, processor.params().merge_size as int, result);
}

/// The GLM VL family numbers a prompt with its images where they stand, and takes as many
/// ranges as grids only.
pub proof fn law_glm_positions(
    processor: &GlmVlProcessor,
    input_len: usize,
    offsets: &[(u32, u32)],
    items: &[Geometry],
    result: Result<PositionOutput, String>,
)
    requires
        call_ensures(GlmVlProcessor::positions, (processor, input_len, offsets, items), result),
    ensures
        offsets@.len() != items@.len() ==> result is Err && result->Err_0@
            == "glm_vl: offsets/grid count mismatch"@,
        offsets@.len() == items@.len() ==> exists|placed: Seq<MropeItem>| #[trigger]
            pairs(offsets@, items@, placed) && numbers(
                input_len as int,
                placed,
                processor.params().merge_size as int,
                result,
            ),
{
    if offsets@.len() == items@.len() {
        let placed = crate::common::placement::placements(offsets@, items@);
        lemma_pairs(offsets@, items@);
        lemma_numbers(input_len as int, placed, processor.params().merge_size as int, result);
    }
}

}
