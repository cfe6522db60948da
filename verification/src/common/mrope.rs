//! Multi-axis rotary positions (M-RoPE) of prompts that hold text and images.
use crate::text::decimal_text;
use vstd::prelude::*;
use vstd::string::StringExecFns;

verus! {

/// One media item's placement: the inclusive range of its tokens in the
/// prompt, and its patch grid as `[frames, rows, columns]`.
#[derive(Clone, Copy, Debug, PartialEq, Eq)]
pub struct MropeItem {
    pub start: u32,
    pub end: u32,
    pub grid: [u32; 3],
}

impl MropeItem {
    /// Frames of the token grid.
    pub open spec fn frames(self) -> int {
        self.grid@[0] as int
    }

    /// Token rows, once `merge` patch rows make one of them.
    pub open spec fn rows(self, merge: int) -> int {
        self.grid@[1] as int / merge
    }

    /// Token columns, once `merge` patch columns make one of them.
    pub open spec fn columns(self, merge: int) -> int {
        self.grid@[2] as int / merge
    }

    /// The largest of the three grid dimensions.
    pub open spec fn extent(self, merge: int) -> int {
        let rest = if self.rows(merge) >= self.columns(merge) {
            self.rows(merge)
        } else {
            self.columns(merge)
        };
        if self.frames() >= rest {
            self.frames()
        } else {
            rest
        }
    }

    /// Whether the token range holds one token per cell of the token grid.
    pub open spec fn span_matches(self, merge: int) -> bool {
        &&& self.start <= self.end
        &&& self.frames() * self.rows(merge) * self.columns(merge) == self.end - self.start + 1
    }
}

/// The first token behind the first `n` items.
pub open spec fn cursor(items: Seq<MropeItem>, n: int) -> int {
    if n <= 0 {
        0
    } else {
        items[n - 1].end + 1
    }
}

/// Whether item `n` begins behind the earlier ones and ends inside the prompt.
pub open spec fn in_order(len: int, items: Seq<MropeItem>, n: int) -> bool {
    cursor(items, n) <= items[n].start && items[n].end < len
}

/// The position that the token behind the first `n` items gets: text advances
/// by one per token, an item by its largest grid dimension.
pub open spec fn next_position(items: Seq<MropeItem>, merge: int, n: int) -> int
    decreases n,
{
    if n <= 0 {
        0
    } else {
        next_position(items, merge, n - 1) + (items[n - 1].start - cursor(items, n - 1))
            + items[n - 1].extent(merge)
    }
}

/// The position at which item `n` begins.
pub open spec fn item_position(items: Seq<MropeItem>, merge: int, n: int) -> int {
    next_position(items, merge, n) + (items[n].start - cursor(items, n))
}

/// The coordinate of cell `q` of a row-major token grid, on axis 0 (frame),
/// 1 (row) or 2 (column).
pub open spec fn cell(q: int, rows: int, columns: int, axis: int) -> int {
    if axis == 0 {
        q / (rows * columns)
    } else if axis == 1 {
        (q / columns) % rows
    } else {
        q % columns
    }
}

/// The position of token `k` on an axis, in a prompt with the first `n` items.
pub open spec fn position(items: Seq<MropeItem>, merge: int, n: int, axis: int, k: int) -> int
    decreases n,
{
    if n <= 0 || k >= cursor(items, n) {
        next_position(items, merge, n) + (k - cursor(items, n))
    } else if k >= items[n - 1].start {
        item_position(items, merge, n - 1) + cell(
            k - items[n - 1].start,
            items[n - 1].rows(merge),
            items[n - 1].columns(merge),
            axis,
        )
    } else {
        position(items, merge, n - 1, axis, k)
    }
}

/// The message for the first of `n` items that cannot be placed.
pub open spec fn placement_error(
    len: int,
    items: Seq<MropeItem>,
    merge: int,
    n: int,
) -> Option<Seq<char>>
    decreases n,
{
    if n <= 0 {
        None
    } else if placement_error(len, items, merge, n - 1) is Some {
        placement_error(len, items, merge, n - 1)
    } else if !in_order(len, items, n - 1) {
        Some(
            "mrope: item range ("@ + crate::text::decimal(items[n - 1].start as nat) + ","@
                + crate::text::decimal(items[n - 1].end as nat) + ") out of order/bounds"@,
        )
    } else if !items[n - 1].span_matches(merge) {
        Some("mrope: token span does not match grid"@)
    } else {
        None
    }
}

/// The message with which a request is refused, if it is.
pub open spec fn mrope_error(len: int, items: Seq<MropeItem>, merge: int) -> Option<Seq<char>> {
    if merge == 0 {
        Some("mrope: merge_size must be positive"@)
    } else {
        placement_error(len, items, merge, items.len() as int)
    }
}

/// The largest element, or -1 if there is none.
pub open spec fn peak(s: Seq<i64>) -> int
    decreases s.len(),
{
    if s.len() == 0 {
        -1
    } else if s.last() >= peak(s.drop_last()) {
        s.last() as int
    } else {
        peak(s.drop_last())
    }
}

/// Element `k` of a row of the flattened `[3, len]` matrix.
pub open spec fn row(pos: Seq<i64>, len: int, axis: int, k: int) -> i64 {
    if axis == 0 {
        pos[k]
    } else if axis == 1 {
        pos[len + k]
    } else {
        pos[2 * len + k]
    }
}

/// Whether the first `tokens` tokens hold their positions in all three rows.
pub open spec fn rows_hold(
    pos: Seq<i64>,
    len: int,
    items: Seq<MropeItem>,
    merge: int,
    n: int,
    tokens: int,
) -> bool {
    forall|axis: int, k: int|
        0 <= axis < 3 && 0 <= k < tokens ==> #[trigger] row(pos, len, axis, k) == position(
            items,
            merge,
            n,
            axis,
            k,
        )
}

/// Whether `pos` and `delta` are the positions of a prompt and the offset of
/// generated tokens.
pub open spec fn are_positions(
    len: int,
    items: Seq<MropeItem>,
    merge: int,
    pos: Seq<i64>,
    delta: int,
) -> bool {
    &&& pos.len() == 3 * len
    &&& rows_hold(pos, len, items, merge, items.len() as int, len)
    &&& delta == peak(pos) + 1 - len
}

/// Writes the three positions of token `k`.
fn set_token(pos: &mut Vec<i64>, len: usize, k: usize, t: i64, h: i64, w: i64)
    requires
        old(pos)@.len() == 3 * len,
        3 * len <= usize::MAX,
        k < len,
    ensures
        final(pos)@.len() == 3 * len,
        forall|axis: int, j: int|
            0 <= axis < 3 && 0 <= j < len ==> #[trigger] row(final(pos)@, len as int, axis, j) == (
            if j != k {
                row(old(pos)@, len as int, axis, j)
            } else if axis == 0 {
                t
            } else if axis == 1 {
                h
            } else {
                w
            }),
{
    pos.set(k, t);
    pos.set(len + k, h);
    pos.set(2 * len + k, w);
}

/// Numbers the `n` text tokens from `st` on, beginning with `base`.
fn fill_text(pos: &mut Vec<i64>, len: usize, st: usize, n: usize, base: i64)
    requires
        old(pos)@.len() == 3 * len,
        3 * len <= i64::MAX,
        3 * len <= usize::MAX,
        st + n <= len,
        0 <= base <= st,
    ensures
        final(pos)@.len() == 3 * len,
        forall|axis: int, j: int|
            0 <= axis < 3 && 0 <= j < len ==> #[trigger] row(final(pos)@, len as int, axis, j) == (
            if st <= j < st + n {
                base + (j - st)
            } else {
                row(old(pos)@, len as int, axis, j) as int
            }),
{
    let mut k: usize = 0;
    while k < n
        invariant
            k <= n,
            pos@.len() == 3 * len,
            3 * len <= i64::MAX,
            3 * len <= usize::MAX,
            st + n <= len,
            0 <= base <= st,
            forall|axis: int, j: int|
                0 <= axis < 3 && 0 <= j < len ==> #[trigger] row(pos@, len as int, axis, j) == (
                if st <= j < st + k {
                    base + (j - st)
                } else {
                    row(old(pos)@, len as int, axis, j) as int
                }),
        decreases n - k,
    {
        let v: i64 = base + k as i64;
        set_token(pos, len, st + k, v, v, v);
        k = k + 1;
    }
}

pub proof fn lemma_cell(ti: int, hi: int, wi: int, rows: int, columns: int)
    requires
        0 <= ti,
        0 <= hi < rows,
        0 <= wi < columns,
    ensures
        cell((ti * rows + hi) * columns + wi, rows, columns, 0) == ti,
        cell((ti * rows + hi) * columns + wi, rows, columns, 1) == hi,
        cell((ti * rows + hi) * columns + wi, rows, columns, 2) == wi,
{
    let a = ti * rows + hi;
    let q = a * columns + wi;
    vstd::arithmetic::div_mod::lemma_fundamental_div_mod_converse(q, columns, a, wi);
    vstd::arithmetic::div_mod::lemma_fundamental_div_mod_converse(a, rows, ti, hi);
    assert(0 <= a * columns && 0 <= ti * rows) by (nonlinear_arith)
        requires
            a == ti * rows + hi,
            0 <= ti,
            0 <= hi < rows,
            0 < columns,
    ;
    vstd::arithmetic::div_mod::lemma_div_denominator(q, columns, rows);
    vstd::arithmetic::mul::lemma_mul_is_commutative(columns, rows);
}

/// Numbers the tokens of one image, beginning at `base` on every axis.
fn fill_image(
    pos: &mut Vec<i64>,
    len: usize,
    start: usize,
    base: i64,
    t: usize,
    gh: usize,
    gw: usize,
)
    requires
        old(pos)@.len() == 3 * len,
        3 * len <= i64::MAX,
        3 * len <= usize::MAX,
        start + t * gh * gw <= len,
        0 <= base <= start,
        t <= u32::MAX,
        gh <= u32::MAX,
        gw <= u32::MAX,
    ensures
        final(pos)@.len() == 3 * len,
        forall|axis: int, j: int|
            0 <= axis < 3 && 0 <= j < len ==> #[trigger] row(final(pos)@, len as int, axis, j) == (
            if start <= j < start + t * gh * gw {
                base + cell(j - start, gh as int, gw as int, axis)
            } else {
                row(old(pos)@, len as int, axis, j) as int
            }),
{
    let mut idx: usize = start;
    let mut ti: usize = 0;
    while ti < t
        invariant
            ti <= t,
            pos@.len() == 3 * len,
            3 * len <= i64::MAX,
            3 * len <= usize::MAX,
            start + t * gh * gw <= len,
            0 <= base <= start,
            idx == start + (ti * gh) * gw,
            forall|axis: int, j: int|
                0 <= axis < 3 && 0 <= j < len ==> #[trigger] row(pos@, len as int, axis, j) == (
                if start <= j < idx {
                    base + cell(j - start, gh as int, gw as int, axis)
                } else {
                    row(old(pos)@, len as int, axis, j) as int
                }),
        decreases t - ti,
    {
        let mut hi: usize = 0;
        while hi < gh
            invariant
                ti < t,
                hi <= gh,
                pos@.len() == 3 * len,
                3 * len <= i64::MAX,
                3 * len <= usize::MAX,
                start + t * gh * gw <= len,
                0 <= base <= start,
                idx == start + (ti * gh + hi) * gw,
                forall|axis: int, j: int|
                    0 <= axis < 3 && 0 <= j < len ==> #[trigger] row(pos@, len as int, axis, j) == (
                    if start <= j < idx {
                        base + cell(j - start, gh as int, gw as int, axis)
                    } else {
                        row(old(pos)@, len as int, axis, j) as int
                    }),
            decreases gh - hi,
        {
            let mut wi: usize = 0;
            while wi < gw
                invariant
                    ti < t,
                    hi < gh,
                    wi <= gw,
                    pos@.len() == 3 * len,
                    3 * len <= i64::MAX,
                    3 * len <= usize::MAX,
                    start + t * gh * gw <= len,
                    0 <= base <= start,
                    idx == start + (ti * gh + hi) * gw + wi,
                    forall|axis: int, j: int|
                        0 <= axis < 3 && 0 <= j < len ==> #[trigger] row(pos@, len as int, axis, j)
                            == (if start <= j < idx {
                            base + cell(j - start, gh as int, gw as int, axis)
                        } else {
                            row(old(pos)@, len as int, axis, j) as int
                        }),
                decreases gw - wi,
            {
                proof {
                    lemma_cell(ti as int, hi as int, wi as int, gh as int, gw as int);
                    lemma_cell_in_grid(
                        ti as int,
                        hi as int,
                        wi as int,
                        t as int,
                        gh as int,
                        gw as int,
                    );
                }
                set_token(
                    pos,
                    len,
                    idx,
                    base + ti as i64,
                    base + hi as i64,
                    base + wi as i64,
                );
                idx = idx + 1;
                wi = wi + 1;
            }
            proof {
                vstd::arithmetic::mul::lemma_mul_is_distributive_add_other_way(
                    gw as int,
                    ti * gh + hi,
                    1,
                );
            }
            hi = hi + 1;
        }
        proof {
            vstd::arithmetic::mul::lemma_mul_is_distributive_add_other_way(
                gh as int,
                ti as int,
                1,
            );
        }
        ti = ti + 1;
    }
}

/// A cell's index lies inside the grid, and no coordinate exceeds the index.
pub proof fn lemma_cell_in_grid(ti: int, hi: int, wi: int, t: int, rows: int, columns: int)
    requires
        0 <= ti < t,
        0 <= hi < rows,
        0 <= wi < columns,
    ensures
        0 <= (ti * rows + hi) * columns + wi < t * rows * columns,
        ti <= (ti * rows + hi) * columns + wi,
        hi <= (ti * rows + hi) * columns + wi,
        wi <= (ti * rows + hi) * columns + wi,
{
    let a = ti * rows + hi;
    assert(0 <= ti <= a && hi <= a && a + 1 <= t * rows) by (nonlinear_arith)
        requires
            0 <= ti < t,
            0 <= hi < rows,
            a == ti * rows + hi,
    ;
    let b = t * rows;
    assert(a <= a * columns && 0 <= a * columns && a * columns + columns <= b * columns)
        by (nonlinear_arith)
        requires
            0 <= a,
            a + 1 <= b,
            0 < columns,
    ;
}

/// Every dimension of a grid with at least one cell is positive and no larger
/// than the number of cells.
pub proof fn lemma_dimensions(t: int, rows: int, columns: int)
    requires
        0 <= t,
        0 <= rows,
        0 <= columns,
        1 <= t * rows * columns,
    ensures
        1 <= t <= t * rows * columns,
        1 <= rows <= t * rows * columns,
        1 <= columns <= t * rows * columns,
{
    let a = t * rows;
    assert(a >= 1 && columns >= 1) by (nonlinear_arith)
        requires
            a * columns >= 1,
            columns >= 0,
    ;
    assert(t >= 1 && rows >= 1 && t <= a && rows <= a) by (nonlinear_arith)
        requires
            a == t * rows,
            a >= 1,
            t >= 0,
            rows >= 0,
    ;
    assert(a <= a * columns && columns <= a * columns) by (nonlinear_arith)
        requires
            a >= 1,
            columns >= 1,
    ;
}

/// Positions never run ahead of the tokens they number.
pub proof fn lemma_next_position_bounds(len: int, items: Seq<MropeItem>, merge: int, n: int)
    requires
        0 <= n <= items.len(),
        merge > 0,
        placement_error(len, items, merge, n) is None,
    ensures
        0 <= next_position(items, merge, n) <= cursor(items, n),
        n > 0 ==> cursor(items, n) <= len,
    decreases n,
{
    if n > 0 {
        lemma_next_position_bounds(len, items, merge, n - 1);
        let item = items[n - 1];
        vstd::arithmetic::div_mod::lemma_div_pos_is_pos(item.grid@[1] as int, merge);
        vstd::arithmetic::div_mod::lemma_div_pos_is_pos(item.grid@[2] as int, merge);
        lemma_dimensions(item.frames(), item.rows(merge), item.columns(merge));
    }
}

pub proof fn lemma_placement_error_persists(
    len: int,
    items: Seq<MropeItem>,
    merge: int,
    n: int,
    m: int,
)
    requires
        n <= m,
        placement_error(len, items, merge, n) is Some,
    ensures
        placement_error(len, items, merge, m) == placement_error(len, items, merge, n),
    decreases m - n,
{
    if n < m {
        lemma_placement_error_persists(len, items, merge, n, m - 1);
    }
}

fn range_message(start: u32, end: u32) -> (s: String)
    ensures
        s@ == "mrope: item range ("@ + crate::text::decimal(start as nat) + ","@
            + crate::text::decimal(end as nat) + ") out of order/bounds"@,
{
    let mut s = String::from_str("mrope: item range (");
    s.append(decimal_text(start as usize).as_str());
    s.append(",");
    s.append(decimal_text(end as usize).as_str());
    s.append(") out of order/bounds");
    s
}

fn largest(pos: &Vec<i64>) -> (m: i64)
    requires
        forall|i: int| 0 <= i < pos@.len() ==> pos@[i] >= 0,
    ensures
        m == peak(pos@),
{
    let mut m: i64 = -1;
    let mut i: usize = 0;
    while i < pos.len()
        invariant
            i <= pos@.len(),
            m == peak(pos@.take(i as int)),
        decreases pos@.len() - i,
    {
        proof {
            assert(pos@.take(i + 1).drop_last() =~= pos@.take(i as int));
        }
        if pos[i] >= m {
            m = pos[i];
        }
        i = i + 1;
    }
    proof {
        assert(pos@.take(i as int) =~= pos@);
    }
    m
}

fn larger(a: usize, b: usize) -> (c: usize)
    ensures
        c == (if a >= b {
            a
        } else {
            b
        }),
{
    if a >= b {
        a
    } else {
        b
    }
}

/// The M-RoPE positions of a prompt of `input_len` tokens that holds the given
/// images, as a flattened row-major `[3, input_len]` matrix, and the offset of
/// the next generated token's position from its index.
pub fn mrope_image_only(
    input_len: usize,
    items: &[MropeItem],
    merge_size: usize,
) -> (result: Result<(Vec<i64>, i64), String>)
    requires
        merge_size == 0 || 24 * input_len <= isize::MAX,
    ensures
        match result {
            Err(e) => mrope_error(input_len as int, items@, merge_size as int) == Some(e@),
            Ok((pos, delta)) => {
                &&& mrope_error(input_len as int, items@, merge_size as int) is None
                &&& are_positions(
                    input_len as int,
                    items@,
                    merge_size as int,
                    pos@,
                    delta as int,
                )
            },
        },
{
    if merge_size == 0 {
        return Err(String::from_str("mrope: merge_size must be positive"));
    }
    let len: usize = input_len;
    let ghost merge = merge_size as int;
    let mut pos: Vec<i64> = vec![0i64; 3 * len];
    let mut st: usize = 0;
    let mut next_pos: i64 = 0;
    let mut i: usize = 0;
    while i < items.len()
        invariant
            i <= items@.len(),
            len == input_len,
            merge == merge_size,
            merge_size > 0,
            24 * len <= isize::MAX,
            pos@.len() == 3 * len,
            placement_error(len as int, items@, merge, i as int) is None,
            st == cursor(items@, i as int),
            st <= len,
            next_pos == next_position(items@, merge, i as int),
            0 <= next_pos <= st,
            rows_hold(pos@, len as int, items@, merge, i as int, st as int),
        decreases items@.len() - i,
    {
        let item = &items[i];
        let start: usize = item.start as usize;
        let end: usize = item.end as usize;
        if start < st || end >= len {
            proof {
                lemma_placement_error_persists(
                    len as int,
                    items@,
                    merge,
                    i + 1,
                    items@.len() as int,
                );
            }
            return Err(range_message(item.start, item.end));
        }
        let t: usize = item.grid[0] as usize;
        let gh: usize = item.grid[1] as usize / merge_size;
        let gw: usize = item.grid[2] as usize / merge_size;
        proof {
            vstd::arithmetic::div_mod::lemma_div_nonincreasing(item.grid@[1] as int, merge);
            vstd::arithmetic::div_mod::lemma_div_nonincreasing(item.grid@[2] as int, merge);
            vstd::arithmetic::mul::lemma_mul_upper_bound(
                t as int,
                u32::MAX as int,
                gh as int,
                u32::MAX as int,
            );
            vstd::arithmetic::mul::lemma_mul_upper_bound(
                t * gh,
                u32::MAX * u32::MAX,
                gw as int,
                u32::MAX as int,
            );
        }
        let cells: u128 = t as u128 * gh as u128 * gw as u128;
        if end < start || cells != (end - start) as u128 + 1 {
            proof {
                lemma_placement_error_persists(
                    len as int,
                    items@,
                    merge,
                    i + 1,
                    items@.len() as int,
                );
            }
            return Err(String::from_str("mrope: token span does not match grid"));
        }
        proof {
            lemma_dimensions(t as int, gh as int, gw as int);
        }
        let ghost before = pos@;
        fill_text(&mut pos, len, st, start - st, next_pos);
        next_pos = next_pos + (start - st) as i64;
        let ghost numbered = pos@;
        fill_image(&mut pos, len, start, next_pos, t, gh, gw);
        proof {
            assert forall|axis: int, k: int| 0 <= axis < 3 && 0 <= k < end + 1 implies #[trigger] row(
                pos@,
                len as int,
                axis,
                k,
            ) == position(items@, merge, i + 1, axis, k) by {
                if k < st {
                    assert(row(before, len as int, axis, k) == position(
                        items@,
                        merge,
                        i as int,
                        axis,
                        k,
                    ));
                    assert(row(numbered, len as int, axis, k) == row(before, len as int, axis, k));
                } else if k < start {
                    assert(row(numbered, len as int, axis, k) == position(
                        items@,
                        merge,
                        i as int,
                        axis,
                        k,
                    ));
                }
            }
        }
        next_pos = next_pos + larger(t, larger(gh, gw)) as i64;
        st = end + 1;
        i = i + 1;
    }
    if st < len {
        let ghost before = pos@;
        fill_text(&mut pos, len, st, len - st, next_pos);
        proof {
            assert forall|axis: int, k: int| 0 <= axis < 3 && 0 <= k < len implies #[trigger] row(
                pos@,
                len as int,
                axis,
                k,
            ) == position(items@, merge, items@.len() as int, axis, k) by {
                if k < st {
                    assert(row(before, len as int, axis, k) == position(
                        items@,
                        merge,
                        items@.len() as int,
                        axis,
                        k,
                    ));
                }
            }
        }
    }
    proof {
        lemma_positions_bounded(pos@, len as int, items@, merge);
    }
    let max: i64 = largest(&pos);
    Ok((pos, max + 1 - len as i64))
}

/// Cells of a grid have coordinates below the grid's dimensions.
proof fn lemma_cell_bounds(q: int, t: int, rows: int, columns: int, axis: int)
    requires
        0 <= q < t * rows * columns,
        0 < rows,
        0 < columns,
        0 < t,
        0 <= axis < 3,
    ensures
        0 <= cell(q, rows, columns, axis),
        axis == 0 ==> cell(q, rows, columns, axis) < t,
        axis == 1 ==> cell(q, rows, columns, axis) < rows,
        axis == 2 ==> cell(q, rows, columns, axis) < columns,
{
    let area = rows * columns;
    assert(area > 0) by (nonlinear_arith)
        requires
            area == rows * columns,
            rows > 0,
            columns > 0,
    ;
    vstd::arithmetic::mul::lemma_mul_is_associative(t, rows, columns);
    vstd::arithmetic::div_mod::lemma_div_pos_is_pos(q, area);
    vstd::arithmetic::div_mod::lemma_multiply_divide_lt(q, area, t);
    vstd::arithmetic::mul::lemma_mul_is_commutative(t, area);
    vstd::arithmetic::div_mod::lemma_mod_bound(q / columns, rows);
    vstd::arithmetic::div_mod::lemma_mod_bound(q, columns);
}

/// The position of every token lies between 0 and the position behind the prompt.
pub proof fn lemma_position_bounds(
    len: int,
    items: Seq<MropeItem>,
    merge: int,
    n: int,
    axis: int,
    k: int,
)
    requires
        0 <= n <= items.len(),
        merge > 0,
        placement_error(len, items, merge, n) is None,
        0 <= k,
        0 <= axis < 3,
    ensures
        0 <= position(items, merge, n, axis, k),
        k < cursor(items, n) ==> position(items, merge, n, axis, k) < next_position(
            items,
            merge,
            n,
        ),
        k >= cursor(items, n) ==> position(items, merge, n, axis, k) == next_position(
            items,
            merge,
            n,
        ) + (k - cursor(items, n)),
    decreases n,
{
    lemma_next_position_bounds(len, items, merge, n);
    if n > 0 && k < cursor(items, n) {
        let item = items[n - 1];
        lemma_next_position_bounds(len, items, merge, n - 1);
        vstd::arithmetic::div_mod::lemma_div_pos_is_pos(item.grid@[1] as int, merge);
        vstd::arithmetic::div_mod::lemma_div_pos_is_pos(item.grid@[2] as int, merge);
        lemma_dimensions(item.frames(), item.rows(merge), item.columns(merge));
        if k >= item.start {
            lemma_cell_bounds(
                k - item.start,
                item.frames(),
                item.rows(merge),
                item.columns(merge),
                axis,
            );
        } else {
            lemma_position_bounds(len, items, merge, n - 1, axis, k);
        }
    }
}

/// All entries of a finished position matrix are at least 0 and below `len`.
proof fn lemma_positions_bounded(pos: Seq<i64>, len: int, items: Seq<MropeItem>, merge: int)
    requires
        pos.len() == 3 * len,
        merge > 0,
        placement_error(len, items, merge, items.len() as int) is None,
        rows_hold(pos, len, items, merge, items.len() as int, len),
    ensures
        forall|i: int| 0 <= i < pos.len() ==> 0 <= #[trigger] pos[i] < len,
        peak(pos) < len || len == 0,
        -1 <= peak(pos),
{
    let n = items.len() as int;
    assert forall|i: int| 0 <= i < pos.len() implies 0 <= #[trigger] pos[i] < len by {
        let axis = if i < len {
            0int
        } else if i < 2 * len {
            1
        } else {
            2
        };
        let k = if i < len {
            i
        } else if i < 2 * len {
            i - len
        } else {
            i - 2 * len
        };
        assert(row(pos, len, axis, k) == pos[i]);
        lemma_position_bounds(len, items, merge, n, axis, k);
        lemma_next_position_bounds(len, items, merge, n);
    }
    lemma_peak(pos);
}

/// The peak of a sequence bounds its elements, and is one of them.
pub proof fn lemma_peak(s: Seq<i64>)
    requires
        forall|i: int| 0 <= i < s.len() ==> 0 <= #[trigger] s[i],
    ensures
        forall|i: int| 0 <= i < s.len() ==> #[trigger] s[i] <= peak(s),
        s.len() > 0 ==> exists|i: int| 0 <= i < s.len() && #[trigger] s[i] == peak(s),
        -1 <= peak(s),
    decreases s.len(),
{
    if s.len() > 0 {
        let t = s.drop_last();
        lemma_peak(t);
        assert forall|i: int| 0 <= i < s.len() implies #[trigger] s[i] <= peak(s) by {
            if i < t.len() {
                assert(s[i] == t[i]);
            }
        }
        if s.last() >= peak(t) {
            assert(s[s.len() - 1] == peak(s));
        } else {
            let j = choose|j: int| 0 <= j < t.len() && #[trigger] t[j] == peak(t);
            assert(s[j] == peak(s));
        }
    }
}

/// Whether token `k` belongs to one of the first `n` items.
pub open spec fn is_media(items: Seq<MropeItem>, n: int, k: int) -> bool {
    exists|i: int| 0 <= i < n && #[trigger] items[i].start <= k <= items[i].end
}

/// Text tokens have the same position on all three axes.
pub proof fn law_text_axes_agree(
    len: int,
    items: Seq<MropeItem>,
    merge: int,
    n: int,
    axis: int,
    other: int,
    k: int,
)
    requires
        0 <= n <= items.len(),
        merge > 0,
        placement_error(len, items, merge, n) is None,
        0 <= axis < 3,
        0 <= other < 3,
        0 <= k,
        !is_media(items, n, k),
    ensures
        position(items, merge, n, axis, k) == position(items, merge, n, other, k),
    decreases n,
{
    if n > 0 && k < cursor(items, n) {
        if k >= items[n - 1].start {
            assert(items[n - 1].start <= k <= items[n - 1].end);
        } else {
            assert(!is_media(items, n - 1, k)) by {
                if is_media(items, n - 1, k) {
                    let i = choose|i: int|
                        0 <= i < n - 1 && #[trigger] items[i].start <= k <= items[i].end;
                    assert(items[i].start <= k <= items[i].end);
                }
            }
            law_text_axes_agree(len, items, merge, n - 1, axis, other, k);
        }
    }
}

/// A text token's position is above the positions of all tokens before it, on
/// every axis.
pub proof fn law_text_follows(
    len: int,
    items: Seq<MropeItem>,
    merge: int,
    n: int,
    axis: int,
    other: int,
    j: int,
    k: int,
)
    requires
        0 <= n <= items.len(),
        merge > 0,
        placement_error(len, items, merge, n) is None,
        0 <= axis < 3,
        0 <= other < 3,
        0 <= j < k,
        !is_media(items, n, k),
    ensures
        position(items, merge, n, other, j) < position(items, merge, n, axis, k),
    decreases n,
{
    lemma_position_bounds(len, items, merge, n, axis, k);
    lemma_position_bounds(len, items, merge, n, other, j);
    if n > 0 && k < cursor(items, n) {
        if k >= items[n - 1].start {
            assert(items[n - 1].start <= k <= items[n - 1].end);
        } else {
            assert(!is_media(items, n - 1, k)) by {
                if is_media(items, n - 1, k) {
                    let i = choose|i: int|
                        0 <= i < n - 1 && #[trigger] items[i].start <= k <= items[i].end;
                    assert(items[i].start <= k <= items[i].end);
                }
            }
            law_text_follows(len, items, merge, n - 1, axis, other, j, k);
        }
    }
}

/// Different tokens of one item differ on some axis.
pub proof fn law_image_tokens_differ(items: Seq<MropeItem>, merge: int, n: int, j: int, k: int)
    requires
        0 < n <= items.len(),
        merge > 0,
        items[n - 1].span_matches(merge),
        items[n - 1].start <= j < k <= items[n - 1].end,
    ensures
        exists|axis: int|
            0 <= axis < 3 && #[trigger] position(items, merge, n, axis, j) != position(
                items,
                merge,
                n,
                axis,
                k,
            ),
{
    let item = items[n - 1];
    let rows = item.rows(merge);
    let columns = item.columns(merge);
    vstd::arithmetic::div_mod::lemma_div_pos_is_pos(item.grid@[1] as int, merge);
    vstd::arithmetic::div_mod::lemma_div_pos_is_pos(item.grid@[2] as int, merge);
    lemma_dimensions(item.frames(), rows, columns);
    let a = j - item.start;
    let b = k - item.start;
    if forall|axis: int|
        0 <= axis < 3 ==> #[trigger] position(items, merge, n, axis, j) == position(
            items,
            merge,
            n,
            axis,
            k,
        ) {
        assert(position(items, merge, n, 0, j) == position(items, merge, n, 0, k));
        assert(position(items, merge, n, 1, j) == position(items, merge, n, 1, k));
        assert(position(items, merge, n, 2, j) == position(items, merge, n, 2, k));
        vstd::arithmetic::div_mod::lemma_div_denominator(a, columns, rows);
        vstd::arithmetic::div_mod::lemma_div_denominator(b, columns, rows);
        vstd::arithmetic::mul::lemma_mul_is_commutative(columns, rows);
        vstd::arithmetic::div_mod::lemma_fundamental_div_mod(a, columns);
        vstd::arithmetic::div_mod::lemma_fundamental_div_mod(b, columns);
        vstd::arithmetic::div_mod::lemma_fundamental_div_mod(a / columns, rows);
        vstd::arithmetic::div_mod::lemma_fundamental_div_mod(b / columns, rows);
        assert(false);
    }
}

/// Numbering resumes behind the prompt's largest position: the number of
/// positions used is what text and item extents add up to, never more than
/// the number of tokens, so the offset of generated tokens is not positive.
pub proof fn law_delta(
    pos: Seq<i64>,
    delta: int,
    len: int,
    items: Seq<MropeItem>,
    merge: int,
)
    requires
        mrope_error(len, items, merge) is None,
        0 <= merge,
        are_positions(len, items, merge, pos, delta),
    ensures
        delta + len == next_position(items, merge, items.len() as int) + (len - cursor(
            items,
            items.len() as int,
        )),
        delta <= 0,
        forall|i: int| 0 <= i < pos.len() ==> 0 <= #[trigger] pos[i] < len,
{
    let n = items.len() as int;
    let total = next_position(items, merge, n) + (len - cursor(items, n));
    lemma_next_position_bounds(len, items, merge, n);
    lemma_positions_bounded(pos, len, items, merge);
    lemma_peak(pos);
    if len > 0 {
        let last = len - 1;
        let axis = lemma_last_token(len, items, merge);
        assert(row(pos, len, axis, last) == total - 1);
        let i = if axis == 0 {
            last
        } else if axis == 1 {
            len + last
        } else {
            2 * len + last
        };
        assert(0 <= i < pos.len());
        assert(row(pos, len, axis, last) == pos[i]);
        assert(pos[i] == total - 1);
        let j = choose|j: int| 0 <= j < pos.len() && #[trigger] pos[j] == peak(pos);
        let axis_j = if j < len {
            0int
        } else if j < 2 * len {
            1
        } else {
            2
        };
        let k = if j < len {
            j
        } else if j < 2 * len {
            j - len
        } else {
            j - 2 * len
        };
        assert(row(pos, len, axis_j, k) == pos[j]);
        lemma_position_bounds(len, items, merge, n, axis_j, k);
    }
}

/// The last token of a prompt has the largest position on some axis.
proof fn lemma_last_token(len: int, items: Seq<MropeItem>, merge: int) -> (axis: int)
    requires
        len > 0,
        merge > 0,
        placement_error(len, items, merge, items.len() as int) is None,
    ensures
        0 <= axis < 3,
        position(items, merge, items.len() as int, axis, len - 1) == next_position(
            items,
            merge,
            items.len() as int,
        ) + (len - cursor(items, items.len() as int)) - 1,
{
    let n = items.len() as int;
    lemma_next_position_bounds(len, items, merge, n);
    if n > 0 && len == cursor(items, n) {
        let item = items[n - 1];
        let t = item.frames();
        let rows = item.rows(merge);
        let columns = item.columns(merge);
        vstd::arithmetic::div_mod::lemma_div_pos_is_pos(item.grid@[1] as int, merge);
        vstd::arithmetic::div_mod::lemma_div_pos_is_pos(item.grid@[2] as int, merge);
        lemma_dimensions(t, rows, columns);
        lemma_cell(t - 1, rows - 1, columns - 1, rows, columns);
        assert(((t - 1) * rows + (rows - 1)) * columns + (columns - 1) == t * rows * columns - 1)
            by (nonlinear_arith);
        if item.extent(merge) == t {
            0
        } else if item.extent(merge) == rows {
            1
        } else {
            2
        }
    } else {
        0
    }
}

}
