//! Token layout and positions.
use sglang_mm_core::common::mrope::{mrope_image_only, MropeItem};
use sglang_mm_core::common::token_layout::{apply_layout, layout_by_placeholder};
use sglang_mm_core::pipeline::{Segment, TokenLayout, TokenPattern};

fn item(start: u32, end: u32, grid: [u32; 3]) -> MropeItem {
    MropeItem { start, end, grid }
}

#[test]
fn placements_are_checked_in_order() {
    let refused = |len: usize, items: &[MropeItem], merge: usize| {
        mrope_image_only(len, items, merge).unwrap_err()
    };
    assert_eq!(
        refused(3, &[], 0),
        "mrope: merge_size must be positive"
    );
    assert_eq!(
        refused(4, &[item(2, 4, [1, 2, 6])], 2),
        "mrope: item range (2,4) out of order/bounds"
    );
    assert_eq!(
        refused(9, &[item(2, 2, [1, 2, 2]), item(2, 3, [1, 2, 4])], 2),
        "mrope: item range (2,3) out of order/bounds"
    );
    assert_eq!(
        refused(9, &[item(2, 3, [1, 2, 2])], 2),
        "mrope: token span does not match grid"
    );
}

/// Generated text goes on behind the largest position.
#[test]
fn delta_is_the_gap_to_the_largest_position() {
    let items = [item(1, 4, [1, 4, 4]), item(6, 7, [2, 2, 2])];
    let (pos, delta) = mrope_image_only(9, &items, 2).unwrap();
    let top = *pos.iter().max().unwrap();
    assert_eq!(delta, top + 1 - 9);
    // Rows: text 0, image from 1, text 3, image from 4, text 6.
    assert_eq!(pos[0..9], [0, 1, 1, 1, 1, 3, 4, 5, 6]);
    assert_eq!(pos[9..18], [0, 1, 1, 2, 2, 3, 4, 4, 6]);
    assert_eq!(pos[18..27], [0, 1, 2, 1, 2, 3, 4, 4, 6]);
}

#[test]
fn text_alone_counts_up() {
    let (pos, delta) = mrope_image_only(3, &[], 2).unwrap();
    assert_eq!(pos, vec![0, 1, 2, 0, 1, 2, 0, 1, 2]);
    assert_eq!(delta, 0);
    let (pos, delta) = mrope_image_only(0, &[], 1).unwrap();
    assert_eq!(pos, Vec::<i64>::new());
    assert_eq!(delta, 0);
}

#[test]
fn placeholders_and_items_must_agree() {
    assert_eq!(
        layout_by_placeholder(&[1, 2, 1], 1, &[4]).unwrap_err(),
        "token layout: 2 placeholder tokens for 1 media items"
    );
    let layout = layout_by_placeholder(&[1, 2, 3, 1], 1, &[2, 1]).unwrap();
    let repeat = |item: usize, n: usize| Segment::Media {
        item,
        pattern: TokenPattern::Repeat { id: 1, n },
    };
    assert_eq!(
        layout.segments,
        vec![repeat(0, 2), Segment::Text { start: 1, end: 3 }, repeat(1, 1)]
    );
    let expanded = apply_layout(&[1, 2, 3, 1], &layout, 2).unwrap();
    assert_eq!(expanded.input_ids, vec![1, 1, 2, 3, 1]);
    assert_eq!(expanded.offsets, vec![(0, 1), (4, 4)]);
}

#[test]
fn layouts_that_do_not_match_are_refused() {
    let message = "token layout: segments do not match the prompt";
    let outside = TokenLayout {
        segments: vec![Segment::Text { start: 0, end: 3 }],
    };
    assert_eq!(apply_layout(&[1, 2], &outside, 0).unwrap_err(), message);
    let swapped = TokenLayout {
        segments: vec![Segment::Media {
            item: 1,
            pattern: TokenPattern::Repeat { id: 1, n: 1 },
        }],
    };
    assert_eq!(apply_layout(&[1], &swapped, 1).unwrap_err(), message);
    let empty = TokenLayout {
        segments: vec![Segment::Media {
            item: 0,
            pattern: TokenPattern::Repeat { id: 1, n: 0 },
        }],
    };
    assert_eq!(apply_layout(&[1], &empty, 1).unwrap_err(), message);
    let missing = TokenLayout { segments: vec![] };
    assert_eq!(apply_layout(&[1], &missing, 1).unwrap_err(), message);
}
