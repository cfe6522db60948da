//! Where the tokens of a prompt go when its media items are put in.
use crate::common::token_layout::{apply_layout, layout_by_placeholder, ExpandedPrompt};
use crate::pipeline::{Segment, TokenLayout, TokenPattern};
use vstd::prelude::*;

verus! {

/// The tokens that a segment becomes.
pub open spec fn width(segment: Segment) -> int {
    match segment {
        Segment::Text { start, end } => end - start,
        Segment::Media { item, pattern: TokenPattern::Repeat { id, n } } => n as int,
    }
}

/// The tokens of the prompt that a segment stands for.
pub open spec fn prompt_width(segment: Segment) -> int {
    match segment {
        Segment::Text { start, end } => end - start,
        Segment::Media { .. } => 1,
    }
}

/// Where segment `k` begins in the expanded prompt.
pub open spec fn begins(segments: Seq<Segment>, k: int) -> int
    decreases k,
{
    if k <= 0 {
        0
    } else {
        begins(segments, k - 1) + width(segments[k - 1])
    }
}

/// Where segment `k` begins in the prompt.
pub open spec fn begins_in_prompt(segments: Seq<Segment>, k: int) -> int
    decreases k,
{
    if k <= 0 {
        0
    } else {
        begins_in_prompt(segments, k - 1) + prompt_width(segments[k - 1])
    }
}

/// The media items before segment `k`.
pub open spec fn items_before(segments: Seq<Segment>, k: int) -> int
    decreases k,
{
    if k <= 0 {
        0
    } else if segments[k - 1] is Media {
        items_before(segments, k - 1) + 1
    } else {
        items_before(segments, k - 1)
    }
}

/// Whether segment `k` can be put behind the ones before it.
pub open spec fn fits(ids: Seq<i32>, segments: Seq<Segment>, k: int) -> bool {
    match segments[k] {
        Segment::Text { start, end } => start <= end <= ids.len(),
        Segment::Media { item, pattern: TokenPattern::Repeat { id, n } } => {
            &&& item == items_before(segments, k)
            &&& n >= 1
            &&& begins(segments, k) + n <= 0x1_0000_0000
        },
    }
}

/// Tokens and ranges of the first `n` segments, segment by segment.
proof fn lemma_expanded(ids: Seq<i32>, segments: Seq<Segment>, n: int)
    requires
        0 <= n <= segments.len(),
        forall|k: int|
            0 <= k < n ==> #[trigger] crate::common::token_layout::segment_fits(ids, segments, k),
    ensures
        crate::common::token_layout::tokens(ids, segments, n).len() == begins(segments, n),
        crate::common::token_layout::ranges(ids, segments, n).len() == items_before(segments, n),
        forall|k: int, j: int|
            0 <= k < n && 0 <= j < width(segments[k])
                ==> #[trigger] crate::common::token_layout::tokens(ids, segments, n)[begins(
                segments,
                k,
            ) + j] == (match segments[k] {
                Segment::Text { start, end } => ids[start + j],
                Segment::Media { item, pattern: TokenPattern::Repeat { id, n } } => id,
            }),
        forall|k: int|
            0 <= k < n ==> (#[trigger] segments[k] matches Segment::Media { item, pattern } ==> {
                &&& item == items_before(segments, k) < items_before(segments, n)
                &&& crate::common::token_layout::ranges(ids, segments, n)[item as int].0 == begins(
                    segments,
                    k,
                )
                &&& crate::common::token_layout::ranges(ids, segments, n)[item as int].1 == begins(
                    segments,
                    k,
                ) + width(segments[k]) - 1
            }),
    decreases n,
{
    if n > 0 {
        lemma_expanded(ids, segments, n - 1);
        let last = segments[n - 1];
        assert(crate::common::token_layout::segment_fits(ids, segments, n - 1));
        let before = crate::common::token_layout::tokens(ids, segments, n - 1);
        let all = crate::common::token_layout::tokens(ids, segments, n);
        assert forall|k: int, j: int|
            0 <= k < n && 0 <= j < width(segments[k]) implies #[trigger] all[begins(segments, k)
            + j] == (match segments[k] {
            Segment::Text { start, end } => ids[start + j],
            Segment::Media { item, pattern: TokenPattern::Repeat { id, n } } => id,
        }) by {
            lemma_begins(ids, segments, k, n - 1);
            if k < n - 1 {
                lemma_begins(ids, segments, k + 1, n - 1);
                assert(before[begins(segments, k) + j] == all[begins(segments, k) + j]);
            }
        }
        let earlier = crate::common::token_layout::ranges(ids, segments, n - 1);
        let offsets = crate::common::token_layout::ranges(ids, segments, n);
        assert forall|k: int| 0 <= k < n implies (
        #[trigger] segments[k] matches Segment::Media { item, pattern } ==> {
            &&& item == items_before(segments, k) < items_before(segments, n)
            &&& offsets[item as int].0 == begins(segments, k)
            &&& offsets[item as int].1 == begins(segments, k) + width(segments[k]) - 1
        }) by {
            if k < n - 1 {
                if let Segment::Media { item, pattern } = segments[k] {
                    assert(offsets[item as int] == earlier[item as int]);
                }
            }
        }
    }
}

/// Segments begin one behind the other.
proof fn lemma_begins(ids: Seq<i32>, segments: Seq<Segment>, k: int, n: int)
    requires
        0 <= k,
        n <= segments.len(),
        forall|i: int|
            0 <= i < n ==> #[trigger] crate::common::token_layout::segment_fits(ids, segments, i),
    ensures
        0 <= begins(segments, k) || k > n,
        k <= n ==> begins(segments, k) <= begins(segments, n),
    decreases n - k, k,
{
    if k > 0 && k <= n {
        lemma_begins(ids, segments, k - 1, k - 1);
        assert(crate::common::token_layout::segment_fits(ids, segments, k - 1));
    }
    if k < n {
        lemma_begins(ids, segments, k, n - 1);
        assert(crate::common::token_layout::segment_fits(ids, segments, n - 1));
    }
}

/// The contract's bound on segments.
proof fn lemma_fit(ids: Seq<i32>, segments: Seq<Segment>, n: int)
    requires
        0 <= n <= segments.len(),
    ensures
        (forall|k: int|
            0 <= k < n ==> #[trigger] crate::common::token_layout::segment_fits(ids, segments, k))
            <==> (forall|k: int| 0 <= k < n ==> #[trigger] fits(ids, segments, k)),
    decreases n,
{
    if n > 0 {
        lemma_fit(ids, segments, n - 1);
        if forall|k: int|
            0 <= k < n - 1 ==> #[trigger] crate::common::token_layout::segment_fits(
                ids,
                segments,
                k,
            ) {
            lemma_expanded(ids, segments, n - 1);
            assert(crate::common::token_layout::segment_fits(ids, segments, n - 1) <==> fits(
                ids,
                segments,
                n - 1,
            ));
        }
        if forall|k: int|
            0 <= k < n ==> #[trigger] crate::common::token_layout::segment_fits(ids, segments, k) {
            assert(crate::common::token_layout::segment_fits(ids, segments, n - 1));
        }
        if forall|k: int| 0 <= k < n ==> #[trigger] fits(ids, segments, k) {
            assert(fits(ids, segments, n - 1));
        }
    }
}

/// A layout is applied exactly where text lies in the prompt, media items come in order,
/// each with at least one token and 32-bit indices, and there are as many as expected.
pub proof fn law_layout_applies(ids: Seq<i32>, segments: Seq<Segment>, items: int)
    ensures
        crate::common::token_layout::layout_applies(ids, segments, items) <==> {
            &&& forall|k: int| 0 <= k < segments.len() ==> #[trigger] fits(ids, segments, k)
            &&& items_before(segments, segments.len() as int) == items
        },
{
    let n = segments.len() as int;
    lemma_fit(ids, segments, n);
    if forall|k: int|
        0 <= k < n ==> #[trigger] crate::common::token_layout::segment_fits(ids, segments, k) {
        lemma_expanded(ids, segments, n);
    }
}

/// Whether the segments stand one behind the other in the expanded prompt, text with the
/// tokens of its range and media with copies of one token, with nothing else there, and
/// the range of each media item is where its segment stands.
pub open spec fn expands(
    ids: Seq<i32>,
    segments: Seq<Segment>,
    items: int,
    expanded: Seq<i32>,
    offsets: Seq<(u32, u32)>,
) -> bool {
    let n = segments.len() as int;
    &&& expanded.len() == begins(segments, n)
    &&& offsets.len() == items
    &&& forall|k: int, j: int|
        0 <= k < n && 0 <= j < width(segments[k]) ==> #[trigger] expanded[begins(segments, k) + j]
            == (match segments[k] {
            Segment::Text { start, end } => ids[start + j],
            Segment::Media { item, pattern: TokenPattern::Repeat { id, n } } => id,
        })
    &&& forall|k: int|
        0 <= k < n ==> (#[trigger] segments[k] matches Segment::Media { item, pattern } ==> {
            &&& item == items_before(segments, k) < items
            &&& offsets[item as int].0 == begins(segments, k)
            &&& offsets[item as int].1 == begins(segments, k) + width(segments[k]) - 1
        })
}

/// Applying a layout expands its segments.
pub proof fn law_expanded_prompt(ids: Seq<i32>, segments: Seq<Segment>, items: int)
    requires
        crate::common::token_layout::layout_applies(ids, segments, items),
    ensures
        expands(
            ids,
            segments,
            items,
            crate::common::token_layout::tokens(ids, segments, segments.len() as int),
            crate::common::token_layout::ranges(ids, segments, segments.len() as int),
        ),
{
    lemma_expanded(ids, segments, segments.len() as int);
}

/// Whether segment `k` is cut out of the prompt where it belongs: text between
/// placeholders, as long as it can be, or the next media item with its tokens in place
/// of a placeholder.
pub open spec fn cut_out(
    ids: Seq<i32>,
    placeholder: i32,
    counts: Seq<usize>,
    segments: Seq<Segment>,
    k: int,
) -> bool {
    let at = begins_in_prompt(segments, k);
    match segments[k] {
        Segment::Text { start, end } => {
            &&& at == start < end <= ids.len()
            &&& forall|j: int| start <= j < end ==> #[trigger] ids[j] != placeholder
            &&& k + 1 < segments.len() ==> segments[k + 1] is Media
        },
        Segment::Media { item, pattern: TokenPattern::Repeat { id, n } } => {
            &&& 0 <= at < ids.len()
            &&& ids[at] == placeholder
            &&& item == items_before(segments, k) < counts.len()
            &&& id == placeholder
            &&& n == counts[items_before(segments, k)]
        },
    }
}

/// What stands before a segment does not depend on what follows.
proof fn lemma_prefix(a: Seq<Segment>, b: Seq<Segment>, k: int)
    requires
        forall|i: int| 0 <= i < k ==> a[i] == b[i],
    ensures
        begins_in_prompt(a, k) == begins_in_prompt(b, k),
        items_before(a, k) == items_before(b, k),
    decreases k,
{
    if k > 0 {
        lemma_prefix(a, b, k - 1);
    }
}

/// A segment behind others that are cut out.
proof fn lemma_cut_out(
    ids: Seq<i32>,
    placeholder: i32,
    counts: Seq<usize>,
    segments: Seq<Segment>,
    segment: Segment,
)
    requires
        forall|k: int|
            0 <= k < segments.len() ==> #[trigger] cut_out(ids, placeholder, counts, segments, k),
        segments.len() > 0 && segments.last() is Text ==> segment is Media,
        match segment {
            Segment::Text { start, end } => {
                &&& begins_in_prompt(segments, segments.len() as int) == start < end <= ids.len()
                &&& forall|j: int| start <= j < end ==> #[trigger] ids[j] != placeholder
            },
            Segment::Media { item, pattern: TokenPattern::Repeat { id, n } } => {
                &&& 0 <= begins_in_prompt(segments, segments.len() as int) < ids.len()
                &&& ids[begins_in_prompt(segments, segments.len() as int)] == placeholder
                &&& item == items_before(segments, segments.len() as int) < counts.len()
                &&& id == placeholder
                &&& n == counts[item as int]
            },
        },
    ensures
        ({
            let longer = segments.push(segment);
            let n = segments.len() as int;
            &&& forall|k: int|
                0 <= k < longer.len() ==> #[trigger] cut_out(ids, placeholder, counts, longer, k)
            &&& begins_in_prompt(longer, n + 1) == begins_in_prompt(segments, n) + prompt_width(
                segment,
            )
            &&& items_before(longer, n + 1) == items_before(segments, n) + (if segment is Media {
                1int
            } else {
                0
            })
        }),
{
    let longer = segments.push(segment);
    let n = segments.len() as int;
    lemma_prefix(segments, longer, n);
    assert forall|k: int| 0 <= k < longer.len() implies #[trigger] cut_out(
        ids,
        placeholder,
        counts,
        longer,
        k,
    ) by {
        lemma_prefix(segments, longer, k);
        if k < n {
            assert(cut_out(ids, placeholder, counts, segments, k));
            assert(longer[k] == segments[k]);
            if k + 1 < n {
                assert(longer[k + 1] == segments[k + 1]);
            } else {
                assert(segments.last() == segments[k]);
            }
        }
    }
}

/// The segments up to a placeholder, and the text behind it.
proof fn lemma_media_segments(ids: Seq<i32>, placeholder: i32, counts: Seq<usize>, n: int)
    requires
        0 <= n <= ids.len() <= usize::MAX,
        crate::common::token_layout::seen(ids, placeholder, ids.len() as int) <= counts.len(),
    ensures
        ({
            let segments = crate::common::token_layout::media_segments(
                ids,
                placeholder,
                counts,
                n,
            );
            let start = crate::common::token_layout::text_start(ids, placeholder, n);
            &&& forall|k: int|
                0 <= k < segments.len() ==> #[trigger] cut_out(
                    ids,
                    placeholder,
                    counts,
                    segments,
                    k,
                )
            &&& segments.len() > 0 ==> segments.last() is Media
            &&& begins_in_prompt(segments, segments.len() as int) == start
            &&& items_before(segments, segments.len() as int) == crate::common::token_layout::seen(
                ids,
                placeholder,
                n,
            )
            &&& 0 <= start <= n
            &&& forall|j: int| start <= j < n ==> #[trigger] ids[j] != placeholder
        }),
    decreases n,
{
    if n > 0 {
        lemma_media_segments(ids, placeholder, counts, n - 1);
        let before = crate::common::token_layout::media_segments(ids, placeholder, counts, n - 1);
        let start = crate::common::token_layout::text_start(ids, placeholder, n - 1);
        if ids[n - 1] == placeholder {
            crate::common::token_layout::lemma_seen_monotone(
                ids,
                placeholder,
                n,
                ids.len() as int,
            );
            crate::common::token_layout::lemma_seen_bounds(ids, placeholder, n - 1);
            let item = crate::common::token_layout::seen(ids, placeholder, n - 1);
            let texted = crate::common::token_layout::with_text(before, start, n - 1);
            if start < n - 1 {
                lemma_cut_out(
                    ids,
                    placeholder,
                    counts,
                    before,
                    Segment::Text { start: start as usize, end: (n - 1) as usize },
                );
            }
            lemma_cut_out(
                ids,
                placeholder,
                counts,
                texted,
                Segment::Media {
                    item: item as usize,
                    pattern: TokenPattern::Repeat { id: placeholder, n: counts[item] },
                },
            );
        }
    }
}

/// Placeholders are counted as often as they occur.
proof fn lemma_seen(ids: Seq<i32>, placeholder: i32, n: int)
    requires
        0 <= n <= ids.len(),
    ensures
        crate::common::token_layout::seen(ids, placeholder, n) == ids.take(
            n,
        ).to_multiset().count(placeholder),
    decreases n,
{
    broadcast use vstd::seq_lib::group_to_multiset_ensures;

    if n > 0 {
        lemma_seen(ids, placeholder, n - 1);
        assert(ids.take(n) =~= ids.take(n - 1).push(ids[n - 1]));
    } else {
        assert(ids.take(n) =~= Seq::<i32>::empty());
        assert(ids.take(n).to_multiset().len() == 0);
    }
}

/// Whether a prompt is laid out exactly where it has as many placeholders as there are
/// media items, with segments that cover the whole prompt in order, each cut out where it
/// belongs, and both numbers are reported otherwise.
pub open spec fn lays_out(
    ids: Seq<i32>,
    placeholder: i32,
    counts: Seq<usize>,
    result: Result<TokenLayout, String>,
) -> bool {
    let found = ids.to_multiset().count(placeholder);
    match result {
        Ok(layout) => {
            let segments = layout.segments@;
            &&& found == counts.len()
            &&& forall|k: int|
                0 <= k < segments.len() ==> #[trigger] cut_out(
                    ids,
                    placeholder,
                    counts,
                    segments,
                    k,
                )
            &&& begins_in_prompt(segments, segments.len() as int) == ids.len()
            &&& items_before(segments, segments.len() as int) == counts.len()
        },
        Err(e) => {
            &&& found != counts.len()
            &&& exists|a: Seq<char>, b: Seq<char>|
                {
                    &&& #[trigger] super::numerals::is_numeral(a, found as int)
                    &&& #[trigger] super::numerals::is_numeral(b, counts.len() as int)
                    &&& e@ == "token layout: "@ + a + " placeholder tokens for "@ + b
                        + " media items"@
                }
        },
    }
}

/// Laying a prompt out covers all of it.
pub proof fn law_layout_covers_the_prompt(
    ids: Seq<i32>,
    placeholder: i32,
    counts: Seq<usize>,
    result: Result<TokenLayout, String>,
)
    requires
        ids.len() <= usize::MAX,
        crate::common::token_layout::is_layout(ids, placeholder, counts, result),
    ensures
        lays_out(ids, placeholder, counts, result),
{
    let len = ids.len() as int;
    lemma_seen(ids, placeholder, len);
    assert(ids.take(len) =~= ids);
    super::numerals::law_numerals_read_back(ids.to_multiset().count(placeholder));
    super::numerals::law_numerals_read_back(counts.len());
    if result is Err {
        let a = crate::text::decimal(ids.to_multiset().count(placeholder));
        let b = crate::text::decimal(counts.len());
        assert(super::numerals::is_numeral(a, ids.to_multiset().count(placeholder) as int));
        assert(super::numerals::is_numeral(b, counts.len() as int));
    }
    if let Ok(layout) = result {
        lemma_media_segments(ids, placeholder, counts, len);
        let media = crate::common::token_layout::media_segments(ids, placeholder, counts, len);
        let start = crate::common::token_layout::text_start(ids, placeholder, len);
        if start < len {
            lemma_cut_out(
                ids,
                placeholder,
                counts,
                media,
                Segment::Text { start: start as usize, end: len as usize },
            );
        }
    }
}

/// What laying out a prompt gives.
pub proof fn law_layout_by_placeholder(
    ids: &[i32],
    placeholder: i32,
    counts: &[usize],
    result: Result<TokenLayout, String>,
)
    requires
        ids@.len() <= usize::MAX,
        call_ensures(layout_by_placeholder, (ids, placeholder, counts), result),
    ensures
        lays_out(ids@, placeholder, counts@, result),
{
    law_layout_covers_the_prompt(ids@, placeholder, counts@, result);
}

/// What applying a layout gives: the expanded prompt exactly where all segments fit and
/// there are as many media items as expected, and one message otherwise.
pub proof fn law_apply_layout(
    ids: &[i32],
    layout: &TokenLayout,
    items: usize,
    result: Result<ExpandedPrompt, String>,
)
    requires
        call_ensures(apply_layout, (ids, layout, items), result),
    ensures
        result is Ok <==> {
            let segments = layout.segments@;
            &&& forall|k: int| 0 <= k < segments.len() ==> #[trigger] fits(ids@, segments, k)
            &&& items_before(segments, segments.len() as int) == items
        },
        result matches Ok(expanded) ==> expands(
            ids@,
            layout.segments@,
            items as int,
            expanded.input_ids@,
            expanded.offsets@,
        ),
        result matches Err(e) ==> e@ == "token layout: segments do not match the prompt"@,
{
    law_layout_applies(ids@, layout.segments@, items as int);
    if result is Ok {
        law_expanded_prompt(ids@, layout.segments@, items as int);
    }
}

}
