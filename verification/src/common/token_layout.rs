//! Expansion of placeholder tokens into the tokens of media items.
use crate::pipeline::{Segment, TokenLayout, TokenPattern};
use crate::text::decimal_text;
use vstd::prelude::*;
use vstd::string::StringExecFns;

verus! {

/// Placeholders among the first `n` tokens.
pub open spec fn seen(ids: Seq<i32>, placeholder: i32, n: int) -> int
    decreases n,
{
    if n <= 0 {
        0
    } else if ids[n - 1] == placeholder {
        seen(ids, placeholder, n - 1) + 1
    } else {
        seen(ids, placeholder, n - 1)
    }
}

/// The token behind the last placeholder among the first `n` tokens.
pub open spec fn text_start(ids: Seq<i32>, placeholder: i32, n: int) -> int
    decreases n,
{
    if n <= 0 {
        0
    } else if ids[n - 1] == placeholder {
        n
    } else {
        text_start(ids, placeholder, n - 1)
    }
}

/// `segments` and the text from `start` up to `end`, unless that is empty.
pub open spec fn with_text(segments: Seq<Segment>, start: int, end: int) -> Seq<Segment> {
    if start < end {
        segments.push(Segment::Text { start: start as usize, end: end as usize })
    } else {
        segments
    }
}

/// The segments up to the last placeholder among the first `n` tokens.
pub open spec fn media_segments(
    ids: Seq<i32>,
    placeholder: i32,
    counts: Seq<usize>,
    n: int,
) -> Seq<Segment>
    decreases n,
{
    if n <= 0 {
        Seq::empty()
    } else if ids[n - 1] == placeholder {
        let item = seen(ids, placeholder, n - 1);
        with_text(
            media_segments(ids, placeholder, counts, n - 1),
            text_start(ids, placeholder, n - 1),
            n - 1,
        ).push(
            Segment::Media {
                item: item as usize,
                pattern: TokenPattern::Repeat { id: placeholder, n: counts[item] },
            },
        )
    } else {
        media_segments(ids, placeholder, counts, n - 1)
    }
}

/// The segments of a prompt: runs of text, and one media item per placeholder.
pub open spec fn prompt_segments(
    ids: Seq<i32>,
    placeholder: i32,
    counts: Seq<usize>,
) -> Seq<Segment> {
    with_text(
        media_segments(ids, placeholder, counts, ids.len() as int),
        text_start(ids, placeholder, ids.len() as int),
        ids.len() as int,
    )
}

/// The message for a prompt with the wrong number of placeholders.
pub open spec fn count_mismatch(found: nat, expected: nat) -> Seq<char> {
    "token layout: "@ + crate::text::decimal(found) + " placeholder tokens for "@
        + crate::text::decimal(expected) + " media items"@
}

/// Whether `result` is the layout of a prompt, or its refusal: there must be as
/// many placeholders as media items.
pub open spec fn is_layout(
    ids: Seq<i32>,
    placeholder: i32,
    counts: Seq<usize>,
    result: Result<TokenLayout, String>,
) -> bool {
    let found = seen(ids, placeholder, ids.len() as int);
    match result {
        Ok(layout) => found == counts.len() && layout.segments@ == prompt_segments(
            ids,
            placeholder,
            counts,
        ),
        Err(e) => found != counts.len() && e@ == count_mismatch(found as nat, counts.len()),
    }
}

pub proof fn lemma_seen_bounds(ids: Seq<i32>, placeholder: i32, n: int)
    requires
        0 <= n,
    ensures
        0 <= seen(ids, placeholder, n) <= n,
        0 <= text_start(ids, placeholder, n) <= n,
    decreases n,
{
    if n > 0 {
        lemma_seen_bounds(ids, placeholder, n - 1);
    }
}

pub proof fn lemma_seen_monotone(ids: Seq<i32>, placeholder: i32, n: int, m: int)
    requires
        n <= m,
    ensures
        seen(ids, placeholder, n) <= seen(ids, placeholder, m),
    decreases m - n,
{
    if n < m {
        lemma_seen_monotone(ids, placeholder, n, m - 1);
    }
}

fn count_placeholders(ids: &[i32], placeholder: i32) -> (found: usize)
    ensures
        found == seen(ids@, placeholder, ids@.len() as int),
{
    let mut found: usize = 0;
    let mut i: usize = 0;
    let len: usize = ids.len();
    while i < len
        invariant
            i <= len == ids@.len(),
            found <= i,
            found == seen(ids@, placeholder, i as int),
        decreases len - i,
    {
        if ids[i] == placeholder {
            found = found + 1;
        }
        i = i + 1;
    }
    found
}

/// The layout of a prompt in which each occurrence of `placeholder` stands for
/// the next media item, which has `counts[item]` tokens.
pub fn layout_by_placeholder(
    input_ids: &[i32],
    placeholder: i32,
    counts: &[usize],
) -> (result: Result<TokenLayout, String>)
    ensures
        is_layout(input_ids@, placeholder, counts@, result),
{
    let found: usize = count_placeholders(input_ids, placeholder);
    if found != counts.len() {
        let mut s = String::from_str("token layout: ");
        s.append(decimal_text(found).as_str());
        s.append(" placeholder tokens for ");
        s.append(decimal_text(counts.len()).as_str());
        s.append(" media items");
        return Err(s);
    }
    let len: usize = input_ids.len();
    let mut segments: Vec<Segment> = Vec::new();
    let mut start: usize = 0;
    let mut item: usize = 0;
    let mut i: usize = 0;
    while i < len
        invariant
            i <= len == input_ids@.len(),
            start == text_start(input_ids@, placeholder, i as int),
            start <= i,
            item == seen(input_ids@, placeholder, i as int),
            seen(input_ids@, placeholder, len as int) == counts@.len(),
            item <= i,
            segments@ == media_segments(input_ids@, placeholder, counts@, i as int),
        decreases len - i,
    {
        if input_ids[i] == placeholder {
            proof {
                lemma_seen_monotone(input_ids@, placeholder, i + 1, len as int);
            }
            if start < i {
                segments.push(Segment::Text { start, end: i });
            }
            segments.push(
                Segment::Media {
                    item,
                    pattern: TokenPattern::Repeat { id: placeholder, n: counts[item] },
                },
            );
            item = item + 1;
            start = i + 1;
        }
        i = i + 1;
    }
    if start < len {
        segments.push(Segment::Text { start, end: len });
    }
    Ok(TokenLayout { segments })
}

/// An expanded prompt, and the inclusive token range of each media item.
#[derive(Debug, PartialEq, Eq)]
pub struct ExpandedPrompt {
    pub input_ids: Vec<i32>,
    pub offsets: Vec<(u32, u32)>,
}

/// `n` copies of a token.
pub open spec fn copies(id: i32, n: int) -> Seq<i32> {
    Seq::new(n as nat, |i: int| id)
}

/// The tokens of a segment.
pub open spec fn segment_tokens(ids: Seq<i32>, segment: Segment) -> Seq<i32> {
    match segment {
        Segment::Text { start, end } => ids.subrange(start as int, end as int),
        Segment::Media { item, pattern: TokenPattern::Repeat { id, n } } => copies(id, n as int),
    }
}

/// The tokens of the first `k` segments.
pub open spec fn tokens(ids: Seq<i32>, segments: Seq<Segment>, k: int) -> Seq<i32>
    decreases k,
{
    if k <= 0 {
        Seq::empty()
    } else {
        tokens(ids, segments, k - 1) + segment_tokens(ids, segments[k - 1])
    }
}

/// The token ranges of the media items among the first `k` segments.
pub open spec fn ranges(ids: Seq<i32>, segments: Seq<Segment>, k: int) -> Seq<(u32, u32)>
    decreases k,
{
    if k <= 0 {
        Seq::empty()
    } else {
        match segments[k - 1] {
            Segment::Text { .. } => ranges(ids, segments, k - 1),
            Segment::Media { item, pattern: TokenPattern::Repeat { id, n } } => {
                let first = tokens(ids, segments, k - 1).len();
                ranges(ids, segments, k - 1).push((first as u32, (first + n - 1) as u32))
            },
        }
    }
}

/// Whether segment `k` can be laid out behind the earlier ones: text lies in
/// the prompt, and media items come in order, each with at least one token and
/// a range of 32-bit indices.
pub open spec fn segment_fits(ids: Seq<i32>, segments: Seq<Segment>, k: int) -> bool {
    match segments[k] {
        Segment::Text { start, end } => start <= end <= ids.len(),
        Segment::Media { item, pattern: TokenPattern::Repeat { id, n } } => {
            &&& item == ranges(ids, segments, k).len()
            &&& 0 < n
            &&& tokens(ids, segments, k).len() + n - 1 <= u32::MAX
        },
    }
}

/// Whether a layout can be applied to a prompt with `items` media items.
pub open spec fn layout_applies(ids: Seq<i32>, segments: Seq<Segment>, items: int) -> bool {
    &&& forall|k: int| 0 <= k < segments.len() ==> #[trigger] segment_fits(ids, segments, k)
    &&& ranges(ids, segments, segments.len() as int).len() == items
}

/// Puts the expanded prompt together.
pub fn apply_layout(input_ids: &[i32], layout: &TokenLayout, items: usize) -> (result: Result<
    ExpandedPrompt,
    String,
>)
    ensures
        match result {
            Ok(expanded) => {
                let n = layout.segments@.len() as int;
                &&& layout_applies(input_ids@, layout.segments@, items as int)
                &&& expanded.input_ids@ == tokens(input_ids@, layout.segments@, n)
                &&& expanded.offsets@ == ranges(input_ids@, layout.segments@, n)
            },
            Err(e) => {
                &&& !layout_applies(input_ids@, layout.segments@, items as int)
                &&& e@ == "token layout: segments do not match the prompt"@
            },
        },
{
    let mut ids: Vec<i32> = Vec::new();
    let mut offsets: Vec<(u32, u32)> = Vec::new();
    let ghost segments = layout.segments@;
    let mut k: usize = 0;
    while k < layout.segments.len()
        invariant
            k <= segments.len(),
            segments == layout.segments@,
            forall|j: int| 0 <= j < k ==> #[trigger] segment_fits(input_ids@, segments, j),
            ids@ == tokens(input_ids@, segments, k as int),
            offsets@ == ranges(input_ids@, segments, k as int),
        decreases segments.len() - k,
    {
        proof {
            assert(segment_fits(input_ids@, segments, k as int) || !layout_applies(
                input_ids@,
                segments,
                items as int,
            ));
        }
        match layout.segments[k] {
            Segment::Text { start, end } => {
                if start > end || end > input_ids.len() {
                    return Err(
                        String::from_str("token layout: segments do not match the prompt"),
                    );
                }
                push_text(&mut ids, input_ids, start, end);
            },
            Segment::Media { item, pattern: TokenPattern::Repeat { id, n } } => {
                if item != offsets.len() || n == 0 || ids.len() > u32::MAX as usize || n - 1
                    > u32::MAX as usize - ids.len() {
                    return Err(
                        String::from_str("token layout: segments do not match the prompt"),
                    );
                }
                offsets.push((ids.len() as u32, (ids.len() + (n - 1)) as u32));
                push_copies(&mut ids, id, n);
            },
        }
        k = k + 1;
    }
    if offsets.len() != items {
        return Err(String::from_str("token layout: segments do not match the prompt"));
    }
    Ok(ExpandedPrompt { input_ids: ids, offsets })
}

fn push_text(ids: &mut Vec<i32>, input_ids: &[i32], start: usize, end: usize)
    requires
        start <= end <= input_ids@.len(),
    ensures
        final(ids)@ == old(ids)@ + input_ids@.subrange(start as int, end as int),
{
    let mut i: usize = start;
    proof {
        assert(ids@ + input_ids@.subrange(start as int, start as int) =~= ids@);
    }
    while i < end
        invariant
            start <= i <= end <= input_ids@.len(),
            ids@ == old(ids)@ + input_ids@.subrange(start as int, i as int),
        decreases end - i,
    {
        ids.push(input_ids[i]);
        proof {
            assert((old(ids)@ + input_ids@.subrange(start as int, i as int)).push(
                input_ids@[i as int],
            ) =~= old(ids)@ + input_ids@.subrange(start as int, i + 1));
        }
        i = i + 1;
    }
}

fn push_copies(ids: &mut Vec<i32>, id: i32, n: usize)
    ensures
        final(ids)@ == old(ids)@ + copies(id, n as int),
{
    let mut i: usize = 0;
    proof {
        assert(ids@ + copies(id, 0) =~= ids@);
    }
    while i < n
        invariant
            i <= n,
            ids@ == old(ids)@ + copies(id, i as int),
        decreases n - i,
    {
        ids.push(id);
        proof {
            assert((old(ids)@ + copies(id, i as int)).push(id) =~= old(ids)@ + copies(id, i + 1));
        }
        i = i + 1;
    }
}

/// The first `n` tokens of a prompt with each placeholder replaced by as many
/// copies as its media item has tokens.
pub open spec fn expand(ids: Seq<i32>, placeholder: i32, counts: Seq<usize>, n: int) -> Seq<i32>
    decreases n,
{
    if n <= 0 {
        Seq::empty()
    } else if ids[n - 1] == placeholder {
        expand(ids, placeholder, counts, n - 1) + copies(
            placeholder,
            counts[seen(ids, placeholder, n - 1)] as int,
        )
    } else {
        expand(ids, placeholder, counts, n - 1).push(ids[n - 1])
    }
}

proof fn lemma_expand_grows(
    ids: Seq<i32>,
    placeholder: i32,
    counts: Seq<usize>,
    n: int,
    m: int,
)
    requires
        n <= m,
    ensures
        expand(ids, placeholder, counts, n).len() <= expand(ids, placeholder, counts, m).len(),
    decreases m - n,
{
    if n < m {
        lemma_expand_grows(ids, placeholder, counts, n, m - 1);
    }
}

/// Tokens and ranges depend on earlier segments only.
proof fn lemma_same_prefix(ids: Seq<i32>, a: Seq<Segment>, b: Seq<Segment>, k: int)
    requires
        forall|i: int| 0 <= i < k ==> a[i] == b[i],
    ensures
        tokens(ids, a, k) == tokens(ids, b, k),
        ranges(ids, a, k) == ranges(ids, b, k),
    decreases k,
{
    if k > 0 {
        lemma_same_prefix(ids, a, b, k - 1);
    }
}

/// A sequence of segments that fit, and what they expand to.
spec fn lays_out(
    ids: Seq<i32>,
    segments: Seq<Segment>,
    expanded: Seq<i32>,
    items: int,
) -> bool {
    &&& forall|k: int| 0 <= k < segments.len() ==> #[trigger] segment_fits(ids, segments, k)
    &&& tokens(ids, segments, segments.len() as int) == expanded
    &&& ranges(ids, segments, segments.len() as int).len() == items
}

/// A segment that fits behind others extends their layout.
proof fn lemma_push_segment(
    ids: Seq<i32>,
    segments: Seq<Segment>,
    expanded: Seq<i32>,
    items: int,
    segment: Segment,
)
    requires
        lays_out(ids, segments, expanded, items),
        match segment {
            Segment::Text { start, end } => start <= end <= ids.len(),
            Segment::Media { item, pattern: TokenPattern::Repeat { id, n } } => item == items && 0
                < n && expanded.len() + n - 1 <= u32::MAX,
        },
    ensures
        lays_out(
            ids,
            segments.push(segment),
            expanded + segment_tokens(ids, segment),
            items + (if segment is Media {
                1int
            } else {
                0
            }),
        ),
        forall|i: int|
            0 <= i < items ==> #[trigger] ranges(
                ids,
                segments.push(segment),
                segments.len() as int + 1,
            )[i] == ranges(ids, segments, segments.len() as int)[i],
{
    let longer = segments.push(segment);
    let n = segments.len() as int;
    lemma_same_prefix(ids, segments, longer, n);
    assert forall|k: int| 0 <= k < longer.len() implies #[trigger] segment_fits(ids, longer, k) by {
        lemma_same_prefix(ids, segments, longer, k);
        if k < n {
            assert(segment_fits(ids, segments, k));
        }
    }
}

/// Text behind segments that fit extends their layout.
proof fn lemma_with_text(
    ids: Seq<i32>,
    segments: Seq<Segment>,
    expanded: Seq<i32>,
    items: int,
    start: int,
    end: int,
)
    requires
        lays_out(ids, segments, expanded, items),
        0 <= start <= end <= ids.len() <= usize::MAX,
    ensures
        lays_out(
            ids,
            with_text(segments, start, end),
            expanded + ids.subrange(start, end),
            items,
        ),
        forall|i: int|
            0 <= i < items ==> #[trigger] ranges(
                ids,
                with_text(segments, start, end),
                with_text(segments, start, end).len() as int,
            )[i] == ranges(ids, segments, segments.len() as int)[i],
{
    if start < end {
        lemma_push_segment(
            ids,
            segments,
            expanded,
            items,
            Segment::Text { start: start as usize, end: end as usize },
        );
    } else {
        assert(expanded + ids.subrange(start, end) =~= expanded);
    }
}

/// Whether range `i` has as many tokens as item `i`, lies behind the earlier
/// ranges, and holds placeholders only.
pub open spec fn range_matches(
    expanded: Seq<i32>,
    placeholder: i32,
    counts: Seq<usize>,
    offsets: Seq<(u32, u32)>,
    i: int,
) -> bool {
    &&& offsets[i].0 <= offsets[i].1 < expanded.len()
    &&& offsets[i].1 - offsets[i].0 + 1 == counts[i]
    &&& i > 0 ==> offsets[i - 1].1 < offsets[i].0
    &&& forall|k: int| offsets[i].0 <= k <= offsets[i].1 ==> #[trigger] expanded[k] == placeholder
}

proof fn lemma_layout_expands(
    ids: Seq<i32>,
    placeholder: i32,
    counts: Seq<usize>,
    n: int,
)
    requires
        0 <= n <= ids.len() <= usize::MAX,
        seen(ids, placeholder, ids.len() as int) == counts.len(),
        forall|i: int| 0 <= i < counts.len() ==> 0 < #[trigger] counts[i],
        expand(ids, placeholder, counts, ids.len() as int).len() <= u32::MAX + 1,
    ensures
        ({
            let segments = media_segments(ids, placeholder, counts, n);
            let start = text_start(ids, placeholder, n);
            let laid = tokens(ids, segments, segments.len() as int);
            let offsets = ranges(ids, segments, segments.len() as int);
            &&& 0 <= start <= n
            &&& lays_out(ids, segments, laid, seen(ids, placeholder, n))
            &&& laid + ids.subrange(start, n) == expand(ids, placeholder, counts, n)
            &&& forall|i: int|
                0 <= i < offsets.len() ==> #[trigger] range_matches(
                    laid,
                    placeholder,
                    counts,
                    offsets,
                    i,
                )
        }),
    decreases n,
{
    lemma_seen_bounds(ids, placeholder, n);
    let segments = media_segments(ids, placeholder, counts, n);
    let start = text_start(ids, placeholder, n);
    let laid = tokens(ids, segments, segments.len() as int);
    if n <= 0 {
        assert(laid + ids.subrange(start, n) =~= Seq::<i32>::empty());
    } else {
        lemma_layout_expands(ids, placeholder, counts, n - 1);
        let before = media_segments(ids, placeholder, counts, n - 1);
        let before_start = text_start(ids, placeholder, n - 1);
        let before_laid = tokens(ids, before, before.len() as int);
        let before_offsets = ranges(ids, before, before.len() as int);
        if ids[n - 1] == placeholder {
            let item = seen(ids, placeholder, n - 1);
            lemma_seen_bounds(ids, placeholder, n - 1);
            lemma_seen_monotone(ids, placeholder, n, ids.len() as int);
            lemma_with_text(ids, before, before_laid, item, before_start, n - 1);
            let texted = with_text(before, before_start, n - 1);
            let expanded = expand(ids, placeholder, counts, n - 1);
            let segment = Segment::Media {
                item: item as usize,
                pattern: TokenPattern::Repeat { id: placeholder, n: counts[item] },
            };
            lemma_expand_grows(ids, placeholder, counts, n, ids.len() as int);
            lemma_push_segment(ids, texted, expanded, item, segment);
            assert(segments == texted.push(segment));
            assert(laid + ids.subrange(n, n) =~= laid);
            let offsets = ranges(ids, segments, segments.len() as int);
            lemma_same_prefix(ids, texted, segments, texted.len() as int);
            assert forall|i: int| 0 <= i < offsets.len() implies #[trigger] range_matches(
                laid,
                placeholder,
                counts,
                offsets,
                i,
            ) by {
                let texted_offsets = ranges(ids, texted, texted.len() as int);
                if i < item {
                    assert(range_matches(before_laid, placeholder, counts, before_offsets, i));
                    assert(texted_offsets[i] == before_offsets[i]);
                    assert(offsets[i] == texted_offsets[i]);
                    if i > 0 {
                        assert(texted_offsets[i - 1] == before_offsets[i - 1]);
                        assert(offsets[i - 1] == texted_offsets[i - 1]);
                    }
                    assert forall|k: int|
                        offsets[i].0 <= k <= offsets[i].1 implies #[trigger] laid[k]
                        == placeholder by {
                        assert(before_laid[k] == placeholder);
                    }
                } else if i > 0 {
                    assert(range_matches(
                        before_laid,
                        placeholder,
                        counts,
                        before_offsets,
                        i - 1,
                    ));
                    assert(texted_offsets[i - 1] == before_offsets[i - 1]);
                    assert(offsets[i - 1] == texted_offsets[i - 1]);
                }
            }
        } else {
            assert(laid + ids.subrange(start, n) =~= (before_laid + ids.subrange(
                before_start,
                n - 1,
            )).push(ids[n - 1]));
        }
    }
}

/// Laying out a prompt and applying the layout replaces each placeholder by
/// the tokens of its media item and keeps everything else, as long as every
/// item has tokens and token indices have 32 bits. The range of each item holds
/// exactly its placeholders.
pub proof fn law_layout_expands(ids: Seq<i32>, placeholder: i32, counts: Seq<usize>)
    requires
        ids.len() <= usize::MAX,
        seen(ids, placeholder, ids.len() as int) == counts.len(),
        forall|i: int| 0 <= i < counts.len() ==> 0 < #[trigger] counts[i],
        expand(ids, placeholder, counts, ids.len() as int).len() <= u32::MAX + 1,
    ensures
        ({
            let segments = prompt_segments(ids, placeholder, counts);
            let n = segments.len() as int;
            let expanded = expand(ids, placeholder, counts, ids.len() as int);
            &&& layout_applies(ids, segments, counts.len() as int)
            &&& tokens(ids, segments, n) == expanded
            &&& ranges(ids, segments, n).len() == counts.len()
            &&& forall|i: int|
                0 <= i < counts.len() ==> #[trigger] range_matches(
                    expanded,
                    placeholder,
                    counts,
                    ranges(ids, segments, n),
                    i,
                )
        }),
{
    let len = ids.len() as int;
    lemma_layout_expands(ids, placeholder, counts, len);
    let media = media_segments(ids, placeholder, counts, len);
    let start = text_start(ids, placeholder, len);
    let laid = tokens(ids, media, media.len() as int);
    let media_offsets = ranges(ids, media, media.len() as int);
    lemma_with_text(ids, media, laid, counts.len() as int, start, len);
    let segments = prompt_segments(ids, placeholder, counts);
    let offsets = ranges(ids, segments, segments.len() as int);
    let expanded = expand(ids, placeholder, counts, len);
    assert forall|i: int| 0 <= i < counts.len() implies #[trigger] range_matches(
        expanded,
        placeholder,
        counts,
        offsets,
        i,
    ) by {
        assert(range_matches(laid, placeholder, counts, media_offsets, i));
        assert(offsets[i] == media_offsets[i]);
        if i > 0 {
            assert(offsets[i - 1] == media_offsets[i - 1]);
        }
        assert forall|k: int| offsets[i].0 <= k <= offsets[i].1 implies #[trigger] expanded[k]
            == placeholder by {
            assert(laid[k] == placeholder);
        }
    }
}

}
