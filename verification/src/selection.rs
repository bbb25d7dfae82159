//! Selection highlights: the spans that show cursors and selections.

use crate::grapheme::{
    is_boundary, lemma_boundary_at_or_after, lemma_boundary_at_or_before, next_boundary,
    next_grapheme_boundary, prev_boundary, prev_grapheme_boundary,
};
use crate::layering::spans_ordered;
use crate::highlight::Span;
use crate::text::TextBuffer;
use vstd::prelude::*;

verus! {

/// A selection: the offset where it was begun and the offset of its moving
/// end, in chars. It runs forward where the head lies after the anchor.
#[derive(Clone, Copy, Debug, PartialEq, Eq)]
pub struct SelectionRange {
    pub anchor: usize,
    pub head: usize,
}

/// The editing mode, which picks the scope of the cursor.
#[derive(Clone, Copy, Debug, PartialEq, Eq)]
pub enum Mode {
    Normal,
    Select,
    Insert,
}

/// What a theme holds of the scopes for cursors and selections. Only the
/// scope of selections has to be there.
#[derive(Clone, Copy, Debug, PartialEq, Eq)]
pub struct ScopeLookup {
    pub selection: usize,
    pub cursor: Option<usize>,
    pub cursor_insert: Option<usize>,
    pub cursor_select: Option<usize>,
    pub cursor_primary: Option<usize>,
    pub selection_primary: Option<usize>,
}

/// The four scopes that selection highlights use.
#[derive(Clone, Copy, Debug, PartialEq, Eq)]
pub struct SelectionScopes {
    pub cursor: usize,
    pub cursor_primary: usize,
    pub selection: usize,
    pub selection_primary: usize,
}

/// `found` where the theme has the scope, else `fallback`.
pub open spec fn scope_or(found: Option<usize>, fallback: usize) -> usize {
    match found {
        Some(scope) => scope,
        None => fallback,
    }
}

/// The scopes for `mode`: the cursor's scope is the one of the mode, else
/// the plain cursor's, else the selection's; each primary scope falls back
/// to the scope that it refines.
pub open spec fn resolve_scopes_spec(lookup: ScopeLookup, mode: Mode) -> SelectionScopes {
    let base_cursor = scope_or(lookup.cursor, lookup.selection);
    let cursor = match mode {
        Mode::Insert => scope_or(lookup.cursor_insert, base_cursor),
        Mode::Select => scope_or(lookup.cursor_select, base_cursor),
        Mode::Normal => base_cursor,
    };
    SelectionScopes {
        cursor,
        cursor_primary: scope_or(lookup.cursor_primary, cursor),
        selection: lookup.selection,
        selection_primary: scope_or(lookup.selection_primary, lookup.selection),
    }
}

/// Resolves the scopes of cursors and selections once for a frame.
pub fn resolve_scopes(lookup: &ScopeLookup, mode: Mode) -> (scopes: SelectionScopes)
    ensures
        scopes == resolve_scopes_spec(*lookup, mode),
{
    let base_cursor: usize = match lookup.cursor {
        Some(scope) => scope,
        None => lookup.selection,
    };
    let of_mode: Option<usize> = match mode {
        Mode::Insert => lookup.cursor_insert,
        Mode::Select => lookup.cursor_select,
        Mode::Normal => None,
    };
    let cursor: usize = match of_mode {
        Some(scope) => scope,
        None => base_cursor,
    };
    SelectionScopes {
        cursor,
        cursor_primary: match lookup.cursor_primary {
            Some(scope) => scope,
            None => cursor,
        },
        selection: lookup.selection,
        selection_primary: match lookup.selection_primary {
            Some(scope) => scope,
            None => lookup.selection,
        },
    }
}

/// `i`, or the length of the text where `i` lies past its end.
pub open spec fn clamp_offset(text: Seq<char>, i: usize) -> usize {
    if i <= text.len() {
        i
    } else {
        text.len() as usize
    }
}

/// The spans of one selection. A cursor at the end of the text is one cell
/// past the last char. Any other selection is at least one grapheme
/// wide; its cursor is the grapheme at the moving end, before the head of
/// a forward selection and at the head of a reverse one, and the selection
/// span is the rest.
pub open spec fn range_spans(
    text: Seq<char>,
    range: SelectionRange,
    cursor: usize,
    selection: usize,
) -> Seq<Span> {
    let anchor = clamp_offset(text, range.anchor);
    let given_head = clamp_offset(text, range.head);
    if given_head == anchor && given_head == text.len() {
        seq![Span { scope: cursor, start: given_head, end: (given_head + 1) as usize }]
    } else {
        let head = if given_head == anchor {
            next_boundary(text, given_head as int) as usize
        } else {
            given_head
        };
        if head > anchor {
            let cursor_start = prev_boundary(text, head as int) as usize;
            seq![
                Span { scope: selection, start: anchor, end: cursor_start },
                Span { scope: cursor, start: cursor_start, end: head },
            ]
        } else {
            let cursor_end = next_boundary(text, head as int) as usize;
            seq![
                Span { scope: cursor, start: head, end: cursor_end },
                Span { scope: selection, start: cursor_end, end: anchor },
            ]
        }
    }
}

/// The scope of the cursor of selection `index`.
pub open spec fn cursor_scope(scopes: SelectionScopes, index: int, primary: int) -> usize {
    if index == primary {
        scopes.cursor_primary
    } else {
        scopes.cursor
    }
}

/// The scope of the selected text of selection `index`.
pub open spec fn selection_scope(scopes: SelectionScopes, index: int, primary: int) -> usize {
    if index == primary {
        scopes.selection_primary
    } else {
        scopes.selection
    }
}

/// The spans of all selections, in the order of the selections; the
/// selection with index `primary` takes the primary scopes.
pub open spec fn selection_spans(
    text: Seq<char>,
    ranges: Seq<SelectionRange>,
    primary: int,
    scopes: SelectionScopes,
) -> Seq<Span>
    decreases ranges.len(),
{
    if ranges.len() == 0 {
        Seq::empty()
    } else {
        let index = ranges.len() - 1;
        selection_spans(text, ranges.drop_last(), primary, scopes) + range_spans(
            text,
            ranges.last(),
            cursor_scope(scopes, index, primary),
            selection_scope(scopes, index, primary),
        )
    }
}

/// Computes the spans of one selection.
fn build_range_spans(
    buf: &TextBuffer,
    range: SelectionRange,
    cursor: usize,
    selection: usize,
    spans: &mut Vec<Span>,
)
    ensures
        final(spans)@ == old(spans)@ + range_spans(buf@, range, cursor, selection),
{
    let len: usize = buf.len_chars();
    let anchor: usize = if range.anchor <= len {
        range.anchor
    } else {
        len
    };
    let given_head: usize = if range.head <= len {
        range.head
    } else {
        len
    };
    if given_head == anchor && given_head == len {
        spans.push(Span { scope: cursor, start: given_head, end: given_head + 1 });
        proof {
            assert(spans@ =~= old(spans)@ + range_spans(buf@, range, cursor, selection));
        }
        return ;
    }
    let head: usize = if given_head == anchor {
        next_grapheme_boundary(buf, given_head)
    } else {
        given_head
    };
    if head > anchor {
        let cursor_start: usize = prev_grapheme_boundary(buf, head);
        spans.push(Span { scope: selection, start: anchor, end: cursor_start });
        spans.push(Span { scope: cursor, start: cursor_start, end: head });
    } else {
        let cursor_end: usize = next_grapheme_boundary(buf, head);
        spans.push(Span { scope: cursor, start: head, end: cursor_end });
        spans.push(Span { scope: selection, start: cursor_end, end: anchor });
    }
    proof {
        assert(spans@ =~= old(spans)@ + range_spans(buf@, range, cursor, selection));
    }
}

/// Turns the selections into highlight spans, in the order of the
/// selections: for each one its cursor cell and what else it selects.
pub fn build_selection_highlights(
    buf: &TextBuffer,
    ranges: &Vec<SelectionRange>,
    primary_idx: usize,
    scopes: &SelectionScopes,
) -> (spans: Vec<Span>)
    ensures
        spans@ == selection_spans(buf@, ranges@, primary_idx as int, *scopes),
{
    let mut spans: Vec<Span> = Vec::new();
    let mut i: usize = 0;
    proof {
        assert(ranges@.take(0) =~= Seq::<SelectionRange>::empty());
    }
    while i < ranges.len()
        invariant
            i <= ranges@.len(),
            spans@ == selection_spans(buf@, ranges@.take(i as int), primary_idx as int, *scopes),
        decreases ranges@.len() - i,
    {
        let cursor: usize = if i == primary_idx {
            scopes.cursor_primary
        } else {
            scopes.cursor
        };
        let selection: usize = if i == primary_idx {
            scopes.selection_primary
        } else {
            scopes.selection
        };
        proof {
            assert(ranges@.take(i + 1).drop_last() =~= ranges@.take(i as int));
        }
        build_range_spans(buf, ranges[i], cursor, selection, &mut spans);
        i = i + 1;
    }
    proof {
        assert(ranges@.take(ranges@.len() as int) =~= ranges@);
    }
    spans
}

/// Cursor at the end: a selection whose anchor and head both lie at the end
/// of the text gives exactly one span, of the cursor's scope and one cell
/// wide, whatever the text holds.
pub proof fn lemma_cursor_at_end(
    text: Seq<char>,
    range: SelectionRange,
    primary: int,
    scopes: SelectionScopes,
)
    requires
        range.anchor == text.len(),
        range.head == text.len(),
        text.len() < usize::MAX,
    ensures
        selection_spans(text, seq![range], primary, scopes) == seq![
            Span {
                scope: cursor_scope(scopes, 0, primary),
                start: range.head,
                end: (range.head + 1) as usize,
            },
        ],
        selection_spans(text, seq![range], primary, scopes)[0].end - selection_spans(
            text,
            seq![range],
            primary,
            scopes,
        )[0].start == 1,
{
    let ranges = seq![range];
    assert(ranges.drop_last() =~= Seq::<SelectionRange>::empty());
    assert(selection_spans(text, ranges.drop_last(), primary, scopes) =~= Seq::<Span>::empty());
    assert(selection_spans(text, ranges, primary, scopes) =~= range_spans(
        text,
        range,
        cursor_scope(scopes, 0, primary),
        selection_scope(scopes, 0, primary),
    ));
}

/// The lower end of a selection.
pub open spec fn range_from(range: SelectionRange) -> usize {
    if range.anchor <= range.head {
        range.anchor
    } else {
        range.head
    }
}

/// The upper end of a selection.
pub open spec fn range_to(range: SelectionRange) -> usize {
    if range.anchor <= range.head {
        range.head
    } else {
        range.anchor
    }
}

/// How far the spans of a selection reach: to its upper end, or one
/// grapheme past it where it is empty.
pub open spec fn range_reach(text: Seq<char>, range: SelectionRange) -> int {
    if range.anchor != range.head {
        range_to(range) as int
    } else if range.head >= text.len() {
        (text.len() + 1) as int
    } else {
        next_boundary(text, range.head as int)
    }
}

/// True when the selections lie in the text on grapheme cluster boundaries
/// and follow one another: each begins where the one before it has ended,
/// and after the start of an empty one.
pub open spec fn ranges_apart(text: Seq<char>, ranges: Seq<SelectionRange>) -> bool {
    &&& forall|i: int|
        0 <= i < ranges.len() ==> {
            &&& (#[trigger] ranges[i]).anchor <= text.len()
            &&& ranges[i].head <= text.len()
            &&& is_boundary(text, ranges[i].anchor as int)
            &&& is_boundary(text, ranges[i].head as int)
        }
    &&& forall|i: int, j: int|
        0 <= i < j < ranges.len() ==> {
            &&& range_to(#[trigger] ranges[i]) <= range_from(#[trigger] ranges[j])
            &&& ranges[i].anchor == ranges[i].head ==> ranges[i].head < range_from(ranges[j])
        }
}

/// The spans of one selection that lies on boundaries follow one another
/// inside the selection, or inside the grapheme after an empty one.
pub proof fn lemma_range_spans(text: Seq<char>, range: SelectionRange, cursor: usize, selection: usize)
    requires
        text.len() < usize::MAX,
        range.anchor <= text.len(),
        range.head <= text.len(),
        is_boundary(text, range.anchor as int),
        is_boundary(text, range.head as int),
    ensures
        spans_ordered(range_spans(text, range, cursor, selection)),
        forall|k: int|
            0 <= k < range_spans(text, range, cursor, selection).len() && (
            #[trigger] range_spans(text, range, cursor, selection)[k]).start < range_spans(
                text,
                range,
                cursor,
                selection,
            )[k].end ==> range_from(range) <= range_spans(text, range, cursor, selection)[k].start
                && range_spans(text, range, cursor, selection)[k].end <= range_reach(text, range),
        range_from(range) <= range_reach(text, range),
{
    if range.anchor == range.head {
        if range.head < text.len() {
            lemma_boundary_at_or_after(text, range.head + 1);
            lemma_boundary_at_or_before(text, next_boundary(text, range.head as int) - 1);
        }
    } else if range.head > range.anchor {
        if range.head >= text.len() {
            lemma_boundary_at_or_before(text, text.len() - 1);
        } else {
            lemma_boundary_at_or_before(text, range.head - 1);
        }
    } else {
        lemma_boundary_at_or_after(text, range.head + 1);
    }
}

/// Selections that follow one another give spans that follow one another:
/// no two spans that cover text overlap.
pub proof fn lemma_selection_spans_ordered(
    text: Seq<char>,
    ranges: Seq<SelectionRange>,
    primary: int,
    scopes: SelectionScopes,
)
    requires
        text.len() < usize::MAX,
        ranges_apart(text, ranges),
    ensures
        spans_ordered(selection_spans(text, ranges, primary, scopes)),
        forall|k: int|
            0 <= k < selection_spans(text, ranges, primary, scopes).len() && (
            #[trigger] selection_spans(text, ranges, primary, scopes)[k]).start < selection_spans(
                text,
                ranges,
                primary,
                scopes,
            )[k].end ==> ranges.len() > 0 && selection_spans(text, ranges, primary, scopes)[k].end
                <= range_reach(text, ranges.last()),
    decreases ranges.len(),
{
    if ranges.len() > 0 {
        let index = ranges.len() - 1;
        let before = ranges.drop_last();
        let last = ranges.last();
        let head_spans = selection_spans(text, before, primary, scopes);
        let tail_spans = range_spans(
            text,
            last,
            cursor_scope(scopes, index, primary),
            selection_scope(scopes, index, primary),
        );
        assert(ranges_apart(text, before)) by {
            assert forall|i: int| 0 <= i < before.len() implies (#[trigger] before[i])
                == ranges[i] by {}
        }
        lemma_selection_spans_ordered(text, before, primary, scopes);
        lemma_range_spans(
            text,
            last,
            cursor_scope(scopes, index, primary),
            selection_scope(scopes, index, primary),
        );
        if before.len() > 0 {
            let prev = before.last();
            assert(prev == ranges[index - 1]);
            assert(last == ranges[index]);
            if prev.anchor == prev.head {
                lemma_boundary_at_or_after(text, prev.head + 1);
            }
            assert(range_reach(text, prev) <= range_from(last));
        }
        let all = selection_spans(text, ranges, primary, scopes);
        assert(all == head_spans + tail_spans);
        assert forall|i: int, j: int|
            0 <= i < j < all.len() && (#[trigger] all[i]).start < all[i].end && (
            #[trigger] all[j]).start < all[j].end implies all[i].end <= all[j].start by {
            if j < head_spans.len() {
                assert(all[i] == head_spans[i] && all[j] == head_spans[j]);
            } else if i >= head_spans.len() {
                assert(all[i] == tail_spans[i - head_spans.len()]);
                assert(all[j] == tail_spans[j - head_spans.len()]);
            } else {
                assert(all[i] == head_spans[i]);
                assert(all[j] == tail_spans[j - head_spans.len()]);
            }
        }
        assert forall|k: int|
            0 <= k < all.len() && (#[trigger] all[k]).start < all[k].end implies all[k].end
            <= range_reach(text, last) by {
            if k < head_spans.len() {
                assert(all[k] == head_spans[k]);
            } else {
                assert(all[k] == tail_spans[k - head_spans.len()]);
            }
        }
    }
}

} // verus!
