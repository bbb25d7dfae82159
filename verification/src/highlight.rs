//! Highlight event streams: their nesting and coverage, and the merge of a
//! syntax stream with selection spans.

use vstd::prelude::*;

verus! {

/// One event of a highlight stream.
#[derive(Clone, Copy, Debug, PartialEq, Eq)]
pub enum HighlightEvent {
    /// A run of text, from `start` up to `end`, inside the scopes that are
    /// open at this point of the stream.
    Source { start: usize, end: usize },
    /// Opens a scope.
    HighlightStart(usize),
    /// Closes the scope that was opened last.
    HighlightEnd,
}

/// A scope laid over the text from `start` up to `end`.
#[derive(Clone, Copy, Debug, PartialEq, Eq)]
pub struct Span {
    pub scope: usize,
    pub start: usize,
    pub end: usize,
}

/// The scopes that are open after `stream`, outermost first; `None` where
/// the stream closes a scope that it has not opened.
pub open spec fn stack_after(stream: Seq<HighlightEvent>) -> Option<Seq<usize>>
    decreases stream.len(),
{
    if stream.len() == 0 {
        Some(Seq::empty())
    } else {
        match stack_after(stream.drop_last()) {
            None => None,
            Some(stack) => match stream.last() {
                HighlightEvent::HighlightStart(scope) => Some(stack.push(scope)),
                HighlightEvent::HighlightEnd => if stack.len() > 0 {
                    Some(stack.drop_last())
                } else {
                    None
                },
                HighlightEvent::Source { .. } => Some(stack),
            },
        }
    }
}

/// True when the starts and ends of `stream` form a valid stack: no end
/// without an open scope, and no scope left open.
pub open spec fn well_nested(stream: Seq<HighlightEvent>) -> bool {
    stack_after(stream) == Some(Seq::<usize>::empty())
}

/// What the `Source` events of a stream cover.
pub enum Coverage {
    /// The stream has no `Source` event.
    Nothing,
    /// The `Source` events follow one another without gap or overlap from
    /// `lo` up to `hi`.
    Range { lo: usize, hi: usize },
    /// Some `Source` event does not begin where the one before it ended, or
    /// ends before it begins.
    Broken,
}

/// The coverage of `stream`.
pub open spec fn coverage(stream: Seq<HighlightEvent>) -> Coverage
    decreases stream.len(),
{
    if stream.len() == 0 {
        Coverage::Nothing
    } else {
        let before = coverage(stream.drop_last());
        match stream.last() {
            HighlightEvent::Source { start, end } => match before {
                Coverage::Nothing => if start <= end {
                    Coverage::Range { lo: start, hi: end }
                } else {
                    Coverage::Broken
                },
                Coverage::Range { lo, hi } => if start == hi && start <= end {
                    Coverage::Range { lo, hi: end }
                } else {
                    Coverage::Broken
                },
                Coverage::Broken => Coverage::Broken,
            },
            _ => before,
        }
    }
}

/// A covered range ends no earlier than it begins.
pub proof fn lemma_coverage_ordered(stream: Seq<HighlightEvent>)
    ensures
        coverage(stream) matches Coverage::Range { lo, hi } ==> lo <= hi,
    decreases stream.len(),
{
    if stream.len() > 0 {
        lemma_coverage_ordered(stream.drop_last());
    }
}

/// Where the first `Source` event of `stream` starts.
pub open spec fn first_source(stream: Seq<HighlightEvent>) -> Option<usize>
    decreases stream.len(),
{
    if stream.len() == 0 {
        None
    } else {
        match first_source(stream.drop_last()) {
            Some(start) => Some(start),
            None => match stream.last() {
                HighlightEvent::Source { start, .. } => Some(start),
                _ => None,
            },
        }
    }
}

/// `out` followed by `n` ends.
pub open spec fn push_ends(out: Seq<HighlightEvent>, n: nat) -> Seq<HighlightEvent>
    decreases n,
{
    if n == 0 {
        out
    } else {
        push_ends(out, (n - 1) as nat).push(HighlightEvent::HighlightEnd)
    }
}

/// `out` followed by a start for each of `scopes`, in order.
pub open spec fn push_starts(out: Seq<HighlightEvent>, scopes: Seq<usize>) -> Seq<HighlightEvent>
    decreases scopes.len(),
{
    if scopes.len() == 0 {
        out
    } else {
        push_starts(out, scopes.drop_last()).push(HighlightEvent::HighlightStart(scopes.last()))
    }
}

/// `out` with `marker` put beneath the open syntax scopes `syn`: the scopes
/// are closed, the marker follows, and the scopes are opened again.
pub open spec fn rewrap(
    out: Seq<HighlightEvent>,
    syn: Seq<usize>,
    marker: HighlightEvent,
) -> Seq<HighlightEvent> {
    push_starts(push_ends(out, syn.len()).push(marker), syn)
}

/// The state of a merge between two events.
pub struct MergeState {
    /// The merged stream so far.
    pub out: Seq<HighlightEvent>,
    /// The syntax scopes that are open, outermost first.
    pub syn: Seq<usize>,
    /// Index of the span that comes next, or that is open.
    pub k: nat,
    /// Whether span `k` is open in `out`, beneath the syntax scopes.
    pub open: bool,
    /// The offset up to which text has been emitted.
    pub pos: usize,
}

/// True when `span` has nothing to cover at or after `pos`.
pub open spec fn span_dead(span: Span, pos: usize) -> bool {
    span.end <= pos || span.start >= span.end
}

/// Brings the spans up to date with the position: closes the open span
/// where the position has reached its end, passes over spans that have
/// nothing left to cover, and opens the next span where the position lies
/// in it.
pub open spec fn sync(st: MergeState, spans: Seq<Span>) -> MergeState
    decreases spans.len() - st.k,
{
    if st.k >= spans.len() {
        MergeState { open: false, ..st }
    } else if st.open {
        if st.pos >= spans[st.k as int].end {
            sync(
                MergeState {
                    out: rewrap(st.out, st.syn, HighlightEvent::HighlightEnd),
                    k: st.k + 1,
                    open: false,
                    ..st
                },
                spans,
            )
        } else {
            st
        }
    } else if span_dead(spans[st.k as int], st.pos) {
        sync(MergeState { k: st.k + 1, ..st }, spans)
    } else if spans[st.k as int].start <= st.pos {
        MergeState {
            out: rewrap(
                st.out,
                st.syn,
                HighlightEvent::HighlightStart(spans[st.k as int].scope),
            ),
            open: true,
            ..st
        }
    } else {
        st
    }
}

/// Where the text that starts at the position of `st` has to be cut next:
/// at the end of the open span, at the start of the span to come, or at
/// `end`, whichever comes first.
pub open spec fn next_cut(st: MergeState, spans: Seq<Span>, end: usize) -> usize {
    if st.k < spans.len() {
        let edge = if st.open {
            spans[st.k as int].end
        } else {
            spans[st.k as int].start
        };
        if edge < end {
            edge
        } else {
            end
        }
    } else {
        end
    }
}

/// Emits the text from the position of `st` up to `end`, cut at every edge
/// of a span, each piece inside the span that covers it.
pub open spec fn split(st: MergeState, spans: Seq<Span>, end: usize) -> MergeState
    decreases end - st.pos,
    via split_decreases
{
    if st.pos >= end {
        st
    } else {
        let s = sync(st, spans);
        let cut = next_cut(s, spans, end);
        split(
            MergeState {
                out: s.out.push(HighlightEvent::Source { start: s.pos, end: cut }),
                pos: cut,
                ..s
            },
            spans,
            end,
        )
    }
}

#[via_fn]
proof fn split_decreases(st: MergeState, spans: Seq<Span>, end: usize) {
    lemma_sync(st, spans);
}

/// The merge after one more event of the syntax stream. A start comes
/// after the spans that open at its offset; an end comes before the spans
/// that close at its offset; text is split at the edges of spans.
pub open spec fn step(st: MergeState, spans: Seq<Span>, event: HighlightEvent) -> MergeState {
    match event {
        HighlightEvent::HighlightStart(scope) => {
            let s = sync(st, spans);
            MergeState { out: s.out.push(event), syn: s.syn.push(scope), ..s }
        },
        HighlightEvent::HighlightEnd => MergeState {
            out: st.out.push(event),
            syn: if st.syn.len() > 0 {
                st.syn.drop_last()
            } else {
                st.syn
            },
            ..st
        },
        HighlightEvent::Source { start, end } => {
            let at = MergeState { pos: start, ..st };
            if start < end {
                split(at, spans, end)
            } else {
                let s = sync(at, spans);
                MergeState { out: s.out.push(event), ..s }
            }
        },
    }
}

/// The merge after all of `events`, begun at offset `origin`.
pub open spec fn fold(events: Seq<HighlightEvent>, spans: Seq<Span>, origin: usize) -> MergeState
    decreases events.len(),
{
    if events.len() == 0 {
        MergeState { out: Seq::empty(), syn: Seq::empty(), k: 0, open: false, pos: origin }
    } else {
        step(fold(events.drop_last(), spans, origin), spans, events.last())
    }
}

/// Ends the merge: closes the open span, and emits what the spans cover
/// after the last text of the syntax stream, each span around its own run.
pub open spec fn flush(st: MergeState, spans: Seq<Span>) -> MergeState
    decreases spans.len() - st.k,
    via flush_decreases
{
    let s = sync(st, spans);
    if s.k >= spans.len() {
        s
    } else {
        let span = spans[s.k as int];
        let from = if s.open {
            s.pos
        } else {
            span.start
        };
        let opened = if s.open {
            s.out
        } else {
            rewrap(s.out, s.syn, HighlightEvent::HighlightStart(span.scope))
        };
        let emitted = opened.push(HighlightEvent::Source { start: from, end: span.end });
        flush(
            MergeState {
                out: rewrap(emitted, s.syn, HighlightEvent::HighlightEnd),
                k: s.k + 1,
                open: false,
                pos: span.end,
                ..s
            },
            spans,
        )
    }
}

#[via_fn]
proof fn flush_decreases(st: MergeState, spans: Seq<Span>) {
    lemma_sync(st, spans);
}

/// Offset at which a merge of `events` begins: the start of their first
/// text, or zero where they hold none.
pub open spec fn merge_origin(events: Seq<HighlightEvent>) -> usize {
    match first_source(events) {
        Some(start) => start,
        None => 0,
    }
}

/// The stream that merges `events` with `spans`. Each span lies beneath
/// the syntax scopes over the text that it covers: it opens before a syntax
/// scope that starts at the same offset and closes after one that ends at
/// the same offset, and text is cut where a span begins or ends.
pub open spec fn merge_spec(events: Seq<HighlightEvent>, spans: Seq<Span>) -> Seq<HighlightEvent> {
    flush(fold(events, spans, merge_origin(events)), spans).out
}

/// True when the span that the state holds open is a span that covers
/// text.
pub open spec fn open_span_ok(st: MergeState, spans: Seq<Span>) -> bool {
    st.open ==> st.k < spans.len() && spans[st.k as int].start < spans[st.k as int].end
}

/// The scope of the open span as a stack: it lies beneath the syntax scopes.
pub open spec fn span_layer(st: MergeState, spans: Seq<Span>) -> Seq<usize> {
    if st.open && st.k < spans.len() {
        seq![spans[st.k as int].scope]
    } else {
        Seq::empty()
    }
}

/// The merged stream has the open span and, above it, the syntax scopes on
/// its stack.
pub open spec fn nested(st: MergeState, spans: Seq<Span>) -> bool {
    &&& open_span_ok(st, spans)
    &&& stack_after(st.out) == Some(span_layer(st, spans) + st.syn)
}

/// Ends close scopes from the top of the stack, and cover nothing.
pub proof fn lemma_push_ends(out: Seq<HighlightEvent>, n: nat)
    ensures
        coverage(push_ends(out, n)) == coverage(out),
        stack_after(out) matches Some(stack) ==> (n <= stack.len() ==> stack_after(
            push_ends(out, n),
        ) == Some(stack.take(stack.len() - n))),
    decreases n,
{
    if n > 0 {
        let before = push_ends(out, (n - 1) as nat);
        lemma_push_ends(out, (n - 1) as nat);
        assert(before.push(HighlightEvent::HighlightEnd).drop_last() =~= before);
        if let Some(stack) = stack_after(out) {
            if n <= stack.len() {
                assert(stack.take(stack.len() - n + 1).drop_last() =~= stack.take(
                    stack.len() - n,
                ));
            }
        }
    } else {
        if let Some(stack) = stack_after(out) {
            assert(stack.take(stack.len() as int) =~= stack);
        }
    }
}

/// Starts open scopes on top of the stack, and cover nothing.
pub proof fn lemma_push_starts(out: Seq<HighlightEvent>, scopes: Seq<usize>)
    ensures
        coverage(push_starts(out, scopes)) == coverage(out),
        stack_after(out) matches Some(stack) ==> stack_after(push_starts(out, scopes)) == Some(
            stack + scopes,
        ),
    decreases scopes.len(),
{
    if scopes.len() > 0 {
        let before = push_starts(out, scopes.drop_last());
        lemma_push_starts(out, scopes.drop_last());
        assert(before.push(HighlightEvent::HighlightStart(scopes.last())).drop_last() =~= before);
        if let Some(stack) = stack_after(out) {
            assert((stack + scopes.drop_last()).push(scopes.last()) =~= stack + scopes);
        }
    } else {
        if let Some(stack) = stack_after(out) {
            assert(stack + scopes =~= stack);
        }
    }
}

/// A span's start or end covers nothing, wherever it is put.
pub proof fn lemma_rewrap_coverage(
    out: Seq<HighlightEvent>,
    syn: Seq<usize>,
    marker: HighlightEvent,
)
    requires
        marker !is Source,
    ensures
        coverage(rewrap(out, syn, marker)) == coverage(out),
{
    let closed = push_ends(out, syn.len());
    lemma_push_ends(out, syn.len());
    assert(closed.push(marker).drop_last() =~= closed);
    lemma_push_starts(closed.push(marker), syn);
}

/// A span's start or end, put beneath the syntax scopes, opens or closes
/// the span there and leaves the syntax scopes as they were.
pub proof fn lemma_rewrap(
    out: Seq<HighlightEvent>,
    layer: Seq<usize>,
    syn: Seq<usize>,
    marker: HighlightEvent,
)
    requires
        stack_after(out) == Some(layer + syn),
        marker !is Source,
        marker is HighlightEnd ==> layer.len() > 0,
    ensures
        marker matches HighlightEvent::HighlightStart(scope) ==> stack_after(
            rewrap(out, syn, marker),
        ) == Some(layer.push(scope) + syn),
        marker is HighlightEnd ==> stack_after(rewrap(out, syn, marker)) == Some(
            layer.drop_last() + syn,
        ),
{
    let closed = push_ends(out, syn.len());
    lemma_push_ends(out, syn.len());
    assert((layer + syn).take(layer.len() as int) =~= layer);
    let marked = closed.push(marker);
    assert(marked.drop_last() =~= closed);
    lemma_push_starts(marked, syn);
}

/// What `sync` keeps, and what holds of the state that it returns.
pub proof fn lemma_sync(st: MergeState, spans: Seq<Span>)
    ensures
        ({
            let s = sync(st, spans);
            &&& s.k >= st.k
            &&& s.pos == st.pos
            &&& s.syn == st.syn
            &&& coverage(s.out) == coverage(st.out)
            &&& open_span_ok(st, spans) ==> open_span_ok(s, spans)
            &&& nested(st, spans) ==> nested(s, spans)
            &&& s.open ==> s.k < spans.len() && st.pos < spans[s.k as int].end
            &&& !s.open && s.k < spans.len() ==> st.pos < spans[s.k as int].start
            &&& open_span_ok(st, spans) && (forall|j: int|
                st.k <= j < spans.len() && (#[trigger] spans[j]).start < spans[j].end
                    ==> spans[j].end <= st.pos) ==> s.k >= spans.len()
        }),
    decreases spans.len() - st.k,
{
    if st.k >= spans.len() {
        if nested(st, spans) {
            assert(span_layer(st, spans) =~= span_layer(sync(st, spans), spans));
        }
    } else if st.open {
        if st.pos >= spans[st.k as int].end {
            let closed = MergeState {
                out: rewrap(st.out, st.syn, HighlightEvent::HighlightEnd),
                k: st.k + 1,
                open: false,
                ..st
            };
            lemma_rewrap_coverage(st.out, st.syn, HighlightEvent::HighlightEnd);
            if nested(st, spans) {
                lemma_rewrap(st.out, span_layer(st, spans), st.syn, HighlightEvent::HighlightEnd);
                assert(span_layer(st, spans).drop_last() + st.syn =~= span_layer(closed, spans)
                    + st.syn);
            }
            lemma_sync(closed, spans);
        }
    } else if span_dead(spans[st.k as int], st.pos) {
        let skipped = MergeState { k: st.k + 1, ..st };
        if nested(st, spans) {
            assert(span_layer(st, spans) =~= span_layer(skipped, spans));
        }
        lemma_sync(skipped, spans);
    } else if spans[st.k as int].start <= st.pos {
        let marker = HighlightEvent::HighlightStart(spans[st.k as int].scope);
        lemma_rewrap_coverage(st.out, st.syn, marker);
        if nested(st, spans) {
            lemma_rewrap(st.out, span_layer(st, spans), st.syn, marker);
            assert(span_layer(st, spans).push(spans[st.k as int].scope) =~= span_layer(
                sync(st, spans),
                spans,
            ));
        }
    }
}

/// What `split` keeps, and what it adds to the coverage.
pub proof fn lemma_split(st: MergeState, spans: Seq<Span>, end: usize)
    ensures
        ({
            let s = split(st, spans, end);
            &&& s.syn == st.syn
            &&& s.k >= st.k
            &&& st.pos >= end ==> s == st
            &&& st.pos < end ==> s.pos == end
            &&& open_span_ok(st, spans) ==> open_span_ok(s, spans)
            &&& nested(st, spans) ==> nested(s, spans)
            &&& st.pos < end && coverage(st.out) is Nothing ==> coverage(s.out) == (
            Coverage::Range { lo: st.pos, hi: end })
            &&& st.pos < end ==> (coverage(st.out) matches Coverage::Range { lo, hi } ==> (hi
                == st.pos ==> coverage(s.out) == (Coverage::Range { lo, hi: end })))
        }),
    decreases end - st.pos,
{
    if st.pos < end {
        let s = sync(st, spans);
        lemma_sync(st, spans);
        let cut = next_cut(s, spans, end);
        let piece = HighlightEvent::Source { start: s.pos, end: cut };
        let next = MergeState { out: s.out.push(piece), pos: cut, ..s };
        assert(next.out.drop_last() =~= s.out);
        if nested(st, spans) {
            assert(span_layer(next, spans) =~= span_layer(s, spans));
        }
        lemma_split(next, spans, end);
    }
}

/// After a prefix of the syntax stream whose ends all have their starts,
/// the merged stream has the open span and the syntax scopes on its stack.
pub proof fn lemma_fold_nested(events: Seq<HighlightEvent>, spans: Seq<Span>, origin: usize)
    ensures
        stack_after(events) matches Some(stack) ==> nested(fold(events, spans, origin), spans)
            && fold(events, spans, origin).syn == stack,
    decreases events.len(),
{
    if events.len() == 0 {
        let st = fold(events, spans, origin);
        assert(span_layer(st, spans) + st.syn =~= Seq::<usize>::empty());
    } else if stack_after(events) is Some {
        let before = fold(events.drop_last(), spans, origin);
        let after = fold(events, spans, origin);
        lemma_fold_nested(events.drop_last(), spans, origin);
        match events.last() {
            HighlightEvent::HighlightStart(scope) => {
                let s = sync(before, spans);
                lemma_sync(before, spans);
                assert(after.out.drop_last() =~= s.out);
                assert((span_layer(s, spans) + s.syn).push(scope) =~= span_layer(after, spans)
                    + after.syn);
            },
            HighlightEvent::HighlightEnd => {
                assert(after.out.drop_last() =~= before.out);
                assert((span_layer(before, spans) + before.syn).drop_last() =~= span_layer(
                    after,
                    spans,
                ) + after.syn);
            },
            HighlightEvent::Source { start, end } => {
                let at = MergeState { pos: start, ..before };
                assert(span_layer(at, spans) =~= span_layer(before, spans));
                if start < end {
                    lemma_split(at, spans, end);
                } else {
                    let s = sync(at, spans);
                    lemma_sync(at, spans);
                    assert(after.out.drop_last() =~= s.out);
                    assert(span_layer(after, spans) =~= span_layer(s, spans));
                }
            },
        }
    }
}

/// After a prefix of the syntax stream, the merged stream covers what the
/// prefix covers, and the merge stands at the end of it.
pub proof fn lemma_fold_coverage(events: Seq<HighlightEvent>, spans: Seq<Span>, origin: usize)
    ensures
        open_span_ok(fold(events, spans, origin), spans),
        coverage(events) is Nothing ==> coverage(fold(events, spans, origin).out) is Nothing,
        coverage(events) matches Coverage::Range { lo, hi } ==> coverage(
            fold(events, spans, origin).out,
        ) == coverage(events) && fold(events, spans, origin).pos == hi,
    decreases events.len(),
{
    if events.len() > 0 {
        let before = fold(events.drop_last(), spans, origin);
        let after = fold(events, spans, origin);
        lemma_fold_coverage(events.drop_last(), spans, origin);
        match events.last() {
            HighlightEvent::HighlightStart(scope) => {
                let s = sync(before, spans);
                lemma_sync(before, spans);
                assert(after.out.drop_last() =~= s.out);
            },
            HighlightEvent::HighlightEnd => {
                assert(after.out.drop_last() =~= before.out);
            },
            HighlightEvent::Source { start, end } => {
                let at = MergeState { pos: start, ..before };
                if start < end {
                    lemma_split(at, spans, end);
                } else {
                    let s = sync(at, spans);
                    lemma_sync(at, spans);
                    assert(after.out.drop_last() =~= s.out);
                }
            },
        }
    }
}

/// `flush` leaves the stack to the syntax scopes alone, and emits nothing
/// where no span reaches past the position.
pub proof fn lemma_flush(st: MergeState, spans: Seq<Span>)
    ensures
        nested(st, spans) ==> stack_after(flush(st, spans).out) == Some(st.syn),
        open_span_ok(st, spans) && (forall|j: int|
            st.k <= j < spans.len() && (#[trigger] spans[j]).start < spans[j].end ==> spans[j].end
                <= st.pos) ==> coverage(flush(st, spans).out) == coverage(st.out),
    decreases spans.len() - st.k,
{
    let s = sync(st, spans);
    lemma_sync(st, spans);
    if s.k >= spans.len() {
        if nested(st, spans) {
            assert(span_layer(s, spans) + s.syn =~= s.syn);
        }
    } else {
        let span = spans[s.k as int];
        let from = if s.open {
            s.pos
        } else {
            span.start
        };
        let opened = if s.open {
            s.out
        } else {
            rewrap(s.out, s.syn, HighlightEvent::HighlightStart(span.scope))
        };
        let emitted = opened.push(HighlightEvent::Source { start: from, end: span.end });
        let next = MergeState {
            out: rewrap(emitted, s.syn, HighlightEvent::HighlightEnd),
            k: s.k + 1,
            open: false,
            pos: span.end,
            ..s
        };
        if nested(st, spans) {
            let layer = seq![span.scope];
            if !s.open {
                assert(span_layer(s, spans) + s.syn =~= Seq::<usize>::empty() + s.syn);
                lemma_rewrap(
                    s.out,
                    Seq::<usize>::empty(),
                    s.syn,
                    HighlightEvent::HighlightStart(span.scope),
                );
                assert(Seq::<usize>::empty().push(span.scope) =~= layer);
            }
            assert(emitted.drop_last() =~= opened);
            lemma_rewrap(emitted, layer, s.syn, HighlightEvent::HighlightEnd);
            assert(layer.drop_last() + s.syn =~= span_layer(next, spans) + next.syn);
        }
        lemma_flush(next, spans);
    }
}

/// Nesting: where the starts and ends of the syntax stream form a valid
/// stack, those of the merged stream do so too, whatever the spans are.
pub proof fn lemma_merge_well_nested(events: Seq<HighlightEvent>, spans: Seq<Span>)
    requires
        well_nested(events),
    ensures
        well_nested(merge_spec(events, spans)),
{
    let origin = merge_origin(events);
    lemma_fold_nested(events, spans, origin);
    lemma_flush(fold(events, spans, origin), spans);
}

/// Coverage: where the text of the syntax stream covers the range from `lo`
/// to `hi` without gap or overlap, and no span covers text past `hi`, the
/// text of the merged stream covers exactly that range in the same way.
pub proof fn lemma_merge_coverage(
    events: Seq<HighlightEvent>,
    spans: Seq<Span>,
    lo: usize,
    hi: usize,
)
    requires
        coverage(events) == (Coverage::Range { lo, hi }),
        forall|j: int|
            0 <= j < spans.len() && (#[trigger] spans[j]).start < spans[j].end ==> spans[j].end
                <= hi,
    ensures
        coverage(merge_spec(events, spans)) == (Coverage::Range { lo, hi }),
{
    let origin = merge_origin(events);
    lemma_fold_coverage(events, spans, origin);
    lemma_flush(fold(events, spans, origin), spans);
}

/// The working state of a merge.
struct Merger {
    out: Vec<HighlightEvent>,
    syn: Vec<usize>,
    k: usize,
    open: bool,
    pos: usize,
}

impl Merger {
    spec fn state(&self) -> MergeState {
        MergeState {
            out: self.out@,
            syn: self.syn@,
            k: self.k as nat,
            open: self.open,
            pos: self.pos,
        }
    }
}

fn emit_ends(out: &mut Vec<HighlightEvent>, n: usize)
    ensures
        final(out)@ == push_ends(old(out)@, n as nat),
{
    let mut i: usize = 0;
    while i < n
        invariant
            i <= n,
            out@ == push_ends(old(out)@, i as nat),
        decreases n - i,
    {
        out.push(HighlightEvent::HighlightEnd);
        i = i + 1;
    }
}

fn emit_starts(out: &mut Vec<HighlightEvent>, scopes: &Vec<usize>)
    ensures
        final(out)@ == push_starts(old(out)@, scopes@),
{
    let mut i: usize = 0;
    proof {
        assert(scopes@.take(0) =~= Seq::<usize>::empty());
    }
    while i < scopes.len()
        invariant
            i <= scopes@.len(),
            out@ == push_starts(old(out)@, scopes@.take(i as int)),
        decreases scopes@.len() - i,
    {
        out.push(HighlightEvent::HighlightStart(scopes[i]));
        proof {
            assert(scopes@.take(i + 1).drop_last() =~= scopes@.take(i as int));
        }
        i = i + 1;
    }
    proof {
        assert(scopes@.take(scopes@.len() as int) =~= scopes@);
    }
}

fn emit_rewrap(out: &mut Vec<HighlightEvent>, syn: &Vec<usize>, marker: HighlightEvent)
    ensures
        final(out)@ == rewrap(old(out)@, syn@, marker),
{
    emit_ends(out, syn.len());
    out.push(marker);
    emit_starts(out, syn);
}

fn sync_spans(m: Merger, spans: &Vec<Span>) -> (r: Merger)
    ensures
        r.state() == sync(m.state(), spans@),
{
    let mut cur = m;
    loop
        invariant
            sync(cur.state(), spans@) == sync(m.state(), spans@),
        decreases spans@.len() - cur.k,
    {
        if cur.k >= spans.len() {
            cur.open = false;
            return cur;
        }
        let span: Span = spans[cur.k];
        if cur.open {
            if cur.pos >= span.end {
                emit_rewrap(&mut cur.out, &cur.syn, HighlightEvent::HighlightEnd);
                cur.k = cur.k + 1;
                cur.open = false;
            } else {
                return cur;
            }
        } else if span.end <= cur.pos || span.start >= span.end {
            cur.k = cur.k + 1;
        } else if span.start <= cur.pos {
            emit_rewrap(&mut cur.out, &cur.syn, HighlightEvent::HighlightStart(span.scope));
            cur.open = true;
            return cur;
        } else {
            return cur;
        }
    }
}

fn split_source(m: Merger, spans: &Vec<Span>, end: usize) -> (r: Merger)
    ensures
        r.state() == split(m.state(), spans@, end),
{
    let mut cur = m;
    while cur.pos < end
        invariant
            split(cur.state(), spans@, end) == split(m.state(), spans@, end),
        decreases end - cur.pos,
    {
        let ghost before = cur.state();
        cur = sync_spans(cur, spans);
        proof {
            lemma_sync(before, spans@);
        }
        let cut: usize = if cur.k < spans.len() {
            let edge: usize = if cur.open {
                spans[cur.k].end
            } else {
                spans[cur.k].start
            };
            if edge < end {
                edge
            } else {
                end
            }
        } else {
            end
        };
        cur.out.push(HighlightEvent::Source { start: cur.pos, end: cut });
        cur.pos = cut;
    }
    cur
}

fn merge_step(m: Merger, spans: &Vec<Span>, event: HighlightEvent) -> (r: Merger)
    ensures
        r.state() == step(m.state(), spans@, event),
{
    let mut m = m;
    match event {
        HighlightEvent::HighlightStart(scope) => {
            m = sync_spans(m, spans);
            m.out.push(event);
            m.syn.push(scope);
            m
        },
        HighlightEvent::HighlightEnd => {
            m.out.push(event);
            if m.syn.len() > 0 {
                m.syn.pop();
            }
            m
        },
        HighlightEvent::Source { start, end } => {
            m.pos = start;
            if start < end {
                split_source(m, spans, end)
            } else {
                m = sync_spans(m, spans);
                m.out.push(event);
                m
            }
        },
    }
}

fn flush_spans(m: Merger, spans: &Vec<Span>) -> (r: Merger)
    ensures
        r.state() == flush(m.state(), spans@),
{
    let mut cur = m;
    loop
        invariant
            flush(cur.state(), spans@) == flush(m.state(), spans@),
        decreases spans@.len() - cur.k,
    {
        let ghost before = cur.state();
        cur = sync_spans(cur, spans);
        proof {
            lemma_sync(before, spans@);
        }
        if cur.k >= spans.len() {
            return cur;
        }
        let span: Span = spans[cur.k];
        if !cur.open {
            emit_rewrap(&mut cur.out, &cur.syn, HighlightEvent::HighlightStart(span.scope));
            cur.pos = span.start;
        }
        cur.out.push(HighlightEvent::Source { start: cur.pos, end: span.end });
        emit_rewrap(&mut cur.out, &cur.syn, HighlightEvent::HighlightEnd);
        cur.k = cur.k + 1;
        cur.open = false;
        cur.pos = span.end;
    }
}

/// Finds where the first text of a stream starts.
pub fn first_source_start(events: &Vec<HighlightEvent>) -> (found: Option<usize>)
    ensures
        found == first_source(events@),
{
    let mut found: Option<usize> = None;
    let mut i: usize = 0;
    proof {
        assert(events@.take(0) =~= Seq::<HighlightEvent>::empty());
    }
    while i < events.len()
        invariant
            i <= events@.len(),
            found == first_source(events@.take(i as int)),
        decreases events@.len() - i,
    {
        proof {
            assert(events@.take(i + 1).drop_last() =~= events@.take(i as int));
        }
        if found.is_none() {
            match events[i] {
                HighlightEvent::Source { start, .. } => {
                    found = Some(start);
                },
                _ => {},
            }
        }
        i = i + 1;
    }
    proof {
        assert(events@.take(events@.len() as int) =~= events@);
    }
    found
}

/// Merges the syntax stream `events` with the selection spans `spans` into
/// one stream in which each span lies beneath the syntax scopes over the
/// text that it covers.
pub fn merge(events: &Vec<HighlightEvent>, spans: &Vec<Span>) -> (merged: Vec<HighlightEvent>)
    ensures
        merged@ == merge_spec(events@, spans@),
        well_nested(events@) ==> well_nested(merged@),
        coverage(events@) matches Coverage::Range { lo, hi } ==> ((forall|j: int|
            0 <= j < spans@.len() && (#[trigger] spans@[j]).start < spans@[j].end ==> spans@[j].end
                <= hi) ==> coverage(merged@) == coverage(events@)),
{
    let origin: usize = match first_source_start(events) {
        Some(start) => start,
        None => 0,
    };
    let mut m = Merger { out: Vec::new(), syn: Vec::new(), k: 0, open: false, pos: origin };
    let mut i: usize = 0;
    proof {
        assert(events@.take(0) =~= Seq::<HighlightEvent>::empty());
    }
    while i < events.len()
        invariant
            i <= events@.len(),
            m.state() == fold(events@.take(i as int), spans@, origin),
        decreases events@.len() - i,
    {
        proof {
            assert(events@.take(i + 1).drop_last() =~= events@.take(i as int));
        }
        m = merge_step(m, spans, events[i]);
        i = i + 1;
    }
    proof {
        assert(events@.take(events@.len() as int) =~= events@);
    }
    m = flush_spans(m, spans);
    proof {
        if well_nested(events@) {
            lemma_merge_well_nested(events@, spans@);
        }
        if let Coverage::Range { lo, hi } = coverage(events@) {
            if forall|j: int|
                0 <= j < spans@.len() && (#[trigger] spans@[j]).start < spans@[j].end
                    ==> spans@[j].end <= hi {
                lemma_merge_coverage(events@, spans@, lo, hi);
            }
        }
    }
    m.out
}

} // verus!
