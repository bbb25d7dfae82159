//! What a merge means for the text: each piece of the merged stream lies
//! in the scopes of the syntax stream, with the span that covers it beneath
//! them.

use crate::highlight::{
    coverage, first_source, flush, fold, lemma_fold_coverage, lemma_fold_nested, lemma_rewrap,
    lemma_split, lemma_sync, merge_origin, merge_spec, nested, next_cut, push_ends, push_starts,
    rewrap, span_dead, span_layer, split, stack_after, sync, well_nested, Coverage,
    HighlightEvent, MergeState, Span,
};
use vstd::prelude::*;

verus! {

/// A piece of text of a stream with the scopes that are open around it,
/// outermost first.
pub struct Piece {
    pub start: usize,
    pub end: usize,
    pub stack: Seq<usize>,
}

/// The scopes that are open after `stream`, outermost first. An end
/// without an open scope closes nothing.
pub open spec fn open_scopes(stream: Seq<HighlightEvent>) -> Seq<usize>
    decreases stream.len(),
{
    if stream.len() == 0 {
        Seq::empty()
    } else {
        let stack = open_scopes(stream.drop_last());
        match stream.last() {
            HighlightEvent::HighlightStart(scope) => stack.push(scope),
            HighlightEvent::HighlightEnd => if stack.len() > 0 {
                stack.drop_last()
            } else {
                stack
            },
            HighlightEvent::Source { .. } => stack,
        }
    }
}

/// The pieces of text of `stream`, in order.
pub open spec fn pieces(stream: Seq<HighlightEvent>) -> Seq<Piece>
    decreases stream.len(),
{
    if stream.len() == 0 {
        Seq::empty()
    } else {
        let before = pieces(stream.drop_last());
        match stream.last() {
            HighlightEvent::Source { start, end } => before.push(
                Piece { start, end, stack: open_scopes(stream.drop_last()) },
            ),
            _ => before,
        }
    }
}

/// True when `span` covers the whole of piece `p`.
pub open spec fn span_covers(span: Span, p: Piece) -> bool {
    span.start < span.end && span.start <= p.start && p.end <= span.end
}

/// True when `span` covers some text of piece `p`, or an offset inside it.
pub open spec fn span_meets(span: Span, p: Piece) -> bool {
    span.start < span.end && span.start < p.end && p.start < span.end
}

/// True when piece `p` of the merged stream is text of piece `q` of the
/// syntax stream beneath a span: the span covers it, and its scopes are the
/// span's scope and, above it, those of `q`.
pub open spec fn beneath_span(p: Piece, q: Piece, spans: Seq<Span>) -> bool {
    exists|j: int|
        0 <= j < spans.len() && span_covers(#[trigger] spans[j], p) && p.stack == seq![
            spans[j].scope,
        ] + q.stack
}

/// True when piece `p` of the merged stream is text of piece `q` of the
/// syntax stream that no span touches: its scopes are those of `q`.
pub open spec fn outside_spans(p: Piece, q: Piece, spans: Seq<Span>) -> bool {
    p.stack == q.stack && forall|j: int| 0 <= j < spans.len() ==> !span_meets(#[trigger] spans[j], p)
}

/// True when piece `p` lies after the text of the syntax stream, in a span
/// that reaches past it: the span covers it, and its scope is the only one.
pub open spec fn after_text(p: Piece, spans: Seq<Span>, hi: usize) -> bool {
    hi <= p.start && exists|j: int|
        0 <= j < spans.len() && span_covers(#[trigger] spans[j], p) && p.stack == seq![
            spans[j].scope,
        ]
}

/// True when piece `p` of a merged stream is what the merge is meant to
/// give: text of one piece of the syntax stream in that piece's scopes,
/// with the span that covers it as the outermost scope, or text after the
/// syntax stream in a span alone.
pub open spec fn layered(p: Piece, input: Seq<Piece>, spans: Seq<Span>, hi: usize) -> bool {
    ||| after_text(p, spans, hi)
    ||| exists|q: Piece| #[trigger]
        input.contains(q) && q.start <= p.start && p.start <= p.end && p.end <= q.end && (
        beneath_span(p, q, spans) || outside_spans(p, q, spans))
}

/// True when the spans that cover text follow one another without
/// overlap.
pub open spec fn spans_ordered(spans: Seq<Span>) -> bool {
    forall|i: int, j: int|
        0 <= i < j < spans.len() && (#[trigger] spans[i]).start < spans[i].end && (
        #[trigger] spans[j]).start < spans[j].end ==> spans[i].end <= spans[j].start
}

/// Where every end has its start, the open scopes are the stack.
pub proof fn lemma_open_scopes(stream: Seq<HighlightEvent>)
    ensures
        stack_after(stream) matches Some(stack) ==> open_scopes(stream) == stack,
    decreases stream.len(),
{
    if stream.len() > 0 {
        lemma_open_scopes(stream.drop_last());
    }
}

/// Starts and ends add no text.
pub proof fn lemma_pieces_push_ends(out: Seq<HighlightEvent>, n: nat)
    ensures
        pieces(push_ends(out, n)) == pieces(out),
    decreases n,
{
    if n > 0 {
        lemma_pieces_push_ends(out, (n - 1) as nat);
        let before = push_ends(out, (n - 1) as nat);
        assert(before.push(HighlightEvent::HighlightEnd).drop_last() =~= before);
    }
}

/// Starts and ends add no text.
pub proof fn lemma_pieces_push_starts(out: Seq<HighlightEvent>, scopes: Seq<usize>)
    ensures
        pieces(push_starts(out, scopes)) == pieces(out),
    decreases scopes.len(),
{
    if scopes.len() > 0 {
        lemma_pieces_push_starts(out, scopes.drop_last());
        let before = push_starts(out, scopes.drop_last());
        assert(before.push(HighlightEvent::HighlightStart(scopes.last())).drop_last() =~= before);
    }
}

/// A span's start or end adds no text.
pub proof fn lemma_pieces_rewrap(out: Seq<HighlightEvent>, syn: Seq<usize>, marker: HighlightEvent)
    requires
        marker !is Source,
    ensures
        pieces(rewrap(out, syn, marker)) == pieces(out),
{
    let closed = push_ends(out, syn.len());
    lemma_pieces_push_ends(out, syn.len());
    assert(closed.push(marker).drop_last() =~= closed);
    lemma_pieces_push_starts(closed.push(marker), syn);
}

/// The text of event `i` is a piece of the stream, in the scopes that are
/// open before the event.
pub proof fn lemma_piece_of_source(events: Seq<HighlightEvent>, i: int)
    requires
        0 <= i < events.len(),
        events[i] is Source,
    ensures
        events[i] matches HighlightEvent::Source { start, end } ==> pieces(events).contains(
            Piece { start, end, stack: open_scopes(events.take(i)) },
        ),
    decreases events.len(),
{
    if let HighlightEvent::Source { start, end } = events[i] {
        let q = Piece { start, end, stack: open_scopes(events.take(i)) };
        let before = events.drop_last();
        if i == events.len() - 1 {
            assert(events.take(i) =~= before);
            assert(pieces(events).last() == q);
        } else {
            lemma_piece_of_source(before, i);
            assert(before.take(i) =~= events.take(i));
            let k = choose|k: int| 0 <= k < pieces(before).len() && pieces(before)[k] == q;
            assert(pieces(events)[k] == q);
        }
    }
}

/// True when every piece of `out` is layered as a merge is meant to layer
/// it.
pub open spec fn all_layered(
    out: Seq<HighlightEvent>,
    input: Seq<Piece>,
    spans: Seq<Span>,
    hi: usize,
) -> bool {
    forall|i: int| 0 <= i < pieces(out).len() ==> layered(#[trigger] pieces(out)[i], input, spans, hi)
}

/// True when the state of a merge is in step with the spans: the stream is
/// nested, the spans that cover text and were passed end at or before the
/// position, and the open span began at or before the position.
pub open spec fn in_step(st: MergeState, spans: Seq<Span>) -> bool {
    &&& nested(st, spans)
    &&& forall|j: int|
        0 <= j < spans.len() && j < st.k && (#[trigger] spans[j]).start < spans[j].end
            ==> spans[j].end <= st.pos
    &&& st.open ==> spans[st.k as int].start <= st.pos
}

/// `sync` stays in step with the spans and adds no text; the span that it
/// leaves next and closed has text to cover.
pub proof fn lemma_sync_in_step(st: MergeState, spans: Seq<Span>)
    requires
        in_step(st, spans),
    ensures
        in_step(sync(st, spans), spans),
        pieces(sync(st, spans).out) == pieces(st.out),
        !sync(st, spans).open && sync(st, spans).k < spans.len() ==> !span_dead(
            spans[sync(st, spans).k as int],
            st.pos,
        ),
    decreases spans.len() - st.k,
{
    lemma_sync(st, spans);
    if st.k >= spans.len() {
    } else if st.open {
        if st.pos >= spans[st.k as int].end {
            let closed = MergeState {
                out: rewrap(st.out, st.syn, HighlightEvent::HighlightEnd),
                k: st.k + 1,
                open: false,
                ..st
            };
            lemma_pieces_rewrap(st.out, st.syn, HighlightEvent::HighlightEnd);
            lemma_rewrap(st.out, span_layer(st, spans), st.syn, HighlightEvent::HighlightEnd);
            assert(span_layer(st, spans).drop_last() + st.syn =~= span_layer(closed, spans)
                + st.syn);
            lemma_sync_in_step(closed, spans);
        }
    } else if span_dead(spans[st.k as int], st.pos) {
        let skipped = MergeState { k: st.k + 1, ..st };
        assert(span_layer(st, spans) =~= span_layer(skipped, spans));
        lemma_sync_in_step(skipped, spans);
    } else if spans[st.k as int].start <= st.pos {
        lemma_pieces_rewrap(
            st.out,
            st.syn,
            HighlightEvent::HighlightStart(spans[st.k as int].scope),
        );
    }
}

/// What the piece that is cut next is, and that it is layered.
pub proof fn lemma_cut_layered(
    s: MergeState,
    spans: Seq<Span>,
    cut: usize,
    input: Seq<Piece>,
    hi: usize,
    q: Piece,
)
    requires
        in_step(s, spans),
        spans_ordered(spans),
        input.contains(q),
        q.stack == s.syn,
        q.start <= s.pos <= cut <= q.end,
        s.open ==> s.pos < spans[s.k as int].end && cut <= spans[s.k as int].end,
        !s.open && s.k < spans.len() ==> !span_dead(spans[s.k as int], s.pos) && cut
            <= spans[s.k as int].start,
    ensures
        layered(Piece { start: s.pos, end: cut, stack: open_scopes(s.out) }, input, spans, hi),
{
    let p = Piece { start: s.pos, end: cut, stack: open_scopes(s.out) };
    lemma_open_scopes(s.out);
    if s.open {
        assert(span_covers(spans[s.k as int], p));
        assert(beneath_span(p, q, spans));
    } else {
        assert(span_layer(s, spans) + s.syn =~= s.syn);
        assert forall|j: int| 0 <= j < spans.len() implies !span_meets(#[trigger] spans[j], p) by {
            if j > s.k && spans[j].start < spans[j].end {
                assert(spans[s.k as int].end <= spans[j].start);
            }
        }
        assert(outside_spans(p, q, spans));
    }
    assert(input.contains(q) && q.start <= p.start && p.start <= p.end && p.end <= q.end && (
    beneath_span(p, q, spans) || outside_spans(p, q, spans)));
}

/// `split` stays in step with the spans, and the pieces that it cuts are
/// layered.
pub proof fn lemma_split_layered(
    st: MergeState,
    spans: Seq<Span>,
    end: usize,
    input: Seq<Piece>,
    hi: usize,
    q: Piece,
)
    requires
        in_step(st, spans),
        all_layered(st.out, input, spans, hi),
        spans_ordered(spans),
        input.contains(q),
        q.stack == st.syn,
        q.start <= st.pos <= end,
        end == q.end,
    ensures
        in_step(split(st, spans, end), spans),
        all_layered(split(st, spans, end).out, input, spans, hi),
    decreases end - st.pos,
{
    if st.pos < end {
        let s = sync(st, spans);
        lemma_sync(st, spans);
        lemma_sync_in_step(st, spans);
        let cut = next_cut(s, spans, end);
        let piece = HighlightEvent::Source { start: s.pos, end: cut };
        let next = MergeState { out: s.out.push(piece), pos: cut, ..s };
        assert(next.out.drop_last() =~= s.out);
        assert(span_layer(next, spans) =~= span_layer(s, spans));
        lemma_cut_layered(s, spans, cut, input, hi, q);
        assert(pieces(next.out) == pieces(s.out).push(
            Piece { start: s.pos, end: cut, stack: open_scopes(s.out) },
        ));
        lemma_split_layered(next, spans, end, input, hi, q);
    }
}

/// What holds of a stream holds of its prefixes: ends have their starts,
/// the text is unbroken, and the first text of a prefix is the first text
/// of the stream.
pub proof fn lemma_prefix(events: Seq<HighlightEvent>, i: int)
    requires
        0 <= i <= events.len(),
    ensures
        stack_after(events) is Some ==> stack_after(events.take(i)) is Some,
        !(coverage(events) is Broken) ==> !(coverage(events.take(i)) is Broken),
        first_source(events.take(i)) matches Some(start) ==> first_source(events) == Some(start),
    decreases events.len() - i,
{
    if i < events.len() {
        lemma_prefix(events, i + 1);
        assert(events.take(i + 1).drop_last() =~= events.take(i));
    } else {
        assert(events.take(i) =~= events);
    }
}

/// A stream without text has no first text.
pub proof fn lemma_no_text(events: Seq<HighlightEvent>)
    ensures
        coverage(events) is Nothing ==> first_source(events) is None,
    decreases events.len(),
{
    if events.len() > 0 {
        lemma_no_text(events.drop_last());
    }
}

/// Before the first text, the merge stands at its origin.
pub proof fn lemma_fold_origin(events: Seq<HighlightEvent>, spans: Seq<Span>, origin: usize)
    ensures
        coverage(events) is Nothing ==> fold(events, spans, origin).pos == origin,
    decreases events.len(),
{
    if events.len() > 0 {
        lemma_fold_origin(events.drop_last(), spans, origin);
        lemma_sync(fold(events.drop_last(), spans, origin), spans);
    }
}

/// After each prefix of a syntax stream that is nested and unbroken, the
/// merge is in step with the spans, and the pieces that it has emitted are
/// layered.
pub proof fn lemma_fold_layered(
    events: Seq<HighlightEvent>,
    spans: Seq<Span>,
    hi: usize,
    i: int,
)
    requires
        stack_after(events) is Some,
        coverage(events) is Range,
        spans_ordered(spans),
        0 <= i <= events.len(),
    ensures
        in_step(fold(events.take(i), spans, merge_origin(events)), spans),
        all_layered(
            fold(events.take(i), spans, merge_origin(events)).out,
            pieces(events),
            spans,
            hi,
        ),
        fold(events.take(i), spans, merge_origin(events)).syn == open_scopes(events.take(i)),
    decreases i,
{
    let origin = merge_origin(events);
    let input = pieces(events);
    let now = events.take(i);
    let after = fold(now, spans, origin);
    if i == 0 {
        assert(now =~= Seq::<HighlightEvent>::empty());
        assert(span_layer(after, spans) + after.syn =~= Seq::<usize>::empty());
        assert(pieces(after.out).len() == 0);
    } else {
        let before = events.take(i - 1);
        let st = fold(before, spans, origin);
        let event = events[i - 1];
        assert(now.drop_last() =~= before);
        assert(now.last() == event);
        lemma_fold_layered(events, spans, hi, i - 1);
        lemma_prefix(events, i);
        lemma_prefix(events, i - 1);
        lemma_fold_nested(now, spans, origin);
        lemma_fold_coverage(before, spans, origin);
        lemma_fold_origin(before, spans, origin);
        lemma_open_scopes(now);
        match event {
            HighlightEvent::HighlightStart(scope) => {
                let s = sync(st, spans);
                lemma_sync(st, spans);
                lemma_sync_in_step(st, spans);
                assert(after.out == s.out.push(event));
                assert(after.out.drop_last() =~= s.out);
                assert(pieces(after.out) == pieces(s.out));
                assert(all_layered(after.out, input, spans, hi));
            },
            HighlightEvent::HighlightEnd => {
                assert(after.out == st.out.push(event));
                assert(after.out.drop_last() =~= st.out);
                assert(pieces(after.out) == pieces(st.out));
                assert(all_layered(after.out, input, spans, hi));
            },
            HighlightEvent::Source { start, end } => {
                lemma_no_text(before);
                assert(start == st.pos);
                let at = MergeState { pos: start, ..st };
                assert(at == st);
                let q = Piece { start, end, stack: open_scopes(before) };
                lemma_piece_of_source(events, i - 1);
                if start < end {
                    lemma_split_layered(at, spans, end, input, hi, q);
                    lemma_split(at, spans, end);
                    assert(after == split(at, spans, end));
                    assert(all_layered(after.out, input, spans, hi));
                } else {
                    let s = sync(at, spans);
                    lemma_sync(at, spans);
                    lemma_sync_in_step(at, spans);
                    lemma_cut_layered(s, spans, start, input, hi, q);
                    assert(after.out.drop_last() =~= s.out);
                    assert(span_layer(after, spans) =~= span_layer(s, spans));
                    assert(pieces(after.out) == pieces(s.out).push(
                        Piece { start: s.pos, end: start, stack: open_scopes(s.out) },
                    ));
                    assert(all_layered(after.out, input, spans, hi));
                }
            },
        }
    }
}

/// The pieces that `flush` emits lie after the text, each in its span
/// alone.
pub proof fn lemma_flush_layered(st: MergeState, spans: Seq<Span>, input: Seq<Piece>, hi: usize)
    requires
        in_step(st, spans),
        all_layered(st.out, input, spans, hi),
        st.syn.len() == 0,
        hi <= st.pos,
    ensures
        all_layered(flush(st, spans).out, input, spans, hi),
    decreases spans.len() - st.k,
{
    let s = sync(st, spans);
    lemma_sync(st, spans);
    lemma_sync_in_step(st, spans);
    if s.k < spans.len() {
        let span = spans[s.k as int];
        let from = if s.open {
            s.pos
        } else {
            span.start
        };
        let marker = HighlightEvent::HighlightStart(span.scope);
        let opened = if s.open {
            s.out
        } else {
            rewrap(s.out, s.syn, marker)
        };
        let layer = seq![span.scope];
        if !s.open {
            lemma_pieces_rewrap(s.out, s.syn, marker);
            assert(span_layer(s, spans) + s.syn =~= Seq::<usize>::empty() + s.syn);
            lemma_rewrap(s.out, Seq::<usize>::empty(), s.syn, marker);
            assert(Seq::<usize>::empty().push(span.scope) =~= layer);
        }
        assert(stack_after(opened) == Some(layer + s.syn));
        lemma_open_scopes(opened);
        let emitted = opened.push(HighlightEvent::Source { start: from, end: span.end });
        assert(emitted.drop_last() =~= opened);
        let p = Piece { start: from, end: span.end, stack: open_scopes(opened) };
        assert(layer + s.syn =~= layer);
        assert(span_covers(spans[s.k as int], p));
        assert(after_text(p, spans, hi));
        assert(pieces(emitted) == pieces(opened).push(p));
        lemma_pieces_rewrap(emitted, s.syn, HighlightEvent::HighlightEnd);
        lemma_rewrap(emitted, layer, s.syn, HighlightEvent::HighlightEnd);
        let next = MergeState {
            out: rewrap(emitted, s.syn, HighlightEvent::HighlightEnd),
            k: s.k + 1,
            open: false,
            pos: span.end,
            ..s
        };
        assert(layer.drop_last() + s.syn =~= span_layer(next, spans) + next.syn);
        lemma_flush_layered(next, spans, input, hi);
    }
}

/// Layering: where the syntax stream is well nested and its text covers
/// the range up to `hi` without gap or overlap, and the spans that cover
/// text follow one another without overlap, every piece of text of the
/// merged stream lies in one piece of the syntax stream and in its scopes.
/// A piece that a span covers has that span's scope as its outermost
/// scope; any other piece is touched by no span. What a span covers past
/// `hi` follows in that span's scope alone.
pub proof fn lemma_merge_layered(
    events: Seq<HighlightEvent>,
    spans: Seq<Span>,
    lo: usize,
    hi: usize,
)
    requires
        well_nested(events),
        coverage(events) == (Coverage::Range { lo, hi }),
        spans_ordered(spans),
    ensures
        all_layered(merge_spec(events, spans), pieces(events), spans, hi),
{
    let origin = merge_origin(events);
    lemma_fold_layered(events, spans, hi, events.len() as int);
    assert(events.take(events.len() as int) =~= events);
    lemma_fold_coverage(events, spans, origin);
    lemma_open_scopes(events);
    lemma_flush_layered(fold(events, spans, origin), spans, pieces(events), hi);
}

} // verus!
