//! A view of a document: its highlight stream, from the syntax events of
//! the visible bytes and the selections, and the frame that shows it.

use crate::grapheme::{byte_to_safe_char, lemma_safe_char_monotonic, safe_char_of_byte};
use crate::highlight::{
    coverage, lemma_coverage_ordered, lemma_merge_coverage, lemma_merge_well_nested, merge, merge_spec, stack_after,
    well_nested, Coverage, HighlightEvent, Span,
};
use crate::gutter::digit_count;
use crate::layout::{compose, frame_gutter, frame_state, Frame};
use crate::layering::{all_layered, lemma_merge_layered, pieces};
use crate::selection::{
    build_selection_highlights, lemma_selection_spans_ordered, ranges_apart, resolve_scopes,
    resolve_scopes_spec, selection_spans, Mode, ScopeLookup, SelectionRange, SelectionScopes,
};
use crate::style::StyleSpec;
use crate::text::TextBuffer;
use crate::viewport::{viewport_byte_range, visible_bytes, Viewport};
use vstd::prelude::*;

verus! {

/// An event with byte offsets as the event with char offsets that split no
/// grapheme cluster.
pub open spec fn char_event(text: Seq<char>, event: HighlightEvent) -> HighlightEvent {
    match event {
        HighlightEvent::Source { start, end } => HighlightEvent::Source {
            start: safe_char_of_byte(text, start as int) as usize,
            end: safe_char_of_byte(text, end as int) as usize,
        },
        other => other,
    }
}

/// A stream with byte offsets as the stream with char offsets.
pub open spec fn char_events(text: Seq<char>, events: Seq<HighlightEvent>) -> Seq<HighlightEvent> {
    Seq::new(events.len(), |i: int| char_event(text, events[i]))
}

/// Converts the byte offsets of a stream to char offsets that lie inside no
/// grapheme cluster.
pub fn to_char_events(buf: &TextBuffer, events: &Vec<HighlightEvent>) -> (out: Vec<HighlightEvent>)
    ensures
        out@ == char_events(buf@, events@),
        stack_after(out@) == stack_after(events@),
{
    let mut out: Vec<HighlightEvent> = Vec::new();
    let mut i: usize = 0;
    while i < events.len()
        invariant
            i <= events@.len(),
            out@.len() == i,
            forall|k: int| 0 <= k < i ==> out@[k] == char_event(buf@, events@[k]),
        decreases events@.len() - i,
    {
        let mapped: HighlightEvent = match events[i] {
            HighlightEvent::Source { start, end } => HighlightEvent::Source {
                start: byte_to_safe_char(buf, start),
                end: byte_to_safe_char(buf, end),
            },
            other => other,
        };
        out.push(mapped);
        i = i + 1;
    }
    proof {
        assert(out@ =~= char_events(buf@, events@));
        lemma_char_events_nested(buf@, events@);
    }
    out
}

/// The conversion keeps the starts and ends of a stream, and with them its
/// nesting.
pub proof fn lemma_char_events_nested(text: Seq<char>, events: Seq<HighlightEvent>)
    ensures
        stack_after(char_events(text, events)) == stack_after(events),
    decreases events.len(),
{
    if events.len() > 0 {
        lemma_char_events_nested(text, events.drop_last());
        assert(char_events(text, events).drop_last() =~= char_events(text, events.drop_last()));
    }
}

/// The conversion keeps the coverage of a stream: text that covers the
/// bytes from `lo` to `hi` without gap or overlap covers the chars between
/// the offsets of `lo` and `hi` in the same way.
pub proof fn lemma_char_events_coverage(
    text: Seq<char>,
    events: Seq<HighlightEvent>,
    lo: usize,
    hi: usize,
)
    requires
        text.len() <= usize::MAX,
        coverage(events) == (Coverage::Range { lo, hi }),
    ensures
        coverage(char_events(text, events)) == (Coverage::Range {
            lo: safe_char_of_byte(text, lo as int) as usize,
            hi: safe_char_of_byte(text, hi as int) as usize,
        }),
    decreases events.len(),
{
    if events.len() > 0 {
        let before = events.drop_last();
        assert(char_events(text, events).drop_last() =~= char_events(text, before));
        lemma_char_events_plain(text, before);
        match events.last() {
            HighlightEvent::Source { start, end } => {
                lemma_safe_char_monotonic(text, start as int, end as int);
                if let Coverage::Range { lo: first, hi: reached } = coverage(before) {
                    lemma_char_events_coverage(text, before, first, reached);
                }
            },
            _ => {
                lemma_char_events_coverage(text, before, lo, hi);
            },
        }
    }
}

/// The conversion of a stream without text holds no text.
pub proof fn lemma_char_events_plain(text: Seq<char>, events: Seq<HighlightEvent>)
    ensures
        coverage(events) is Nothing ==> coverage(char_events(text, events)) is Nothing,
    decreases events.len(),
{
    if events.len() > 0 {
        lemma_char_events_plain(text, events.drop_last());
        assert(char_events(text, events).drop_last() =~= char_events(text, events.drop_last()));
    }
}

/// The syntax stream of a view before its offsets are converted: what the
/// highlighter gave for the visible bytes, or those bytes as one run of
/// plain text where the document has no highlighter.
pub open spec fn syntax_stream(
    text: Seq<char>,
    viewport: Viewport,
    highlighted: Option<Seq<HighlightEvent>>,
) -> Seq<HighlightEvent> {
    match highlighted {
        Some(events) => events,
        None => {
            let range = visible_bytes(text, viewport.offset_row, viewport.height as usize);
            seq![HighlightEvent::Source { start: range.0, end: range.1 }]
        },
    }
}

/// The view of an optional vector.
pub open spec fn option_view(events: Option<Vec<HighlightEvent>>) -> Option<Seq<HighlightEvent>> {
    match events {
        Some(v) => Some(v@),
        None => None,
    }
}

/// Builds the syntax stream of a view, in char offsets: from the events
/// that the highlighter gave for the bytes of the viewport, or from those
/// bytes as plain text.
pub fn build_syntax_highlights(
    buf: &TextBuffer,
    viewport: Viewport,
    highlighted: Option<Vec<HighlightEvent>>,
) -> (events: Vec<HighlightEvent>)
    ensures
        events@ == char_events(buf@, syntax_stream(buf@, viewport, option_view(highlighted))),
{
    match highlighted {
        Some(given) => to_char_events(buf, &given),
        None => {
            let range = viewport_byte_range(buf, viewport.offset_row, viewport.height as usize);
            let mut plain: Vec<HighlightEvent> = Vec::new();
            plain.push(HighlightEvent::Source { start: range.0, end: range.1 });
            proof {
                assert(plain@ =~= syntax_stream(buf@, viewport, option_view(highlighted)));
            }
            to_char_events(buf, &plain)
        },
    }
}

/// The highlight stream of a view: the syntax stream, merged with the spans
/// of the selections where the view has the focus.
pub open spec fn highlights_spec(
    text: Seq<char>,
    focused: bool,
    syntax: Seq<HighlightEvent>,
    ranges: Seq<SelectionRange>,
    primary: int,
    scopes: SelectionScopes,
) -> Seq<HighlightEvent> {
    if focused {
        merge_spec(syntax, selection_spans(text, ranges, primary, scopes))
    } else {
        syntax
    }
}

/// Builds the highlight stream of a view. Only the view that has the focus
/// shows cursors and selections.
pub fn build_highlights(
    buf: &TextBuffer,
    focused: bool,
    syntax: Vec<HighlightEvent>,
    ranges: &Vec<SelectionRange>,
    primary_idx: usize,
    scopes: &SelectionScopes,
) -> (events: Vec<HighlightEvent>)
    ensures
        events@ == highlights_spec(buf@, focused, syntax@, ranges@, primary_idx as int, *scopes),
        well_nested(syntax@) ==> well_nested(events@),
{
    if focused {
        let spans: Vec<Span> = build_selection_highlights(buf, ranges, primary_idx, scopes);
        merge(&syntax, &spans)
    } else {
        syntax
    }
}

/// In the view that has the focus, selections that follow one another lie
/// beneath the syntax scopes: every piece of text of the merged stream is
/// text of one piece of the syntax stream in that piece's scopes, with the
/// scope of the selection or cursor that covers it as the outermost one.
pub proof fn lemma_highlights_layered(
    text: Seq<char>,
    syntax: Seq<HighlightEvent>,
    ranges: Seq<SelectionRange>,
    primary: int,
    scopes: SelectionScopes,
    lo: usize,
    hi: usize,
)
    requires
        text.len() < usize::MAX,
        well_nested(syntax),
        coverage(syntax) == (Coverage::Range { lo, hi }),
        ranges_apart(text, ranges),
    ensures
        all_layered(
            highlights_spec(text, true, syntax, ranges, primary, scopes),
            pieces(syntax),
            selection_spans(text, ranges, primary, scopes),
            hi,
        ),
{
    lemma_selection_spans_ordered(text, ranges, primary, scopes);
    lemma_merge_layered(syntax, selection_spans(text, ranges, primary, scopes), lo, hi);
}

/// The selections of a view: the ranges, and the index of the primary one.
#[derive(Debug, PartialEq, Eq)]
pub struct Selection {
    pub ranges: Vec<SelectionRange>,
    pub primary_index: usize,
}

/// What a view takes from the theme: the style of each scope by its index,
/// the style of plain text, and the scopes of cursors and selections.
#[derive(Debug, PartialEq, Eq)]
pub struct Theme {
    pub styles: Vec<StyleSpec>,
    pub text: StyleSpec,
    pub scopes: ScopeLookup,
}

/// The highlight stream that a view lays out.
pub open spec fn view_events(
    text: Seq<char>,
    viewport: Viewport,
    focused: bool,
    highlighted: Option<Seq<HighlightEvent>>,
    ranges: Seq<SelectionRange>,
    primary: int,
    scopes: ScopeLookup,
    mode: Mode,
) -> Seq<HighlightEvent> {
    highlights_spec(
        text,
        focused,
        char_events(text, syntax_stream(text, viewport, highlighted)),
        ranges,
        primary,
        resolve_scopes_spec(scopes, mode),
    )
}

/// Where the events of the highlighter are well nested, so is the stream
/// that the view lays out, with or without selections.
pub proof fn lemma_view_events_nested(
    text: Seq<char>,
    viewport: Viewport,
    focused: bool,
    highlighted: Option<Seq<HighlightEvent>>,
    ranges: Seq<SelectionRange>,
    primary: int,
    scopes: ScopeLookup,
    mode: Mode,
)
    requires
        highlighted matches Some(events) ==> well_nested(events),
    ensures
        well_nested(view_events(text, viewport, focused, highlighted, ranges, primary, scopes, mode)),
{
    let stream = syntax_stream(text, viewport, highlighted);
    if highlighted is None {
        assert(stream.drop_last() =~= Seq::<HighlightEvent>::empty());
        assert(stack_after(stream.drop_last()) == Some(Seq::<usize>::empty()));
        assert(stream.last() is Source);
        assert(well_nested(stream));
    }
    lemma_char_events_nested(text, stream);
    if focused {
        lemma_merge_well_nested(
            char_events(text, stream),
            selection_spans(text, ranges, primary, resolve_scopes_spec(scopes, mode)),
        );
    }
}

/// Where the text of the highlighter's events covers the bytes from `lo` to
/// `hi` without gap or overlap, and no selection or cursor covers text past
/// the char offset of `hi`, the text of the stream that the view lays out
/// covers the chars between the offsets of `lo` and `hi` in the same way.
pub proof fn lemma_view_events_coverage(
    text: Seq<char>,
    viewport: Viewport,
    focused: bool,
    events: Seq<HighlightEvent>,
    ranges: Seq<SelectionRange>,
    primary: int,
    scopes: ScopeLookup,
    mode: Mode,
    lo: usize,
    hi: usize,
)
    requires
        text.len() <= usize::MAX,
        coverage(events) == (Coverage::Range { lo, hi }),
        ({
            let spans = selection_spans(text, ranges, primary, resolve_scopes_spec(scopes, mode));
            forall|j: int|
                0 <= j < spans.len() && (#[trigger] spans[j]).start < spans[j].end ==> spans[j].end
                    <= safe_char_of_byte(text, hi as int)
        }),
    ensures
        coverage(
            view_events(text, viewport, focused, Some(events), ranges, primary, scopes, mode),
        ) == (Coverage::Range {
            lo: safe_char_of_byte(text, lo as int) as usize,
            hi: safe_char_of_byte(text, hi as int) as usize,
        }),
{
    lemma_char_events_coverage(text, events, lo, hi);
    lemma_coverage_ordered(events);
    lemma_safe_char_monotonic(text, lo as int, hi as int);
    if focused {
        lemma_merge_coverage(
            char_events(text, events),
            selection_spans(text, ranges, primary, resolve_scopes_spec(scopes, mode)),
            safe_char_of_byte(text, lo as int) as usize,
            safe_char_of_byte(text, hi as int) as usize,
        );
    }
}

/// Lays a view of the document out: the syntax events of the visible
/// bytes, converted to char offsets, merged with the selections where the
/// view has the focus, and composed into the runs and labels of a frame.
pub fn render_view(
    buf: &TextBuffer,
    viewport: Viewport,
    wrap: bool,
    focused: bool,
    highlighted: Option<Vec<HighlightEvent>>,
    selection: &Selection,
    mode: Mode,
    theme: &Theme,
) -> (frame: Frame)
    ensures
        frame.gutter_width == frame_gutter(buf@, viewport),
        ({
            let events = view_events(
                buf@,
                viewport,
                focused,
                option_view(highlighted),
                selection.ranges@,
                selection.primary_index as int,
                theme.scopes,
                mode,
            );
            let state = frame_state(buf@, viewport, wrap, theme.text, theme.styles@, events);
            &&& frame.runs@ == state.runs
            &&& frame.labels@ == state.labels
            &&& frame.phase == state.phase
        }),
        frame.labels@.len() <= viewport.height,
        forall|i: int| 0 <= i < frame.runs@.len() ==> (#[trigger] frame.runs@[i]).row < viewport.height,
        forall|i: int|
            0 <= i < frame.runs@.len() ==> frame.gutter_width <= (#[trigger] frame.runs@[i]).col
                < frame.gutter_width + viewport.width,
        forall|i: int|
            0 <= i < frame.labels@.len() ==> (#[trigger] frame.labels@[i]).row < viewport.height,
        forall|i: int|
            0 <= i < frame.labels@.len() ==> (#[trigger] frame.labels@[i]).col + digit_count(
                frame.labels@[i].line_number as nat,
            ) + 1 == frame.gutter_width,
{
    let syntax: Vec<HighlightEvent> = build_syntax_highlights(buf, viewport, highlighted);
    let scopes: SelectionScopes = resolve_scopes(&theme.scopes, mode);
    let events: Vec<HighlightEvent> = build_highlights(
        buf,
        focused,
        syntax,
        &selection.ranges,
        selection.primary_index,
        &scopes,
    );
    compose(buf, &events, &theme.styles, theme.text, viewport, wrap)
}

/// The three letters that the status line shows for a mode.
pub open spec fn mode_label_spec(mode: Mode) -> Seq<char> {
    match mode {
        Mode::Normal => seq!['N', 'O', 'R'],
        Mode::Select => seq!['S', 'E', 'L'],
        Mode::Insert => seq!['I', 'N', 'S'],
    }
}

/// Names the mode on the status line.
pub fn mode_label(mode: Mode) -> (label: &'static str)
    ensures
        label@ == mode_label_spec(mode),
{
    proof {
        reveal_strlit("NOR");
        reveal_strlit("SEL");
        reveal_strlit("INS");
    }
    let label = match mode {
        Mode::Normal => "NOR",
        Mode::Select => "SEL",
        Mode::Insert => "INS",
    };
    proof {
        assert(label@ =~= mode_label_spec(mode));
    }
    label
}

} // verus!
