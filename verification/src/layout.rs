//! The compositor: lays the text of a highlight stream out on the rows and
//! columns of the viewport, as styled runs and gutter labels.

use crate::grapheme::{lemma_boundary_at_or_after, next_boundary, next_grapheme_boundary};
use crate::gutter::{
    digit_count, gutter_width, gutter_width_spec, label_col, label_col_spec,
    lemma_digit_count_monotonic,
};
use crate::highlight::HighlightEvent;
use crate::layering::open_scopes;
use crate::style::{resolve_style, resolve_style_spec, StyleSpec};
use crate::text::{line_count, TextBuffer};
use crate::viewport::{last_line_number, last_line_number_spec, Viewport};
use vstd::prelude::*;

verus! {

/// Where the compositor stands on the line that it lays out.
#[derive(Clone, Copy, Debug, PartialEq, Eq)]
pub enum Phase {
    /// At the start of a line of the text, with nothing of it laid out.
    AtLineStart,
    /// Inside a line of the text, on the row where the line began.
    InLine,
    /// Inside a line of the text, on a row that continues it.
    LineWrapped,
    /// The rows of the viewport are used up, or no line is left to show.
    Done,
}

/// A run of text in one style at its place on the screen. The text is the
/// chars of the buffer from `start` up to `end`, or one blank cell where
/// `blank` is set. `col` counts from the first column of the gutter.
#[derive(Clone, Copy, Debug, PartialEq, Eq)]
pub struct StyledRun {
    pub start: usize,
    pub end: usize,
    pub blank: bool,
    pub style: StyleSpec,
    pub row: usize,
    pub col: usize,
}

/// A line number in the gutter: the row, the number, and the column at
/// which its numeral starts.
#[derive(Clone, Copy, Debug, PartialEq, Eq)]
pub struct GutterLabel {
    pub row: usize,
    pub line_number: usize,
    pub col: usize,
}

/// What the compositor is told once for a frame.
#[derive(Clone, Copy, Debug, PartialEq, Eq)]
pub struct LayoutConfig {
    /// The first line of the text that is shown.
    pub offset_row: usize,
    /// The cells that are scrolled off at the start of each line.
    pub offset_col: usize,
    /// The cells of a row that hold text.
    pub width: usize,
    /// The rows of the viewport.
    pub height: usize,
    /// Whether text that does not fit a row continues on the next one.
    pub wrap: bool,
    /// The width of the gutter, which is the column where text starts.
    pub gutter: usize,
    /// The number of lines of the text.
    pub lines: usize,
}

/// The state of the compositor between two events.
pub struct LayoutState {
    /// The scopes that are open, outermost first.
    pub stack: Seq<usize>,
    pub phase: Phase,
    /// The screen row that is being filled.
    pub row: usize,
    /// The line of the text that is being laid out, counted from zero.
    pub line: usize,
    /// The cells of this line that were scrolled off so far.
    pub skipped: usize,
    /// The cells of this row that hold text so far.
    pub x: usize,
    pub runs: Seq<StyledRun>,
    pub labels: Seq<GutterLabel>,
}

/// The gutter label of the line with index `line` on screen row `row`.
pub open spec fn label_of(cfg: LayoutConfig, row: usize, line: usize) -> GutterLabel {
    GutterLabel {
        row,
        line_number: (line + 1) as usize,
        col: label_col_spec(cfg.gutter as nat, (line + 1) as nat) as usize,
    }
}

/// The state before the first event: the label of the first visible line on
/// row zero, or nothing to do where the viewport shows no line.
pub open spec fn initial_state(cfg: LayoutConfig) -> LayoutState {
    if cfg.height == 0 || cfg.offset_row >= cfg.lines {
        LayoutState {
            stack: Seq::empty(),
            phase: Phase::Done,
            row: 0,
            line: cfg.offset_row,
            skipped: 0,
            x: 0,
            runs: Seq::empty(),
            labels: Seq::empty(),
        }
    } else {
        LayoutState {
            stack: Seq::empty(),
            phase: Phase::AtLineStart,
            row: 0,
            line: cfg.offset_row,
            skipped: 0,
            x: 0,
            runs: Seq::empty(),
            labels: seq![label_of(cfg, 0, cfg.offset_row)],
        }
    }
}

/// The state after a line terminator: the next line begins on the next
/// row with its label, unless the rows or the lines are used up.
pub open spec fn newline(cfg: LayoutConfig, st: LayoutState) -> LayoutState {
    if st.row + 1 >= cfg.height || st.line + 1 >= cfg.lines {
        LayoutState { phase: Phase::Done, ..st }
    } else {
        let row = (st.row + 1) as usize;
        let line = (st.line + 1) as usize;
        LayoutState {
            phase: Phase::AtLineStart,
            row,
            line,
            skipped: 0,
            x: 0,
            labels: st.labels.push(label_of(cfg, row, line)),
            ..st
        }
    }
}

/// The state on the row that continues the line, unless the rows are used
/// up.
pub open spec fn wrap_row(cfg: LayoutConfig, st: LayoutState) -> LayoutState {
    if st.row + 1 >= cfg.height {
        LayoutState { phase: Phase::Done, ..st }
    } else {
        LayoutState { phase: Phase::LineWrapped, row: (st.row + 1) as usize, x: 0, ..st }
    }
}

/// The end of the cell that begins at `p`: the next grapheme cluster
/// boundary, or `limit` where the cluster reaches past it.
pub open spec fn cell_end(text: Seq<char>, p: int, limit: int) -> int {
    if next_boundary(text, p) < limit {
        next_boundary(text, p)
    } else {
        limit
    }
}

/// The offset that lies `cells` cells after `p`, and `limit` at most.
pub open spec fn advance(text: Seq<char>, p: int, cells: nat, limit: int) -> int
    decreases cells,
{
    if cells == 0 || p >= limit {
        p
    } else {
        advance(text, cell_end(text, p, limit), (cells - 1) as nat, limit)
    }
}

/// The number of cells between `p` and `advance(text, p, cells, limit)`.
pub open spec fn advance_count(text: Seq<char>, p: int, cells: nat, limit: int) -> nat
    decreases cells,
{
    if cells == 0 || p >= limit {
        0
    } else {
        1 + advance_count(text, cell_end(text, p, limit), (cells - 1) as nat, limit)
    }
}

/// The end of the line fragment that begins at `p`: the offset of the first
/// line feed from `p` on, or `limit` where there is none before it.
pub open spec fn fragment_end(text: Seq<char>, p: int, limit: int) -> int
    decreases limit - p,
{
    if p >= limit || p < 0 || p >= text.len() {
        limit
    } else if text[p] == '\n' {
        p
    } else {
        fragment_end(text, p + 1, limit)
    }
}

/// The phase inside a line, on the row that the state is on.
pub open spec fn in_line(phase: Phase) -> Phase {
    match phase {
        Phase::AtLineStart => Phase::InLine,
        other => other,
    }
}

/// Lays the text from `p` up to `e` out, from the cell where the row
/// stands: as much as fits the row becomes a run; what is left over is
/// cut off, or continues on the next row where lines wrap.
pub open spec fn place(
    text: Seq<char>,
    cfg: LayoutConfig,
    style: StyleSpec,
    st: LayoutState,
    p: int,
    e: int,
) -> LayoutState
    decreases e - p, (if st.x >= cfg.width { 1int } else { 0int }),
    via place_decreases
{
    if p >= e || st.phase is Done || p < 0 || e > text.len() {
        st
    } else if st.x >= cfg.width {
        if cfg.wrap && cfg.width > 0 && !(wrap_row(cfg, st).phase is Done) {
            place(text, cfg, style, wrap_row(cfg, st), p, e)
        } else if cfg.wrap && cfg.width > 0 {
            wrap_row(cfg, st)
        } else {
            st
        }
    } else {
        let room = (cfg.width - st.x) as nat;
        let q = advance(text, p, room, e);
        let run = StyledRun {
            start: p as usize,
            end: q as usize,
            blank: false,
            style,
            row: st.row,
            col: (cfg.gutter + st.x) as usize,
        };
        place(
            text,
            cfg,
            style,
            LayoutState {
                runs: st.runs.push(run),
                x: (st.x + advance_count(text, p, room, e)) as usize,
                ..st
            },
            q,
            e,
        )
    }
}

/// Advancing by at least one cell from before the limit moves forward.
pub proof fn lemma_advance(text: Seq<char>, p: int, cells: nat, limit: int)
    requires
        0 <= p <= limit <= text.len(),
    ensures
        p <= advance(text, p, cells, limit) <= limit,
        advance_count(text, p, cells, limit) <= cells,
        advance_count(text, p, cells, limit) <= advance(text, p, cells, limit) - p,
        cells > 0 && p < limit ==> p < advance(text, p, cells, limit),
        cells > 0 && p < limit ==> advance_count(text, p, cells, limit) > 0,
    decreases cells,
{
    if cells > 0 && p < limit {
        lemma_boundary_at_or_after(text, p + 1);
        lemma_advance(text, cell_end(text, p, limit), (cells - 1) as nat, limit);
    }
}

#[via_fn]
proof fn place_decreases(
    text: Seq<char>,
    cfg: LayoutConfig,
    style: StyleSpec,
    st: LayoutState,
    p: int,
    e: int,
) {
    if 0 <= p < e <= text.len() && !(st.phase is Done) && st.x < cfg.width {
        lemma_advance(text, p, (cfg.width - st.x) as nat, e);
    }
}

/// A fragment that begins before the limit with a char that is no line
/// feed ends after that char.
pub proof fn lemma_fragment_end(text: Seq<char>, p: int, limit: int)
    requires
        0 <= p <= limit <= text.len(),
    ensures
        p <= fragment_end(text, p, limit) <= limit,
        p < limit && text[p] != '\n' ==> p < fragment_end(text, p, limit),
        forall|k: int| p <= k < fragment_end(text, p, limit) ==> text[k] != '\n',
        fragment_end(text, p, limit) < limit ==> text[fragment_end(text, p, limit)] == '\n',
    decreases limit - p,
{
    if p < limit && text[p] != '\n' {
        lemma_fragment_end(text, p + 1, limit);
    }
}

/// Lays one line fragment out, the text from `p` up to `e` that holds no
/// line feed: the cells that are scrolled off are dropped first, the rest
/// is placed.
pub open spec fn lay_fragment(
    text: Seq<char>,
    cfg: LayoutConfig,
    style: StyleSpec,
    st: LayoutState,
    p: int,
    e: int,
) -> LayoutState {
    if st.phase is Done {
        st
    } else {
        let need = if st.skipped < cfg.offset_col {
            (cfg.offset_col - st.skipped) as nat
        } else {
            0nat
        };
        let q = advance(text, p, need, e);
        let dropped = LayoutState {
            skipped: (st.skipped + advance_count(text, p, need, e)) as usize,
            phase: in_line(st.phase),
            ..st
        };
        place(text, cfg, style, dropped, q, e)
    }
}

/// Lays the text from `p` up to `b` out: fragment by fragment, with a new
/// row and its label after each line feed.
pub open spec fn lay_text(
    text: Seq<char>,
    cfg: LayoutConfig,
    style: StyleSpec,
    st: LayoutState,
    p: int,
    b: int,
) -> LayoutState
    decreases b - p,
    via lay_text_decreases
{
    if p >= b || st.phase is Done || p < 0 || b > text.len() {
        st
    } else if text[p] == '\n' {
        lay_text(text, cfg, style, newline(cfg, st), p + 1, b)
    } else {
        let e = fragment_end(text, p, b);
        lay_text(text, cfg, style, lay_fragment(text, cfg, style, st, p, e), e, b)
    }
}

#[via_fn]
proof fn lay_text_decreases(
    text: Seq<char>,
    cfg: LayoutConfig,
    style: StyleSpec,
    st: LayoutState,
    p: int,
    b: int,
) {
    if 0 <= p < b <= text.len() {
        lemma_fragment_end(text, p, b);
    }
}

/// The run of one blank cell that stands for text outside the buffer.
pub open spec fn blank_run(
    cfg: LayoutConfig,
    style: StyleSpec,
    st: LayoutState,
    start: usize,
    end: usize,
) -> StyledRun {
    StyledRun { start, end, blank: true, style, row: st.row, col: (cfg.gutter + st.x) as usize }
}

/// Lays one blank cell out in place of text that the buffer does not hold.
pub open spec fn lay_blank(
    cfg: LayoutConfig,
    style: StyleSpec,
    st: LayoutState,
    start: usize,
    end: usize,
) -> LayoutState {
    if st.phase is Done {
        st
    } else if st.skipped < cfg.offset_col {
        LayoutState { skipped: (st.skipped + 1) as usize, phase: in_line(st.phase), ..st }
    } else if st.x < cfg.width {
        LayoutState {
            runs: st.runs.push(blank_run(cfg, style, st, start, end)),
            x: (st.x + 1) as usize,
            phase: in_line(st.phase),
            ..st
        }
    } else if cfg.wrap && cfg.width > 0 {
        let wrapped = wrap_row(cfg, st);
        if wrapped.phase is Done {
            wrapped
        } else {
            LayoutState {
                runs: wrapped.runs.push(blank_run(cfg, style, wrapped, start, end)),
                x: 1,
                ..wrapped
            }
        }
    } else {
        LayoutState { phase: in_line(st.phase), ..st }
    }
}

/// The state after one more event. A start opens a scope and an end closes
/// the last one; text is laid out in the style of the open scopes, folded
/// over `base` from the outermost scope inward. Nothing changes once the
/// compositor is done.
pub open spec fn layout_step(
    text: Seq<char>,
    cfg: LayoutConfig,
    base: StyleSpec,
    styles: Seq<StyleSpec>,
    st: LayoutState,
    event: HighlightEvent,
) -> LayoutState {
    if st.phase is Done {
        st
    } else {
        match event {
            HighlightEvent::HighlightStart(scope) => LayoutState {
                stack: st.stack.push(scope),
                ..st
            },
            HighlightEvent::HighlightEnd => LayoutState {
                stack: if st.stack.len() > 0 {
                    st.stack.drop_last()
                } else {
                    st.stack
                },
                ..st
            },
            HighlightEvent::Source { start, end } => {
                let style = resolve_style_spec(base, styles, st.stack);
                if start <= end <= text.len() {
                    lay_text(text, cfg, style, st, start as int, end as int)
                } else {
                    lay_blank(cfg, style, st, start, end)
                }
            },
        }
    }
}

/// The state after all of `events`.
pub open spec fn layout_fold(
    text: Seq<char>,
    cfg: LayoutConfig,
    base: StyleSpec,
    styles: Seq<StyleSpec>,
    events: Seq<HighlightEvent>,
) -> LayoutState
    decreases events.len(),
{
    if events.len() == 0 {
        initial_state(cfg)
    } else {
        layout_step(
            text,
            cfg,
            base,
            styles,
            layout_fold(text, cfg, base, styles, events.drop_last()),
            events.last(),
        )
    }
}

/// The width of the gutter of a frame: one cell more than the digits of the
/// largest line number that the viewport shows.
pub open spec fn frame_gutter(text: Seq<char>, viewport: Viewport) -> nat {
    match last_line_number_spec(text, viewport.offset_row, viewport.height as usize) {
        Some(number) => gutter_width_spec(number as nat),
        None => gutter_width_spec(0),
    }
}

/// What the compositor is told for a frame of `text` in `viewport`.
pub open spec fn frame_config(text: Seq<char>, viewport: Viewport, wrap: bool) -> LayoutConfig {
    LayoutConfig {
        offset_row: viewport.offset_row,
        offset_col: viewport.offset_col,
        width: viewport.width as usize,
        height: viewport.height as usize,
        wrap,
        gutter: frame_gutter(text, viewport) as usize,
        lines: line_count(text) as usize,
    }
}

/// The state in which the compositor ends a frame of `text` in `viewport`.
pub open spec fn frame_state(
    text: Seq<char>,
    viewport: Viewport,
    wrap: bool,
    base: StyleSpec,
    styles: Seq<StyleSpec>,
    events: Seq<HighlightEvent>,
) -> LayoutState {
    layout_fold(text, frame_config(text, viewport, wrap), base, styles, events)
}

/// The largest line number that a frame shows.
pub open spec fn last_number(cfg: LayoutConfig) -> int {
    if cfg.offset_row + cfg.height < cfg.lines {
        cfg.offset_row + cfg.height
    } else {
        cfg.lines as int
    }
}

/// True when the configuration is one of a frame: its sizes are those of a
/// viewport, and its gutter is as wide as the largest line number asks.
pub open spec fn config_ok(cfg: LayoutConfig) -> bool {
    &&& cfg.width <= u16::MAX
    &&& cfg.height <= u16::MAX
    &&& cfg.lines >= 1
    &&& cfg.gutter <= 21
    &&& cfg.height > 0 && cfg.offset_row < cfg.lines ==> cfg.gutter == gutter_width_spec(
        last_number(cfg) as nat,
    )
}

/// True when `run` lies on a row of the viewport, in the columns that hold
/// text.
pub open spec fn run_ok(cfg: LayoutConfig, run: StyledRun) -> bool {
    &&& run.row < cfg.height
    &&& cfg.gutter <= run.col < cfg.gutter + cfg.width
    &&& run.blank || run.start < run.end
}

/// True when `label` lies on a row of the viewport and its numeral ends in
/// the last column of the gutter but one.
pub open spec fn label_ok(cfg: LayoutConfig, label: GutterLabel) -> bool {
    &&& label.row < cfg.height
    &&& 1 <= label.line_number <= cfg.lines
    &&& label.line_number <= cfg.offset_row + label.row + 1
    &&& label.col + digit_count(label.line_number as nat) + 1 == cfg.gutter
}

/// True when the state is one that the compositor reaches: the pen stands
/// inside the viewport unless the compositor is done, and every run and
/// label that it has emitted lies inside the viewport.
pub open spec fn state_ok(cfg: LayoutConfig, st: LayoutState) -> bool {
    &&& st.x <= cfg.width
    &&& st.skipped <= cfg.offset_col
    &&& !(st.phase is Done) ==> {
        &&& st.row < cfg.height
        &&& cfg.offset_row <= st.line < cfg.lines
        &&& st.line - cfg.offset_row <= st.row
    }
    &&& forall|i: int| 0 <= i < st.runs.len() ==> run_ok(cfg, #[trigger] st.runs[i])
    &&& forall|i: int| 0 <= i < st.labels.len() ==> label_ok(cfg, #[trigger] st.labels[i])
    &&& st.labels.len() <= cfg.height
    &&& !(st.phase is Done) ==> st.labels.len() <= st.row + 1
}

/// A label of a line that the viewport shows is aligned to the gutter.
pub proof fn lemma_label_ok(cfg: LayoutConfig, row: usize, line: usize)
    requires
        config_ok(cfg),
        row < cfg.height,
        cfg.offset_row <= line < cfg.lines,
        line - cfg.offset_row <= row,
    ensures
        label_ok(cfg, label_of(cfg, row, line)),
{
    lemma_digit_count_monotonic((line + 1) as nat, last_number(cfg) as nat);
}

/// The compositor starts in a state that it may reach.
pub proof fn lemma_initial_ok(cfg: LayoutConfig)
    requires
        config_ok(cfg),
    ensures
        state_ok(cfg, initial_state(cfg)),
{
    if !(cfg.height == 0 || cfg.offset_row >= cfg.lines) {
        lemma_label_ok(cfg, 0, cfg.offset_row);
    }
}

/// A line terminator keeps the state inside the viewport.
pub proof fn lemma_newline_ok(cfg: LayoutConfig, st: LayoutState)
    requires
        config_ok(cfg),
        state_ok(cfg, st),
        !(st.phase is Done),
    ensures
        state_ok(cfg, newline(cfg, st)),
        newline(cfg, st).stack == st.stack,
{
    if !(st.phase is Done) && !(st.row + 1 >= cfg.height || st.line + 1 >= cfg.lines) {
        lemma_label_ok(cfg, (st.row + 1) as usize, (st.line + 1) as usize);
    }
}

/// Placing text keeps the state inside the viewport.
pub proof fn lemma_place_ok(
    text: Seq<char>,
    cfg: LayoutConfig,
    style: StyleSpec,
    st: LayoutState,
    p: int,
    e: int,
)
    requires
        config_ok(cfg),
        state_ok(cfg, st),
        text.len() <= usize::MAX,
    ensures
        state_ok(cfg, place(text, cfg, style, st, p, e)),
        place(text, cfg, style, st, p, e).stack == st.stack,
    decreases e - p, (if st.x >= cfg.width { 1int } else { 0int }),
{
    if p >= e || st.phase is Done || p < 0 || e > text.len() {
    } else if st.x >= cfg.width {
        if cfg.wrap && cfg.width > 0 && !(wrap_row(cfg, st).phase is Done) {
            lemma_place_ok(text, cfg, style, wrap_row(cfg, st), p, e);
        }
    } else {
        let room = (cfg.width - st.x) as nat;
        lemma_advance(text, p, room, e);
        let q = advance(text, p, room, e);
        let run = StyledRun {
            start: p as usize,
            end: q as usize,
            blank: false,
            style,
            row: st.row,
            col: (cfg.gutter + st.x) as usize,
        };
        let next = LayoutState {
            runs: st.runs.push(run),
            x: (st.x + advance_count(text, p, room, e)) as usize,
            ..st
        };
        assert(run_ok(cfg, run));
        lemma_place_ok(text, cfg, style, next, q, e);
    }
}

/// Laying a fragment out keeps the state inside the viewport.
pub proof fn lemma_fragment_ok(
    text: Seq<char>,
    cfg: LayoutConfig,
    style: StyleSpec,
    st: LayoutState,
    p: int,
    e: int,
)
    requires
        config_ok(cfg),
        state_ok(cfg, st),
        0 <= p <= e <= text.len() <= usize::MAX,
    ensures
        state_ok(cfg, lay_fragment(text, cfg, style, st, p, e)),
        lay_fragment(text, cfg, style, st, p, e).stack == st.stack,
{
    if !(st.phase is Done) {
        let need = if st.skipped < cfg.offset_col {
            (cfg.offset_col - st.skipped) as nat
        } else {
            0nat
        };
        lemma_advance(text, p, need, e);
        let dropped = LayoutState {
            skipped: (st.skipped + advance_count(text, p, need, e)) as usize,
            phase: in_line(st.phase),
            ..st
        };
        lemma_place_ok(text, cfg, style, dropped, advance(text, p, need, e), e);
    }
}

/// Laying text out keeps the state inside the viewport.
pub proof fn lemma_text_ok(
    text: Seq<char>,
    cfg: LayoutConfig,
    style: StyleSpec,
    st: LayoutState,
    p: int,
    b: int,
)
    requires
        config_ok(cfg),
        state_ok(cfg, st),
        text.len() <= usize::MAX,
    ensures
        state_ok(cfg, lay_text(text, cfg, style, st, p, b)),
        lay_text(text, cfg, style, st, p, b).stack == st.stack,
    decreases b - p,
{
    if p >= b || st.phase is Done || p < 0 || b > text.len() {
    } else if text[p] == '\n' {
        lemma_newline_ok(cfg, st);
        lemma_text_ok(text, cfg, style, newline(cfg, st), p + 1, b);
    } else {
        let e = fragment_end(text, p, b);
        lemma_fragment_end(text, p, b);
        lemma_fragment_ok(text, cfg, style, st, p, e);
        lemma_text_ok(text, cfg, style, lay_fragment(text, cfg, style, st, p, e), e, b);
    }
}

/// Laying a blank cell out keeps the state inside the viewport.
pub proof fn lemma_blank_ok(
    cfg: LayoutConfig,
    style: StyleSpec,
    st: LayoutState,
    start: usize,
    end: usize,
)
    requires
        config_ok(cfg),
        state_ok(cfg, st),
    ensures
        state_ok(cfg, lay_blank(cfg, style, st, start, end)),
        lay_blank(cfg, style, st, start, end).stack == st.stack,
{
    if st.phase is Done {
    } else if st.skipped < cfg.offset_col {
    } else if st.x < cfg.width {
        assert(run_ok(cfg, blank_run(cfg, style, st, start, end)));
    } else if cfg.wrap && cfg.width > 0 {
        let wrapped = wrap_row(cfg, st);
        if !(wrapped.phase is Done) {
            assert(run_ok(cfg, blank_run(cfg, style, wrapped, start, end)));
        }
    }
}

/// Each event keeps the state inside the viewport.
pub proof fn lemma_step_ok(
    text: Seq<char>,
    cfg: LayoutConfig,
    base: StyleSpec,
    styles: Seq<StyleSpec>,
    st: LayoutState,
    event: HighlightEvent,
)
    requires
        config_ok(cfg),
        state_ok(cfg, st),
        text.len() <= usize::MAX,
    ensures
        state_ok(cfg, layout_step(text, cfg, base, styles, st, event)),
{
    if !(st.phase is Done) {
        match event {
            HighlightEvent::Source { start, end } => {
                let style = resolve_style_spec(base, styles, st.stack);
                if start <= end <= text.len() {
                    lemma_text_ok(text, cfg, style, st, start as int, end as int);
                } else {
                    lemma_blank_ok(cfg, style, st, start, end);
                }
            },
            _ => {},
        }
    }
}

/// Row budget and gutter alignment: whatever the events are, every run and
/// every label of a frame lies on a row of the viewport, there are no more
/// labels than rows, the runs lie in the columns after the gutter, and
/// the numerals of all labels end in the same column.
pub proof fn lemma_fold_ok(
    text: Seq<char>,
    cfg: LayoutConfig,
    base: StyleSpec,
    styles: Seq<StyleSpec>,
    events: Seq<HighlightEvent>,
)
    requires
        config_ok(cfg),
        text.len() <= usize::MAX,
    ensures
        state_ok(cfg, layout_fold(text, cfg, base, styles, events)),
    decreases events.len(),
{
    if events.len() == 0 {
        lemma_initial_ok(cfg);
    } else {
        lemma_fold_ok(text, cfg, base, styles, events.drop_last());
        lemma_step_ok(
            text,
            cfg,
            base,
            styles,
            layout_fold(text, cfg, base, styles, events.drop_last()),
            events.last(),
        );
    }
}

/// While the compositor is not done, the scopes that it holds open are
/// those that the events have opened and not closed.
pub proof fn lemma_fold_stack(
    text: Seq<char>,
    cfg: LayoutConfig,
    base: StyleSpec,
    styles: Seq<StyleSpec>,
    events: Seq<HighlightEvent>,
)
    requires
        config_ok(cfg),
        text.len() <= usize::MAX,
    ensures
        !(layout_fold(text, cfg, base, styles, events).phase is Done) ==> layout_fold(
            text,
            cfg,
            base,
            styles,
            events,
        ).stack == open_scopes(events),
    decreases events.len(),
{
    if events.len() > 0 {
        let before = layout_fold(text, cfg, base, styles, events.drop_last());
        lemma_fold_stack(text, cfg, base, styles, events.drop_last());
        lemma_fold_ok(text, cfg, base, styles, events.drop_last());
        if !(before.phase is Done) {
            match events.last() {
                HighlightEvent::Source { start, end } => {
                    let style = resolve_style_spec(base, styles, before.stack);
                    if start <= end <= text.len() {
                        lemma_text_ok(text, cfg, style, before, start as int, end as int);
                    } else {
                        lemma_blank_ok(cfg, style, before, start, end);
                    }
                },
                _ => {},
            }
        }
    }
}

/// Once the compositor is done, further events change nothing.
pub proof fn lemma_done_is_final(
    text: Seq<char>,
    cfg: LayoutConfig,
    base: StyleSpec,
    styles: Seq<StyleSpec>,
    events: Seq<HighlightEvent>,
    i: int,
)
    requires
        0 <= i <= events.len(),
        layout_fold(text, cfg, base, styles, events.take(i)).phase is Done,
    ensures
        layout_fold(text, cfg, base, styles, events) == layout_fold(
            text,
            cfg,
            base,
            styles,
            events.take(i),
        ),
    decreases events.len() - i,
{
    if i < events.len() {
        assert(events.take(i + 1).drop_last() =~= events.take(i));
        lemma_done_is_final(text, cfg, base, styles, events, i + 1);
    } else {
        assert(events.take(i) =~= events);
    }
}

/// What the compositor hands to the painter: the width of the gutter, the
/// runs and the labels in the order in which they were laid out, and the
/// phase in which the compositor stopped.
#[derive(Debug, PartialEq, Eq)]
pub struct Frame {
    pub gutter_width: usize,
    pub runs: Vec<StyledRun>,
    pub labels: Vec<GutterLabel>,
    pub phase: Phase,
}

/// The text that a run shows: its chars of the buffer, or one blank where
/// the run is a placeholder or its range lies outside the buffer.
pub open spec fn run_text_spec(text: Seq<char>, run: StyledRun) -> Seq<char> {
    if !run.blank && run.start <= run.end <= text.len() {
        text.subrange(run.start as int, run.end as int)
    } else {
        seq![' ']
    }
}

/// Copies the text of a run out of the buffer.
pub fn run_text(buf: &TextBuffer, run: &StyledRun) -> (text: Vec<char>)
    ensures
        text@ == run_text_spec(buf@, *run),
{
    if !run.blank {
        match buf.slice(run.start, run.end) {
            Some(chars) => {
                return chars;
            },
            None => {},
        }
    }
    let mut blank: Vec<char> = Vec::new();
    blank.push(' ');
    proof {
        assert(blank@ =~= seq![' ']);
    }
    blank
}

/// The working state of the compositor.
struct Compositor {
    stack: Vec<usize>,
    phase: Phase,
    row: usize,
    line: usize,
    skipped: usize,
    x: usize,
    runs: Vec<StyledRun>,
    labels: Vec<GutterLabel>,
}

impl Compositor {
    spec fn state(&self) -> LayoutState {
        LayoutState {
            stack: self.stack@,
            phase: self.phase,
            row: self.row,
            line: self.line,
            skipped: self.skipped,
            x: self.x,
            runs: self.runs@,
            labels: self.labels@,
        }
    }

    fn is_done(&self) -> (done: bool)
        ensures
            done == (self.phase is Done),
    {
        match self.phase {
            Phase::Done => true,
            _ => false,
        }
    }

    fn enter_line(&mut self)
        ensures
            final(self).state() == (LayoutState {
                phase: in_line(old(self).phase),
                ..old(self).state()
            }),
    {
        match self.phase {
            Phase::AtLineStart => {
                self.phase = Phase::InLine;
            },
            _ => {},
        }
    }
}

fn make_label(cfg: &LayoutConfig, row: usize, line: usize) -> (label: GutterLabel)
    requires
        line < cfg.lines,
    ensures
        label == label_of(*cfg, row, line),
{
    GutterLabel { row, line_number: line + 1, col: label_col(cfg.gutter, line + 1) }
}

fn start_frame(cfg: &LayoutConfig) -> (c: Compositor)
    ensures
        c.state() == initial_state(*cfg),
{
    let mut c = Compositor {
        stack: Vec::new(),
        phase: Phase::Done,
        row: 0,
        line: cfg.offset_row,
        skipped: 0,
        x: 0,
        runs: Vec::new(),
        labels: Vec::new(),
    };
    if !(cfg.height == 0 || cfg.offset_row >= cfg.lines) {
        c.phase = Phase::AtLineStart;
        c.labels.push(make_label(cfg, 0, cfg.offset_row));
    }
    proof {
        assert(c.state().labels =~= initial_state(*cfg).labels);
        assert(c.state().runs =~= initial_state(*cfg).runs);
        assert(c.state().stack =~= initial_state(*cfg).stack);
    }
    c
}

fn break_line(c: Compositor, cfg: &LayoutConfig) -> (r: Compositor)
    requires
        config_ok(*cfg),
        state_ok(*cfg, c.state()),
        !(c.phase is Done),
    ensures
        r.state() == newline(*cfg, c.state()),
        state_ok(*cfg, r.state()),
{
    let mut cur = c;
    proof {
        lemma_newline_ok(*cfg, c.state());
    }
    if cur.row + 1 >= cfg.height || cur.line + 1 >= cfg.lines {
        cur.phase = Phase::Done;
    } else {
        cur.row = cur.row + 1;
        cur.line = cur.line + 1;
        cur.skipped = 0;
        cur.x = 0;
        cur.phase = Phase::AtLineStart;
        cur.labels.push(make_label(cfg, cur.row, cur.line));
    }
    cur
}

fn advance_cells(buf: &TextBuffer, p: usize, cells: usize, limit: usize) -> (r: (usize, usize))
    requires
        p <= limit <= buf@.len(),
    ensures
        r.0 == advance(buf@, p as int, cells as nat, limit as int),
        r.1 == advance_count(buf@, p as int, cells as nat, limit as int),
{
    let mut q: usize = p;
    let mut n: usize = 0;
    while n < cells && q < limit
        invariant
            p <= q <= limit <= buf@.len(),
            n <= cells,
            advance(buf@, q as int, (cells - n) as nat, limit as int) == advance(
                buf@,
                p as int,
                cells as nat,
                limit as int,
            ),
            n + advance_count(buf@, q as int, (cells - n) as nat, limit as int) == advance_count(
                buf@,
                p as int,
                cells as nat,
                limit as int,
            ),
        decreases cells - n,
    {
        let boundary: usize = next_grapheme_boundary(buf, q);
        q = if boundary < limit {
            boundary
        } else {
            limit
        };
        n = n + 1;
    }
    (q, n)
}

fn place_text(
    c: Compositor,
    buf: &TextBuffer,
    cfg: &LayoutConfig,
    style: StyleSpec,
    p: usize,
    e: usize,
) -> (r: Compositor)
    requires
        config_ok(*cfg),
        state_ok(*cfg, c.state()),
        p <= e <= buf@.len() <= usize::MAX,
    ensures
        r.state() == place(buf@, *cfg, style, c.state(), p as int, e as int),
        state_ok(*cfg, r.state()),
{
    let mut cur = c;
    let mut q: usize = p;
    proof {
        lemma_place_ok(buf@, *cfg, style, c.state(), p as int, e as int);
    }
    loop
        invariant
            config_ok(*cfg),
            state_ok(*cfg, cur.state()),
            q <= e <= buf@.len() <= usize::MAX,
            place(buf@, *cfg, style, cur.state(), q as int, e as int) == place(
                buf@,
                *cfg,
                style,
                c.state(),
                p as int,
                e as int,
            ),
            state_ok(*cfg, place(buf@, *cfg, style, c.state(), p as int, e as int)),
        decreases e - q, (if cur.x >= cfg.width { 1int } else { 0int }),
    {
        if q >= e || cur.is_done() {
            return cur;
        }
        if cur.x >= cfg.width {
            if cfg.wrap && cfg.width > 0 {
                if cur.row + 1 >= cfg.height {
                    cur.phase = Phase::Done;
                    return cur;
                }
                cur.row = cur.row + 1;
                cur.x = 0;
                cur.phase = Phase::LineWrapped;
            } else {
                return cur;
            }
        } else {
            let room: usize = cfg.width - cur.x;
            proof {
                lemma_advance(buf@, q as int, room as nat, e as int);
            }
            let (next, cells) = advance_cells(buf, q, room, e);
            let run = StyledRun {
                start: q,
                end: next,
                blank: false,
                style,
                row: cur.row,
                col: cfg.gutter + cur.x,
            };
            proof {
                assert(run_ok(*cfg, run));
            }
            cur.runs.push(run);
            cur.x = cur.x + cells;
            q = next;
        }
    }
}

fn lay_fragment_text(
    c: Compositor,
    buf: &TextBuffer,
    cfg: &LayoutConfig,
    style: StyleSpec,
    p: usize,
    e: usize,
) -> (r: Compositor)
    requires
        config_ok(*cfg),
        state_ok(*cfg, c.state()),
        p <= e <= buf@.len() <= usize::MAX,
    ensures
        r.state() == lay_fragment(buf@, *cfg, style, c.state(), p as int, e as int),
        state_ok(*cfg, r.state()),
{
    let mut cur = c;
    if cur.is_done() {
        return cur;
    }
    let need: usize = if cur.skipped < cfg.offset_col {
        cfg.offset_col - cur.skipped
    } else {
        0
    };
    proof {
        lemma_advance(buf@, p as int, need as nat, e as int);
    }
    let (q, dropped) = advance_cells(buf, p, need, e);
    cur.skipped = cur.skipped + dropped;
    cur.enter_line();
    place_text(cur, buf, cfg, style, q, e)
}

fn find_fragment_end(buf: &TextBuffer, p: usize, limit: usize) -> (e: usize)
    requires
        p <= limit <= buf@.len(),
    ensures
        e == fragment_end(buf@, p as int, limit as int),
        p <= e <= limit,
{
    let mut q: usize = p;
    proof {
        lemma_fragment_end(buf@, p as int, limit as int);
    }
    while q < limit
        invariant
            p <= q <= limit <= buf@.len(),
            fragment_end(buf@, q as int, limit as int) == fragment_end(
                buf@,
                p as int,
                limit as int,
            ),
        decreases limit - q,
    {
        match buf.char_at(q) {
            Some(c) => {
                if c == '\n' {
                    return q;
                }
            },
            None => {},
        }
        q = q + 1;
    }
    q
}

fn lay_source_text(
    c: Compositor,
    buf: &TextBuffer,
    cfg: &LayoutConfig,
    style: StyleSpec,
    start: usize,
    end: usize,
) -> (r: Compositor)
    requires
        config_ok(*cfg),
        state_ok(*cfg, c.state()),
        start <= end <= buf@.len() <= usize::MAX,
    ensures
        r.state() == lay_text(buf@, *cfg, style, c.state(), start as int, end as int),
        state_ok(*cfg, r.state()),
{
    let mut cur = c;
    let mut p: usize = start;
    while p < end && !cur.is_done()
        invariant
            config_ok(*cfg),
            state_ok(*cfg, cur.state()),
            start <= p <= end <= buf@.len() <= usize::MAX,
            lay_text(buf@, *cfg, style, cur.state(), p as int, end as int) == lay_text(
                buf@,
                *cfg,
                style,
                c.state(),
                start as int,
                end as int,
            ),
        decreases end - p,
    {
        let is_feed: bool = match buf.char_at(p) {
            Some(c) => c == '\n',
            None => false,
        };
        if is_feed {
            cur = break_line(cur, cfg);
            p = p + 1;
        } else {
            proof {
                lemma_fragment_end(buf@, p as int, end as int);
            }
            let e: usize = find_fragment_end(buf, p, end);
            cur = lay_fragment_text(cur, buf, cfg, style, p, e);
            p = e;
        }
    }
    cur
}

fn lay_blank_cell(
    c: Compositor,
    cfg: &LayoutConfig,
    style: StyleSpec,
    start: usize,
    end: usize,
) -> (r: Compositor)
    requires
        config_ok(*cfg),
        state_ok(*cfg, c.state()),
    ensures
        r.state() == lay_blank(*cfg, style, c.state(), start, end),
        state_ok(*cfg, r.state()),
{
    let mut cur = c;
    proof {
        lemma_blank_ok(*cfg, style, c.state(), start, end);
    }
    if cur.is_done() {
        return cur;
    }
    if cur.skipped < cfg.offset_col {
        cur.skipped = cur.skipped + 1;
        cur.enter_line();
    } else if cur.x < cfg.width {
        cur.runs.push(
            StyledRun { start, end, blank: true, style, row: cur.row, col: cfg.gutter + cur.x },
        );
        cur.x = cur.x + 1;
        cur.enter_line();
    } else if cfg.wrap && cfg.width > 0 {
        if cur.row + 1 >= cfg.height {
            cur.phase = Phase::Done;
        } else {
            cur.row = cur.row + 1;
            cur.phase = Phase::LineWrapped;
            cur.runs.push(
                StyledRun { start, end, blank: true, style, row: cur.row, col: cfg.gutter },
            );
            cur.x = 1;
        }
    } else {
        cur.enter_line();
    }
    cur
}

fn layout_event(
    c: Compositor,
    buf: &TextBuffer,
    cfg: &LayoutConfig,
    base: StyleSpec,
    styles: &Vec<StyleSpec>,
    event: HighlightEvent,
) -> (r: Compositor)
    requires
        config_ok(*cfg),
        state_ok(*cfg, c.state()),
    ensures
        r.state() == layout_step(buf@, *cfg, base, styles@, c.state(), event),
        state_ok(*cfg, r.state()),
{
    let mut cur = c;
    if cur.is_done() {
        return cur;
    }
    match event {
        HighlightEvent::HighlightStart(scope) => {
            cur.stack.push(scope);
            cur
        },
        HighlightEvent::HighlightEnd => {
            if cur.stack.len() > 0 {
                cur.stack.pop();
            }
            cur
        },
        HighlightEvent::Source { start, end } => {
            let style: StyleSpec = resolve_style(base, styles, &cur.stack);
            if start <= end && end <= buf.len_chars() {
                lay_source_text(cur, buf, cfg, style, start, end)
            } else {
                lay_blank_cell(cur, cfg, style, start, end)
            }
        },
    }
}

/// Computes what the compositor is told for a frame.
pub fn frame_layout(buf: &TextBuffer, viewport: Viewport, wrap: bool) -> (cfg: LayoutConfig)
    ensures
        cfg == frame_config(buf@, viewport, wrap),
        cfg.gutter == frame_gutter(buf@, viewport),
        config_ok(cfg),
{
    let height: usize = viewport.height as usize;
    let gutter: usize = match last_line_number(buf, viewport.offset_row, height) {
        Some(number) => gutter_width(number),
        None => gutter_width(0),
    };
    LayoutConfig {
        offset_row: viewport.offset_row,
        offset_col: viewport.offset_col,
        width: viewport.width as usize,
        height,
        wrap,
        gutter,
        lines: buf.len_lines(),
    }
}

/// Lays the highlight stream `events` out in `viewport`: each run of text
/// in the style of its scopes, folded over `base` from the styles that
/// `styles` holds for each scope, and a label for each line that begins on
/// a row. The compositor stops as soon as the rows of the viewport are
/// used up.
pub fn compose(
    buf: &TextBuffer,
    events: &Vec<HighlightEvent>,
    styles: &Vec<StyleSpec>,
    base: StyleSpec,
    viewport: Viewport,
    wrap: bool,
) -> (frame: Frame)
    ensures
        frame.gutter_width == frame_gutter(buf@, viewport),
        frame.runs@ == frame_state(buf@, viewport, wrap, base, styles@, events@).runs,
        frame.labels@ == frame_state(buf@, viewport, wrap, base, styles@, events@).labels,
        frame.phase == frame_state(buf@, viewport, wrap, base, styles@, events@).phase,
        frame.labels@.len() <= viewport.height,
        forall|i: int| 0 <= i < frame.runs@.len() ==> (#[trigger] frame.runs@[i]).row < viewport.height,
        forall|i: int|
            0 <= i < frame.runs@.len() ==> frame.gutter_width <= (#[trigger] frame.runs@[i]).col
                < frame.gutter_width + viewport.width,
        forall|i: int|
            0 <= i < frame.labels@.len() ==> (#[trigger] frame.labels@[i]).row < viewport.height,
        forall|i: int|
            0 <= i < frame.labels@.len() ==> (#[trigger] frame.labels@[i]).col + digit_count(
                frame.labels@[i].line_number as nat,
            ) + 1 == frame.gutter_width,
{
    let cfg: LayoutConfig = frame_layout(buf, viewport, wrap);
    let mut cur: Compositor = start_frame(&cfg);
    let mut i: usize = 0;
    proof {
        lemma_initial_ok(cfg);
        assert(events@.take(0) =~= Seq::<HighlightEvent>::empty());
    }
    while i < events.len() && !cur.is_done()
        invariant
            i <= events@.len(),
            config_ok(cfg),
            state_ok(cfg, cur.state()),
            cur.state() == layout_fold(buf@, cfg, base, styles@, events@.take(i as int)),
        decreases events@.len() - i,
    {
        proof {
            assert(events@.take(i + 1).drop_last() =~= events@.take(i as int));
        }
        cur = layout_event(cur, buf, &cfg, base, styles, events[i]);
        i = i + 1;
    }
    proof {
        if cur.phase is Done {
            lemma_done_is_final(buf@, cfg, base, styles@, events@, i as int);
        } else {
            assert(events@.take(i as int) =~= events@);
        }
        let last = cur.state();
        assert forall|k: int| 0 <= k < last.runs.len() implies (#[trigger] last.runs[k]).row
            < viewport.height && cfg.gutter <= last.runs[k].col < cfg.gutter + viewport.width by {
            assert(run_ok(cfg, last.runs[k]));
        }
        assert forall|k: int| 0 <= k < last.labels.len() implies (#[trigger] last.labels[k]).row
            < viewport.height && last.labels[k].col + digit_count(
            last.labels[k].line_number as nat,
        ) + 1 == cfg.gutter by {
            assert(label_ok(cfg, last.labels[k]));
        }
    }
    Frame { gutter_width: cfg.gutter, runs: cur.runs, labels: cur.labels, phase: cur.phase }
}

} // verus!
