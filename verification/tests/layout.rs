use helix_egui::highlight::HighlightEvent;
use helix_egui::layout::{
    compose, frame_layout, run_text, Frame, GutterLabel, Phase, StyledRun,
};
use helix_egui::style::{Color, StyleSpec, BOLD, Modifier};
use helix_egui::text::TextBuffer;
use helix_egui::viewport::Viewport;

fn src(start: usize, end: usize) -> HighlightEvent {
    HighlightEvent::Source { start, end }
}

fn view(offset_row: usize, offset_col: usize, width: u16, height: u16) -> Viewport {
    Viewport { offset_row, offset_col, width, height }
}

fn plain() -> StyleSpec {
    StyleSpec { fg: Some(Color::White), bg: None, modifiers: None }
}

fn run(start: usize, end: usize, row: usize, col: usize) -> StyledRun {
    StyledRun { start, end, blank: false, style: plain(), row, col }
}

fn label(row: usize, line_number: usize, col: usize) -> GutterLabel {
    GutterLabel { row, line_number, col }
}

fn lay(text: &str, events: Vec<HighlightEvent>, viewport: Viewport, wrap: bool) -> Frame {
    let buf = TextBuffer::new(text);
    compose(&buf, &events, &vec![], plain(), viewport, wrap)
}

fn text_of(text: &str, run: &StyledRun) -> String {
    if run.blank {
        " ".to_string()
    } else {
        text.chars().skip(run.start).take(run.end - run.start).collect()
    }
}

#[test]
fn lines_become_rows_with_labels() {
    let frame = lay("ab\ncd\n", vec![src(0, 6)], view(0, 0, 80, 24), false);
    assert_eq!(frame.gutter_width, 2);
    assert_eq!(frame.labels, vec![label(0, 1, 0), label(1, 2, 0), label(2, 3, 0)]);
    assert_eq!(frame.runs, vec![run(0, 2, 0, 2), run(3, 5, 1, 2)]);
    assert_eq!(frame.phase, Phase::AtLineStart);
}

#[test]
fn text_without_line_feed_stays_on_one_row() {
    let frame = lay("hello", vec![src(0, 2), src(2, 5)], view(0, 0, 80, 24), false);
    assert_eq!(frame.labels, vec![label(0, 1, 0)]);
    assert_eq!(frame.runs, vec![run(0, 2, 0, 2), run(2, 5, 0, 4)]);
    assert_eq!(frame.phase, Phase::InLine);
}

#[test]
fn compositor_stops_when_the_rows_are_used_up() {
    let text = "a\nb\nc\nd\ne\n";
    let frame = lay(text, vec![src(0, 10)], view(0, 0, 80, 2), false);
    assert_eq!(frame.labels, vec![label(0, 1, 0), label(1, 2, 0)]);
    assert_eq!(frame.runs, vec![run(0, 1, 0, 2), run(2, 3, 1, 2)]);
    assert_eq!(frame.phase, Phase::Done);
}

#[test]
fn events_after_the_last_row_are_left_alone() {
    let text = "a\nb\nc\n";
    let events = vec![src(0, 2), HighlightEvent::HighlightStart(0), src(2, 6)];
    let frame = lay(text, events, view(0, 0, 80, 1), false);
    assert_eq!(frame.labels, vec![label(0, 1, 0)]);
    assert_eq!(frame.runs, vec![run(0, 1, 0, 2)]);
    assert_eq!(frame.phase, Phase::Done);
}

#[test]
fn viewport_of_no_height_gives_an_empty_frame() {
    let frame = lay("a\nb\n", vec![src(0, 4)], view(0, 0, 80, 0), false);
    assert_eq!(frame.labels, vec![]);
    assert_eq!(frame.runs, vec![]);
    assert_eq!(frame.phase, Phase::Done);
}

#[test]
fn viewport_past_the_buffer_gives_an_empty_frame() {
    let frame = lay("a\nb", vec![src(0, 3)], view(5, 0, 80, 10), false);
    assert_eq!(frame.labels, vec![]);
    assert_eq!(frame.runs, vec![]);
    assert_eq!(frame.phase, Phase::Done);
}

#[test]
fn viewport_of_no_width_gives_labels_only() {
    let frame = lay("ab\ncd\nef", vec![src(0, 8)], view(0, 0, 0, 10), false);
    assert_eq!(frame.labels, vec![label(0, 1, 0), label(1, 2, 0), label(2, 3, 0)]);
    assert_eq!(frame.runs, vec![]);
    let frame = lay("ab\ncd\nef", vec![src(0, 8)], view(0, 0, 0, 10), true);
    assert_eq!(frame.labels, vec![label(0, 1, 0), label(1, 2, 0), label(2, 3, 0)]);
    assert_eq!(frame.runs, vec![]);
}

#[test]
fn text_wider_than_the_viewport_is_cut_off() {
    let frame = lay("abcdef\ngh", vec![src(0, 9)], view(0, 0, 3, 10), false);
    assert_eq!(frame.runs, vec![run(0, 3, 0, 2), run(7, 9, 1, 2)]);
    assert_eq!(frame.labels, vec![label(0, 1, 0), label(1, 2, 0)]);
}

#[test]
fn cut_off_row_takes_no_more_text_from_later_events() {
    let frame = lay("abcdef", vec![src(0, 2), src(2, 4), src(4, 6)], view(0, 0, 3, 10), false);
    assert_eq!(frame.runs, vec![run(0, 2, 0, 2), run(2, 3, 0, 4)]);
}

#[test]
fn wrapped_text_goes_on_in_the_next_row() {
    let frame = lay("abcdefg\nhi", vec![src(0, 10)], view(0, 0, 3, 10), true);
    assert_eq!(
        frame.runs,
        vec![run(0, 3, 0, 2), run(3, 6, 1, 2), run(6, 7, 2, 2), run(8, 10, 3, 2)]
    );
    assert_eq!(frame.labels, vec![label(0, 1, 0), label(3, 2, 0)]);
    assert_eq!(frame.phase, Phase::InLine);
}

#[test]
fn wrapped_rows_count_against_the_height() {
    let frame = lay("abcdefg\nhi", vec![src(0, 10)], view(0, 0, 3, 2), true);
    assert_eq!(frame.runs, vec![run(0, 3, 0, 2), run(3, 6, 1, 2)]);
    assert_eq!(frame.labels, vec![label(0, 1, 0)]);
    assert_eq!(frame.phase, Phase::Done);
}

#[test]
fn row_that_is_just_full_wraps_only_for_more_text() {
    let frame = lay("abc\ndef", vec![src(0, 7)], view(0, 0, 3, 10), true);
    assert_eq!(frame.runs, vec![run(0, 3, 0, 2), run(4, 7, 1, 2)]);
    assert_eq!(frame.labels, vec![label(0, 1, 0), label(1, 2, 0)]);
}

#[test]
fn wrapping_leaves_the_phase_on_a_continuation_row() {
    let frame = lay("abcd", vec![src(0, 4)], view(0, 0, 3, 10), true);
    assert_eq!(frame.runs, vec![run(0, 3, 0, 2), run(3, 4, 1, 2)]);
    assert_eq!(frame.phase, Phase::LineWrapped);
}

#[test]
fn horizontal_scroll_drops_the_first_cells_of_each_line() {
    let frame = lay("abcdef\ng\nhijk", vec![src(0, 13)], view(0, 2, 3, 10), false);
    assert_eq!(frame.runs, vec![run(2, 5, 0, 2), run(11, 13, 2, 2)]);
    assert_eq!(frame.labels, vec![label(0, 1, 0), label(1, 2, 0), label(2, 3, 0)]);
}

#[test]
fn horizontal_scroll_is_counted_across_events_of_one_line() {
    let events = vec![src(0, 1), src(1, 2), src(2, 4), src(4, 6)];
    let frame = lay("abcdef", events, view(0, 3, 10, 10), false);
    assert_eq!(frame.runs, vec![run(3, 4, 0, 2), run(4, 6, 0, 3)]);
}

#[test]
fn first_visible_line_is_numbered_by_its_place_in_the_buffer() {
    let text = "a\nb\nc\nd\ne";
    let frame = lay(text, vec![src(4, 9)], view(2, 0, 80, 2), false);
    assert_eq!(frame.labels, vec![label(0, 3, 0), label(1, 4, 0)]);
    assert_eq!(frame.runs, vec![run(4, 5, 0, 2), run(6, 7, 1, 2)]);
    assert_eq!(frame.phase, Phase::Done);
}

#[test]
fn labels_nine_and_ten_end_in_the_same_column() {
    let text = "1\n2\n3\n4\n5\n6\n7\n8\n9\n10\n11\n12";
    let frame = lay(text, vec![src(16, 26)], view(8, 0, 80, 3), false);
    assert_eq!(frame.gutter_width, 3);
    assert_eq!(frame.labels, vec![label(0, 9, 1), label(1, 10, 0), label(2, 11, 0)]);
    assert_eq!(frame.runs, vec![run(16, 17, 0, 3), run(18, 20, 1, 3), run(21, 23, 2, 3)]);
    for l in &frame.labels {
        assert_eq!(l.col + format!("{}", l.line_number).len() + 1, frame.gutter_width);
    }
}

#[test]
fn gutter_width_comes_from_the_last_visible_line() {
    let text = "x\n".repeat(150);
    let buf = TextBuffer::new(&text);
    assert_eq!(frame_layout(&buf, view(0, 0, 80, 9), false).gutter, 2);
    assert_eq!(frame_layout(&buf, view(0, 0, 80, 10), false).gutter, 3);
    assert_eq!(frame_layout(&buf, view(95, 0, 80, 4), false).gutter, 3);
    assert_eq!(frame_layout(&buf, view(95, 0, 80, 5), false).gutter, 4);
    assert_eq!(frame_layout(&buf, view(0, 0, 80, 400), false).gutter, 4);
    assert_eq!(frame_layout(&buf, view(0, 0, 80, 400), false).lines, 151);
    assert_eq!(frame_layout(&buf, view(500, 0, 80, 10), false).gutter, 2);
}

#[test]
fn row_budget_holds_for_long_texts() {
    let text = "abcdefghij\n".repeat(500);
    let buf = TextBuffer::new(&text);
    for wrap in [false, true] {
        for height in [0u16, 1, 2, 7, 50] {
            let events = vec![src(0, buf.len_chars())];
            let frame = compose(&buf, &events, &vec![], plain(), view(3, 0, 4, height), wrap);
            assert!(frame.labels.len() <= height as usize);
            for r in &frame.runs {
                assert!(r.row < height as usize);
                assert!(r.col >= frame.gutter_width && r.col < frame.gutter_width + 4);
            }
            for l in &frame.labels {
                assert!(l.row < height as usize);
            }
        }
    }
}

#[test]
fn text_outside_the_buffer_becomes_one_blank_cell() {
    let frame = lay("abc", vec![src(0, 3), src(3, 4)], view(0, 0, 80, 10), false);
    assert_eq!(
        frame.runs,
        vec![
            run(0, 3, 0, 2),
            StyledRun { start: 3, end: 4, blank: true, style: plain(), row: 0, col: 5 },
        ]
    );
    assert_eq!(text_of("abc", &frame.runs[1]), " ");
}

#[test]
fn inverted_range_becomes_one_blank_cell() {
    let frame = lay("abc", vec![src(2, 1)], view(0, 0, 80, 10), false);
    assert_eq!(
        frame.runs,
        vec![StyledRun { start: 2, end: 1, blank: true, style: plain(), row: 0, col: 2 }]
    );
}

#[test]
fn blank_cell_wraps_like_text() {
    let frame = lay("abc", vec![src(0, 3), src(3, 4)], view(0, 0, 3, 10), true);
    assert_eq!(
        frame.runs,
        vec![
            run(0, 3, 0, 2),
            StyledRun { start: 3, end: 4, blank: true, style: plain(), row: 1, col: 2 },
        ]
    );
    let frame = lay("abc", vec![src(0, 3), src(3, 4)], view(0, 0, 3, 10), false);
    assert_eq!(frame.runs, vec![run(0, 3, 0, 2)]);
    let frame = lay("abc", vec![src(0, 3), src(3, 4)], view(0, 0, 3, 1), true);
    assert_eq!(frame.runs, vec![run(0, 3, 0, 2)]);
    assert_eq!(frame.phase, Phase::Done);
}

#[test]
fn blank_cell_can_be_scrolled_off() {
    let frame = lay("", vec![src(0, 1)], view(0, 1, 10, 10), false);
    assert_eq!(frame.runs, vec![]);
    assert_eq!(frame.phase, Phase::InLine);
}

#[test]
fn clusters_are_cells_and_are_never_split() {
    // three clusters of two chars each
    let text = "e\u{301}o\u{308}u\u{308}";
    let frame = lay(text, vec![src(0, 6)], view(0, 0, 2, 10), false);
    assert_eq!(frame.runs, vec![run(0, 4, 0, 2)]);
    let frame = lay(text, vec![src(0, 6)], view(0, 1, 1, 10), false);
    assert_eq!(frame.runs, vec![run(2, 4, 0, 2)]);
    let frame = lay(text, vec![src(0, 6)], view(0, 0, 2, 10), true);
    assert_eq!(frame.runs, vec![run(0, 4, 0, 2), run(4, 6, 1, 2)]);
    assert_eq!(text_of(text, &frame.runs[1]), "u\u{308}");
}

#[test]
fn runs_take_the_style_of_their_scopes() {
    let styles = vec![
        StyleSpec { fg: Some(Color::Red), bg: None, modifiers: None },
        StyleSpec { fg: None, bg: Some(Color::Blue), modifiers: Some(Modifier { bits: BOLD }) },
    ];
    let events = vec![
        src(0, 1),
        HighlightEvent::HighlightStart(0),
        src(1, 2),
        HighlightEvent::HighlightStart(1),
        src(2, 3),
        HighlightEvent::HighlightEnd,
        src(3, 4),
        HighlightEvent::HighlightEnd,
        src(4, 5),
    ];
    let buf = TextBuffer::new("abcde");
    let frame = compose(&buf, &events, &styles, plain(), view(0, 0, 80, 10), false);
    let red = StyleSpec { fg: Some(Color::Red), bg: None, modifiers: None };
    let both = StyleSpec {
        fg: Some(Color::Red),
        bg: Some(Color::Blue),
        modifiers: Some(Modifier { bits: BOLD }),
    };
    let styles_of_runs: Vec<StyleSpec> = frame.runs.iter().map(|r| r.style).collect();
    assert_eq!(styles_of_runs, vec![plain(), red, both, red, plain()]);
}

#[test]
fn end_without_start_is_passed_over() {
    let events = vec![HighlightEvent::HighlightEnd, src(0, 2)];
    let frame = lay("ab", events, view(0, 0, 80, 10), false);
    assert_eq!(frame.runs, vec![run(0, 2, 0, 2)]);
}

#[test]
fn no_label_is_made_for_a_line_that_the_buffer_lacks() {
    let frame = lay("a\n", vec![src(0, 2), src(0, 2)], view(0, 0, 80, 10), false);
    assert_eq!(frame.labels, vec![label(0, 1, 0), label(1, 2, 0)]);
    assert_eq!(frame.runs, vec![run(0, 1, 0, 2), run(0, 1, 1, 2)]);
    assert_eq!(frame.phase, Phase::Done);
}

#[test]
fn carriage_return_takes_a_cell_of_its_line() {
    let frame = lay("ab\r\ncd", vec![src(0, 6)], view(0, 0, 80, 10), false);
    assert_eq!(frame.runs, vec![run(0, 3, 0, 2), run(4, 6, 1, 2)]);
}

#[test]
fn empty_stream_gives_the_first_label_only() {
    let frame = lay("abc", vec![], view(0, 0, 80, 10), false);
    assert_eq!(frame.labels, vec![label(0, 1, 0)]);
    assert_eq!(frame.runs, vec![]);
    assert_eq!(frame.phase, Phase::AtLineStart);
}

#[test]
fn run_text_copies_the_chars_of_a_run() {
    let buf = TextBuffer::new("ab\u{e9}d");
    let text: String = run_text(&buf, &run(1, 3, 0, 0)).into_iter().collect();
    assert_eq!(text, "b\u{e9}");
    assert_eq!(run_text(&buf, &run(2, 2, 0, 0)), vec![]);
}

#[test]
fn run_text_of_a_blank_or_a_bad_range_is_one_blank() {
    let buf = TextBuffer::new("abc");
    let blank = StyledRun { start: 0, end: 2, blank: true, style: plain(), row: 0, col: 0 };
    assert_eq!(run_text(&buf, &blank), vec![' ']);
    assert_eq!(run_text(&buf, &run(2, 9, 0, 0)), vec![' ']);
    assert_eq!(run_text(&buf, &run(3, 1, 0, 0)), vec![' ']);
}
