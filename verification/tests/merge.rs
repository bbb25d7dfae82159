use helix_egui::highlight::{first_source_start, merge, HighlightEvent, Span};

fn src(start: usize, end: usize) -> HighlightEvent {
    HighlightEvent::Source { start, end }
}

fn open(scope: usize) -> HighlightEvent {
    HighlightEvent::HighlightStart(scope)
}

fn close() -> HighlightEvent {
    HighlightEvent::HighlightEnd
}

fn span(scope: usize, start: usize, end: usize) -> Span {
    Span { scope, start, end }
}

/// The open scopes after the stream, or nothing where an end has no start.
fn stack_of(stream: &[HighlightEvent]) -> Option<Vec<usize>> {
    let mut stack = Vec::new();
    for event in stream {
        match event {
            HighlightEvent::HighlightStart(scope) => stack.push(*scope),
            HighlightEvent::HighlightEnd => {
                stack.pop()?;
            }
            HighlightEvent::Source { .. } => {}
        }
    }
    Some(stack)
}

/// The range that the text of the stream covers without gap or overlap.
fn covered(stream: &[HighlightEvent]) -> Option<(usize, usize)> {
    let mut range: Option<(usize, usize)> = None;
    for event in stream {
        if let HighlightEvent::Source { start, end } = event {
            assert!(start <= end);
            range = match range {
                None => Some((*start, *end)),
                Some((lo, hi)) => {
                    assert_eq!(hi, *start, "gap or overlap");
                    Some((lo, *end))
                }
            };
        }
    }
    range
}

/// Each piece of text with the scopes around it, outermost first.
fn pieces(stream: &[HighlightEvent]) -> Vec<(usize, usize, Vec<usize>)> {
    let mut stack = Vec::new();
    let mut out = Vec::new();
    for event in stream {
        match event {
            HighlightEvent::HighlightStart(scope) => stack.push(*scope),
            HighlightEvent::HighlightEnd => {
                stack.pop();
            }
            HighlightEvent::Source { start, end } => out.push((*start, *end, stack.clone())),
        }
    }
    out
}

#[test]
fn merge_without_spans_keeps_the_stream() {
    let events = vec![open(1), src(0, 4), open(2), src(4, 6), close(), close(), src(6, 9)];
    assert_eq!(merge(&events, &vec![]), events);
}

#[test]
fn merge_of_nothing_is_nothing() {
    assert_eq!(merge(&vec![], &vec![]), vec![]);
}

#[test]
fn span_inside_plain_text_splits_it() {
    let merged = merge(&vec![src(0, 10)], &vec![span(7, 3, 6)]);
    assert_eq!(merged, vec![src(0, 3), open(7), src(3, 6), close(), src(6, 10)]);
}

#[test]
fn span_lies_beneath_the_open_syntax_scope() {
    let merged = merge(&vec![open(1), src(0, 10), close()], &vec![span(7, 3, 6)]);
    assert_eq!(
        merged,
        vec![
            open(1),
            src(0, 3),
            close(),
            open(7),
            open(1),
            src(3, 6),
            close(),
            close(),
            open(1),
            src(6, 10),
            close(),
        ]
    );
    assert_eq!(
        pieces(&merged),
        vec![(0, 3, vec![1]), (3, 6, vec![7, 1]), (6, 10, vec![1])]
    );
}

#[test]
fn span_opens_before_a_syntax_scope_at_the_same_offset() {
    let events = vec![src(0, 2), open(1), src(2, 4), close(), src(4, 6)];
    let merged = merge(&events, &vec![span(9, 2, 4)]);
    assert_eq!(
        merged,
        vec![src(0, 2), open(9), open(1), src(2, 4), close(), close(), src(4, 6)]
    );
}

#[test]
fn span_at_the_start_opens_before_the_first_syntax_scope() {
    let events = vec![open(1), src(5, 8), close()];
    let merged = merge(&events, &vec![span(9, 5, 8)]);
    assert_eq!(merged, vec![open(9), open(1), src(5, 8), close(), close()]);
}

#[test]
fn span_across_syntax_scopes_stays_outermost() {
    let events = vec![src(0, 2), open(1), src(2, 4), close(), open(2), src(4, 6), close()];
    let merged = merge(&events, &vec![span(9, 1, 5)]);
    assert_eq!(
        pieces(&merged),
        vec![
            (0, 1, vec![]),
            (1, 2, vec![9]),
            (2, 4, vec![9, 1]),
            (4, 5, vec![9, 2]),
            (5, 6, vec![2]),
        ]
    );
    assert_eq!(stack_of(&merged), Some(vec![]));
    assert_eq!(covered(&merged), Some((0, 6)));
}

#[test]
fn adjacent_spans_follow_one_another() {
    let merged = merge(&vec![src(0, 8)], &vec![span(3, 1, 4), span(1, 4, 5)]);
    assert_eq!(
        merged,
        vec![
            src(0, 1),
            open(3),
            src(1, 4),
            close(),
            open(1),
            src(4, 5),
            close(),
            src(5, 8),
        ]
    );
}

#[test]
fn empty_and_inverted_spans_are_passed_over() {
    let merged = merge(&vec![src(0, 8)], &vec![span(3, 2, 2), span(4, 5, 3), span(1, 6, 7)]);
    assert_eq!(merged, vec![src(0, 6), open(1), src(6, 7), close(), src(7, 8)]);
}

#[test]
fn span_that_begins_before_the_text_is_cut_to_it() {
    let merged = merge(&vec![src(10, 20)], &vec![span(5, 0, 4), span(6, 8, 12)]);
    assert_eq!(merged, vec![open(6), src(10, 12), close(), src(12, 20)]);
}

#[test]
fn span_past_the_text_follows_it() {
    let merged = merge(&vec![src(0, 3)], &vec![span(5, 3, 4)]);
    assert_eq!(merged, vec![src(0, 3), open(5), src(3, 4), close()]);
}

#[test]
fn span_that_reaches_past_the_text_goes_on_after_it() {
    let merged = merge(&vec![open(1), src(0, 3), close()], &vec![span(5, 2, 6)]);
    assert_eq!(
        pieces(&merged),
        vec![(0, 2, vec![1]), (2, 3, vec![5, 1]), (3, 6, vec![5])]
    );
    assert_eq!(stack_of(&merged), Some(vec![]));
}

#[test]
fn spans_without_a_stream_are_emitted_alone() {
    let merged = merge(&vec![], &vec![span(5, 0, 1)]);
    assert_eq!(merged, vec![open(5), src(0, 1), close()]);
}

#[test]
fn empty_text_at_a_span_start_lies_inside_the_span() {
    let merged = merge(&vec![src(2, 2), src(2, 5)], &vec![span(5, 2, 3)]);
    assert_eq!(merged, vec![open(5), src(2, 2), src(2, 3), close(), src(3, 5)]);
}

#[test]
fn merged_stream_is_nested_and_covers_the_range() {
    let events = vec![
        open(1),
        src(0, 5),
        open(2),
        src(5, 9),
        open(3),
        src(9, 12),
        close(),
        close(),
        src(12, 20),
        close(),
        src(20, 30),
    ];
    let span_sets = vec![
        vec![],
        vec![span(8, 0, 30)],
        vec![span(8, 0, 1), span(9, 1, 2)],
        vec![span(8, 4, 6), span(9, 6, 13), span(8, 13, 13), span(7, 19, 21)],
        vec![span(8, 5, 9), span(9, 9, 12), span(7, 12, 20)],
        vec![span(8, 29, 30)],
        vec![span(9, 7, 3), span(8, 3, 25), span(7, 10, 11)],
    ];
    for spans in span_sets {
        let merged = merge(&events, &spans);
        assert_eq!(stack_of(&merged), Some(vec![]), "{:?}", spans);
        assert_eq!(covered(&merged), Some((0, 30)), "{:?}", spans);
    }
}

#[test]
fn merged_text_is_cut_at_every_span_edge() {
    let events = vec![open(1), src(0, 10), close(), src(10, 20)];
    let spans = vec![span(8, 2, 4), span(9, 4, 12), span(7, 15, 16)];
    let merged = merge(&events, &spans);
    for (start, end, _) in pieces(&merged) {
        for s in &spans {
            assert!(!(start < s.start && s.start < end), "{}..{} holds {}", start, end, s.start);
            assert!(!(start < s.end && s.end < end), "{}..{} holds {}", start, end, s.end);
        }
    }
    assert_eq!(
        pieces(&merged),
        vec![
            (0, 2, vec![1]),
            (2, 4, vec![8, 1]),
            (4, 10, vec![9, 1]),
            (10, 12, vec![9]),
            (12, 15, vec![]),
            (15, 16, vec![7]),
            (16, 20, vec![]),
        ]
    );
}

#[test]
fn first_source_start_finds_the_first_text() {
    assert_eq!(first_source_start(&vec![]), None);
    assert_eq!(first_source_start(&vec![open(1), close()]), None);
    assert_eq!(first_source_start(&vec![open(1), src(4, 9), close(), src(9, 12)]), Some(4));
    assert_eq!(first_source_start(&vec![src(7, 7)]), Some(7));
}
