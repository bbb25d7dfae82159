use helix_egui::highlight::Span;
use helix_egui::selection::{
    build_selection_highlights, resolve_scopes, Mode, ScopeLookup, SelectionRange,
    SelectionScopes,
};
use helix_egui::text::TextBuffer;

const SCOPES: SelectionScopes =
    SelectionScopes { cursor: 1, cursor_primary: 2, selection: 3, selection_primary: 4 };

fn span(scope: usize, start: usize, end: usize) -> Span {
    Span { scope, start, end }
}

fn range(anchor: usize, head: usize) -> SelectionRange {
    SelectionRange { anchor, head }
}

fn lookup() -> ScopeLookup {
    ScopeLookup {
        selection: 10,
        cursor: None,
        cursor_insert: None,
        cursor_select: None,
        cursor_primary: None,
        selection_primary: None,
    }
}

#[test]
fn forward_selection_has_its_cursor_before_the_head() {
    let buf = TextBuffer::new("abcde");
    let spans = build_selection_highlights(&buf, &vec![range(0, 5)], 7, &SCOPES);
    assert_eq!(spans, vec![span(3, 0, 4), span(1, 4, 5)]);
}

#[test]
fn reverse_selection_has_its_cursor_at_the_head() {
    let buf = TextBuffer::new("abcde");
    let spans = build_selection_highlights(&buf, &vec![range(5, 0)], 7, &SCOPES);
    assert_eq!(spans, vec![span(1, 0, 1), span(3, 1, 5)]);
}

#[test]
fn cursor_at_the_end_is_one_cell_past_the_text() {
    let buf = TextBuffer::new("abc");
    let spans = build_selection_highlights(&buf, &vec![range(3, 3)], 7, &SCOPES);
    assert_eq!(spans, vec![span(1, 3, 4)]);
}

#[test]
fn cursor_in_the_empty_buffer() {
    let buf = TextBuffer::new("");
    let spans = build_selection_highlights(&buf, &vec![range(0, 0)], 0, &SCOPES);
    assert_eq!(spans, vec![span(2, 0, 1)]);
}

#[test]
fn zero_width_selection_becomes_a_block_cursor() {
    let buf = TextBuffer::new("abc");
    let spans = build_selection_highlights(&buf, &vec![range(1, 1)], 7, &SCOPES);
    assert_eq!(spans, vec![span(3, 1, 1), span(1, 1, 2)]);
}

#[test]
fn block_cursor_covers_a_whole_cluster() {
    // a, then e with two combining marks, then b
    let buf = TextBuffer::new("ae\u{301}\u{323}b");
    let spans = build_selection_highlights(&buf, &vec![range(1, 1)], 7, &SCOPES);
    assert_eq!(spans, vec![span(3, 1, 1), span(1, 1, 4)]);
}

#[test]
fn forward_cursor_covers_the_cluster_before_the_head() {
    let buf = TextBuffer::new("abe\u{301}");
    let spans = build_selection_highlights(&buf, &vec![range(0, 4)], 7, &SCOPES);
    assert_eq!(spans, vec![span(3, 0, 2), span(1, 2, 4)]);
}

#[test]
fn reverse_cursor_covers_the_cluster_at_the_head() {
    let buf = TextBuffer::new("e\u{301}bc");
    let spans = build_selection_highlights(&buf, &vec![range(4, 0)], 7, &SCOPES);
    assert_eq!(spans, vec![span(1, 0, 2), span(3, 2, 4)]);
}

#[test]
fn primary_selection_takes_the_primary_scopes() {
    let buf = TextBuffer::new("abcdefgh");
    let ranges = vec![range(0, 2), range(3, 5), range(8, 6)];
    let spans = build_selection_highlights(&buf, &ranges, 1, &SCOPES);
    assert_eq!(
        spans,
        vec![
            span(3, 0, 1),
            span(1, 1, 2),
            span(4, 3, 4),
            span(2, 4, 5),
            span(1, 6, 7),
            span(3, 7, 8),
        ]
    );
}

#[test]
fn no_selection_gives_no_span() {
    let buf = TextBuffer::new("abc");
    assert_eq!(build_selection_highlights(&buf, &vec![], 0, &SCOPES), vec![]);
}

#[test]
fn offsets_past_the_end_are_taken_as_the_end() {
    let buf = TextBuffer::new("abc");
    let spans = build_selection_highlights(&buf, &vec![range(9, 9)], 7, &SCOPES);
    assert_eq!(spans, vec![span(1, 3, 4)]);
    let spans = build_selection_highlights(&buf, &vec![range(1, 9)], 7, &SCOPES);
    assert_eq!(spans, vec![span(3, 1, 2), span(1, 2, 3)]);
}

#[test]
fn scopes_fall_back_to_the_selection_scope() {
    let scopes = resolve_scopes(&lookup(), Mode::Normal);
    assert_eq!(
        scopes,
        SelectionScopes { cursor: 10, cursor_primary: 10, selection: 10, selection_primary: 10 }
    );
}

#[test]
fn cursor_scope_follows_the_mode() {
    let found = ScopeLookup {
        cursor: Some(20),
        cursor_insert: Some(21),
        cursor_select: Some(22),
        ..lookup()
    };
    assert_eq!(resolve_scopes(&found, Mode::Normal).cursor, 20);
    assert_eq!(resolve_scopes(&found, Mode::Insert).cursor, 21);
    assert_eq!(resolve_scopes(&found, Mode::Select).cursor, 22);
    let partly = ScopeLookup { cursor: Some(20), cursor_select: Some(22), ..lookup() };
    assert_eq!(resolve_scopes(&partly, Mode::Insert).cursor, 20);
    assert_eq!(resolve_scopes(&partly, Mode::Insert).cursor_primary, 20);
    let only_insert = ScopeLookup { cursor_insert: Some(21), ..lookup() };
    assert_eq!(resolve_scopes(&only_insert, Mode::Insert).cursor, 21);
    assert_eq!(resolve_scopes(&only_insert, Mode::Normal).cursor, 10);
}

#[test]
fn primary_scopes_refine_the_plain_ones() {
    let found = ScopeLookup {
        cursor: Some(20),
        cursor_primary: Some(30),
        selection_primary: Some(31),
        ..lookup()
    };
    assert_eq!(
        resolve_scopes(&found, Mode::Normal),
        SelectionScopes { cursor: 20, cursor_primary: 30, selection: 10, selection_primary: 31 }
    );
    let no_primary = ScopeLookup { cursor_insert: Some(21), ..lookup() };
    assert_eq!(resolve_scopes(&no_primary, Mode::Insert).cursor_primary, 21);
}

#[test]
fn spans_of_selections_in_order_do_not_overlap() {
    let buf = TextBuffer::new("ae\u{301}bcde\u{301}\u{323}fg\nh");
    let ranges = vec![range(0, 0), range(1, 3), range(3, 3), range(5, 4), range(5, 9), range(12, 12)];
    let spans = build_selection_highlights(&buf, &ranges, 2, &SCOPES);
    let covering: Vec<&Span> = spans.iter().filter(|s| s.start < s.end).collect();
    for pair in covering.windows(2) {
        assert!(pair[0].end <= pair[1].start, "{:?} and {:?}", pair[0], pair[1]);
    }
    assert_eq!(covering.last().unwrap().end, 13);
}
