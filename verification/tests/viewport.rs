use helix_egui::text::TextBuffer;
use helix_egui::viewport::{last_line_number, viewport_byte_range, visible_line_range};

#[test]
fn viewport_inside_the_buffer_shows_its_height_in_lines() {
    let buf = TextBuffer::new("a\nbb\nccc\ndddd\n");
    assert_eq!(buf.len_lines(), 5);
    assert_eq!(visible_line_range(&buf, 1, 2), Some((1, 2)));
    assert_eq!(viewport_byte_range(&buf, 1, 2), (2, 9));
    assert_eq!(last_line_number(&buf, 1, 2), Some(3));
}

#[test]
fn viewport_taller_than_the_buffer_is_clamped() {
    let buf = TextBuffer::new("a\nbb\nccc");
    assert_eq!(visible_line_range(&buf, 0, 100), Some((0, 2)));
    assert_eq!(viewport_byte_range(&buf, 0, 100), (0, 8));
    assert_eq!(visible_line_range(&buf, 2, usize::MAX), Some((2, 2)));
    assert_eq!(viewport_byte_range(&buf, 2, usize::MAX), (5, 8));
    assert_eq!(last_line_number(&buf, 0, 100), Some(3));
}

#[test]
fn viewport_of_no_height_shows_nothing() {
    let buf = TextBuffer::new("a\nbb\nccc");
    assert_eq!(visible_line_range(&buf, 0, 0), None);
    assert_eq!(viewport_byte_range(&buf, 0, 0), (0, 0));
    assert_eq!(viewport_byte_range(&buf, 1, 0), (2, 2));
    assert_eq!(last_line_number(&buf, 1, 0), None);
}

#[test]
fn viewport_past_the_buffer_shows_nothing() {
    let buf = TextBuffer::new("a\nbb\nccc");
    assert_eq!(visible_line_range(&buf, 3, 10), None);
    assert_eq!(viewport_byte_range(&buf, 3, 10), (8, 8));
    assert_eq!(viewport_byte_range(&buf, usize::MAX, 10), (8, 8));
    assert_eq!(last_line_number(&buf, 3, 10), None);
}

#[test]
fn byte_range_counts_bytes_not_chars() {
    let buf = TextBuffer::new("\u{e9}\u{e9}\n\u{20ac}\nz");
    assert_eq!(viewport_byte_range(&buf, 1, 1), (5, 9));
    assert_eq!(viewport_byte_range(&buf, 0, 2), (0, 9));
    assert_eq!(viewport_byte_range(&buf, 2, 5), (9, 10));
}

#[test]
fn empty_buffer_has_one_visible_line() {
    let buf = TextBuffer::new("");
    assert_eq!(visible_line_range(&buf, 0, 24), Some((0, 0)));
    assert_eq!(viewport_byte_range(&buf, 0, 24), (0, 0));
    assert_eq!(last_line_number(&buf, 0, 24), Some(1));
}
