//! The viewport: which lines and bytes of the buffer it shows.

use crate::text::{
    byte_len, byte_offset, lemma_byte_offset_monotonic, lemma_line_starts, line_count, line_start,
    TextBuffer,
};
use vstd::prelude::*;

verus! {

/// The visible rectangle of the text grid, in cells: the row and column of
/// its first cell, and its size.
#[derive(Clone, Copy, Debug, PartialEq, Eq)]
pub struct Viewport {
    pub offset_row: usize,
    pub offset_col: usize,
    pub width: u16,
    pub height: u16,
}

/// The first and the last line that a viewport of `height` rows shows from
/// row `offset_row` on, clamped to the lines that the text has; `None`
/// where it shows none.
pub open spec fn visible_lines(text: Seq<char>, offset_row: usize, height: usize) -> Option<
    (usize, usize),
> {
    if height == 0 || offset_row >= line_count(text) {
        None
    } else if offset_row + height - 1 < line_count(text) - 1 {
        Some((offset_row, (offset_row + height - 1) as usize))
    } else {
        Some((offset_row, (line_count(text) - 1) as usize))
    }
}

/// The bytes of the visible lines: from the start of the first one to the
/// start of the line after the last one. Where no line is visible, the
/// empty range at the start of row `offset_row`, or at the end of the text.
pub open spec fn visible_bytes(text: Seq<char>, offset_row: usize, height: usize) -> (usize, usize) {
    let start = byte_offset(text, line_start(text, offset_row as int)) as usize;
    match visible_lines(text, offset_row, height) {
        Some((first, last)) => (start, byte_offset(text, line_start(text, last + 1)) as usize),
        None => (start, start),
    }
}

/// Lines start in the order of their numbers.
pub proof fn lemma_line_start_monotonic(text: Seq<char>, i: int, j: int)
    requires
        0 <= i <= j,
    ensures
        0 <= line_start(text, i) <= line_start(text, j) <= text.len(),
{
    lemma_line_starts(text);
}

/// Finds the lines that the viewport shows.
pub fn visible_line_range(buf: &TextBuffer, offset_row: usize, height: usize) -> (lines: Option<
    (usize, usize),
>)
    ensures
        lines == visible_lines(buf@, offset_row, height),
        lines matches Some((first, last)) ==> first == offset_row && first <= last < line_count(
            buf@,
        ) && last - first < height && last < usize::MAX,
{
    let count: usize = buf.len_lines();
    if height == 0 || offset_row >= count {
        None
    } else if height - 1 < count - 1 - offset_row {
        Some((offset_row, offset_row + (height - 1)))
    } else {
        Some((offset_row, count - 1))
    }
}

/// Finds the bytes that the viewport shows.
pub fn viewport_byte_range(buf: &TextBuffer, offset_row: usize, height: usize) -> (range: (
    usize,
    usize,
))
    ensures
        range == visible_bytes(buf@, offset_row, height),
        range.0 <= range.1 <= byte_len(buf@),
{
    let start: usize = buf.line_to_byte(offset_row);
    match visible_line_range(buf, offset_row, height) {
        Some((first, last)) => {
            let end: usize = buf.line_to_byte(last + 1);
            proof {
                lemma_line_start_monotonic(buf@, offset_row as int, last + 1);
                lemma_byte_offset_monotonic(
                    buf@,
                    line_start(buf@, offset_row as int),
                    line_start(buf@, last + 1),
                );
            }
            (start, end)
        },
        None => (start, start),
    }
}

/// The largest line number that the viewport shows, counting from one;
/// `None` where it shows no line.
pub open spec fn last_line_number_spec(text: Seq<char>, offset_row: usize, height: usize) -> Option<
    usize,
> {
    match visible_lines(text, offset_row, height) {
        Some((first, last)) => Some((last + 1) as usize),
        None => None,
    }
}

/// Finds the largest line number that the viewport shows.
pub fn last_line_number(buf: &TextBuffer, offset_row: usize, height: usize) -> (number: Option<
    usize,
>)
    ensures
        number == last_line_number_spec(buf@, offset_row, height),
{
    match visible_line_range(buf, offset_row, height) {
        Some((first, last)) => Some(last + 1),
        None => None,
    }
}

} // verus!
