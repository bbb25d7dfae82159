//! Offsets that respect grapheme clusters: where clusters begin and end in a
//! buffer, and how byte offsets map to char offsets that split none of them.

use crate::text::{
    byte_offset, char_of_byte, lemma_byte_offset_monotonic, lemma_char_of_byte_monotonic,
    TextBuffer,
};
use vstd::prelude::*;
use vstd::string::StringSliceAdditionalSpecFns;
use vstd::utf8::*;

verus! {

/// What Unicode text segmentation answers for the byte offset `byte_idx` of
/// `text`: whether an extended grapheme cluster begins there, or nothing
/// where it gives no answer.
pub uninterp spec fn grapheme_break(text: Seq<char>, byte_idx: int) -> Option<bool>;

/// Asks `unicode_segmentation::GraphemeCursor::is_boundary`, with extended
/// clusters and the whole text as its one chunk, whether a cluster begins at
/// `byte_idx`. The answer depends on the text and the offset alone; the
/// offset has to lie on a char boundary, since the cursor slices the text
/// there.
#[verifier::external_body]
fn segmentation_break(text: &str, byte_idx: usize) -> (answer: Option<bool>)
    requires
        is_char_boundary(text.spec_bytes(), byte_idx as int),
    ensures
        answer == grapheme_break(text@, byte_idx as int),
{
    unicode_segmentation::GraphemeCursor::new(byte_idx, text.len(), true)
        .is_boundary(text, 0)
        .ok()
}

/// True when no grapheme cluster of `text` extends across char offset `i`.
/// Both ends of the text are boundaries, and so is every offset for which
/// segmentation reports no cluster in progress.
pub open spec fn is_boundary(text: Seq<char>, i: int) -> bool {
    i <= 0 || i >= text.len() || grapheme_break(text, byte_offset(text, i) as int) != Some(false)
}

/// The first boundary at or after `i`; the end of the text for an offset
/// at or past it.
pub open spec fn boundary_at_or_after(text: Seq<char>, i: int) -> int
    decreases text.len() - i,
{
    if i >= text.len() {
        text.len() as int
    } else if is_boundary(text, i) {
        i
    } else {
        boundary_at_or_after(text, i + 1)
    }
}

/// The last boundary at or before `i`; the start of the text at the latest.
pub open spec fn boundary_at_or_before(text: Seq<char>, i: int) -> int
    decreases i,
{
    if i <= 0 {
        0
    } else if is_boundary(text, i) {
        i
    } else {
        boundary_at_or_before(text, i - 1)
    }
}

/// The first boundary after `i`; the end of the text where there is none.
pub open spec fn next_boundary(text: Seq<char>, i: int) -> int {
    if i >= text.len() {
        text.len() as int
    } else if i < 0 {
        0
    } else {
        boundary_at_or_after(text, i + 1)
    }
}

/// The last boundary before `i`; the start of the text where there is none.
/// An offset past the end counts as the end.
pub open spec fn prev_boundary(text: Seq<char>, i: int) -> int {
    if i <= 0 {
        0
    } else if i >= text.len() {
        boundary_at_or_before(text, text.len() - 1)
    } else {
        boundary_at_or_before(text, i - 1)
    }
}

/// The char offset for byte offset `b` that splits no cluster: the offset of
/// the char that holds the byte, moved forward to the next boundary.
pub open spec fn safe_char_of_byte(text: Seq<char>, b: int) -> int {
    boundary_at_or_after(text, char_of_byte(text, b))
}

/// The byte offset of a char is a char boundary of the encoded text.
pub proof fn lemma_offset_is_char_boundary(text: Seq<char>, i: int)
    ensures
        is_char_boundary(encode_utf8(text), byte_offset(text, i) as int),
    decreases text.len(),
{
    encode_utf8_valid_utf8(text);
    let bytes = encode_utf8(text);
    if i <= 0 || text.len() == 0 {
    } else {
        let rest = text.drop_first();
        encode_utf8_first_scalar(text);
        assert(pop_first_scalar(bytes) =~= encode_utf8(rest));
        lemma_offset_is_char_boundary(rest, i - 1);
        if i < text.len() {
            let pre = text.subrange(0, i);
            assert(pre.drop_first() =~= rest.subrange(0, i - 1));
            assert(rest.subrange(0, 0) =~= Seq::<char>::empty());
            lemma_byte_offset_monotonic(text, i, text.len() as int);
        }
    }
}

/// `boundary_at_or_after` finds a boundary, skips none, and moves forward
/// only.
pub proof fn lemma_boundary_at_or_after(text: Seq<char>, i: int)
    requires
        0 <= i,
    ensures
        i <= text.len() ==> i <= boundary_at_or_after(text, i),
        boundary_at_or_after(text, i) <= text.len(),
        is_boundary(text, boundary_at_or_after(text, i)),
        forall|k: int| i <= k < boundary_at_or_after(text, i) ==> !is_boundary(text, k),
    decreases text.len() - i,
{
    if i < text.len() && !is_boundary(text, i) {
        lemma_boundary_at_or_after(text, i + 1);
    }
}

/// From a later offset the first boundary is no earlier.
pub proof fn lemma_boundary_at_or_after_monotonic(text: Seq<char>, i: int, j: int)
    requires
        0 <= i <= j,
    ensures
        boundary_at_or_after(text, i) <= boundary_at_or_after(text, j),
{
    lemma_boundary_at_or_after(text, i);
    lemma_boundary_at_or_after(text, j);
}

/// A later byte offset maps to no earlier char offset.
pub proof fn lemma_safe_char_monotonic(text: Seq<char>, a: int, b: int)
    requires
        a <= b,
    ensures
        0 <= safe_char_of_byte(text, a) <= safe_char_of_byte(text, b) <= text.len(),
{
    lemma_char_of_byte_monotonic(text, a, b);
    lemma_boundary_at_or_after_monotonic(text, char_of_byte(text, a), char_of_byte(text, b));
    lemma_boundary_at_or_after(text, char_of_byte(text, a));
    lemma_boundary_at_or_after(text, char_of_byte(text, b));
}

/// `boundary_at_or_before` finds a boundary, skips none, and moves backward
/// only.
pub proof fn lemma_boundary_at_or_before(text: Seq<char>, i: int)
    ensures
        0 <= boundary_at_or_before(text, i),
        i >= 0 ==> boundary_at_or_before(text, i) <= i,
        is_boundary(text, boundary_at_or_before(text, i)),
        forall|k: int| boundary_at_or_before(text, i) < k <= i ==> !is_boundary(text, k),
    decreases i,
{
    if i > 0 && !is_boundary(text, i) {
        lemma_boundary_at_or_before(text, i - 1);
    }
}

/// Tells whether a grapheme cluster boundary lies at char offset `i`.
pub fn is_grapheme_boundary(buf: &TextBuffer, i: usize) -> (r: bool)
    ensures
        r == is_boundary(buf@, i as int),
{
    if i == 0 || i >= buf.len_chars() {
        return true;
    }
    let text: &str = buf.as_str();
    let b: usize = buf.char_to_byte(i);
    proof {
        lemma_offset_is_char_boundary(buf@, i as int);
    }
    match segmentation_break(text, b) {
        Some(false) => false,
        _ => true,
    }
}

/// Moves `i` forward to the next grapheme cluster boundary unless it lies on
/// one already.
pub fn ensure_grapheme_boundary_next(buf: &TextBuffer, i: usize) -> (r: usize)
    ensures
        r == boundary_at_or_after(buf@, i as int),
        is_boundary(buf@, r as int),
        i <= buf@.len() ==> i <= r,
        r <= buf@.len(),
        forall|k: int| i <= k < r ==> !is_boundary(buf@, k),
{
    let n: usize = buf.len_chars();
    if i >= n {
        return n;
    }
    let mut j: usize = i;
    proof {
        lemma_boundary_at_or_after(buf@, i as int);
    }
    while j < n && !is_grapheme_boundary(buf, j)
        invariant
            i <= j <= n,
            n == buf@.len(),
            boundary_at_or_after(buf@, j as int) == boundary_at_or_after(buf@, i as int),
        decreases n - j,
    {
        j = j + 1;
    }
    j
}

/// The first grapheme cluster boundary after `i`.
pub fn next_grapheme_boundary(buf: &TextBuffer, i: usize) -> (r: usize)
    ensures
        r == next_boundary(buf@, i as int),
        is_boundary(buf@, r as int),
        r <= buf@.len(),
        i < buf@.len() ==> i < r,
        forall|k: int| i < k < r ==> !is_boundary(buf@, k),
{
    let n: usize = buf.len_chars();
    if i >= n {
        n
    } else {
        ensure_grapheme_boundary_next(buf, i + 1)
    }
}

/// The last grapheme cluster boundary before `i`.
pub fn prev_grapheme_boundary(buf: &TextBuffer, i: usize) -> (r: usize)
    ensures
        r == prev_boundary(buf@, i as int),
        is_boundary(buf@, r as int),
        r <= i,
        r <= buf@.len(),
        0 < i <= buf@.len() ==> r < i,
        forall|k: int| r < k < i && k < buf@.len() ==> !is_boundary(buf@, k),
{
    let n: usize = buf.len_chars();
    if i == 0 || n == 0 {
        return 0;
    }
    let from: usize = if i >= n {
        n - 1
    } else {
        i - 1
    };
    let mut j: usize = from;
    proof {
        lemma_boundary_at_or_before(buf@, from as int);
    }
    while j > 0 && !is_grapheme_boundary(buf, j)
        invariant
            j <= from,
            boundary_at_or_before(buf@, j as int) == boundary_at_or_before(buf@, from as int),
        decreases j,
    {
        j = j - 1;
    }
    j
}

/// Maps a byte offset to a char offset that lies inside no grapheme cluster:
/// the char that holds the byte, moved forward to a boundary and never
/// backward.
pub fn byte_to_safe_char(buf: &TextBuffer, byte_idx: usize) -> (r: usize)
    ensures
        r == safe_char_of_byte(buf@, byte_idx as int),
        is_boundary(buf@, r as int),
        char_of_byte(buf@, byte_idx as int) <= r <= buf@.len(),
        forall|k: int| char_of_byte(buf@, byte_idx as int) <= k < r ==> !is_boundary(buf@, k),
{
    let c: usize = buf.byte_to_char(byte_idx);
    ensure_grapheme_boundary_next(buf, c)
}

/// The last char boundary of the encoded text `bytes` at or before byte
/// offset `index`; the end of the text for an offset at or past it.
pub open spec fn floor_char_boundary(bytes: Seq<u8>, index: int) -> int
    decreases index,
{
    if index <= 0 {
        0
    } else if index >= bytes.len() {
        bytes.len() as int
    } else if is_char_boundary(bytes, index) {
        index
    } else {
        floor_char_boundary(bytes, index - 1)
    }
}

/// Cuts a byte length down to whole chars: the largest byte offset of `val`
/// at or before `index` at which a char ends.
pub fn get_grapheme_index(val: &str, index: usize) -> (r: usize)
    ensures
        r == floor_char_boundary(val.spec_bytes(), index as int),
        r <= index,
        r <= val.spec_bytes().len(),
        is_char_boundary(val.spec_bytes(), r as int),
{
    let bytes = val.as_bytes();
    let len: usize = bytes.len();
    proof {
        vstd::slice::axiom_spec_len(bytes);
        encode_utf8_valid_utf8(val@);
        is_char_boundary_start_end_of_seq(val.spec_bytes());
    }
    if index >= len {
        return len;
    }
    let mut i: usize = index;
    while i > 0 && !val.is_char_boundary(i)
        invariant
            i <= index < len,
            len == val.spec_bytes().len(),
            valid_utf8(val.spec_bytes()),
            floor_char_boundary(val.spec_bytes(), i as int) == floor_char_boundary(
                val.spec_bytes(),
                index as int,
            ),
        decreases i,
    {
        i = i - 1;
    }
    i
}

} // verus!
