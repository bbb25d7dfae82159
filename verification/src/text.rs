//! The text buffer: a sequence of Unicode scalar values that is addressed by
//! char offset, by byte offset of its UTF-8 encoding, and by line.

use vstd::prelude::*;
use vstd::std_specs::iter::IteratorSpec;
use vstd::utf8::*;

verus! {

/// Length in bytes of the UTF-8 encoding of `s`.
pub open spec fn byte_len(s: Seq<char>) -> nat {
    encode_utf8(s).len()
}

/// Byte offset at which the char with index `i` starts; clamped to the text.
pub open spec fn byte_offset(text: Seq<char>, i: int) -> nat {
    if i <= 0 {
        0
    } else if i >= text.len() {
        byte_len(text)
    } else {
        byte_len(text.subrange(0, i))
    }
}

/// Index of the char that the byte at offset `b` belongs to; the length of
/// the text for every offset at or past the end of its encoding.
pub open spec fn char_of_byte(text: Seq<char>, b: int) -> int
    decreases text.len(),
{
    if text.len() == 0 {
        0
    } else if b >= byte_len(text) {
        text.len() as int
    } else {
        char_of_byte(text.drop_last(), b)
    }
}

/// The char offsets at which the lines of `text` start. A line ends after
/// each line feed, so a text has one line more than it has line feeds.
pub open spec fn line_starts_of(text: Seq<char>) -> Seq<int>
    decreases text.len(),
{
    if text.len() == 0 {
        seq![0int]
    } else if text.last() == '\n' {
        line_starts_of(text.drop_last()).push(text.len() as int)
    } else {
        line_starts_of(text.drop_last())
    }
}

/// Number of lines of `text`.
pub open spec fn line_count(text: Seq<char>) -> nat {
    line_starts_of(text).len()
}

/// Char offset at which line `line` starts; the length of the text for a
/// line past the last one.
pub open spec fn line_start(text: Seq<char>, line: int) -> int {
    if 0 <= line < line_count(text) {
        line_starts_of(text)[line]
    } else if line < 0 {
        0
    } else {
        text.len() as int
    }
}

/// Number of bytes in the UTF-8 encoding of one char.
pub open spec fn utf8_width(c: char) -> nat {
    encode_scalar(c as u32).len()
}

/// Encoding a text with one more char appends that char's bytes.
pub proof fn lemma_encode_push(s: Seq<char>, c: char)
    ensures
        encode_utf8(s.push(c)) == encode_utf8(s) + encode_scalar(c as u32),
    decreases s.len(),
{
    if s.len() == 0 {
        assert(s.push(c).drop_first() =~= Seq::<char>::empty());
        assert(encode_utf8(Seq::<char>::empty()) =~= Seq::<u8>::empty());
        assert(s =~= Seq::<char>::empty());
        assert(encode_utf8(s.push(c)) =~= encode_utf8(s) + encode_scalar(c as u32));
    } else {
        lemma_encode_push(s.drop_first(), c);
        assert(s.push(c).drop_first() =~= s.drop_first().push(c));
        assert(encode_utf8(s.push(c)) =~= encode_utf8(s) + encode_scalar(c as u32));
    }
}

/// The byte offset of the next char lies one char's width further on.
pub proof fn lemma_byte_offset_step(text: Seq<char>, i: int)
    requires
        0 <= i < text.len(),
    ensures
        byte_offset(text, i + 1) == byte_offset(text, i) + utf8_width(text[i]),
        1 <= utf8_width(text[i]) <= 4,
{
    let pre = text.subrange(0, i);
    lemma_encode_push(pre, text[i]);
    assert(pre.push(text[i]) =~= text.subrange(0, i + 1));
    assert(text.subrange(0, text.len() as int) =~= text);
    assert(text.subrange(0, 0) =~= Seq::<char>::empty());
}

/// Byte offsets grow with char offsets.
pub proof fn lemma_byte_offset_monotonic(text: Seq<char>, i: int, j: int)
    requires
        i <= j,
    ensures
        byte_offset(text, i) <= byte_offset(text, j),
    decreases j - i,
{
    if i < j {
        if 0 <= i < text.len() {
            lemma_byte_offset_step(text, i);
        }
        lemma_byte_offset_monotonic(text, i + 1, j);
    }
}

/// The char that holds byte `b` is the one whose encoding starts at or before
/// `b` and ends after it.
pub proof fn lemma_char_of_byte(text: Seq<char>, b: int, i: int)
    requires
        0 <= i <= text.len(),
        byte_offset(text, i) <= b,
        i < text.len() ==> b < byte_offset(text, i + 1),
    ensures
        char_of_byte(text, b) == i,
    decreases text.len(),
{
    if text.len() == 0 {
    } else if b >= byte_len(text) {
        if i < text.len() {
            lemma_byte_offset_monotonic(text, i + 1, text.len() as int);
        }
    } else {
        let rest = text.drop_last();
        assert(rest =~= text.subrange(0, text.len() - 1));
        assert(i < text.len());
        assert(text.subrange(0, i) =~= rest.subrange(0, i));
        if i + 1 < text.len() {
            assert(text.subrange(0, i + 1) =~= rest.subrange(0, i + 1));
        }
        lemma_char_of_byte(rest, b, i);
    }
}

/// The char that holds a byte lies inside the text, and a later byte lies in
/// no earlier char.
pub proof fn lemma_char_of_byte_monotonic(text: Seq<char>, a: int, b: int)
    requires
        a <= b,
    ensures
        0 <= char_of_byte(text, a) <= char_of_byte(text, b) <= text.len(),
    decreases text.len(),
{
    if text.len() > 0 {
        lemma_char_of_byte_monotonic(text.drop_last(), a, b);
        lemma_char_of_byte_monotonic(text.drop_last(), a, a);
    }
}

/// Line starts lie inside the text, begin with offset zero and increase.
pub proof fn lemma_line_starts(text: Seq<char>)
    ensures
        line_count(text) >= 1,
        line_count(text) <= text.len() + 1,
        line_starts_of(text)[0] == 0,
        forall|k: int|
            0 <= k < line_count(text) ==> 0 <= #[trigger] line_starts_of(text)[k] <= text.len(),
        forall|j: int, k: int|
            0 <= j < k < line_count(text) ==> line_starts_of(text)[j] < line_starts_of(text)[k],
        forall|k: int|
            0 < k < line_count(text) ==> text[#[trigger] line_starts_of(text)[k] - 1] == '\n',
    decreases text.len(),
{
    if text.len() > 0 {
        let rest = text.drop_last();
        lemma_line_starts(rest);
        assert forall|k: int| 0 < k < line_count(text) implies text[#[trigger] line_starts_of(
            text,
        )[k] - 1] == '\n' by {
            if k < line_count(rest) {
                assert(line_starts_of(text)[k] == line_starts_of(rest)[k]);
                assert(rest[line_starts_of(rest)[k] - 1] == '\n');
            }
        }
    }
}

/// A text buffer with its char, byte and line indices.
pub struct TextBuffer {
    text: String,
    chars: Vec<char>,
    byte_starts: Vec<usize>,
    line_starts: Vec<usize>,
}

impl View for TextBuffer {
    type V = Seq<char>;

    closed spec fn view(&self) -> Seq<char> {
        self.chars@
    }
}

/// Computes the number of bytes that encode `c`.
pub fn char_width(c: char) -> (w: usize)
    ensures
        w == utf8_width(c),
        1 <= w <= 4,
{
    let u: u32 = c as u32;
    proof {
        char_is_scalar(c);
    }
    if u <= 0x7F {
        1
    } else if u <= 0x7FF {
        2
    } else if u <= 0xFFFF {
        3
    } else {
        4
    }
}

impl TextBuffer {
    #[verifier::type_invariant]
    spec fn inv(self) -> bool {
        &&& self.text@ == self.chars@
        &&& self.byte_starts@.len() == self.chars@.len() + 1
        &&& forall|i: int|
            0 <= i <= self.chars@.len() ==> #[trigger] self.byte_starts@[i] == byte_offset(
                self.chars@,
                i,
            )
        &&& self.line_starts@.len() == line_count(self.chars@)
        &&& forall|k: int|
            0 <= k < self.line_starts@.len() ==> #[trigger] self.line_starts@[k]
                == line_starts_of(self.chars@)[k]
    }

    /// Builds the buffer of `text` with its indices.
    pub fn new(text: &str) -> (buf: TextBuffer)
        ensures
            buf@ == text@,
    {
        let bytes = text.as_bytes();
        let mut chars: Vec<char> = Vec::new();
        let mut byte_starts: Vec<usize> = Vec::new();
        let mut line_starts: Vec<usize> = Vec::new();
        byte_starts.push(0);
        line_starts.push(0);
        let mut it = text.chars();
        proof {
            vstd::string::axiom_spec_iter(text);
            vstd::slice::axiom_spec_len(bytes);
            assert(it.remaining() == text@);
            assert(chars@ + it.remaining() =~= text@);
            assert(text@.subrange(0, 0) =~= Seq::<char>::empty());
        }
        loop
            invariant
                it.obeys_prophetic_iter_laws(),
                it.decrease() is Some,
                chars@.len() <= byte_starts@[chars@.len() as int],
                chars@ + it.remaining() == text@,
                byte_len(text@) <= usize::MAX,
                byte_starts@.len() == chars@.len() + 1,
                forall|i: int|
                    0 <= i <= chars@.len() ==> #[trigger] byte_starts@[i] == byte_offset(text@, i),
                line_starts@.len() == line_count(chars@),
                forall|k: int|
                    0 <= k < line_starts@.len() ==> #[trigger] line_starts@[k] == line_starts_of(
                        chars@,
                    )[k],
            ensures
                chars@ == text@,
                byte_starts@.len() == chars@.len() + 1,
                forall|i: int|
                    0 <= i <= chars@.len() ==> #[trigger] byte_starts@[i] == byte_offset(text@, i),
                line_starts@.len() == line_count(chars@),
                forall|k: int|
                    0 <= k < line_starts@.len() ==> #[trigger] line_starts@[k] == line_starts_of(
                        chars@,
                    )[k],
            decreases it.decrease()->0,
        {
            let ghost before = it;
            let ghost seen = chars@;
            let next = it.next();
            proof {
                vstd::string::next_postcondition(&before, &it, next);
            }
            match next {
                None => {
                    proof {
                        assert(chars@ =~= text@);
                    }
                    break ;
                },
                Some(c) => {
                    let n: usize = chars.len();
                    proof {
                        assert(text@[n as int] == c);
                        lemma_byte_offset_step(text@, n as int);
                        lemma_byte_offset_monotonic(text@, n + 1, text@.len() as int);
                    }
                    let w: usize = char_width(c);
                    let start: usize = byte_starts[n];
                    byte_starts.push(start + w);
                    chars.push(c);
                    if c == '\n' {
                        line_starts.push(n + 1);
                    }
                    proof {
                        assert(chars@ + it.remaining() =~= text@);
                        assert(chars@.drop_last() =~= seen);
                        assert(chars@.last() == c);
                    }
                },
            }
        }
        let owned: String = text.to_owned();
        TextBuffer { text: owned, chars, byte_starts, line_starts }
    }

    /// The text as a string slice.
    pub fn as_str(&self) -> (s: &str)
        ensures
            s@ == self@,
    {
        proof {
            use_type_invariant(self);
        }
        self.text.as_str()
    }

    /// Number of chars in the buffer.
    pub fn len_chars(&self) -> (n: usize)
        ensures
            n == self@.len(),
            n < usize::MAX,
    {
        proof {
            use_type_invariant(self);
        }
        let with_end: usize = self.byte_starts.len();
        with_end - 1
    }

    /// Number of bytes in the buffer's UTF-8 encoding.
    pub fn len_bytes(&self) -> (n: usize)
        ensures
            n == byte_len(self@),
    {
        proof {
            use_type_invariant(self);
        }
        self.byte_starts[self.chars.len()]
    }

    /// Number of lines in the buffer.
    pub fn len_lines(&self) -> (n: usize)
        ensures
            n == line_count(self@),
            n >= 1,
    {
        proof {
            use_type_invariant(self);
            lemma_line_starts(self@);
        }
        self.line_starts.len()
    }

    /// The char at offset `i`, if the buffer has one there.
    pub fn char_at(&self, i: usize) -> (c: Option<char>)
        ensures
            c == (if i < self@.len() {
                Some(self@[i as int])
            } else {
                None
            }),
    {
        if i < self.chars.len() {
            Some(self.chars[i])
        } else {
            None
        }
    }

    /// Byte offset at which char `i` starts; the byte length for an offset
    /// at or past the end.
    pub fn char_to_byte(&self, i: usize) -> (b: usize)
        ensures
            b == byte_offset(self@, i as int),
            b <= byte_len(self@),
    {
        proof {
            use_type_invariant(self);
            if i < self@.len() {
                lemma_byte_offset_monotonic(self@, i as int, self@.len() as int);
            }
        }
        if i < self.chars.len() {
            self.byte_starts[i]
        } else {
            self.byte_starts[self.chars.len()]
        }
    }

    /// Index of the char that byte `b` belongs to; the char length for a
    /// byte offset at or past the end.
    pub fn byte_to_char(&self, b: usize) -> (i: usize)
        ensures
            i == char_of_byte(self@, b as int),
            i <= self@.len(),
    {
        proof {
            use_type_invariant(self);
        }
        let n: usize = self.len_chars();
        let mut lo: usize = 0;
        let mut hi: usize = n + 1;
        while hi - lo > 1
            invariant
                0 <= lo < hi <= n + 1,
                n == self.chars@.len(),
                self.byte_starts@.len() == n + 1,
                self.byte_starts@[lo as int] <= b,
                hi <= n ==> b < self.byte_starts@[hi as int],
            decreases hi - lo,
        {
            let mid: usize = lo + (hi - lo) / 2;
            if self.byte_starts[mid] <= b {
                lo = mid;
            } else {
                hi = mid;
            }
        }
        proof {
            lemma_char_of_byte(self@, b as int, lo as int);
        }
        lo
    }

    /// Char offset at which line `line` starts; the char length for a line
    /// past the last one.
    pub fn line_to_char(&self, line: usize) -> (i: usize)
        ensures
            i == line_start(self@, line as int),
            i <= self@.len(),
    {
        proof {
            use_type_invariant(self);
            lemma_line_starts(self@);
        }
        if line < self.line_starts.len() {
            self.line_starts[line]
        } else {
            self.chars.len()
        }
    }

    /// Byte offset at which line `line` starts; the byte length for a line
    /// past the last one.
    pub fn line_to_byte(&self, line: usize) -> (b: usize)
        ensures
            b == byte_offset(self@, line_start(self@, line as int)),
            b <= byte_len(self@),
    {
        let i: usize = self.line_to_char(line);
        self.char_to_byte(i)
    }

    /// The chars from `start` up to `end`, if that range lies in the buffer.
    pub fn slice(&self, start: usize, end: usize) -> (out: Option<Vec<char>>)
        ensures
            start <= end <= self@.len() ==> (out matches Some(v) && v@ == self@.subrange(
                start as int,
                end as int,
            )),
            !(start <= end <= self@.len()) ==> out is None,
    {
        if start > end || end > self.chars.len() {
            return None;
        }
        let mut v: Vec<char> = Vec::new();
        let mut i: usize = start;
        while i < end
            invariant
                start <= i <= end <= self.chars@.len(),
                v@ == self.chars@.subrange(start as int, i as int),
            decreases end - i,
        {
            v.push(self.chars[i]);
            i = i + 1;
            proof {
                assert(v@ =~= self.chars@.subrange(start as int, i as int));
            }
        }
        Some(v)
    }
}

} // verus!
