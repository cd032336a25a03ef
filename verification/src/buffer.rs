//! The offset translator: a snapshot of a text buffer that converts
//! between byte offsets, character offsets and line numbers, rounds byte
//! offsets forward to grapheme-cluster boundaries, and computes the
//! character and byte range a viewport makes visible.

use vstd::prelude::*;

verus! {

/// The UTF-8 width of one character, in bytes.
pub open spec fn utf8_width(c: char) -> int {
    if (c as u32) < 0x80 {
        1
    } else if (c as u32) < 0x800 {
        2
    } else if (c as u32) < 0x10000 {
        3
    } else {
        4
    }
}

/// The UTF-8 length of a character sequence, in bytes.
pub open spec fn byte_len_of(s: Seq<char>) -> int
    decreases s.len(),
{
    if s.len() == 0 {
        0
    } else {
        utf8_width(s[0]) + byte_len_of(s.drop_first())
    }
}

/// The number of line breaks in a character sequence.
pub open spec fn count_nl(s: Seq<char>) -> int
    decreases s.len(),
{
    if s.len() == 0 {
        0
    } else {
        (if s[0] == '\n' {
            1int
        } else {
            0int
        }) + count_nl(s.drop_first())
    }
}

/// The line that character offset `c` falls on.
pub open spec fn line_of(s: Seq<char>, c: int) -> int {
    count_nl(s.take(c))
}

/// `c` is the first character offset of line `l`; one line past the last
/// line starts at the end of the text.
pub open spec fn line_start_pin(s: Seq<char>, l: int, c: int) -> bool {
    if l <= count_nl(s) {
        &&& 0 <= c <= s.len()
        &&& count_nl(s.take(c)) == l
        &&& (c == 0 || s[c - 1] == '\n')
    } else {
        c == s.len()
    }
}

/// A byte offset that begins a grapheme cluster (or is the end of the
/// text), per the buffer's boundary flags.
pub open spec fn boundary_at(chars: Seq<char>, flags: Seq<bool>, bb: int) -> bool {
    exists|i: int| 0 <= i <= chars.len() && flags[i] && byte_len_of(chars.take(i)) == bb
}

/// The width of every character matches its real UTF-8 encoding.
pub proof fn lemma_utf8_width_is_encoding(c: char)
    ensures
        utf8_width(c) == vstd::utf8::encode_scalar(c as u32).len(),
{
    vstd::utf8::char_is_scalar(c);
}

pub proof fn lemma_byte_len_append(a: Seq<char>, b: Seq<char>)
    ensures
        byte_len_of(a + b) == byte_len_of(a) + byte_len_of(b),
    decreases a.len(),
{
    if a.len() == 0 {
        assert(a + b =~= b);
    } else {
        assert((a + b)[0] == a[0]);
        assert((a + b).drop_first() =~= a.drop_first() + b);
        lemma_byte_len_append(a.drop_first(), b);
    }
}

pub proof fn lemma_count_nl_append(a: Seq<char>, b: Seq<char>)
    ensures
        count_nl(a + b) == count_nl(a) + count_nl(b),
    decreases a.len(),
{
    if a.len() == 0 {
        assert(a + b =~= b);
    } else {
        assert((a + b)[0] == a[0]);
        assert((a + b).drop_first() =~= a.drop_first() + b);
        lemma_count_nl_append(a.drop_first(), b);
    }
}

/// One more character adds its width, and its line break if it is one.
pub proof fn lemma_take_step(s: Seq<char>, i: int)
    requires
        0 <= i < s.len(),
    ensures
        byte_len_of(s.take(i + 1)) == byte_len_of(s.take(i)) + utf8_width(s[i]),
        count_nl(s.take(i + 1)) == count_nl(s.take(i)) + (if s[i] == '\n' {
            1int
        } else {
            0int
        }),
{
    let one = seq![s[i]];
    assert(s.take(i + 1) =~= s.take(i) + one);
    lemma_byte_len_append(s.take(i), one);
    lemma_count_nl_append(s.take(i), one);
    assert(one.drop_first() =~= Seq::<char>::empty());
    assert(byte_len_of(one.drop_first()) == 0);
    assert(count_nl(one.drop_first()) == 0);
}

/// Byte lengths and line counts are bounded by the character count, and
/// every character is at least one byte wide.
pub proof fn lemma_len_bounds(s: Seq<char>)
    ensures
        s.len() <= byte_len_of(s) <= 4 * s.len(),
        0 <= count_nl(s) <= s.len(),
    decreases s.len(),
{
    if s.len() > 0 {
        lemma_len_bounds(s.drop_first());
    }
}

/// Prefix byte lengths grow strictly with the prefix.
pub proof fn lemma_byte_len_mono(s: Seq<char>, i: int, j: int)
    requires
        0 <= i <= j <= s.len(),
    ensures
        byte_len_of(s.take(i)) + (j - i) <= byte_len_of(s.take(j)),
        count_nl(s.take(i)) <= count_nl(s.take(j)),
{
    let mid = s.subrange(i, j);
    assert(s.take(j) =~= s.take(i) + mid);
    lemma_byte_len_append(s.take(i), mid);
    lemma_count_nl_append(s.take(i), mid);
    lemma_len_bounds(mid);
}

/// Two offsets pinned as the start of the same line are the same offset.
pub proof fn lemma_line_start_unique(s: Seq<char>, l: int, c1: int, c2: int)
    requires
        line_start_pin(s, l, c1),
        line_start_pin(s, l, c2),
    ensures
        c1 == c2,
{
    if l <= count_nl(s) {
        if c1 < c2 {
            lemma_byte_len_mono(s, c1, c2 - 1);
            lemma_take_step(s, c2 - 1);
        }
        if c2 < c1 {
            lemma_byte_len_mono(s, c2, c1 - 1);
            lemma_take_step(s, c1 - 1);
        }
    }
}

/// Line starts do not decrease with the line number.
pub proof fn lemma_line_start_mono(s: Seq<char>, l1: int, c1: int, l2: int, c2: int)
    requires
        l1 <= l2,
        line_start_pin(s, l1, c1),
        line_start_pin(s, l2, c2),
    ensures
        c1 <= c2,
{
    if l2 <= count_nl(s) {
        if c2 < c1 {
            lemma_byte_len_mono(s, c2, c1 - 1);
            lemma_take_step(s, c1 - 1);
        }
    } else {
        lemma_byte_len_mono(s, c1, s.len() as int);
        assert(s.take(s.len() as int) =~= s);
    }
}

/// An immutable snapshot of a text buffer, carrying what the rendering
/// pipeline reads of it: its characters, their byte offsets, and which
/// character offsets begin a grapheme cluster (the end of the text always
/// counts as a boundary). The host supplies the boundary flags, since
/// cluster segmentation is its concern; the snapshot keeps them aligned
/// with the text.
pub struct TextBuffer {
    chars: Vec<char>,
    byte_of: Vec<usize>,
    grapheme_start: Vec<bool>,
}

impl TextBuffer {
    /// The text as a character sequence.
    pub closed spec fn chars(self) -> Seq<char> {
        self.chars@
    }

    /// The grapheme-boundary flag for each character offset, plus one for
    /// the end of the text.
    pub closed spec fn graphemes(self) -> Seq<bool> {
        self.grapheme_start@
    }

    #[verifier::type_invariant]
    spec fn wf(self) -> bool {
        &&& self.byte_of@.len() == self.chars@.len() + 1
        &&& self.grapheme_start@.len() == self.chars@.len() + 1
        &&& forall|i: int|
            0 <= i <= self.chars@.len() ==> self.byte_of@[i] == byte_len_of(self.chars@.take(i))
        &&& byte_len_of(self.chars@) < usize::MAX
        &&& self.grapheme_start@[0]
        &&& self.grapheme_start@[self.chars@.len() as int]
    }

    /// Build a snapshot from characters and boundary flags. There must be
    /// one flag per character plus one for the end of the text; the first
    /// and last must be set. Returns `None` for misshapen flags, or for a
    /// text whose encoding would not fit in memory.
    #[verifier::loop_isolation(false)]
    pub fn from_parts(chars: Vec<char>, grapheme_start: Vec<bool>) -> (r: Option<TextBuffer>)
        ensures
            r is Some ==> {
                let b = r->0;
                &&& b.chars() == chars@
                &&& b.graphemes() == grapheme_start@
            },
            r is Some <==> (grapheme_start@.len() == chars@.len() + 1 && grapheme_start@[0]
                && grapheme_start@[chars@.len() as int] && byte_len_of(chars@) < usize::MAX),
    {
        let n = chars.len();
        let m = grapheme_start.len();
        if m == 0 || m - 1 != n {
            return None;
        }
        if !grapheme_start[0] || !grapheme_start[n] {
            return None;
        }
        let mut byte_of: Vec<usize> = Vec::new();
        let mut acc: usize = 0;
        let mut i: usize = 0;
        byte_of.push(0);
        proof {
            assert(chars@.take(0) =~= Seq::<char>::empty());
        }
        while i < n
            invariant
                i <= n,
                n == chars@.len(),
                acc == byte_len_of(chars@.take(i as int)),
                acc < usize::MAX,
                byte_of@.len() == i + 1,
                forall|k: int| 0 <= k <= i ==> byte_of@[k] == byte_len_of(chars@.take(k)),
            decreases n - i,
        {
            let c = chars[i];
            let u = c as u32;
            let w: usize = if u < 0x80 {
                1
            } else if u < 0x800 {
                2
            } else if u < 0x10000 {
                3
            } else {
                4
            };
            assert(w == utf8_width(chars@[i as int]));
            if acc >= usize::MAX - w {
                // the encoded text would not fit in memory
                proof {
                    lemma_take_step(chars@, i as int);
                    lemma_byte_len_mono(chars@, i as int + 1, n as int);
                    assert(chars@.take(n as int) =~= chars@);
                }
                return None;
            }
            acc = acc + w;
            proof {
                lemma_take_step(chars@, i as int);
            }
            byte_of.push(acc);
            i += 1;
        }
        proof {
            assert(chars@.take(n as int) =~= chars@);
        }
        Some(TextBuffer { chars, byte_of, grapheme_start })
    }

    /// The number of characters.
    pub fn len_chars(&self) -> (r: usize)
        ensures
            r == self.chars().len(),
    {
        self.chars.len()
    }

    /// The number of bytes of the UTF-8 encoding.
    pub fn len_bytes(&self) -> (r: usize)
        ensures
            r == byte_len_of(self.chars()),
    {
        proof {
            use_type_invariant(self);
            assert(self.chars@.take(self.chars@.len() as int) =~= self.chars@);
        }
        self.byte_of[self.chars.len()]
    }

    /// The number of lines: one more than the number of line breaks.
    #[verifier::loop_isolation(false)]
    pub fn len_lines(&self) -> (r: usize)
        ensures
            r == count_nl(self.chars()) + 1,
    {
        proof {
            use_type_invariant(self);
        }
        let n = self.chars.len();
        let mut count: usize = 0;
        let mut i: usize = 0;
        proof {
            assert(self.chars@.take(0) =~= Seq::<char>::empty());
        }
        while i < n
            invariant
                i <= n,
                n == self.chars@.len(),
                count == count_nl(self.chars@.take(i as int)),
                count <= i,
            decreases n - i,
        {
            if self.chars[i] == '\n' {
                count += 1;
            }
            proof {
                lemma_take_step(self.chars@, i as int);
            }
            i += 1;
        }
        proof {
            assert(self.chars@.take(n as int) =~= self.chars@);
            lemma_len_bounds(self.chars@);
        }
        count + 1
    }

    /// The character at offset `i`.
    pub fn char_at(&self, i: usize) -> (r: char)
        requires
            i < self.chars().len(),
        ensures
            r == self.chars()[i as int],
    {
        self.chars[i]
    }

    /// The characters of `[start, end)`, for handing to a shaper.
    #[verifier::loop_isolation(false)]
    pub fn slice_chars(&self, start: usize, end: usize) -> (r: Vec<char>)
        requires
            start <= end <= self.chars().len(),
        ensures
            r@ == self.chars().subrange(start as int, end as int),
    {
        let mut out: Vec<char> = Vec::new();
        let mut i = start;
        while i < end
            invariant
                start <= i <= end,
                out@ =~= self.chars@.subrange(start as int, i as int),
            decreases end - i,
        {
            out.push(self.chars[i]);
            proof {
                assert(self.chars@.subrange(start as int, i + 1) =~= self.chars@.subrange(
                    start as int,
                    i as int,
                ).push(self.chars@[i as int]));
            }
            i += 1;
        }
        out
    }

    /// The byte offset of character offset `c`.
    pub fn char_to_byte(&self, c: usize) -> (r: usize)
        requires
            c <= self.chars().len(),
        ensures
            r == byte_len_of(self.chars().take(c as int)),
    {
        proof {
            use_type_invariant(self);
        }
        self.byte_of[c]
    }

    /// The character whose encoding contains byte offset `b`, rounding a
    /// mid-character offset down to the character's start; an offset at or
    /// past the end of the text gives the character count.
    #[verifier::loop_isolation(false)]
    pub fn byte_to_char(&self, b: usize) -> (r: usize)
        ensures
            r <= self.chars().len(),
            byte_len_of(self.chars().take(r as int)) <= b,
            r < self.chars().len() ==> b < byte_len_of(self.chars().take(r as int + 1)),
            b >= byte_len_of(self.chars()) ==> r == self.chars().len(),
    {
        proof {
            use_type_invariant(self);
        }
        let n = self.chars.len();
        let mut i: usize = 0;
        while i < n && self.byte_of[i + 1] <= b
            invariant
                i <= n,
                byte_len_of(self.chars@.take(i as int)) <= b,
            decreases n - i,
        {
            i += 1;
        }
        proof {
            if b >= byte_len_of(self.chars@) && i < n {
                lemma_byte_len_mono(self.chars@, i as int + 1, n as int);
                assert(self.chars@.take(n as int) =~= self.chars@);
            }
        }
        i
    }

    /// Round a byte offset forward to the next grapheme-cluster boundary:
    /// the smallest flagged offset at or after `b` (the end of the text if
    /// none is earlier). The result never splits a cluster, never exceeds
    /// the text, and nothing between `b` and it is a boundary.
    #[verifier::loop_isolation(false)]
    pub fn grapheme_safe(&self, b: usize) -> (r: usize)
        ensures
            r <= byte_len_of(self.chars()),
            b <= byte_len_of(self.chars()) ==> b <= r,
            b >= byte_len_of(self.chars()) ==> r == byte_len_of(self.chars()),
            boundary_at(self.chars(), self.graphemes(), r as int),
            forall|bb: int| b <= bb < r ==> !boundary_at(self.chars(), self.graphemes(), bb),
    {
        proof {
            use_type_invariant(self);
        }
        let n = self.chars.len();
        let mut i: usize = 0;
        while i < n && (self.byte_of[i] < b || !self.grapheme_start[i])
            invariant
                i <= n,
                forall|k: int|
                    0 <= k < i ==> (byte_len_of(self.chars@.take(k)) < b || !self.grapheme_start@[k]),
            decreases n - i,
        {
            i += 1;
        }
        let r = self.byte_of[i];
        proof {
            assert(self.chars@.take(n as int) =~= self.chars@);
            assert(boundary_at(self.chars(), self.graphemes(), r as int)) by {
                assert(self.grapheme_start@[i as int] && byte_len_of(self.chars@.take(i as int))
                    == r);
            }
            if b <= byte_len_of(self.chars@) && i == n {
                assert(b <= r);
            }
            assert forall|bb: int| b <= bb < r implies !boundary_at(
                self.chars(),
                self.graphemes(),
                bb,
            ) by {
                if boundary_at(self.chars(), self.graphemes(), bb) {
                    let k = choose|k: int|
                        0 <= k <= self.chars@.len() && self.graphemes()[k] && byte_len_of(
                            self.chars@.take(k),
                        ) == bb;
                    if k >= i {
                        lemma_byte_len_mono(self.chars@, i as int, k);
                    }
                }
            }
            lemma_byte_len_mono(self.chars@, i as int, n as int);
        }
        r
    }

    /// The line that character offset `c` falls on.
    #[verifier::loop_isolation(false)]
    pub fn char_to_line(&self, c: usize) -> (r: usize)
        requires
            c <= self.chars().len(),
        ensures
            r == line_of(self.chars(), c as int),
    {
        proof {
            use_type_invariant(self);
            assert(self.chars@.take(0) =~= Seq::<char>::empty());
        }
        let mut count: usize = 0;
        let mut i: usize = 0;
        while i < c
            invariant
                i <= c <= self.chars@.len(),
                count == count_nl(self.chars@.take(i as int)),
                count <= i,
            decreases c - i,
        {
            if self.chars[i] == '\n' {
                count += 1;
            }
            proof {
                lemma_take_step(self.chars@, i as int);
            }
            i += 1;
        }
        count
    }

    /// The character offset where line `l` starts; one line past the last
    /// gives the end of the text.
    #[verifier::loop_isolation(false)]
    pub fn line_to_char(&self, l: usize) -> (r: usize)
        requires
            l <= count_nl(self.chars()) + 1,
        ensures
            line_start_pin(self.chars(), l as int, r as int),
    {
        proof {
            use_type_invariant(self);
            assert(self.chars@.take(0) =~= Seq::<char>::empty());
            lemma_len_bounds(self.chars@);
        }
        if l == 0 {
            return 0;
        }
        let n = self.chars.len();
        let mut count: usize = 0;
        let mut i: usize = 0;
        while i < n
            invariant
                i <= n,
                n == self.chars@.len(),
                count == count_nl(self.chars@.take(i as int)),
                count <= i,
                count < l,
            decreases n - i,
        {
            proof {
                lemma_take_step(self.chars@, i as int);
            }
            if self.chars[i] == '\n' {
                count += 1;
                if count == l {
                    proof {
                        lemma_byte_len_mono(self.chars@, i as int + 1, n as int);
                        assert(self.chars@.take(n as int) =~= self.chars@);
                    }
                    return i + 1;
                }
            }
            i += 1;
        }
        proof {
            assert(self.chars@.take(n as int) =~= self.chars@);
        }
        n
    }

    /// The byte offset where line `l` starts.
    pub fn line_to_byte(&self, l: usize) -> (r: usize)
        requires
            l <= count_nl(self.chars()) + 1,
        ensures
            exists|c: int|
                line_start_pin(self.chars(), l as int, c) && r == byte_len_of(
                    #[trigger] self.chars().take(c),
                ),
    {
        let c = self.line_to_char(l);
        self.char_to_byte(c)
    }

    /// The character range the viewport makes visible: from the start of
    /// the line holding the (clamped) anchor through the end of the last
    /// visible line — `rows` lines, or up to the last line of the buffer,
    /// whichever ends first. An empty buffer gives the empty range.
    pub fn visible_char_range(&self, anchor: usize, rows: usize) -> (r: (usize, usize))
        requires
            rows >= 1,
        ensures
            ({
                let s = self.chars();
                let clamped: int = if anchor <= s.len() {
                    anchor as int
                } else {
                    s.len() as int
                };
                let row = line_of(s, clamped);
                let last = count_nl(s);
                let endl: int = if row + rows - 1 < last {
                    row + rows - 1
                } else {
                    last
                };
                &&& line_start_pin(s, row, r.0 as int)
                &&& line_start_pin(s, endl + 1, r.1 as int)
                &&& r.0 <= r.1 <= s.len()
            }),
    {
        proof {
            use_type_invariant(self);
            lemma_len_bounds(self.chars@);
        }
        let len = self.chars.len();
        let clamped = if anchor <= len {
            anchor
        } else {
            len
        };
        let row = self.char_to_line(clamped);
        let last = self.len_lines() - 1;
        proof {
            assert(self.chars@.take(len as int) =~= self.chars@);
            lemma_byte_len_mono(self.chars@, clamped as int, len as int);
        }
        let endl = if last - row < rows - 1 {
            last
        } else {
            row + (rows - 1)
        };
        let start = self.line_to_char(row);
        let end = self.line_to_char(endl + 1);
        proof {
            lemma_line_start_mono(
                self.chars@,
                row as int,
                start as int,
                endl + 1,
                end as int,
            );
        }
        (start, end)
    }

    /// The byte range the viewport makes visible: the visible character
    /// range, translated to byte offsets. The end never exceeds the
    /// buffer's byte length.
    pub fn visible_byte_range(&self, anchor: usize, rows: usize) -> (r: (usize, usize))
        requires
            rows >= 1,
        ensures
            ({
                let s = self.chars();
                let clamped: int = if anchor <= s.len() {
                    anchor as int
                } else {
                    s.len() as int
                };
                let row = line_of(s, clamped);
                let last = count_nl(s);
                let endl: int = if row + rows - 1 < last {
                    row + rows - 1
                } else {
                    last
                };
                exists|c0: int, c1: int|
                    {
                        &&& line_start_pin(s, row, c0)
                        &&& line_start_pin(s, endl + 1, c1)
                        &&& r.0 == byte_len_of(#[trigger] s.take(c0))
                        &&& r.1 == byte_len_of(#[trigger] s.take(c1))
                    }
            }),
            r.0 <= r.1 <= byte_len_of(self.chars()),
    {
        proof {
            use_type_invariant(self);
        }
        let (c0, c1) = self.visible_char_range(anchor, rows);
        let b0 = self.char_to_byte(c0);
        let b1 = self.char_to_byte(c1);
        proof {
            lemma_byte_len_mono(self.chars@, c0 as int, c1 as int);
            lemma_byte_len_mono(self.chars@, c1 as int, self.chars@.len() as int);
            assert(self.chars@.take(self.chars@.len() as int) =~= self.chars@);
        }
        (b0, b1)
    }
}

} // verus!
