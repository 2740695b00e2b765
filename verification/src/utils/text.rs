use crate::utils::strs::{
    bpos, char_width16, char_width8, chars_of, cw16, cw8, lemma_utf16_step, utf16_len, lemma_bpos_mono, lemma_bpos_step, lemma_utf8_len_concat,
    str_byte_len, string_of, string_of_range, utf8_len,
};
use crate::resolution::slug::{push_decimal_u64, spec_decimal};
use vstd::prelude::*;

verus! {

/// A half-open range `[start, end)` of byte offsets into a UTF-8 text.
#[derive(Clone, Copy, Debug, Default, PartialEq, Eq, Structural, Hash)]
pub struct ByteRange {
    pub start: usize,
    pub end: usize,
}

impl ByteRange {
    pub fn new(start: usize, end: usize) -> (r: Self)
        ensures
            r.start == start,
            r.end == end,
    {
        ByteRange { start, end }
    }

    /// Number of bytes covered; zero when `end` does not exceed `start`.
    pub fn len(self) -> (n: usize)
        ensures
            n == (if self.end >= self.start { self.end - self.start } else { 0 }),
    {
        if self.end >= self.start {
            self.end - self.start
        } else {
            0
        }
    }

    pub fn is_empty(self) -> (b: bool)
        ensures
            b == (self.start >= self.end),
    {
        self.start >= self.end
    }

    pub fn contains(self, offset: usize) -> (b: bool)
        ensures
            b == (self.start <= offset && offset < self.end),
    {
        self.start <= offset && offset < self.end
    }
}

/// A line/character position as the Language Server Protocol counts it.
#[derive(Clone, Debug, PartialEq, Eq, Structural)]
pub struct LspPosition {
    pub line: u32,
    pub character: u32,
}

/// How the `character` of an [`LspPosition`] counts units within a line.
#[derive(Clone, Copy, Debug, PartialEq, Eq, Structural)]
pub enum PositionEncoding {
    Utf8,
    Utf16,
}

impl Default for PositionEncoding {
    fn default() -> (r: Self)
        ensures
            r == PositionEncoding::Utf16,
    {
        PositionEncoding::Utf16
    }
}

/// Why a position could not be converted.
#[derive(Clone, Debug, PartialEq, Eq, Structural)]
pub enum PositionError {
    InvalidLine(u32),
    InvalidCharacter(u32),
    NotOnCharBoundary(usize),
}

impl PositionError {
    /// The text that describes the error.
    pub fn message(&self) -> (r: String)
        ensures
            r@ == match self {
                PositionError::InvalidLine(l) => "invalid line "@ + spec_decimal(*l as nat),
                PositionError::InvalidCharacter(c) => "invalid character "@ + spec_decimal(*c as nat),
                PositionError::NotOnCharBoundary(o) => "offset "@ + spec_decimal(*o as nat) + " is not a UTF-8 boundary"@,
            },
    {
        match self {
            PositionError::InvalidLine(l) => {
                let mut r = String::from_str("invalid line ");
                push_decimal_u64(&mut r, *l as u64);
                r
            },
            PositionError::InvalidCharacter(c) => {
                let mut r = String::from_str("invalid character ");
                push_decimal_u64(&mut r, *c as u64);
                r
            },
            PositionError::NotOnCharBoundary(o) => {
                let mut r = String::from_str("offset ");
                push_decimal_u64(&mut r, *o as u64);
                r.append(" is not a UTF-8 boundary");
                r
            },
        }
    }
}

/// Whether byte offset `b` falls between two characters of `s` (or at either end).
pub open spec fn is_boundary(s: Seq<char>, b: int) -> bool {
    exists|i: int| 0 <= i <= s.len() && #[trigger] bpos(s, i) == b
}

/// The character index whose byte offset is `b`, when `b` is a boundary.
pub open spec fn char_idx(s: Seq<char>, b: int) -> int {
    choose|i: int| 0 <= i <= s.len() && #[trigger] bpos(s, i) == b
}

/// Number of characters that a line break starting at index `i` spans: one for `\n`
/// or a lone `\r`, two for `\r\n`, and zero when `s[i]` is no line break.
pub open spec fn brk(s: Seq<char>, i: int) -> int {
    if 0 <= i < s.len() && s[i] == '\n' {
        1
    } else if 0 <= i < s.len() && s[i] == '\r' {
        if i + 1 < s.len() && s[i + 1] == '\n' {
            2
        } else {
            1
        }
    } else {
        0
    }
}

/// Byte offsets at which the lines after each break from index `i` on begin.
pub open spec fn starts_from(s: Seq<char>, i: int) -> Seq<usize>
    decreases s.len() - i,
{
    if i < 0 || i >= s.len() {
        seq![]
    } else if brk(s, i) > 0 {
        seq![bpos(s, i + brk(s, i)) as usize] + starts_from(s, i + brk(s, i))
    } else {
        starts_from(s, i + 1)
    }
}

/// Byte offsets of the line breaks from index `i` on.
pub open spec fn ends_from(s: Seq<char>, i: int) -> Seq<usize>
    decreases s.len() - i,
{
    if i < 0 || i >= s.len() {
        seq![]
    } else if brk(s, i) > 0 {
        seq![bpos(s, i) as usize] + ends_from(s, i + brk(s, i))
    } else {
        ends_from(s, i + 1)
    }
}

/// Byte offsets at which the lines of `s` begin.
pub open spec fn spec_line_starts(s: Seq<char>) -> Seq<usize> {
    seq![0usize] + starts_from(s, 0)
}

/// Byte offsets at which the lines of `s` end (before their line break, or at the end).
pub open spec fn spec_line_ends(s: Seq<char>) -> Seq<usize> {
    ends_from(s, 0).push(utf8_len(s) as usize)
}

/// Offsets of the lines of a text.
#[derive(Clone, Debug)]
pub struct LineMap {
    line_starts: Vec<usize>,
    line_ends: Vec<usize>,
}

impl LineMap {
    pub closed spec fn starts(&self) -> Seq<usize> {
        self.line_starts@
    }

    pub closed spec fn ends(&self) -> Seq<usize> {
        self.line_ends@
    }

    /// The lines are ordered: each starts no later than it ends, and ends before the
    /// next one starts; the first starts at zero.
    pub open spec fn wf(&self) -> bool {
        &&& self.starts().len() == self.ends().len()
        &&& self.starts().len() >= 1
        &&& self.starts()[0] == 0
        &&& forall|k: int| 0 <= k < self.starts().len() ==> self.starts()[k] <= self.ends()[k]
        &&& forall|k: int|
            0 <= k < self.starts().len() - 1 ==> self.ends()[k] < self.starts()[k + 1]
    }

    /// The map describes the lines of `s`.
    pub open spec fn describes(&self, s: Seq<char>) -> bool {
        &&& self.wf()
        &&& self.starts() == spec_line_starts(s)
        &&& self.ends() == spec_line_ends(s)
        &&& forall|k: int| 0 <= k < self.starts().len() ==> is_boundary(s, self.starts()[k] as int)
        &&& forall|k: int| 0 <= k < self.ends().len() ==> is_boundary(s, self.ends()[k] as int)
    }

    pub fn new(input: &str) -> (m: Self)
        ensures
            m.describes(input@),
    {
        let n = str_byte_len(input);
        let chars = chars_of(input);
        Self::from_chars(&chars, n)
    }

    pub fn from_chars(s: &[char], total: usize) -> (m: Self)
        requires
            total == utf8_len(s@),
        ensures
            m.describes(s@),
    {
        let ghost sv = s@;
        let mut line_starts: Vec<usize> = Vec::new();
        line_starts.push(0);
        let mut line_ends: Vec<usize> = Vec::new();
        let mut i: usize = 0;
        let mut b: usize = 0;
        proof {
            assert(sv.take(0) =~= Seq::<char>::empty());
            assert(bpos(sv, 0) == 0);
            assert(is_boundary(sv, 0));
            assert(sv.take(sv.len() as int) =~= sv);
        }
        while i < s.len()
            invariant
                sv == s@,
                i <= s.len(),
                total == utf8_len(sv),
                b == bpos(sv, i as int),
                bpos(sv, s.len() as int) == total,
                seq![0usize] + starts_from(sv, 0) == line_starts@ + starts_from(sv, i as int),
                ends_from(sv, 0) == line_ends@ + ends_from(sv, i as int),
                line_starts@.len() == line_ends@.len() + 1,
                line_starts@[0] == 0,
                line_starts@.last() <= b,
                forall|k: int| 0 <= k < line_ends@.len() ==> line_starts@[k] <= line_ends@[k],
                forall|k: int|
                    0 <= k < line_ends@.len() ==> line_ends@[k] < line_starts@[k + 1],
                forall|k: int|
                    0 <= k < line_starts@.len() ==> is_boundary(sv, line_starts@[k] as int),
                forall|k: int| 0 <= k < line_ends@.len() ==> is_boundary(sv, line_ends@[k] as int),
            decreases s.len() - i,
        {
            let c = s[i];
            proof {
                assert(sv.take(s.len() as int) =~= sv);
                lemma_bpos_step(sv, i as int);
                lemma_bpos_mono(sv, i + 1, s.len() as int);
            }
            let w = char_width8(c);
            if c == '\n' || c == '\r' {
                let step: usize = if c == '\r' && i + 1 < s.len() && s[i + 1] == '\n' {
                    2
                } else {
                    1
                };
                let next_b: usize = if step == 2 {
                    proof {
                        lemma_bpos_step(sv, i + 1);
                        lemma_bpos_mono(sv, i + 2, s.len() as int);
                    }
                    b + w + 1
                } else {
                    b + w
                };
                assert(brk(sv, i as int) == step);
                assert(next_b == bpos(sv, i + step));
                line_ends.push(b);
                line_starts.push(next_b);
                proof {
                    assert(starts_from(sv, i as int) == seq![next_b] + starts_from(
                        sv,
                        i + step,
                    ));
                    assert(ends_from(sv, i as int) == seq![b] + ends_from(sv, i + step));
                    assert(is_boundary(sv, bpos(sv, i + step) as int));
                    assert(is_boundary(sv, bpos(sv, i as int) as int));
                }
                i = i + step;
                b = next_b;
            } else {
                proof {
                    assert(brk(sv, i as int) == 0);
                }
                i = i + 1;
                b = b + w;
            }
        }
        proof {
            assert(starts_from(sv, i as int) =~= Seq::<usize>::empty());
            assert(ends_from(sv, i as int) =~= Seq::<usize>::empty());
            assert(line_starts@ + Seq::<usize>::empty() =~= line_starts@);
            assert(line_ends@ + Seq::<usize>::empty() =~= line_ends@);
            assert(is_boundary(sv, bpos(sv, s.len() as int) as int));
        }
        line_ends.push(b);
        let m = LineMap { line_starts, line_ends };
        assert(m.starts() =~= spec_line_starts(sv));
        assert(m.ends() =~= spec_line_ends(sv));
        m
    }

    pub fn line_count(&self) -> (n: usize)
        ensures
            n == self.starts().len(),
    {
        self.line_starts.len()
    }

    pub fn line_start(&self, line: usize) -> (r: Option<usize>)
        ensures
            r == (if line < self.starts().len() {
                Some(self.starts()[line as int])
            } else {
                None
            }),
    {
        if line < self.line_starts.len() {
            Some(self.line_starts[line])
        } else {
            None
        }
    }

    pub fn line_end(&self, line: usize) -> (r: Option<usize>)
        ensures
            r == (if line < self.ends().len() {
                Some(self.ends()[line as int])
            } else {
                None
            }),
    {
        if line < self.line_ends.len() {
            Some(self.line_ends[line])
        } else {
            None
        }
    }

    pub fn line_range(&self, line: usize) -> (r: Option<ByteRange>)
        ensures
            r == (if line < self.starts().len() && line < self.ends().len() {
                Some(ByteRange { start: self.starts()[line as int], end: self.ends()[line as int] })
            } else {
                None
            }),
    {
        let start = self.line_start(line)?;
        let end = self.line_end(line)?;
        Some(ByteRange::new(start, end))
    }

    /// The line holding byte `offset`: the last line that starts at or before it.
    pub fn line_for_offset(&self, offset: usize) -> (line: usize)
        requires
            self.wf(),
        ensures
            line < self.starts().len(),
            self.starts()[line as int] <= offset,
            line + 1 < self.starts().len() ==> offset < self.starts()[line + 1],
    {
        let ghost st = self.starts();
        proof {
            assert forall|a: int, c: int| 0 <= a < c < st.len() implies st[a] < st[c] by {
                self.lemma_starts_increase(a, c);
            }
        }
        let mut lo: usize = 0;
        let mut hi: usize = self.line_starts.len();
        while lo + 1 < hi
            invariant
                st == self.line_starts@,
                0 <= lo < hi <= st.len(),
                st[lo as int] <= offset,
                hi < st.len() ==> offset < st[hi as int],
                forall|a: int, c: int| 0 <= a < c < st.len() ==> st[a] < st[c],
            decreases hi - lo,
        {
            let mid = lo + (hi - lo) / 2;
            if self.line_starts[mid] <= offset {
                lo = mid;
            } else {
                hi = mid;
            }
        }
        lo
    }

    proof fn lemma_starts_increase(&self, a: int, c: int)
        requires
            self.wf(),
            0 <= a < c < self.starts().len(),
        ensures
            self.starts()[a] < self.starts()[c],
        decreases c - a,
    {
        if c > a + 1 {
            self.lemma_starts_increase(a, c - 1);
        }
    }
}

/// An immutable document text together with its line map.
#[derive(Clone, Debug)]
pub struct Text {
    contents: String,
    chars: Vec<char>,
    byte_len: usize,
    line_map: LineMap,
}

impl View for Text {
    type V = Seq<char>;

    closed spec fn view(&self) -> Seq<char> {
        self.chars@
    }
}

impl Text {
    /// The internal representation agrees with the characters of the text.
    pub closed spec fn wf(&self) -> bool {
        &&& self.chars@ == self.contents@
        &&& self.byte_len == utf8_len(self.chars@)
        &&& self.line_map.describes(self.chars@)
    }

    pub closed spec fn map(&self) -> LineMap {
        self.line_map
    }

    pub fn new(contents: &str) -> (t: Self)
        ensures
            t.wf(),
            t@ == contents@,
    {
        let n = str_byte_len(contents);
        let chars = chars_of(contents);
        let line_map = LineMap::from_chars(&chars, n);
        let s = string_of(&chars);
        Text { contents: s, chars, byte_len: n, line_map }
    }

    pub fn as_str(&self) -> (s: &str)
        requires
            self.wf(),
        ensures
            s@ == self@,
    {
        self.contents.as_str()
    }

    /// The characters of the text.
    pub fn chars(&self) -> (s: &[char])
        ensures
            s@ == self@,
    {
        self.chars.as_slice()
    }

    /// Length in bytes.
    pub fn len(&self) -> (n: usize)
        requires
            self.wf(),
        ensures
            n == utf8_len(self@),
    {
        self.byte_len
    }

    pub fn is_empty(&self) -> (b: bool)
        requires
            self.wf(),
        ensures
            b == (self@.len() == 0),
    {
        proof {
            if self@.len() > 0 {
                assert(utf8_len(self@) >= 1);
            }
        }
        self.byte_len == 0
    }

    pub fn line_map(&self) -> (m: &LineMap)
        requires
            self.wf(),
        ensures
            m.describes(self@),
            *m == self.map(),
    {
        &self.line_map
    }

    /// The characters between two byte boundaries, both clamped to the length of the text.
    pub fn slice(&self, range: ByteRange) -> (r: String)
        requires
            self.wf(),
            is_boundary(self@, min_usize(range.start, utf8_len(self@) as usize) as int),
            is_boundary(self@, min_usize(range.end, utf8_len(self@) as usize) as int),
            min_usize(range.start, utf8_len(self@) as usize) <= min_usize(
                range.end,
                utf8_len(self@) as usize,
            ),
        ensures
            r@ == self@.subrange(
                char_idx(self@, min_usize(range.start, utf8_len(self@) as usize) as int),
                char_idx(self@, min_usize(range.end, utf8_len(self@) as usize) as int),
            ),
    {
        let a = if range.start < self.byte_len {
            range.start
        } else {
            self.byte_len
        };
        let b = if range.end < self.byte_len {
            range.end
        } else {
            self.byte_len
        };
        let i = char_index_of_byte(&self.chars, a);
        let j = char_index_of_byte(&self.chars, b);
        match (i, j) {
            (Some(i), Some(j)) => {
                proof {
                    lemma_char_idx(self@, a as int, i as int);
                    lemma_char_idx(self@, b as int, j as int);
                    if i > j {
                        lemma_bpos_mono(self@, j as int, i as int);
                    }
                }
                string_of_range(&self.chars, i, j)
            },
            _ => {
                assert(false);
                String::new()
            },
        }
    }

    /// The text of line `line`, without its line break.
    pub fn line(&self, line: usize) -> (r: Option<String>)
        requires
            self.wf(),
        ensures
            line < self.map().starts().len() <==> r is Some,
            r matches Some(t) ==> t@ == self@.subrange(
                char_idx(self@, self.map().starts()[line as int] as int),
                char_idx(self@, self.map().ends()[line as int] as int),
            ),
    {
        let range = self.line_map.line_range(line)?;
        proof {
            let s = self@;
            let m = self.line_map;
            assert(is_boundary(s, m.starts()[line as int] as int));
            assert(is_boundary(s, m.ends()[line as int] as int));
            lemma_boundary_le_len(s, range.start as int);
            lemma_boundary_le_len(s, range.end as int);
        }
        Some(self.slice(range))
    }

    /// The text with the bytes of `range` replaced by `replacement`.
    pub fn replace_range(&self, range: ByteRange, replacement: &str) -> (t: Text)
        requires
            self.wf(),
            range.start <= range.end,
            is_boundary(self@, range.start as int),
            is_boundary(self@, range.end as int),
            utf8_len(self@) - (range.end - range.start) + utf8_len(replacement@) <= usize::MAX,
        ensures
            t.wf(),
            t@ == self@.take(char_idx(self@, range.start as int)) + replacement@ + self@.skip(
                char_idx(self@, range.end as int),
            ),
    {
        let i = char_index_of_byte(&self.chars, range.start);
        let j = char_index_of_byte(&self.chars, range.end);
        let (i, j) = match (i, j) {
            (Some(i), Some(j)) => (i, j),
            _ => {
                assert(false);
                (0, 0)
            },
        };
        proof {
            lemma_char_idx(self@, range.start as int, i as int);
            lemma_char_idx(self@, range.end as int, j as int);
            if i > j {
                lemma_bpos_mono(self@, j as int, i as int);
            }
        }
        let rep = chars_of(replacement);
        let mut next: Vec<char> = Vec::new();
        let mut k: usize = 0;
        while k < i
            invariant
                k <= i <= j <= self.chars@.len(),
                next@ == self.chars@.take(k as int),
            decreases i - k,
        {
            next.push(self.chars[k]);
            assert(self.chars@.take(k as int).push(self.chars@[k as int]) =~= self.chars@.take(
                k + 1,
            ));
            k += 1;
        }
        let mut k: usize = 0;
        while k < rep.len()
            invariant
                k <= rep.len(),
                i <= self.chars@.len(),
                next@ == self.chars@.take(i as int) + rep@.take(k as int),
            decreases rep.len() - k,
        {
            next.push(rep[k]);
            assert(rep@.take(k as int).push(rep@[k as int]) =~= rep@.take(k + 1));
            assert((self.chars@.take(i as int) + rep@.take(k as int)).push(rep@[k as int])
                =~= self.chars@.take(i as int) + rep@.take(k + 1));
            k += 1;
        }
        assert(rep@.take(rep@.len() as int) =~= rep@);
        let mut k: usize = j;
        while k < self.chars.len()
            invariant
                j <= k <= self.chars@.len(),
                i <= j,
                next@ == self.chars@.take(i as int) + rep@ + self.chars@.subrange(
                    j as int,
                    k as int,
                ),
            decreases self.chars@.len() - k,
        {
            next.push(self.chars[k]);
            assert(self.chars@.subrange(j as int, k as int).push(self.chars@[k as int])
                =~= self.chars@.subrange(j as int, k + 1));
            assert((self.chars@.take(i as int) + rep@ + self.chars@.subrange(j as int, k as int)).push(
                self.chars@[k as int],
            ) =~= self.chars@.take(i as int) + rep@ + self.chars@.subrange(j as int, k + 1));
            k += 1;
        }
        assert(self.chars@.subrange(j as int, self.chars@.len() as int) =~= self.chars@.skip(
            j as int,
        ));
        proof {
            let s = self.chars@;
            assert(s =~= s.take(i as int) + s.subrange(i as int, j as int) + s.skip(j as int));
            lemma_utf8_len_concat(s.take(i as int) + s.subrange(i as int, j as int), s.skip(j as int));
            lemma_utf8_len_concat(s.take(i as int), s.subrange(i as int, j as int));
            lemma_utf8_len_concat(s.take(i as int), replacement@);
            lemma_utf8_len_concat(s.take(i as int) + replacement@, s.skip(j as int));
            lemma_utf8_len_concat(s.take(j as int), s.skip(j as int));
            assert(s.take(j as int) =~= s.take(i as int) + s.subrange(i as int, j as int));
            assert(s.take(j as int) + s.skip(j as int) =~= s);
        }
        let n = self.byte_len - (range.end - range.start) + str_byte_len(replacement);
        let line_map = LineMap::from_chars(&next, n);
        let s = string_of(&next);
        Text { contents: s, chars: next, byte_len: n, line_map }
    }
}

impl Text {
    /// The LSP position of byte `offset`.
    pub fn to_lsp_position(&self, offset: usize, encoding: PositionEncoding) -> (r: Result<
        LspPosition,
        PositionError,
    >)
        requires
            self.wf(),
        ensures
            r == spec_to_lsp(self@, self.map().starts(), offset, encoding),
    {
        let ghost s = self@;
        let ghost st = self.line_map.starts();
        if offset > self.byte_len {
            return Err(PositionError::NotOnCharBoundary(offset));
        }
        let k = match char_index_of_byte(&self.chars, offset) {
            Some(k) => k,
            None => {
                return Err(PositionError::NotOnCharBoundary(offset));
            },
        };
        let line = self.line_map.line_for_offset(offset);
        let line_start = self.line_map.line_starts[line];
        proof {
            lemma_char_idx(s, offset as int, k as int);
            lemma_line_index(self.line_map, offset as int, line as int);
            assert(is_boundary(s, line_start as int));
        }
        let j = match char_index_of_byte(&self.chars, line_start) {
            Some(j) => j,
            None => {
                assert(false);
                0
            },
        };
        proof {
            lemma_char_idx(s, line_start as int, j as int);
            if j > k {
                lemma_bpos_mono(s, k as int, j as int);
            }
        }
        let character: u32 = match encoding {
            PositionEncoding::Utf8 => (offset - line_start) as u32,
            PositionEncoding::Utf16 => utf16_count(&self.chars, j, k, offset) as u32,
        };
        Ok(LspPosition { line: line as u32, character })
    }

    /// The byte offset of an LSP position.
    pub fn byte_offset(&self, position: &LspPosition, encoding: PositionEncoding) -> (r: Result<
        usize,
        PositionError,
    >)
        requires
            self.wf(),
        ensures
            r == spec_byte_offset(
                self@,
                self.map().starts(),
                self.map().ends(),
                *position,
                encoding,
            ),
    {
        let ghost s = self@;
        let line = position.line as usize;
        let range = match self.line_map.line_range(line) {
            Some(range) => range,
            None => {
                return Err(PositionError::InvalidLine(position.line));
            },
        };
        let line_start = range.start;
        proof {
            assert(is_boundary(s, range.start as int));
            assert(is_boundary(s, range.end as int));
            lemma_boundary_le_len(s, range.start as int);
        }
        match encoding {
            PositionEncoding::Utf8 => {
                let ch = position.character as usize;
                if ch > self.byte_len - line_start {
                    return Err(PositionError::InvalidCharacter(position.character));
                }
                let offset = line_start + ch;
                match char_index_of_byte(&self.chars, offset) {
                    Some(_) => Ok(offset),
                    None => Err(PositionError::InvalidCharacter(position.character)),
                }
            },
            PositionEncoding::Utf16 => {
                let target = position.character as usize;
                let j = match char_index_of_byte(&self.chars, range.start) {
                    Some(j) => j,
                    None => {
                        assert(false);
                        0
                    },
                };
                let e = match char_index_of_byte(&self.chars, range.end) {
                    Some(e) => e,
                    None => {
                        assert(false);
                        0
                    },
                };
                proof {
                    lemma_char_idx(s, range.start as int, j as int);
                    lemma_char_idx(s, range.end as int, e as int);
                    if j > e {
                        lemma_bpos_mono(s, e as int, j as int);
                    }
                    assert(s.subrange(j as int, j as int) =~= Seq::<char>::empty());
                }
                match utf16_walk(&self.chars, j, e, target, line_start) {
                    Some((_m, bytes)) => Ok(bytes),
                    None => Err(PositionError::InvalidCharacter(position.character)),
                }
            },
        }
    }
}


/// Number of UTF-16 units of `s[j..k]`.
pub fn utf16_count(s: &[char], j: usize, k: usize, offset: usize) -> (units: usize)
    requires
        j <= k <= s@.len(),
        bpos(s@, k as int) == offset,
    ensures
        units == utf16_len(s@.subrange(j as int, k as int)),
{
    let ghost sv = s@;
    let mut units: usize = 0;
    let mut i: usize = j;
    proof {
        assert(sv.subrange(j as int, j as int) =~= Seq::<char>::empty());
        lemma_bpos_mono(sv, j as int, k as int);
    }
    while i < k
        invariant
            sv == s@,
            j <= i <= k <= sv.len(),
            units == utf16_len(sv.subrange(j as int, i as int)),
            units <= bpos(sv, i as int) - bpos(sv, j as int),
            bpos(sv, k as int) == offset,
        decreases k - i,
    {
        proof {
            lemma_utf16_step(sv, j as int, i as int);
            lemma_bpos_step(sv, i as int);
            lemma_bpos_mono(sv, i + 1, k as int);
        }
        units = units + char_width16(s[i]);
        i = i + 1;
    }
    units
}

/// Walks line `[j, e]` of `s` until `target` UTF-16 units are read; gives the character
/// index reached and its byte offset, or `None` when no character boundary of the line
/// lies at exactly `target` units.
pub fn utf16_walk(s: &[char], j: usize, e: usize, target: usize, start_byte: usize) -> (r: Option<
    (usize, usize),
>)
    requires
        j <= e <= s@.len(),
        start_byte == bpos(s@, j as int),
        utf8_len(s@) <= usize::MAX,
    ensures
        match r {
            Some((m, b)) => utf16_hit(s@, j as int, e as int, target as int, m as int) && b == bpos(
                s@,
                m as int,
            ) && (forall|m2: int| #[trigger] utf16_hit(s@, j as int, e as int, target as int, m2) ==> m2 == m),
            None => !exists|m: int| #[trigger] utf16_hit(s@, j as int, e as int, target as int, m),
        },
{
    let ghost sv = s@;
    proof {
        assert(sv.subrange(j as int, j as int) =~= Seq::<char>::empty());
        assert(sv.take(sv.len() as int) =~= sv);
        lemma_bpos_mono(sv, e as int, sv.len() as int);
    }
    let mut units: usize = 0;
    let mut bytes: usize = start_byte;
    let mut i: usize = j;
    while i < e && units != target
        invariant
            sv == s@,
            j <= i <= e <= sv.len(),
            units == utf16_len(sv.subrange(j as int, i as int)),
            units <= target,
            bytes == bpos(sv, i as int),
            bpos(sv, e as int) <= utf8_len(sv),
            utf8_len(sv) <= usize::MAX,
            forall|m: int| j <= m < i ==> utf16_len(sv.subrange(j as int, m)) < target,
        decreases e - i,
    {
        proof {
            lemma_utf16_step(sv, j as int, i as int);
            lemma_bpos_step(sv, i as int);
            lemma_bpos_mono(sv, i + 1, e as int);
        }
        let w = char_width16(s[i]);
        if w > target - units {
            proof {
                assert forall|m: int| j <= m <= e implies utf16_len(sv.subrange(j as int, m))
                    != target by {
                    if m > i {
                        lemma_utf16_mono(sv, j as int, i + 1, m);
                    }
                }
            }
            return None;
        }
        units = units + w;
        bytes = bytes + char_width8(s[i]);
        i = i + 1;
    }
    if units != target {
        return None;
    }
    proof {
        assert forall|m2: int| #[trigger] utf16_hit(sv, j as int, e as int, target as int, m2) implies m2
            == i by {
            if m2 < i {
                lemma_utf16_mono(sv, j as int, m2 + 1, i as int);
                lemma_utf16_step(sv, j as int, m2);
            } else if m2 > i {
                lemma_utf16_mono(sv, j as int, i + 1, m2);
                lemma_utf16_step(sv, j as int, i as int);
            }
        }
    }
    Some((i, bytes))
}

/// The line holding byte `b`: the last one that starts at or before it.
pub open spec fn line_index(st: Seq<usize>, b: int) -> int {
    choose|k: int| 0 <= k < st.len() && #[trigger] st[k] <= b && (k + 1 < st.len() ==> b < st[k + 1])
}

/// The column of byte `offset` in its line, in units of the encoding.
pub open spec fn spec_column(s: Seq<char>, st: Seq<usize>, offset: usize, enc: PositionEncoding) -> int {
    let ls = st[line_index(st, offset as int)];
    match enc {
        PositionEncoding::Utf8 => offset - ls,
        PositionEncoding::Utf16 => utf16_len(
            s.subrange(char_idx(s, ls as int), char_idx(s, offset as int)),
        ) as int,
    }
}

/// The LSP position of byte `offset` in `s`, whose lines start at `st`.
pub open spec fn spec_to_lsp(s: Seq<char>, st: Seq<usize>, offset: usize, enc: PositionEncoding) -> Result<
    LspPosition,
    PositionError,
> {
    if offset > utf8_len(s) || !is_boundary(s, offset as int) {
        Err(PositionError::NotOnCharBoundary(offset))
    } else {
        let k = line_index(st, offset as int);
        Ok(LspPosition { line: k as u32, character: spec_column(s, st, offset, enc) as u32 })
    }
}

/// Character index `m` of line `[j, e]` is where `ch` UTF-16 units have been read.
pub open spec fn utf16_hit(s: Seq<char>, j: int, e: int, ch: int, m: int) -> bool {
    j <= m <= e && utf16_len(s.subrange(j, m)) == ch
}

/// The byte offset of an LSP position in `s`, whose lines start at `st` and end at `en`.
pub open spec fn spec_byte_offset(
    s: Seq<char>,
    st: Seq<usize>,
    en: Seq<usize>,
    pos: LspPosition,
    enc: PositionEncoding,
) -> Result<usize, PositionError> {
    let line = pos.line as int;
    if line >= st.len() || line >= en.len() {
        Err(PositionError::InvalidLine(pos.line))
    } else {
        let ls = st[line] as int;
        let le = en[line] as int;
        match enc {
            PositionEncoding::Utf8 => {
                let o = ls + pos.character;
                if o <= utf8_len(s) && is_boundary(s, o) {
                    Ok(o as usize)
                } else {
                    Err(PositionError::InvalidCharacter(pos.character))
                }
            },
            PositionEncoding::Utf16 => {
                let j = char_idx(s, ls);
                let e = char_idx(s, le);
                if exists|m: int| #[trigger] utf16_hit(s, j, e, pos.character as int, m) {
                    Ok(
                        bpos(
                            s,
                            choose|m: int| #[trigger] utf16_hit(s, j, e, pos.character as int, m),
                        ) as usize,
                    )
                } else {
                    Err(PositionError::InvalidCharacter(pos.character))
                }
            },
        }
    }
}

/// UTF-16 lengths of prefixes of a line grow with their end.
pub proof fn lemma_utf16_mono(s: Seq<char>, j: int, a: int, b: int)
    requires
        0 <= j <= a <= b <= s.len(),
    ensures
        utf16_len(s.subrange(j, a)) + (b - a) <= utf16_len(s.subrange(j, b)),
    decreases b - a,
{
    if a < b {
        lemma_utf16_mono(s, j, a, b - 1);
        lemma_utf16_step(s, j, b - 1);
    }
}

/// `line_for_offset` finds `line_index`.
pub proof fn lemma_line_index(m: LineMap, b: int, k: int)
    requires
        m.wf(),
        0 <= k < m.starts().len(),
        m.starts()[k] <= b,
        k + 1 < m.starts().len() ==> b < m.starts()[k + 1],
    ensures
        line_index(m.starts(), b) == k,
{
    let st = m.starts();
    let c = line_index(st, b);
    assert(0 <= c < st.len() && st[c] <= b && (c + 1 < st.len() ==> b < st[c + 1]));
    if c < k {
        lemma_starts_le(m, c + 1, k);
    } else if c > k {
        lemma_starts_le(m, k + 1, c);
    }
}

pub proof fn lemma_starts_le(m: LineMap, a: int, c: int)
    requires
        m.wf(),
        0 <= a <= c < m.starts().len(),
    ensures
        m.starts()[a] <= m.starts()[c],
    decreases c - a,
{
    if a < c {
        lemma_starts_le(m, a, c - 1);
        assert(m.starts()[c - 1] <= m.ends()[c - 1] < m.starts()[c]);
    }
}

pub open spec fn min_usize(a: usize, b: usize) -> usize {
    if a < b {
        a
    } else {
        b
    }
}

/// A boundary never lies past the end of the text.
pub proof fn lemma_boundary_le_len(s: Seq<char>, b: int)
    requires
        is_boundary(s, b),
    ensures
        b <= utf8_len(s),
{
    let i = choose|i: int| 0 <= i <= s.len() && #[trigger] bpos(s, i) == b;
    lemma_bpos_mono(s, i, s.len() as int);
    assert(s.take(s.len() as int) =~= s);
}

/// `char_idx` names the unique index at a boundary.
pub proof fn lemma_char_idx(s: Seq<char>, b: int, i: int)
    requires
        0 <= i <= s.len(),
        bpos(s, i) == b,
    ensures
        char_idx(s, b) == i,
{
    assert(is_boundary(s, b));
    let k = char_idx(s, b);
    if k < i {
        lemma_bpos_mono(s, k, i);
    } else if k > i {
        lemma_bpos_mono(s, i, k);
    }
}

/// The index of the character that starts at byte `b`, if `b` is a boundary.
pub fn char_index_of_byte(s: &[char], b: usize) -> (r: Option<usize>)
    ensures
        match r {
            Some(i) => i <= s@.len() && bpos(s@, i as int) == b,
            None => !is_boundary(s@, b as int),
        },
{
    let ghost sv = s@;
    let mut i: usize = 0;
    let mut pos: usize = 0;
    assert(sv.take(0) =~= Seq::<char>::empty());
    while i < s.len() && pos < b
        invariant
            sv == s@,
            i <= s.len(),
            pos == bpos(sv, i as int),
            pos <= b || i == 0,
            forall|k: int| 0 <= k < i ==> bpos(sv, k) < b,
        decreases s.len() - i,
    {
        proof {
            lemma_bpos_step(sv, i as int);
        }
        let w = char_width8(s[i]);
        if w > b - pos {
            proof {
                assert forall|k: int| 0 <= k <= s.len() implies bpos(sv, k) != b by {
                    if k > i {
                        lemma_bpos_mono(sv, i + 1, k);
                    }
                }
            }
            return None;
        }
        pos = pos + w;
        i = i + 1;
    }
    if pos == b {
        Some(i)
    } else {
        proof {
            assert forall|k: int| 0 <= k <= s.len() implies bpos(sv, k) != b by {
                if k > i {
                    lemma_bpos_mono(sv, i as int, k);
                } else if k == i {
                } else {
                }
            }
        }
        None
    }
}

/// A replacement of the bytes of `range` by `replacement`.
#[derive(Clone, Debug)]
pub struct TextEditChange {
    pub range: ByteRange,
    pub replacement: String,
}

/// Index of the first change with the greatest start among `c[i..]`.
pub open spec fn max_start_from(c: Seq<TextEditChange>, i: int) -> int
    decreases c.len() - i,
{
    if i >= c.len() - 1 {
        i
    } else {
        let j = max_start_from(c, i + 1);
        if c[j].range.start > c[i].range.start {
            j
        } else {
            i
        }
    }
}

pub proof fn lemma_max_start(c: Seq<TextEditChange>, i: int)
    requires
        0 <= i < c.len(),
    ensures
        i <= max_start_from(c, i) < c.len(),
    decreases c.len() - i,
{
    if i < c.len() - 1 {
        lemma_max_start(c, i + 1);
    }
}

/// The changes ordered by start, greatest first, keeping the given order among equal
/// starts.
#[verifier::opaque]
pub open spec fn order_desc(c: Seq<TextEditChange>) -> Seq<TextEditChange>
    decreases c.len(),
{
    if c.len() == 0 {
        Seq::empty()
    } else {
        proof {
            lemma_max_start(c, 0);
        }
        let m = max_start_from(c, 0);
        seq![c[m]] + order_desc(c.remove(m))
    }
}

/// No two changes start at the same offset.
pub open spec fn starts_distinct(c: Seq<TextEditChange>) -> bool {
    forall|i: int, j: int| 0 <= i < j < c.len() ==> c[i].range.start != c[j].range.start
}

proof fn lemma_max_is_max(c: Seq<TextEditChange>, i: int)
    requires
        0 <= i < c.len(),
    ensures
        forall|k: int| i <= k < c.len() ==> (#[trigger] c[k]).range.start <= c[max_start_from(c, i)].range.start,
    decreases c.len() - i,
{
    if i < c.len() - 1 {
        lemma_max_is_max(c, i + 1);
        lemma_max_start(c, i + 1);
    }
}

proof fn lemma_remove_distinct(c: Seq<TextEditChange>, m: int)
    requires
        0 <= m < c.len(),
        starts_distinct(c),
    ensures
        starts_distinct(c.remove(m)),
{
    let r = c.remove(m);
    assert forall|i: int, j: int| 0 <= i < j < r.len() implies r[i].range.start != r[j].range.start by {
        let ii = if i < m { i } else { i + 1 };
        let jj = if j < m { j } else { j + 1 };
        assert(r[i] == c[ii] && r[j] == c[jj]);
    }
}

/// With no two starts alike, the order in which changes are applied depends only on which
/// changes there are, not on the order they were listed in.
proof fn lemma_order_desc_unique(c1: Seq<TextEditChange>, c2: Seq<TextEditChange>)
    requires
        c1.to_multiset() == c2.to_multiset(),
        starts_distinct(c1),
        starts_distinct(c2),
    ensures
        order_desc(c1) == order_desc(c2),
    decreases c1.len(),
{
    c1.to_multiset_ensures();
    c2.to_multiset_ensures();
    reveal(order_desc);
    if c1.len() > 0 {
        lemma_max_start(c1, 0);
        lemma_max_start(c2, 0);
        lemma_max_is_max(c1, 0);
        lemma_max_is_max(c2, 0);
        let m1 = max_start_from(c1, 0);
        let m2 = max_start_from(c2, 0);
        assert(c1.contains(c1[m1]));
        assert(c2.contains(c2[m2]));
        assert(c2.to_multiset().count(c1[m1]) > 0);
        assert(c1.to_multiset().count(c2[m2]) > 0);
        assert(c2.contains(c1[m1]));
        assert(c1.contains(c2[m2]));
        let k2 = choose|k: int| 0 <= k < c2.len() && c2[k] == c1[m1];
        let k1 = choose|k: int| 0 <= k < c1.len() && c1[k] == c2[m2];
        assert(c2[k2].range.start <= c2[m2].range.start);
        assert(c1[k1].range.start <= c1[m1].range.start);
        if k1 != m1 {
            if k1 < m1 {
                assert(c1[k1].range.start != c1[m1].range.start);
            } else {
                assert(c1[m1].range.start != c1[k1].range.start);
            }
        }
        assert(c1[m1] == c2[m2]);
        assert(c1.remove(m1).to_multiset() =~= c2.remove(m2).to_multiset());
        lemma_remove_distinct(c1, m1);
        lemma_remove_distinct(c2, m2);
        lemma_order_desc_unique(c1.remove(m1), c2.remove(m2));
    }
}

/// Applying changes does not depend on the order they are listed in, when no two start
/// at the same offset: any reordering of the changes gives the same text, and can be
/// applied exactly when the original listing can.
pub proof fn lemma_apply_order_free(s: Seq<char>, c1: Seq<TextEditChange>, c2: Seq<TextEditChange>)
    requires
        c1.to_multiset() == c2.to_multiset(),
        starts_distinct(c1),
        starts_distinct(c2),
    ensures
        apply_seq(s, order_desc(c1)) == apply_seq(s, order_desc(c2)),
        edits_ok(s, order_desc(c1)) == edits_ok(s, order_desc(c2)),
{
    lemma_order_desc_unique(c1, c2);
}

/// The text with one change applied.
pub open spec fn apply_one(s: Seq<char>, c: TextEditChange) -> Seq<char> {
    s.take(char_idx(s, c.range.start as int)) + c.replacement@ + s.skip(char_idx(s, c.range.end as int))
}

/// The change can be applied to the text: its range is ordered and on character
/// boundaries, and the result fits in memory.
pub open spec fn edit_ok(s: Seq<char>, c: TextEditChange) -> bool {
    &&& c.range.start <= c.range.end
    &&& is_boundary(s, c.range.start as int)
    &&& is_boundary(s, c.range.end as int)
    &&& utf8_len(s) - (c.range.end - c.range.start) + utf8_len(c.replacement@) <= usize::MAX
}

#[verifier::opaque]
pub open spec fn apply_seq(s: Seq<char>, cs: Seq<TextEditChange>) -> Seq<char>
    decreases cs.len(),
{
    if cs.len() == 0 {
        s
    } else {
        apply_seq(apply_one(s, cs[0]), cs.drop_first())
    }
}

#[verifier::opaque]
pub open spec fn edits_ok(s: Seq<char>, cs: Seq<TextEditChange>) -> bool
    decreases cs.len(),
{
    cs.len() == 0 || (edit_ok(s, cs[0]) && edits_ok(apply_one(s, cs[0]), cs.drop_first()))
}

pub open spec fn pick(c: Seq<TextEditChange>, idx: Seq<usize>) -> Seq<TextEditChange> {
    idx.map_values(|i: usize| c[i as int])
}

/// Position in `rem` of the first change with the greatest start.
fn select_max(changes: &[TextEditChange], rem: &Vec<usize>) -> (m: usize)
    requires
        rem@.len() > 0,
        forall|q: int| 0 <= q < rem@.len() ==> #[trigger] rem@[q] < changes@.len(),
    ensures
        m == max_start_from(pick(changes@, rem@), 0),
        m < rem@.len(),
{
    let ghost c = pick(changes@, rem@);
    let mut m: usize = rem.len() - 1;
    let mut j: usize = rem.len() - 1;
    proof {
        lemma_max_start(c, 0);
    }
    while j > 0
        invariant
            0 <= j <= m < rem@.len(),
            c == pick(changes@, rem@),
            forall|q: int| 0 <= q < rem@.len() ==> #[trigger] rem@[q] < changes@.len(),
            max_start_from(c, j as int) == m as int,
        decreases j,
    {
        j -= 1;
        assert(c[j as int] == changes@[rem@[j as int] as int]);
        assert(c[m as int] == changes@[rem@[m as int] as int]);
        if changes[rem[m]].range.start > changes[rem[j]].range.start {
        } else {
            m = j;
        }
    }
    m
}

proof fn lemma_order_step(c: Seq<TextEditChange>)
    requires
        c.len() > 0,
    ensures
        order_desc(c) == seq![c[max_start_from(c, 0)]] + order_desc(c.remove(max_start_from(c, 0))),
{
    reveal(order_desc);
    lemma_max_start(c, 0);
}

/// Applies the first of the changes still to do.
fn apply_first(current: Text, change: &TextEditChange, Ghost(todo): Ghost<Seq<TextEditChange>>) -> (r: Text)
    requires
        current.wf(),
        todo.len() > 0,
        todo[0] == *change,
        edits_ok(current@, todo),
    ensures
        r.wf(),
        edits_ok(r@, todo.drop_first()),
        apply_seq(current@, todo) == apply_seq(r@, todo.drop_first()),
{
    reveal(edits_ok);
    reveal(apply_seq);
    current.replace_range(change.range, change.replacement.as_str())
}

/// Takes the change with the greatest start out of the remaining ones.
fn take_max(changes: &[TextEditChange], rem: &mut Vec<usize>) -> (idx: usize)
    requires
        old(rem)@.len() > 0,
        forall|q: int| 0 <= q < old(rem)@.len() ==> #[trigger] old(rem)@[q] < changes@.len(),
    ensures
        idx < changes@.len(),
        final(rem)@.len() == old(rem)@.len() - 1,
        forall|q: int| 0 <= q < final(rem)@.len() ==> #[trigger] final(rem)@[q] < changes@.len(),
        order_desc(pick(changes@, old(rem)@)) == seq![changes@[idx as int]] + order_desc(pick(changes@, final(rem)@)),
{
    let ghost c = pick(changes@, rem@);
    let m = select_max(changes, rem);
    let ghost before = rem@;
    let idx = rem.remove(m);
    proof {
        lemma_order_step(c);
        assert(c[m as int] == changes@[idx as int]);
        assert(pick(changes@, rem@) =~= c.remove(m as int));
        assert forall|q: int| 0 <= q < rem@.len() implies #[trigger] rem@[q] < changes@.len() by {
            if q < m {
                assert(rem@[q] == before[q]);
            } else {
                assert(rem@[q] == before[q + 1]);
            }
        }
    }
    idx
}

impl TextEditChange {
    /// Applies the changes from the one starting last to the one starting first, so that
    /// earlier offsets stay valid; changes with equal starts keep their order.
    #[verifier::rlimit(60)]
    pub fn apply_all(text: &Text, changes: &[Self]) -> (r: Text)
        requires
            text.wf(),
            edits_ok(text@, order_desc(changes@)),
        ensures
            r.wf(),
            r@ == apply_seq(text@, order_desc(changes@)),
    {
        let mut current = Text::new(text.as_str());
        let mut rem: Vec<usize> = Vec::new();
        let mut k: usize = 0;
        while k < changes.len()
            invariant
                k <= changes@.len(),
                rem@.len() == k,
                forall|q: int| 0 <= q < k ==> #[trigger] rem@[q] == q,
            decreases changes@.len() - k,
        {
            rem.push(k);
            k += 1;
        }
        assert(pick(changes@, rem@) =~= changes@);
        let ghost mut todo = order_desc(changes@);
        while rem.len() > 0
            invariant
                current.wf(),
                forall|q: int| 0 <= q < rem@.len() ==> #[trigger] rem@[q] < changes@.len(),
                todo == order_desc(pick(changes@, rem@)),
                edits_ok(current@, todo),
                apply_seq(text@, order_desc(changes@)) == apply_seq(current@, todo),
            decreases rem@.len(),
        {
            let idx = take_max(changes, &mut rem);
            let change = &changes[idx];
            proof {
                assert(todo[0] == *change);
                assert(todo.drop_first() =~= order_desc(pick(changes@, rem@)));
            }
            current = apply_first(current, change, Ghost(todo));
            proof {
                todo = todo.drop_first();
            }
        }
        proof {
            reveal(order_desc);
            reveal(apply_seq);
            assert(pick(changes@, rem@) =~= Seq::<TextEditChange>::empty());
        }
        current
    }
}

/// Whether `change` can be applied to `text` (see `edit_ok`).
fn edit_fits(text: &Text, change: &TextEditChange) -> (b: bool)
    requires
        text.wf(),
    ensures
        b == edit_ok(text@, *change),
{
    let start = change.range.start;
    let end = change.range.end;
    if start > end {
        return false;
    }
    let s_ok = char_index_of_byte(&text.chars, start);
    let e_ok = char_index_of_byte(&text.chars, end);
    match (s_ok, e_ok) {
        (Some(i), Some(j)) => {
            proof {
                assert(is_boundary(text@, start as int));
                assert(is_boundary(text@, end as int));
                lemma_boundary_le_len(text@, end as int);
            }
            let rest = text.byte_len - (end - start);
            let add = str_byte_len(change.replacement.as_str());
            rest.checked_add(add).is_some()
        },
        _ => false,
    }
}

impl TextEditChange {
    /// Applies the changes as `apply_all` does, or gives `None` when one of them cannot
    /// be applied to the text it meets.
    #[verifier::spinoff_prover]
    pub fn try_apply_all(text: &Text, changes: &[Self]) -> (r: Option<Text>)
        requires
            text.wf(),
        ensures
            match r {
                Some(t) => t.wf() && edits_ok(text@, order_desc(changes@)) && t@ == apply_seq(
                    text@,
                    order_desc(changes@),
                ),
                None => !edits_ok(text@, order_desc(changes@)),
            },
    {
        let mut current = Text::new(text.as_str());
        let mut rem: Vec<usize> = Vec::new();
        let mut k: usize = 0;
        while k < changes.len()
            invariant
                k <= changes@.len(),
                rem@.len() == k,
                forall|q: int| 0 <= q < k ==> #[trigger] rem@[q] == q,
            decreases changes@.len() - k,
        {
            rem.push(k);
            k += 1;
        }
        assert(pick(changes@, rem@) =~= changes@);
        let ghost mut todo = order_desc(changes@);
        while rem.len() > 0
            invariant
                current.wf(),
                forall|q: int| 0 <= q < rem@.len() ==> #[trigger] rem@[q] < changes@.len(),
                todo == order_desc(pick(changes@, rem@)),
                edits_ok(text@, order_desc(changes@)) == edits_ok(current@, todo),
                apply_seq(text@, order_desc(changes@)) == apply_seq(current@, todo),
            decreases rem@.len(),
        {
            let idx = take_max(changes, &mut rem);
            let change = &changes[idx];
            proof {
                assert(todo[0] == *change);
                assert(todo.drop_first() =~= order_desc(pick(changes@, rem@)));
                reveal(edits_ok);
                reveal(apply_seq);
            }
            if !edit_fits(&current, change) {
                return None;
            }
            current = current.replace_range(change.range, change.replacement.as_str());
            proof {
                todo = todo.drop_first();
            }
        }
        proof {
            reveal(order_desc);
            reveal(apply_seq);
            reveal(edits_ok);
            assert(pick(changes@, rem@) =~= Seq::<TextEditChange>::empty());
        }
        Some(current)
    }
}

/// Some line holds byte `b`: the last one that starts at or before it.
proof fn lemma_line_exists(m: LineMap, b: int, k0: int) -> (k: int)
    requires
        m.wf(),
        0 <= k0 < m.starts().len(),
        m.starts()[k0] <= b,
    ensures
        k0 <= k < m.starts().len(),
        m.starts()[k] <= b,
        k + 1 < m.starts().len() ==> b < m.starts()[k + 1],
    decreases m.starts().len() - k0,
{
    if k0 + 1 < m.starts().len() && m.starts()[k0 + 1] <= b {
        lemma_line_exists(m, b, k0 + 1)
    } else {
        k0
    }
}

/// The LSP position of a byte offset leads back to that offset: for every offset on a
/// character boundary whose line and column fit in 32 bits; in UTF-16 units, when the
/// offset does not fall inside a line break (between the `\r` and the `\n` of a `\r\n`).
pub proof fn lemma_position_round_trip(t: Text, offset: usize, enc: PositionEncoding)
    requires
        t.wf(),
        offset <= utf8_len(t@),
        is_boundary(t@, offset as int),
        enc == PositionEncoding::Utf16 ==> offset <= t.map().ends()[line_index(t.map().starts(), offset as int)],
        line_index(t.map().starts(), offset as int) <= u32::MAX,
        spec_column(t@, t.map().starts(), offset, enc) <= u32::MAX,
    ensures
        spec_to_lsp(t@, t.map().starts(), offset, enc) matches Ok(p) && spec_byte_offset(
            t@,
            t.map().starts(),
            t.map().ends(),
            p,
            enc,
        ) == Ok::<usize, PositionError>(offset),
{
    let s = t@;
    let m = t.map();
    let st = m.starts();
    let en = m.ends();
    let w = lemma_line_exists(m, offset as int, 0);
    lemma_line_index(m, offset as int, w);
    let k = line_index(st, offset as int);
    assert(k == w);
    let ls = st[k] as int;
    let le = en[k] as int;
    assert(is_boundary(s, ls));
    assert(is_boundary(s, le));
    let j = char_idx(s, ls);
    let c = char_idx(s, offset as int);
    let e = char_idx(s, le);
    assert(0 <= j <= s.len() && bpos(s, j) == ls);
    assert(0 <= c <= s.len() && bpos(s, c) == offset);
    assert(0 <= e <= s.len() && bpos(s, e) == le);
    if j > c {
        lemma_bpos_mono(s, c, j);
    }
    assert(j <= c);
    assert(spec_to_lsp(s, st, offset, enc) == Ok::<LspPosition, PositionError>(
        LspPosition { line: k as u32, character: spec_column(s, st, offset, enc) as u32 },
    ));
    match enc {
        PositionEncoding::Utf8 => {},
        PositionEncoding::Utf16 => {
            if c > e {
                lemma_bpos_mono(s, e, c);
            }
            assert(c <= e);
            let ch = utf16_len(s.subrange(j, c));
            lemma_utf16_mono(s, j, c, s.len() as int);
            lemma_utf16_mono(s, j, j, c);
            assert(s.subrange(j, j) =~= Seq::<char>::empty());
            lemma_utf16_mono(s, j, c, e);
            assert(utf16_hit(s, j, e, ch as int, c));
            let mm = choose|mm: int| #[trigger] utf16_hit(s, j, e, ch as int, mm);
            assert(utf16_hit(s, j, e, ch as int, mm));
            if mm < c {
                lemma_utf16_mono(s, j, mm, c);
            } else if mm > c {
                lemma_utf16_mono(s, j, c, mm);
            }
            assert(mm == c);
        },
    }
}

/// The line that holds the start of line `k` is line `k`.
pub proof fn lemma_line_start_round_trip(m: LineMap, k: int)
    requires
        m.wf(),
        0 <= k < m.starts().len(),
    ensures
        line_index(m.starts(), m.starts()[k] as int) == k,
{
    if k + 1 < m.starts().len() {
        assert(m.starts()[k] <= m.ends()[k] < m.starts()[k + 1]);
    }
    lemma_line_index(m, m.starts()[k] as int, k);
}

/// Number of line breaks from index `i` on: each `\n`, and each `\r` not followed by
/// `\n` (so that `\r\n` counts once).
pub open spec fn break_count(s: Seq<char>, i: int) -> nat
    decreases s.len() - i,
{
    if i < 0 || i >= s.len() {
        0
    } else {
        (if s[i] == '\n' || (s[i] == '\r' && !(i + 1 < s.len() && s[i + 1] == '\n')) {
            1nat
        } else {
            0nat
        }) + break_count(s, i + 1)
    }
}

proof fn lemma_breaks_from(s: Seq<char>, i: int)
    requires
        0 <= i <= s.len(),
    ensures
        starts_from(s, i).len() == break_count(s, i),
        ends_from(s, i).len() == break_count(s, i),
    decreases s.len() - i,
{
    if i < s.len() {
        let b = brk(s, i);
        if b == 0 {
            lemma_breaks_from(s, i + 1);
        } else {
            lemma_breaks_from(s, i + b);
            if b == 2 {
                assert(break_count(s, i + 1) == 1 + break_count(s, i + 2));
            }
        }
    }
}

/// The `j`-th line start from index `i` on follows the line break at which the `j`-th
/// line end stands.
proof fn lemma_break_at(s: Seq<char>, i: int, j: int) -> (p: int)
    requires
        0 <= i <= s.len(),
        0 <= j < starts_from(s, i).len(),
    ensures
        i <= p < s.len(),
        brk(s, p) > 0,
        ends_from(s, i)[j] == bpos(s, p) as usize,
        starts_from(s, i)[j] == bpos(s, p + brk(s, p)) as usize,
    decreases s.len() - i,
{
    let b = brk(s, i);
    if b == 0 {
        lemma_break_at(s, i + 1, j)
    } else if j == 0 {
        i
    } else {
        lemma_breaks_from(s, i + b);
        assert(ends_from(s, i) == seq![bpos(s, i) as usize] + ends_from(s, i + b));
        assert(starts_from(s, i)[j] == starts_from(s, i + b)[j - 1]);
        assert(ends_from(s, i)[j] == ends_from(s, i + b)[j - 1]);
        lemma_break_at(s, i + b, j - 1)
    }
}

/// Every line break ends one line and starts the next: a text has one line more than it
/// has line breaks (`\r\n`, a lone `\r` or a lone `\n`, each counted once); between the
/// end of each line and the start of the next stands exactly one line break; the first
/// line starts at the text's start and the last ends at its end (offsets being bytes).
pub proof fn lemma_line_map_breaks(m: LineMap, s: Seq<char>)
    requires
        m.describes(s),
    ensures
        m.starts().len() == 1 + break_count(s, 0),
        m.starts()[0] == 0,
        m.ends()[m.ends().len() - 1] == utf8_len(s) as usize,
        forall|k: int|
            0 <= k < m.starts().len() - 1 ==> exists|i: int|
                #![trigger bpos(s, i)]
                0 <= i < s.len() && brk(s, i) > 0 && #[trigger] m.ends()[k] == bpos(s, i) as usize && m.starts()[k + 1]
                    == bpos(s, i + brk(s, i)) as usize,
{
    lemma_breaks_from(s, 0);
    assert forall|k: int| 0 <= k < m.starts().len() - 1 implies exists|i: int|
        #![trigger bpos(s, i)]
        0 <= i < s.len() && brk(s, i) > 0 && #[trigger] m.ends()[k] == bpos(s, i) as usize && m.starts()[k + 1]
            == bpos(s, i + brk(s, i)) as usize by {
        assert(m.starts()[k + 1] == starts_from(s, 0)[k]);
        assert(m.ends()[k] == ends_from(s, 0)[k]);
        let p = lemma_break_at(s, 0, k);
        assert(bpos(s, p) as usize == m.ends()[k]);
    }
}

/// What a replacement writes reads back: after the bytes of `range` are replaced by
/// `rep` (as `Text::replace_range` does), the bytes from the range's start that `rep`
/// takes up are boundaries, and the characters between them are `rep`.
pub proof fn lemma_slice_after_replace(s: Seq<char>, range: ByteRange, rep: Seq<char>)
    requires
        range.start <= range.end,
        is_boundary(s, range.start as int),
        is_boundary(s, range.end as int),
    ensures
        ({
            let n = s.take(char_idx(s, range.start as int)) + rep + s.skip(char_idx(s, range.end as int));
            let b = range.start + utf8_len(rep);
            &&& is_boundary(n, range.start as int)
            &&& is_boundary(n, b)
            &&& n.subrange(char_idx(n, range.start as int), char_idx(n, b)) == rep
        }),
{
    let i = char_idx(s, range.start as int);
    let j = char_idx(s, range.end as int);
    assert(0 <= i <= s.len() && bpos(s, i) == range.start);
    assert(0 <= j <= s.len() && bpos(s, j) == range.end);
    if i > j {
        lemma_bpos_mono(s, j, i);
    }
    let n = s.take(i) + rep + s.skip(j);
    let b = range.start + utf8_len(rep);
    assert(n.take(i) =~= s.take(i));
    assert(n.take(i + rep.len()) =~= s.take(i) + rep);
    lemma_utf8_len_concat(s.take(i), rep);
    assert(bpos(n, i) == range.start);
    assert(bpos(n, i + rep.len()) == b);
    lemma_char_idx(n, range.start as int, i);
    lemma_char_idx(n, b, i + rep.len());
    assert(n.subrange(i, i + rep.len()) =~= rep);
}

} // verus!
