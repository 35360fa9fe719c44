//! Source positions: locations, spans and spanned values.
//!
//! A [`Location`] is a `(line, column, absolute byte offset)` triple.
//! Ordering of locations is defined solely by the absolute byte offset;
//! line and column are derived bookkeeping.  Advancing over one character
//! grows the absolute offset by the character's UTF-8 encoded length; a
//! newline resets the column to 0 and increments the line; any other
//! character increments the column by 1.

use vstd::prelude::*;

verus! {

/// Byte length of the UTF-8 encoding of one character.
pub open spec fn char_bytes(c: char) -> int {
    if (c as u32) < 0x80 {
        1
    } else if (c as u32) < 0x800 {
        2
    } else if (c as u32) < 0x10000 {
        3
    } else {
        4
    }
}

/// Byte length of the UTF-8 encoding of the first `k` characters of `s`.
pub open spec fn bytes_of(s: Seq<char>, k: int) -> int
    decreases k,
{
    if k <= 0 {
        0
    } else {
        bytes_of(s, k - 1) + char_bytes(s[k - 1])
    }
}

/// Number of newline characters among the first `k` characters of `s`.
pub open spec fn lines_of(s: Seq<char>, k: int) -> int
    decreases k,
{
    if k <= 0 {
        0
    } else if s[k - 1] == '\n' {
        lines_of(s, k - 1) + 1
    } else {
        lines_of(s, k - 1)
    }
}

/// Number of characters after the last newline among the first `k`
/// characters of `s` (the column reached after consuming that prefix).
pub open spec fn col_of(s: Seq<char>, k: int) -> int
    decreases k,
{
    if k <= 0 {
        0
    } else if s[k - 1] == '\n' {
        0
    } else {
        col_of(s, k - 1) + 1
    }
}

/// Each character occupies between 1 and 4 bytes.
pub proof fn lemma_bytes_of_bounds(s: Seq<char>, k: int)
    requires
        0 <= k,
    ensures
        k <= bytes_of(s, k) <= 4 * k,
    decreases k,
{
    if k > 0 {
        lemma_bytes_of_bounds(s, k - 1);
    }
}

/// Byte offsets grow monotonically with the character index, by at least
/// one byte per character.
pub proof fn lemma_bytes_of_mono(s: Seq<char>, i: int, j: int)
    requires
        0 <= i <= j,
    ensures
        bytes_of(s, i) + (j - i) <= bytes_of(s, j),
    decreases j - i,
{
    if i < j {
        lemma_bytes_of_mono(s, i, j - 1);
    }
}

/// Line and column counters never exceed the character index.
pub proof fn lemma_lines_col_le(s: Seq<char>, k: int)
    requires
        0 <= k,
    ensures
        0 <= lines_of(s, k) <= k,
        0 <= col_of(s, k) <= k,
    decreases k,
{
    if k > 0 {
        lemma_lines_col_le(s, k - 1);
    }
}

/// `bytes_of` over a full sequence equals the length of its UTF-8 encoding,
/// so the byte offset of a position inside a real string always fits in the
/// string's byte length.
pub proof fn lemma_bytes_of_is_encode_len(s: Seq<char>)
    ensures
        bytes_of(s, s.len() as int) == vstd::utf8::encode_utf8(s).len(),
    decreases s.len(),
{
    if s.len() > 0 {
        lemma_bytes_of_is_encode_len(s.drop_first());
        lemma_bytes_of_shift(s, s.len() as int);
        vstd::utf8::char_is_scalar(s[0]);
        let u = s[0] as u32;
        if vstd::utf8::has_width_1_encoding(u) {
            assert(vstd::utf8::encode_scalar(u) == seq![vstd::utf8::leading_byte_width_1(u)]);
        } else if vstd::utf8::has_width_2_encoding(u) {
            assert(vstd::utf8::encode_scalar(u).len() == 2);
        } else if vstd::utf8::has_width_3_encoding(u) {
            assert(vstd::utf8::encode_scalar(u).len() == 3);
        } else {
            assert(vstd::utf8::encode_scalar(u).len() == 4);
        }
        assert(vstd::utf8::encode_scalar(u).len() == char_bytes(s[0]));
    }
}

/// Peeling the first character off the front of the sequence.
pub proof fn lemma_bytes_of_shift(s: Seq<char>, k: int)
    requires
        1 <= k <= s.len(),
    ensures
        bytes_of(s, k) == char_bytes(s[0]) + bytes_of(s.drop_first(), k - 1),
    decreases k,
{
    if k == 1 {
        assert(bytes_of(s, 1) == bytes_of(s, 0) + char_bytes(s[0]));
        assert(bytes_of(s.drop_first(), 0) == 0);
    } else {
        lemma_bytes_of_shift(s, k - 1);
        assert(s.drop_first()[k - 2] == s[k - 1]);
        assert(bytes_of(s, k) == bytes_of(s, k - 1) + char_bytes(s[k - 1]));
        assert(bytes_of(s.drop_first(), k - 1) == bytes_of(s.drop_first(), k - 2) + char_bytes(
            s.drop_first()[k - 2],
        ));
    }
}

/// A location in the source text.
#[derive(Clone, Copy, PartialEq, Eq, Hash, Debug, Structural)]
pub struct Location {
    /// Zero-based line number.
    pub line: usize,
    /// Zero-based column number, in characters.
    pub column: usize,
    /// Absolute byte offset from the start of the text.
    pub absolute: usize,
}

impl Location {
    pub fn new(line: usize, column: usize, absolute: usize) -> (r: Location)
        ensures
            r.line == line,
            r.column == column,
            r.absolute == absolute,
    {
        Location { line, column, absolute }
    }

    /// The location reached by consuming `c` at `self`: a newline starts a
    /// new line at column 0, any other character moves one column right;
    /// the byte offset always grows by the character's encoded length.
    pub open spec fn spec_shift(self, c: char) -> Location {
        Location {
            line: if c == '\n' {
                (self.line + 1) as usize
            } else {
                self.line
            },
            column: if c == '\n' {
                0usize
            } else {
                (self.column + 1) as usize
            },
            absolute: (self.absolute + char_bytes(c)) as usize,
        }
    }

    /// Advance this location over the character `c`.
    pub fn shift(&mut self, c: char)
        requires
            old(self).absolute + char_bytes(c) <= usize::MAX,
            old(self).line < usize::MAX,
            old(self).column < usize::MAX,
        ensures
            *final(self) == old(self).spec_shift(c),
    {
        if c == '\n' {
            self.line = self.line + 1;
            self.column = 0;
        } else {
            self.column = self.column + 1;
        }
        self.absolute = self.absolute + char_utf8_len(c);
    }
}

// Ordering of locations goes by the absolute byte offset alone: line and
// column are derived bookkeeping and play no part in comparisons.
impl PartialOrd for Location {
    fn partial_cmp(&self, other: &Self) -> (r: Option<core::cmp::Ordering>) {
        if self.absolute < other.absolute {
            Some(core::cmp::Ordering::Less)
        } else if self.absolute == other.absolute {
            Some(core::cmp::Ordering::Equal)
        } else {
            Some(core::cmp::Ordering::Greater)
        }
    }
}

impl vstd::std_specs::cmp::PartialOrdSpecImpl for Location {
    open spec fn obeys_partial_cmp_spec() -> bool {
        true
    }

    open spec fn partial_cmp_spec(&self, other: &Self) -> Option<core::cmp::Ordering> {
        if self.absolute < other.absolute {
            Some(core::cmp::Ordering::Less)
        } else if self.absolute == other.absolute {
            Some(core::cmp::Ordering::Equal)
        } else {
            Some(core::cmp::Ordering::Greater)
        }
    }
}

/// Exact UTF-8 encoded length of `c`, between 1 and 4 bytes.
pub fn char_utf8_len(c: char) -> (n: usize)
    ensures
        n == char_bytes(c),
{
    let u = c as u32;
    if u < 0x80 {
        1
    } else if u < 0x800 {
        2
    } else if u < 0x10000 {
        3
    } else {
        4
    }
}

/// The location `loc` is the one reached by consuming the first `k`
/// characters of `s`.
pub open spec fn loc_is(s: Seq<char>, k: int, loc: Location) -> bool {
    &&& loc.absolute == bytes_of(s, k)
    &&& loc.line == lines_of(s, k)
    &&& loc.column == col_of(s, k)
}

/// The location reached by consuming the first `k` characters of `s`.
pub open spec fn loc_at(s: Seq<char>, k: int) -> Location {
    Location {
        line: lines_of(s, k) as usize,
        column: col_of(s, k) as usize,
        absolute: bytes_of(s, k) as usize,
    }
}

/// A location that satisfies `loc_is` is exactly `loc_at` of its position.
pub proof fn lemma_loc_at_unique(s: Seq<char>, k: int, loc: Location)
    requires
        loc_is(s, k, loc),
    ensures
        loc == loc_at(s, k),
{
}

/// For positions inside a text whose byte length fits the machine,
/// `loc_at` satisfies `loc_is`.
pub proof fn lemma_loc_at(s: Seq<char>, k: int)
    requires
        0 <= k <= s.len(),
        bytes_of(s, s.len() as int) <= usize::MAX,
    ensures
        loc_is(s, k, loc_at(s, k)),
{
    lemma_lines_col_le(s, k);
    lemma_bytes_of_bounds(s, k);
    lemma_bytes_of_mono(s, k, s.len() as int);
}

/// A region of the source text, with `start.absolute <= end.absolute`.
#[derive(Clone, Copy, PartialEq, Eq, Hash, Debug, Structural)]
pub struct Span {
    pub start: Location,
    pub end: Location,
}

impl Span {
    /// `new` reorders its arguments (by byte offset) so that the invariant
    /// `start <= end` holds.
    pub open spec fn spec_new(start: Location, end: Location) -> Span {
        if start.absolute <= end.absolute {
            Span { start, end }
        } else {
            Span { start: end, end: start }
        }
    }

    /// Create a span; `start` and `end` are reordered to maintain the
    /// invariant that `start <= end` (ordering by byte offset alone).
    pub fn new(start: Location, end: Location) -> (r: Span)
        ensures
            r == Span::spec_new(start, end),
    {
        if start.absolute <= end.absolute {
            Span { start, end }
        } else {
            Span { start: end, end: start }
        }
    }

    /// Create a span without checking that `start <= end`.
    pub fn new_unchecked(start: Location, end: Location) -> (r: Span)
        ensures
            r.start == start,
            r.end == end,
    {
        Span { start, end }
    }

    /// Get the start location.
    pub fn start(self) -> (r: Location)
        ensures
            r == self.start,
    {
        self.start
    }

    /// Get the end location.
    pub fn end(self) -> (r: Location)
        ensures
            r == self.end,
    {
        self.end
    }

    /// Apply `f` to both endpoints, renormalizing the result.
    pub fn map<F: Fn(Location) -> Location>(self, f: F) -> (r: Span)
        requires
            f.requires((self.start,)),
            f.requires((self.end,)),
        ensures
            exists|a: Location, b: Location|
                f.ensures((self.start,), a) && f.ensures((self.end,), b) && r == Span::spec_new(
                    a,
                    b,
                ),
    {
        let a = f(self.start);
        let b = f(self.end);
        Span::new(a, b)
    }
}

/// A value paired with the span of source text it came from.
#[derive(Clone, Copy, PartialEq, Eq, Hash, Debug)]
pub struct Spanned<T> {
    pub span: Span,
    pub value: T,
}

impl<T> Spanned<T> {
    /// Keep the span, replace the value by `f` of it.
    pub fn map<U, F: FnOnce(T) -> U>(self, f: F) -> (r: Spanned<U>)
        requires
            f.requires((self.value,)),
        ensures
            r.span == self.span,
            f.ensures((self.value,), r.value),
    {
        Spanned { span: self.span, value: f(self.value) }
    }
}

/// Pair `value` with the (normalized) span from `start` to `end`.
pub fn spanned<T>(start: Location, end: Location, value: T) -> (r: Spanned<T>)
    ensures
        r.span == Span::spec_new(start, end),
        r.value == value,
{
    Spanned { span: Span::new(start, end), value }
}

} // verus!
