//! Source positions: converts between byte offsets and zero-based line /
//! column positions (UTF-16 code units, as the Language Server Protocol
//! counts them, or characters).

use vstd::prelude::*;

use super::lexer::byte_pos;
use crate::text::{
    len_utf16, len_utf8, lemma_utf8_len_mono, lemma_utf8_len_push, str_chars, utf16_len,
    utf16_width, utf8_len, utf8_width,
};

verus! {

/// A zero-based source position.
#[derive(Debug, Clone, Copy, PartialEq, Eq, Hash, Structural)]
pub struct Position {
    /// Zero-based line number.
    pub line: u32,
    /// Zero-based column (UTF-16 code units for LSP compatibility).
    pub character: u32,
}

/// The character indices just after each newline of `s`, in order.
pub open spec fn newline_ends(s: Seq<char>) -> Seq<int>
    decreases s.len(),
{
    if s.len() == 0 {
        Seq::empty()
    } else if s.last() == '\n' {
        newline_ends(s.drop_last()).push(s.len() as int)
    } else {
        newline_ends(s.drop_last())
    }
}

/// The character index where each line starts.
pub open spec fn line_start_indices(s: Seq<char>) -> Seq<int> {
    seq![0int] + newline_ends(s)
}

/// The line (zero-based) of character index `i`: the newlines before it.
pub open spec fn line_of(s: Seq<char>, i: int) -> nat {
    newline_ends(s.take(i)).len()
}

/// The character index where the line of index `i` starts.
pub open spec fn line_start_of(s: Seq<char>, i: int) -> int {
    let n = newline_ends(s.take(i));
    if n.len() == 0 {
        0
    } else {
        n.last()
    }
}

/// Walks a line from index `j` (its end at `end`) across `remaining` UTF-16
/// units; a position inside a character stops at its start.
pub open spec fn walk_units(s: Seq<char>, j: int, end: int, remaining: nat) -> int
    decreases end - j,
{
    if j >= end || j < 0 || j >= s.len() {
        if j < end {
            j
        } else {
            end
        }
    } else if remaining == 0 {
        j
    } else if remaining < utf16_width(s[j]) {
        j
    } else {
        walk_units(s, j + 1, end, (remaining - utf16_width(s[j])) as nat)
    }
}

/// Byte offsets grow strictly with character indices.
pub proof fn lemma_byte_pos_strict(s: Seq<char>, i: int, j: int)
    requires
        0 <= i < j <= s.len(),
    ensures
        byte_pos(s, i) < byte_pos(s, j),
{
    lemma_utf8_len_push(s, i);
    lemma_utf8_len_mono(s, i + 1, j);
}

/// The end of the text is at byte `utf8_len(s)`.
pub proof fn lemma_byte_pos_end(s: Seq<char>)
    ensures
        byte_pos(s, s.len() as int) == utf8_len(s),
{
    assert(s.take(s.len() as int) =~= s);
}

/// A scan that stopped at the first index whose offset reaches `offset`
/// (or at the end) stopped at the boundary the offset names.
proof fn lemma_boundary_found(s: Seq<char>, offset: int, i: int)
    requires
        0 <= i <= s.len(),
        forall|j: int| 0 <= j < i ==> byte_pos(s, j) < offset,
        i == s.len() || byte_pos(s, i) >= offset,
        is_boundary(s, if offset < utf8_len(s) {
            offset
        } else {
            utf8_len(s) as int
        }),
    ensures
        byte_pos(s, i) == if offset < utf8_len(s) {
            offset
        } else {
            utf8_len(s) as int
        },
{
    lemma_byte_pos_end(s);
    let m = if offset < utf8_len(s) {
        offset
    } else {
        utf8_len(s) as int
    };
    let j = choose|j: int| 0 <= j <= s.len() && byte_pos(s, j) == m;
    if j < i {
        if offset < utf8_len(s) {
        } else {
            lemma_byte_pos_strict(s, j, s.len() as int);
        }
    } else if j > i {
        lemma_byte_pos_strict(s, i, j);
        if i == s.len() {
        } else {
            lemma_byte_pos_strict(s, j, s.len() as int);
        }
    }
    if i < s.len() && offset >= utf8_len(s) {
        lemma_byte_pos_strict(s, i, s.len() as int);
    }
}

/// The line starts grow strictly and lie within the text.
proof fn lemma_newline_ends_bounds(s: Seq<char>)
    ensures
        forall|k: int|
            0 <= k < newline_ends(s).len() ==> 0 < #[trigger] newline_ends(s)[k] <= s.len(),
        forall|k: int, m: int|
            0 <= k < m < newline_ends(s).len() ==> #[trigger] newline_ends(s)[k]
                < #[trigger] newline_ends(s)[m],
    decreases s.len(),
{
    if s.len() > 0 {
        let p = s.drop_last();
        lemma_newline_ends_bounds(p);
        let np = newline_ends(p);
        if s.last() == '\n' {
            assert(newline_ends(s) == np.push(s.len() as int));
            assert forall|k: int| 0 <= k < np.len() implies np[k] < s.len() by {}
        } else {
            assert(newline_ends(s) == np);
        }
    }
}

/// A text has at least as many bytes as characters.
proof fn lemma_len_le_utf8(s: Seq<char>)
    ensures
        s.len() <= utf8_len(s),
    decreases s.len(),
{
    if s.len() > 0 {
        lemma_len_le_utf8(s.drop_last());
    }
}

/// There are no more lines than characters.
proof fn lemma_newline_count(s: Seq<char>)
    ensures
        newline_ends(s).len() <= s.len(),
    decreases s.len(),
{
    if s.len() > 0 {
        lemma_newline_count(s.drop_last());
    }
}

/// Maps between byte offsets and positions for one source text.
#[derive(Debug, Clone)]
pub struct SourceMap<'a> {
    source: &'a str,
    chars: Vec<char>,
    /// Length of the source in bytes.
    total: usize,
    /// Byte offset of the start of each line.
    line_starts: Vec<usize>,
    /// Character index of the start of each line.
    line_start_chars: Vec<usize>,
}

/// `o` is a byte offset at a character boundary of `s` (or its end).
pub open spec fn is_boundary(s: Seq<char>, o: int) -> bool {
    exists|i: int| 0 <= i <= s.len() && byte_pos(s, i) == o
}

impl<'a> SourceMap<'a> {
    /// The source text.
    pub closed spec fn text(&self) -> Seq<char> {
        self.source@
    }

    /// Internal consistency of the line tables.
    pub closed spec fn wf(&self) -> bool {
        let s = self.source@;
        &&& self.chars@ == s
        &&& utf8_len(s) <= usize::MAX
        &&& self.total == utf8_len(s)
        &&& self.line_start_chars@.len() == line_start_indices(s).len()
        &&& self.line_starts@.len() == line_start_indices(s).len()
        &&& forall|k: int|
            0 <= k < self.line_start_chars@.len() ==> #[trigger] self.line_start_chars@[k]
                == line_start_indices(s)[k] && self.line_starts@[k] == byte_pos(
                s,
                line_start_indices(s)[k],
            )
    }

    /// Build a map for `source`.
    pub fn new(source: &'a str) -> (r: SourceMap<'a>)
        requires
            utf8_len(source@) <= usize::MAX,
        ensures
            r.wf(),
            r.text() == source@,
    {
        let chars = str_chars(source);
        let ghost s = source@;
        let mut line_starts: Vec<usize> = Vec::new();
        let mut line_start_chars: Vec<usize> = Vec::new();
        line_starts.push(0);
        line_start_chars.push(0);
        let mut byte: usize = 0;
        let mut i: usize = 0;
        proof {
            assert(s.take(0) =~= Seq::<char>::empty());
        }
        proof {
            lemma_len_le_utf8(s);
        }
        while i < chars.len()
            invariant
                chars@ == s,
                s.len() <= usize::MAX,
                i <= s.len(),
                utf8_len(s) <= usize::MAX,
                byte == byte_pos(s, i as int),
                line_start_chars@ == line_start_indices(s.take(i as int)).map_values(
                    |x: int| x as usize,
                ),
                line_starts@.len() == line_start_chars@.len(),
                forall|k: int|
                    0 <= k < line_starts@.len() ==> #[trigger] line_starts@[k] == byte_pos(
                        s,
                        line_start_chars@[k] as int,
                    ),
                forall|k: int|
                    0 <= k < line_start_chars@.len() ==> #[trigger] line_start_chars@[k] <= i,
            decreases chars.len() - i,
        {
            let c = chars[i];
            proof {
                lemma_utf8_len_push(s, i as int);
                lemma_utf8_len_mono(s, i as int + 1, s.len() as int);
                assert(s.take(i + 1).drop_last() =~= s.take(i as int));
            }
            byte = byte + len_utf8(c);
            i = i + 1;
            if c == '\n' {
                line_starts.push(byte);
                line_start_chars.push(i);
            }
            proof {
                assert(line_start_chars@ =~= line_start_indices(s.take(i as int)).map_values(
                    |x: int| x as usize,
                ));
            }
        }
        assert(s.take(s.len() as int) =~= s);
        proof {
            lemma_newline_ends_bounds(s);
            assert forall|k: int| 0 <= k < line_start_chars@.len() implies #[trigger] line_start_chars@[k]
                == line_start_indices(s)[k] by {
                if k > 0 {
                    assert(line_start_indices(s)[k] == newline_ends(s)[k - 1]);
                }
            }
        }
        SourceMap { source, chars, total: byte, line_starts, line_start_chars }
    }

    /// The line and character index of a byte offset (clamped to the end of
    /// the text), which must be a character boundary.
    fn locate(&self, offset: usize) -> (r: (usize, usize, usize))
        requires
            self.wf(),
            is_boundary(self.text(), if offset < utf8_len(self.text()) {
                offset as int
            } else {
                utf8_len(self.text()) as int
            }),
        ensures
            ({
                let s = self.text();
                let i = r.2 as int;
                &&& 0 <= i <= s.len()
                &&& byte_pos(s, i) == if offset < utf8_len(s) {
                    offset as int
                } else {
                    utf8_len(s) as int
                }
                &&& r.0 == line_of(s, i)
                &&& r.1 == line_start_of(s, i)
            }),
    {
        let ghost s = self.source@;
        let mut byte: usize = 0;
        let mut i: usize = 0;
        let mut line: usize = 0;
        let mut start: usize = 0;
        proof {
            assert(s.take(0) =~= Seq::<char>::empty());
        }
        loop
            invariant
                self.wf(),
                s == self.source@,
                i <= s.len(),
                byte == byte_pos(s, i as int),
                line == line_of(s, i as int),
                start == line_start_of(s, i as int),
                is_boundary(s, if offset < utf8_len(s) {
                    offset as int
                } else {
                    utf8_len(s) as int
                }),
                forall|j: int| 0 <= j < i ==> byte_pos(s, j) < offset,
                line <= i,
            ensures
                i == s.len() || byte >= offset,
            decreases s.len() - i,
        {
            if i >= self.chars.len() || byte >= offset {
                break;
            }
            let c = self.chars[i];
            proof {
                lemma_utf8_len_push(s, i as int);
                lemma_utf8_len_mono(s, i as int + 1, s.len() as int);
                assert(s.take(i + 1).drop_last() =~= s.take(i as int));
            }
            byte = byte + len_utf8(c);
            i = i + 1;
            if c == '\n' {
                line = line + 1;
                start = i;
            }
        }
        proof {
            lemma_boundary_found(s, offset as int, i as int);
        }
        (line, start, i)
    }
}


/// The offset an offset is clamped to: at most the end of the text.
pub open spec fn clamped(s: Seq<char>, offset: usize) -> int {
    if offset < utf8_len(s) {
        offset as int
    } else {
        utf8_len(s) as int
    }
}

impl<'a> SourceMap<'a> {
    /// The position of a byte offset with the column in characters: `(0, 0)`
    /// for an offset past the end of the text. An offset within the text
    /// must lie on a character boundary.
    pub fn byte_to_position_utf8(&self, offset: usize) -> (r: Position)
        requires
            self.wf(),
            offset <= utf8_len(self.text()) ==> is_boundary(self.text(), offset as int),
        ensures
            offset > utf8_len(self.text()) ==> r == (Position { line: 0, character: 0 }),
            offset <= utf8_len(self.text()) ==> forall|i: int|
                0 <= i <= self.text().len() && byte_pos(self.text(), i) == clamped(
                    self.text(),
                    offset,
                ) ==> r.line == line_of(self.text(), i) as u32 && r.character == (i
                    - line_start_of(self.text(), i)) as u32,
    {
        if offset > self.total {
            return Position { line: 0, character: 0 };
        }
        let (line, start, i) = self.locate(offset);
        proof {
            self.lemma_unique_index(offset, i as int);
            lemma_line_start_le(self.text(), i as int);
        }
        Position { line: line as u32, character: (i - start) as u32 }
    }

    /// The LSP position (column in UTF-16 code units) of a byte offset:
    /// `(0, 0)` for an offset past the end of the text. An offset within the
    /// text must lie on a character boundary.
    pub fn byte_to_position(&self, offset: usize) -> (r: Position)
        requires
            self.wf(),
            offset <= utf8_len(self.text()) ==> is_boundary(self.text(), offset as int),
        ensures
            offset > utf8_len(self.text()) ==> r == (Position { line: 0, character: 0 }),
            offset <= utf8_len(self.text()) ==> forall|i: int|
                0 <= i <= self.text().len() && byte_pos(self.text(), i) == clamped(
                    self.text(),
                    offset,
                ) ==> r.line == line_of(self.text(), i) as u32 && r.character == utf16_len(
                    self.text().subrange(line_start_of(self.text(), i), i),
                ) as u32,
    {
        let ghost s = self.source@;
        if offset > self.total {
            return Position { line: 0, character: 0 };
        }
        let (line, start, i) = self.locate(offset);
        proof {
            self.lemma_unique_index(offset, i as int);
            lemma_line_start_le(s, i as int);
            lemma_utf8_len_mono(s, start as int, i as int);
            lemma_utf8_len_mono(s, i as int, s.len() as int);
        }
        let mut col: u64 = 0;
        let mut k: usize = start;
        while k < i
            invariant
                self.wf(),
                s == self.source@,
                start <= k <= i <= s.len(),
                col == utf16_len(s.subrange(start as int, k as int)),
                col + byte_pos(s, start as int) <= byte_pos(s, k as int),
                byte_pos(s, i as int) <= usize::MAX,
            decreases i - k,
        {
            proof {
                lemma_utf8_len_push(s, k as int);
                lemma_utf8_len_mono(s, k as int + 1, i as int);
                assert(s.subrange(start as int, k + 1).drop_last() =~= s.subrange(
                    start as int,
                    k as int,
                ));
            }
            col = col + len_utf16(self.chars[k]) as u64;
            k = k + 1;
        }
        Position { line: line as u32, character: col as u32 }
    }

    /// The byte offset of an LSP position. A line past the last gives the
    /// end of the text; a column past the end of its line gives the end of
    /// that line (before its newline); a column inside a character gives its
    /// start.
    pub fn position_to_byte(&self, pos: Position) -> (r: usize)
        requires
            self.wf(),
        ensures
            ({
                let s = self.text();
                let starts = line_start_indices(s);
                let l = pos.line as int;
                if l >= starts.len() {
                    r == utf8_len(s)
                } else {
                    r == byte_pos(s, walk_units(s, starts[l], line_end_index(s, l), pos.character as nat))
                }
            }),
            r <= utf8_len(self.text()),
            is_boundary(self.text(), r as int),
    {
        let ghost s = self.source@;
        let line = pos.line as usize;
        if line >= self.line_starts.len() {
            proof {
                lemma_byte_pos_end(s);
                assert(byte_pos(s, s.len() as int) == utf8_len(s));
            }
            return self.total;
        }
        proof {
            lemma_newline_ends_bounds(s);
            lemma_line_starts_ordered(s, line as int);
        }
        let cs = self.line_start_chars[line];
        let ce = if line + 1 < self.line_start_chars.len() {
            self.line_start_chars[line + 1] - 1
        } else {
            self.chars.len()
        };
        let mut byte = self.line_starts[line];
        assert(self.line_start_chars@[line as int] == line_start_indices(s)[line as int]);
        assert(line + 1 < self.line_start_chars@.len() ==> self.line_start_chars@[line + 1]
            == line_start_indices(s)[line + 1]);
        let mut remaining = pos.character;
        let mut j = cs;
        while j < ce
            invariant
                self.wf(),
                s == self.source@,
                cs <= j <= ce <= s.len(),
                byte == byte_pos(s, j as int),
                line == pos.line as int,
                line < line_start_indices(s).len(),
                cs == line_start_indices(s)[line as int],
                ce == line_end_index(s, line as int),
                walk_units(s, cs as int, ce as int, pos.character as nat) == walk_units(
                    s,
                    j as int,
                    ce as int,
                    remaining as nat,
                ),
            decreases ce - j,
        {
            proof {
                lemma_utf8_len_mono(s, j as int, s.len() as int);
                assert(byte_pos(s, j as int) == byte);
            }
            if remaining == 0 {
                return byte;
            }
            let w = len_utf16(self.chars[j]) as u32;
            if remaining < w {
                return byte;
            }
            proof {
                lemma_utf8_len_push(s, j as int);
                lemma_utf8_len_mono(s, j as int + 1, s.len() as int);
                assert(s.take(j + 1).drop_last() =~= s.take(j as int));
            }
            remaining = remaining - w;
            byte = byte + len_utf8(self.chars[j]);
            j = j + 1;
        }
        proof {
            lemma_utf8_len_mono(s, j as int, s.len() as int);
            assert(byte_pos(s, j as int) == byte);
        }
        byte
    }

    /// The source text the map describes.
    pub fn source(&self) -> (r: &'a str)
        ensures
            r@ == self.text(),
    {
        self.source
    }

    /// The number of lines.
    pub fn line_count(&self) -> (r: usize)
        requires
            self.wf(),
        ensures
            r == line_start_indices(self.text()).len(),
    {
        self.line_starts.len()
    }

    /// The character index of a boundary offset is unique.
    proof fn lemma_unique_index(&self, offset: usize, i: int)
        requires
            0 <= i <= self.text().len(),
            byte_pos(self.text(), i) == clamped(self.text(), offset),
        ensures
            forall|j: int|
                0 <= j <= self.text().len() && byte_pos(self.text(), j) == clamped(
                    self.text(),
                    offset,
                ) ==> j == i,
    {
        let s = self.text();
        assert forall|j: int|
            0 <= j <= s.len() && byte_pos(s, j) == clamped(s, offset) implies j == i by {
            if j < i {
                lemma_byte_pos_strict(s, j, i);
            } else if j > i {
                lemma_byte_pos_strict(s, i, j);
            }
        }
    }
}

/// A line starts at or before any index on it.
proof fn lemma_line_start_le(s: Seq<char>, i: int)
    requires
        0 <= i <= s.len(),
    ensures
        0 <= line_start_of(s, i) <= i,
{
    lemma_newline_ends_bounds(s.take(i));
}

/// Consecutive line starts are ordered and within the text.
proof fn lemma_line_starts_ordered(s: Seq<char>, l: int)
    requires
        0 <= l < line_start_indices(s).len(),
    ensures
        0 <= line_start_indices(s)[l] <= s.len(),
        l + 1 < line_start_indices(s).len() ==> line_start_indices(s)[l] < line_start_indices(
            s,
        )[l + 1],
{
    lemma_newline_ends_bounds(s);
    if l > 0 {
        assert(line_start_indices(s)[l] == newline_ends(s)[l - 1]);
    }
    if l + 1 < line_start_indices(s).len() {
        assert(line_start_indices(s)[l + 1] == newline_ends(s)[l]);
    }
}

/// The end (exclusive character index) of the text of line `l`: the index
/// of the newline that ends it, or the end of the text for the last line.
pub open spec fn line_end_index(s: Seq<char>, l: int) -> int {
    let starts = line_start_indices(s);
    if l + 1 < starts.len() {
        starts[l + 1] - 1
    } else {
        s.len() as int
    }
}

proof fn lemma_utf16_len_concat(a: Seq<char>, b: Seq<char>)
    ensures
        utf16_len(a + b) == utf16_len(a) + utf16_len(b),
    decreases b.len(),
{
    if b.len() > 0 {
        assert((a + b).drop_last() =~= a + b.drop_last());
        lemma_utf16_len_concat(a, b.drop_last());
    } else {
        assert(a + b =~= a);
    }
}

/// The newline ends of a prefix are a prefix of the newline ends.
proof fn lemma_newline_ends_prefix(s: Seq<char>, i: int)
    requires
        0 <= i <= s.len(),
    ensures
        newline_ends(s.take(i)).len() <= newline_ends(s).len(),
        newline_ends(s.take(i)) == newline_ends(s).take(newline_ends(s.take(i)).len() as int),
        forall|k: int|
            newline_ends(s.take(i)).len() <= k < newline_ends(s).len() ==> #[trigger] newline_ends(
                s,
            )[k] > i,
    decreases s.len() - i,
{
    if i == s.len() {
        assert(s.take(i) =~= s);
    } else {
        lemma_newline_ends_prefix(s, i + 1);
        let t = s.take(i + 1);
        assert(t.drop_last() =~= s.take(i));
        lemma_newline_ends_bounds(t);
        let ni = newline_ends(s.take(i));
        let ni1 = newline_ends(t);
        let ne = newline_ends(s);
        if s[i] == '\n' {
            assert(ni1 == ni.push(i + 1));
            assert(ne[ni.len() as int] == ni1[ni.len() as int]);
            assert(ni =~= ne.take(ni.len() as int));
        } else {
            assert(ni1 == ni);
        }
    }
}

/// Walking a line from `j` across the units of `s[j..i]` stops at `i`.
proof fn lemma_walk_reaches(s: Seq<char>, j: int, i: int, end: int)
    requires
        0 <= j <= i <= end <= s.len(),
    ensures
        walk_units(s, j, end, utf16_len(s.subrange(j, i))) == i,
    decreases i - j,
{
    if j < i {
        assert(s.subrange(j, i) =~= seq![s[j]] + s.subrange(j + 1, i));
        lemma_utf16_len_concat(seq![s[j]], s.subrange(j + 1, i));
        assert(seq![s[j]].drop_last() =~= Seq::<char>::empty());
        assert(utf16_len(Seq::<char>::empty()) == 0);
        assert(utf16_len(seq![s[j]]) == utf16_width(s[j]));
        lemma_walk_reaches(s, j + 1, i, end);
    } else {
        assert(s.subrange(j, i) =~= Seq::<char>::empty());
    }
}

/// Round trip: the position of a character boundary, converted back, is
/// that boundary. With `byte_to_position` and `position_to_byte` this says
/// that `position_to_byte(byte_to_position(o)) == o` for every boundary
/// offset `o` whose line number and column fit in 32 bits.
pub proof fn lemma_position_roundtrip(s: Seq<char>, i: int)
    requires
        0 <= i <= s.len(),
        line_of(s, i) <= u32::MAX,
        utf16_len(s.subrange(line_start_of(s, i), i)) <= u32::MAX,
    ensures
        ({
            let l = line_of(s, i) as int;
            let starts = line_start_indices(s);
            &&& l < starts.len()
            &&& starts[l] == line_start_of(s, i)
            &&& walk_units(
                s,
                starts[l],
                line_end_index(s, l),
                utf16_len(s.subrange(line_start_of(s, i), i)),
            ) == i
        }),
{
    lemma_newline_ends_prefix(s, i);
    lemma_newline_ends_bounds(s);
    lemma_newline_ends_bounds(s.take(i));
    lemma_line_start_le(s, i);
    let l = line_of(s, i) as int;
    let ne = newline_ends(s);
    let ni = newline_ends(s.take(i));
    if l > 0 {
        assert(ni[l - 1] == ne[l - 1]);
    }
    if l + 1 < line_start_indices(s).len() {
        assert(line_start_indices(s)[l + 1] == ne[l]);
        assert(ne[l] > i);
    }
    lemma_walk_reaches(s, line_start_of(s, i), i, line_end_index(s, l));
}
} // verus!
