//! Positions in a document: lines, and UTF-16 code units within a line.
use crate::text::chars_of;
use crate::token::Span;
use crate::utf8::{char_width, chars_before, chars_up_to, lemma_size_part, lemma_size_push, size};
use vstd::prelude::*;

verus! {

/// A place in a document, zero-based.
#[derive(Clone, Copy, Debug, PartialEq, Eq, Structural)]
pub struct Position {
    pub line: u32,
    /// UTF-16 code units from the start of the line.
    pub character: u32,
}

/// A half-open range of places.
#[derive(Clone, Copy, Debug, PartialEq, Eq, Structural)]
pub struct Range {
    pub start: Position,
    pub end: Position,
}

/// The replacement of a range by a text.
#[derive(Debug)]
pub struct TextEdit {
    pub range: Range,
    pub new_text: String,
}

/// How many UTF-16 code units a character takes.
pub open spec fn units(c: char) -> int {
    if c <= '\u{ffff}' {
        1
    } else {
        2
    }
}

/// Line and code unit of the place behind the first `n` characters.
pub open spec fn place(s: Seq<char>, n: int) -> (int, int)
    decreases n,
{
    if n <= 0 {
        (0, 0)
    } else {
        let (line, unit) = place(s, n - 1);
        if s[n - 1] == '\n' {
            (line + 1, 0)
        } else {
            (line, unit + units(s[n - 1]))
        }
    }
}

/// A position as a pair of numbers.
pub open spec fn pair(p: Position) -> (int, int) {
    (p.line as int, p.character as int)
}

/// The scan for a place stops at `n`: the place is reached, or its line or the
/// document ends.
pub open spec fn stops(s: Seq<char>, n: int, line: int, unit: int) -> bool {
    ||| n >= s.len()
    ||| place(s, n).0 >= line && (place(s, n).1 >= unit || s[n] == '\n')
    ||| place(s, n).0 > line
}

/// How many characters stand before the place, which is held to its line and to
/// the document.
pub open spec fn index_of(s: Seq<char>, n: int, line: int, unit: int) -> int
    decreases s.len() - n,
{
    if stops(s, n, line, unit) {
        n
    } else {
        index_of(s, n + 1, line, unit)
    }
}

proof fn lemma_place(s: Seq<char>, n: int)
    requires
        0 <= n <= s.len(),
    ensures
        0 <= place(s, n).0 <= n,
        0 <= place(s, n).1,
        place(s, n).0 + place(s, n).1 <= size(s.take(n)) <= size(s),
    decreases n,
{
    lemma_size_part(s, n);
    if n > 0 {
        lemma_place(s, n - 1);
        lemma_size_push(s.take(n - 1), s[n - 1]);
        assert(s.take(n) =~= s.take(n - 1).push(s[n - 1]));
    }
}

/// The place behind the first `n` characters.
pub fn place_of(s: &Vec<char>, n: usize) -> (r: Position)
    requires
        n <= s@.len(),
        size(s@) <= u32::MAX,
    ensures
        pair(r) == place(s@, n as int),
{
    let mut line: u32 = 0;
    let mut character: u32 = 0;
    let mut i: usize = 0;
    while i < n
        invariant
            i <= n <= s@.len(),
            size(s@) <= u32::MAX,
            (line as int, character as int) == place(s@, i as int),
        decreases n - i,
    {
        proof {
            lemma_place(s@, i + 1);
        }
        let c: char = s[i];
        if c == '\n' {
            line = line + 1;
            character = 0;
        } else if c <= '\u{ffff}' {
            character = character + 1;
        } else {
            character = character + 2;
        }
        i += 1;
    }
    Position { line, character }
}

/// The place of a byte offset.
pub fn offset_to_position(text: &str, offset: usize) -> (r: Position)
    requires
        size(text@) <= u32::MAX,
    ensures
        pair(r) == place(text@, chars_before(text@, offset as int)),
{
    let s = chars_of(text);
    let n = chars_up_to(&s, offset);
    place_of(&s, n)
}

/// How many characters stand before a place.
pub fn index_at(s: &Vec<char>, p: Position) -> (r: usize)
    requires
        size(s@) <= u32::MAX,
    ensures
        r == index_of(s@, 0, p.line as int, p.character as int),
        r <= s@.len(),
{
    let mut line: u32 = 0;
    let mut character: u32 = 0;
    let mut i: usize = 0;
    while i < s.len() && !(line >= p.line && (character >= p.character || s[i] == '\n')) && line
        <= p.line
        invariant
            i <= s@.len(),
            size(s@) <= u32::MAX,
            (line as int, character as int) == place(s@, i as int),
            index_of(s@, 0, p.line as int, p.character as int) == index_of(
                s@,
                i as int,
                p.line as int,
                p.character as int,
            ),
        decreases s@.len() - i,
    {
        proof {
            lemma_place(s@, i + 1);
        }
        let c: char = s[i];
        if c == '\n' {
            line = line + 1;
            character = 0;
        } else if c <= '\u{ffff}' {
            character = character + 1;
        } else {
            character = character + 2;
        }
        i += 1;
    }
    i
}

/// The byte offset of a place, which is held to its line and to the document.
pub fn position_to_offset(text: &str, p: Position) -> (r: usize)
    requires
        size(text@) <= u32::MAX,
    ensures
        r == size(text@.take(index_of(text@, 0, p.line as int, p.character as int))),
{
    let s = chars_of(text);
    let n = index_at(&s, p);
    let mut size_so_far: usize = 0;
    let mut i: usize = 0;
    assert(s@.take(0).len() == 0);
    while i < n
        invariant
            i <= n <= s@.len(),
            s@ == text@,
            size(s@) <= u32::MAX,
            size_so_far == size(s@.take(i as int)),
        decreases n - i,
    {
        proof {
            lemma_size_push(s@.take(i as int), s@[i as int]);
            assert(s@.take(i + 1) =~= s@.take(i as int).push(s@[i as int]));
            lemma_size_part(s@, i + 1);
        }
        size_so_far = size_so_far + char_width(s[i]);
        i += 1;
    }
    size_so_far
}

/// The range of a span of byte offsets.
pub fn span_to_range(text: &str, span: Span) -> (r: Range)
    requires
        size(text@) <= u32::MAX,
    ensures
        pair(r.start) == place(text@, chars_before(text@, span.start as int)),
        pair(r.end) == place(text@, chars_before(text@, span.end as int)),
{
    Range {
        start: offset_to_position(text, span.start),
        end: offset_to_position(text, span.end),
    }
}

// ---------------------------------------------------------------------------
// Laws
// ---------------------------------------------------------------------------

proof fn lemma_place_grows(s: Seq<char>, a: int, b: int)
    requires
        0 <= a < b <= s.len(),
    ensures
        place(s, a).0 <= place(s, b).0,
        place(s, a).0 == place(s, b).0 ==> place(s, a).1 < place(s, b).1 && s[a] != '\n',
    decreases b - a,
{
    lemma_place(s, a);
    lemma_place(s, b - 1);
    if a < b - 1 {
        lemma_place_grows(s, a, b - 1);
    }
}

proof fn lemma_index_of_place(s: Seq<char>, from: int, n: int)
    requires
        0 <= from <= n <= s.len(),
    ensures
        index_of(s, from, place(s, n).0, place(s, n).1) == n,
    decreases n - from,
{
    if from < n {
        lemma_place_grows(s, from, n);
        lemma_index_of_place(s, from + 1, n);
    }
}

/// Going from an offset between characters to its place and back changes
/// nothing.
pub proof fn law_places_lead_back(s: Seq<char>, n: int)
    requires
        0 <= n <= s.len(),
    ensures
        index_of(s, 0, place(s, n).0, place(s, n).1) == n,
{
    lemma_index_of_place(s, 0, n);
}

} // verus!
