//! Document formatting.
//!
//! The formatter works on whole files. A range edit formats the whole buffer
//! and narrows the change to the requested lines where the line counts agree;
//! otherwise the edit covers the file. A source that the formatter refuses is
//! left alone.
use crate::lsp::document::{pair, place, place_of, Position, Range, TextEdit};
use crate::text::{
    chars_of, copy_chars, eq_chars, join, join_rows, lines, lines_of, rows, string_of,
};
use crate::utf8::{lemma_size_bounds, size};
use vstd::prelude::*;
use vstd::string::*;

verus! {

/// `s` with every carriage return that stands before a line feed dropped.
pub open spec fn unix_lines(s: Seq<char>) -> Seq<char>
    decreases s.len(),
{
    if s.len() == 0 {
        s
    } else if s.len() > 1 && s[0] == '\r' && s[1] == '\n' {
        seq!['\n'] + unix_lines(s.skip(2))
    } else {
        seq![s[0]] + unix_lines(s.skip(1))
    }
}

/// `s` with all but one of its trailing line feeds dropped.
pub open spec fn one_end(s: Seq<char>) -> Seq<char>
    decreases s.len(),
{
    if s.len() > 1 && s.last() == '\n' && s[s.len() - 2] == '\n' {
        one_end(s.drop_last())
    } else {
        s
    }
}

/// A buffer as the formatter would end it: Unix line ends, and exactly one at
/// the end.
pub open spec fn normalized(text: Seq<char>) -> Seq<char> {
    let t = one_end(unix_lines(text));
    if t.len() > 0 && t.last() == '\n' {
        t
    } else {
        t.push('\n')
    }
}

fn normalize(s: &Vec<char>) -> (r: Vec<char>)
    ensures
        r@ == normalized(s@),
{
    let mut out: Vec<char> = Vec::new();
    let n: usize = s.len();
    let mut i: usize = 0;
    assert(s@.skip(0) =~= s@);
    assert(out@ + unix_lines(s@) =~= unix_lines(s@));
    while i < n
        invariant
            i <= n == s@.len(),
            unix_lines(s@) == out@ + unix_lines(s@.skip(i as int)),
        decreases n - i,
    {
        let ghost had = out@;
        let ghost rest = s@.skip(i as int);
        assert(rest[0] == s@[i as int]);
        if i + 1 < n && s[i] == '\r' && s[i + 1] == '\n' {
            assert(rest[1] == s@[i + 1]);
            out.push('\n');
            assert(rest.skip(2) =~= s@.skip(i + 2));
            assert(out@ + unix_lines(s@.skip(i + 2)) =~= had + unix_lines(rest));
            i += 2;
        } else {
            assert(i + 1 < n ==> rest[1] == s@[i + 1]);
            out.push(s[i]);
            assert(rest.skip(1) =~= s@.skip(i + 1));
            assert(out@ + unix_lines(s@.skip(i + 1)) =~= had + unix_lines(rest));
            i += 1;
        }
    }
    assert(out@ =~= unix_lines(s@));
    while out.len() > 1 && out[out.len() - 1] == '\n' && out[out.len() - 2] == '\n'
        invariant
            one_end(unix_lines(s@)) == one_end(out@),
        decreases out@.len(),
    {
        out.pop();
    }
    if out.len() == 0 || out[out.len() - 1] != '\n' {
        out.push('\n');
    }
    out
}

/// The edit replaces the whole text.
pub open spec fn is_full_edit(e: TextEdit, text: Seq<char>, formatted: Seq<char>) -> bool {
    &&& pair(e.range.start) == (0int, 0int)
    &&& pair(e.range.end) == place(text, text.len() as int)
    &&& e.new_text@ == formatted
}

fn full_edit(s: &Vec<char>, formatted: &str) -> (r: TextEdit)
    requires
        size(s@) <= u32::MAX,
    ensures
        is_full_edit(r, s@, formatted@),
{
    TextEdit {
        range: Range { start: Position { line: 0, character: 0 }, end: place_of(s, s.len()) },
        new_text: String::from_str(formatted),
    }
}

/// Formats the whole document, given what the formatter makes of it. `None`
/// when it is canonical already or the formatter refused it.
pub fn format_document(text: &str, formatted: Option<&str>) -> (r: Option<Vec<TextEdit>>)
    requires
        size(text@) <= u32::MAX,
    ensures
        match formatted {
            Some(f) if f@ != normalized(text@) => r matches Some(v) && v@.len() == 1
                && is_full_edit(v@[0], text@, f@),
            _ => r is None,
        },
{
    match formatted {
        Some(f) => {
            let s = chars_of(text);
            if crate::text::is_text(&normalize(&s), f) {
                return None;
            }
            let mut out: Vec<TextEdit> = Vec::new();
            out.push(full_edit(&s, f));
            Some(out)
        },
        None => None,
    }
}

/// A line number held to the lines of the document.
pub open spec fn held(line: u32, count: int) -> int {
    if line < count {
        line as int
    } else {
        count - 1
    }
}

/// The first and the last line that a range touches.
pub open spec fn touched(range: Range, count: int) -> (int, int) {
    let a = held(range.start.line, count);
    let b = held(range.end.line, count);
    if a <= b {
        (a, b)
    } else {
        (b, a)
    }
}

/// The edit replaces the lines from `a` to `b` by those of `after`.
pub open spec fn is_line_edit(
    e: TextEdit,
    before: Seq<Seq<char>>,
    after: Seq<Seq<char>>,
    a: int,
    b: int,
) -> bool {
    &&& pair(e.range.start) == (a, 0int)
    &&& pair(e.range.end) == (b, size(before[b]))
    &&& e.new_text@ == join(after.subrange(a, b + 1), "\n"@)
}

/// What formatting a range comes to.
pub open spec fn is_range_format(
    r: Option<Vec<TextEdit>>,
    text: Seq<char>,
    range: Range,
    formatted: Seq<char>,
) -> bool {
    let before = lines(text);
    let after = lines(formatted);
    let (a, b) = touched(range, before.len() as int);
    if formatted == normalized(text) {
        r is None
    } else if before.len() == after.len() && before.len() > 0 {
        if before.subrange(a, b + 1) == after.subrange(a, b + 1) {
            r is None
        } else {
            r matches Some(v) && v@.len() == 1 && is_line_edit(v@[0], before, after, a, b)
        }
    } else {
        r matches Some(v) && v@.len() == 1 && is_full_edit(v@[0], text, formatted)
    }
}

fn hold(line: u32, count: usize) -> (r: usize)
    requires
        count > 0,
    ensures
        r == held(line, count as int),
        r < count,
{
    if (line as usize) < count {
        line as usize
    } else {
        count - 1
    }
}

fn line_part(v: &Vec<Vec<char>>, a: usize, b: usize) -> (r: Vec<Vec<char>>)
    requires
        a <= b < v@.len(),
    ensures
        rows(r@) == rows(v@).subrange(a as int, b + 1),
{
    let mut out: Vec<Vec<char>> = Vec::new();
    let count: usize = v.len();
    let mut i: usize = a;
    assert(rows(out@) =~= rows(v@).subrange(a as int, a as int));
    while i <= b
        invariant
            a <= i <= b + 1 <= count,
            count == v@.len(),
            rows(out@) == rows(v@).subrange(a as int, i as int),
        decreases b + 1 - i,
    {
        let ghost had = rows(out@);
        out.push(copy_chars(&v[i]));
        assert(rows(out@) =~= had.push(rows(v@)[i as int]));
        assert(rows(out@) =~= rows(v@).subrange(a as int, i + 1));
        i += 1;
    }
    out
}

fn same_rows(a: &Vec<Vec<char>>, b: &Vec<Vec<char>>) -> (r: bool)
    ensures
        r == (rows(a@) == rows(b@)),
{
    if a.len() != b.len() {
        assert(rows(a@).len() != rows(b@).len());
        return false;
    }
    let mut i: usize = 0;
    while i < a.len()
        invariant
            i <= a@.len() == b@.len(),
            forall|k: int| 0 <= k < i ==> (#[trigger] a@[k])@ == b@[k]@,
        decreases a@.len() - i,
    {
        if !eq_chars(&a[i], &b[i]) {
            assert(rows(a@)[i as int] != rows(b@)[i as int]);
            return false;
        }
        i += 1;
    }
    assert(rows(a@) =~= rows(b@));
    true
}

fn byte_len(s: &Vec<char>) -> (r: u32)
    requires
        size(s@) <= u32::MAX,
    ensures
        r == size(s@),
{
    let mut n: u32 = 0;
    let mut i: usize = 0;
    assert(s@.take(0).len() == 0);
    while i < s.len()
        invariant
            i <= s@.len(),
            size(s@) <= u32::MAX,
            n == size(s@.take(i as int)),
        decreases s@.len() - i,
    {
        proof {
            crate::utf8::lemma_size_push(s@.take(i as int), s@[i as int]);
            assert(s@.take(i + 1) =~= s@.take(i as int).push(s@[i as int]));
            crate::utf8::lemma_size_part(s@, i + 1);
        }
        n = n + crate::utf8::char_width(s[i]) as u32;
        i += 1;
    }
    assert(s@.take(i as int) =~= s@);
    n
}

proof fn lemma_line_sizes(s: Seq<char>, i: int)
    requires
        0 <= i < lines(s).len(),
    ensures
        size(lines(s)[i]) <= size(s),
        lines(s).len() <= s.len(),
    decreases s.len(),
{
    let k = crate::text::first(s, '\n');
    crate::text::lemma_first(s, '\n');
    if k >= s.len() {
        assert(lines(s) =~= seq![s]);
    } else {
        let head = s.take(k);
        let rest = s.skip(k + 1);
        assert(lines(s) =~= seq![crate::text::drop_cr(head)] + lines(rest));
        crate::utf8::lemma_size_part(s, k);
        crate::utf8::lemma_size_part(s, k + 1);
        if head.len() > 0 {
            crate::utf8::lemma_size_part(head, head.len() - 1);
            assert(head.take(head.len() - 1) =~= head.drop_last());
        }
        lemma_size_bounds(s.take(k + 1));
        if i > 0 {
            lemma_line_sizes(rest, i - 1);
            assert(lines(s)[i] == lines(rest)[i - 1]);
        } else if lines(rest).len() > 0 {
            lemma_line_sizes(rest, 0);
        }
    }
}

/// Formats the requested lines, given what the formatter makes of the document.
/// `None` when nothing would change or the formatter refused it.
pub fn format_range(text: &str, range: Range, formatted: Option<&str>) -> (r: Option<Vec<TextEdit>>)
    requires
        size(text@) <= u32::MAX,
    ensures
        match formatted {
            Some(f) => is_range_format(r, text@, range, f@),
            None => r is None,
        },
{
    let f = match formatted {
        Some(f) => f,
        None => {
            return None;
        },
    };
    let s = chars_of(text);
    if crate::text::is_text(&normalize(&s), f) {
        return None;
    }
    let before = lines_of(&s);
    let after = lines_of(&chars_of(f));
    let mut out: Vec<TextEdit> = Vec::new();
    if before.len() == after.len() && before.len() > 0 {
        let count: usize = before.len();
        let x = hold(range.start.line, count);
        let y = hold(range.end.line, count);
        let (a, b) = if x <= y {
            (x, y)
        } else {
            (y, x)
        };
        assert(rows(before@).len() == count);
        let current = line_part(&before, a, b);
        let wanted = line_part(&after, a, b);
        if same_rows(&current, &wanted) {
            return None;
        }
        proof {
            lemma_line_sizes(text@, b as int);
            lemma_size_bounds(text@);
            assert(rows(before@)[b as int] == before@[b as int]@);
        }
        let text_out = join_rows(&wanted, "\n");
        out.push(
            TextEdit {
                range: Range {
                    start: Position { line: a as u32, character: 0 },
                    end: Position { line: b as u32, character: byte_len(&before[b]) },
                },
                new_text: string_of(&text_out),
            },
        );
        return Some(out);
    }
    out.push(full_edit(&s, f));
    Some(out)
}

/// A buffer that the formatter would leave as it is gets no edit, whatever
/// range is asked for.
pub proof fn law_canonical_source_is_left_alone(
    r: Option<Vec<TextEdit>>,
    text: Seq<char>,
    range: Range,
)
    requires
        is_range_format(r, text, range, normalized(text)),
    ensures
        r is None,
{
}

} // verus!
