//! Quick fixes.
//!
//! Each fix is anchored on a diagnostic, so clean code gets none:
//!
//! - `cannot resolve import ...`: remove the import line.
//! - `unused `new` value is a guaranteed leak ...`: assign it to a fresh `own`
//!   variable.
//! - `expected `end` to close ...`: insert the missing `end`.
use crate::lsp::document::{index_at, index_of, pair, place, place_of, Position, Range};
use crate::source::lower;
use crate::text::{
    chars_of, copy_chars, eq_chars, find, find_char, find_from, first, has, has_text, is_alpha,
    is_digit, lemma_first, lines, lines_of, part, rows, split, split_chars, starts, starts_with,
    string_of, trim, trim_chars, trim_start, trim_start_chars,
};
use crate::utf8::size;
use vstd::prelude::*;
use vstd::string::*;

verus! {

/// A diagnostic, as far as fixes look at it.
#[derive(Debug)]
pub struct Reported {
    pub range: Range,
    pub message: String,
}

/// A fix for one diagnostic: an edit and its title.
#[derive(Debug)]
pub struct QuickFix {
    pub title: String,
    /// Number of the diagnostic that it fixes.
    pub diagnostic: usize,
    pub range: Range,
    pub new_text: String,
}

/// A fix as mathematical text.
#[verifier::ext_equal]
pub struct Fix {
    pub title: Seq<char>,
    pub diagnostic: int,
    pub start: (int, int),
    pub end: (int, int),
    pub new_text: Seq<char>,
}

impl View for QuickFix {
    type V = Fix;

    open spec fn view(&self) -> Fix {
        Fix {
            title: self.title@,
            diagnostic: self.diagnostic as int,
            start: pair(self.range.start),
            end: pair(self.range.end),
            new_text: self.new_text@,
        }
    }
}

pub open spec fn fixes(v: Seq<QuickFix>) -> Seq<Fix> {
    Seq::new(v.len(), |i: int| v[i]@)
}

/// `a` ends before `b` starts.
pub open spec fn precedes(a: Position, b: Position) -> bool {
    a.line < b.line || (a.line == b.line && a.character < b.character)
}

/// The ranges have a place in common, their ends included.
pub open spec fn overlap(a: Range, b: Range) -> bool {
    !precedes(a.end, b.start) && !precedes(b.end, a.start)
}

fn is_before(a: Position, b: Position) -> (r: bool)
    ensures
        r == precedes(a, b),
{
    a.line < b.line || (a.line == b.line && a.character < b.character)
}

fn overlaps(a: Range, b: Range) -> (r: bool)
    ensures
        r == overlap(a, b),
{
    !is_before(a.end, b.start) && !is_before(b.end, a.start)
}

// ---------------------------------------------------------------------------
// Removing an import
// ---------------------------------------------------------------------------

/// The import path that a message names, up to the closing backtick.
pub open spec fn failed_path(message: Seq<char>) -> Option<Seq<char>> {
    if starts(message, "cannot resolve import `"@) {
        let rest = message.skip("cannot resolve import `"@.len() as int);
        Some(rest.take(first(rest, '`')))
    } else {
        None
    }
}

/// An import path without its symbol list.
pub open spec fn path_base(path: Seq<char>) -> Seq<char> {
    match find(path, "::{"@) {
        Some(k) => path.take(k),
        None => path,
    }
}

/// The trimmed line imports `path`, whole or with a symbol list. The import of a
/// module below it is another import.
pub open spec fn imports_path(line: Seq<char>, path: Seq<char>) -> bool {
    let t = trim(line);
    let base = path_base(path);
    ||| t == "import "@ + base
    ||| starts(t, "import "@ + base + "::{"@)
}

/// The first line from `i` on that imports `path`.
pub open spec fn import_line(ls: Seq<Seq<char>>, path: Seq<char>, i: int) -> Option<int>
    decreases ls.len() - i,
{
    if i < 0 || i >= ls.len() {
        None
    } else if imports_path(ls[i], path) {
        Some(i)
    } else {
        import_line(ls, path, i + 1)
    }
}

/// The fix that deletes an import line.
pub open spec fn removal(text: Seq<char>, message: Seq<char>, d: int) -> Option<Fix> {
    match failed_path(message) {
        Some(path) => match import_line(lines(text), path, 0) {
            Some(k) => Some(
                Fix {
                    title: "Remove import `"@ + path + "`"@,
                    diagnostic: d,
                    start: (k, 0int),
                    end: (k + 1, 0int),
                    new_text: Seq::empty(),
                },
            ),
            None => None,
        },
        None => None,
    }
}

// ---------------------------------------------------------------------------
// Binding a leaked value
// ---------------------------------------------------------------------------

/// `char::is_alphanumeric`.
pub uninterp spec fn alphanumeric(c: char) -> bool;

/// `char::is_alphanumeric`: whether the character is alphabetic or numeric in
/// Unicode. Of ASCII characters those are the letters and the digits.
#[verifier::external_body]
fn is_alphanumeric(c: char) -> (r: bool)
    ensures
        r == alphanumeric(c),
        c <= '\u{7f}' ==> r == (is_alpha(c) || is_digit(c)),
{
    c.is_alphanumeric()
}

/// A character of a qualified name.
pub open spec fn word_char(c: char) -> bool {
    alphanumeric(c) || c == '_' || c == ':'
}

pub open spec fn word_flags(s: Seq<char>) -> Seq<bool> {
    Seq::new(s.len(), |i: int| word_char(s[i]))
}

/// How many of the flags from `i` on are set in a row.
pub open spec fn run_len(flags: Seq<bool>, i: int) -> int
    decreases flags.len() - i,
{
    if i < 0 || i >= flags.len() || !flags[i] {
        0
    } else {
        1 + run_len(flags, i + 1)
    }
}

/// A type name with its first letter in lower case.
pub open spec fn variable_for(ty: Seq<char>) -> Seq<char> {
    if ty.len() == 0 {
        ty
    } else {
        seq![lower(ty[0])] + ty.skip(1)
    }
}

/// The type that `new Type(...)` names, without qualifiers; `flags` says which
/// characters belong to a qualified name.
pub open spec fn created_type(s: Seq<char>, flags: Seq<bool>) -> Option<Seq<char>> {
    if starts(s, "new"@) {
        let from = s.len() - trim_start(s.skip(3)).len();
        let word = s.subrange(from, from + run_len(flags, from));
        let ty = split(word, "::"@).last();
        if ty.len() == 0 {
            None
        } else {
            Some(ty)
        }
    } else {
        None
    }
}

pub open spec fn is_leak(message: Seq<char>) -> bool {
    has(message, "unused `new` value is a guaranteed leak"@)
}

/// The fix that binds a value to a fresh variable.
pub open spec fn binding(text: Seq<char>, range: Range, message: Seq<char>, d: int) -> Option<Fix> {
    let a = index_of(text, 0, range.start.line as int, range.start.character as int);
    let b = index_of(text, 0, range.end.line as int, range.end.character as int);
    if !is_leak(message) || a > b {
        None
    } else {
        let s = text.subrange(a, b);
        match created_type(s, word_flags(s)) {
            Some(ty) => Some(
                Fix {
                    title: "Assign to new `own` variable `"@ + variable_for(ty) + "`"@,
                    diagnostic: d,
                    start: place(text, a),
                    end: place(text, a),
                    new_text: "own "@ + ty + " "@ + variable_for(ty) + " = "@,
                },
            ),
            None => None,
        }
    }
}

// ---------------------------------------------------------------------------
// Inserting an end
// ---------------------------------------------------------------------------

/// The fix that inserts a missing `end`.
pub open spec fn insertion(range: Range, message: Seq<char>, d: int) -> Option<Fix> {
    if starts(message, "expected `end` to close"@) {
        Some(
            Fix {
                title: "Insert missing `end`"@,
                diagnostic: d,
                start: pair(range.start),
                end: pair(range.start),
                new_text: "end\n"@,
            },
        )
    } else {
        None
    }
}

/// The fix for one diagnostic: the first kind that applies.
pub open spec fn fix_for(text: Seq<char>, r: Reported, d: int) -> Option<Fix> {
    match removal(text, r.message@, d) {
        Some(f) => Some(f),
        None => match binding(text, r.range, r.message@, d) {
            Some(f) => Some(f),
            None => insertion(r.range, r.message@, d),
        },
    }
}

/// The fixes for the first `n` diagnostics that touch `range`.
pub open spec fn fixes_for(text: Seq<char>, range: Range, ds: Seq<Reported>, n: int) -> Seq<Fix>
    decreases n,
{
    if n <= 0 {
        Seq::empty()
    } else {
        let done = fixes_for(text, range, ds, n - 1);
        let d = ds[n - 1];
        if overlap(d.range, range) && fix_for(text, d, n - 1) is Some {
            done.push(fix_for(text, d, n - 1)->0)
        } else {
            done
        }
    }
}

fn path_of(message: &Vec<char>) -> (r: Option<Vec<char>>)
    ensures
        r is Some <==> failed_path(message@) is Some,
        r matches Some(p) ==> failed_path(message@) == Some(p@),
{
    let lead = chars_of("cannot resolve import `");
    if !starts_with(message, "cannot resolve import `") {
        return None;
    }
    let rest = part(message, lead.len(), message.len());
    assert(rest@ =~= message@.skip(lead@.len() as int));
    let k = find_char(&rest, '`');
    let p = part(&rest, 0, k);
    assert(p@ =~= rest@.take(k as int));
    Some(p)
}

fn base_of(path: &Vec<char>) -> (r: Vec<char>)
    ensures
        r@ == path_base(path@),
{
    let q = chars_of("::{");
    assert(path@.skip(0) =~= path@);
    match find_from(path, 0, &q) {
        Some(k) => {
            let r = part(path, 0, k);
            assert(r@ =~= path@.take(k as int));
            r
        },
        None => copy_chars(path),
    }
}

fn import_text(path: &Vec<char>) -> (r: Vec<char>)
    ensures
        r@ == "import "@ + path@,
{
    let mut out = chars_of("import ");
    crate::text::extend(&mut out, path);
    out
}

fn find_import(ls: &Vec<Vec<char>>, path: &Vec<char>) -> (r: Option<usize>)
    ensures
        r is Some <==> import_line(rows(ls@), path@, 0) is Some,
        r matches Some(k) ==> k < ls@.len() && import_line(rows(ls@), path@, 0) == Some(k as int),
{
    let base = base_of(path);
    let whole = import_text(&base);
    let mut listed = import_text(&base);
    crate::text::extend(&mut listed, &chars_of("::{"));
    let mut i: usize = 0;
    while i < ls.len()
        invariant
            i <= ls@.len(),
            whole@ == "import "@ + path_base(path@),
            listed@ == "import "@ + path_base(path@) + "::{"@,
            import_line(rows(ls@), path@, 0) == import_line(rows(ls@), path@, i as int),
        decreases ls@.len() - i,
    {
        let t = trim_chars(&ls[i]);
        assert(t@ == trim(rows(ls@)[i as int]));
        assert(t@.skip(0) =~= t@);
        if eq_chars(&t, &whole) || crate::text::stands_at(&t, 0, &listed) {
            return Some(i);
        }
        i += 1;
    }
    None
}

fn remove_import(s: &Vec<char>, message: &Vec<char>, d: usize) -> (r: Option<QuickFix>)
    requires
        size(s@) <= u32::MAX,
    ensures
        r is Some <==> removal(s@, message@, d as int) is Some,
        r matches Some(f) ==> removal(s@, message@, d as int) == Some(f@),
{
    let path = match path_of(message) {
        Some(p) => p,
        None => {
            return None;
        },
    };
    let ls = lines_of(s);
    let k = match find_import(&ls, &path) {
        Some(k) => k,
        None => {
            return None;
        },
    };
    proof {
        assert(rows(ls@).len() == ls@.len());
        lemma_line_count(s@);
        crate::utf8::lemma_size_bounds(s@);
    }
    let mut title = String::from_str("Remove import `");
    title.append(string_of(&path).as_str());
    title.append("`");
    let f = QuickFix {
        title,
        diagnostic: d,
        range: Range {
            start: Position { line: k as u32, character: 0 },
            end: Position { line: (k + 1) as u32, character: 0 },
        },
        new_text: String::new(),
    };
    assert(f@ =~= removal(s@, message@, d as int)->0);
    Some(f)
}

proof fn lemma_line_count(s: Seq<char>)
    ensures
        lines(s).len() <= s.len(),
    decreases s.len(),
{
    if s.len() > 0 {
        let k = first(s, '\n');
        lemma_first(s, '\n');
        if k < s.len() {
            lemma_line_count(s.skip(k + 1));
            assert(lines(s).len() == 1 + lines(s.skip(k + 1)).len());
        }
    }
}

/// The type that `new Type(...)` names and a variable name for it; `flags` says
/// which characters of the text belong to a qualified name.
pub fn own_binding(s: &Vec<char>, flags: &Vec<bool>) -> (r: Option<(String, String)>)
    requires
        flags@.len() == s@.len(),
    ensures
        r is Some <==> created_type(s@, flags@) is Some,
        r matches Some(x) ==> created_type(s@, flags@) == Some(x.0@) && x.1@ == variable_for(x.0@),
{
    proof {
        reveal_strlit("new");
        reveal_strlit("::");
    }
    if !starts_with(s, "new") {
        return None;
    }
    let tail = part(s, 3, s.len());
    assert(tail@ =~= s@.skip(3));
    let rest = trim_start_chars(&tail);
    proof {
        lemma_trim_start_len(tail@);
    }
    let from: usize = s.len() - rest.len();
    let mut to: usize = from;
    while to < s.len() && flags[to]
        invariant
            from <= to <= s@.len() == flags@.len(),
            run_len(flags@, from as int) == (to - from) + run_len(flags@, to as int),
        decreases s@.len() - to,
    {
        to += 1;
    }
    let word = part(s, from, to);
    let mut pieces = split_chars(&word, "::");
    let ghost ps = rows(pieces@);
    let ty = match pieces.pop() {
        Some(t) => t,
        None => {
            return None;
        },
    };
    assert(ty@ == ps.last());
    if ty.len() == 0 {
        return None;
    }
    let mut var: Vec<char> = Vec::new();
    let c: char = ty[0];
    if 'A' <= c && c <= 'Z' {
        var.push(((c as u8) + 32) as char);
    } else {
        var.push(c);
    }
    let after = part(&ty, 1, ty.len());
    assert(after@ =~= ty@.skip(1));
    crate::text::extend(&mut var, &after);
    assert(var@ =~= variable_for(ty@));
    Some((string_of(&ty), string_of(&var)))
}

proof fn lemma_trim_start_len(s: Seq<char>)
    ensures
        trim_start(s).len() <= s.len(),
    decreases s.len(),
{
    if s.len() > 0 {
        lemma_trim_start_len(s.skip(1));
    }
}

fn flags_of(s: &Vec<char>) -> (r: Vec<bool>)
    ensures
        r@ == word_flags(s@),
{
    let mut out: Vec<bool> = Vec::new();
    let mut i: usize = 0;
    while i < s.len()
        invariant
            i <= s@.len(),
            out@ =~= word_flags(s@).take(i as int),
        decreases s@.len() - i,
    {
        let c: char = s[i];
        out.push(is_alphanumeric(c) || c == '_' || c == ':');
        i += 1;
    }
    assert(out@ =~= word_flags(s@));
    out
}

fn assign_own(s: &Vec<char>, range: Range, message: &Vec<char>, d: usize) -> (r: Option<QuickFix>)
    requires
        size(s@) <= u32::MAX,
    ensures
        r is Some <==> binding(s@, range, message@, d as int) is Some,
        r matches Some(f) ==> binding(s@, range, message@, d as int) == Some(f@),
{
    if !has_text(message, "unused `new` value is a guaranteed leak") {
        return None;
    }
    let a = index_at(s, range.start);
    let b = index_at(s, range.end);
    if a > b {
        return None;
    }
    let slice = part(s, a, b);
    let flags = flags_of(&slice);
    let (ty, var) = match own_binding(&slice, &flags) {
        Some(x) => x,
        None => {
            return None;
        },
    };
    let mut title = String::from_str("Assign to new `own` variable `");
    title.append(var.as_str());
    title.append("`");
    let mut new_text = String::from_str("own ");
    new_text.append(ty.as_str());
    new_text.append(" ");
    new_text.append(var.as_str());
    new_text.append(" = ");
    let at = place_of(s, a);
    let f = QuickFix { title, diagnostic: d, range: Range { start: at, end: at }, new_text };
    assert(f@ =~= binding(s@, range, message@, d as int)->0);
    Some(f)
}

fn insert_end(range: Range, message: &Vec<char>, d: usize) -> (r: Option<QuickFix>)
    ensures
        r is Some <==> insertion(range, message@, d as int) is Some,
        r matches Some(f) ==> insertion(range, message@, d as int) == Some(f@),
{
    if !starts_with(message, "expected `end` to close") {
        return None;
    }
    Some(
        QuickFix {
            title: String::from_str("Insert missing `end`"),
            diagnostic: d,
            range: Range { start: range.start, end: range.start },
            new_text: String::from_str("end\n"),
        },
    )
}

/// Fixes for the diagnostics that touch `range`, in the order of the
/// diagnostics.
pub fn code_actions(text: &str, range: Range, diagnostics: &Vec<Reported>) -> (r: Vec<QuickFix>)
    requires
        size(text@) <= u32::MAX,
    ensures
        fixes(r@) == fixes_for(text@, range, diagnostics@, diagnostics@.len() as int),
{
    let s = chars_of(text);
    let mut out: Vec<QuickFix> = Vec::new();
    let mut i: usize = 0;
    assert(fixes(out@) =~= Seq::<Fix>::empty());
    while i < diagnostics.len()
        invariant
            i <= diagnostics@.len(),
            s@ == text@,
            size(text@) <= u32::MAX,
            fixes(out@) == fixes_for(text@, range, diagnostics@, i as int),
        decreases diagnostics@.len() - i,
    {
        let d = &diagnostics[i];
        if overlaps(d.range, range) {
            let m = chars_of(d.message.as_str());
            let fix = match remove_import(&s, &m, i) {
                Some(f) => Some(f),
                None => match assign_own(&s, d.range, &m, i) {
                    Some(f) => Some(f),
                    None => insert_end(d.range, &m, i),
                },
            };
            if let Some(f) = fix {
                let ghost had = fixes(out@);
                let ghost new = f@;
                out.push(f);
                assert(fixes(out@) =~= had.push(new));
            }
        }
        i += 1;
    }
    out
}

// ---------------------------------------------------------------------------
// Laws
// ---------------------------------------------------------------------------

/// Clean code gets no fixes, and neither do diagnostics outside the range: every
/// fix belongs to a diagnostic that touches it.
pub proof fn law_fixes_are_anchored(
    text: Seq<char>,
    range: Range,
    ds: Seq<Reported>,
    n: int,
    k: int,
)
    requires
        0 <= n <= ds.len(),
        0 <= k < fixes_for(text, range, ds, n).len(),
    ensures
        ({
            let f = fixes_for(text, range, ds, n)[k];
            0 <= f.diagnostic < n && overlap(ds[f.diagnostic].range, range) && fix_for(
                text,
                ds[f.diagnostic],
                f.diagnostic,
            ) == Some(f)
        }),
    decreases n,
{
    if n > 0 {
        if k < fixes_for(text, range, ds, n - 1).len() {
            law_fixes_are_anchored(text, range, ds, n - 1, k);
        }
    }
}

/// Whether two ranges overlap does not depend on their order.
pub proof fn law_overlap_is_symmetric(a: Range, b: Range)
    ensures
        overlap(a, b) == overlap(b, a),
{
}

} // verus!
