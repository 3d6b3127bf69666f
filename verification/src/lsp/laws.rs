//! What holds of the editor support.
use crate::ast::{ExternMember, Item};
use crate::docs::newlines;
use crate::lint::report;
use crate::lsp::actions::{
    binding, failed_path, fix_for, fixes_for, import_line, imports_path, is_leak, overlap, removal,
    Reported,
};
use crate::lsp::auto_import::{
    best_import, defined, extern_names, insertion_line, item_defines, offers, provider_names,
    with_entry, ENTRY_BUDGET, EntryKind, FILE_CAP, Provider, Walk,
};
use crate::lsp::diagnostics::{
    error_note, import_notes, issue_notes, lint_notes, note, outcome_notes, Note, Outcome, Severity,
};
use crate::lsp::document::{
    index_of, law_places_lead_back, pair, place, stops, units, Position, Range, TextEdit,
};
use crate::lsp::formatting::{is_full_edit, normalized, one_end, touched, unix_lines};
use crate::lsp::signatures::{
    call_of, comma, gap_start, is_gap, is_name_char, is_structural, name_before, name_begin,
    scanned, stepped, Scan,
};
use crate::modules::expand::{failures, Failure};
use crate::modules::selection::has_name;
use crate::names::completed;
use crate::paths::same_path;
use crate::text::{ends, find, first, has, lemma_first, lines, starts, trim, trim_start};
use crate::utf8::chars_before;
use vstd::prelude::*;

verus! {

// ---------------------------------------------------------------------------
// Places
// ---------------------------------------------------------------------------

/// The characters that take two code units.
pub open spec fn wide(s: Seq<char>) -> Seq<char> {
    s.filter(|c: char| c > '\u{ffff}')
}

/// A place is the number of line feeds before it, and how many code units stand
/// between the start of its line and it: one for each character, two for each
/// beyond the first plane.
pub proof fn law_place_counts_lines_and_units(s: Seq<char>, n: int) -> (start: int)
    requires
        0 <= n <= s.len(),
    ensures
        0 <= start <= n,
        start == 0 || s[start - 1] == '\n',
        forall|i: int| start <= i < n ==> s[i] != '\n',
        place(s, n).0 == newlines(s, n),
        place(s, n).1 == n - start + wide(s.subrange(start, n)).len(),
    decreases n,
{
    reveal(Seq::filter);
    let p = |c: char| c > '\u{ffff}';
    if n == 0 {
        assert(s.subrange(0, 0).filter(p).len() == 0);
        0
    } else {
        let start = law_place_counts_lines_and_units(s, n - 1);
        if s[n - 1] == '\n' {
            assert(s.subrange(n, n).filter(p).len() == 0);
            n
        } else {
            let now = s.subrange(start, n);
            assert(now.drop_last() =~= s.subrange(start, n - 1));
            assert(now.last() == s[n - 1]);
            start
        }
    }
}

/// A place that is asked for is found on its line, or at the end of the line
/// where that is shorter, or at the end of a document with fewer lines; no
/// earlier character is on or behind it.
pub proof fn law_places_are_held_to_the_document(
    s: Seq<char>,
    from: int,
    line: int,
    unit: int,
    m: int,
)
    requires
        0 <= from <= s.len(),
        from <= m,
    ensures
        ({
            let k = index_of(s, from, line, unit);
            &&& from <= k <= s.len()
            &&& k < s.len() ==> place(s, k).0 > line || (place(s, k).0 == line && (place(s, k).1
                >= unit || s[k] == '\n'))
            &&& m < k ==> place(s, m).0 < line || (place(s, m).0 == line && place(s, m).1 < unit
                && s[m] != '\n')
        }),
    decreases s.len() - from,
{
    if !stops(s, from, line, unit) {
        law_places_are_held_to_the_document(
            s,
            from + 1,
            line,
            unit,
            if m > from {
                m
            } else {
                from + 1
            },
        );
    }
}

// ---------------------------------------------------------------------------
// Diagnostics
// ---------------------------------------------------------------------------

proof fn lemma_import_note(
    source: Seq<char>,
    p: Seq<char>,
    es: Seq<Failure>,
    n: int,
    i: int,
)
    requires
        0 <= i < n <= es.len(),
        same_path(es[i].file, p),
    ensures
        import_notes(source, Some(p), es, n).contains(
            error_note(source, es[i].span, es[i].message),
        ),
    decreases n,
{
    let x = error_note(source, es[i].span, es[i].message);
    let before = import_notes(source, Some(p), es, n - 1);
    let all = import_notes(source, Some(p), es, n);
    if i < n - 1 {
        lemma_import_note(source, p, es, n - 1, i);
        let k = choose|k: int| 0 <= k < before.len() && before[k] == x;
        assert(all[k] == x);
    } else {
        assert(all[before.len() as int] == x);
    }
}

/// Every error of the document is shown where it stands: each finding of the
/// checks, each failed import of the document itself, and, if the lexer accepted
/// the document, each lint finding as a warning.
pub proof fn law_every_finding_is_shown(
    source: Seq<char>,
    path: Option<Seq<char>>,
    lexed: bool,
    o: Outcome,
    i: int,
)
    requires
        o is Parsed,
        0 <= i,
    ensures
        ({
            let all = outcome_notes(source, path, lexed, o);
            let program = o->program;
            let imports = o->imports;
            let checks = o->checks;
            &&& i < checks@.len() ==> all.contains(
                Note {
                    start: place(source, chars_before(source, checks@[i].span.start as int)),
                    end: place(source, chars_before(source, checks@[i].span.end as int)),
                    severity: Severity::Error,
                    code: "hella"@,
                    message: checks@[i].message@,
                },
            )
            &&& i < imports@.len() && path is Some && same_path(imports@[i].file@, path->0)
                ==> all.contains(
                error_note(source, imports@[i].span, imports@[i].message@),
            )
            &&& lexed && i < report(program).len() ==> all.contains(
                note(
                    source,
                    report(program)[i].span,
                    Severity::Warning,
                    report(program)[i].code,
                    report(program)[i].message,
                ),
            )
        }),
{
    let all = outcome_notes(source, path, lexed, o);
    let program = o->program;
    let imports = o->imports;
    let checks = o->checks;
    let lints = if lexed {
        lint_notes(source, report(program))
    } else {
        Seq::empty()
    };
    let fs = failures(imports@);
    let mids = import_notes(source, path, fs, imports@.len() as int);
    let ends = issue_notes(source, checks@);
    if i < checks@.len() {
        assert(all[lints.len() + mids.len() + i] == ends[i]);
    }
    if i < imports@.len() && path is Some && same_path(imports@[i].file@, path->0) {
        let x = error_note(source, imports@[i].span, imports@[i].message@);
        assert(fs[i] == imports@[i]@);
        lemma_import_note(source, path->0, fs, imports@.len() as int, i);
        let k = choose|k: int| 0 <= k < mids.len() && mids[k] == x;
        assert(all[lints.len() + k] == x);
    }
    if lexed && i < report(program).len() {
        assert(all[i] == lints[i]);
    }
}

/// A document that does not parse is shown exactly one error, at the place where
/// it broke.
pub proof fn law_broken_documents_show_their_error(
    source: Seq<char>,
    path: Option<Seq<char>>,
    lexed: bool,
    o: Outcome,
)
    requires
        o is Broken,
    ensures
        outcome_notes(source, path, lexed, o) == seq![
            Note {
                start: place(source, chars_before(source, o->Broken_0.span.start as int)),
                end: place(source, chars_before(source, o->Broken_0.span.end as int)),
                severity: Severity::Error,
                code: "hella"@,
                message: o->Broken_0.message@,
            },
        ],
{
}

// ---------------------------------------------------------------------------
// Quick fixes
// ---------------------------------------------------------------------------

/// Every diagnostic that touches the range and can be fixed is offered its fix.
pub proof fn law_every_fix_is_offered(
    text: Seq<char>,
    range: Range,
    ds: Seq<Reported>,
    n: int,
    i: int,
)
    requires
        0 <= i < n <= ds.len(),
        overlap(ds[i].range, range),
        fix_for(text, ds[i], i) is Some,
    ensures
        fixes_for(text, range, ds, n).contains(fix_for(text, ds[i], i)->0),
    decreases n,
{
    let x = fix_for(text, ds[i], i)->0;
    let before = fixes_for(text, range, ds, n - 1);
    let all = fixes_for(text, range, ds, n);
    if i < n - 1 {
        law_every_fix_is_offered(text, range, ds, n - 1, i);
        let k = choose|k: int| 0 <= k < before.len() && before[k] == x;
        assert(all[k] == x);
    } else {
        assert(all[before.len() as int] == x);
    }
}

/// Two ranges overlap exactly when they have a place in common.
pub proof fn law_overlapping_ranges_share_a_place(a: Range, b: Range)
    requires
        place_order(a.start, a.end),
        place_order(b.start, b.end),
    ensures
        overlap(a, b) <==> exists|p: Position|
            #![trigger place_order(a.start, p)]
            place_order(a.start, p) && place_order(p, a.end) && place_order(b.start, p)
                && place_order(p, b.end),
{
    if overlap(a, b) {
        let p = if place_order(a.start, b.start) {
            b.start
        } else {
            a.start
        };
        assert(place_order(a.start, p));
    }
}

/// The first place is not behind the second.
pub open spec fn place_order(a: Position, b: Position) -> bool {
    a.line < b.line || (a.line == b.line && a.character <= b.character)
}

proof fn lemma_import_line(ls: Seq<Seq<char>>, path: Seq<char>, i: int)
    requires
        0 <= i <= ls.len(),
    ensures
        import_line(ls, path, i) matches Some(k) ==> i <= k < ls.len() && imports_path(ls[k], path)
            && forall|j: int| i <= j < k ==> !imports_path(#[trigger] ls[j], path),
        import_line(ls, path, i) is None ==> forall|j: int|
            i <= j < ls.len() ==> !imports_path(#[trigger] ls[j], path),
    decreases ls.len() - i,
{
    if i < ls.len() && !imports_path(ls[i], path) {
        lemma_import_line(ls, path, i + 1);
    }
}

/// A module that cannot be found can be removed: the fix deletes the first line
/// that imports it, whole or with symbols, and nothing else.
pub proof fn law_failed_import_is_removed(
    text: Seq<char>,
    path: Seq<char>,
    rest: Seq<char>,
    d: int,
    j: int,
)
    requires
        !path.contains('`'),
        find(path, "::{"@) is None,
        0 <= j < lines(text).len(),
        trim(lines(text)[j]) == "import "@ + path || starts(
            trim(lines(text)[j]),
            "import "@ + path + "::{"@,
        ),
    ensures
        ({
            let message = "cannot resolve import `"@ + path + "`"@ + rest;
            removal(text, message, d) matches Some(f) && {
                &&& f.end == (f.start.0 + 1, 0int)
                &&& f.start.1 == 0
                &&& f.new_text.len() == 0
                &&& f.diagnostic == d
                &&& 0 <= f.start.0 <= j
                &&& trim(lines(text)[f.start.0]) == "import "@ + path || starts(
                    trim(lines(text)[f.start.0]),
                    "import "@ + path + "::{"@,
                )
            }
        }),
{
    reveal_strlit("`");
    reveal_strlit("cannot resolve import `");
    let lead = "cannot resolve import `"@;
    let message = lead + path + "`"@ + rest;
    let n = lead.len() as int;
    assert(message.take(n) =~= lead);
    let tail = message.skip(n);
    assert(tail =~= path + ("`"@ + rest));
    lemma_first(tail, '`');
    assert(tail[path.len() as int] == '`');
    assert(first(tail, '`') == path.len()) by {
        let k = first(tail, '`');
        assert(tail.contains(tail[path.len() as int]));
        if k < path.len() {
            assert(path[k] == '`');
        }
    }
    assert(tail.take(path.len() as int) =~= path);
    assert(failed_path(message) == Some(path));
    lemma_import_line(lines(text), path, 0);
    assert(imports_path(lines(text)[j], path));
}

/// A missing `end` is inserted where the error stands, and nothing is deleted.
pub proof fn law_missing_end_is_inserted(text: Seq<char>, r: Reported, d: int)
    requires
        starts(r.message@, "expected `end` to close"@),
        !is_leak(r.message@),
    ensures
        fix_for(text, r, d) matches Some(f) && f.new_text == "end\n"@ && f.start == pair(
            r.range.start,
        ) && f.end == f.start && f.diagnostic == d,
{
    reveal_strlit("expected `end` to close");
    reveal_strlit("cannot resolve import `");
    let m = r.message@;
    assert(!starts(m, "cannot resolve import `"@)) by {
        if starts(m, "cannot resolve import `"@) {
            assert(m.take("cannot resolve import `"@.len() as int)[0] == 'c');
            assert(m.take("expected `end` to close"@.len() as int)[0] == 'e');
        }
    }
}

/// A value that would leak is bound in front of the expression, and nothing is
/// deleted; other messages never bind anything.
pub proof fn law_leaks_are_bound_in_place(
    text: Seq<char>,
    range: Range,
    message: Seq<char>,
    d: int,
)
    ensures
        binding(text, range, message, d) matches Some(f) ==> {
            &&& is_leak(message)
            &&& f.start == f.end
            &&& f.start == place(
                text,
                index_of(text, 0, range.start.line as int, range.start.character as int),
            )
            &&& starts(f.new_text, "own "@)
            &&& ends(f.new_text, " = "@)
        },
{
    if binding(text, range, message, d) is Some {
        let f = binding(text, range, message, d)->0;
        assert(f.new_text.take("own "@.len() as int) =~= "own "@);
        assert(f.new_text.skip(f.new_text.len() - " = "@.len()) =~= " = "@);
    }
}

// ---------------------------------------------------------------------------
// Formatting
// ---------------------------------------------------------------------------

/// The edit of a whole document reaches from its first character to its last, so
/// that what is left of the document is the formatted text.
pub proof fn law_full_edit_replaces_everything(e: TextEdit, text: Seq<char>, formatted: Seq<char>)
    requires
        is_full_edit(e, text, formatted),
    ensures
        index_of(text, 0, e.range.start.line as int, e.range.start.character as int) == 0,
        index_of(text, 0, e.range.end.line as int, e.range.end.character as int) == text.len(),
        e.new_text@ == formatted,
{
    law_places_lead_back(text, 0);
    law_places_lead_back(text, text.len() as int);
}

/// The lines that a range touches are in order and in the document, and hold the
/// lines of both its ends, as far as the document has them.
pub proof fn law_touched_lines_hold_the_range(range: Range, count: int)
    requires
        count > 0,
    ensures
        0 <= touched(range, count).0 <= touched(range, count).1 < count,
        range.start.line < count ==> touched(range, count).0 <= range.start.line <= touched(
            range,
            count,
        ).1,
        range.end.line < count ==> touched(range, count).0 <= range.end.line <= touched(
            range,
            count,
        ).1,
        range.start.line <= range.end.line < count ==> touched(range, count) == (
            range.start.line as int,
            range.end.line as int,
        ),
{
}

proof fn lemma_unix_lines(s: Seq<char>)
    requires
        !s.contains('\r'),
    ensures
        unix_lines(s) == s,
    decreases s.len(),
{
    if s.len() > 0 {
        assert(s.contains(s[0]));
        let t = s.skip(1);
        assert(!t.contains('\r')) by {
            if t.contains('\r') {
                let k = choose|k: int| 0 <= k < t.len() && t[k] == '\r';
                assert(s[k + 1] == '\r');
            }
        }
        lemma_unix_lines(t);
        assert(seq![s[0]] + t =~= s);
    }
}

proof fn lemma_one_end(s: Seq<char>)
    ensures
        one_end(s).len() <= s.len(),
        s.take(one_end(s).len() as int) == one_end(s),
        forall|i: int| one_end(s).len() <= i < s.len() ==> s[i] == '\n',
        one_end(s).len() > 1 && one_end(s).last() == '\n' ==> one_end(s)[one_end(s).len() - 2]
            != '\n',
        s.len() > 0 ==> one_end(s).len() > 0 && one_end(s).last() == s.last(),
    decreases s.len(),
{
    if s.len() > 1 && s.last() == '\n' && s[s.len() - 2] == '\n' {
        lemma_one_end(s.drop_last());
        let r = one_end(s);
        assert(s.take(r.len() as int) =~= s.drop_last().take(r.len() as int));
        assert forall|i: int| r.len() <= i < s.len() implies s[i] == '\n' by {
            if i < s.len() - 1 {
                assert(s.drop_last()[i] == s[i]);
            }
        }
    } else {
        assert(s.take(s.len() as int) =~= s);
    }
}

/// A buffer is compared with its line ends brought into order: it ends in exactly
/// one line feed, and of a buffer with Unix line ends nothing but line feeds at
/// its end is dropped or added.
pub proof fn law_normalizing_changes_the_end_only(text: Seq<char>)
    ensures
        normalized(text).len() > 0,
        normalized(text).last() == '\n',
        normalized(text).len() > 1 ==> normalized(text)[normalized(text).len() - 2] != '\n',
        !text.contains('\r') ==> ({
            let r = normalized(text);
            let body = r.drop_last();
            &&& body.len() <= text.len()
            &&& text.take(body.len() as int) == body
            &&& forall|i: int| body.len() <= i < text.len() ==> text[i] == '\n'
        }),
{
    let u = unix_lines(text);
    lemma_one_end(u);
    let t = one_end(u);
    if !text.contains('\r') {
        lemma_unix_lines(text);
        let body = normalized(text).drop_last();
        if t.len() > 0 && t.last() == '\n' {
            assert(body =~= t.drop_last());
            assert(text.take(body.len() as int) =~= text.take(t.len() as int).take(
                body.len() as int,
            ));
            assert(text[body.len() as int] == t.last()) by {
                assert(text.take(t.len() as int)[body.len() as int] == t[body.len() as int]);
            }
        } else {
            assert(body =~= t);
        }
    }
}

// ---------------------------------------------------------------------------
// Signature help
// ---------------------------------------------------------------------------

/// A parenthesis behind a name opens a call of that name, at its first argument.
pub proof fn law_parenthesis_opens_a_call(s: Seq<char>, i: int, st: Scan)
    requires
        0 <= i < s.len(),
        st.mode is Code,
        s[i] == '(',
        name_before(s, i).len() > 0,
    ensures
        call_of(stepped(s, i, st).0.open) == Some((name_before(s, i), 0int)),
        stepped(s, i, st).0.mode is Code,
        stepped(s, i, st).1 == 1,
{
    let open = stepped(s, i, st).0.open;
    assert(open.last().by == '(');
}

/// The name of a call is the run of name characters right before its parenthesis,
/// white space between them aside.
pub proof fn law_callee_stands_before_its_parenthesis(
    s: Seq<char>,
    from: int,
    to: int,
    i: int,
)
    requires
        0 <= from <= to <= i <= s.len(),
        forall|k: int| from <= k < to ==> is_name_char(#[trigger] s[k]),
        forall|k: int| to <= k < i ==> is_gap(#[trigger] s[k]),
        from == 0 || !is_name_char(s[from - 1]),
        from < to,
    ensures
        name_before(s, i) == s.subrange(from, to),
{
    lemma_gap(s, to, i);
    assert(is_name_char(s[to - 1]));
    assert(!is_gap(s[to - 1]));
    lemma_name(s, from, to);
}

proof fn lemma_gap(s: Seq<char>, to: int, i: int)
    requires
        0 <= to <= i <= s.len(),
        forall|k: int| to <= k < i ==> is_gap(#[trigger] s[k]),
        to == 0 || !is_gap(s[to - 1]),
    ensures
        gap_start(s, i) == to,
    decreases i,
{
    if to < i {
        assert(is_gap(s[i - 1]));
        lemma_gap(s, to, i - 1);
    }
}

proof fn lemma_name(s: Seq<char>, from: int, to: int)
    requires
        0 <= from <= to <= s.len(),
        forall|k: int| from <= k < to ==> is_name_char(#[trigger] s[k]),
        from == 0 || !is_name_char(s[from - 1]),
    ensures
        name_begin(s, to) == from,
    decreases to,
{
    if from < to {
        assert(is_name_char(s[to - 1]));
        lemma_name(s, from, to - 1);
    }
}

/// Within a call, outside of other brackets, literals and comments, the argument
/// moves on by one with every comma and with nothing else.
pub proof fn law_arguments_are_counted_by_commas(s: Seq<char>, i: int, n: int, st: Scan)
    requires
        0 <= i <= n <= s.len(),
        st.mode is Code,
        st.open.len() > 0,
        forall|k: int| i <= k < n ==> !is_structural(#[trigger] s[k]),
    ensures
        scanned(s, i, n, st).mode is Code,
        scanned(s, i, n, st).open.len() == st.open.len(),
        scanned(s, i, n, st).open.last().by == st.open.last().by,
        scanned(s, i, n, st).open.last().name == st.open.last().name,
        scanned(s, i, n, st).open.drop_last() == st.open.drop_last(),
        scanned(s, i, n, st).open.last().commas == st.open.last().commas + s.subrange(
            i,
            n,
        ).filter(|c: char| c == ',').len(),
    decreases n - i,
{
    reveal(Seq::filter);
    let p = |c: char| c == ',';
    if i < n {
        assert(!is_structural(s[i]));
        let next = stepped(s, i, st).0;
        assert(next.open.drop_last() =~= st.open.drop_last());
        law_arguments_are_counted_by_commas(s, i + 1, n, next);
        let rest = s.subrange(i + 1, n);
        assert(s.subrange(i, n) =~= seq![s[i]] + rest);
        Seq::filter_distributes_over_add(seq![s[i]], rest, p);
        let one = seq![s[i]];
        let none = Seq::<char>::empty();
        assert(none.filter(p).len() == 0);
        assert(one.drop_last() =~= none);
        assert(one.last() == s[i]);
        assert(one.filter(p).len() == if s[i] == ',' {
            1int
        } else {
            0int
        });
    } else {
        assert(s.subrange(i, n).filter(p).len() == 0);
    }
}

/// A call that was closed is left: behind its closing parenthesis everything is as
/// it was before its opening one.
pub proof fn law_closed_calls_are_left(s: Seq<char>, i: int, j: int, st: Scan)
    requires
        0 <= i < j < s.len(),
        st.mode is Code,
        s[i] == '(',
        s[j] == ')',
        forall|k: int| i < k < j ==> !is_structural(#[trigger] s[k]),
    ensures
        scanned(s, i, j + 1, st) == st,
{
    let one = stepped(s, i, st).0;
    assert(one.open.drop_last() =~= st.open);
    law_arguments_are_counted_by_commas(s, i + 1, j, one);
    let two = scanned(s, i + 1, j, one);
    lemma_scan_split(s, i + 1, j, one);
    assert(two.open.last().by == '(');
    assert(two.open.take(two.open.len() - 1) =~= two.open.drop_last());
    let three = stepped(s, j, two).0;
    assert(three.open =~= st.open);
    assert(scanned(s, j, j + 1, two) == scanned(s, j + 1, j + 1, three));
    assert(three =~= st);
}

proof fn lemma_scan_split(s: Seq<char>, i: int, j: int, st: Scan)
    requires
        0 <= i <= j < s.len(),
        st.mode is Code,
        forall|k: int| i <= k < j ==> !is_structural(#[trigger] s[k]),
    ensures
        scanned(s, i, j + 1, st) == scanned(s, j, j + 1, scanned(s, i, j, st)),
    decreases j - i,
{
    if i < j {
        assert(!is_structural(s[i]));
        let next = stepped(s, i, st).0;
        lemma_scan_split(s, i + 1, j, next);
    }
}

// ---------------------------------------------------------------------------
// Imports
// ---------------------------------------------------------------------------

/// A new import goes right behind the last import line, and on top of a document
/// without one.
pub proof fn law_imports_go_behind_imports(ls: Seq<Seq<char>>, n: int)
    requires
        0 <= n <= ls.len(),
    ensures
        0 <= insertion_line(ls, n) <= n,
        insertion_line(ls, n) > 0 ==> starts(
            trim_start(ls[insertion_line(ls, n) - 1]),
            "import "@,
        ),
        forall|i: int|
            insertion_line(ls, n) <= i < n ==> !starts(trim_start(#[trigger] ls[i]), "import "@),
    decreases n,
{
    if n > 0 && !starts(trim_start(ls[n - 1]), "import "@) {
        law_imports_go_behind_imports(ls, n - 1);
    }
}

/// The import that is proposed for a symbol is one that provides it.
pub proof fn law_proposed_imports_provide_the_symbol(
    ps: Seq<Provider>,
    importer: Option<Seq<char>>,
    symbol: Seq<char>,
    n: int,
)
    requires
        0 <= n <= ps.len(),
    ensures
        best_import(ps, importer, symbol, n) matches Some(b) ==> exists|k: int|
            0 <= k < n && offers(#[trigger] ps[k], importer) == Some(b) && provider_names(
                ps[k],
            ).contains(symbol),
    decreases n,
{
    if n > 0 {
        law_proposed_imports_provide_the_symbol(ps, importer, symbol, n - 1);
        if best_import(ps, importer, symbol, n) is Some {
            let b = best_import(ps, importer, symbol, n)->0;
            if best_import(ps, importer, symbol, n - 1) == Some(b) {
                let k = choose|k: int|
                    0 <= k < n - 1 && offers(#[trigger] ps[k], importer) == Some(b)
                        && provider_names(ps[k]).contains(symbol);
                assert(offers(ps[k], importer) == Some(b));
            } else {
                assert(offers(ps[n - 1], importer) == Some(b));
            }
        }
    }
}

/// The declared name of a foreign member.
pub open spec fn is_member_named(m: ExternMember, x: Seq<char>) -> bool {
    ||| m matches ExternMember::Function { name, .. } && name@ == x
    ||| m matches ExternMember::Struct { name, .. } && name@ == x
    ||| m matches ExternMember::Enum { name, .. } && name@ == x
    ||| m matches ExternMember::Const { name, .. } && name@ == x
}

/// The item defines `x`: it has that name, or declares it as foreign.
pub open spec fn defines(item: Item, x: Seq<char>) -> bool {
    ||| has_name(item, x)
    ||| item matches Item::Extern(b) && exists|i: int|
        0 <= i < b.members@.len() && is_member_named(#[trigger] b.members@[i], x)
}

proof fn lemma_extern_names(ms: Seq<ExternMember>, n: int, x: Seq<char>)
    requires
        0 <= n <= ms.len(),
    ensures
        extern_names(ms, n).contains(x) <==> exists|i: int|
            0 <= i < n && is_member_named(#[trigger] ms[i], x),
    decreases n,
{
    if n > 0 {
        lemma_extern_names(ms, n - 1, x);
        let a = extern_names(ms, n - 1);
        let s = extern_names(ms, n);
        assert(s[a.len() as int] == s.last());
        assert(is_member_named(ms[n - 1], s.last()));
        if s.contains(x) {
            let k = choose|k: int| 0 <= k < s.len() && s[k] == x;
            if k < a.len() {
                assert(a[k] == x);
            }
        }
        if a.contains(x) {
            let k = choose|k: int| 0 <= k < a.len() && a[k] == x;
            assert(s[k] == x);
        }
    }
}

proof fn lemma_item_defines(item: Item, x: Seq<char>)
    ensures
        item_defines(item).contains(x) <==> defines(item, x),
{
    match item {
        Item::Extern(b) => lemma_extern_names(b.members@, b.members@.len() as int, x),
        _ => {
            if item_defines(item).len() > 0 {
                assert(item_defines(item)[0] == item_defines(item).last());
            }
        },
    }
}

pub(crate) proof fn lemma_completed(s: Seq<Seq<char>>, more: Seq<Seq<char>>, n: int, x: Seq<char>)
    requires
        0 <= n <= more.len(),
    ensures
        completed(s, more, n).contains(x) <==> s.contains(x) || more.take(n).contains(x),
    decreases n,
{
    if n > 0 {
        lemma_completed(s, more, n - 1, x);
        let a = completed(s, more, n - 1);
        let t = more.take(n - 1);
        let u = more.take(n);
        let p = a.push(more[n - 1]);
        assert(u =~= t.push(more[n - 1]));
        assert(u[n - 1] == more[n - 1]);
        assert(p[a.len() as int] == more[n - 1]);
        if t.contains(x) {
            let k = choose|k: int| 0 <= k < t.len() && t[k] == x;
            assert(u[k] == x);
        }
        if u.contains(x) {
            let k = choose|k: int| 0 <= k < u.len() && u[k] == x;
            if k < t.len() {
                assert(t[k] == x);
            }
        }
        if a.contains(x) {
            let k = choose|k: int| 0 <= k < a.len() && a[k] == x;
            assert(p[k] == x);
        }
        if p.contains(x) {
            let k = choose|k: int| 0 <= k < p.len() && p[k] == x;
            if k < a.len() {
                assert(a[k] == x);
            }
        }
    } else {
        assert(more.take(0) =~= Seq::<Seq<char>>::empty());
    }
}

/// A module provides exactly the names that its items define.
pub proof fn law_modules_provide_what_they_define(items: Seq<Item>, n: int, x: Seq<char>)
    requires
        0 <= n <= items.len(),
    ensures
        defined(items, n).contains(x) <==> exists|i: int|
            0 <= i < n && defines(#[trigger] items[i], x),
    decreases n,
{
    if n > 0 {
        law_modules_provide_what_they_define(items, n - 1, x);
        let more = item_defines(items[n - 1]);
        lemma_completed(defined(items, n - 1), more, more.len() as int, x);
        assert(more.take(more.len() as int) =~= more);
        lemma_item_defines(items[n - 1], x);
    }
}

/// A walk within its limits collects every source file that it meets, once, and
/// goes into every directory but hidden ones and those of build output; hidden
/// and other files are passed over.
pub proof fn law_walk_collects_sources(
    w: Walk,
    path: Seq<char>,
    name: Seq<char>,
    kind: EntryKind,
)
    requires
        !w.over,
        w.seen < ENTRY_BUDGET,
        w.files.len() < FILE_CAP,
    ensures
        ({
            let r = with_entry(w, path, name, kind);
            let hidden = starts(name, "."@);
            let built = name == "target"@ || name == "out"@ || name == "node_modules"@;
            &&& !r.over && r.seen == w.seen + 1
            &&& kind == EntryKind::File && ends(name, ".hll"@) && !hidden ==> exists|i: int|
                0 <= i < r.files.len() && same_path((#[trigger] r.files[i]).1, path)
            &&& r.files != w.files ==> kind == EntryKind::File && ends(name, ".hll"@) && !hidden
                && r.files == w.files.push((w.base, path))
            &&& kind == EntryKind::Directory && !hidden && !built <==> r.waiting
                == w.waiting.push((w.base, path))
            &&& kind != EntryKind::Directory || hidden || built <==> r.waiting == w.waiting
        }),
{
    let r = with_entry(w, path, name, kind);
    assert(w.waiting.push((w.base, path)).len() == w.waiting.len() + 1);
    if kind == EntryKind::File && ends(name, ".hll"@) && !starts(name, "."@) {
        if r.files == w.files.push((w.base, path)) {
            assert(r.files[w.files.len() as int].1 == path);
        }
    }
}

} // verus!
