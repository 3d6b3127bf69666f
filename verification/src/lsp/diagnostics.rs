//! Diagnostics for an open document: what the compiler's passes report, with
//! places in that document.
use crate::ast::Program;
use crate::lint::{findings, report, Finding, Warning};
use crate::lint;
use crate::lsp::document::{pair, place, span_to_range, Range};
use crate::modules::expand::{failures, Failure, ImportError};
use crate::modules::layout::opt_str;
use crate::paths::{components, file_stem, is_same_path, path_components, same_path, stem};
use crate::text::{chars_of, is_text};
use crate::token::Span;
use crate::utf8::{chars_before, size};
use vstd::prelude::*;
use vstd::string::*;

verus! {

/// How serious a diagnostic is.
#[derive(Clone, Copy, Debug, PartialEq, Eq, Structural)]
pub enum Severity {
    Error,
    Warning,
}

/// A message on a range of the document.
#[derive(Debug)]
pub struct Diagnostic {
    pub range: Range,
    pub severity: Severity,
    pub code: String,
    pub message: String,
}

/// A text that is no token.
#[derive(Debug)]
pub struct LexIssue {
    pub span: Span,
    pub slice: String,
}

/// What a pass complains of.
#[derive(Debug)]
pub struct Issue {
    pub span: Span,
    pub message: String,
}

/// What came of a document behind the lexer.
pub enum Outcome<'a> {
    /// It does not parse.
    Broken(&'a Issue),
    /// It parses; expanding its imports and checking it gave these errors.
    Parsed { program: &'a Program, imports: &'a Vec<ImportError>, checks: &'a Vec<Issue> },
}

/// A diagnostic as mathematical text.
#[verifier::ext_equal]
pub struct Note {
    pub start: (int, int),
    pub end: (int, int),
    pub severity: Severity,
    pub code: Seq<char>,
    pub message: Seq<char>,
}

impl View for Diagnostic {
    type V = Note;

    open spec fn view(&self) -> Note {
        Note {
            start: pair(self.range.start),
            end: pair(self.range.end),
            severity: self.severity,
            code: self.code@,
            message: self.message@,
        }
    }
}

pub open spec fn notes(v: Seq<Diagnostic>) -> Seq<Note> {
    Seq::new(v.len(), |i: int| v[i]@)
}

/// A message on a span of the document.
pub open spec fn note(
    source: Seq<char>,
    span: Span,
    severity: Severity,
    code: Seq<char>,
    message: Seq<char>,
) -> Note {
    Note {
        start: place(source, chars_before(source, span.start as int)),
        end: place(source, chars_before(source, span.end as int)),
        severity,
        code,
        message,
    }
}

pub open spec fn error_note(source: Seq<char>, span: Span, message: Seq<char>) -> Note {
    note(source, span, Severity::Error, "hella"@, message)
}

/// The notes on texts that are no tokens.
pub open spec fn lex_notes(source: Seq<char>, es: Seq<LexIssue>) -> Seq<Note> {
    Seq::new(
        es.len(),
        |i: int|
            error_note(source, es[i].span, "unexpected token `"@ + es[i].slice@ + "`"@),
    )
}

pub open spec fn issue_notes(source: Seq<char>, es: Seq<Issue>) -> Seq<Note> {
    Seq::new(es.len(), |i: int| error_note(source, es[i].span, es[i].message@))
}

pub open spec fn lint_notes(source: Seq<char>, fs: Seq<Finding>) -> Seq<Note> {
    Seq::new(
        fs.len(),
        |i: int| note(source, fs[i].span, Severity::Warning, fs[i].code, fs[i].message),
    )
}

/// The notes on the first `n` import errors, those in other files aside: they
/// show where those files are open.
pub open spec fn import_notes(source: Seq<char>, path: Option<Seq<char>>, es: Seq<Failure>, n: int)
    -> Seq<Note>
    decreases n,
{
    if n <= 0 {
        Seq::empty()
    } else if path matches Some(p) && same_path(es[n - 1].file, p) {
        import_notes(source, path, es, n - 1).push(
            error_note(source, es[n - 1].span, es[n - 1].message),
        )
    } else {
        import_notes(source, path, es, n - 1)
    }
}

/// The notes behind the lexer. Lint findings count only for a document that the
/// lexer accepted, and only those of the document itself.
pub open spec fn outcome_notes(
    source: Seq<char>,
    path: Option<Seq<char>>,
    lexed: bool,
    o: Outcome,
) -> Seq<Note> {
    match o {
        Outcome::Broken(e) => seq![error_note(source, e.span, e.message@)],
        Outcome::Parsed { program, imports, checks } => (if lexed {
            lint_notes(source, report(program))
        } else {
            Seq::empty()
        }) + import_notes(source, path, failures(imports@), imports@.len() as int)
            + issue_notes(source, checks@),
    }
}

fn push_note(
    out: &mut Vec<Diagnostic>,
    source: &str,
    span: Span,
    severity: Severity,
    code: &str,
    message: &str,
)
    requires
        size(source@) <= u32::MAX,
    ensures
        notes(final(out)@) == notes(old(out)@).push(
            note(source@, span, severity, code@, message@),
        ),
{
    let d = Diagnostic {
        range: span_to_range(source, span),
        severity,
        code: String::from_str(code),
        message: String::from_str(message),
    };
    let ghost n = d@;
    out.push(d);
    assert(notes(out@) =~= notes(old(out)@).push(n));
}

fn push_findings(out: &mut Vec<Diagnostic>, source: &str, ws: &Vec<Warning>)
    requires
        size(source@) <= u32::MAX,
    ensures
        notes(final(out)@) == notes(old(out)@) + lint_notes(source@, findings(ws@)),
{
    let ghost all = lint_notes(source@, findings(ws@));
    let mut i: usize = 0;
    assert(notes(out@) =~= notes(old(out)@) + all.take(0));
    while i < ws.len()
        invariant
            i <= ws@.len(),
            size(source@) <= u32::MAX,
            all == lint_notes(source@, findings(ws@)),
            notes(out@) == notes(old(out)@) + all.take(i as int),
        decreases ws@.len() - i,
    {
        let w = &ws[i];
        push_note(out, source, w.span, Severity::Warning, w.code, w.message.as_str());
        assert(findings(ws@)[i as int] == w@);
        assert(notes(out@) =~= notes(old(out)@) + all.take(i + 1));
        i += 1;
    }
    assert(all.take(i as int) =~= all);
}

fn push_import_errors(
    out: &mut Vec<Diagnostic>,
    source: &str,
    path: Option<&str>,
    es: &Vec<ImportError>,
)
    requires
        size(source@) <= u32::MAX,
    ensures
        notes(final(out)@) == notes(old(out)@) + import_notes(
            source@,
            opt_str(path),
            failures(es@),
            es@.len() as int,
        ),
{
    let ghost fs = failures(es@);
    let mut i: usize = 0;
    assert(notes(out@) =~= notes(old(out)@) + import_notes(source@, opt_str(path), fs, 0));
    while i < es.len()
        invariant
            i <= es@.len(),
            size(source@) <= u32::MAX,
            fs == failures(es@),
            notes(out@) == notes(old(out)@) + import_notes(source@, opt_str(path), fs, i as int),
        decreases es@.len() - i,
    {
        let e = &es[i];
        assert(fs[i as int] == e@);
        let here: bool = match path {
            Some(p) => is_same_path(e.file.as_str(), p),
            None => false,
        };
        if here {
            push_note(out, source, e.span, Severity::Error, "hella", e.message.as_str());
        }
        assert(notes(out@) =~= notes(old(out)@) + import_notes(source@, opt_str(path), fs, i + 1));
        i += 1;
    }
}

fn push_issues(out: &mut Vec<Diagnostic>, source: &str, es: &Vec<Issue>)
    requires
        size(source@) <= u32::MAX,
    ensures
        notes(final(out)@) == notes(old(out)@) + issue_notes(source@, es@),
{
    let ghost all = issue_notes(source@, es@);
    let mut i: usize = 0;
    assert(notes(out@) =~= notes(old(out)@) + all.take(0));
    while i < es.len()
        invariant
            i <= es@.len(),
            size(source@) <= u32::MAX,
            all == issue_notes(source@, es@),
            notes(out@) == notes(old(out)@) + all.take(i as int),
        decreases es@.len() - i,
    {
        push_note(
            out,
            source,
            es[i].span,
            Severity::Error,
            "hella",
            es[i].message.as_str(),
        );
        assert(notes(out@) =~= notes(old(out)@) + all.take(i + 1));
        i += 1;
    }
    assert(all.take(i as int) =~= all);
}

/// Diagnostics for a document: what the lexer refused, then what came behind it.
/// `path` is where the document is stored, `None` for an unsaved buffer.
pub fn diagnostics(source: &str, path: Option<&str>, lex_errors: &Vec<LexIssue>, outcome: Outcome)
    -> (r: Vec<Diagnostic>)
    requires
        size(source@) <= u32::MAX,
    ensures
        notes(r@) == lex_notes(source@, lex_errors@) + outcome_notes(
            source@,
            opt_str(path),
            lex_errors@.len() == 0,
            outcome,
        ),
{
    let mut out: Vec<Diagnostic> = Vec::new();
    let ghost first = lex_notes(source@, lex_errors@);
    let mut i: usize = 0;
    assert(notes(out@) =~= first.take(0));
    while i < lex_errors.len()
        invariant
            i <= lex_errors@.len(),
            size(source@) <= u32::MAX,
            first == lex_notes(source@, lex_errors@),
            notes(out@) == first.take(i as int),
        decreases lex_errors@.len() - i,
    {
        let mut m = String::from_str("unexpected token `");
        m.append(lex_errors[i].slice.as_str());
        m.append("`");
        push_note(&mut out, source, lex_errors[i].span, Severity::Error, "hella", m.as_str());
        assert(notes(out@) =~= first.take(i + 1));
        i += 1;
    }
    assert(first.take(i as int) =~= first);
    match outcome {
        Outcome::Broken(e) => {
            push_note(&mut out, source, e.span, Severity::Error, "hella", e.message.as_str());
            assert(notes(out@) =~= first + seq![error_note(source@, e.span, e.message@)]);
        },
        Outcome::Parsed { program, imports, checks } => {
            if lex_errors.len() == 0 {
                let ws = lint::check(program);
                push_findings(&mut out, source, &ws);
            }
            let ghost a = notes(out@);
            push_import_errors(&mut out, source, path, imports);
            let ghost b = notes(out@);
            push_issues(&mut out, source, checks);
            assert(notes(out@) =~= first + outcome_notes(
                source@,
                opt_str(path),
                lex_errors@.len() == 0,
                outcome,
            ));
        },
    }
    out
}

/// A file called `main`, whatever its extension.
pub open spec fn is_main_path(path: Seq<char>) -> bool {
    components(path).len() > 0 && stem(components(path).last()) == "main"@
}

/// Whether a document must define `main`: a file called `main`, or a buffer
/// that is not stored. Library modules need none.
pub fn requires_main(path: Option<&str>) -> (r: bool)
    ensures
        r == match path {
            Some(p) => is_main_path(p@),
            None => true,
        },
{
    match path {
        Some(p) => {
            let cs = path_components(&chars_of(p));
            let n: usize = cs.len();
            if n == 0 {
                return false;
            }
            assert(components(p@).last() == cs@[n - 1]@);
            is_text(&file_stem(&cs[n - 1]), "main")
        },
        None => true,
    }
}

// ---------------------------------------------------------------------------
// Laws
// ---------------------------------------------------------------------------

/// Only errors of the open document are shown: without import errors of its own
/// it gets no note on imports.
pub proof fn law_errors_of_other_files_stay_there(
    source: Seq<char>,
    path: Option<Seq<char>>,
    es: Seq<Failure>,
    n: int,
)
    requires
        0 <= n <= es.len(),
        path matches Some(p) ==> forall|i: int|
            0 <= i < es.len() ==> !same_path((#[trigger] es[i]).file, p),
    ensures
        import_notes(source, path, es, n).len() == 0,
    decreases n,
{
    if n > 0 {
        law_errors_of_other_files_stay_there(source, path, es, n - 1);
    }
}

/// A document that the lexer did not accept gets no lint warnings.
pub proof fn law_no_lint_on_broken_tokens(
    source: Seq<char>,
    path: Option<Seq<char>>,
    o: Outcome,
    i: int,
)
    requires
        0 <= i < outcome_notes(source, path, false, o).len(),
    ensures
        outcome_notes(source, path, false, o)[i].severity == Severity::Error,
{
    match o {
        Outcome::Broken(e) => {},
        Outcome::Parsed { program, imports, checks } => {
            lemma_import_notes_are_errors(
                source,
                path,
                failures(imports@),
                imports@.len() as int,
            );
        },
    }
}

proof fn lemma_import_notes_are_errors(
    source: Seq<char>,
    path: Option<Seq<char>>,
    es: Seq<Failure>,
    n: int,
)
    ensures
        forall|i: int|
            0 <= i < import_notes(source, path, es, n).len() ==> (#[trigger] import_notes(
                source,
                path,
                es,
                n,
            )[i]).severity == Severity::Error,
    decreases n,
{
    if n > 0 {
        lemma_import_notes_are_errors(source, path, es, n - 1);
    }
}

} // verus!
