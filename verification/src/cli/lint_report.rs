//! What `hella lint` prints.
use crate::lint::{findings, Finding, Warning};
use crate::text::{chars_of, decimal, natural, texts};
use crate::utf8::{chars_before, chars_up_to};
use vstd::prelude::*;
use vstd::string::*;

verus! {

/// How many characters stand behind the last line feed of the first `n`.
pub open spec fn column(s: Seq<char>, n: int) -> int
    decreases n,
{
    if n <= 0 || s[n - 1] == '\n' {
        0
    } else {
        1 + column(s, n - 1)
    }
}

/// A warning as a line, with line and column counted from one.
pub open spec fn warning_line(path: Seq<char>, source: Seq<char>, w: Finding) -> Seq<char> {
    let n = chars_before(source, w.span.start as int);
    path + ":"@ + decimal(crate::docs::newlines(source, n) + 1) + ":"@ + decimal(
        column(source, n) + 1,
    ) + ": warning["@ + w.code + "]: "@ + w.message
}

/// A warning as a line: `path:line:column: warning[code]: message`.
pub fn show_warning(path: &str, source: &str, w: &Warning) -> (r: String)
    requires
        source@.len() < usize::MAX,
    ensures
        r@ == warning_line(path@, source@, w@),
{
    let s = chars_of(source);
    let n = chars_up_to(&s, w.span.start);
    let mut line: u64 = 0;
    let mut col: u64 = 0;
    let mut i: usize = 0;
    while i < n
        invariant
            i <= n <= s@.len() < usize::MAX,
            s@ == source@,
            line <= i,
            col <= i,
            line == crate::docs::newlines(source@, i as int),
            col == column(source@, i as int),
        decreases n - i,
    {
        if s[i] == '\n' {
            line = line + 1;
            col = 0;
        } else {
            col = col + 1;
        }
        i += 1;
    }
    let mut out = String::from_str(path);
    out.append(":");
    out.append(natural(line + 1).as_str());
    out.append(":");
    out.append(natural(col + 1).as_str());
    out.append(": warning[");
    out.append(w.code);
    out.append("]: ");
    out.append(w.message.as_str());
    out
}

/// The lines of all warnings.
pub open spec fn warning_lines(path: Seq<char>, source: Seq<char>, ws: Seq<Finding>) -> Seq<
    Seq<char>,
> {
    Seq::new(ws.len(), |i: int| warning_line(path, source, ws[i]))
}

/// The lines of all warnings, in their order.
pub fn show_warnings(path: &str, source: &str, ws: &Vec<Warning>) -> (r: Vec<String>)
    requires
        source@.len() < usize::MAX,
    ensures
        texts(r@) == warning_lines(path@, source@, findings(ws@)),
{
    let mut out: Vec<String> = Vec::new();
    let ghost goal = warning_lines(path@, source@, findings(ws@));
    let mut i: usize = 0;
    while i < ws.len()
        invariant
            i <= ws@.len(),
            source@.len() < usize::MAX,
            goal == warning_lines(path@, source@, findings(ws@)),
            texts(out@) =~= goal.take(i as int),
        decreases ws@.len() - i,
    {
        let ghost had = texts(out@);
        let line = show_warning(path, source, &ws[i]);
        assert(findings(ws@)[i as int] == ws@[i as int]@);
        out.push(line);
        assert(texts(out@) =~= had.push(line@));
        i += 1;
    }
    assert(texts(out@) =~= goal);
    out
}

/// Whether a lint run succeeds: warnings are advisory unless they are denied.
pub fn lint_outcome(warnings: usize, deny: bool) -> (r: Result<(), String>)
    ensures
        r is Ok <==> !deny || warnings == 0,
        r matches Err(m) ==> m@ == decimal(warnings as int)
            + " lint warning(s) (--deny-warnings)"@,
{
    if deny && warnings > 0 {
        let mut m = natural(warnings as u64);
        m.append(" lint warning(s) (--deny-warnings)");
        return Err(m);
    }
    Ok(())
}

} // verus!
