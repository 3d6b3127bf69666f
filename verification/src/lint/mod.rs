//! Advisory checks, separate from semantic errors. Not a borrow checker.
pub mod laws;
pub mod tree;
pub mod tree_laws;
pub mod walk;

use crate::ast::{CallArg, Expr, ExprKind, Program};
use crate::lint::walk::program_walk;
use crate::text::same;
use crate::token::Span;
use vstd::prelude::*;
use vstd::string::*;

verus! {

/// An advisory finding.
#[derive(Debug)]
pub struct Warning {
    pub code: &'static str,
    pub message: String,
    pub span: Span,
}

/// What a warning says, as mathematical text.
#[verifier::ext_equal]
pub struct Finding {
    pub code: Seq<char>,
    pub message: Seq<char>,
    pub span: Span,
}

impl View for Warning {
    type V = Finding;

    open spec fn view(&self) -> Finding {
        Finding { code: self.code@, message: self.message@, span: self.span }
    }
}

/// The findings of a list of warnings.
pub open spec fn findings(ws: Seq<Warning>) -> Seq<Finding> {
    Seq::new(ws.len(), |i: int| ws[i]@)
}

// ---------------------------------------------------------------------------
// Repeated `ref`/`out` arguments
// ---------------------------------------------------------------------------

/// The variable an expression consists of, parentheses aside.
pub open spec fn bare_name(e: Expr) -> Option<Seq<char>>
    decreases e,
{
    match e.kind {
        ExprKind::Ident(name) => Some(name@),
        ExprKind::Paren(inner) => bare_name(*inner),
        _ => None,
    }
}

/// The bare variable that a `ref` or `out` argument hands to the callee.
pub open spec fn handed(a: CallArg) -> Option<Seq<char>> {
    match a {
        CallArg::Ref { expr, .. } => bare_name(expr),
        CallArg::Out { name, .. } => Some(name@),
        _ => None,
    }
}

/// True of `out ty name`, which may declare its variable.
pub open spec fn declares(a: CallArg) -> bool {
    a matches CallArg::Out { ty: Some(_), .. }
}

/// The argument at `i` hands over a variable that an argument before it hands
/// over too, and does not itself declare that variable.
pub open spec fn repeats(args: Seq<CallArg>, i: int) -> bool {
    &&& handed(args[i]) is Some
    &&& !declares(args[i])
    &&& exists|j: int| 0 <= j < i && handed(#[trigger] args[j]) == handed(args[i])
}

/// The H001 finding on an argument that hands over `name` again.
pub open spec fn repeated(name: Seq<char>, span: Span) -> Finding {
    Finding {
        code: "H001"@,
        message: "`"@ + name
            + "` is passed to multiple ref/out arguments in this call; writes through one argument also change the other"@,
        span,
    }
}

/// The findings on the first `n` arguments of a call, in argument order.
pub open spec fn call_findings(args: Seq<CallArg>, n: int) -> Seq<Finding>
    decreases n,
{
    if n <= 0 {
        Seq::empty()
    } else if repeats(args, n - 1) {
        call_findings(args, n - 1).push(
            repeated(handed(args[n - 1])->0, args[n - 1].place()),
        )
    } else {
        call_findings(args, n - 1)
    }
}

/// The arguments of a call, method call, construction or enum variant.
pub open spec fn call_args(e: Expr) -> Option<Seq<CallArg>> {
    match e.kind {
        ExprKind::Call { args, .. } => Some(args@),
        ExprKind::MethodCall { args, .. } => Some(args@),
        ExprKind::New { args, .. } => Some(args@),
        ExprKind::EnumVariant { args, .. } => Some(args@),
        _ => None,
    }
}

/// The findings on one expression, its children aside.
pub open spec fn expr_findings(e: Expr) -> Seq<Finding> {
    match call_args(e) {
        Some(args) => call_findings(args, args.len() as int),
        None => Seq::empty(),
    }
}

/// The findings on the first `n` expressions, in order.
pub open spec fn all_findings(es: Seq<&Expr>, n: int) -> Seq<Finding>
    decreases n,
{
    if n <= 0 {
        Seq::empty()
    } else {
        all_findings(es, n - 1) + expr_findings(*es[n - 1])
    }
}

// ---------------------------------------------------------------------------
// Source order
// ---------------------------------------------------------------------------

/// `a` starts before `b`, or starts with it and ends before it.
pub open spec fn earlier(a: Span, b: Span) -> bool {
    a.start < b.start || (a.start == b.start && a.end < b.end)
}

/// `w` put into the ordered `s`, behind everything that is not later.
pub open spec fn inserted(s: Seq<Finding>, w: Finding) -> Seq<Finding>
    decreases s.len(),
{
    if s.len() == 0 || !earlier(w.span, s.last().span) {
        s.push(w)
    } else {
        inserted(s.drop_last(), w).push(s.last())
    }
}

/// `s` in source order, findings on the same span keeping their order.
pub open spec fn ordered(s: Seq<Finding>) -> Seq<Finding>
    decreases s.len(),
{
    if s.len() == 0 {
        s
    } else {
        inserted(ordered(s.drop_last()), s.last())
    }
}

/// What [`check`] reports on a program.
pub open spec fn report(p: &Program) -> Seq<Finding> {
    ordered(all_findings(program_walk(p), program_walk(p).len() as int))
}

fn ident<'a>(e: &'a Expr) -> (r: Option<&'a str>)
    ensures
        r is Some <==> bare_name(*e) is Some,
        r matches Some(s) ==> bare_name(*e) == Some(s@),
    decreases e,
{
    match &e.kind {
        ExprKind::Ident(name) => Some(name.as_str()),
        ExprKind::Paren(inner) => ident(&**inner),
        _ => None,
    }
}

fn handed_name<'a>(a: &'a CallArg) -> (r: Option<&'a str>)
    ensures
        r is Some <==> handed(*a) is Some,
        r matches Some(s) ==> handed(*a) == Some(s@),
{
    match a {
        CallArg::Ref { expr, .. } => ident(expr),
        CallArg::Out { name, .. } => Some(name.as_str()),
        _ => None,
    }
}

fn handed_before(args: &Vec<CallArg>, i: usize, name: &str) -> (r: bool)
    requires
        i <= args@.len(),
    ensures
        r == exists|j: int| 0 <= j < i && handed(#[trigger] args@[j]) == Some(name@),
{
    let mut j: usize = 0;
    while j < i
        invariant
            j <= i <= args@.len(),
            forall|k: int| 0 <= k < j ==> handed(#[trigger] args@[k]) != Some(name@),
        decreases i - j,
    {
        if let Some(other) = handed_name(&args[j]) {
            if same(other, name) {
                return true;
            }
        }
        j += 1;
    }
    false
}

fn repeated_warning(name: &str, span: Span) -> (r: Warning)
    ensures
        r@ == repeated(name@, span),
{
    let mut message = String::from_str("`");
    message.append(name);
    message.append(
        "` is passed to multiple ref/out arguments in this call; writes through one argument also change the other",
    );
    Warning { code: "H001", message, span }
}

fn check_call(args: &Vec<CallArg>, out: &mut Vec<Warning>)
    ensures
        findings(final(out)@) == findings(old(out)@) + call_findings(
            args@,
            args@.len() as int,
        ),
{
    let mut i: usize = 0;
    assert(findings(out@) =~= findings(old(out)@) + call_findings(args@, 0));
    while i < args.len()
        invariant
            i <= args@.len(),
            findings(out@) == findings(old(out)@) + call_findings(args@, i as int),
        decreases args@.len() - i,
    {
        let a = &args[i];
        let ghost done = findings(out@);
        let binding = match a {
            CallArg::Out { ty: Some(_), .. } => true,
            _ => false,
        };
        assert(binding == declares(args@[i as int]));
        if let Some(name) = handed_name(a) {
            if !binding && handed_before(args, i, name) {
                assert(repeats(args@, i as int));
                out.push(repeated_warning(name, a.span()));
                assert(findings(out@) =~= done.push(repeated(name@, a.place())));
            } else {
                assert(!repeats(args@, i as int));
            }
        }
        assert(findings(out@) =~= findings(old(out)@) + call_findings(args@, i + 1));
        i += 1;
    }
}

fn is_earlier(a: Span, b: Span) -> (r: bool)
    ensures
        r == earlier(a, b),
{
    a.start < b.start || (a.start == b.start && a.end < b.end)
}

fn insert(sorted: &mut Vec<Warning>, w: Warning)
    ensures
        findings(final(sorted)@) == inserted(findings(old(sorted)@), w@),
{
    let n: usize = sorted.len();
    let mut at: usize = n;
    let ghost s = findings(sorted@);
    assert(s.take(n as int) =~= s);
    assert(inserted(s.take(n as int), w@) + s.skip(n as int) =~= inserted(s, w@));
    while at > 0 && is_earlier(w.span, sorted[at - 1].span)
        invariant
            at <= n == sorted@.len(),
            s == findings(sorted@),
            inserted(s, w@) == inserted(s.take(at as int), w@) + s.skip(at as int),
        decreases at,
    {
        let ghost t = s.take(at as int);
        assert(t.drop_last() =~= s.take(at - 1));
        assert(inserted(t, w@) + s.skip(at as int) =~= inserted(s.take(at - 1), w@) + s.skip(
            at - 1,
        ));
        at -= 1;
    }
    assert(at > 0 ==> s.take(at as int).last() == s[at - 1]);
    let ghost before = sorted@;
    let ghost new = w@;
    sorted.insert(at, w);
    assert(findings(sorted@) =~= s.take(at as int).push(new) + s.skip(at as int));
}

/// Analyzes a single source file before imports are expanded, so that spans
/// belong to that file. H001 reports `ref`/`out` arguments that repeat a bare
/// variable within one call. It makes no claim about aliasing through pointers
/// or fields.
pub fn check(program: &Program) -> (r: Vec<Warning>)
    ensures
        findings(r@) == report(program),
{
    let es = walk::program(program);
    let mut found: Vec<Warning> = Vec::new();
    let mut i: usize = 0;
    assert(findings(found@) =~= all_findings(es@, 0));
    while i < es.len()
        invariant
            i <= es@.len(),
            findings(found@) == all_findings(es@, i as int),
        decreases es@.len() - i,
    {
        let e: &Expr = es[i];
        match &e.kind {
            ExprKind::Call { args, .. } => check_call(args, &mut found),
            ExprKind::MethodCall { args, .. } => check_call(args, &mut found),
            ExprKind::New { args, .. } => check_call(args, &mut found),
            ExprKind::EnumVariant { args, .. } => check_call(args, &mut found),
            _ => {},
        }
        assert(findings(found@) =~= all_findings(es@, i + 1));
        i += 1;
    }
    sort(found)
}

fn sort(mut found: Vec<Warning>) -> (r: Vec<Warning>)
    ensures
        findings(r@) == ordered(findings(found@)),
{
    let ghost all = findings(found@);
    let n: usize = found.len();
    let mut rev: Vec<Warning> = Vec::new();
    let mut k: usize = n;
    while k > 0
        invariant
            k <= n == all.len(),
            found@.len() == k,
            findings(found@) =~= all.take(k as int),
            findings(rev@) =~= all.skip(k as int).reverse(),
        decreases k,
    {
        let ghost before = found@;
        if let Some(w) = found.pop() {
            let ghost rest = findings(rev@);
            assert(w@ == findings(before)[k - 1]);
            rev.push(w);
            assert(findings(rev@) =~= rest.push(all[k - 1]));
        }
        k -= 1;
    }
    let mut out: Vec<Warning> = Vec::new();
    let mut i: usize = 0;
    assert(findings(out@) =~= ordered(all.take(0)));
    while i < n
        invariant
            i <= n == all.len(),
            rev@.len() == n - i,
            findings(rev@) =~= all.skip(i as int).reverse(),
            findings(out@) == ordered(all.take(i as int)),
        decreases n - i,
    {
        let ghost before = rev@;
        if let Some(w) = rev.pop() {
            assert(w@ == findings(before).last());
            insert(&mut out, w);
            assert(all.take(i + 1).drop_last() =~= all.take(i as int));
        }
        assert(findings(rev@) =~= findings(before).drop_last());
        i += 1;
    }
    assert(all.take(n as int) =~= all);
    out
}

// ---------------------------------------------------------------------------
// Laws
// ---------------------------------------------------------------------------

pub open spec fn in_order(s: Seq<Finding>) -> bool {
    forall|i: int, j: int| 0 <= i < j < s.len() ==> !earlier(#[trigger] s[j].span, #[trigger] s[i].span)
}

proof fn lemma_inserted(s: Seq<Finding>, w: Finding)
    requires
        in_order(s),
    ensures
        inserted(s, w).len() == s.len() + 1,
        in_order(inserted(s, w)),
        inserted(s, w).to_multiset() == s.to_multiset().insert(w),
        forall|i: int| #![trigger inserted(s, w)[i]] 0 <= i < inserted(s, w).len() ==> inserted(s, w)[i] == w || s.contains(
            inserted(s, w)[i],
        ),
    decreases s.len(),
{
    broadcast use vstd::seq_lib::group_to_multiset_ensures;

    let r = inserted(s, w);
    if s.len() == 0 || !earlier(w.span, s.last().span) {
        assert forall|i: int, j: int| 0 <= i < j < r.len() implies !earlier(
            #[trigger] r[j].span,
            #[trigger] r[i].span,
        ) by {
            if j == s.len() && i < s.len() - 1 {
                assert(!earlier(s[s.len() - 1].span, s[i].span));
            }
        }
        assert forall|i: int| #![trigger r[i]] 0 <= i < r.len() implies r[i] == w || s.contains(r[i]) by {
            if i < s.len() {
                assert(s[i] == r[i]);
            }
        }
    } else {
        let t = s.drop_last();
        assert(in_order(t)) by {
            assert forall|i: int, j: int| 0 <= i < j < t.len() implies !earlier(
                #[trigger] t[j].span,
                #[trigger] t[i].span,
            ) by {
                assert(!earlier(s[j].span, s[i].span));
            }
        }
        lemma_inserted(t, w);
        let q = inserted(t, w);
        assert(s =~= t.push(s.last()));
        assert(r.to_multiset() =~= s.to_multiset().insert(w));
        assert forall|i: int, j: int| 0 <= i < j < r.len() implies !earlier(
            #[trigger] r[j].span,
            #[trigger] r[i].span,
        ) by {
            if j == q.len() {
                assert(r[i] == q[i]);
                if q[i] != w {
                    let k = choose|k: int| 0 <= k < t.len() && t[k] == q[i];
                    assert(!earlier(s[s.len() - 1].span, s[k].span));
                }
            } else {
                assert(!earlier(q[j].span, q[i].span));
            }
        }
        assert forall|i: int| #![trigger r[i]] 0 <= i < r.len() implies r[i] == w || s.contains(r[i]) by {
            if i < q.len() {
                assert(r[i] == q[i]);
                if q[i] != w {
                    let k = choose|k: int| 0 <= k < t.len() && t[k] == q[i];
                    assert(s[k] == q[i]);
                }
            } else {
                assert(s[s.len() - 1] == r[i]);
            }
        }
    }
}

pub(crate) proof fn lemma_ordered(s: Seq<Finding>)
    ensures
        in_order(ordered(s)),
        ordered(s).to_multiset() == s.to_multiset(),
    decreases s.len(),
{
    broadcast use vstd::seq_lib::group_to_multiset_ensures;

    if s.len() > 0 {
        lemma_ordered(s.drop_last());
        lemma_inserted(ordered(s.drop_last()), s.last());
        assert(s =~= s.drop_last().push(s.last()));
        assert(ordered(s).to_multiset() =~= s.to_multiset());
    }
}

/// The findings of `s` that stand at `span`, in their order.
pub open spec fn at_span(s: Seq<Finding>, span: Span) -> Seq<Finding>
    decreases s.len(),
{
    if s.len() == 0 {
        Seq::empty()
    } else if s.last().span == span {
        at_span(s.drop_last(), span).push(s.last())
    } else {
        at_span(s.drop_last(), span)
    }
}

proof fn lemma_inserted_at_span(s: Seq<Finding>, w: Finding, span: Span)
    requires
        in_order(s),
    ensures
        at_span(inserted(s, w), span) == at_span(s.push(w), span),
    decreases s.len(),
{
    let r = inserted(s, w);
    if s.len() == 0 || !earlier(w.span, s.last().span) {
    } else {
        let t = s.drop_last();
        assert(in_order(t)) by {
            assert forall|i: int, j: int| 0 <= i < j < t.len() implies !earlier(
                #[trigger] t[j].span,
                #[trigger] t[i].span,
            ) by {
                assert(!earlier(s[j].span, s[i].span));
            }
        }
        lemma_inserted_at_span(t, w, span);
        assert(r.drop_last() =~= inserted(t, w));
        assert(t.push(w).drop_last() =~= t);
        assert(s.push(w).drop_last() =~= s);
        assert(at_span(s, span) == if s.last().span == span {
            at_span(t, span).push(s.last())
        } else {
            at_span(t, span)
        });
        assert(at_span(r, span) == if s.last().span == span {
            at_span(inserted(t, w), span).push(s.last())
        } else {
            at_span(inserted(t, w), span)
        });
    }
}

proof fn lemma_ordered_at_span(s: Seq<Finding>, span: Span)
    ensures
        at_span(ordered(s), span) == at_span(s, span),
    decreases s.len(),
{
    if s.len() > 0 {
        let t = s.drop_last();
        lemma_ordered(t);
        lemma_ordered_at_span(t, span);
        lemma_inserted_at_span(ordered(t), s.last(), span);
        assert(ordered(t).push(s.last()).drop_last() =~= ordered(t));
    }
}

/// Warnings come in source order.
pub proof fn law_report_in_source_order(p: &Program)
    ensures
        in_order(report(p)),
{
    lemma_ordered(all_findings(program_walk(p), program_walk(p).len() as int));
}

/// Ordering neither drops nor repeats a finding, and findings on one span keep
/// the order in which the traversal met them.
pub proof fn law_report_keeps_every_finding(p: &Program, span: Span)
    ensures
        report(p).to_multiset() == all_findings(
            program_walk(p),
            program_walk(p).len() as int,
        ).to_multiset(),
        at_span(report(p), span) == at_span(
            all_findings(program_walk(p), program_walk(p).len() as int),
            span,
        ),
{
    let all = all_findings(program_walk(p), program_walk(p).len() as int);
    lemma_ordered(all);
    lemma_ordered_at_span(all, span);
}

/// A call is free of findings exactly when no argument repeats a variable; in
/// particular arguments without `ref` or `out` never count.
pub proof fn law_clean_call(args: Seq<CallArg>)
    ensures
        call_findings(args, args.len() as int).len() == 0 <==> forall|i: int|
            0 <= i < args.len() ==> !repeats(args, i),
        forall|i: int|
            0 <= i < args.len() && (args[i] is Expr || args[i] is Named) ==> !repeats(args, i),
{
    lemma_clean_prefix(args, args.len() as int);
}

proof fn lemma_clean_prefix(args: Seq<CallArg>, n: int)
    requires
        n <= args.len(),
    ensures
        call_findings(args, n).len() == 0 <==> forall|i: int| 0 <= i < n ==> !repeats(args, i),
    decreases n,
{
    if n > 0 {
        lemma_clean_prefix(args, n - 1);
    }
}

} // verus!
