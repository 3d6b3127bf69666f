//! What the findings on a program are, stated over the syntax tree.
use crate::ast::{CallArg, Expr, ExprKind, Program};
use crate::lint::tree::occurs_in_program;
use crate::lint::tree_laws::law_program_walk_is_complete;
use crate::lint::walk::program_walk;
use crate::lint::{
    all_findings, bare_name, call_args, call_findings, declares, earlier, expr_findings, handed,
    law_report_in_source_order, lemma_ordered, repeated, repeats, report, Finding,
};
use crate::token::Span;
use vstd::prelude::*;

verus! {

/// Each expression of the chain is the one in parentheses before it.
pub open spec fn is_unwrapping(chain: Seq<Expr>) -> bool {
    &&& chain.len() > 0
    &&& forall|i: int|
        0 <= i < chain.len() - 1 ==> (#[trigger] chain[i].kind matches ExprKind::Paren(x) && *x
            == chain[i + 1])
}

/// The expression is the variable `x`, alone or in parentheses.
pub open spec fn is_variable(e: Expr, x: Seq<char>) -> bool {
    exists|chain: Seq<Expr>| #[trigger]
        is_unwrapping(chain) && chain[0] == e && (chain.last().kind matches ExprKind::Ident(n) && n@
            == x)
}

/// The argument stands at `span` and lets the callee write to the variable `x`.
pub open spec fn hands_over(a: CallArg, x: Seq<char>, span: Span) -> bool {
    ||| a matches CallArg::Ref { expr, span: s } && is_variable(expr, x) && s == span
    ||| a matches CallArg::Out { name, span: s, .. } && name@ == x && s == span
}

/// The argument declares the variable that it hands over.
pub open spec fn brings_type(a: CallArg) -> bool {
    a matches CallArg::Out { ty: Some(_), .. }
}

/// The expression is a call, method call, construction or enum variant with
/// these arguments.
pub open spec fn passes(e: Expr, args: Seq<CallArg>) -> bool {
    ||| e.kind matches ExprKind::Call { args: a, .. } && a@ == args
    ||| e.kind matches ExprKind::MethodCall { args: a, .. } && a@ == args
    ||| e.kind matches ExprKind::New { args: a, .. } && a@ == args
    ||| e.kind matches ExprKind::EnumVariant { args: a, .. } && a@ == args
}

/// The argument at `i` stands at `span` and hands over `x` for at least the
/// second time.
pub open spec fn hands_over_again(args: Seq<CallArg>, i: int, x: Seq<char>, span: Span) -> bool {
    &&& 0 <= i < args.len()
    &&& hands_over(args[i], x, span)
    &&& !brings_type(args[i])
    &&& exists|j: int, s: Span| 0 <= j < i && #[trigger] hands_over(args[j], x, s)
}

/// A finding of this rule that names `x` first, in backquotes.
pub open spec fn is_on(f: Finding, x: Seq<char>, span: Span) -> bool {
    &&& f.code == "H001"@
    &&& f.span == span
    &&& f.message.len() > x.len() + 2
    &&& f.message.take(x.len() as int + 2) == "`"@ + x + "`"@
}

proof fn lemma_variable(e: Expr, x: Seq<char>)
    ensures
        bare_name(e) == Some(x) <==> is_variable(e, x),
    decreases e,
{
    match e.kind {
        ExprKind::Paren(inner) => {
            lemma_variable(*inner, x);
            if is_variable(*inner, x) {
                let rest = choose|chain: Seq<Expr>| #[trigger]
                    is_unwrapping(chain) && chain[0] == *inner && (
                    chain.last().kind matches ExprKind::Ident(n) && n@ == x);
                let chain = seq![e] + rest;
                assert(chain.last() == rest.last());
                assert forall|i: int| 0 <= i < chain.len() - 1 implies (
                #[trigger] chain[i].kind matches ExprKind::Paren(y) && *y == chain[i + 1]) by {
                    if i > 0 {
                        assert(chain[i] == rest[i - 1]);
                        assert(chain[i + 1] == rest[i]);
                    } else {
                        assert(chain[1] == rest[0]);
                    }
                }
                assert(is_unwrapping(chain));
            }
            if is_variable(e, x) {
                let chain = choose|chain: Seq<Expr>| #[trigger]
                    is_unwrapping(chain) && chain[0] == e && (
                    chain.last().kind matches ExprKind::Ident(n) && n@ == x);
                assert(chain.len() > 1);
                let rest = chain.skip(1);
                assert(chain[0].kind matches ExprKind::Paren(y) && *y == chain[1]);
                assert(rest.last() == chain.last());
                assert forall|i: int| 0 <= i < rest.len() - 1 implies (
                #[trigger] rest[i].kind matches ExprKind::Paren(y) && *y == rest[i + 1]) by {
                    assert(rest[i] == chain[i + 1]);
                }
                assert(is_unwrapping(rest));
            }
        },
        _ => {
            if bare_name(e) == Some(x) {
                let chain = seq![e];
                assert(is_unwrapping(chain) && chain[0] == e && chain.last() == e);
            }
            if is_variable(e, x) {
                let chain = choose|chain: Seq<Expr>| #[trigger]
                    is_unwrapping(chain) && chain[0] == e && (
                    chain.last().kind matches ExprKind::Ident(n) && n@ == x);
                assert(chain.len() == 1) by {
                    if chain.len() > 1 {
                        assert(chain[0].kind is Paren);
                    }
                }
            }
        },
    }
}

proof fn lemma_handed(a: CallArg, x: Seq<char>)
    ensures
        handed(a) == Some(x) <==> hands_over(a, x, a.place()),
        forall|s: Span| #[trigger] hands_over(a, x, s) ==> s == a.place(),
{
    match a {
        CallArg::Ref { expr, .. } => lemma_variable(expr, x),
        _ => {},
    }
}

proof fn lemma_repeats(args: Seq<CallArg>, i: int, x: Seq<char>)
    requires
        0 <= i < args.len(),
    ensures
        hands_over_again(args, i, x, args[i].place()) <==> repeats(args, i) && handed(args[i])
            == Some(x),
        forall|s: Span| #[trigger] hands_over_again(args, i, x, s) ==> s == args[i].place(),
{
    lemma_handed(args[i], x);
    if hands_over_again(args, i, x, args[i].place()) {
        let (j, s) = choose|j: int, s: Span| 0 <= j < i && #[trigger] hands_over(args[j], x, s);
        lemma_handed(args[j], x);
        assert(handed(args[j]) == handed(args[i]));
    }
    if repeats(args, i) && handed(args[i]) == Some(x) {
        let j = choose|j: int| 0 <= j < i && handed(#[trigger] args[j]) == handed(args[i]);
        lemma_handed(args[j], x);
        assert(hands_over(args[j], x, args[j].place()));
    }
}

proof fn lemma_on(x: Seq<char>, span: Span)
    ensures
        is_on(repeated(x, span), x, span),
{
    reveal_strlit("`");
    reveal_strlit(
        "` is passed to multiple ref/out arguments in this call; writes through one argument also change the other",
    );
    let f = repeated(x, span);
    assert(f.message.take(x.len() as int + 2) =~= "`"@ + x + "`"@);
}

/// The findings on a call are one for each argument that hands over a variable
/// again, at that argument, in the order of the arguments.
pub proof fn law_one_finding_per_repeat(args: Seq<CallArg>) -> (at: Seq<int>)
    ensures
        at.len() == call_findings(args, args.len() as int).len(),
        forall|k: int, l: int| 0 <= k < l < at.len() ==> at[k] < at[l],
        forall|k: int|
            0 <= k < at.len() ==> 0 <= #[trigger] at[k] < args.len() && exists|x: Seq<char>|
                #[trigger]
                hands_over_again(args, at[k], x, args[at[k]].place()) && is_on(
                    call_findings(args, args.len() as int)[k],
                    x,
                    args[at[k]].place(),
                ),
        forall|i: int, x: Seq<char>, s: Span| #[trigger]
            hands_over_again(args, i, x, s) ==> at.contains(i),
{
    let at = lemma_repeat_places(args, args.len() as int);
    assert forall|i: int, x: Seq<char>, s: Span| #[trigger]
        hands_over_again(args, i, x, s) implies at.contains(i) by {
        lemma_repeats(args, i, x);
    }
    at
}

proof fn lemma_repeat_places(args: Seq<CallArg>, n: int) -> (at: Seq<int>)
    requires
        0 <= n <= args.len(),
    ensures
        at.len() == call_findings(args, n).len(),
        forall|k: int, l: int| 0 <= k < l < at.len() ==> at[k] < at[l],
        forall|k: int|
            0 <= k < at.len() ==> 0 <= #[trigger] at[k] < n && exists|x: Seq<char>| #[trigger]
                hands_over_again(args, at[k], x, args[at[k]].place()) && is_on(
                    call_findings(args, n)[k],
                    x,
                    args[at[k]].place(),
                ),
        forall|i: int| 0 <= i < n && #[trigger] repeats(args, i) ==> at.contains(i),
    decreases n,
{
    if n == 0 {
        Seq::empty()
    } else {
        let before = lemma_repeat_places(args, n - 1);
        if repeats(args, n - 1) {
            let x = handed(args[n - 1])->0;
            let at = before.push(n - 1);
            lemma_repeats(args, n - 1, x);
            lemma_on(x, args[n - 1].place());
            assert forall|i: int| 0 <= i < n && #[trigger] repeats(args, i) implies at.contains(
                i,
            ) by {
                if i < n - 1 {
                    let k = choose|k: int| 0 <= k < before.len() && before[k] == i;
                    assert(at[k] == i);
                } else {
                    assert(at[before.len() as int] == i);
                }
            }
            assert forall|k: int| 0 <= k < at.len() implies 0 <= #[trigger] at[k] < n && exists|
                y: Seq<char>,
            | #[trigger]
                hands_over_again(args, at[k], y, args[at[k]].place()) && is_on(
                    call_findings(args, n)[k],
                    y,
                    args[at[k]].place(),
                ) by {
                if k < before.len() {
                    assert(at[k] == before[k]);
                    assert(call_findings(args, n)[k] == call_findings(args, n - 1)[k]);
                } else {
                    assert(hands_over_again(args, at[k], x, args[at[k]].place()));
                }
            }
            at
        } else {
            before
        }
    }
}

proof fn lemma_all_findings(es: Seq<&Expr>, n: int, f: Finding)
    requires
        0 <= n <= es.len(),
    ensures
        all_findings(es, n).contains(f) <==> exists|i: int|
            0 <= i < n && expr_findings(*#[trigger] es[i]).contains(f),
    decreases n,
{
    if n > 0 {
        let a = all_findings(es, n - 1);
        let b = expr_findings(*es[n - 1]);
        let s = all_findings(es, n);
        lemma_all_findings(es, n - 1, f);
        if s.contains(f) {
            let k = choose|k: int| 0 <= k < s.len() && s[k] == f;
            if k < a.len() {
                assert(a[k] == f);
            } else {
                assert(b[k - a.len()] == f);
            }
        }
        if a.contains(f) {
            let k = choose|k: int| 0 <= k < a.len() && a[k] == f;
            assert(s[k] == f);
        }
        if b.contains(f) {
            let k = choose|k: int| 0 <= k < b.len() && b[k] == f;
            assert(s[a.len() + k] == f);
        }
    }
}

proof fn lemma_report_holds(p: &Program, f: Finding)
    ensures
        report(p).contains(f) <==> exists|e: Expr| #[trigger]
            occurs_in_program(*p, e) && expr_findings(e).contains(f),
{
    broadcast use vstd::seq_lib::group_to_multiset_ensures;

    let es = program_walk(p);
    let all = all_findings(es, es.len() as int);
    lemma_ordered(all);
    assert(report(p).contains(f) <==> all.contains(f)) by {
        assert(report(p).to_multiset().count(f) == all.to_multiset().count(f));
    }
    lemma_all_findings(es, es.len() as int, f);
    if all.contains(f) {
        let i = choose|i: int| 0 <= i < es.len() && expr_findings(*#[trigger] es[i]).contains(f);
        assert(es.contains(es[i]));
        law_program_walk_is_complete(p, es[i]);
        assert(occurs_in_program(*p, *es[i]));
    }
    if exists|e: Expr| #[trigger] occurs_in_program(*p, e) && expr_findings(e).contains(f) {
        let e = choose|e: Expr| #[trigger]
            occurs_in_program(*p, e) && expr_findings(e).contains(f);
        law_program_walk_is_complete(p, &e);
        let i = choose|i: int| 0 <= i < es.len() && es[i] == &e;
        assert(expr_findings(*es[i]).contains(f));
    }
}

/// Wherever in a program a call stands, in either branch of an `if`, in a loop,
/// in a closure or anywhere else: an argument that hands over a variable again is
/// reported, at its own place and by the name of the variable.
pub proof fn law_every_repeat_is_reported(
    p: &Program,
    e: Expr,
    args: Seq<CallArg>,
    i: int,
    x: Seq<char>,
    span: Span,
) -> (k: int)
    requires
        occurs_in_program(*p, e),
        passes(e, args),
        hands_over_again(args, i, x, span),
    ensures
        0 <= k < report(p).len(),
        is_on(report(p)[k], x, span),
{
    let n = args.len() as int;
    let own = call_findings(args, n);
    let at = law_one_finding_per_repeat(args);
    let l = choose|l: int| 0 <= l < at.len() && at[l] == i;
    assert(0 <= at[l] < args.len());
    let y = choose|y: Seq<char>| #[trigger]
        hands_over_again(args, at[l], y, args[at[l]].place()) && is_on(
            own[l],
            y,
            args[at[l]].place(),
        );
    lemma_repeats(args, i, x);
    lemma_repeats(args, i, y);
    assert(x == y && span == args[i].place());
    assert(expr_findings(e) == own);
    assert(own.contains(own[l]));
    lemma_report_holds(p, own[l]);
    choose|k: int| 0 <= k < report(p).len() && report(p)[k] == own[l]
}

/// Nothing else is reported: behind every finding stands such an argument of a
/// call in the program.
pub proof fn law_every_finding_is_a_repeat(p: &Program, k: int)
    requires
        0 <= k < report(p).len(),
    ensures
        exists|e: Expr, args: Seq<CallArg>, i: int, x: Seq<char>|
            #![trigger passes(e, args), hands_over_again(args, i, x, report(p)[k].span)]
            occurs_in_program(*p, e) && passes(e, args) && hands_over_again(
                args,
                i,
                x,
                report(p)[k].span,
            ) && is_on(report(p)[k], x, report(p)[k].span),
{
    let f = report(p)[k];
    assert(report(p).contains(f));
    lemma_report_holds(p, f);
    let e = choose|e: Expr| #[trigger] occurs_in_program(*p, e) && expr_findings(e).contains(f);
    let args = call_args(e)->0;
    assert(passes(e, args));
    let own = call_findings(args, args.len() as int);
    let l = choose|l: int| 0 <= l < own.len() && own[l] == f;
    let at = law_one_finding_per_repeat(args);
    assert(0 <= at[l] < args.len());
    let x = choose|x: Seq<char>| #[trigger]
        hands_over_again(args, at[l], x, args[at[l]].place()) && is_on(
            own[l],
            x,
            args[at[l]].place(),
        );
    assert(passes(e, args) && hands_over_again(args, at[l], x, report(p)[k].span));
}

/// Findings are reported from top to bottom: by where they start, and of those that
/// start together the shorter one first.
pub proof fn law_findings_go_from_top_to_bottom(p: &Program, i: int, j: int)
    requires
        0 <= i < j < report(p).len(),
    ensures
        report(p)[i].span.start <= report(p)[j].span.start,
        report(p)[i].span.start == report(p)[j].span.start ==> report(p)[i].span.end
            <= report(p)[j].span.end,
{
    law_report_in_source_order(p);
    assert(!earlier(report(p)[j].span, report(p)[i].span));
}

} // verus!
