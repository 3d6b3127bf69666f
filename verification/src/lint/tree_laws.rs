//! The traversals against the syntax tree: they meet everything that stands in
//! it, once, in the order of the source, and nothing else.
use crate::ast::{
    Block, CallArg, ClosureBody, Constructor, ConversionDecl, DeferInner, Destructor,
    EnumVariantDecl, Expr, ExprKind, ExtensionMember, Function, InterpolatedPart, Item, MatchArm,
    MatchArmBody, OperatorDecl, Param, Program, PropertyDecl, Stmt, StructField, TraitMethod, Type,
};
use crate::lint::tree::{
    all_settle, all_settled_from, args_in, arms_in, constructors_in, conversions_in, declared_in,
    declared_parts, destructors_in, entries_in, exprs_in, fields_in, forest, functions_in, inits_in,
    items_in, lemma_both, lemma_given_occurs, lemma_node, lemma_none, lemma_one, lemma_push,
    lemma_settled_holds, maybe_block, maybe_boxed, maybe_expr, maybe_type, members_in, occurs,
    occurs_in_program, operators_in, params_in, parts, pieces_in, preorder, properties_in,
    settled_from, settles, signatures_in, stmts_in, types_in, variants_in, Node,
};
use crate::lint::walk::{
    arg_walk, args_walk, arm_walk, arms_walk, block_names, block_walk, boxed_walk, constructor_walk,
    constructors_names, constructors_walk, conversion_names, conversions_names, conversions_walk,
    destructors_names, destructors_walk, entries_walk, expr_walk, exprs_walk, fields_names,
    fields_walk, function_names, function_walk, functions_names, functions_walk, inits_walk,
    item_names, item_walk, items_walk, kind_walk, member_names, member_walk, members_names,
    members_walk, operator_names, operator_walk, operators_names, operators_walk, opt_block_names,
    opt_block_walk, opt_ty_names, opt_walk, params_names, params_walk, part_walk, parts_walk,
    program_walk, properties_names, properties_walk, property_names, property_walk,
    signatures_names, signatures_walk, stmt_names, stmt_walk, stmts_names, stmts_walk, ty_names,
    tys_names, variants_names, variants_walk,
};
use crate::text::base_name;
use crate::token::Span;
use vstd::prelude::*;

verus! {

/// A node's parts, as far as expressions stand in them.
pub open spec fn down() -> spec_fn(Node) -> Seq<Node> {
    |n: Node| parts(n)
}

/// The expression that a node is.
pub open spec fn here<'a>() -> spec_fn(Node) -> Seq<&'a Expr> {
    |n: Node| match n {
        Node::Expr(e) => seq![&e],
        _ => Seq::empty(),
    }
}

/// A node's parts, as far as declared types stand in them.
pub open spec fn declared() -> spec_fn(Node) -> Seq<Node> {
    |n: Node| declared_parts(n)
}

/// The name that a type is written with, its qualifier aside.
pub open spec fn name_of_type(t: Type) -> Option<Seq<char>> {
    match t {
        Type::Named(n, _) => Some(base_name(n@)),
        Type::Generic(n, _, _) => Some(base_name(n@)),
        _ => None,
    }
}

/// The name that a node mentions as a type.
pub open spec fn names_here() -> spec_fn(Node) -> Seq<Seq<char>> {
    |n: Node| match n {
        Node::Type(t) => match name_of_type(t) {
            Some(x) => seq![x],
            None => Seq::empty(),
        },
        _ => Seq::empty(),
    }
}

// ---------------------------------------------------------------------------
// Expressions, part by part
// ---------------------------------------------------------------------------

spec fn met_is<'a>(n: Node, s: Seq<&'a Expr>) -> bool {
    settles(here(), down(), n, s)
}

spec fn met_are<'a>(ns: Seq<Node>, s: Seq<&'a Expr>) -> bool {
    all_settle(here(), down(), ns, s)
}

proof fn met_none<'a>()
    ensures
        met_are(Seq::empty(), Seq::<&'a Expr>::empty()),
{
    lemma_none(here(), down());
}

proof fn met_one<'a>(n: Node, s: Seq<&'a Expr>)
    requires
        met_is(n, s),
    ensures
        met_are(seq![n], s),
{
    lemma_one(here(), down(), n, s);
}

proof fn met_push<'a>(ns: Seq<Node>, s: Seq<&'a Expr>, n: Node, t: Seq<&'a Expr>)
    requires
        met_are(ns, s),
        met_is(n, t),
    ensures
        met_are(ns.push(n), s + t),
{
    lemma_push(here(), down(), ns, s, n, t);
}

proof fn met_two<'a>(n: Node, s: Seq<&'a Expr>, m: Node, t: Seq<&'a Expr>)
    requires
        met_is(n, s),
        met_is(m, t),
    ensures
        met_are(seq![n, m], s + t),
{
    met_one(n, s);
    met_push(seq![n], s, m, t);
    assert(seq![n].push(m) =~= seq![n, m]);
}

proof fn met_both<'a>(ns: Seq<Node>, s: Seq<&'a Expr>, ms: Seq<Node>, t: Seq<&'a Expr>)
    requires
        met_are(ns, s),
        met_are(ms, t),
    ensures
        met_are(ns + ms, s + t),
{
    lemma_both(here(), down(), ns, s, ms, t);
}

/// A node that is no expression meets what its parts meet.
proof fn met_node<'a>(n: Node, s: Seq<&'a Expr>)
    requires
        !(n is Expr),
        met_are(parts(n), s),
    ensures
        met_is(n, s),
{
    lemma_node(here(), down(), n, s);
    assert(here()(n) + s =~= s);
}

proof fn met_exprs(es: Seq<Expr>)
    ensures
        met_are(exprs_in(es), exprs_walk(es)),
    decreases es,
{
    if es.len() == 0 {
        met_none();
        assert(exprs_in(es) =~= Seq::empty());
    } else {
        met_exprs(es.drop_last());
        met_expr(&es.last());
        met_push(exprs_in(es.drop_last()), exprs_walk(es.drop_last()), Node::Expr(es.last()), expr_walk(&es.last()));
        assert(exprs_in(es.drop_last()).push(Node::Expr(es.last())) =~= exprs_in(es));
    }
}

proof fn met_args(es: Seq<CallArg>)
    ensures
        met_are(args_in(es), args_walk(es)),
    decreases es,
{
    if es.len() == 0 {
        met_none();
        assert(args_in(es) =~= Seq::empty());
    } else {
        met_args(es.drop_last());
        met_arg(&es.last());
        met_push(args_in(es.drop_last()), args_walk(es.drop_last()), Node::Arg(es.last()), arg_walk(&es.last()));
        assert(args_in(es.drop_last()).push(Node::Arg(es.last())) =~= args_in(es));
    }
}

proof fn met_entries(es: Seq<(Expr, Expr)>)
    ensures
        met_are(entries_in(es), entries_walk(es)),
    decreases es,
{
    if es.len() == 0 {
        met_none();
        assert(entries_in(es) =~= Seq::empty());
    } else {
        met_entries(es.drop_last());
        met_expr(&es.last().0);
        met_expr(&es.last().1);
        met_two(
            Node::Expr(es.last().0),
            expr_walk(&es.last().0),
            Node::Expr(es.last().1),
            expr_walk(&es.last().1),
        );
        met_node(Node::Entry(es.last()), expr_walk(&es.last().0) + expr_walk(&es.last().1));
        met_push(entries_in(es.drop_last()), entries_walk(es.drop_last()), Node::Entry(es.last()), expr_walk(&es.last().0) + expr_walk(&es.last().1));
        assert(entries_in(es.drop_last()).push(Node::Entry(es.last())) =~= entries_in(es));
    }
}

proof fn met_inits(es: Seq<(String, Span, Expr)>)
    ensures
        met_are(inits_in(es), inits_walk(es)),
    decreases es,
{
    if es.len() == 0 {
        met_none();
        assert(inits_in(es) =~= Seq::empty());
    } else {
        met_inits(es.drop_last());
        met_expr(&es.last().2);
        met_one(Node::Expr(es.last().2), expr_walk(&es.last().2));
        met_node(Node::Init(es.last()), expr_walk(&es.last().2));
        met_push(inits_in(es.drop_last()), inits_walk(es.drop_last()), Node::Init(es.last()), expr_walk(&es.last().2));
        assert(inits_in(es.drop_last()).push(Node::Init(es.last())) =~= inits_in(es));
    }
}

proof fn met_pieces(es: Seq<InterpolatedPart>)
    ensures
        met_are(pieces_in(es), parts_walk(es)),
    decreases es,
{
    if es.len() == 0 {
        met_none();
        assert(pieces_in(es) =~= Seq::empty());
    } else {
        met_pieces(es.drop_last());
        met_piece(&es.last());
        met_push(pieces_in(es.drop_last()), parts_walk(es.drop_last()), Node::Piece(es.last()), part_walk(&es.last()));
        assert(pieces_in(es.drop_last()).push(Node::Piece(es.last())) =~= pieces_in(es));
    }
}

proof fn met_arms(es: Seq<MatchArm>)
    ensures
        met_are(arms_in(es), arms_walk(es)),
    decreases es,
{
    if es.len() == 0 {
        met_none();
        assert(arms_in(es) =~= Seq::empty());
    } else {
        met_arms(es.drop_last());
        met_arm(&es.last());
        met_push(arms_in(es.drop_last()), arms_walk(es.drop_last()), Node::Arm(es.last()), arm_walk(&es.last()));
        assert(arms_in(es.drop_last()).push(Node::Arm(es.last())) =~= arms_in(es));
    }
}

proof fn met_params(es: Seq<Param>)
    ensures
        met_are(params_in(es), params_walk(es)),
    decreases es,
{
    if es.len() == 0 {
        met_none();
        assert(params_in(es) =~= Seq::empty());
    } else {
        met_params(es.drop_last());
        met_maybe(&es.last().default);
        met_node(Node::Param(es.last()), opt_walk(&es.last().default));
        met_push(params_in(es.drop_last()), params_walk(es.drop_last()), Node::Param(es.last()), opt_walk(&es.last().default));
        assert(params_in(es.drop_last()).push(Node::Param(es.last())) =~= params_in(es));
    }
}

proof fn met_stmts(es: Seq<Stmt>)
    ensures
        met_are(stmts_in(es), stmts_walk(es)),
    decreases es,
{
    if es.len() == 0 {
        met_none();
        assert(stmts_in(es) =~= Seq::empty());
    } else {
        met_stmts(es.drop_last());
        met_stmt(&es.last());
        met_push(stmts_in(es.drop_last()), stmts_walk(es.drop_last()), Node::Stmt(es.last()), stmt_walk(&es.last()));
        assert(stmts_in(es.drop_last()).push(Node::Stmt(es.last())) =~= stmts_in(es));
    }
}

proof fn met_maybe(o: &Option<Expr>)
    ensures
        met_are(maybe_expr(*o), opt_walk(o)),
    decreases o,
{
    match o {
        Some(e) => {
            met_expr(e);
            met_one(Node::Expr(*e), expr_walk(e));
        },
        None => met_none(),
    }
}

proof fn met_boxed(o: &Option<Box<Expr>>)
    ensures
        met_are(maybe_boxed(*o), boxed_walk(o)),
    decreases o,
{
    match o {
        Some(e) => {
            met_expr(&**e);
            met_one(Node::Expr(**e), expr_walk(&**e));
        },
        None => met_none(),
    }
}

proof fn met_arg(a: &CallArg)
    ensures
        met_is(Node::Arg(*a), arg_walk(a)),
    decreases a,
{
    match a {
        CallArg::Expr(e) => {
            met_expr(e);
            met_one(Node::Expr(*e), expr_walk(e));
        },
        CallArg::Named { value, .. } => {
            met_expr(value);
            met_one(Node::Expr(*value), expr_walk(value));
        },
        CallArg::Ref { expr, .. } => {
            met_expr(expr);
            met_one(Node::Expr(*expr), expr_walk(expr));
        },
        CallArg::Out { .. } => met_none(),
    }
    met_node(Node::Arg(*a), arg_walk(a));
}

proof fn met_piece(p: &InterpolatedPart)
    ensures
        met_is(Node::Piece(*p), part_walk(p)),
    decreases p,
{
    match p {
        InterpolatedPart::Expr(e) => {
            met_expr(e);
            met_one(Node::Expr(*e), expr_walk(e));
        },
        InterpolatedPart::Text(_) => met_none(),
    }
    met_node(Node::Piece(*p), part_walk(p));
}

proof fn met_arm(a: &MatchArm)
    ensures
        met_is(Node::Arm(*a), arm_walk(a)),
    decreases a,
{
    met_maybe(&a.guard);
    match &a.body {
        MatchArmBody::Expr(e) => {
            met_expr(e);
            met_one(Node::Expr(*e), expr_walk(e));
            met_both(maybe_expr(a.guard), opt_walk(&a.guard), seq![Node::Expr(*e)], expr_walk(e));
        },
        MatchArmBody::Block(b) => {
            met_block(b);
            met_one(Node::Block(*b), block_walk(b));
            met_both(maybe_expr(a.guard), opt_walk(&a.guard), seq![Node::Block(*b)], block_walk(b));
        },
    }
    met_node(Node::Arm(*a), arm_walk(a));
}

proof fn met_block(b: &Block)
    ensures
        met_is(Node::Block(*b), block_walk(b)),
    decreases b,
{
    met_stmts(b.stmts@);
    met_node(Node::Block(*b), block_walk(b));
}

proof fn met_maybe_block(o: &Option<Block>)
    ensures
        met_are(maybe_block(*o), opt_block_walk(o)),
    decreases o,
{
    match o {
        Some(b) => {
            met_block(b);
            met_one(Node::Block(*b), block_walk(b));
        },
        None => met_none(),
    }
}

proof fn met_stmt(s: &Stmt)
    ensures
        met_is(Node::Stmt(*s), stmt_walk(s)),
    decreases s,
{
    match s {
        Stmt::VarDecl(d) => met_maybe(&d.init),
        Stmt::Const(d) => {
            met_expr(&d.init);
            met_one(Node::Expr(d.init), expr_walk(&d.init));
        },
        Stmt::Destructure(d) => {
            met_expr(&d.expr);
            met_one(Node::Expr(d.expr), expr_walk(&d.expr));
        },
        Stmt::Expr(x) => {
            met_expr(&x.expr);
            met_one(Node::Expr(x.expr), expr_walk(&x.expr));
        },
        Stmt::Return(r) => met_maybe(&r.value),
        Stmt::Delete(d) => {
            met_expr(&d.target);
            met_one(Node::Expr(d.target), expr_walk(&d.target));
        },
        Stmt::Block(b) => {
            met_block(b);
            met_one(Node::Block(*b), block_walk(b));
        },
        Stmt::If(i) => {
            met_expr(&i.cond);
            met_block(&i.then_block);
            met_maybe_block(&i.else_block);
            met_two(
                Node::Expr(i.cond),
                expr_walk(&i.cond),
                Node::Block(i.then_block),
                block_walk(&i.then_block),
            );
            met_both(
                seq![Node::Expr(i.cond), Node::Block(i.then_block)],
                expr_walk(&i.cond) + block_walk(&i.then_block),
                maybe_block(i.else_block),
                opt_block_walk(&i.else_block),
            );
        },
        Stmt::While(w) => {
            met_expr(&w.cond);
            met_block(&w.body);
            met_two(Node::Expr(w.cond), expr_walk(&w.cond), Node::Block(w.body), block_walk(&w.body));
        },
        Stmt::Loop(l) => {
            met_block(&l.body);
            met_one(Node::Block(l.body), block_walk(&l.body));
        },
        Stmt::For(f) => {
            met_expr(&f.iter);
            met_block(&f.body);
            met_two(Node::Expr(f.iter), expr_walk(&f.iter), Node::Block(f.body), block_walk(&f.body));
        },
        Stmt::Assert(a) => {
            met_expr(&a.cond);
            met_one(Node::Expr(a.cond), expr_walk(&a.cond));
            met_maybe(&a.message);
            met_both(
                seq![Node::Expr(a.cond)],
                expr_walk(&a.cond),
                maybe_expr(a.message),
                opt_walk(&a.message),
            );
        },
        Stmt::Defer(d) => match &d.inner {
            DeferInner::Expr(x) => {
                met_expr(x);
                met_one(Node::Expr(*x), expr_walk(x));
            },
            DeferInner::Block(b) => {
                met_block(b);
                met_one(Node::Block(*b), block_walk(b));
            },
        },
        Stmt::Scope(b) => {
            met_block(b);
            met_one(Node::Block(*b), block_walk(b));
        },
        Stmt::Yield(_) | Stmt::Break(_) | Stmt::Continue(_) => met_none(),
    }
    met_node(Node::Stmt(*s), stmt_walk(s));
}

proof fn met_expr(e: &Expr)
    ensures
        met_is(Node::Expr(*e), expr_walk(e)),
    decreases e,
{
    match &e.kind {
        ExprKind::Paren(x) => {
            met_expr(&**x);
            met_one(Node::Expr(**x), expr_walk(&**x));
        },
        ExprKind::Unary { expr: x, .. } => {
            met_expr(&**x);
            met_one(Node::Expr(**x), expr_walk(&**x));
        },
        ExprKind::Postfix { expr: x, .. } => {
            met_expr(&**x);
            met_one(Node::Expr(**x), expr_walk(&**x));
        },
        ExprKind::Binary { lhs, rhs, .. } => {
            met_expr(&**lhs);
            met_expr(&**rhs);
            met_two(Node::Expr(**lhs), expr_walk(&**lhs), Node::Expr(**rhs), expr_walk(&**rhs));
        },
        ExprKind::Assign { lhs, value } => {
            met_expr(&**lhs);
            met_expr(&**value);
            met_two(Node::Expr(**lhs), expr_walk(&**lhs), Node::Expr(**value), expr_walk(&**value));
        },
        ExprKind::CompoundAssign { lhs, value, .. } => {
            met_expr(&**lhs);
            met_expr(&**value);
            met_two(Node::Expr(**lhs), expr_walk(&**lhs), Node::Expr(**value), expr_walk(&**value));
        },
        ExprKind::Conditional { cond, then_branch, else_branch } => {
            met_expr(&**cond);
            met_expr(&**then_branch);
            met_expr(&**else_branch);
            let a = Node::Expr(**cond);
            let b = Node::Expr(**then_branch);
            let c = Node::Expr(**else_branch);
            met_two(a, expr_walk(&**cond), b, expr_walk(&**then_branch));
            met_push(
                seq![a, b],
                expr_walk(&**cond) + expr_walk(&**then_branch),
                c,
                expr_walk(&**else_branch),
            );
            assert(seq![a, b].push(c) =~= seq![a, b, c]);
        },
        ExprKind::Range { start, end, .. } => {
            met_boxed(start);
            met_boxed(end);
            met_both(maybe_boxed(*start), boxed_walk(start), maybe_boxed(*end), boxed_walk(end));
        },
        ExprKind::Call { args, .. } => met_args(args@),
        ExprKind::New { args, .. } => met_args(args@),
        ExprKind::EnumVariant { args, .. } => met_args(args@),
        ExprKind::Await { task, .. } => {
            met_expr(&**task);
            met_one(Node::Expr(**task), expr_walk(&**task));
        },
        ExprKind::Spawn { task, .. } => {
            met_expr(&**task);
            met_one(Node::Expr(**task), expr_walk(&**task));
        },
        ExprKind::MethodCall { object, args, .. } => {
            met_expr(&**object);
            met_one(Node::Expr(**object), expr_walk(&**object));
            met_args(args@);
            met_both(
                seq![Node::Expr(**object)],
                expr_walk(&**object),
                args_in(args@),
                args_walk(args@),
            );
        },
        ExprKind::MemberAccess { object, .. } => {
            met_expr(&**object);
            met_one(Node::Expr(**object), expr_walk(&**object));
        },
        ExprKind::NullableMemberAccess { object, .. } => {
            met_expr(&**object);
            met_one(Node::Expr(**object), expr_walk(&**object));
        },
        ExprKind::Index { object, index } => {
            met_expr(&**object);
            met_expr(&**index);
            met_two(Node::Expr(**object), expr_walk(&**object), Node::Expr(**index), expr_walk(&**index));
        },
        ExprKind::Slice { object, start, end } => {
            met_expr(&**object);
            met_one(Node::Expr(**object), expr_walk(&**object));
            met_boxed(start);
            met_boxed(end);
            met_both(
                seq![Node::Expr(**object)],
                expr_walk(&**object),
                maybe_boxed(*start),
                boxed_walk(start),
            );
            met_both(
                seq![Node::Expr(**object)] + maybe_boxed(*start),
                expr_walk(&**object) + boxed_walk(start),
                maybe_boxed(*end),
                boxed_walk(end),
            );
        },
        ExprKind::Tuple(es) => met_exprs(es@),
        ExprKind::ArrayLit(es) => met_exprs(es@),
        ExprKind::MapLit { entries, .. } => met_entries(entries@),
        ExprKind::StructLit { fields, .. } => met_inits(fields@),
        ExprKind::InterpolatedString(ps, _) => met_pieces(ps@),
        ExprKind::Match(m) => {
            met_expr(&*m.scrutinee);
            met_one(Node::Expr(*m.scrutinee), expr_walk(&*m.scrutinee));
            met_arms(m.arms@);
            met_both(
                seq![Node::Expr(*m.scrutinee)],
                expr_walk(&*m.scrutinee),
                arms_in(m.arms@),
                arms_walk(m.arms@),
            );
        },
        ExprKind::Closure { params, body, .. } => {
            met_params(params@);
            match &**body {
                ClosureBody::Expr(x) => {
                    met_expr(x);
                    met_one(Node::Expr(*x), expr_walk(x));
                    met_both(
                        params_in(params@),
                        params_walk(params@),
                        seq![Node::Expr(*x)],
                        expr_walk(x),
                    );
                },
                ClosureBody::Block(b) => {
                    met_block(b);
                    met_one(Node::Block(*b), block_walk(b));
                    met_both(
                        params_in(params@),
                        params_walk(params@),
                        seq![Node::Block(*b)],
                        block_walk(b),
                    );
                },
            }
        },
        ExprKind::IntLit(_)
        | ExprKind::FloatLit(_)
        | ExprKind::BoolLit(_)
        | ExprKind::StringLit(_)
        | ExprKind::CharLit(_)
        | ExprKind::Ident(_)
        | ExprKind::This
        | ExprKind::Super
        | ExprKind::Null
        | ExprKind::VecEmpty(_) => met_none(),
    }
    assert(met_are(parts(Node::Expr(*e)), kind_walk(&e.kind)));
    lemma_node(here(), down(), Node::Expr(*e), kind_walk(&e.kind));
}

proof fn met_function(f: &Function)
    ensures
        met_is(Node::Function(*f), function_walk(f)),
{
    met_params(f.params@);
    met_block(&f.body);
    met_push(params_in(f.params@), params_walk(f.params@), Node::Block(f.body), block_walk(&f.body));
    met_node(Node::Function(*f), function_walk(f));
}

proof fn met_property(p: &PropertyDecl)
    ensures
        met_is(Node::Property(*p), property_walk(p)),
{
    met_maybe_block(&p.getter);
    match &p.setter {
        Some(s) => {
            met_block(&s.1);
            met_one(Node::Block(s.1), block_walk(&s.1));
            met_both(
                maybe_block(p.getter),
                opt_block_walk(&p.getter),
                seq![Node::Block(s.1)],
                block_walk(&s.1),
            );
        },
        None => {
            met_none();
            met_both(
                maybe_block(p.getter),
                opt_block_walk(&p.getter),
                Seq::empty(),
                Seq::empty(),
            );
        },
    }
    met_node(Node::Property(*p), property_walk(p));
}

proof fn met_constructor(c: &Constructor)
    ensures
        met_is(Node::Constructor(*c), constructor_walk(c)),
{
    met_params(c.params@);
    met_maybe_block(&c.body);
    met_both(params_in(c.params@), params_walk(c.params@), maybe_block(c.body), opt_block_walk(&c.body));
    met_node(Node::Constructor(*c), constructor_walk(c));
}

proof fn met_operator(o: &OperatorDecl)
    ensures
        met_is(Node::Operator(*o), operator_walk(o)),
{
    met_params(o.params@);
    met_block(&o.body);
    met_push(params_in(o.params@), params_walk(o.params@), Node::Block(o.body), block_walk(&o.body));
    met_node(Node::Operator(*o), operator_walk(o));
}

proof fn met_field(f: &StructField)
    ensures
        met_is(Node::Field(*f), opt_walk(&f.default)),
{
    met_maybe(&f.default);
    met_node(Node::Field(*f), opt_walk(&f.default));
}

proof fn met_conversion(c: &ConversionDecl)
    ensures
        met_is(Node::Conversion(*c), block_walk(&c.body)),
{
    met_block(&c.body);
    met_one(Node::Block(c.body), block_walk(&c.body));
    met_node(Node::Conversion(*c), block_walk(&c.body));
}

proof fn met_destructor(d: &Destructor)
    ensures
        met_is(Node::Destructor(*d), block_walk(&d.body)),
{
    met_block(&d.body);
    met_one(Node::Block(d.body), block_walk(&d.body));
    met_node(Node::Destructor(*d), block_walk(&d.body));
}

proof fn met_member(m: &ExtensionMember)
    ensures
        met_is(Node::Member(*m), member_walk(m)),
{
    match m {
        ExtensionMember::Function(f) => {
            met_function(f);
            met_one(Node::Function(*f), function_walk(f));
        },
        ExtensionMember::Field(f) => {
            met_field(f);
            met_one(Node::Field(*f), opt_walk(&f.default));
        },
        ExtensionMember::Property(p) => {
            met_property(p);
            met_one(Node::Property(*p), property_walk(p));
        },
        ExtensionMember::Operator(o) => {
            met_operator(o);
            met_one(Node::Operator(*o), operator_walk(o));
        },
        ExtensionMember::Conversion(c) => {
            met_conversion(c);
            met_one(Node::Conversion(*c), block_walk(&c.body));
        },
    }
    met_node(Node::Member(*m), member_walk(m));
}

proof fn met_fields(es: Seq<StructField>)
    ensures
        met_are(fields_in(es), fields_walk(es)),
    decreases es,
{
    if es.len() == 0 {
        met_none();
        assert(fields_in(es) =~= Seq::empty());
    } else {
        met_fields(es.drop_last());
        met_field(&es.last());
        met_push(fields_in(es.drop_last()), fields_walk(es.drop_last()), Node::Field(es.last()), opt_walk(&es.last().default));
        assert(fields_in(es.drop_last()).push(Node::Field(es.last())) =~= fields_in(es));
    }
}

proof fn met_functions(es: Seq<Function>)
    ensures
        met_are(functions_in(es), functions_walk(es)),
    decreases es,
{
    if es.len() == 0 {
        met_none();
        assert(functions_in(es) =~= Seq::empty());
    } else {
        met_functions(es.drop_last());
        met_function(&es.last());
        met_push(functions_in(es.drop_last()), functions_walk(es.drop_last()), Node::Function(es.last()), function_walk(&es.last()));
        assert(functions_in(es.drop_last()).push(Node::Function(es.last())) =~= functions_in(es));
    }
}

proof fn met_constructors(es: Seq<Constructor>)
    ensures
        met_are(constructors_in(es), constructors_walk(es)),
    decreases es,
{
    if es.len() == 0 {
        met_none();
        assert(constructors_in(es) =~= Seq::empty());
    } else {
        met_constructors(es.drop_last());
        met_constructor(&es.last());
        met_push(constructors_in(es.drop_last()), constructors_walk(es.drop_last()), Node::Constructor(es.last()), constructor_walk(&es.last()));
        assert(constructors_in(es.drop_last()).push(Node::Constructor(es.last())) =~= constructors_in(es));
    }
}

proof fn met_destructors(es: Seq<Destructor>)
    ensures
        met_are(destructors_in(es), destructors_walk(es)),
    decreases es,
{
    if es.len() == 0 {
        met_none();
        assert(destructors_in(es) =~= Seq::empty());
    } else {
        met_destructors(es.drop_last());
        met_destructor(&es.last());
        met_push(destructors_in(es.drop_last()), destructors_walk(es.drop_last()), Node::Destructor(es.last()), block_walk(&es.last().body));
        assert(destructors_in(es.drop_last()).push(Node::Destructor(es.last())) =~= destructors_in(es));
    }
}

proof fn met_properties(es: Seq<PropertyDecl>)
    ensures
        met_are(properties_in(es), properties_walk(es)),
    decreases es,
{
    if es.len() == 0 {
        met_none();
        assert(properties_in(es) =~= Seq::empty());
    } else {
        met_properties(es.drop_last());
        met_property(&es.last());
        met_push(properties_in(es.drop_last()), properties_walk(es.drop_last()), Node::Property(es.last()), property_walk(&es.last()));
        assert(properties_in(es.drop_last()).push(Node::Property(es.last())) =~= properties_in(es));
    }
}

proof fn met_operators(es: Seq<OperatorDecl>)
    ensures
        met_are(operators_in(es), operators_walk(es)),
    decreases es,
{
    if es.len() == 0 {
        met_none();
        assert(operators_in(es) =~= Seq::empty());
    } else {
        met_operators(es.drop_last());
        met_operator(&es.last());
        met_push(operators_in(es.drop_last()), operators_walk(es.drop_last()), Node::Operator(es.last()), operator_walk(&es.last()));
        assert(operators_in(es.drop_last()).push(Node::Operator(es.last())) =~= operators_in(es));
    }
}

proof fn met_conversions(es: Seq<ConversionDecl>)
    ensures
        met_are(conversions_in(es), conversions_walk(es)),
    decreases es,
{
    if es.len() == 0 {
        met_none();
        assert(conversions_in(es) =~= Seq::empty());
    } else {
        met_conversions(es.drop_last());
        met_conversion(&es.last());
        met_push(conversions_in(es.drop_last()), conversions_walk(es.drop_last()), Node::Conversion(es.last()), block_walk(&es.last().body));
        assert(conversions_in(es.drop_last()).push(Node::Conversion(es.last())) =~= conversions_in(es));
    }
}

proof fn met_members(es: Seq<ExtensionMember>)
    ensures
        met_are(members_in(es), members_walk(es)),
    decreases es,
{
    if es.len() == 0 {
        met_none();
        assert(members_in(es) =~= Seq::empty());
    } else {
        met_members(es.drop_last());
        met_member(&es.last());
        met_push(members_in(es.drop_last()), members_walk(es.drop_last()), Node::Member(es.last()), member_walk(&es.last()));
        assert(members_in(es.drop_last()).push(Node::Member(es.last())) =~= members_in(es));
    }
}

proof fn met_variants(es: Seq<EnumVariantDecl>)
    ensures
        met_are(variants_in(es), variants_walk(es)),
    decreases es,
{
    if es.len() == 0 {
        met_none();
        assert(variants_in(es) =~= Seq::empty());
    } else {
        met_variants(es.drop_last());
        let v = es.last();
        let own = params_walk(v.payload_params@) + opt_walk(&v.discriminant);
        met_params(v.payload_params@);
        met_maybe(&v.discriminant);
        met_both(
            params_in(v.payload_params@),
            params_walk(v.payload_params@),
            maybe_expr(v.discriminant),
            opt_walk(&v.discriminant),
        );
        met_node(Node::Variant(v), own);
        met_push(variants_in(es.drop_last()), variants_walk(es.drop_last()), Node::Variant(v), own);
        assert(variants_in(es.drop_last()).push(Node::Variant(v)) =~= variants_in(es));
    }
}

proof fn met_signatures(es: Seq<TraitMethod>)
    ensures
        met_are(signatures_in(es), signatures_walk(es)),
    decreases es,
{
    if es.len() == 0 {
        met_none();
        assert(signatures_in(es) =~= Seq::empty());
    } else {
        met_signatures(es.drop_last());
        met_params(es.last().params@);
        met_node(Node::Signature(es.last()), params_walk(es.last().params@));
        met_push(signatures_in(es.drop_last()), signatures_walk(es.drop_last()), Node::Signature(es.last()), params_walk(es.last().params@));
        assert(signatures_in(es.drop_last()).push(Node::Signature(es.last())) =~= signatures_in(es));
    }
}

proof fn met_item(i: &Item)
    ensures
        met_is(Node::Item(*i), item_walk(i)),
    decreases i,
{
    match i {
        Item::Function(f) => {
            met_function(f);
            met_one(Node::Function(*f), function_walk(f));
        },
        Item::Init(b) => {
            met_block(b);
            met_one(Node::Block(*b), block_walk(b));
        },
        Item::Var(d) => met_maybe(&d.init),
        Item::Const(d) => {
            met_expr(&d.init);
            met_one(Node::Expr(d.init), expr_walk(&d.init));
        },
        Item::Attributed { item, .. } => {
            met_item(&**item);
            met_one(Node::Item(**item), item_walk(&**item));
        },
        Item::Struct(s) => met_fields(s.fields@),
        Item::Class(c) => {
            met_fields(c.fields@);
            met_functions(c.methods@);
            met_constructors(c.constructors@);
            met_destructors(c.destructors@);
            met_properties(c.properties@);
            met_operators(c.operators@);
            met_conversions(c.conversions@);
            met_both(fields_in(c.fields@), fields_walk(c.fields@), functions_in(c.methods@), functions_walk(c.methods@));
            met_both(fields_in(c.fields@) + functions_in(c.methods@), fields_walk(c.fields@) + functions_walk(c.methods@), constructors_in(c.constructors@), constructors_walk(c.constructors@));
            met_both(fields_in(c.fields@) + functions_in(c.methods@) + constructors_in(c.constructors@), fields_walk(c.fields@) + functions_walk(c.methods@) + constructors_walk(c.constructors@), destructors_in(c.destructors@), destructors_walk(c.destructors@));
            met_both(fields_in(c.fields@) + functions_in(c.methods@) + constructors_in(c.constructors@) + destructors_in(c.destructors@), fields_walk(c.fields@) + functions_walk(c.methods@) + constructors_walk(c.constructors@) + destructors_walk(c.destructors@), properties_in(c.properties@), properties_walk(c.properties@));
            met_both(fields_in(c.fields@) + functions_in(c.methods@) + constructors_in(c.constructors@) + destructors_in(c.destructors@) + properties_in(c.properties@), fields_walk(c.fields@) + functions_walk(c.methods@) + constructors_walk(c.constructors@) + destructors_walk(c.destructors@) + properties_walk(c.properties@), operators_in(c.operators@), operators_walk(c.operators@));
            met_both(fields_in(c.fields@) + functions_in(c.methods@) + constructors_in(c.constructors@) + destructors_in(c.destructors@) + properties_in(c.properties@) + operators_in(c.operators@), fields_walk(c.fields@) + functions_walk(c.methods@) + constructors_walk(c.constructors@) + destructors_walk(c.destructors@) + properties_walk(c.properties@) + operators_walk(c.operators@), conversions_in(c.conversions@), conversions_walk(c.conversions@));
        },
        Item::Extension(x) => met_members(x.members@),
        Item::Enum(e) => met_variants(e.variants@),
        Item::Trait(t) => met_signatures(t.methods@),
        Item::Import(_) | Item::Typedef(_) | Item::Distinct(_) | Item::Extern(_) => met_none(),
    }
    met_node(Node::Item(*i), item_walk(i));
}

proof fn met_items(es: Seq<Item>)
    ensures
        met_are(items_in(es), items_walk(es)),
    decreases es,
{
    if es.len() == 0 {
        met_none();
        assert(items_in(es) =~= Seq::empty());
    } else {
        met_items(es.drop_last());
        met_item(&es.last());
        met_push(items_in(es.drop_last()), items_walk(es.drop_last()), Node::Item(es.last()), item_walk(&es.last()));
        assert(items_in(es.drop_last()).push(Node::Item(es.last())) =~= items_in(es));
    }
}

// ---------------------------------------------------------------------------
// Laws on expressions
// ---------------------------------------------------------------------------

/// The traversal of an item is the item's tree read from top to bottom and from
/// left to right: each expression comes once for each place it stands in, in the
/// order of the source.
pub proof fn law_item_is_walked_in_preorder(i: &Item) -> (depth: nat)
    ensures
        forall|k: nat| k >= depth ==> #[trigger] preorder(here(), down(), Node::Item(*i), k)
            == item_walk(i),
{
    met_item(i);
    choose|d: nat| #[trigger] settled_from(here(), down(), Node::Item(*i), item_walk(i), d)
}

/// The same of a function.
pub proof fn law_function_is_walked_in_preorder(f: &Function) -> (depth: nat)
    ensures
        forall|k: nat| k >= depth ==> #[trigger] preorder(here(), down(), Node::Function(*f), k)
            == function_walk(f),
{
    met_function(f);
    choose|d: nat| #[trigger] settled_from(here(), down(), Node::Function(*f), function_walk(f), d)
}

/// The same of a program, item after item.
pub proof fn law_program_is_walked_in_preorder(p: &Program) -> (depth: nat)
    ensures
        forall|k: nat| k >= depth ==> #[trigger] forest(here(), down(), items_in(p.items@), k)
            == program_walk(p),
{
    met_items(p.items@);
    choose|d: nat| #[trigger]
        all_settled_from(here(), down(), items_in(p.items@), program_walk(p), d)
}

/// An expression is among the walked ones of an item exactly when it stands
/// somewhere in the item.
pub proof fn law_item_walk_is_complete(i: &Item, e: &Expr)
    ensures
        item_walk(i).contains(e) <==> occurs(Node::Item(*i), *e),
{
    met_item(i);
    lemma_complete(Node::Item(*i), item_walk(i), e);
}

/// An expression is among the walked ones of a function exactly when it stands
/// in a default value of a parameter or in the body.
pub proof fn law_function_walk_is_complete(f: &Function, e: &Expr)
    ensures
        function_walk(f).contains(e) <==> occurs(Node::Function(*f), *e),
{
    met_function(f);
    lemma_complete(Node::Function(*f), function_walk(f), e);
}

/// An expression is among the walked ones of a block exactly when it stands in
/// one of its statements, at any depth.
pub proof fn law_block_walk_is_complete(b: &Block, e: &Expr)
    ensures
        block_walk(b).contains(e) <==> occurs(Node::Block(*b), *e),
{
    met_block(b);
    lemma_complete(Node::Block(*b), block_walk(b), e);
}

/// An expression is among the walked ones under an expression exactly when it
/// is that expression or stands in it.
pub proof fn law_expr_walk_is_complete(x: &Expr, e: &Expr)
    ensures
        expr_walk(x).contains(e) <==> occurs(Node::Expr(*x), *e),
{
    met_expr(x);
    lemma_complete(Node::Expr(*x), expr_walk(x), e);
}

proof fn lemma_complete<'a>(n: Node, s: Seq<&'a Expr>, e: &'a Expr)
    requires
        met_is(n, s),
    ensures
        s.contains(e) <==> occurs(n, *e),
{
    if occurs(n, *e) {
        assert(here()(Node::Expr(*e))[0] == e);
        lemma_settled_holds(here(), down(), n, s, Node::Expr(*e), e);
    }
    if s.contains(e) {
        let to = lemma_given_occurs(here(), down(), n, s, e);
        assert(to == Node::Expr(*e));
    }
}

/// An expression is among the walked ones of a program exactly when it stands
/// somewhere in it: in either branch of an `if`, in a loop, in a closure or
/// anywhere else.
pub proof fn law_program_walk_is_complete(p: &Program, e: &Expr)
    ensures
        program_walk(p).contains(e) <==> occurs_in_program(*p, *e),
{
    lemma_items_complete(p.items@, e);
}

proof fn lemma_items_complete(es: Seq<Item>, e: &Expr)
    ensures
        items_walk(es).contains(e) <==> exists|i: int|
            0 <= i < es.len() && occurs(Node::Item(#[trigger] es[i]), *e),
    decreases es.len(),
{
    if es.len() > 0 {
        let t = es.drop_last();
        let a = items_walk(t);
        let b = item_walk(&es.last());
        let s = items_walk(es);
        lemma_items_complete(t, e);
        law_item_walk_is_complete(&es.last(), e);
        if s.contains(e) {
            let k = choose|k: int| 0 <= k < s.len() && s[k] == e;
            if k < a.len() {
                assert(a[k] == e);
                let i = choose|i: int| 0 <= i < t.len() && occurs(Node::Item(#[trigger] t[i]), *e);
                assert(es[i] == t[i]);
            } else {
                assert(b[k - a.len()] == e);
                assert(occurs(Node::Item(es[es.len() - 1]), *e));
            }
        }
        if exists|i: int| 0 <= i < es.len() && occurs(Node::Item(#[trigger] es[i]), *e) {
            let i = choose|i: int| 0 <= i < es.len() && occurs(Node::Item(#[trigger] es[i]), *e);
            if i < t.len() {
                assert(t[i] == es[i]);
                let k = choose|k: int| 0 <= k < a.len() && a[k] == e;
                assert(s[k] == e);
            } else {
                let k = choose|k: int| 0 <= k < b.len() && b[k] == e;
                assert(s[a.len() + k] == e);
            }
        }
    }
}

// ---------------------------------------------------------------------------
// Named types, part by part
// ---------------------------------------------------------------------------

spec fn named_is(n: Node, s: Seq<Seq<char>>) -> bool {
    settles(names_here(), declared(), n, s)
}

spec fn named_are(ns: Seq<Node>, s: Seq<Seq<char>>) -> bool {
    all_settle(names_here(), declared(), ns, s)
}

proof fn named_none()
    ensures
        named_are(Seq::empty(), Seq::<Seq<char>>::empty()),
{
    lemma_none(names_here(), declared());
}

proof fn named_one(n: Node, s: Seq<Seq<char>>)
    requires
        named_is(n, s),
    ensures
        named_are(seq![n], s),
{
    lemma_one(names_here(), declared(), n, s);
}

proof fn named_push(ns: Seq<Node>, s: Seq<Seq<char>>, n: Node, t: Seq<Seq<char>>)
    requires
        named_are(ns, s),
        named_is(n, t),
    ensures
        named_are(ns.push(n), s + t),
{
    lemma_push(names_here(), declared(), ns, s, n, t);
}

proof fn named_two(n: Node, s: Seq<Seq<char>>, m: Node, t: Seq<Seq<char>>)
    requires
        named_is(n, s),
        named_is(m, t),
    ensures
        named_are(seq![n, m], s + t),
{
    named_one(n, s);
    named_push(seq![n], s, m, t);
    assert(seq![n].push(m) =~= seq![n, m]);
}

proof fn named_both(ns: Seq<Node>, s: Seq<Seq<char>>, ms: Seq<Node>, t: Seq<Seq<char>>)
    requires
        named_are(ns, s),
        named_are(ms, t),
    ensures
        named_are(ns + ms, s + t),
{
    lemma_both(names_here(), declared(), ns, s, ms, t);
}

/// A node that is no type names what its parts name.
proof fn named_node(n: Node, s: Seq<Seq<char>>)
    requires
        !(n is Type),
        named_are(declared_parts(n), s),
    ensures
        named_is(n, s),
{
    lemma_node(names_here(), declared(), n, s);
    assert(names_here()(n) + s =~= s);
}

proof fn named_types(es: Seq<Type>)
    ensures
        named_are(types_in(es), tys_names(es)),
    decreases es,
{
    if es.len() == 0 {
        named_none();
        assert(types_in(es) =~= Seq::empty());
    } else {
        named_types(es.drop_last());
        named_type(&es.last());
        named_push(types_in(es.drop_last()), tys_names(es.drop_last()), Node::Type(es.last()), ty_names(&es.last()));
        assert(types_in(es.drop_last()).push(Node::Type(es.last())) =~= types_in(es));
    }
}

proof fn named_type(t: &Type)
    ensures
        named_is(Node::Type(*t), ty_names(t)),
    decreases t,
{
    let below = match t {
        Type::Generic(_, args, _) => tys_names(args@),
        Type::Named(_, _) => Seq::empty(),
        _ => ty_names(t),
    };
    match t {
        Type::Generic(_, args, _) => named_types(args@),
        Type::FunctionType(r, ps, _) => {
            named_type(&**r);
            named_one(Node::Type(**r), ty_names(&**r));
            named_types(ps@);
            named_both(seq![Node::Type(**r)], ty_names(&**r), types_in(ps@), tys_names(ps@));
        },
        Type::Tuple(ts, _) => named_types(ts@),
        Type::Array(e, _) => {
            named_type(&**e);
            named_one(Node::Type(**e), ty_names(&**e));
        },
        Type::FixedArray { elem: e, .. } => {
            named_type(&**e);
            named_one(Node::Type(**e), ty_names(&**e));
        },
        Type::Vec { elem: e, .. } => {
            named_type(&**e);
            named_one(Node::Type(**e), ty_names(&**e));
        },
        Type::Pointer(e, _) => {
            named_type(&**e);
            named_one(Node::Type(**e), ty_names(&**e));
        },
        Type::Optional(e, _) => {
            named_type(&**e);
            named_one(Node::Type(**e), ty_names(&**e));
        },
        Type::Own(e, _) => {
            named_type(&**e);
            named_one(Node::Type(**e), ty_names(&**e));
        },
        Type::Task(e, _) => {
            named_type(&**e);
            named_one(Node::Type(**e), ty_names(&**e));
        },
        Type::Dict { key, value, .. } => {
            named_type(&**key);
            named_type(&**value);
            named_two(Node::Type(**key), ty_names(&**key), Node::Type(**value), ty_names(&**value));
        },
        Type::Int(_)
        | Type::Bool(_)
        | Type::Void(_)
        | Type::Str(_)
        | Type::Char(_)
        | Type::Float(_)
        | Type::Double(_)
        | Type::Any(_)
        | Type::Named(_, _) => named_none(),
    }
    assert(named_are(declared_parts(Node::Type(*t)), below));
    lemma_node(names_here(), declared(), Node::Type(*t), below);
    assert(names_here()(Node::Type(*t)) + below =~= ty_names(t));
}

proof fn named_maybe(o: &Option<Type>)
    ensures
        named_are(maybe_type(*o), opt_ty_names(o)),
{
    match o {
        Some(t) => {
            named_type(t);
            named_one(Node::Type(*t), ty_names(t));
        },
        None => named_none(),
    }
}

proof fn named_params(es: Seq<Param>)
    ensures
        named_are(params_in(es), params_names(es)),
    decreases es,
{
    if es.len() == 0 {
        named_none();
        assert(params_in(es) =~= Seq::empty());
    } else {
        named_params(es.drop_last());
        named_type(&es.last().ty);
        named_one(Node::Type(es.last().ty), ty_names(&es.last().ty));
        named_node(Node::Param(es.last()), ty_names(&es.last().ty));
        named_push(params_in(es.drop_last()), params_names(es.drop_last()), Node::Param(es.last()), ty_names(&es.last().ty));
        assert(params_in(es.drop_last()).push(Node::Param(es.last())) =~= params_in(es));
    }
}

proof fn named_field(f: &StructField)
    ensures
        named_is(Node::Field(*f), ty_names(&f.ty)),
{
    named_type(&f.ty);
    named_one(Node::Type(f.ty), ty_names(&f.ty));
    named_node(Node::Field(*f), ty_names(&f.ty));
}

proof fn named_fields(es: Seq<StructField>)
    ensures
        named_are(fields_in(es), fields_names(es)),
    decreases es,
{
    if es.len() == 0 {
        named_none();
        assert(fields_in(es) =~= Seq::empty());
    } else {
        named_fields(es.drop_last());
        named_field(&es.last());
        named_push(fields_in(es.drop_last()), fields_names(es.drop_last()), Node::Field(es.last()), ty_names(&es.last().ty));
        assert(fields_in(es.drop_last()).push(Node::Field(es.last())) =~= fields_in(es));
    }
}

proof fn named_stmts(es: Seq<Stmt>)
    ensures
        named_are(stmts_in(es), stmts_names(es)),
    decreases es,
{
    if es.len() == 0 {
        named_none();
        assert(stmts_in(es) =~= Seq::empty());
    } else {
        named_stmts(es.drop_last());
        named_stmt(&es.last());
        named_push(stmts_in(es.drop_last()), stmts_names(es.drop_last()), Node::Stmt(es.last()), stmt_names(&es.last()));
        assert(stmts_in(es.drop_last()).push(Node::Stmt(es.last())) =~= stmts_in(es));
    }
}

proof fn named_block(b: &Block)
    ensures
        named_is(Node::Block(*b), block_names(b)),
    decreases b,
{
    named_stmts(b.stmts@);
    named_node(Node::Block(*b), block_names(b));
}

proof fn named_maybe_block(o: &Option<Block>)
    ensures
        named_are(maybe_block(*o), opt_block_names(o)),
    decreases o,
{
    match o {
        Some(b) => {
            named_block(b);
            named_one(Node::Block(*b), block_names(b));
        },
        None => named_none(),
    }
}

proof fn named_stmt(s: &Stmt)
    ensures
        named_is(Node::Stmt(*s), stmt_names(s)),
    decreases s,
{
    match s {
        Stmt::VarDecl(d) => {
            named_type(&d.ty);
            named_one(Node::Type(d.ty), ty_names(&d.ty));
        },
        Stmt::Const(d) => named_maybe(&d.ty),
        Stmt::Block(b) => {
            named_block(b);
            named_one(Node::Block(*b), block_names(b));
        },
        Stmt::If(i) => {
            named_block(&i.then_block);
            named_one(Node::Block(i.then_block), block_names(&i.then_block));
            named_maybe_block(&i.else_block);
            named_both(
                seq![Node::Block(i.then_block)],
                block_names(&i.then_block),
                maybe_block(i.else_block),
                opt_block_names(&i.else_block),
            );
        },
        Stmt::While(w) => {
            named_block(&w.body);
            named_one(Node::Block(w.body), block_names(&w.body));
        },
        Stmt::Loop(l) => {
            named_block(&l.body);
            named_one(Node::Block(l.body), block_names(&l.body));
        },
        Stmt::For(f) => {
            named_block(&f.body);
            named_one(Node::Block(f.body), block_names(&f.body));
        },
        Stmt::Defer(d) => match &d.inner {
            DeferInner::Block(b) => {
                named_block(b);
                named_one(Node::Block(*b), block_names(b));
            },
            DeferInner::Expr(_) => named_none(),
        },
        Stmt::Scope(b) => {
            named_block(b);
            named_one(Node::Block(*b), block_names(b));
        },
        Stmt::Destructure(_)
        | Stmt::Expr(_)
        | Stmt::Return(_)
        | Stmt::Delete(_)
        | Stmt::Assert(_)
        | Stmt::Yield(_)
        | Stmt::Break(_)
        | Stmt::Continue(_) => named_none(),
    }
    named_node(Node::Stmt(*s), stmt_names(s));
}

proof fn named_function(f: &Function)
    ensures
        named_is(Node::Function(*f), function_names(f)),
{
    named_type(&f.ret_ty);
    named_one(Node::Type(f.ret_ty), ty_names(&f.ret_ty));
    named_params(f.params@);
    named_block(&f.body);
    named_one(Node::Block(f.body), block_names(&f.body));
    named_both(
        seq![Node::Type(f.ret_ty)],
        ty_names(&f.ret_ty),
        params_in(f.params@),
        params_names(f.params@),
    );
    named_both(
        seq![Node::Type(f.ret_ty)] + params_in(f.params@),
        ty_names(&f.ret_ty) + params_names(f.params@),
        seq![Node::Block(f.body)],
        block_names(&f.body),
    );
    named_node(Node::Function(*f), function_names(f));
}

proof fn named_property(p: &PropertyDecl)
    ensures
        named_is(Node::Property(*p), property_names(p)),
{
    named_maybe(&p.ty);
    named_maybe_block(&p.getter);
    named_both(maybe_type(p.ty), opt_ty_names(&p.ty), maybe_block(p.getter), opt_block_names(&p.getter));
    let ns = maybe_type(p.ty) + maybe_block(p.getter);
    let s = opt_ty_names(&p.ty) + opt_block_names(&p.getter);
    match &p.setter {
        Some(x) => {
            named_type(&x.0.ty);
            named_one(Node::Type(x.0.ty), ty_names(&x.0.ty));
            named_node(Node::Param(x.0), ty_names(&x.0.ty));
            named_block(&x.1);
            named_two(Node::Param(x.0), ty_names(&x.0.ty), Node::Block(x.1), block_names(&x.1));
            named_both(
                ns,
                s,
                seq![Node::Param(x.0), Node::Block(x.1)],
                ty_names(&x.0.ty) + block_names(&x.1),
            );
        },
        None => {
            named_none();
            named_both(ns, s, Seq::empty(), Seq::empty());
        },
    }
    named_node(Node::Property(*p), property_names(p));
}

proof fn named_operator(o: &OperatorDecl)
    ensures
        named_is(Node::Operator(*o), operator_names(o)),
{
    named_params(o.params@);
    named_block(&o.body);
    named_push(params_in(o.params@), params_names(o.params@), Node::Block(o.body), block_names(&o.body));
    named_node(Node::Operator(*o), operator_names(o));
}

proof fn named_conversion(c: &ConversionDecl)
    ensures
        named_is(Node::Conversion(*c), conversion_names(c)),
{
    named_type(&c.from_ty);
    named_type(&c.to_ty);
    named_block(&c.body);
    let a = Node::Type(c.from_ty);
    let b = Node::Type(c.to_ty);
    named_two(a, ty_names(&c.from_ty), b, ty_names(&c.to_ty));
    named_push(
        seq![a, b],
        ty_names(&c.from_ty) + ty_names(&c.to_ty),
        Node::Block(c.body),
        block_names(&c.body),
    );
    assert(seq![a, b].push(Node::Block(c.body)) =~= seq![a, b, Node::Block(c.body)]);
    named_node(Node::Conversion(*c), conversion_names(c));
}

proof fn named_member(m: &ExtensionMember)
    ensures
        named_is(Node::Member(*m), member_names(m)),
{
    match m {
        ExtensionMember::Function(f) => {
            named_function(f);
            named_one(Node::Function(*f), function_names(f));
        },
        ExtensionMember::Field(f) => {
            named_field(f);
            named_one(Node::Field(*f), ty_names(&f.ty));
        },
        ExtensionMember::Property(p) => {
            named_property(p);
            named_one(Node::Property(*p), property_names(p));
        },
        ExtensionMember::Operator(o) => {
            named_operator(o);
            named_one(Node::Operator(*o), operator_names(o));
        },
        ExtensionMember::Conversion(c) => {
            named_conversion(c);
            named_one(Node::Conversion(*c), conversion_names(c));
        },
    }
    named_node(Node::Member(*m), member_names(m));
}

proof fn named_functions(es: Seq<Function>)
    ensures
        named_are(functions_in(es), functions_names(es)),
    decreases es,
{
    if es.len() == 0 {
        named_none();
        assert(functions_in(es) =~= Seq::empty());
    } else {
        named_functions(es.drop_last());
        named_function(&es.last());
        named_push(functions_in(es.drop_last()), functions_names(es.drop_last()), Node::Function(es.last()), function_names(&es.last()));
        assert(functions_in(es.drop_last()).push(Node::Function(es.last())) =~= functions_in(es));
    }
}

proof fn named_constructors(es: Seq<Constructor>)
    ensures
        named_are(constructors_in(es), constructors_names(es)),
    decreases es,
{
    if es.len() == 0 {
        named_none();
        assert(constructors_in(es) =~= Seq::empty());
    } else {
        named_constructors(es.drop_last());
        let c = es.last();
        let own = params_names(c.params@) + opt_block_names(&c.body);
        named_params(c.params@);
        named_maybe_block(&c.body);
        named_both(params_in(c.params@), params_names(c.params@), maybe_block(c.body), opt_block_names(&c.body));
        named_node(Node::Constructor(c), own);
        named_push(constructors_in(es.drop_last()), constructors_names(es.drop_last()), Node::Constructor(c), own);
        assert(constructors_in(es.drop_last()).push(Node::Constructor(c)) =~= constructors_in(es));
    }
}

proof fn named_destructors(es: Seq<Destructor>)
    ensures
        named_are(destructors_in(es), destructors_names(es)),
    decreases es,
{
    if es.len() == 0 {
        named_none();
        assert(destructors_in(es) =~= Seq::empty());
    } else {
        named_destructors(es.drop_last());
        named_block(&es.last().body);
        named_one(Node::Block(es.last().body), block_names(&es.last().body));
        named_node(Node::Destructor(es.last()), block_names(&es.last().body));
        named_push(destructors_in(es.drop_last()), destructors_names(es.drop_last()), Node::Destructor(es.last()), block_names(&es.last().body));
        assert(destructors_in(es.drop_last()).push(Node::Destructor(es.last())) =~= destructors_in(es));
    }
}

proof fn named_properties(es: Seq<PropertyDecl>)
    ensures
        named_are(properties_in(es), properties_names(es)),
    decreases es,
{
    if es.len() == 0 {
        named_none();
        assert(properties_in(es) =~= Seq::empty());
    } else {
        named_properties(es.drop_last());
        named_property(&es.last());
        named_push(properties_in(es.drop_last()), properties_names(es.drop_last()), Node::Property(es.last()), property_names(&es.last()));
        assert(properties_in(es.drop_last()).push(Node::Property(es.last())) =~= properties_in(es));
    }
}

proof fn named_operators(es: Seq<OperatorDecl>)
    ensures
        named_are(operators_in(es), operators_names(es)),
    decreases es,
{
    if es.len() == 0 {
        named_none();
        assert(operators_in(es) =~= Seq::empty());
    } else {
        named_operators(es.drop_last());
        named_operator(&es.last());
        named_push(operators_in(es.drop_last()), operators_names(es.drop_last()), Node::Operator(es.last()), operator_names(&es.last()));
        assert(operators_in(es.drop_last()).push(Node::Operator(es.last())) =~= operators_in(es));
    }
}

proof fn named_conversions(es: Seq<ConversionDecl>)
    ensures
        named_are(conversions_in(es), conversions_names(es)),
    decreases es,
{
    if es.len() == 0 {
        named_none();
        assert(conversions_in(es) =~= Seq::empty());
    } else {
        named_conversions(es.drop_last());
        named_conversion(&es.last());
        named_push(conversions_in(es.drop_last()), conversions_names(es.drop_last()), Node::Conversion(es.last()), conversion_names(&es.last()));
        assert(conversions_in(es.drop_last()).push(Node::Conversion(es.last())) =~= conversions_in(es));
    }
}

proof fn named_members(es: Seq<ExtensionMember>)
    ensures
        named_are(members_in(es), members_names(es)),
    decreases es,
{
    if es.len() == 0 {
        named_none();
        assert(members_in(es) =~= Seq::empty());
    } else {
        named_members(es.drop_last());
        named_member(&es.last());
        named_push(members_in(es.drop_last()), members_names(es.drop_last()), Node::Member(es.last()), member_names(&es.last()));
        assert(members_in(es.drop_last()).push(Node::Member(es.last())) =~= members_in(es));
    }
}

proof fn named_variants(es: Seq<EnumVariantDecl>)
    ensures
        named_are(variants_in(es), variants_names(es)),
    decreases es,
{
    if es.len() == 0 {
        named_none();
        assert(variants_in(es) =~= Seq::empty());
    } else {
        named_variants(es.drop_last());
        named_params(es.last().payload_params@);
        named_node(Node::Variant(es.last()), params_names(es.last().payload_params@));
        named_push(variants_in(es.drop_last()), variants_names(es.drop_last()), Node::Variant(es.last()), params_names(es.last().payload_params@));
        assert(variants_in(es.drop_last()).push(Node::Variant(es.last())) =~= variants_in(es));
    }
}

proof fn named_signatures(es: Seq<TraitMethod>)
    ensures
        named_are(signatures_in(es), signatures_names(es)),
    decreases es,
{
    if es.len() == 0 {
        named_none();
        assert(signatures_in(es) =~= Seq::empty());
    } else {
        named_signatures(es.drop_last());
        let m = es.last();
        let own = ty_names(&m.ret_ty) + params_names(m.params@);
        named_type(&m.ret_ty);
        named_one(Node::Type(m.ret_ty), ty_names(&m.ret_ty));
        named_params(m.params@);
        named_both(seq![Node::Type(m.ret_ty)], ty_names(&m.ret_ty), params_in(m.params@), params_names(m.params@));
        named_node(Node::Signature(m), own);
        named_push(signatures_in(es.drop_last()), signatures_names(es.drop_last()), Node::Signature(m), own);
        assert(signatures_in(es.drop_last()).push(Node::Signature(m)) =~= signatures_in(es));
    }
}

proof fn named_item(i: &Item)
    ensures
        named_is(Node::Item(*i), item_names(i)),
    decreases i,
{
    match i {
        Item::Function(f) => {
            named_function(f);
            named_one(Node::Function(*f), function_names(f));
        },
        Item::Init(b) => {
            named_block(b);
            named_one(Node::Block(*b), block_names(b));
        },
        Item::Var(d) => {
            named_type(&d.ty);
            named_one(Node::Type(d.ty), ty_names(&d.ty));
        },
        Item::Const(d) => named_maybe(&d.ty),
        Item::Attributed { item, .. } => {
            named_item(&**item);
            named_one(Node::Item(**item), item_names(&**item));
        },
        Item::Struct(s) => named_fields(s.fields@),
        Item::Class(c) => {
            named_fields(c.fields@);
            named_functions(c.methods@);
            named_constructors(c.constructors@);
            named_destructors(c.destructors@);
            named_properties(c.properties@);
            named_operators(c.operators@);
            named_conversions(c.conversions@);
            named_both(fields_in(c.fields@), fields_names(c.fields@), functions_in(c.methods@), functions_names(c.methods@));
            named_both(fields_in(c.fields@) + functions_in(c.methods@), fields_names(c.fields@) + functions_names(c.methods@), constructors_in(c.constructors@), constructors_names(c.constructors@));
            named_both(fields_in(c.fields@) + functions_in(c.methods@) + constructors_in(c.constructors@), fields_names(c.fields@) + functions_names(c.methods@) + constructors_names(c.constructors@), destructors_in(c.destructors@), destructors_names(c.destructors@));
            named_both(fields_in(c.fields@) + functions_in(c.methods@) + constructors_in(c.constructors@) + destructors_in(c.destructors@), fields_names(c.fields@) + functions_names(c.methods@) + constructors_names(c.constructors@) + destructors_names(c.destructors@), properties_in(c.properties@), properties_names(c.properties@));
            named_both(fields_in(c.fields@) + functions_in(c.methods@) + constructors_in(c.constructors@) + destructors_in(c.destructors@) + properties_in(c.properties@), fields_names(c.fields@) + functions_names(c.methods@) + constructors_names(c.constructors@) + destructors_names(c.destructors@) + properties_names(c.properties@), operators_in(c.operators@), operators_names(c.operators@));
            named_both(fields_in(c.fields@) + functions_in(c.methods@) + constructors_in(c.constructors@) + destructors_in(c.destructors@) + properties_in(c.properties@) + operators_in(c.operators@), fields_names(c.fields@) + functions_names(c.methods@) + constructors_names(c.constructors@) + destructors_names(c.destructors@) + properties_names(c.properties@) + operators_names(c.operators@), conversions_in(c.conversions@), conversions_names(c.conversions@));
        },
        Item::Extension(x) => named_members(x.members@),
        Item::Enum(e) => named_variants(e.variants@),
        Item::Trait(t) => named_signatures(t.methods@),
        Item::Typedef(t) => {
            named_type(&t.ty);
            named_one(Node::Type(t.ty), ty_names(&t.ty));
        },
        Item::Distinct(d) => {
            named_type(&d.ty);
            named_one(Node::Type(d.ty), ty_names(&d.ty));
        },
        Item::Import(_) | Item::Extern(_) => named_none(),
    }
    named_node(Node::Item(*i), item_names(i));
}

// ---------------------------------------------------------------------------
// Laws on named types
// ---------------------------------------------------------------------------

/// A name is among those that an item's declarations mention exactly when a type
/// written with that name is declared somewhere in the item.
pub proof fn law_item_names_are_complete(i: &Item, x: Seq<char>)
    ensures
        item_names(i).contains(x) <==> exists|t: Type|
            #[trigger] declared_in(Node::Item(*i), t) && name_of_type(t) == Some(x),
{
    named_item(i);
    lemma_names_complete(Node::Item(*i), item_names(i), x);
}

/// A name is among those that a type mentions exactly when the type, or one that
/// it is made of, is written with that name.
pub proof fn law_type_names_are_complete(t: &Type, x: Seq<char>)
    ensures
        ty_names(t).contains(x) <==> exists|u: Type|
            #[trigger] declared_in(Node::Type(*t), u) && name_of_type(u) == Some(x),
{
    named_type(t);
    lemma_names_complete(Node::Type(*t), ty_names(t), x);
}

proof fn lemma_names_complete(n: Node, s: Seq<Seq<char>>, x: Seq<char>)
    requires
        named_is(n, s),
    ensures
        s.contains(x) <==> exists|t: Type|
            #[trigger] declared_in(n, t) && name_of_type(t) == Some(x),
{
    if exists|t: Type| #[trigger] declared_in(n, t) && name_of_type(t) == Some(x) {
        let t = choose|t: Type| #[trigger] declared_in(n, t) && name_of_type(t) == Some(x);
        assert(names_here()(Node::Type(t))[0] == x);
        lemma_settled_holds(names_here(), declared(), n, s, Node::Type(t), x);
    }
    if s.contains(x) {
        let to = lemma_given_occurs(names_here(), declared(), n, s, x);
        assert(to is Type);
        assert(declared_in(n, to->Type_0));
    }
}

} // verus!
