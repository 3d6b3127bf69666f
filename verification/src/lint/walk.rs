//! Traversal of the syntax tree: every expression, and every named type.
//!
//! Expressions are visited in preorder, parents before children and siblings
//! from left to right. Each traversal appends what it visits to a list; the
//! `*_walk` and `*_names` functions say what that list is.
use crate::ast::{
    Block, CallArg, ClassDecl, ClosureBody, Constructor, ConversionDecl, DeferInner, Destructor,
    EnumVariantDecl, Expr, ExprKind, ExtensionMember, Function, InterpolatedPart, Item, MatchArm,
    MatchArmBody, OperatorDecl, Param, Program, PropertyDecl, Stmt, StructField, TraitMethod, Type,
};
use crate::text::{base_name, base_name_of, chars_of, string_of, texts};
use crate::token::Span;
use vstd::prelude::*;

verus! {

// ---------------------------------------------------------------------------
// What the expression traversal visits
// ---------------------------------------------------------------------------

/// The expressions under a list of expressions.
pub open spec fn exprs_walk<'a>(es: Seq<Expr>) -> Seq<&'a Expr>
    decreases es,
{
    if es.len() == 0 {
        Seq::empty()
    } else {
        exprs_walk(es.drop_last()) + expr_walk(&es.last())
    }
}

/// The expressions under call arguments; an `out` argument holds none.
pub open spec fn args_walk<'a>(es: Seq<CallArg>) -> Seq<&'a Expr>
    decreases es,
{
    if es.len() == 0 {
        Seq::empty()
    } else {
        args_walk(es.drop_last()) + arg_walk(&es.last())
    }
}

/// The expressions under map entries, each key before its value.
pub open spec fn entries_walk<'a>(es: Seq<(Expr, Expr)>) -> Seq<&'a Expr>
    decreases es,
{
    if es.len() == 0 {
        Seq::empty()
    } else {
        entries_walk(es.drop_last()) + (expr_walk(&es.last().0) + expr_walk(&es.last().1))
    }
}

/// The expressions under the field values of a struct literal.
pub open spec fn inits_walk<'a>(es: Seq<(String, Span, Expr)>) -> Seq<&'a Expr>
    decreases es,
{
    if es.len() == 0 {
        Seq::empty()
    } else {
        inits_walk(es.drop_last()) + expr_walk(&es.last().2)
    }
}

/// The expressions inside an interpolated string.
pub open spec fn parts_walk<'a>(es: Seq<InterpolatedPart>) -> Seq<&'a Expr>
    decreases es,
{
    if es.len() == 0 {
        Seq::empty()
    } else {
        parts_walk(es.drop_last()) + part_walk(&es.last())
    }
}

/// The expressions under match arms, each guard before its body.
pub open spec fn arms_walk<'a>(es: Seq<MatchArm>) -> Seq<&'a Expr>
    decreases es,
{
    if es.len() == 0 {
        Seq::empty()
    } else {
        arms_walk(es.drop_last()) + arm_walk(&es.last())
    }
}

/// The default values of parameters.
pub open spec fn params_walk<'a>(es: Seq<Param>) -> Seq<&'a Expr>
    decreases es,
{
    if es.len() == 0 {
        Seq::empty()
    } else {
        params_walk(es.drop_last()) + opt_walk(&es.last().default)
    }
}

/// The expressions under statements.
pub open spec fn stmts_walk<'a>(es: Seq<Stmt>) -> Seq<&'a Expr>
    decreases es,
{
    if es.len() == 0 {
        Seq::empty()
    } else {
        stmts_walk(es.drop_last()) + stmt_walk(&es.last())
    }
}

/// The expressions under an optional expression.
pub open spec fn opt_walk<'a>(o: &'a Option<Expr>) -> Seq<&'a Expr>
    decreases o,
{
    match o {
        Some(e) => expr_walk(e),
        None => Seq::empty(),
    }
}

/// The expressions under an optional boxed expression.
pub open spec fn boxed_walk<'a>(o: &'a Option<Box<Expr>>) -> Seq<&'a Expr>
    decreases o,
{
    match o {
        Some(e) => expr_walk(&**e),
        None => Seq::empty(),
    }
}

pub open spec fn arg_walk<'a>(a: &'a CallArg) -> Seq<&'a Expr>
    decreases a,
{
    match a {
        CallArg::Expr(e) => expr_walk(e),
        CallArg::Named { value, .. } => expr_walk(value),
        CallArg::Ref { expr, .. } => expr_walk(expr),
        CallArg::Out { .. } => Seq::empty(),
    }
}

pub open spec fn part_walk<'a>(p: &'a InterpolatedPart) -> Seq<&'a Expr>
    decreases p,
{
    match p {
        InterpolatedPart::Expr(e) => expr_walk(e),
        InterpolatedPart::Text(_) => Seq::empty(),
    }
}

pub open spec fn arm_walk<'a>(a: &'a MatchArm) -> Seq<&'a Expr>
    decreases a,
{
    opt_walk(&a.guard) + match &a.body {
        MatchArmBody::Expr(e) => expr_walk(e),
        MatchArmBody::Block(b) => block_walk(b),
    }
}

/// The expressions under a block.
pub open spec fn block_walk<'a>(b: &'a Block) -> Seq<&'a Expr>
    decreases b,
{
    stmts_walk(b.stmts@)
}

/// The expressions under an optional block.
pub open spec fn opt_block_walk<'a>(o: &'a Option<Block>) -> Seq<&'a Expr>
    decreases o,
{
    match o {
        Some(b) => block_walk(b),
        None => Seq::empty(),
    }
}

/// The expressions under a statement.
pub open spec fn stmt_walk<'a>(s: &'a Stmt) -> Seq<&'a Expr>
    decreases s,
{
    match s {
        Stmt::VarDecl(d) => opt_walk(&d.init),
        Stmt::Const(d) => expr_walk(&d.init),
        Stmt::Destructure(d) => expr_walk(&d.expr),
        Stmt::Expr(e) => expr_walk(&e.expr),
        Stmt::Return(r) => opt_walk(&r.value),
        Stmt::Delete(d) => expr_walk(&d.target),
        Stmt::Block(b) => block_walk(b),
        Stmt::If(i) => expr_walk(&i.cond) + block_walk(&i.then_block) + opt_block_walk(
            &i.else_block,
        ),
        Stmt::While(w) => expr_walk(&w.cond) + block_walk(&w.body),
        Stmt::Loop(l) => block_walk(&l.body),
        Stmt::For(f) => expr_walk(&f.iter) + block_walk(&f.body),
        Stmt::Assert(a) => expr_walk(&a.cond) + opt_walk(&a.message),
        Stmt::Defer(d) => match &d.inner {
            DeferInner::Expr(e) => expr_walk(e),
            DeferInner::Block(b) => block_walk(b),
        },
        Stmt::Scope(b) => block_walk(b),
        Stmt::Yield(_) | Stmt::Break(_) | Stmt::Continue(_) => Seq::empty(),
    }
}

/// An expression and everything under it.
pub open spec fn expr_walk<'a>(e: &'a Expr) -> Seq<&'a Expr>
    decreases e,
{
    seq![e] + kind_walk(&e.kind)
}

/// What stands strictly under an expression.
pub open spec fn kind_walk<'a>(k: &'a ExprKind) -> Seq<&'a Expr>
    decreases k,
{
    match k {
        ExprKind::Paren(e) => expr_walk(&**e),
        ExprKind::Unary { expr, .. } => expr_walk(&**expr),
        ExprKind::Postfix { expr, .. } => expr_walk(&**expr),
        ExprKind::Binary { lhs, rhs, .. } => expr_walk(&**lhs) + expr_walk(&**rhs),
        ExprKind::Assign { lhs, value } => expr_walk(&**lhs) + expr_walk(&**value),
        ExprKind::CompoundAssign { lhs, value, .. } => expr_walk(&**lhs) + expr_walk(&**value),
        ExprKind::Conditional { cond, then_branch, else_branch } => expr_walk(&**cond) + expr_walk(
            &**then_branch,
        ) + expr_walk(&**else_branch),
        ExprKind::Range { start, end, .. } => boxed_walk(start) + boxed_walk(end),
        ExprKind::Call { args, .. } => args_walk(args@),
        ExprKind::New { args, .. } => args_walk(args@),
        ExprKind::EnumVariant { args, .. } => args_walk(args@),
        ExprKind::Await { task, .. } => expr_walk(&**task),
        ExprKind::Spawn { task, .. } => expr_walk(&**task),
        ExprKind::MethodCall { object, args, .. } => expr_walk(&**object) + args_walk(args@),
        ExprKind::MemberAccess { object, .. } => expr_walk(&**object),
        ExprKind::NullableMemberAccess { object, .. } => expr_walk(&**object),
        ExprKind::Index { object, index } => expr_walk(&**object) + expr_walk(&**index),
        ExprKind::Slice { object, start, end } => expr_walk(&**object) + boxed_walk(start)
            + boxed_walk(end),
        ExprKind::Tuple(es) => exprs_walk(es@),
        ExprKind::ArrayLit(es) => exprs_walk(es@),
        ExprKind::MapLit { entries, .. } => entries_walk(entries@),
        ExprKind::StructLit { fields, .. } => inits_walk(fields@),
        ExprKind::InterpolatedString(parts, _) => parts_walk(parts@),
        ExprKind::Match(m) => expr_walk(&*m.scrutinee) + arms_walk(m.arms@),
        ExprKind::Closure { params, body, .. } => params_walk(params@) + match &**body {
            ClosureBody::Expr(e) => expr_walk(e),
            ClosureBody::Block(b) => block_walk(b),
        },
        ExprKind::IntLit(_)
        | ExprKind::FloatLit(_)
        | ExprKind::BoolLit(_)
        | ExprKind::StringLit(_)
        | ExprKind::CharLit(_)
        | ExprKind::Ident(_)
        | ExprKind::This
        | ExprKind::Super
        | ExprKind::Null
        | ExprKind::VecEmpty(_) => Seq::empty(),
    }
}

/// The expressions of a function: parameter defaults, then the body.
pub open spec fn function_walk<'a>(f: &'a Function) -> Seq<&'a Expr> {
    params_walk(f.params@) + block_walk(&f.body)
}

/// The expressions of a property: the getter, then the setter.
pub open spec fn property_walk<'a>(p: &'a PropertyDecl) -> Seq<&'a Expr> {
    opt_block_walk(&p.getter) + match &p.setter {
        Some(s) => block_walk(&s.1),
        None => Seq::empty(),
    }
}

pub open spec fn constructor_walk<'a>(c: &'a Constructor) -> Seq<&'a Expr> {
    params_walk(c.params@) + opt_block_walk(&c.body)
}

pub open spec fn operator_walk<'a>(o: &'a OperatorDecl) -> Seq<&'a Expr> {
    params_walk(o.params@) + block_walk(&o.body)
}

pub open spec fn member_walk<'a>(m: &'a ExtensionMember) -> Seq<&'a Expr> {
    match m {
        ExtensionMember::Function(f) => function_walk(f),
        ExtensionMember::Field(f) => opt_walk(&f.default),
        ExtensionMember::Property(p) => property_walk(p),
        ExtensionMember::Operator(o) => operator_walk(o),
        ExtensionMember::Conversion(c) => block_walk(&c.body),
    }
}

/// The default values of fields.
pub open spec fn fields_walk<'a>(es: Seq<StructField>) -> Seq<&'a Expr>
    decreases es,
{
    if es.len() == 0 {
        Seq::empty()
    } else {
        fields_walk(es.drop_last()) + opt_walk(&es.last().default)
    }
}

pub open spec fn functions_walk<'a>(es: Seq<Function>) -> Seq<&'a Expr>
    decreases es,
{
    if es.len() == 0 {
        Seq::empty()
    } else {
        functions_walk(es.drop_last()) + function_walk(&es.last())
    }
}

pub open spec fn constructors_walk<'a>(es: Seq<Constructor>) -> Seq<&'a Expr>
    decreases es,
{
    if es.len() == 0 {
        Seq::empty()
    } else {
        constructors_walk(es.drop_last()) + constructor_walk(&es.last())
    }
}

pub open spec fn destructors_walk<'a>(es: Seq<Destructor>) -> Seq<&'a Expr>
    decreases es,
{
    if es.len() == 0 {
        Seq::empty()
    } else {
        destructors_walk(es.drop_last()) + block_walk(&es.last().body)
    }
}

pub open spec fn properties_walk<'a>(es: Seq<PropertyDecl>) -> Seq<&'a Expr>
    decreases es,
{
    if es.len() == 0 {
        Seq::empty()
    } else {
        properties_walk(es.drop_last()) + property_walk(&es.last())
    }
}

pub open spec fn operators_walk<'a>(es: Seq<OperatorDecl>) -> Seq<&'a Expr>
    decreases es,
{
    if es.len() == 0 {
        Seq::empty()
    } else {
        operators_walk(es.drop_last()) + operator_walk(&es.last())
    }
}

pub open spec fn conversions_walk<'a>(es: Seq<ConversionDecl>) -> Seq<&'a Expr>
    decreases es,
{
    if es.len() == 0 {
        Seq::empty()
    } else {
        conversions_walk(es.drop_last()) + block_walk(&es.last().body)
    }
}

pub open spec fn members_walk<'a>(es: Seq<ExtensionMember>) -> Seq<&'a Expr>
    decreases es,
{
    if es.len() == 0 {
        Seq::empty()
    } else {
        members_walk(es.drop_last()) + member_walk(&es.last())
    }
}

/// The expressions of enum variants: payload defaults, then the discriminant.
pub open spec fn variants_walk<'a>(es: Seq<EnumVariantDecl>) -> Seq<&'a Expr>
    decreases es,
{
    if es.len() == 0 {
        Seq::empty()
    } else {
        variants_walk(es.drop_last()) + (params_walk(es.last().payload_params@) + opt_walk(
            &es.last().discriminant,
        ))
    }
}

pub open spec fn signatures_walk<'a>(es: Seq<TraitMethod>) -> Seq<&'a Expr>
    decreases es,
{
    if es.len() == 0 {
        Seq::empty()
    } else {
        signatures_walk(es.drop_last()) + params_walk(es.last().params@)
    }
}

/// The expressions of a class, member kind by member kind.
pub open spec fn class_walk<'a>(c: &'a ClassDecl) -> Seq<&'a Expr> {
    fields_walk(c.fields@) + functions_walk(c.methods@) + constructors_walk(c.constructors@)
        + destructors_walk(c.destructors@) + properties_walk(c.properties@) + operators_walk(
        c.operators@,
    ) + conversions_walk(c.conversions@)
}

/// The expressions of an item.
pub open spec fn item_walk<'a>(i: &'a Item) -> Seq<&'a Expr>
    decreases i,
{
    match i {
        Item::Function(f) => function_walk(f),
        Item::Init(b) => block_walk(b),
        Item::Var(d) => opt_walk(&d.init),
        Item::Const(d) => expr_walk(&d.init),
        Item::Attributed { item, .. } => item_walk(&**item),
        Item::Struct(s) => fields_walk(s.fields@),
        Item::Class(c) => class_walk(c),
        Item::Extension(e) => members_walk(e.members@),
        Item::Enum(e) => variants_walk(e.variants@),
        Item::Trait(t) => signatures_walk(t.methods@),
        Item::Import(_) | Item::Typedef(_) | Item::Distinct(_) | Item::Extern(_) => Seq::empty(),
    }
}

/// The expressions of a list of items.
pub open spec fn items_walk<'a>(es: Seq<Item>) -> Seq<&'a Expr>
    decreases es,
{
    if es.len() == 0 {
        Seq::empty()
    } else {
        items_walk(es.drop_last()) + item_walk(&es.last())
    }
}

/// Every expression of a program, in the order of the source.
pub open spec fn program_walk<'a>(p: &'a Program) -> Seq<&'a Expr> {
    items_walk(p.items@)
}

// ---------------------------------------------------------------------------
// The traversal
// ---------------------------------------------------------------------------

fn expr_list<'a>(es: &'a Vec<Expr>, out: &mut Vec<&'a Expr>)
    ensures
        final(out)@ == old(out)@ + exprs_walk(es@),
    decreases es@,
{
    let mut i: usize = 0;
    assert(out@ =~= old(out)@ + exprs_walk(es@.take(0)));
    while i < es.len()
        invariant
            i <= es@.len(),
            out@ == old(out)@ + exprs_walk(es@.take(i as int)),
        decreases es@.len() - i,
    {
        expr(&es[i], out);
        assert(es@.take(i + 1).drop_last() =~= es@.take(i as int));
        assert(out@ =~= old(out)@ + exprs_walk(es@.take(i + 1)));
        i += 1;
    }
    assert(es@.take(es@.len() as int) =~= es@);
}

fn arg_list<'a>(es: &'a Vec<CallArg>, out: &mut Vec<&'a Expr>)
    ensures
        final(out)@ == old(out)@ + args_walk(es@),
    decreases es@,
{
    let mut i: usize = 0;
    assert(out@ =~= old(out)@ + args_walk(es@.take(0)));
    while i < es.len()
        invariant
            i <= es@.len(),
            out@ == old(out)@ + args_walk(es@.take(i as int)),
        decreases es@.len() - i,
    {
        arg(&es[i], out);
        assert(es@.take(i + 1).drop_last() =~= es@.take(i as int));
        assert(out@ =~= old(out)@ + args_walk(es@.take(i + 1)));
        i += 1;
    }
    assert(es@.take(es@.len() as int) =~= es@);
}

fn entry_list<'a>(es: &'a Vec<(Expr, Expr)>, out: &mut Vec<&'a Expr>)
    ensures
        final(out)@ == old(out)@ + entries_walk(es@),
    decreases es@,
{
    let mut i: usize = 0;
    assert(out@ =~= old(out)@ + entries_walk(es@.take(0)));
    while i < es.len()
        invariant
            i <= es@.len(),
            out@ == old(out)@ + entries_walk(es@.take(i as int)),
        decreases es@.len() - i,
    {
        let entry = &es[i];
        expr(&entry.0, out);
        expr(&entry.1, out);
        assert(es@.take(i + 1).drop_last() =~= es@.take(i as int));
        assert(out@ =~= old(out)@ + entries_walk(es@.take(i + 1)));
        i += 1;
    }
    assert(es@.take(es@.len() as int) =~= es@);
}

fn init_list<'a>(es: &'a Vec<(String, Span, Expr)>, out: &mut Vec<&'a Expr>)
    ensures
        final(out)@ == old(out)@ + inits_walk(es@),
    decreases es@,
{
    let mut i: usize = 0;
    assert(out@ =~= old(out)@ + inits_walk(es@.take(0)));
    while i < es.len()
        invariant
            i <= es@.len(),
            out@ == old(out)@ + inits_walk(es@.take(i as int)),
        decreases es@.len() - i,
    {
        expr(&es[i].2, out);
        assert(es@.take(i + 1).drop_last() =~= es@.take(i as int));
        assert(out@ =~= old(out)@ + inits_walk(es@.take(i + 1)));
        i += 1;
    }
    assert(es@.take(es@.len() as int) =~= es@);
}

fn part_list<'a>(es: &'a Vec<InterpolatedPart>, out: &mut Vec<&'a Expr>)
    ensures
        final(out)@ == old(out)@ + parts_walk(es@),
    decreases es@,
{
    let mut i: usize = 0;
    assert(out@ =~= old(out)@ + parts_walk(es@.take(0)));
    while i < es.len()
        invariant
            i <= es@.len(),
            out@ == old(out)@ + parts_walk(es@.take(i as int)),
        decreases es@.len() - i,
    {
        part(&es[i], out);
        assert(es@.take(i + 1).drop_last() =~= es@.take(i as int));
        assert(out@ =~= old(out)@ + parts_walk(es@.take(i + 1)));
        i += 1;
    }
    assert(es@.take(es@.len() as int) =~= es@);
}

fn arm_list<'a>(es: &'a Vec<MatchArm>, out: &mut Vec<&'a Expr>)
    ensures
        final(out)@ == old(out)@ + arms_walk(es@),
    decreases es@,
{
    let mut i: usize = 0;
    assert(out@ =~= old(out)@ + arms_walk(es@.take(0)));
    while i < es.len()
        invariant
            i <= es@.len(),
            out@ == old(out)@ + arms_walk(es@.take(i as int)),
        decreases es@.len() - i,
    {
        arm(&es[i], out);
        assert(es@.take(i + 1).drop_last() =~= es@.take(i as int));
        assert(out@ =~= old(out)@ + arms_walk(es@.take(i + 1)));
        i += 1;
    }
    assert(es@.take(es@.len() as int) =~= es@);
}

fn params<'a>(es: &'a Vec<Param>, out: &mut Vec<&'a Expr>)
    ensures
        final(out)@ == old(out)@ + params_walk(es@),
    decreases es@,
{
    let mut i: usize = 0;
    assert(out@ =~= old(out)@ + params_walk(es@.take(0)));
    while i < es.len()
        invariant
            i <= es@.len(),
            out@ == old(out)@ + params_walk(es@.take(i as int)),
        decreases es@.len() - i,
    {
        opt(&es[i].default, out);
        assert(es@.take(i + 1).drop_last() =~= es@.take(i as int));
        assert(out@ =~= old(out)@ + params_walk(es@.take(i + 1)));
        i += 1;
    }
    assert(es@.take(es@.len() as int) =~= es@);
}

fn stmts<'a>(es: &'a Vec<Stmt>, out: &mut Vec<&'a Expr>)
    ensures
        final(out)@ == old(out)@ + stmts_walk(es@),
    decreases es@,
{
    let mut i: usize = 0;
    assert(out@ =~= old(out)@ + stmts_walk(es@.take(0)));
    while i < es.len()
        invariant
            i <= es@.len(),
            out@ == old(out)@ + stmts_walk(es@.take(i as int)),
        decreases es@.len() - i,
    {
        stmt(&es[i], out);
        assert(es@.take(i + 1).drop_last() =~= es@.take(i as int));
        assert(out@ =~= old(out)@ + stmts_walk(es@.take(i + 1)));
        i += 1;
    }
    assert(es@.take(es@.len() as int) =~= es@);
}

fn opt<'a>(o: &'a Option<Expr>, out: &mut Vec<&'a Expr>)
    ensures
        final(out)@ == old(out)@ + opt_walk(o),
    decreases o,
{
    if let Some(e) = o {
        expr(e, out);
    }
    assert(out@ =~= old(out)@ + opt_walk(o));
}

fn boxed<'a>(o: &'a Option<Box<Expr>>, out: &mut Vec<&'a Expr>)
    ensures
        final(out)@ == old(out)@ + boxed_walk(o),
    decreases o,
{
    if let Some(e) = o {
        expr(&**e, out);
    }
    assert(out@ =~= old(out)@ + boxed_walk(o));
}

fn arg<'a>(a: &'a CallArg, out: &mut Vec<&'a Expr>)
    ensures
        final(out)@ == old(out)@ + arg_walk(a),
    decreases a,
{
    match a {
        CallArg::Expr(e) => expr(e, out),
        CallArg::Named { value, .. } => expr(value, out),
        CallArg::Ref { expr: e, .. } => expr(e, out),
        CallArg::Out { .. } => {},
    }
    assert(out@ =~= old(out)@ + arg_walk(a));
}

fn part<'a>(p: &'a InterpolatedPart, out: &mut Vec<&'a Expr>)
    ensures
        final(out)@ == old(out)@ + part_walk(p),
    decreases p,
{
    if let InterpolatedPart::Expr(e) = p {
        expr(e, out);
    }
    assert(out@ =~= old(out)@ + part_walk(p));
}

fn arm<'a>(a: &'a MatchArm, out: &mut Vec<&'a Expr>)
    ensures
        final(out)@ == old(out)@ + arm_walk(a),
    decreases a,
{
    opt(&a.guard, out);
    match &a.body {
        MatchArmBody::Expr(e) => expr(e, out),
        MatchArmBody::Block(b) => block(b, out),
    }
    assert(out@ =~= old(out)@ + arm_walk(a));
}

fn block<'a>(b: &'a Block, out: &mut Vec<&'a Expr>)
    ensures
        final(out)@ == old(out)@ + block_walk(b),
    decreases b,
{
    stmts(&b.stmts, out);
}

fn opt_block<'a>(o: &'a Option<Block>, out: &mut Vec<&'a Expr>)
    ensures
        final(out)@ == old(out)@ + opt_block_walk(o),
    decreases o,
{
    if let Some(b) = o {
        block(b, out);
    }
    assert(out@ =~= old(out)@ + opt_block_walk(o));
}

fn stmt<'a>(s: &'a Stmt, out: &mut Vec<&'a Expr>)
    ensures
        final(out)@ == old(out)@ + stmt_walk(s),
    decreases s,
{
    match s {
        Stmt::VarDecl(d) => opt(&d.init, out),
        Stmt::Const(d) => expr(&d.init, out),
        Stmt::Destructure(d) => expr(&d.expr, out),
        Stmt::Expr(e) => expr(&e.expr, out),
        Stmt::Return(r) => opt(&r.value, out),
        Stmt::Delete(d) => expr(&d.target, out),
        Stmt::Block(b) => block(b, out),
        Stmt::If(i) => {
            expr(&i.cond, out);
            block(&i.then_block, out);
            opt_block(&i.else_block, out);
        },
        Stmt::While(w) => {
            expr(&w.cond, out);
            block(&w.body, out);
        },
        Stmt::Loop(l) => block(&l.body, out),
        Stmt::For(f) => {
            expr(&f.iter, out);
            block(&f.body, out);
        },
        Stmt::Assert(a) => {
            expr(&a.cond, out);
            opt(&a.message, out);
        },
        Stmt::Defer(d) => match &d.inner {
            DeferInner::Expr(e) => expr(e, out),
            DeferInner::Block(b) => block(b, out),
        },
        Stmt::Scope(b) => block(b, out),
        Stmt::Yield(_) | Stmt::Break(_) | Stmt::Continue(_) => {},
    }
    assert(out@ =~= old(out)@ + stmt_walk(s));
}

fn expr<'a>(e: &'a Expr, out: &mut Vec<&'a Expr>)
    ensures
        final(out)@ == old(out)@ + expr_walk(e),
    decreases e,
{
    out.push(e);
    match &e.kind {
        ExprKind::Paren(x) => expr(&**x, out),
        ExprKind::Unary { expr: x, .. } => expr(&**x, out),
        ExprKind::Postfix { expr: x, .. } => expr(&**x, out),
        ExprKind::Binary { lhs, rhs, .. } => {
            expr(&**lhs, out);
            expr(&**rhs, out);
        },
        ExprKind::Assign { lhs, value } => {
            expr(&**lhs, out);
            expr(&**value, out);
        },
        ExprKind::CompoundAssign { lhs, value, .. } => {
            expr(&**lhs, out);
            expr(&**value, out);
        },
        ExprKind::Conditional { cond, then_branch, else_branch } => {
            expr(&**cond, out);
            expr(&**then_branch, out);
            expr(&**else_branch, out);
        },
        ExprKind::Range { start, end, .. } => {
            boxed(start, out);
            boxed(end, out);
        },
        ExprKind::Call { args, .. } => arg_list(args, out),
        ExprKind::New { args, .. } => arg_list(args, out),
        ExprKind::EnumVariant { args, .. } => arg_list(args, out),
        ExprKind::Await { task, .. } => expr(&**task, out),
        ExprKind::Spawn { task, .. } => expr(&**task, out),
        ExprKind::MethodCall { object, args, .. } => {
            expr(&**object, out);
            arg_list(args, out);
        },
        ExprKind::MemberAccess { object, .. } => expr(&**object, out),
        ExprKind::NullableMemberAccess { object, .. } => expr(&**object, out),
        ExprKind::Index { object, index } => {
            expr(&**object, out);
            expr(&**index, out);
        },
        ExprKind::Slice { object, start, end } => {
            expr(&**object, out);
            boxed(start, out);
            boxed(end, out);
        },
        ExprKind::Tuple(es) => expr_list(es, out),
        ExprKind::ArrayLit(es) => expr_list(es, out),
        ExprKind::MapLit { entries, .. } => entry_list(entries, out),
        ExprKind::StructLit { fields, .. } => init_list(fields, out),
        ExprKind::InterpolatedString(parts, _) => part_list(parts, out),
        ExprKind::Match(m) => {
            expr(&*m.scrutinee, out);
            arm_list(&m.arms, out);
        },
        ExprKind::Closure { params: ps, body, .. } => {
            params(ps, out);
            match &**body {
                ClosureBody::Expr(x) => expr(x, out),
                ClosureBody::Block(b) => block(b, out),
            }
        },
        ExprKind::IntLit(_)
        | ExprKind::FloatLit(_)
        | ExprKind::BoolLit(_)
        | ExprKind::StringLit(_)
        | ExprKind::CharLit(_)
        | ExprKind::Ident(_)
        | ExprKind::This
        | ExprKind::Super
        | ExprKind::Null
        | ExprKind::VecEmpty(_) => {},
    }
    assert(out@ =~= old(out)@ + expr_walk(e));
}

fn function<'a>(f: &'a Function, out: &mut Vec<&'a Expr>)
    ensures
        final(out)@ == old(out)@ + function_walk(f),
{
    params(&f.params, out);
    block(&f.body, out);
    assert(out@ =~= old(out)@ + function_walk(f));
}

fn property<'a>(p: &'a PropertyDecl, out: &mut Vec<&'a Expr>)
    ensures
        final(out)@ == old(out)@ + property_walk(p),
{
    opt_block(&p.getter, out);
    if let Some(s) = &p.setter {
        block(&s.1, out);
    }
    assert(out@ =~= old(out)@ + property_walk(p));
}

fn operator<'a>(o: &'a OperatorDecl, out: &mut Vec<&'a Expr>)
    ensures
        final(out)@ == old(out)@ + operator_walk(o),
{
    params(&o.params, out);
    block(&o.body, out);
    assert(out@ =~= old(out)@ + operator_walk(o));
}

fn fields<'a>(es: &'a Vec<StructField>, out: &mut Vec<&'a Expr>)
    ensures
        final(out)@ == old(out)@ + fields_walk(es@),
{
    let mut i: usize = 0;
    assert(out@ =~= old(out)@ + fields_walk(es@.take(0)));
    while i < es.len()
        invariant
            i <= es@.len(),
            out@ == old(out)@ + fields_walk(es@.take(i as int)),
        decreases es@.len() - i,
    {
        opt(&es[i].default, out);
        assert(es@.take(i + 1).drop_last() =~= es@.take(i as int));
        assert(out@ =~= old(out)@ + fields_walk(es@.take(i + 1)));
        i += 1;
    }
    assert(es@.take(es@.len() as int) =~= es@);
}

fn functions<'a>(es: &'a Vec<Function>, out: &mut Vec<&'a Expr>)
    ensures
        final(out)@ == old(out)@ + functions_walk(es@),
{
    let mut i: usize = 0;
    assert(out@ =~= old(out)@ + functions_walk(es@.take(0)));
    while i < es.len()
        invariant
            i <= es@.len(),
            out@ == old(out)@ + functions_walk(es@.take(i as int)),
        decreases es@.len() - i,
    {
        function(&es[i], out);
        assert(es@.take(i + 1).drop_last() =~= es@.take(i as int));
        assert(out@ =~= old(out)@ + functions_walk(es@.take(i + 1)));
        i += 1;
    }
    assert(es@.take(es@.len() as int) =~= es@);
}

fn constructors<'a>(es: &'a Vec<Constructor>, out: &mut Vec<&'a Expr>)
    ensures
        final(out)@ == old(out)@ + constructors_walk(es@),
{
    let mut i: usize = 0;
    assert(out@ =~= old(out)@ + constructors_walk(es@.take(0)));
    while i < es.len()
        invariant
            i <= es@.len(),
            out@ == old(out)@ + constructors_walk(es@.take(i as int)),
        decreases es@.len() - i,
    {
        params(&es[i].params, out);
        opt_block(&es[i].body, out);
        assert(es@.take(i + 1).drop_last() =~= es@.take(i as int));
        assert(out@ =~= old(out)@ + constructors_walk(es@.take(i + 1)));
        i += 1;
    }
    assert(es@.take(es@.len() as int) =~= es@);
}

fn destructors<'a>(es: &'a Vec<Destructor>, out: &mut Vec<&'a Expr>)
    ensures
        final(out)@ == old(out)@ + destructors_walk(es@),
{
    let mut i: usize = 0;
    assert(out@ =~= old(out)@ + destructors_walk(es@.take(0)));
    while i < es.len()
        invariant
            i <= es@.len(),
            out@ == old(out)@ + destructors_walk(es@.take(i as int)),
        decreases es@.len() - i,
    {
        block(&es[i].body, out);
        assert(es@.take(i + 1).drop_last() =~= es@.take(i as int));
        assert(out@ =~= old(out)@ + destructors_walk(es@.take(i + 1)));
        i += 1;
    }
    assert(es@.take(es@.len() as int) =~= es@);
}

fn properties<'a>(es: &'a Vec<PropertyDecl>, out: &mut Vec<&'a Expr>)
    ensures
        final(out)@ == old(out)@ + properties_walk(es@),
{
    let mut i: usize = 0;
    assert(out@ =~= old(out)@ + properties_walk(es@.take(0)));
    while i < es.len()
        invariant
            i <= es@.len(),
            out@ == old(out)@ + properties_walk(es@.take(i as int)),
        decreases es@.len() - i,
    {
        property(&es[i], out);
        assert(es@.take(i + 1).drop_last() =~= es@.take(i as int));
        assert(out@ =~= old(out)@ + properties_walk(es@.take(i + 1)));
        i += 1;
    }
    assert(es@.take(es@.len() as int) =~= es@);
}

fn operators<'a>(es: &'a Vec<OperatorDecl>, out: &mut Vec<&'a Expr>)
    ensures
        final(out)@ == old(out)@ + operators_walk(es@),
{
    let mut i: usize = 0;
    assert(out@ =~= old(out)@ + operators_walk(es@.take(0)));
    while i < es.len()
        invariant
            i <= es@.len(),
            out@ == old(out)@ + operators_walk(es@.take(i as int)),
        decreases es@.len() - i,
    {
        operator(&es[i], out);
        assert(es@.take(i + 1).drop_last() =~= es@.take(i as int));
        assert(out@ =~= old(out)@ + operators_walk(es@.take(i + 1)));
        i += 1;
    }
    assert(es@.take(es@.len() as int) =~= es@);
}

fn conversions<'a>(es: &'a Vec<ConversionDecl>, out: &mut Vec<&'a Expr>)
    ensures
        final(out)@ == old(out)@ + conversions_walk(es@),
{
    let mut i: usize = 0;
    assert(out@ =~= old(out)@ + conversions_walk(es@.take(0)));
    while i < es.len()
        invariant
            i <= es@.len(),
            out@ == old(out)@ + conversions_walk(es@.take(i as int)),
        decreases es@.len() - i,
    {
        block(&es[i].body, out);
        assert(es@.take(i + 1).drop_last() =~= es@.take(i as int));
        assert(out@ =~= old(out)@ + conversions_walk(es@.take(i + 1)));
        i += 1;
    }
    assert(es@.take(es@.len() as int) =~= es@);
}

fn members<'a>(es: &'a Vec<ExtensionMember>, out: &mut Vec<&'a Expr>)
    ensures
        final(out)@ == old(out)@ + members_walk(es@),
{
    let mut i: usize = 0;
    assert(out@ =~= old(out)@ + members_walk(es@.take(0)));
    while i < es.len()
        invariant
            i <= es@.len(),
            out@ == old(out)@ + members_walk(es@.take(i as int)),
        decreases es@.len() - i,
    {
        match &es[i] {
            ExtensionMember::Function(f) => function(f, out),
            ExtensionMember::Field(f) => opt(&f.default, out),
            ExtensionMember::Property(p) => property(p, out),
            ExtensionMember::Operator(o) => operator(o, out),
            ExtensionMember::Conversion(c) => block(&c.body, out),
        }
        assert(es@.take(i + 1).drop_last() =~= es@.take(i as int));
        assert(out@ =~= old(out)@ + members_walk(es@.take(i + 1)));
        i += 1;
    }
    assert(es@.take(es@.len() as int) =~= es@);
}

fn variants<'a>(es: &'a Vec<EnumVariantDecl>, out: &mut Vec<&'a Expr>)
    ensures
        final(out)@ == old(out)@ + variants_walk(es@),
{
    let mut i: usize = 0;
    assert(out@ =~= old(out)@ + variants_walk(es@.take(0)));
    while i < es.len()
        invariant
            i <= es@.len(),
            out@ == old(out)@ + variants_walk(es@.take(i as int)),
        decreases es@.len() - i,
    {
        params(&es[i].payload_params, out);
        opt(&es[i].discriminant, out);
        assert(es@.take(i + 1).drop_last() =~= es@.take(i as int));
        assert(out@ =~= old(out)@ + variants_walk(es@.take(i + 1)));
        i += 1;
    }
    assert(es@.take(es@.len() as int) =~= es@);
}

fn signatures<'a>(es: &'a Vec<TraitMethod>, out: &mut Vec<&'a Expr>)
    ensures
        final(out)@ == old(out)@ + signatures_walk(es@),
{
    let mut i: usize = 0;
    assert(out@ =~= old(out)@ + signatures_walk(es@.take(0)));
    while i < es.len()
        invariant
            i <= es@.len(),
            out@ == old(out)@ + signatures_walk(es@.take(i as int)),
        decreases es@.len() - i,
    {
        params(&es[i].params, out);
        assert(es@.take(i + 1).drop_last() =~= es@.take(i as int));
        assert(out@ =~= old(out)@ + signatures_walk(es@.take(i + 1)));
        i += 1;
    }
    assert(es@.take(es@.len() as int) =~= es@);
}

fn class<'a>(c: &'a ClassDecl, out: &mut Vec<&'a Expr>)
    ensures
        final(out)@ == old(out)@ + class_walk(c),
{
    fields(&c.fields, out);
    functions(&c.methods, out);
    constructors(&c.constructors, out);
    destructors(&c.destructors, out);
    properties(&c.properties, out);
    operators(&c.operators, out);
    conversions(&c.conversions, out);
    assert(out@ =~= old(out)@ + class_walk(c));
}

fn item<'a>(i: &'a Item, out: &mut Vec<&'a Expr>)
    ensures
        final(out)@ == old(out)@ + item_walk(i),
    decreases i,
{
    match i {
        Item::Function(f) => function(f, out),
        Item::Init(b) => block(b, out),
        Item::Var(d) => opt(&d.init, out),
        Item::Const(d) => expr(&d.init, out),
        Item::Attributed { item: inner, .. } => item(&**inner, out),
        Item::Struct(s) => fields(&s.fields, out),
        Item::Class(c) => class(c, out),
        Item::Extension(e) => members(&e.members, out),
        Item::Enum(e) => variants(&e.variants, out),
        Item::Trait(t) => signatures(&t.methods, out),
        Item::Import(_) | Item::Typedef(_) | Item::Distinct(_) | Item::Extern(_) => {},
    }
    assert(out@ =~= old(out)@ + item_walk(i));
}

fn items<'a>(es: &'a Vec<Item>, out: &mut Vec<&'a Expr>)
    ensures
        final(out)@ == old(out)@ + items_walk(es@),
{
    let mut i: usize = 0;
    assert(out@ =~= old(out)@ + items_walk(es@.take(0)));
    while i < es.len()
        invariant
            i <= es@.len(),
            out@ == old(out)@ + items_walk(es@.take(i as int)),
        decreases es@.len() - i,
    {
        item(&es[i], out);
        assert(es@.take(i + 1).drop_last() =~= es@.take(i as int));
        assert(out@ =~= old(out)@ + items_walk(es@.take(i + 1)));
        i += 1;
    }
    assert(es@.take(es@.len() as int) =~= es@);
}

/// Every expression of a program.
pub fn program<'a>(p: &'a Program) -> (r: Vec<&'a Expr>)
    ensures
        r@ == program_walk(p),
{
    let mut out: Vec<&'a Expr> = Vec::new();
    items(&p.items, &mut out);
    assert(out@ =~= program_walk(p));
    out
}

/// Every expression of one item.
pub fn exprs_of_item<'a>(i: &'a Item) -> (r: Vec<&'a Expr>)
    ensures
        r@ == item_walk(i),
{
    let mut out: Vec<&'a Expr> = Vec::new();
    item(i, &mut out);
    assert(out@ =~= item_walk(i));
    out
}

/// Every expression of one function.
pub fn function_exprs<'a>(f: &'a Function) -> (r: Vec<&'a Expr>)
    ensures
        r@ == function_walk(f),
{
    let mut out: Vec<&'a Expr> = Vec::new();
    function(f, &mut out);
    assert(out@ =~= function_walk(f));
    out
}

/// Every expression of one block.
pub fn block_exprs<'a>(b: &'a Block) -> (r: Vec<&'a Expr>)
    ensures
        r@ == block_walk(b),
{
    let mut out: Vec<&'a Expr> = Vec::new();
    block(b, &mut out);
    assert(out@ =~= block_walk(b));
    out
}

/// One expression and everything under it.
pub fn exprs<'a>(e: &'a Expr) -> (r: Vec<&'a Expr>)
    ensures
        r@ == expr_walk(e),
{
    let mut out: Vec<&'a Expr> = Vec::new();
    expr(e, &mut out);
    assert(out@ =~= expr_walk(e));
    out
}

// ---------------------------------------------------------------------------
// What the type traversal names
// ---------------------------------------------------------------------------

/// The names in a list of types.
pub open spec fn tys_names(es: Seq<Type>) -> Seq<Seq<char>>
    decreases es,
{
    if es.len() == 0 {
        Seq::empty()
    } else {
        tys_names(es.drop_last()) + ty_names(&es.last())
    }
}

/// The names a type mentions, without qualifiers (`a::B` counts as `B`).
pub open spec fn ty_names(t: &Type) -> Seq<Seq<char>>
    decreases t,
{
    match t {
        Type::Named(n, _) => seq![base_name(n@)],
        Type::Generic(b, args, _) => seq![base_name(b@)] + tys_names(args@),
        Type::FunctionType(r, ps, _) => ty_names(&**r) + tys_names(ps@),
        Type::Tuple(ts, _) => tys_names(ts@),
        Type::Array(e, _) => ty_names(&**e),
        Type::Vec { elem, .. } => ty_names(&**elem),
        Type::Pointer(e, _) => ty_names(&**e),
        Type::Optional(e, _) => ty_names(&**e),
        Type::Own(e, _) => ty_names(&**e),
        Type::Task(e, _) => ty_names(&**e),
        Type::FixedArray { elem, .. } => ty_names(&**elem),
        Type::Dict { key, value, .. } => ty_names(&**key) + ty_names(&**value),
        Type::Int(_)
        | Type::Bool(_)
        | Type::Void(_)
        | Type::Str(_)
        | Type::Char(_)
        | Type::Float(_)
        | Type::Double(_)
        | Type::Any(_) => Seq::empty(),
    }
}

pub open spec fn opt_ty_names(t: &Option<Type>) -> Seq<Seq<char>> {
    match t {
        Some(t) => ty_names(t),
        None => Seq::empty(),
    }
}

pub open spec fn params_names(es: Seq<Param>) -> Seq<Seq<char>>
    decreases es,
{
    if es.len() == 0 {
        Seq::empty()
    } else {
        params_names(es.drop_last()) + ty_names(&es.last().ty)
    }
}

pub open spec fn fields_names(es: Seq<StructField>) -> Seq<Seq<char>>
    decreases es,
{
    if es.len() == 0 {
        Seq::empty()
    } else {
        fields_names(es.drop_last()) + ty_names(&es.last().ty)
    }
}

pub open spec fn stmts_names(es: Seq<Stmt>) -> Seq<Seq<char>>
    decreases es,
{
    if es.len() == 0 {
        Seq::empty()
    } else {
        stmts_names(es.drop_last()) + stmt_names(&es.last())
    }
}

pub open spec fn block_names(b: &Block) -> Seq<Seq<char>>
    decreases b,
{
    stmts_names(b.stmts@)
}

pub open spec fn opt_block_names(b: &Option<Block>) -> Seq<Seq<char>>
    decreases b,
{
    match b {
        Some(b) => block_names(b),
        None => Seq::empty(),
    }
}

/// The types that the declarations in a statement mention.
pub open spec fn stmt_names(s: &Stmt) -> Seq<Seq<char>>
    decreases s,
{
    match s {
        Stmt::VarDecl(d) => ty_names(&d.ty),
        Stmt::Const(d) => opt_ty_names(&d.ty),
        Stmt::Block(b) => block_names(b),
        Stmt::If(i) => block_names(&i.then_block) + opt_block_names(&i.else_block),
        Stmt::While(w) => block_names(&w.body),
        Stmt::Loop(l) => block_names(&l.body),
        Stmt::For(f) => block_names(&f.body),
        Stmt::Defer(d) => match &d.inner {
            DeferInner::Block(b) => block_names(b),
            DeferInner::Expr(_) => Seq::empty(),
        },
        Stmt::Scope(b) => block_names(b),
        Stmt::Destructure(_)
        | Stmt::Expr(_)
        | Stmt::Return(_)
        | Stmt::Delete(_)
        | Stmt::Assert(_)
        | Stmt::Yield(_)
        | Stmt::Break(_)
        | Stmt::Continue(_) => Seq::empty(),
    }
}

pub open spec fn function_names(f: &Function) -> Seq<Seq<char>> {
    ty_names(&f.ret_ty) + params_names(f.params@) + block_names(&f.body)
}

pub open spec fn property_names(p: &PropertyDecl) -> Seq<Seq<char>> {
    opt_ty_names(&p.ty) + opt_block_names(&p.getter) + match &p.setter {
        Some(s) => ty_names(&s.0.ty) + block_names(&s.1),
        None => Seq::empty(),
    }
}

pub open spec fn operator_names(o: &OperatorDecl) -> Seq<Seq<char>> {
    params_names(o.params@) + block_names(&o.body)
}

pub open spec fn conversion_names(c: &ConversionDecl) -> Seq<Seq<char>> {
    ty_names(&c.from_ty) + ty_names(&c.to_ty) + block_names(&c.body)
}

pub open spec fn member_names(m: &ExtensionMember) -> Seq<Seq<char>> {
    match m {
        ExtensionMember::Function(f) => function_names(f),
        ExtensionMember::Field(f) => ty_names(&f.ty),
        ExtensionMember::Property(p) => property_names(p),
        ExtensionMember::Operator(o) => operator_names(o),
        ExtensionMember::Conversion(c) => conversion_names(c),
    }
}

pub open spec fn functions_names(es: Seq<Function>) -> Seq<Seq<char>>
    decreases es,
{
    if es.len() == 0 {
        Seq::empty()
    } else {
        functions_names(es.drop_last()) + function_names(&es.last())
    }
}

pub open spec fn constructors_names(es: Seq<Constructor>) -> Seq<Seq<char>>
    decreases es,
{
    if es.len() == 0 {
        Seq::empty()
    } else {
        constructors_names(es.drop_last()) + (params_names(es.last().params@) + opt_block_names(
            &es.last().body,
        ))
    }
}

pub open spec fn destructors_names(es: Seq<Destructor>) -> Seq<Seq<char>>
    decreases es,
{
    if es.len() == 0 {
        Seq::empty()
    } else {
        destructors_names(es.drop_last()) + block_names(&es.last().body)
    }
}

pub open spec fn properties_names(es: Seq<PropertyDecl>) -> Seq<Seq<char>>
    decreases es,
{
    if es.len() == 0 {
        Seq::empty()
    } else {
        properties_names(es.drop_last()) + property_names(&es.last())
    }
}

pub open spec fn operators_names(es: Seq<OperatorDecl>) -> Seq<Seq<char>>
    decreases es,
{
    if es.len() == 0 {
        Seq::empty()
    } else {
        operators_names(es.drop_last()) + operator_names(&es.last())
    }
}

pub open spec fn conversions_names(es: Seq<ConversionDecl>) -> Seq<Seq<char>>
    decreases es,
{
    if es.len() == 0 {
        Seq::empty()
    } else {
        conversions_names(es.drop_last()) + conversion_names(&es.last())
    }
}

pub open spec fn members_names(es: Seq<ExtensionMember>) -> Seq<Seq<char>>
    decreases es,
{
    if es.len() == 0 {
        Seq::empty()
    } else {
        members_names(es.drop_last()) + member_names(&es.last())
    }
}

pub open spec fn variants_names(es: Seq<EnumVariantDecl>) -> Seq<Seq<char>>
    decreases es,
{
    if es.len() == 0 {
        Seq::empty()
    } else {
        variants_names(es.drop_last()) + params_names(es.last().payload_params@)
    }
}

pub open spec fn signatures_names(es: Seq<TraitMethod>) -> Seq<Seq<char>>
    decreases es,
{
    if es.len() == 0 {
        Seq::empty()
    } else {
        signatures_names(es.drop_last()) + (ty_names(&es.last().ret_ty) + params_names(
            es.last().params@,
        ))
    }
}

pub open spec fn class_names(c: &ClassDecl) -> Seq<Seq<char>> {
    fields_names(c.fields@) + functions_names(c.methods@) + constructors_names(c.constructors@)
        + destructors_names(c.destructors@) + properties_names(c.properties@) + operators_names(
        c.operators@,
    ) + conversions_names(c.conversions@)
}

/// The named types an item mentions in its declarations.
pub open spec fn item_names(i: &Item) -> Seq<Seq<char>>
    decreases i,
{
    match i {
        Item::Function(f) => function_names(f),
        Item::Init(b) => block_names(b),
        Item::Var(d) => ty_names(&d.ty),
        Item::Const(d) => opt_ty_names(&d.ty),
        Item::Attributed { item, .. } => item_names(&**item),
        Item::Struct(s) => fields_names(s.fields@),
        Item::Class(c) => class_names(c),
        Item::Extension(e) => members_names(e.members@),
        Item::Enum(e) => variants_names(e.variants@),
        Item::Trait(t) => signatures_names(t.methods@),
        Item::Typedef(t) => ty_names(&t.ty),
        Item::Distinct(d) => ty_names(&d.ty),
        Item::Import(_) | Item::Extern(_) => Seq::empty(),
    }
}

// ---------------------------------------------------------------------------
// The type traversal
// ---------------------------------------------------------------------------

fn push_base(n: &String, out: &mut Vec<String>)
    ensures
        texts(final(out)@) == texts(old(out)@) + seq![base_name(n@)],
{
    let v = chars_of(n.as_str());
    let b = base_name_of(&v);
    out.push(string_of(&b));
    assert(texts(out@) =~= texts(old(out)@) + seq![base_name(n@)]);
}

fn tys(es: &Vec<Type>, out: &mut Vec<String>)
    ensures
        texts(final(out)@) == texts(old(out)@) + tys_names(es@),
    decreases es@,
{
    let mut i: usize = 0;
    assert(texts(out@) =~= texts(old(out)@) + tys_names(es@.take(0)));
    while i < es.len()
        invariant
            i <= es@.len(),
            texts(out@) == texts(old(out)@) + tys_names(es@.take(i as int)),
        decreases es@.len() - i,
    {
        ty(&es[i], out);
        assert(es@.take(i + 1).drop_last() =~= es@.take(i as int));
        assert(texts(out@) =~= texts(old(out)@) + tys_names(es@.take(i + 1)));
        i += 1;
    }
    assert(es@.take(es@.len() as int) =~= es@);
}

fn ty(t: &Type, out: &mut Vec<String>)
    ensures
        texts(final(out)@) == texts(old(out)@) + ty_names(t),
    decreases t,
{
    match t {
        Type::Named(n, _) => push_base(n, out),
        Type::Generic(b, args, _) => {
            push_base(b, out);
            tys(args, out);
        },
        Type::FunctionType(r, ps, _) => {
            ty(&**r, out);
            tys(ps, out);
        },
        Type::Tuple(ts, _) => tys(ts, out),
        Type::Array(e, _) => ty(&**e, out),
        Type::Vec { elem, .. } => ty(&**elem, out),
        Type::Pointer(e, _) => ty(&**e, out),
        Type::Optional(e, _) => ty(&**e, out),
        Type::Own(e, _) => ty(&**e, out),
        Type::Task(e, _) => ty(&**e, out),
        Type::FixedArray { elem, .. } => ty(&**elem, out),
        Type::Dict { key, value, .. } => {
            ty(&**key, out);
            ty(&**value, out);
        },
        Type::Int(_)
        | Type::Bool(_)
        | Type::Void(_)
        | Type::Str(_)
        | Type::Char(_)
        | Type::Float(_)
        | Type::Double(_)
        | Type::Any(_) => {},
    }
    assert(texts(out@) =~= texts(old(out)@) + ty_names(t));
}

fn opt_ty(t: &Option<Type>, out: &mut Vec<String>)
    ensures
        texts(final(out)@) == texts(old(out)@) + opt_ty_names(t),
{
    if let Some(t) = t {
        ty(t, out);
    }
    assert(texts(out@) =~= texts(old(out)@) + opt_ty_names(t));
}

fn params_types(es: &Vec<Param>, out: &mut Vec<String>)
    ensures
        texts(final(out)@) == texts(old(out)@) + params_names(es@),
{
    let mut i: usize = 0;
    assert(texts(out@) =~= texts(old(out)@) + params_names(es@.take(0)));
    while i < es.len()
        invariant
            i <= es@.len(),
            texts(out@) == texts(old(out)@) + params_names(es@.take(i as int)),
        decreases es@.len() - i,
    {
        ty(&es[i].ty, out);
        assert(es@.take(i + 1).drop_last() =~= es@.take(i as int));
        assert(texts(out@) =~= texts(old(out)@) + params_names(es@.take(i + 1)));
        i += 1;
    }
    assert(es@.take(es@.len() as int) =~= es@);
}

fn fields_types(es: &Vec<StructField>, out: &mut Vec<String>)
    ensures
        texts(final(out)@) == texts(old(out)@) + fields_names(es@),
{
    let mut i: usize = 0;
    assert(texts(out@) =~= texts(old(out)@) + fields_names(es@.take(0)));
    while i < es.len()
        invariant
            i <= es@.len(),
            texts(out@) == texts(old(out)@) + fields_names(es@.take(i as int)),
        decreases es@.len() - i,
    {
        ty(&es[i].ty, out);
        assert(es@.take(i + 1).drop_last() =~= es@.take(i as int));
        assert(texts(out@) =~= texts(old(out)@) + fields_names(es@.take(i + 1)));
        i += 1;
    }
    assert(es@.take(es@.len() as int) =~= es@);
}

fn stmts_types(es: &Vec<Stmt>, out: &mut Vec<String>)
    ensures
        texts(final(out)@) == texts(old(out)@) + stmts_names(es@),
    decreases es@,
{
    let mut i: usize = 0;
    assert(texts(out@) =~= texts(old(out)@) + stmts_names(es@.take(0)));
    while i < es.len()
        invariant
            i <= es@.len(),
            texts(out@) == texts(old(out)@) + stmts_names(es@.take(i as int)),
        decreases es@.len() - i,
    {
        stmt_types(&es[i], out);
        assert(es@.take(i + 1).drop_last() =~= es@.take(i as int));
        assert(texts(out@) =~= texts(old(out)@) + stmts_names(es@.take(i + 1)));
        i += 1;
    }
    assert(es@.take(es@.len() as int) =~= es@);
}

fn block_types(b: &Block, out: &mut Vec<String>)
    ensures
        texts(final(out)@) == texts(old(out)@) + block_names(b),
    decreases b,
{
    stmts_types(&b.stmts, out);
    assert(texts(out@) =~= texts(old(out)@) + block_names(b));
}

fn opt_block_types(o: &Option<Block>, out: &mut Vec<String>)
    ensures
        texts(final(out)@) == texts(old(out)@) + opt_block_names(o),
    decreases o,
{
    if let Some(b) = o {
        block_types(b, out);
    }
    assert(texts(out@) =~= texts(old(out)@) + opt_block_names(o));
}

fn stmt_types(s: &Stmt, out: &mut Vec<String>)
    ensures
        texts(final(out)@) == texts(old(out)@) + stmt_names(s),
    decreases s,
{
    match s {
        Stmt::VarDecl(d) => ty(&d.ty, out),
        Stmt::Const(d) => opt_ty(&d.ty, out),
        Stmt::Block(b) => block_types(b, out),
        Stmt::If(i) => {
            block_types(&i.then_block, out);
            opt_block_types(&i.else_block, out);
        },
        Stmt::While(w) => block_types(&w.body, out),
        Stmt::Loop(l) => block_types(&l.body, out),
        Stmt::For(f) => block_types(&f.body, out),
        Stmt::Defer(d) => match &d.inner {
            DeferInner::Block(b) => block_types(b, out),
            DeferInner::Expr(_) => {},
        },
        Stmt::Scope(b) => block_types(b, out),
        Stmt::Destructure(_)
        | Stmt::Expr(_)
        | Stmt::Return(_)
        | Stmt::Delete(_)
        | Stmt::Assert(_)
        | Stmt::Yield(_)
        | Stmt::Break(_)
        | Stmt::Continue(_) => {},
    }
    assert(texts(out@) =~= texts(old(out)@) + stmt_names(s));
}

fn function_types(f: &Function, out: &mut Vec<String>)
    ensures
        texts(final(out)@) == texts(old(out)@) + function_names(f),
{
    ty(&f.ret_ty, out);
    params_types(&f.params, out);
    block_types(&f.body, out);
    assert(texts(out@) =~= texts(old(out)@) + function_names(f));
}

fn property_types(p: &PropertyDecl, out: &mut Vec<String>)
    ensures
        texts(final(out)@) == texts(old(out)@) + property_names(p),
{
    opt_ty(&p.ty, out);
    opt_block_types(&p.getter, out);
    if let Some(s) = &p.setter {
        ty(&s.0.ty, out);
        block_types(&s.1, out);
    }
    assert(texts(out@) =~= texts(old(out)@) + property_names(p));
}

fn operator_types(o: &OperatorDecl, out: &mut Vec<String>)
    ensures
        texts(final(out)@) == texts(old(out)@) + operator_names(o),
{
    params_types(&o.params, out);
    block_types(&o.body, out);
    assert(texts(out@) =~= texts(old(out)@) + operator_names(o));
}

fn conversion_types(c: &ConversionDecl, out: &mut Vec<String>)
    ensures
        texts(final(out)@) == texts(old(out)@) + conversion_names(c),
{
    ty(&c.from_ty, out);
    ty(&c.to_ty, out);
    block_types(&c.body, out);
    assert(texts(out@) =~= texts(old(out)@) + conversion_names(c));
}

fn functions_types(es: &Vec<Function>, out: &mut Vec<String>)
    ensures
        texts(final(out)@) == texts(old(out)@) + functions_names(es@),
{
    let mut i: usize = 0;
    assert(texts(out@) =~= texts(old(out)@) + functions_names(es@.take(0)));
    while i < es.len()
        invariant
            i <= es@.len(),
            texts(out@) == texts(old(out)@) + functions_names(es@.take(i as int)),
        decreases es@.len() - i,
    {
        function_types(&es[i], out);
        assert(es@.take(i + 1).drop_last() =~= es@.take(i as int));
        assert(texts(out@) =~= texts(old(out)@) + functions_names(es@.take(i + 1)));
        i += 1;
    }
    assert(es@.take(es@.len() as int) =~= es@);
}

fn constructors_types(es: &Vec<Constructor>, out: &mut Vec<String>)
    ensures
        texts(final(out)@) == texts(old(out)@) + constructors_names(es@),
{
    let mut i: usize = 0;
    assert(texts(out@) =~= texts(old(out)@) + constructors_names(es@.take(0)));
    while i < es.len()
        invariant
            i <= es@.len(),
            texts(out@) == texts(old(out)@) + constructors_names(es@.take(i as int)),
        decreases es@.len() - i,
    {
        params_types(&es[i].params, out);
        opt_block_types(&es[i].body, out);
        assert(es@.take(i + 1).drop_last() =~= es@.take(i as int));
        assert(texts(out@) =~= texts(old(out)@) + constructors_names(es@.take(i + 1)));
        i += 1;
    }
    assert(es@.take(es@.len() as int) =~= es@);
}

fn destructors_types(es: &Vec<Destructor>, out: &mut Vec<String>)
    ensures
        texts(final(out)@) == texts(old(out)@) + destructors_names(es@),
{
    let mut i: usize = 0;
    assert(texts(out@) =~= texts(old(out)@) + destructors_names(es@.take(0)));
    while i < es.len()
        invariant
            i <= es@.len(),
            texts(out@) == texts(old(out)@) + destructors_names(es@.take(i as int)),
        decreases es@.len() - i,
    {
        block_types(&es[i].body, out);
        assert(es@.take(i + 1).drop_last() =~= es@.take(i as int));
        assert(texts(out@) =~= texts(old(out)@) + destructors_names(es@.take(i + 1)));
        i += 1;
    }
    assert(es@.take(es@.len() as int) =~= es@);
}

fn properties_types(es: &Vec<PropertyDecl>, out: &mut Vec<String>)
    ensures
        texts(final(out)@) == texts(old(out)@) + properties_names(es@),
{
    let mut i: usize = 0;
    assert(texts(out@) =~= texts(old(out)@) + properties_names(es@.take(0)));
    while i < es.len()
        invariant
            i <= es@.len(),
            texts(out@) == texts(old(out)@) + properties_names(es@.take(i as int)),
        decreases es@.len() - i,
    {
        property_types(&es[i], out);
        assert(es@.take(i + 1).drop_last() =~= es@.take(i as int));
        assert(texts(out@) =~= texts(old(out)@) + properties_names(es@.take(i + 1)));
        i += 1;
    }
    assert(es@.take(es@.len() as int) =~= es@);
}

fn operators_types(es: &Vec<OperatorDecl>, out: &mut Vec<String>)
    ensures
        texts(final(out)@) == texts(old(out)@) + operators_names(es@),
{
    let mut i: usize = 0;
    assert(texts(out@) =~= texts(old(out)@) + operators_names(es@.take(0)));
    while i < es.len()
        invariant
            i <= es@.len(),
            texts(out@) == texts(old(out)@) + operators_names(es@.take(i as int)),
        decreases es@.len() - i,
    {
        operator_types(&es[i], out);
        assert(es@.take(i + 1).drop_last() =~= es@.take(i as int));
        assert(texts(out@) =~= texts(old(out)@) + operators_names(es@.take(i + 1)));
        i += 1;
    }
    assert(es@.take(es@.len() as int) =~= es@);
}

fn conversions_types(es: &Vec<ConversionDecl>, out: &mut Vec<String>)
    ensures
        texts(final(out)@) == texts(old(out)@) + conversions_names(es@),
{
    let mut i: usize = 0;
    assert(texts(out@) =~= texts(old(out)@) + conversions_names(es@.take(0)));
    while i < es.len()
        invariant
            i <= es@.len(),
            texts(out@) == texts(old(out)@) + conversions_names(es@.take(i as int)),
        decreases es@.len() - i,
    {
        conversion_types(&es[i], out);
        assert(es@.take(i + 1).drop_last() =~= es@.take(i as int));
        assert(texts(out@) =~= texts(old(out)@) + conversions_names(es@.take(i + 1)));
        i += 1;
    }
    assert(es@.take(es@.len() as int) =~= es@);
}

fn members_types(es: &Vec<ExtensionMember>, out: &mut Vec<String>)
    ensures
        texts(final(out)@) == texts(old(out)@) + members_names(es@),
{
    let mut i: usize = 0;
    assert(texts(out@) =~= texts(old(out)@) + members_names(es@.take(0)));
    while i < es.len()
        invariant
            i <= es@.len(),
            texts(out@) == texts(old(out)@) + members_names(es@.take(i as int)),
        decreases es@.len() - i,
    {
        match &es[i] {
            ExtensionMember::Function(f) => function_types(f, out),
            ExtensionMember::Field(f) => ty(&f.ty, out),
            ExtensionMember::Property(p) => property_types(p, out),
            ExtensionMember::Operator(o) => operator_types(o, out),
            ExtensionMember::Conversion(c) => conversion_types(c, out),
        }
        assert(es@.take(i + 1).drop_last() =~= es@.take(i as int));
        assert(texts(out@) =~= texts(old(out)@) + members_names(es@.take(i + 1)));
        i += 1;
    }
    assert(es@.take(es@.len() as int) =~= es@);
}

fn variants_types(es: &Vec<EnumVariantDecl>, out: &mut Vec<String>)
    ensures
        texts(final(out)@) == texts(old(out)@) + variants_names(es@),
{
    let mut i: usize = 0;
    assert(texts(out@) =~= texts(old(out)@) + variants_names(es@.take(0)));
    while i < es.len()
        invariant
            i <= es@.len(),
            texts(out@) == texts(old(out)@) + variants_names(es@.take(i as int)),
        decreases es@.len() - i,
    {
        params_types(&es[i].payload_params, out);
        assert(es@.take(i + 1).drop_last() =~= es@.take(i as int));
        assert(texts(out@) =~= texts(old(out)@) + variants_names(es@.take(i + 1)));
        i += 1;
    }
    assert(es@.take(es@.len() as int) =~= es@);
}

fn signatures_types(es: &Vec<TraitMethod>, out: &mut Vec<String>)
    ensures
        texts(final(out)@) == texts(old(out)@) + signatures_names(es@),
{
    let mut i: usize = 0;
    assert(texts(out@) =~= texts(old(out)@) + signatures_names(es@.take(0)));
    while i < es.len()
        invariant
            i <= es@.len(),
            texts(out@) == texts(old(out)@) + signatures_names(es@.take(i as int)),
        decreases es@.len() - i,
    {
        ty(&es[i].ret_ty, out);
        params_types(&es[i].params, out);
        assert(es@.take(i + 1).drop_last() =~= es@.take(i as int));
        assert(texts(out@) =~= texts(old(out)@) + signatures_names(es@.take(i + 1)));
        i += 1;
    }
    assert(es@.take(es@.len() as int) =~= es@);
}

fn class_types(c: &ClassDecl, out: &mut Vec<String>)
    ensures
        texts(final(out)@) == texts(old(out)@) + class_names(c),
{
    fields_types(&c.fields, out);
    functions_types(&c.methods, out);
    constructors_types(&c.constructors, out);
    destructors_types(&c.destructors, out);
    properties_types(&c.properties, out);
    operators_types(&c.operators, out);
    conversions_types(&c.conversions, out);
    assert(texts(out@) =~= texts(old(out)@) + class_names(c));
}

fn item_types(i: &Item, out: &mut Vec<String>)
    ensures
        texts(final(out)@) == texts(old(out)@) + item_names(i),
    decreases i,
{
    match i {
        Item::Function(f) => function_types(f, out),
        Item::Init(b) => block_types(b, out),
        Item::Var(d) => ty(&d.ty, out),
        Item::Const(d) => opt_ty(&d.ty, out),
        Item::Attributed { item, .. } => item_types(&**item, out),
        Item::Struct(s) => fields_types(&s.fields, out),
        Item::Class(c) => class_types(c, out),
        Item::Extension(e) => members_types(&e.members, out),
        Item::Enum(e) => variants_types(&e.variants, out),
        Item::Trait(t) => signatures_types(&t.methods, out),
        Item::Typedef(t) => ty(&t.ty, out),
        Item::Distinct(d) => ty(&d.ty, out),
        Item::Import(_) | Item::Extern(_) => {},
    }
    assert(texts(out@) =~= texts(old(out)@) + item_names(i));
}

/// The named types in one type, without qualifiers.
pub fn type_names(t: &Type) -> (r: Vec<String>)
    ensures
        texts(r@) == ty_names(t),
{
    let mut out: Vec<String> = Vec::new();
    ty(t, &mut out);
    assert(texts(out@) =~= ty_names(t));
    out
}

/// The named types an item mentions, without qualifiers. Bounds of `where`
/// clauses are not part of the tree and so not part of the list.
pub fn item_named_types(i: &Item) -> (r: Vec<String>)
    ensures
        texts(r@) == item_names(i),
{
    let mut out: Vec<String> = Vec::new();
    item_types(i, &mut out);
    assert(texts(out@) =~= item_names(i));
    out
}

} // verus!
