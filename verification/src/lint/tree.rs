//! Where things stand in the syntax tree: which parts each node is written
//! with, and what follows for the traversals.
//!
//! A part is listed once, under the node it is written in, in the order of the
//! source. What occurs in a node is what a chain of parts leads to.
use crate::ast::{
    Block, CallArg, ClosureBody, Constructor, ConversionDecl, DeferInner, Destructor,
    EnumVariantDecl, Expr, ExprKind, ExtensionMember, Function, InterpolatedPart, Item, MatchArm,
    MatchArmBody, OperatorDecl, Param, Program, PropertyDecl, Stmt, StructField, TraitMethod, Type,
};
use crate::token::Span;
use vstd::prelude::*;

verus! {

/// A piece of the syntax tree.
pub enum Node {
    Item(Item),
    Function(Function),
    Field(StructField),
    Constructor(Constructor),
    Destructor(Destructor),
    Property(PropertyDecl),
    Operator(OperatorDecl),
    Conversion(ConversionDecl),
    Member(ExtensionMember),
    Variant(EnumVariantDecl),
    Signature(TraitMethod),
    Param(Param),
    Block(Block),
    Stmt(Stmt),
    Expr(Expr),
    Arg(CallArg),
    Entry((Expr, Expr)),
    Init((String, Span, Expr)),
    Piece(InterpolatedPart),
    Arm(MatchArm),
    Type(Type),
}

// ---------------------------------------------------------------------------
// Lists of parts
// ---------------------------------------------------------------------------

pub open spec fn items_in(s: Seq<Item>) -> Seq<Node> {
    Seq::new(s.len(), |i: int| Node::Item(s[i]))
}

pub open spec fn functions_in(s: Seq<Function>) -> Seq<Node> {
    Seq::new(s.len(), |i: int| Node::Function(s[i]))
}

pub open spec fn fields_in(s: Seq<StructField>) -> Seq<Node> {
    Seq::new(s.len(), |i: int| Node::Field(s[i]))
}

pub open spec fn constructors_in(s: Seq<Constructor>) -> Seq<Node> {
    Seq::new(s.len(), |i: int| Node::Constructor(s[i]))
}

pub open spec fn destructors_in(s: Seq<Destructor>) -> Seq<Node> {
    Seq::new(s.len(), |i: int| Node::Destructor(s[i]))
}

pub open spec fn properties_in(s: Seq<PropertyDecl>) -> Seq<Node> {
    Seq::new(s.len(), |i: int| Node::Property(s[i]))
}

pub open spec fn operators_in(s: Seq<OperatorDecl>) -> Seq<Node> {
    Seq::new(s.len(), |i: int| Node::Operator(s[i]))
}

pub open spec fn conversions_in(s: Seq<ConversionDecl>) -> Seq<Node> {
    Seq::new(s.len(), |i: int| Node::Conversion(s[i]))
}

pub open spec fn members_in(s: Seq<ExtensionMember>) -> Seq<Node> {
    Seq::new(s.len(), |i: int| Node::Member(s[i]))
}

pub open spec fn variants_in(s: Seq<EnumVariantDecl>) -> Seq<Node> {
    Seq::new(s.len(), |i: int| Node::Variant(s[i]))
}

pub open spec fn signatures_in(s: Seq<TraitMethod>) -> Seq<Node> {
    Seq::new(s.len(), |i: int| Node::Signature(s[i]))
}

pub open spec fn params_in(s: Seq<Param>) -> Seq<Node> {
    Seq::new(s.len(), |i: int| Node::Param(s[i]))
}

pub open spec fn stmts_in(s: Seq<Stmt>) -> Seq<Node> {
    Seq::new(s.len(), |i: int| Node::Stmt(s[i]))
}

pub open spec fn exprs_in(s: Seq<Expr>) -> Seq<Node> {
    Seq::new(s.len(), |i: int| Node::Expr(s[i]))
}

pub open spec fn args_in(s: Seq<CallArg>) -> Seq<Node> {
    Seq::new(s.len(), |i: int| Node::Arg(s[i]))
}

pub open spec fn entries_in(s: Seq<(Expr, Expr)>) -> Seq<Node> {
    Seq::new(s.len(), |i: int| Node::Entry(s[i]))
}

pub open spec fn inits_in(s: Seq<(String, Span, Expr)>) -> Seq<Node> {
    Seq::new(s.len(), |i: int| Node::Init(s[i]))
}

pub open spec fn pieces_in(s: Seq<InterpolatedPart>) -> Seq<Node> {
    Seq::new(s.len(), |i: int| Node::Piece(s[i]))
}

pub open spec fn arms_in(s: Seq<MatchArm>) -> Seq<Node> {
    Seq::new(s.len(), |i: int| Node::Arm(s[i]))
}

pub open spec fn types_in(s: Seq<Type>) -> Seq<Node> {
    Seq::new(s.len(), |i: int| Node::Type(s[i]))
}

pub open spec fn maybe_expr(o: Option<Expr>) -> Seq<Node> {
    match o {
        Some(e) => seq![Node::Expr(e)],
        None => Seq::empty(),
    }
}

pub open spec fn maybe_boxed(o: Option<Box<Expr>>) -> Seq<Node> {
    match o {
        Some(e) => seq![Node::Expr(*e)],
        None => Seq::empty(),
    }
}

pub open spec fn maybe_block(o: Option<Block>) -> Seq<Node> {
    match o {
        Some(b) => seq![Node::Block(b)],
        None => Seq::empty(),
    }
}

pub open spec fn maybe_type(o: Option<Type>) -> Seq<Node> {
    match o {
        Some(t) => seq![Node::Type(t)],
        None => Seq::empty(),
    }
}

// ---------------------------------------------------------------------------
// What expressions stand in
// ---------------------------------------------------------------------------

/// The parts of an expression.
pub open spec fn expr_parts(e: Expr) -> Seq<Node> {
    match e.kind {
        ExprKind::Paren(x) => seq![Node::Expr(*x)],
        ExprKind::Unary { expr, .. } => seq![Node::Expr(*expr)],
        ExprKind::Postfix { expr, .. } => seq![Node::Expr(*expr)],
        ExprKind::Binary { lhs, rhs, .. } => seq![Node::Expr(*lhs), Node::Expr(*rhs)],
        ExprKind::Assign { lhs, value } => seq![Node::Expr(*lhs), Node::Expr(*value)],
        ExprKind::CompoundAssign { lhs, value, .. } => seq![Node::Expr(*lhs), Node::Expr(*value)],
        ExprKind::Conditional { cond, then_branch, else_branch } => seq![
            Node::Expr(*cond),
            Node::Expr(*then_branch),
            Node::Expr(*else_branch),
        ],
        ExprKind::Range { start, end, .. } => maybe_boxed(start) + maybe_boxed(end),
        ExprKind::Call { args, .. } => args_in(args@),
        ExprKind::New { args, .. } => args_in(args@),
        ExprKind::EnumVariant { args, .. } => args_in(args@),
        ExprKind::Await { task, .. } => seq![Node::Expr(*task)],
        ExprKind::Spawn { task, .. } => seq![Node::Expr(*task)],
        ExprKind::MethodCall { object, args, .. } => seq![Node::Expr(*object)] + args_in(args@),
        ExprKind::MemberAccess { object, .. } => seq![Node::Expr(*object)],
        ExprKind::NullableMemberAccess { object, .. } => seq![Node::Expr(*object)],
        ExprKind::Index { object, index } => seq![Node::Expr(*object), Node::Expr(*index)],
        ExprKind::Slice { object, start, end } => seq![Node::Expr(*object)] + maybe_boxed(start)
            + maybe_boxed(end),
        ExprKind::Tuple(es) => exprs_in(es@),
        ExprKind::ArrayLit(es) => exprs_in(es@),
        ExprKind::MapLit { entries, .. } => entries_in(entries@),
        ExprKind::StructLit { fields, .. } => inits_in(fields@),
        ExprKind::InterpolatedString(parts, _) => pieces_in(parts@),
        ExprKind::Match(m) => seq![Node::Expr(*m.scrutinee)] + arms_in(m.arms@),
        ExprKind::Closure { params, body, .. } => params_in(params@) + match *body {
            ClosureBody::Expr(x) => seq![Node::Expr(x)],
            ClosureBody::Block(b) => seq![Node::Block(b)],
        },
        ExprKind::IntLit(_)
        | ExprKind::FloatLit(_)
        | ExprKind::BoolLit(_)
        | ExprKind::StringLit(_)
        | ExprKind::CharLit(_)
        | ExprKind::Ident(_)
        | ExprKind::This
        | ExprKind::Super
        | ExprKind::Null
        | ExprKind::VecEmpty(_) => Seq::empty(),
    }
}

/// The parts of a statement.
pub open spec fn stmt_parts(s: Stmt) -> Seq<Node> {
    match s {
        Stmt::VarDecl(d) => maybe_expr(d.init),
        Stmt::Const(d) => seq![Node::Expr(d.init)],
        Stmt::Destructure(d) => seq![Node::Expr(d.expr)],
        Stmt::Expr(x) => seq![Node::Expr(x.expr)],
        Stmt::Return(r) => maybe_expr(r.value),
        Stmt::Delete(d) => seq![Node::Expr(d.target)],
        Stmt::Block(b) => seq![Node::Block(b)],
        Stmt::If(i) => seq![Node::Expr(i.cond), Node::Block(i.then_block)] + maybe_block(
            i.else_block,
        ),
        Stmt::While(w) => seq![Node::Expr(w.cond), Node::Block(w.body)],
        Stmt::Loop(l) => seq![Node::Block(l.body)],
        Stmt::For(f) => seq![Node::Expr(f.iter), Node::Block(f.body)],
        Stmt::Assert(a) => seq![Node::Expr(a.cond)] + maybe_expr(a.message),
        Stmt::Defer(d) => match d.inner {
            DeferInner::Expr(x) => seq![Node::Expr(x)],
            DeferInner::Block(b) => seq![Node::Block(b)],
        },
        Stmt::Scope(b) => seq![Node::Block(b)],
        Stmt::Yield(_) | Stmt::Break(_) | Stmt::Continue(_) => Seq::empty(),
    }
}

/// The parts of an item.
pub open spec fn item_parts(i: Item) -> Seq<Node> {
    match i {
        Item::Function(f) => seq![Node::Function(f)],
        Item::Init(b) => seq![Node::Block(b)],
        Item::Var(d) => maybe_expr(d.init),
        Item::Const(d) => seq![Node::Expr(d.init)],
        Item::Attributed { item, .. } => seq![Node::Item(*item)],
        Item::Struct(s) => fields_in(s.fields@),
        Item::Class(c) => fields_in(c.fields@) + functions_in(c.methods@) + constructors_in(
            c.constructors@,
        ) + destructors_in(c.destructors@) + properties_in(c.properties@) + operators_in(
            c.operators@,
        ) + conversions_in(c.conversions@),
        Item::Extension(x) => members_in(x.members@),
        Item::Enum(e) => variants_in(e.variants@),
        Item::Trait(t) => signatures_in(t.methods@),
        Item::Import(_) | Item::Typedef(_) | Item::Distinct(_) | Item::Extern(_) => Seq::empty(),
    }
}

/// What a node is written with, as far as expressions stand in it.
pub open spec fn parts(n: Node) -> Seq<Node> {
    match n {
        Node::Item(i) => item_parts(i),
        Node::Function(f) => params_in(f.params@).push(Node::Block(f.body)),
        Node::Field(f) => maybe_expr(f.default),
        Node::Constructor(c) => params_in(c.params@) + maybe_block(c.body),
        Node::Destructor(d) => seq![Node::Block(d.body)],
        Node::Property(p) => maybe_block(p.getter) + match p.setter {
            Some(s) => seq![Node::Block(s.1)],
            None => Seq::empty(),
        },
        Node::Operator(o) => params_in(o.params@).push(Node::Block(o.body)),
        Node::Conversion(c) => seq![Node::Block(c.body)],
        Node::Member(m) => match m {
            ExtensionMember::Function(f) => seq![Node::Function(f)],
            ExtensionMember::Field(f) => seq![Node::Field(f)],
            ExtensionMember::Property(p) => seq![Node::Property(p)],
            ExtensionMember::Operator(o) => seq![Node::Operator(o)],
            ExtensionMember::Conversion(c) => seq![Node::Conversion(c)],
        },
        Node::Variant(v) => params_in(v.payload_params@) + maybe_expr(v.discriminant),
        Node::Signature(s) => params_in(s.params@),
        Node::Param(p) => maybe_expr(p.default),
        Node::Block(b) => stmts_in(b.stmts@),
        Node::Stmt(s) => stmt_parts(s),
        Node::Expr(e) => expr_parts(e),
        Node::Arg(a) => match a {
            CallArg::Expr(x) => seq![Node::Expr(x)],
            CallArg::Named { value, .. } => seq![Node::Expr(value)],
            CallArg::Ref { expr, .. } => seq![Node::Expr(expr)],
            CallArg::Out { .. } => Seq::empty(),
        },
        Node::Entry(e) => seq![Node::Expr(e.0), Node::Expr(e.1)],
        Node::Init(e) => seq![Node::Expr(e.2)],
        Node::Piece(p) => match p {
            InterpolatedPart::Expr(x) => seq![Node::Expr(x)],
            InterpolatedPart::Text(_) => Seq::empty(),
        },
        Node::Arm(a) => maybe_expr(a.guard) + match a.body {
            MatchArmBody::Expr(x) => seq![Node::Expr(x)],
            MatchArmBody::Block(b) => seq![Node::Block(b)],
        },
        Node::Type(_) => Seq::empty(),
    }
}

// ---------------------------------------------------------------------------
// What declared types stand in
// ---------------------------------------------------------------------------

/// The types that a type is made of.
pub open spec fn type_parts(t: Type) -> Seq<Node> {
    match t {
        Type::Generic(_, args, _) => types_in(args@),
        Type::FunctionType(r, ps, _) => seq![Node::Type(*r)] + types_in(ps@),
        Type::Tuple(ts, _) => types_in(ts@),
        Type::Array(e, _) => seq![Node::Type(*e)],
        Type::FixedArray { elem, .. } => seq![Node::Type(*elem)],
        Type::Vec { elem, .. } => seq![Node::Type(*elem)],
        Type::Dict { key, value, .. } => seq![Node::Type(*key), Node::Type(*value)],
        Type::Pointer(e, _) => seq![Node::Type(*e)],
        Type::Optional(e, _) => seq![Node::Type(*e)],
        Type::Own(e, _) => seq![Node::Type(*e)],
        Type::Task(e, _) => seq![Node::Type(*e)],
        Type::Int(_)
        | Type::Bool(_)
        | Type::Void(_)
        | Type::Str(_)
        | Type::Char(_)
        | Type::Float(_)
        | Type::Double(_)
        | Type::Any(_)
        | Type::Named(_, _) => Seq::empty(),
    }
}

/// What a node is written with, as far as declared types stand in it. The types
/// inside expressions are not declared there.
pub open spec fn declared_parts(n: Node) -> Seq<Node> {
    match n {
        Node::Item(i) => match i {
            Item::Function(f) => seq![Node::Function(f)],
            Item::Init(b) => seq![Node::Block(b)],
            Item::Var(d) => seq![Node::Type(d.ty)],
            Item::Const(d) => maybe_type(d.ty),
            Item::Attributed { item, .. } => seq![Node::Item(*item)],
            Item::Struct(s) => fields_in(s.fields@),
            Item::Class(c) => fields_in(c.fields@) + functions_in(c.methods@) + constructors_in(
                c.constructors@,
            ) + destructors_in(c.destructors@) + properties_in(c.properties@) + operators_in(
                c.operators@,
            ) + conversions_in(c.conversions@),
            Item::Extension(x) => members_in(x.members@),
            Item::Enum(e) => variants_in(e.variants@),
            Item::Trait(t) => signatures_in(t.methods@),
            Item::Typedef(t) => seq![Node::Type(t.ty)],
            Item::Distinct(d) => seq![Node::Type(d.ty)],
            Item::Import(_) | Item::Extern(_) => Seq::empty(),
        },
        Node::Function(f) => seq![Node::Type(f.ret_ty)] + params_in(f.params@) + seq![
            Node::Block(f.body),
        ],
        Node::Field(f) => seq![Node::Type(f.ty)],
        Node::Constructor(c) => params_in(c.params@) + maybe_block(c.body),
        Node::Destructor(d) => seq![Node::Block(d.body)],
        Node::Property(p) => maybe_type(p.ty) + maybe_block(p.getter) + match p.setter {
            Some(s) => seq![Node::Param(s.0), Node::Block(s.1)],
            None => Seq::empty(),
        },
        Node::Operator(o) => params_in(o.params@).push(Node::Block(o.body)),
        Node::Conversion(c) => seq![
            Node::Type(c.from_ty),
            Node::Type(c.to_ty),
            Node::Block(c.body),
        ],
        Node::Member(m) => match m {
            ExtensionMember::Function(f) => seq![Node::Function(f)],
            ExtensionMember::Field(f) => seq![Node::Field(f)],
            ExtensionMember::Property(p) => seq![Node::Property(p)],
            ExtensionMember::Operator(o) => seq![Node::Operator(o)],
            ExtensionMember::Conversion(c) => seq![Node::Conversion(c)],
        },
        Node::Variant(v) => params_in(v.payload_params@),
        Node::Signature(s) => seq![Node::Type(s.ret_ty)] + params_in(s.params@),
        Node::Param(p) => seq![Node::Type(p.ty)],
        Node::Block(b) => stmts_in(b.stmts@),
        Node::Stmt(s) => match s {
            Stmt::VarDecl(d) => seq![Node::Type(d.ty)],
            Stmt::Const(d) => maybe_type(d.ty),
            Stmt::Block(b) => seq![Node::Block(b)],
            Stmt::If(i) => seq![Node::Block(i.then_block)] + maybe_block(i.else_block),
            Stmt::While(w) => seq![Node::Block(w.body)],
            Stmt::Loop(l) => seq![Node::Block(l.body)],
            Stmt::For(f) => seq![Node::Block(f.body)],
            Stmt::Defer(d) => match d.inner {
                DeferInner::Block(b) => seq![Node::Block(b)],
                DeferInner::Expr(_) => Seq::empty(),
            },
            Stmt::Scope(b) => seq![Node::Block(b)],
            Stmt::Destructure(_)
            | Stmt::Expr(_)
            | Stmt::Return(_)
            | Stmt::Delete(_)
            | Stmt::Assert(_)
            | Stmt::Yield(_)
            | Stmt::Break(_)
            | Stmt::Continue(_) => Seq::empty(),
        },
        Node::Type(t) => type_parts(t),
        Node::Expr(_)
        | Node::Arg(_)
        | Node::Entry(_)
        | Node::Init(_)
        | Node::Piece(_)
        | Node::Arm(_) => Seq::empty(),
    }
}

// ---------------------------------------------------------------------------
// Occurrence
// ---------------------------------------------------------------------------

/// Each node of the chain is a part of the one before it.
pub open spec fn is_chain(down: spec_fn(Node) -> Seq<Node>, chain: Seq<Node>) -> bool {
    &&& chain.len() > 0
    &&& forall|i: int|
        0 <= i < chain.len() - 1 ==> down(#[trigger] chain[i]).contains(chain[i + 1])
}

/// A chain of parts leads from one node to the other.
pub open spec fn leads_down(down: spec_fn(Node) -> Seq<Node>, from: Node, to: Node) -> bool {
    exists|chain: Seq<Node>| #[trigger]
        is_chain(down, chain) && chain[0] == from && chain.last() == to
}

/// The expression stands in the node, at any depth.
pub open spec fn occurs(n: Node, e: Expr) -> bool {
    leads_down(|x: Node| parts(x), n, Node::Expr(e))
}

/// The type is declared in the node, at any depth.
pub open spec fn declared_in(n: Node, t: Type) -> bool {
    leads_down(|x: Node| declared_parts(x), n, Node::Type(t))
}

/// The expression stands in the program.
pub open spec fn occurs_in_program(p: Program, e: Expr) -> bool {
    exists|i: int| 0 <= i < p.items@.len() && occurs(Node::Item(#[trigger] p.items@[i]), e)
}

/// What a node and the nodes up to `k` levels below it give, parents before
/// parts and parts in order.
pub open spec fn preorder<T>(
    give: spec_fn(Node) -> Seq<T>,
    down: spec_fn(Node) -> Seq<Node>,
    n: Node,
    k: nat,
) -> Seq<T>
    decreases k, 0nat,
{
    if k == 0 {
        give(n)
    } else {
        give(n) + forest(give, down, down(n), (k - 1) as nat)
    }
}

/// The same of a list of nodes.
pub open spec fn forest<T>(
    give: spec_fn(Node) -> Seq<T>,
    down: spec_fn(Node) -> Seq<Node>,
    ns: Seq<Node>,
    k: nat,
) -> Seq<T>
    decreases k, ns.len(),
{
    if ns.len() == 0 {
        Seq::empty()
    } else {
        forest(give, down, ns.drop_last(), k) + preorder(give, down, ns.last(), k)
    }
}

/// All that a node gives, however deep it stands.
pub open spec fn settles<T>(
    give: spec_fn(Node) -> Seq<T>,
    down: spec_fn(Node) -> Seq<Node>,
    n: Node,
    s: Seq<T>,
) -> bool {
    exists|d: nat| #[trigger] settled_from(give, down, n, s, d)
}

pub open spec fn settled_from<T>(
    give: spec_fn(Node) -> Seq<T>,
    down: spec_fn(Node) -> Seq<Node>,
    n: Node,
    s: Seq<T>,
    d: nat,
) -> bool {
    forall|k: nat| k >= d ==> #[trigger] preorder(give, down, n, k) == s
}

/// All that a list of nodes gives.
pub open spec fn all_settle<T>(
    give: spec_fn(Node) -> Seq<T>,
    down: spec_fn(Node) -> Seq<Node>,
    ns: Seq<Node>,
    s: Seq<T>,
) -> bool {
    exists|d: nat| #[trigger] all_settled_from(give, down, ns, s, d)
}

pub open spec fn all_settled_from<T>(
    give: spec_fn(Node) -> Seq<T>,
    down: spec_fn(Node) -> Seq<Node>,
    ns: Seq<Node>,
    s: Seq<T>,
    d: nat,
) -> bool {
    forall|k: nat| k >= d ==> #[trigger] forest(give, down, ns, k) == s
}

// ---------------------------------------------------------------------------
// Putting parts together
// ---------------------------------------------------------------------------

pub(crate) proof fn lemma_none<T>(give: spec_fn(Node) -> Seq<T>, down: spec_fn(Node) -> Seq<Node>)
    ensures
        all_settle(give, down, Seq::empty(), Seq::empty()),
{
    assert(all_settled_from(give, down, Seq::empty(), Seq::empty(), 0));
}

pub(crate) proof fn lemma_push<T>(
    give: spec_fn(Node) -> Seq<T>,
    down: spec_fn(Node) -> Seq<Node>,
    ns: Seq<Node>,
    s: Seq<T>,
    n: Node,
    t: Seq<T>,
)
    requires
        all_settle(give, down, ns, s),
        settles(give, down, n, t),
    ensures
        all_settle(give, down, ns.push(n), s + t),
{
    let a = choose|d: nat| #[trigger] all_settled_from(give, down, ns, s, d);
    let b = choose|d: nat| #[trigger] settled_from(give, down, n, t, d);
    let d = if a > b {
        a
    } else {
        b
    };
    assert(ns.push(n).drop_last() =~= ns);
    assert forall|k: nat| k >= d implies #[trigger] forest(give, down, ns.push(n), k) == s + t by {
        assert(forest(give, down, ns, k) == s);
        assert(preorder(give, down, n, k) == t);
    }
    assert(all_settled_from(give, down, ns.push(n), s + t, d));
}

pub(crate) proof fn lemma_one<T>(
    give: spec_fn(Node) -> Seq<T>,
    down: spec_fn(Node) -> Seq<Node>,
    n: Node,
    t: Seq<T>,
)
    requires
        settles(give, down, n, t),
    ensures
        all_settle(give, down, seq![n], t),
{
    lemma_none(give, down);
    lemma_push(give, down, Seq::empty(), Seq::empty(), n, t);
    assert(Seq::<Node>::empty().push(n) =~= seq![n]);
    assert(Seq::<T>::empty() + t =~= t);
}

proof fn lemma_forest_concat<T>(
    give: spec_fn(Node) -> Seq<T>,
    down: spec_fn(Node) -> Seq<Node>,
    a: Seq<Node>,
    b: Seq<Node>,
    k: nat,
)
    ensures
        forest(give, down, a + b, k) == forest(give, down, a, k) + forest(give, down, b, k),
    decreases b.len(),
{
    if b.len() == 0 {
        assert(a + b =~= a);
        assert(forest(give, down, a, k) + forest(give, down, b, k) =~= forest(give, down, a, k));
    } else {
        lemma_forest_concat(give, down, a, b.drop_last(), k);
        assert((a + b).drop_last() =~= a + b.drop_last());
        assert(forest(give, down, a + b, k) =~= forest(give, down, a, k) + forest(
            give,
            down,
            b,
            k,
        ));
    }
}

pub(crate) proof fn lemma_both<T>(
    give: spec_fn(Node) -> Seq<T>,
    down: spec_fn(Node) -> Seq<Node>,
    ns: Seq<Node>,
    s: Seq<T>,
    ms: Seq<Node>,
    t: Seq<T>,
)
    requires
        all_settle(give, down, ns, s),
        all_settle(give, down, ms, t),
    ensures
        all_settle(give, down, ns + ms, s + t),
{
    let a = choose|d: nat| #[trigger] all_settled_from(give, down, ns, s, d);
    let b = choose|d: nat| #[trigger] all_settled_from(give, down, ms, t, d);
    let d = if a > b {
        a
    } else {
        b
    };
    assert forall|k: nat| k >= d implies #[trigger] forest(give, down, ns + ms, k) == s + t by {
        lemma_forest_concat(give, down, ns, ms, k);
        assert(forest(give, down, ns, k) == s);
        assert(forest(give, down, ms, k) == t);
    }
    assert(all_settled_from(give, down, ns + ms, s + t, d));
}

pub(crate) proof fn lemma_node<T>(
    give: spec_fn(Node) -> Seq<T>,
    down: spec_fn(Node) -> Seq<Node>,
    n: Node,
    s: Seq<T>,
)
    requires
        all_settle(give, down, down(n), s),
    ensures
        settles(give, down, n, give(n) + s),
{
    let a = choose|d: nat| #[trigger] all_settled_from(give, down, down(n), s, d);
    assert forall|k: nat| k >= a + 1 implies #[trigger] preorder(give, down, n, k) == give(n) + s by {
        assert(forest(give, down, down(n), (k - 1) as nat) == s);
    }
    assert(settled_from(give, down, n, give(n) + s, a + 1));
}

/// What a node gives is what its chains of parts lead to.
pub(crate) proof fn lemma_settled_holds<T>(
    give: spec_fn(Node) -> Seq<T>,
    down: spec_fn(Node) -> Seq<Node>,
    n: Node,
    s: Seq<T>,
    to: Node,
    x: T,
)
    requires
        settles(give, down, n, s),
        leads_down(down, n, to),
        give(to).contains(x),
    ensures
        s.contains(x),
{
    let d = choose|d: nat| #[trigger] settled_from(give, down, n, s, d);
    let chain = choose|chain: Seq<Node>| #[trigger]
        is_chain(down, chain) && chain[0] == n && chain.last() == to;
    let k = d + chain.len();
    lemma_chain_given(give, down, chain, k, x);
    assert(preorder(give, down, n, k) == s);
}

proof fn lemma_chain_given<T>(
    give: spec_fn(Node) -> Seq<T>,
    down: spec_fn(Node) -> Seq<Node>,
    chain: Seq<Node>,
    k: nat,
    x: T,
)
    requires
        is_chain(down, chain),
        k >= chain.len(),
        give(chain.last()).contains(x),
    ensures
        preorder(give, down, chain[0], k).contains(x),
    decreases chain.len(),
{
    let n = chain[0];
    let own = give(n);
    let s = preorder(give, down, n, k);
    if chain.len() == 1 {
        let i = choose|i: int| 0 <= i < own.len() && own[i] == x;
        assert(s[i] == x);
    } else {
        let rest = chain.skip(1);
        assert(rest.last() == chain.last());
        assert forall|i: int| 0 <= i < rest.len() - 1 implies down(#[trigger] rest[i]).contains(
            rest[i + 1],
        ) by {
            assert(rest[i] == chain[i + 1]);
        }
        lemma_chain_given(give, down, rest, (k - 1) as nat, x);
        let ns = down(n);
        assert(ns.contains(chain[1]));
        let j = choose|j: int| 0 <= j < ns.len() && ns[j] == chain[1];
        lemma_forest_holds(give, down, ns, (k - 1) as nat, j, x);
        let f = forest(give, down, ns, (k - 1) as nat);
        let i = choose|i: int| 0 <= i < f.len() && f[i] == x;
        assert(s[own.len() + i] == x);
    }
}

proof fn lemma_forest_holds<T>(
    give: spec_fn(Node) -> Seq<T>,
    down: spec_fn(Node) -> Seq<Node>,
    ns: Seq<Node>,
    k: nat,
    j: int,
    x: T,
)
    requires
        0 <= j < ns.len(),
        preorder(give, down, ns[j], k).contains(x),
    ensures
        forest(give, down, ns, k).contains(x),
    decreases ns.len(),
{
    let a = forest(give, down, ns.drop_last(), k);
    let b = preorder(give, down, ns.last(), k);
    let f = forest(give, down, ns, k);
    if j < ns.len() - 1 {
        lemma_forest_holds(give, down, ns.drop_last(), k, j, x);
        let i = choose|i: int| 0 <= i < a.len() && a[i] == x;
        assert(f[i] == x);
    } else {
        let i = choose|i: int| 0 <= i < b.len() && b[i] == x;
        assert(f[a.len() + i] == x);
    }
}

/// A node gives nothing but what a chain of parts leads to.
pub(crate) proof fn lemma_given_occurs<T>(
    give: spec_fn(Node) -> Seq<T>,
    down: spec_fn(Node) -> Seq<Node>,
    n: Node,
    s: Seq<T>,
    x: T,
) -> (to: Node)
    requires
        settles(give, down, n, s),
        s.contains(x),
    ensures
        leads_down(down, n, to),
        give(to).contains(x),
{
    let d = choose|d: nat| #[trigger] settled_from(give, down, n, s, d);
    assert(preorder(give, down, n, d) == s);
    lemma_in_preorder(give, down, n, d, x)
}

proof fn lemma_in_preorder<T>(
    give: spec_fn(Node) -> Seq<T>,
    down: spec_fn(Node) -> Seq<Node>,
    n: Node,
    k: nat,
    x: T,
) -> (to: Node)
    requires
        preorder(give, down, n, k).contains(x),
    ensures
        leads_down(down, n, to),
        give(to).contains(x),
    decreases k, 0nat,
{
    let own = give(n);
    let s = preorder(give, down, n, k);
    let i = choose|i: int| 0 <= i < s.len() && s[i] == x;
    if i < own.len() {
        assert(own[i] == x);
        let chain = seq![n];
        assert(is_chain(down, chain) && chain[0] == n && chain.last() == n);
        n
    } else {
        let f = forest(give, down, down(n), (k - 1) as nat);
        assert(f[i - own.len()] == x);
        let (c, to) = lemma_in_forest(give, down, down(n), (k - 1) as nat, x);
        let rest = choose|chain: Seq<Node>| #[trigger]
            is_chain(down, chain) && chain[0] == c && chain.last() == to;
        let chain = seq![n] + rest;
        assert forall|j: int| 0 <= j < chain.len() - 1 implies down(#[trigger] chain[j]).contains(
            chain[j + 1],
        ) by {
            if j > 0 {
                assert(chain[j] == rest[j - 1]);
                assert(chain[j + 1] == rest[j]);
            } else {
                assert(chain[1] == rest[0]);
            }
        }
        assert(chain.last() == rest.last());
        assert(is_chain(down, chain));
        to
    }
}

proof fn lemma_in_forest<T>(
    give: spec_fn(Node) -> Seq<T>,
    down: spec_fn(Node) -> Seq<Node>,
    ns: Seq<Node>,
    k: nat,
    x: T,
) -> (r: (Node, Node))
    requires
        forest(give, down, ns, k).contains(x),
    ensures
        ns.contains(r.0),
        leads_down(down, r.0, r.1),
        give(r.1).contains(x),
    decreases k, ns.len(),
{
    let a = forest(give, down, ns.drop_last(), k);
    let b = preorder(give, down, ns.last(), k);
    let f = forest(give, down, ns, k);
    let i = choose|i: int| 0 <= i < f.len() && f[i] == x;
    if i < a.len() {
        assert(a[i] == x);
        let (c, to) = lemma_in_forest(give, down, ns.drop_last(), k, x);
        let j = choose|j: int| 0 <= j < ns.drop_last().len() && ns.drop_last()[j] == c;
        assert(ns[j] == c);
        (c, to)
    } else {
        assert(b[i - a.len()] == x);
        let to = lemma_in_preorder(give, down, ns.last(), k, x);
        assert(ns[ns.len() - 1] == ns.last());
        (ns.last(), to)
    }
}

} // verus!
