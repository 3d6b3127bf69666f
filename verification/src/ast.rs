//! Syntax tree of a Hella source file.
use crate::token::Span;
use vstd::prelude::*;

verus! {

/// One parsed source file.
#[derive(Debug)]
pub struct Program {
    pub items: Vec<Item>,
    pub span: Span,
}

/// A top-level declaration.
#[derive(Debug)]
pub enum Item {
    Function(Function),
    /// An `init do ... end` block, run before `main`.
    Init(Block),
    Var(VarDecl),
    Const(ConstDecl),
    /// An item behind `@name(...)` attributes.
    Attributed { attrs: Vec<Attribute>, item: Box<Item>, span: Span },
    Struct(StructDecl),
    Class(ClassDecl),
    Extension(ExtensionDecl),
    Enum(EnumDecl),
    Trait(TraitDecl),
    Typedef(TypedefDecl),
    Distinct(DistinctDecl),
    Import(ImportDecl),
    Extern(ExternBlock),
}

/// `@name(args)` in front of an item.
#[derive(Debug)]
pub struct Attribute {
    pub name: String,
    pub args: Vec<AttributeArg>,
    pub span: Span,
}

/// One argument of an attribute.
#[derive(Debug)]
pub enum AttributeArg {
    Expr(Expr),
    /// `key: value`
    Named(String, Span, Expr),
    /// `key = value`
    Assign(String, Span, Expr),
}

/// `import a::b` or `import a::b::{x, y}`.
#[derive(Debug)]
pub struct ImportDecl {
    pub path: Vec<String>,
    /// The listed symbols; `None` imports the whole module.
    pub symbols: Option<Vec<(String, Span)>>,
    pub span: Span,
}

/// A block of foreign declarations.
#[derive(Debug)]
pub struct ExternBlock {
    pub members: Vec<ExternMember>,
    pub span: Span,
}

/// A foreign declaration.
#[derive(Debug)]
pub enum ExternMember {
    Function { name: String, params: Vec<Param>, ret_ty: Type, span: Span },
    Struct { name: String, span: Span },
    Enum { name: String, span: Span },
    Const { name: String, span: Span },
}

/// A function or method with a body.
#[derive(Debug)]
pub struct Function {
    pub name: String,
    pub params: Vec<Param>,
    pub ret_ty: Type,
    pub body: Block,
    pub is_async: bool,
    pub span: Span,
}

/// A parameter, with its default value where it has one.
#[derive(Debug)]
pub struct Param {
    pub name: String,
    pub ty: Type,
    pub default: Option<Expr>,
}

/// A variable, global or local.
#[derive(Debug)]
pub struct VarDecl {
    pub name: String,
    pub ty: Type,
    pub init: Option<Expr>,
    pub span: Span,
}

/// A constant, global or local.
#[derive(Debug)]
pub struct ConstDecl {
    pub name: String,
    pub ty: Option<Type>,
    pub init: Expr,
    pub span: Span,
}

#[derive(Debug)]
pub struct StructDecl {
    pub name: String,
    pub fields: Vec<StructField>,
    pub span: Span,
}

#[derive(Debug)]
pub struct StructField {
    pub name: String,
    pub ty: Type,
    pub default: Option<Expr>,
}

#[derive(Debug)]
pub struct ClassDecl {
    pub name: String,
    pub fields: Vec<StructField>,
    pub methods: Vec<Function>,
    pub constructors: Vec<Constructor>,
    pub destructors: Vec<Destructor>,
    pub properties: Vec<PropertyDecl>,
    pub operators: Vec<OperatorDecl>,
    pub conversions: Vec<ConversionDecl>,
    pub span: Span,
}

#[derive(Debug)]
pub struct Constructor {
    pub params: Vec<Param>,
    pub body: Option<Block>,
}

#[derive(Debug)]
pub struct Destructor {
    pub body: Block,
}

#[derive(Debug)]
pub struct PropertyDecl {
    pub name: String,
    pub ty: Option<Type>,
    pub getter: Option<Block>,
    pub setter: Option<(Param, Block)>,
}

#[derive(Debug)]
pub struct OperatorDecl {
    pub params: Vec<Param>,
    pub body: Block,
}

#[derive(Debug)]
pub struct ConversionDecl {
    pub from_ty: Type,
    pub to_ty: Type,
    pub body: Block,
}

/// `extend T do ... end`.
#[derive(Debug)]
pub struct ExtensionDecl {
    pub members: Vec<ExtensionMember>,
    pub span: Span,
}

#[derive(Debug)]
pub enum ExtensionMember {
    Function(Function),
    Field(StructField),
    Property(PropertyDecl),
    Operator(OperatorDecl),
    Conversion(ConversionDecl),
}

#[derive(Debug)]
pub struct EnumDecl {
    pub name: String,
    pub variants: Vec<EnumVariantDecl>,
    pub span: Span,
}

#[derive(Debug)]
pub struct EnumVariantDecl {
    pub name: String,
    pub payload_params: Vec<Param>,
    pub discriminant: Option<Expr>,
}

#[derive(Debug)]
pub struct TraitDecl {
    pub name: String,
    pub methods: Vec<TraitMethod>,
    pub span: Span,
}

#[derive(Debug)]
pub struct TraitMethod {
    pub name: String,
    pub params: Vec<Param>,
    pub ret_ty: Type,
}

#[derive(Debug)]
pub struct TypedefDecl {
    pub name: String,
    pub ty: Type,
    pub span: Span,
}

#[derive(Debug)]
pub struct DistinctDecl {
    pub name: String,
    pub ty: Type,
    pub span: Span,
}

/// A type expression.
#[derive(Debug)]
pub enum Type {
    Int(Span),
    Bool(Span),
    Void(Span),
    Str(Span),
    Char(Span),
    Float(Span),
    Double(Span),
    Any(Span),
    Named(String, Span),
    Generic(String, Vec<Type>, Span),
    /// Result type, then parameter types.
    FunctionType(Box<Type>, Vec<Type>, Span),
    Tuple(Vec<Type>, Span),
    Array(Box<Type>, Span),
    FixedArray { elem: Box<Type>, len: u64, span: Span },
    Vec { elem: Box<Type>, span: Span },
    Dict { key: Box<Type>, value: Box<Type>, span: Span },
    Pointer(Box<Type>, Span),
    Optional(Box<Type>, Span),
    Own(Box<Type>, Span),
    Task(Box<Type>, Span),
}

#[derive(Debug)]
pub struct Block {
    pub stmts: Vec<Stmt>,
    pub span: Span,
}

#[derive(Debug)]
pub enum Stmt {
    VarDecl(VarDecl),
    Const(ConstDecl),
    Destructure(DestructureStmt),
    Expr(ExprStmt),
    Return(ReturnStmt),
    Delete(DeleteStmt),
    Block(Block),
    If(IfStmt),
    While(WhileStmt),
    Loop(LoopStmt),
    For(ForStmt),
    Assert(AssertStmt),
    Defer(DeferStmt),
    /// `scope do ... end`, a boundary for spawned tasks.
    Scope(Block),
    Yield(Span),
    Break(Span),
    Continue(Span),
}

#[derive(Debug)]
pub struct DestructureStmt {
    pub names: Vec<String>,
    pub expr: Expr,
}

#[derive(Debug)]
pub struct ExprStmt {
    pub expr: Expr,
}

#[derive(Debug)]
pub struct ReturnStmt {
    pub value: Option<Expr>,
}

#[derive(Debug)]
pub struct DeleteStmt {
    pub target: Expr,
}

#[derive(Debug)]
pub struct IfStmt {
    pub cond: Expr,
    pub then_block: Block,
    pub else_block: Option<Block>,
}

#[derive(Debug)]
pub struct WhileStmt {
    pub cond: Expr,
    pub body: Block,
}

#[derive(Debug)]
pub struct LoopStmt {
    pub body: Block,
}

#[derive(Debug)]
pub struct ForStmt {
    pub name: String,
    pub iter: Expr,
    pub body: Block,
}

#[derive(Debug)]
pub struct AssertStmt {
    pub cond: Expr,
    pub message: Option<Expr>,
}

#[derive(Debug)]
pub struct DeferStmt {
    pub inner: DeferInner,
}

#[derive(Debug)]
pub enum DeferInner {
    Expr(Expr),
    Block(Block),
}

#[derive(Debug)]
pub struct Expr {
    pub kind: ExprKind,
    pub span: Span,
}

#[allow(inconsistent_fields)]
#[derive(Debug)]
pub enum ExprKind {
    IntLit(i64),
    /// A floating point literal, as written.
    FloatLit(String),
    BoolLit(bool),
    StringLit(String),
    CharLit(char),
    Ident(String),
    This,
    Super,
    Null,
    /// An empty vector literal.
    VecEmpty(Span),
    Paren(Box<Expr>),
    Unary { op: UnaryOp, expr: Box<Expr> },
    Postfix { op: PostfixOp, expr: Box<Expr> },
    Binary { op: BinaryOp, lhs: Box<Expr>, rhs: Box<Expr> },
    Assign { lhs: Box<Expr>, value: Box<Expr> },
    CompoundAssign { op: BinaryOp, lhs: Box<Expr>, value: Box<Expr> },
    Conditional { cond: Box<Expr>, then_branch: Box<Expr>, else_branch: Box<Expr> },
    Range { start: Option<Box<Expr>>, end: Option<Box<Expr>>, inclusive: bool },
    Call { callee: String, args: Vec<CallArg> },
    New { ty: Type, args: Vec<CallArg> },
    EnumVariant { enum_name: Option<String>, variant: String, args: Vec<CallArg> },
    Await { task: Box<Expr>, span: Span },
    Spawn { task: Box<Expr>, span: Span },
    MethodCall { object: Box<Expr>, method: String, args: Vec<CallArg> },
    MemberAccess { object: Box<Expr>, member: String },
    NullableMemberAccess { object: Box<Expr>, member: String },
    Index { object: Box<Expr>, index: Box<Expr> },
    Slice { object: Box<Expr>, start: Option<Box<Expr>>, end: Option<Box<Expr>> },
    Tuple(Vec<Expr>),
    ArrayLit(Vec<Expr>),
    MapLit { entries: Vec<(Expr, Expr)>, span: Span },
    StructLit { name: String, fields: Vec<(String, Span, Expr)> },
    InterpolatedString(Vec<InterpolatedPart>, Span),
    Match(MatchExpr),
    Closure { params: Vec<Param>, body: Box<ClosureBody>, span: Span },
}

#[derive(Clone, Copy, Debug, PartialEq, Eq, Structural)]
pub enum UnaryOp {
    Neg,
    Not,
    BitNot,
    Deref,
    AddrOf,
}

#[derive(Clone, Copy, Debug, PartialEq, Eq, Structural)]
pub enum PostfixOp {
    Increment,
    Decrement,
    Unwrap,
}

#[derive(Clone, Copy, Debug, PartialEq, Eq, Structural)]
pub enum BinaryOp {
    Add,
    Subtract,
    Multiply,
    Divide,
    Remainder,
    Equal,
    NotEqual,
    Less,
    LessEqual,
    Greater,
    GreaterEqual,
    And,
    Or,
    BitAnd,
    BitOr,
    BitXor,
    ShiftLeft,
    ShiftRight,
    Coalesce,
}

/// One argument of a call.
#[derive(Debug)]
pub enum CallArg {
    Expr(Expr),
    Named { name: String, value: Expr, span: Span },
    /// `ref expr`
    Ref { expr: Expr, span: Span },
    /// `out name`, or `out ty name`, which declares the name.
    Out { ty: Option<Type>, name: String, span: Span },
}

#[derive(Debug)]
pub enum InterpolatedPart {
    Text(String),
    Expr(Expr),
}

#[derive(Debug)]
pub struct MatchExpr {
    pub scrutinee: Box<Expr>,
    pub arms: Vec<MatchArm>,
}

#[derive(Debug)]
pub struct MatchArm {
    pub pattern: String,
    pub guard: Option<Expr>,
    pub body: MatchArmBody,
}

#[derive(Debug)]
pub enum MatchArmBody {
    Expr(Expr),
    Block(Block),
}

#[derive(Debug)]
pub enum ClosureBody {
    Expr(Expr),
    Block(Block),
}

impl CallArg {
    pub open spec fn place(&self) -> Span {
        match self {
            CallArg::Expr(e) => e.span,
            CallArg::Named { span, .. } => *span,
            CallArg::Ref { span, .. } => *span,
            CallArg::Out { span, .. } => *span,
        }
    }

    /// Where the argument stands.
    pub fn span(&self) -> (r: Span)
        ensures
            r == self.place(),
    {
        match self {
            CallArg::Expr(e) => e.span,
            CallArg::Named { span, .. } => *span,
            CallArg::Ref { span, .. } => *span,
            CallArg::Out { span, .. } => *span,
        }
    }
}

} // verus!
