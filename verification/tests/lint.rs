//! Lint fixtures: trees of the sources shown, with spans into those sources.
use hella::ast::{
    AssertStmt, BinaryOp, Block, CallArg, ClassDecl, ClosureBody, Constructor, DeferInner,
    DeferStmt, DeleteStmt, Destructor, Expr, ExprKind, ExprStmt, ForStmt, Function, IfStmt,
    InterpolatedPart, Item, LoopStmt, MatchArm, MatchArmBody, MatchExpr, Param, Program,
    PropertyDecl, ReturnStmt, Stmt, StructDecl, StructField, Type, UnaryOp, VarDecl, WhileStmt,
};
use hella::lint::{check, walk, Warning};
use hella::token::Span;

fn none() -> Span {
    Span::new(0, 0)
}

fn ex(kind: ExprKind) -> Expr {
    Expr { kind, span: none() }
}

fn boxed(kind: ExprKind) -> Box<Expr> {
    Box::new(ex(kind))
}

fn ident(name: &str) -> Expr {
    ex(ExprKind::Ident(name.to_string()))
}

fn num(n: i64) -> Expr {
    ex(ExprKind::IntLit(n))
}

fn ty() -> Type {
    Type::Int(none())
}

fn block(stmts: Vec<Stmt>) -> Block {
    Block { stmts, span: none() }
}

fn function(name: &str, params: Vec<Param>, body: Block) -> Function {
    Function {
        name: name.to_string(),
        params,
        ret_ty: Type::Void(none()),
        body,
        is_async: false,
        span: none(),
    }
}

fn program(items: Vec<Item>) -> Program {
    Program { items, span: none() }
}

fn main_with(stmts: Vec<Stmt>) -> Program {
    program(vec![Item::Function(function("main", vec![], block(stmts)))])
}

fn stmt(e: Expr) -> Stmt {
    Stmt::Expr(ExprStmt { expr: e })
}

/// `(x)` nested any number of times, or a bare name.
fn operand(text: &str) -> Expr {
    match text.strip_prefix('(') {
        Some(rest) => {
            let inner = rest.strip_suffix(')').unwrap();
            ex(ExprKind::Paren(Box::new(operand(inner))))
        }
        None => ident(text),
    }
}

/// One argument as it is written, at the offset where it stands.
fn arg(text: &str, at: usize) -> CallArg {
    let span = Span::new(at, at + text.len());
    if let Some(rest) = text.strip_prefix("ref ") {
        return CallArg::Ref { expr: operand(rest), span };
    }
    if let Some(rest) = text.strip_prefix("out ") {
        return match rest.strip_prefix("int ") {
            Some(name) => CallArg::Out { ty: Some(ty()), name: name.to_string(), span },
            None => CallArg::Out { ty: None, name: rest.to_string(), span },
        };
    }
    CallArg::Expr(Expr { kind: ExprKind::Ident(text.to_string()), span })
}

fn args(text: &str, at: usize) -> Vec<CallArg> {
    let mut out = Vec::new();
    let mut pos = at;
    for piece in text.split(", ") {
        out.push(arg(piece, pos));
        pos += piece.len() + 2;
    }
    out
}

fn call(name: &str, a: Vec<CallArg>) -> Expr {
    ex(ExprKind::Call { callee: name.to_string(), args: a })
}

/// `void main() do\nf({args})\nend\n` and its tree.
fn source_of(list: &str) -> (String, Program) {
    let src = format!("void main() do\nf({list})\nend\n");
    let at = src.find(list).unwrap();
    let tree = main_with(vec![stmt(call("f", args(list, at)))]);
    (src, tree)
}

/// `f(ref x, out x)`, which H001 reports.
fn bad() -> Expr {
    call("f", args("ref x, out x", 2))
}

fn bad_box() -> Box<Expr> {
    Box::new(bad())
}

fn var(init: Expr) -> Stmt {
    Stmt::VarDecl(VarDecl { name: "y".to_string(), ty: ty(), init: Some(init), span: none() })
}

#[test]
fn explicit_ref_out_duplicates() {
    for list in ["ref x, ref x", "ref x, out x", "out x, ref x", "out x, out x", "ref ((x)), ref (x)"] {
        let (src, tree) = source_of(list);
        let warnings = check(&tree);
        assert_eq!(warnings.len(), 1, "{list}: {warnings:?}");
        let second = list.split(", ").nth(1).unwrap();
        let start = src.rfind(second).unwrap();
        assert_eq!(warnings[0].span, Span::new(start, start + second.len()));
        assert_eq!(warnings[0].code, "H001");
        assert!(warnings[0].message.contains("`x`"));
        assert!(warnings[0].message.contains("ref/out"));
    }
}

#[test]
fn distinct_names_calls_and_implicit_arguments_are_not_duplicates() {
    let member = |name: &str| {
        ex(ExprKind::MemberAccess { object: Box::new(ident("obj")), member: name.to_string() })
    };
    let element = || ex(ExprKind::Index { object: Box::new(ident("xs")), index: Box::new(num(0)) });
    let by_ref = |e: Expr| CallArg::Ref { expr: e, span: none() };
    let bodies: Vec<Vec<Stmt>> = vec![
        vec![stmt(call("f", args("ref x, ref y, out z", 0)))],
        vec![stmt(call("f", args("ref x", 0))), stmt(call("f", args("ref x", 0)))],
        vec![stmt(call("f", args("out x", 0))), stmt(call("g", args("out x", 0)))],
        vec![stmt(call("f", args("x, x", 0)))],
        vec![stmt(call("f", args("x, ref x", 0)))],
        vec![stmt(call("f", args("ref x, x", 0)))],
        vec![stmt(call("f", vec![by_ref(member("x")), by_ref(member("x"))]))],
        vec![stmt(call("f", vec![by_ref(element()), by_ref(element())]))],
        vec![stmt(call(
            "f",
            vec![arg("ref x", 0), CallArg::Expr(call("g", args("ref x", 0)))],
        ))],
    ];
    for body in bodies {
        let tree = main_with(body);
        assert!(check(&tree).is_empty(), "{tree:?}");
    }
}

#[test]
fn typed_out_is_conservative_but_marks_the_name_seen() {
    for list in ["ref x, out int x", "out x, out int x", "out int x, out int x"] {
        let (_, tree) = source_of(list);
        assert!(check(&tree).is_empty(), "{list}");
    }
    for list in [
        "out int x, ref x",
        "out int x, out x",
        "ref x, out int x, ref x",
        "out x, out int x, out x",
        "out int x, out int x, ref x",
        "ref y, out int x, ref y",
    ] {
        let (src, tree) = source_of(list);
        let warnings = check(&tree);
        assert_eq!(warnings.len(), 1, "{list}: {warnings:?}");
        let last = list.rsplit(", ").next().unwrap();
        let start = src.rfind(last).unwrap();
        assert_eq!(warnings[0].span, Span::new(start, start + last.len()));
    }
}

#[test]
fn every_repeat_is_reported_and_nested_warnings_are_source_ordered() {
    let src = "void main() do\nf(ref x, g(ref y, out y), out x, ref x)\nend\n";
    let place = |needle: &str| src.find(needle).unwrap();
    let inner = call("g", args("ref y, out y", place("ref y")));
    let outer = call(
        "f",
        vec![
            arg("ref x", place("ref x")),
            CallArg::Expr(inner),
            arg("out x", place("out x")),
            arg("ref x", src.rfind("ref x").unwrap()),
        ],
    );
    let warnings = check(&main_with(vec![stmt(outer)]));
    let spans: Vec<&str> = warnings.iter().map(|w| &src[w.span.start..w.span.end]).collect();
    assert_eq!(spans, ["out y", "out x", "ref x"]);
    assert!(warnings.windows(2).all(|ws| ws[0].span.start < ws[1].span.start));
}

#[test]
fn warning_is_advisory_for_a_semantically_valid_program() {
    let src = "void update(ref int a, out int b) do\na = 1\nb = 2\nend\n\
               void main() do\nint x = 0\nupdate(ref x, out x)\nend\n";
    let assign = |name: &str, n: i64| {
        stmt(ex(ExprKind::Assign { lhs: Box::new(ident(name)), value: Box::new(num(n)) }))
    };
    let at = src.find("ref x, out x").unwrap();
    let tree = program(vec![
        Item::Function(function(
            "update",
            vec![
                Param { name: "a".to_string(), ty: ty(), default: None },
                Param { name: "b".to_string(), ty: ty(), default: None },
            ],
            block(vec![assign("a", 1), assign("b", 2)]),
        )),
        Item::Function(function(
            "main",
            vec![],
            block(vec![
                Stmt::VarDecl(VarDecl {
                    name: "x".to_string(),
                    ty: ty(),
                    init: Some(num(0)),
                    span: none(),
                }),
                stmt(call("update", args("ref x, out x", at))),
            ]),
        )),
    ]);
    let warnings = check(&tree);
    assert_eq!(warnings.len(), 1);
    assert_eq!(warnings[0].code, "H001");
    assert_eq!(&src[warnings[0].span.start..warnings[0].span.end], "out x");
}

#[test]
fn call_method_and_constructor_arguments_are_checked() {
    let a = || args("ref x, out x", 0);
    for kind in [
        ExprKind::Call { callee: "f".to_string(), args: a() },
        ExprKind::MethodCall { object: Box::new(ident("obj")), method: "f".to_string(), args: a() },
        ExprKind::New { ty: Type::Named("C".to_string(), none()), args: a() },
    ] {
        let tree = main_with(vec![stmt(ex(kind))]);
        assert_eq!(check(&tree).len(), 1, "{tree:?}");
    }
}

#[test]
fn nested_expression_and_statement_traversal() {
    let yes = || ex(ExprKind::BoolLit(true));
    let arm = |guard: Option<Expr>, body: MatchArmBody| {
        ex(ExprKind::Match(MatchExpr {
            scrutinee: Box::new(ident("x")),
            arms: vec![MatchArm { pattern: "_".to_string(), guard, body }],
        }))
    };
    let ret = || Stmt::Return(ReturnStmt { value: Some(bad()) });
    let zero_to_bad = || {
        ex(ExprKind::Range {
            start: Some(Box::new(num(0))),
            end: Some(bad_box()),
            inclusive: false,
        })
    };
    let bodies: Vec<Stmt> = vec![
        ret(),
        var(ex(ExprKind::Binary { op: BinaryOp::Add, lhs: Box::new(num(1)), rhs: bad_box() })),
        stmt(ex(ExprKind::Assign { lhs: Box::new(ident("y")), value: bad_box() })),
        stmt(ex(ExprKind::CompoundAssign {
            op: BinaryOp::Add,
            lhs: Box::new(ident("y")),
            value: bad_box(),
        })),
        var(ex(ExprKind::Conditional {
            cond: Box::new(yes()),
            then_branch: bad_box(),
            else_branch: Box::new(num(0)),
        })),
        var(ex(ExprKind::Unary { op: UnaryOp::Neg, expr: bad_box() })),
        stmt(ex(ExprKind::MethodCall {
            object: bad_box(),
            method: "method".to_string(),
            args: vec![],
        })),
        stmt(ex(ExprKind::MethodCall {
            object: Box::new(ident("obj")),
            method: "method".to_string(),
            args: vec![CallArg::Named { name: "value".to_string(), value: bad(), span: none() }],
        })),
        var(ex(ExprKind::Index { object: Box::new(ident("xs")), index: bad_box() })),
        var(ex(ExprKind::Slice {
            object: Box::new(ident("xs")),
            start: Some(Box::new(num(0))),
            end: Some(bad_box()),
        })),
        var(ex(ExprKind::Tuple(vec![num(0), bad()]))),
        var(ex(ExprKind::ArrayLit(vec![bad()]))),
        var(ex(ExprKind::Closure {
            params: vec![],
            body: Box::new(ClosureBody::Expr(bad())),
            span: none(),
        })),
        var(ex(ExprKind::Closure {
            params: vec![],
            body: Box::new(ClosureBody::Block(block(vec![ret()]))),
            span: none(),
        })),
        var(ex(ExprKind::InterpolatedString(
            vec![InterpolatedPart::Text("value ".to_string()), InterpolatedPart::Expr(bad())],
            none(),
        ))),
        Stmt::Defer(DeferStmt { inner: DeferInner::Expr(bad()) }),
        Stmt::Defer(DeferStmt { inner: DeferInner::Block(block(vec![stmt(bad())])) }),
        Stmt::Delete(DeleteStmt { target: bad() }),
        Stmt::If(IfStmt { cond: bad(), then_block: block(vec![]), else_block: None }),
        Stmt::If(IfStmt {
            cond: yes(),
            then_block: block(vec![]),
            else_block: Some(block(vec![stmt(bad())])),
        }),
        Stmt::While(WhileStmt { cond: bad(), body: block(vec![]) }),
        Stmt::Loop(LoopStmt { body: block(vec![stmt(bad())]) }),
        Stmt::For(ForStmt { name: "i".to_string(), iter: zero_to_bad(), body: block(vec![]) }),
        Stmt::Assert(AssertStmt { cond: yes(), message: Some(bad()) }),
        var(arm(None, MatchArmBody::Expr(bad()))),
        var(arm(None, MatchArmBody::Block(block(vec![ret()])))),
        var(arm(Some(bad()), MatchArmBody::Expr(num(0)))),
        stmt(ex(ExprKind::EnumVariant {
            enum_name: None,
            variant: "Some".to_string(),
            args: args("ref x, out x", 0),
        })),
    ];
    assert_eq!(bodies.len(), 28);
    for body in bodies {
        let tree = main_with(vec![body]);
        assert_eq!(check(&tree).len(), 1, "{tree:?}");
    }
}

fn class(name: &str) -> ClassDecl {
    ClassDecl {
        name: name.to_string(),
        fields: vec![],
        methods: vec![],
        constructors: vec![],
        destructors: vec![],
        properties: vec![],
        operators: vec![],
        conversions: vec![],
        span: none(),
    }
}

#[test]
fn declaration_defaults_and_object_bodies_are_traversed() {
    let field = || StructField { name: "y".to_string(), ty: ty(), default: Some(bad()) };
    let body = || block(vec![stmt(bad())]);
    let mut with_field = class("C");
    with_field.fields.push(field());
    let mut with_method = class("C");
    with_method.methods.push(function("method", vec![], body()));
    let mut with_constructor = class("C");
    with_constructor.constructors.push(Constructor { params: vec![], body: Some(body()) });
    let mut with_destructor = class("C");
    with_destructor.destructors.push(Destructor { body: body() });
    let mut with_property = class("C");
    with_property.properties.push(PropertyDecl {
        name: "value".to_string(),
        ty: Some(ty()),
        getter: Some(block(vec![Stmt::Return(ReturnStmt { value: Some(bad()) })])),
        setter: None,
    });
    let items: Vec<Item> = vec![
        Item::Function(function(
            "f",
            vec![Param { name: "y".to_string(), ty: ty(), default: Some(bad()) }],
            block(vec![Stmt::Return(ReturnStmt { value: Some(ident("y")) })]),
        )),
        Item::Struct(StructDecl { name: "S".to_string(), fields: vec![field()], span: none() }),
        Item::Class(with_field),
        Item::Class(with_method),
        Item::Class(with_constructor),
        Item::Class(with_destructor),
        Item::Class(with_property),
    ];
    for item in items {
        let tree = program(vec![item]);
        assert_eq!(check(&tree).len(), 1, "{tree:?}");
    }
}

#[test]
fn h001_message_is_exact() {
    let (_, tree) = source_of("ref x, out x");
    let found: Vec<Warning> = check(&tree);
    assert_eq!(
        found[0].message,
        "`x` is passed to multiple ref/out arguments in this call; writes through one argument also change the other"
    );
}

#[test]
fn warnings_on_one_span_keep_their_order() {
    let twice = CallArg::Ref { expr: ident("a"), span: Span::new(9, 9) };
    let same_span = |name: &str| CallArg::Ref { expr: ident(name), span: Span::new(9, 9) };
    let list = vec![
        twice,
        same_span("b"),
        same_span("a"),
        same_span("b"),
        CallArg::Ref { expr: ident("a"), span: Span::new(3, 4) },
    ];
    let warnings = check(&main_with(vec![stmt(call("f", list))]));
    let told: Vec<(usize, bool)> =
        warnings.iter().map(|w| (w.span.start, w.message.starts_with("`a`"))).collect();
    assert_eq!(told, vec![(3, true), (9, true), (9, false)]);
}

#[test]
fn expressions_come_in_preorder() {
    let e = ex(ExprKind::Binary {
        op: BinaryOp::Add,
        lhs: Box::new(ident("a")),
        rhs: boxed(ExprKind::Unary { op: UnaryOp::Neg, expr: Box::new(ident("b")) }),
    });
    let seen: Vec<&str> = walk::exprs(&e)
        .iter()
        .map(|x| match &x.kind {
            ExprKind::Binary { .. } => "+",
            ExprKind::Unary { .. } => "-",
            ExprKind::Ident(n) => n.as_str(),
            _ => "?",
        })
        .collect();
    assert_eq!(seen, ["+", "a", "-", "b"]);
}

#[test]
fn named_types_lose_their_qualifiers() {
    let item = Item::Function(Function {
        name: "f".to_string(),
        params: vec![Param {
            name: "p".to_string(),
            ty: Type::Generic(
                "a::Box".to_string(),
                vec![Type::Optional(Box::new(Type::Named("b::c::Tm".to_string(), none())), none())],
                none(),
            ),
            default: None,
        }],
        ret_ty: Type::Dict {
            key: Box::new(Type::Str(none())),
            value: Box::new(Type::Named("V".to_string(), none())),
            span: none(),
        },
        body: block(vec![Stmt::VarDecl(VarDecl {
            name: "t".to_string(),
            ty: Type::Pointer(Box::new(Type::Named("Local".to_string(), none())), none()),
            init: None,
            span: none(),
        })]),
        is_async: false,
        span: none(),
    });
    assert_eq!(walk::item_named_types(&item), ["V", "Box", "Tm", "Local"]);
}
