//! Reachability of async code.
use hella::ast::{
    Block, CallArg, ClassDecl, Expr, ExprKind, ExprStmt, ExternBlock, ExternMember, Function, Item,
    Program, ReturnStmt, Stmt, Type, VarDecl, Param,
};
use hella::async_req::{analyze, uses_async_runtime, uses_sync_runtime};
use hella::token::Span;

fn at() -> Span {
    Span::new(0, 0)
}

fn expr(kind: ExprKind) -> Expr {
    Expr { kind, span: at() }
}

fn func(name: &str, is_async: bool, stmts: Vec<Stmt>) -> Function {
    Function {
        name: name.to_string(),
        params: vec![],
        ret_ty: Type::Void(at()),
        body: Block { stmts, span: at() },
        is_async,
        span: at(),
    }
}

fn prog(items: Vec<Item>) -> Program {
    Program { items, span: at() }
}

fn local(name: &str, ty: Type, init: Expr) -> Stmt {
    Stmt::VarDecl(VarDecl { name: name.to_string(), ty, init: Some(init), span: at() })
}

fn int_x() -> Stmt {
    local("x", Type::Int(at()), expr(ExprKind::IntLit(1)))
}

fn call(name: &str) -> Expr {
    expr(ExprKind::Call {
        callee: name.to_string(),
        args: vec![CallArg::Expr(expr(ExprKind::IntLit(1)))],
    })
}

fn slow() -> Item {
    let mut f = func(
        "slow",
        true,
        vec![Stmt::Return(ReturnStmt { value: Some(expr(ExprKind::Ident("n".to_string()))) })],
    );
    f.params.push(Param { name: "n".to_string(), ty: Type::Int(at()), default: None });
    f.ret_ty = Type::Int(at());
    Item::Function(f)
}

fn run(e: Expr) -> Stmt {
    Stmt::Expr(ExprStmt { expr: e })
}

#[test]
fn synchronous_program_needs_no_runtime() {
    let p = prog(vec![Item::Function(func("main", false, vec![int_x()]))]);
    assert!(!uses_async_runtime(&p));
}

#[test]
fn imported_unused_async_decl_does_not_need_runtime() {
    let p = prog(vec![slow(), Item::Function(func("main", false, vec![int_x()]))]);
    assert!(!uses_async_runtime(&p));
    assert!(!analyze(&p).reachable.contains("slow"));
}

#[test]
fn unmentioned_functions_change_nothing() {
    let rest = || {
        vec![
            Item::Function(func("main", false, vec![run(call("work"))])),
            Item::Function(func("work", false, vec![int_x()])),
        ]
    };
    let plain = analyze(&prog(rest()));
    for place in 0..3 {
        let mut items = rest();
        items.insert(place, slow());
        let r = analyze(&prog(items));
        assert_eq!(r.needed, plain.needed);
        for name in ["main", "work", "slow"] {
            assert_eq!(r.reachable.contains(name), plain.reachable.contains(name), "{name}");
        }
    }
}

#[test]
fn reachable_async_function_needs_runtime() {
    let t = local("t", Type::Task(Box::new(Type::Int(at())), at()), call("slow"));
    let p = prog(vec![slow(), Item::Function(func("main", false, vec![t]))]);
    assert!(uses_async_runtime(&p));
    assert!(analyze(&p).reachable.contains("slow"));
}

#[test]
fn async_main_needs_runtime() {
    let p = prog(vec![Item::Function(func("main", true, vec![int_x()]))]);
    assert!(uses_async_runtime(&p));
}

#[test]
fn calls_are_followed_through_other_functions_and_cycles() {
    let p = prog(vec![
        slow(),
        Item::Function(func("a", false, vec![run(call("b"))])),
        Item::Function(func("b", false, vec![run(call("a")), run(call("c"))])),
        Item::Function(func("c", false, vec![run(call("slow"))])),
        Item::Function(func("lonely", false, vec![])),
        Item::Function(func("main", false, vec![run(call("a"))])),
    ]);
    let r = analyze(&p);
    assert!(r.needed);
    for name in ["main", "a", "b", "c", "slow"] {
        assert!(r.reachable.contains(name), "{name}");
    }
    assert!(!r.reachable.contains("lonely"));
}

#[test]
fn a_bare_mention_counts_as_a_call() {
    let value = expr(ExprKind::Ident("slow".to_string()));
    let p = prog(vec![
        slow(),
        Item::Function(func("main", false, vec![local("f", Type::Any(at()), value)])),
    ]);
    assert!(uses_async_runtime(&p));
}

#[test]
fn global_initializers_are_roots_to_their_leaves() {
    let nested = expr(ExprKind::Paren(Box::new(call("slow"))));
    let p = prog(vec![
        slow(),
        Item::Var(VarDecl {
            name: "g".to_string(),
            ty: Type::Int(at()),
            init: Some(nested),
            span: at(),
        }),
        Item::Function(func("main", false, vec![])),
    ]);
    let r = analyze(&p);
    assert!(r.needed);
    assert!(r.reachable.contains("slow"));
}

#[test]
fn init_blocks_are_roots() {
    let p = prog(vec![slow(), Item::Init(Block { stmts: vec![run(call("slow"))], span: at() })]);
    assert!(uses_async_runtime(&p));
}

fn class_with(m: Function) -> Item {
    Item::Class(ClassDecl {
        name: "C".to_string(),
        fields: vec![],
        methods: vec![m],
        constructors: vec![],
        destructors: vec![],
        properties: vec![],
        operators: vec![],
        conversions: vec![],
        span: at(),
    })
}

fn method_call(name: &str) -> Expr {
    expr(ExprKind::MethodCall {
        object: Box::new(expr(ExprKind::Ident("obj".to_string()))),
        method: name.to_string(),
        args: vec![],
    })
}

#[test]
fn methods_are_edges_too() {
    // An async method, called.
    let p = prog(vec![
        class_with(func("work", true, vec![])),
        Item::Function(func("main", false, vec![run(method_call("work"))])),
    ]);
    assert!(uses_async_runtime(&p));
    // A synchronous method that calls an async function.
    let p = prog(vec![
        slow(),
        class_with(func("work", false, vec![run(call("slow"))])),
        Item::Function(func("main", false, vec![run(method_call("work"))])),
    ]);
    assert!(uses_async_runtime(&p));
    // Declared, never called.
    let p = prog(vec![
        class_with(func("work", true, vec![])),
        Item::Function(func("main", false, vec![])),
    ]);
    assert!(!uses_async_runtime(&p));
    // Method names are no free functions.
    assert!(!analyze(&p).reachable.contains("work"));
}

#[test]
fn await_in_reachable_code_needs_the_runtime() {
    let wait = expr(ExprKind::Await {
        task: Box::new(expr(ExprKind::Ident("t".to_string()))),
        span: at(),
    });
    let p = prog(vec![Item::Function(func("main", false, vec![run(wait)]))]);
    assert!(uses_async_runtime(&p));
}

#[test]
fn sync_runtime_follows_foreign_declarations() {
    let declare = |name: &str| {
        prog(vec![Item::Extern(ExternBlock {
            members: vec![ExternMember::Function {
                name: name.to_string(),
                params: vec![],
                ret_ty: Type::Void(at()),
                span: at(),
            }],
            span: at(),
        })])
    };
    for name in [
        "hella_mutex_lock",
        "hella_chan_send",
        "hella_wall_ms",
        "hella_monotonic_ms",
        "hella_tcp_connect",
        "hella_sleep_ms",
    ] {
        assert!(uses_sync_runtime(&declare(name)), "{name}");
    }
    for name in ["hella_task_self", "hella_sleep_ms2", "puts", "hella_mutex"] {
        assert!(!uses_sync_runtime(&declare(name)), "{name}");
    }
    assert!(!uses_sync_runtime(&prog(vec![])));
}
