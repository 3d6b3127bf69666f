//! Conditional compilation.
use hella::ast::{Attribute, AttributeArg, Block, Expr, ExprKind, Function, Item, Type};
use hella::cfg::{apply_cfg, eval_cfg, host_os, is_cfg};
use hella::token::Span;

const HOSTS: [&str; 4] = [
    "aarch64-apple-darwin",
    "x86_64-unknown-linux-gnu",
    "x86_64-pc-windows-msvc",
    "riscv64gc-unknown-none-elf",
];

fn here() -> Span {
    Span::new(0, 0)
}

fn lit(kind: ExprKind) -> Expr {
    Expr { kind, span: here() }
}

fn text(s: &str) -> Expr {
    lit(ExprKind::StringLit(s.to_string()))
}

/// `key = value`, as the attribute grammar delivers it.
fn named(key: &str, value: Expr) -> AttributeArg {
    AttributeArg::Expr(lit(ExprKind::Assign {
        lhs: Box::new(lit(ExprKind::Ident(key.to_string()))),
        value: Box::new(value),
    }))
}

fn word(name: &str) -> AttributeArg {
    AttributeArg::Expr(lit(ExprKind::Ident(name.to_string())))
}

fn attr(args: Vec<AttributeArg>) -> Attribute {
    Attribute { name: "cfg".to_string(), args, span: here() }
}

fn function(name: &str) -> Item {
    Item::Function(Function {
        name: name.to_string(),
        params: vec![],
        ret_ty: Type::Void(here()),
        body: Block { stmts: vec![], span: here() },
        is_async: false,
        span: here(),
    })
}

#[test]
fn os_condition() {
    for host in HOSTS {
        let a = attr(vec![named("os", text("macos"))]);
        assert_eq!(eval_cfg(&a, true, host, None), host_os(host) == "macos");
        let a2 = attr(vec![named("os", text("linux"))]);
        assert_eq!(eval_cfg(&a2, true, host, None), host_os(host) == "linux");
    }
}

#[test]
fn os_or() {
    for host in &HOSTS[..3] {
        let a = attr(vec![named("os", text("nope")), named("os", text("alsono"))]);
        assert!(!eval_cfg(&a, true, host, None));
        let b = attr(vec![named("os", text("macos")), named("os", text("linux"))]);
        assert_eq!(eval_cfg(&b, true, host, None), host_os(host) != "windows");
    }
}

#[test]
fn target_condition() {
    for host in HOSTS {
        let a = attr(vec![named("target", text("aarch64-apple-darwin"))]);
        assert_eq!(eval_cfg(&a, true, host, None), host.contains("darwin"));
        let a2 = attr(vec![named("target", text("x86_64-unknown-linux-gnu"))]);
        assert_eq!(eval_cfg(&a2, true, host, None), host.contains("linux"));
    }
}

#[test]
fn debug_flag() {
    let a = attr(vec![word("debug")]);
    assert!(eval_cfg(&a, true, HOSTS[0], None));
    assert!(!eval_cfg(&a, false, HOSTS[0], None));
    let b = attr(vec![named("debug", lit(ExprKind::BoolLit(false)))]);
    assert!(!eval_cfg(&b, true, HOSTS[0], None));
    assert!(eval_cfg(&b, false, HOSTS[0], None));
}

#[test]
fn unix_and_windows_predicates_are_exclusive() {
    for host in HOSTS {
        let unix = attr(vec![word("unix")]);
        let win = attr(vec![word("windows")]);
        match host_os(host) {
            "windows" => {
                assert!(!eval_cfg(&unix, true, host, None));
                assert!(eval_cfg(&win, true, host, None));
            }
            "unknown" => {
                assert!(!eval_cfg(&unix, true, host, None));
                assert!(!eval_cfg(&win, true, host, None));
            }
            _ => {
                assert!(eval_cfg(&unix, true, host, None));
                assert!(!eval_cfg(&win, true, host, None));
            }
        }
    }
}

#[test]
fn unknown_condition_is_false() {
    let a = attr(vec![named("feature", text("simd"))]);
    assert!(!eval_cfg(&a, true, HOSTS[1], None));
}

#[test]
fn apply_drops_false_items() {
    let mut items = vec![
        Item::Attributed {
            attrs: vec![attr(vec![named("os", text("definitely_not_a_real_os"))])],
            item: Box::new(function("hidden")),
            span: here(),
        },
        function("shown"),
    ];
    apply_cfg(&mut items, true, HOSTS[0]);
    assert_eq!(items.len(), 1);
    match &items[0] {
        Item::Function(f) => assert_eq!(f.name, "shown"),
        other => panic!("expected function, got {other:?}"),
    }
}

#[test]
fn host_systems() {
    let all: Vec<&str> = HOSTS.iter().map(|h| host_os(h)).collect();
    assert_eq!(all, ["macos", "linux", "windows", "unknown"]);
    assert_eq!(host_os("arm64-apple-ios"), "macos");
}

#[test]
fn target_override_moves_the_triple_but_not_the_system() {
    let target = attr(vec![named("target", text("aarch64-apple-darwin"))]);
    assert!(eval_cfg(&target, false, HOSTS[1], Some("aarch64-apple-darwin")));
    let os = attr(vec![named("os", text("linux"))]);
    assert!(eval_cfg(&os, false, HOSTS[1], Some("aarch64-apple-darwin")));
}

#[test]
fn empty_and_foreign_attributes_keep_the_item() {
    assert!(eval_cfg(&attr(vec![]), false, HOSTS[0], None));
    let other = Attribute { name: "inline".to_string(), args: vec![word("never")], span: here() };
    assert!(!is_cfg(&other));
    assert!(eval_cfg(&other, false, HOSTS[0], None));
}

#[test]
fn stacked_conditions_must_all_hold() {
    let stack = |second: &str| Item::Attributed {
        attrs: vec![
            attr(vec![word("unix")]),
            Attribute {
                name: "cfg".to_string(),
                args: vec![AttributeArg::Assign("os".to_string(), here(), text(second))],
                span: here(),
            },
        ],
        item: Box::new(function("f")),
        span: here(),
    };
    let mut items = vec![stack("linux"), stack("macos")];
    apply_cfg(&mut items, false, HOSTS[1]);
    assert_eq!(items.len(), 1);
    apply_cfg(&mut items, false, HOSTS[1]);
    assert_eq!(items.len(), 1);
    apply_cfg(&mut items, false, HOSTS[2]);
    assert!(items.is_empty());
}

#[test]
fn values_of_the_wrong_kind_do_not_hold() {
    for bad in [
        attr(vec![named("os", lit(ExprKind::BoolLit(true)))]),
        attr(vec![named("target", lit(ExprKind::IntLit(1)))]),
        attr(vec![named("debug", text("true"))]),
        attr(vec![AttributeArg::Expr(lit(ExprKind::IntLit(1)))]),
        attr(vec![AttributeArg::Named("nope".to_string(), here(), text("x"))]),
    ] {
        assert!(!eval_cfg(&bad, true, HOSTS[1], None), "{bad:?}");
    }
}
