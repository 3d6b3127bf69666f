//! Layout of the Hella home, import resolution and import expansion.
use hella::ast::{
    Attribute, AttributeArg, Block, CallArg, Expr, ExprKind, ExprStmt, ExtensionDecl, ExternBlock,
    ExternMember, Function, ImportDecl, Item, Program, Stmt, StructDecl, Type, VarDecl,
};
use hella::manifest::{parse_lockfile, parse_manifest};
use hella::modules::expand::{
    expand_imports, expand_imports_with_cfg, item_name, wanted_files, Content, Expanded,
    ImportError, Source,
};
use hella::modules::gather::Gather;
use hella::modules::layout::{
    dep_bases_for_project, dep_module_root, dep_search_bases, hella_bin_dir, hella_cache_dir,
    hella_home, hella_lib_dir, hella_pkg_dir, pkg_slot_dir, project_root, sanitize_version_segment,
    search_bases, workspace_stdlib_root, Ancestor,
};
use hella::modules::resolve::{import_candidates, resolve_import};
use hella::parse::ParseError;
use hella::token::Span;

const HOST: &str = "x86_64-unknown-linux-gnu";

fn zero() -> Span {
    Span::new(0, 0)
}

fn strings(v: &[&str]) -> Vec<String> {
    v.iter().map(|s| s.to_string()).collect()
}

// ── layout ──────────────────────────────────────────────────────────────

#[test]
fn slot_layout_and_version_sanitization() {
    let pkg = "/home/u/.hella/pkg";
    assert_eq!(
        pkg_slot_dir(pkg, "github.com/owner/repo", "1.2.3"),
        format!("{pkg}/github.com/owner/repo/1.2.3")
    );
    // Requests can never escape the slot.
    assert_eq!(sanitize_version_segment(""), "_");
    assert_eq!(sanitize_version_segment("^1.2"), "_1.2");
    assert_eq!(
        pkg_slot_dir(pkg, "github.com/o/r", "^1.2"),
        format!("{pkg}/github.com/o/r/_1.2")
    );
}

#[test]
fn home_layout_nesting() {
    // lib stays stdlib-only, pkg/bin/cache are siblings.
    let home = "/home/u/.hella";
    assert_eq!(hella_lib_dir(Some(home)).unwrap(), format!("{home}/lib"));
    assert_eq!(
        pkg_slot_dir(&format!("{home}/pkg"), "github.com/o/r", "1.0.0"),
        format!("{home}/pkg/github.com/o/r/1.0.0")
    );
    assert_eq!(hella_pkg_dir(Some(home)).unwrap(), format!("{home}/pkg"));
    assert_eq!(hella_bin_dir(Some(home)).unwrap(), format!("{home}/bin"));
    assert_eq!(hella_cache_dir(Some(home)).unwrap(), format!("{home}/cache"));
    assert!(hella_lib_dir(None).is_none());
}

#[test]
fn versions_stay_inside_their_slot() {
    assert_eq!(sanitize_version_segment(".."), "__");
    assert_eq!(sanitize_version_segment("."), "_");
    assert_eq!(sanitize_version_segment("../../etc"), ".._.._etc");
    assert_eq!(sanitize_version_segment("a\\b/ü"), "a_b__");
    assert_eq!(sanitize_version_segment("1.2.3-beta_1"), "1.2.3-beta_1");
}

#[test]
fn legacy_drive_sources_get_a_safe_slot() {
    assert_eq!(
        pkg_slot_dir("/p", "local/C:/libs/x", "1.0.0"),
        "/p/local/__drive_C/libs/x/1.0.0"
    );
    assert_eq!(pkg_slot_dir("/p", "/host/x/", "1"), "/p/host/x/1");
}

#[test]
fn home_can_be_chosen() {
    assert_eq!(hella_home(Some("/tmp/hh"), Some("/home/u")).unwrap(), "/tmp/hh");
    assert_eq!(hella_home(Some("  "), Some("/home/u")).unwrap(), "/home/u/.hella");
    assert_eq!(hella_home(None, Some("/home/u")).unwrap(), "/home/u/.hella");
    assert!(hella_home(None, None).is_none());
}

fn manifest_text() -> &'static str {
    "[package]\nname = \"app\"\nversion = \"0.1.0\"\n\
     [dependencies]\n\
     mylib = { git = \"github.com/o/lib\", version = \"^1.0\" }\n\
     tool = { git = \"github.com/o/tool\", version = \"0.4.0\", package = \"tool::cli\" }\n"
}

fn lock_text() -> &'static str {
    "[[package]]\nname = \"mylib\"\ngit = \"github.com/o/lib\"\n\
     version = \"1.2.3\"\nrev = \"abc123\"\n\
     \n[[package]]\nname = \"tool\"\ngit = \"github.com/o/tool\"\n\
     version = \"0.4.0\"\nrev = \"def456\"\npackage = \"tool::cli\"\n"
}

#[test]
fn dep_bases_use_locked_versions_and_hide_unlisted() {
    let manifest = parse_manifest(manifest_text()).unwrap();
    let lock = parse_lockfile(lock_text()).unwrap();
    let pkg = "/s/pkg";
    let dirs = strings(&[
        "/s/pkg/github.com/o/lib/1.2.3",
        "/s/pkg/github.com/o/lib/1.0.0",
        "/s/pkg/github.com/o/tool/0.4.0/tool/cli",
        "/s/pkg/github.com/o/evil/9.9.9",
    ]);
    let bases = dep_bases_for_project(Some(&manifest), &lock, pkg, &dirs);
    assert_eq!(bases.len(), 2);
    assert_eq!(bases[0], "/s/pkg/github.com/o/lib/1.2.3");
    assert_eq!(bases[1], "/s/pkg/github.com/o/tool/0.4.0/tool/cli");
    let files = strings(&[
        "/s/pkg/github.com/o/lib/1.2.3/mylib.hll",
        "/s/pkg/github.com/o/lib/1.0.0/mylib.hll",
        "/s/pkg/github.com/o/evil/9.9.9/evil.hll",
    ]);
    assert!(
        resolve_import(&strings(&["evil"]), &bases, &files).is_none(),
        "unlisted deps must not resolve"
    );
    assert_eq!(
        resolve_import(&strings(&["mylib"]), &bases, &files),
        Some("/s/pkg/github.com/o/lib/1.2.3/mylib.hll".to_string())
    );
    // Missing slots are skipped, not returned.
    let bases = dep_bases_for_project(Some(&manifest), &lock, pkg, &strings(&[&dirs[2]]));
    assert_eq!(bases, vec![dirs[2].clone()]);
    assert_eq!(dep_module_root(pkg, &lock.packages[1]), dirs[2]);
}

#[test]
fn dep_bases_fall_back_to_request_without_lock() {
    let manifest = parse_manifest(
        "[package]\nname = \"app\"\nversion = \"0.1.0\"\n\
         [dependencies]\nmylib = \"github.com/o/lib\"\n",
    )
    .unwrap();
    let lock = parse_lockfile("").unwrap();
    let dirs = strings(&["/s/pkg/github.com/o/lib/latest"]);
    assert_eq!(dep_bases_for_project(Some(&manifest), &lock, "/s/pkg", &dirs), dirs);
    assert_eq!(dep_search_bases(Some(&manifest), &lock, Some("/s/pkg"), &dirs), dirs);
    assert!(dep_search_bases(Some(&manifest), &lock, None, &dirs).is_empty());
}

#[test]
fn no_manifest_means_no_dep_bases() {
    let lock = parse_lockfile(lock_text()).unwrap();
    let dirs = strings(&["/s/pkg/github.com/o/lib/1.2.3"]);
    assert!(dep_bases_for_project(None, &lock, "/s/pkg", &dirs).is_empty());
}

fn up(path: &str, has_manifest: bool, has_main: bool, has_stdlib: bool) -> Ancestor {
    Ancestor { path: path.to_string(), has_manifest, has_main, has_stdlib }
}

#[test]
fn project_roots_prefer_manifests() {
    let dirs = vec![
        up("/w/p/src", false, true, false),
        up("/w/p", true, false, false),
        up("/w", true, true, true),
        up("/", false, false, false),
    ];
    assert_eq!(project_root("/w/p/src", &dirs), "/w/p");
    assert_eq!(workspace_stdlib_root(&dirs).unwrap(), "/w/stdlib");
    let plain = vec![up("/a/b", false, false, false), up("/a", false, true, false)];
    assert_eq!(project_root("/a/b", &plain), "/a");
    assert_eq!(project_root("/x", &vec![up("/x", false, false, false)]), "/x");
    assert!(workspace_stdlib_root(&plain).is_none());
}

#[test]
fn search_bases_are_ordered_and_unique() {
    let dirs = vec![up("/w/p", true, false, false), up("/w", false, false, true)];
    let got = search_bases("/w/p", &dirs, &strings(&["/d1", "/w/p", "/d2"]), Some("/h/lib"));
    assert_eq!(got, ["/w/p", "/d1", "/d2", "/w/stdlib", "/h/lib"]);
    let got = search_bases("/w/p", &dirs, &strings(&["/w/p/", "/d1", "/d1/."]), None);
    assert_eq!(got, ["/w/p", "/d1", "/w/stdlib"]);
}

#[test]
fn import_places_in_order() {
    let got = import_candidates(&strings(&["net", "http"]), &strings(&["/a", "/b/"]));
    assert_eq!(
        got,
        ["/a/net/http.hll", "/a/net/http/mod.hll", "/b/net/http.hll", "/b/net/http/mod.hll"]
    );
    let files = strings(&["/b/net/http.hll", "/a/net/http/mod.hll"]);
    assert_eq!(
        resolve_import(&strings(&["net", "http"]), &strings(&["/a", "/b"]), &files).unwrap(),
        "/a/net/http/mod.hll"
    );
}

// ── expansion ───────────────────────────────────────────────────────────

fn func(name: &str, calls: &[&str]) -> Item {
    Item::Function(function(name, calls))
}

fn function(name: &str, calls: &[&str]) -> Function {
    let stmts = calls
        .iter()
        .map(|c| {
            Stmt::Expr(ExprStmt {
                expr: Expr {
                    kind: ExprKind::Call {
                        callee: c.to_string(),
                        args: vec![CallArg::Expr(Expr {
                            kind: ExprKind::IntLit(1),
                            span: zero(),
                        })],
                    },
                    span: zero(),
                },
            })
        })
        .collect();
    Function {
        name: name.to_string(),
        params: vec![],
        ret_ty: Type::Void(zero()),
        body: Block { stmts, span: zero() },
        is_async: false,
        span: zero(),
    }
}

fn import(path: &[&str], symbols: Option<&[&str]>) -> Item {
    Item::Import(ImportDecl {
        path: strings(path),
        symbols: symbols.map(|s| s.iter().map(|x| (x.to_string(), zero())).collect()),
        span: Span::new(3, 9),
    })
}

fn prog(items: Vec<Item>) -> Program {
    Program { items, span: zero() }
}

fn linkage(name: &str) -> Item {
    Item::Extern(ExternBlock {
        members: vec![ExternMember::Function {
            name: name.to_string(),
            params: vec![],
            ret_ty: Type::Void(zero()),
            span: zero(),
        }],
        span: zero(),
    })
}

fn source(path: &str, items: Vec<Item>) -> Source {
    Source { path: path.to_string(), content: Content::Parsed(prog(items)) }
}

fn only_on(os: &str, item: Item) -> Item {
    Item::Attributed {
        attrs: vec![Attribute {
            name: "cfg".to_string(),
            args: vec![AttributeArg::Assign(
                "os".to_string(),
                zero(),
                Expr { kind: ExprKind::StringLit(os.to_string()), span: zero() },
            )],
            span: zero(),
        }],
        item: Box::new(item),
        span: zero(),
    }
}

fn names(e: &Expanded) -> Vec<String> {
    e.program.items
        .iter()
        .map(|i| match item_name(i) {
            Some(n) => n.to_string(),
            None => match i {
                Item::Extern(_) => "<linkage>".to_string(),
                _ => "<unnamed>".to_string(),
            },
        })
        .collect()
}

fn base() -> Vec<String> {
    strings(&["/p"])
}

#[test]
fn whole_imports_are_inlined_in_place() {
    let entry = prog(vec![import(&["a"], None), func("main", &[])]);
    let sources = vec![source("/p/a.hll", vec![func("f", &[]), linkage("puts"), func("g", &[])])];
    let bases = base();
    let e = expand_imports(entry, "/p/main.hll", &bases, sources, HOST);
    assert!(e.errors.is_empty());
    assert_eq!(names(&e), ["f", "<linkage>", "g", "main"]);
    assert_eq!(e.files, ["/p/a.hll", "/p/main.hll"]);
    assert_eq!(e.imports.len(), 1);
    assert_eq!(e.imports[0].alias, "a");
    assert_eq!(e.imports[0].provided, ["f", "g"]);
}

#[test]
fn cycles_are_cut() {
    let entry = prog(vec![import(&["a"], None), func("main", &[])]);
    let sources = vec![
        source("/p/a.hll", vec![import(&["b"], None), func("fa", &[])]),
        source("/p/b.hll", vec![import(&["a"], None), func("fb", &[])]),
    ];
    let bases = base();
    let e = expand_imports(entry, "/p/main.hll", &bases, sources, HOST);
    assert!(e.errors.is_empty());
    assert_eq!(names(&e), ["fb", "fa", "main"]);
}

#[test]
fn a_cycle_through_the_entry_does_not_repeat_it() {
    let entry = prog(vec![import(&["a"], None), func("f", &[]), func("main", &[])]);
    let sources = vec![
        source("/p/a.hll", vec![import(&["main"], None), func("fa", &["f"])]),
        source("/p/main.hll", vec![import(&["a"], None), func("f", &[]), func("main", &[])]),
    ];
    let bases = base();
    let e = expand_imports(entry, "/p/main.hll", &bases, sources, HOST);
    assert!(e.errors.is_empty());
    assert_eq!(names(&e), ["fa", "f", "main"]);
}

#[test]
fn selections_reach_across_a_cycle() {
    let entry = prog(vec![
        import(&["a"], Some(&["x"])),
        import(&["b"], Some(&["fb"])),
        func("main", &[]),
    ]);
    let sources = vec![
        source("/p/a.hll", vec![import(&["b"], None), func("x", &[]), func("fa", &[])]),
        source("/p/b.hll", vec![import(&["a"], None), func("fb", &["fa"])]),
    ];
    let bases = base();
    let e = expand_imports(entry, "/p/main.hll", &bases, sources, HOST);
    assert!(e.errors.is_empty());
    assert_eq!(names(&e), ["x", "fb", "fa", "main"]);
}

#[test]
fn files_stand_in_path_order() {
    let entry = prog(vec![import(&["a"], None), import(&["a", "b"], None)]);
    let sources = vec![
        source("/p/a.hll", vec![func("f", &[])]),
        source("/p/a/b.hll", vec![func("g", &[])]),
    ];
    let bases = base();
    let e = expand_imports(entry, "/p/main.hll", &bases, sources, HOST);
    assert_eq!(e.files, ["/p/a/b.hll", "/p/a.hll", "/p/main.hll"]);
}

#[test]
fn selective_imports_keep_what_they_reference() {
    let tm = Item::Struct(StructDecl { name: "Tm".to_string(), fields: vec![], span: zero() });
    let mut date = function("dateUtc", &["render"]);
    date.body.stmts.push(Stmt::VarDecl(VarDecl {
        name: "t".to_string(),
        ty: Type::Named("Tm".to_string(), zero()),
        init: None,
        span: zero(),
    }));
    let module = vec![
        linkage("time"),
        func("unused", &["render"]),
        func("twoDigits", &[]),
        func("render", &["twoDigits", "concat"]),
        tm,
        Item::Function(date),
        Item::Extension(ExtensionDecl { members: vec![], span: zero() }),
    ];
    let mut time = vec![import(&["str"], None)];
    time.extend(module);
    let sources = vec![
        source("/p/str.hll", vec![func("len", &[]), func("concat", &[]), func("trim", &[])]),
        source("/p/time.hll", time),
    ];
    let entry = prog(vec![
        import(&["str"], Some(&["len"])),
        import(&["time"], Some(&["dateUtc"])),
        func("main", &["dateUtc"]),
    ]);
    let bases = base();
    let e = expand_imports(entry, "/p/main.hll", &bases, sources, HOST);
    assert!(e.errors.is_empty());
    // `concat` comes from a module that was imported before for `len` only.
    assert_eq!(
        names(&e),
        ["len", "concat", "<linkage>", "twoDigits", "render", "Tm", "dateUtc", "main"]
    );
}

#[test]
fn first_import_of_a_name_wins_and_the_entry_is_untouched() {
    let entry = prog(vec![
        import(&["foo"], None),
        import(&["bar"], None),
        func("something", &[]),
        func("main", &[]),
    ]);
    let sources = vec![
        source("/p/foo.hll", vec![func("something", &["a"])]),
        source("/p/bar.hll", vec![func("something", &["b"]), func("other", &[])]),
    ];
    let bases = base();
    let e = expand_imports(entry, "/p/main.hll", &bases, sources, HOST);
    assert_eq!(names(&e), ["something", "other", "something", "main"]);
    assert_eq!(e.imports[0].provided, ["something"]);
    assert_eq!(e.imports[1].provided, ["something", "other"]);
}

#[test]
fn import_failures_are_collected_and_skipped() {
    let entry = prog(vec![
        import(&["nope", "missing"], None),
        import(&["unreadable"], None),
        import(&["lexless"], None),
        import(&["broken"], Some(&["x", "y", "x"])),
        import(&["broken"], None),
        func("main", &[]),
    ]);
    let sources = vec![
        Source { path: "/p/unreadable.hll".to_string(), content: Content::Unreadable("denied".to_string()) },
        Source { path: "/p/lexless.hll".to_string(), content: Content::LexError },
        Source { path: "/p/broken.hll".to_string(), content: Content::ParseError("no end".to_string()) },
    ];
    let bases = strings(&["/p", "/q"]);
    let e = expand_imports(entry, "/p/main.hll", &bases, sources, HOST);
    let told: Vec<&str> = e.errors.iter().map(|x| x.message.as_str()).collect();
    assert_eq!(
        told,
        [
            "cannot resolve import `nope::missing` (looked in /p, /q)",
            "failed to read import /p/unreadable.hll: denied",
            "lex error in import /p/lexless.hll",
            "parse error in /p/broken.hll: no end",
        ]
    );
    assert!(e.errors.iter().all(|x| x.file == "/p/main.hll" && x.span == Span::new(3, 9)));
    assert_eq!(names(&e), ["main"]);
    assert_eq!(
        e.files,
        ["/p/broken.hll", "/p/lexless.hll", "/p/main.hll", "/p/unreadable.hll"]
    );
    // Listed symbols stay known though the module does not parse.
    assert_eq!(e.imports[3].provided, ["x", "y", "x"]);
    assert!(e.imports[4].provided.is_empty());
}

#[test]
fn nested_failures_belong_to_the_nested_file() {
    let entry = prog(vec![import(&["a"], None)]);
    let sources = vec![source("/p/a.hll", vec![import(&["gone"], None)])];
    let bases = base();
    let e = expand_imports(entry, "/p/main.hll", &bases, sources, HOST);
    assert_eq!(e.errors.len(), 1);
    assert_eq!(e.errors[0].file, "/p/a.hll");
}

#[test]
fn absent_items_never_get_out_of_expansion() {
    let make = || {
        vec![
            only_on("linux", func("here", &[])),
            only_on("windows", func("there", &[])),
            func("always", &[]),
        ]
    };
    let mut items = make();
    items.push(import(&["m"], None));
    let entry = prog(items);
    let sources = vec![source(
        "/p/m.hll",
        vec![only_on("macos", func("m1", &[])), only_on("linux", func("m2", &[]))],
    )];
    let bases = base();
    let e = expand_imports_with_cfg(entry, "/p/main.hll", &bases, sources, true, HOST);
    assert_eq!(names(&e), ["here", "always", "m2"]);
    assert_eq!(e.imports[0].provided, ["m2"]);
}

#[test]
fn requested_symbols_narrow_what_an_import_provides() {
    let entry = prog(vec![import(&["m"], Some(&["b", "typo"]))]);
    let sources = vec![source("/p/m.hll", vec![func("a", &[]), func("b", &[])])];
    let bases = base();
    let e = expand_imports(entry, "/p/main.hll", &bases, sources, HOST);
    assert_eq!(e.imports[0].provided, ["b", "typo"]);
    assert_eq!(e.imports[0].symbols.as_ref().unwrap().len(), 2);
    assert_eq!(e.imports[0].full, "m");
    assert_eq!(names(&e), ["b"]);
}

#[test]
fn wanted_files_name_every_candidate_once() {
    let items = vec![import(&["a"], None), func("f", &[]), import(&["a"], Some(&["x"]))];
    assert_eq!(wanted_files(&items, &strings(&["/p"])), ["/p/a.hll", "/p/a/mod.hll"]);
}

#[test]
fn import_errors_become_parse_errors() {
    let e = ImportError {
        message: "m".to_string(),
        span: Span::new(1, 2),
        file: "f".to_string(),
    };
    let p = ParseError::from(e);
    assert_eq!(p.message, "m");
    assert_eq!(p.span, Span::new(1, 2));
}

#[test]
fn gathering_looks_at_every_place_once() {
    let entry = vec![import(&["a"], None), import(&["b"], None), func("main", &[])];
    let bases = strings(&["/p", "/q"]);
    let mut g = Gather::new(&entry, &bases);
    // An answer to nothing is ignored.
    g.record(None);
    let first = g.next_file().unwrap();
    assert_eq!(g.next_file().as_ref(), Some(&first));
    let mut asked = Vec::new();
    while let Some(path) = g.next_file() {
        assert!(!asked.contains(&path), "{path}");
        asked.push(path.clone());
        g.record(match path.as_str() {
            "/q/a.hll" => Some(Content::Parsed(prog(vec![import(&["b"], None), import(&["c"], None)]))),
            "/p/b/mod.hll" => Some(Content::Parsed(prog(vec![import(&["a"], None), func("f", &[])]))),
            "/p/c.hll" => Some(Content::LexError),
            _ => None,
        });
    }
    assert_eq!(g.next_file(), None);
    asked.sort();
    let mut places = Vec::new();
    for base in ["/p", "/q"] {
        for name in ["a", "b", "c"] {
            places.push(format!("{base}/{name}.hll"));
            places.push(format!("{base}/{name}/mod.hll"));
        }
    }
    places.sort();
    assert_eq!(asked, places);
    let sources = g.finish();
    let mut found: Vec<String> = sources.iter().map(|s| s.path.clone()).collect();
    found.sort();
    assert_eq!(found, ["/p/b/mod.hll", "/p/c.hll", "/q/a.hll"]);
    let e = expand_imports(prog(entry), "/p/main.hll", &bases, sources, HOST);
    assert_eq!(names(&e), ["f", "main"]);
    assert_eq!(e.errors[0].message, "lex error in import /p/c.hll");
}
