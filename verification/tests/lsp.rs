//! Editor support.
use hella::ast::{
    Block, CallArg, Expr, ExprKind, ExprStmt, ExternBlock, ExternMember, Function, Item, Program,
    Stmt, Type,
};
use hella::lsp::actions::{code_actions, own_binding, QuickFix, Reported};
use hella::lsp::auto_import::{
    candidates_with_prefix, find_import_for_symbol, import_bases, import_entry, import_insertion_line,
    import_path_for, select_candidates, top_names, EntryKind, FileScan, Provider,
};
use hella::lsp::diagnostics::{
    diagnostics, requires_main, Diagnostic, Issue, LexIssue, Outcome, Severity,
};
use hella::lsp::document::{
    offset_to_position, position_to_offset, span_to_range, Position, Range,
};
use hella::lsp::formatting::{format_document, format_range};
use hella::lsp::signatures::{enclosing_call, help, Callable};
use hella::modules::expand::ImportError;
use hella::modules::resolve::resolve_import;
use hella::names::NameSet;
use hella::token::Span;

fn at(line: u32, character: u32) -> Position {
    Position { line, character }
}

fn strings(v: &[&str]) -> Vec<String> {
    v.iter().map(|s| s.to_string()).collect()
}

// ── signatures ──────────────────────────────────────────────────────────

const SRC: &str = "int add(int a, int b) do\n    return a + b\nend\n\nvoid main() do\n    int s = add(1, 2)\nend\n";

fn known() -> Vec<Callable> {
    vec![
        Callable {
            name: "add".to_string(),
            detail: "int add(int a, int b)".to_string(),
            params: vec![
                ("a".to_string(), "int".to_string()),
                ("b".to_string(), "int".to_string()),
            ],
        },
        Callable { name: "main".to_string(), detail: "void main()".to_string(), params: vec![] },
    ]
}

#[test]
fn finds_call_and_first_param() {
    let off = SRC.find("add(1").unwrap() + 4; // right after `(`
    let ctx = enclosing_call(SRC, off).expect("call");
    assert_eq!(ctx.name, "add");
    assert_eq!(ctx.active, 0);
}

#[test]
fn comma_advances_active_param() {
    let off = SRC.find("add(1,").unwrap() + 6; // after `,`
    let ctx = enclosing_call(SRC, off).expect("call");
    assert_eq!(ctx.name, "add");
    assert_eq!(ctx.active, 1);
}

#[test]
fn active_clamps_to_last_param() {
    let off = SRC.find("add(1, 2").unwrap() + 8;
    let h = help(&known(), SRC, off).expect("help");
    assert_eq!(h.active, 1);
    assert!(h.label.contains("add"));
    assert_eq!(h.params, ["a: int", "b: int"]);
    // A third argument stays on the last parameter.
    let many = "x add(1, 2, 3, ";
    assert_eq!(help(&known(), many, many.len()).unwrap().active, 1);
    let none = "main(1, ";
    assert_eq!(help(&known(), none, none.len()).unwrap().active, 0);
}

#[test]
fn mid_typing_unclosed_call_works() {
    let src = "int add(int a, int b) do\n    return a + b\nend\n\nvoid main() do\n    int s = add(1, ";
    let h = help(&known(), src, src.len()).expect("help");
    assert_eq!(h.active, 1);
}

#[test]
fn method_name_after_dot() {
    let src = "struct P has\n    int x\nend\n\nvoid main() do\n    P p = has x = 1 end\n    int v = p.foo(1, ";
    let off = src.len();
    let ctx = enclosing_call(src, off).expect("call");
    assert_eq!(ctx.name, "foo");
    assert_eq!(ctx.active, 1);
}

#[test]
fn parens_in_strings_and_comments_ignored() {
    let src = "void main() do\n    string s = \"(not, a call)\"\n    // foo(bar,\n    int v = add(1, ";
    let ctx = enclosing_call(src, src.len()).expect("call");
    assert_eq!(ctx.name, "add");
    assert_eq!(ctx.active, 1);
}

#[test]
fn unknown_callee_returns_none() {
    let src = "void main() do\n    int v = nope(1, ";
    assert!(help(&known(), src, src.len()).is_none());
}

#[test]
fn outside_call_returns_none() {
    assert!(enclosing_call(SRC, 5).is_none());
    assert!(help(&known(), SRC, 5).is_none());
}

#[test]
fn literals_and_comments_end_where_they_should() {
    let active = |src: &str| enclosing_call(src, src.len()).map(|c| (c.name, c.active));
    let add = |n: u32| Some(("add".to_string(), n));
    assert_eq!(active("add(`raw \" , (`, "), add(1));
    assert_eq!(active("add(`a\\`, "), add(1));
    assert_eq!(active("add(\"a\\\" , (\", "), add(1));
    assert_eq!(active("add(',', '\\'', "), add(2));
    assert_eq!(active("add(/* ( /* , */ , */ 1, "), add(1));
    assert_eq!(active("add(f(1, 2), "), add(1));
    assert_eq!(active("add([1, 2], "), add(1));
    assert_eq!(active("add([1, "), add(0));
    assert_eq!(active("add({1, 2}, [3, 4, "), add(1));
    assert_eq!(active("add([f(1, 2), 3], "), add(1));
    assert_eq!(active("add([1)"), None);
    assert_eq!(active("add(1], "), add(1));
    assert_eq!(active("add (1, "), add(1));
    assert_eq!(active("ä(1, "), None);
    assert_eq!(active("(1, "), None);
    assert_eq!(active("add(1)"), None);
    assert_eq!(active(")add(ä, "), add(1));
    assert_eq!(enclosing_call("add(1, 2", 10_000).map(|c| c.active), Some(1));
}

#[test]
fn text_behind_the_cursor_does_not_count() {
    for rest in ["", ", 3)", "))) f(x, y", "\" open"] {
        let text = format!("add(1, {rest}");
        let found = enclosing_call(&text, 7).expect("call");
        assert_eq!((found.name.as_str(), found.active), ("add", 1));
    }
}

// ── places ──────────────────────────────────────────────────────────────

#[test]
fn places_count_utf16_units() {
    let text = "a😀b\nü\n";
    assert_eq!(offset_to_position(text, 0), at(0, 0));
    assert_eq!(offset_to_position(text, 5), at(0, 3));
    assert_eq!(offset_to_position(text, text.len()), at(2, 0));
    assert_eq!(position_to_offset(text, at(0, 3)), 5);
    assert_eq!(position_to_offset(text, at(0, 99)), 6);
    assert_eq!(position_to_offset(text, at(1, 1)), 9);
    assert_eq!(position_to_offset(text, at(9, 0)), text.len());
    let r = span_to_range(text, Span::new(1, 6));
    assert_eq!((r.start, r.end), (at(0, 1), at(0, 4)));
    for (i, _) in text.char_indices() {
        assert_eq!(position_to_offset(text, offset_to_position(text, i)), i);
    }
}

// ── quick fixes ─────────────────────────────────────────────────────────

fn reported(text: &str, start: usize, end: usize, message: &str) -> Reported {
    Reported { range: span_to_range(text, Span::new(start, end)), message: message.to_string() }
}

fn whole(text: &str) -> Range {
    Range { start: at(0, 0), end: offset_to_position(text, text.len()) }
}

#[test]
fn removes_unresolvable_import() {
    let text = "import nope::missing\n\nvoid main() do\nend\n";
    let d = reported(text, 0, 7, "cannot resolve import `nope::missing` (looked in /tmp)");
    let actions: Vec<QuickFix> = code_actions(text, whole(text), &vec![d]);
    assert_eq!(actions.len(), 1);
    let a = &actions[0];
    assert_eq!(a.title, "Remove import `nope::missing`");
    assert_eq!(a.new_text, "");
    assert_eq!((a.range.start.line, a.range.end.line), (0, 1));
}

#[test]
fn assigns_bare_new_to_own() {
    let text = "open class Cat has\nend\nvoid main() do\n  new Cat()\nend\n";
    let start = text.find("new Cat()").unwrap();
    let d = reported(
        text,
        start,
        start + 9,
        "unused `new` value is a guaranteed leak — assign it to an `own` slot or delete it",
    );
    let actions = code_actions(text, whole(text), &vec![d]);
    assert_eq!(actions.len(), 1);
    assert!(actions[0].title.contains("cat"), "title names the var: {}", actions[0].title);
    assert_eq!(actions[0].new_text, "own Cat cat = ");
    assert_eq!(actions[0].range.start, at(3, 2));
}

#[test]
fn inserts_missing_end() {
    let text = "void main() do\n  int x = 1\n";
    let d = reported(text, text.len(), text.len(), "expected `end` to close block");
    let actions = code_actions(text, whole(text), &vec![d]);
    assert_eq!(actions.len(), 1);
    assert_eq!(actions[0].title, "Insert missing `end`");
    assert_eq!(actions[0].new_text, "end\n");
}

#[test]
fn clean_file_no_actions() {
    let text = "void main() do\n  int x = 1\nend\n";
    assert!(code_actions(text, whole(text), &vec![]).is_empty());
    // Diagnostics outside the requested range are ignored.
    let d = reported(text, 0, 4, "expected `end` to close block");
    let far = Range { start: at(2, 0), end: at(2, 1) };
    assert!(code_actions(text, far, &vec![d]).is_empty());
}

#[test]
fn selective_import_lines_are_found() {
    let text = "// x\n  import a::b::{x, y}\n";
    let d = reported(text, 0, 1, "cannot resolve import `a::b::{x, y}` (looked in /tmp)");
    let actions = code_actions(text, whole(text), &vec![d]);
    assert_eq!(actions[0].range.start.line, 1);
    let other = reported(text, 0, 1, "cannot resolve import `a::c` (looked in /tmp)");
    assert!(code_actions(text, whole(text), &vec![other]).is_empty());
    // A longer path is another import.
    let text = "import a::b\nimport a\n";
    let d = reported(text, 12, 20, "cannot resolve import `a` (looked in /tmp)");
    let actions = code_actions(text, whole(text), &vec![d]);
    assert_eq!(actions.len(), 1);
    assert_eq!((actions[0].range.start, actions[0].range.end), (at(1, 0), at(2, 0)));
}

#[test]
fn qualified_types_bind_their_last_name() {
    let word = "new  ünï::Größe_2(1)";
    let text = format!("{word}\n");
    let d = reported(&text, 0, word.len(), "unused `new` value is a guaranteed leak");
    let actions = code_actions(&text, whole(&text), &vec![d]);
    assert_eq!(actions[0].new_text, "own Größe_2 größe_2 = ");
    let chars: Vec<char> = "new Cat(".chars().collect();
    let flags = vec![true, true, true, false, true, true, true, false];
    assert_eq!(
        own_binding(&chars, &flags),
        Some(("Cat".to_string(), "cat".to_string()))
    );
    assert_eq!(own_binding(&chars, &vec![false; 8]), None);
}

// ── formatting ──────────────────────────────────────────────────────────

const CANON: &str = "void main() do\n    int x = 1\nend\n";

#[test]
fn canonical_source_returns_none() {
    assert!(format_document(CANON, Some(CANON)).is_none());
}

#[test]
fn unformatted_source_returns_full_edit() {
    let src = "void main() do\nint x=1\nend\n";
    let edits = format_document(src, Some(CANON)).expect("edit");
    assert_eq!(edits.len(), 1);
    assert!(edits[0].new_text.contains("    int x = 1"));
    assert_eq!((edits[0].range.start, edits[0].range.end), (at(0, 0), at(3, 0)));
}

#[test]
fn broken_source_returns_none() {
    assert!(format_document("void main( do\n", None).is_none());
    let range = Range { start: at(0, 0), end: at(0, 5) };
    assert!(format_range("void main( do\n", range, None).is_none());
}

#[test]
fn range_narrows_to_requested_lines() {
    let src = "void main() do\nint x=1\n    int y = 2\nend\n";
    let formatted = "void main() do\n    int x = 1\n    int y = 2\nend\n";
    let range = Range { start: at(1, 0), end: at(1, 7) };
    let edits = format_range(src, range, Some(formatted)).expect("edit");
    assert_eq!(edits.len(), 1);
    assert_eq!(edits[0].range.start.line, 1);
    assert_eq!(edits[0].range.end.line, 1);
    assert_eq!(edits[0].range.end.character, 7);
    assert!(edits[0].new_text.contains("int x = 1"));
    // Other lines of that file are canonical.
    let below = Range { start: at(3, 0), end: at(2, 0) };
    assert!(format_range(src, below, Some(formatted)).is_none());
    // The end of the edit is the length of the line in bytes.
    let src = "void main() do\nstring x=\"ä😀\"\nend\n";
    let formatted = "void main() do\n    string x = \"ä😀\"\nend\n";
    let range = Range { start: at(1, 0), end: at(1, 3) };
    let edits = format_range(src, range, Some(formatted)).expect("edit");
    assert_eq!((edits[0].range.start, edits[0].range.end), (at(1, 0), at(1, 17)));
}

#[test]
fn range_already_canonical_returns_none() {
    let range = Range { start: at(1, 0), end: at(1, 5) };
    assert!(format_range(CANON, range, Some(CANON)).is_none());
}

#[test]
fn line_ends_do_not_count_as_changes() {
    let dos = "void main() do\r\n    int x = 1\r\nend\r\n\r\n\r\n";
    assert!(format_document(dos, Some(CANON)).is_none());
    assert!(format_document("void main() do\n    int x = 1\nend", Some(CANON)).is_none());
}

#[test]
fn shifted_lines_fall_back_to_the_whole_file() {
    let src = "a\nb\n";
    let range = Range { start: at(0, 0), end: at(0, 1) };
    let edits = format_range(src, range, Some("a\n\nb\n")).unwrap();
    assert_eq!(edits[0].new_text, "a\n\nb\n");
    assert_eq!(edits[0].range.end, at(2, 0));
}

// ── auto import ─────────────────────────────────────────────────────────

#[test]
fn import_path_derivation() {
    let base = "/proj";
    assert_eq!(import_path_for(base, "/proj/utils.hll").unwrap(), "utils");
    assert_eq!(import_path_for(base, "/proj/net/http.hll").unwrap(), "net::http");
    assert_eq!(import_path_for(base, "/proj/net/mod.hll").unwrap(), "net");
    assert_eq!(import_path_for(base, "/proj/main.hll"), None);
    assert_eq!(import_path_for(base, "/other/utils.hll"), None);
    // And the corners.
    assert_eq!(import_path_for(base, "/proj/mod.hll"), None);
    assert_eq!(import_path_for("/proj/", "/proj//net/./a.b.hll").unwrap(), "net::a.b");
    assert_eq!(import_path_for("proj", "/proj/a.hll"), None);
    assert_eq!(import_path_for(base, "/proj/sub/main.hll").unwrap(), "sub::main");
}

fn provider(file: &str, names: Option<&[&str]>) -> Provider {
    Provider { base: "/w".to_string(), file: file.to_string(), names: names.map(strings) }
}

#[test]
fn finds_provider_in_workspace() {
    let files = vec![provider("/w/main.hll", Some(&["main"])), provider("/w/utils.hll", Some(&["helper"]))];
    assert_eq!(
        find_import_for_symbol("helper", Some("/w/main.hll"), &files).as_deref(),
        Some("utils")
    );
    // The entry is skipped, not the end of the search.
    assert_eq!(find_import_for_symbol("helper", None, &files).as_deref(), Some("utils"));
}

#[test]
fn no_self_import() {
    let files = vec![provider("/w/main.hll", Some(&["helper", "main"]))];
    assert_eq!(find_import_for_symbol("helper", Some("/w/main.hll"), &files), None);
    let own = vec![provider("/w/a.hll", Some(&["helper"]))];
    assert_eq!(find_import_for_symbol("helper", Some("/w/a.hll"), &own), None);
}

#[test]
fn first_import_in_text_order_is_offered() {
    let files = vec![
        provider("/w/z.hll", Some(&["f"])),
        provider("/w/b/c.hll", Some(&["f"])),
        provider("/w/b.hll", Some(&["g"])),
    ];
    assert_eq!(find_import_for_symbol("f", None, &files).as_deref(), Some("b::c"));
    // A module that cannot be read is skipped.
    let cut = vec![provider("/w/a.hll", None), provider("/w/q.hll", Some(&["f"]))];
    assert_eq!(find_import_for_symbol("f", None, &cut).as_deref(), Some("q"));
}

#[test]
fn files_are_compared_as_paths() {
    let own = vec![provider("/w/a.hll", Some(&["helper"]))];
    assert_eq!(find_import_for_symbol("helper", Some("/w/./a.hll"), &own), None);
    let mut scan = FileScan::new(&strings(&["/w"]));
    assert_eq!(scan.next_dir().as_deref(), Some("/w"));
    scan.entry("/w/a.hll", "a.hll", EntryKind::File);
    scan.entry("/w/a/b.hll", "b.hll", EntryKind::File);
    scan.entry("/w//a.hll", "a.hll", EntryKind::File);
    assert_eq!(scan.next_dir(), None);
    let found: Vec<String> = scan.finish().into_iter().map(|f| f.file).collect();
    // The directory comes before the file that only starts like it.
    assert_eq!(found, ["/w/a/b.hll", "/w/a.hll"]);
}

#[test]
fn import_paths_lead_back_to_their_files() {
    let files = strings(&["/w/utils.hll", "/w/net/http.hll", "/w/net/mod.hll"]);
    for file in &files {
        let path = import_path_for("/w", file).unwrap();
        let parts: Vec<String> = path.split("::").map(|p| p.to_string()).collect();
        assert_eq!(resolve_import(&parts, &strings(&["/w"]), &files).as_ref(), Some(file));
    }
}

#[test]
fn prefix_candidates() {
    let files = vec![
        provider("/w/alpha.hll", Some(&["alpha_one", "alpha_two"])),
        provider("/w/beta.hll", Some(&["beta_one"])),
    ];
    let got = candidates_with_prefix("alp", None, &files, &NameSet::new());
    assert!(got.iter().any(|(n, _)| n == "alpha_one"), "got {got:?}");
    assert!(got.iter().any(|(n, _)| n == "alpha_two"), "got {got:?}");
    assert!(!got.iter().any(|(n, _)| n == "beta_one"), "prefix filtered {got:?}");
}

#[test]
fn candidates_ignore_case_and_existing_names() {
    let files = vec![
        provider("/w/b.hll", Some(&["Zeta", "älter", "alpha", "ALSO"])),
        provider("/w/c.hll", Some(&["alpha", "apple"])),
        provider("/w/main.hll", Some(&["aaa"])),
        provider("/w/d.hll", None),
    ];
    let mut existing = NameSet::new();
    existing.insert("apple".to_string());
    let got = candidates_with_prefix("AL", None, &files, &existing);
    let want = [("ALSO", "b"), ("alpha", "b")];
    assert_eq!(got.iter().map(|(a, b)| (a.as_str(), b.as_str())).collect::<Vec<_>>(), want);
    let all = candidates_with_prefix("", Some("/w/b.hll"), &files, &NameSet::new());
    let want = [("alpha", "c"), ("apple", "c")];
    assert_eq!(all.iter().map(|(a, b)| (a.as_str(), b.as_str())).collect::<Vec<_>>(), want);
    let accents = candidates_with_prefix("ÄL", None, &files, &NameSet::new());
    assert_eq!(accents[0].0, "älter");
    let chosen = select_candidates(&files, None, &vec![vec![true, false, true]], &NameSet::new());
    assert_eq!(chosen.len(), 2);
}

#[test]
fn imports_go_behind_the_last_one() {
    assert_eq!(import_insertion_line("a\nimport x\n  import y\nb\n"), 3);
    assert_eq!(import_insertion_line("importance\n"), 0);
    assert_eq!(import_insertion_line(""), 0);
}

#[test]
fn bases_are_merged_without_repetition() {
    let roots = strings(&["/a", "/b"]);
    let own = strings(&["/b", "/c", "/a"]);
    assert_eq!(import_bases(&roots, Some(&own), Some("/lib"), None), ["/a", "/b", "/c"]);
    assert_eq!(import_bases(&vec![], None, Some("/lib"), Some("/w/stdlib")), ["/lib", "/w/stdlib"]);
    assert_eq!(import_bases(&vec![], None, None, None), Vec::<String>::new());
    // A base counts once, however it is spelled.
    let again = strings(&["/b/", "/./a", "/c"]);
    assert_eq!(import_bases(&roots, Some(&again), None, None), ["/a", "/b", "/c"]);
    assert_eq!(import_entry(Some("/a/x.hll"), &roots).as_deref(), Some("/a/x.hll"));
    assert_eq!(import_entry(None, &roots).as_deref(), Some("/a/main.hll"));
    assert_eq!(import_entry(None, &vec![]), None);
}

#[test]
fn walks_pair_files_with_their_base() {
    let mut scan = FileScan::new(&strings(&["/w", "/v"]));
    assert_eq!(scan.next_dir().as_deref(), Some("/v"));
    scan.entry("/v/x.hll", "x.hll", EntryKind::File);
    scan.entry("/v/.hidden", ".hidden", EntryKind::Directory);
    scan.entry("/v/target", "target", EntryKind::Directory);
    scan.entry("/v/link", "link", EntryKind::Other);
    assert_eq!(scan.next_dir().as_deref(), Some("/w"));
    scan.entry("/w/net", "net", EntryKind::Directory);
    scan.entry("/w/a.txt", "a.txt", EntryKind::File);
    assert_eq!(scan.next_dir().as_deref(), Some("/w/net"));
    scan.entry("/w/net/http.hll", "http.hll", EntryKind::File);
    scan.entry("/v/x.hll", "x.hll", EntryKind::File);
    assert_eq!(scan.next_dir(), None);
    let found = scan.finish();
    let got: Vec<(&str, &str)> = found.iter().map(|f| (f.base.as_str(), f.file.as_str())).collect();
    assert_eq!(got, [("/v", "/v/x.hll"), ("/w", "/w/net/http.hll")]);
    assert_eq!(import_path_for(&found[1].base, &found[1].file).unwrap(), "net::http");
}

#[test]
fn walks_are_bounded() {
    let mut scan = FileScan::new(&strings(&["/w"]));
    scan.next_dir();
    for i in 0..600 {
        let name = format!("f{:03}.hll", 599 - i);
        scan.entry(&format!("/w/{name}"), &name, EntryKind::File);
    }
    scan.entry("/w/d", "d", EntryKind::Directory);
    assert_eq!(scan.next_dir(), None);
    let found = scan.finish();
    assert_eq!(found.len(), 500);
    // Cut short, the files stay as they were found.
    assert_eq!(found[0].file, "/w/f599.hll");
}

fn span0() -> Span {
    Span::new(0, 0)
}

fn void_fn(name: &str, stmts: Vec<Stmt>) -> Item {
    Item::Function(Function {
        name: name.to_string(),
        params: vec![],
        ret_ty: Type::Void(span0()),
        body: Block { stmts, span: span0() },
        is_async: false,
        span: span0(),
    })
}

#[test]
fn foreign_names_count_as_provided() {
    let items = vec![
        void_fn("f", vec![]),
        Item::Extern(ExternBlock {
            members: vec![
                ExternMember::Function {
                    name: "puts".to_string(),
                    params: vec![],
                    ret_ty: Type::Void(span0()),
                    span: span0(),
                },
                ExternMember::Const { name: "EOF".to_string(), span: span0() },
                ExternMember::Struct { name: "FILE".to_string(), span: span0() },
                ExternMember::Enum { name: "f".to_string(), span: span0() },
            ],
            span: span0(),
        }),
    ];
    assert_eq!(top_names(&items), ["f", "puts", "EOF", "FILE"]);
}

// ── diagnostics ─────────────────────────────────────────────────────────

fn ident(name: &str) -> Expr {
    Expr { kind: ExprKind::Ident(name.to_string()), span: span0() }
}

/// `main` with a call of `pair` on a variable and the same one in parentheses.
fn pair_call(src: &str, first: &str, second: &str) -> Program {
    let name = first.strip_prefix("ref ").unwrap();
    let paren = Expr { kind: ExprKind::Paren(Box::new(ident(name))), span: span0() };
    call_of_pair(src, (first, ident(name)), (second, paren))
}

/// `main` with a call of `pair` on two variables.
fn two_refs(src: &str, first: &str, second: &str) -> Program {
    let name = |text: &str| ident(text.strip_prefix("ref ").unwrap());
    call_of_pair(src, (first, name(first)), (second, name(second)))
}

fn call_of_pair(src: &str, first: (&str, Expr), second: (&str, Expr)) -> Program {
    let a = src.find(first.0).unwrap();
    let b = src.rfind(second.0).unwrap();
    let x = |e: Expr, text: &str, start: usize| CallArg::Ref {
        expr: e,
        span: Span::new(start, start + text.len()),
    };
    let call = Expr {
        kind: ExprKind::Call {
            callee: "pair".to_string(),
            args: vec![x(first.1, first.0, a), x(second.1, second.0, b)],
        },
        span: span0(),
    };
    Program {
        items: vec![void_fn("main", vec![Stmt::Expr(ExprStmt { expr: call })])],
        span: span0(),
    }
}

#[test]
fn lint_warning_has_code_severity_and_utf16_range() {
    let src = "void pair(ref int a, ref int b) do\nend\nvoid main() do\nint x = 0\nstring s = \"😀\"; pair(ref x, ref (x))\nend\n";
    let tree = pair_call(src, "ref x", "ref (x)");
    let outcome = Outcome::Parsed { program: &tree, imports: &vec![], checks: &vec![] };
    let diags: Vec<Diagnostic> = diagnostics(src, None, &vec![], outcome);
    assert_eq!(diags.len(), 1, "{diags:?}");
    let d = &diags[0];
    assert_eq!(d.severity, Severity::Warning);
    assert_eq!(d.code, "H001");
    let line = src.lines().nth(4).unwrap();
    let column = line[..line.rfind("ref (x)").unwrap()].encode_utf16().count() as u32;
    assert_eq!(d.range, Range { start: at(4, column), end: at(4, column + 7) });
    let clean = src.replace("ref (x)", "ref y").replace("int x = 0", "int x = 0\nint y = 0");
    let tree = two_refs(&clean, "ref x", "ref y");
    let outcome = Outcome::Parsed { program: &tree, imports: &vec![], checks: &vec![] };
    assert!(diagnostics(&clean, None, &vec![], outcome).is_empty());
}

#[test]
fn diagnostics_come_pass_by_pass() {
    let src = "abc\nref x, ref (x)\n";
    let tree = pair_call(src, "ref x", "ref (x)");
    let imports = vec![
        ImportError { message: "mine".to_string(), span: Span::new(0, 1), file: "/p/main.hll".to_string() },
        ImportError { message: "theirs".to_string(), span: Span::new(0, 1), file: "/p/a.hll".to_string() },
    ];
    let checks = vec![Issue { span: Span::new(4, 5), message: "sema".to_string() }];
    let parsed = || Outcome::Parsed { program: &tree, imports: &imports, checks: &checks };
    let told = |ds: Vec<Diagnostic>| ds.into_iter().map(|d| (d.severity, d.code, d.message)).collect::<Vec<_>>();
    let got = told(diagnostics(src, Some("/p/main.hll"), &vec![], parsed()));
    assert_eq!(got.len(), 3);
    assert_eq!((got[0].0, got[0].1.as_str()), (Severity::Warning, "H001"));
    assert_eq!(got[1], (Severity::Error, "hella".to_string(), "mine".to_string()));
    assert_eq!(got[2].2, "sema");
    // Without a path, import errors belong to no open document.
    assert_eq!(diagnostics(src, None, &vec![], parsed()).len(), 2);
    // A text that is no token silences the lint.
    let lex = vec![LexIssue { span: Span::new(0, 1), slice: "$".to_string() }];
    let got = told(diagnostics(src, Some("/p/main.hll"), &lex, parsed()));
    assert_eq!(got[0].2, "unexpected token `$`");
    assert_eq!(got.len(), 3);
    let broken = Issue { span: Span::new(0, 3), message: "no end".to_string() };
    let got = diagnostics(src, None, &lex, Outcome::Broken(&broken));
    assert_eq!(got.len(), 2);
    assert_eq!(got[1].range.end, at(0, 3));
}

#[test]
fn only_entry_files_require_main() {
    assert!(requires_main(None));
    assert!(requires_main(Some("/p/main.hll")));
    assert!(requires_main(Some("main")));
    assert!(!requires_main(Some("/p/util.hll")));
    assert!(!requires_main(Some("/p/main.a.hll")));
    assert!(!requires_main(Some("/")));
}
