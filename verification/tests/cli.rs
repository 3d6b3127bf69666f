//! What the commands decide.
use hella::cli::entry::{
    find_project_root, project_needed, resolve_entry, ManifestRead, Project,
};
use hella::cli::fmt::{
    file_action, fmt_summary, judge, nothing_to_format, FileAction, FileVerdict,
};
use hella::cli::link::{
    compile_args, default_exe_path, exit_code, find_linker, is_fresh, link_args, link_hint,
    needed_runtimes, obj_path_for_exe, runtime_source_path, stamp_contents, stamp_path, Runtime,
};
use hella::cli::lint_report::{lint_outcome, show_warnings};
use hella::cli::pipeline::{
    total_steps, Action, CompileFlags, Ending, Event, Pipeline, Reason, Stage,
};
use hella::cli::scaffold::{plan_new, scaffold, setup_writes, unsupported_vcs, Spot};
use hella::interpolation::{decoded_with_positions, escape_chunks, remap_spans, source_offset};
use hella::lint::Warning;
use hella::modules::layout::Ancestor;
use hella::text::{integer, join_strings, natural, trim_str};
use hella::token::Span;

fn strings(v: &[&str]) -> Vec<String> {
    v.iter().map(|s| s.to_string()).collect()
}

// ── entry ───────────────────────────────────────────────────────────────

#[test]
fn entries_come_from_files_or_projects() {
    let named = ManifestRead::Named("app".to_string());
    let e = resolve_entry(Some("x.hll"), "/c", None, &ManifestRead::Missing, false, false).unwrap();
    assert_eq!(e.path, "x.hll");
    assert!(e.project.is_none());
    let e = resolve_entry(None, "/c", Some("/p"), &named, true, true).unwrap();
    assert_eq!(e.path, "/p/src/main.hll");
    assert_eq!(e.project.unwrap().bin_name, "app");
    let e = resolve_entry(None, "/c", Some("/p"), &named, false, true).unwrap();
    assert_eq!(e.path, "/p/src/lib.hll");
    let err = |root: Option<&str>, m: &ManifestRead| {
        resolve_entry(None, "/c", root, m, false, false).unwrap_err()
    };
    assert_eq!(err(None, &named), "not in a Hella project (no hella.toml found in /c or parents); run `hella new <name>` or use -f/--file <FILE>");
    assert_eq!(err(Some("/p"), &named), "no entry file found in project /p (looked for src/main.hll and src/lib.hll)");
    assert_eq!(err(Some("/p"), &ManifestRead::Missing), "invalid hella.toml in /p (must define `name` and `version`)");
    assert_eq!(err(Some("/p"), &ManifestRead::Invalid("bad".to_string())), "invalid /p/hella.toml: bad");
    assert!(project_needed("/c", "hella list").ends_with("(`hella list` needs a project)"));
}

#[test]
fn projects_build_into_their_profile() {
    let p = Project { root: "/p".to_string(), bin_name: "app".to_string() };
    assert_eq!(p.out_dir(false), "/p/out/debug");
    assert_eq!(p.binary_path(true, false), "/p/out/release/app");
    assert_eq!(p.bin_filename(true), "app.exe");
    let up = |path: &str, m: bool| Ancestor {
        path: path.to_string(),
        has_manifest: m,
        has_main: true,
        has_stdlib: false,
    };
    assert_eq!(find_project_root(&vec![up("/a/b", false), up("/a", true)]).as_deref(), Some("/a"));
    assert_eq!(find_project_root(&vec![up("/a", false)]), None);
}

// ── scaffold ────────────────────────────────────────────────────────────

#[test]
fn new_projects_have_their_files() {
    let files = plan_new("dir/demo", Some("demo"), Spot::Free, false, "git").unwrap();
    let paths: Vec<&str> = files.iter().map(|f| f.path.as_str()).collect();
    assert_eq!(paths, ["hella.toml", "src/main.hll", ".gitignore"]);
    assert_eq!(
        files[1].contents,
        "// demo — Hella binary project.\n\nimport std::io\n\nvoid main() do\n    println(\"Hello from demo!\")\nend\n"
    );
    assert_eq!(
        files[0].contents,
        "name = \"demo\"\nversion = \"0.1.0\"\n\n# Third-party libraries live here once added:\n# `hella add github.com/owner/repo[@rev]` appends\n# `[dependencies]` and pins the exact SHA in `hella.lock`.\n"
    );
    assert_eq!(files[2].contents, "/out/\n");
    let lib = scaffold("demo", true);
    assert_eq!(lib[1].path, "src/lib.hll");
    assert!(lib[1].contents.contains("hello {name}"));
    assert!(lib[1].contents.starts_with("// demo — Hella library.\n//\n"));
}

#[test]
fn new_projects_are_refused_for_a_reason() {
    let err = |name: Option<&str>, spot: Spot, vcs: &str| {
        plan_new("d/x", name, spot, false, vcs).unwrap_err()
    };
    assert_eq!(err(Some("x"), Spot::FullDir, "git"), "d/x already exists and is not empty");
    assert_eq!(err(Some("x"), Spot::NotADir, "none"), "d/x exists and is not a directory");
    assert_eq!(err(None, Spot::Free, "git"), "invalid project path: d/x");
    assert_eq!(err(Some(""), Spot::Free, "git"), "invalid project path: d/x");
    assert_eq!(err(None, Spot::Free, "svn"), "unsupported --vcs \"svn\": only `git` and `none` for now");
    assert_eq!(err(None, Spot::Free, "a\"b"), "unsupported --vcs \"a\\\"b\": only `git` and `none` for now");
    assert_eq!(unsupported_vcs("<x>"), "unsupported --vcs <x>: only `git` and `none` for now");
    assert!(plan_new("d/x", Some("x"), Spot::EmptyDir, true, "none").is_ok());
    assert!(setup_writes(false, false) && setup_writes(true, true) && !setup_writes(true, false));
}

// ── fmt ─────────────────────────────────────────────────────────────────

#[test]
fn formatting_is_judged_and_summed_up() {
    assert_eq!(judge("a", Some("a")), FileVerdict::Clean);
    assert_eq!(judge("a", Some("b")), FileVerdict::Dirty);
    assert_eq!(judge("a", None), FileVerdict::Broken);
    assert_eq!(file_action(FileVerdict::Dirty, true), FileAction::Report);
    assert_eq!(file_action(FileVerdict::Dirty, false), FileAction::Write);
    assert_eq!(file_action(FileVerdict::Broken, true), FileAction::Explain);
    assert_eq!(file_action(FileVerdict::Clean, false), FileAction::Nothing);
    assert_eq!(fmt_summary(&vec![FileVerdict::Clean, FileVerdict::Dirty], true).unwrap_err(), "1 file(s) would be reformatted");
    assert_eq!(fmt_summary(&vec![FileVerdict::Broken, FileVerdict::Dirty], true).unwrap_err(), "1 file(s) failed to parse");
    assert_eq!(fmt_summary(&vec![FileVerdict::Clean, FileVerdict::Clean], true).unwrap(), "2 file(s) already formatted");
    assert_eq!(fmt_summary(&vec![FileVerdict::Broken, FileVerdict::Broken], false).unwrap_err(), "2 file(s) failed to format");
    assert_eq!(fmt_summary(&vec![FileVerdict::Dirty, FileVerdict::Clean], false).unwrap(), "2 file(s), 1 reformatted");
    assert_eq!(nothing_to_format(Some("x.txt")).unwrap_err(), "not a Hella source file: x.txt (expected `.hll`)");
    assert!(nothing_to_format(None).is_ok());
}

// ── lint report ─────────────────────────────────────────────────────────

#[test]
fn warnings_carry_line_and_column() {
    let src = "void update(ref int a, out int b) do\na = 1\nb = 2\nend\nvoid main() do\nint x = 0\nupdate(ref x, out x)\nend\n";
    let start = src.find("out x").unwrap();
    let w = Warning { code: "H001", message: "m".to_string(), span: Span::new(start, start + 5) };
    assert_eq!(show_warnings("main.hll", src, &vec![w]), ["main.hll:7:15: warning[H001]: m"]);
    let uni = "ä😀x";
    let w = Warning { code: "H001", message: "m".to_string(), span: Span::new(6, 7) };
    assert_eq!(show_warnings("f", uni, &vec![w]), ["f:1:3: warning[H001]: m"]);
    assert!(lint_outcome(3, false).is_ok());
    assert!(lint_outcome(0, true).is_ok());
    assert_eq!(lint_outcome(3, true).unwrap_err(), "3 lint warning(s) (--deny-warnings)");
}

// ── link ────────────────────────────────────────────────────────────────

#[test]
fn output_paths() {
    assert_eq!(default_exe_path("examples/hello.hll", None, false), "examples/hello");
    assert_eq!(default_exe_path("examples/hello.hll", None, true), "examples/hello.exe");
    assert_eq!(default_exe_path("a.b.hll", None, true), "a.b.exe");
    assert_eq!(default_exe_path("a.exe.hll", None, true), "a.exe");
    assert_eq!(default_exe_path("a.b.hll", None, false), "a.b");
    assert_eq!(default_exe_path("examples/hello.hll/.", None, false), "examples/hello");
    assert_eq!(default_exe_path("hello", None, false), "hello");
    assert_eq!(default_exe_path("x/.hidden", None, false), "x/.hidden");
    assert_eq!(default_exe_path("x.hll", Some("out/y"), true), "out/y");
    assert_eq!(obj_path_for_exe("foo"), "foo.o");
    assert_eq!(obj_path_for_exe("d.x/foo.o"), "d.x/foo.obj.o");
    assert_eq!(obj_path_for_exe("foo.exe"), "foo.o");
    assert_eq!(stamp_path("out/demo"), "out/demo.hellastamp");
}

#[test]
fn freshness_needs_stamp_and_times() {
    let stamp = stamp_contents("0.1.0", false, true);
    assert_eq!(stamp, "profile=debug\ntoolchain=hella 0.1.0\nasync=runtime\n");
    let fresh = |exe: Option<i128>, s: Option<&str>, times: Vec<Option<i128>>| {
        is_fresh(exe, s, &stamp, &times)
    };
    assert!(fresh(Some(10), Some(&stamp), vec![Some(10), Some(3)]));
    assert!(!fresh(Some(10), Some(&stamp), vec![Some(11)]));
    assert!(!fresh(Some(10), Some(&stamp), vec![None]));
    assert!(!fresh(None, Some(&stamp), vec![]));
    assert!(!fresh(Some(10), None, vec![]));
    assert!(!fresh(Some(10), Some(&stamp_contents("0.1.0", true, true)), vec![]));
    assert!(!fresh(Some(10), Some(&stamp_contents("0.1.0", false, false)), vec![]));
    assert!(!fresh(Some(10), Some(&stamp_contents("0.2.0", false, true)), vec![]));
}

#[test]
fn link_lines() {
    let none = needed_runtimes(false, false, false);
    assert!(none.is_empty());
    assert_eq!(link_args("o/a.o", "o/a", &none, false, true), ["o/a.o", "-o", "o/a", "-lm", "-no-pie"]);
    let all = needed_runtimes(true, true, true);
    assert_eq!(all, [Runtime::Shim, Runtime::Async, Runtime::Sync]);
    assert_eq!(
        link_args("o/a.o", "o/a", &all, true, false),
        ["o/hella_rt_gen.o", "o/hella_async_gen.o", "o/hella_sync_gen.o", "o/a.o", "-o", "o/a"]
    );
    let a = needed_runtimes(false, true, false);
    assert_eq!(
        link_args("o/a.o", "o/a", &a, false, false),
        ["o/hella_async_gen.o", "-pthread", "o/a.o", "-o", "o/a"]
    );
    assert_eq!(
        compile_args("a.o", Runtime::Sync, false),
        ["-c", "hella_sync_gen.c", "-o", "hella_sync_gen.o", "-pthread"]
    );
    assert_eq!(
        compile_args("d/a.o", Runtime::Shim, true),
        ["-c", "d/hella_rt_gen.c", "-o", "d/hella_rt_gen.o"]
    );
    assert_eq!(runtime_source_path("d/a.o", Runtime::Async), "d/hella_async_gen.c");
}

#[test]
fn linkers_are_chosen_in_order() {
    assert_eq!(find_linker(Some("lld"), true, true, "linux").unwrap(), "lld");
    assert_eq!(find_linker(Some("  "), true, true, "linux").unwrap(), "clang");
    assert_eq!(find_linker(None, false, true, "linux").unwrap(), "cc");
    let err = find_linker(None, false, false, "macos").unwrap_err();
    assert_eq!(err, format!("no C linker found (tried `clang`, `cc`) — {}", link_hint("macos")));
    assert!(link_hint("windows").contains("LLVM"));
    assert!(link_hint("linux").contains("apt install clang"));
    assert_eq!(exit_code(Some(3), false), Some(3));
    assert_eq!(exit_code(Some(0), true), None);
    assert_eq!(exit_code(None, false), Some(1));
}

// ── pipeline ────────────────────────────────────────────────────────────

fn flags() -> CompileFlags {
    CompileFlags {
        check_only: false,
        emit_llvm: false,
        release: false,
        force: false,
        require_main: true,
        print_ast: false,
        keep_obj: false,
    }
}

fn to_checked(p: &mut Pipeline) -> Action {
    assert_eq!(p.advance(Event::Read { ok: true }), Action::Lex);
    assert_eq!(p.advance(Event::Lexed { tokens: 3, errors: 0 }), Action::Parse);
    let debug = !p.flags.release && !p.flags.check_only;
    assert_eq!(p.advance(Event::Parsed { ok: true }), Action::Resolve { debug });
    assert!(matches!(p.advance(Event::Resolved { errors: 0 }), Action::Check { .. }));
    p.advance(Event::Checked { errors: 0 })
}

#[test]
fn a_build_runs_to_the_link() {
    let mut p = Pipeline::new(flags());
    assert_eq!(to_checked(&mut p), Action::Prepare);
    assert_eq!(p.advance(Event::Prepared { fresh: false }), Action::Generate { release: false });
    assert_eq!(p.advance(Event::Generated { ok: true }), Action::Link);
    assert_eq!(
        p.advance(Event::Linked { ok: true }),
        Action::Finish { ending: Ending::Built { remove_objects: true } }
    );
    assert_eq!(p.stage, Stage::Ended);
    assert_eq!(total_steps(flags()), 7);
}

#[test]
fn a_fresh_binary_is_not_rebuilt_unless_forced() {
    let mut p = Pipeline::new(flags());
    to_checked(&mut p);
    assert_eq!(p.advance(Event::Prepared { fresh: true }), Action::Finish { ending: Ending::Fresh });
    let mut p = Pipeline::new(CompileFlags { force: true, ..flags() });
    to_checked(&mut p);
    assert!(matches!(p.advance(Event::Prepared { fresh: true }), Action::Generate { .. }));
}

#[test]
fn checks_and_ir_stop_early() {
    let check = CompileFlags { check_only: true, ..flags() };
    assert_eq!(to_checked(&mut Pipeline::new(check)), Action::Finish { ending: Ending::Checked });
    assert_eq!(total_steps(check), 5);
    let ir = CompileFlags { emit_llvm: true, release: true, ..flags() };
    let mut p = Pipeline::new(ir);
    assert_eq!(to_checked(&mut p), Action::Emit { release: true });
    assert_eq!(p.advance(Event::Emitted { ok: true }), Action::Finish { ending: Ending::Emitted });
    assert_eq!(total_steps(ir), 6);
}

#[test]
fn every_failure_ends_the_pipeline() {
    let good = [
        Event::Read { ok: true },
        Event::Lexed { tokens: 1, errors: 0 },
        Event::Parsed { ok: true },
        Event::Resolved { errors: 0 },
        Event::Checked { errors: 0 },
        Event::Prepared { fresh: false },
        Event::Generated { ok: true },
        Event::Linked { ok: true },
    ];
    let bad = [
        (0, Event::Read { ok: false }, Reason::Read),
        (1, Event::Lexed { tokens: 1, errors: 2 }, Reason::Lex),
        (2, Event::Parsed { ok: false }, Reason::Parse),
        (3, Event::Resolved { errors: 1 }, Reason::Import),
        (4, Event::Checked { errors: 1 }, Reason::Semantic),
        (6, Event::Generated { ok: false }, Reason::Codegen),
        (7, Event::Linked { ok: false }, Reason::Link),
        (3, Event::Linked { ok: true }, Reason::OutOfOrder),
    ];
    for (n, event, reason) in bad {
        let mut p = Pipeline::new(flags());
        for e in &good[..n] {
            p.advance(*e);
        }
        assert_eq!(p.advance(event), Action::Fail { reason }, "{n}");
        assert_eq!(p.stage, Stage::Ended);
    }
    let mut p = Pipeline::new(CompileFlags { emit_llvm: true, ..flags() });
    to_checked(&mut p);
    assert_eq!(p.advance(Event::Emitted { ok: false }), Action::Fail { reason: Reason::Emit });
    let mut p = Pipeline::new(flags());
    p.advance(Event::Read { ok: true });
    assert_eq!(
        p.advance(Event::Lexed { tokens: 0, errors: 0 }),
        Action::Finish { ending: Ending::EmptyFile }
    );
}

// ── interpolation ───────────────────────────────────────────────────────

#[test]
fn decoded_bytes_know_where_they_came_from() {
    let inner = "a\\n\\x41{ü}\\u00e9\\";
    assert_eq!(escape_chunks(inner), ["\\n", "\\x41", "\\u00e9", "\\"]);
    let decoded = strings(&["\n", "A", "é", "\\"]);
    let (text, at) = decoded_with_positions(inner, 100, &decoded, None);
    assert_eq!(text, "a\nA{ü}é\\");
    assert_eq!(at.len(), text.len() + 1);
    assert_eq!(at, [100, 101, 103, 107, 108, 109, 110, 111, 111, 117, 118]);
    // Through the map of an enclosing string.
    let outer: Vec<usize> = (0..200).map(|i| i * 2).collect();
    let (_, nested) = decoded_with_positions("xy", 5, &vec![], Some(&outer));
    assert_eq!(nested, [10, 12, 14]);
    assert_eq!(source_offset(Some(&outer), 7), 14);
    assert_eq!(source_offset(None, 7), 7);
    let spans = remap_spans(&vec![Span::new(0, 2)], &nested);
    assert_eq!(spans, [Span::new(10, 14)]);
}

// ── text ────────────────────────────────────────────────────────────────

#[test]
fn numbers_and_text() {
    assert_eq!(natural(0), "0");
    assert_eq!(natural(u64::MAX), u64::MAX.to_string());
    assert_eq!(integer(i64::MIN), i64::MIN.to_string());
    assert_eq!(integer(-70), "-70");
    assert_eq!(trim_str("\u{3000}\t a b \u{85}\n"), "a b");
    assert_eq!(join_strings(&strings(&["a", "", "b"]), "::"), "a::::b");
    assert_eq!(join_strings(&vec![], "::"), "");
}
