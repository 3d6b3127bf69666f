//! Package management.
use hella::cli::scaffold::{plan_new, Spot};
use hella::manifest::{
    normalize_git_source, parse_manifest, Dependency, LockedDependency, Lockfile, Manifest,
    SlotMarker,
};
use hella::names::NameMap;
use hella::paths::parents_below;
use hella::pkg::add::parse_add_spec;
use hella::pkg::closure::{check_pin, Closure, ClosureStep, WorkItem};
use hella::pkg::edit::{edit_dep_line, insert_dep_line, remove_dep_line};
use hella::pkg::ensure::{
    changed_lock, ensure_step, expected_deps, plan_round, slot_is_good, unfetched_error, Ensure,
    EnsureOptions, EnsureStep, PinState, MAX_ROUNDS,
};
use hella::pkg::fetch::{
    added_message, check_clone, check_fetched, check_new_dep, check_old_dep, clone_commands,
    dep_to_record, dep_to_resolve, fetch_dir, git_args, git_failure, install_dir,
    ls_remote_command, merged_lock_text, pinned_revision, slot_action, unreachable_remote,
    SlotAction,
};
use hella::pkg::prune::{is_staging_dir, reachable_pins, slot_is_referenced};
use hella::pkg::remote::{
    choose_rev, parse_ls_remote, resolve_rev, semver_tags, shorten, strip_v, RemoteRefs, Resolved,
    TagRef, VersionTag,
};
use hella::pkg::report::{
    check_targets, describe_pin, describe_update, interim_pins, list_lines, update_report,
};
use hella::pkg::tool::{
    bin_path, not_installed, prepare_tool, tool_entry, tool_name, uninstall_candidates,
    validate_tool_name, ToolClone,
};

fn dep(git: &str, version: &str) -> Dependency {
    Dependency { git: git.to_string(), version: version.to_string(), package: None }
}

fn deps(list: &[(&str, &str, &str)]) -> NameMap<Dependency> {
    let mut m = NameMap::new();
    for (name, git, version) in list {
        m.insert(name.to_string(), dep(git, version));
    }
    m
}

fn pin(name: &str, git: &str, version: &str) -> LockedDependency {
    LockedDependency {
        name: name.to_string(),
        git: git.to_string(),
        version: version.to_string(),
        rev: format!("{name}-sha-0123456789"),
        package: None,
    }
}

fn manifest(list: &[(&str, &str, &str)]) -> Manifest {
    Manifest { name: "app".to_string(), version: "0.1.0".to_string(), dependencies: deps(list) }
}

fn state(p: LockedDependency, good: bool, child: Option<&[(&str, &str, &str)]>) -> PinState {
    PinState { pin: p, good, child: child.map(manifest) }
}

fn strings(v: &[&str]) -> Vec<String> {
    v.iter().map(|s| s.to_string()).collect()
}

fn opts(offline: bool, frozen: bool) -> EnsureOptions {
    EnsureOptions { offline, frozen }
}

// ── specs ───────────────────────────────────────────────────────────────

#[test]
fn parses_specs() {
    let r = parse_add_spec("github.com/o/r", None, false).unwrap();
    assert_eq!((r.git.as_str(), r.rev, r.name.as_str()), ("github.com/o/r", None, "r"));
    let r = parse_add_spec("github.com/o/r@v1.2.0", None, false).unwrap();
    assert_eq!(r.rev.as_deref(), Some("v1.2.0"));
    let r = parse_add_spec("owner/repo@^1.2", None, false).unwrap();
    assert_eq!((r.git.as_str(), r.name.as_str()), ("github.com/owner/repo", "repo"));
    let r = parse_add_spec("https://github.com/o/My-Lib.git", None, false).unwrap();
    assert_eq!((r.git.as_str(), r.name.as_str()), ("github.com/o/My-Lib", "my_lib"));
    let r = parse_add_spec("github.com/o/r", Some("custom"), false).unwrap();
    assert_eq!(r.name, "custom");
    assert!(parse_add_spec("", None, false).is_err());
    assert!(parse_add_spec("github.com/o/r@", None, false).is_err());
    assert!(parse_add_spec("github.com/o/r", Some("std"), false).is_err());
    assert!(parse_add_spec("github.com/o/r", Some("9bad"), false).is_err());
}

#[test]
fn local_path_with_at_sign_is_verbatim() {
    let weird = "/tmp/atsign/my@dir";
    let r = parse_add_spec(weird, None, true).unwrap();
    assert_eq!(r.rev, None);
    assert_eq!(r.git, format!("local{weird}"));
    assert_eq!(r.name, "my_dir");
}

#[test]
fn derived_names_can_be_imported() {
    let name = |spec: &str| parse_add_spec(spec, None, false).unwrap().name;
    assert_eq!(name("h.org/a.b"), "a_b");
    assert_eq!(name("h.org/2048-Game"), "_2048_game");
    assert_eq!(name("h.org/x+y"), "x_y");
    assert_eq!(name("h.org/Ünï"), "_n_");
}

#[test]
fn every_spec_error_has_its_text() {
    let err = |spec: &str, name: Option<&str>| parse_add_spec(spec, name, false).unwrap_err();
    assert_eq!(err("  ", None), "empty package spec (expected `<source>[@<rev>]`)");
    assert_eq!(err("a/b@ ", None), "empty revision in `a/b@ ` (expected `<source>[@<rev>]`)");
    assert_eq!(
        err("a/b@v1 x", None),
        "invalid revision `v1 x` in `a/b@v1 x` (must not contain whitespace)"
    );
    assert_eq!(err("@v1", None), "empty git source in `@v1`");
    assert_eq!(
        err("h.org/std", None),
        "invalid dependency name `std` (expected [_a-zA-Z][_a-zA-Z0-9]*, `std` is reserved) — pass `--name <name>`"
    );
    let r = parse_add_spec("git@host/repo@v2", Some(" n "), false).unwrap();
    assert_eq!((r.git.as_str(), r.rev.as_deref(), r.name.as_str()), ("github.com/git@host/repo", Some("v2"), "n"));
}

// ── editing ─────────────────────────────────────────────────────────────

#[test]
fn surgical_edits_preserve_comments() {
    let text = "# leading comment\nname = \"app\"\nversion = \"0.1.0\"\n";
    let d = dep("github.com/o/r", "1.0.0");
    let out = insert_dep_line(text, "mylib", &d);
    assert!(out.contains("# leading comment"));
    assert!(out.contains("name = \"app\""));
    assert!(out.contains("mylib = { git = \"github.com/o/r\", version = \"1.0.0\" }"));
    let m = parse_manifest(&out).unwrap();
    assert_eq!(m.name, "app");
    assert!(m.dependencies.contains_key("mylib"));
    // Replace is idempotent; removal restores the original shape.
    let again = insert_dep_line(&out, "mylib", &d);
    assert_eq!(again.matches("mylib =").count(), 1);
    let removed = remove_dep_line(&again, "mylib");
    assert!(!removed.contains("mylib"));
    assert!(removed.contains("# leading comment"));
}

#[test]
fn edits_are_exact() {
    let text = "[package]\nname = \"a\"\n\n[dependencies]  \n# keep\n\"b\" = \"x\"\n[other]\nb = 1\n";
    let d = dep("h.org/c", "2");
    assert_eq!(
        edit_dep_line(text, "c", &d),
        "[package]\nname = \"a\"\n\n[dependencies]  \nc = { git = \"h.org/c\", version = \"2\" }\n# keep\n\"b\" = \"x\"\n[other]\nb = 1\n"
    );
    assert_eq!(
        edit_dep_line(text, "b", &d),
        "[package]\nname = \"a\"\n\n[dependencies]  \n# keep\nb = { git = \"h.org/c\", version = \"2\" }\n[other]\nb = 1\n"
    );
    assert_eq!(
        remove_dep_line(text, "b"),
        "[package]\nname = \"a\"\n\n[dependencies]  \n# keep\n[other]\nb = 1\n"
    );
    assert_eq!(
        edit_dep_line("x = 1", "c", &d),
        "x = 1\n\n[dependencies]\nc = { git = \"h.org/c\", version = \"2\" }\n"
    );
    assert_eq!(
        edit_dep_line("", "c", &d),
        "[dependencies]\nc = { git = \"h.org/c\", version = \"2\" }\n"
    );
}

#[test]
fn a_text_that_cannot_be_edited_is_rewritten() {
    // Two sections of one name do not parse, edited or not.
    let text = "name = \"a\"\nversion = \"1\"\n[dependencies]\n[dependencies]\n";
    let out = insert_dep_line(text, "c", &dep("h.org/c", "2"));
    assert_eq!(
        out,
        "[package]\nname = \"\"\nversion = \"\"\n\n[dependencies]\nc = { git = \"h.org/c\", version = \"2\" }\n"
    );
    // A dotted spelling of the table keeps the rest when it is rewritten.
    let text = "name = \"a\"\nversion = \"1\"\ndependencies.b = \"h.org/b\"\n";
    let out = insert_dep_line(text, "c", &dep("h.org/c", "2"));
    let m = parse_manifest(&out).unwrap();
    assert_eq!(m.name, "a");
    assert!(m.dependencies.contains_key("b") && m.dependencies.contains_key("c"));
}

// ── remotes ─────────────────────────────────────────────────────────────

fn refs(tags: &[&str]) -> RemoteRefs {
    RemoteRefs {
        tags: tags
            .iter()
            .map(|t| TagRef { name: t.to_string(), sha: format!("sha-{t}") })
            .collect(),
        head: Some("0123456789abcdef".to_string()),
    }
}

#[test]
fn latest_prefers_stable_and_ranges_match() {
    let r0 = refs(&["v1.0.0", "v2.0.0", "v3.0.0-beta"]);
    let url = "/repos/vlib";
    let r = resolve_rev(url, None, &r0).unwrap();
    assert_eq!((r.version.as_str(), r.tag.as_deref()), ("2.0.0", Some("v2.0.0")));
    let r = resolve_rev(url, Some("^1.0"), &r0).unwrap();
    assert_eq!(r.version, "1.0.0");
    // Bare versions float within ^ (Cargo-style); `=` pins exact.
    let r = resolve_rev(url, Some("1.0.0"), &r0).unwrap();
    assert_eq!(r.version, "1.0.0");
    let r = resolve_rev(url, Some("=1.0.0"), &r0).unwrap();
    assert_eq!(r.version, "1.0.0");
    assert!(resolve_rev(url, Some(">=9.0"), &r0).is_err());
}

#[test]
fn ls_remote_output_is_read() {
    let out = "aaa\tHEAD\nbbb\trefs/heads/main\nccc\trefs/tags/v1\nddd\trefs/tags/v1^{}\nnoise\n\
               eee\trefs/tags/b^{}\nfff\trefs/tags/b\nggg refs/tags/a\n";
    let r = parse_ls_remote(out);
    assert_eq!(r.head.as_deref(), Some("aaa"));
    let got: Vec<(&str, &str)> =
        r.tags.iter().map(|t| (t.name.as_str(), t.sha.as_str())).collect();
    assert_eq!(got, [("a", "ggg"), ("b", "eee"), ("v1", "ddd")]);
    assert!(parse_ls_remote("").head.is_none());
}

#[test]
fn version_order_is_semantic() {
    let r = refs(&["v1.10.0", "v1.9.0", "1.9.0", "nightly", "v1.9.0-rc.2", "v1.9.0-rc.10"]);
    let got: Vec<String> = semver_tags(&r.tags).iter().map(|v| v.tag.clone()).collect();
    assert_eq!(got, ["v1.9.0-rc.2", "v1.9.0-rc.10", "v1.9.0", "1.9.0", "v1.10.0"]);
    assert_eq!(strip_v("v1"), "1");
    assert_eq!(strip_v("V1"), "1");
    assert_eq!(strip_v("1"), "1");
}

#[test]
fn requests_float_to_the_newest_match() {
    let r0 = refs(&["v1.0.0", "v1.5.0", "v2.1.0"]);
    assert_eq!(resolve_rev("u", Some("1.0.0"), &r0).unwrap().version, "1.5.0");
    assert_eq!(resolve_rev("u", Some("v1"), &r0).unwrap().version, "1.5.0");
    assert_eq!(resolve_rev("u", Some(" latest "), &r0).unwrap().version, "2.1.0");
    assert_eq!(resolve_rev("u", Some("*"), &r0).unwrap().version, "2.1.0");
    assert_eq!(resolve_rev("u", Some("  "), &r0).unwrap().version, "2.1.0");
    assert_eq!(resolve_rev("u", Some(">=9"), &r0).unwrap_err(), "no tag of `u` satisfies `>=9`");
}

#[test]
fn prereleases_count_only_without_releases() {
    let r0 = refs(&["v1.0.0-alpha", "v1.0.0-beta"]);
    assert_eq!(resolve_rev("u", None, &r0).unwrap().version, "1.0.0-beta");
}

#[test]
fn other_requests_name_tags_branches_or_commits() {
    let r0 = refs(&["nightly", "v1.0.0"]);
    let r = resolve_rev("u", Some("nightly"), &r0).unwrap();
    assert_eq!((r.version.as_str(), r.rev.as_str(), r.tag.as_deref(), r.needs_rev_parse), ("nightly", "sha-nightly", Some("nightly"), false));
    let r = resolve_rev("u", Some("feature/very-long-branch"), &r0).unwrap();
    assert_eq!((r.version.as_str(), r.rev.as_str(), r.tag.as_deref(), r.needs_rev_parse), ("rev-feature/very", "feature/very-long-branch", None, true));
    let bare = refs(&[]);
    let r = resolve_rev("u", None, &bare).unwrap();
    assert_eq!((r.version.as_str(), r.rev.as_str()), ("HEAD-0123456789ab", "0123456789abcdef"));
    let empty = RemoteRefs { tags: vec![], head: None };
    assert_eq!(
        resolve_rev("u", None, &empty).unwrap_err(),
        "`u` has no tags and no HEAD (is the repository empty?)"
    );
    assert_eq!(shorten("äöüäöüäöü"), "äöüäöü");
    assert_eq!(shorten("abc"), "abc");
}

#[test]
fn the_last_fitting_version_is_chosen() {
    let v = |tag: &str, stable: bool| VersionTag {
        tag: tag.to_string(),
        sha: format!("s{tag}"),
        text: tag.to_string(),
        version: tag.to_string(),
        stable,
    };
    let vs = vec![v("a", true), v("b", true), v("c", false)];
    let r0 = refs(&[]);
    let pick = |flags: Vec<bool>| {
        choose_rev("u", Some("q"), &r0, &vs, Some(&flags)).map(|r| r.version)
    };
    assert_eq!(pick(vec![true, true, true]).unwrap(), "b");
    assert_eq!(pick(vec![true, false, true]).unwrap(), "a");
    assert!(pick(vec![false, false, true]).is_err());
}

// ── closure ─────────────────────────────────────────────────────────────

fn expect_fetch(c: &mut Closure) -> (String, String) {
    match c.advance() {
        ClosureStep::Fetch { git, req, .. } => (git, req),
        other => panic!("expected a fetch, got {other:?}"),
    }
}

#[test]
fn closures_pin_direct_dependencies_first() {
    let direct = deps(&[("a", "h.org/a", "^1"), ("b", "h.org/b", "latest")]);
    let mut c = Closure::new(&direct, &vec![]);
    assert_eq!(expect_fetch(&mut c), ("h.org/a".to_string(), "^1".to_string()));
    // Asking again changes nothing.
    assert_eq!(expect_fetch(&mut c), ("h.org/a".to_string(), "^1".to_string()));
    let child = manifest(&[("b", "h.org/b", "^1"), ("t", "h.org/t", "2")]);
    c.record("1.0.0", "ra", Some(&child));
    assert_eq!(expect_fetch(&mut c).0, "h.org/b");
    c.record("1.3.0", "rb", None);
    assert_eq!(expect_fetch(&mut c).0, "h.org/t");
    // A cycle back to a pinned name asks for nothing.
    c.record("2.0.0", "rt", Some(&manifest(&[("a", "h.org/a", "1.0.0")])));
    assert!(matches!(c.advance(), ClosureStep::Done));
    c.record("9", "x", None);
    let got: Vec<(String, String, String)> = c
        .into_pins()
        .into_iter()
        .map(|p| (p.name, p.version, p.rev))
        .collect();
    let want: Vec<(String, String, String)> = [("a", "1.0.0", "ra"), ("b", "1.3.0", "rb"), ("t", "2.0.0", "rt")]
        .iter()
        .map(|(a, b, c)| (a.to_string(), b.to_string(), c.to_string()))
        .collect();
    assert_eq!(got, want);
}

#[test]
fn conflicting_names_are_loud() {
    // `dup` is pinned from X; the project asks for it from Y.
    let direct = deps(&[("dup", "h.org/y", "latest")]);
    let mut c = Closure::new(&direct, &vec![pin("dup", "h.org/x", "1.0.0")]);
    match c.advance() {
        ClosureStep::Conflict(m) => {
            assert!(m.contains("name conflict"), "{m}");
            assert_eq!(m, "dependency name conflict: `dup` comes from both `h.org/x` and `h.org/y` (rename one with `hella add <url> --name <name>`)");
        }
        other => panic!("expected a conflict, got {other:?}"),
    }
    // Incompatible version ranges conflict too.
    let mut c = Closure::new(&deps(&[("x", "h.org/x", ">=9.0")]), &vec![pin("x", "h.org/x", "1.0.0")]);
    match c.advance() {
        ClosureStep::Conflict(m) => assert_eq!(m, "conflicting requirements for `x`: `1.0.0` does not satisfy `>=9.0` (pin an explicit version in hella.toml)"),
        other => panic!("expected a conflict, got {other:?}"),
    }
    let err = resolve_rev("u", Some(">=9.0"), &refs(&["v1.0.0"])).unwrap_err();
    assert!(err.contains("no tag"), "{err}");
}

#[test]
fn requests_that_cannot_be_compared_do_not_clash() {
    for (req, version) in [("latest", "1.0.0"), ("^1", "rev-abc"), ("^1", "1.4.0")] {
        let mut c = Closure::new(&deps(&[("x", "h.org/x", req)]), &vec![pin("x", "h.org/x", version)]);
        assert!(matches!(c.advance(), ClosureStep::Done), "{req} {version}");
    }
    let w = WorkItem { name: "n".to_string(), git: "g".to_string(), req: "r".to_string(), package: None };
    assert!(check_pin(&w, &pin("n", "g", "1"), None).is_none());
    assert!(check_pin(&w, &pin("n", "g", "1"), Some(true)).is_none());
    assert!(check_pin(&w, &pin("n", "g", "1"), Some(false)).is_some());
    assert!(check_pin(&w, &pin("n", "other", "1"), Some(true)).is_some());
}

#[test]
fn fetches_name_the_url() {
    let git = normalize_git_source("/repos/lib");
    let mut direct = NameMap::new();
    direct.insert("lib".to_string(), dep(&git, "latest"));
    match Closure::new(&direct, &vec![]).advance() {
        ClosureStep::Fetch { url, .. } => assert_eq!(url, "/repos/lib"),
        other => panic!("{other:?}"),
    }
}

// ── ensure ──────────────────────────────────────────────────────────────

#[test]
fn ensure_is_noop_when_complete() {
    let d = deps(&[("lib", "h.org/lib", "latest")]);
    let ps = vec![state(pin("lib", "h.org/lib", "1.0.0"), true, Some(&[]))];
    for o in [opts(false, false), opts(false, true), opts(true, false)] {
        assert!(matches!(ensure_step(&d, &ps, o, "/pkg", MAX_ROUNDS), EnsureStep::Finish));
    }
    // Complete projects do not rewrite the lock.
    let lock = Lockfile { packages: vec![pin("lib", "h.org/lib", "1.0.0")] };
    let mut now = NameMap::new();
    now.insert("lib".to_string(), pin("lib", "h.org/lib", "1.0.0"));
    assert!(changed_lock(&lock, &now).is_none());
    now.insert("b".to_string(), pin("b", "h.org/b", "1.0.0"));
    assert!(changed_lock(&lock, &now).unwrap().contains("name = \"b\""));
    assert!(unfetched_error(&d, &ps).is_none());
}

#[test]
fn ensure_offline_and_frozen_refuse_network() {
    let d = deps(&[("lib", "h.org/lib", "latest")]);
    let ps = vec![state(pin("lib", "h.org/lib", "1.0.0"), false, None)];
    match ensure_step(&d, &ps, opts(true, false), "/pkg", MAX_ROUNDS) {
        EnsureStep::Refuse(m) => assert_eq!(m, "dependencies missing from /pkg (0 unpinned, 1 unfetched); re-run without `--offline` or run `hella fetch` with network access"),
        other => panic!("{other:?}"),
    }
    match ensure_step(&d, &ps, opts(false, true), "/pkg", MAX_ROUNDS) {
        EnsureStep::Refuse(m) => assert_eq!(m, "lockfile out of date (0 unpinned, 1 unfetched); run `hella fetch` to update it (`--frozen` forbids changes)"),
        other => panic!("{other:?}"),
    }
    // A missing lock is a frozen error too.
    assert!(matches!(
        ensure_step(&d, &vec![], opts(false, true), "/pkg", MAX_ROUNDS),
        EnsureStep::Refuse(_)
    ));
    match ensure_step(&d, &ps, opts(false, false), "/pkg", MAX_ROUNDS) {
        EnsureStep::Fetch(plan) => {
            assert!(plan.missing.is_empty());
            assert_eq!(plan.bad[0].name, "lib");
        }
        other => panic!("{other:?}"),
    }
    assert!(matches!(ensure_step(&d, &ps, opts(false, false), "/pkg", 0), EnsureStep::Finish));
    assert_eq!(unfetched_error(&d, &ps).unwrap(), "could not fetch dependencies: lib");
    assert_eq!(unfetched_error(&d, &vec![]).unwrap(), "could not fetch dependencies: lib");
}

#[test]
fn rounds_follow_the_manifests_in_slots() {
    let d = deps(&[("a", "h.org/a", "^1")]);
    let ps = vec![
        state(pin("a", "h.org/a", "1.0.0"), true, Some(&[("b", "h.org/b", "2"), ("a", "h.org/other", "9")])),
        state(pin("b", "h.org/b", "2.0.0"), true, Some(&[("a", "h.org/a", "1"), ("c", "h.org/c", "3")])),
        state(pin("stale", "h.org/s", "1.0.0"), false, None),
    ];
    let expected = expected_deps(&d, &ps);
    let names: Vec<&str> = (0..expected.len()).map(|i| expected.key_at(i).as_str()).collect();
    assert_eq!(names, ["a", "b", "c"]);
    // The direct request of `a` stays what the manifest has.
    assert_eq!(expected.get("a").unwrap().git, "h.org/a");
    let plan = plan_round(&d, &ps);
    assert_eq!(plan.missing.len(), 1);
    assert_eq!(plan.missing.get("c").unwrap().version, "3");
    assert_eq!(plan.bad.len(), 1);
}

#[test]
fn runs_end_after_their_rounds() {
    let lock = Lockfile { packages: vec![pin("b", "h.org/b", "1"), pin("a", "h.org/a", "1")] };
    let mut run = Ensure::new(&lock);
    let d = deps(&[("a", "h.org/a", "1")]);
    let names = |v: Vec<LockedDependency>| v.into_iter().map(|p| p.name).collect::<Vec<_>>();
    assert_eq!(names(run.current()), ["a", "b"]);
    run.record(&vec![pin("c", "h.org/c", "1"), pin("a", "h.org/a", "2")]);
    assert_eq!(names(run.current()), ["a", "b", "c"]);
    assert_eq!(run.pins.get("a").unwrap().version, "2");
    let mut fetches = 0;
    loop {
        let states: Vec<PinState> =
            run.current().into_iter().map(|p| state(p, false, None)).collect();
        match run.advance(&d, &states, opts(false, false), "/pkg") {
            EnsureStep::Fetch(plan) => {
                assert_eq!(plan.bad.len(), 3);
                fetches += 1;
            }
            other => {
                assert!(matches!(other, EnsureStep::Finish));
                break;
            }
        }
    }
    assert_eq!(fetches, 8);
    let mut strict = Ensure::new(&lock);
    let states = vec![state(pin("a", "h.org/a", "1"), false, None)];
    assert!(matches!(
        strict.advance(&d, &states, opts(true, false), "/pkg"),
        EnsureStep::Refuse(_)
    ));
    assert_eq!(strict.rounds_left, MAX_ROUNDS);
}

#[test]
fn sub_paths_survive_a_new_lock() {
    let mut d = NameMap::new();
    d.insert(
        "tool".to_string(),
        Dependency {
            git: "h.org/t".to_string(),
            version: "1".to_string(),
            package: Some("tool::cli".to_string()),
        },
    );
    let plan = plan_round(&d, &vec![]);
    assert_eq!(plan.missing.get("tool").unwrap().package.as_deref(), Some("tool::cli"));
}

fn marker(git: &str, version: &str, rev: &str) -> SlotMarker {
    SlotMarker { git: git.to_string(), version: version.to_string(), rev: rev.to_string() }
}

#[test]
fn slots_are_good_only_with_a_matching_marker() {
    let p = pin("a", "h.org/a", "1.0.0");
    assert!(slot_is_good(&p, Some(&marker("h.org/a", "whatever", &p.rev))));
    assert!(!slot_is_good(&p, Some(&marker("h.org/b", "1.0.0", &p.rev))));
    assert!(!slot_is_good(&p, Some(&marker("h.org/a", "1.0.0", "other"))));
    assert!(!slot_is_good(&p, None));
    let m = marker("g", "1", "r");
    assert_eq!(slot_action(Some(&m), true, "g", "r"), SlotAction::Reuse);
    assert_eq!(slot_action(Some(&m), true, "g", "r2"), SlotAction::ClearStale);
    assert_eq!(slot_action(None, true, "g", "r"), SlotAction::ClearUnmanaged);
    assert_eq!(slot_action(None, false, "g", "r"), SlotAction::Fresh);
}

// ── fetching ────────────────────────────────────────────────────────────

#[test]
fn clone_commands_fit_the_revision() {
    let tagged = Resolved {
        version: "1.0.0".to_string(),
        rev: "abc".to_string(),
        tag: Some("v1.0.0".to_string()),
        needs_rev_parse: false,
    };
    let cmds = clone_commands("u", &tagged, "/d");
    assert_eq!(cmds.len(), 2);
    assert_eq!(cmds[0].args, ["clone", "--depth", "1", "--branch", "v1.0.0", "--", "u", "/d"]);
    assert_eq!(cmds[1].args, ["rev-parse", "HEAD"]);
    assert!(cmds[1].in_clone && !cmds[0].in_clone);
    let branch = Resolved {
        version: "rev-main".to_string(),
        rev: "main".to_string(),
        tag: None,
        needs_rev_parse: true,
    };
    let cmds = clone_commands("u", &branch, "/d");
    assert_eq!(cmds[0].args, ["clone", "--", "u", "/d"]);
    assert_eq!(cmds[1].args, ["checkout", "--detach", "--quiet", "main"]);
    assert_eq!(cmds[1].what, "cannot check out `main`");
    assert_eq!(check_clone("u", &tagged, " abc\n").unwrap(), "abc");
    assert_eq!(
        check_clone("u", &tagged, "def\n").unwrap_err(),
        "clone of `u` gave def but `abc` was expected"
    );
    assert_eq!(check_clone("u", &branch, "def\n").unwrap(), "def");
    assert_eq!(
        git_failure("cannot clone `u`", &strings(&["clone", "u"]), " no route \n"),
        "cannot clone `u` failed (`git clone u`): : no route"
    );
}

#[test]
fn git_runs_with_settings_of_its_own() {
    let ls = ls_remote_command("u");
    assert_eq!(ls.args, ["ls-remote", "u"]);
    assert_eq!(ls.what, "cannot reach `u`");
    assert_eq!(unreachable_remote("e"), "e (check the URL and your network / credentials)");
    let all = git_args(&ls.args);
    assert_eq!(all.len(), 10);
    assert_eq!(all[..2], ["-c", "user.email=hella@test"]);
    assert_eq!(all[8..], ["ls-remote", "u"]);
}

#[test]
fn pins_are_fetched_by_commit() {
    let p = pin("a", "h.org/a", "1.0.0");
    let r = pinned_revision(&p);
    assert_eq!((r.rev.as_str(), r.tag, r.needs_rev_parse), (p.rev.as_str(), None, false));
    assert!(check_fetched(&p, &p.rev).is_ok());
    assert_eq!(
        check_fetched(&p, "zz").unwrap_err(),
        format!("fetched `a` gave zz but lock pins {}", p.rev)
    );
}

#[test]
fn additions_are_recorded() {
    let m = manifest(&[("a", "h.org/a", "1")]);
    assert_eq!(
        check_new_dep(&m, "a").unwrap_err(),
        "`a` is already a dependency (run `hella remove a` first to replace it)"
    );
    assert!(check_new_dep(&m, "b").is_ok());
    assert!(check_old_dep(&m, "a").is_ok());
    let req = parse_add_spec("h.org/lib", None, false).unwrap();
    assert_eq!(dep_to_resolve(&req).version, "latest");
    assert_eq!(dep_to_record(&req, &pin("lib", "h.org/lib", "1.4.0")).version, "1.4.0");
    let req = parse_add_spec("h.org/lib@^1", None, false).unwrap();
    assert_eq!(dep_to_resolve(&req).version, "^1");
    assert_eq!(dep_to_record(&req, &pin("lib", "h.org/lib", "1.4.0")).version, "^1");
    assert_eq!(added_message(&req, "^1", "abc"), "Added lib ^1 (h.org/lib@abc)");
    let old = Lockfile { packages: vec![pin("z", "h.org/z", "1"), pin("lib", "h.org/lib", "1.0.0")] };
    let text = merged_lock_text(&old, &vec![pin("lib", "h.org/lib", "1.4.0")]);
    assert!(text.contains("1.4.0") && !text.contains("1.0.0") && text.contains("name = \"z\""));
}

#[test]
fn remove_unknown_name_errors() {
    let m = manifest(&[]);
    assert_eq!(
        check_old_dep(&m, "nope").unwrap_err(),
        "no dependency named `nope` (see `[dependencies]` in hella.toml)"
    );
}

#[test]
fn staging_directories_are_found_by_name() {
    assert_eq!(fetch_dir("/c", 7, 42), "/c/hella-fetch-7-42");
    assert_eq!(install_dir("/c", 7, 42), "/c/hella-install-7-42");
    assert!(is_staging_dir("hella-fetch-7-42"));
    assert!(is_staging_dir("hella-install-7-42"));
    assert!(!is_staging_dir("hella-other"));
}

// ── pruning ─────────────────────────────────────────────────────────────

#[test]
fn pruning_keeps_what_is_reachable() {
    let roots = deps(&[("a", "h.org/a", "1")]);
    let ps = || {
        vec![
            state(pin("a", "h.org/a", "1"), true, Some(&[("b", "h.org/b", "1")])),
            state(pin("b", "h.org/b", "1"), true, Some(&[])),
            state(pin("c", "h.org/c", "1"), true, Some(&[])),
        ]
    };
    let names = |v: Vec<LockedDependency>| v.into_iter().map(|p| p.name).collect::<Vec<_>>();
    assert_eq!(names(reachable_pins(&roots, &ps())), ["a", "b"]);
    // An unknown subtree keeps everything.
    let mut unknown = ps();
    unknown[1].child = None;
    assert_eq!(names(reachable_pins(&roots, &unknown)), ["a", "b", "c"]);
    // Unless nothing reaches it.
    let mut apart = ps();
    apart[2].child = None;
    assert_eq!(names(reachable_pins(&roots, &apart)), ["a", "b"]);
    assert!(reachable_pins(&deps(&[]), &ps()).is_empty());
    let lock = Lockfile { packages: vec![pin("a", "h.org/a", "1")] };
    assert!(slot_is_referenced(&lock, &marker("h.org/a", "1", "any")));
    assert!(!slot_is_referenced(&lock, &marker("h.org/a", "2", "any")));
}

// ── reports ─────────────────────────────────────────────────────────────

#[test]
fn update_named_subset_and_rejects_unknown() {
    let (a, b) = (normalize_git_source("/repos/a"), normalize_git_source("/repos/b"));
    let d = deps(&[("a", &a, "1.0.0"), ("b", &b, "2.0.0")]);
    let lock = Lockfile { packages: vec![pin("a", &a, "1.0.0"), pin("b", &b, "2.0.0")] };
    let targets = strings(&["a"]);
    assert!(check_targets(&d, &targets).is_ok());
    let mut c = Closure::new(&d, &interim_pins(&lock, &targets));
    match c.advance() {
        ClosureStep::Fetch { url, req, .. } => {
            assert_eq!(url, "/repos/a");
            let found = resolve_rev(&url, Some(&req), &refs(&["v1.0.0", "v1.5.0"])).unwrap();
            c.record(&found.version, &found.rev, None);
        }
        other => panic!("expected a fetch, got {other:?}"),
    }
    assert!(matches!(c.advance(), ClosureStep::Done));
    let versions: Vec<(String, String)> =
        c.into_pins().into_iter().map(|p| (p.name, p.version)).collect();
    // Untargeted deps stay pinned.
    assert_eq!(
        versions,
        [("a".to_string(), "1.5.0".to_string()), ("b".to_string(), "2.0.0".to_string())]
    );
    assert!(check_targets(&d, &strings(&["nope"])).is_err());
}

#[test]
fn updates_are_reported_by_name() {
    let d = deps(&[("a", "h.org/a", "1"), ("b", "h.org/b", "1")]);
    assert!(check_targets(&d, &strings(&["b", "a"])).is_ok());
    assert_eq!(
        check_targets(&d, &strings(&["a", "x", "y"])).unwrap_err(),
        "no dependency named `x` (see `[dependencies]` in hella.toml)"
    );
    let lock = Lockfile { packages: vec![pin("a", "h.org/a", "1"), pin("b", "h.org/b", "1")] };
    let left: Vec<String> =
        interim_pins(&lock, &strings(&["a"])).into_iter().map(|p| p.name).collect();
    assert_eq!(left, ["b"]);
    assert!(interim_pins(&lock, &vec![]).is_empty());
    let mut newer = pin("a", "h.org/a", "2");
    newer.rev = "new".to_string();
    let is = Lockfile { packages: vec![newer, pin("b", "h.org/b", "1")] };
    assert_eq!(
        update_report(&d, &vec![], &lock, &is),
        ["Updated a 1 → 2", "b already current (1)"]
    );
    assert_eq!(update_report(&d, &strings(&["b"]), &lock, &is), ["b already current (1)"]);
    assert_eq!(describe_update("n", None, Some(&pin("n", "g", "3"))), "Pinned n 3");
    assert_eq!(describe_update("n", None, None), "warning: n has no pin after update");
}

#[test]
fn the_tree_is_drawn() {
    let m = manifest(&[("a", "h.org/a", "1"), ("z", "h.org/z", "1")]);
    let ps = vec![
        state(pin("a", "h.org/a", "1.0.0"), true, Some(&[("b", "h.org/b", "1"), ("c", "h.org/c", "1")])),
        state(pin("b", "h.org/b", "2.0.0"), true, Some(&[("a", "h.org/a", "1"), ("c", "h.org/c", "1")])),
        state(pin("c", "h.org/c", "3.0.0"), true, None),
    ];
    let b = "b 2.0.0 (h.org/b @b-sha-012345)";
    let a = "a 1.0.0 (h.org/a @a-sha-012345)";
    let c = "c 3.0.0 (h.org/c @c-sha-012345)";
    assert_eq!(
        list_lines(&m, &ps),
        [
            "app 0.1.0".to_string(),
            a.to_string(),
            format!("├── {b}"),
            format!("│   ├── {a}"),
            format!("│   │   ├── {b} (cycle)"),
            format!("│   │   └── {c}"),
            format!("│   └── {c} (cycle)"),
            format!("└── {c} (cycle)"),
            "z (unpinned)".to_string(),
        ]
    );
    assert_eq!(list_lines(&manifest(&[]), &ps), ["No dependencies"]);
    assert_eq!(describe_pin("n", None), "n (unpinned)");
}

// ── tools ───────────────────────────────────────────────────────────────

#[test]
fn tool_names_are_validated() {
    assert!(validate_tool_name("mytool").is_ok());
    assert!(validate_tool_name("my-tool_2").is_ok());
    for bad in ["", ".", "..", "a/b", "a\\b", "a\0b"] {
        assert!(validate_tool_name(bad).is_err(), "{bad:?}");
    }
    assert_eq!(bin_path("C:/h/bin", "tool", true), "C:/h/bin/tool.exe");
    assert_eq!(bin_path("/h/bin", "tool.exe", true), "/h/bin/tool.exe");
    assert_eq!(bin_path("/h/bin", "tool", false), "/h/bin/tool");
}

#[test]
fn prepare_tool_finds_entry_and_name() {
    let clone = |src: bool, top: bool, name: Option<&str>| ToolClone {
        dir: "/c/t".to_string(),
        has_src_main: src,
        has_main: top,
        manifest_name: name.map(|n| n.to_string()),
    };
    let tool =
        prepare_tool("/r/toolrepo", "toolrepo", &clone(true, false, Some("frob")), None).unwrap();
    assert_eq!(tool.name, "frob");
    assert_eq!(tool.entry, format!("{}/src/main.hll", tool.dir));
    assert_eq!(tool.dir, "/c/t");
    // Explicit --bin wins over the manifest name.
    let tool =
        prepare_tool("/r/toolrepo", "toolrepo", &clone(true, false, Some("frob")), Some("custom"))
            .unwrap();
    assert_eq!(tool.name, "custom");
}

#[test]
fn tools_fall_back_to_the_top_entry_and_the_repository_name() {
    let clone = |src: bool, top: bool, name: Option<&str>| ToolClone {
        dir: "/c/t".to_string(),
        has_src_main: src,
        has_main: top,
        manifest_name: name.map(|n| n.to_string()),
    };
    let t = prepare_tool("h.org/t", "t", &clone(false, true, Some("mytool")), Some(" alias ")).unwrap();
    assert_eq!((t.entry.as_str(), t.name.as_str()), ("/c/t/main.hll", "alias"));
    let t = prepare_tool("h.org/t", "t", &clone(false, true, None), Some("  ")).unwrap();
    assert_eq!(t.name, "t");
    assert!(prepare_tool("h.org/t", "t", &clone(true, true, Some("a/b")), None).is_err());
    assert_eq!(tool_name(Some("x"), None, "d").unwrap(), "x");
}

#[test]
fn prepare_tool_rejects_entryless_repos() {
    let libonly = ToolClone {
        dir: "/c/libonly".to_string(),
        has_src_main: false,
        has_main: false,
        manifest_name: None,
    };
    assert!(prepare_tool("/r/libonly", "libonly", &libonly, None).is_err());
    assert_eq!(
        tool_entry("h.org/t", false, false).unwrap_err(),
        "tool repository `h.org/t` has no entry point (looked for src/main.hll and main.hll)"
    );
}

#[test]
fn uninstall_looks_for_plain_and_exe_names() {
    assert_eq!(uninstall_candidates("/b", "t", true).unwrap(), ["/b/t", "/b/t.exe"]);
    assert_eq!(uninstall_candidates("/b", "t", false).unwrap(), ["/b/t"]);
    assert_eq!(
        uninstall_candidates("/b", "a/b", false).unwrap_err(),
        "invalid tool name `a/b` (must be a plain file name)"
    );
    assert_eq!(not_installed("/b", "t"), "no installed tool named `t` (looked in /b)");
}

// ── laws on values ──────────────────────────────────────────────────────

#[test]
fn insertion_twice_is_insertion_once() {
    let d = dep("h.org/c", "2");
    for text in [
        "name = \"a\"\nversion = \"1\"\n",
        "[package]\nname = \"a\"\nversion = \"1\"\n\n[dependencies]\nb = \"h.org/b\"\nc = \"h.org/x\"\n",
        "name = \"a\"\nversion = \"1\"\ndependencies.b = \"h.org/b\"\n",
        "no manifest",
    ] {
        let once = insert_dep_line(text, "c", &d);
        assert_eq!(insert_dep_line(&once, "c", &d), once);
    }
}

#[test]
fn removal_undoes_insertion() {
    let d = dep("h.org/c", "2");
    let text = "# top\nname = \"a\"\nversion = \"1\"\n\n[dependencies]\n# keep\nb = \"h.org/b\"\n";
    assert_eq!(remove_dep_line(&insert_dep_line(text, "c", &d), "c"), text);
}

#[test]
fn insertion_changes_one_dependency() {
    let text = "name = \"a\"\nversion = \"1\"\n\n[dependencies]\nb = \"h.org/b\"\nc = \"h.org/x\"\n";
    let m = parse_manifest(&insert_dep_line(text, "c", &dep("h.org/c", "2"))).unwrap();
    assert_eq!((m.name.as_str(), m.version.as_str()), ("a", "1"));
    assert_eq!(m.dependencies.len(), 2);
    assert_eq!(m.dependencies.get("b").unwrap().git, "h.org/b");
    let c = m.dependencies.get("c").unwrap();
    assert_eq!((c.git.as_str(), c.version.as_str()), ("h.org/c", "2"));
}

#[test]
fn the_last_pin_of_a_name_counts() {
    let d = deps(&[("a", "h.org/a", "1")]);
    let old = state(pin("a", "h.org/a", "1.0.0"), false, Some(&[("gone", "h.org/g", "1")]));
    let new = state(pin("a", "h.org/a", "1.5.0"), true, Some(&[("b", "h.org/b", "1")]));
    let plan = plan_round(&d, &vec![old, new]);
    assert_eq!(plan.missing.len(), 1);
    assert!(plan.missing.contains_key("b"));
    assert!(plan.bad.is_empty());
    let old = state(pin("a", "h.org/a", "1.0.0"), true, Some(&[]));
    let new = state(pin("a", "h.org/a", "1.5.0"), true, Some(&[]));
    let kept = reachable_pins(&d, &vec![old, new]);
    assert_eq!(kept.len(), 1);
    assert_eq!(kept[0].version, "1.5.0");
}

#[test]
fn only_what_reached_slots_ask_for_is_expected() {
    let d = deps(&[("a", "h.org/a", "1")]);
    let ps = vec![
        state(pin("a", "h.org/a", "1.0.0"), true, Some(&[("b", "h.org/b", "1")])),
        state(pin("b", "h.org/b", "1.0.0"), false, Some(&[("c", "h.org/c", "1")])),
        state(pin("stale", "h.org/s", "1.0.0"), true, Some(&[("t", "h.org/t", "1")])),
    ];
    let e = expected_deps(&d, &ps);
    assert_eq!(e.len(), 3);
    for (name, git) in [("a", "h.org/a"), ("b", "h.org/b"), ("c", "h.org/c")] {
        assert_eq!(e.get(name).unwrap().git, git);
    }
}

#[test]
fn added_sources_are_read_back() {
    for (spec, git) in [
        ("https://git/repo", "git/repo"),
        ("owner/repo", "github.com/owner/repo"),
        (" owner/repo.git ", "github.com/owner/repo"),
        ("http://owner/repo", "owner/repo"),
        ("/srv/lib", "local/srv/lib"),
        ("file:///lib", "local/lib"),
    ] {
        let r = parse_add_spec(spec, None, false).unwrap();
        assert_eq!(r.git, git, "{spec}");
        let text = insert_dep_line("name = \"a\"\nversion = \"1\"\n", &r.name, &dep(&r.git, "1"));
        assert_eq!(parse_manifest(&text).unwrap().dependencies.get(&r.name).unwrap().git, git);
    }
}

#[test]
fn insertions_are_read_back_from_any_layout() {
    let d = dep("h.org/c", "2");
    for text in [
        // Comments between entries, literal strings, spacing.
        "# one\n# two\nname='a'\nversion = \"1\"\n\n[dependencies] \n# first\nb = 'h.org/b'\n\n# second\nx   = { git = \"h.org/x\" , version='3' }\n[other]\ny = [1,\n 2]\n",
        // A heading with a comment, a quoted one, a sub-table.
        "name = \"a\"\nversion = \"1\"\n[dependencies] # all\nb = \"h.org/b\"\n",
        "name = \"a\"\nversion = \"1\"\n[\"dependencies\"]\nb = \"h.org/b\"\n",
        "name = \"a\"\nversion = \"1\"\n[dependencies.b]\ngit = \"h.org/b\"\n",
        // What looks like a heading in a string of several lines.
        "name = \"a\"\nversion = \"1\"\nabout = \"\"\"\n[dependencies]\n\"\"\"\n[dependencies]\nb = \"h.org/b\"\n",
    ] {
        let before = parse_manifest(text).unwrap();
        let out = insert_dep_line(text, "c", &d);
        let after = parse_manifest(&out).unwrap();
        assert_eq!((after.name.as_str(), after.version.as_str()), ("a", "1"), "{out}");
        assert_eq!(after.dependencies.len(), before.dependencies.len() + 1, "{out}");
        assert_eq!(after.dependencies.get("b").unwrap().git, "h.org/b");
        let c = after.dependencies.get("c").unwrap();
        assert_eq!((c.git.as_str(), c.version.as_str()), ("h.org/c", "2"));
        assert_eq!(insert_dep_line(&out, "c", &d), out);
    }
}

#[test]
fn tabs_do_not_stop_a_rewrite() {
    let d = dep("h.org/c", "2");
    let text = "name = \"a\tb\"\nversion = \"1\"\ndependencies.b = \"h.org/b\"\n";
    let out = insert_dep_line(text, "c", &d);
    let m = parse_manifest(&out).unwrap();
    assert_eq!(m.name, "a\tb");
    assert!(m.dependencies.contains_key("b") && m.dependencies.contains_key("c"));
    assert_eq!(insert_dep_line(&out, "c", &d), out);
}

#[test]
fn edits_that_nothing_mends_are_kept() {
    // The source is normalized when it is read, not when it is written.
    let d = dep("https://h.org/c", "2");
    let text = "# top\nname = \"a\"\nversion = \"1\"\n";
    let out = insert_dep_line(text, "c", &d);
    assert!(out.starts_with("# top\n"));
    assert_eq!(parse_manifest(&out).unwrap().dependencies.get("c").unwrap().git, "h.org/c");
    assert_eq!(insert_dep_line(&out, "c", &d), out);
}

#[test]
fn only_directories_below_the_cache_are_cleared() {
    assert_eq!(
        parents_below("/p/pkg/h.org/o/r/1.0.0", "/p/pkg"),
        ["/p/pkg/h.org/o/r", "/p/pkg/h.org/o", "/p/pkg/h.org"]
    );
    assert_eq!(parents_below("/p/pkg//a/./b/", "/p/pkg/"), ["/p/pkg/a"]);
    assert!(parents_below("/p/pkg/a", "/p/pkg").is_empty());
    assert!(parents_below("/p/pkg", "/p/pkg").is_empty());
    assert!(parents_below("/p/pkgs/a/b", "/p/pkg").is_empty());
    assert!(parents_below("p/pkg/a/b", "/p/pkg").is_empty());
}

#[test]
fn a_new_project_takes_its_first_dependency() {
    let files = plan_new("dir/demo", Some("demo"), Spot::Free, false, "none").unwrap();
    let text = &files[0].contents;
    let out = insert_dep_line(text, "c", &dep("h.org/c", "2"));
    assert!(out.starts_with(text.as_str()));
    let m = parse_manifest(&out).unwrap();
    assert_eq!((m.name.as_str(), m.dependencies.len()), ("demo", 1));
    assert_eq!(remove_dep_line(&out, "c"), format!("{text}\n[dependencies]\n"));
}
