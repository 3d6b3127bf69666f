//! Manifests, lockfiles and slot markers.
use hella::manifest::lock::lockfile_from_toml;
use hella::manifest::{
    clone_url, derive_dep_name, is_valid_dep_name, is_valid_package_path, is_valid_version_req,
    manifest_from_toml, normalize_git_source, parse_lockfile, parse_manifest, parse_slot_marker,
    serialize_lockfile, serialize_manifest, serialize_slot_marker, slot_marker_name, Dependency,
    LockedDependency, Lockfile, Manifest, ManifestError,
};
use hella::names::NameMap;
use hella::tomldoc::{read_toml, TomlValue};
use hella::versions::is_valid_trimmed_req;

fn pin(name: &str, package: Option<&str>) -> LockedDependency {
    LockedDependency {
        name: name.to_string(),
        git: "github.com/repo/lib".to_string(),
        version: "1.2.3".to_string(),
        rev: "abc123".to_string(),
        package: package.map(|p| p.to_string()),
    }
}

fn shown(p: &LockedDependency) -> (String, String, String, String, Option<String>) {
    (p.name.clone(), p.git.clone(), p.version.clone(), p.rev.clone(), p.package.clone())
}

fn dep(git: &str, version: &str, package: Option<&str>) -> Dependency {
    Dependency {
        git: git.to_string(),
        version: version.to_string(),
        package: package.map(|p| p.to_string()),
    }
}

fn parts(d: &Dependency) -> (&str, &str, Option<&str>) {
    (d.git.as_str(), d.version.as_str(), d.package.as_deref())
}

fn error_of(text: &str) -> String {
    match parse_manifest(text) {
        Ok(_) => panic!("accepted: {text}"),
        Err(e) => e.message(),
    }
}

#[test]
fn parses_legacy_bare_manifest() {
    let m = parse_manifest("name = \"myapp\"\nversion = \"0.1.0\"\n").unwrap();
    assert_eq!(m.name, "myapp");
    assert_eq!(m.version, "0.1.0");
    assert!(m.dependencies.is_empty());
}

#[test]
fn parses_section_manifest_with_deps() {
    let m = parse_manifest(
        "[package]\nname = \"myapp\"\nversion = \"0.1.0\"\n\
         \n[dependencies]\n\
         mylib = { git = \"https://github.com/repo/lib.git\", version = \"1.2.3\" }\n\
         tool = { git = \"github.com/repo/tool\", version = \"^0.4\", package = \"tool::cli\" }\n",
    )
    .unwrap();
    assert_eq!(m.name, "myapp");
    assert_eq!(
        parts(m.dependencies.get("mylib").unwrap()),
        ("github.com/repo/lib", "1.2.3", None)
    );
    assert_eq!(
        parts(m.dependencies.get("tool").unwrap()),
        ("github.com/repo/tool", "^0.4", Some("tool::cli"))
    );
}

#[test]
fn parses_shorthand_string_dep_as_latest() {
    let m = parse_manifest(
        "[package]\nname = \"a\"\nversion = \"0.1.0\"\n\
         [dependencies]\nmylib = \"github.com/repo/lib\"\n",
    )
    .unwrap();
    assert_eq!(m.dependencies.get("mylib").unwrap().version, "latest");
}

#[test]
fn rejects_missing_identity_and_bad_deps() {
    assert!(parse_manifest("name = \"a\"\n").is_err());
    let with = |line: &str| {
        parse_manifest(&format!(
            "[package]\nname=\"a\"\nversion=\"0.1.0\"\n[dependencies]\n{line}\n"
        ))
    };
    assert!(with("std = { git = \"x\", version = \"1\" }").is_err());
    assert!(with("1bad = { git = \"x\", version = \"1\" }").is_err());
    assert!(with("ok = { git = \"\", version = \"1\" }").is_err());
    assert!(with("ok = { git = \"github.com/a/b\", version = \"nope\" }").is_err());
    assert!(with("ok = { git = \"github.com/a/b\", version = \"1\", package = \"a::::b\" }").is_err());
    assert!(with("ok = { git = \"github.com/a/b\", version = \"1\", extra = \"z\" }").is_err());
}

#[test]
fn lockfile_round_trip() {
    let lock = Lockfile { packages: vec![pin("mylib", None)] };
    let text = serialize_lockfile(&lock);
    let again = parse_lockfile(&text).unwrap();
    assert_eq!(
        again.packages.iter().map(shown).collect::<Vec<_>>(),
        lock.packages.iter().map(shown).collect::<Vec<_>>()
    );
    assert!(parse_lockfile("").unwrap().packages.is_empty());
}

#[test]
fn manifest_serialization_keeps_identity_and_sorts_deps() {
    let mut dependencies = NameMap::new();
    dependencies.insert("zlib".to_string(), dep("github.com/a/z", "1.0.0", None));
    dependencies.insert("alib".to_string(), dep("github.com/a/b", "2.0.0", Some("a::b")));
    let text = serialize_manifest(&Manifest {
        name: "app".to_string(),
        version: "0.1.0".to_string(),
        dependencies,
    });
    let reparsed = parse_manifest(&text).unwrap();
    assert_eq!(reparsed.name, "app");
    assert_eq!(reparsed.dependencies.len(), 2);
    assert!(text.find("alib").unwrap() < text.find("zlib").unwrap());
    // And it reads back whole.
    assert_eq!(reparsed.version, "0.1.0");
    assert_eq!(
        parts(reparsed.dependencies.get("zlib").unwrap()),
        ("github.com/a/z", "1.0.0", None)
    );
    assert_eq!(
        parts(reparsed.dependencies.get("alib").unwrap()),
        ("github.com/a/b", "2.0.0", Some("a::b"))
    );
}

#[test]
fn normalizes_git_sources() {
    assert_eq!(normalize_git_source("https://github.com/a/b.git"), "github.com/a/b");
    assert_eq!(normalize_git_source("  github.com/a/b/ "), "github.com/a/b");
}

#[test]
fn local_sources_move_under_local() {
    for (raw, normal) in [
        ("/srv/libs/x", "local/srv/libs/x"),
        ("file:///srv/libs/x.git/", "local/srv/libs/x"),
        ("C:\\libs\\x", "local/__drive_C/libs/x"),
        ("d:/libs/x/", "local/__drive_d/libs/x"),
        ("local/C:/libs/x", "local/__drive_C/libs/x"),
        ("\\\\host\\share\\x", "local/__unc__/host/share/x"),
        ("local/srv/x", "local/srv/x"),
        ("owner/repo", "owner/repo"),
        ("gitlab.com/repo", "gitlab.com/repo"),
        ("https://host/repo", "host/repo"),
        ("http://x.org/a/", "x.org/a"),
        ("single", "single"),
        ("  ", ""),
        ("///", ""),
    ] {
        assert_eq!(normalize_git_source(raw), normal, "{raw}");
    }
}

#[test]
fn manifests_keep_host_and_path() {
    let text = "name = \"a\"\nversion = \"1\"\n[dependencies]\nr = { git = \"git/repo\", version = \"1\" }\ns = \"https://git/repo\"\n";
    let m = parse_manifest(text).unwrap();
    assert_eq!(m.dependencies.get("r").unwrap().git, "git/repo");
    assert_eq!(m.dependencies.get("s").unwrap().git, "git/repo");
}

#[test]
fn sources_lead_back_to_what_git_clones() {
    assert_eq!(clone_url("github.com/o/r"), "https://github.com/o/r");
    assert_eq!(clone_url("local/srv/libs/x"), "/srv/libs/x");
    assert_eq!(clone_url("local/__drive_C/libs/x"), "C:/libs/x");
    assert_eq!(clone_url("local/__unc__/host/share"), "//host/share");
    assert_eq!(clone_url(&normalize_git_source("/srv/libs/x")), "/srv/libs/x");
}

#[test]
fn import_names_come_from_the_last_segment() {
    assert_eq!(derive_dep_name("github.com/o/My-Lib"), "my_lib");
    assert_eq!(derive_dep_name("r"), "r");
    assert_eq!(derive_dep_name("local/a/B-C-D2"), "b_c_d2");
}

#[test]
fn dependency_names_and_paths() {
    for good in ["a", "_", "_a1", "Lib2", "standard"] {
        assert!(is_valid_dep_name(good), "{good}");
    }
    for bad in ["", "std", "1a", "a-b", "a.b", "ä", " a"] {
        assert!(!is_valid_dep_name(bad), "{bad}");
    }
    assert!(is_valid_package_path("tool::cli"));
    assert!(is_valid_package_path("a"));
    for bad in ["", "a::", "::a", "a:b", "a::::b", "a::std"] {
        assert!(!is_valid_package_path(bad), "{bad}");
    }
}

#[test]
fn version_requests() {
    for good in ["latest", "*", " ^1.2 ", "1.2.3", ">=1.0, <2", "=1.0.0", "~1"] {
        assert!(is_valid_version_req(good), "{good}");
    }
    for bad in ["nope", "1.2.3.4", "v1", "latest!"] {
        assert!(!is_valid_version_req(bad), "{bad}");
    }
    assert!(is_valid_trimmed_req("latest", false));
    assert!(is_valid_trimmed_req("anything", true));
    assert!(!is_valid_trimmed_req("anything", false));
}

#[test]
fn every_manifest_error_has_its_text() {
    assert!(error_of("name = ").starts_with("malformed hella.toml: "));
    assert_eq!(error_of("version = \"1\"\n"), "hella.toml must define `name` and `version`");
    assert_eq!(error_of("name = \" \"\nversion = \"1\"\n"), "hella.toml `name` must not be empty");
    assert_eq!(error_of("name = \"a\"\nversion = \"\"\n"), "hella.toml `version` must not be empty");
    assert_eq!(
        error_of("name = \"a\"\nversion = \"1\"\ndependencies = 3\n"),
        "hella.toml `[dependencies]` must be a table"
    );
    let with = |line: &str| {
        error_of(&format!("name = \"a\"\nversion = \"1\"\n[dependencies]\n{line}\n"))
    };
    assert_eq!(
        with("std = \"x\""),
        "invalid dependency name `std` (expected [_a-zA-Z][_a-zA-Z0-9]*, `std` is reserved)"
    );
    assert_eq!(with("a = \" \""), "dependency `a` has an empty `git` source");
    assert_eq!(
        with("a = 3"),
        "dependency `a` must be a table like `{ git = \"...\", version = \"...\" }`"
    );
    assert_eq!(
        with("a = { version = \"1\" }"),
        "dependency `a` must define `git` (e.g. `github.com/owner/repo`)"
    );
    assert_eq!(with("a = { git = \"/\" }"), "dependency `a` has an empty `git` source");
    assert_eq!(
        with("a = { git = \"x\", version = \"nope\" }"),
        "dependency `a` has invalid version `nope` (expected semver like `1.2.3` or `latest`)"
    );
    assert_eq!(
        with("a = { git = \"x\", package = [] }"),
        "dependency `a` has a non-string `package` sub-path"
    );
    assert_eq!(
        with("a = { git = \"x\", package = \"9\" }"),
        "dependency `a` has invalid `package` sub-path `9` (expected `mod` or `a::b`)"
    );
    assert_eq!(
        with("a = { git = \"x\", zz = 1, yy = 2 }"),
        "dependency `a` has unknown key `yy` (expected `git`, `version`, `package`)"
    );
    let io = ManifestError::Io { path: "p".to_string(), source: "gone".to_string() };
    assert_eq!(io.message(), "failed to read p: gone");
}

#[test]
fn section_identity_wins_over_top_level_keys() {
    let m = parse_manifest("name = \"old\"\nversion = \"1\"\n[package]\nname = \"new\"\n").unwrap();
    assert_eq!((m.name.as_str(), m.version.as_str()), ("new", "1"));
    // Scalars of other kinds count as text.
    let m = parse_manifest("name = true\nversion = 2\nextra = 1979-05-27\n").unwrap();
    assert_eq!((m.name.as_str(), m.version.as_str()), ("true", "2"));
    let m = parse_manifest("name = \"n\"\nversion = 1.5\n").unwrap();
    assert_eq!(m.version, "1.5");
}

#[test]
fn version_answers_are_taken_as_given() {
    let doc = read_toml(
        "name = \"a\"\nversion = \"1\"\n[dependencies]\nx = { git = \"h.org/x\", version = \"odd\" }\n",
    )
    .unwrap();
    let m = manifest_from_toml(&doc, &vec![true]).unwrap();
    assert_eq!(parts(m.dependencies.get("x").unwrap()), ("h.org/x", "odd", None));
    assert!(manifest_from_toml(&doc, &vec![false]).is_err());
    assert!(manifest_from_toml(&doc, &vec![]).is_err());
    assert!(manifest_from_toml(&TomlValue::Boolean(true), &vec![]).is_err());
}

#[test]
fn serialized_forms_are_exact() {
    let mut dependencies = NameMap::new();
    dependencies.insert("b".to_string(), dep("h/b", "1", Some("b::c")));
    dependencies.insert("a".to_string(), dep("h/a", "latest", None));
    let m = Manifest { name: "n".to_string(), version: "0.1.0".to_string(), dependencies };
    assert_eq!(
        serialize_manifest(&m),
        "[package]\nname = \"n\"\nversion = \"0.1.0\"\n\n[dependencies]\n\
         a = { git = \"h/a\", version = \"latest\" }\n\
         b = { git = \"h/b\", version = \"1\", package = \"b::c\" }\n"
    );
    let lock = Lockfile { packages: vec![pin("z", Some("p")), pin("a", None)] };
    assert_eq!(
        serialize_lockfile(&lock),
        "# Generated by `hella add` — do not edit by hand.\n\
         \n[[package]]\nname = \"a\"\ngit = \"github.com/repo/lib\"\nversion = \"1.2.3\"\nrev = \"abc123\"\n\
         \n[[package]]\nname = \"z\"\ngit = \"github.com/repo/lib\"\nversion = \"1.2.3\"\nrev = \"abc123\"\npackage = \"p\"\n"
    );
    let read = parse_lockfile(&serialize_lockfile(&lock)).unwrap();
    assert_eq!(
        read.packages.iter().map(shown).collect::<Vec<_>>(),
        vec![shown(&pin("a", None)), shown(&pin("z", Some("p")))]
    );
    assert!(parse_lockfile(&serialize_lockfile(&Lockfile { packages: vec![] }))
        .unwrap()
        .packages
        .is_empty());
}

#[test]
fn every_lockfile_error_has_its_text() {
    let err = |text: &str| match parse_lockfile(text) {
        Ok(_) => panic!("accepted: {text}"),
        Err(e) => e.message(),
    };
    assert!(err("[[package").starts_with("malformed hella.lock: "));
    assert_eq!(err("package = 1\n"), "malformed hella.lock: `package` must be a list");
    assert_eq!(err("package = [1]\n"), "malformed hella.lock: `package` entries must be tables");
    assert_eq!(err("[[package]]\n"), "malformed hella.lock: package entry missing `name`");
    assert_eq!(
        err("[[package]]\nname = \"9\"\n"),
        "malformed hella.lock: invalid package name `9`"
    );
    assert_eq!(
        err("[[package]]\nname = \"a\"\n"),
        "malformed hella.lock: package entry missing `git`"
    );
    assert_eq!(
        err("[[package]]\nname = \"a\"\ngit = \"g\"\n"),
        "malformed hella.lock: package entry missing `version`"
    );
    assert_eq!(
        err("[[package]]\nname = \"a\"\ngit = \"g\"\nversion = \"1\"\n"),
        "malformed hella.lock: package entry missing `rev`"
    );
    match lockfile_from_toml(&TomlValue::Integer(1)) {
        Err(e) => assert_eq!(e.message(), "malformed hella.lock: expected TOML table"),
        Ok(_) => panic!("a number is no lockfile"),
    }
    assert!(parse_lockfile("other = 1\n").unwrap().packages.is_empty());
}

#[test]
fn lockfile_entries_come_by_name() {
    let entry = |n: &str, v: &str| {
        format!("[[package]]\nname = \"{n}\"\ngit = \"g\"\nversion = \"{v}\"\nrev = \"r\"\n")
    };
    let text = format!("{}{}{}", entry("b", "1"), entry("a", "2"), entry("b", "3"));
    let lock = parse_lockfile(&text).unwrap();
    let got: Vec<(&str, &str)> =
        lock.packages.iter().map(|p| (p.name.as_str(), p.version.as_str())).collect();
    assert_eq!(got, [("a", "2"), ("b", "1"), ("b", "3")]);
}

#[test]
fn slot_markers_read_back() {
    assert_eq!(slot_marker_name(), ".hella-slot");
    let text = serialize_slot_marker("github.com/o/r", "1.0.0", "abc");
    assert_eq!(text, "git = \"github.com/o/r\"\nversion = \"1.0.0\"\nrev = \"abc\"\n");
    let m = parse_slot_marker(&text).unwrap();
    assert_eq!((m.git.as_str(), m.version.as_str(), m.rev.as_str()), ("github.com/o/r", "1.0.0", "abc"));
    assert_eq!(
        parse_slot_marker("git = \"g\"\nrev = \"r\"\n").unwrap_err().message(),
        "malformed slot marker: missing `version`"
    );
    assert!(parse_slot_marker("git =").unwrap_err().message().starts_with("malformed slot marker: "));
}

#[test]
fn toml_values_keep_their_kinds() {
    let doc = read_toml("b = 1.5\na = [1, true]\nd = 1979-05-27\nc = { z = \"t\", y = -7 }\n").unwrap();
    let TomlValue::Table(t) = doc else { panic!("no table") };
    let keys: Vec<&str> = t.iter().map(|e| e.0.as_str()).collect();
    assert_eq!(keys, ["a", "b", "c", "d"]);
    assert!(matches!(&t[0].1, TomlValue::List(l) if l.len() == 2));
    assert!(matches!(&t[1].1, TomlValue::Number(n) if n == "1.5"));
    assert!(matches!(&t[2].1, TomlValue::Table(i) if i[0].0 == "y" && i[1].0 == "z"));
    assert!(matches!(&t[3].1, TomlValue::Datetime));
}

#[test]
fn maps_keep_their_names_in_order() {
    let mut m: NameMap<u32> = NameMap::new();
    for (k, v) in [("b", 1), ("a", 2), ("c", 3), ("b", 4)] {
        m.insert(k.to_string(), v);
    }
    let all: Vec<(&str, u32)> =
        (0..m.len()).map(|i| (m.key_at(i).as_str(), *m.value_at(i))).collect();
    assert_eq!(all, [("a", 2), ("b", 4), ("c", 3)]);
    assert_eq!(m.get("b"), Some(&4));
    m.remove("a");
    m.remove("nope");
    assert!(!m.contains_key("a"));
    assert_eq!(m.len(), 2);
}
