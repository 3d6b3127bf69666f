//! Project manifest (`hella.toml`) and lockfile (`hella.lock`).
//!
//! The key of each dependency is its short import name: the name used in
//! `import mylib`. It maps to a git source and a version request; the lockfile
//! pins the exact version and commit that a request resolved to.
//!
//! The identity of a project stands in a `[package]` section or, in the older
//! form, at the top level:
//!
//! ```toml
//! [package]
//! name = "myapp"
//! version = "0.1.0"
//!
//! [dependencies]
//! mylib = { git = "github.com/repo/lib", version = "1.2.3" }
//! tool = { git = "github.com/repo/tool", version = "0.4.0", package = "tool::cli" }
//! ```
pub mod laws;
pub mod lock;
pub mod marker;
pub mod write;

use crate::manifest::write::{law_manifest_reads_back, lemma_manifest_doc_plain, writable, written};
use crate::names::{lemma_mapped_put, mapped, put, NameMap};
use crate::source::normal_source;
use crate::text::{
    chars_of, is_alpha, is_alpha_char, is_digit, is_digit_char, opt_text, rows, same, split,
    split_chars, trim, trim_str,
};
use crate::tomldoc::{
    entries, get, get_scalar, lookup, lookup_string, read_toml, read_tree, reads_back, scalar,
    toml_document, tree, value_to_string, TomlValue, Tree,
};
use crate::versions::valid_req;
use vstd::prelude::*;
use vstd::string::*;

pub use crate::manifest::lock::{parse_lockfile, serialize_lockfile};
pub use crate::manifest::marker::{
    parse_slot_marker, serialize_slot_marker, slot_marker_name, Mark, SlotMarker,
};
pub use crate::manifest::write::serialize_manifest;
pub use crate::source::{clone_url, derive_dep_name, normalize_git_source};
pub use crate::versions::is_valid_version_req;

verus! {

/// A library dependency: a git source plus a version request. `package` selects
/// a sub-path inside the repository (`tool::cli`) when the module root is not
/// the repository root.
#[derive(Debug)]
pub struct Dependency {
    pub git: String,
    pub version: String,
    pub package: Option<String>,
}

/// A parsed project manifest.
#[derive(Debug)]
pub struct Manifest {
    pub name: String,
    pub version: String,
    pub dependencies: NameMap<Dependency>,
}

/// A pinned dependency: the exact version and commit of a request.
#[derive(Debug)]
pub struct LockedDependency {
    pub name: String,
    pub git: String,
    pub version: String,
    pub rev: String,
    pub package: Option<String>,
}

/// The exact pins of a project's dependency closure.
#[derive(Debug)]
pub struct Lockfile {
    pub packages: Vec<LockedDependency>,
}

/// Why a manifest or lockfile cannot be used.
#[derive(Debug)]
pub enum ManifestError {
    Invalid(String),
    /// The file at `path` could not be read.
    Io { path: String, source: String },
}

// ---------------------------------------------------------------------------
// Models
// ---------------------------------------------------------------------------

#[verifier::ext_equal]
pub struct Dep {
    pub git: Seq<char>,
    pub version: Seq<char>,
    pub package: Option<Seq<char>>,
}

#[verifier::ext_equal]
pub struct Project {
    pub name: Seq<char>,
    pub version: Seq<char>,
    pub deps: Seq<(Seq<char>, Dep)>,
}

#[verifier::ext_equal]
pub struct Pin {
    pub name: Seq<char>,
    pub git: Seq<char>,
    pub version: Seq<char>,
    pub rev: Seq<char>,
    pub package: Option<Seq<char>>,
}

impl View for Dependency {
    type V = Dep;

    open spec fn view(&self) -> Dep {
        Dep { git: self.git@, version: self.version@, package: opt_text(self.package) }
    }
}

/// The dependencies of a map, in ascending order of their names.
pub open spec fn deps(s: Seq<(Seq<char>, Dependency)>) -> Seq<(Seq<char>, Dep)> {
    mapped(s, |x: Dependency| x@)
}

impl View for Manifest {
    type V = Project;

    open spec fn view(&self) -> Project {
        Project {
            name: self.name@,
            version: self.version@,
            deps: deps(self.dependencies.pairs()),
        }
    }
}

impl View for LockedDependency {
    type V = Pin;

    open spec fn view(&self) -> Pin {
        Pin {
            name: self.name@,
            git: self.git@,
            version: self.version@,
            rev: self.rev@,
            package: opt_text(self.package),
        }
    }
}

pub open spec fn pins(s: Seq<LockedDependency>) -> Seq<Pin> {
    Seq::new(s.len(), |i: int| s[i]@)
}

impl View for Lockfile {
    type V = Seq<Pin>;

    open spec fn view(&self) -> Seq<Pin> {
        pins(self.packages@)
    }
}

impl ManifestError {
    pub open spec fn text(&self) -> Seq<char> {
        match self {
            ManifestError::Invalid(m) => m@,
            ManifestError::Io { path, source } => "failed to read "@ + path@ + ": "@ + source@,
        }
    }

    /// What to tell the user.
    pub fn message(&self) -> (r: String)
        ensures
            r@ == self.text(),
    {
        match self {
            ManifestError::Invalid(m) => m.clone(),
            ManifestError::Io { path, source } => {
                let mut out = String::from_str("failed to read ");
                out.append(path.as_str());
                out.append(": ");
                out.append(source.as_str());
                out
            },
        }
    }
}

// ---------------------------------------------------------------------------
// Names
// ---------------------------------------------------------------------------

pub open spec fn name_start(c: char) -> bool {
    c == '_' || is_alpha(c)
}

pub open spec fn name_part(c: char) -> bool {
    c == '_' || is_alpha(c) || is_digit(c)
}

/// `[_a-zA-Z][_a-zA-Z0-9]*`, except `std`.
pub open spec fn valid_name(s: Seq<char>) -> bool {
    &&& s.len() > 0
    &&& s != "std"@
    &&& name_start(s[0])
    &&& forall|i: int| 0 < i < s.len() ==> name_part(#[trigger] s[i])
}

/// One or more valid names with `::` between them.
pub open spec fn valid_path(s: Seq<char>) -> bool {
    s.len() > 0 && forall|i: int|
        0 <= i < split(s, "::"@).len() ==> valid_name(#[trigger] split(s, "::"@)[i])
}

/// Whether a name can be imported: `[_a-zA-Z][_a-zA-Z0-9]*`, where `std` is
/// reserved for the standard library.
pub fn is_valid_dep_name(name: &str) -> (r: bool)
    ensures
        r == valid_name(name@),
{
    let s = chars_of(name);
    is_valid_name(&s)
}

/// Whether the characters make a name that can be imported.
pub fn is_valid_name(s: &Vec<char>) -> (r: bool)
    ensures
        r == valid_name(s@),
{
    if s.len() == 0 || crate::text::is_text(s, "std") {
        return false;
    }
    if !(s[0] == '_' || is_alpha_char(s[0])) {
        return false;
    }
    let mut i: usize = 1;
    while i < s.len()
        invariant
            1 <= i <= s@.len(),
            forall|j: int| 0 < j < i ==> name_part(#[trigger] s@[j]),
        decreases s@.len() - i,
    {
        if !(s[i] == '_' || is_alpha_char(s[i]) || is_digit_char(s[i])) {
            return false;
        }
        i += 1;
    }
    true
}

/// Whether a `package` sub-path is one or more names with `::` between them.
pub fn is_valid_package_path(path: &str) -> (r: bool)
    ensures
        r == valid_path(path@),
{
    let s = chars_of(path);
    if s.len() == 0 {
        return false;
    }
    proof {
        reveal_strlit("::");
    }
    let parts = split_chars(&s, "::");
    let mut i: usize = 0;
    while i < parts.len()
        invariant
            i <= parts@.len(),
            rows(parts@) == split(path@, "::"@),
            forall|j: int| 0 <= j < i ==> valid_name(#[trigger] split(path@, "::"@)[j]),
        decreases parts@.len() - i,
    {
        assert(rows(parts@)[i as int] == parts@[i as int]@);
        if !is_valid_name(&parts[i]) {
            return false;
        }
        i += 1;
    }
    true
}

// ---------------------------------------------------------------------------
// Manifest
// ---------------------------------------------------------------------------

/// The version request of a dependency value: `latest` where it names none.
pub open spec fn requested(v: Tree) -> Seq<char> {
    match v {
        Tree::Table(t) => match get_scalar(t, "version"@) {
            Some(s) => trim(s),
            None => "latest"@,
        },
        _ => "latest"@,
    }
}

/// A key that a dependency may have.
pub open spec fn dep_key(k: Seq<char>) -> bool {
    k == "git"@ || k == "version"@ || k == "package"@
}

/// Position of the first key that a dependency may not have, from `i` on.
pub open spec fn first_unknown(t: Seq<(Seq<char>, Tree)>, i: int) -> Option<int>
    decreases t.len() - i,
{
    if i < 0 || i >= t.len() {
        None
    } else if !dep_key(t[i].0) {
        Some(i)
    } else {
        first_unknown(t, i + 1)
    }
}

/// The dependency `name = v`, given whether its version request is valid.
pub open spec fn dependency(name: Seq<char>, v: Tree, valid: bool) -> Result<Dep, Seq<char>> {
    if !valid_name(name) {
        Err(
            "invalid dependency name `"@ + name
                + "` (expected [_a-zA-Z][_a-zA-Z0-9]*, `std` is reserved)"@,
        )
    } else {
        match v {
            Tree::Text(s) => if normal_source(s).len() == 0 {
                Err("dependency `"@ + name + "` has an empty `git` source"@)
            } else {
                Ok(Dep { git: normal_source(s), version: "latest"@, package: None })
            },
            Tree::Table(t) => table_dependency(name, t, requested(v), valid),
            _ => Err(
                "dependency `"@ + name
                    + "` must be a table like `{ git = \"...\", version = \"...\" }`"@,
            ),
        }
    }
}

/// The dependency that a table describes.
pub open spec fn table_dependency(
    name: Seq<char>,
    t: Seq<(Seq<char>, Tree)>,
    version: Seq<char>,
    valid: bool,
) -> Result<Dep, Seq<char>> {
    match get_scalar(t, "git"@) {
        None => Err(
            "dependency `"@ + name + "` must define `git` (e.g. `github.com/owner/repo`)"@,
        ),
        Some(raw) => if normal_source(raw).len() == 0 {
            Err("dependency `"@ + name + "` has an empty `git` source"@)
        } else if !valid {
            Err(
                "dependency `"@ + name + "` has invalid version `"@ + version
                    + "` (expected semver like `1.2.3` or `latest`)"@,
            )
        } else {
            match sub_path(name, t) {
                Err(m) => Err(m),
                Ok(package) => match first_unknown(t, 0) {
                    Some(i) => Err(
                        "dependency `"@ + name + "` has unknown key `"@ + t[i].0
                            + "` (expected `git`, `version`, `package`)"@,
                    ),
                    None => Ok(Dep { git: normal_source(raw), version, package }),
                },
            }
        },
    }
}

/// The `package` sub-path of a dependency table.
pub open spec fn sub_path(name: Seq<char>, t: Seq<(Seq<char>, Tree)>) -> Result<
    Option<Seq<char>>,
    Seq<char>,
> {
    match get(t, "package"@) {
        None => Ok(None),
        Some(x) => match scalar(x) {
            None => Err("dependency `"@ + name + "` has a non-string `package` sub-path"@),
            Some(p) => if valid_path(p) {
                Ok(Some(p))
            } else {
                Err(
                    "dependency `"@ + name + "` has invalid `package` sub-path `"@ + p
                        + "` (expected `mod` or `a::b`)"@,
                )
            },
        },
    }
}

/// The first `n` entries of `[dependencies]`, or the first error among them;
/// `valid` says which version requests are valid, a missing answer being no.
pub open spec fn dependencies(t: Seq<(Seq<char>, Tree)>, valid: Seq<bool>, n: int) -> Result<
    Seq<(Seq<char>, Dep)>,
    Seq<char>,
>
    decreases n,
{
    if n <= 0 {
        Ok(Seq::empty())
    } else {
        match dependencies(t, valid, n - 1) {
            Err(m) => Err(m),
            Ok(done) => match dependency(
                t[n - 1].0,
                t[n - 1].1,
                n - 1 < valid.len() && valid[n - 1],
            ) {
                Err(m) => Err(m),
                Ok(d) => Ok(put(done, t[n - 1].0, d)),
            },
        }
    }
}

/// The `[dependencies]` entries of a document.
pub open spec fn dep_entries(v: Tree) -> Seq<(Seq<char>, Tree)> {
    match v {
        Tree::Table(t) => match get(t, "dependencies"@) {
            Some(Tree::Table(d)) => d,
            _ => Seq::empty(),
        },
        _ => Seq::empty(),
    }
}

/// An identity key: from `[package]`, else from the top level.
pub open spec fn identity(t: Seq<(Seq<char>, Tree)>, key: Seq<char>) -> Option<Seq<char>> {
    let inner = match get(t, "package"@) {
        Some(Tree::Table(p)) => get_scalar(p, key),
        _ => None,
    };
    match inner {
        Some(s) => Some(s),
        None => get_scalar(t, key),
    }
}

/// The manifest in a document, given which version requests are valid.
pub open spec fn project(v: Tree, valid: Seq<bool>) -> Result<Project, Seq<char>> {
    match v {
        Tree::Table(t) => match (identity(t, "name"@), identity(t, "version"@)) {
            (Some(name), Some(version)) => if trim(name).len() == 0 {
                Err("hella.toml `name` must not be empty"@)
            } else if trim(version).len() == 0 {
                Err("hella.toml `version` must not be empty"@)
            } else if get(t, "dependencies"@) is Some && !(get(t, "dependencies"@)->0 is Table) {
                Err("hella.toml `[dependencies]` must be a table"@)
            } else {
                match dependencies(dep_entries(v), valid, dep_entries(v).len() as int) {
                    Err(m) => Err(m),
                    Ok(deps) => Ok(Project { name, version, deps }),
                }
            },
            _ => Err("hella.toml must define `name` and `version`"@),
        },
        _ => Err("malformed hella.toml: expected TOML table"@),
    }
}

/// Which version requests of the entries are valid.
pub open spec fn validity(t: Seq<(Seq<char>, Tree)>) -> Seq<bool> {
    Seq::new(t.len(), |i: int| valid_req(requested(t[i].1)))
}

/// The manifest in a text.
pub open spec fn manifest_text(text: Seq<char>) -> Result<Project, Seq<char>> {
    match toml_document(text) {
        Err(m) => Err("malformed hella.toml: "@ + m),
        Ok(v) => project(v, validity(dep_entries(v))),
    }
}

/// A result with its manifest and its error as text.
pub open spec fn project_result(r: Result<Manifest, ManifestError>) -> Result<Project, Seq<char>> {
    match r {
        Ok(m) => Ok(m@),
        Err(e) => Err(e.text()),
    }
}

pub open spec fn dep_result(r: Result<Dependency, ManifestError>) -> Result<Dep, Seq<char>> {
    match r {
        Ok(d) => Ok(d@),
        Err(e) => Err(e.text()),
    }
}

pub(crate) fn say3(a: &str, b: &str, c: &str) -> (r: String)
    ensures
        r@ == a@ + b@ + c@,
{
    let mut out = String::from_str(a);
    out.append(b);
    out.append(c);
    out
}

pub(crate) fn say5(a: &str, b: &str, c: &str, d: &str, e: &str) -> (r: String)
    ensures
        r@ == a@ + b@ + c@ + d@ + e@,
{
    let mut out = say3(a, b, c);
    out.append(d);
    out.append(e);
    out
}

fn find_unknown(t: &Vec<(String, TomlValue)>) -> (r: Option<usize>)
    ensures
        r is Some <==> first_unknown(entries(t@), 0) is Some,
        r matches Some(i) ==> i < t@.len() && first_unknown(entries(t@), 0) == Some(i as int),
{
    let mut i: usize = 0;
    while i < t.len()
        invariant
            i <= t@.len(),
            first_unknown(entries(t@), 0) == first_unknown(entries(t@), i as int),
        decreases t@.len() - i,
    {
        let k = t[i].0.as_str();
        if !(same(k, "git") || same(k, "version") || same(k, "package")) {
            return Some(i);
        }
        i += 1;
    }
    None
}

/// The version request of a dependency value.
fn request_of(v: &TomlValue) -> (r: String)
    ensures
        r@ == requested(tree(*v)),
{
    if let TomlValue::Table(t) = v {
        if let Some(s) = lookup_string(t, "version") {
            return trim_str(s.as_str());
        }
    }
    String::from_str("latest")
}

fn parse_sub_path(name: &str, t: &Vec<(String, TomlValue)>) -> (r: Result<
    Option<String>,
    ManifestError,
>)
    ensures
        match r {
            Ok(p) => sub_path(name@, entries(t@)) == Ok::<Option<Seq<char>>, Seq<char>>(opt_text(p)),
            Err(e) => sub_path(name@, entries(t@)) == Err::<Option<Seq<char>>, Seq<char>>(e.text()),
        },
{
    match lookup(t, "package") {
        None => Ok(None),
        Some(v) => match value_to_string(v) {
            None => Err(
                ManifestError::Invalid(
                    say3("dependency `", name, "` has a non-string `package` sub-path"),
                ),
            ),
            Some(p) => {
                if is_valid_package_path(p.as_str()) {
                    Ok(Some(p))
                } else {
                    Err(
                        ManifestError::Invalid(
                            say5(
                                "dependency `",
                                name,
                                "` has invalid `package` sub-path `",
                                p.as_str(),
                                "` (expected `mod` or `a::b`)",
                            ),
                        ),
                    )
                }
            },
        },
    }
}

/// Reads one `[dependencies]` entry, given whether its version request is
/// valid.
pub fn parse_dependency(name: &str, v: &TomlValue, valid: bool) -> (r: Result<
    Dependency,
    ManifestError,
>)
    ensures
        dep_result(r) == dependency(name@, tree(*v), valid),
{
    if !is_valid_dep_name(name) {
        return Err(
            ManifestError::Invalid(
                say3(
                    "invalid dependency name `",
                    name,
                    "` (expected [_a-zA-Z][_a-zA-Z0-9]*, `std` is reserved)",
                ),
            ),
        );
    }
    let table = match v {
        TomlValue::Table(t) => t,
        TomlValue::Text(s) => {
            let git = normalize_git_source(s.as_str());
            if is_empty(&git) {
                return Err(
                    ManifestError::Invalid(
                        say3("dependency `", name, "` has an empty `git` source"),
                    ),
                );
            }
            return Ok(Dependency { git, version: String::from_str("latest"), package: None });
        },
        _ => {
            return Err(
                ManifestError::Invalid(
                    say3(
                        "dependency `",
                        name,
                        "` must be a table like `{ git = \"...\", version = \"...\" }`",
                    ),
                ),
            );
        },
    };
    let raw = match lookup_string(table, "git") {
        Some(s) => s,
        None => {
            return Err(
                ManifestError::Invalid(
                    say3(
                        "dependency `",
                        name,
                        "` must define `git` (e.g. `github.com/owner/repo`)",
                    ),
                ),
            );
        },
    };
    let git = normalize_git_source(raw.as_str());
    if is_empty(&git) {
        return Err(
            ManifestError::Invalid(say3("dependency `", name, "` has an empty `git` source")),
        );
    }
    let version = request_of(v);
    if !valid {
        return Err(
            ManifestError::Invalid(
                say5(
                    "dependency `",
                    name,
                    "` has invalid version `",
                    version.as_str(),
                    "` (expected semver like `1.2.3` or `latest`)",
                ),
            ),
        );
    }
    let package = match parse_sub_path(name, table) {
        Ok(p) => p,
        Err(e) => {
            return Err(e);
        },
    };
    if let Some(i) = find_unknown(table) {
        return Err(
            ManifestError::Invalid(
                say5(
                    "dependency `",
                    name,
                    "` has unknown key `",
                    table[i].0.as_str(),
                    "` (expected `git`, `version`, `package`)",
                ),
            ),
        );
    }
    Ok(Dependency { git, version, package })
}

pub(crate) fn is_empty(s: &String) -> (r: bool)
    ensures
        r == (s@.len() == 0),
{
    chars_of(s.as_str()).len() == 0
}

pub(crate) proof fn lemma_deps_put(s: Seq<(Seq<char>, Dependency)>, k: Seq<char>, d: Dependency)
    ensures
        deps(put(s, k, d)) == put(deps(s), k, d@),
{
    lemma_mapped_put(s, |x: Dependency| x@, k, d);
}

fn parse_dependencies(t: &Vec<(String, TomlValue)>, valid: &Vec<bool>) -> (r: Result<
    NameMap<Dependency>,
    ManifestError,
>)
    ensures
        match r {
            Ok(m) => dependencies(entries(t@), valid@, t@.len() as int) == Ok::<
                Seq<(Seq<char>, Dep)>,
                Seq<char>,
            >(deps(m.pairs())),
            Err(e) => dependencies(entries(t@), valid@, t@.len() as int) == Err::<
                Seq<(Seq<char>, Dep)>,
                Seq<char>,
            >(e.text()),
        },
{
    let mut out: NameMap<Dependency> = NameMap::new();
    let mut i: usize = 0;
    assert(deps(out.pairs()) =~= Seq::<(Seq<char>, Dep)>::empty());
    while i < t.len()
        invariant
            i <= t@.len(),
            dependencies(entries(t@), valid@, i as int) == Ok::<
                Seq<(Seq<char>, Dep)>,
                Seq<char>,
            >(deps(out.pairs())),
        decreases t@.len() - i,
    {
        let ok: bool = i < valid.len() && valid[i];
        let ghost next = dependencies(entries(t@), valid@, i + 1);
        assert(entries(t@)[i as int] == (t@[i as int].0@, tree(t@[i as int].1)));
        match parse_dependency(t[i].0.as_str(), &t[i].1, ok) {
            Ok(d) => {
                proof {
                    lemma_deps_put(out.pairs(), t@[i as int].0@, d);
                }
                out.insert(t[i].0.clone(), d);
            },
            Err(e) => {
                assert(next == Err::<Seq<(Seq<char>, Dep)>, Seq<char>>(e.text()));
                proof {
                    lemma_error_stays(entries(t@), valid@, i + 1, t@.len() as int);
                }
                return Err(e);
            },
        }
        i += 1;
    }
    Ok(out)
}

proof fn lemma_error_stays(t: Seq<(Seq<char>, Tree)>, valid: Seq<bool>, m: int, n: int)
    requires
        m <= n,
        dependencies(t, valid, m) is Err,
    ensures
        dependencies(t, valid, n) == dependencies(t, valid, m),
    decreases n - m,
{
    if m < n {
        lemma_error_stays(t, valid, m, n - 1);
    }
}

/// The version request of each `[dependencies]` entry of a document, in order.
pub fn requested_versions(doc: &TomlValue) -> (r: Vec<String>)
    ensures
        r@.len() == dep_entries(tree(*doc)).len(),
        forall|i: int|
            0 <= i < r@.len() ==> (#[trigger] r@[i])@ == requested(dep_entries(tree(*doc))[i].1),
{
    let mut out: Vec<String> = Vec::new();
    if let TomlValue::Table(t) = doc {
        if let Some(TomlValue::Table(d)) = lookup(t, "dependencies") {
            let mut i: usize = 0;
            while i < d.len()
                invariant
                    i <= d@.len(),
                    dep_entries(tree(*doc)) == entries(d@),
                    out@.len() == i,
                    forall|j: int|
                        0 <= j < i ==> (#[trigger] out@[j])@ == requested(
                            dep_entries(tree(*doc))[j].1,
                        ),
                decreases d@.len() - i,
            {
                out.push(request_of(&d[i].1));
                i += 1;
            }
        }
    }
    out
}

fn identity_of(t: &Vec<(String, TomlValue)>, key: &str) -> (r: Option<String>)
    ensures
        r is Some <==> identity(entries(t@), key@) is Some,
        r matches Some(s) ==> identity(entries(t@), key@) == Some(s@),
{
    if let Some(TomlValue::Table(p)) = lookup(t, "package") {
        if let Some(s) = lookup_string(p, key) {
            return Some(s);
        }
    }
    lookup_string(t, key)
}

/// The manifest in a document, given which of its version requests are valid
/// (see [`requested_versions`]; a missing answer means no).
pub fn manifest_from_toml(doc: &TomlValue, valid: &Vec<bool>) -> (r: Result<
    Manifest,
    ManifestError,
>)
    ensures
        project_result(r) == project(tree(*doc), valid@),
{
    let table = match doc {
        TomlValue::Table(t) => t,
        _ => {
            return Err(
                ManifestError::Invalid(
                    String::from_str("malformed hella.toml: expected TOML table"),
                ),
            );
        },
    };
    let (name, version) = match (identity_of(table, "name"), identity_of(table, "version")) {
        (Some(n), Some(v)) => (n, v),
        _ => {
            return Err(
                ManifestError::Invalid(
                    String::from_str("hella.toml must define `name` and `version`"),
                ),
            );
        },
    };
    if is_empty(&trim_str(name.as_str())) {
        return Err(
            ManifestError::Invalid(String::from_str("hella.toml `name` must not be empty")),
        );
    }
    if is_empty(&trim_str(version.as_str())) {
        return Err(
            ManifestError::Invalid(String::from_str("hella.toml `version` must not be empty")),
        );
    }
    match lookup(table, "dependencies") {
        Some(TomlValue::Table(d)) => match parse_dependencies(d, valid) {
            Ok(dependencies) => Ok(Manifest { name, version, dependencies }),
            Err(e) => Err(e),
        },
        Some(_) => Err(
            ManifestError::Invalid(String::from_str("hella.toml `[dependencies]` must be a table")),
        ),
        None => {
            let m = Manifest { name, version, dependencies: NameMap::new() };
            assert(m@.deps =~= Seq::<(Seq<char>, Dep)>::empty());
            Ok(m)
        },
    }
}

/// Parses manifest text. Unknown top-level keys and unknown `[package]` keys
/// are ignored. What [`serialize_manifest`] wrote of a writable manifest is
/// that manifest again.
pub fn parse_manifest(text: &str) -> (r: Result<Manifest, ManifestError>)
    ensures
        project_result(r) == manifest_text(text@),
        forall|p: Project|
            writable(p) && text@ == #[trigger] written(p) ==> project_result(r) == Ok::<
                Project,
                Seq<char>,
            >(p),
        reads_back(text@, toml_document(text@)),
{
    let parsed = read_toml(text);
    proof {
        assert forall|p: Project| writable(p) && text@ == #[trigger] written(p) implies (
        read_tree(parsed) matches Ok(v) && project(v, validity(dep_entries(v))) == Ok::<
            Project,
            Seq<char>,
        >(p)) by {
            lemma_manifest_doc_plain(p);
            assert(reads_back(text@, read_tree(parsed)));
            law_manifest_reads_back(p, read_tree(parsed)->Ok_0);
        }
    }
    let doc = match parsed {
        Ok(v) => v,
        Err(e) => {
            let mut m = String::from_str("malformed hella.toml: ");
            m.append(e.as_str());
            return Err(ManifestError::Invalid(m));
        },
    };
    let reqs = requested_versions(&doc);
    let mut valid: Vec<bool> = Vec::new();
    let mut i: usize = 0;
    let ghost t = dep_entries(tree(doc));
    while i < reqs.len()
        invariant
            i <= reqs@.len() == t.len(),
            forall|j: int| 0 <= j < reqs@.len() ==> (#[trigger] reqs@[j])@ == requested(t[j].1),
            valid@ =~= validity(t).take(i as int),
        decreases reqs@.len() - i,
    {
        valid.push(is_valid_version_req(reqs[i].as_str()));
        i += 1;
    }
    assert(valid@ =~= validity(t));
    manifest_from_toml(&doc, &valid)
}

} // verus!
