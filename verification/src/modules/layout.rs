//! Where things are kept: the Hella home, dependency slots, project roots and
//! the ordered list of directories that imports are searched in.
use crate::manifest::{
    deps, is_valid_dep_name, pins, valid_name, Dep, LockedDependency, Lockfile, Manifest, Pin,
};
use crate::paths::{
    extend_paths, has_path, join_path, joined, push_path, same_path, with_paths,
};
use crate::source::{normal_source, normalize_git_source};
use crate::text::{
    chars_of, contains_text, drop_end, drop_end_chars, drop_start, drop_start_chars, has_char,
    is_alpha, is_alpha_char, is_digit, is_digit_char, opt_text, rows, same, split, split_chars,
    string_of, texts, trim, trim_str, Class,
};
use vstd::prelude::*;
use vstd::string::*;

verus! {

// ---------------------------------------------------------------------------
// Home
// ---------------------------------------------------------------------------

/// The text of an optional string slice.
pub open spec fn opt_str(v: Option<&str>) -> Option<Seq<char>> {
    match v {
        Some(s) => Some(s@),
        None => None,
    }
}

pub open spec fn under(home: Option<Seq<char>>, dir: Seq<char>) -> Option<Seq<char>> {
    match home {
        Some(h) => Some(joined(h, dir)),
        None => None,
    }
}

/// A home override counts unless it is blank; else `.hella` in the user's home.
pub open spec fn home_dir(chosen: Option<Seq<char>>, user_home: Option<Seq<char>>) -> Option<
    Seq<char>,
> {
    match chosen {
        Some(h) if trim(h).len() > 0 => Some(h),
        _ => under(user_home, ".hella"@),
    }
}

/// The Hella home: parent of the standard library `lib/`, the package cache
/// `pkg/`, the tool installs `bin/` and the scratch area `cache/`.
/// `chosen` is the value of `HELLA_HOME`, `user_home` the user's home
/// directory on systems that have one.
pub fn hella_home(chosen: Option<&str>, user_home: Option<&str>) -> (r: Option<String>)
    ensures
        opt_text(r) == home_dir(opt_str(chosen), opt_str(user_home)),
{
    if let Some(h) = chosen {
        if chars_of(trim_str(h).as_str()).len() > 0 {
            return Some(String::from_str(h));
        }
    }
    child(user_home, ".hella")
}

fn child(home: Option<&str>, dir: &str) -> (r: Option<String>)
    ensures
        opt_text(r) == under(opt_str(home), dir@),
{
    match home {
        Some(h) => Some(join_path(h, dir)),
        None => None,
    }
}

/// Standard library home, owned by `hella setup`: third-party sources never go
/// there.
pub fn hella_lib_dir(home: Option<&str>) -> (r: Option<String>)
    ensures
        opt_text(r) == under(opt_str(home), "lib"@),
{
    child(home, "lib")
}

/// Third-party package cache: one immutable slot per version.
pub fn hella_pkg_dir(home: Option<&str>) -> (r: Option<String>)
    ensures
        opt_text(r) == under(opt_str(home), "pkg"@),
{
    child(home, "pkg")
}

/// Global tool installs.
pub fn hella_bin_dir(home: Option<&str>) -> (r: Option<String>)
    ensures
        opt_text(r) == under(opt_str(home), "bin"@),
{
    child(home, "bin")
}

/// Fetch scratch area.
pub fn hella_cache_dir(home: Option<&str>) -> (r: Option<String>)
    ensures
        opt_text(r) == under(opt_str(home), "cache"@),
{
    child(home, "cache")
}

// ---------------------------------------------------------------------------
// Slots
// ---------------------------------------------------------------------------

/// A character that a version segment keeps.
pub open spec fn segment_char(c: char) -> bool {
    is_alpha(c) || is_digit(c) || c == '.' || c == '_' || c == '-'
}

/// `.` and `..` name directories and are no segments.
pub open spec fn is_dots(s: Seq<char>) -> bool {
    s == "."@ || s == ".."@
}

/// A version as a single path segment.
pub open spec fn segment(version: Seq<char>) -> Seq<char> {
    if version.len() == 0 {
        "_"@
    } else {
        Seq::new(
            version.len(),
            |i: int|
                if segment_char(version[i]) && !is_dots(version) {
                    version[i]
                } else {
                    '_'
                },
        )
    }
}

/// A version string as a single path segment. Exact pins (`1.2.3`, commit
/// hashes) pass through; every character outside `[A-Za-z0-9._-]` becomes `_`,
/// and so do the dots of `.` and `..`, so that a request never leaves its slot.
pub fn sanitize_version_segment(version: &str) -> (r: String)
    ensures
        r@ == segment(version@),
{
    let v = chars_of(version);
    if v.len() == 0 {
        return String::from_str("_");
    }
    let dots = same(version, ".") || same(version, "..");
    let mut out: Vec<char> = Vec::new();
    let mut i: usize = 0;
    while i < v.len()
        invariant
            0 < v@.len(),
            i <= v@.len(),
            v@ == version@,
            dots == is_dots(version@),
            out@ =~= segment(version@).take(i as int),
        decreases v@.len() - i,
    {
        let c: char = v[i];
        let keep: bool = is_alpha_char(c) || is_digit_char(c) || c == '.' || c == '_' || c == '-';
        if keep && !dots {
            out.push(c);
        } else {
            out.push('_');
        }
        i += 1;
    }
    assert(out@ =~= segment(version@));
    string_of(&out)
}

/// `s` without slashes at its ends.
pub open spec fn unslashed(s: Seq<char>) -> Seq<char> {
    drop_end(drop_start(s, Class::Only('/')), Class::Only('/'))
}

/// A source as a relative path; one that still holds `:` or a backslash is
/// brought into normal form first.
pub open spec fn source_path(git: Seq<char>) -> Seq<char> {
    unslashed(
        if git.contains(':') || git.contains('\\') {
            normal_source(git)
        } else {
            git
        },
    )
}

/// The slot of one version of a source.
pub open spec fn slot(pkg_root: Seq<char>, git: Seq<char>, version: Seq<char>) -> Seq<char> {
    joined(joined(pkg_root, source_path(git)), segment(version))
}

/// Cache slot of one dependency version: `<pkg_root>/<git>/<version>`. Sources
/// with `:` or a backslash, which some systems refuse in file names, are
/// brought into normal form first.
pub fn pkg_slot_dir(pkg_root: &str, git: &str, version: &str) -> (r: String)
    ensures
        r@ == slot(pkg_root@, git@, version@),
{
    let raw = chars_of(git);
    let g = if has_char(&raw, ':') || has_char(&raw, '\\') {
        chars_of(normalize_git_source(git).as_str())
    } else {
        raw
    };
    let a = drop_start_chars(&g, Class::Only('/'));
    let b = drop_end_chars(&a, Class::Only('/'));
    let dir = join_path(pkg_root, string_of(&b).as_str());
    join_path(dir.as_str(), sanitize_version_segment(version).as_str())
}

/// `base` with the first `n` segments below it.
pub open spec fn descend(base: Seq<char>, segments: Seq<Seq<char>>, n: int) -> Seq<char>
    decreases n,
{
    if n <= 0 {
        base
    } else {
        joined(descend(base, segments, n - 1), segments[n - 1])
    }
}

/// The module root in a slot: the slot, or the `package` sub-path in it.
pub open spec fn module_root(
    pkg_root: Seq<char>,
    git: Seq<char>,
    version: Seq<char>,
    package: Option<Seq<char>>,
) -> Seq<char> {
    let base = slot(pkg_root, git, version);
    match package {
        Some(p) => descend(base, split(p, "::"@), split(p, "::"@).len() as int),
        None => base,
    }
}

fn root_in_slot(pkg_root: &str, git: &str, version: &str, package: &Option<String>) -> (r: String)
    ensures
        r@ == module_root(pkg_root@, git@, version@, opt_text(*package)),
{
    let base = pkg_slot_dir(pkg_root, git, version);
    match package {
        Some(p) => {
            proof {
                reveal_strlit("::");
            }
            let segs = split_chars(&chars_of(p.as_str()), "::");
            let ghost ss = rows(segs@);
            let mut out = base.clone();
            let mut i: usize = 0;
            while i < segs.len()
                invariant
                    i <= segs@.len(),
                    ss == rows(segs@),
                    out@ == descend(base@, ss, i as int),
                decreases segs@.len() - i,
            {
                out = join_path(out.as_str(), string_of(&segs[i]).as_str());
                i += 1;
            }
            out
        },
        None => base,
    }
}

/// Module root of a pinned dependency: its slot, or the `package` sub-path
/// (`tool::cli` is `tool/cli`) where that is given.
pub fn dep_module_root(pkg_root: &str, dep: &LockedDependency) -> (r: String)
    ensures
        r@ == module_root(pkg_root@, dep@.git, dep@.version, dep@.package),
{
    root_in_slot(pkg_root, dep.git.as_str(), dep.version.as_str(), &dep.package)
}

// ---------------------------------------------------------------------------
// Dependency roots
// ---------------------------------------------------------------------------

/// The first pin called `name`.
pub open spec fn pin_of(pins: Seq<Pin>, name: Seq<char>) -> Option<Pin>
    decreases pins.len(),
{
    if pins.len() == 0 {
        None
    } else if pins[0].name == name {
        Some(pins[0])
    } else {
        pin_of(pins.skip(1), name)
    }
}

/// Where a dependency's modules stand: at its pin, or at its request while it
/// has none.
pub open spec fn direct_root(pkg_root: Seq<char>, name: Seq<char>, d: Dep, pins: Seq<Pin>) -> Seq<
    char,
> {
    match pin_of(pins, name) {
        Some(p) => module_root(pkg_root, p.git, p.version, p.package),
        None => module_root(pkg_root, d.git, d.version, d.package),
    }
}

/// Module roots of the first `n` direct dependencies that can be imported.
pub open spec fn direct_roots(
    pkg_root: Seq<char>,
    deps: Seq<(Seq<char>, Dep)>,
    pins: Seq<Pin>,
    n: int,
) -> Seq<Seq<char>>
    decreases n,
{
    if n <= 0 {
        Seq::empty()
    } else if valid_name(deps[n - 1].0) {
        direct_roots(pkg_root, deps, pins, n - 1).push(
            direct_root(pkg_root, deps[n - 1].0, deps[n - 1].1, pins),
        )
    } else {
        direct_roots(pkg_root, deps, pins, n - 1)
    }
}

/// Module roots of the first `n` pins that can be imported.
pub open spec fn pinned_roots(pkg_root: Seq<char>, pins: Seq<Pin>, n: int) -> Seq<Seq<char>>
    decreases n,
{
    if n <= 0 {
        Seq::empty()
    } else if valid_name(pins[n - 1].name) {
        pinned_roots(pkg_root, pins, n - 1).push(
            module_root(pkg_root, pins[n - 1].git, pins[n - 1].version, pins[n - 1].package),
        )
    } else {
        pinned_roots(pkg_root, pins, n - 1)
    }
}

/// The module roots of a project: direct dependencies in order of their names,
/// then every pin, direct or transitive. Nothing else can be imported.
pub open spec fn dep_roots(
    pkg_root: Seq<char>,
    deps: Seq<(Seq<char>, Dep)>,
    pins: Seq<Pin>,
) -> Seq<Seq<char>> {
    direct_roots(pkg_root, deps, pins, deps.len() as int) + pinned_roots(
        pkg_root,
        pins,
        pins.len() as int,
    )
}

/// Those of the first `n` directories that exist, each once.
pub open spec fn existing(cs: Seq<Seq<char>>, dirs: Seq<Seq<char>>, n: int) -> Seq<Seq<char>>
    decreases n,
{
    if n <= 0 {
        Seq::empty()
    } else {
        let done = existing(cs, dirs, n - 1);
        if dirs.contains(cs[n - 1]) && !has_path(done, cs[n - 1]) {
            done.push(cs[n - 1])
        } else {
            done
        }
    }
}

/// The first pin called `name`.
pub fn find_pin<'a>(pins: &'a Vec<LockedDependency>, name: &str) -> (r: Option<&'a LockedDependency>)
    ensures
        r is Some <==> pin_of(crate::manifest::pins(pins@), name@) is Some,
        r matches Some(p) ==> pin_of(crate::manifest::pins(pins@), name@) == Some(p@),
{
    let ghost all = crate::manifest::pins(pins@);
    let mut i: usize = 0;
    assert(all.skip(0) =~= all);
    while i < pins.len()
        invariant
            i <= pins@.len(),
            all == crate::manifest::pins(pins@),
            pin_of(all, name@) == pin_of(all.skip(i as int), name@),
        decreases pins@.len() - i,
    {
        assert(all.skip(i as int)[0] == all[i as int]);
        if same(pins[i].name.as_str(), name) {
            return Some(&pins[i]);
        }
        assert(all.skip(i as int).skip(1) =~= all.skip(i + 1));
        i += 1;
    }
    None
}

/// The directories that a project's dependencies may stand in, best first.
pub fn dep_base_candidates(manifest: &Manifest, lock: &Lockfile, pkg_root: &str) -> (r: Vec<String>)
    ensures
        texts(r@) == dep_roots(pkg_root@, manifest@.deps, lock@),
{
    let mut out: Vec<String> = Vec::new();
    let n: usize = manifest.dependencies.len();
    let ghost ds = manifest@.deps;
    let ghost ps = lock@;
    let mut i: usize = 0;
    assert(texts(out@) =~= Seq::<Seq<char>>::empty());
    while i < n
        invariant
            i <= n,
            n == manifest.dependencies.pairs().len(),
            ds == manifest@.deps,
            ps == lock@,
            texts(out@) == direct_roots(pkg_root@, ds, ps, i as int),
        decreases n - i,
    {
        let ghost had = texts(out@);
        let name = manifest.dependencies.key_at(i).as_str();
        let dep = manifest.dependencies.value_at(i);
        assert(ds[i as int] == (name@, dep@));
        if is_valid_dep_name(name) {
            let root = match find_pin(&lock.packages, name) {
                Some(p) => dep_module_root(pkg_root, p),
                None => root_in_slot(
                    pkg_root,
                    dep.git.as_str(),
                    dep.version.as_str(),
                    &dep.package,
                ),
            };
            out.push(root);
            assert(texts(out@) =~= had.push(root@));
        }
        i += 1;
    }
    let ghost direct = texts(out@);
    let mut j: usize = 0;
    assert(texts(out@) =~= direct + pinned_roots(pkg_root@, ps, 0));
    while j < lock.packages.len()
        invariant
            j <= lock.packages@.len(),
            ps == lock@,
            texts(out@) == direct + pinned_roots(pkg_root@, ps, j as int),
        decreases lock.packages@.len() - j,
    {
        let p = &lock.packages[j];
        assert(ps[j as int] == p@);
        if is_valid_dep_name(p.name.as_str()) {
            let ghost had = texts(out@);
            let root = dep_module_root(pkg_root, p);
            out.push(root);
            assert(texts(out@) =~= had.push(root@));
        }
        assert(texts(out@) =~= direct + pinned_roots(pkg_root@, ps, j + 1));
        j += 1;
    }
    out
}

/// Dependency search bases of a project: one module root per dependency, where
/// `dirs` lists the directories that exist. Without a manifest there are none.
pub fn dep_bases_for_project(
    manifest: Option<&Manifest>,
    lock: &Lockfile,
    pkg_root: &str,
    dirs: &Vec<String>,
) -> (r: Vec<String>)
    ensures
        manifest is None ==> r@.len() == 0,
        manifest matches Some(m) ==> texts(r@) == existing(
            dep_roots(pkg_root@, m@.deps, lock@),
            texts(dirs@),
            dep_roots(pkg_root@, m@.deps, lock@).len() as int,
        ),
{
    let mut out: Vec<String> = Vec::new();
    if let Some(m) = manifest {
        let cs = dep_base_candidates(m, lock, pkg_root);
        let ghost all = texts(cs@);
        let mut i: usize = 0;
        assert(texts(out@) =~= Seq::<Seq<char>>::empty());
        while i < cs.len()
            invariant
                i <= cs@.len(),
                all == texts(cs@),
                texts(out@) == existing(all, texts(dirs@), i as int),
            decreases cs@.len() - i,
        {
            if contains_text(dirs, cs[i].as_str()) {
                push_path(&mut out, cs[i].as_str());
            }
            i += 1;
        }
    }
    out
}

/// Dependency search bases for the project of an entry file; none without a
/// package cache.
pub fn dep_search_bases(
    manifest: Option<&Manifest>,
    lock: &Lockfile,
    pkg_root: Option<&str>,
    dirs: &Vec<String>,
) -> (r: Vec<String>)
    ensures
        texts(r@) == match (manifest, pkg_root) {
            (Some(m), Some(root)) => existing(
                dep_roots(root@, m@.deps, lock@),
                texts(dirs@),
                dep_roots(root@, m@.deps, lock@).len() as int,
            ),
            _ => Seq::empty(),
        },
{
    match pkg_root {
        Some(root) => {
            let r = dep_bases_for_project(manifest, lock, root, dirs);
            if manifest.is_none() {
                assert(texts(r@) =~= Seq::<Seq<char>>::empty());
            }
            r
        },
        None => {
            let r: Vec<String> = Vec::new();
            assert(texts(r@) =~= Seq::<Seq<char>>::empty());
            r
        },
    }
}

// ---------------------------------------------------------------------------
// Project root and search bases
// ---------------------------------------------------------------------------

/// A directory on the way up from the entry file, and what it holds.
#[derive(Debug)]
pub struct Ancestor {
    pub path: String,
    /// It holds a file `hella.toml`.
    pub has_manifest: bool,
    /// It holds a file `main.hll`.
    pub has_main: bool,
    /// It holds a directory `stdlib`.
    pub has_stdlib: bool,
}

/// The nearest ancestor that holds a manifest.
pub open spec fn manifest_dir(up: Seq<Ancestor>) -> Option<Seq<char>>
    decreases up.len(),
{
    if up.len() == 0 {
        None
    } else if up[0].has_manifest {
        Some(up[0].path@)
    } else {
        manifest_dir(up.skip(1))
    }
}

/// The nearest ancestor that holds a `main.hll`.
pub open spec fn main_dir(up: Seq<Ancestor>) -> Option<Seq<char>>
    decreases up.len(),
{
    if up.len() == 0 {
        None
    } else if up[0].has_main {
        Some(up[0].path@)
    } else {
        main_dir(up.skip(1))
    }
}

/// The `stdlib` in the nearest ancestor that holds one.
pub open spec fn stdlib_dir(up: Seq<Ancestor>) -> Option<Seq<char>>
    decreases up.len(),
{
    if up.len() == 0 {
        None
    } else if up[0].has_stdlib {
        Some(joined(up[0].path@, "stdlib"@))
    } else {
        stdlib_dir(up.skip(1))
    }
}

/// The root of the project that owns an entry in `start`.
pub open spec fn root_dir(start: Seq<char>, up: Seq<Ancestor>) -> Seq<char> {
    match manifest_dir(up) {
        Some(d) => d,
        None => match main_dir(up) {
            Some(d) => d,
            None => start,
        },
    }
}

/// Project root of an entry file: the nearest ancestor with a `hella.toml`,
/// else the nearest with a `main.hll`, else the entry's own directory `start`.
/// `up` lists `start` and the directories above it, nearest first.
pub fn project_root(start: &str, up: &Vec<Ancestor>) -> (r: String)
    ensures
        r@ == root_dir(start@, up@),
{
    let mut i: usize = 0;
    assert(up@.skip(0) =~= up@);
    while i < up.len()
        invariant
            i <= up@.len(),
            manifest_dir(up@) == manifest_dir(up@.skip(i as int)),
        decreases up@.len() - i,
    {
        if up[i].has_manifest {
            return up[i].path.clone();
        }
        assert(up@.skip(i as int).skip(1) =~= up@.skip(i + 1));
        i += 1;
    }
    let mut j: usize = 0;
    while j < up.len()
        invariant
            j <= up@.len(),
            manifest_dir(up@) is None,
            main_dir(up@) == main_dir(up@.skip(j as int)),
        decreases up@.len() - j,
    {
        if up[j].has_main {
            return up[j].path.clone();
        }
        assert(up@.skip(j as int).skip(1) =~= up@.skip(j + 1));
        j += 1;
    }
    String::from_str(start)
}

/// The `stdlib` of a development checkout around the entry file.
pub fn workspace_stdlib_root(up: &Vec<Ancestor>) -> (r: Option<String>)
    ensures
        opt_text(r) == stdlib_dir(up@),
{
    let mut i: usize = 0;
    assert(up@.skip(0) =~= up@);
    while i < up.len()
        invariant
            i <= up@.len(),
            stdlib_dir(up@) == stdlib_dir(up@.skip(i as int)),
        decreases up@.len() - i,
    {
        if up[i].has_stdlib {
            return Some(join_path(up[i].path.as_str(), "stdlib"));
        }
        assert(up@.skip(i as int).skip(1) =~= up@.skip(i + 1));
        i += 1;
    }
    None
}

pub open spec fn opt_seq(v: Option<Seq<char>>) -> Seq<Seq<char>> {
    match v {
        Some(s) => seq![s],
        None => Seq::empty(),
    }
}

/// The search bases in order, before repetitions are dropped.
pub open spec fn base_order(
    start: Seq<char>,
    up: Seq<Ancestor>,
    dep_bases: Seq<Seq<char>>,
    lib: Option<Seq<char>>,
) -> Seq<Seq<char>> {
    seq![start, root_dir(start, up)] + dep_bases + opt_seq(stdlib_dir(up)) + opt_seq(lib)
}

/// Ordered search bases of an entry file: the entry's own directory, so that
/// modules next to it always win; the project root; the project's dependency
/// roots; the `stdlib` of a checkout around it; the installed library `lib`.
pub fn search_bases(
    start: &str,
    up: &Vec<Ancestor>,
    dep_bases: &Vec<String>,
    lib: Option<&str>,
) -> (r: Vec<String>)
    ensures
        texts(r@) == with_paths(
            Seq::empty(),
            base_order(start@, up@, texts(dep_bases@), opt_str(lib)),
            base_order(start@, up@, texts(dep_bases@), opt_str(lib)).len() as int,
        ),
{
    let mut all: Vec<String> = Vec::new();
    all.push(String::from_str(start));
    all.push(project_root(start, up));
    let mut i: usize = 0;
    let ghost two = texts(all@);
    let ghost ds = texts(dep_bases@);
    assert(texts(all@) =~= two + ds.take(0));
    while i < dep_bases.len()
        invariant
            i <= dep_bases@.len(),
            ds == texts(dep_bases@),
            texts(all@) == two + ds.take(i as int),
        decreases dep_bases@.len() - i,
    {
        let ghost had = texts(all@);
        all.push(dep_bases[i].clone());
        assert(texts(all@) =~= had.push(ds[i as int]));
        assert(texts(all@) =~= two + ds.take(i + 1));
        i += 1;
    }
    assert(ds.take(i as int) =~= ds);
    let ghost three = texts(all@);
    if let Some(s) = workspace_stdlib_root(up) {
        all.push(s);
    }
    assert(texts(all@) =~= three + opt_seq(stdlib_dir(up@)));
    let ghost four = texts(all@);
    if let Some(l) = lib {
        all.push(String::from_str(l));
    }
    assert(texts(all@) =~= four + opt_seq(opt_str(lib)));
    assert(texts(all@) =~= base_order(start@, up@, ds, opt_str(lib)));
    let mut out: Vec<String> = Vec::new();
    assert(texts(out@) =~= Seq::<Seq<char>>::empty());
    extend_paths(&mut out, &all);
    out
}

// ---------------------------------------------------------------------------
// Laws
// ---------------------------------------------------------------------------

/// A version segment is one path segment: not empty, without separators, and
/// never a name for a directory itself or the one above.
pub proof fn law_segment_stays_in_slot(version: Seq<char>)
    ensures
        segment(version).len() > 0,
        forall|i: int|
            0 <= i < segment(version).len() ==> segment_char(#[trigger] segment(version)[i]),
        !segment(version).contains('/'),
        !segment(version).contains('\\'),
        !is_dots(segment(version)),
{
    reveal_strlit("_");
    reveal_strlit(".");
    reveal_strlit("..");
    let s = segment(version);
    assert forall|i: int| 0 <= i < s.len() implies segment_char(#[trigger] s[i]) by {}
    if is_dots(s) {
        assert(s[0] == '.');
        assert(s =~= version);
    }
}

/// A version that is a valid segment passes through unchanged.
pub proof fn law_exact_pins_pass_through(version: Seq<char>)
    requires
        version.len() > 0,
        forall|i: int| 0 <= i < version.len() ==> segment_char(#[trigger] version[i]),
        !is_dots(version),
    ensures
        segment(version) == version,
{
    assert(segment(version) =~= version);
}

proof fn lemma_push_contains(s: Seq<Seq<char>>, y: Seq<char>, x: Seq<char>)
    ensures
        s.push(y).contains(x) <==> s.contains(x) || x == y,
{
    let r = s.push(y);
    assert(r[s.len() as int] == y);
    if s.contains(x) {
        let k = choose|k: int| 0 <= k < s.len() && s[k] == x;
        assert(r[k] == x);
    }
    if r.contains(x) {
        let k = choose|k: int| 0 <= k < r.len() && r[k] == x;
        if k < s.len() {
            assert(s[k] == x);
        }
    }
}

/// The entry's own directory is searched first.
pub proof fn law_entry_directory_comes_first(
    start: Seq<char>,
    up: Seq<Ancestor>,
    dep_bases: Seq<Seq<char>>,
    lib: Option<Seq<char>>,
)
    ensures
        with_paths(
            Seq::empty(),
            base_order(start, up, dep_bases, lib),
            base_order(start, up, dep_bases, lib).len() as int,
        )[0] == start,
{
    let order = base_order(start, up, dep_bases, lib);
    assert(order[0] == start);
    lemma_first_stays(order, order.len() as int);
}

proof fn lemma_first_stays(order: Seq<Seq<char>>, n: int)
    requires
        1 <= n <= order.len(),
    ensures
        with_paths(Seq::empty(), order, n).len() > 0,
        with_paths(Seq::empty(), order, n)[0] == order[0],
    decreases n,
{
    if n == 1 {
        reveal_with_fuel(with_paths, 2);
        assert(!has_path(Seq::empty(), order[0]));
    } else {
        lemma_first_stays(order, n - 1);
    }
}

proof fn lemma_existing(cs: Seq<Seq<char>>, dirs: Seq<Seq<char>>, n: int, x: Seq<char>)
    requires
        0 <= n <= cs.len(),
    ensures
        existing(cs, dirs, n).contains(x) ==> cs.take(n).contains(x) && dirs.contains(x),
        cs.take(n).contains(x) && dirs.contains(x) ==> has_path(existing(cs, dirs, n), x),
    decreases n,
{
    if n > 0 {
        lemma_existing(cs, dirs, n - 1, x);
        let t = cs.take(n - 1);
        let had = existing(cs, dirs, n - 1);
        let now = existing(cs, dirs, n);
        assert(cs.take(n) =~= t.push(cs[n - 1]));
        lemma_push_contains(t, cs[n - 1], x);
        lemma_push_contains(had, cs[n - 1], x);
        if has_path(had, x) {
            let k = choose|k: int| 0 <= k < had.len() && same_path(#[trigger] had[k], x);
            assert(same_path(now[k], x));
        } else if x == cs[n - 1] && dirs.contains(x) {
            assert(same_path(now[had.len() as int], x));
        }
    } else {
        assert(cs.take(0) =~= Seq::<Seq<char>>::empty());
    }
}

/// Only the module roots of listed dependencies are searched, and only where
/// they exist: a slot that is cached but not listed stays invisible. Each that
/// exists is searched, under one of its spellings.
pub proof fn law_unlisted_slots_are_invisible(
    pkg_root: Seq<char>,
    deps: Seq<(Seq<char>, Dep)>,
    pins: Seq<Pin>,
    dirs: Seq<Seq<char>>,
    dir: Seq<char>,
)
    ensures
        existing(
            dep_roots(pkg_root, deps, pins),
            dirs,
            dep_roots(pkg_root, deps, pins).len() as int,
        ).contains(dir) ==> dep_roots(pkg_root, deps, pins).contains(dir) && dirs.contains(dir),
        dep_roots(pkg_root, deps, pins).contains(dir) && dirs.contains(dir) ==> has_path(
            existing(
                dep_roots(pkg_root, deps, pins),
                dirs,
                dep_roots(pkg_root, deps, pins).len() as int,
            ),
            dir,
        ),
{
    let cs = dep_roots(pkg_root, deps, pins);
    lemma_existing(cs, dirs, cs.len() as int, dir);
    assert(cs.take(cs.len() as int) =~= cs);
}

} // verus!
