//! Editing the `[dependencies]` lines of a manifest in place.
use crate::manifest::write::{
    dep_plain, serialize_dep_value, serialize_manifest, writable, writable_dep, written,
};
use crate::manifest::{
    is_valid_name, lemma_deps_put, manifest_text, name_part, name_start, parse_manifest,
    project_result, valid_name, Dep, Dependency, Manifest, ManifestError, Project,
};
use crate::names::{put, NameMap};
use crate::text::{
    chars_of, copy_opt, drop_end, drop_end_chars, drop_start, drop_start_chars, eq_chars, find_char,
    first, is_space, is_text, join, join_rows, lemma_first, lines, lines_of, part, rows, same,
    starts, starts_with, string_of, trim, trim_chars, trim_str, Class,
};
use crate::pkg::edit_laws::{
    law_insertion_changes_one_dependency, lemma_doc_with_plain, takes_entries,
};
use crate::pkg::ensure::{copy_dep, copy_deps, same_opt};
use crate::source::{normal_source, normalize_git_source};
use crate::tomldoc::{doc_text, plain_doc, plain_text, toml_document, Group};
use vstd::prelude::*;
use vstd::string::*;

verus! {

// ---------------------------------------------------------------------------
// Lines
// ---------------------------------------------------------------------------

/// A section heading.
pub open spec fn is_heading(line: Seq<char>) -> bool {
    starts(trim(line), "["@)
}

/// The heading of the dependency section.
pub open spec fn is_deps_heading(line: Seq<char>) -> bool {
    trim(line) == "[dependencies]"@
}

/// The key of a `key = ...` line, without quotes.
pub open spec fn line_key(t: Seq<char>) -> Seq<char> {
    drop_end(drop_start(trim(t.take(first(t, '='))), Class::Quote), Class::Quote)
}

/// The dependency name of a trimmed `name = ...` line.
pub open spec fn line_name(t: Seq<char>) -> Option<Seq<char>> {
    if t.len() == 0 || starts(t, "#"@) || starts(t, "["@) || first(t, '=') >= t.len() {
        None
    } else if valid_name(line_key(t)) {
        Some(line_key(t))
    } else {
        None
    }
}

/// The line behind the first `n` lines stands in the dependency section.
pub open spec fn in_deps(ls: Seq<Seq<char>>, n: int) -> bool
    decreases n,
{
    if n <= 0 {
        false
    } else if is_heading(ls[n - 1]) {
        is_deps_heading(ls[n - 1])
    } else {
        in_deps(ls, n - 1)
    }
}

/// Line `i` is the entry of dependency `name`.
pub open spec fn is_entry(ls: Seq<Seq<char>>, name: Seq<char>, i: int) -> bool {
    !is_heading(ls[i]) && in_deps(ls, i) && line_name(trim(ls[i])) == Some(name)
}

/// The last entry of `name` among the first `n` lines.
pub open spec fn last_entry(ls: Seq<Seq<char>>, name: Seq<char>, n: int) -> Option<int>
    decreases n,
{
    if n <= 0 {
        None
    } else if is_entry(ls, name, n - 1) {
        Some(n - 1)
    } else {
        last_entry(ls, name, n - 1)
    }
}

/// The first heading of the dependency section among the first `n` lines.
pub open spec fn deps_heading(ls: Seq<Seq<char>>, n: int) -> Option<int>
    decreases n,
{
    if n <= 0 {
        None
    } else {
        match deps_heading(ls, n - 1) {
            Some(h) => Some(h),
            None => if is_deps_heading(ls[n - 1]) && is_heading(ls[n - 1]) {
                Some(n - 1)
            } else {
                None
            },
        }
    }
}

/// The line of a dependency.
pub open spec fn entry_line(name: Seq<char>, d: Dep) -> Seq<char> {
    name + " = "@ + plain_text(dep_plain(d))
}

/// `ls`, ending in an empty line unless it is empty.
pub open spec fn spaced(ls: Seq<Seq<char>>) -> Seq<Seq<char>> {
    if ls.len() > 0 && trim(ls.last()).len() > 0 {
        ls.push(Seq::empty())
    } else {
        ls
    }
}

/// The lines with `entry` as the entry of `name`: in place of the last one it
/// has, else right below the section heading, else in a new section at the end.
pub open spec fn edited(ls: Seq<Seq<char>>, name: Seq<char>, entry: Seq<char>) -> Seq<Seq<char>> {
    match last_entry(ls, name, ls.len() as int) {
        Some(i) => ls.update(i, entry),
        None => match deps_heading(ls, ls.len() as int) {
            Some(h) => ls.insert(h + 1, entry),
            None => spaced(ls).push("[dependencies]"@).push(entry),
        },
    }
}

/// The first `n` lines without the entries of `name`.
pub open spec fn cleared(ls: Seq<Seq<char>>, name: Seq<char>, n: int) -> Seq<Seq<char>>
    decreases n,
{
    if n <= 0 {
        Seq::empty()
    } else if is_entry(ls, name, n - 1) {
        cleared(ls, name, n - 1)
    } else {
        cleared(ls, name, n - 1).push(ls[n - 1])
    }
}

/// Lines as text, each with a line feed.
pub open spec fn as_text(ls: Seq<Seq<char>>) -> Seq<char> {
    join(ls, "\n"@) + "\n"@
}

/// The text of a manifest with an entry for `name`.
pub open spec fn with_entry(text: Seq<char>, name: Seq<char>, d: Dep) -> Seq<char> {
    as_text(edited(lines(text), name, entry_line(name, d)))
}

/// The text of a manifest without the entries of `name`.
pub open spec fn without_entry(text: Seq<char>, name: Seq<char>) -> Seq<char> {
    as_text(cleared(lines(text), name, lines(text).len() as int))
}

/// A manifest with one dependency added, or in place of the one of that name.
pub open spec fn with_dep(p: Project, name: Seq<char>, d: Dep) -> Project {
    Project { deps: put(p.deps, name, d), ..p }
}

/// What a manifest holds of a dependency once it is written down and read.
pub open spec fn read_form(d: Dep) -> Dep {
    Dep { git: normal_source(d.git), version: trim(d.version), package: d.package }
}

/// The manifest that a dependency goes into: what the text is read as, or where
/// it cannot be read what it is read as with the entry.
pub open spec fn base_manifest(text: Seq<char>, name: Seq<char>, d: Dep) -> Project {
    match manifest_text(text) {
        Ok(p) => p,
        Err(_) => match manifest_text(with_entry(text, name, d)) {
            Ok(q) => q,
            Err(_) => Project { name: Seq::empty(), version: Seq::empty(), deps: Seq::empty() },
        },
    }
}

/// The text of the manifest with the dependency, written anew.
pub open spec fn rewritten(text: Seq<char>, name: Seq<char>, d: Dep) -> Seq<char> {
    written(with_dep(base_manifest(text, name, d), name, d))
}

/// A result is read as the manifest with the dependency.
pub open spec fn reads_as_wanted(out: Seq<char>, text: Seq<char>, name: Seq<char>, d: Dep) -> bool {
    manifest_text(out) == Ok::<Project, Seq<char>>(
        with_dep(base_manifest(text, name, d), name, read_form(d)),
    )
}

/// The text of a manifest with the dependency: with one line edited, or written
/// anew where the edited text would no longer parse, or would be read as
/// something else and the new one would not.
pub open spec fn inserted(text: Seq<char>, name: Seq<char>, d: Dep) -> Seq<char> {
    let e = with_entry(text, name, d);
    let anew = rewritten(text, name, d);
    if reads_as_wanted(e, text, name, d) || (manifest_text(e) is Ok && !reads_as_wanted(
        anew,
        text,
        name,
        d,
    )) {
        e
    } else {
        anew
    }
}

// ---------------------------------------------------------------------------
// Editing
// ---------------------------------------------------------------------------

fn has_heading(t: &Vec<char>) -> (r: bool)
    ensures
        r == starts(t@, "["@),
{
    starts_with(t, "[")
}

/// The dependency name of a trimmed `name = ...` line, or `None` for any other
/// line.
pub fn dep_line_name(t: &Vec<char>) -> (r: Option<Vec<char>>)
    ensures
        r is Some <==> line_name(t@) is Some,
        r matches Some(n) ==> line_name(t@) == Some(n@),
{
    if t.len() == 0 || starts_with(t, "#") || starts_with(t, "[") {
        return None;
    }
    let k = find_char(t, '=');
    if k >= t.len() {
        return None;
    }
    let raw = part(t, 0, k);
    assert(raw@ =~= t@.take(k as int));
    let a = drop_start_chars(&trim_chars(&raw), Class::Quote);
    let key = drop_end_chars(&a, Class::Quote);
    if is_valid_name(&key) {
        Some(key)
    } else {
        None
    }
}

/// Where the lines mention `name` and where their dependency section starts.
fn scan(ls: &Vec<Vec<char>>, name: &Vec<char>) -> (r: (Option<usize>, Option<usize>))
    ensures
        r.0 is Some <==> last_entry(rows(ls@), name@, ls@.len() as int) is Some,
        r.0 matches Some(i) ==> i < ls@.len() && last_entry(rows(ls@), name@, ls@.len() as int)
            == Some(i as int),
        r.1 is Some <==> deps_heading(rows(ls@), ls@.len() as int) is Some,
        r.1 matches Some(h) ==> h < ls@.len() && deps_heading(rows(ls@), ls@.len() as int) == Some(
            h as int,
        ),
{
    let ghost all = rows(ls@);
    let mut existing: Option<usize> = None;
    let mut header: Option<usize> = None;
    let mut inside: bool = false;
    let mut i: usize = 0;
    while i < ls.len()
        invariant
            i <= ls@.len(),
            all == rows(ls@),
            inside == in_deps(all, i as int),
            existing is Some <==> last_entry(all, name@, i as int) is Some,
            existing matches Some(e) ==> e < i && last_entry(all, name@, i as int) == Some(
                e as int,
            ),
            header is Some <==> deps_heading(all, i as int) is Some,
            header matches Some(h) ==> h < i && deps_heading(all, i as int) == Some(h as int),
        decreases ls@.len() - i,
    {
        let t = trim_chars(&ls[i]);
        assert(t@ == trim(all[i as int]));
        if has_heading(&t) {
            inside = is_text(&t, "[dependencies]");
            if inside && header.is_none() {
                header = Some(i);
            }
        } else if inside {
            if let Some(n) = dep_line_name(&t) {
                if eq_chars(&n, name) {
                    existing = Some(i);
                }
            }
        }
        i += 1;
    }
    (existing, header)
}

fn line_list(ls: &Vec<Vec<char>>) -> (r: String)
    ensures
        r@ == as_text(rows(ls@)),
{
    let mut out = join_rows(ls, "\n");
    let nl = chars_of("\n");
    crate::text::extend(&mut out, &nl);
    string_of(&out)
}

proof fn lemma_heading_starts(t: Seq<char>)
    requires
        t == "[dependencies]"@,
    ensures
        starts(t, "["@),
{
    reveal_strlit("[dependencies]");
    reveal_strlit("[");
    assert(t.take(1) =~= "["@);
}

/// The manifest text with a line for the dependency, everything else as it
/// was.
pub fn edit_dep_line(text: &str, name: &str, dep: &Dependency) -> (r: String)
    ensures
        r@ == with_entry(text@, name@, dep@),
{
    let mut entry = String::from_str(name);
    entry.append(" = ");
    entry.append(serialize_dep_value(dep).as_str());
    let e = chars_of(entry.as_str());
    let mut ls = lines_of(&chars_of(text));
    let ghost before = rows(ls@);
    let n = chars_of(name);
    let (existing, header) = scan(&ls, &n);
    if let Some(i) = existing {
        ls.set(i, e);
        assert(rows(ls@) =~= before.update(i as int, entry@));
    } else if let Some(h) = header {
        let below: usize = ls.len();
        assert(h < below);
        ls.insert(h + 1, e);
        assert(rows(ls@) =~= before.insert(h + 1, entry@));
    } else {
        let count: usize = ls.len();
        if count > 0 && trim_chars(&ls[count - 1]).len() > 0 {
            ls.push(Vec::new());
            assert(rows(ls@) =~= before.push(Seq::empty()));
        }
        assert(rows(ls@) =~= spaced(before));
        ls.push(chars_of("[dependencies]"));
        assert(rows(ls@) =~= spaced(before).push("[dependencies]"@));
        ls.push(e);
        assert(rows(ls@) =~= spaced(before).push("[dependencies]"@).push(entry@));
    }
    line_list(&ls)
}

fn same_dep(a: &Dependency, b: &Dependency) -> (r: bool)
    ensures
        r == (a@ == b@),
{
    same(a.git.as_str(), b.git.as_str()) && same(a.version.as_str(), b.version.as_str())
        && same_opt(&a.package, &b.package)
}

fn same_manifest(a: &Manifest, b: &Manifest) -> (r: bool)
    ensures
        r == (a@ == b@),
{
    let ghost x = a@.deps;
    let ghost y = b@.deps;
    let n: usize = a.dependencies.len();
    if !same(a.name.as_str(), b.name.as_str()) || !same(a.version.as_str(), b.version.as_str()) {
        return false;
    }
    if n != b.dependencies.len() {
        assert(x.len() != y.len());
        return false;
    }
    let mut i: usize = 0;
    while i < n
        invariant
            i <= n,
            n == a.dependencies.pairs().len(),
            n == b.dependencies.pairs().len(),
            x == a@.deps,
            y == b@.deps,
            forall|k: int| 0 <= k < i ==> #[trigger] x[k] == y[k],
        decreases n - i,
    {
        let key: bool = same(
            a.dependencies.key_at(i).as_str(),
            b.dependencies.key_at(i).as_str(),
        );
        if !key || !same_dep(a.dependencies.value_at(i), b.dependencies.value_at(i)) {
            assert(x[i as int] != y[i as int]);
            return false;
        }
        i += 1;
    }
    assert(x =~= y);
    true
}

/// The manifest with one dependency added or replaced.
fn add_dep(m: &Manifest, name: &str, d: Dependency) -> (r: Manifest)
    ensures
        r@ == with_dep(m@, name@, d@),
{
    let mut dependencies = copy_deps(&m.dependencies);
    proof {
        lemma_deps_put(dependencies.pairs(), name@, d);
    }
    dependencies.insert(String::from_str(name), d);
    Manifest { name: m.name.clone(), version: m.version.clone(), dependencies }
}

fn is_read_as(r: &Result<Manifest, ManifestError>, m: &Manifest) -> (b: bool)
    ensures
        b == (project_result(*r) == Ok::<Project, Seq<char>>(m@)),
{
    match r {
        Ok(q) => same_manifest(q, m),
        Err(_) => false,
    }
}

/// Inserts or replaces a dependency line in manifest text, comments and
/// formatting kept. A text that would no longer parse is rewritten in full, and
/// so is one that would not be read as the manifest with the dependency, if that
/// mends it. What is read of the result is the old manifest with that one
/// dependency changed, where it can be written without loss. Inserting the same
/// dependency again changes nothing.
pub fn insert_dep_line(text: &str, name: &str, dep: &Dependency) -> (r: String)
    ensures
        r@ == inserted(text@, name@, dep@),
        manifest_text(text@) matches Ok(p) && valid_name(name@) && writable_dep(dep@) && writable(
            with_dep(p, name@, dep@),
        ) ==> manifest_text(r@) == Ok::<Project, Seq<char>>(
            with_dep(manifest_text(text@)->Ok_0, name@, dep@),
        ),
        forall|gs: Seq<Group>|
            plain_doc(gs) && takes_entries(gs) && text@ == #[trigger] doc_text(gs, gs.len() as int)
                && valid_name(name@) && writable_dep(dep@) && manifest_text(text@) is Ok ==> r@
                == with_entry(text@, name@, dep@) && manifest_text(r@) == Ok::<Project, Seq<char>>(
                with_dep(manifest_text(text@)->Ok_0, name@, dep@),
            ),
{
    let parsed = parse_manifest(text);
    let out = edit_dep_line(text, name, dep);
    let edited_parse = parse_manifest(out.as_str());
    proof {
        assert forall|gs: Seq<Group>|
            plain_doc(gs) && takes_entries(gs) && text@ == #[trigger] doc_text(gs, gs.len() as int)
                && valid_name(name@) && writable_dep(dep@) && manifest_text(text@) is Ok implies
        manifest_text(out@) == Ok::<Project, Seq<char>>(
            with_dep(manifest_text(text@)->Ok_0, name@, dep@),
        ) by {
            lemma_doc_with_plain(gs, name@, dep@);
            law_insertion_changes_one_dependency(
                gs,
                name@,
                dep@,
                toml_document(text@)->Ok_0,
                toml_document(out@)->Ok_0,
            );
        }
        if writable_dep(dep@) {
            assert(read_form(dep@) == dep@);
        }
    }
    let empty = Manifest {
        name: String::new(),
        version: String::new(),
        dependencies: NameMap::new(),
    };
    assert(empty.name@ =~= Seq::<char>::empty());
    assert(empty.version@ =~= Seq::<char>::empty());
    assert(empty@.deps =~= Seq::<(Seq<char>, Dep)>::empty());
    let base: &Manifest = match &parsed {
        Ok(m) => m,
        Err(_) => match &edited_parse {
            Ok(q) => q,
            Err(_) => &empty,
        },
    };
    assert(base@ == base_manifest(text@, name@, dep@));
    let form = Dependency {
        git: normalize_git_source(dep.git.as_str()),
        version: trim_str(dep.version.as_str()),
        package: copy_opt(&dep.package),
    };
    let wanted = add_dep(base, name, form);
    if is_read_as(&edited_parse, &wanted) {
        return out;
    }
    let anew = serialize_manifest(&add_dep(base, name, copy_dep(dep)));
    let mended = is_read_as(&parse_manifest(anew.as_str()), &wanted);
    if edited_parse.is_ok() && !mended {
        return out;
    }
    anew
}

/// Removes the lines of a dependency, the rest of the file kept.
pub fn remove_dep_line(text: &str, name: &str) -> (r: String)
    ensures
        r@ == without_entry(text@, name@),
{
    let ls = lines_of(&chars_of(text));
    let n = chars_of(name);
    let ghost all = rows(ls@);
    let mut out: Vec<Vec<char>> = Vec::new();
    let mut inside: bool = false;
    let mut i: usize = 0;
    assert(rows(out@) =~= Seq::<Seq<char>>::empty());
    while i < ls.len()
        invariant
            i <= ls@.len(),
            all == rows(ls@),
            n@ == name@,
            inside == in_deps(all, i as int),
            rows(out@) == cleared(all, name@, i as int),
        decreases ls@.len() - i,
    {
        let t = trim_chars(&ls[i]);
        assert(t@ == trim(all[i as int]));
        let mut keep: bool = true;
        if has_heading(&t) {
            inside = is_text(&t, "[dependencies]");
        } else if inside {
            if let Some(x) = dep_line_name(&t) {
                keep = !eq_chars(&x, &n);
            }
        }
        assert(keep == !is_entry(all, name@, i as int));
        if keep {
            let ghost had = rows(out@);
            out.push(crate::text::copy_chars(&ls[i]));
            assert(rows(out@) =~= had.push(all[i as int]));
        }
        i += 1;
    }
    assert(all.len() == ls@.len());
    line_list(&out)
}

// ---------------------------------------------------------------------------
// Laws
// ---------------------------------------------------------------------------

/// The line of a dependency is read as an entry of its name.
pub proof fn law_entry_line_names_its_dependency(name: Seq<char>, d: Dep)
    requires
        valid_name(name),
    ensures
        trim(entry_line(name, d)) == entry_line(name, d),
        !is_heading(entry_line(name, d)),
        line_name(trim(entry_line(name, d))) == Some(name),
{
    reveal_strlit(" = ");
    reveal_strlit("{ ");
    reveal_strlit(" }");
    reveal_strlit("[");
    reveal_strlit("#");
    let e = entry_line(name, d);
    let v = plain_text(dep_plain(d));
    assert(name_start(name[0]));
    assert(e[0] == name[0]);
    assert(v.len() >= 4);
    assert(e.last() == v.last());
    assert(v.last() == '}');
    assert(trim(e) == e);
    assert(!starts(e, "["@)) by {
        if starts(e, "["@) {
            assert(e.take(1)[0] == "["@[0]);
        }
    }
    assert(!starts(e, "#"@)) by {
        if starts(e, "#"@) {
            assert(e.take(1)[0] == "#"@[0]);
        }
    }
    let k = name.len() as int + 1;
    assert(e[k] == '=');
    assert forall|i: int| 0 <= i < k implies e[i] != '=' by {
        if i < name.len() {
            if i > 0 {
                assert(name_part(name[i]));
            }
            assert(e[i] == name[i]);
        } else {
            assert(e[i] == ' ');
        }
    }
    lemma_first(e, '=');
    assert(first(e, '=') == k) by {
        let f = first(e, '=');
        assert(e.contains(e[k]));
        if f < k {
            assert(e[f] != '=');
        }
        if f > k {
            assert(e[k] != '=');
        }
    }
    let key = e.take(k);
    assert(key =~= name.push(' '));
    assert(key.drop_last() =~= name);
    assert(!is_space(name.last())) by {
        if name.len() > 1 {
            assert(name_part(name[name.len() - 1]));
        }
    }
    assert(drop_start(key, Class::Space) == key);
    assert(drop_end(key, Class::Space) == drop_end(name, Class::Space));
    assert(drop_end(name, Class::Space) == name);
    assert(trim(key) == name);
    assert(drop_start(name, Class::Quote) == name);
    assert(drop_end(name, Class::Quote) == name) by {
        if name.len() > 1 {
            assert(name_part(name[name.len() - 1]));
        }
    }
}

/// Section membership depends only on which lines are headings, and which of
/// those open the dependency section.
pub(crate) proof fn lemma_in_deps_same(a: Seq<Seq<char>>, b: Seq<Seq<char>>, n: int)
    requires
        0 <= n <= a.len(),
        n <= b.len(),
        forall|i: int|
            0 <= i < n ==> is_heading(#[trigger] a[i]) == is_heading(b[i]) && (is_heading(a[i])
                ==> is_deps_heading(a[i]) == is_deps_heading(b[i])),
    ensures
        in_deps(a, n) == in_deps(b, n),
    decreases n,
{
    if n > 0 {
        lemma_in_deps_same(a, b, n - 1);
        assert(is_heading(a[n - 1]) == is_heading(b[n - 1]));
    }
}

pub(crate) proof fn lemma_last_entry(ls: Seq<Seq<char>>, name: Seq<char>, n: int)
    requires
        0 <= n <= ls.len(),
    ensures
        last_entry(ls, name, n) matches Some(i) ==> 0 <= i < n && is_entry(ls, name, i) && forall|
            j: int,
        |
            i < j < n ==> !#[trigger] is_entry(ls, name, j),
        last_entry(ls, name, n) is None ==> forall|j: int|
            0 <= j < n ==> !#[trigger] is_entry(ls, name, j),
    decreases n,
{
    if n > 0 {
        lemma_last_entry(ls, name, n - 1);
    }
}

pub(crate) proof fn lemma_last_entry_is(ls: Seq<Seq<char>>, name: Seq<char>, n: int, i: int)
    requires
        0 <= i < n <= ls.len(),
        is_entry(ls, name, i),
        forall|j: int| i < j < n ==> !#[trigger] is_entry(ls, name, j),
    ensures
        last_entry(ls, name, n) == Some(i),
{
    lemma_last_entry(ls, name, n);
    match last_entry(ls, name, n) {
        Some(k) => {
            if k < i {
                assert(!is_entry(ls, name, i));
            }
        },
        None => {
            assert(!is_entry(ls, name, i));
        },
    }
}

pub(crate) proof fn lemma_deps_heading(ls: Seq<Seq<char>>, n: int)
    requires
        0 <= n <= ls.len(),
    ensures
        deps_heading(ls, n) matches Some(h) ==> 0 <= h < n && is_deps_heading(ls[h])
            && is_heading(ls[h]) && forall|j: int|
            0 <= j < h ==> !(is_deps_heading(#[trigger] ls[j]) && is_heading(ls[j])),
        deps_heading(ls, n) is None ==> forall|j: int|
            0 <= j < n ==> !(is_deps_heading(#[trigger] ls[j]) && is_heading(ls[j])),
    decreases n,
{
    if n > 0 {
        lemma_deps_heading(ls, n - 1);
    }
}

pub(crate) proof fn lemma_no_deps(ls: Seq<Seq<char>>, n: int)
    requires
        0 <= n <= ls.len(),
        forall|j: int| 0 <= j < n ==> !(is_deps_heading(#[trigger] ls[j]) && is_heading(ls[j])),
    ensures
        !in_deps(ls, n),
    decreases n,
{
    if n > 0 {
        lemma_no_deps(ls, n - 1);
        assert(!(is_deps_heading(ls[n - 1]) && is_heading(ls[n - 1])));
    }
}

/// An entry line: one that reads as an entry of `name` in the dependency
/// section and is no heading.
pub open spec fn is_line_of(entry: Seq<char>, name: Seq<char>) -> bool {
    !is_heading(entry) && line_name(trim(entry)) == Some(name)
}

/// Where the edited lines hold the entry: at this position, and it is the last
/// entry of its name.
pub(crate) proof fn lemma_edited_position(ls: Seq<Seq<char>>, name: Seq<char>, entry: Seq<char>) -> (at: int)
    requires
        is_line_of(entry, name),
    ensures
        0 <= at < edited(ls, name, entry).len(),
        edited(ls, name, entry)[at] == entry,
        last_entry(edited(ls, name, entry), name, edited(ls, name, entry).len() as int) == Some(at),
{
    let r = edited(ls, name, entry);
    let n = ls.len() as int;
    lemma_last_entry(ls, name, n);
    lemma_deps_heading(ls, n);
    match last_entry(ls, name, n) {
        Some(i) => {
            assert forall|k: int| 0 <= k < n implies is_heading(#[trigger] ls[k]) == is_heading(
                r[k],
            ) && (is_heading(ls[k]) ==> is_deps_heading(ls[k]) == is_deps_heading(r[k])) by {}
            lemma_in_deps_same(ls, r, i);
            assert(is_entry(r, name, i));
            assert forall|j: int| i < j < n implies !#[trigger] is_entry(r, name, j) by {
                lemma_in_deps_same(ls, r, j);
                assert(!is_entry(ls, name, j));
            }
            lemma_last_entry_is(r, name, n, i);
            i
        },
        None => match deps_heading(ls, n) {
            Some(h) => {
                let at = h + 1;
                assert(r[h] == ls[h]);
                assert(in_deps(r, at));
                assert(is_entry(r, name, at));
                assert forall|j: int| at < j < r.len() implies !#[trigger] is_entry(r, name, j) by {
                    assert(r[j] == ls[j - 1]);
                    lemma_in_deps_shift(ls, r, at, j - 1);
                    assert(!is_entry(ls, name, j - 1));
                }
                lemma_last_entry_is(r, name, r.len() as int, at);
                at
            },
            None => {
                let m = spaced(ls).len() as int;
                let at = m + 1;
                assert(r[m] == "[dependencies]"@);
                lemma_deps_heading_line();
                assert(in_deps(r, at));
                assert(is_entry(r, name, at));
                lemma_last_entry_is(r, name, r.len() as int, at);
                at
            },
        },
    }
}

pub(crate) proof fn lemma_deps_heading_line()
    ensures
        is_heading("[dependencies]"@),
        is_deps_heading("[dependencies]"@),
{
    reveal_strlit("[dependencies]");
    let t = "[dependencies]"@;
    assert(t[0] == '[');
    assert(t.last() == ']');
    assert(trim(t) == t);
    lemma_heading_starts(t);
}

/// A non-heading line put in at `at` does not change the sections behind it.
proof fn lemma_in_deps_shift(ls: Seq<Seq<char>>, r: Seq<Seq<char>>, at: int, n: int)
    requires
        0 <= at <= n <= ls.len(),
        r.len() == ls.len() + 1,
        forall|i: int| 0 <= i < at ==> #[trigger] r[i] == ls[i],
        !is_heading(r[at]),
        forall|i: int| at < i < r.len() ==> #[trigger] r[i] == ls[i - 1],
    ensures
        in_deps(r, n + 1) == in_deps(ls, n),
    decreases n,
{
    if n == at {
        lemma_in_deps_same(ls, r, at);
    } else {
        lemma_in_deps_shift(ls, r, at, n - 1);
        assert(r[n] == ls[n - 1]);
    }
}

/// Editing twice is editing once: the second edit finds the line that the first
/// one wrote.
pub proof fn law_edit_is_idempotent(ls: Seq<Seq<char>>, name: Seq<char>, entry: Seq<char>)
    requires
        is_line_of(entry, name),
    ensures
        edited(edited(ls, name, entry), name, entry) == edited(ls, name, entry),
{
    let r = edited(ls, name, entry);
    let at = lemma_edited_position(ls, name, entry);
    assert(r.update(at, entry) =~= r);
}

/// An edit touches one line: an existing entry is replaced where it stands, and
/// a new one, with a heading where there was none, only adds lines.
pub proof fn law_edit_keeps_other_lines(ls: Seq<Seq<char>>, name: Seq<char>, entry: Seq<char>)
    ensures
        match last_entry(ls, name, ls.len() as int) {
            Some(i) => edited(ls, name, entry).len() == ls.len() && forall|j: int|
                0 <= j < ls.len() && j != i ==> #[trigger] edited(ls, name, entry)[j] == ls[j],
            None => match deps_heading(ls, ls.len() as int) {
                Some(h) => edited(ls, name, entry).remove(h + 1) == ls,
                None => edited(ls, name, entry).take(ls.len() as int) == ls,
            },
        },
{
    lemma_last_entry(ls, name, ls.len() as int);
    lemma_deps_heading(ls, ls.len() as int);
    match last_entry(ls, name, ls.len() as int) {
        Some(i) => {},
        None => match deps_heading(ls, ls.len() as int) {
            Some(h) => {
                assert(ls.insert(h + 1, entry).remove(h + 1) =~= ls);
            },
            None => {
                assert(edited(ls, name, entry).take(ls.len() as int) =~= ls);
            },
        },
    }
}

/// Removal leaves no entry of the name, and what follows stands in the same
/// section as before.
pub proof fn law_removal_is_complete(ls: Seq<Seq<char>>, name: Seq<char>, n: int)
    requires
        0 <= n <= ls.len(),
    ensures
        in_deps(cleared(ls, name, n), cleared(ls, name, n).len() as int) == in_deps(ls, n),
        forall|i: int|
            0 <= i < cleared(ls, name, n).len() ==> !#[trigger] is_entry(
                cleared(ls, name, n),
                name,
                i,
            ),
    decreases n,
{
    if n > 0 {
        law_removal_is_complete(ls, name, n - 1);
        let a = cleared(ls, name, n - 1);
        let b = cleared(ls, name, n);
        if !is_entry(ls, name, n - 1) {
            let m = a.len() as int;
            assert(b[m] == ls[n - 1]);
            lemma_in_deps_same(a, b, m);
            assert forall|i: int| 0 <= i < b.len() implies !#[trigger] is_entry(b, name, i) by {
                if i < m {
                    lemma_in_deps_same(a, b, i);
                    assert(!is_entry(a, name, i));
                }
            }
        }
    }
}

/// Removal keeps every other line, in order, as the entry that it was: line `i`
/// comes behind what is left of the lines before it.
pub proof fn law_removal_keeps_other_lines(
    ls: Seq<Seq<char>>,
    name: Seq<char>,
    n: int,
    i: int,
    other: Seq<char>,
)
    requires
        0 <= i < n <= ls.len(),
        !is_entry(ls, name, i),
    ensures
        cleared(ls, name, i).len() < cleared(ls, name, n).len(),
        cleared(ls, name, n)[cleared(ls, name, i).len() as int] == ls[i],
        is_entry(cleared(ls, name, n), other, cleared(ls, name, i).len() as int) == is_entry(
            ls,
            other,
            i,
        ),
    decreases n,
{
    let at = cleared(ls, name, i).len() as int;
    let b = cleared(ls, name, n);
    if i < n - 1 {
        law_removal_keeps_other_lines(ls, name, n - 1, i, other);
        let a = cleared(ls, name, n - 1);
        lemma_in_deps_same(a, b, at);
    } else {
        law_removal_is_complete(ls, name, i);
        lemma_in_deps_same(cleared(ls, name, i), b, at);
    }
}

proof fn lemma_cleared_same(a: Seq<Seq<char>>, b: Seq<Seq<char>>, name: Seq<char>, n: int)
    requires
        0 <= n <= a.len(),
        n <= b.len(),
        forall|i: int| 0 <= i < n ==> #[trigger] a[i] == b[i],
    ensures
        cleared(a, name, n) == cleared(b, name, n),
    decreases n,
{
    if n > 0 {
        lemma_cleared_same(a, b, name, n - 1);
        lemma_in_deps_same(a, b, n - 1);
    }
}

proof fn lemma_cleared_shift(
    ls: Seq<Seq<char>>,
    r: Seq<Seq<char>>,
    name: Seq<char>,
    at: int,
    n: int,
)
    requires
        0 <= at <= n <= ls.len(),
        r.len() == ls.len() + 1,
        forall|i: int| 0 <= i < at ==> #[trigger] r[i] == ls[i],
        is_entry(r, name, at),
        forall|i: int| at < i < r.len() ==> #[trigger] r[i] == ls[i - 1],
    ensures
        cleared(r, name, n + 1) == cleared(ls, name, n),
    decreases n,
{
    if n == at {
        lemma_cleared_same(ls, r, name, at);
    } else {
        lemma_cleared_shift(ls, r, name, at, n - 1);
        lemma_in_deps_shift(ls, r, at, n - 1);
        assert(r[n] == ls[n - 1]);
    }
}

proof fn lemma_cleared_update(
    ls: Seq<Seq<char>>,
    r: Seq<Seq<char>>,
    name: Seq<char>,
    at: int,
    n: int,
)
    requires
        0 <= at < ls.len(),
        0 <= n <= ls.len(),
        r == ls.update(at, r[at]),
        is_entry(ls, name, at),
        is_entry(r, name, at),
    ensures
        cleared(r, name, n) == cleared(ls, name, n),
        in_deps(r, n) == in_deps(ls, n),
    decreases n,
{
    if n > 0 {
        lemma_cleared_update(ls, r, name, at, n - 1);
    }
}

/// Removal undoes an edit: what is left is what removal would have left of the
/// lines as they were, but for the section that an edit without one opened.
pub proof fn law_removal_undoes_edit(ls: Seq<Seq<char>>, name: Seq<char>, entry: Seq<char>)
    requires
        is_line_of(entry, name),
    ensures
        cleared(edited(ls, name, entry), name, edited(ls, name, entry).len() as int) == if last_entry(
            ls,
            name,
            ls.len() as int,
        ) is Some || deps_heading(ls, ls.len() as int) is Some {
            cleared(ls, name, ls.len() as int)
        } else {
            spaced(ls).push("[dependencies]"@)
        },
{
    let r = edited(ls, name, entry);
    let n = ls.len() as int;
    lemma_last_entry(ls, name, n);
    lemma_deps_heading(ls, n);
    let at = lemma_edited_position(ls, name, entry);
    lemma_last_entry(r, name, r.len() as int);
    match last_entry(ls, name, n) {
        Some(i) => {
            lemma_last_entry(r, name, r.len() as int);
            assert(at == i) by {
                assert forall|k: int| 0 <= k < n implies is_heading(#[trigger] ls[k])
                    == is_heading(r[k]) && (is_heading(ls[k]) ==> is_deps_heading(ls[k])
                    == is_deps_heading(r[k])) by {}
                lemma_in_deps_same(ls, r, i);
                assert(is_entry(r, name, i));
                if at > i {
                    lemma_in_deps_same(ls, r, at);
                    assert(is_entry(ls, name, at));
                }
            }
            lemma_cleared_update(ls, r, name, i, n);
        },
        None => match deps_heading(ls, n) {
            Some(h) => {
                assert(r[h] == ls[h]);
                assert(in_deps(r, h + 1));
                assert(is_entry(r, name, h + 1));
                lemma_cleared_shift(ls, r, name, h + 1, n);
            },
            None => {
                let base = spaced(ls).push("[dependencies]"@);
                let m = spaced(ls).len() as int;
                lemma_deps_heading_line();
                assert(r =~= base.push(entry));
                assert(in_deps(r, m + 1));
                assert(is_entry(r, name, m + 1));
                assert forall|j: int| 0 <= j < m implies !(is_deps_heading(#[trigger] r[j])
                    && is_heading(r[j])) by {
                    if j < n {
                        assert(r[j] == ls[j]);
                    } else {
                        reveal_strlit("[dependencies]");
                        assert(r[j].len() == 0);
                        assert(trim(r[j]).len() == 0);
                    }
                }
                assert forall|i: int| 0 <= i <= m implies !#[trigger] is_entry(r, name, i) by {
                    lemma_no_deps(r, i);
                }
                lemma_cleared_nothing(r, name, m + 1);
                assert(r.take(m + 1) =~= base);
            },
        },
    }
}

pub(crate) proof fn lemma_cleared_nothing(r: Seq<Seq<char>>, name: Seq<char>, n: int)
    requires
        0 <= n <= r.len(),
        forall|i: int| 0 <= i < n ==> !#[trigger] is_entry(r, name, i),
    ensures
        cleared(r, name, n) == r.take(n),
    decreases n,
{
    if n > 0 {
        lemma_cleared_nothing(r, name, n - 1);
        assert(!is_entry(r, name, n - 1));
        assert(r.take(n - 1).push(r[n - 1]) =~= r.take(n));
    } else {
        assert(r.take(0) =~= Seq::<Seq<char>>::empty());
    }
}

} // verus!
