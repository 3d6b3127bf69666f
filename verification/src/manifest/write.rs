//! Writing manifests and reading them back.
use crate::manifest::{
    dep_entries, dep_key, dependencies, dependency, deps, first_unknown, identity, name_part,
    name_start, project, requested, valid_name, valid_path, validity, Dep, Dependency, Manifest,
    Project,
};
use crate::names::{ascending, lemma_ascending_unique, pair_keys, put};
use crate::source::normal_source;
use crate::text::{before, is_alpha, is_digit, lemma_before_total, split, trim};
use crate::tomldoc::{
    bare_key, compatible, doc_text, elements, get, group_text, holds_doc, holds_key, holds_plain,
    inline_get, inline_text, keys, pairs_text, plain_chars, plain_doc, plain_get, plain_group,
    plain_text, plain_value, quoted, section, Group, Heading, Plain, Tree,
};
use crate::versions::valid_req;
use vstd::prelude::*;
use vstd::string::*;

verus! {

/// A dependency as an inline table.
pub open spec fn dep_plain(d: Dep) -> Plain {
    match d.package {
        Some(p) => Plain::Inline(
            seq![("git"@, d.git), ("version"@, d.version), ("package"@, p)],
        ),
        None => Plain::Inline(seq![("git"@, d.git), ("version"@, d.version)]),
    }
}

/// The `[dependencies]` lines.
pub open spec fn dep_pairs(deps: Seq<(Seq<char>, Dep)>) -> Seq<(Seq<char>, Plain)> {
    Seq::new(deps.len(), |i: int| (deps[i].0, dep_plain(deps[i].1)))
}

/// The `[package]` section.
pub open spec fn package_group(p: Project) -> Group {
    Group {
        lead: Seq::empty(),
        heading: Heading::Section("package"@),
        pairs: seq![("name"@, Plain::Text(p.name)), ("version"@, Plain::Text(p.version))],
    }
}

/// The `[dependencies]` section, behind an empty line.
pub open spec fn deps_group(p: Project) -> Group {
    Group {
        lead: "\n"@,
        heading: Heading::Section("dependencies"@),
        pairs: dep_pairs(p.deps),
    }
}

/// A manifest in section form; without dependencies there is no section for
/// them.
pub open spec fn manifest_doc(p: Project) -> Seq<Group> {
    if p.deps.len() == 0 {
        seq![package_group(p)]
    } else {
        seq![package_group(p), deps_group(p)]
    }
}

/// The text of a manifest in section form.
pub open spec fn written(p: Project) -> Seq<char> {
    doc_text(manifest_doc(p), manifest_doc(p).len() as int)
}

/// `s` between double quotes.
pub(crate) fn quote(s: &str) -> (r: String)
    ensures
        r@ == quoted(s@),
{
    let mut out = String::from_str("\"");
    out.append(s);
    out.append("\"");
    out
}

/// A dependency as an inline table.
pub fn serialize_dep_value(dep: &Dependency) -> (r: String)
    ensures
        r@ == plain_text(dep_plain(dep@)),
{
    let mut inner = String::from_str("git");
    inner.append(" = ");
    inner.append(quote(dep.git.as_str()).as_str());
    let ghost two = seq![("git"@, dep.git@), ("version"@, dep.version@)];
    proof {
        reveal_with_fuel(inline_text, 4);
    }
    assert(inner@ == inline_text(two, 1));
    inner.append(", ");
    inner.append("version");
    inner.append(" = ");
    inner.append(quote(dep.version.as_str()).as_str());
    assert(inner@ == inline_text(two, 2));
    if let Some(p) = &dep.package {
        let ghost three = seq![("git"@, dep.git@), ("version"@, dep.version@), ("package"@, p@)];
        assert(inline_text(three, 1) == inline_text(two, 1));
        assert(inline_text(three, 2) == inline_text(two, 2));
        inner.append(", ");
        inner.append("package");
        inner.append(" = ");
        inner.append(quote(p.as_str()).as_str());
        assert(inner@ == inline_text(three, 3));
    }
    let mut out = String::from_str("{ ");
    out.append(inner.as_str());
    out.append(" }");
    out
}

/// Appends the line `key = value`.
pub(crate) fn push_line(out: &mut String, key: &str, value: &str)
    ensures
        final(out)@ == old(out)@ + key@ + " = "@ + value@ + "\n"@,
{
    out.append(key);
    out.append(" = ");
    out.append(value);
    out.append("\n");
}

/// Writes a manifest in section form, dependencies ascending by name.
pub fn serialize_manifest(manifest: &Manifest) -> (r: String)
    ensures
        r@ == written(manifest@),
{
    let ghost p = manifest@;
    let ghost g = package_group(p);
    let ghost h = deps_group(p);
    let mut lines = String::new();
    assert(lines@ =~= Seq::<char>::empty());
    push_line(&mut lines, "name", quote(manifest.name.as_str()).as_str());
    push_line(&mut lines, "version", quote(manifest.version.as_str()).as_str());
    proof {
        reveal_with_fuel(pairs_text, 3);
        reveal_with_fuel(doc_text, 3);
    }
    assert(lines@ == pairs_text(g.pairs, 2));
    let mut out = String::from_str("[package]\n");
    proof {
        reveal_strlit("[package]\n");
        reveal_strlit("[");
        reveal_strlit("package");
        reveal_strlit("]\n");
        assert("[package]\n"@ =~= Seq::<char>::empty() + ("["@ + "package"@ + "]\n"@));
    }
    out.append(lines.as_str());
    assert(out@ == group_text(g));
    assert(doc_text(seq![g], 1) =~= group_text(g));
    let n: usize = manifest.dependencies.len();
    if n == 0 {
        return out;
    }
    let mut body = String::new();
    let ghost pairs = dep_pairs(p.deps);
    let mut i: usize = 0;
    assert(body@ =~= Seq::<char>::empty());
    while i < n
        invariant
            i <= n,
            n == manifest.dependencies.pairs().len(),
            p == manifest@,
            pairs == dep_pairs(p.deps),
            body@ == pairs_text(pairs, i as int),
        decreases n - i,
    {
        let value = serialize_dep_value(manifest.dependencies.value_at(i));
        push_line(&mut body, manifest.dependencies.key_at(i).as_str(), value.as_str());
        assert(pairs[i as int] == (p.deps[i as int].0, dep_plain(p.deps[i as int].1)));
        i += 1;
    }
    let mut second = String::from_str("\n[dependencies]\n");
    proof {
        reveal_strlit("\n[dependencies]\n");
        reveal_strlit("dependencies");
        reveal_strlit("\n");
        assert("\n[dependencies]\n"@ =~= "\n"@ + ("["@ + "dependencies"@ + "]\n"@));
    }
    second.append(body.as_str());
    assert(second@ == group_text(h));
    out.append(second.as_str());
    proof {
        let gs = manifest_doc(p);
        assert(gs[0] == g && gs[1] == h);
        assert(doc_text(gs, 1) =~= group_text(g));
    }
    out
}

// ---------------------------------------------------------------------------
// Reading back
// ---------------------------------------------------------------------------

/// A dependency that can be written without loss: its source is in normal
/// form, its request valid and trimmed, and nothing in it needs an escape.
pub open spec fn writable_dep(d: Dep) -> bool {
    &&& d.git.len() > 0
    &&& normal_source(d.git) == d.git
    &&& plain_chars(d.git)
    &&& trim(d.version) == d.version
    &&& valid_req(d.version)
    &&& plain_chars(d.version)
    &&& d.package matches Some(p) ==> valid_path(p)
}

/// A manifest that can be written without loss.
pub open spec fn writable(p: Project) -> bool {
    &&& plain_chars(p.name)
    &&& plain_chars(p.version)
    &&& trim(p.name).len() > 0
    &&& trim(p.version).len() > 0
    &&& ascending(pair_keys(p.deps))
    &&& forall|i: int|
        0 <= i < p.deps.len() ==> valid_name((#[trigger] p.deps[i]).0) && writable_dep(p.deps[i].1)
}

pub(crate) proof fn lemma_valid_name_plain(s: Seq<char>)
    requires
        valid_name(s),
    ensures
        bare_key(s),
        plain_chars(s),
{
    assert forall|i: int| 0 <= i < s.len() implies is_alpha(#[trigger] s[i]) || is_digit(s[i])
        || s[i] == '_' || s[i] == '-' by {
        if i > 0 {
            assert(name_part(s[i]));
        } else {
            assert(name_start(s[0]));
        }
    }
    assert forall|i: int| 0 <= i < s.len() implies (#[trigger] s[i]) >= ' ' && s[i] != '\u{7f}'
        && s[i] != '"' && s[i] != '\\' by {
        assert(is_alpha(s[i]) || is_digit(s[i]) || s[i] == '_' || s[i] == '-');
    }
}

proof fn lemma_split_plain(s: Seq<char>, sep: Seq<char>)
    requires
        sep.len() > 0,
        plain_chars(sep),
        forall|i: int| 0 <= i < split(s, sep).len() ==> plain_chars(#[trigger] split(s, sep)[i]),
    ensures
        plain_chars(s),
    decreases s.len(),
{
    crate::text::lemma_find(s, sep);
    match crate::text::find(s, sep) {
        Some(k) => {
            let rest = s.skip(k + sep.len());
            let parts = split(s, sep);
            assert(parts =~= seq![s.take(k)] + split(rest, sep));
            assert forall|i: int| 0 <= i < split(rest, sep).len() implies plain_chars(
                #[trigger] split(rest, sep)[i],
            ) by {
                assert(parts[i + 1] == split(rest, sep)[i]);
            }
            lemma_split_plain(rest, sep);
            assert(plain_chars(parts[0]));
            assert forall|i: int| 0 <= i < s.len() implies ((#[trigger] s[i]) >= ' ' || s[i]
                == '\t') && s[i] != '\u{7f}' && s[i] != '"' && s[i] != '\\' by {
                if i < k {
                    assert(s.take(k)[i] == s[i]);
                } else if i < k + sep.len() {
                    assert(s.skip(k).take(sep.len() as int)[i - k] == s[i]);
                    assert(sep[i - k] == s[i]);
                } else {
                    assert(rest[i - k - sep.len()] == s[i]);
                }
            }
        },
        None => {
            assert(split(s, sep)[0] == s);
        },
    }
}

pub(crate) proof fn lemma_valid_path_plain(s: Seq<char>)
    requires
        valid_path(s),
    ensures
        plain_chars(s),
{
    reveal_strlit("::");
    assert forall|i: int| 0 <= i < split(s, "::"@).len() implies plain_chars(
        #[trigger] split(s, "::"@)[i],
    ) by {
        assert(valid_name(split(s, "::"@)[i]));
        lemma_valid_name_plain(split(s, "::"@)[i]);
    }
    lemma_split_plain(s, "::"@);
}

pub(crate) proof fn lemma_dep_plain(d: Dep)
    requires
        writable_dep(d),
    ensures
        plain_value(dep_plain(d)),
{
    reveal_strlit("git");
    reveal_strlit("version");
    reveal_strlit("package");
    assert(bare_key("git"@));
    assert(bare_key("version"@));
    assert(bare_key("package"@));
    assert("git"@.len() == 3 && "version"@.len() == 7 && "package"@.len() == 7);
    assert("version"@[0] != "package"@[0]);
    match d.package {
        Some(p) => {
            lemma_valid_path_plain(p);
        },
        None => {},
    }
}

pub(crate) proof fn lemma_manifest_doc_plain(p: Project)
    requires
        writable(p),
    ensures
        plain_doc(manifest_doc(p)),
{
    reveal_strlit("name");
    reveal_strlit("version");
    reveal_strlit("package");
    reveal_strlit("dependencies");
    assert(bare_key("name"@));
    assert(bare_key("version"@));
    assert(bare_key("package"@));
    assert(bare_key("dependencies"@));
    assert("name"@.len() == 4 && "version"@.len() == 7);
    assert("package"@.len() == 7 && "dependencies"@.len() == 12);
    let g = package_group(p);
    assert(plain_group(g));
    let h = deps_group(p);
    assert forall|i: int| 0 <= i < h.pairs.len() implies bare_key((#[trigger] h.pairs[i]).0)
        && plain_value(h.pairs[i].1) by {
        let x = p.deps[i];
        lemma_valid_name_plain(x.0);
        lemma_dep_plain(x.1);
    }
    assert forall|i: int, j: int| 0 <= i < j < h.pairs.len() implies (#[trigger] h.pairs[i]).0 != (
    #[trigger] h.pairs[j]).0 by {
        let ks = pair_keys(p.deps);
        assert(before(ks[i], ks[j]));
        lemma_before_total(ks[i], ks[j]);
    }
    assert(plain_group(h));
    let gs = manifest_doc(p);
    assert forall|i: int| 0 <= i < gs.len() implies plain_group(#[trigger] gs[i]) by {
        assert(gs[i] == g || gs[i] == h);
    }
    assert forall|i: int, j: int|
        0 <= i < gs.len() && 0 <= j < gs.len() && i != j implies compatible(
        #[trigger] gs[i],
        #[trigger] gs[j],
        i < j,
    ) by {
        assert(gs[i].heading != gs[j].heading);
    }
}

/// In a table with ascending keys every entry is found under its key, and
/// nothing else is.
pub(crate) proof fn lemma_get_entry(t: Seq<(Seq<char>, Tree)>)
    requires
        ascending(keys(t)),
    ensures
        forall|i: int| 0 <= i < t.len() ==> get(t, (#[trigger] t[i]).0) == Some(t[i].1),
        forall|k: Seq<char>| #[trigger] get(t, k) is Some <==> keys(t).contains(k),
    decreases t.len(),
{
    if t.len() > 0 {
        let u = t.skip(1);
        let ks = keys(t);
        assert(ascending(keys(u))) by {
            assert forall|i: int, j: int| 0 <= i < j < keys(u).len() implies before(
                #[trigger] keys(u)[i],
                #[trigger] keys(u)[j],
            ) by {
                assert(before(ks[i + 1], ks[j + 1]));
            }
        }
        lemma_get_entry(u);
        assert forall|i: int| 0 <= i < t.len() implies get(t, (#[trigger] t[i]).0) == Some(
            t[i].1,
        ) by {
            if i > 0 {
                assert(before(ks[0], ks[i]));
                lemma_before_total(ks[0], ks[i]);
                assert(u[i - 1] == t[i]);
            }
        }
        assert forall|k: Seq<char>| #[trigger] get(t, k) is Some <==> ks.contains(k) by {
            assert(get(u, k) is Some <==> keys(u).contains(k));
            if keys(u).contains(k) {
                let m = choose|m: int| 0 <= m < keys(u).len() && keys(u)[m] == k;
                assert(ks[m + 1] == k);
            }
            if ks.contains(k) {
                let m = choose|m: int| 0 <= m < ks.len() && ks[m] == k;
                if m > 0 {
                    assert(keys(u)[m - 1] == k);
                } else {
                    assert(t[0].0 == k);
                }
            }
            if t[0].0 == k {
                assert(ks[0] == k);
            }
        }
    }
}

proof fn lemma_known_keys(t: Seq<(Seq<char>, Tree)>, i: int)
    requires
        0 <= i <= t.len(),
        forall|k: int| 0 <= k < t.len() ==> dep_key((#[trigger] t[k]).0),
    ensures
        first_unknown(t, i) is None,
    decreases t.len() - i,
{
    if i < t.len() {
        lemma_known_keys(t, i + 1);
    }
}

pub(crate) proof fn lemma_dep_reads_back(name: Seq<char>, d: Dep, v: Tree)
    requires
        valid_name(name),
        writable_dep(d),
        holds_plain(v, dep_plain(d)),
    ensures
        requested(v) == d.version,
        dependency(name, v, valid_req(requested(v))) == Ok::<Dep, Seq<char>>(d),
{
    reveal_strlit("git");
    reveal_strlit("version");
    reveal_strlit("package");
    assert("git"@.len() == 3 && "version"@.len() == 7 && "package"@.len() == 7);
    assert("version"@[0] != "package"@[0]);
    let t = v->Table_0;
    let ps = dep_plain(d)->Inline_0;
    reveal_with_fuel(inline_get, 4);
    match d.package {
        Some(p) => {
            assert(ps.drop_last() =~= seq![("git"@, d.git), ("version"@, d.version)]);
            assert(ps.drop_last().drop_last() =~= seq![("git"@, d.git)]);
            assert(get(t, "package"@) == Some(Tree::Text(p)));
        },
        None => {
            assert(ps.drop_last() =~= seq![("git"@, d.git)]);
            assert(get(t, "package"@) is None);
        },
    }
    assert(get(t, "git"@) == Some(Tree::Text(d.git)));
    assert(get(t, "version"@) == Some(Tree::Text(d.version)));
    lemma_get_entry(t);
    assert forall|k: int| 0 <= k < t.len() implies dep_key((#[trigger] t[k]).0) by {
        assert(get(t, t[k].0) is Some);
        assert(inline_get(ps, t[k].0) is Some);
    }
    lemma_known_keys(t, 0);
}

proof fn lemma_deps_read_back(
    t: Seq<(Seq<char>, Tree)>,
    deps: Seq<(Seq<char>, Dep)>,
    n: int,
)
    requires
        0 <= n <= deps.len() == t.len(),
        ascending(pair_keys(deps)),
        forall|i: int|
            0 <= i < deps.len() ==> valid_name((#[trigger] deps[i]).0) && writable_dep(deps[i].1),
        forall|i: int|
            0 <= i < t.len() ==> (#[trigger] t[i]).0 == deps[i].0 && holds_plain(
                t[i].1,
                dep_plain(deps[i].1),
            ),
    ensures
        dependencies(t, validity(t), n) == Ok::<Seq<(Seq<char>, Dep)>, Seq<char>>(deps.take(n)),
    decreases n,
{
    if n > 0 {
        lemma_deps_read_back(t, deps, n - 1);
        lemma_dep_reads_back(deps[n - 1].0, deps[n - 1].1, t[n - 1].1);
        let done = deps.take(n - 1);
        if n > 1 {
            let ks = pair_keys(deps);
            assert(before(ks[n - 2], ks[n - 1]));
            assert(done.last() == deps[n - 2]);
        }
        assert(put(done, deps[n - 1].0, deps[n - 1].1) =~= deps.take(n));
    } else {
        assert(deps.take(0) =~= Seq::<(Seq<char>, Dep)>::empty());
    }
}

proof fn lemma_plain_get(ps: Seq<(Seq<char>, Plain)>)
    requires
        ascending(plain_keys(ps)),
    ensures
        forall|i: int| 0 <= i < ps.len() ==> plain_get(ps, (#[trigger] ps[i]).0) == Some(ps[i].1),
        forall|k: Seq<char>| #[trigger]
            plain_get(ps, k) is Some <==> plain_keys(ps).contains(k),
    decreases ps.len(),
{
    if ps.len() > 0 {
        let u = ps.drop_last();
        let ks = plain_keys(ps);
        let us = plain_keys(u);
        assert(ascending(us)) by {
            assert forall|i: int, j: int| 0 <= i < j < us.len() implies before(
                #[trigger] us[i],
                #[trigger] us[j],
            ) by {
                assert(before(ks[i], ks[j]));
            }
        }
        lemma_plain_get(u);
        assert forall|i: int| 0 <= i < ps.len() implies plain_get(ps, (#[trigger] ps[i]).0) == Some(
            ps[i].1,
        ) by {
            if i < u.len() {
                assert(before(ks[i], ks[u.len() as int]));
                lemma_before_total(ks[i], ks[u.len() as int]);
                assert(u[i] == ps[i]);
            }
        }
        assert forall|k: Seq<char>| #[trigger] plain_get(ps, k) is Some <==> ks.contains(k) by {
            assert(plain_get(u, k) is Some <==> us.contains(k));
            if us.contains(k) {
                let m = choose|m: int| 0 <= m < us.len() && us[m] == k;
                assert(ks[m] == k);
            }
            if ks.contains(k) {
                let m = choose|m: int| 0 <= m < ks.len() && ks[m] == k;
                if m < us.len() {
                    assert(us[m] == k);
                }
            }
            if ps.last().0 == k {
                assert(ks[u.len() as int] == k);
            }
        }
    }
}

spec fn plain_keys(ps: Seq<(Seq<char>, Plain)>) -> Seq<Seq<char>> {
    Seq::new(ps.len(), |i: int| ps[i].0)
}

/// A manifest that is written down and read as the document it writes is the
/// manifest again.
pub proof fn law_manifest_reads_back(p: Project, v: Tree)
    requires
        writable(p),
        holds_doc(v, manifest_doc(p)),
    ensures
        plain_doc(manifest_doc(p)),
        project(v, validity(dep_entries(v))) == Ok::<Project, Seq<char>>(p),
{
    lemma_manifest_doc_plain(p);
    reveal_strlit("name");
    reveal_strlit("version");
    reveal_strlit("package");
    reveal_strlit("dependencies");
    assert("name"@.len() == 4 && "version"@.len() == 7);
    assert("package"@.len() == 7 && "dependencies"@.len() == 12);
    let gs = manifest_doc(p);
    let t = v->Table_0;
    reveal_with_fuel(section, 3);
    reveal_with_fuel(plain_get, 3);
    let g = package_group(p);
    let h = deps_group(p);
    if p.deps.len() > 0 {
        assert(gs.drop_last() =~= seq![g]);
    }
    assert(section(gs, "package"@) == Some(g.pairs));
    assert(holds_key(get(t, "package"@), gs, "package"@));
    let pkg = get(t, "package"@)->0;
    let u = pkg->Table_0;
    assert(g.pairs.drop_last() =~= seq![("name"@, Plain::Text(p.name))]);
    assert(plain_get(g.pairs, "name"@) == Some(Plain::Text(p.name)));
    assert(plain_get(g.pairs, "version"@) == Some(Plain::Text(p.version)));
    assert(get(u, "name"@) == Some(Tree::Text(p.name)));
    assert(get(u, "version"@) == Some(Tree::Text(p.version)));
    assert(identity(t, "name"@) == Some(p.name));
    assert(identity(t, "version"@) == Some(p.version));
    assert(holds_key(get(t, "dependencies"@), gs, "dependencies"@));
    if p.deps.len() == 0 {
        assert(section(gs, "dependencies"@) is None);
        reveal_with_fuel(elements, 2);
        reveal_with_fuel(crate::tomldoc::top, 2);
        assert(get(t, "dependencies"@) is None);
        assert(dep_entries(v) =~= Seq::<(Seq<char>, Tree)>::empty());
        assert(p.deps =~= Seq::<(Seq<char>, Dep)>::empty());
    } else {
        assert(section(gs, "dependencies"@) == Some(h.pairs));
        let d = get(t, "dependencies"@)->0->Table_0;
        assert(dep_entries(v) == d);
        let ks = pair_keys(p.deps);
        assert(plain_keys(h.pairs) =~= ks);
        lemma_plain_get(h.pairs);
        lemma_get_entry(d);
        assert forall|k: Seq<char>| keys(d).contains(k) <==> ks.contains(k) by {
            assert(get(d, k) is Some <==> plain_get(h.pairs, k) is Some);
        }
        assert(keys(d).to_set() =~= ks.to_set());
        lemma_ascending_unique(keys(d), ks);
        assert forall|i: int| 0 <= i < d.len() implies (#[trigger] d[i]).0 == p.deps[i].0
            && holds_plain(d[i].1, dep_plain(p.deps[i].1)) by {
            assert(keys(d)[i] == ks[i]);
            assert(get(d, d[i].0) == Some(d[i].1));
            assert(h.pairs[i].0 == d[i].0);
            assert(plain_get(h.pairs, h.pairs[i].0) == Some(h.pairs[i].1));
        }
        assert(d.len() == keys(d).len());
        lemma_deps_read_back(d, p.deps, d.len() as int);
        assert(p.deps.take(d.len() as int) =~= p.deps);
    }
}

} // verus!
