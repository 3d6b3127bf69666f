//! Which documents are manifests, lockfiles and markers, and what they say.
use crate::manifest::lock::{law_pins_sorted, lock_text, locked, name_order, pin, pin_list};
use crate::manifest::marker::mark;
use crate::manifest::{
    dep_entries, dep_key, dependencies, dependency, first_unknown, identity, name_part, project,
    valid_name, valid_path, Dep, Pin,
};
use crate::names::{ascending, lemma_put_ascending, lemma_put_get, pair_get, pair_keys};
use crate::source::normal_source;
use crate::text::{split, trim};
use crate::text_laws::{
    law_decimal_reads_back, law_last_piece_follows_the_last_separator, lemma_no_piece, number,
};
use crate::tomldoc::{get, get_scalar, scalar, Tree};
use vstd::prelude::*;

verus! {

proof fn lemma_first_unknown(t: Seq<(Seq<char>, Tree)>, i: int)
    requires
        0 <= i <= t.len(),
    ensures
        first_unknown(t, i) is None <==> forall|j: int|
            i <= j < t.len() ==> dep_key((#[trigger] t[j]).0),
    decreases t.len() - i,
{
    if i < t.len() && dep_key(t[i].0) {
        lemma_first_unknown(t, i + 1);
    }
}

/// The table describes a dependency: it has a source, no key but the three that
/// are known, and a package path, if any, that can be imported.
pub open spec fn describes(t: Seq<(Seq<char>, Tree)>) -> bool {
    &&& get_scalar(t, "git"@) matches Some(raw) && normal_source(raw).len() > 0
    &&& get(t, "package"@) matches Some(x) ==> (scalar(x) matches Some(p) && valid_path(p))
    &&& forall|j: int|
        0 <= j < t.len() ==> (#[trigger] t[j]).0 == "git"@ || t[j].0 == "version"@ || t[j].0
            == "package"@
}

/// A dependency is accepted exactly when its name can be imported and it is the
/// text of a source, or a table that describes one with a valid version request.
/// It comes out as it was written, its source in normal form.
pub proof fn law_dependencies_are_as_written(name: Seq<char>, v: Tree, valid: bool)
    ensures
        dependency(name, v, valid) is Ok <==> valid_name(name) && match v {
            Tree::Text(s) => normal_source(s).len() > 0,
            Tree::Table(t) => describes(t) && valid,
            _ => false,
        },
        dependency(name, v, valid) matches Ok(d) ==> match v {
            Tree::Text(s) => d == (Dep {
                git: normal_source(s),
                version: "latest"@,
                package: None,
            }),
            Tree::Table(t) => {
                &&& get_scalar(t, "git"@) matches Some(raw) && d.git == normal_source(raw)
                &&& d.version == match get_scalar(t, "version"@) {
                    Some(s) => trim(s),
                    None => "latest"@,
                }
                &&& d.package == get_scalar(t, "package"@)
            },
            _ => false,
        },
{
    match v {
        Tree::Table(t) => {
            lemma_first_unknown(t, 0);
            assert(first_unknown(t, 0) is None <==> forall|j: int|
                0 <= j < t.len() ==> (#[trigger] t[j]).0 == "git"@ || t[j].0 == "version"@ || t[j].0
                    == "package"@) by {
                if forall|j: int|
                    0 <= j < t.len() ==> (#[trigger] t[j]).0 == "git"@ || t[j].0 == "version"@
                        || t[j].0 == "package"@ {
                    assert forall|j: int| 0 <= j < t.len() implies dep_key(
                        (#[trigger] t[j]).0,
                    ) by {}
                }
                if first_unknown(t, 0) is None {
                    assert forall|j: int| 0 <= j < t.len() implies (#[trigger] t[j]).0 == "git"@
                        || t[j].0 == "version"@ || t[j].0 == "package"@ by {
                        assert(dep_key(t[j].0));
                    }
                }
            }
        },
        _ => {},
    }
}

/// Dependencies are read all or none: one bad entry refuses them all, and where
/// all are good each is there under its name.
pub proof fn law_one_bad_dependency_refuses_all(
    t: Seq<(Seq<char>, Tree)>,
    valid: Seq<bool>,
    n: int,
)
    requires
        0 <= n <= t.len() == valid.len(),
    ensures
        dependencies(t, valid, n) is Ok <==> forall|i: int|
            0 <= i < n ==> dependency((#[trigger] t[i]).0, t[i].1, valid[i]) is Ok,
        dependencies(t, valid, n) matches Ok(ds) ==> {
            &&& ascending(pair_keys(ds))
            &&& forall|i: int|
                0 <= i < n && (forall|j: int| i < j < n ==> (#[trigger] t[j]).0 != t[i].0)
                    ==> pair_get(ds, (#[trigger] t[i]).0) == Some(
                    dependency(t[i].0, t[i].1, valid[i])->Ok_0,
                )
            &&& forall|x: Seq<char>|
                (forall|i: int| 0 <= i < n ==> (#[trigger] t[i]).0 != x) ==> #[trigger] pair_get(
                    ds,
                    x,
                ) is None
        },
    decreases n,
{
    if n > 0 {
        law_one_bad_dependency_refuses_all(t, valid, n - 1);
        let one = dependency(t[n - 1].0, t[n - 1].1, valid[n - 1]);
        if dependencies(t, valid, n - 1) is Ok && one is Ok {
            let before = dependencies(t, valid, n - 1)->Ok_0;
            let d = one->Ok_0;
            let ds = dependencies(t, valid, n)->Ok_0;
            lemma_put_ascending(before, t[n - 1].0, d);
            assert forall|i: int|
                0 <= i < n && (forall|j: int| i < j < n ==> (#[trigger] t[j]).0 != t[i].0) implies
                pair_get(ds, (#[trigger] t[i]).0) == Some(
                dependency(t[i].0, t[i].1, valid[i])->Ok_0,
            ) by {
                lemma_put_get(before, t[n - 1].0, d, t[i].0);
                if i < n - 1 {
                    assert(t[n - 1].0 != t[i].0);
                }
            }
            assert forall|x: Seq<char>|
                (forall|i: int| 0 <= i < n ==> (#[trigger] t[i]).0 != x) implies #[trigger] pair_get(
                ds,
                x,
            ) is None by {
                lemma_put_get(before, t[n - 1].0, d, x);
                assert(t[n - 1].0 != x);
            }
        }
    } else {
        assert(pair_keys(Seq::<(Seq<char>, Dep)>::empty()) =~= Seq::empty());
    }
}

/// A document is a manifest exactly when it has a name and a version, neither
/// blank, and its dependencies, if any, are a table of good ones. Name and version
/// come from `[package]` where it has them, else from the top.
pub proof fn law_manifests_need_a_name_and_a_version(t: Seq<(Seq<char>, Tree)>, valid: Seq<bool>)
    ensures
        ({
            let v = Tree::Table(t);
            let ds = dep_entries(v);
            &&& project(v, valid) is Ok <==> {
                &&& identity(t, "name"@) matches Some(n) && trim(n).len() > 0
                &&& identity(t, "version"@) matches Some(n) && trim(n).len() > 0
                &&& get(t, "dependencies"@) is Some ==> get(t, "dependencies"@)->0 is Table
                &&& dependencies(ds, valid, ds.len() as int) is Ok
            }
            &&& project(v, valid) matches Ok(p) ==> {
                &&& identity(t, "name"@) == Some(p.name)
                &&& identity(t, "version"@) == Some(p.version)
                &&& dependencies(ds, valid, ds.len() as int) == Ok::<
                    Seq<(Seq<char>, Dep)>,
                    Seq<char>,
                >(p.deps)
            }
        }),
        (get(t, "package"@) matches Some(Tree::Table(p)) ==> forall|k: Seq<char>|
            get_scalar(p, k) is Some ==> #[trigger] identity(t, k) == get_scalar(p, k)),
        !(get(t, "package"@) matches Some(Tree::Table(_))) ==> forall|k: Seq<char>| #[trigger]
            identity(t, k) == get_scalar(t, k),
{
}

/// An entry of a lockfile is a pin exactly when it has a name that can be
/// imported, a source, a version and a commit; the pin is what it says.
pub proof fn law_pins_are_complete(v: Tree)
    ensures
        pin(v) is Ok <==> (v matches Tree::Table(t) && (get_scalar(t, "name"@) matches Some(n)
            && valid_name(n)) && get_scalar(t, "git"@) is Some && get_scalar(t, "version"@) is Some
            && get_scalar(t, "rev"@) is Some),
        pin(v) matches Ok(p) ==> (v matches Tree::Table(t) && get_scalar(t, "name"@) == Some(p.name)
            && get_scalar(t, "git"@) == Some(p.git) && get_scalar(t, "version"@) == Some(p.version)
            && get_scalar(t, "rev"@) == Some(p.rev) && get_scalar(t, "package"@) == p.package),
{
}

proof fn lemma_pin_list(s: Seq<Tree>, n: int)
    requires
        0 <= n <= s.len(),
    ensures
        pin_list(s, n) is Ok <==> forall|i: int| 0 <= i < n ==> pin(#[trigger] s[i]) is Ok,
        pin_list(s, n) matches Ok(ps) ==> ps.len() == n && forall|i: int|
            0 <= i < n ==> pin(s[i]) == Ok::<Pin, Seq<char>>(#[trigger] ps[i]),
    decreases n,
{
    if n > 0 {
        lemma_pin_list(s, n - 1);
    }
}

/// A lockfile pins exactly its entries, in name order: one that is no pin refuses
/// the file, and none is lost or made up.
pub proof fn law_lockfiles_hold_every_entry(t: Seq<(Seq<char>, Tree)>, s: Seq<Tree>)
    requires
        get(t, "package"@) == Some(Tree::List(s)),
    ensures
        locked(Tree::Table(t)) is Ok <==> forall|i: int|
            0 <= i < s.len() ==> pin(#[trigger] s[i]) is Ok,
        locked(Tree::Table(t)) matches Ok(ps) ==> {
            &&& name_order(ps)
            &&& ps.to_multiset() == Seq::new(s.len(), |i: int| pin(s[i])->Ok_0).to_multiset()
        },
{
    lemma_pin_list(s, s.len() as int);
    if pin_list(s, s.len() as int) is Ok {
        let all = pin_list(s, s.len() as int)->Ok_0;
        law_pins_sorted(all);
        assert(all =~= Seq::new(s.len(), |i: int| pin(s[i])->Ok_0));
    }
}

/// A blank lockfile, and one without entries, pins nothing.
pub proof fn law_empty_lockfiles_pin_nothing(text: Seq<char>, t: Seq<(Seq<char>, Tree)>)
    ensures
        trim(text).len() == 0 ==> lock_text(text) == Ok::<Seq<Pin>, Seq<char>>(Seq::empty()),
        get(t, "package"@) is None ==> locked(Tree::Table(t)) == Ok::<Seq<Pin>, Seq<char>>(
            Seq::empty(),
        ),
{
}

/// A marker tells source, version and commit, and is none without all three.
pub proof fn law_markers_are_complete(v: Tree)
    ensures
        mark(v) is Ok <==> (v matches Tree::Table(t) && get_scalar(t, "git"@) is Some && get_scalar(
            t,
            "version"@,
        ) is Some && get_scalar(t, "rev"@) is Some),
        mark(v) matches Ok(m) ==> (v matches Tree::Table(t) && get_scalar(t, "git"@) == Some(m.git)
            && get_scalar(t, "version"@) == Some(m.version) && get_scalar(t, "rev"@) == Some(m.rev)),
{
}

/// A value is looked up by its key: the first entry with it counts.
pub proof fn law_values_are_found_by_key(t: Seq<(Seq<char>, Tree)>, key: Seq<char>)
    ensures
        get(t, key) matches Some(v) ==> exists|i: int|
            0 <= i < t.len() && #[trigger] t[i] == (key, v) && forall|j: int|
                0 <= j < i ==> (#[trigger] t[j]).0 != key,
        get(t, key) is None <==> forall|i: int| 0 <= i < t.len() ==> (#[trigger] t[i]).0 != key,
    decreases t.len(),
{
    if t.len() > 0 && t[0].0 != key {
        let rest = t.skip(1);
        law_values_are_found_by_key(rest, key);
        if get(rest, key) is Some {
            let v = get(rest, key)->0;
            let i = choose|i: int|
                0 <= i < rest.len() && #[trigger] rest[i] == (key, v) && forall|j: int|
                    0 <= j < i ==> (#[trigger] rest[j]).0 != key;
            assert(t[i + 1] == (key, v));
            assert forall|j: int| 0 <= j < i + 1 implies (#[trigger] t[j]).0 != key by {
                if j > 0 {
                    assert(t[j] == rest[j - 1]);
                }
            }
        } else {
            assert forall|i: int| 0 <= i < t.len() implies (#[trigger] t[i]).0 != key by {
                if i > 0 {
                    assert(t[i] == rest[i - 1]);
                }
            }
        }
        if forall|i: int| 0 <= i < t.len() ==> (#[trigger] t[i]).0 != key {
            assert forall|i: int| 0 <= i < rest.len() implies (#[trigger] rest[i]).0 != key by {
                assert(rest[i] == t[i + 1]);
            }
        }
    } else if t.len() > 0 {
        assert(t[0] == (key, t[0].1));
    }
}

/// A name is an identifier of ASCII letters, digits and `_` that starts with no
/// digit; `std` is taken.
pub proof fn law_names_are_identifiers(s: Seq<char>)
    ensures
        valid_name(s) <==> s.len() > 0 && s != "std"@ && !('0' <= s[0] <= '9') && forall|i: int|
            0 <= i < s.len() ==> 'a' <= #[trigger] s[i] <= 'z' || 'A' <= s[i] <= 'Z' || '0' <= s[i]
                <= '9' || s[i] == '_',
{
    if valid_name(s) {
        assert forall|i: int| 0 <= i < s.len() implies 'a' <= #[trigger] s[i] <= 'z' || 'A' <= s[i]
            <= 'Z' || '0' <= s[i] <= '9' || s[i] == '_' by {
            if i > 0 {
                assert(name_part(s[i]));
            }
        }
    }
}

/// A package path is names with `::` between them: one name is a path, and a path
/// goes on with a name and with nothing else.
pub proof fn law_package_paths_are_names(a: Seq<char>, n: Seq<char>)
    requires
        !n.contains(':'),
    ensures
        valid_path(n) <==> valid_name(n),
        a.len() > 0 && a.last() != ':' ==> (valid_path(a + "::"@ + n) <==> valid_path(a)
            && valid_name(n)),
{
    reveal_strlit("::");
    lemma_no_piece(n, "::"@, ':');
    assert(split(n, "::"@)[0] == n);
    if a.len() > 0 && a.last() != ':' {
        law_last_piece_follows_the_last_separator(a, "::"@, ':', n);
        let s = a + "::"@ + n;
        let all = split(s, "::"@);
        let front = split(a, "::"@);
        assert(all.last() == n);
        assert forall|i: int| 0 <= i < front.len() implies all[i] == #[trigger] front[i] by {}
        if valid_path(s) {
            assert(valid_name(all[all.len() - 1]));
            assert forall|i: int| 0 <= i < front.len() implies valid_name(#[trigger] front[i]) by {
                assert(valid_name(all[i]));
            }
        }
        if valid_path(a) && valid_name(n) {
            assert forall|i: int| 0 <= i < all.len() implies valid_name(#[trigger] all[i]) by {
                if i < front.len() {
                    assert(valid_name(front[i]));
                }
            }
        }
    }
}

/// A text counts as it is, a number and a truth value as they are written; dates,
/// lists and tables are no scalars.
pub proof fn law_scalars_are_single_values(v: Tree)
    ensures
        scalar(v) is None <==> v is Datetime || v is List || v is Table,
        v matches Tree::Text(s) ==> scalar(v) == Some(s),
        v matches Tree::Number(s) ==> scalar(v) == Some(s),
        v == Tree::Boolean(true) ==> scalar(v) == Some("true"@),
        v == Tree::Boolean(false) ==> scalar(v) == Some("false"@),
        v matches Tree::Integer(i) && i >= 0 ==> number(scalar(v)->0) == v->Integer_0,
{
    if v is Integer {
        law_decimal_reads_back(v->Integer_0 as int);
    }
}

} // verus!
