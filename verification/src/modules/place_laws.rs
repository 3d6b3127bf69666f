//! Where modules and packages stand, and in which order they are looked for.
use crate::manifest::{valid_name, Dep, Pin};
use crate::modules::layout::{
    base_order, dep_roots, descend, direct_roots, home_dir, main_dir, manifest_dir, module_root,
    pin_of, pinned_roots, root_dir, segment, slot, source_path, stdlib_dir, Ancestor,
};
use crate::modules::resolve::{base_candidates, candidates};
use crate::paths::{has_path, joined, same_path, with_paths};
use crate::text::{join, split, trim};
use vstd::prelude::*;

verus! {

// ---------------------------------------------------------------------------
// Candidates
// ---------------------------------------------------------------------------

/// Every base has two places for a module, the file before the directory, and the
/// places of a base come before those of a later one.
pub proof fn law_candidates_go_by_base(path: Seq<Seq<char>>, bases: Seq<Seq<char>>, b: int)
    requires
        0 <= b < bases.len(),
    ensures
        candidates(path, bases).len() == 2 * bases.len(),
        candidates(path, bases)[2 * b] == joined(bases[b], join(path, "/"@) + ".hll"@),
        candidates(path, bases)[2 * b + 1] == joined(
            joined(bases[b], join(path, "/"@)),
            "mod.hll"@,
        ),
    decreases bases.len(),
{
    lemma_candidate_count(path, bases);
    let t = bases.drop_last();
    lemma_candidate_count(path, t);
    let before = candidates(path, t);
    let all = candidates(path, bases);
    if b < t.len() {
        law_candidates_go_by_base(path, t, b);
        assert(all[2 * b] == before[2 * b]);
        assert(all[2 * b + 1] == before[2 * b + 1]);
    } else {
        let own = base_candidates(path, bases.last());
        assert(all[2 * b] == own[0]);
        assert(all[2 * b + 1] == own[1]);
    }
}

proof fn lemma_candidate_count(path: Seq<Seq<char>>, bases: Seq<Seq<char>>)
    ensures
        candidates(path, bases).len() == 2 * bases.len(),
    decreases bases.len(),
{
    if bases.len() > 0 {
        lemma_candidate_count(path, bases.drop_last());
    }
}

// ---------------------------------------------------------------------------
// The home directory
// ---------------------------------------------------------------------------

/// A home that was chosen counts as it is; a blank one does not, and without one
/// it is `.hella` in the user's home.
pub proof fn law_chosen_home_counts(chosen: Option<Seq<char>>, user_home: Option<Seq<char>>)
    ensures
        chosen is Some && trim(chosen->0).len() > 0 ==> home_dir(chosen, user_home) == chosen,
        (chosen is None || trim(chosen->0).len() == 0) && user_home is Some ==> home_dir(
            chosen,
            user_home,
        ) == Some(joined(user_home->0, ".hella"@)),
        (chosen is None || trim(chosen->0).len() == 0) && user_home is None ==> home_dir(
            chosen,
            user_home,
        ) is None,
{
}

// ---------------------------------------------------------------------------
// Slots
// ---------------------------------------------------------------------------

/// Two versions of a source share a slot only where they are the same segment.
pub proof fn law_versions_have_their_own_slots(
    pkg_root: Seq<char>,
    git: Seq<char>,
    a: Seq<char>,
    b: Seq<char>,
)
    requires
        slot(pkg_root, git, a) == slot(pkg_root, git, b),
    ensures
        segment(a) == segment(b),
{
    reveal_strlit("/");
    let dir = joined(pkg_root, source_path(git));
    crate::modules::layout::law_segment_stays_in_slot(a);
    crate::modules::layout::law_segment_stays_in_slot(b);
    let x = segment(a);
    let y = segment(b);
    assert(x.contains(x[0]));
    assert(y.contains(y[0]));
    let base = if dir.len() == 0 || dir.last() == '/' {
        dir
    } else {
        dir + "/"@
    };
    assert(slot(pkg_root, git, a) =~= base + x);
    assert(slot(pkg_root, git, b) =~= base + y);
    assert((base + x).skip(base.len() as int) =~= x);
    assert((base + y).skip(base.len() as int) =~= y);
}

/// A dependency's modules stand in its slot, or in the directory in it that its
/// package path names, one directory for each segment.
pub proof fn law_package_stands_in_its_slot(
    pkg_root: Seq<char>,
    git: Seq<char>,
    version: Seq<char>,
    first: Seq<char>,
    second: Seq<char>,
)
    requires
        split(first + "::"@ + second, "::"@) == seq![first, second],
        split(first, "::"@) == seq![first],
    ensures
        module_root(pkg_root, git, version, None) == slot(pkg_root, git, version),
        module_root(pkg_root, git, version, Some(first)) == joined(
            slot(pkg_root, git, version),
            first,
        ),
        module_root(pkg_root, git, version, Some(first + "::"@ + second)) == joined(
            joined(slot(pkg_root, git, version), first),
            second,
        ),
{
    reveal_with_fuel(descend, 4);
}

// ---------------------------------------------------------------------------
// Dependencies
// ---------------------------------------------------------------------------

/// The pin of a name is the first one that bears it.
pub proof fn law_first_pin_of_a_name(pins: Seq<Pin>, name: Seq<char>)
    ensures
        pin_of(pins, name) matches Some(p) ==> exists|i: int|
            0 <= i < pins.len() && #[trigger] pins[i] == p && p.name == name && forall|j: int|
                0 <= j < i ==> (#[trigger] pins[j]).name != name,
        pin_of(pins, name) is None <==> forall|j: int|
            0 <= j < pins.len() ==> (#[trigger] pins[j]).name != name,
    decreases pins.len(),
{
    if pins.len() > 0 && pins[0].name != name {
        let t = pins.skip(1);
        law_first_pin_of_a_name(t, name);
        assert forall|j: int| 0 < j < pins.len() implies #[trigger] pins[j] == t[j - 1] by {}
        if pin_of(t, name) is Some {
            let p = pin_of(t, name)->0;
            let i = choose|i: int|
                0 <= i < t.len() && #[trigger] t[i] == p && p.name == name && forall|j: int|
                    0 <= j < i ==> (#[trigger] t[j]).name != name;
            assert(pins[i + 1] == p);
            assert forall|j: int| 0 <= j < i + 1 implies (#[trigger] pins[j]).name != name by {
                if j > 0 {
                    assert(pins[j] == t[j - 1]);
                }
            }
        } else {
            assert forall|j: int| 0 <= j < pins.len() implies (#[trigger] pins[j]).name != name by {
                if j > 0 {
                    assert(pins[j] == t[j - 1]);
                }
            }
        }
        if forall|j: int| 0 <= j < pins.len() ==> (#[trigger] pins[j]).name != name {
            assert forall|j: int| 0 <= j < t.len() implies (#[trigger] t[j]).name != name by {
                assert(t[j] == pins[j + 1]);
            }
        }
    }
}

/// A direct dependency with a valid name is looked for at its pin, and at its
/// request only while it has none.
pub proof fn law_pinned_dependency_is_found_at_its_pin(
    pkg_root: Seq<char>,
    deps: Seq<(Seq<char>, Dep)>,
    pins: Seq<Pin>,
    i: int,
)
    requires
        0 <= i < deps.len(),
        valid_name(deps[i].0),
    ensures
        pin_of(pins, deps[i].0) matches Some(p) ==> dep_roots(pkg_root, deps, pins).contains(
            module_root(pkg_root, p.git, p.version, p.package),
        ),
        pin_of(pins, deps[i].0) is None ==> dep_roots(pkg_root, deps, pins).contains(
            module_root(pkg_root, deps[i].1.git, deps[i].1.version, deps[i].1.package),
        ),
{
    let a = direct_roots(pkg_root, deps, pins, deps.len() as int);
    let k = lemma_direct_root(pkg_root, deps, pins, deps.len() as int, i);
    assert(dep_roots(pkg_root, deps, pins)[k] == a[k]);
}

proof fn lemma_direct_root(
    pkg_root: Seq<char>,
    deps: Seq<(Seq<char>, Dep)>,
    pins: Seq<Pin>,
    n: int,
    i: int,
) -> (k: int)
    requires
        0 <= i < n <= deps.len(),
        valid_name(deps[i].0),
    ensures
        0 <= k < direct_roots(pkg_root, deps, pins, n).len(),
        direct_roots(pkg_root, deps, pins, n)[k] == match pin_of(pins, deps[i].0) {
            Some(p) => module_root(pkg_root, p.git, p.version, p.package),
            None => module_root(pkg_root, deps[i].1.git, deps[i].1.version, deps[i].1.package),
        },
    decreases n,
{
    let before = direct_roots(pkg_root, deps, pins, n - 1);
    if i < n - 1 {
        let k = lemma_direct_root(pkg_root, deps, pins, n - 1, i);
        assert(direct_roots(pkg_root, deps, pins, n)[k] == before[k]);
        k
    } else {
        before.len() as int
    }
}

/// Every pin with a valid name can be imported from, transitive ones too.
pub proof fn law_every_pin_can_be_imported_from(
    pkg_root: Seq<char>,
    deps: Seq<(Seq<char>, Dep)>,
    pins: Seq<Pin>,
    i: int,
)
    requires
        0 <= i < pins.len(),
        valid_name(pins[i].name),
    ensures
        dep_roots(pkg_root, deps, pins).contains(
            module_root(pkg_root, pins[i].git, pins[i].version, pins[i].package),
        ),
{
    let a = direct_roots(pkg_root, deps, pins, deps.len() as int);
    let b = pinned_roots(pkg_root, pins, pins.len() as int);
    let k = lemma_pinned_root(pkg_root, pins, pins.len() as int, i);
    assert(dep_roots(pkg_root, deps, pins)[a.len() + k] == b[k]);
}

proof fn lemma_pinned_root(pkg_root: Seq<char>, pins: Seq<Pin>, n: int, i: int) -> (k: int)
    requires
        0 <= i < n <= pins.len(),
        valid_name(pins[i].name),
    ensures
        0 <= k < pinned_roots(pkg_root, pins, n).len(),
        pinned_roots(pkg_root, pins, n)[k] == module_root(
            pkg_root,
            pins[i].git,
            pins[i].version,
            pins[i].package,
        ),
    decreases n,
{
    let before = pinned_roots(pkg_root, pins, n - 1);
    if i < n - 1 {
        let k = lemma_pinned_root(pkg_root, pins, n - 1, i);
        assert(pinned_roots(pkg_root, pins, n)[k] == before[k]);
        k
    } else {
        before.len() as int
    }
}

/// Nothing else can be imported from: behind every module root stands a direct
/// dependency or a pin, with a valid name.
pub proof fn law_module_roots_have_a_dependency(
    pkg_root: Seq<char>,
    deps: Seq<(Seq<char>, Dep)>,
    pins: Seq<Pin>,
    k: int,
)
    requires
        0 <= k < dep_roots(pkg_root, deps, pins).len(),
    ensures
        ({
            let root = dep_roots(pkg_root, deps, pins)[k];
            ||| exists|i: int|
                0 <= i < pins.len() && root == module_root(
                    pkg_root,
                    (#[trigger] pins[i]).git,
                    pins[i].version,
                    pins[i].package,
                )
            ||| exists|i: int|
                0 <= i < deps.len() && valid_name((#[trigger] deps[i]).0) && root == module_root(
                    pkg_root,
                    deps[i].1.git,
                    deps[i].1.version,
                    deps[i].1.package,
                )
        }),
{
    let a = direct_roots(pkg_root, deps, pins, deps.len() as int);
    let b = pinned_roots(pkg_root, pins, pins.len() as int);
    if k < a.len() {
        assert(dep_roots(pkg_root, deps, pins)[k] == a[k]);
        let i = lemma_direct_cause(pkg_root, deps, pins, deps.len() as int, k);
        law_first_pin_of_a_name(pins, deps[i].0);
        match pin_of(pins, deps[i].0) {
            Some(p) => {
                let j = choose|j: int| 0 <= j < pins.len() && #[trigger] pins[j] == p;
                assert(pins[j] == p);
            },
            None => {
                assert(valid_name(deps[i].0));
            },
        }
    } else {
        assert(dep_roots(pkg_root, deps, pins)[k] == b[k - a.len()]);
        let i = lemma_pinned_cause(pkg_root, pins, pins.len() as int, k - a.len());
        assert(valid_name(pins[i].name));
    }
}

proof fn lemma_direct_cause(
    pkg_root: Seq<char>,
    deps: Seq<(Seq<char>, Dep)>,
    pins: Seq<Pin>,
    n: int,
    k: int,
) -> (i: int)
    requires
        n <= deps.len(),
        0 <= k < direct_roots(pkg_root, deps, pins, n).len(),
    ensures
        0 <= i < n,
        valid_name(deps[i].0),
        direct_roots(pkg_root, deps, pins, n)[k] == match pin_of(pins, deps[i].0) {
            Some(p) => module_root(pkg_root, p.git, p.version, p.package),
            None => module_root(pkg_root, deps[i].1.git, deps[i].1.version, deps[i].1.package),
        },
    decreases n,
{
    let before = direct_roots(pkg_root, deps, pins, n - 1);
    if k < before.len() {
        assert(direct_roots(pkg_root, deps, pins, n)[k] == before[k]);
        lemma_direct_cause(pkg_root, deps, pins, n - 1, k)
    } else {
        n - 1
    }
}

proof fn lemma_pinned_cause(pkg_root: Seq<char>, pins: Seq<Pin>, n: int, k: int) -> (i: int)
    requires
        n <= pins.len(),
        0 <= k < pinned_roots(pkg_root, pins, n).len(),
    ensures
        0 <= i < n,
        valid_name(pins[i].name),
        pinned_roots(pkg_root, pins, n)[k] == module_root(
            pkg_root,
            pins[i].git,
            pins[i].version,
            pins[i].package,
        ),
    decreases n,
{
    let before = pinned_roots(pkg_root, pins, n - 1);
    if k < before.len() {
        assert(pinned_roots(pkg_root, pins, n)[k] == before[k]);
        lemma_pinned_cause(pkg_root, pins, n - 1, k)
    } else {
        n - 1
    }
}

// ---------------------------------------------------------------------------
// Project roots and search order
// ---------------------------------------------------------------------------

/// The nearest directory for which the mark holds.
pub open spec fn is_nearest(up: Seq<Ancestor>, mark: spec_fn(Ancestor) -> bool, i: int) -> bool {
    &&& 0 <= i < up.len()
    &&& mark(up[i])
    &&& forall|j: int| 0 <= j < i ==> !mark(#[trigger] up[j])
}

/// The project root is the nearest directory with a manifest; without any, the
/// nearest with a `main.hll`; without that, the entry's own directory.
pub proof fn law_project_root_is_nearest(start: Seq<char>, up: Seq<Ancestor>, i: int)
    ensures
        is_nearest(up, |a: Ancestor| a.has_manifest, i) ==> root_dir(start, up) == up[i].path@,
        (forall|j: int| 0 <= j < up.len() ==> !(#[trigger] up[j]).has_manifest) && is_nearest(
            up,
            |a: Ancestor| a.has_main,
            i,
        ) ==> root_dir(start, up) == up[i].path@,
        (forall|j: int|
            0 <= j < up.len() ==> !(#[trigger] up[j]).has_manifest && !up[j].has_main) ==> root_dir(
            start,
            up,
        ) == start,
{
    lemma_nearest(up, i);
    lemma_nearest_main(up, i);
}

proof fn lemma_nearest(up: Seq<Ancestor>, i: int)
    ensures
        is_nearest(up, |a: Ancestor| a.has_manifest, i) ==> manifest_dir(up) == Some(up[i].path@),
        (forall|j: int| 0 <= j < up.len() ==> !(#[trigger] up[j]).has_manifest) ==> manifest_dir(
            up,
        ) is None,
    decreases up.len(),
{
    if up.len() > 0 {
        let t = up.skip(1);
        lemma_nearest(t, i - 1);
        if is_nearest(up, |a: Ancestor| a.has_manifest, i) && i > 0 {
            assert(!up[0].has_manifest);
            assert(t[i - 1] == up[i]);
            assert forall|j: int| 0 <= j < i - 1 implies !(#[trigger] t[j]).has_manifest by {
                assert(t[j] == up[j + 1]);
            }
            assert(is_nearest(t, |a: Ancestor| a.has_manifest, i - 1));
        }
        if forall|j: int| 0 <= j < up.len() ==> !(#[trigger] up[j]).has_manifest {
            assert forall|j: int| 0 <= j < t.len() implies !(#[trigger] t[j]).has_manifest by {
                assert(t[j] == up[j + 1]);
            }
        }
    }
}

proof fn lemma_nearest_main(up: Seq<Ancestor>, i: int)
    ensures
        is_nearest(up, |a: Ancestor| a.has_main, i) ==> main_dir(up) == Some(up[i].path@),
        (forall|j: int| 0 <= j < up.len() ==> !(#[trigger] up[j]).has_main) ==> main_dir(
            up,
        ) is None,
    decreases up.len(),
{
    if up.len() > 0 {
        let t = up.skip(1);
        lemma_nearest_main(t, i - 1);
        if is_nearest(up, |a: Ancestor| a.has_main, i) && i > 0 {
            assert(!up[0].has_main);
            assert(t[i - 1] == up[i]);
            assert forall|j: int| 0 <= j < i - 1 implies !(#[trigger] t[j]).has_main by {
                assert(t[j] == up[j + 1]);
            }
            assert(is_nearest(t, |a: Ancestor| a.has_main, i - 1));
        }
        if forall|j: int| 0 <= j < up.len() ==> !(#[trigger] up[j]).has_main {
            assert forall|j: int| 0 <= j < t.len() implies !(#[trigger] t[j]).has_main by {
                assert(t[j] == up[j + 1]);
            }
        }
    }
}

/// Dropping repetitions keeps the order of what is left, leaves every path in
/// under its first spelling, and leaves none in twice.
pub proof fn law_search_order_is_kept(order: Seq<Seq<char>>, n: int) -> (at: Seq<int>)
    requires
        0 <= n <= order.len(),
    ensures
        ({
            let s = with_paths(Seq::empty(), order, n);
            &&& at.len() == s.len()
            &&& forall|i: int| 0 <= i < at.len() ==> 0 <= #[trigger] at[i] < n && s[i] == order[at[i]]
            &&& forall|i: int, j: int| 0 <= i < j < at.len() ==> at[i] < at[j]
            &&& forall|i: int| 0 <= i < n ==> has_path(s, #[trigger] order[i])
            &&& forall|i: int, j: int|
                0 <= i < j < s.len() ==> !same_path(#[trigger] s[i], #[trigger] s[j])
        }),
    decreases n,
{
    let s = with_paths(Seq::empty(), order, n);
    if n == 0 {
        Seq::empty()
    } else {
        let before = law_search_order_is_kept(order, n - 1);
        let t = with_paths(Seq::empty(), order, n - 1);
        if has_path(t, order[n - 1]) {
            before
        } else {
            assert forall|i: int| 0 <= i < n implies has_path(s, #[trigger] order[i]) by {
                if i < n - 1 {
                    assert(has_path(t, order[i]));
                    let k = choose|k: int| 0 <= k < t.len() && same_path(#[trigger] t[k], order[i]);
                    assert(same_path(s[k], order[i]));
                } else {
                    assert(same_path(s[t.len() as int], order[i]));
                }
            }
            assert forall|i: int, j: int| 0 <= i < j < s.len() implies !same_path(
                #[trigger] s[i],
                #[trigger] s[j],
            ) by {
                if j == t.len() {
                    assert(s[i] == t[i]);
                    assert(!same_path(t[i], order[n - 1]));
                } else {
                    assert(s[i] == t[i] && s[j] == t[j]);
                }
            }
            before.push(n - 1)
        }
    }
}

/// The search order: the entry's directory, the project root, every dependency,
/// the `stdlib` of a checkout around the entry, and the installed library last.
pub proof fn law_search_order(
    start: Seq<char>,
    up: Seq<Ancestor>,
    dep_bases: Seq<Seq<char>>,
    lib: Option<Seq<char>>,
)
    ensures
        ({
            let order = base_order(start, up, dep_bases, lib);
            let n = dep_bases.len() as int;
            &&& order[0] == start
            &&& order[1] == root_dir(start, up)
            &&& order.subrange(2, 2 + n) == dep_bases
            &&& stdlib_dir(up) matches Some(s) ==> order[2 + n] == s
            &&& lib is Some ==> order.last() == lib->0
            &&& stdlib_dir(up) is None && lib is None ==> order.len() == 2 + n
        }),
{
    let order = base_order(start, up, dep_bases, lib);
    let n = dep_bases.len() as int;
    assert(order.subrange(2, 2 + n) =~= dep_bases);
}

} // verus!
