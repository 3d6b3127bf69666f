//! Which pins and cache slots are still needed.
use crate::graph;
use crate::manifest::lock::copy_pin;
use crate::manifest::{
    deps, pins, Dep, Dependency, LockedDependency, Lockfile, Mark, Pin, SlotMarker,
};
use crate::names::{
    ascending, lemma_get_key, lemma_mapped_get, lemma_mapped_put, lemma_put_ascending, lemma_put_get, pair_get,
    pair_keys, put, NameMap,
};
use crate::pkg::closure::{pin_list, pin_map, pin_values};
use crate::pkg::ensure::{child_deps, counts_pin, pin_counts, state_of, PinState};
use crate::pkg::report::lemma_state_found;
use crate::text::{chars_of, same, starts, starts_with};
use vstd::prelude::*;
use vstd::string::*;

verus! {

/// Pin `i` is the one of a dependency in the list.
pub open spec fn wanted_by(ps: Seq<PinState>, ds: Seq<(Seq<char>, Dep)>, i: int) -> bool {
    &&& 0 <= i < ps.len()
    &&& pin_counts(ps, i)
    &&& pair_get(ds, ps[i].pin.name@) is Some
}

/// The manifest behind pin `i` asks for pin `j`.
pub open spec fn leads_to(ps: Seq<PinState>, i: int, j: int) -> bool {
    0 <= i < ps.len() && wanted_by(ps, child_deps(ps[i]), j)
}

/// Pin `i` is reachable from the roots through known manifests.
pub open spec fn pin_reached(ps: Seq<PinState>, roots: Seq<(Seq<char>, Dep)>, i: int) -> bool {
    graph::reached(|i: int| wanted_by(ps, roots, i), |i: int, j: int| leads_to(ps, i, j), i)
}

/// Something reachable has a manifest that is not known.
pub open spec fn subtree_unknown(ps: Seq<PinState>, roots: Seq<(Seq<char>, Dep)>) -> bool {
    exists|i: int|
        0 <= i < ps.len() && pin_reached(ps, roots, i) && (#[trigger] ps[i]).child is None
}

/// A pin that is kept: a reachable one, or any where a subtree is not known.
pub open spec fn pin_kept(ps: Seq<PinState>, roots: Seq<(Seq<char>, Dep)>, i: int) -> bool {
    subtree_unknown(ps, roots) || pin_reached(ps, roots, i)
}

/// Those of the first `n` pins that are kept, by name; of several for one name
/// only the last counts.
pub open spec fn kept_pins(ps: Seq<PinState>, roots: Seq<(Seq<char>, Dep)>, n: int) -> Seq<
    (Seq<char>, Pin),
>
    decreases n,
{
    if n <= 0 {
        Seq::empty()
    } else if pin_counts(ps, n - 1) && pin_kept(ps, roots, n - 1) {
        put(kept_pins(ps, roots, n - 1), ps[n - 1].pin@.name, ps[n - 1].pin@)
    } else {
        kept_pins(ps, roots, n - 1)
    }
}

fn targets(ps: &Vec<PinState>, ds: &NameMap<Dependency>) -> (r: Vec<bool>)
    ensures
        r@.len() == ps@.len(),
        forall|i: int| 0 <= i < r@.len() ==> #[trigger] r@[i] == wanted_by(ps@, deps(ds.pairs()), i),
{
    let mut out: Vec<bool> = Vec::new();
    let mut i: usize = 0;
    while i < ps.len()
        invariant
            i <= ps@.len(),
            out@.len() == i,
            forall|k: int|
                0 <= k < i ==> #[trigger] out@[k] == wanted_by(ps@, deps(ds.pairs()), k),
        decreases ps@.len() - i,
    {
        proof {
            lemma_mapped_get(ds.pairs(), |x: Dependency| x@, ps@[i as int].pin.name@);
        }
        out.push(counts_pin(ps, i) && ds.contains_key(ps[i].pin.name.as_str()));
        i += 1;
    }
    out
}

fn no_targets(n: usize) -> (r: Vec<bool>)
    ensures
        r@.len() == n,
        forall|i: int| 0 <= i < n ==> !#[trigger] r@[i],
{
    let mut out: Vec<bool> = Vec::new();
    while out.len() < n
        invariant
            out@.len() <= n,
            forall|i: int| 0 <= i < out@.len() ==> !#[trigger] out@[i],
        decreases n - out@.len(),
    {
        out.push(false);
    }
    out
}

/// The pins that the roots still need, following the manifests in their slots,
/// in name order. Where a manifest is not known every pin stays, rather than prune blindly.
pub fn reachable_pins(roots: &NameMap<Dependency>, ps: &Vec<PinState>) -> (r: Vec<LockedDependency>)
    ensures
        pins(r@) == pin_values(kept_pins(ps@, deps(roots.pairs()), ps@.len() as int)),
{
    let ghost rs = deps(roots.pairs());
    let start = targets(ps, roots);
    let mut rows: Vec<Vec<bool>> = Vec::new();
    let mut i: usize = 0;
    while i < ps.len()
        invariant
            i <= ps@.len(),
            rows@.len() == i,
            forall|k: int| 0 <= k < i ==> (#[trigger] rows@[k])@.len() == ps@.len(),
            forall|k: int, j: int|
                0 <= k < i && 0 <= j < ps@.len() ==> #[trigger] rows@[k]@[j] == leads_to(ps@, k, j),
        decreases ps@.len() - i,
    {
        let row = match &ps[i].child {
            Some(m) => targets(ps, &m.dependencies),
            None => {
                let none = no_targets(ps.len());
                assert forall|j: int| 0 <= j < ps@.len() implies none@[j] == leads_to(
                    ps@,
                    i as int,
                    j,
                ) by {}
                none
            },
        };
        rows.push(row);
        i += 1;
    }
    let marked = graph::reach(
        &start,
        &rows,
        Ghost(|i: int| wanted_by(ps@, rs, i)),
        Ghost(|i: int, j: int| leads_to(ps@, i, j)),
    );
    assert forall|i: int| 0 <= i < ps@.len() implies #[trigger] marked@[i] == pin_reached(
        ps@,
        rs,
        i,
    ) by {}
    let mut unknown: bool = false;
    let mut j: usize = 0;
    while j < ps.len()
        invariant
            j <= ps@.len(),
            marked@.len() == ps@.len(),
            forall|i: int|
                0 <= i < ps@.len() ==> #[trigger] marked@[i] == pin_reached(ps@, rs, i),
            unknown == exists|i: int|
                0 <= i < j && pin_reached(ps@, rs, i) && (#[trigger] ps@[i]).child is None,
        decreases ps@.len() - j,
    {
        if marked[j] && ps[j].child.is_none() {
            unknown = true;
            assert(ps@[j as int].child is None);
        }
        j += 1;
    }
    assert(unknown == subtree_unknown(ps@, rs));
    let mut out: NameMap<LockedDependency> = NameMap::new();
    let mut k: usize = 0;
    assert(pin_map(out.pairs()) =~= Seq::<(Seq<char>, Pin)>::empty());
    while k < ps.len()
        invariant
            k <= ps@.len(),
            marked@.len() == ps@.len(),
            forall|i: int|
                0 <= i < ps@.len() ==> #[trigger] marked@[i] == pin_reached(ps@, rs, i),
            unknown == subtree_unknown(ps@, rs),
            pin_map(out.pairs()) == kept_pins(ps@, rs, k as int),
        decreases ps@.len() - k,
    {
        if (unknown || marked[k]) && counts_pin(ps, k) {
            let p = copy_pin(&ps[k].pin);
            proof {
                lemma_mapped_put(out.pairs(), |x: LockedDependency| x@, p@.name, p);
            }
            out.insert(ps[k].pin.name.clone(), p);
        }
        k += 1;
    }
    pin_list(&out)
}

/// A slot that a lockfile refers to: a pin has its source and version.
pub open spec fn referenced(ps: Seq<Pin>, m: Mark) -> bool {
    exists|i: int| 0 <= i < ps.len() && (#[trigger] ps[i]).git == m.git && ps[i].version == m.version
}

/// Whether a slot is still referred to; one that is not can be deleted.
pub fn slot_is_referenced(lock: &Lockfile, marker: &SlotMarker) -> (r: bool)
    ensures
        r == referenced(lock@, marker@),
{
    let mut i: usize = 0;
    while i < lock.packages.len()
        invariant
            i <= lock.packages@.len(),
            forall|j: int|
                0 <= j < i ==> !((#[trigger] lock@[j]).git == marker@.git && lock@[j].version
                    == marker@.version),
        decreases lock.packages@.len() - i,
    {
        let p = &lock.packages[i];
        assert(lock@[i as int] == p@);
        if same(p.git.as_str(), marker.git.as_str()) && same(
            p.version.as_str(),
            marker.version.as_str(),
        ) {
            return true;
        }
        i += 1;
    }
    false
}

/// A directory that fetching or installing left in the scratch area.
pub open spec fn is_staging_name(name: Seq<char>) -> bool {
    starts(name, "hella-fetch-"@) || starts(name, "hella-install-"@)
}

/// Whether a directory of the scratch area is one that fetching or installing
/// left behind.
pub fn is_staging_dir(name: &str) -> (r: bool)
    ensures
        r == is_staging_name(name@),
{
    let n = chars_of(name);
    starts_with(&n, "hella-fetch-") || starts_with(&n, "hella-install-")
}

// ---------------------------------------------------------------------------
// Laws
// ---------------------------------------------------------------------------

/// The pins of direct dependencies stay, and with a pin that is reached every
/// pin that its manifest asks for.
pub proof fn law_needed_pins_stay(
    ps: Seq<PinState>,
    roots: Seq<(Seq<char>, Dep)>,
    i: int,
    j: int,
)
    ensures
        wanted_by(ps, roots, i) ==> pin_kept(ps, roots, i),
        pin_reached(ps, roots, i) && leads_to(ps, i, j) ==> pin_kept(ps, roots, j),
{
    let root = |i: int| wanted_by(ps, roots, i);
    let edge = |i: int, j: int| leads_to(ps, i, j);
    graph::lemma_reached_closed(root, edge, i, i);
    graph::lemma_reached_closed(root, edge, i, j);
}

/// Pruning only drops pins: under a name stands the pin of that name or nothing,
/// and it stands there exactly when it is kept, so that none is dropped where a
/// subtree is not known.
pub proof fn law_pruning_only_drops(
    ps: Seq<PinState>,
    roots: Seq<(Seq<char>, Dep)>,
    n: int,
    name: Seq<char>,
)
    requires
        0 <= n <= ps.len(),
    ensures
        ascending(pair_keys(kept_pins(ps, roots, n))),
        pair_get(kept_pins(ps, roots, n), name) == match state_of(ps, name) {
            Some(i) if i < n && pin_kept(ps, roots, i) => Some(ps[i].pin@),
            _ => None,
        },
        subtree_unknown(ps, roots) && state_of(ps, name) is Some ==> pin_kept(
            ps,
            roots,
            state_of(ps, name)->0,
        ),
    decreases n,
{
    lemma_state_found(ps, name);
    if n > 0 {
        law_pruning_only_drops(ps, roots, n - 1, name);
        let k = kept_pins(ps, roots, n - 1);
        let p = ps[n - 1].pin@;
        if pin_counts(ps, n - 1) && pin_kept(ps, roots, n - 1) {
            lemma_put_ascending(k, p.name, p);
            lemma_put_get(k, p.name, p, name);
        }
    }
}

/// A slot counts as referenced only where some pin has the source of its marker:
/// without one it never does, whatever the versions.
pub proof fn law_slot_of_another_source_is_free(ps: Seq<Pin>, m: Mark)
    requires
        forall|i: int| 0 <= i < ps.len() ==> (#[trigger] ps[i]).git != m.git,
    ensures
        !referenced(ps, m),
{
}

/// Nor does a slot whose version no pin has.
pub proof fn law_slot_of_another_version_is_free(ps: Seq<Pin>, m: Mark)
    requires
        forall|i: int| 0 <= i < ps.len() ==> (#[trigger] ps[i]).version != m.version,
    ensures
        !referenced(ps, m),
{
}

/// A source in one pin and a version in another do not make a reference: one
/// and the same pin has both.
pub proof fn law_referenced_slot_has_its_pin(ps: Seq<Pin>, m: Mark)
    requires
        referenced(ps, m),
    ensures
        exists|i: int|
            0 <= i < ps.len() && (#[trigger] ps[i]).git == m.git && ps[i].version == m.version,
{
}

/// With a pin of the same source and version a slot is referenced, whatever the
/// commits are and whatever else is pinned.
pub proof fn law_pinned_slot_is_referenced(ps: Seq<Pin>, m: Mark, i: int)
    requires
        0 <= i < ps.len(),
        ps[i].git == m.git,
        ps[i].version == m.version,
    ensures
        referenced(ps, m),
{
}

/// More pins never free a slot.
pub proof fn law_more_pins_free_nothing(ps: Seq<Pin>, more: Seq<Pin>, m: Mark)
    ensures
        referenced(ps + more, m) <==> referenced(ps, m) || referenced(more, m),
{
    if referenced(ps, m) {
        let i = choose|i: int|
            0 <= i < ps.len() && (#[trigger] ps[i]).git == m.git && ps[i].version == m.version;
        assert((ps + more)[i] == ps[i]);
    }
    if referenced(more, m) {
        let i = choose|i: int|
            0 <= i < more.len() && (#[trigger] more[i]).git == m.git && more[i].version
                == m.version;
        assert((ps + more)[ps.len() + i] == more[i]);
    }
    if referenced(ps + more, m) {
        let i = choose|i: int|
            0 <= i < (ps + more).len() && (#[trigger] (ps + more)[i]).git == m.git && (ps
                + more)[i].version == m.version;
        if i < ps.len() {
            assert(ps[i] == (ps + more)[i]);
        } else {
            assert(more[i - ps.len()] == (ps + more)[i]);
        }
    }
}

/// The chain starts with a dependency of the roots, and the manifest of each pin
/// on it names the next.
pub open spec fn is_need(ps: Seq<PinState>, roots: Seq<(Seq<char>, Dep)>, chain: Seq<int>) -> bool {
    &&& chain.len() > 0
    &&& forall|k: int| 0 <= k < chain.len() ==> 0 <= #[trigger] chain[k] < ps.len()
    &&& forall|k: int, j: int|
        0 <= k < chain.len() && chain[k] < j < ps.len() ==> (#[trigger] ps[j]).pin.name@ != (
        #[trigger] ps[chain[k]]).pin.name@
    &&& pair_keys(roots).contains(ps[chain[0]].pin.name@)
    &&& forall|k: int|
        0 <= k < chain.len() - 1 ==> (#[trigger] ps[chain[k]]).child is Some && pair_keys(
            deps(ps[chain[k]].child->0.dependencies.pairs()),
        ).contains(ps[chain[k + 1]].pin.name@)
}

/// No later pin has the name of pin `i`.
pub open spec fn is_last_of_name(ps: Seq<PinState>, i: int) -> bool {
    forall|j: int| i < j < ps.len() ==> (#[trigger] ps[j]).pin.name@ != ps[i].pin.name@
}

proof fn lemma_counts(ps: Seq<PinState>, i: int)
    requires
        0 <= i < ps.len(),
    ensures
        pin_counts(ps, i) <==> is_last_of_name(ps, i),
{
    lemma_state_found(ps, ps[i].pin.name@);
}

proof fn lemma_wanted(ps: Seq<PinState>, ds: Seq<(Seq<char>, Dep)>, i: int)
    ensures
        wanted_by(ps, ds, i) <==> 0 <= i < ps.len() && is_last_of_name(ps, i) && pair_keys(
            ds,
        ).contains(ps[i].pin.name@),
{
    if 0 <= i < ps.len() {
        lemma_counts(ps, i);
        lemma_get_key(ds, ps[i].pin.name@);
    }
}

/// A pin is reached exactly when a chain of needs leads to it from the direct
/// dependencies.
pub proof fn law_reached_pins_are_needed(ps: Seq<PinState>, roots: Seq<(Seq<char>, Dep)>, i: int)
    ensures
        pin_reached(ps, roots, i) <==> exists|chain: Seq<int>| #[trigger]
            is_need(ps, roots, chain) && chain.last() == i,
{
    let root = |i: int| wanted_by(ps, roots, i);
    let edge = |i: int, j: int| leads_to(ps, i, j);
    graph::law_reached_by_a_route(root, edge, i);
    if pin_reached(ps, roots, i) {
        let chain = choose|c: Seq<int>| #[trigger]
            graph::is_route(root, edge, c) && c.last() == i;
        assert forall|k: int| 0 <= k < chain.len() implies 0 <= #[trigger] chain[k] < ps.len()
            && is_last_of_name(ps, chain[k]) by {
            if k == 0 {
                lemma_wanted(ps, roots, chain[0]);
            } else {
                assert(edge(chain[k - 1], chain[k - 1 + 1]));
                lemma_wanted(ps, child_deps(ps[chain[k - 1]]), chain[k]);
            }
        }
        assert forall|k: int, j: int|
            0 <= k < chain.len() && chain[k] < j < ps.len() implies (#[trigger] ps[j]).pin.name@
            != (#[trigger] ps[chain[k]]).pin.name@ by {
            assert(is_last_of_name(ps, chain[k]));
        }
        lemma_wanted(ps, roots, chain[0]);
        assert forall|k: int| 0 <= k < chain.len() - 1 implies (
        #[trigger] ps[chain[k]]).child is Some && pair_keys(
            deps(ps[chain[k]].child->0.dependencies.pairs()),
        ).contains(ps[chain[k + 1]].pin.name@) by {
            assert(edge(chain[k], chain[k + 1]));
            lemma_wanted(ps, child_deps(ps[chain[k]]), chain[k + 1]);
        }
        assert(is_need(ps, roots, chain));
    }
    if exists|chain: Seq<int>| #[trigger] is_need(ps, roots, chain) && chain.last() == i {
        let chain = choose|c: Seq<int>| #[trigger] is_need(ps, roots, c) && c.last() == i;
        assert forall|k: int| 0 <= k < chain.len() implies is_last_of_name(
            ps,
            #[trigger] chain[k],
        ) by {
            assert forall|j: int| chain[k] < j < ps.len() implies (#[trigger] ps[j]).pin.name@
                != ps[chain[k]].pin.name@ by {}
        }
        assert(0 <= chain[0] < ps.len());
        lemma_wanted(ps, roots, chain[0]);
        assert forall|k: int| 0 <= k < chain.len() - 1 implies edge(
            #[trigger] chain[k],
            chain[k + 1],
        ) by {
            assert(0 <= chain[k + 1] < ps.len());
            assert(ps[chain[k]].child is Some);
            lemma_wanted(ps, child_deps(ps[chain[k]]), chain[k + 1]);
        }
        assert(graph::is_route(root, edge, chain));
    }
}

/// Where the manifest of every needed pin is known, exactly the needed pins are
/// left: a name stays if and only if a chain of needs leads to a pin of it.
pub proof fn law_only_needed_pins_stay(
    ps: Seq<PinState>,
    roots: Seq<(Seq<char>, Dep)>,
    name: Seq<char>,
)
    requires
        forall|chain: Seq<int>| #[trigger]
            is_need(ps, roots, chain) ==> ps[chain.last()].child is Some,
    ensures
        pair_keys(kept_pins(ps, roots, ps.len() as int)).contains(name) <==> exists|
            chain: Seq<int>,
        | #[trigger]
            is_need(ps, roots, chain) && ps[chain.last()].pin.name@ == name,
{
    let kept = kept_pins(ps, roots, ps.len() as int);
    law_pruning_only_drops(ps, roots, ps.len() as int, name);
    lemma_get_key(kept, name);
    lemma_state_found(ps, name);
    assert(!subtree_unknown(ps, roots)) by {
        if subtree_unknown(ps, roots) {
            let i = choose|i: int|
                0 <= i < ps.len() && pin_reached(ps, roots, i) && (#[trigger] ps[i]).child is None;
            law_reached_pins_are_needed(ps, roots, i);
        }
    }
    if pair_get(kept, name) is Some {
        let i = state_of(ps, name)->0;
        law_reached_pins_are_needed(ps, roots, i);
    }
    if exists|chain: Seq<int>| #[trigger]
        is_need(ps, roots, chain) && ps[chain.last()].pin.name@ == name {
        let chain = choose|chain: Seq<int>| #[trigger]
            is_need(ps, roots, chain) && ps[chain.last()].pin.name@ == name;
        let i = chain.last();
        assert(chain[chain.len() - 1] == i);
        law_reached_pins_are_needed(ps, roots, i);
        assert(is_last_of_name(ps, i));
        lemma_counts(ps, i);
    }
}

} // verus!
