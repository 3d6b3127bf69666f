//! Making sure that every dependency of a project is pinned and fetched.
//!
//! Work goes in rounds. Each round looks at the pins and at the manifests in
//! their slots, and says what is still missing; a round with nothing missing
//! touches no network.
use crate::graph::{lemma_mark, unmarked};
use crate::manifest::lock::{copy_pin, lock_written, serialize_lockfile};
use crate::manifest::{
    deps, lemma_deps_put, pins, Dep, Dependency, LockedDependency, Lockfile, Manifest, Mark, Pin,
    SlotMarker,
};
use crate::names::{lemma_mapped_get, lemma_mapped_put, pair_get, put, NameMap};
use crate::pkg::closure::{index_pins, pin_list, pin_map, pin_values, pins_by_name};
use crate::pkg::fetch::{add_pins, pins_over};
use crate::pkg::prune::{leads_to, pin_reached, wanted_by};
use crate::pkg::report::lemma_state_found;
use crate::text::{copy_opt, decimal, join, join_strings, natural, opt_text, same, texts};
use vstd::prelude::*;
use vstd::string::*;

verus! {

/// A pin and what is known of its slot.
#[derive(Debug)]
pub struct PinState {
    pub pin: LockedDependency,
    /// The slot carries a marker that matches the pin.
    pub good: bool,
    /// The manifest in the slot, where it can be read.
    pub child: Option<Manifest>,
}

/// How dependencies may be completed: `offline` never touches the network,
/// `frozen` also forbids changes to the lockfile.
#[derive(Clone, Copy, Debug)]
pub struct EnsureOptions {
    pub offline: bool,
    pub frozen: bool,
}

/// The marker of a slot matches the pin.
pub open spec fn marker_matches(p: Pin, m: Option<Mark>) -> bool {
    m matches Some(x) && x.git == p.git && x.rev == p.rev
}

pub open spec fn opt_mark(m: Option<&SlotMarker>) -> Option<Mark> {
    match m {
        Some(x) => Some(x@),
        None => None,
    }
}

/// Whether a slot with this marker holds what the pin asks for.
pub fn slot_is_good(pin: &LockedDependency, marker: Option<&SlotMarker>) -> (r: bool)
    ensures
        r == marker_matches(pin@, opt_mark(marker)),
{
    match marker {
        Some(m) => same(m.git.as_str(), pin.git.as_str()) && same(m.rev.as_str(), pin.rev.as_str()),
        None => false,
    }
}

// ---------------------------------------------------------------------------
// What is expected
// ---------------------------------------------------------------------------

/// The position of the pin called `name`; of several the last counts.
pub open spec fn state_of(ps: Seq<PinState>, name: Seq<char>) -> Option<int>
    decreases ps.len(),
{
    if ps.len() == 0 {
        None
    } else if ps.last().pin.name@ == name {
        Some(ps.len() - 1)
    } else {
        state_of(ps.drop_last(), name)
    }
}

/// Pin `i` is the one that counts of its name.
pub open spec fn pin_counts(ps: Seq<PinState>, i: int) -> bool {
    state_of(ps, ps[i].pin.name@) == Some(i)
}

/// The dependencies in the slot of a pin.
pub open spec fn child_deps(s: PinState) -> Seq<(Seq<char>, Dep)> {
    match s.child {
        Some(m) => m@.deps,
        None => Seq::empty(),
    }
}

/// `expected` and those of the first `n` dependencies that it lacks.
pub open spec fn also(
    expected: Seq<(Seq<char>, Dep)>,
    ds: Seq<(Seq<char>, Dep)>,
    n: int,
) -> Seq<(Seq<char>, Dep)>
    decreases n,
{
    if n <= 0 {
        expected
    } else {
        let e = also(expected, ds, n - 1);
        if pair_get(e, ds[n - 1].0) is Some {
            e
        } else {
            put(e, ds[n - 1].0, ds[n - 1].1)
        }
    }
}

pub open spec fn dep_names(ds: Seq<(Seq<char>, Dep)>) -> Seq<Seq<char>> {
    Seq::new(ds.len(), |i: int| ds[i].0)
}

/// What is expected once the names on `stack`, the last one first, and all that
/// their slots ask for have been followed. The first request of a name counts.
pub open spec fn explored(
    ps: Seq<PinState>,
    visited: Seq<bool>,
    expected: Seq<(Seq<char>, Dep)>,
    stack: Seq<Seq<char>>,
) -> Seq<(Seq<char>, Dep)>
    decreases unmarked(visited), stack.len(),
{
    if stack.len() == 0 {
        expected
    } else {
        let rest = stack.drop_last();
        match state_of(ps, stack.last()) {
            Some(i) => if 0 <= i < visited.len() && !visited[i] {
                proof {
                    lemma_mark(visited, i);
                }
                let ds = child_deps(ps[i]);
                explored(
                    ps,
                    visited.update(i, true),
                    also(expected, ds, ds.len() as int),
                    rest + dep_names(ds),
                )
            } else {
                explored(ps, visited, expected, rest)
            },
            None => explored(ps, visited, expected, rest),
        }
    }
}

pub open spec fn none_visited(n: nat) -> Seq<bool> {
    Seq::new(n, |i: int| false)
}

/// Direct dependencies, and whatever the slots of pins ask for from there.
pub open spec fn expectation(direct: Seq<(Seq<char>, Dep)>, ps: Seq<PinState>) -> Seq<
    (Seq<char>, Dep),
> {
    explored(ps, none_visited(ps.len()), direct, dep_names(direct))
}

/// The first `n` expected dependencies that have no pin.
pub open spec fn unpinned(
    expected: Seq<(Seq<char>, Dep)>,
    ps: Seq<PinState>,
    n: int,
) -> Seq<(Seq<char>, Dep)>
    decreases n,
{
    if n <= 0 {
        Seq::empty()
    } else if state_of(ps, expected[n - 1].0) is None {
        put(unpinned(expected, ps, n - 1), expected[n - 1].0, expected[n - 1].1)
    } else {
        unpinned(expected, ps, n - 1)
    }
}

/// Those of the first `n` pins whose slot does not match, by name.
pub open spec fn unfetched(ps: Seq<PinState>, n: int) -> Seq<(Seq<char>, Pin)>
    decreases n,
{
    if n <= 0 {
        Seq::empty()
    } else if ps[n - 1].good || !pin_counts(ps, n - 1) {
        unfetched(ps, n - 1)
    } else {
        put(unfetched(ps, n - 1), ps[n - 1].pin@.name, ps[n - 1].pin@)
    }
}

pub(crate) fn find_state(ps: &Vec<PinState>, name: &str) -> (r: Option<usize>)
    ensures
        r is Some <==> state_of(ps@, name@) is Some,
        r matches Some(i) ==> i < ps@.len() && state_of(ps@, name@) == Some(i as int),
{
    let mut i: usize = ps.len();
    assert(ps@.take(i as int) =~= ps@);
    while i > 0
        invariant
            i <= ps@.len(),
            state_of(ps@, name@) == state_of(ps@.take(i as int), name@),
        decreases i,
    {
        assert(ps@.take(i as int).last() == ps@[i - 1]);
        if same(ps[i - 1].pin.name.as_str(), name) {
            return Some(i - 1);
        }
        assert(ps@.take(i as int).drop_last() =~= ps@.take(i - 1));
        i -= 1;
    }
    None
}

/// Whether pin `i` is the one that counts of its name.
pub(crate) fn counts_pin(ps: &Vec<PinState>, i: usize) -> (r: bool)
    requires
        i < ps@.len(),
    ensures
        r == pin_counts(ps@, i as int),
{
    match find_state(ps, ps[i].pin.name.as_str()) {
        Some(k) => k == i,
        None => false,
    }
}

/// A copy of a dependency.
pub fn copy_dep(d: &Dependency) -> (r: Dependency)
    ensures
        r@ == d@,
{
    Dependency { git: d.git.clone(), version: d.version.clone(), package: copy_opt(&d.package) }
}

/// A copy of a dependency map.
pub fn copy_deps(from: &NameMap<Dependency>) -> (r: NameMap<Dependency>)
    ensures
        deps(r.pairs()) == deps(from.pairs()),
{
    let ghost ds = deps(from.pairs());
    let n: usize = from.len();
    let mut out: NameMap<Dependency> = NameMap::new();
    assert(deps(out.pairs()) =~= Seq::<(Seq<char>, Dep)>::empty());
    add_missing(&mut out, from);
    proof {
        assert(crate::names::pair_keys(ds) =~= crate::names::pair_keys(from.pairs()));
        lemma_also_copies(ds, ds.len() as int);
        assert(ds.take(ds.len() as int) =~= ds);
    }
    out
}

fn add_missing(expected: &mut NameMap<Dependency>, from: &NameMap<Dependency>)
    ensures
        deps(final(expected).pairs()) == also(
            deps(old(expected).pairs()),
            deps(from.pairs()),
            deps(from.pairs()).len() as int,
        ),
{
    let n: usize = from.len();
    let ghost ds = deps(from.pairs());
    let mut i: usize = 0;
    while i < n
        invariant
            i <= n,
            n == from.pairs().len(),
            ds == deps(from.pairs()),
            deps(expected.pairs()) == also(deps(old(expected).pairs()), ds, i as int),
        decreases n - i,
    {
        let name = from.key_at(i);
        let d = copy_dep(from.value_at(i));
        assert(ds[i as int] == (name@, d@));
        proof {
            lemma_mapped_get(expected.pairs(), |x: Dependency| x@, name@);
            lemma_deps_put(expected.pairs(), name@, d);
        }
        if !expected.contains_key(name.as_str()) {
            expected.insert(name.clone(), d);
        }
        i += 1;
    }
}

/// Adds the names of dependencies to a list.
pub(crate) fn push_names(stack: &mut Vec<String>, from: &NameMap<Dependency>)
    ensures
        texts(final(stack)@) == texts(old(stack)@) + dep_names(deps(from.pairs())),
{
    let n: usize = from.len();
    let ghost ns = dep_names(deps(from.pairs()));
    let mut i: usize = 0;
    assert(texts(stack@) =~= texts(old(stack)@) + ns.take(0));
    while i < n
        invariant
            i <= n,
            n == from.pairs().len(),
            ns == dep_names(deps(from.pairs())),
            texts(stack@) == texts(old(stack)@) + ns.take(i as int),
        decreases n - i,
    {
        let ghost had = texts(stack@);
        stack.push(from.key_at(i).clone());
        assert(texts(stack@) =~= had.push(ns[i as int]));
        assert(texts(stack@) =~= texts(old(stack)@) + ns.take(i + 1));
        i += 1;
    }
    assert(ns.take(i as int) =~= ns);
}

proof fn lemma_also_copies(ds: Seq<(Seq<char>, Dep)>, n: int)
    requires
        0 <= n <= ds.len(),
        crate::names::ascending(crate::names::pair_keys(ds)),
    ensures
        also(Seq::empty(), ds, n) == ds.take(n),
    decreases n,
{
    if n > 0 {
        lemma_also_copies(ds, n - 1);
        let e = ds.take(n - 1);
        let ks = crate::names::pair_keys(ds);
        assert forall|i: int| 0 <= i < e.len() implies (#[trigger] e[i]).0 != ds[n - 1].0 by {
            assert(crate::text::before(ks[i], ks[n - 1]));
            crate::text::lemma_before_total(ks[i], ks[n - 1]);
        }
        lemma_absent(e, ds[n - 1].0);
        if n > 1 {
            assert(crate::text::before(ks[n - 2], ks[n - 1]));
            assert(e.last() == ds[n - 2]);
        }
        assert(put(e, ds[n - 1].0, ds[n - 1].1) =~= ds.take(n));
    } else {
        assert(ds.take(0) =~= Seq::<(Seq<char>, Dep)>::empty());
    }
}

proof fn lemma_absent(s: Seq<(Seq<char>, Dep)>, k: Seq<char>)
    requires
        forall|i: int| 0 <= i < s.len() ==> (#[trigger] s[i]).0 != k,
    ensures
        pair_get(s, k) is None,
    decreases s.len(),
{
    if s.len() > 0 {
        lemma_absent(s.drop_last(), k);
    }
}

/// The dependencies of a project and whatever the slots of its pins ask for.
pub fn expected_deps(direct: &NameMap<Dependency>, ps: &Vec<PinState>) -> (r: NameMap<Dependency>)
    ensures
        deps(r.pairs()) == expectation(deps(direct.pairs()), ps@),
{
    let ghost ds = deps(direct.pairs());
    let mut expected = copy_deps(direct);
    let mut stack: Vec<String> = Vec::new();
    assert(texts(stack@) =~= Seq::<Seq<char>>::empty());
    push_names(&mut stack, direct);
    assert(texts(stack@) =~= dep_names(ds));
    let count: usize = ps.len();
    let mut visited: Vec<bool> = Vec::new();
    while visited.len() < count
        invariant
            visited@.len() <= count,
            forall|i: int| 0 <= i < visited@.len() ==> !#[trigger] visited@[i],
        decreases count - visited@.len(),
    {
        visited.push(false);
    }
    assert(visited@ =~= none_visited(ps@.len()));
    while stack.len() > 0
        invariant
            visited@.len() == ps@.len(),
            explored(ps@, visited@, deps(expected.pairs()), texts(stack@)) == expectation(ds, ps@),
        decreases unmarked(visited@), stack@.len(),
    {
        let ghost before = texts(stack@);
        let ghost v = visited@;
        if let Some(name) = stack.pop() {
            assert(texts(stack@) =~= before.drop_last());
            assert(before.last() == name@);
            if let Some(i) = find_state(ps, name.as_str()) {
                let seen: bool = visited[i];
                if !seen {
                    proof {
                        lemma_mark(v, i as int);
                    }
                    visited.set(i, true);
                    if let Some(m) = &ps[i].child {
                        add_missing(&mut expected, &m.dependencies);
                        push_names(&mut stack, &m.dependencies);
                    } else {
                        assert(dep_names(child_deps(ps@[i as int])) =~= Seq::<Seq<char>>::empty());
                        assert(texts(stack@) =~= texts(stack@) + dep_names(
                            child_deps(ps@[i as int]),
                        ));
                    }
                }
            }
        }
    }
    expected
}

// ---------------------------------------------------------------------------
// Rounds
// ---------------------------------------------------------------------------

/// What a round has to do.
#[derive(Debug)]
pub struct RoundPlan {
    /// Dependencies without a pin.
    pub missing: NameMap<Dependency>,
    /// Pins whose slot does not match.
    pub bad: Vec<LockedDependency>,
}

/// What a round finds missing.
pub open spec fn missing_deps(direct: Seq<(Seq<char>, Dep)>, ps: Seq<PinState>) -> Seq<
    (Seq<char>, Dep),
> {
    let expected = expectation(direct, ps);
    unpinned(expected, ps, expected.len() as int)
}

/// The pins that a round finds unfetched, in name order.
pub open spec fn bad_pins(ps: Seq<PinState>) -> Seq<Pin> {
    pin_values(unfetched(ps, ps.len() as int))
}

/// Looks for dependencies without a pin and pins without a slot.
pub fn plan_round(direct: &NameMap<Dependency>, ps: &Vec<PinState>) -> (r: RoundPlan)
    ensures
        deps(r.missing.pairs()) == missing_deps(deps(direct.pairs()), ps@),
        pins(r.bad@) == bad_pins(ps@),
{
    let expected = expected_deps(direct, ps);
    let ghost es = deps(expected.pairs());
    let n: usize = expected.len();
    let mut missing: NameMap<Dependency> = NameMap::new();
    assert(deps(missing.pairs()) =~= Seq::<(Seq<char>, Dep)>::empty());
    let mut i: usize = 0;
    while i < n
        invariant
            i <= n,
            n == expected.pairs().len(),
            es == deps(expected.pairs()),
            deps(missing.pairs()) == unpinned(es, ps@, i as int),
        decreases n - i,
    {
        let name = expected.key_at(i);
        let d = copy_dep(expected.value_at(i));
        assert(es[i as int] == (name@, d@));
        proof {
            lemma_deps_put(missing.pairs(), name@, d);
        }
        if find_state(ps, name.as_str()).is_none() {
            missing.insert(name.clone(), d);
        }
        i += 1;
    }
    let mut bad: NameMap<LockedDependency> = NameMap::new();
    let mut j: usize = 0;
    assert(pin_map(bad.pairs()) =~= Seq::<(Seq<char>, Pin)>::empty());
    while j < ps.len()
        invariant
            j <= ps@.len(),
            pin_map(bad.pairs()) == unfetched(ps@, j as int),
        decreases ps@.len() - j,
    {
        if !ps[j].good && counts_pin(ps, j) {
            let p = copy_pin(&ps[j].pin);
            proof {
                lemma_mapped_put(bad.pairs(), |x: LockedDependency| x@, p@.name, p);
            }
            bad.insert(ps[j].pin.name.clone(), p);
        }
        j += 1;
    }
    RoundPlan { missing, bad: pin_list(&bad) }
}

/// What to do next.
#[derive(Debug)]
pub enum EnsureStep {
    /// Nothing is missing, or no round is left.
    Finish,
    /// The options forbid what would have to be done.
    Refuse(String),
    /// Resolve and fetch what is missing, and fetch what is bad.
    Fetch(RoundPlan),
}

pub open spec fn counts(missing: nat, bad: nat) -> Seq<char> {
    "("@ + decimal(missing as int) + " unpinned, "@ + decimal(bad as int) + " unfetched)"@
}

/// Why nothing may be fetched.
pub open spec fn refusal(
    opts: EnsureOptions,
    pkg_root: Seq<char>,
    missing: nat,
    bad: nat,
) -> Option<Seq<char>> {
    if opts.offline {
        Some(
            "dependencies missing from "@ + pkg_root + " "@ + counts(missing, bad)
                + "; re-run without `--offline` or run `hella fetch` with network access"@,
        )
    } else if opts.frozen {
        Some(
            "lockfile out of date "@ + counts(missing, bad)
                + "; run `hella fetch` to update it (`--frozen` forbids changes)"@,
        )
    } else {
        None
    }
}

/// The step is the one that what is missing and bad calls for.
pub open spec fn is_step(
    s: EnsureStep,
    missing: Seq<(Seq<char>, Dep)>,
    bad: Seq<Pin>,
    opts: EnsureOptions,
    pkg_root: Seq<char>,
    rounds_left: int,
) -> bool {
    if rounds_left == 0 || (missing.len() == 0 && bad.len() == 0) {
        s is Finish
    } else {
        match refusal(opts, pkg_root, missing.len(), bad.len()) {
            Some(m) => s matches EnsureStep::Refuse(x) && x@ == m,
            None => s matches EnsureStep::Fetch(p) && deps(p.missing.pairs()) == missing && pins(
                p.bad@,
            ) == bad,
        }
    }
}

fn write_counts(missing: usize, bad: usize) -> (r: String)
    ensures
        r@ == counts(missing as nat, bad as nat),
{
    let mut m = String::from_str("(");
    m.append(natural(missing as u64).as_str());
    m.append(" unpinned, ");
    m.append(natural(bad as u64).as_str());
    m.append(" unfetched)");
    m
}

/// The number of rounds after which dependencies count as not converging.
pub const MAX_ROUNDS: u64 = 8;

/// Decides what to do about the dependencies of a project with `rounds_left`
/// rounds to go, given its pins and what is known of their slots.
pub fn ensure_step(
    direct: &NameMap<Dependency>,
    ps: &Vec<PinState>,
    opts: EnsureOptions,
    pkg_root: &str,
    rounds_left: u64,
) -> (r: EnsureStep)
    ensures
        is_step(
            r,
            missing_deps(deps(direct.pairs()), ps@),
            bad_pins(ps@),
            opts,
            pkg_root@,
            rounds_left as int,
        ),
{
    let plan = plan_round(direct, ps);
    let missing: usize = plan.missing.len();
    let bad: usize = plan.bad.len();
    assert(missing == missing_deps(deps(direct.pairs()), ps@).len());
    assert(bad == bad_pins(ps@).len());
    if rounds_left == 0 || (missing == 0 && bad == 0) {
        return EnsureStep::Finish;
    }
    if opts.offline {
        let mut m = String::from_str("dependencies missing from ");
        m.append(pkg_root);
        m.append(" ");
        m.append(write_counts(missing, bad).as_str());
        m.append("; re-run without `--offline` or run `hella fetch` with network access");
        return EnsureStep::Refuse(m);
    }
    if opts.frozen {
        let mut m = String::from_str("lockfile out of date ");
        m.append(write_counts(missing, bad).as_str());
        m.append("; run `hella fetch` to update it (`--frozen` forbids changes)");
        return EnsureStep::Refuse(m);
    }
    EnsureStep::Fetch(plan)
}

/// The completion of a project's dependencies: the pins so far, and the rounds
/// to go.
#[derive(Debug)]
pub struct Ensure {
    pub pins: NameMap<LockedDependency>,
    pub rounds_left: u64,
}

impl Ensure {
    /// Starts from what is locked.
    pub fn new(locked: &Lockfile) -> (r: Ensure)
        ensures
            pin_map(r.pins.pairs()) == pins_by_name(locked@, locked@.len() as int),
            r.rounds_left == MAX_ROUNDS,
    {
        Ensure { pins: index_pins(&locked.packages), rounds_left: MAX_ROUNDS }
    }

    /// The pins so far, by name: those whose slots the next round looks at.
    pub fn current(&self) -> (r: Vec<LockedDependency>)
        ensures
            pins(r@) == pin_values(pin_map(self.pins.pairs())),
    {
        pin_list(&self.pins)
    }

    /// Decides what to do next; a fetch uses up a round.
    pub fn advance(
        &mut self,
        direct: &NameMap<Dependency>,
        ps: &Vec<PinState>,
        opts: EnsureOptions,
        pkg_root: &str,
    ) -> (r: EnsureStep)
        ensures
            is_step(
                r,
                missing_deps(deps(direct.pairs()), ps@),
                bad_pins(ps@),
                opts,
                pkg_root@,
                old(self).rounds_left as int,
            ),
            final(self).pins == old(self).pins,
            final(self).rounds_left == if r is Fetch {
                old(self).rounds_left - 1
            } else {
                old(self).rounds_left as int
            },
    {
        let step = ensure_step(direct, ps, opts, pkg_root, self.rounds_left);
        if let EnsureStep::Fetch(_) = &step {
            self.rounds_left = self.rounds_left - 1;
        }
        step
    }

    /// Takes the pins that a fetch gave, on top of those so far.
    pub fn record(&mut self, more: &Vec<LockedDependency>)
        ensures
            pin_map(final(self).pins.pairs()) == pins_over(
                pin_map(old(self).pins.pairs()),
                pins(more@),
                more@.len() as int,
            ),
            final(self).rounds_left == old(self).rounds_left,
    {
        add_pins(&mut self.pins, more);
    }
}

// ---------------------------------------------------------------------------
// The end
// ---------------------------------------------------------------------------

/// The lockfile text to write, where the pins differ from what was locked.
pub open spec fn new_lock(locked: Seq<Pin>, now: Seq<Pin>) -> Option<Seq<char>> {
    if locked == now {
        None
    } else {
        Some(lock_written(now))
    }
}

/// The names of the pins.
pub open spec fn pin_names(ps: Seq<Pin>) -> Seq<Seq<char>> {
    Seq::new(ps.len(), |i: int| ps[i].name)
}

/// What could not be fetched in the end.
pub open spec fn leftover(bad: Seq<Pin>, missing: Seq<(Seq<char>, Dep)>) -> Option<Seq<char>> {
    if bad.len() == 0 && missing.len() == 0 {
        None
    } else {
        Some(
            "could not fetch dependencies: "@ + join(pin_names(bad) + dep_names(missing), ", "@),
        )
    }
}

pub(crate) fn same_opt(a: &Option<String>, b: &Option<String>) -> (r: bool)
    ensures
        r == (opt_text(*a) == opt_text(*b)),
{
    match (a, b) {
        (Some(x), Some(y)) => same(x.as_str(), y.as_str()),
        (None, None) => true,
        _ => false,
    }
}

fn same_pin(a: &LockedDependency, b: &LockedDependency) -> (r: bool)
    ensures
        r == (a@ == b@),
{
    same(a.name.as_str(), b.name.as_str()) && same(a.git.as_str(), b.git.as_str()) && same(
        a.version.as_str(),
        b.version.as_str(),
    ) && same(a.rev.as_str(), b.rev.as_str()) && same_opt(&a.package, &b.package)
}

fn same_pins(a: &Vec<LockedDependency>, b: &Vec<LockedDependency>) -> (r: bool)
    ensures
        r == (pins(a@) == pins(b@)),
{
    if a.len() != b.len() {
        assert(pins(a@).len() != pins(b@).len());
        return false;
    }
    let mut i: usize = 0;
    while i < a.len()
        invariant
            i <= a@.len() == b@.len(),
            forall|j: int| 0 <= j < i ==> (#[trigger] a@[j])@ == b@[j]@,
        decreases a@.len() - i,
    {
        if !same_pin(&a[i], &b[i]) {
            assert(pins(a@)[i as int] != pins(b@)[i as int]);
            return false;
        }
        i += 1;
    }
    assert(pins(a@) =~= pins(b@));
    true
}

/// The lockfile text to write after the last round; `None` where the pins are
/// what was locked.
pub fn changed_lock(locked: &Lockfile, now: &NameMap<LockedDependency>) -> (r: Option<String>)
    ensures
        opt_text(r) == new_lock(locked@, pin_values(pin_map(now.pairs()))),
{
    let merged = pin_list(now);
    if same_pins(&merged, &locked.packages) {
        None
    } else {
        Some(serialize_lockfile(&Lockfile { packages: merged }))
    }
}

/// What could not be fetched after the last round, which also shows
/// dependencies that do not converge.
pub fn unfetched_error(direct: &NameMap<Dependency>, ps: &Vec<PinState>) -> (r: Option<String>)
    ensures
        opt_text(r) == leftover(bad_pins(ps@), missing_deps(deps(direct.pairs()), ps@)),
{
    let plan = plan_round(direct, ps);
    let mut names: Vec<String> = Vec::new();
    let ghost bad = pins(plan.bad@);
    let mut i: usize = 0;
    while i < plan.bad.len()
        invariant
            i <= plan.bad@.len(),
            bad == pins(plan.bad@),
            texts(names@) =~= pin_names(bad).take(i as int),
        decreases plan.bad@.len() - i,
    {
        let ghost had = texts(names@);
        names.push(plan.bad[i].name.clone());
        assert(texts(names@) =~= had.push(bad[i as int].name));
        i += 1;
    }
    assert(texts(names@) =~= pin_names(bad));
    push_names(&mut names, &plan.missing);
    if plan.bad.len() == 0 && plan.missing.is_empty() {
        return None;
    }
    let mut m = String::from_str("could not fetch dependencies: ");
    m.append(join_strings(&names, ", ").as_str());
    Some(m)
}

// ---------------------------------------------------------------------------
// Laws
// ---------------------------------------------------------------------------

/// Offline and frozen runs never fetch: either nothing is missing, or they are
/// refused.
pub proof fn law_strict_runs_never_fetch(
    s: EnsureStep,
    missing: Seq<(Seq<char>, Dep)>,
    bad: Seq<Pin>,
    opts: EnsureOptions,
    pkg_root: Seq<char>,
    rounds_left: int,
)
    requires
        is_step(s, missing, bad, opts, pkg_root, rounds_left),
        opts.offline || opts.frozen,
    ensures
        !(s is Fetch),
        rounds_left != 0 && (missing.len() > 0 || bad.len() > 0) ==> s is Refuse,
{
}

/// A complete project passes under any options.
pub proof fn law_complete_project_passes(
    s: EnsureStep,
    opts: EnsureOptions,
    pkg_root: Seq<char>,
    rounds_left: int,
)
    requires
        is_step(s, Seq::empty(), Seq::empty(), opts, pkg_root, rounds_left),
    ensures
        s is Finish,
{
}

/// Pins that are what was locked leave the lockfile alone.
pub proof fn law_unchanged_lock_is_not_written(locked: Seq<Pin>, now: Seq<Pin>)
    ensures
        new_lock(locked, now) is None <==> locked == now,
{
}

proof fn lemma_also_keeps(
    expected: Seq<(Seq<char>, Dep)>,
    ds: Seq<(Seq<char>, Dep)>,
    n: int,
    k: Seq<char>,
)
    requires
        n <= ds.len(),
        crate::names::ascending(crate::names::pair_keys(expected)),
        pair_get(expected, k) is Some,
    ensures
        crate::names::ascending(crate::names::pair_keys(also(expected, ds, n))),
        pair_get(also(expected, ds, n), k) == pair_get(expected, k),
    decreases n,
{
    if n > 0 {
        lemma_also_keeps(expected, ds, n - 1, k);
        let e = also(expected, ds, n - 1);
        crate::names::lemma_put_ascending(e, ds[n - 1].0, ds[n - 1].1);
        crate::names::lemma_put_get(e, ds[n - 1].0, ds[n - 1].1, k);
    }
}

proof fn lemma_explored_keeps(
    ps: Seq<PinState>,
    visited: Seq<bool>,
    expected: Seq<(Seq<char>, Dep)>,
    stack: Seq<Seq<char>>,
    k: Seq<char>,
)
    requires
        crate::names::ascending(crate::names::pair_keys(expected)),
        pair_get(expected, k) is Some,
    ensures
        pair_get(explored(ps, visited, expected, stack), k) == pair_get(expected, k),
    decreases unmarked(visited), stack.len(),
{
    if stack.len() > 0 {
        let rest = stack.drop_last();
        match state_of(ps, stack.last()) {
            Some(i) => {
                if 0 <= i < visited.len() && !visited[i] {
                    lemma_mark(visited, i);
                    let ds = child_deps(ps[i]);
                    lemma_also_keeps(expected, ds, ds.len() as int, k);
                    lemma_explored_keeps(
                        ps,
                        visited.update(i, true),
                        also(expected, ds, ds.len() as int),
                        rest + dep_names(ds),
                        k,
                    );
                } else {
                    lemma_explored_keeps(ps, visited, expected, rest, k);
                }
            },
            None => {
                lemma_explored_keeps(ps, visited, expected, rest, k);
            },
        }
    }
}

/// Direct dependencies are expected as the manifest has them, whatever fetched
/// slots ask for under the same name.
pub proof fn law_direct_dependencies_win(
    direct: Seq<(Seq<char>, Dep)>,
    ps: Seq<PinState>,
    k: Seq<char>,
)
    requires
        crate::names::ascending(crate::names::pair_keys(direct)),
        pair_get(direct, k) is Some,
    ensures
        pair_get(expectation(direct, ps), k) == pair_get(direct, k),
{
    lemma_explored_keeps(ps, none_visited(ps.len()), direct, dep_names(direct), k);
}

/// The manifest in the slot of pin `i` asks for `d` under the name `k`.
pub open spec fn asks_for(ps: Seq<PinState>, i: int, k: Seq<char>, d: Dep) -> bool {
    child_deps(ps[i]).contains((k, d))
}

/// `d` is a direct dependency called `k`, or a slot that the direct dependencies
/// lead to asks for it.
pub open spec fn asked_from(
    direct: Seq<(Seq<char>, Dep)>,
    ps: Seq<PinState>,
    k: Seq<char>,
    d: Dep,
) -> bool {
    pair_get(direct, k) == Some(d) || exists|i: int|
        0 <= i < ps.len() && pin_reached(ps, direct, i) && #[trigger] asks_for(ps, i, k, d)
}

proof fn lemma_listed(ds: Seq<(Seq<char>, Dep)>, k: Seq<char>)
    ensures
        pair_get(ds, k) is Some <==> exists|j: int| 0 <= j < ds.len() && (#[trigger] ds[j]).0 == k,
        pair_get(ds, k) matches Some(d) ==> ds.contains((k, d)),
    decreases ds.len(),
{
    if ds.len() > 0 {
        let t = ds.drop_last();
        lemma_listed(t, k);
        if ds.last().0 == k {
            assert(ds[ds.len() - 1] == (k, ds.last().1));
        } else {
            match pair_get(t, k) {
                Some(d) => {
                    let j = choose|j: int| 0 <= j < t.len() && t[j] == (k, d);
                    assert(ds[j] == (k, d));
                },
                None => {
                    assert forall|j: int| 0 <= j < ds.len() implies (#[trigger] ds[j]).0 != k by {
                        if j < t.len() {
                            assert(t[j] == ds[j]);
                        }
                    }
                },
            }
        }
    }
}

proof fn lemma_also_holds(expected: Seq<(Seq<char>, Dep)>, ds: Seq<(Seq<char>, Dep)>, n: int)
    requires
        0 <= n <= ds.len(),
        crate::names::ascending(crate::names::pair_keys(expected)),
    ensures
        crate::names::ascending(crate::names::pair_keys(also(expected, ds, n))),
        forall|k: Seq<char>| #[trigger]
            pair_get(also(expected, ds, n), k) is Some <==> pair_get(expected, k) is Some
                || exists|j: int| 0 <= j < n && (#[trigger] ds[j]).0 == k,
        forall|k: Seq<char>| #[trigger]
            pair_get(also(expected, ds, n), k) matches Some(d) ==> pair_get(expected, k) == Some(d)
                || ds.contains((k, d)),
    decreases n,
{
    if n > 0 {
        lemma_also_holds(expected, ds, n - 1);
        let e = also(expected, ds, n - 1);
        let r = also(expected, ds, n);
        let x = ds[n - 1];
        crate::names::lemma_put_ascending(e, x.0, x.1);
        assert forall|k: Seq<char>| #[trigger]
            pair_get(r, k) is Some <==> pair_get(expected, k) is Some || exists|j: int|
                0 <= j < n && (#[trigger] ds[j]).0 == k by {
            crate::names::lemma_put_get(e, x.0, x.1, k);
            if k == x.0 {
                assert(ds[n - 1].0 == k);
            }
            assert(pair_get(e, k) is Some <==> pair_get(expected, k) is Some || exists|j: int|
                0 <= j < n - 1 && (#[trigger] ds[j]).0 == k);
        }
        assert forall|k: Seq<char>| (#[trigger] pair_get(r, k)) matches Some(d) implies pair_get(
            expected,
            k,
        ) == pair_get(r, k) || ds.contains((k, pair_get(r, k)->0)) by {
            crate::names::lemma_put_get(e, x.0, x.1, k);
            if k == x.0 && pair_get(e, k) is None {
                assert(ds[n - 1] == (k, x.1));
            } else {
                assert(pair_get(r, k) == pair_get(e, k));
            }
        }
    }
}

/// What holds while slots are followed.
spec fn exploring(
    direct: Seq<(Seq<char>, Dep)>,
    ps: Seq<PinState>,
    visited: Seq<bool>,
    expected: Seq<(Seq<char>, Dep)>,
    stack: Seq<Seq<char>>,
) -> bool {
    &&& visited.len() == ps.len()
    &&& crate::names::ascending(crate::names::pair_keys(expected))
    &&& forall|k: Seq<char>| #[trigger] stack.contains(k) ==> pair_get(expected, k) is Some
    &&& forall|i: int| 0 <= i < ps.len() && #[trigger] visited[i] ==> pin_reached(ps, direct, i)
    &&& forall|k: Seq<char>| #[trigger]
        pair_get(expected, k) is Some ==> asked_from(direct, ps, k, pair_get(expected, k)->0)
    &&& forall|k: Seq<char>| #[trigger]
        pair_get(direct, k) is Some ==> pair_get(expected, k) is Some
    &&& forall|i: int, k: Seq<char>|
        0 <= i < ps.len() && visited[i] && #[trigger] pair_get(child_deps(ps[i]), k) is Some
            ==> pair_get(expected, k) is Some
    &&& forall|i: int|
        0 <= i < ps.len() && #[trigger] pin_counts(ps, i) && pair_get(expected, ps[i].pin.name@) is Some
            ==> visited[i] || stack.contains(ps[i].pin.name@)
}

/// Everything that is expected was asked for, and whatever the direct
/// dependencies and the slots they lead to ask for is expected.
spec fn is_expectation(
    direct: Seq<(Seq<char>, Dep)>,
    ps: Seq<PinState>,
    e: Seq<(Seq<char>, Dep)>,
) -> bool {
    &&& forall|k: Seq<char>| #[trigger]
        pair_get(e, k) is Some ==> asked_from(direct, ps, k, pair_get(e, k)->0)
    &&& forall|k: Seq<char>| #[trigger] pair_get(direct, k) is Some ==> pair_get(e, k) is Some
    &&& forall|i: int, k: Seq<char>|
        0 <= i < ps.len() && pin_reached(ps, direct, i) && #[trigger] pair_get(
            child_deps(ps[i]),
            k,
        ) is Some ==> pair_get(e, k) is Some
}

proof fn lemma_explored(
    direct: Seq<(Seq<char>, Dep)>,
    ps: Seq<PinState>,
    visited: Seq<bool>,
    expected: Seq<(Seq<char>, Dep)>,
    stack: Seq<Seq<char>>,
)
    requires
        exploring(direct, ps, visited, expected, stack),
    ensures
        is_expectation(direct, ps, explored(ps, visited, expected, stack)),
    decreases unmarked(visited), stack.len(),
{
    let root = |i: int| wanted_by(ps, direct, i);
    let edge = |i: int, j: int| leads_to(ps, i, j);
    if stack.len() == 0 {
        let s = |i: int| 0 <= i < ps.len() && visited[i];
        assert forall|i: int| #[trigger] root(i) implies s(i) by {
            assert(pin_counts(ps, i));
        }
        assert forall|a: int, b: int| s(a) && #[trigger] edge(a, b) implies s(b) by {
            assert(pin_counts(ps, b));
            assert(pair_get(child_deps(ps[a]), ps[b].pin.name@) is Some);
        }
        assert forall|i: int, k: Seq<char>|
            0 <= i < ps.len() && pin_reached(ps, direct, i) && #[trigger] pair_get(
                child_deps(ps[i]),
                k,
            ) is Some implies pair_get(expected, k) is Some by {
            crate::graph::lemma_reached_least(root, edge, s, i);
        }
    } else {
        let name = stack.last();
        let rest = stack.drop_last();
        assert(stack[stack.len() - 1] == name);
        assert(stack.contains(name));
        assert forall|k: Seq<char>| #[trigger] rest.contains(k) implies stack.contains(k) by {
            let j = choose|j: int| 0 <= j < rest.len() && rest[j] == k;
            assert(stack[j] == k);
        }
        assert forall|k: Seq<char>| #[trigger] stack.contains(k) implies rest.contains(k) || k
            == name by {
            let j = choose|j: int| 0 <= j < stack.len() && stack[j] == k;
            if j < rest.len() {
                assert(rest[j] == k);
            }
        }
        lemma_state_found(ps, name);
        match state_of(ps, name) {
            Some(i) if !visited[i] => {
                lemma_mark(visited, i);
                let ds = child_deps(ps[i]);
                let now = visited.update(i, true);
                let more = also(expected, ds, ds.len() as int);
                let next = rest + dep_names(ds);
                lemma_also_holds(expected, ds, ds.len() as int);
                assert(pin_counts(ps, i));
                assert(pin_reached(ps, direct, i)) by {
                    let d = pair_get(expected, name)->0;
                    assert(asked_from(direct, ps, name, d));
                    if pair_get(direct, name) == Some(d) {
                        assert(root(i));
                        crate::graph::lemma_reached_closed(root, edge, i, i);
                    } else {
                        let j = choose|j: int|
                            0 <= j < ps.len() && pin_reached(ps, direct, j) && #[trigger] asks_for(
                                ps,
                                j,
                                name,
                                d,
                            );
                        let cs = child_deps(ps[j]);
                        let m = choose|m: int| 0 <= m < cs.len() && cs[m] == (name, d);
                        assert(cs[m].0 == name);
                        lemma_listed(cs, name);
                        assert(edge(j, i));
                        crate::graph::lemma_reached_closed(root, edge, j, i);
                    }
                }
                assert forall|k: Seq<char>| #[trigger] next.contains(k) implies rest.contains(k)
                    || exists|j: int| 0 <= j < ds.len() && (#[trigger] ds[j]).0 == k by {
                    let j = choose|j: int| 0 <= j < next.len() && next[j] == k;
                    if j < rest.len() {
                        assert(rest[j] == k);
                    } else {
                        assert(ds[j - rest.len()].0 == k);
                    }
                }
                assert forall|k: Seq<char>| #[trigger] pair_get(more, k) is Some implies asked_from(
                    direct,
                    ps,
                    k,
                    pair_get(more, k)->0,
                ) by {
                    if pair_get(expected, k) == pair_get(more, k) {
                        assert(pair_get(expected, k) is Some);
                    } else {
                        assert(asks_for(ps, i, k, pair_get(more, k)->0));
                    }
                }
                assert forall|a: int, k: Seq<char>|
                    0 <= a < ps.len() && now[a] && #[trigger] pair_get(child_deps(ps[a]), k) is Some
                    implies pair_get(more, k) is Some by {
                    lemma_listed(child_deps(ps[a]), k);
                    if a != i {
                        assert(visited[a]);
                    }
                }
                assert forall|a: int|
                    0 <= a < ps.len() && #[trigger] pin_counts(ps, a) && pair_get(
                        more,
                        ps[a].pin.name@,
                    ) is Some implies now[a] || next.contains(ps[a].pin.name@) by {
                    let k = ps[a].pin.name@;
                    if exists|j: int| 0 <= j < ds.len() && (#[trigger] ds[j]).0 == k {
                        let j = choose|j: int| 0 <= j < ds.len() && (#[trigger] ds[j]).0 == k;
                        assert(next[rest.len() + j] == k);
                    } else {
                        assert(pair_get(expected, k) is Some);
                        if !visited[a] && rest.contains(k) {
                            let j = choose|j: int| 0 <= j < rest.len() && rest[j] == k;
                            assert(next[j] == k);
                        }
                    }
                }
                lemma_explored(direct, ps, now, more, next);
            },
            _ => {
                assert forall|a: int|
                    0 <= a < ps.len() && #[trigger] pin_counts(ps, a) && pair_get(
                        expected,
                        ps[a].pin.name@,
                    ) is Some implies visited[a] || rest.contains(ps[a].pin.name@) by {}
                lemma_explored(direct, ps, visited, expected, rest);
            },
        }
    }
}

/// What is expected is exactly what slots ask for from the direct dependencies
/// on: a name is expected when it is a direct dependency or some slot that the
/// direct dependencies lead to asks for it, and what is expected under it is
/// what one of those asks for.
pub proof fn law_expected_is_what_slots_ask_for(
    direct: Seq<(Seq<char>, Dep)>,
    ps: Seq<PinState>,
    k: Seq<char>,
)
    requires
        crate::names::ascending(crate::names::pair_keys(direct)),
    ensures
        pair_get(expectation(direct, ps), k) is Some <==> exists|d: Dep| #[trigger]
            asked_from(direct, ps, k, d),
        pair_get(expectation(direct, ps), k) matches Some(d) ==> asked_from(direct, ps, k, d),
{
    let none = none_visited(ps.len());
    let names = dep_names(direct);
    assert forall|x: Seq<char>| #[trigger] names.contains(x) implies pair_get(direct, x) is Some by {
        let j = choose|j: int| 0 <= j < names.len() && names[j] == x;
        assert(direct[j].0 == x);
        lemma_listed(direct, x);
    }
    assert forall|i: int|
        0 <= i < ps.len() && #[trigger] pin_counts(ps, i) && pair_get(direct, ps[i].pin.name@) is Some
        implies names.contains(ps[i].pin.name@) by {
        lemma_listed(direct, ps[i].pin.name@);
        let j = choose|j: int|
            0 <= j < direct.len() && (#[trigger] direct[j]).0 == ps[i].pin.name@;
        assert(names[j] == ps[i].pin.name@);
    }
    lemma_explored(direct, ps, none, direct, names);
    let e = expectation(direct, ps);
    if exists|d: Dep| #[trigger] asked_from(direct, ps, k, d) {
        let d = choose|d: Dep| #[trigger] asked_from(direct, ps, k, d);
        if pair_get(direct, k) != Some(d) {
            let i = choose|i: int|
                0 <= i < ps.len() && pin_reached(ps, direct, i) && #[trigger] asks_for(ps, i, k, d);
            let cs = child_deps(ps[i]);
            let m = choose|m: int| 0 <= m < cs.len() && cs[m] == (k, d);
            assert(cs[m].0 == k);
            lemma_listed(cs, k);
        }
    }
}

proof fn lemma_sorted_pins_by_name(ps: Seq<Pin>, n: int)
    requires
        0 <= n <= ps.len(),
        crate::names::ascending(pin_names(ps)),
    ensures
        pins_by_name(ps, n) == Seq::new(n as nat, |i: int| (ps[i].name, ps[i])),
    decreases n,
{
    if n > 0 {
        lemma_sorted_pins_by_name(ps, n - 1);
        if n > 1 {
            assert(crate::text::before(pin_names(ps)[n - 2], pin_names(ps)[n - 1]));
        }
    }
}

/// A run that fetches nothing, as every offline and frozen one, leaves the
/// lockfile alone: its pins are what was locked. Lockfiles are in name order,
/// and no name is pinned twice in them.
pub proof fn law_idle_run_keeps_the_lock(locked: Seq<Pin>)
    requires
        crate::names::ascending(pin_names(locked)),
    ensures
        pin_values(pins_by_name(locked, locked.len() as int)) == locked,
        new_lock(locked, pin_values(pins_by_name(locked, locked.len() as int))) is None,
{
    lemma_sorted_pins_by_name(locked, locked.len() as int);
    assert(pin_values(pins_by_name(locked, locked.len() as int)) =~= locked);
}

/// Every fetch uses up a round, and without one left a run finishes, so it
/// never goes on for ever.
pub proof fn law_rounds_run_out(
    s: EnsureStep,
    missing: Seq<(Seq<char>, Dep)>,
    bad: Seq<Pin>,
    opts: EnsureOptions,
    pkg_root: Seq<char>,
)
    requires
        is_step(s, missing, bad, opts, pkg_root, 0),
    ensures
        s is Finish,
{
}

} // verus!
