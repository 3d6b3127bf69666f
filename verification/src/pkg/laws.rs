//! What holds of package plans, closures and reports.
use crate::graph::{lemma_mark, unmarked};
use crate::manifest::{Dep, Mark, Pin};
use crate::names::{
    ascending, lemma_get_key, lemma_put_ascending, lemma_put_get, pair_get, pair_keys, put,
};
use crate::pkg::closure::{
    advanced, dep_works, fit, pins_by_name, waits, Next, Work,
};
use crate::pkg::ensure::{
    also, bad_pins, child_deps, dep_names, expectation, explored, is_step, leftover,
    marker_matches, missing_deps, none_visited, pin_names, state_of, unfetched, unpinned,
    EnsureOptions, EnsureStep, PinState,
};
use crate::pkg::fetch::pins_over;
use crate::pkg::prune::is_last_of_name;
use crate::pkg::report::{
    below, change, changes, deeper, described, first_stranger, lemma_seen, lemma_state_found,
    other_pins, pin_in, reported, root_lines, stacked, tree_lines, twig_text, unseen, Twig,
};
use crate::text::{ends, join};
use vstd::prelude::*;

verus! {

// ---------------------------------------------------------------------------
// Rounds
// ---------------------------------------------------------------------------

/// A slot is good only with a marker of the pinned source at the pinned commit.
pub proof fn law_only_the_pinned_commit_is_good(p: Pin, m: Option<Mark>)
    ensures
        marker_matches(p, m) ==> m is Some,
        m is Some && m->0.git != p.git ==> !marker_matches(p, m),
        m is Some && m->0.rev != p.rev ==> !marker_matches(p, m),
        m is Some && m->0.git == p.git && m->0.rev == p.rev ==> marker_matches(p, m),
{
}

proof fn lemma_unpinned(expected: Seq<(Seq<char>, Dep)>, ps: Seq<PinState>, n: int, k: Seq<char>)
    requires
        0 <= n <= expected.len(),
        ascending(pair_keys(expected)),
    ensures
        ascending(pair_keys(unpinned(expected, ps, n))),
        pair_get(unpinned(expected, ps, n), k) == if state_of(ps, k) is None {
            pair_get(expected.take(n), k)
        } else {
            None
        },
    decreases n,
{
    if n > 0 {
        lemma_unpinned(expected, ps, n - 1, k);
        let t = unpinned(expected, ps, n - 1);
        let e = expected[n - 1];
        assert(expected.take(n).drop_last() =~= expected.take(n - 1));
        if state_of(ps, e.0) is None {
            lemma_put_ascending(t, e.0, e.1);
            lemma_put_get(t, e.0, e.1, k);
        }
    }
}

proof fn lemma_also_ascending(
    expected: Seq<(Seq<char>, Dep)>,
    ds: Seq<(Seq<char>, Dep)>,
    n: int,
)
    requires
        n <= ds.len(),
        ascending(pair_keys(expected)),
    ensures
        ascending(pair_keys(also(expected, ds, n))),
    decreases n,
{
    if n > 0 {
        lemma_also_ascending(expected, ds, n - 1);
        lemma_put_ascending(also(expected, ds, n - 1), ds[n - 1].0, ds[n - 1].1);
    }
}

proof fn lemma_explored_ascending(
    ps: Seq<PinState>,
    visited: Seq<bool>,
    expected: Seq<(Seq<char>, Dep)>,
    stack: Seq<Seq<char>>,
)
    requires
        ascending(pair_keys(expected)),
    ensures
        ascending(pair_keys(explored(ps, visited, expected, stack))),
    decreases unmarked(visited), stack.len(),
{
    if stack.len() > 0 {
        let rest = stack.drop_last();
        match state_of(ps, stack.last()) {
            Some(i) => {
                if 0 <= i < visited.len() && !visited[i] {
                    lemma_mark(visited, i);
                    let ds = child_deps(ps[i]);
                    lemma_also_ascending(expected, ds, ds.len() as int);
                    lemma_explored_ascending(
                        ps,
                        visited.update(i, true),
                        also(expected, ds, ds.len() as int),
                        rest + dep_names(ds),
                    );
                } else {
                    lemma_explored_ascending(ps, visited, expected, rest);
                }
            },
            None => {
                lemma_explored_ascending(ps, visited, expected, rest);
            },
        }
    }
}

/// What is missing is what is expected and has no pin, exactly.
pub proof fn law_missing_is_expected_without_a_pin(
    direct: Seq<(Seq<char>, Dep)>,
    ps: Seq<PinState>,
    k: Seq<char>,
)
    requires
        ascending(pair_keys(direct)),
    ensures
        (exists|i: int| 0 <= i < ps.len() && (#[trigger] ps[i]).pin.name@ == k) ==> pair_get(
            missing_deps(direct, ps),
            k,
        ) is None,
        (forall|i: int| 0 <= i < ps.len() ==> (#[trigger] ps[i]).pin.name@ != k) ==> pair_get(
            missing_deps(direct, ps),
            k,
        ) == pair_get(expectation(direct, ps), k),
{
    let e = expectation(direct, ps);
    lemma_explored_ascending(ps, none_visited(ps.len()), direct, dep_names(direct));
    lemma_unpinned(e, ps, e.len() as int, k);
    assert(e.take(e.len() as int) =~= e);
    lemma_state_found(ps, k);
}

proof fn lemma_unfetched(ps: Seq<PinState>, n: int, k: Seq<char>)
    requires
        0 <= n <= ps.len(),
    ensures
        ascending(pair_keys(unfetched(ps, n))),
        pair_get(unfetched(ps, n), k) == match state_of(ps, k) {
            Some(i) if i < n && !ps[i].good => Some(ps[i].pin@),
            _ => None,
        },
    decreases n,
{
    lemma_state_found(ps, k);
    if n > 0 {
        lemma_unfetched(ps, n - 1, k);
        let t = unfetched(ps, n - 1);
        let p = ps[n - 1].pin@;
        lemma_put_ascending(t, p.name, p);
        lemma_put_get(t, p.name, p, k);
    }
}

/// A pin is fetched exactly when its slot is not good; of several pins of a name
/// only the last counts.
pub proof fn law_bad_pins_are_fetched(ps: Seq<PinState>, p: Pin)
    ensures
        bad_pins(ps).contains(p) <==> exists|i: int|
            0 <= i < ps.len() && is_last_of_name(ps, i) && !(#[trigger] ps[i]).good && ps[i].pin@
                == p,
{
    let n = ps.len() as int;
    let u = unfetched(ps, n);
    let vs = bad_pins(ps);
    lemma_unfetched(ps, n, p.name);
    lemma_state_found(ps, p.name);
    lemma_value_names(ps, n);
    if vs.contains(p) {
        let j = choose|j: int| 0 <= j < vs.len() && vs[j] == p;
        assert(u[j].1 == p);
        assert(u[j].0 == p.name);
        assert(pair_keys(u)[j] == p.name);
        lemma_get_key(u, p.name);
        let i = state_of(ps, p.name)->0;
        lemma_get_at(u, j);
        assert(ps[i].pin@ == p);
        assert(is_last_of_name(ps, i));
    }
    if exists|i: int|
        0 <= i < ps.len() && is_last_of_name(ps, i) && !(#[trigger] ps[i]).good && ps[i].pin@
            == p {
        let i = choose|i: int|
            0 <= i < ps.len() && is_last_of_name(ps, i) && !(#[trigger] ps[i]).good
                && ps[i].pin@ == p;
        assert(ps[i].pin.name@ == p.name);
        assert(state_of(ps, p.name) == Some(i));
        lemma_found(u, p.name);
        let j = choose|j: int| 0 <= j < u.len() && u[j] == (p.name, p);
        assert(vs[j] == p);
    }
}

proof fn lemma_value_names(ps: Seq<PinState>, n: int)
    requires
        0 <= n <= ps.len(),
    ensures
        forall|j: int|
            0 <= j < unfetched(ps, n).len() ==> (#[trigger] unfetched(ps, n)[j]).0 == unfetched(
                ps,
                n,
            )[j].1.name,
    decreases n,
{
    if n > 0 {
        lemma_value_names(ps, n - 1);
        let t = unfetched(ps, n - 1);
        let p = ps[n - 1].pin@;
        lemma_put_members(t, p.name, p);
    }
}

proof fn lemma_put_members<V>(s: Seq<(Seq<char>, V)>, k: Seq<char>, v: V)
    ensures
        forall|j: int|
            0 <= j < put(s, k, v).len() ==> #[trigger] put(s, k, v)[j] == (k, v) || s.contains(
                put(s, k, v)[j],
            ),
    decreases s.len(),
{
    let r = put(s, k, v);
    if s.len() == 0 {
    } else {
        let t = s.drop_last();
        lemma_put_members(t, k, v);
        assert forall|j: int| 0 <= j < r.len() implies #[trigger] r[j] == (k, v) || s.contains(
            r[j],
        ) by {
            assert(s[s.len() - 1] == s.last());
            if r[j] != (k, v) {
                if j < s.len() && r[j] == s[j] {
                    assert(s.contains(s[j]));
                } else if j < r.len() - 1 {
                    assert(r[j] == put(t, k, v)[j]);
                    assert(t.contains(r[j]));
                    let i = choose|i: int| 0 <= i < t.len() && t[i] == r[j];
                    assert(s[i] == r[j]);
                } else {
                    assert(r[j] == s.last());
                }
            }
        }
    }
}

proof fn lemma_get_at<V>(s: Seq<(Seq<char>, V)>, j: int)
    requires
        ascending(pair_keys(s)),
        0 <= j < s.len(),
    ensures
        pair_get(s, s[j].0) == Some(s[j].1),
    decreases s.len(),
{
    let t = s.drop_last();
    if j < t.len() {
        assert(pair_keys(t) =~= pair_keys(s).drop_last());
        assert(ascending(pair_keys(t))) by {
            assert forall|a: int, b: int| 0 <= a < b < pair_keys(t).len() implies crate::text::before(
                #[trigger] pair_keys(t)[a],
                #[trigger] pair_keys(t)[b],
            ) by {
                assert(crate::text::before(pair_keys(s)[a], pair_keys(s)[b]));
            }
        }
        lemma_get_at(t, j);
        assert(crate::text::before(pair_keys(s)[j], pair_keys(s)[s.len() - 1]));
        crate::text::lemma_before_total(s[j].0, s.last().0);
        assert(s[j] == t[j]);
    }
}

proof fn lemma_found<V>(s: Seq<(Seq<char>, V)>, k: Seq<char>)
    requires
        pair_get(s, k) is Some,
    ensures
        s.contains((k, pair_get(s, k)->0)),
    decreases s.len(),
{
    if s.last().0 == k {
        assert(s[s.len() - 1] == (k, pair_get(s, k)->0));
    } else {
        let t = s.drop_last();
        lemma_found(t, k);
        let i = choose|i: int| 0 <= i < t.len() && t[i] == (k, pair_get(s, k)->0);
        assert(s[i] == t[i]);
    }
}

/// Where something is missing and neither flag forbids it, a run fetches, and
/// exactly what is missing or bad; it ends only where nothing is or no round is
/// left.
pub proof fn law_open_runs_fetch_what_is_missing(
    s: EnsureStep,
    missing: Seq<(Seq<char>, Dep)>,
    bad: Seq<Pin>,
    opts: EnsureOptions,
    pkg_root: Seq<char>,
    rounds_left: int,
)
    requires
        is_step(s, missing, bad, opts, pkg_root, rounds_left),
    ensures
        s is Finish <==> rounds_left == 0 || (missing.len() == 0 && bad.len() == 0),
        s is Refuse <==> rounds_left != 0 && (missing.len() > 0 || bad.len() > 0) && (opts.offline
            || opts.frozen),
        s matches EnsureStep::Fetch(p) ==> crate::manifest::deps(p.missing.pairs()) == missing
            && crate::manifest::pins(p.bad@) == bad,
        !opts.offline && !opts.frozen && rounds_left != 0 && (missing.len() > 0 || bad.len() > 0)
            ==> s is Fetch,
{
}

/// Nothing that could not be fetched is passed over: an error is reported exactly
/// where something is left.
pub proof fn law_leftovers_are_reported(bad: Seq<Pin>, missing: Seq<(Seq<char>, Dep)>)
    ensures
        leftover(bad, missing) is None <==> bad.len() == 0 && missing.len() == 0,
        leftover(bad, missing) matches Some(m) ==> ends(
            m,
            join(pin_names(bad) + dep_names(missing), ", "@),
        ),
{
    let names = join(pin_names(bad) + dep_names(missing), ", "@);
    let m = "could not fetch dependencies: "@ + names;
    assert(m.skip(m.len() - names.len()) =~= names);
}

// ---------------------------------------------------------------------------
// Closures
// ---------------------------------------------------------------------------

/// The request is met by a pin: one of its name and source, whose version it does
/// not reject.
pub open spec fn is_met(pins: Seq<(Seq<char>, Pin)>, w: Work) -> bool {
    pair_get(pins, w.name) matches Some(p) && p.git == w.git && fit(w.req, p.version) != Some(false)
}

/// Requests are looked at in order. The first that no pin meets decides: it is
/// fetched where its name has no pin, and a conflict where it has; if there is
/// none, the closure is done. What stands behind it waits on, unchanged.
pub proof fn law_first_unmet_request_decides(pins: Seq<(Seq<char>, Pin)>, queue: Seq<Work>) -> (k:
    int)
    ensures
        0 <= k <= queue.len(),
        forall|i: int| 0 <= i < k ==> is_met(pins, #[trigger] queue[i]),
        k == queue.len() ==> advanced(pins, queue).0 is Done && advanced(pins, queue).1.len() == 0,
        k < queue.len() ==> !is_met(pins, queue[k]) && advanced(pins, queue).1 == queue.skip(k + 1)
            && match pair_get(pins, queue[k].name) {
            None => advanced(pins, queue).0 == Next::Fetch(queue[k]),
            Some(_) => advanced(pins, queue).0 is Clash,
        },
    decreases queue.len(),
{
    if queue.len() == 0 {
        0
    } else if !is_met(pins, queue[0]) {
        0
    } else {
        let t = queue.skip(1);
        let j = law_first_unmet_request_decides(pins, t);
        assert forall|i: int| 0 <= i < j + 1 implies is_met(pins, #[trigger] queue[i]) by {
            if i > 0 {
                assert(queue[i] == t[i - 1]);
            }
        }
        if j < t.len() {
            assert(t[j] == queue[j + 1]);
            assert(t.skip(j + 1) =~= queue.skip(j + 2));
        }
        j + 1
    }
}

/// Every dependency of a manifest is requested, as the manifest has it.
pub proof fn law_requests_carry_the_dependency(ds: Seq<(Seq<char>, Dep)>, i: int, n: Seq<char>)
    requires
        0 <= i < ds.len(),
    ensures
        dep_works(ds).len() == ds.len(),
        dep_works(ds)[i].name == ds[i].0,
        dep_works(ds)[i].git == ds[i].1.git,
        dep_works(ds)[i].req == ds[i].1.version,
        dep_works(ds)[i].package == ds[i].1.package,
        waits(dep_works(ds), n) <==> pair_keys(ds).contains(n),
{
    if waits(dep_works(ds), n) {
        let j = choose|j: int| 0 <= j < ds.len() && (#[trigger] dep_works(ds)[j]).name == n;
        assert(pair_keys(ds)[j] == n);
    }
    if pair_keys(ds).contains(n) {
        let j = choose|j: int| 0 <= j < ds.len() && pair_keys(ds)[j] == n;
        assert(dep_works(ds)[j].name == n);
    }
}

/// Of several pins for one name the last counts, and no other name is touched.
pub proof fn law_last_pin_of_a_name_counts(ps: Seq<Pin>, n: int, i: int)
    requires
        0 <= i < n <= ps.len(),
        forall|j: int| i < j < n ==> (#[trigger] ps[j]).name != ps[i].name,
    ensures
        pair_get(pins_by_name(ps, n), ps[i].name) == Some(ps[i]),
        forall|x: Seq<char>| #[trigger]
            pair_keys(pins_by_name(ps, n)).contains(x) <==> exists|j: int|
                0 <= j < n && (#[trigger] ps[j]).name == x,
        ascending(pair_keys(pins_by_name(ps, n))),
{
    lemma_as_pins_over(ps, n);
    let m = pins_by_name(ps, n);
    assert(pair_keys(Seq::<(Seq<char>, Pin)>::empty()) =~= Seq::empty());
    crate::pkg::fetch::law_new_pins_win(Seq::empty(), ps, n, ps[i].name);
    assert forall|x: Seq<char>| #[trigger]
        pair_keys(m).contains(x) <==> exists|j: int| 0 <= j < n && (#[trigger] ps[j]).name == x by {
        lemma_get_key(m, x);
        crate::pkg::fetch::law_new_pins_win(Seq::empty(), ps, n, x);
        if exists|j: int| 0 <= j < n && (#[trigger] ps[j]).name == x {
            let j = choose|j: int| 0 <= j < n && (#[trigger] ps[j]).name == x;
            let l = lemma_last_named(ps, n, x, j);
            assert(pair_get(m, x) == Some(ps[l]));
        }
    }
}

proof fn lemma_last_named(ps: Seq<Pin>, n: int, x: Seq<char>, j: int) -> (l: int)
    requires
        0 <= j < n <= ps.len(),
        ps[j].name == x,
    ensures
        j <= l < n,
        ps[l].name == x,
        forall|i: int| l < i < n ==> (#[trigger] ps[i]).name != x,
    decreases n,
{
    if ps[n - 1].name == x {
        n - 1
    } else {
        lemma_last_named(ps, n - 1, x, j)
    }
}

proof fn lemma_as_pins_over(ps: Seq<Pin>, n: int)
    requires
        0 <= n <= ps.len(),
    ensures
        pins_by_name(ps, n) == pins_over(Seq::empty(), ps, n),
    decreases n,
{
    if n > 0 {
        lemma_as_pins_over(ps, n - 1);
    }
}

// ---------------------------------------------------------------------------
// Updates
// ---------------------------------------------------------------------------

/// A target that is no dependency is refused, the first one by its name, and only
/// such a target.
pub proof fn law_strangers_are_refused(ds: Seq<(Seq<char>, Dep)>, names: Seq<Seq<char>>, i: int)
    requires
        0 <= i <= names.len(),
    ensures
        first_stranger(ds, names, i) is None <==> forall|j: int|
            i <= j < names.len() ==> pair_keys(ds).contains(#[trigger] names[j]),
        first_stranger(ds, names, i) matches Some(x) ==> !pair_keys(ds).contains(x) && exists|
            j: int,
        |
            i <= j < names.len() && #[trigger] names[j] == x && forall|l: int|
                i <= l < j ==> pair_keys(ds).contains(#[trigger] names[l]),
    decreases names.len() - i,
{
    if i < names.len() {
        lemma_get_key(ds, names[i]);
        law_strangers_are_refused(ds, names, i + 1);
        if pair_get(ds, names[i]) is None {
            assert(names[i] == names[i]);
        } else if first_stranger(ds, names, i + 1) is Some {
            let x = first_stranger(ds, names, i + 1)->0;
            let j = choose|j: int|
                i + 1 <= j < names.len() && #[trigger] names[j] == x && forall|l: int|
                    i + 1 <= l < j ==> pair_keys(ds).contains(#[trigger] names[l]);
            assert(names[j] == x);
        }
    }
}

/// An update of named targets starts from all other pins, as they stand and in
/// their order.
pub proof fn law_updates_keep_other_pins(ps: Seq<Pin>, targets: Seq<Seq<char>>, n: int)
    requires
        0 <= n <= ps.len(),
    ensures
        other_pins(ps, targets, n) == ps.take(n).filter(|p: Pin| !targets.contains(p.name)),
    decreases n,
{
    reveal(Seq::filter);
    let f = |p: Pin| !targets.contains(p.name);
    if n > 0 {
        law_updates_keep_other_pins(ps, targets, n - 1);
        assert(ps.take(n).drop_last() =~= ps.take(n - 1));
        assert(ps.take(n).last() == ps[n - 1]);
    } else {
        assert(ps.take(0).filter(f) =~= Seq::empty());
    }
}

/// An update reports on its targets, or on every dependency where it has none: a
/// line for each, that tells a moved pin from one that stayed.
pub proof fn law_updates_are_reported(
    ds: Seq<(Seq<char>, Dep)>,
    targets: Seq<Seq<char>>,
    was: Seq<(Seq<char>, Pin)>,
    is: Seq<(Seq<char>, Pin)>,
    i: int,
)
    requires
        0 <= i < reported(ds, targets).len(),
    ensures
        ({
            let names = reported(ds, targets);
            let lines = changes(names, was, is, names.len() as int);
            let name = names[i];
            &&& targets.len() > 0 ==> names == targets
            &&& targets.len() == 0 ==> names == pair_keys(ds)
            &&& lines.len() == names.len()
            &&& match (pair_get(was, name), pair_get(is, name)) {
                (Some(o), Some(n)) => lines[i] == if o.version == n.version && o.rev == n.rev {
                    name + " already current ("@ + o.version + ")"@
                } else {
                    "Updated "@ + name + " "@ + o.version + " → "@ + n.version
                },
                (None, Some(n)) => lines[i] == "Pinned "@ + name + " "@ + n.version,
                (_, None) => lines[i] == "warning: "@ + name + " has no pin after update"@,
            }
        }),
{
    let names = reported(ds, targets);
    lemma_changes(names, was, is, names.len() as int, i);
    assert(dep_names(ds) =~= pair_keys(ds));
}

proof fn lemma_changes(
    names: Seq<Seq<char>>,
    was: Seq<(Seq<char>, Pin)>,
    is: Seq<(Seq<char>, Pin)>,
    n: int,
    i: int,
)
    requires
        0 <= i < n <= names.len(),
    ensures
        changes(names, was, is, n).len() == n,
        changes(names, was, is, n)[i] == change(
            names[i],
            pair_get(was, names[i]),
            pair_get(is, names[i]),
        ),
    decreases n,
{
    assert(changes(names, was, is, 0).len() == 0);
    if n > 1 {
        if i < n - 1 {
            lemma_changes(names, was, is, n - 1, i);
        } else {
            lemma_changes(names, was, is, n - 1, 0);
        }
    }
}

// ---------------------------------------------------------------------------
// The dependency tree
// ---------------------------------------------------------------------------

/// The names that have been written once the waiting nodes are.
spec fn written(ps: Seq<PinState>, seen: Set<Seq<char>>, stack: Seq<Twig>) -> Set<Seq<char>>
    decreases unseen(ps, seen, ps.len() as int), stack.len(),
{
    if stack.len() == 0 {
        seen
    } else {
        let t = stack.last();
        let rest = stack.drop_last();
        if seen.contains(t.name) {
            written(ps, seen, rest)
        } else {
            proof {
                lemma_seen(ps, seen, t.name, ps.len() as int);
                lemma_state_found(ps, t.name);
            }
            if state_of(ps, t.name) is Some {
                written(ps, seen.insert(t.name), rest + stacked(below(ps, t.name), deeper(t)))
            } else {
                written(ps, seen.insert(t.name), rest)
            }
        }
    }
}

spec fn on_stack(stack: Seq<Twig>, x: Seq<char>) -> bool {
    exists|i: int| 0 <= i < stack.len() && (#[trigger] stack[i]).name == x
}

/// Some line ends with the dependency.
pub open spec fn shows(ps: Seq<PinState>, lines: Seq<Seq<char>>, x: Seq<char>) -> bool {
    exists|i: int| 0 <= i < lines.len() && ends(#[trigger] lines[i], described(x, pin_in(ps, x)))
}

proof fn lemma_written(ps: Seq<PinState>, seen: Set<Seq<char>>, stack: Seq<Twig>)
    requires
        forall|s: Seq<char>, y: Seq<char>|
            seen.contains(s) && #[trigger] below(ps, s).contains(y) ==> seen.contains(y)
                || on_stack(stack, y),
    ensures
        forall|y: Seq<char>| #[trigger] seen.contains(y) ==> written(ps, seen, stack).contains(y),
        forall|y: Seq<char>| #[trigger] on_stack(stack, y) ==> written(ps, seen, stack).contains(y),
        forall|s: Seq<char>, y: Seq<char>|
            written(ps, seen, stack).contains(s) && #[trigger] below(ps, s).contains(y) ==> written(
                ps,
                seen,
                stack,
            ).contains(y),
        forall|y: Seq<char>| #[trigger]
            written(ps, seen, stack).contains(y) && !seen.contains(y) ==> shows(
                ps,
                tree_lines(ps, seen, stack),
                y,
            ),
    decreases unseen(ps, seen, ps.len() as int), stack.len(),
{
    let all = written(ps, seen, stack);
    let lines = tree_lines(ps, seen, stack);
    if stack.len() > 0 {
        let t = stack.last();
        let rest = stack.drop_last();
        let line = twig_text(t, pin_in(ps, t.name));
        assert forall|y: Seq<char>| #[trigger] on_stack(stack, y) implies y == t.name || on_stack(
            rest,
            y,
        ) by {
            let i = choose|i: int| 0 <= i < stack.len() && (#[trigger] stack[i]).name == y;
            if i < rest.len() {
                assert(rest[i].name == y);
            }
        }
        if seen.contains(t.name) {
            lemma_written(ps, seen, rest);
            let tail = tree_lines(ps, seen, rest);
            assert forall|y: Seq<char>| #[trigger] all.contains(y) && !seen.contains(y) implies shows(
                ps,
                lines,
                y,
            ) by {
                let i = choose|i: int|
                    0 <= i < tail.len() && ends(#[trigger] tail[i], described(y, pin_in(ps, y)));
                assert(lines[i + 1] == tail[i]);
            }
        } else {
            lemma_seen(ps, seen, t.name, ps.len() as int);
            lemma_state_found(ps, t.name);
            let seen2 = seen.insert(t.name);
            let more = stacked(below(ps, t.name), deeper(t));
            let stack2 = if state_of(ps, t.name) is Some {
                rest + more
            } else {
                rest
            };
            assert forall|y: Seq<char>| #[trigger] on_stack(rest, y) implies on_stack(stack2, y) by {
                let i = choose|i: int| 0 <= i < rest.len() && (#[trigger] rest[i]).name == y;
                assert(stack2[i].name == y);
            }
            assert forall|y: Seq<char>| #[trigger]
                below(ps, t.name).contains(y) implies on_stack(stack2, y) by {
                let names = below(ps, t.name);
                let j = choose|j: int| 0 <= j < names.len() && names[j] == y;
                assert(more[names.len() - 1 - j].name == y);
                assert(stack2[rest.len() + (names.len() - 1 - j)].name == y);
            }
            assert forall|s: Seq<char>, y: Seq<char>|
                seen2.contains(s) && #[trigger] below(ps, s).contains(y) implies seen2.contains(y)
                || on_stack(stack2, y) by {
                if s != t.name {
                    assert(seen.contains(y) || on_stack(stack, y));
                }
            }
            lemma_written(ps, seen2, stack2);
            let tail = tree_lines(ps, seen2, stack2);
            assert(lines =~= seq![line] + tail);
            assert(all == written(ps, seen2, stack2));
            assert forall|y: Seq<char>| #[trigger] seen.contains(y) implies all.contains(y) by {
                assert(seen2.contains(y));
            }
            assert forall|y: Seq<char>| #[trigger] on_stack(stack, y) implies all.contains(y) by {
                if y == t.name {
                    assert(seen2.contains(y));
                } else {
                    assert(on_stack(rest, y));
                }
            }
            assert forall|y: Seq<char>| #[trigger] all.contains(y) && !seen.contains(y) implies shows(
                ps,
                lines,
                y,
            ) by {
                if y == t.name {
                    let d = described(y, pin_in(ps, y));
                    assert(line.skip(line.len() - d.len()) =~= d);
                    assert(ends(lines[0], d));
                } else {
                    assert(!seen2.contains(y));
                    assert(written(ps, seen2, stack2).contains(y));
                    assert(shows(ps, tail, y));
                    let i = choose|i: int|
                        0 <= i < tail.len() && ends(#[trigger] tail[i], described(y, pin_in(ps, y)));
                    assert(lines[i + 1] == tail[i]);
                }
            }
        }
    }
}

/// Each name of the chain is a dependency of the one before it.
pub open spec fn is_branch(ps: Seq<PinState>, chain: Seq<Seq<char>>) -> bool {
    &&& chain.len() > 0
    &&& forall|i: int|
        0 <= i < chain.len() - 1 ==> below(ps, #[trigger] chain[i]).contains(chain[i + 1])
}

/// The tree of a dependency shows it and everything that it depends on, however
/// far down, with its version and source.
pub proof fn law_tree_shows_every_dependency(ps: Seq<PinState>, chain: Seq<Seq<char>>)
    requires
        is_branch(ps, chain),
    ensures
        shows(ps, root_lines(ps, chain[0]), chain.last()),
{
    let root = chain[0];
    let lines = root_lines(ps, root);
    let d = described(root, pin_in(ps, root));
    let stack = stacked(below(ps, root), Seq::empty());
    let tail = tree_lines(ps, Set::empty(), stack);
    if chain.len() == 1 {
        assert(lines[0] == d);
        assert(d.skip(0) =~= d);
        assert(ends(lines[0], d));
    } else {
        lemma_written(ps, Set::empty(), stack);
        let all = written(ps, Set::empty(), stack);
        lemma_branch_written(ps, chain, chain.len() - 1);
        let y = chain.last();
        assert(all.contains(y));
        let i = choose|i: int|
            0 <= i < tail.len() && ends(#[trigger] tail[i], described(y, pin_in(ps, y)));
        assert(lines[i + 1] == tail[i]);
    }
}

proof fn lemma_branch_written(ps: Seq<PinState>, chain: Seq<Seq<char>>, k: int)
    requires
        is_branch(ps, chain),
        1 <= k < chain.len(),
    ensures
        written(ps, Set::empty(), stacked(below(ps, chain[0]), Seq::empty())).contains(chain[k]),
    decreases k,
{
    let stack = stacked(below(ps, chain[0]), Seq::empty());
    lemma_written(ps, Set::empty(), stack);
    assert(below(ps, chain[k - 1]).contains(chain[k - 1 + 1]));
    if k == 1 {
        let names = below(ps, chain[0]);
        let j = choose|j: int| 0 <= j < names.len() && names[j] == chain[1];
        assert(stack[names.len() - 1 - j].name == chain[1]);
        assert(on_stack(stack, chain[1]));
    } else {
        lemma_branch_written(ps, chain, k - 1);
    }
}

} // verus!
