//! What `hella update` and `hella list` say.
use crate::manifest::lock::copy_pin;
use crate::manifest::{deps, pins, Dep, Dependency, LockedDependency, Lockfile, Manifest, Pin};
use crate::names::{lemma_mapped_get, pair_get, NameMap, NameSet};
use crate::pkg::closure::{index_pins, pin_map, pins_by_name};
use crate::pkg::ensure::{child_deps, dep_names, find_state, push_names, state_of, PinState};
use crate::pkg::remote::{short, shorten};
use crate::text::{contains_text, copy_strings, same, texts};
use vstd::prelude::*;
use vstd::string::*;

verus! {

pub open spec fn opt_pin(p: Option<&LockedDependency>) -> Option<Pin> {
    match p {
        Some(x) => Some(x@),
        None => None,
    }
}

// ---------------------------------------------------------------------------
// Update
// ---------------------------------------------------------------------------

pub open spec fn no_dependency(name: Seq<char>) -> Seq<char> {
    "no dependency named `"@ + name + "` (see `[dependencies]` in hella.toml)"@
}

/// The first of the names from `i` on that is no dependency.
pub open spec fn first_stranger(ds: Seq<(Seq<char>, Dep)>, names: Seq<Seq<char>>, i: int) -> Option<
    Seq<char>,
>
    decreases names.len() - i,
{
    if i < 0 || i >= names.len() {
        None
    } else if pair_get(ds, names[i]) is None {
        Some(names[i])
    } else {
        first_stranger(ds, names, i + 1)
    }
}

/// The error for a name that is no dependency.
pub fn unknown_dependency(name: &str) -> (r: String)
    ensures
        r@ == no_dependency(name@),
{
    let mut m = String::from_str("no dependency named `");
    m.append(name);
    m.append("` (see `[dependencies]` in hella.toml)");
    m
}

/// Checks that every name is a dependency.
pub fn check_targets(ds: &NameMap<Dependency>, names: &Vec<String>) -> (r: Result<(), String>)
    ensures
        match first_stranger(deps(ds.pairs()), texts(names@), 0) {
            Some(n) => r matches Err(m) && m@ == no_dependency(n),
            None => r is Ok,
        },
{
    let mut i: usize = 0;
    let ghost all = deps(ds.pairs());
    while i < names.len()
        invariant
            i <= names@.len(),
            all == deps(ds.pairs()),
            first_stranger(all, texts(names@), 0) == first_stranger(all, texts(names@), i as int),
        decreases names@.len() - i,
    {
        proof {
            lemma_mapped_get(ds.pairs(), |x: Dependency| x@, names@[i as int]@);
        }
        if !ds.contains_key(names[i].as_str()) {
            return Err(unknown_dependency(names[i].as_str()));
        }
        i += 1;
    }
    Ok(())
}

/// The pins among the first `n` that are no target.
pub open spec fn other_pins(ps: Seq<Pin>, targets: Seq<Seq<char>>, n: int) -> Seq<Pin>
    decreases n,
{
    if n <= 0 {
        Seq::empty()
    } else if targets.contains(ps[n - 1].name) {
        other_pins(ps, targets, n - 1)
    } else {
        other_pins(ps, targets, n - 1).push(ps[n - 1])
    }
}

/// The pins that an update starts from: without the targets, or none at all
/// where no target is named, so that everything floats to its newest revision.
pub fn interim_pins(lock: &Lockfile, targets: &Vec<String>) -> (r: Vec<LockedDependency>)
    ensures
        pins(r@) == if targets@.len() == 0 {
            Seq::empty()
        } else {
            other_pins(lock@, texts(targets@), lock@.len() as int)
        },
{
    let mut out: Vec<LockedDependency> = Vec::new();
    assert(pins(out@) =~= Seq::<Pin>::empty());
    if targets.len() == 0 {
        return out;
    }
    let mut i: usize = 0;
    while i < lock.packages.len()
        invariant
            i <= lock.packages@.len(),
            pins(out@) == other_pins(lock@, texts(targets@), i as int),
        decreases lock.packages@.len() - i,
    {
        assert(lock@[i as int] == lock.packages@[i as int]@);
        if !contains_text(targets, lock.packages[i].name.as_str()) {
            let ghost had = pins(out@);
            out.push(copy_pin(&lock.packages[i]));
            assert(pins(out@) =~= had.push(lock@[i as int]));
        }
        i += 1;
    }
    out
}

/// What happened to one dependency.
pub open spec fn change(name: Seq<char>, was: Option<Pin>, is: Option<Pin>) -> Seq<char> {
    match (was, is) {
        (Some(o), Some(n)) => if o.version != n.version || o.rev != n.rev {
            "Updated "@ + name + " "@ + o.version + " → "@ + n.version
        } else {
            name + " already current ("@ + o.version + ")"@
        },
        (None, Some(n)) => "Pinned "@ + name + " "@ + n.version,
        (_, None) => "warning: "@ + name + " has no pin after update"@,
    }
}

/// Says what an update did to one dependency.
pub fn describe_update(
    name: &str,
    was: Option<&LockedDependency>,
    is: Option<&LockedDependency>,
) -> (r: String)
    ensures
        r@ == change(name@, opt_pin(was), opt_pin(is)),
{
    match (was, is) {
        (Some(o), Some(n)) => {
            if !same(o.version.as_str(), n.version.as_str()) || !same(
                o.rev.as_str(),
                n.rev.as_str(),
            ) {
                let mut m = String::from_str("Updated ");
                m.append(name);
                m.append(" ");
                m.append(o.version.as_str());
                m.append(" → ");
                m.append(n.version.as_str());
                m
            } else {
                let mut m = String::from_str(name);
                m.append(" already current (");
                m.append(o.version.as_str());
                m.append(")");
                m
            }
        },
        (None, Some(n)) => {
            let mut m = String::from_str("Pinned ");
            m.append(name);
            m.append(" ");
            m.append(n.version.as_str());
            m
        },
        (_, None) => {
            let mut m = String::from_str("warning: ");
            m.append(name);
            m.append(" has no pin after update");
            m
        },
    }
}

/// The names that an update reports on: its targets, or every dependency.
pub open spec fn reported(ds: Seq<(Seq<char>, Dep)>, targets: Seq<Seq<char>>) -> Seq<Seq<char>> {
    if targets.len() == 0 {
        dep_names(ds)
    } else {
        targets
    }
}

/// What happened to the first `n` of the names.
pub open spec fn changes(
    names: Seq<Seq<char>>,
    was: Seq<(Seq<char>, Pin)>,
    is: Seq<(Seq<char>, Pin)>,
    n: int,
) -> Seq<Seq<char>>
    decreases n,
{
    if n <= 0 {
        Seq::empty()
    } else {
        changes(names, was, is, n - 1).push(
            change(names[n - 1], pair_get(was, names[n - 1]), pair_get(is, names[n - 1])),
        )
    }
}

/// Says what an update did: a line for each of its targets, or for every
/// dependency where it had none.
pub fn update_report(
    ds: &NameMap<Dependency>,
    targets: &Vec<String>,
    was: &Lockfile,
    is: &Lockfile,
) -> (r: Vec<String>)
    ensures
        texts(r@) == changes(
            reported(deps(ds.pairs()), texts(targets@)),
            pins_by_name(was@, was@.len() as int),
            pins_by_name(is@, is@.len() as int),
            reported(deps(ds.pairs()), texts(targets@)).len() as int,
        ),
{
    let old_pins = index_pins(&was.packages);
    let new_pins = index_pins(&is.packages);
    let mut names: Vec<String> = Vec::new();
    assert(texts(names@) =~= Seq::<Seq<char>>::empty());
    if targets.len() == 0 {
        push_names(&mut names, ds);
        assert(texts(names@) =~= dep_names(deps(ds.pairs())));
    } else {
        names = copy_strings(targets);
    }
    let ghost ns = texts(names@);
    let ghost a = pins_by_name(was@, was@.len() as int);
    let ghost b = pins_by_name(is@, is@.len() as int);
    let mut out: Vec<String> = Vec::new();
    let mut i: usize = 0;
    assert(texts(out@) =~= Seq::<Seq<char>>::empty());
    while i < names.len()
        invariant
            i <= names@.len(),
            ns == texts(names@),
            a == pin_map(old_pins.pairs()),
            b == pin_map(new_pins.pairs()),
            texts(out@) == changes(ns, a, b, i as int),
        decreases names@.len() - i,
    {
        let name = names[i].as_str();
        proof {
            lemma_mapped_get(old_pins.pairs(), |p: LockedDependency| p@, name@);
            lemma_mapped_get(new_pins.pairs(), |p: LockedDependency| p@, name@);
        }
        let ghost had = texts(out@);
        let line = describe_update(name, old_pins.get(name), new_pins.get(name));
        out.push(line);
        assert(texts(out@) =~= had.push(line@));
        i += 1;
    }
    out
}

// ---------------------------------------------------------------------------
// List
// ---------------------------------------------------------------------------

/// A dependency in the tree: its pin and source, or that it has none.
pub open spec fn described(name: Seq<char>, pin: Option<Pin>) -> Seq<char> {
    match pin {
        Some(p) => name + " "@ + p.version + " ("@ + p.git + " @"@ + short(p.rev) + ")"@,
        None => name + " (unpinned)"@,
    }
}

/// One dependency in the tree: its pin and source, or `(unpinned)`.
pub fn describe_pin(name: &str, pin: Option<&LockedDependency>) -> (r: String)
    ensures
        r@ == described(name@, opt_pin(pin)),
{
    let mut m = String::from_str(name);
    match pin {
        Some(p) => {
            m.append(" ");
            m.append(p.version.as_str());
            m.append(" (");
            m.append(p.git.as_str());
            m.append(" @");
            m.append(shorten(p.rev.as_str()).as_str());
            m.append(")");
        },
        None => {
            m.append(" (unpinned)");
        },
    }
    m
}

/// A node that waits to be written.
#[derive(Debug)]
struct Branch {
    name: String,
    prefix: String,
    last: bool,
}

/// A node that waits to be written.
#[verifier::ext_equal]
pub struct Twig {
    pub name: Seq<char>,
    pub prefix: Seq<char>,
    pub last: bool,
}

impl View for Branch {
    type V = Twig;

    closed spec fn view(&self) -> Twig {
        Twig { name: self.name@, prefix: self.prefix@, last: self.last }
    }
}

spec fn twigs(v: Seq<Branch>) -> Seq<Twig> {
    Seq::new(v.len(), |i: int| v[i]@)
}

/// The pin of `name` among the states.
pub open spec fn pin_in(ps: Seq<PinState>, name: Seq<char>) -> Option<Pin> {
    match state_of(ps, name) {
        Some(i) => Some(ps[i].pin@),
        None => None,
    }
}

/// The dependencies below `name`.
pub open spec fn below(ps: Seq<PinState>, name: Seq<char>) -> Seq<Seq<char>> {
    match state_of(ps, name) {
        Some(i) => dep_names(child_deps(ps[i])),
        None => Seq::empty(),
    }
}

/// The nodes of `names`, the first one last, so that it is written first.
pub open spec fn stacked(names: Seq<Seq<char>>, prefix: Seq<char>) -> Seq<Twig> {
    Seq::new(
        names.len(),
        |i: int| Twig { name: names[names.len() - 1 - i], prefix, last: i == 0 },
    )
}

pub open spec fn twig_text(t: Twig, pin: Option<Pin>) -> Seq<char> {
    t.prefix + (if t.last {
        "└── "@
    } else {
        "├── "@
    }) + described(t.name, pin)
}

pub open spec fn deeper(t: Twig) -> Seq<char> {
    t.prefix + (if t.last {
        "    "@
    } else {
        "│   "@
    })
}

/// How many of the first `n` pins have a name outside `seen`.
pub open spec fn unseen(ps: Seq<PinState>, seen: Set<Seq<char>>, n: int) -> nat
    decreases n,
{
    if n <= 0 {
        0
    } else {
        unseen(ps, seen, n - 1) + if seen.contains(ps[n - 1].pin.name@) {
            0nat
        } else {
            1nat
        }
    }
}

pub proof fn lemma_seen(ps: Seq<PinState>, seen: Set<Seq<char>>, name: Seq<char>, n: int)
    requires
        0 <= n <= ps.len(),
        !seen.contains(name),
    ensures
        unseen(ps, seen.insert(name), n) <= unseen(ps, seen, n),
        (exists|i: int| 0 <= i < n && (#[trigger] ps[i]).pin.name@ == name) ==> unseen(
            ps,
            seen.insert(name),
            n,
        ) < unseen(ps, seen, n),
    decreases n,
{
    if n > 0 {
        lemma_seen(ps, seen, name, n - 1);
        if ps[n - 1].pin.name@ != name {
            if exists|i: int| 0 <= i < n && (#[trigger] ps[i]).pin.name@ == name {
                let i = choose|i: int| 0 <= i < n && (#[trigger] ps[i]).pin.name@ == name;
                assert(i < n - 1);
            }
        }
    }
}

pub proof fn lemma_state_found(ps: Seq<PinState>, name: Seq<char>)
    ensures
        state_of(ps, name) matches Some(i) ==> 0 <= i < ps.len() && ps[i].pin.name@ == name,
        forall|j: int|
            0 <= j < ps.len() && (#[trigger] ps[j]).pin.name@ == name ==> (state_of(
                ps,
                name,
            ) matches Some(i) && j <= i),
    decreases ps.len(),
{
    if ps.len() > 0 {
        let t = ps.drop_last();
        lemma_state_found(t, name);
        assert forall|j: int|
            0 <= j < ps.len() && (#[trigger] ps[j]).pin.name@ == name implies (state_of(
            ps,
            name,
        ) matches Some(i) && j <= i) by {
            if j < t.len() {
                assert(t[j] == ps[j]);
            }
        }
    }
}

/// The lines of the waiting nodes, the last one first, each followed by the
/// lines below it. A name that was written before is marked and not followed.
pub open spec fn tree_lines(ps: Seq<PinState>, seen: Set<Seq<char>>, stack: Seq<Twig>) -> Seq<
    Seq<char>,
>
    decreases unseen(ps, seen, ps.len() as int), stack.len(),
{
    if stack.len() == 0 {
        Seq::empty()
    } else {
        let t = stack.last();
        let rest = stack.drop_last();
        let line = twig_text(t, pin_in(ps, t.name));
        if seen.contains(t.name) {
            seq![line + " (cycle)"@] + tree_lines(ps, seen, rest)
        } else {
            proof {
                lemma_seen(ps, seen, t.name, ps.len() as int);
                lemma_state_found(ps, t.name);
            }
            if state_of(ps, t.name) is Some {
                seq![line] + tree_lines(
                    ps,
                    seen.insert(t.name),
                    rest + stacked(below(ps, t.name), deeper(t)),
                )
            } else {
                seq![line] + tree_lines(ps, seen.insert(t.name), rest)
            }
        }
    }
}

/// The lines of one direct dependency.
pub open spec fn root_lines(ps: Seq<PinState>, name: Seq<char>) -> Seq<Seq<char>> {
    seq![described(name, pin_in(ps, name))] + tree_lines(
        ps,
        Set::empty(),
        stacked(below(ps, name), Seq::empty()),
    )
}

/// The lines of the first `n` direct dependencies.
pub open spec fn forest(ps: Seq<PinState>, names: Seq<Seq<char>>, n: int) -> Seq<Seq<char>>
    decreases n,
{
    if n <= 0 {
        Seq::empty()
    } else {
        forest(ps, names, n - 1) + root_lines(ps, names[n - 1])
    }
}

fn state_pin<'a>(ps: &'a Vec<PinState>, name: &str) -> (r: Option<&'a LockedDependency>)
    ensures
        opt_pin(r) == pin_in(ps@, name@),
{
    match find_state(ps, name) {
        Some(i) => Some(&ps[i].pin),
        None => None,
    }
}

fn push_below(stack: &mut Vec<Branch>, ps: &Vec<PinState>, name: &str, prefix: &str)
    ensures
        twigs(final(stack)@) == twigs(old(stack)@) + stacked(below(ps@, name@), prefix@),
{
    if let Some(i) = find_state(ps, name) {
        if let Some(m) = &ps[i].child {
            let n: usize = m.dependencies.len();
            let ghost names = below(ps@, name@);
            let ghost goal = stacked(names, prefix@);
            let mut k: usize = 0;
            assert(names.len() == n);
            assert(twigs(stack@) =~= twigs(old(stack)@) + goal.take(0));
            while k < n
                invariant
                    k <= n,
                    n == m.dependencies.pairs().len(),
                    names == dep_names(m@.deps),
                    names.len() == n,
                    goal == stacked(names, prefix@),
                    twigs(stack@) == twigs(old(stack)@) + goal.take(k as int),
                decreases n - k,
            {
                let ghost had = twigs(stack@);
                let b = Branch {
                    name: m.dependencies.key_at(n - 1 - k).clone(),
                    prefix: String::from_str(prefix),
                    last: k == 0,
                };
                let ghost new = b@;
                assert(new == goal[k as int]);
                stack.push(b);
                assert(twigs(stack@) =~= had.push(new));
                assert(twigs(stack@) =~= twigs(old(stack)@) + goal.take(k + 1));
                k += 1;
            }
            assert(goal.take(k as int) =~= goal);
            return;
        }
    }
    assert(below(ps@, name@) =~= Seq::<Seq<char>>::empty());
    assert(twigs(stack@) =~= twigs(old(stack)@) + stacked(below(ps@, name@), prefix@));
}

fn push_root(out: &mut Vec<String>, ps: &Vec<PinState>, name: &str)
    ensures
        texts(final(out)@) == texts(old(out)@) + root_lines(ps@, name@),
{
    let ghost start = texts(out@);
    let head = describe_pin(name, state_pin(ps, name));
    out.push(head);
    assert(texts(out@) =~= start.push(head@));
    let mut stack: Vec<Branch> = Vec::new();
    assert(twigs(stack@) =~= Seq::<Twig>::empty());
    push_below(&mut stack, ps, name, "");
    proof {
        reveal_strlit("");
        assert(""@ =~= Seq::<char>::empty());
    }
    assert(twigs(stack@) =~= stacked(below(ps@, name@), Seq::empty()));
    let mut seen = NameSet::new();
    let ghost goal = start + root_lines(ps@, name@);
    assert(goal =~= texts(out@) + tree_lines(ps@, seen@, twigs(stack@)));
    while stack.len() > 0
        invariant
            goal == texts(out@) + tree_lines(ps@, seen@, twigs(stack@)),
        decreases unseen(ps@, seen@, ps@.len() as int), stack@.len(),
    {
        let ghost ts = twigs(stack@);
        let ghost had = texts(out@);
        let ghost was = seen@;
        if let Some(b) = stack.pop() {
            assert(twigs(stack@) =~= ts.drop_last());
            assert(ts.last() == b@);
            let pin = state_pin(ps, b.name.as_str());
            let mut line = b.prefix.clone();
            line.append(
                if b.last {
                    "└── "
                } else {
                    "├── "
                },
            );
            line.append(describe_pin(b.name.as_str(), pin).as_str());
            assert(line@ == twig_text(b@, pin_in(ps@, b@.name)));
            if seen.contains(b.name.as_str()) {
                line.append(" (cycle)");
                out.push(line);
                assert(texts(out@) =~= had.push(line@));
                assert(texts(out@) + tree_lines(ps@, seen@, twigs(stack@)) =~= had + tree_lines(
                    ps@,
                    was,
                    ts,
                ));
            } else {
                proof {
                    lemma_seen(ps@, was, b@.name, ps@.len() as int);
                    lemma_state_found(ps@, b@.name);
                }
                seen.insert(b.name.clone());
                let mut prefix = b.prefix.clone();
                prefix.append(
                    if b.last {
                        "    "
                    } else {
                        "│   "
                    },
                );
                push_below(&mut stack, ps, b.name.as_str(), prefix.as_str());
                proof {
                    if state_of(ps@, b@.name) is None {
                        assert(twigs(stack@) =~= ts.drop_last());
                    }
                }
                out.push(line);
                assert(texts(out@) =~= had.push(line@));
                assert(texts(out@) + tree_lines(ps@, seen@, twigs(stack@)) =~= had + tree_lines(
                    ps@,
                    was,
                    ts,
                ));
            }
        }
    }
    assert(texts(out@) =~= goal);
}

/// The lines of `hella list`: the project, then each direct dependency with the
/// tree below it. A dependency that was written before under the same direct
/// one is marked and not followed, so cycles end.
pub fn list_lines(manifest: &Manifest, ps: &Vec<PinState>) -> (r: Vec<String>)
    ensures
        texts(r@) == if manifest@.deps.len() == 0 {
            seq!["No dependencies"@]
        } else {
            seq![manifest@.name + " "@ + manifest@.version] + forest(
                ps@,
                dep_names(manifest@.deps),
                manifest@.deps.len() as int,
            )
        },
{
    let mut out: Vec<String> = Vec::new();
    let n: usize = manifest.dependencies.len();
    if n == 0 {
        out.push(String::from_str("No dependencies"));
        assert(texts(out@) =~= seq!["No dependencies"@]);
        return out;
    }
    let mut head = manifest.name.clone();
    head.append(" ");
    head.append(manifest.version.as_str());
    out.push(head);
    let ghost first = seq![manifest@.name + " "@ + manifest@.version];
    let ghost names = dep_names(manifest@.deps);
    assert(texts(out@) =~= first);
    let mut i: usize = 0;
    assert(texts(out@) =~= first + forest(ps@, names, 0));
    while i < n
        invariant
            i <= n,
            n == manifest.dependencies.pairs().len(),
            names == dep_names(manifest@.deps),
            texts(out@) == first + forest(ps@, names, i as int),
        decreases n - i,
    {
        push_root(&mut out, ps, manifest.dependencies.key_at(i).as_str());
        assert(texts(out@) =~= first + forest(ps@, names, i + 1));
        i += 1;
    }
    out
}

} // verus!
