//! Resolving a dependency closure, one fetch at a time.
//!
//! Direct dependencies come first, then transitive ones in the order in which
//! fetched manifests ask for them. The first pin of a name wins; a request for
//! the same name from another source, or one that the pin does not satisfy, is
//! an error, never a silent downgrade. A name is pinned before the manifest
//! behind it is looked at, which cuts cycles.
use crate::manifest::lock::copy_pin;
use crate::manifest::{deps, pins, Dep, Dependency, LockedDependency, Manifest, Pin};
use crate::names::{
    lemma_mapped_get, lemma_mapped_put, lemma_put_get, mapped, pair_get, pair_keys, put, NameMap,
};
use crate::source::{clone_url, url_of};
use crate::text::{copy_opt, opt_text, same};
use crate::versions::{accepts, parse_version, parses_req, req_accepts, req_parses, version_info};
use vstd::prelude::*;
use vstd::string::*;

verus! {

/// A request that waits to be looked at.
#[derive(Debug)]
pub struct WorkItem {
    pub name: String,
    pub git: String,
    pub req: String,
    pub package: Option<String>,
}

#[verifier::ext_equal]
pub struct Work {
    pub name: Seq<char>,
    pub git: Seq<char>,
    pub req: Seq<char>,
    pub package: Option<Seq<char>>,
}

impl View for WorkItem {
    type V = Work;

    open spec fn view(&self) -> Work {
        Work { name: self.name@, git: self.git@, req: self.req@, package: opt_text(self.package) }
    }
}

pub open spec fn works(v: Seq<WorkItem>) -> Seq<Work> {
    Seq::new(v.len(), |i: int| v[i]@)
}

/// The requests that dependencies make, in order of their names.
pub open spec fn dep_works(ds: Seq<(Seq<char>, Dep)>) -> Seq<Work> {
    Seq::new(
        ds.len(),
        |i: int|
            Work {
                name: ds[i].0,
                git: ds[i].1.git,
                req: ds[i].1.version,
                package: ds[i].1.package,
            },
    )
}

/// The pins of a map.
pub open spec fn pin_map(s: Seq<(Seq<char>, LockedDependency)>) -> Seq<(Seq<char>, Pin)> {
    mapped(s, |p: LockedDependency| p@)
}

/// Whether a request accepts a version, where both can be compared.
pub open spec fn fit(req: Seq<char>, version: Seq<char>) -> Option<bool> {
    if req_parses(req) && version_info(version) is Some {
        Some(req_accepts(req, version))
    } else {
        None
    }
}

/// What is wrong with a request for a name that is pinned already.
pub open spec fn clash(w: Work, p: Pin, fits: Option<bool>) -> Option<Seq<char>> {
    if p.git != w.git {
        Some(
            "dependency name conflict: `"@ + w.name + "` comes from both `"@ + p.git + "` and `"@
                + w.git + "` (rename one with `hella add <url> --name <name>`)"@,
        )
    } else if fits == Some(false) {
        Some(
            "conflicting requirements for `"@ + w.name + "`: `"@ + p.version
                + "` does not satisfy `"@ + w.req + "` (pin an explicit version in hella.toml)"@,
        )
    } else {
        None
    }
}

/// What is wrong with a request for a name that is pinned already, given
/// whether it accepts the pinned version; `None` where the two cannot be
/// compared.
pub fn check_pin(item: &WorkItem, pin: &LockedDependency, fits: Option<bool>) -> (r: Option<String>)
    ensures
        opt_text(r) == clash(item@, pin@, fits),
{
    if !same(pin.git.as_str(), item.git.as_str()) {
        let mut m = String::from_str("dependency name conflict: `");
        m.append(item.name.as_str());
        m.append("` comes from both `");
        m.append(pin.git.as_str());
        m.append("` and `");
        m.append(item.git.as_str());
        m.append("` (rename one with `hella add <url> --name <name>`)");
        return Some(m);
    }
    match fits {
        Some(false) => {
            let mut m = String::from_str("conflicting requirements for `");
            m.append(item.name.as_str());
            m.append("`: `");
            m.append(pin.version.as_str());
            m.append("` does not satisfy `");
            m.append(item.req.as_str());
            m.append("` (pin an explicit version in hella.toml)");
            Some(m)
        },
        _ => None,
    }
}

fn fit_of(req: &str, version: &str) -> (r: Option<bool>)
    ensures
        r == fit(req@, version@),
{
    if parses_req(req) && parse_version(version).is_some() {
        Some(accepts(req, version))
    } else {
        None
    }
}

/// What happens next.
pub enum Next {
    /// Nothing is left to look at.
    Done,
    /// This request has to be resolved and fetched.
    Fetch(Work),
    /// A request clashes with a pin.
    Clash(Seq<char>),
}

/// The next step over the waiting requests, and the requests behind it.
pub open spec fn advanced(pins: Seq<(Seq<char>, Pin)>, queue: Seq<Work>) -> (Next, Seq<Work>)
    decreases queue.len(),
{
    if queue.len() == 0 {
        (Next::Done, queue)
    } else {
        let w = queue[0];
        match pair_get(pins, w.name) {
            None => (Next::Fetch(w), queue.skip(1)),
            Some(p) => match clash(w, p, fit(w.req, p.version)) {
                Some(m) => (Next::Clash(m), queue.skip(1)),
                None => advanced(pins, queue.skip(1)),
            },
        }
    }
}

/// What the caller has to do.
#[derive(Debug)]
pub enum ClosureStep {
    /// The closure is complete.
    Done,
    /// Resolve `req` at `url`, fetch the result, and record it.
    Fetch { url: String, git: String, req: String },
    /// The closure cannot be completed.
    Conflict(String),
}

pub open spec fn step_is(s: ClosureStep, n: Next) -> bool {
    match n {
        Next::Done => s is Done,
        Next::Fetch(w) => s matches ClosureStep::Fetch { url, git, req } && url@ == url_of(w.git)
            && git@ == w.git && req@ == w.req,
        Next::Clash(m) => s matches ClosureStep::Conflict(x) && x@ == m,
    }
}

/// A dependency closure that is being resolved.
pub struct Closure {
    pinned: NameMap<LockedDependency>,
    queue: Vec<WorkItem>,
    pending: Option<WorkItem>,
    names: Ghost<Set<Seq<char>>>,
}

pub open spec fn waits(queue: Seq<Work>, name: Seq<char>) -> bool {
    exists|i: int| 0 <= i < queue.len() && (#[trigger] queue[i]).name == name
}

/// What is being fetched is not pinned yet, and whatever was asked for is
/// pinned, being fetched, or waiting.
pub open spec fn covered(
    pins: Seq<(Seq<char>, Pin)>,
    current: Option<Work>,
    waiting: Seq<Work>,
    asked: Set<Seq<char>>,
) -> bool {
    &&& current matches Some(w) ==> pair_get(pins, w.name) is None
    &&& forall|n: Seq<char>| #[trigger]
        asked.contains(n) ==> pair_get(pins, n) is Some || (current matches Some(w) && w.name == n)
            || waits(waiting, n)
}

pub open spec fn opt_work(w: Option<WorkItem>) -> Option<Work> {
    match w {
        Some(x) => Some(x@),
        None => None,
    }
}

impl Closure {
    /// The pins so far, by name.
    pub closed spec fn pins(&self) -> Seq<(Seq<char>, Pin)> {
        pin_map(self.pinned.pairs())
    }

    /// The requests that wait to be looked at.
    pub closed spec fn waiting(&self) -> Seq<Work> {
        works(self.queue@)
    }

    /// The request that is being fetched.
    pub closed spec fn current(&self) -> Option<Work> {
        opt_work(self.pending)
    }

    /// Every name that was asked for.
    pub closed spec fn asked(&self) -> Set<Seq<char>> {
        self.names@
    }

    #[verifier::type_invariant]
    spec fn wf(self) -> bool {
        covered(self.pins(), self.current(), self.waiting(), self.asked())
    }

    /// Starts from direct dependencies and pins that are kept.
    pub fn new(direct: &NameMap<Dependency>, kept: &Vec<LockedDependency>) -> (r: Closure)
        ensures
            r.pins() == pins_by_name(pins(kept@), kept@.len() as int),
            r.waiting() == dep_works(deps(direct.pairs())),
            r.current() is None,
            forall|n: Seq<char>| #[trigger]
                r.asked().contains(n) <==> waits(dep_works(deps(direct.pairs())), n),
    {
        let pinned = index_pins(kept);
        let mut queue: Vec<WorkItem> = Vec::new();
        assert(works(queue@) =~= Seq::<Work>::empty());
        push_requests(&mut queue, direct);
        assert(works(queue@) =~= dep_works(deps(direct.pairs())));
        let ghost ds = dep_works(deps(direct.pairs()));
        let r = Closure {
            pinned,
            queue,
            pending: None,
            names: Ghost(Set::new(|n: Seq<char>| waits(ds, n))),
        };
        r
    }

    /// Looks at waiting requests until one has to be fetched, one clashes with
    /// a pin, or none is left; then everything that was asked for is pinned.
    /// While a fetch is open it is asked for again.
    pub fn advance(&mut self) -> (r: ClosureStep)
        ensures
            old(self).current() matches Some(w) ==> step_is(r, Next::Fetch(w)) && *final(self)
                == *old(self),
            old(self).current() is None ==> step_is(
                r,
                advanced(old(self).pins(), old(self).waiting()).0,
            ) && final(self).waiting() == advanced(old(self).pins(), old(self).waiting()).1
                && final(self).current() == match advanced(
                old(self).pins(),
                old(self).waiting(),
            ).0 {
                Next::Fetch(w) => Some(w),
                _ => None,
            },
            final(self).pins() == old(self).pins(),
            final(self).asked() == old(self).asked(),
            r is Done ==> forall|n: Seq<char>| #[trigger]
                final(self).asked().contains(n) ==> pair_get(final(self).pins(), n) is Some,
    {
        proof {
            use_type_invariant(&*self);
        }
        if let Some(w) = &self.pending {
            return ClosureStep::Fetch {
                url: clone_url(w.git.as_str()),
                git: w.git.clone(),
                req: w.req.clone(),
            };
        }
        let ghost before = *self;
        let mut taken = Closure::blank();
        std::mem::swap(self, &mut taken);
        let Closure { pinned, mut queue, pending: _, names } = taken;
        let ghost q = works(queue@);
        let (fetch, trouble) = look(&pinned, &mut queue);
        let step = match (&fetch, trouble) {
            (Some(w), _) => ClosureStep::Fetch {
                url: clone_url(w.git.as_str()),
                git: w.git.clone(),
                req: w.req.clone(),
            },
            (None, Some(m)) => ClosureStep::Conflict(m),
            (None, None) => ClosureStep::Done,
        };
        proof {
            assert(before.waiting() == q);
            if step is Done {
                lemma_done_is_empty(pin_map(pinned.pairs()), q);
                assert forall|n: Seq<char>| !#[trigger] waits(works(queue@), n) by {}
            }
            assert(covered(pin_map(pinned.pairs()), opt_work(fetch), works(queue@), names@)) by {
                assert forall|n: Seq<char>| #[trigger] names@.contains(n) implies pair_get(
                    pin_map(pinned.pairs()),
                    n,
                ) is Some || (opt_work(fetch) matches Some(w) && w.name == n) || waits(
                    works(queue@),
                    n,
                ) by {
                    assert(before.asked().contains(n));
                    assert(pair_get(before.pins(), n) is Some || waits(q, n));
                }
            }
        }
        *self = Closure { pinned, queue, pending: fetch, names };
        step
    }

    /// Records what was fetched for the open request: its pin, and the requests
    /// of the manifest that came with it. Without an open request nothing
    /// changes. No pin that was there changes.
    pub fn record(&mut self, version: &str, rev: &str, child: Option<&Manifest>)
        ensures
            old(self).current() is None ==> *final(self) == *old(self),
            old(self).current() matches Some(w) ==> {
                &&& final(self).pins() == put(
                    old(self).pins(),
                    w.name,
                    (Pin {
                        name: w.name,
                        git: w.git,
                        version: version@,
                        rev: rev@,
                        package: w.package,
                    }),
                )
                &&& final(self).waiting() == old(self).waiting() + child_works(child)
                &&& final(self).current() is None
                &&& forall|n: Seq<char>| #[trigger]
                    final(self).asked().contains(n) <==> old(self).asked().contains(n) || waits(
                        child_works(child),
                        n,
                    )
            },
            forall|n: Seq<char>|
                #![trigger pair_get(final(self).pins(), n)]
                pair_get(old(self).pins(), n) is Some ==> pair_get(final(self).pins(), n)
                    == pair_get(old(self).pins(), n),
    {
        proof {
            use_type_invariant(&*self);
        }
        if self.pending.is_none() {
            return;
        }
        let ghost before = *self;
        let mut taken = Closure::blank();
        std::mem::swap(self, &mut taken);
        assert(taken == before);
        let Closure { mut pinned, mut queue, pending, names } = taken;
        if let Some(w) = pending {
            let ghost work = w@;
            let ghost f = |p: LockedDependency| p@;
            let ghost base = pinned.pairs();
            let pin = LockedDependency {
                name: w.name.clone(),
                git: w.git,
                version: String::from_str(version),
                rev: String::from_str(rev),
                package: w.package,
            };
            let count: usize = pinned.len();
            proof {
                lemma_mapped_put(base, f, work.name, pin);
                assert(pair_keys(pin_map(base)) =~= pair_keys(base));
            }
            let ghost new_pin = pin@;
            let ghost had = works(queue@);
            pinned.insert(w.name, pin);
            if let Some(m) = child {
                push_requests(&mut queue, &m.dependencies);
            }
            assert(works(queue@) =~= had + child_works(child));
            let ghost more = child_works(child);
            let ghost pm = pin_map(pinned.pairs());
            assert(pm == put(pin_map(base), work.name, new_pin));
            proof {
                assert forall|n: Seq<char>|
                    #![trigger pair_get(pm, n)]
                    pair_get(pm, n) == if n == work.name {
                        Some(new_pin)
                    } else {
                        pair_get(pin_map(base), n)
                    } by {
                    lemma_put_get(pin_map(base), work.name, new_pin, n);
                }
            }
            let ghost all = Set::new(|n: Seq<char>| before.asked().contains(n) || waits(more, n));
            assert(covered(pm, None, works(queue@), all)) by {
                assert forall|n: Seq<char>| #[trigger] all.contains(n) implies pair_get(pm, n) is Some
                    || waits(works(queue@), n) by {
                    lemma_waits_sum(had, more, n);
                    if before.asked().contains(n) {
                        assert(pair_get(before.pins(), n) is Some || work.name == n || waits(
                            before.waiting(),
                            n,
                        ));
                    }
                }
            }
            *self = Closure { pinned, queue, pending: None, names: Ghost(all) };
        }
    }

    /// A closure of nothing, which stands in while the parts of another are
    /// moved.
    fn blank() -> (r: Closure)
        ensures
            r.pins() == Seq::<(Seq<char>, Pin)>::empty(),
            r.waiting() == Seq::<Work>::empty(),
            r.current() is None,
            r.asked() == Set::<Seq<char>>::empty(),
    {
        let r = Closure {
            pinned: NameMap::new(),
            queue: Vec::new(),
            pending: None,
            names: Ghost(Set::empty()),
        };
        assert(r.pins() =~= Seq::<(Seq<char>, Pin)>::empty());
        assert(r.waiting() =~= Seq::<Work>::empty());
        r
    }

    /// The pins, by name.
    pub fn into_pins(self) -> (r: Vec<LockedDependency>)
        ensures
            pins(r@) == pin_values(self.pins()),
    {
        pin_list(&self.pinned)
    }
}

/// The pins of a list, in order.
pub open spec fn pin_values(s: Seq<(Seq<char>, Pin)>) -> Seq<Pin> {
    Seq::new(s.len(), |i: int| s[i].1)
}

/// The requests of a manifest, where there is one.
pub open spec fn child_works(child: Option<&Manifest>) -> Seq<Work> {
    match child {
        Some(m) => dep_works(m@.deps),
        None => Seq::empty(),
    }
}

/// The first `n` pins by name; of several for one name the last counts.
pub open spec fn pins_by_name(ps: Seq<Pin>, n: int) -> Seq<(Seq<char>, Pin)>
    decreases n,
{
    if n <= 0 {
        Seq::empty()
    } else {
        put(pins_by_name(ps, n - 1), ps[n - 1].name, ps[n - 1])
    }
}

/// Pins by name; of several for one name the last counts.
pub fn index_pins(v: &Vec<LockedDependency>) -> (r: NameMap<LockedDependency>)
    ensures
        pin_map(r.pairs()) == pins_by_name(pins(v@), v@.len() as int),
{
    let mut out: NameMap<LockedDependency> = NameMap::new();
    let mut i: usize = 0;
    assert(pin_map(out.pairs()) =~= Seq::<(Seq<char>, Pin)>::empty());
    while i < v.len()
        invariant
            i <= v@.len(),
            pin_map(out.pairs()) == pins_by_name(pins(v@), i as int),
        decreases v@.len() - i,
    {
        let p = copy_pin(&v[i]);
        proof {
            lemma_mapped_put(out.pairs(), |p: LockedDependency| p@, p@.name, p);
        }
        out.insert(v[i].name.clone(), p);
        i += 1;
    }
    out
}

/// The pins of a map, by name.
pub fn pin_list(m: &NameMap<LockedDependency>) -> (r: Vec<LockedDependency>)
    ensures
        pins(r@) == pin_values(pin_map(m.pairs())),
{
    let mut out: Vec<LockedDependency> = Vec::new();
    let n: usize = m.len();
    let ghost all = pin_values(pin_map(m.pairs()));
    let mut i: usize = 0;
    while i < n
        invariant
            i <= n,
            n == m.pairs().len(),
            all == pin_values(pin_map(m.pairs())),
            pins(out@) =~= all.take(i as int),
        decreases n - i,
    {
        let ghost had = pins(out@);
        let p = copy_pin(m.value_at(i));
        let ghost new = p@;
        out.push(p);
        assert(pins(out@) =~= had.push(new));
        i += 1;
    }
    assert(pins(out@) =~= all);
    out
}

fn push_requests(queue: &mut Vec<WorkItem>, from: &NameMap<Dependency>)
    ensures
        works(final(queue)@) == works(old(queue)@) + dep_works(deps(from.pairs())),
{
    let n: usize = from.len();
    let ghost ds = dep_works(deps(from.pairs()));
    let mut i: usize = 0;
    assert(works(queue@) =~= works(old(queue)@) + ds.take(0));
    while i < n
        invariant
            i <= n,
            n == from.pairs().len(),
            ds == dep_works(deps(from.pairs())),
            works(queue@) == works(old(queue)@) + ds.take(i as int),
        decreases n - i,
    {
        let ghost had = works(queue@);
        let d = from.value_at(i);
        let w = WorkItem {
            name: from.key_at(i).clone(),
            git: d.git.clone(),
            req: d.version.clone(),
            package: copy_opt(&d.package),
        };
        let ghost new = w@;
        assert(new == ds[i as int]);
        queue.push(w);
        assert(works(queue@) =~= had.push(new));
        assert(works(queue@) =~= works(old(queue)@) + ds.take(i + 1));
        i += 1;
    }
    assert(ds.take(i as int) =~= ds);
}

/// Takes requests off the queue that a pin satisfies, and with them the first
/// that has no pin or that clashes with one.
fn look(pinned: &NameMap<LockedDependency>, queue: &mut Vec<WorkItem>) -> (r: (
    Option<WorkItem>,
    Option<String>,
))
    ensures
        works(final(queue)@) == advanced(pin_map(pinned.pairs()), works(old(queue)@)).1,
        match advanced(pin_map(pinned.pairs()), works(old(queue)@)).0 {
            Next::Done => r.0 is None && r.1 is None,
            Next::Fetch(w) => (r.0 matches Some(x) && x@ == w) && r.1 is None,
            Next::Clash(m) => r.0 is None && (r.1 matches Some(x) && x@ == m),
        },
        r.0 matches Some(w) ==> pair_get(pin_map(pinned.pairs()), w@.name) is None,
        forall|n: Seq<char>| #[trigger]
            waits(works(old(queue)@), n) ==> pair_get(pin_map(pinned.pairs()), n) is Some || (
            r.0 matches Some(w) && w@.name == n) || waits(works(final(queue)@), n),
{
    let ghost ps = pin_map(pinned.pairs());
    while queue.len() > 0
        invariant
            ps == pin_map(pinned.pairs()),
            advanced(ps, works(old(queue)@)) == advanced(ps, works(queue@)),
            forall|n: Seq<char>| #[trigger]
                waits(works(old(queue)@), n) ==> pair_get(ps, n) is Some || waits(
                    works(queue@),
                    n,
                ),
        decreases queue@.len(),
    {
        let ghost q = works(queue@);
        let w = queue.remove(0);
        assert(works(queue@) =~= q.skip(1));
        assert(q[0] == w@);
        proof {
            lemma_mapped_get(pinned.pairs(), |p: LockedDependency| p@, w@.name);
            assert forall|n: Seq<char>| #[trigger] waits(works(old(queue)@), n) implies pair_get(
                ps,
                n,
            ) is Some || w@.name == n || waits(q.skip(1), n) by {
                if waits(q, n) {
                    lemma_waits_rest(q, n);
                }
            }
        }
        match pinned.get(w.name.as_str()) {
            None => {
                return (Some(w), None);
            },
            Some(p) => {
                let trouble = check_pin(&w, p, fit_of(w.req.as_str(), p.version.as_str()));
                if trouble.is_some() {
                    return (None, trouble);
                }
            },
        }
    }
    assert(works(queue@) =~= Seq::<Work>::empty());
    (None, None)
}

proof fn lemma_done_is_empty(pins: Seq<(Seq<char>, Pin)>, queue: Seq<Work>)
    ensures
        advanced(pins, queue).0 is Done ==> advanced(pins, queue).1.len() == 0,
    decreases queue.len(),
{
    if queue.len() > 0 {
        lemma_done_is_empty(pins, queue.skip(1));
    }
}

proof fn lemma_waits_rest(q: Seq<Work>, n: Seq<char>)
    requires
        q.len() > 0,
        waits(q, n),
    ensures
        q[0].name == n || waits(q.skip(1), n),
{
    let i = choose|i: int| 0 <= i < q.len() && (#[trigger] q[i]).name == n;
    if i > 0 {
        assert(q.skip(1)[i - 1] == q[i]);
    }
}

proof fn lemma_waits_sum(a: Seq<Work>, b: Seq<Work>, n: Seq<char>)
    ensures
        waits(a + b, n) <==> waits(a, n) || waits(b, n),
{
    let s = a + b;
    if waits(a, n) {
        let i = choose|i: int| 0 <= i < a.len() && (#[trigger] a[i]).name == n;
        assert(s[i] == a[i]);
    }
    if waits(b, n) {
        let i = choose|i: int| 0 <= i < b.len() && (#[trigger] b[i]).name == n;
        assert(s[a.len() + i] == b[i]);
    }
    if waits(s, n) {
        let i = choose|i: int| 0 <= i < s.len() && (#[trigger] s[i]).name == n;
        if i < a.len() {
            assert(a[i] == s[i]);
        } else {
            assert(b[i - a.len()] == s[i]);
        }
    }
}

// ---------------------------------------------------------------------------
// Laws
// ---------------------------------------------------------------------------

/// A request from another source than the pin's is always an error, and one
/// that cannot be compared with the pin never is.
pub proof fn law_conflicts_are_loud(w: Work, p: Pin, fits: Option<bool>)
    ensures
        p.git != w.git ==> clash(w, p, fits) is Some,
        fits == Some(false) ==> clash(w, p, fits) is Some,
        p.git == w.git && fits != Some(false) ==> clash(w, p, fits) is None,
{
}

/// Only a name without a pin is fetched, so the first pin of a name wins.
pub proof fn law_first_pin_wins(pins: Seq<(Seq<char>, Pin)>, queue: Seq<Work>)
    ensures
        advanced(pins, queue).0 matches Next::Fetch(w) ==> pair_get(pins, w.name) is None,
    decreases queue.len(),
{
    if queue.len() > 0 {
        law_first_pin_wins(pins, queue.skip(1));
    }
}

} // verus!
