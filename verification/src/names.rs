//! Sets of names.
use crate::text::{
    before, comes_before, contains_text, lemma_before_total, lemma_before_trans, same, texts,
};
use vstd::prelude::*;
use vstd::string::*;

verus! {

/// A set of names, listed in the order in which they came.
#[derive(Debug)]
pub struct NameSet {
    pub names: Vec<String>,
}

impl View for NameSet {
    type V = Set<Seq<char>>;

    open spec fn view(&self) -> Set<Seq<char>> {
        texts(self.names@).to_set()
    }
}

impl NameSet {
    /// The empty set.
    pub fn new() -> (r: NameSet)
        ensures
            r@ == Set::<Seq<char>>::empty(),
            r.names@.len() == 0,
    {
        let r = NameSet { names: Vec::new() };
        assert(r@ =~= Set::<Seq<char>>::empty());
        r
    }

    /// True when `name` belongs to the set.
    pub fn contains(&self, name: &str) -> (r: bool)
        ensures
            r == self@.contains(name@),
    {
        contains_text(&self.names, name)
    }

    /// Adds `name`; true when it was not there before.
    pub fn insert(&mut self, name: String) -> (r: bool)
        ensures
            r == !old(self)@.contains(name@),
            final(self)@ == old(self)@.insert(name@),
            texts(final(self).names@) == if r {
                texts(old(self).names@).push(name@)
            } else {
                texts(old(self).names@)
            },
    {
        if self.contains(name.as_str()) {
            assert(self@ =~= old(self)@.insert(name@));
            return false;
        }
        let ghost before = texts(self.names@);
        let ghost n = name@;
        self.names.push(name);
        assert(texts(self.names@) =~= before.push(n));
        assert(self@ =~= old(self)@.insert(n)) by {
            assert forall|x: Seq<char>| before.push(n).contains(x) <==> before.contains(x) || x
                == n by {
                assert(before.push(n)[before.len() as int] == n);
                if before.contains(x) {
                    let k = choose|k: int| 0 <= k < before.len() && before[k] == x;
                    assert(before.push(n)[k] == x);
                }
            }
        }
        true
    }
}

// ---------------------------------------------------------------------------
// Lists without repetition
// ---------------------------------------------------------------------------

/// `names` and those of the first `n` of `more` that are missing.
pub open spec fn completed(names: Seq<Seq<char>>, more: Seq<Seq<char>>, n: int) -> Seq<Seq<char>>
    decreases n,
{
    if n <= 0 {
        names
    } else {
        let all = completed(names, more, n - 1);
        if all.contains(more[n - 1]) {
            all
        } else {
            all.push(more[n - 1])
        }
    }
}

/// Adds `x` to the list unless it is there.
fn push_missing(out: &mut Vec<String>, x: &str)
    ensures
        texts(final(out)@) == if texts(old(out)@).contains(x@) {
            texts(old(out)@)
        } else {
            texts(old(out)@).push(x@)
        },
{
    if !contains_text(out, x) {
        out.push(String::from_str(x));
        assert(texts(out@) =~= texts(old(out)@).push(x@));
    }
}

/// Adds to the list what it lacks of `more`, in order.
pub fn extend_missing(out: &mut Vec<String>, more: &Vec<String>)
    ensures
        texts(final(out)@) == completed(texts(old(out)@), texts(more@), more@.len() as int),
{
    let mut j: usize = 0;
    while j < more.len()
        invariant
            j <= more@.len(),
            texts(out@) == completed(texts(old(out)@), texts(more@), j as int),
        decreases more@.len() - j,
    {
        push_missing(out, more[j].as_str());
        j += 1;
    }
}

// ---------------------------------------------------------------------------
// Ordered lists
// ---------------------------------------------------------------------------

/// Strictly ascending, so without repetition.
pub open spec fn ascending(s: Seq<Seq<char>>) -> bool {
    forall|i: int, j: int| 0 <= i < j < s.len() ==> before(#[trigger] s[i], #[trigger] s[j])
}

/// Two ascending lists of the same texts are the same list.
pub proof fn lemma_ascending_unique(a: Seq<Seq<char>>, b: Seq<Seq<char>>)
    requires
        ascending(a),
        ascending(b),
        a.to_set() == b.to_set(),
    ensures
        a == b,
    decreases a.len(),
{
    if a.len() == 0 {
        if b.len() > 0 {
            assert(b.to_set().contains(b[0]));
            assert(a.contains(b[0]));
        }
        assert(a =~= b);
    } else {
        assert(a.to_set().contains(a.last()));
        assert(b.contains(a.last()));
        assert(b.to_set().contains(b.last()));
        assert(a.contains(b.last()));
        let i = choose|i: int| 0 <= i < b.len() && b[i] == a.last();
        let j = choose|j: int| 0 <= j < a.len() && a[j] == b.last();
        if i < b.len() - 1 {
            assert(before(b[i], b[b.len() - 1]));
            if j < a.len() - 1 {
                assert(before(a[j], a[a.len() - 1]));
                lemma_before_total(a.last(), b.last());
            } else {
                lemma_before_total(a.last(), b.last());
            }
        }
        assert(a.last() == b.last());
        let x = a.drop_last();
        let y = b.drop_last();
        assert forall|z: Seq<char>| x.contains(z) <==> y.contains(z) by {
            if x.contains(z) {
                let k = choose|k: int| 0 <= k < x.len() && x[k] == z;
                assert(a[k] == z);
                assert(before(a[k], a[a.len() - 1]));
                lemma_before_total(z, a.last());
                assert(a.to_set().contains(z));
                assert(b.contains(z));
                let m = choose|m: int| 0 <= m < b.len() && b[m] == z;
                assert(y[m] == z);
            }
            if y.contains(z) {
                let k = choose|k: int| 0 <= k < y.len() && y[k] == z;
                assert(b[k] == z);
                assert(before(b[k], b[b.len() - 1]));
                lemma_before_total(z, b.last());
                assert(b.to_set().contains(z));
                assert(a.contains(z));
                let m = choose|m: int| 0 <= m < a.len() && a[m] == z;
                assert(x[m] == z);
            }
        }
        assert(x.to_set() =~= y.to_set());
        assert(ascending(x)) by {
            assert forall|p: int, q: int| 0 <= p < q < x.len() implies before(
                #[trigger] x[p],
                #[trigger] x[q],
            ) by {
                assert(before(a[p], a[q]));
            }
        }
        assert(ascending(y)) by {
            assert forall|p: int, q: int| 0 <= p < q < y.len() implies before(
                #[trigger] y[p],
                #[trigger] y[q],
            ) by {
                assert(before(b[p], b[q]));
            }
        }
        lemma_ascending_unique(x, y);
        assert(a =~= x.push(a.last()));
        assert(b =~= y.push(b.last()));
    }
}

// ---------------------------------------------------------------------------
// Maps
// ---------------------------------------------------------------------------

/// The keys of a list of pairs.
pub open spec fn pair_keys<V>(s: Seq<(Seq<char>, V)>) -> Seq<Seq<char>> {
    Seq::new(s.len(), |i: int| s[i].0)
}

/// The value of `k` in a list of pairs.
pub open spec fn pair_get<V>(s: Seq<(Seq<char>, V)>, k: Seq<char>) -> Option<V>
    decreases s.len(),
{
    if s.len() == 0 {
        None
    } else if s.last().0 == k {
        Some(s.last().1)
    } else {
        pair_get(s.drop_last(), k)
    }
}

/// An ascending list of pairs with `v` as the value of `k`.
pub open spec fn put<V>(s: Seq<(Seq<char>, V)>, k: Seq<char>, v: V) -> Seq<(Seq<char>, V)>
    decreases s.len(),
{
    if s.len() == 0 || before(s.last().0, k) {
        s.push((k, v))
    } else if s.last().0 == k {
        s.drop_last().push((k, v))
    } else {
        put(s.drop_last(), k, v).push(s.last())
    }
}

/// The list without the pairs of `k`.
pub open spec fn without<V>(s: Seq<(Seq<char>, V)>, k: Seq<char>) -> Seq<(Seq<char>, V)>
    decreases s.len(),
{
    if s.len() == 0 {
        s
    } else if s.last().0 == k {
        without(s.drop_last(), k)
    } else {
        without(s.drop_last(), k).push(s.last())
    }
}

proof fn lemma_ascending_part(s: Seq<Seq<char>>, n: int)
    requires
        ascending(s),
        0 <= n <= s.len(),
    ensures
        ascending(s.take(n)),
{
    let t = s.take(n);
    assert forall|i: int, j: int| 0 <= i < j < t.len() implies before(
        #[trigger] t[i],
        #[trigger] t[j],
    ) by {
        assert(before(s[i], s[j]));
    }
}

/// Putting a value keeps a list ascending and gives it the key `k` besides
/// those it had.
pub proof fn lemma_put_ascending<V>(s: Seq<(Seq<char>, V)>, k: Seq<char>, v: V)
    requires
        ascending(pair_keys(s)),
    ensures
        ascending(pair_keys(put(s, k, v))),
        forall|i: int|
            0 <= i < put(s, k, v).len() ==> (#[trigger] pair_keys(put(s, k, v))[i]) == k
                || pair_keys(s).contains(pair_keys(put(s, k, v))[i]),
    decreases s.len(),
{
    let ks = pair_keys(s);
    let r = put(s, k, v);
    let rk = pair_keys(r);
    if s.len() == 0 || before(s.last().0, k) {
        assert forall|i: int, j: int| 0 <= i < j < rk.len() implies before(
            #[trigger] rk[i],
            #[trigger] rk[j],
        ) by {
            if j < ks.len() {
                assert(before(ks[i], ks[j]));
            } else if i < ks.len() - 1 {
                assert(before(ks[i], ks[ks.len() - 1]));
                lemma_before_trans(ks[i], ks[ks.len() - 1], k);
            }
        }
        assert forall|i: int| 0 <= i < r.len() implies (#[trigger] rk[i]) == k || ks.contains(
            rk[i],
        ) by {
            if i < ks.len() {
                assert(ks[i] == rk[i]);
            }
        }
    } else if s.last().0 == k {
        assert(rk =~= ks);
    } else {
        let t = s.drop_last();
        assert(pair_keys(t) =~= ks.take(s.len() - 1));
        lemma_ascending_part(ks, s.len() - 1);
        lemma_put_ascending(t, k, v);
        let q = pair_keys(put(t, k, v));
        let last = s.last().0;
        lemma_before_total(last, k);
        assert forall|i: int| 0 <= i < q.len() implies before(#[trigger] q[i], last) && ks.contains(
            q[i],
        ) || q[i] == k by {
            if q[i] != k {
                let m = choose|m: int| 0 <= m < pair_keys(t).len() && pair_keys(t)[m] == q[i];
                assert(before(ks[m], ks[s.len() - 1]));
                assert(ks[m] == q[i]);
            }
        }
        assert forall|i: int, j: int| 0 <= i < j < rk.len() implies before(
            #[trigger] rk[i],
            #[trigger] rk[j],
        ) by {
            if j < q.len() {
                assert(before(q[i], q[j]));
            } else {
                assert(rk[i] == q[i]);
            }
        }
        assert forall|i: int| 0 <= i < r.len() implies (#[trigger] rk[i]) == k || ks.contains(
            rk[i],
        ) by {
            if i < q.len() {
                assert(rk[i] == q[i]);
            } else {
                assert(ks[s.len() - 1] == last);
            }
        }
    }
}

/// A read gives back what a write wrote, and other keys keep their values.
pub proof fn lemma_put_get<V>(s: Seq<(Seq<char>, V)>, k: Seq<char>, v: V, x: Seq<char>)
    requires
        ascending(pair_keys(s)),
    ensures
        pair_get(put(s, k, v), x) == if x == k {
            Some(v)
        } else {
            pair_get(s, x)
        },
    decreases s.len(),
{
    let r = put(s, k, v);
    if s.len() == 0 || before(s.last().0, k) {
        assert(r.drop_last() =~= s);
    } else if s.last().0 == k {
        assert(r.drop_last() =~= s.drop_last());
    } else {
        let t = s.drop_last();
        assert(pair_keys(t) =~= pair_keys(s).take(s.len() - 1));
        lemma_ascending_part(pair_keys(s), s.len() - 1);
        lemma_put_get(t, k, v, x);
        assert(r.drop_last() =~= put(t, k, v));
        lemma_before_total(s.last().0, k);
    }
}

/// The list with every value mapped.
pub open spec fn mapped<V, W>(s: Seq<(Seq<char>, V)>, f: spec_fn(V) -> W) -> Seq<(Seq<char>, W)> {
    Seq::new(s.len(), |i: int| (s[i].0, f(s[i].1)))
}

pub proof fn lemma_mapped_put<V, W>(
    s: Seq<(Seq<char>, V)>,
    f: spec_fn(V) -> W,
    k: Seq<char>,
    v: V,
)
    ensures
        mapped(put(s, k, v), f) == put(mapped(s, f), k, f(v)),
    decreases s.len(),
{
    let m = mapped(s, f);
    if s.len() == 0 || before(s.last().0, k) {
        assert(mapped(s.push((k, v)), f) =~= m.push((k, f(v))));
    } else if s.last().0 == k {
        assert(mapped(s.drop_last().push((k, v)), f) =~= m.drop_last().push((k, f(v))));
    } else {
        lemma_mapped_put(s.drop_last(), f, k, v);
        assert(mapped(s.drop_last(), f) =~= m.drop_last());
        assert(mapped(put(s, k, v), f) =~= mapped(put(s.drop_last(), k, v), f).push(m.last()));
    }
}

pub proof fn lemma_mapped_get<V, W>(s: Seq<(Seq<char>, V)>, f: spec_fn(V) -> W, k: Seq<char>)
    ensures
        pair_get(mapped(s, f), k) == match pair_get(s, k) {
            Some(v) => Some(f(v)),
            None => None,
        },
    decreases s.len(),
{
    if s.len() > 0 {
        lemma_mapped_get(s.drop_last(), f, k);
        assert(mapped(s.drop_last(), f) =~= mapped(s, f).drop_last());
    }
}

/// A name has a value exactly when it is among the names.
pub proof fn lemma_get_key<V>(s: Seq<(Seq<char>, V)>, k: Seq<char>)
    ensures
        pair_get(s, k) is Some <==> pair_keys(s).contains(k),
    decreases s.len(),
{
    let ks = pair_keys(s);
    if s.len() > 0 {
        let t = s.drop_last();
        lemma_get_key(t, k);
        assert(pair_keys(t) =~= ks.drop_last());
        if pair_keys(t).contains(k) {
            let i = choose|i: int| 0 <= i < t.len() && pair_keys(t)[i] == k;
            assert(ks[i] == k);
        }
        if ks.contains(k) {
            let i = choose|i: int| 0 <= i < ks.len() && ks[i] == k;
            if i < t.len() {
                assert(pair_keys(t)[i] == k);
            }
        }
        if s.last().0 == k {
            assert(ks[s.len() - 1] == k);
        }
    }
}

/// A map from names to values, in ascending order of the names.
#[derive(Debug)]
pub struct NameMap<V> {
    entries: Vec<(String, V)>,
}

impl<V> NameMap<V> {
    /// The pairs, in ascending order of the names.
    pub closed spec fn pairs(&self) -> Seq<(Seq<char>, V)> {
        Seq::new(self.entries@.len(), |i: int| (self.entries@[i].0@, self.entries@[i].1))
    }

    #[verifier::type_invariant]
    spec fn wf(self) -> bool {
        ascending(pair_keys(self.pairs()))
    }

    /// The empty map.
    pub fn new() -> (r: NameMap<V>)
        ensures
            r.pairs() == Seq::<(Seq<char>, V)>::empty(),
    {
        let r = NameMap { entries: Vec::new() };
        assert(r.pairs() =~= Seq::<(Seq<char>, V)>::empty());
        r
    }

    /// How many names the map holds, which are in ascending order.
    pub fn len(&self) -> (r: usize)
        ensures
            r == self.pairs().len(),
            ascending(pair_keys(self.pairs())),
    {
        proof {
            use_type_invariant(self);
        }
        self.entries.len()
    }

    /// True when the map holds no name.
    pub fn is_empty(&self) -> (r: bool)
        ensures
            r == (self.pairs().len() == 0),
    {
        self.entries.len() == 0
    }

    /// The name at position `i`, names ascending.
    pub fn key_at(&self, i: usize) -> (r: &String)
        requires
            i < self.pairs().len(),
        ensures
            r@ == self.pairs()[i as int].0,
    {
        &self.entries[i].0
    }

    /// The value at position `i`, names ascending.
    pub fn value_at(&self, i: usize) -> (r: &V)
        requires
            i < self.pairs().len(),
        ensures
            *r == self.pairs()[i as int].1,
    {
        &self.entries[i].1
    }

    /// The value of `name`.
    pub fn get(&self, name: &str) -> (r: Option<&V>)
        ensures
            r is Some <==> pair_get(self.pairs(), name@) is Some,
            r matches Some(v) ==> pair_get(self.pairs(), name@) == Some(*v),
    {
        let mut n: usize = self.entries.len();
        assert(self.pairs().take(n as int) =~= self.pairs());
        while n > 0
            invariant
                n <= self.entries@.len() == self.pairs().len(),
                pair_get(self.pairs(), name@) == pair_get(self.pairs().take(n as int), name@),
            decreases n,
        {
            let ghost t = self.pairs().take(n as int);
            assert(t.last() == self.pairs()[n - 1]);
            if same(self.entries[n - 1].0.as_str(), name) {
                return Some(&self.entries[n - 1].1);
            }
            assert(t.drop_last() =~= self.pairs().take(n - 1));
            n -= 1;
        }
        None
    }

    /// True when the map holds `name`.
    pub fn contains_key(&self, name: &str) -> (r: bool)
        ensures
            r == (pair_get(self.pairs(), name@) is Some),
    {
        self.get(name).is_some()
    }

    /// Gives `name` the value `value`.
    pub fn insert(&mut self, name: String, value: V)
        ensures
            final(self).pairs() == put(old(self).pairs(), name@, value),
    {
        proof {
            use_type_invariant(&*self);
        }
        let ghost s = self.pairs();
        let ghost k = name@;
        let ghost v = value;
        let n: usize = self.entries.len();
        let mut at: usize = n;
        assert(s.take(n as int) =~= s);
        assert(put(s.take(n as int), k, v) + s.skip(n as int) =~= put(s, k, v));
        while at > 0 && !comes_before(self.entries[at - 1].0.as_str(), name.as_str()) && !same(
            self.entries[at - 1].0.as_str(),
            name.as_str(),
        )
            invariant
                at <= n == s.len(),
                s == self.pairs(),
                n == self.entries@.len(),
                k == name@,
                put(s, k, v) == put(s.take(at as int), k, v) + s.skip(at as int),
            decreases at,
        {
            let ghost t = s.take(at as int);
            assert(t.last() == s[at - 1]);
            assert(t.drop_last() =~= s.take(at - 1));
            assert(put(t, k, v) + s.skip(at as int) =~= put(s.take(at - 1), k, v) + s.skip(at - 1));
            at -= 1;
        }
        let ghost t = s.take(at as int);
        proof {
            lemma_put_ascending(s, k, v);
        }
        if at > 0 && same(self.entries[at - 1].0.as_str(), name.as_str()) {
            proof {
                lemma_before_total(k, k);
                assert(t.last() == s[at - 1]);
            }
            let ghost goal = s.update(at - 1, (k, v));
            assert(goal =~= put(s, k, v));
            let mut entries: Vec<(String, V)> = Vec::new();
            std::mem::swap(&mut entries, &mut self.entries);
            entries.set(at - 1, (name, value));
            let ghost made = Seq::new(entries@.len(), |i: int| (entries@[i].0@, entries@[i].1));
            assert(made =~= goal);
            self.entries = entries;
        } else {
            assert(at > 0 ==> t.last() == s[at - 1]);
            let ghost goal = s.insert(at as int, (k, v));
            assert(goal =~= put(s, k, v));
            let mut entries: Vec<(String, V)> = Vec::new();
            std::mem::swap(&mut entries, &mut self.entries);
            entries.insert(at, (name, value));
            let ghost made = Seq::new(entries@.len(), |i: int| (entries@[i].0@, entries@[i].1));
            assert(made =~= goal);
            self.entries = entries;
        }
    }

    /// Takes `name` out.
    pub fn remove(&mut self, name: &str)
        ensures
            final(self).pairs() == without(old(self).pairs(), name@),
    {
        proof {
            use_type_invariant(&*self);
        }
        let ghost s = self.pairs();
        let n: usize = self.entries.len();
        let mut entries: Vec<(String, V)> = Vec::new();
        std::mem::swap(&mut entries, &mut self.entries);
        let mut at: usize = n;
        assert(s.take(n as int) =~= s);
        assert(without(s.take(n as int), name@) + s.skip(n as int) =~= without(s, name@));
        while at > 0 && !same(entries[at - 1].0.as_str(), name)
            invariant
                at <= n == s.len(),
                entries@.len() == n,
                s == Seq::new(entries@.len(), |i: int| (entries@[i].0@, entries@[i].1)),
                without(s, name@) == without(s.take(at as int), name@) + s.skip(at as int),
            decreases at,
        {
            let ghost t = s.take(at as int);
            assert(t.last() == s[at - 1]);
            assert(t.drop_last() =~= s.take(at - 1));
            assert(without(t, name@) + s.skip(at as int) =~= without(s.take(at - 1), name@)
                + s.skip(at - 1));
            at -= 1;
        }
        proof {
            lemma_without(s, name@, at as int);
        }
        if at > 0 {
            assert(s.take(at as int).last() == s[at - 1]);
            assert(s.take(at as int).drop_last() =~= s.take(at - 1));
            entries.remove(at - 1);
        }
        let ghost made = Seq::new(entries@.len(), |i: int| (entries@[i].0@, entries@[i].1));
        assert(made =~= without(s, name@));
        self.entries = entries;
    }
}

/// In an ascending list whose last pair of `k` stands at `at - 1`, no other
/// pair of `k` stands before it; what is left is ascending.
proof fn lemma_without<V>(s: Seq<(Seq<char>, V)>, k: Seq<char>, at: int)
    requires
        ascending(pair_keys(s)),
        0 <= at <= s.len(),
        at > 0 ==> s[at - 1].0 == k,
    ensures
        at > 0 ==> without(s.take(at - 1), k) == s.take(at - 1),
        ascending(pair_keys(without(s, k))),
{
    if at > 0 {
        let t = s.take(at - 1);
        assert forall|i: int| 0 <= i < t.len() implies (#[trigger] t[i]).0 != k by {
            assert(before(pair_keys(s)[i], pair_keys(s)[at - 1]));
            lemma_before_total(pair_keys(s)[i], k);
        }
        lemma_without_none(t, k);
    }
    lemma_without_ascending(s, k);
}

proof fn lemma_without_none<V>(s: Seq<(Seq<char>, V)>, k: Seq<char>)
    requires
        forall|i: int| 0 <= i < s.len() ==> (#[trigger] s[i]).0 != k,
    ensures
        without(s, k) == s,
    decreases s.len(),
{
    if s.len() > 0 {
        lemma_without_none(s.drop_last(), k);
        assert(s.drop_last().push(s.last()) =~= s);
    }
}

/// Taking a name out keeps a list ascending, and only that name goes.
pub proof fn lemma_without_ascending<V>(s: Seq<(Seq<char>, V)>, k: Seq<char>)
    requires
        ascending(pair_keys(s)),
    ensures
        ascending(pair_keys(without(s, k))),
        forall|i: int|
            0 <= i < without(s, k).len() ==> pair_keys(s).contains(
                #[trigger] pair_keys(without(s, k))[i],
            ),
    decreases s.len(),
{
    if s.len() > 0 {
        let t = s.drop_last();
        let ks = pair_keys(s);
        assert(pair_keys(t) =~= ks.take(s.len() - 1));
        lemma_ascending_part(ks, s.len() - 1);
        lemma_without_ascending(t, k);
        let q = pair_keys(without(t, k));
        let r = pair_keys(without(s, k));
        assert forall|i: int| 0 <= i < q.len() implies ks.contains(#[trigger] q[i]) && before(
            q[i],
            s.last().0,
        ) by {
            let m = choose|m: int| 0 <= m < pair_keys(t).len() && pair_keys(t)[m] == q[i];
            assert(before(ks[m], ks[s.len() - 1]));
            assert(ks[m] == q[i]);
        }
        if s.last().0 != k {
            assert(r =~= q.push(s.last().0));
            assert(ks[s.len() - 1] == s.last().0);
            assert forall|i: int, j: int| 0 <= i < j < r.len() implies before(
                #[trigger] r[i],
                #[trigger] r[j],
            ) by {
                if j < q.len() {
                    assert(before(q[i], q[j]));
                } else {
                    assert(r[i] == q[i]);
                }
            }
        }
    }
}

} // verus!
