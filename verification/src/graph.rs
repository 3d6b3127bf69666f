//! Reachability in a finite directed graph.
use vstd::prelude::*;

verus! {

/// Node `j` is reachable over at most `k` edges.
pub open spec fn within(
    root: spec_fn(int) -> bool,
    edge: spec_fn(int, int) -> bool,
    k: nat,
    j: int,
) -> bool
    decreases k,
{
    if k == 0 {
        root(j)
    } else {
        within(root, edge, (k - 1) as nat, j) || exists|i: int|
            #![trigger edge(i, j)]
            within(root, edge, (k - 1) as nat, i) && edge(i, j)
    }
}

/// Node `j` is reachable from a root.
pub open spec fn reached(root: spec_fn(int) -> bool, edge: spec_fn(int, int) -> bool, j: int) -> bool {
    exists|k: nat| within(root, edge, k, j)
}

/// Roots are reachable, and so is whatever a reachable node leads to.
pub proof fn lemma_reached_closed(
    root: spec_fn(int) -> bool,
    edge: spec_fn(int, int) -> bool,
    i: int,
    j: int,
)
    ensures
        root(j) ==> reached(root, edge, j),
        reached(root, edge, i) && edge(i, j) ==> reached(root, edge, j),
{
    if root(j) {
        assert(within(root, edge, 0, j));
    }
    if reached(root, edge, i) && edge(i, j) {
        let k = choose|k: nat| within(root, edge, k, i);
        assert(within(root, edge, k + 1, j));
    }
}

/// A set that holds the roots and what its members lead to holds everything
/// reachable.
pub proof fn lemma_reached_least(
    root: spec_fn(int) -> bool,
    edge: spec_fn(int, int) -> bool,
    s: spec_fn(int) -> bool,
    j: int,
)
    requires
        forall|i: int| #[trigger] root(i) ==> s(i),
        forall|a: int, b: int| s(a) && #[trigger] edge(a, b) ==> s(b),
        reached(root, edge, j),
    ensures
        s(j),
{
    let k = choose|k: nat| within(root, edge, k, j);
    lemma_within_least(root, edge, s, k, j);
}

proof fn lemma_within_least(
    root: spec_fn(int) -> bool,
    edge: spec_fn(int, int) -> bool,
    s: spec_fn(int) -> bool,
    k: nat,
    j: int,
)
    requires
        forall|i: int| #[trigger] root(i) ==> s(i),
        forall|a: int, b: int| s(a) && #[trigger] edge(a, b) ==> s(b),
        within(root, edge, k, j),
    ensures
        s(j),
    decreases k,
{
    if k > 0 {
        if within(root, edge, (k - 1) as nat, j) {
            lemma_within_least(root, edge, s, (k - 1) as nat, j);
        } else {
            let i = choose|i: int|
                #![trigger edge(i, j)]
                within(root, edge, (k - 1) as nat, i) && edge(i, j);
            lemma_within_least(root, edge, s, (k - 1) as nat, i);
        }
    }
}

/// The route starts at a root and follows edges.
pub open spec fn is_route(
    root: spec_fn(int) -> bool,
    edge: spec_fn(int, int) -> bool,
    route: Seq<int>,
) -> bool {
    &&& route.len() > 0
    &&& root(route[0])
    &&& forall|k: int| 0 <= k < route.len() - 1 ==> edge(#[trigger] route[k], route[k + 1])
}

/// A node is reachable exactly when a route ends at it.
pub proof fn law_reached_by_a_route(
    root: spec_fn(int) -> bool,
    edge: spec_fn(int, int) -> bool,
    j: int,
)
    ensures
        reached(root, edge, j) <==> exists|route: Seq<int>| #[trigger]
            is_route(root, edge, route) && route.last() == j,
{
    if reached(root, edge, j) {
        let k = choose|k: nat| within(root, edge, k, j);
        let route = lemma_route(root, edge, k, j);
        assert(is_route(root, edge, route) && route.last() == j);
    }
    if exists|route: Seq<int>| #[trigger] is_route(root, edge, route) && route.last() == j {
        let route = choose|route: Seq<int>| #[trigger]
            is_route(root, edge, route) && route.last() == j;
        lemma_on_route(root, edge, route, route.len() - 1);
    }
}

proof fn lemma_route(
    root: spec_fn(int) -> bool,
    edge: spec_fn(int, int) -> bool,
    k: nat,
    j: int,
) -> (route: Seq<int>)
    requires
        within(root, edge, k, j),
    ensures
        is_route(root, edge, route),
        route.last() == j,
    decreases k,
{
    if k == 0 {
        seq![j]
    } else if within(root, edge, (k - 1) as nat, j) {
        lemma_route(root, edge, (k - 1) as nat, j)
    } else {
        let i = choose|i: int|
            #![trigger edge(i, j)]
            within(root, edge, (k - 1) as nat, i) && edge(i, j);
        let before = lemma_route(root, edge, (k - 1) as nat, i);
        let route = before.push(j);
        assert forall|m: int| 0 <= m < route.len() - 1 implies edge(
            #[trigger] route[m],
            route[m + 1],
        ) by {
            if m < before.len() - 1 {
                assert(edge(before[m], before[m + 1]));
            }
        }
        route
    }
}

proof fn lemma_on_route(
    root: spec_fn(int) -> bool,
    edge: spec_fn(int, int) -> bool,
    route: Seq<int>,
    k: int,
)
    requires
        is_route(root, edge, route),
        0 <= k < route.len(),
    ensures
        reached(root, edge, route[k]),
    decreases k,
{
    if k == 0 {
        lemma_reached_closed(root, edge, route[0], route[0]);
    } else {
        lemma_on_route(root, edge, route, k - 1);
        assert(edge(route[k - 1], route[k - 1 + 1]));
        lemma_reached_closed(root, edge, route[k - 1], route[k]);
    }
}

/// How many entries are false.
pub open spec fn unmarked(m: Seq<bool>) -> nat
    decreases m.len(),
{
    if m.len() == 0 {
        0
    } else {
        unmarked(m.drop_last()) + if m.last() {
            0nat
        } else {
            1nat
        }
    }
}

/// Marking an entry leaves one fewer unmarked.
pub proof fn lemma_mark(m: Seq<bool>, j: int)
    requires
        0 <= j < m.len(),
        !m[j],
    ensures
        unmarked(m.update(j, true)) + 1 == unmarked(m),
    decreases m.len(),
{
    let u = m.update(j, true);
    if j == m.len() - 1 {
        assert(u.drop_last() =~= m.drop_last());
    } else {
        assert(u.drop_last() =~= m.drop_last().update(j, true));
        lemma_mark(m.drop_last(), j);
    }
}

/// A marked node is pending, or has only marked nodes behind it.
spec fn settled(edge: spec_fn(int, int) -> bool, marked: Seq<bool>, pending: Seq<usize>) -> bool {
    forall|i: int, j: int|
        #![trigger edge(i, j)]
        0 <= i < marked.len() && 0 <= j < marked.len() && marked[i] && edge(i, j) ==> marked[j]
            || pending.contains(i as usize)
}

/// Marks every entry that `row` holds and puts what is new on `pending`.
fn sweep(row: &Vec<bool>, marked: &mut Vec<bool>, pending: &mut Vec<usize>)
    requires
        old(marked)@.len() == row@.len(),
    ensures
        final(marked)@.len() == row@.len(),
        forall|j: int|
            0 <= j < row@.len() ==> #[trigger] final(marked)@[j] == (old(marked)@[j] || row@[j]),
        unmarked(final(marked)@) + final(pending)@.len() == unmarked(old(marked)@) + old(
            pending,
        )@.len(),
        forall|j: usize|
            #[trigger] final(pending)@.contains(j) <==> old(pending)@.contains(j) || (j
                < row@.len() && final(marked)@[j as int] && !old(marked)@[j as int]),
{
    let mut j: usize = 0;
    while j < row.len()
        invariant
            j <= row@.len(),
            old(marked)@.len() == row@.len(),
            marked@.len() == row@.len(),
            forall|i: int|
                0 <= i < j ==> #[trigger] marked@[i] == (old(marked)@[i] || row@[i]),
            forall|i: int| j <= i < row@.len() ==> #[trigger] marked@[i] == old(marked)@[i],
            unmarked(marked@) + pending@.len() == unmarked(old(marked)@) + old(pending)@.len(),
            forall|i: usize|
                #[trigger] pending@.contains(i) <==> old(pending)@.contains(i) || (i < row@.len()
                    && marked@[i as int] && !old(marked)@[i as int]),
        decreases row@.len() - j,
    {
        let seen: bool = marked[j];
        if !seen && row[j] {
            let ghost m = marked@;
            let ghost p = pending@;
            proof {
                lemma_mark(m, j as int);
            }
            marked.set(j, true);
            pending.push(j);
            assert forall|i: usize| #[trigger] pending@.contains(i) <==> old(pending)@.contains(i)
                || (i < row@.len() && marked@[i as int] && !old(marked)@[i as int]) by {
                assert(p.push(j)[p.len() as int] == j);
                if p.contains(i) {
                    let k = choose|k: int| 0 <= k < p.len() && p[k] == i;
                    assert(p.push(j)[k] == i);
                }
                if i != j && i < row@.len() {
                    assert(marked@[i as int] == m[i as int]);
                }
            }
        }
        j += 1;
    }
}

/// The nodes reachable in the graph whose roots are `start` and whose edges are
/// `rows`; `root` and `edge` say the same of all integers.
pub(crate) fn reach(
    start: &Vec<bool>,
    rows: &Vec<Vec<bool>>,
    Ghost(root): Ghost<spec_fn(int) -> bool>,
    Ghost(edge): Ghost<spec_fn(int, int) -> bool>,
) -> (r: Vec<bool>)
    requires
        start@.len() == rows@.len(),
        forall|i: int| 0 <= i < rows@.len() ==> (#[trigger] rows@[i])@.len() == rows@.len(),
        forall|i: int| #[trigger] root(i) ==> 0 <= i < rows@.len(),
        forall|i: int, j: int| #[trigger]
            edge(i, j) ==> 0 <= i < rows@.len() && 0 <= j < rows@.len(),
        forall|i: int| 0 <= i < start@.len() ==> #[trigger] start@[i] == root(i),
        forall|i: int, j: int|
            0 <= i < rows@.len() && 0 <= j < rows@.len() ==> #[trigger] rows@[i]@[j] == edge(i, j),
    ensures
        r@.len() == rows@.len(),
        forall|j: int| 0 <= j < r@.len() ==> #[trigger] r@[j] == reached(root, edge, j),
{
    let n: usize = start.len();
    let mut marked: Vec<bool> = Vec::new();
    let mut pending: Vec<usize> = Vec::new();
    let mut j: usize = 0;
    while j < n
        invariant
            j <= n,
            marked@.len() == j,
            forall|i: int| 0 <= i < j ==> !#[trigger] marked@[i],
        decreases n - j,
    {
        marked.push(false);
        j += 1;
    }
    sweep(start, &mut marked, &mut pending);
    assert forall|i: int| 0 <= i < n && #[trigger] marked@[i] implies reached(root, edge, i) by {
        assert(within(root, edge, 0, i));
    }
    assert(settled(edge, marked@, pending@)) by {
        assert forall|i: int, j: int|
            #![trigger edge(i, j)]
            0 <= i < n && 0 <= j < n && marked@[i] && edge(i, j) implies marked@[j]
            || pending@.contains(i as usize) by {
            assert(pending@.contains(i as usize));
        }
    }
    while pending.len() > 0
        invariant
            marked@.len() == n == rows@.len(),
            forall|i: int| 0 <= i < rows@.len() ==> (#[trigger] rows@[i])@.len() == n,
            forall|i: int, j: int|
                0 <= i < n && 0 <= j < n ==> #[trigger] rows@[i]@[j] == edge(i, j),
            forall|i: int| 0 <= i < n && root(i) ==> #[trigger] marked@[i],
            forall|i: int| 0 <= i < n && #[trigger] marked@[i] ==> reached(root, edge, i),
            forall|i: usize| #[trigger] pending@.contains(i) ==> i < n && marked@[i as int],
            settled(edge, marked@, pending@),
        decreases unmarked(marked@) + pending@.len(),
    {
        let ghost p = pending@;
        let ghost m = marked@;
        if let Some(i) = pending.pop() {
            assert(p.contains(i));
            let ghost q = pending@;
            assert forall|x: usize| q.contains(x) implies p.contains(x) by {
                let k = choose|k: int| 0 <= k < q.len() && q[k] == x;
                assert(p[k] == x);
            }
            sweep(&rows[i], &mut marked, &mut pending);
            assert forall|j: int| 0 <= j < n && #[trigger] marked@[j] implies reached(
                root,
                edge,
                j,
            ) by {
                if !m[j] {
                    assert(rows@[i as int]@[j]);
                    lemma_reached_closed(root, edge, i as int, j);
                }
            }
            assert(settled(edge, marked@, pending@)) by {
                assert forall|a: int, b: int|
                    #![trigger edge(a, b)]
                    0 <= a < n && 0 <= b < n && marked@[a] && edge(a, b) implies marked@[b]
                    || pending@.contains(a as usize) by {
                    if m[a] {
                        if a == i as int {
                            assert(rows@[a]@[b]);
                        } else if !m[b] {
                            assert(p.contains(a as usize));
                            let k = choose|k: int| 0 <= k < p.len() && p[k] == a as usize;
                            assert(q[k] == a as usize);
                            assert(q.contains(a as usize));
                        }
                    } else {
                        assert(pending@.contains(a as usize));
                    }
                }
            }
        }
    }
    let ghost s = |i: int| 0 <= i < n && marked@[i];
    assert forall|j: int| 0 <= j < n implies #[trigger] marked@[j] == reached(root, edge, j) by {
        if reached(root, edge, j) {
            assert forall|a: int, b: int| s(a) && #[trigger] edge(a, b) implies s(b) by {
                assert(pending@ =~= Seq::<usize>::empty());
                assert(!pending@.contains(a as usize));
            }
            lemma_reached_least(root, edge, s, j);
        }
    }
    marked
}

} // verus!
