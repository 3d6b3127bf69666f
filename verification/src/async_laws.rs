//! When a program needs the async runtime, stated over the syntax tree.
use crate::ast::{Expr, ExprKind, ExtensionMember, ExternMember, Function, Item};
use crate::async_req::{
    bare_item, is_async_node, is_free, is_sync_item, is_sync_member, item_nodes, item_roots, leads,
    lemma_nodes_concat, linked, member_nodes, needs_async, nodes, reached, reaches, rooted, roots,
    some_leads, suspends, Node,
};
use crate::graph;
use crate::lint::tree::occurs;
use crate::lint::tree;
use crate::lint::tree_laws::{
    law_block_walk_is_complete, law_expr_walk_is_complete, law_function_walk_is_complete,
};
use crate::lint::walk::function_walk;
use crate::text::starts;
use vstd::prelude::*;

verus! {

// ---------------------------------------------------------------------------
// Bodies and roots
// ---------------------------------------------------------------------------

/// `bare` is the item, or stands behind its attribute.
pub open spec fn stands_behind(item: Item, bare: Item) -> bool {
    match item {
        Item::Attributed { item: inner, .. } => *inner == bare,
        _ => item == bare,
    }
}

/// The item declares the function `f`: a free one, or a method of a class or an
/// extension.
pub open spec fn declares_body(item: Item, method: bool, f: Function) -> bool {
    exists|bare: Item| #[trigger]
        stands_behind(item, bare) && {
            ||| !method && bare == Item::Function(f)
            ||| method && (bare matches Item::Class(c) && c.methods@.contains(f))
            ||| method && (bare matches Item::Extension(x) && x.members@.contains(
                ExtensionMember::Function(f),
            ))
        }
}

/// The expression stands in something that runs before `main`: an initialiser,
/// or the value of a global variable.
pub open spec fn runs_first(item: Item, e: Expr) -> bool {
    exists|bare: Item| #[trigger]
        stands_behind(item, bare) && {
            ||| bare matches Item::Init(b) && occurs(tree::Node::Block(b), e)
            ||| bare matches Item::Var(v) && (v.init matches Some(x) && occurs(
                tree::Node::Expr(x),
                e,
            ))
        }
}

proof fn lemma_members(ms: Seq<ExtensionMember>, n: Node)
    ensures
        member_nodes(ms).contains(n) <==> n.method && ms.contains(
            ExtensionMember::Function(*n.func),
        ),
    decreases ms.len(),
{
    let s = member_nodes(ms);
    if ms.len() > 0 {
        let t = ms.drop_last();
        let a = member_nodes(t);
        lemma_members(t, n);
        let m = ExtensionMember::Function(*n.func);
        if t.contains(m) {
            let i = choose|i: int| 0 <= i < t.len() && t[i] == m;
            assert(ms[i] == m);
        }
        if ms.contains(m) {
            let i = choose|i: int| 0 <= i < ms.len() && ms[i] == m;
            if i < t.len() {
                assert(t[i] == m);
            } else if n.method {
                assert(s.last() == n);
                assert(s[s.len() - 1] == n);
            }
        }
        if a.contains(n) {
            let i = choose|i: int| 0 <= i < a.len() && a[i] == n;
            assert(s[i] == n);
        }
        if s.contains(n) {
            let i = choose|i: int| 0 <= i < s.len() && s[i] == n;
            if i < a.len() {
                assert(a[i] == n);
            } else {
                assert(ms[ms.len() - 1] == m);
            }
        }
    }
}

proof fn lemma_item_bodies(item: Item, n: Node)
    ensures
        item_nodes(item).contains(n) <==> declares_body(item, n.method, *n.func),
{
    let bare = bare_item(item);
    let s = item_nodes(item);
    assert(stands_behind(item, bare));
    assert(forall|b: Item| #[trigger] stands_behind(item, b) ==> b == bare);
    match bare {
        Item::Function(f) => {
            assert(s[0] == (Node { method: false, func: &f }));
        },
        Item::Class(c) => {
            if s.contains(n) {
                let i = choose|i: int| 0 <= i < s.len() && s[i] == n;
                assert(c.methods@[i] == *n.func);
            }
            if n.method && c.methods@.contains(*n.func) {
                let i = choose|i: int| 0 <= i < c.methods@.len() && c.methods@[i] == *n.func;
                assert(s[i] == n);
            }
        },
        Item::Extension(x) => lemma_members(x.members@, n),
        _ => {},
    }
}

proof fn lemma_item_roots(item: Item, e: &Expr)
    ensures
        item_roots(item).contains(e) <==> runs_first(item, *e),
{
    let bare = bare_item(item);
    assert(stands_behind(item, bare));
    assert(forall|b: Item| #[trigger] stands_behind(item, b) ==> b == bare);
    match bare {
        Item::Init(b) => law_block_walk_is_complete(&b, e),
        Item::Var(v) => match v.init {
            Some(x) => law_expr_walk_is_complete(&x, e),
            None => {},
        },
        _ => {},
    }
}

/// The bodies of the call graph are those that the items declare, and no others.
pub proof fn law_bodies_are_declared(items: Seq<Item>, n: Node)
    ensures
        nodes(items).contains(n) <==> exists|i: int|
            0 <= i < items.len() && declares_body(#[trigger] items[i], n.method, *n.func),
    decreases items.len(),
{
    if items.len() > 0 {
        let t = items.drop_last();
        let a = nodes(t);
        let b = item_nodes(items.last());
        let s = nodes(items);
        law_bodies_are_declared(t, n);
        lemma_item_bodies(items.last(), n);
        if s.contains(n) {
            let k = choose|k: int| 0 <= k < s.len() && s[k] == n;
            if k < a.len() {
                assert(a[k] == n);
                let i = choose|i: int|
                    0 <= i < t.len() && declares_body(#[trigger] t[i], n.method, *n.func);
                assert(items[i] == t[i]);
            } else {
                assert(b[k - a.len()] == n);
                assert(declares_body(items[items.len() - 1], n.method, *n.func));
            }
        }
        if exists|i: int|
            0 <= i < items.len() && declares_body(#[trigger] items[i], n.method, *n.func) {
            let i = choose|i: int|
                0 <= i < items.len() && declares_body(#[trigger] items[i], n.method, *n.func);
            if i < t.len() {
                assert(t[i] == items[i]);
                let k = choose|k: int| 0 <= k < a.len() && a[k] == n;
                assert(s[k] == n);
            } else {
                let k = choose|k: int| 0 <= k < b.len() && b[k] == n;
                assert(s[a.len() + k] == n);
            }
        }
    }
}

/// What runs before `main` is what stands in initialisers and in the values of
/// global variables, at any depth.
pub proof fn law_roots_run_first(items: Seq<Item>, e: &Expr)
    ensures
        roots(items).contains(e) <==> exists|i: int|
            0 <= i < items.len() && runs_first(#[trigger] items[i], *e),
    decreases items.len(),
{
    if items.len() > 0 {
        let t = items.drop_last();
        let a = roots(t);
        let b = item_roots(items.last());
        let s = roots(items);
        law_roots_run_first(t, e);
        lemma_item_roots(items.last(), e);
        if s.contains(e) {
            let k = choose|k: int| 0 <= k < s.len() && s[k] == e;
            if k < a.len() {
                assert(a[k] == e);
                let i = choose|i: int| 0 <= i < t.len() && runs_first(#[trigger] t[i], *e);
                assert(items[i] == t[i]);
            } else {
                assert(b[k - a.len()] == e);
                assert(runs_first(items[items.len() - 1], *e));
            }
        }
        if exists|i: int| 0 <= i < items.len() && runs_first(#[trigger] items[i], *e) {
            let i = choose|i: int| 0 <= i < items.len() && runs_first(#[trigger] items[i], *e);
            if i < t.len() {
                assert(t[i] == items[i]);
                let k = choose|k: int| 0 <= k < a.len() && a[k] == e;
                assert(s[k] == e);
            } else {
                let k = choose|k: int| 0 <= k < b.len() && b[k] == e;
                assert(s[a.len() + k] == e);
            }
        }
    }
}

/// Bodies come in the order of the source, so that the last declaration of a name
/// is the last in the source.
pub proof fn law_bodies_come_in_source_order(before: Seq<Item>, after: Seq<Item>)
    ensures
        nodes(before + after) == nodes(before) + nodes(after),
{
    lemma_nodes_concat(before, after);
}

// ---------------------------------------------------------------------------
// Calls
// ---------------------------------------------------------------------------

/// The expression, its parts aside, may run the body: a call runs the free
/// function of that name, a method call the methods of that name, and a bare name
/// stands for both. Of several free functions the last declared counts.
pub open spec fn may_run(ns: Seq<Node>, e: Expr, j: int) -> bool {
    &&& 0 <= j < ns.len()
    &&& if ns[j].method {
        ||| e.kind matches ExprKind::MethodCall { method, .. } && method@ == ns[j].func.name@
        ||| e.kind matches ExprKind::Ident(n) && n@ == ns[j].func.name@
    } else {
        &&& {
            ||| e.kind matches ExprKind::Call { callee, .. } && callee@ == ns[j].func.name@
            ||| e.kind matches ExprKind::Ident(n) && n@ == ns[j].func.name@
        }
        &&& is_last_free(ns, j)
    }
}

/// No free function of the same name is declared behind this one.
pub open spec fn is_last_free(ns: Seq<Node>, j: int) -> bool {
    forall|k: int|
        j < k < ns.len() && !(#[trigger] ns[k]).method ==> ns[k].func.name@ != ns[j].func.name@
}

/// The expression waits for a task or starts one.
pub open spec fn waits(e: Expr) -> bool {
    e.kind is Await || e.kind is Spawn
}

/// The body starts the program.
pub open spec fn starts_program(items: Seq<Item>, j: int) -> bool {
    let ns = nodes(items);
    &&& 0 <= j < ns.len()
    &&& {
        ||| !ns[j].method && ns[j].func.name@ == "main"@ && is_last_free(ns, j)
        ||| exists|i: int, e: Expr|
            0 <= i < items.len() && #[trigger] runs_first(items[i], e) && may_run(ns, e, j)
    }
}

/// Calls lead along the chain of bodies from the start of the program.
pub open spec fn is_call_chain(items: Seq<Item>, chain: Seq<int>) -> bool {
    let ns = nodes(items);
    &&& chain.len() > 0
    &&& starts_program(items, chain[0])
    &&& forall|k: int|
        0 <= k < chain.len() - 1 ==> 0 <= #[trigger] chain[k] < ns.len() && exists|e: Expr|
            #[trigger]
            occurs(tree::Node::Function(*ns[chain[k]].func), e) && may_run(ns, e, chain[k + 1])
}

/// The body cannot run without the runtime: it is async, or something in it
/// waits.
pub open spec fn is_waiting(f: Function) -> bool {
    f.is_async || exists|e: Expr| #[trigger] occurs(tree::Node::Function(f), e) && waits(e)
}

proof fn lemma_may_run(ns: Seq<Node>, e: Expr, j: int)
    ensures
        leads(ns, e, j) <==> may_run(ns, e, j),
{
    if 0 <= j < ns.len() {
        if !ns[j].method && is_last_free(ns, j) {
            assert(is_free(ns, ns[j].func.name@, j));
        }
        if is_free(ns, ns[j].func.name@, j) {
            assert(is_last_free(ns, j));
        }
    }
}

proof fn lemma_linked(ns: Seq<Node>, i: int, j: int)
    requires
        0 <= i < ns.len(),
    ensures
        linked(ns, i, j) <==> exists|e: Expr| #[trigger]
            occurs(tree::Node::Function(*ns[i].func), e) && may_run(ns, e, j),
{
    let f = ns[i].func;
    let es = function_walk(f);
    if linked(ns, i, j) {
        let x = choose|x: int| 0 <= x < es.len() && leads(ns, *#[trigger] es[x], j);
        assert(es.contains(es[x]));
        law_function_walk_is_complete(f, es[x]);
        lemma_may_run(ns, *es[x], j);
    }
    if exists|e: Expr| #[trigger] occurs(tree::Node::Function(*f), e) && may_run(ns, e, j) {
        let e = choose|e: Expr| #[trigger]
            occurs(tree::Node::Function(*f), e) && may_run(ns, e, j);
        law_function_walk_is_complete(f, &e);
        let x = choose|x: int| 0 <= x < es.len() && es[x] == &e;
        lemma_may_run(ns, e, j);
        assert(leads(ns, *es[x], j));
    }
}

proof fn lemma_rooted(items: Seq<Item>, j: int)
    ensures
        rooted(items, j) <==> starts_program(items, j),
{
    let ns = nodes(items);
    let es = roots(items);
    if 0 <= j < ns.len() {
        if is_free(ns, "main"@, j) {
            assert(is_last_free(ns, j));
        }
        if !ns[j].method && ns[j].func.name@ == "main"@ && is_last_free(ns, j) {
            assert(is_free(ns, "main"@, j));
        }
    }
    if some_leads(ns, es, j) {
        let x = choose|x: int| 0 <= x < es.len() && leads(ns, *#[trigger] es[x], j);
        assert(es.contains(es[x]));
        law_roots_run_first(items, es[x]);
        lemma_may_run(ns, *es[x], j);
        let i = choose|i: int| 0 <= i < items.len() && runs_first(#[trigger] items[i], *es[x]);
        assert(runs_first(items[i], *es[x]));
    }
    if exists|i: int, e: Expr|
        0 <= i < items.len() && #[trigger] runs_first(items[i], e) && may_run(ns, e, j) {
        let (i, e) = choose|i: int, e: Expr|
            0 <= i < items.len() && #[trigger] runs_first(items[i], e) && may_run(ns, e, j);
        assert(runs_first(items[i], e));
        law_roots_run_first(items, &e);
        let x = choose|x: int| 0 <= x < es.len() && es[x] == &e;
        lemma_may_run(ns, e, j);
        assert(leads(ns, *es[x], j));
    }
}

/// A body is reachable exactly when calls lead to it from the start of the
/// program.
pub proof fn law_reachable_bodies_are_called(items: Seq<Item>, j: int)
    ensures
        reached(items, j) <==> exists|chain: Seq<int>| #[trigger]
            is_call_chain(items, chain) && chain.last() == j,
{
    let ns = nodes(items);
    let root = |i: int| rooted(items, i);
    let edge = |i: int, j: int| linked(nodes(items), i, j);
    graph::law_reached_by_a_route(root, edge, j);
    if reached(items, j) {
        let chain = choose|c: Seq<int>| #[trigger]
            graph::is_route(root, edge, c) && c.last() == j;
        lemma_rooted(items, chain[0]);
        assert forall|k: int| 0 <= k < chain.len() - 1 implies 0 <= #[trigger] chain[k]
            < ns.len() && exists|e: Expr| #[trigger]
            occurs(tree::Node::Function(*ns[chain[k]].func), e) && may_run(
                ns,
                e,
                chain[k + 1],
            ) by {
            assert(edge(chain[k], chain[k + 1]));
            lemma_linked(ns, chain[k], chain[k + 1]);
        }
        assert(is_call_chain(items, chain));
    }
    if exists|chain: Seq<int>| #[trigger] is_call_chain(items, chain) && chain.last() == j {
        let chain = choose|c: Seq<int>| #[trigger] is_call_chain(items, c) && c.last() == j;
        lemma_rooted(items, chain[0]);
        assert forall|k: int| 0 <= k < chain.len() - 1 implies edge(
            #[trigger] chain[k],
            chain[k + 1],
        ) by {
            lemma_linked(ns, chain[k], chain[k + 1]);
        }
        assert(graph::is_route(root, edge, chain));
    }
}

proof fn lemma_waiting(n: Node)
    ensures
        is_async_node(n) <==> is_waiting(*n.func),
{
    let es = function_walk(n.func);
    if suspends(es) {
        let x = choose|x: int|
            0 <= x < es.len() && ((#[trigger] es[x]).kind is Await || es[x].kind is Spawn);
        assert(es.contains(es[x]));
        law_function_walk_is_complete(n.func, es[x]);
        assert(waits(*es[x]));
    }
    if exists|e: Expr| #[trigger] occurs(tree::Node::Function(*n.func), e) && waits(e) {
        let e = choose|e: Expr| #[trigger]
            occurs(tree::Node::Function(*n.func), e) && waits(e);
        law_function_walk_is_complete(n.func, &e);
        let x = choose|x: int| 0 <= x < es.len() && es[x] == &e;
        assert(es[x].kind is Await || es[x].kind is Spawn);
    }
}

/// A program needs the runtime exactly when something that runs before `main`
/// waits, or calls lead from the start of the program to a body that is async or
/// waits somewhere in it.
pub proof fn law_runtime_is_needed_where_something_waits(items: Seq<Item>)
    ensures
        needs_async(items) <==> {
            ||| exists|i: int, e: Expr|
                0 <= i < items.len() && #[trigger] runs_first(items[i], e) && waits(e)
            ||| exists|chain: Seq<int>| #[trigger]
                is_call_chain(items, chain) && is_waiting(*nodes(items)[chain.last()].func)
        },
{
    let ns = nodes(items);
    let es = roots(items);
    if suspends(es) {
        let x = choose|x: int|
            0 <= x < es.len() && ((#[trigger] es[x]).kind is Await || es[x].kind is Spawn);
        assert(es.contains(es[x]));
        law_roots_run_first(items, es[x]);
        let i = choose|i: int| 0 <= i < items.len() && runs_first(#[trigger] items[i], *es[x]);
        assert(runs_first(items[i], *es[x]) && waits(*es[x]));
    }
    if exists|i: int, e: Expr|
        0 <= i < items.len() && #[trigger] runs_first(items[i], e) && waits(e) {
        let (i, e) = choose|i: int, e: Expr|
            0 <= i < items.len() && #[trigger] runs_first(items[i], e) && waits(e);
        assert(runs_first(items[i], e));
        law_roots_run_first(items, &e);
        let x = choose|x: int| 0 <= x < es.len() && es[x] == &e;
        assert(es[x].kind is Await || es[x].kind is Spawn);
    }
    if exists|j: int|
        0 <= j < ns.len() && reached(items, j) && is_async_node(#[trigger] nodes(items)[j]) {
        let j = choose|j: int|
            0 <= j < ns.len() && reached(items, j) && is_async_node(#[trigger] nodes(items)[j]);
        lemma_waiting(ns[j]);
        law_reachable_bodies_are_called(items, j);
    }
    if exists|chain: Seq<int>| #[trigger]
        is_call_chain(items, chain) && is_waiting(*nodes(items)[chain.last()].func) {
        let chain = choose|chain: Seq<int>| #[trigger]
            is_call_chain(items, chain) && is_waiting(*nodes(items)[chain.last()].func);
        let j = chain.last();
        law_reachable_bodies_are_called(items, j);
        lemma_waiting(ns[j]);
        assert(0 <= j < ns.len()) by {
            if chain.len() > 1 {
                let k = chain.len() - 2;
                assert(0 <= chain[k] < ns.len());
                let e = choose|e: Expr| #[trigger]
                    occurs(tree::Node::Function(*ns[chain[k]].func), e) && may_run(
                        ns,
                        e,
                        chain[k + 1],
                    );
                assert(may_run(ns, e, chain[k + 1]));
            }
        }
        assert(is_async_node(nodes(items)[j]));
    }
}

/// The reachable names are those of the free functions that calls lead to.
pub proof fn law_reachable_names_are_called(items: Seq<Item>, name: Seq<char>)
    ensures
        reaches(items, name) <==> exists|chain: Seq<int>| #[trigger]
            is_call_chain(items, chain) && is_free(nodes(items), name, chain.last()),
{
    if reaches(items, name) {
        let j = choose|j: int| is_free(nodes(items), name, j) && reached(items, j);
        law_reachable_bodies_are_called(items, j);
    }
    if exists|chain: Seq<int>| #[trigger]
        is_call_chain(items, chain) && is_free(nodes(items), name, chain.last()) {
        let chain = choose|chain: Seq<int>| #[trigger]
            is_call_chain(items, chain) && is_free(nodes(items), name, chain.last());
        law_reachable_bodies_are_called(items, chain.last());
    }
}

// ---------------------------------------------------------------------------
// The sync runtime
// ---------------------------------------------------------------------------

/// An item asks for the sync runtime exactly when it declares as foreign a
/// function for mutexes, channels, clocks, TCP or sleeping. Foreign types and
/// constants never do.
pub proof fn law_sync_runtime_is_asked_for_by_name(item: Item)
    ensures
        is_sync_item(item) <==> exists|bare: Item, i: int, name: Seq<char>|
            #![trigger stands_behind(item, bare), foreign_function(bare, i, name)]
            stands_behind(item, bare) && foreign_function(bare, i, name) && {
                ||| starts(name, "hella_mutex_"@)
                ||| starts(name, "hella_chan_"@)
                ||| starts(name, "hella_wall_"@)
                ||| starts(name, "hella_monotonic_"@)
                ||| starts(name, "hella_tcp_"@)
                ||| name == "hella_sleep_ms"@
            },
{
    let bare = bare_item(item);
    assert(stands_behind(item, bare));
    assert(forall|b: Item| #[trigger] stands_behind(item, b) ==> b == bare);
    if is_sync_item(item) {
        let b = bare->Extern_0;
        let i = choose|i: int| 0 <= i < b.members@.len() && is_sync_member(#[trigger] b.members@[i]);
        assert(foreign_function(bare, i, b.members@[i]->Function_name@));
    }
    if exists|bare: Item, i: int, name: Seq<char>|
        #![trigger stands_behind(item, bare), foreign_function(bare, i, name)]
        stands_behind(item, bare) && foreign_function(bare, i, name) && {
            ||| starts(name, "hella_mutex_"@)
            ||| starts(name, "hella_chan_"@)
            ||| starts(name, "hella_wall_"@)
            ||| starts(name, "hella_monotonic_"@)
            ||| starts(name, "hella_tcp_"@)
            ||| name == "hella_sleep_ms"@
        } {
        let (b2, i, name) = choose|bare: Item, i: int, name: Seq<char>|
            #![trigger stands_behind(item, bare), foreign_function(bare, i, name)]
            stands_behind(item, bare) && foreign_function(bare, i, name) && {
                ||| starts(name, "hella_mutex_"@)
                ||| starts(name, "hella_chan_"@)
                ||| starts(name, "hella_wall_"@)
                ||| starts(name, "hella_monotonic_"@)
                ||| starts(name, "hella_tcp_"@)
                ||| name == "hella_sleep_ms"@
            };
        assert(is_sync_member(bare->Extern_0.members@[i]));
    }
}

/// Member `i` of a foreign block is a function of this name.
pub open spec fn foreign_function(item: Item, i: int, name: Seq<char>) -> bool {
    item matches Item::Extern(b) && 0 <= i < b.members@.len() && (
    b.members@[i] matches ExternMember::Function { name: n, .. } && n@ == name)
}

} // verus!
