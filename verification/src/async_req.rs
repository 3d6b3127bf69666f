//! Which programs need the async runtime.
//!
//! The runtime is linked only when the program can reach async code, which is
//! a question about the call graph: importing a module that declares an async
//! function nobody calls must not pull the runtime in.
//!
//! * Roots are `main`, `init` blocks and global variable initializers.
//! * A call leads to the free function it names, a method call to every method
//!   of that name, and a bare identifier to both, since a function value is
//!   called where the compiler cannot see it.
//! * `spawn` and `await` in reachable code need the runtime, and so does any
//!   reachable async function or method, an async `main` among them.
use crate::ast::{Expr, ExprKind, ExtensionMember, ExternMember, Function, Item, Program};
use crate::graph;
use crate::lint::walk::{block_exprs, block_walk, exprs, function_exprs, function_walk, opt_walk};
use crate::names::NameSet;
use crate::text::{chars_of, same, starts, starts_with};
use vstd::prelude::*;

verus! {

/// Result of the reachability analysis.
#[derive(Debug)]
pub struct AsyncReach {
    /// The program needs the async runtime linked.
    pub needed: bool,
    /// Names of the free functions reachable from the roots. An async
    /// declaration outside this set is not emitted.
    pub reachable: NameSet,
}

/// A body that calls can lead to.
pub struct Node<'a> {
    pub method: bool,
    pub func: &'a Function,
}

// ---------------------------------------------------------------------------
// The call graph
// ---------------------------------------------------------------------------

/// The item behind its attributes.
pub open spec fn bare_item(item: Item) -> Item {
    match item {
        Item::Attributed { item: inner, .. } => *inner,
        other => other,
    }
}

pub open spec fn method_nodes<'a>(fs: Seq<Function>) -> Seq<Node<'a>> {
    Seq::new(fs.len(), |i: int| Node { method: true, func: &fs[i] })
}

pub open spec fn member_nodes<'a>(ms: Seq<ExtensionMember>) -> Seq<Node<'a>>
    decreases ms.len(),
{
    if ms.len() == 0 {
        Seq::empty()
    } else {
        match ms.last() {
            ExtensionMember::Function(f) => member_nodes(ms.drop_last()).push(
                Node { method: true, func: &f },
            ),
            _ => member_nodes(ms.drop_last()),
        }
    }
}

/// The bodies an item declares.
pub open spec fn item_nodes<'a>(item: Item) -> Seq<Node<'a>> {
    match bare_item(item) {
        Item::Function(f) => seq![Node { method: false, func: &f }],
        Item::Class(c) => method_nodes(c.methods@),
        Item::Extension(e) => member_nodes(e.members@),
        _ => Seq::empty(),
    }
}

/// The bodies of a program: free functions, class methods, extension methods.
pub open spec fn nodes<'a>(items: Seq<Item>) -> Seq<Node<'a>>
    decreases items.len(),
{
    if items.len() == 0 {
        Seq::empty()
    } else {
        nodes(items.drop_last()) + item_nodes(items.last())
    }
}

/// What an item runs before `main`.
pub open spec fn item_roots<'a>(item: Item) -> Seq<&'a Expr> {
    match bare_item(item) {
        Item::Init(b) => block_walk(&b),
        Item::Var(v) => opt_walk(&v.init),
        _ => Seq::empty(),
    }
}

/// Every expression that runs before `main`.
pub open spec fn roots<'a>(items: Seq<Item>) -> Seq<&'a Expr>
    decreases items.len(),
{
    if items.len() == 0 {
        Seq::empty()
    } else {
        roots(items.drop_last()) + item_roots(items.last())
    }
}

/// Node `j` is the free function `name`; the last declaration of a name counts.
pub open spec fn is_free(ns: Seq<Node>, name: Seq<char>, j: int) -> bool {
    &&& 0 <= j < ns.len()
    &&& !ns[j].method
    &&& ns[j].func.name@ == name
    &&& forall|k: int|
        j < k < ns.len() ==> (#[trigger] ns[k]).method || ns[k].func.name@ != name
}

/// Node `j` is a method called `name`.
pub open spec fn is_method(ns: Seq<Node>, name: Seq<char>, j: int) -> bool {
    0 <= j < ns.len() && ns[j].method && ns[j].func.name@ == name
}

/// Expression `e`, its children aside, leads to node `j`.
pub open spec fn leads(ns: Seq<Node>, e: Expr, j: int) -> bool {
    match e.kind {
        ExprKind::Call { callee, .. } => is_free(ns, callee@, j),
        ExprKind::MethodCall { method, .. } => is_method(ns, method@, j),
        ExprKind::Ident(name) => is_free(ns, name@, j) || is_method(ns, name@, j),
        _ => false,
    }
}

/// One of the expressions leads to node `j`.
pub open spec fn some_leads(ns: Seq<Node>, es: Seq<&Expr>, j: int) -> bool {
    exists|x: int| 0 <= x < es.len() && leads(ns, *#[trigger] es[x], j)
}

/// Node `j` is called from the outside or from a root.
pub open spec fn rooted(items: Seq<Item>, j: int) -> bool {
    is_free(nodes(items), "main"@, j) || some_leads(nodes(items), roots(items), j)
}

/// The body of node `i` leads to node `j`.
pub open spec fn linked(ns: Seq<Node>, i: int, j: int) -> bool {
    0 <= i < ns.len() && some_leads(ns, function_walk(ns[i].func), j)
}

/// Node `j` is reachable.
pub open spec fn reached(items: Seq<Item>, j: int) -> bool {
    graph::reached(
        |i: int| rooted(items, i),
        |i: int, j: int| linked(nodes(items), i, j),
        j,
    )
}

/// One of the expressions is an `await` or a `spawn`.
pub open spec fn suspends(es: Seq<&Expr>) -> bool {
    exists|x: int|
        0 <= x < es.len() && ((#[trigger] es[x]).kind is Await || es[x].kind is Spawn)
}

/// A body that cannot run without the async runtime.
pub open spec fn is_async_node(n: Node) -> bool {
    n.func.is_async || suspends(function_walk(n.func))
}

/// The program needs the async runtime.
pub open spec fn needs_async(items: Seq<Item>) -> bool {
    suspends(roots(items)) || exists|j: int|
        0 <= j < nodes(items).len() && reached(items, j) && is_async_node(
            #[trigger] nodes(items)[j],
        )
}

/// `name` names a reachable free function.
pub open spec fn reaches(items: Seq<Item>, name: Seq<char>) -> bool {
    exists|j: int| is_free(nodes(items), name, j) && reached(items, j)
}

// ---------------------------------------------------------------------------
// Reading the program
// ---------------------------------------------------------------------------

fn unwrap_attr<'a>(item: &'a Item) -> (r: &'a Item)
    ensures
        *r == bare_item(*item),
{
    match item {
        Item::Attributed { item: inner, .. } => &**inner,
        other => other,
    }
}

fn add_methods<'a>(fs: &'a Vec<Function>, out: &mut Vec<Node<'a>>)
    ensures
        final(out)@ == old(out)@ + method_nodes(fs@),
{
    let mut i: usize = 0;
    while i < fs.len()
        invariant
            i <= fs@.len(),
            out@ =~= old(out)@ + method_nodes(fs@.take(i as int)),
        decreases fs@.len() - i,
    {
        out.push(Node { method: true, func: &fs[i] });
        i += 1;
    }
    assert(fs@.take(i as int) =~= fs@);
}

fn add_members<'a>(ms: &'a Vec<ExtensionMember>, out: &mut Vec<Node<'a>>)
    ensures
        final(out)@ == old(out)@ + member_nodes(ms@),
{
    let mut i: usize = 0;
    assert(out@ =~= old(out)@ + member_nodes(ms@.take(0)));
    while i < ms.len()
        invariant
            i <= ms@.len(),
            out@ == old(out)@ + member_nodes(ms@.take(i as int)),
        decreases ms@.len() - i,
    {
        if let ExtensionMember::Function(f) = &ms[i] {
            out.push(Node { method: true, func: f });
        }
        assert(ms@.take(i + 1).drop_last() =~= ms@.take(i as int));
        assert(out@ =~= old(out)@ + member_nodes(ms@.take(i + 1)));
        i += 1;
    }
    assert(ms@.take(i as int) =~= ms@);
}

fn collect_nodes<'a>(items: &'a Vec<Item>) -> (r: Vec<Node<'a>>)
    ensures
        r@ == nodes(items@),
{
    let mut out: Vec<Node<'a>> = Vec::new();
    let mut i: usize = 0;
    assert(out@ =~= nodes(items@.take(0)));
    while i < items.len()
        invariant
            i <= items@.len(),
            out@ == nodes(items@.take(i as int)),
        decreases items@.len() - i,
    {
        match unwrap_attr(&items[i]) {
            Item::Function(f) => {
                out.push(Node { method: false, func: f });
            },
            Item::Class(c) => add_methods(&c.methods, &mut out),
            Item::Extension(e) => add_members(&e.members, &mut out),
            _ => {},
        }
        assert(items@.take(i + 1).drop_last() =~= items@.take(i as int));
        assert(out@ =~= nodes(items@.take(i + 1)));
        i += 1;
    }
    assert(items@.take(i as int) =~= items@);
    out
}

fn collect_roots<'a>(items: &'a Vec<Item>) -> (r: Vec<&'a Expr>)
    ensures
        r@ == roots(items@),
{
    let mut out: Vec<&'a Expr> = Vec::new();
    let mut i: usize = 0;
    assert(out@ =~= roots(items@.take(0)));
    while i < items.len()
        invariant
            i <= items@.len(),
            out@ == roots(items@.take(i as int)),
        decreases items@.len() - i,
    {
        match unwrap_attr(&items[i]) {
            Item::Init(b) => {
                let mut es = block_exprs(b);
                out.append(&mut es);
            },
            Item::Var(v) => {
                if let Some(e) = &v.init {
                    let mut es = exprs(e);
                    out.append(&mut es);
                }
            },
            _ => {},
        }
        assert(items@.take(i + 1).drop_last() =~= items@.take(i as int));
        assert(out@ =~= roots(items@.take(i + 1)));
        i += 1;
    }
    assert(items@.take(i as int) =~= items@);
    out
}

fn is_free_node(ns: &Vec<Node>, name: &str, j: usize) -> (r: bool)
    requires
        j < ns@.len(),
    ensures
        r == is_free(ns@, name@, j as int),
{
    if ns[j].method || !same(ns[j].func.name.as_str(), name) {
        return false;
    }
    let n: usize = ns.len();
    let mut k: usize = j + 1;
    while k < n
        invariant
            j < k <= n == ns@.len(),
            forall|m: int|
                j < m < k ==> (#[trigger] ns@[m]).method || ns@[m].func.name@ != name@,
        decreases n - k,
    {
        if !ns[k].method && same(ns[k].func.name.as_str(), name) {
            return false;
        }
        k += 1;
    }
    true
}

fn is_method_node(ns: &Vec<Node>, name: &str, j: usize) -> (r: bool)
    requires
        j < ns@.len(),
    ensures
        r == is_method(ns@, name@, j as int),
{
    ns[j].method && same(ns[j].func.name.as_str(), name)
}

fn leads_to(ns: &Vec<Node>, e: &Expr, j: usize) -> (r: bool)
    requires
        j < ns@.len(),
    ensures
        r == leads(ns@, *e, j as int),
{
    match &e.kind {
        ExprKind::Call { callee, .. } => is_free_node(ns, callee.as_str(), j),
        ExprKind::MethodCall { method, .. } => is_method_node(ns, method.as_str(), j),
        ExprKind::Ident(name) => is_free_node(ns, name.as_str(), j) || is_method_node(
            ns,
            name.as_str(),
            j,
        ),
        _ => false,
    }
}

fn one_leads(ns: &Vec<Node>, es: &Vec<&Expr>, j: usize) -> (r: bool)
    requires
        j < ns@.len(),
    ensures
        r == some_leads(ns@, es@, j as int),
{
    let mut x: usize = 0;
    while x < es.len()
        invariant
            x <= es@.len(),
            j < ns@.len(),
            forall|y: int| 0 <= y < x ==> !leads(ns@, *#[trigger] es@[y], j as int),
        decreases es@.len() - x,
    {
        if leads_to(ns, es[x], j) {
            assert(leads(ns@, *es@[x as int], j as int));
            return true;
        }
        x += 1;
    }
    false
}

fn has_suspension(es: &Vec<&Expr>) -> (r: bool)
    ensures
        r == suspends(es@),
{
    let mut x: usize = 0;
    while x < es.len()
        invariant
            x <= es@.len(),
            forall|y: int|
                0 <= y < x ==> !((#[trigger] es@[y]).kind is Await) && !(es@[y].kind is Spawn),
        decreases es@.len() - x,
    {
        let e: &Expr = es[x];
        match &e.kind {
            ExprKind::Await { .. } => {
                assert(es@[x as int].kind is Await);
                return true;
            },
            ExprKind::Spawn { .. } => {
                assert(es@[x as int].kind is Spawn);
                return true;
            },
            _ => {},
        }
        x += 1;
    }
    false
}

// ---------------------------------------------------------------------------
// Reachability
// ---------------------------------------------------------------------------

/// Which nodes the expressions lead to.
fn targets(ns: &Vec<Node>, es: &Vec<&Expr>) -> (r: Vec<bool>)
    ensures
        r@.len() == ns@.len(),
        forall|j: int| 0 <= j < r@.len() ==> #[trigger] r@[j] == some_leads(ns@, es@, j),
{
    let mut out: Vec<bool> = Vec::new();
    let mut j: usize = 0;
    while j < ns.len()
        invariant
            j <= ns@.len(),
            out@.len() == j,
            forall|i: int| 0 <= i < j ==> #[trigger] out@[i] == some_leads(ns@, es@, i),
        decreases ns@.len() - j,
    {
        out.push(one_leads(ns, es, j));
        j += 1;
    }
    out
}

/// Which nodes are reachable.
fn reach(items: &Vec<Item>, ns: &Vec<Node>, rs: &Vec<&Expr>) -> (r: Vec<bool>)
    requires
        ns@ == nodes(items@),
        rs@ == roots(items@),
    ensures
        r@.len() == ns@.len(),
        forall|j: int| 0 <= j < r@.len() ==> #[trigger] r@[j] == reached(items@, j),
{
    let mut start = targets(ns, rs);
    let mut rows: Vec<Vec<bool>> = Vec::new();
    let mut j: usize = 0;
    while j < ns.len()
        invariant
            j <= ns@.len(),
            ns@ == nodes(items@),
            rs@ == roots(items@),
            start@.len() == ns@.len(),
            rows@.len() == j,
            forall|i: int| 0 <= i < j ==> #[trigger] start@[i] == rooted(items@, i),
            forall|i: int|
                j <= i < ns@.len() ==> #[trigger] start@[i] == some_leads(ns@, rs@, i),
            forall|i: int| 0 <= i < j ==> (#[trigger] rows@[i])@.len() == ns@.len(),
            forall|i: int, k: int|
                0 <= i < j && 0 <= k < ns@.len() ==> #[trigger] rows@[i]@[k] == linked(ns@, i, k),
        decreases ns@.len() - j,
    {
        let called: bool = start[j];
        let main: bool = is_free_node(ns, "main", j);
        start.set(j, called || main);
        let es = function_exprs(ns[j].func);
        rows.push(targets(ns, &es));
        j += 1;
    }
    graph::reach(
        &start,
        &rows,
        Ghost(|i: int| rooted(items@, i)),
        Ghost(|i: int, j: int| linked(nodes(items@), i, j)),
    )
}

/// Analyzes a program for async runtime requirements.
pub fn analyze(prog: &Program) -> (r: AsyncReach)
    ensures
        r.needed == needs_async(prog.items@),
        forall|name: Seq<char>| #[trigger]
            r.reachable@.contains(name) <==> reaches(prog.items@, name),
{
    let ns = collect_nodes(&prog.items);
    let rs = collect_roots(&prog.items);
    let marked = reach(&prog.items, &ns, &rs);
    let mut needed: bool = has_suspension(&rs);
    let mut reachable = NameSet::new();
    let mut j: usize = 0;
    let ghost items = prog.items@;
    while j < ns.len()
        invariant
            j <= ns@.len(),
            ns@ == nodes(items),
            marked@.len() == ns@.len(),
            forall|i: int| 0 <= i < marked@.len() ==> #[trigger] marked@[i] == reached(items, i),
            needed == (suspends(roots(items)) || exists|i: int|
                0 <= i < j && reached(items, i) && is_async_node(#[trigger] nodes(items)[i])),
            forall|name: Seq<char>| #[trigger]
                reachable@.contains(name) <==> exists|i: int|
                    i < j && is_free(nodes(items), name, i) && reached(items, i),
        decreases ns@.len() - j,
    {
        let ghost set = reachable@;
        let ghost was = needed;
        if marked[j] {
            let f: &Function = ns[j].func;
            let es = function_exprs(f);
            if f.is_async || has_suspension(&es) {
                needed = true;
                assert(is_async_node(nodes(items)[j as int]));
            }
            if is_free_node(&ns, f.name.as_str(), j) {
                let ghost n = f.name@;
                reachable.insert(f.name.clone());
                assert forall|name: Seq<char>| #[trigger]
                    reachable@.contains(name) <==> exists|i: int|
                        i < j + 1 && is_free(nodes(items), name, i) && reached(items, i) by {
                    if name == n {
                        assert(is_free(nodes(items), name, j as int) && reached(items, j as int));
                    } else {
                        assert(reachable@.contains(name) == set.contains(name));
                    }
                }
            }
        }
        j += 1;
    }
    assert forall|name: Seq<char>| #[trigger]
        reachable@.contains(name) <==> reaches(prog.items@, name) by {
        if reaches(items, name) {
            let i = choose|i: int| is_free(nodes(items), name, i) && reached(items, i);
            assert(i < j);
        }
    }
    AsyncReach { needed, reachable }
}

/// True when the program must link the async runtime.
pub fn uses_async_runtime(prog: &Program) -> (r: bool)
    ensures
        r == needs_async(prog.items@),
{
    analyze(prog).needed
}

// ---------------------------------------------------------------------------
// The sync runtime
// ---------------------------------------------------------------------------

/// A foreign function that the sync runtime provides: mutexes, channels,
/// clocks, TCP and sleeping.
pub open spec fn is_sync_name(name: Seq<char>) -> bool {
    ||| starts(name, "hella_mutex_"@)
    ||| starts(name, "hella_chan_"@)
    ||| starts(name, "hella_wall_"@)
    ||| starts(name, "hella_monotonic_"@)
    ||| starts(name, "hella_tcp_"@)
    ||| name == "hella_sleep_ms"@
}

pub open spec fn is_sync_member(m: ExternMember) -> bool {
    m matches ExternMember::Function { name, .. } && is_sync_name(name@)
}

pub open spec fn is_sync_item(item: Item) -> bool {
    bare_item(item) matches Item::Extern(b) && exists|i: int|
        0 <= i < b.members@.len() && is_sync_member(#[trigger] b.members@[i])
}

fn is_sync(name: &String) -> (r: bool)
    ensures
        r == is_sync_name(name@),
{
    let n = chars_of(name.as_str());
    starts_with(&n, "hella_mutex_") || starts_with(&n, "hella_chan_") || starts_with(
        &n,
        "hella_wall_",
    ) || starts_with(&n, "hella_monotonic_") || starts_with(&n, "hella_tcp_") || same(
        name.as_str(),
        "hella_sleep_ms",
    )
}

/// True when the program must link the sync runtime: it declares one of the
/// runtime's functions as foreign. Programs that declare none pay nothing.
pub fn uses_sync_runtime(prog: &Program) -> (r: bool)
    ensures
        r == exists|i: int| 0 <= i < prog.items@.len() && is_sync_item(#[trigger] prog.items@[i]),
{
    let mut i: usize = 0;
    while i < prog.items.len()
        invariant
            i <= prog.items@.len(),
            forall|j: int| 0 <= j < i ==> !is_sync_item(#[trigger] prog.items@[j]),
        decreases prog.items@.len() - i,
    {
        if let Item::Extern(block) = unwrap_attr(&prog.items[i]) {
            let mut k: usize = 0;
            while k < block.members.len()
                invariant
                    i < prog.items@.len(),
                    bare_item(prog.items@[i as int]) == Item::Extern(*block),
                    k <= block.members@.len(),
                    forall|j: int| 0 <= j < k ==> !is_sync_member(#[trigger] block.members@[j]),
                decreases block.members@.len() - k,
            {
                if let ExternMember::Function { name, .. } = &block.members[k] {
                    if is_sync(name) {
                        let ghost b = bare_item(prog.items@[i as int])->Extern_0;
                        assert(is_sync_member(b.members@[k as int]));
                        assert(is_sync_item(prog.items@[i as int]));
                        return true;
                    }
                }
                k += 1;
            }
        }
        i += 1;
    }
    false
}

// ---------------------------------------------------------------------------
// Laws
// ---------------------------------------------------------------------------

/// Everything a reachable body leads to is reachable, and so is every root.
pub proof fn law_reach_is_closed(items: Seq<Item>, i: int, j: int)
    ensures
        rooted(items, j) ==> reached(items, j),
        reached(items, i) && linked(nodes(items), i, j) ==> reached(items, j),
{
    graph::lemma_reached_closed(
        |i: int| rooted(items, i),
        |i: int, j: int| linked(nodes(items), i, j),
        i,
        j,
    );
}

/// Nothing is reachable without cause: a set that holds the roots and what its
/// members lead to holds everything reachable.
pub proof fn law_reach_is_least(items: Seq<Item>, s: Set<int>, j: int)
    requires
        forall|i: int| #[trigger] rooted(items, i) ==> s.contains(i),
        forall|a: int, b: int|
            s.contains(a) && #[trigger] linked(nodes(items), a, b) ==> s.contains(b),
        reached(items, j),
    ensures
        s.contains(j),
{
    graph::lemma_reached_least(
        |i: int| rooted(items, i),
        |i: int, j: int| linked(nodes(items), i, j),
        |i: int| s.contains(i),
        j,
    );
}

/// An async `main` needs the runtime whatever else the program holds.
pub proof fn law_async_main_needs_runtime(items: Seq<Item>, j: int)
    requires
        is_free(nodes(items), "main"@, j),
        nodes(items)[j].func.is_async,
    ensures
        needs_async(items),
{
    law_reach_is_closed(items, j, j);
    assert(is_async_node(nodes(items)[j]));
}

/// A program whose roots and bodies are all synchronous needs no runtime.
pub proof fn law_synchronous_program_needs_no_runtime(items: Seq<Item>)
    requires
        !suspends(roots(items)),
        forall|j: int| 0 <= j < nodes(items).len() ==> !is_async_node(#[trigger] nodes(items)[j]),
    ensures
        !needs_async(items),
{
}

/// Async bodies that nothing reaches do not pull the runtime in.
pub proof fn law_unreachable_async_needs_no_runtime(items: Seq<Item>)
    requires
        !suspends(roots(items)),
        forall|j: int|
            0 <= j < nodes(items).len() && is_async_node(#[trigger] nodes(items)[j]) ==> !reached(
                items,
                j,
            ),
    ensures
        !needs_async(items),
{
}

/// The expression, its children aside, mentions a free function of this name.
pub open spec fn mentions(e: Expr, name: Seq<char>) -> bool {
    match e.kind {
        ExprKind::Call { callee, .. } => callee@ == name,
        ExprKind::Ident(n) => n@ == name,
        _ => false,
    }
}

pub open spec fn some_mentions(es: Seq<&Expr>, name: Seq<char>) -> bool {
    exists|x: int| 0 <= x < es.len() && mentions(*#[trigger] es[x], name)
}

/// A root or a body of the program mentions a free function of this name.
pub open spec fn mentioned(items: Seq<Item>, name: Seq<char>) -> bool {
    some_mentions(roots(items), name) || exists|i: int|
        0 <= i < nodes(items).len() && some_mentions(
            function_walk((#[trigger] nodes(items)[i]).func),
            name,
        )
}

pub(crate) proof fn lemma_nodes_concat(a: Seq<Item>, b: Seq<Item>)
    ensures
        nodes(a + b) == nodes(a) + nodes(b),
        roots(a + b) == roots(a) + roots(b),
    decreases b.len(),
{
    if b.len() == 0 {
        assert(a + b =~= a);
        assert(nodes(a) + nodes(b) =~= nodes(a));
        assert(roots(a) + roots(b) =~= roots(a));
    } else {
        assert((a + b).drop_last() =~= a + b.drop_last());
        lemma_nodes_concat(a, b.drop_last());
        assert(nodes(a + b) =~= nodes(a) + nodes(b));
        assert(roots(a + b) =~= roots(a) + roots(b));
    }
}

/// Where node `j` stands once another one stands at `n`.
spec fn moved(n: int, j: int) -> int {
    if j < n {
        j
    } else {
        j + 1
    }
}

proof fn lemma_moved_free(ns: Seq<Node>, n: int, f: Node, name: Seq<char>, j: int)
    requires
        0 <= n <= ns.len(),
        name != f.func.name@,
        0 <= j < ns.len(),
    ensures
        is_free(ns.insert(n, f), name, moved(n, j)) == is_free(ns, name, j),
        is_method(ns.insert(n, f), name, moved(n, j)) == is_method(ns, name, j),
{
    let wide = ns.insert(n, f);
    assert(wide[moved(n, j)] == ns[j]);
    if is_free(wide, name, moved(n, j)) {
        assert forall|k: int| j < k < ns.len() implies (#[trigger] ns[k]).method
            || ns[k].func.name@ != name by {
            assert(wide[moved(n, k)] == ns[k]);
        }
    }
    if is_free(ns, name, j) {
        assert forall|k: int| moved(n, j) < k < wide.len() implies (#[trigger] wide[k]).method
            || wide[k].func.name@ != name by {
            if k != n {
                let was = if k < n {
                    k
                } else {
                    k - 1
                };
                assert(wide[k] == ns[was]);
            }
        }
    }
}

proof fn lemma_moved_leads(ns: Seq<Node>, n: int, f: Node, e: Expr, j: int)
    requires
        0 <= n <= ns.len(),
        !f.method,
        !mentions(e, f.func.name@),
        0 <= j < ns.len(),
    ensures
        leads(ns.insert(n, f), e, moved(n, j)) == leads(ns, e, j),
{
    let wide = ns.insert(n, f);
    assert(wide[moved(n, j)] == ns[j]);
    match e.kind {
        ExprKind::Call { callee, .. } => lemma_moved_free(ns, n, f, callee@, j),
        ExprKind::Ident(name) => lemma_moved_free(ns, n, f, name@, j),
        _ => {},
    }
}

proof fn lemma_moved_targets(ns: Seq<Node>, n: int, f: Node, es: Seq<&Expr>, j: int)
    requires
        0 <= n <= ns.len(),
        !f.method,
        !some_mentions(es, f.func.name@),
        0 <= j < ns.len(),
    ensures
        some_leads(ns.insert(n, f), es, moved(n, j)) == some_leads(ns, es, j),
{
    let wide = ns.insert(n, f);
    assert forall|x: int| 0 <= x < es.len() implies leads(wide, *#[trigger] es[x], moved(n, j))
        == leads(ns, *es[x], j) by {
        assert(!mentions(*es[x], f.func.name@));
        lemma_moved_leads(ns, n, f, *es[x], j);
    }
    if some_leads(ns, es, j) {
        let x = choose|x: int| 0 <= x < es.len() && leads(ns, *#[trigger] es[x], j);
        assert(leads(wide, *es[x], moved(n, j)));
    }
    if some_leads(wide, es, moved(n, j)) {
        let x = choose|x: int| 0 <= x < es.len() && leads(wide, *#[trigger] es[x], moved(n, j));
        assert(leads(ns, *es[x], j));
    }
}

proof fn lemma_nothing_leads(ns: Seq<Node>, n: int, f: Node, es: Seq<&Expr>)
    requires
        0 <= n <= ns.len(),
        !f.method,
        !some_mentions(es, f.func.name@),
    ensures
        !some_leads(ns.insert(n, f), es, n),
{
    let wide = ns.insert(n, f);
    assert(wide[n] == f);
    if some_leads(wide, es, n) {
        let x = choose|x: int| 0 <= x < es.len() && leads(wide, *#[trigger] es[x], n);
        assert(mentions(*es[x], f.func.name@));
    }
}

/// What was reachable stays so, and nothing else becomes so.
proof fn lemma_moved_reach(items: Seq<Item>, more: Seq<Item>, n: int, f: Node)
    requires
        0 <= n <= nodes(items).len(),
        !f.method,
        f.func.name@ != "main"@,
        !mentioned(items, f.func.name@),
        nodes(more) == nodes(items).insert(n, f),
        roots(more) == roots(items),
    ensures
        forall|j: int|
            0 <= j < nodes(items).len() ==> #[trigger] reached(more, moved(n, j)) == reached(
                items,
                j,
            ),
        !reached(more, n),
        forall|j: int| #[trigger] reached(more, j) ==> 0 <= j < nodes(more).len(),
        forall|j: int| #[trigger] reached(items, j) ==> 0 <= j < nodes(items).len(),
{
    let ns = nodes(items);
    let wide = nodes(more);
    let back = |j: int|
        if j < n {
            j
        } else {
            j - 1
        };
    assert forall|j: int| 0 <= j < ns.len() implies #[trigger] rooted(more, moved(n, j)) == rooted(
        items,
        j,
    ) by {
        lemma_moved_free(ns, n, f, "main"@, j);
        lemma_moved_targets(ns, n, f, roots(items), j);
    }
    assert(!rooted(more, n)) by {
        assert(wide[n] == f);
        lemma_nothing_leads(ns, n, f, roots(items));
    }
    assert forall|i: int, j: int| 0 <= i < ns.len() && 0 <= j < ns.len() implies #[trigger] linked(
        wide,
        moved(n, i),
        moved(n, j),
    ) == linked(ns, i, j) by {
        assert(wide[moved(n, i)] == ns[i]);
        assert(!some_mentions(function_walk(ns[i].func), f.func.name@));
        lemma_moved_targets(ns, n, f, function_walk(ns[i].func), j);
    }
    assert forall|i: int| 0 <= i < ns.len() implies !#[trigger] linked(wide, moved(n, i), n) by {
        assert(wide[moved(n, i)] == ns[i]);
        assert(!some_mentions(function_walk(ns[i].func), f.func.name@));
        lemma_nothing_leads(ns, n, f, function_walk(ns[i].func));
    }
    // Everything reachable among the more was reachable before.
    let s = |i: int| 0 <= i < wide.len() && i != n && reached(items, back(i));
    assert forall|i: int| #[trigger] rooted(more, i) implies s(i) by {
        assert(0 <= i < wide.len() && i != n);
        assert(moved(n, back(i)) == i);
        law_reach_is_closed(items, 0, back(i));
    }
    assert forall|i: int, j: int| s(i) && #[trigger] linked(wide, i, j) implies s(j) by {
        assert(moved(n, back(i)) == i);
        assert(0 <= j < wide.len());
        assert(j != n);
        assert(moved(n, back(j)) == j);
        law_reach_is_closed(items, back(i), back(j));
    }
    assert forall|j: int| #[trigger] reached(more, j) implies s(j) by {
        graph::lemma_reached_least(
            |i: int| rooted(more, i),
            |i: int, j: int| linked(nodes(more), i, j),
            s,
            j,
        );
    }
    // Everything reachable before is reachable among the more.
    let t = |i: int| 0 <= i < ns.len() && reached(more, moved(n, i));
    assert forall|i: int| #[trigger] rooted(items, i) implies t(i) by {
        assert(0 <= i < ns.len());
        assert(rooted(more, moved(n, i)));
        law_reach_is_closed(more, 0, moved(n, i));
    }
    assert forall|i: int, j: int| t(i) && #[trigger] linked(ns, i, j) implies t(j) by {
        assert(0 <= j < ns.len());
        assert(linked(wide, moved(n, i), moved(n, j)));
        law_reach_is_closed(more, moved(n, i), moved(n, j));
    }
    assert forall|j: int| #[trigger] reached(items, j) implies t(j) by {
        graph::lemma_reached_least(
            |i: int| rooted(items, i),
            |i: int, j: int| linked(nodes(items), i, j),
            t,
            j,
        );
    }
    assert forall|j: int| 0 <= j < ns.len() implies #[trigger] reached(more, moved(n, j))
        == reached(items, j) by {
        assert(back(moved(n, j)) == j);
        if reached(more, moved(n, j)) {
            assert(s(moved(n, j)));
        }
        if reached(items, j) {
            assert(t(j));
        }
    }
    if reached(more, n) {
        assert(s(n));
    }
}

/// A free function that nothing mentions, async or not, leaves the analysis
/// unchanged wherever it is declared: the program needs the runtime as before,
/// and the same functions are reachable, the new one not among them.
pub proof fn law_unmentioned_function_changes_nothing(
    before: Seq<Item>,
    item: Item,
    after: Seq<Item>,
)
    requires
        bare_item(item) matches Item::Function(f) && f.name@ != "main"@ && !mentioned(
            before + after,
            f.name@,
        ),
    ensures
        needs_async(before + seq![item] + after) == needs_async(before + after),
        forall|name: Seq<char>| #[trigger]
            reaches(before + seq![item] + after, name) == reaches(before + after, name),
        !reaches(before + seq![item] + after, bare_item(item)->Function_0.name@),
{
    let items = before + after;
    let more = before + seq![item] + after;
    let func = bare_item(item)->Function_0;
    let f = Node { method: false, func: &func };
    let n = nodes(before).len() as int;
    lemma_nodes_concat(before, after);
    lemma_nodes_concat(before + seq![item], after);
    assert((before + seq![item]).drop_last() =~= before);
    let ns = nodes(items);
    let wide = nodes(more);
    assert(wide =~= ns.insert(n, f));
    assert(roots(more) =~= roots(items));
    lemma_moved_reach(items, more, n, f);
    // No reachable function bears the new one's name.
    assert forall|j: int| is_free(ns, f.func.name@, j) implies !#[trigger] reached(items, j) by {
        let s = |i: int| !is_free(ns, f.func.name@, i);
        assert forall|i: int| #[trigger] rooted(items, i) implies s(i) by {
            if is_free(ns, f.func.name@, i) && some_leads(ns, roots(items), i) {
                let x = choose|x: int|
                    0 <= x < roots(items).len() && leads(ns, *#[trigger] roots(items)[x], i);
                assert(mentions(*roots(items)[x], f.func.name@));
            }
        }
        assert forall|a: int, b: int| s(a) && #[trigger] linked(ns, a, b) implies s(b) by {
            let es = function_walk(ns[a].func);
            let x = choose|x: int| 0 <= x < es.len() && leads(ns, *#[trigger] es[x], b);
            if is_free(ns, f.func.name@, b) {
                assert(mentions(*es[x], f.func.name@));
            }
        }
        if reached(items, j) {
            graph::lemma_reached_least(
                |i: int| rooted(items, i),
                |i: int, j: int| linked(nodes(items), i, j),
                s,
                j,
            );
        }
    }
    assert(!reaches(items, f.func.name@));
    assert forall|name: Seq<char>| #[trigger] reaches(more, name) == reaches(items, name) by {
        if reaches(items, name) {
            let j = choose|j: int| is_free(ns, name, j) && reached(items, j);
            assert(name != f.func.name@);
            lemma_moved_free(ns, n, f, name, j);
            assert(is_free(wide, name, moved(n, j)) && reached(more, moved(n, j)));
        }
        if reaches(more, name) {
            let j = choose|j: int| is_free(wide, name, j) && reached(more, j);
            assert(j != n);
            let was = if j < n {
                j
            } else {
                j - 1
            };
            assert(moved(n, was) == j);
            assert(wide[j] == ns[was]);
            if name == f.func.name@ {
                assert(wide[n] == f);
                assert forall|k: int| was < k < ns.len() implies (#[trigger] ns[k]).method
                    || ns[k].func.name@ != name by {
                    assert(wide[k + 1] == ns[k]);
                }
                assert(is_free(ns, name, was) && !reached(items, was));
            } else {
                lemma_moved_free(ns, n, f, name, was);
                assert(is_free(ns, name, was) && reached(items, was));
            }
        }
    }
    if needs_async(items) && !suspends(roots(items)) {
        let j = choose|j: int|
            0 <= j < ns.len() && reached(items, j) && is_async_node(#[trigger] ns[j]);
        assert(wide[moved(n, j)] == ns[j]);
        assert(reached(more, moved(n, j)));
    }
    if needs_async(more) && !suspends(roots(more)) {
        let j = choose|j: int|
            0 <= j < wide.len() && reached(more, j) && is_async_node(#[trigger] wide[j]);
        let was = if j < n {
            j
        } else {
            j - 1
        };
        assert(moved(n, was) == j);
        assert(wide[j] == ns[was]);
        assert(reached(items, was));
    }
}

} // verus!
