//! What a selective import takes, stated over the syntax tree.
use crate::ast::{Expr, ExprKind, ImportDecl, Item, Type};
use crate::graph;
use crate::lint::tree::{declared_in, occurs, Node};
use crate::lint::tree_laws::{
    law_item_names_are_complete, law_item_walk_is_complete, law_type_names_are_complete,
    name_of_type,
};
use crate::lint::walk::{item_names, item_walk};
use crate::modules::expand::{
    asked, decl_name, expr_refs, exprs_refs, inner_item, is_linkage, item_refs, leads_name, picked,
    picks, refers, required, symbol_names, taken, Origin, World,
};
use crate::modules::laws::lemma_picks;
use crate::text::base_name;
use vstd::prelude::*;

verus! {

// ---------------------------------------------------------------------------
// Declaring and using a name
// ---------------------------------------------------------------------------

/// Attributes, and nothing but attributes, lead from the item to `inner`.
pub open spec fn behind_attributes(item: Item, inner: Item) -> bool {
    exists|chain: Seq<Item>| #[trigger]
        is_peeling(chain) && chain[0] == item && chain.last() == inner
}

/// Each item of the chain is the one that the attributes before it stand on.
pub open spec fn is_peeling(chain: Seq<Item>) -> bool {
    &&& chain.len() > 0
    &&& forall|i: int|
        0 <= i < chain.len() - 1 ==> (#[trigger] chain[i] matches Item::Attributed { item, .. }
            && *item == chain[i + 1])
}

/// A function, type, constant or variable of that name.
pub open spec fn has_name(item: Item, x: Seq<char>) -> bool {
    ||| item matches Item::Function(f) && f.name@ == x
    ||| item matches Item::Struct(s) && s.name@ == x
    ||| item matches Item::Class(c) && c.name@ == x
    ||| item matches Item::Enum(e) && e.name@ == x
    ||| item matches Item::Trait(t) && t.name@ == x
    ||| item matches Item::Typedef(t) && t.name@ == x
    ||| item matches Item::Distinct(d) && d.name@ == x
    ||| item matches Item::Const(c) && c.name@ == x
    ||| item matches Item::Var(v) && v.name@ == x
}

/// The item declares `x`, attributes aside.
pub open spec fn declares_name(item: Item, x: Seq<char>) -> bool {
    exists|inner: Item| #[trigger] behind_attributes(item, inner) && has_name(inner, x)
}

/// The expression itself, its parts aside, speaks of `x`: it is that identifier,
/// calls that function, or builds a value of that type.
pub open spec fn speaks_of(e: Expr, x: Seq<char>) -> bool {
    ||| e.kind matches ExprKind::Ident(n) && n@ == x
    ||| e.kind matches ExprKind::Call { callee, .. } && callee@ == x
    ||| e.kind matches ExprKind::StructLit { name, .. } && base_name(name@) == x
    ||| e.kind matches ExprKind::EnumVariant { enum_name: Some(n), .. } && base_name(n@) == x
    ||| e.kind matches ExprKind::New { ty, .. } && exists|t: Type| #[trigger]
        declared_in(Node::Type(ty), t) && name_of_type(t) == Some(x)
}

/// The item speaks of `x` in an expression anywhere in it, or declares something
/// of that type.
pub open spec fn uses(item: Item, x: Seq<char>) -> bool {
    ||| exists|e: Expr| #[trigger] occurs(Node::Item(item), e) && speaks_of(e, x)
    ||| exists|t: Type| #[trigger]
        declared_in(Node::Item(item), t) && name_of_type(t) == Some(x)
}

proof fn lemma_inner_item(item: Item)
    ensures
        behind_attributes(item, inner_item(item)),
        !(inner_item(item) is Attributed),
    decreases item,
{
    match item {
        Item::Attributed { item: next, .. } => {
            lemma_inner_item(*next);
            let rest = choose|chain: Seq<Item>| #[trigger]
                is_peeling(chain) && chain[0] == *next && chain.last() == inner_item(*next);
            let chain = seq![item] + rest;
            assert(chain.last() == rest.last());
            assert forall|i: int| 0 <= i < chain.len() - 1 implies (
            #[trigger] chain[i] matches Item::Attributed { item, .. } && *item == chain[i + 1]) by {
                if i > 0 {
                    assert(chain[i] == rest[i - 1]);
                    assert(chain[i + 1] == rest[i]);
                } else {
                    assert(chain[1] == rest[0]);
                }
            }
            assert(is_peeling(chain));
        },
        _ => {
            let chain = seq![item];
            assert(is_peeling(chain) && chain[0] == item && chain.last() == item);
        },
    }
}

proof fn lemma_peeling(chain: Seq<Item>)
    requires
        is_peeling(chain),
    ensures
        inner_item(chain[0]) == inner_item(chain.last()),
    decreases chain.len(),
{
    if chain.len() > 1 {
        let rest = chain.skip(1);
        assert forall|i: int| 0 <= i < rest.len() - 1 implies (
        #[trigger] rest[i] matches Item::Attributed { item, .. } && *item == rest[i + 1]) by {
            assert(rest[i] == chain[i + 1]);
        }
        lemma_peeling(rest);
        assert(rest.last() == chain.last());
        assert(chain[0] matches Item::Attributed { item, .. } && *item == chain[1]);
    }
}

/// The name that an item is looked up by is the one that it declares behind its
/// attributes; imports, initialisers, extensions and blocks of foreign
/// declarations have none.
pub proof fn law_items_are_known_by_their_names(item: Item, x: Seq<char>)
    ensures
        decl_name(item) == Some(x) <==> declares_name(item, x),
{
    lemma_inner_item(item);
    if decl_name(item) == Some(x) {
        assert(has_name(inner_item(item), x));
    }
    if declares_name(item, x) {
        let inner = choose|inner: Item| #[trigger]
            behind_attributes(item, inner) && has_name(inner, x);
        let chain = choose|chain: Seq<Item>| #[trigger]
            is_peeling(chain) && chain[0] == item && chain.last() == inner;
        lemma_peeling(chain);
        assert(inner_item(inner) == inner);
    }
}

/// An item is a linkage requirement exactly when a block of foreign declarations
/// stands behind its attributes.
pub proof fn law_linkage_is_foreign(item: Item)
    ensures
        is_linkage(item) <==> exists|inner: Item| #[trigger]
            behind_attributes(item, inner) && inner is Extern,
{
    lemma_inner_item(item);
    if exists|inner: Item| #[trigger] behind_attributes(item, inner) && inner is Extern {
        let inner = choose|inner: Item| #[trigger]
            behind_attributes(item, inner) && inner is Extern;
        let chain = choose|chain: Seq<Item>| #[trigger]
            is_peeling(chain) && chain[0] == item && chain.last() == inner;
        lemma_peeling(chain);
        assert(inner_item(inner) == inner);
    }
}

proof fn lemma_expr_speaks(e: Expr, x: Seq<char>)
    ensures
        expr_refs(e).contains(x) <==> speaks_of(e, x),
{
    match e.kind {
        ExprKind::Call { callee, .. } => {
            assert(expr_refs(e)[0] == callee@);
        },
        ExprKind::Ident(name) => {
            assert(expr_refs(e)[0] == name@);
        },
        ExprKind::StructLit { name, .. } => {
            assert(expr_refs(e)[0] == base_name(name@));
        },
        ExprKind::New { ty, .. } => {
            law_type_names_are_complete(&ty, x);
        },
        ExprKind::EnumVariant { enum_name: Some(name), .. } => {
            assert(expr_refs(e)[0] == base_name(name@));
        },
        _ => {},
    }
}

proof fn lemma_exprs_speak(es: Seq<&Expr>, n: int, x: Seq<char>)
    requires
        0 <= n <= es.len(),
    ensures
        exprs_refs(es, n).contains(x) <==> exists|i: int|
            0 <= i < n && speaks_of(*#[trigger] es[i], x),
    decreases n,
{
    if n > 0 {
        let a = exprs_refs(es, n - 1);
        let b = expr_refs(*es[n - 1]);
        let s = exprs_refs(es, n);
        lemma_exprs_speak(es, n - 1, x);
        lemma_expr_speaks(*es[n - 1], x);
        if s.contains(x) {
            let k = choose|k: int| 0 <= k < s.len() && s[k] == x;
            if k < a.len() {
                assert(a[k] == x);
            } else {
                assert(b[k - a.len()] == x);
            }
        }
        if a.contains(x) {
            let k = choose|k: int| 0 <= k < a.len() && a[k] == x;
            assert(s[k] == x);
        }
        if b.contains(x) {
            let k = choose|k: int| 0 <= k < b.len() && b[k] == x;
            assert(s[a.len() + k] == x);
        }
    }
}

/// The names that an item refers to are the names that it uses, wherever in the
/// item they stand, and no others.
pub proof fn law_references_are_uses(item: Item, x: Seq<char>)
    ensures
        item_refs(item).contains(x) <==> uses(item, x),
{
    let es = item_walk(&item);
    let n = es.len() as int;
    let a = exprs_refs(es, n);
    let b = item_names(&item);
    let s = item_refs(item);
    lemma_exprs_speak(es, n, x);
    law_item_names_are_complete(&item, x);
    if s.contains(x) {
        let k = choose|k: int| 0 <= k < s.len() && s[k] == x;
        if k < a.len() {
            assert(a[k] == x);
            let i = choose|i: int| 0 <= i < n && speaks_of(*#[trigger] es[i], x);
            assert(es.contains(es[i]));
            law_item_walk_is_complete(&item, es[i]);
        } else {
            assert(b[k - a.len()] == x);
        }
    }
    if exists|e: Expr| #[trigger] occurs(Node::Item(item), e) && speaks_of(e, x) {
        let e = choose|e: Expr| #[trigger] occurs(Node::Item(item), e) && speaks_of(e, x);
        law_item_walk_is_complete(&item, &e);
        let i = choose|i: int| 0 <= i < es.len() && es[i] == &e;
        assert(speaks_of(*es[i], x));
        let k = choose|k: int| 0 <= k < a.len() && a[k] == x;
        assert(s[k] == x);
    }
    if b.contains(x) {
        let k = choose|k: int| 0 <= k < b.len() && b[k] == x;
        assert(s[a.len() + k] == x);
    }
}

// ---------------------------------------------------------------------------
// Laws of selection
// ---------------------------------------------------------------------------

/// The first entry of the list that declares the name of entry `q`.
proof fn lemma_leader(w: World, list: Seq<Origin>, q: int) -> (r: int)
    requires
        0 <= q < list.len(),
        w.name(list[q]) is Some,
    ensures
        0 <= r <= q,
        w.name(list[r]) == w.name(list[q]),
        leads_name(w, list, r),
    decreases q,
{
    if exists|k: int| 0 <= k < q && w.name(#[trigger] list[k]) == w.name(list[q]) {
        let k = choose|k: int| 0 <= k < q && w.name(#[trigger] list[k]) == w.name(list[q]);
        lemma_leader(w, list, k)
    } else {
        q
    }
}

/// Only the first entry of a name is required for itself.
proof fn lemma_required_leads(w: World, list: Seq<Origin>, symbols: Seq<Seq<char>>, p: int)
    requires
        required(w, list, symbols, p),
    ensures
        leads_name(w, list, p),
{
    graph::lemma_reached_least(
        |i: int| asked(w, list, symbols, i),
        |i: int, j: int| refers(w, list, i, j),
        |i: int| leads_name(w, list, i),
        p,
    );
}

/// An import takes every symbol that it lists, if the module declares it.
pub proof fn law_listed_symbols_are_taken(
    w: World,
    imp: ImportDecl,
    list: Seq<Origin>,
    k: int,
    q: int,
)
    requires
        imp.symbols matches Some(v) && 0 <= k < v@.len() && 0 <= q < list.len() && declares_name(
            w.item(list[q]),
            v@[k].0@,
        ),
    ensures
        taken(w, imp, list).contains(list[q]),
{
    let v = imp.symbols->0;
    let symbols = symbol_names(v@);
    assert(symbols[k] == v@[k].0@);
    law_items_are_known_by_their_names(w.item(list[q]), v@[k].0@);
    let r = lemma_leader(w, list, q);
    assert(asked(w, list, symbols, r));
    graph::lemma_reached_closed(
        |i: int| asked(w, list, symbols, i),
        |i: int, j: int| refers(w, list, i, j),
        r,
        r,
    );
    assert(required(w, list, symbols, r));
    assert(w.name(list[r]) == w.name(list[q]));
    assert(picked(w, list, symbols, q));
    lemma_picks(w, list, symbols, list.len() as int);
}

/// With an item, an import takes whatever the item uses: if the first
/// declaration of its name is taken and it uses `x`, anywhere in it, everything
/// that the module declares under `x` is taken too.
pub proof fn law_taken_items_keep_what_they_use(
    w: World,
    imp: ImportDecl,
    list: Seq<Origin>,
    p: int,
    q: int,
    name: Seq<char>,
    x: Seq<char>,
)
    requires
        0 <= p < list.len(),
        0 <= q < list.len(),
        declares_name(w.item(list[p]), name),
        forall|r: int| 0 <= r < p ==> !declares_name(w.item(#[trigger] list[r]), name),
        taken(w, imp, list).contains(list[p]),
        uses(w.item(list[p]), x),
        declares_name(w.item(list[q]), x),
    ensures
        taken(w, imp, list).contains(list[q]),
{
    match imp.symbols {
        Some(v) => {
            let symbols = symbol_names(v@);
            law_items_are_known_by_their_names(w.item(list[p]), name);
            law_items_are_known_by_their_names(w.item(list[q]), x);
            assert(leads_name(w, list, p)) by {
                assert forall|r: int| 0 <= r < p implies w.name(#[trigger] list[r]) != w.name(
                    list[p],
                ) by {
                    law_items_are_known_by_their_names(w.item(list[r]), name);
                }
            }
            lemma_picks(w, list, symbols, list.len() as int);
            let p2 = choose|p2: int|
                0 <= p2 < list.len() && list[p2] == list[p] && picked(w, list, symbols, p2);
            let p3 = choose|p3: int|
                0 <= p3 < list.len() && #[trigger] w.name(list[p3]) == w.name(list[p2])
                    && required(w, list, symbols, p3);
            lemma_required_leads(w, list, symbols, p3);
            assert(p3 == p) by {
                if p3 < p {
                    assert(w.name(list[p3]) != w.name(list[p]));
                }
            }
            law_references_are_uses(w.item(list[p]), x);
            let r = lemma_leader(w, list, q);
            assert(refers(w, list, p, r));
            graph::lemma_reached_closed(
                |i: int| asked(w, list, symbols, i),
                |i: int, j: int| refers(w, list, i, j),
                p,
                r,
            );
            assert(required(w, list, symbols, r));
            assert(w.name(list[r]) == w.name(list[q]));
            assert(picked(w, list, symbols, q));
        },
        None => {
            assert(list[q] == list[q]);
        },
    }
}

/// An import takes no more than it has to. Let `s` be any set of names that
/// holds the listed symbols and, with a name, every name that the declaration of
/// it uses. Whatever is taken is a linkage requirement or declares a name of `s`.
pub proof fn law_selection_is_least(
    w: World,
    imp: ImportDecl,
    list: Seq<Origin>,
    s: spec_fn(Seq<char>) -> bool,
    o: Origin,
)
    requires
        imp.symbols is Some,
        forall|k: int| 0 <= k < imp.symbols->0@.len() ==> s((#[trigger] imp.symbols->0@[k]).0@),
        forall|p: int, name: Seq<char>, x: Seq<char>|
            #![trigger declares_name(w.item(list[p]), name), uses(w.item(list[p]), x)]
            0 <= p < list.len() && declares_name(w.item(list[p]), name) && s(name) && uses(
                w.item(list[p]),
                x,
            ) ==> s(x),
        taken(w, imp, list).contains(o),
    ensures
        is_linkage(w.item(o)) || exists|name: Seq<char>| #[trigger]
            declares_name(w.item(o), name) && s(name),
{
    let symbols = symbol_names(imp.symbols->0@);
    let root = |i: int| asked(w, list, symbols, i);
    let edge = |i: int, j: int| refers(w, list, i, j);
    let good = |i: int| leads_name(w, list, i) && s(w.name(list[i])->0);
    lemma_picks(w, list, symbols, list.len() as int);
    let p = choose|p: int| 0 <= p < list.len() && list[p] == o && picked(w, list, symbols, p);
    if !is_linkage(w.item(o)) {
        let q = choose|q: int|
            0 <= q < list.len() && #[trigger] w.name(list[q]) == w.name(list[p]) && required(
                w,
                list,
                symbols,
                q,
            );
        assert forall|i: int| #[trigger] root(i) implies good(i) by {
            let name = w.name(list[i])->0;
            let k = choose|k: int| 0 <= k < symbols.len() && symbols[k] == name;
            assert(imp.symbols->0@[k].0@ == name);
        }
        assert forall|a: int, b: int| good(a) && #[trigger] edge(a, b) implies good(b) by {
            let name = w.name(list[a])->0;
            let x = w.name(list[b])->0;
            law_items_are_known_by_their_names(w.item(list[a]), name);
            law_references_are_uses(w.item(list[a]), x);
        }
        graph::lemma_reached_least(root, edge, good, q);
        law_items_are_known_by_their_names(w.item(o), w.name(o)->0);
    }
}

/// What an import takes keeps its order, and nothing is taken twice.
pub proof fn law_selection_keeps_order(w: World, imp: ImportDecl, list: Seq<Origin>) -> (at: Seq<
    int,
>)
    ensures
        at.len() == taken(w, imp, list).len(),
        forall|i: int|
            0 <= i < at.len() ==> 0 <= #[trigger] at[i] < list.len() && taken(w, imp, list)[i]
                == list[at[i]],
        forall|i: int, j: int| 0 <= i < j < at.len() ==> at[i] < at[j],
{
    match imp.symbols {
        Some(v) => lemma_picks_order(w, list, symbol_names(v@), list.len() as int),
        None => Seq::new(list.len(), |i: int| i),
    }
}

proof fn lemma_picks_order(w: World, list: Seq<Origin>, symbols: Seq<Seq<char>>, n: int) -> (at:
    Seq<int>)
    requires
        0 <= n <= list.len(),
    ensures
        at.len() == picks(w, list, symbols, n).len(),
        forall|i: int|
            0 <= i < at.len() ==> 0 <= #[trigger] at[i] < n && picks(w, list, symbols, n)[i]
                == list[at[i]],
        forall|i: int, j: int| 0 <= i < j < at.len() ==> at[i] < at[j],
    decreases n,
{
    if n == 0 {
        Seq::empty()
    } else {
        let before = lemma_picks_order(w, list, symbols, n - 1);
        if picked(w, list, symbols, n - 1) {
            before.push(n - 1)
        } else {
            before
        }
    }
}

} // verus!
