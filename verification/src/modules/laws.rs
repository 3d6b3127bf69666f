//! What holds of every import expansion.
use crate::ast::{ImportDecl, Item};
use crate::cfg::kept;
use crate::graph::{lemma_mark, unmarked};
use crate::graph;
use crate::modules::expand::{
    asked, brought, entry_list, entry_open, expanded, imported, is_entry, index_in, is_linkage, located,
    merged, picked, picks, present, program_list, refers, required, same_decl, symbol_names, taken,
    Origin, Progress, World,
};
use crate::text::texts;
use vstd::prelude::*;

verus! {

/// The sizes fit in memory.
pub open spec fn sized(w: World) -> bool {
    &&& w.sources.len() <= usize::MAX
    &&& forall|f: int| #[trigger] w.items(f).len() <= usize::MAX
}

// ---------------------------------------------------------------------------
// Selection
// ---------------------------------------------------------------------------

pub(crate) proof fn lemma_picks(w: World, list: Seq<Origin>, symbols: Seq<Seq<char>>, n: int)
    requires
        0 <= n <= list.len(),
    ensures
        forall|p: int|
            0 <= p < n && picked(w, list, symbols, p) ==> picks(w, list, symbols, n).contains(
                #[trigger] list[p],
            ),
        forall|o: Origin| #[trigger]
            picks(w, list, symbols, n).contains(o) ==> exists|p: int|
                0 <= p < n && list[p] == o && picked(w, list, symbols, p),
    decreases n,
{
    if n > 0 {
        lemma_picks(w, list, symbols, n - 1);
        let before = picks(w, list, symbols, n - 1);
        let after = picks(w, list, symbols, n);
        assert forall|p: int| 0 <= p < n && picked(w, list, symbols, p) implies after.contains(
            #[trigger] list[p],
        ) by {
            if p < n - 1 {
                assert(before.contains(list[p]));
                let k = choose|k: int| 0 <= k < before.len() && before[k] == list[p];
                assert(after[k] == list[p]);
            } else {
                assert(after[before.len() as int] == list[p]);
            }
        }
        assert forall|o: Origin| #[trigger] after.contains(o) implies exists|p: int|
            0 <= p < n && list[p] == o && picked(w, list, symbols, p) by {
            let k = choose|k: int| 0 <= k < after.len() && after[k] == o;
            if k < before.len() {
                assert(before[k] == o);
                assert(before.contains(o));
            } else {
                assert(list[n - 1] == o);
            }
        }
    }
}

/// Blocks of foreign declarations are linkage requirements: every import takes
/// them all, whatever symbols it lists.
pub proof fn law_linkage_rides_along(w: World, imp: ImportDecl, list: Seq<Origin>, p: int)
    requires
        0 <= p < list.len(),
        is_linkage(w.item(list[p])),
    ensures
        taken(w, imp, list).contains(list[p]),
{
    match imp.symbols {
        Some(v) => {
            lemma_picks(w, list, symbol_names(v@), list.len() as int);
            assert(picked(w, list, symbol_names(v@), p));
        },
        None => {},
    }
}

/// A selective import takes every listed symbol that the module declares, and
/// with anything required all that it refers to, so nothing that is kept
/// refers to a dropped declaration of the module.
pub proof fn law_selection_is_closed(
    w: World,
    list: Seq<Origin>,
    symbols: Seq<Seq<char>>,
    p: int,
    q: int,
)
    ensures
        asked(w, list, symbols, p) ==> picks(w, list, symbols, list.len() as int).contains(list[p]),
        required(w, list, symbols, p) && refers(w, list, p, q) ==> required(w, list, symbols, q)
            && picks(w, list, symbols, list.len() as int).contains(list[q]),
{
    let root = |i: int| asked(w, list, symbols, i);
    let edge = |i: int, j: int| refers(w, list, i, j);
    lemma_picks(w, list, symbols, list.len() as int);
    graph::lemma_reached_closed(root, edge, p, p);
    graph::lemma_reached_closed(root, edge, p, q);
    if asked(w, list, symbols, p) {
        assert(w.name(list[p]) == w.name(list[p]));
        assert(picked(w, list, symbols, p));
    }
    if required(w, list, symbols, p) && refers(w, list, p, q) {
        assert(w.name(list[q]) == w.name(list[q]));
        assert(picked(w, list, symbols, q));
    }
}

/// An import takes only what the module holds.
pub proof fn law_selection_adds_nothing(w: World, imp: ImportDecl, list: Seq<Origin>, o: Origin)
    requires
        taken(w, imp, list).contains(o),
    ensures
        list.contains(o),
{
    match imp.symbols {
        Some(v) => {
            lemma_picks(w, list, symbol_names(v@), list.len() as int);
        },
        None => {},
    }
}

// ---------------------------------------------------------------------------
// Conditional items
// ---------------------------------------------------------------------------

pub(crate) proof fn lemma_present(w: World, list: Seq<Origin>, n: int)
    requires
        0 <= n <= list.len(),
    ensures
        forall|o: Origin| #[trigger]
            present(w, list, n).contains(o) <==> list.take(n).contains(o) && kept(
                w.item(o),
                w.debug,
                w.host,
            ),
    decreases n,
{
    if n > 0 {
        lemma_present(w, list, n - 1);
        let a = present(w, list, n - 1);
        let b = present(w, list, n);
        let t = list.take(n - 1);
        let u = list.take(n);
        assert(u =~= t.push(list[n - 1]));
        assert forall|o: Origin| #[trigger] b.contains(o) <==> u.contains(o) && kept(
            w.item(o),
            w.debug,
            w.host,
        ) by {
            assert(u.contains(o) <==> t.contains(o) || o == list[n - 1]) by {
                assert(u[n - 1] == list[n - 1]);
                if t.contains(o) {
                    let k = choose|k: int| 0 <= k < t.len() && t[k] == o;
                    assert(u[k] == o);
                }
                if u.contains(o) {
                    let k = choose|k: int| 0 <= k < u.len() && u[k] == o;
                    if k < n - 1 {
                        assert(t[k] == o);
                    }
                }
            }
            assert(a.contains(o) <==> t.contains(o) && kept(w.item(o), w.debug, w.host));
            if kept(w.item(list[n - 1]), w.debug, w.host) {
                assert(b =~= a.push(list[n - 1]));
                assert(b[a.len() as int] == list[n - 1]);
                if a.contains(o) {
                    let k = choose|k: int| 0 <= k < a.len() && a[k] == o;
                    assert(b[k] == o);
                }
                if b.contains(o) {
                    let k = choose|k: int| 0 <= k < b.len() && b[k] == o;
                    if k < a.len() {
                        assert(a[k] == o);
                    }
                }
            }
        }
    } else {
        assert(list.take(0) =~= Seq::<Origin>::empty());
    }
}

/// No item whose `@cfg` does not hold is left in the expanded program.
pub proof fn law_absent_items_are_dropped(w: World, i: int)
    requires
        0 <= i < program_list(w).len(),
    ensures
        kept(w.item(program_list(w)[i]), w.debug, w.host),
{
    let all = entry_list(w, w.entry.len()).0;
    lemma_present(w, all, all.len() as int);
    assert(program_list(w).contains(program_list(w)[i]));
}

// ---------------------------------------------------------------------------
// The entry program
// ---------------------------------------------------------------------------

pub(crate) proof fn lemma_merged_prefix(w: World, out: Seq<Origin>, more: Seq<Origin>, n: int)
    requires
        n <= more.len(),
    ensures
        merged(w, out, more, n).len() >= out.len(),
        merged(w, out, more, n).take(out.len() as int) == out,
        forall|k: int|
            out.len() <= k < merged(w, out, more, n).len() ==> more.contains(
                #[trigger] merged(w, out, more, n)[k],
            ),
    decreases n,
{
    if n > 0 {
        lemma_merged_prefix(w, out, more, n - 1);
        let m = merged(w, out, more, n - 1);
        let r = merged(w, out, more, n);
        assert(r.take(out.len() as int) =~= m.take(out.len() as int));
        assert forall|k: int| out.len() <= k < r.len() implies more.contains(#[trigger] r[k]) by {
            if k < m.len() {
                assert(r[k] == m[k]);
            } else {
                assert(r[k] == more[n - 1]);
            }
        }
    } else {
        assert(merged(w, out, more, n).take(out.len() as int) =~= out);
    }
}

proof fn lemma_entry_item(w: World, n: nat, i: int)
    requires
        sized(w),
        0 <= i < n <= w.entry.len(),
        !(w.entry[i] is Import),
    ensures
        entry_list(w, n).0.contains(
            (Origin { file: w.sources.len() as usize, index: i as usize }),
        ),
    decreases n,
{
    let o = Origin { file: w.sources.len() as usize, index: i as usize };
    let (out, st) = entry_list(w, (n - 1) as nat);
    if i < n - 1 {
        lemma_entry_item(w, (n - 1) as nat, i);
        let k = choose|k: int| 0 <= k < out.len() && out[k] == o;
        match w.entry[n - 1] {
            Item::Import(imp) => {
                let (more, st2) = brought(w, w.sources.len() as int, imp, true, entry_open(w), st);
                lemma_merged_prefix(w, out, more, more.len() as int);
                let r = merged(w, out, more, more.len() as int);
                assert(r.take(out.len() as int)[k] == r[k]);
                assert(entry_list(w, n).0[k] == o);
            },
            _ => {
                assert(entry_list(w, n).0[k] == o);
            },
        }
    } else {
        assert(entry_list(w, n).0[out.len() as int] == o);
    }
}

/// The entry program's own declarations all stay, absent ones aside: an import
/// never takes the place of one.
pub proof fn law_entry_items_stay(w: World, i: int)
    requires
        sized(w),
        0 <= i < w.entry.len(),
        !(w.entry[i] is Import),
        kept(w.entry[i], w.debug, w.host),
    ensures
        program_list(w).contains(
            (Origin { file: w.sources.len() as usize, index: i as usize }),
        ),
{
    lemma_entry_item(w, w.entry.len(), i);
    let all = entry_list(w, w.entry.len()).0;
    lemma_present(w, all, all.len() as int);
    assert(all.take(all.len() as int) =~= all);
    let o = Origin { file: w.sources.len() as usize, index: i as usize };
    assert(w.items(w.sources.len() as int) == w.entry);
    assert(w.item(o) == w.entry[i]);
}

// ---------------------------------------------------------------------------
// Imported declarations
// ---------------------------------------------------------------------------

/// Imported entries of the list are pairwise different declarations.
pub open spec fn once_each(w: World, s: Seq<Origin>) -> bool {
    forall|i: int, j: int|
        0 <= i < j < s.len() && (#[trigger] s[i]).file < w.sources.len() && (#[trigger] s[j]).file
            < w.sources.len() ==> !same_decl(w, s[i], s[j])
}

proof fn lemma_merged_once(w: World, out: Seq<Origin>, more: Seq<Origin>, n: int)
    requires
        n <= more.len(),
        once_each(w, out),
    ensures
        once_each(w, merged(w, out, more, n)),
    decreases n,
{
    if n > 0 {
        lemma_merged_once(w, out, more, n - 1);
        let m = merged(w, out, more, n - 1);
        let x = more[n - 1];
        if !imported(w, m, x) {
            let r = m.push(x);
            assert forall|i: int, j: int|
                0 <= i < j < r.len() && (#[trigger] r[i]).file < w.sources.len() && (
                #[trigger] r[j]).file < w.sources.len() implies !same_decl(w, r[i], r[j]) by {
                if j < m.len() {
                    assert(r[i] == m[i] && r[j] == m[j]);
                } else {
                    assert(r[i] == m[i]);
                }
            }
        }
    }
}

proof fn lemma_entry_once(w: World, n: nat)
    requires
        sized(w),
        n <= w.entry.len(),
    ensures
        once_each(w, entry_list(w, n).0),
    decreases n,
{
    if n > 0 {
        lemma_entry_once(w, (n - 1) as nat);
        let (out, st) = entry_list(w, (n - 1) as nat);
        match w.entry[n - 1] {
            Item::Import(imp) => {
                let (more, st2) = brought(w, w.sources.len() as int, imp, true, entry_open(w), st);
                lemma_merged_once(w, out, more, more.len() as int);
            },
            _ => {
                let r = entry_list(w, n).0;
                assert forall|i: int, j: int|
                    0 <= i < j < r.len() && (#[trigger] r[i]).file < w.sources.len() && (
                    #[trigger] r[j]).file < w.sources.len() implies !same_decl(w, r[i], r[j]) by {
                    assert(r[i] == out[i] && r[j] == out[j]);
                }
            },
        }
    }
}

proof fn lemma_present_once(w: World, list: Seq<Origin>, n: int)
    requires
        0 <= n <= list.len(),
        once_each(w, list),
    ensures
        once_each(w, present(w, list, n)),
    decreases n,
{
    if n > 0 {
        lemma_present_once(w, list, n - 1);
        lemma_present(w, list, n - 1);
        let a = present(w, list, n - 1);
        let x = list[n - 1];
        let r = a.push(x);
        assert forall|i: int, j: int|
            0 <= i < j < r.len() && (#[trigger] r[i]).file < w.sources.len() && (
            #[trigger] r[j]).file < w.sources.len() implies !same_decl(w, r[i], r[j]) by {
            if j < a.len() {
                assert(r[i] == a[i] && r[j] == a[j]);
            } else {
                assert(r[i] == a[i]);
                assert(a.contains(a[i]));
                let t = list.take(n - 1);
                let k = choose|k: int| 0 <= k < t.len() && t[k] == a[i];
                assert(list[k] == a[i]);
            }
        }
    }
}

/// No declaration is imported twice: of the modules that expose a name the
/// first one imported provides it, and no block comes in twice.
pub proof fn law_imported_once(w: World)
    requires
        sized(w),
    ensures
        once_each(w, program_list(w)),
{
    let all = entry_list(w, w.entry.len()).0;
    lemma_entry_once(w, w.entry.len());
    lemma_present_once(w, all, all.len() as int);
}

// ---------------------------------------------------------------------------
// Nothing is left to import
// ---------------------------------------------------------------------------

/// The origins stand for items, none of which is an import.
pub open spec fn settled(w: World, s: Seq<Origin>) -> bool {
    forall|i: int|
        0 <= i < s.len() ==> w.valid(#[trigger] s[i]) && !(w.item(s[i]) is Import)
}

/// The origin stands for an item of a source other than the entry file.
pub open spec fn is_foreign(w: World, o: Origin) -> bool {
    o.file < w.sources.len() && !is_entry(w, o.file as int)
}

/// The origins stand for items of sources other than the entry file, none of
/// which is an import.
pub open spec fn inlined(w: World, s: Seq<Origin>) -> bool {
    settled(w, s) && forall|i: int| 0 <= i < s.len() ==> is_foreign(w, #[trigger] s[i])
}

/// The entry file counts as open.
spec fn entry_is_open(w: World, open: Seq<bool>) -> bool {
    forall|g: int| 0 <= g < open.len() && is_entry(w, g) ==> #[trigger] open[g]
}

pub open spec fn inlined_progress(w: World, st: Progress) -> bool {
    forall|g: int|
        0 <= g < st.done.len() ==> ((#[trigger] st.done[g]) matches Some(l) ==> inlined(w, l))
}

proof fn lemma_settled_part(w: World, list: Seq<Origin>, s: Seq<Origin>)
    requires
        settled(w, list),
        forall|o: Origin| #[trigger] s.contains(o) ==> list.contains(o),
    ensures
        settled(w, s),
        inlined(w, list) ==> inlined(w, s),
{
    assert forall|i: int| 0 <= i < s.len() implies w.valid(#[trigger] s[i]) && !(w.item(
        s[i],
    ) is Import) && (inlined(w, list) ==> is_foreign(w, s[i])) by {
        assert(s.contains(s[i]));
        let k = choose|k: int| 0 <= k < list.len() && list[k] == s[i];
        assert(w.valid(list[k]));
    }
}

proof fn lemma_taken_inlined(w: World, imp: ImportDecl, list: Seq<Origin>)
    requires
        inlined(w, list),
    ensures
        inlined(w, taken(w, imp, list)),
{
    assert forall|o: Origin| #[trigger] taken(w, imp, list).contains(o) implies list.contains(
        o,
    ) by {
        law_selection_adds_nothing(w, imp, list, o);
    }
    lemma_settled_part(w, list, taken(w, imp, list));
}

proof fn lemma_present_settled(w: World, list: Seq<Origin>)
    requires
        settled(w, list),
    ensures
        settled(w, present(w, list, list.len() as int)),
        inlined(w, list) ==> inlined(w, present(w, list, list.len() as int)),
{
    lemma_present(w, list, list.len() as int);
    assert(list.take(list.len() as int) =~= list);
    lemma_settled_part(w, list, present(w, list, list.len() as int));
}

pub(crate) proof fn lemma_located(w: World, path: Seq<Seq<char>>)
    ensures
        located(w, path) matches Some(g) ==> 0 <= g < w.sources.len(),
{
    match crate::modules::resolve::resolved(path, w.bases, w.paths()) {
        Some(f) => {
            lemma_index_bound(w.paths(), f);
        },
        None => {},
    }
}

proof fn lemma_index_bound(s: Seq<Seq<char>>, x: Seq<char>)
    ensures
        index_in(s, x) matches Some(k) ==> 0 <= k < s.len(),
    decreases s.len(),
{
    if s.len() > 0 {
        lemma_index_bound(s.drop_last(), x);
    }
}

proof fn lemma_brought_inlined(
    w: World,
    file: int,
    imp: ImportDecl,
    first: bool,
    open: Seq<bool>,
    st: Progress,
)
    requires
        sized(w),
        0 <= file <= w.sources.len(),
        entry_is_open(w, open),
        open.len() == w.sources.len(),
        st.done.len() == w.sources.len(),
        inlined_progress(w, st),
    ensures
        inlined(w, brought(w, file, imp, first, open, st).0),
        inlined_progress(w, brought(w, file, imp, first, open, st).1),
        brought(w, file, imp, first, open, st).1.done.len() == w.sources.len(),
    decreases unmarked(open), 0nat,
{
    lemma_located(w, texts(imp.path@));
    match located(w, texts(imp.path@)) {
        None => {},
        Some(g) => {
            if st.done[g] is Some {
                lemma_taken_inlined(w, imp, st.done[g]->0);
            } else if open[g] || !(w.sources[g].content is Parsed) {
            } else {
                lemma_mark(open, g);
                let begun = Progress { seen: st.seen.update(g, true), ..st };
                let now = open.update(g, true);
                lemma_expanded_inlined(w, g, w.items(g).len(), !st.seen[g], now, begun);
                let (all, st2) = expanded(w, g, w.items(g).len(), !st.seen[g], now, begun);
                lemma_present_settled(w, all);
                let list = present(w, all, all.len() as int);
                lemma_taken_inlined(w, imp, list);
                let st3 = brought(w, file, imp, first, open, st).1;
                assert forall|h: int| 0 <= h < st3.done.len() implies ((
                #[trigger] st3.done[h]) matches Some(l) ==> inlined(w, l)) by {
                    if h != g {
                        assert(st3.done[h] == st2.done[h]);
                    }
                }
            }
        },
    }
}

proof fn lemma_expanded_inlined(
    w: World,
    file: int,
    n: nat,
    first: bool,
    open: Seq<bool>,
    st: Progress,
)
    requires
        sized(w),
        0 <= file < w.sources.len(),
        !is_entry(w, file),
        entry_is_open(w, open),
        n <= w.items(file).len(),
        open.len() == w.sources.len(),
        st.done.len() == w.sources.len(),
        inlined_progress(w, st),
    ensures
        inlined(w, expanded(w, file, n, first, open, st).0),
        inlined_progress(w, expanded(w, file, n, first, open, st).1),
        expanded(w, file, n, first, open, st).1.done.len() == w.sources.len(),
    decreases unmarked(open), n,
{
    if n > 0 {
        lemma_expanded_inlined(w, file, (n - 1) as nat, first, open, st);
        let (out, st1) = expanded(w, file, (n - 1) as nat, first, open, st);
        match w.items(file)[n - 1] {
            Item::Import(imp) => {
                lemma_brought_inlined(w, file, imp, first, open, st1);
                let more = brought(w, file, imp, first, open, st1).0;
                let r = out + more;
                assert forall|i: int| 0 <= i < r.len() implies w.valid(#[trigger] r[i]) && !(w.item(
                    r[i],
                ) is Import) && is_foreign(w, r[i]) by {
                    if i < out.len() {
                        assert(r[i] == out[i]);
                    } else {
                        assert(r[i] == more[i - out.len()]);
                    }
                }
            },
            _ => {
                let o = Origin { file: file as usize, index: (n - 1) as usize };
                assert(w.valid(o));
            },
        }
    }
}

proof fn lemma_entry_settled(w: World, n: nat)
    requires
        sized(w),
        n <= w.entry.len(),
    ensures
        settled(w, entry_list(w, n).0),
        inlined_progress(w, entry_list(w, n).1),
        entry_list(w, n).1.done.len() == w.sources.len(),
    decreases n,
{
    if n > 0 {
        lemma_entry_settled(w, (n - 1) as nat);
        let (out, st) = entry_list(w, (n - 1) as nat);
        match w.entry[n - 1] {
            Item::Import(imp) => {
                lemma_brought_inlined(w, w.sources.len() as int, imp, true, entry_open(w), st);
                let more = brought(w, w.sources.len() as int, imp, true, entry_open(w), st).0;
                lemma_merged_prefix(w, out, more, more.len() as int);
                let r = merged(w, out, more, more.len() as int);
                assert forall|i: int| 0 <= i < r.len() implies w.valid(#[trigger] r[i]) && !(w.item(
                    r[i],
                ) is Import) by {
                    if i < out.len() {
                        assert(r.take(out.len() as int)[i] == out[i]);
                    } else {
                        assert(more.contains(r[i]));
                        let k = choose|k: int| 0 <= k < more.len() && more[k] == r[i];
                        assert(w.valid(more[k]));
                    }
                }
            },
            _ => {
                let o = Origin { file: w.sources.len() as usize, index: (n - 1) as usize };
                assert(w.items(w.sources.len() as int) == w.entry);
                assert(w.entry.len() == w.items(w.sources.len() as int).len());
                assert(w.valid(o));
            },
        }
    }
}

/// The expanded program is flat: every entry stands for an item, and none is
/// an `import` any more.
pub proof fn law_nothing_left_to_import(w: World)
    requires
        sized(w),
    ensures
        settled(w, program_list(w)),
{
    lemma_entry_settled(w, w.entry.len());
    lemma_present_settled(w, entry_list(w, w.entry.len()).0);
}

/// Every entry of the list is an item of the entry program or of another file.
spec fn own_or_foreign(w: World, s: Seq<Origin>) -> bool {
    forall|i: int|
        0 <= i < s.len() ==> (#[trigger] s[i]).file >= w.sources.len() || is_foreign(w, s[i])
}

proof fn lemma_entry_foreign(w: World, n: nat)
    requires
        sized(w),
        n <= w.entry.len(),
    ensures
        own_or_foreign(w, entry_list(w, n).0),
    decreases n,
{
    if n > 0 {
        lemma_entry_foreign(w, (n - 1) as nat);
        lemma_entry_settled(w, (n - 1) as nat);
        let (out, st) = entry_list(w, (n - 1) as nat);
        match w.entry[n - 1] {
            Item::Import(imp) => {
                lemma_brought_inlined(w, w.sources.len() as int, imp, true, entry_open(w), st);
                let more = brought(w, w.sources.len() as int, imp, true, entry_open(w), st).0;
                lemma_merged_prefix(w, out, more, more.len() as int);
                let r = merged(w, out, more, more.len() as int);
                assert forall|i: int| 0 <= i < r.len() implies (#[trigger] r[i]).file
                    >= w.sources.len() || is_foreign(w, r[i]) by {
                    if i < out.len() {
                        assert(r.take(out.len() as int)[i] == out[i]);
                    } else {
                        assert(more.contains(r[i]));
                        let k = choose|k: int| 0 <= k < more.len() && more[k] == r[i];
                        assert(is_foreign(w, more[k]));
                    }
                }
            },
            _ => {},
        }
    }
}

/// No declaration of the entry file comes in through an import: a module that
/// imports the entry back closes a cycle, which is cut.
pub proof fn law_entry_is_not_imported(w: World, i: int)
    requires
        sized(w),
        0 <= i < program_list(w).len(),
        program_list(w)[i].file < w.sources.len(),
    ensures
        !is_entry(w, program_list(w)[i].file as int),
{
    let all = entry_list(w, w.entry.len()).0;
    lemma_entry_foreign(w, w.entry.len());
    lemma_present(w, all, all.len() as int);
    let o = program_list(w)[i];
    assert(program_list(w).contains(o));
    assert(all.take(all.len() as int) =~= all);
    let k = choose|k: int| 0 <= k < all.len() && all[k] == o;
    assert(is_foreign(w, all[k]));
}

// ---------------------------------------------------------------------------
// No item stands twice
// ---------------------------------------------------------------------------

/// The entries of the entry program's own are among its first `n` items.
spec fn own_below(w: World, s: Seq<Origin>, n: nat) -> bool {
    forall|i: int| 0 <= i < s.len() && (#[trigger] s[i]).file >= w.sources.len() ==> s[i].index < n
}

proof fn lemma_merged_distinct(w: World, out: Seq<Origin>, more: Seq<Origin>, n: int, bound: nat)
    requires
        0 <= n <= more.len(),
        out.no_duplicates(),
        own_below(w, out, bound),
        inlined(w, more),
    ensures
        merged(w, out, more, n).no_duplicates(),
        own_below(w, merged(w, out, more, n), bound),
    decreases n,
{
    if n > 0 {
        lemma_merged_distinct(w, out, more, n - 1, bound);
        let m = merged(w, out, more, n - 1);
        let x = more[n - 1];
        if !imported(w, m, x) {
            assert(is_foreign(w, x));
            assert forall|k: int| 0 <= k < m.len() implies #[trigger] m[k] != x by {
                if m[k] == x {
                    assert(same_decl(w, m[k], x));
                }
            }
        }
    }
}

proof fn lemma_entry_distinct(w: World, n: nat)
    requires
        sized(w),
        n <= w.entry.len(),
    ensures
        entry_list(w, n).0.no_duplicates(),
        own_below(w, entry_list(w, n).0, n),
    decreases n,
{
    if n > 0 {
        lemma_entry_distinct(w, (n - 1) as nat);
        let (out, st) = entry_list(w, (n - 1) as nat);
        match w.entry[n - 1] {
            Item::Import(imp) => {
                lemma_entry_settled(w, (n - 1) as nat);
                lemma_brought_inlined(w, w.sources.len() as int, imp, true, entry_open(w), st);
                let more = brought(w, w.sources.len() as int, imp, true, entry_open(w), st).0;
                lemma_merged_distinct(w, out, more, more.len() as int, (n - 1) as nat);
            },
            _ => {
                assert(w.entry.len() == w.items(w.sources.len() as int).len());
                let o = Origin { file: w.sources.len() as usize, index: (n - 1) as usize };
                assert forall|k: int| 0 <= k < out.len() implies #[trigger] out[k] != o by {}
            },
        }
    }
}

proof fn lemma_present_distinct(w: World, list: Seq<Origin>, n: int)
    requires
        0 <= n <= list.len(),
        list.no_duplicates(),
    ensures
        present(w, list, n).no_duplicates(),
    decreases n,
{
    if n > 0 {
        lemma_present_distinct(w, list, n - 1);
        lemma_present(w, list, n - 1);
        let a = present(w, list, n - 1);
        assert forall|k: int| 0 <= k < a.len() implies #[trigger] a[k] != list[n - 1] by {
            assert(a.contains(a[k]));
            let t = list.take(n - 1);
            let j = choose|j: int| 0 <= j < t.len() && t[j] == a[k];
            assert(list[j] == a[k]);
        }
    }
}

/// No item stands twice in the expanded program.
pub proof fn law_no_item_twice(w: World)
    requires
        sized(w),
    ensures
        program_list(w).no_duplicates(),
{
    let all = entry_list(w, w.entry.len()).0;
    lemma_entry_distinct(w, w.entry.len());
    lemma_present_distinct(w, all, all.len() as int);
}

} // verus!
