//! Imports of imported modules are followed, along any chain and around any
//! circle, and every file that gives something to the program is named.
use crate::ast::{ImportDecl, Item};
use crate::cfg::kept;
use crate::graph::{lemma_mark, unmarked};
use crate::modules::expand::{
    begun, brought, entry_list, entry_open, expanded, imported, is_entry, located, present,
    program_list, taken, visited, Origin, Progress, World,
};
use crate::modules::import_laws::{
    lemma_imported_grows, lemma_merged_imports, lemma_provided, origin, owns, provides,
};
use crate::modules::laws::{
    law_selection_adds_nothing, lemma_located, lemma_merged_prefix, lemma_present, sized,
};
use crate::text::texts;
use vstd::prelude::*;

verus! {

/// A source that can be imported: another file than the entry, and parsed.
pub open spec fn is_module(w: World, g: int) -> bool {
    0 <= g < w.sources.len() && !is_entry(w, g) && w.sources[g].content is Parsed
}

/// Item `at` of source `a` imports the whole of source `b`.
pub open spec fn imports_whole(w: World, a: int, at: int, b: int) -> bool {
    &&& 0 <= at < w.items(a).len()
    &&& w.items(a)[at] matches Item::Import(imp) && imp.symbols is None && located(
        w,
        texts(imp.path@),
    ) == Some(b)
}

/// Source `a` imports the whole of source `b`.
pub open spec fn leads_to(w: World, a: int, b: int) -> bool {
    exists|at: int| #[trigger] imports_whole(w, a, at, b)
}

/// Modules, each of which imports the whole of the next one.
pub open spec fn is_import_chain(w: World, c: Seq<int>) -> bool {
    &&& c.len() > 0
    &&& forall|i: int| 0 <= i < c.len() ==> is_module(w, #[trigger] c[i])
    &&& forall|i: int| 0 <= i < c.len() - 1 ==> #[trigger] leads_to(w, c[i], c[i + 1])
}

/// All files of the list have been read.
pub open spec fn all_read(list: Seq<Origin>, seen: Seq<bool>) -> bool {
    forall|i: int|
        0 <= i < list.len() && (#[trigger] list[i]).file < seen.len() ==> seen[list[i].file as int]
}

/// A chain from `g` leads into the list, or into a file that is being expanded
/// and is marked as cut.
spec fn covers(w: World, c: Seq<int>, list: Seq<Origin>, open: Seq<bool>, cut: Seq<bool>) -> bool {
    owns(w, c.last(), list) || exists|j: int|
        0 <= j < c.len() && open[#[trigger] c[j]] && cut[c[j]]
}

spec fn steady(w: World, open: Seq<bool>, st: Progress) -> bool {
    let n = w.sources.len();
    &&& open.len() == n && st.done.len() == n && st.seen.len() == n && st.cut.len() == n
    &&& forall|x: int| 0 <= x < n && #[trigger] st.cut[x] ==> open[x]
    &&& forall|g: int|
        0 <= g < n ==> ((#[trigger] st.done[g]) matches Some(l) ==> all_read(l, st.seen))
    &&& forall|c: Seq<int>|
        #![trigger is_import_chain(w, c)]
        is_import_chain(w, c) ==> (st.done[c[0]] matches Some(l) ==> owns(w, c.last(), l))
}

spec fn moves_on(a: Progress, b: Progress) -> bool {
    &&& b.seen.len() == a.seen.len() && b.cut.len() == a.cut.len()
    &&& forall|x: int| 0 <= x < a.cut.len() && #[trigger] a.cut[x] ==> b.cut[x]
    &&& forall|x: int| 0 <= x < a.seen.len() && #[trigger] a.seen[x] ==> b.seen[x]
}

proof fn lemma_read_grows(list: Seq<Origin>, a: Seq<bool>, b: Seq<bool>)
    requires
        a.len() == b.len(),
        all_read(list, a),
        forall|x: int| 0 <= x < a.len() && #[trigger] a[x] ==> b[x],
    ensures
        all_read(list, b),
{
    assert forall|i: int| 0 <= i < list.len() && (#[trigger] list[i]).file < b.len() implies b[
        list[i].file as int
    ] by {
        assert(a[list[i].file as int]);
    }
}

proof fn lemma_read_part(part: Seq<Origin>, list: Seq<Origin>, seen: Seq<bool>)
    requires
        all_read(list, seen),
        forall|o: Origin| #[trigger] part.contains(o) ==> list.contains(o),
    ensures
        all_read(part, seen),
{
    assert forall|i: int| 0 <= i < part.len() && (#[trigger] part[i]).file < seen.len() implies seen[
        part[i].file as int
    ] by {
        assert(part.contains(part[i]));
        let k = choose|k: int| 0 <= k < list.len() && list[k] == part[i];
        assert(seen[list[k].file as int]);
    }
}

proof fn lemma_read_taken(w: World, imp: ImportDecl, list: Seq<Origin>, seen: Seq<bool>)
    requires
        all_read(list, seen),
    ensures
        all_read(taken(w, imp, list), seen),
{
    let t = taken(w, imp, list);
    assert forall|o: Origin| #[trigger] t.contains(o) implies list.contains(o) by {
        law_selection_adds_nothing(w, imp, list, o);
    }
    lemma_read_part(t, list, seen);
}

proof fn lemma_owns_kept(w: World, g: int, all: Seq<Origin>)
    requires
        sized(w),
        0 <= g < w.sources.len(),
        owns(w, g, all),
    ensures
        owns(w, g, present(w, all, all.len() as int)),
{
    let list = present(w, all, all.len() as int);
    lemma_present(w, all, all.len() as int);
    assert(all.take(all.len() as int) =~= all);
    assert forall|i: int|
        0 <= i < w.items(g).len() && !(w.items(g)[i] is Import) && kept(
            w.items(g)[i],
            w.debug,
            w.host,
        ) implies list.contains(#[trigger] origin(g, i)) by {
        assert(all.contains(origin(g, i)));
        assert(w.item(origin(g, i)) == w.items(g)[i]);
    }
}

proof fn lemma_owns_more(w: World, g: int, a: Seq<Origin>, b: Seq<Origin>)
    requires
        owns(w, g, a),
        forall|o: Origin| #[trigger] a.contains(o) ==> b.contains(o),
    ensures
        owns(w, g, b),
{
}

proof fn lemma_chain_rest(w: World, c: Seq<int>, j: int)
    requires
        is_import_chain(w, c),
        0 <= j < c.len(),
    ensures
        is_import_chain(w, c.skip(j)),
        c.skip(j).last() == c.last(),
        c.skip(j)[0] == c[j],
{
    let d = c.skip(j);
    assert forall|i: int| 0 <= i < d.len() implies is_module(w, #[trigger] d[i]) by {
        assert(d[i] == c[i + j]);
    }
    assert forall|i: int| 0 <= i < d.len() - 1 implies #[trigger] leads_to(w, d[i], d[i + 1]) by {
        assert(leads_to(w, c[i + j], c[i + j + 1]));
    }
}

/// A chain that comes back to its start is no longer than its last round.
proof fn lemma_chain_closes(
    w: World,
    g: int,
    c: Seq<int>,
    list: Seq<Origin>,
    open: Seq<bool>,
    cut: Seq<bool>,
)
    requires
        0 <= g < w.sources.len(),
        open.len() == w.sources.len(),
        cut.len() == w.sources.len(),
        is_import_chain(w, c),
        c[0] == g,
        forall|d: Seq<int>| #[trigger]
            is_import_chain(w, d) && d[0] == g ==> owns(w, d.last(), list) || exists|j: int|
                1 <= j < d.len() && open.update(g, true)[#[trigger] d[j]] && cut[d[j]],
    ensures
        covers(w, c, list, open, cut.update(g, false)),
    decreases c.len(),
{
    let cut2 = cut.update(g, false);
    if !owns(w, c.last(), list) {
        let j = choose|j: int|
            1 <= j < c.len() && open.update(g, true)[#[trigger] c[j]] && cut[c[j]];
        assert(is_module(w, c[j]));
        if c[j] == g {
            lemma_chain_rest(w, c, j);
            let d = c.skip(j);
            lemma_chain_closes(w, g, d, list, open, cut);
            let k = choose|k: int| 0 <= k < d.len() && open[#[trigger] d[k]] && cut2[d[k]];
            assert(d[k] == c[k + j]);
            assert(open[c[k + j]] && cut2[c[k + j]]);
        } else {
            assert(open[c[j]] && cut2[c[j]]);
        }
    }
}

#[verifier::rlimit(60)]
proof fn lemma_brought(
    w: World,
    file: int,
    imp: ImportDecl,
    first: bool,
    open: Seq<bool>,
    st: Progress,
)
    requires
        sized(w),
        steady(w, open, st),
        forall|x: int| 0 <= x < open.len() && is_entry(w, x) ==> #[trigger] open[x],
    ensures
        steady(w, open, brought(w, file, imp, first, open, st).1),
        moves_on(st, brought(w, file, imp, first, open, st).1),
        all_read(
            brought(w, file, imp, first, open, st).0,
            brought(w, file, imp, first, open, st).1.seen,
        ),
        forall|c: Seq<int>| #[trigger]
            is_import_chain(w, c) && imp.symbols is None && located(w, texts(imp.path@)) == Some(
                c[0],
            ) ==> covers(
                w,
                c,
                brought(w, file, imp, first, open, st).0,
                open,
                brought(w, file, imp, first, open, st).1.cut,
            ),
    decreases unmarked(open), 0nat,
{
    lemma_located(w, texts(imp.path@));
    let (out, end) = brought(w, file, imp, first, open, st);
    match located(w, texts(imp.path@)) {
        None => {},
        Some(g) => {
            if st.done[g] is Some {
                lemma_read_taken(w, imp, st.done[g]->0, st.seen);
            } else if open[g] {
                assert forall|c: Seq<int>| #[trigger]
                    is_import_chain(w, c) && imp.symbols is None && Some(g) == Some(
                        c[0],
                    ) implies covers(w, c, out, open, end.cut) by {
                    assert(is_module(w, c[0]));
                    assert(open[c[0]] && end.cut[c[0]]);
                }
            } else if !(w.sources[g].content is Parsed) {
                assert forall|c: Seq<int>| #[trigger]
                    is_import_chain(w, c) && imp.symbols is None && Some(g) == Some(
                        c[0],
                    ) implies covers(w, c, out, open, end.cut) by {
                    assert(is_module(w, c[0]));
                }
                assert forall|h: int| 0 <= h < w.sources.len() implies ((
                #[trigger] end.done[h]) matches Some(l) ==> all_read(l, end.seen)) by {
                    if st.done[h] is Some {
                        lemma_read_grows(st.done[h]->0, st.seen, end.seen);
                    }
                }
            } else {
                lemma_mark(open, g);
                let start = Progress { seen: st.seen.update(g, true), ..st };
                let now = open.update(g, true);
                assert forall|h: int| 0 <= h < w.sources.len() implies ((
                #[trigger] start.done[h]) matches Some(l) ==> all_read(l, start.seen)) by {
                    if st.done[h] is Some {
                        lemma_read_grows(st.done[h]->0, st.seen, start.seen);
                    }
                }
                assert(steady(w, now, start));
                lemma_expanded(w, g, w.items(g).len(), !st.seen[g], now, start);
                let (all, st2) = expanded(w, g, w.items(g).len(), !st.seen[g], now, start);
                let list = present(w, all, all.len() as int);
                lemma_present(w, all, all.len() as int);
                assert(all.take(all.len() as int) =~= all);
                assert(all_read(list, st2.seen)) by {
                    assert forall|o: Origin| #[trigger] list.contains(o) implies all.contains(o) by {}
                    lemma_read_part(list, all, st2.seen);
                }
                lemma_read_taken(w, imp, list, st2.seen);
                assert forall|d: Seq<int>| #[trigger] is_import_chain(w, d) && d[0] == g implies owns(
                    w,
                    d.last(),
                    list,
                ) || exists|j: int| 1 <= j < d.len() && now[#[trigger] d[j]] && st2.cut[d[j]] by {
                    assert(is_module(w, d.last()));
                    if d.len() == 1 {
                        assert(owns(w, g, all));
                        lemma_owns_kept(w, g, all);
                    } else {
                        let zero = 0int;
                        assert(leads_to(w, d[zero], d[zero + 1]));
                        let at = choose|at: int| #[trigger] imports_whole(w, g, at, d[1]);
                        assert(imports_whole(w, g, at, d[1]));
                        if owns(w, d.last(), all) {
                            lemma_owns_kept(w, d.last(), all);
                        }
                    }
                }
                let cut = st2.cut.update(g, false);
                assert forall|c: Seq<int>| #[trigger]
                    is_import_chain(w, c) && c[0] == g implies covers(w, c, list, open, cut) by {
                    lemma_chain_closes(w, g, c, list, open, st2.cut);
                }
                assert(end.cut == cut);
                assert forall|c: Seq<int>| #[trigger] is_import_chain(w, c) implies (
                end.done[c[0]] matches Some(l) ==> owns(w, c.last(), l)) by {
                    assert(is_module(w, c[0]));
                    if c[0] == g && end.done[g] == Some(list) && !(st2.done[g] == Some(list)) {
                        assert(crate::modules::expand::uncut(cut));
                        assert(covers(w, c, list, open, cut));
                        if !owns(w, c.last(), list) {
                            let j = choose|j: int|
                                0 <= j < c.len() && open[#[trigger] c[j]] && cut[c[j]];
                            assert(is_module(w, c[j]));
                            assert(!cut[c[j]]);
                        }
                    }
                }
                assert forall|h: int| 0 <= h < w.sources.len() implies ((
                #[trigger] end.done[h]) matches Some(l) ==> all_read(l, end.seen)) by {
                    assert(end.done[h] == Some(list) || end.done[h] == st2.done[h]);
                }
                assert(steady(w, open, end));
                assert(moves_on(st, end)) by {
                    assert forall|x: int| 0 <= x < st.cut.len() && #[trigger] st.cut[x] implies end.cut[x] by {
                        assert(start.cut[x]);
                        assert(st2.cut[x]);
                        assert(open[x]);
                    }
                    assert forall|x: int| 0 <= x < st.seen.len() && #[trigger] st.seen[x] implies end.seen[x] by {
                        assert(start.seen[x]);
                        assert(st2.seen[x]);
                    }
                }
            }
        },
    }
}

#[verifier::rlimit(60)]
proof fn lemma_expanded(w: World, file: int, n: nat, first: bool, open: Seq<bool>, st: Progress)
    requires
        sized(w),
        0 <= file < w.sources.len(),
        n <= w.items(file).len(),
        steady(w, open, st),
        open[file],
        st.seen[file],
        forall|x: int| 0 <= x < open.len() && is_entry(w, x) ==> #[trigger] open[x],
    ensures
        steady(w, open, expanded(w, file, n, first, open, st).1),
        moves_on(st, expanded(w, file, n, first, open, st).1),
        all_read(
            expanded(w, file, n, first, open, st).0,
            expanded(w, file, n, first, open, st).1.seen,
        ),
        forall|i: int|
            0 <= i < n && !(w.items(file)[i] is Import) ==> expanded(
                w,
                file,
                n,
                first,
                open,
                st,
            ).0.contains(#[trigger] origin(file, i)),
        forall|c: Seq<int>, at: int|
            #![trigger is_import_chain(w, c), imports_whole(w, file, at, c[1])]
            is_import_chain(w, c) && c[0] == file && c.len() > 1 && at < n && imports_whole(
                w,
                file,
                at,
                c[1],
            ) ==> owns(w, c.last(), expanded(w, file, n, first, open, st).0) || exists|j: int|
                1 <= j < c.len() && open[#[trigger] c[j]] && expanded(
                    w,
                    file,
                    n,
                    first,
                    open,
                    st,
                ).1.cut[c[j]],
    decreases unmarked(open), n,
{
    let (r, end) = expanded(w, file, n, first, open, st);
    if n > 0 {
        lemma_expanded(w, file, (n - 1) as nat, first, open, st);
        let (out, st1) = expanded(w, file, (n - 1) as nat, first, open, st);
        assert forall|o: Origin| #[trigger] out.contains(o) implies r.contains(o) by {
            let k = choose|k: int| 0 <= k < out.len() && out[k] == o;
            assert(r[k] == o);
        }
        match w.items(file)[n - 1] {
            Item::Import(imp) => {
                lemma_brought(w, file, imp, first, open, st1);
                let more = brought(w, file, imp, first, open, st1).0;
                assert forall|o: Origin| #[trigger] more.contains(o) implies r.contains(o) by {
                    let k = choose|k: int| 0 <= k < more.len() && more[k] == o;
                    assert(r[out.len() + k] == o);
                }
                lemma_read_grows(out, st1.seen, end.seen);
                assert forall|i: int|
                    0 <= i < r.len() && (#[trigger] r[i]).file < end.seen.len() implies end.seen[
                    r[i].file as int
                ] by {
                    if i < out.len() {
                        assert(r[i] == out[i]);
                    } else {
                        assert(r[i] == more[i - out.len()]);
                    }
                }
                assert forall|c: Seq<int>, at: int|
                    #![trigger is_import_chain(w, c), imports_whole(w, file, at, c[1])]
                    is_import_chain(w, c) && c[0] == file && c.len() > 1 && at < n && imports_whole(
                        w,
                        file,
                        at,
                        c[1],
                    ) implies owns(w, c.last(), r) || exists|j: int|
                    1 <= j < c.len() && open[#[trigger] c[j]] && end.cut[c[j]] by {
                    if at < n - 1 {
                        if owns(w, c.last(), out) {
                            lemma_owns_more(w, c.last(), out, r);
                        } else {
                            let j = choose|j: int|
                                1 <= j < c.len() && open[#[trigger] c[j]] && st1.cut[c[j]];
                            assert(is_module(w, c[j]));
                            assert(end.cut[c[j]]);
                        }
                    } else {
                        lemma_chain_rest(w, c, 1);
                        let d = c.skip(1);
                        assert(covers(w, d, more, open, end.cut));
                        if owns(w, d.last(), more) {
                            lemma_owns_more(w, c.last(), more, r);
                        } else {
                            let k = choose|k: int|
                                0 <= k < d.len() && open[#[trigger] d[k]] && end.cut[d[k]];
                            assert(d[k] == c[k + 1]);
                            assert(open[c[k + 1]] && end.cut[c[k + 1]]);
                        }
                    }
                }
            },
            _ => {
                assert(r[out.len() as int] == origin(file, n - 1));
                assert(end == st1);
                assert forall|i: int|
                    0 <= i < r.len() && (#[trigger] r[i]).file < end.seen.len() implies end.seen[
                    r[i].file as int
                ] by {
                    if i < out.len() {
                        assert(r[i] == out[i]);
                    } else {
                        assert(end.seen[file]);
                    }
                }
                assert forall|c: Seq<int>, at: int|
                    #![trigger is_import_chain(w, c), imports_whole(w, file, at, c[1])]
                    is_import_chain(w, c) && c[0] == file && c.len() > 1 && at < n && imports_whole(
                        w,
                        file,
                        at,
                        c[1],
                    ) implies owns(w, c.last(), r) || exists|j: int|
                    1 <= j < c.len() && open[#[trigger] c[j]] && end.cut[c[j]] by {
                    assert(at < n - 1);
                    if owns(w, c.last(), out) {
                        lemma_owns_more(w, c.last(), out, r);
                    }
                }
            },
        }
    }
}

/// The entry program so far: nothing is cut, and what it names has been read.
proof fn lemma_entry(w: World, n: nat)
    requires
        sized(w),
        n <= w.entry.len(),
    ensures
        steady(w, entry_open(w), entry_list(w, n).1),
        all_read(entry_list(w, n).0, entry_list(w, n).1.seen),
    decreases n,
{
    if n > 0 {
        lemma_entry(w, (n - 1) as nat);
        let (out, st) = entry_list(w, (n - 1) as nat);
        let (r, st2) = entry_list(w, n);
        match w.entry[n - 1] {
            Item::Import(imp) => {
                lemma_brought(w, w.sources.len() as int, imp, true, entry_open(w), st);
                let more = brought(w, w.sources.len() as int, imp, true, entry_open(w), st).0;
                lemma_merged_prefix(w, out, more, more.len() as int);
                lemma_read_grows(out, st.seen, st2.seen);
                assert forall|i: int|
                    0 <= i < r.len() && (#[trigger] r[i]).file < st2.seen.len() implies st2.seen[
                    r[i].file as int
                ] by {
                    if i < out.len() {
                        assert(r.take(out.len() as int)[i] == out[i]);
                        assert(r[i] == out[i]);
                    } else {
                        assert(more.contains(r[i]));
                        let j = choose|j: int| 0 <= j < more.len() && more[j] == r[i];
                        assert(st2.seen[more[j].file as int]);
                    }
                }
            },
            _ => {
                assert forall|i: int|
                    0 <= i < r.len() && (#[trigger] r[i]).file < st2.seen.len() implies st2.seen[
                    r[i].file as int
                ] by {
                    if i < out.len() {
                        assert(r[i] == out[i]);
                    }
                }
            },
        }
    } else {
        assert forall|c: Seq<int>| #[trigger] is_import_chain(w, c) implies (begun(
            w.sources.len(),
        ).done[c[0]] matches Some(l) ==> owns(w, c.last(), l)) by {
            assert(is_module(w, c[0]));
        }
    }
}

proof fn lemma_entry_chain(w: World, n: nat, k: int, c: Seq<int>, o: Origin)
    requires
        sized(w),
        0 <= k < n <= w.entry.len(),
        w.entry[k] matches Item::Import(imp) && imp.symbols is None && located(
            w,
            texts(imp.path@),
        ) == Some(c[0]),
        is_import_chain(w, c),
        o.file < w.sources.len(),
        forall|list: Seq<Origin>| #[trigger] owns(w, c.last(), list) ==> list.contains(o),
    ensures
        imported(w, entry_list(w, n).0, o),
    decreases n,
{
    let (out, st) = entry_list(w, (n - 1) as nat);
    let (r, st2) = entry_list(w, n);
    if k < n - 1 {
        lemma_entry_chain(w, (n - 1) as nat, k, c, o);
        match w.entry[n - 1] {
            Item::Import(other) => {
                let more = brought(w, w.sources.len() as int, other, true, entry_open(w), st).0;
                lemma_merged_prefix(w, out, more, more.len() as int);
            },
            _ => {
                assert(r.take(out.len() as int) =~= out);
            },
        }
        lemma_imported_grows(w, out, r, o);
    } else {
        let imp = w.entry[k]->Import_0;
        lemma_entry(w, (n - 1) as nat);
        lemma_brought(w, w.sources.len() as int, imp, true, entry_open(w), st);
        let more = brought(w, w.sources.len() as int, imp, true, entry_open(w), st).0;
        assert(covers(w, c, more, entry_open(w), st2.cut));
        if !owns(w, c.last(), more) {
            let j = choose|j: int|
                0 <= j < c.len() && entry_open(w)[#[trigger] c[j]] && st2.cut[c[j]];
            assert(is_module(w, c[j]));
        }
        assert(more.contains(o));
        let p = choose|p: int| 0 <= p < more.len() && more[p] == o;
        lemma_merged_imports(w, out, more, more.len() as int);
        assert(more[p].file < w.sources.len());
    }
}

/// Imports are followed to the end: whatever chain of whole imports leads from the
/// entry program to a module, however the modules import each other, every item
/// of that module whose conditions hold is in the program, itself or under its
/// name.
pub proof fn law_imports_of_imports_are_followed(w: World, k: int, c: Seq<int>, i: int)
    requires
        sized(w),
        0 <= k < w.entry.len(),
        w.entry[k] matches Item::Import(imp) && imp.symbols is None && located(
            w,
            texts(imp.path@),
        ) == Some(c[0]),
        is_import_chain(w, c),
        0 <= i < w.items(c.last()).len(),
        !(w.items(c.last())[i] is Import),
        kept(w.items(c.last())[i], w.debug, w.host),
    ensures
        provides(w, c.last(), i),
{
    let o = origin(c.last(), i);
    assert(is_module(w, c.last()));
    assert forall|list: Seq<Origin>| #[trigger] owns(w, c.last(), list) implies list.contains(
        o,
    ) by {
        assert(list.contains(origin(c.last(), i)));
    }
    lemma_entry_chain(w, w.entry.len(), k, c, o);
    lemma_provided(w, c.last(), i);
}

/// Every file that gives an item to the program is among the files it was read
/// from.
pub proof fn law_files_of_the_program_are_named(w: World, p: int)
    requires
        sized(w),
        0 <= p < program_list(w).len(),
    ensures
        visited(w, entry_list(w, w.entry.len()).1, w.path(program_list(w)[p].file as int)),
        visited(w, entry_list(w, w.entry.len()).1, w.importer),
{
    let all = entry_list(w, w.entry.len()).0;
    let st = entry_list(w, w.entry.len()).1;
    lemma_entry(w, w.entry.len());
    lemma_present(w, all, all.len() as int);
    assert(all.take(all.len() as int) =~= all);
    let o = program_list(w)[p];
    assert(program_list(w).contains(o));
    let q = choose|q: int| 0 <= q < all.len() && all[q] == o;
    if o.file < w.sources.len() {
        assert(st.seen[all[q].file as int]);
        assert(w.path(o.file as int) == w.path(o.file as int));
    }
}

} // verus!
