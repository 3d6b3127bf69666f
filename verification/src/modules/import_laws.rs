//! What imports bring into a program, and which of them are reported.
use crate::ast::{ImportDecl, Item};
use crate::cfg::kept;
use crate::graph::{lemma_mark, unmarked};
use crate::modules::expand::{
    begun, brought, entry_list, entry_open, expanded, imported, is_entry, located, merged, present,
    program_list, same_decl, taken, unresolved, unusable, Failure, Origin, Progress, World,
};
use crate::modules::laws::{
    law_selection_adds_nothing, lemma_located, lemma_merged_prefix, lemma_present, sized,
};
use crate::modules::selection::{declares_name, law_listed_symbols_are_taken};
use crate::text::{join, texts};
use vstd::prelude::*;

verus! {

/// The list holds every item of source `g` that is no import and whose
/// conditions hold.
pub open spec fn owns(w: World, g: int, list: Seq<Origin>) -> bool {
    forall|i: int|
        0 <= i < w.items(g).len() && !(w.items(g)[i] is Import) && kept(
            w.items(g)[i],
            w.debug,
            w.host,
        ) ==> list.contains(#[trigger] origin(g, i))
}

/// Item `i` of source `g`.
pub open spec fn origin(g: int, i: int) -> Origin {
    Origin { file: g as usize, index: i as usize }
}

/// The conditions of all items of the list hold.
pub open spec fn all_kept(w: World, list: Seq<Origin>) -> bool {
    forall|i: int| 0 <= i < list.len() ==> kept(w.item(#[trigger] list[i]), w.debug, w.host)
}

/// The failure is that of item `i` of `file`: an import whose module is not
/// found, or stands in a file that cannot be used.
pub open spec fn fails_at(w: World, file: int, i: int, e: Failure) -> bool {
    &&& 0 <= file <= w.sources.len()
    &&& 0 <= i < w.items(file).len()
    &&& w.items(file)[i] matches Item::Import(imp) && {
        &&& e.span == imp.span
        &&& e.file == w.path(file)
        &&& match located(w, texts(imp.path@)) {
            None => e.message == "cannot resolve import `"@ + join(texts(imp.path@), "::"@)
                + "` (looked in "@ + join(w.bases, ", "@) + ")"@,
            Some(g) => !(w.sources[g].content is Parsed) && e.message == unusable(w, g),
        }
    }
}

pub open spec fn has_cause(w: World, e: Failure) -> bool {
    exists|file: int, i: int| #[trigger] fails_at(w, file, i, e)
}

/// Some failure says why source `g` cannot be used.
pub open spec fn explained(w: World, errors: Seq<Failure>, g: int) -> bool {
    exists|k: int| 0 <= k < errors.len() && (#[trigger] errors[k]).message == unusable(w, g)
}

spec fn sound(w: World, st: Progress) -> bool {
    &&& st.done.len() == w.sources.len()
    &&& st.seen.len() == w.sources.len()
    &&& forall|g: int|
        0 <= g < st.done.len() ==> ((#[trigger] st.done[g]) matches Some(l) ==> owns(w, g, l)
            && all_kept(w, l) && w.sources[g].content is Parsed)
    &&& forall|g: int|
        0 <= g < st.seen.len() && #[trigger] st.seen[g] && !(w.sources[g].content is Parsed)
            ==> explained(w, st.errors, g)
    &&& forall|k: int| 0 <= k < st.errors.len() ==> has_cause(w, #[trigger] st.errors[k])
}

spec fn grows(a: Seq<Failure>, b: Seq<Failure>) -> bool {
    a.len() <= b.len() && b.take(a.len() as int) == a
}

proof fn lemma_grows(a: Seq<Failure>, b: Seq<Failure>, c: Seq<Failure>)
    requires
        grows(a, b),
        grows(b, c),
    ensures
        grows(a, c),
{
    assert(c.take(a.len() as int) =~= b.take(a.len() as int));
}

proof fn lemma_explained_grows(w: World, a: Seq<Failure>, b: Seq<Failure>, g: int)
    requires
        grows(a, b),
        explained(w, a, g),
    ensures
        explained(w, b, g),
{
    let k = choose|k: int| 0 <= k < a.len() && (#[trigger] a[k]).message == unusable(w, g);
    assert(b.take(a.len() as int)[k] == b[k]);
}

proof fn lemma_reported(w: World, st: Progress, e: Failure)
    requires
        sound(w, st),
        has_cause(w, e),
    ensures
        sound(w, Progress { errors: st.errors.push(e), ..st }),
        grows(st.errors, st.errors.push(e)),
        st.errors.push(e).contains(e),
{
    let b = st.errors.push(e);
    assert(b.take(st.errors.len() as int) =~= st.errors);
    assert(b[st.errors.len() as int] == e);
    assert forall|g: int|
        0 <= g < st.seen.len() && #[trigger] st.seen[g] && !(
        w.sources[g].content is Parsed) implies explained(w, b, g) by {
        lemma_explained_grows(w, st.errors, b, g);
    }
}

proof fn lemma_taken_kept(w: World, imp: ImportDecl, list: Seq<Origin>)
    requires
        all_kept(w, list),
    ensures
        all_kept(w, taken(w, imp, list)),
{
    let t = taken(w, imp, list);
    assert forall|i: int| 0 <= i < t.len() implies kept(
        w.item(#[trigger] t[i]),
        w.debug,
        w.host,
    ) by {
        assert(t.contains(t[i]));
        law_selection_adds_nothing(w, imp, list, t[i]);
        let k = choose|k: int| 0 <= k < list.len() && list[k] == t[i];
        assert(kept(w.item(list[k]), w.debug, w.host));
    }
}

/// What an import brings is what it takes from the items of its module.
proof fn lemma_brought(
    w: World,
    file: int,
    at: int,
    imp: ImportDecl,
    first: bool,
    open: Seq<bool>,
    st: Progress,
) -> (list: Seq<Origin>)
    requires
        sized(w),
        0 <= file <= w.sources.len(),
        0 <= at < w.items(file).len(),
        w.items(file)[at] == Item::Import(imp),
        open.len() == w.sources.len(),
        sound(w, st),
    ensures
        sound(w, brought(w, file, imp, first, open, st).1),
        all_kept(w, brought(w, file, imp, first, open, st).0),
        grows(st.errors, brought(w, file, imp, first, open, st).1.errors),
        located(w, texts(imp.path@)) matches Some(g) ==> 0 <= g < w.sources.len() && (!open[g] && (
        w.sources[g].content is Parsed) ==> owns(w, g, list) && brought(
            w,
            file,
            imp,
            first,
            open,
            st,
        ).0 == taken(w, imp, list)),
        located(w, texts(imp.path@)) matches Some(g) ==> !open[g] && !(
        w.sources[g].content is Parsed) ==> explained(
            w,
            brought(w, file, imp, first, open, st).1.errors,
            g,
        ),
        located(w, texts(imp.path@)) is None && first ==> brought(
            w,
            file,
            imp,
            first,
            open,
            st,
        ).1.errors.contains(unresolved(w, file, imp)),
    decreases unmarked(open), 0nat,
{
    lemma_located(w, texts(imp.path@));
    let (out, end) = brought(w, file, imp, first, open, st);
    assert(st.errors.take(st.errors.len() as int) =~= st.errors);
    match located(w, texts(imp.path@)) {
        None => {
            if first {
                let e = unresolved(w, file, imp);
                assert(fails_at(w, file, at, e));
                lemma_reported(w, st, e);
            }
            Seq::empty()
        },
        Some(g) => {
            if st.done[g] is Some {
                lemma_taken_kept(w, imp, st.done[g]->0);
                st.done[g]->0
            } else if open[g] {
                Seq::empty()
            } else if !(w.sources[g].content is Parsed) {
                if !st.seen[g] {
                    let e = Failure { message: unusable(w, g), span: imp.span, file: w.path(file) };
                    assert(fails_at(w, file, at, e));
                    lemma_reported(w, st, e);
                    assert(end.errors[st.errors.len() as int].message == unusable(w, g));
                    assert forall|h: int|
                        0 <= h < end.seen.len() && #[trigger] end.seen[h] && !(
                        w.sources[h].content is Parsed) implies explained(w, end.errors, h) by {
                        if h != g {
                            assert(st.seen[h]);
                            lemma_explained_grows(w, st.errors, end.errors, h);
                        }
                    }
                }
                Seq::empty()
            } else {
                lemma_mark(open, g);
                let start = Progress { seen: st.seen.update(g, true), ..st };
                let now = open.update(g, true);
                assert(sound(w, start)) by {
                    assert forall|h: int|
                        0 <= h < start.seen.len() && #[trigger] start.seen[h] && !(
                        w.sources[h].content is Parsed) implies explained(w, start.errors, h) by {
                        assert(h != g);
                        assert(st.seen[h]);
                    }
                }
                lemma_expanded(w, g, w.items(g).len(), !st.seen[g], now, start);
                let (all, st2) = expanded(w, g, w.items(g).len(), !st.seen[g], now, start);
                lemma_present(w, all, all.len() as int);
                assert(all.take(all.len() as int) =~= all);
                let list = present(w, all, all.len() as int);
                assert(owns(w, g, list)) by {
                    assert forall|i: int|
                        0 <= i < w.items(g).len() && !(w.items(g)[i] is Import) && kept(
                            w.items(g)[i],
                            w.debug,
                            w.host,
                        ) implies list.contains(#[trigger] origin(g, i)) by {
                        assert(all.contains(origin(g, i)));
                        assert(w.item(origin(g, i)) == w.items(g)[i]);
                    }
                }
                assert(all_kept(w, list)) by {
                    assert forall|i: int| 0 <= i < list.len() implies kept(
                        w.item(#[trigger] list[i]),
                        w.debug,
                        w.host,
                    ) by {
                        assert(list.contains(list[i]));
                    }
                }
                lemma_taken_kept(w, imp, list);
                assert forall|h: int| 0 <= h < end.done.len() implies ((
                #[trigger] end.done[h]) matches Some(l) ==> owns(w, h, l) && all_kept(w, l) && (
                w.sources[h].content is Parsed)) by {
                    if h != g {
                        assert(end.done[h] == st2.done[h]);
                    } else {
                        assert(end.done[h] == Some(list) || end.done[h] == st2.done[h]);
                    }
                }
                list
            }
        },
    }
}

/// Expanding a source keeps every item of it that is no import.
proof fn lemma_expanded(
    w: World,
    file: int,
    n: nat,
    first: bool,
    open: Seq<bool>,
    st: Progress,
)
    requires
        sized(w),
        0 <= file < w.sources.len(),
        n <= w.items(file).len(),
        open.len() == w.sources.len(),
        sound(w, st),
    ensures
        sound(w, expanded(w, file, n, first, open, st).1),
        grows(st.errors, expanded(w, file, n, first, open, st).1.errors),
        forall|i: int|
            0 <= i < n && !(w.items(file)[i] is Import) ==> expanded(
                w,
                file,
                n,
                first,
                open,
                st,
            ).0.contains(#[trigger] origin(file, i)),
    decreases unmarked(open), n,
{
    assert(st.errors.take(st.errors.len() as int) =~= st.errors);
    if n > 0 {
        lemma_expanded(w, file, (n - 1) as nat, first, open, st);
        let (out, st1) = expanded(w, file, (n - 1) as nat, first, open, st);
        let (r, st2) = expanded(w, file, n, first, open, st);
        match w.items(file)[n - 1] {
            Item::Import(imp) => {
                lemma_brought(w, file, n - 1, imp, first, open, st1);
                lemma_grows(st.errors, st1.errors, st2.errors);
            },
            _ => {
                assert(r[out.len() as int] == origin(file, n - 1));
            },
        }
        assert forall|i: int| 0 <= i < n && !(w.items(file)[i] is Import) implies r.contains(
            #[trigger] origin(file, i),
        ) by {
            if i < n - 1 {
                let k = choose|k: int| 0 <= k < out.len() && out[k] == origin(file, i);
                assert(r[k] == origin(file, i));
            }
        }
    }
}

pub(crate) proof fn lemma_merged_imports(w: World, out: Seq<Origin>, more: Seq<Origin>, n: int)
    requires
        0 <= n <= more.len(),
    ensures
        forall|p: int|
            0 <= p < n && (#[trigger] more[p]).file < w.sources.len() ==> imported(
                w,
                merged(w, out, more, n),
                more[p],
            ),
    decreases n,
{
    if n > 0 {
        lemma_merged_imports(w, out, more, n - 1);
        let m = merged(w, out, more, n - 1);
        let r = merged(w, out, more, n);
        assert(r.take(m.len() as int) =~= m);
        assert forall|p: int| 0 <= p < n && (#[trigger] more[p]).file
            < w.sources.len() implies imported(w, r, more[p]) by {
            if p < n - 1 {
                lemma_imported_grows(w, m, r, more[p]);
            } else if !imported(w, m, more[p]) {
                assert(r[m.len() as int] == more[p]);
            }
        }
    }
}

pub(crate) proof fn lemma_imported_grows(w: World, a: Seq<Origin>, b: Seq<Origin>, o: Origin)
    requires
        imported(w, a, o),
        a.len() <= b.len(),
        b.take(a.len() as int) == a,
    ensures
        imported(w, b, o),
{
    let q = choose|q: int|
        0 <= q < a.len() && (#[trigger] a[q]).file < w.sources.len() && same_decl(w, a[q], o);
    assert(b.take(a.len() as int)[q] == b[q]);
}

/// What import `k` of the entry program takes from its module.
spec fn has_brought(w: World, k: int, out: Seq<Origin>, list: Seq<Origin>) -> bool {
    w.entry[k] matches Item::Import(imp) && (located(w, texts(imp.path@)) matches Some(g) && owns(
        w,
        g,
        list,
    ) && forall|o: Origin| #[trigger]
        taken(w, imp, list).contains(o) && o.file < w.sources.len() ==> imported(w, out, o))
}

/// The entry program, its imports merged in.
proof fn lemma_entry(w: World, n: nat)
    requires
        sized(w),
        n <= w.entry.len(),
    ensures
        sound(w, entry_list(w, n).1),
        forall|q: int|
            0 <= q < entry_list(w, n).0.len() && (#[trigger] entry_list(w, n).0[q]).file
                < w.sources.len() ==> kept(w.item(entry_list(w, n).0[q]), w.debug, w.host),
    decreases n,
{
    if n > 0 {
        lemma_entry(w, (n - 1) as nat);
        let (out, st) = entry_list(w, (n - 1) as nat);
        let (r, st2) = entry_list(w, n);
        assert(w.items(w.sources.len() as int) == w.entry);
        match w.entry[n - 1] {
            Item::Import(imp) => {
                lemma_brought(w, w.sources.len() as int, n - 1, imp, true, entry_open(w), st);
                let more = brought(w, w.sources.len() as int, imp, true, entry_open(w), st).0;
                lemma_merged_prefix(w, out, more, more.len() as int);
                assert forall|q: int|
                    0 <= q < r.len() && (#[trigger] r[q]).file < w.sources.len() implies kept(
                    w.item(r[q]),
                    w.debug,
                    w.host,
                ) by {
                    if q < out.len() {
                        assert(r.take(out.len() as int)[q] == out[q]);
                    } else {
                        assert(more.contains(r[q]));
                        let j = choose|j: int| 0 <= j < more.len() && more[j] == r[q];
                        assert(kept(w.item(more[j]), w.debug, w.host));
                    }
                }
            },
            _ => {
                assert forall|q: int|
                    0 <= q < r.len() && (#[trigger] r[q]).file < w.sources.len() implies kept(
                    w.item(r[q]),
                    w.debug,
                    w.host,
                ) by {
                    if q < out.len() {
                        assert(r[q] == out[q]);
                    }
                }
            },
        }
    } else {
        let st = begun(w.sources.len());
        assert(sound(w, st));
    }
}

/// An import of the entry program has brought what it takes.
proof fn lemma_entry_import(w: World, n: nat, k: int) -> (list: Seq<Origin>)
    requires
        sized(w),
        0 <= k < n <= w.entry.len(),
        w.entry[k] matches Item::Import(imp) && (located(w, texts(imp.path@)) matches Some(g)
            && !is_entry(w, g) && w.sources[g].content is Parsed),
    ensures
        has_brought(w, k, entry_list(w, n).0, list),
    decreases n,
{
    let (out, st) = entry_list(w, (n - 1) as nat);
    let (r, st2) = entry_list(w, n);
    let imp = w.entry[k]->Import_0;
    lemma_located(w, texts(imp.path@));
    let g = located(w, texts(imp.path@))->0;
    assert(w.items(w.sources.len() as int) == w.entry);
    if k < n - 1 {
        let list = lemma_entry_import(w, (n - 1) as nat, k);
        assert(r.len() >= out.len() && r.take(out.len() as int) == out) by {
            match w.entry[n - 1] {
                Item::Import(other) => {
                    let more = brought(
                        w,
                        w.sources.len() as int,
                        other,
                        true,
                        entry_open(w),
                        st,
                    ).0;
                    lemma_merged_prefix(w, out, more, more.len() as int);
                },
                _ => {
                    assert(r.take(out.len() as int) =~= out);
                },
            }
        }
        assert forall|o: Origin| #[trigger]
            taken(w, imp, list).contains(o) && o.file < w.sources.len() implies imported(
            w,
            r,
            o,
        ) by {
            lemma_imported_grows(w, out, r, o);
        }
        list
    } else {
        lemma_entry(w, (n - 1) as nat);
        let list = lemma_brought(w, w.sources.len() as int, k, imp, true, entry_open(w), st);
        let more = brought(w, w.sources.len() as int, imp, true, entry_open(w), st).0;
        assert(!entry_open(w)[g]);
        lemma_merged_imports(w, out, more, more.len() as int);
        assert forall|o: Origin| #[trigger]
            taken(w, imp, list).contains(o) && o.file < w.sources.len() implies imported(
            w,
            r,
            o,
        ) by {
            let p = choose|p: int| 0 <= p < more.len() && more[p] == o;
            assert(more[p].file < w.sources.len());
        }
        list
    }
}

/// The program holds an imported item that declares the same as item `i` of
/// source `g`: the item itself, or one of the same name.
pub open spec fn provides(w: World, g: int, i: int) -> bool {
    exists|q: int|
        0 <= q < program_list(w).len() && (#[trigger] program_list(w)[q]).file < w.sources.len()
            && (program_list(w)[q] == origin(g, i) || (w.name(program_list(w)[q]) is Some && w.name(
            program_list(w)[q],
        ) == w.name(origin(g, i))))
}

pub(crate) proof fn lemma_provided(w: World, g: int, i: int)
    requires
        sized(w),
        imported(w, entry_list(w, w.entry.len()).0, origin(g, i)),
    ensures
        provides(w, g, i),
{
    let all = entry_list(w, w.entry.len()).0;
    lemma_entry(w, w.entry.len());
    lemma_present(w, all, all.len() as int);
    assert(all.take(all.len() as int) =~= all);
    let q = choose|q: int|
        0 <= q < all.len() && (#[trigger] all[q]).file < w.sources.len() && same_decl(
            w,
            all[q],
            origin(g, i),
        );
    assert(all.contains(all[q]));
    assert(program_list(w).contains(all[q]));
    let p = choose|p: int| 0 <= p < program_list(w).len() && program_list(w)[p] == all[q];
    assert(program_list(w)[p].file < w.sources.len());
}

/// An import without a symbol list brings the whole module: every item of it
/// whose conditions hold is in the program, itself or under its name.
pub proof fn law_whole_import_brings_the_module(w: World, k: int, i: int)
    requires
        sized(w),
        0 <= k < w.entry.len(),
        w.entry[k] matches Item::Import(imp) && imp.symbols is None && (located(
            w,
            texts(imp.path@),
        ) matches Some(g) && !is_entry(w, g) && w.sources[g].content is Parsed && 0 <= i < w.items(
            g,
        ).len() && !(w.items(g)[i] is Import) && kept(w.items(g)[i], w.debug, w.host)),
    ensures
        provides(w, located(w, texts(w.entry[k]->Import_0.path@))->0, i),
{
    let imp = w.entry[k]->Import_0;
    lemma_located(w, texts(imp.path@));
    let g = located(w, texts(imp.path@))->0;
    let list = lemma_entry_import(w, w.entry.len(), k);
    assert(list.contains(origin(g, i)));
    assert(taken(w, imp, list) == list);
    lemma_provided(w, g, i);
}

/// An import with a symbol list brings each symbol that its module declares.
pub proof fn law_listed_symbols_reach_the_program(w: World, k: int, s: int, i: int)
    requires
        sized(w),
        0 <= k < w.entry.len(),
        w.entry[k] matches Item::Import(imp) && (imp.symbols matches Some(v) && 0 <= s < v@.len()
            && (located(w, texts(imp.path@)) matches Some(g) && !is_entry(w, g)
            && w.sources[g].content is Parsed && 0 <= i < w.items(g).len() && !(w.items(
            g,
        )[i] is Import) && kept(w.items(g)[i], w.debug, w.host) && declares_name(
            w.items(g)[i],
            v@[s].0@,
        ))),
    ensures
        provides(w, located(w, texts(w.entry[k]->Import_0.path@))->0, i),
{
    let imp = w.entry[k]->Import_0;
    lemma_located(w, texts(imp.path@));
    let g = located(w, texts(imp.path@))->0;
    let list = lemma_entry_import(w, w.entry.len(), k);
    assert(list.contains(origin(g, i)));
    let q = choose|q: int| 0 <= q < list.len() && list[q] == origin(g, i);
    assert(w.item(list[q]) == w.items(g)[i]);
    law_listed_symbols_are_taken(w, imp, list, s, q);
    lemma_provided(w, g, i);
}

proof fn lemma_entry_errors(w: World, n: nat, m: nat)
    requires
        sized(w),
        n <= m <= w.entry.len(),
    ensures
        grows(entry_list(w, n).1.errors, entry_list(w, m).1.errors),
    decreases m,
{
    let a = entry_list(w, n).1.errors;
    if n == m {
        assert(a.take(a.len() as int) =~= a);
    } else {
        lemma_entry_errors(w, n, (m - 1) as nat);
        lemma_entry(w, (m - 1) as nat);
        let (out, st) = entry_list(w, (m - 1) as nat);
        let st2 = entry_list(w, m).1;
        assert(w.items(w.sources.len() as int) == w.entry);
        match w.entry[m - 1] {
            Item::Import(imp) => {
                lemma_brought(w, w.sources.len() as int, m - 1, imp, true, entry_open(w), st);
                lemma_grows(a, st.errors, st2.errors);
            },
            _ => {},
        }
    }
}

/// No failed import of the entry program goes unreported: one whose module is not
/// found is reported where it stands, and one whose module cannot be used is
/// explained.
pub proof fn law_failed_imports_are_reported(w: World, k: int)
    requires
        sized(w),
        0 <= k < w.entry.len(),
        w.entry[k] is Import,
    ensures
        ({
            let imp = w.entry[k]->Import_0;
            let errors = entry_list(w, w.entry.len()).1.errors;
            match located(w, texts(imp.path@)) {
                None => exists|j: int|
                    0 <= j < errors.len() && (#[trigger] errors[j]).span == imp.span
                        && errors[j].file == w.importer && errors[j].message
                        == "cannot resolve import `"@ + join(texts(imp.path@), "::"@)
                        + "` (looked in "@ + join(w.bases, ", "@) + ")"@,
                Some(g) => !is_entry(w, g) && !(w.sources[g].content is Parsed) ==> explained(
                    w,
                    errors,
                    g,
                ),
            }
        }),
{
    let imp = w.entry[k]->Import_0;
    let errors = entry_list(w, w.entry.len()).1.errors;
    let st = entry_list(w, k as nat).1;
    let st2 = entry_list(w, (k + 1) as nat).1;
    assert(w.items(w.sources.len() as int) == w.entry);
    lemma_entry(w, k as nat);
    lemma_located(w, texts(imp.path@));
    lemma_brought(w, w.sources.len() as int, k, imp, true, entry_open(w), st);
    lemma_entry_errors(w, (k + 1) as nat, w.entry.len());
    match located(w, texts(imp.path@)) {
        None => {
            let e = unresolved(w, w.sources.len() as int, imp);
            let j = choose|j: int| 0 <= j < st2.errors.len() && st2.errors[j] == e;
            assert(errors.take(st2.errors.len() as int)[j] == errors[j]);
        },
        Some(g) => {
            if !is_entry(w, g) && !(w.sources[g].content is Parsed) {
                assert(!entry_open(w)[g]);
                lemma_explained_grows(w, st2.errors, errors, g);
            }
        },
    }
}

/// Nothing else is reported: behind every failure stands an import of the entry
/// program or of a source, at the place and in the file that it names.
pub proof fn law_reported_imports_failed(w: World, j: int)
    requires
        sized(w),
        0 <= j < entry_list(w, w.entry.len()).1.errors.len(),
    ensures
        has_cause(w, entry_list(w, w.entry.len()).1.errors[j]),
{
    lemma_entry(w, w.entry.len());
}

} // verus!
