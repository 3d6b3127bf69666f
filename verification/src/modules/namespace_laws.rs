//! Under which names the imports of a program are known, what they provide, and
//! what a failed one is told.
use crate::ast::{ImportDecl, Item};
use crate::cfg::kept;
use crate::lsp::laws::lemma_completed;
use crate::modules::expand::{
    declared, entry_namespaces, located, namespace, program_list, provides, same_decl, symbol_names,
    unresolved, unusable, wanted, Content, World,
};
use crate::modules::laws::{law_imported_once, sized};
use crate::modules::selection::{declares_name, law_items_are_known_by_their_names};
use crate::text::{ends, has, join, starts, texts};
use crate::text_laws::law_find_gives_the_first_place;
use vstd::prelude::*;

verus! {

proof fn lemma_declared(items: Seq<Item>, debug: bool, host: Seq<char>, n: int, x: Seq<char>)
    requires
        0 <= n <= items.len(),
    ensures
        declared(items, debug, host, n).contains(x) <==> exists|i: int|
            0 <= i < n && declares_name(#[trigger] items[i], x) && kept(items[i], debug, host),
    decreases n,
{
    let now = declared(items, debug, host, n);
    if n > 0 {
        lemma_declared(items, debug, host, n - 1, x);
        let names = declared(items, debug, host, n - 1);
        let item = items[n - 1];
        law_items_are_known_by_their_names(item, x);
        if names.contains(x) {
            let k = choose|k: int| 0 <= k < names.len() && names[k] == x;
            assert(now[k] == x);
            let i = choose|i: int|
                0 <= i < n - 1 && declares_name(#[trigger] items[i], x) && kept(
                    items[i],
                    debug,
                    host,
                );
            assert(declares_name(items[i], x));
        } else {
            if declares_name(item, x) && kept(item, debug, host) {
                assert(now[names.len() as int] == x);
            }
            if now.contains(x) {
                let k = choose|k: int| 0 <= k < now.len() && now[k] == x;
                if k < names.len() {
                    assert(names[k] == x);
                }
                assert(declares_name(items[n - 1], x));
            }
        }
    }
}

proof fn lemma_wanted(names: Seq<Seq<char>>, want: Seq<Seq<char>>, n: int, x: Seq<char>)
    requires
        0 <= n <= names.len(),
    ensures
        wanted(names, want, n).contains(x) ==> want.contains(x),
    decreases n,
{
    if n > 0 {
        lemma_wanted(names, want, n - 1, x);
        let before = wanted(names, want, n - 1);
        let now = wanted(names, want, n);
        if now.contains(x) {
            let k = choose|k: int| 0 <= k < now.len() && now[k] == x;
            if k < before.len() {
                assert(before[k] == x);
            }
        }
    }
}

/// An import of a whole module provides exactly what the module declares under
/// conditions that hold.
pub proof fn law_whole_imports_provide_what_is_declared(w: World, imp: ImportDecl, x: Seq<char>)
    requires
        imp.symbols is None,
        located(w, texts(imp.path@)) matches Some(g) && w.sources[g].content is Parsed,
    ensures
        provides(w, imp).contains(x) <==> exists|i: int|
            0 <= i < w.items(located(w, texts(imp.path@))->0).len() && declares_name(
                #[trigger] w.items(located(w, texts(imp.path@))->0)[i],
                x,
            ) && kept(w.items(located(w, texts(imp.path@))->0)[i], w.debug, w.host),
{
    let items = w.items(located(w, texts(imp.path@))->0);
    lemma_declared(items, w.debug, w.host, items.len() as int, x);
}

/// An import with a symbol list provides exactly its symbols, whether or not its
/// module is there.
pub proof fn law_listed_imports_provide_their_symbols(w: World, imp: ImportDecl, x: Seq<char>)
    requires
        imp.symbols is Some,
    ensures
        provides(w, imp).contains(x) <==> exists|s: int|
            0 <= s < imp.symbols->0@.len() && (#[trigger] imp.symbols->0@[s]).0@ == x,
{
    let want = symbol_names(imp.symbols->0@);
    assert(want.contains(x) <==> exists|s: int|
        0 <= s < imp.symbols->0@.len() && (#[trigger] imp.symbols->0@[s]).0@ == x) by {
        if want.contains(x) {
            let k = choose|k: int| 0 <= k < want.len() && want[k] == x;
            assert(imp.symbols->0@[k].0@ == x);
        }
        if exists|s: int|
            0 <= s < imp.symbols->0@.len() && (#[trigger] imp.symbols->0@[s]).0@ == x {
            let s = choose|s: int|
                0 <= s < imp.symbols->0@.len() && (#[trigger] imp.symbols->0@[s]).0@ == x;
            assert(want[s] == x);
        }
    }
    match located(w, texts(imp.path@)) {
        Some(g) => {
            if w.sources[g].content is Parsed {
                let all = declared(w.items(g), w.debug, w.host, w.items(g).len() as int);
                let some = wanted(all, want, all.len() as int);
                lemma_completed(some, want, want.len() as int, x);
                assert(want.take(want.len() as int) =~= want);
                lemma_wanted(all, want, all.len() as int, x);
            }
        },
        None => {},
    }
}

/// Every import of the entry program has its own namespace, in source order: known
/// by its last segment and by its path, with what it provides.
pub proof fn law_every_import_has_a_namespace(w: World, n: int, k: int) -> (at: int)
    requires
        0 <= k < n <= w.entry.len(),
        w.entry[k] is Import,
    ensures
        ({
            let ns = entry_namespaces(w, n);
            let imp = w.entry[k]->Import_0;
            let path = texts(imp.path@);
            &&& 0 <= at < ns.len()
            &&& at == entry_namespaces(w, k).len()
            &&& ns[at].path == path
            &&& path.len() > 0 ==> ns[at].alias == path.last()
            &&& ns[at].full == join(path, "::"@)
            &&& ns[at].provided == provides(w, imp)
            &&& ns[at].symbols is Some <==> imp.symbols is Some
        }),
    decreases n,
{
    if k < n - 1 {
        law_every_import_has_a_namespace(w, n - 1, k)
    } else {
        entry_namespaces(w, k).len() as int
    }
}

/// There are no namespaces but those of the imports.
pub proof fn law_namespaces_are_imports(w: World, n: int)
    requires
        0 <= n <= w.entry.len(),
    ensures
        entry_namespaces(w, n).len() == w.entry.take(n).filter(|i: Item| i is Import).len(),
    decreases n,
{
    reveal(Seq::filter);
    if n > 0 {
        law_namespaces_are_imports(w, n - 1);
        assert(w.entry.take(n).drop_last() =~= w.entry.take(n - 1));
        assert(w.entry.take(n).last() == w.entry[n - 1]);
    } else {
        assert(w.entry.take(0) =~= Seq::<Item>::empty());
    }
}

/// A module that cannot be used is named by its path, with the reason where there
/// is one.
pub proof fn law_unusable_modules_are_named(w: World, g: int)
    requires
        !(w.sources[g].content is Parsed),
    ensures
        has(unusable(w, g), w.path(g)),
        w.sources[g].content matches Content::Unreadable(why) ==> ends(unusable(w, g), why@),
        w.sources[g].content matches Content::ParseError(why) ==> ends(unusable(w, g), why@),
{
    let m = unusable(w, g);
    let p = w.path(g);
    law_find_gives_the_first_place(m, p);
    match w.sources[g].content {
        Content::Unreadable(why) => {
            let k = "failed to read import "@.len() as int;
            assert(m.subrange(k, k + p.len()) =~= p);
            assert(m.skip(m.len() - why@.len()) =~= why@);
        },
        Content::LexError => {
            let k = "lex error in import "@.len() as int;
            assert(m.subrange(k, k + p.len()) =~= p);
        },
        Content::ParseError(why) => {
            let k = "parse error in "@.len() as int;
            assert(m.subrange(k, k + p.len()) =~= p);
            assert(m.skip(m.len() - why@.len()) =~= why@);
        },
        Content::Parsed(_) => {},
    }
}

/// An import that is not found is told with its path and the places that were
/// searched.
pub proof fn law_missing_modules_are_named(w: World, file: int, imp: ImportDecl)
    ensures
        starts(
            unresolved(w, file, imp).message,
            "cannot resolve import `"@ + join(texts(imp.path@), "::"@) + "`"@,
        ),
        has(unresolved(w, file, imp).message, join(w.bases, ", "@)),
        unresolved(w, file, imp).span == imp.span,
        unresolved(w, file, imp).file == w.path(file),
{
    reveal_strlit("` (looked in ");
    reveal_strlit("`");
    let m = unresolved(w, file, imp).message;
    let head = "cannot resolve import `"@ + join(texts(imp.path@), "::"@) + "`"@;
    assert(m.take(head.len() as int) =~= head);
    let bases = join(w.bases, ", "@);
    law_find_gives_the_first_place(m, bases);
    let k = head.len() as int - 1 + "` (looked in "@.len();
    assert(m.subrange(k, k + bases.len()) =~= bases);
}

/// No name is imported twice: of two imported items in the program, no two declare
/// the same.
pub proof fn law_no_name_is_imported_twice(w: World, p: int, q: int, x: Seq<char>)
    requires
        sized(w),
        0 <= p < q < program_list(w).len(),
        program_list(w)[p].file < w.sources.len(),
        program_list(w)[q].file < w.sources.len(),
    ensures
        program_list(w)[p] != program_list(w)[q],
        !declares_name(w.item(program_list(w)[p]), x) || !declares_name(
            w.item(program_list(w)[q]),
            x,
        ),
{
    law_imported_once(w);
    let a = program_list(w)[p];
    let b = program_list(w)[q];
    assert(!same_decl(w, a, b));
    law_items_are_known_by_their_names(w.item(a), x);
    law_items_are_known_by_their_names(w.item(b), x);
}

} // verus!
