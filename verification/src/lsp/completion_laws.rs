//! Which symbols of other modules are offered, and with which imports.
use crate::lsp::auto_import::{
    all_offers, by_path, matches_prefix, offered, offers, path_inserted, prefix_flags,
    provider_names, symbol_inserted, Offers, Provider, ENOUGH_SYMBOLS,
};
use crate::paths::{lemma_path_total, lemma_path_trans, path_before, same_path};
use crate::text::{before, lemma_before_total, lemma_before_trans};
use vstd::prelude::*;

verus! {

/// Symbols in text order, none twice.
pub open spec fn in_symbol_order(s: Seq<(Seq<char>, Seq<char>)>) -> bool {
    forall|i: int, j: int|
        0 <= i < j < s.len() ==> #[trigger] before(s[i].0, s[j].0)
}

/// The symbol stands in the list.
pub open spec fn lists(s: Seq<(Seq<char>, Seq<char>)>, name: Seq<char>) -> bool {
    exists|i: int| 0 <= i < s.len() && (#[trigger] s[i]).0 == name
}

proof fn lemma_symbol_inserted(s: Seq<(Seq<char>, Seq<char>)>, x: (Seq<char>, Seq<char>))
    ensures
        symbol_inserted(s, x).len() == s.len() + 1,
        forall|y: (Seq<char>, Seq<char>)| #[trigger]
            symbol_inserted(s, x).contains(y) <==> s.contains(y) || y == x,
        in_symbol_order(s) && !lists(s, x.0) ==> in_symbol_order(symbol_inserted(s, x)),
    decreases s.len(),
{
    let r = symbol_inserted(s, x);
    if s.len() == 0 || !before(x.0, s.last().0) {
        assert forall|y: (Seq<char>, Seq<char>)| #[trigger] r.contains(y) <==> s.contains(y) || y
            == x by {
            if s.contains(y) {
                let i = choose|i: int| 0 <= i < s.len() && s[i] == y;
                assert(r[i] == y);
            }
            if y == x {
                assert(r[s.len() as int] == y);
            }
        }
        if in_symbol_order(s) && !lists(s, x.0) {
            assert forall|i: int, j: int| 0 <= i < j < r.len() implies #[trigger] before(
                r[i].0,
                r[j].0,
            ) by {
                if j < s.len() {
                    assert(before(s[i].0, s[j].0));
                } else {
                    assert(s.last().0 != x.0);
                    lemma_before_total(x.0, s.last().0);
                    if i < s.len() - 1 {
                        assert(before(s[i].0, s[s.len() - 1].0));
                        lemma_before_trans(s[i].0, s.last().0, x.0);
                    }
                }
            }
        }
    } else {
        let t = s.drop_last();
        lemma_symbol_inserted(t, x);
        let q = symbol_inserted(t, x);
        assert(r == q.push(s.last()));
        assert forall|y: (Seq<char>, Seq<char>)| #[trigger] r.contains(y) <==> s.contains(y) || y
            == x by {
            if r.contains(y) {
                let i = choose|i: int| 0 <= i < r.len() && r[i] == y;
                if i < q.len() {
                    assert(q[i] == y);
                    assert(q.contains(y));
                    if t.contains(y) {
                        let k = choose|k: int| 0 <= k < t.len() && t[k] == y;
                        assert(s[k] == y);
                    }
                } else {
                    assert(s[s.len() - 1] == y);
                }
            }
            if s.contains(y) || y == x {
                if s.contains(y) {
                    let k = choose|k: int| 0 <= k < s.len() && s[k] == y;
                    if k < t.len() {
                        assert(t[k] == y);
                        assert(t.contains(y));
                    } else {
                        assert(r[r.len() - 1] == y);
                    }
                }
                if t.contains(y) || y == x {
                    assert(q.contains(y));
                    let i = choose|i: int| 0 <= i < q.len() && q[i] == y;
                    assert(r[i] == y);
                }
            }
        }
        if in_symbol_order(s) && !lists(s, x.0) {
            assert(in_symbol_order(t)) by {
                assert forall|i: int, j: int| 0 <= i < j < t.len() implies #[trigger] before(
                    t[i].0,
                    t[j].0,
                ) by {
                    assert(before(s[i].0, s[j].0));
                }
            }
            assert(!lists(t, x.0)) by {
                if lists(t, x.0) {
                    let i = choose|i: int| 0 <= i < t.len() && (#[trigger] t[i]).0 == x.0;
                    assert(s[i].0 == x.0);
                }
            }
            assert forall|i: int, j: int| 0 <= i < j < r.len() implies #[trigger] before(
                r[i].0,
                r[j].0,
            ) by {
                if j < q.len() {
                    assert(before(q[i].0, q[j].0));
                } else {
                    assert(q.contains(q[i]));
                    if t.contains(q[i]) {
                        let k = choose|k: int| 0 <= k < t.len() && t[k] == q[i];
                        assert(before(s[k].0, s[s.len() - 1].0));
                    }
                }
            }
        }
    }
}

/// Every symbol in the list has been looked at.
pub open spec fn all_seen(o: Offers) -> bool {
    forall|y: (Seq<char>, Seq<char>)| #[trigger] o.chosen.contains(y) ==> o.seen.contains(y.0)
}

proof fn lemma_offered(
    o: Offers,
    names: Seq<Seq<char>>,
    fits: Seq<bool>,
    import: Seq<char>,
    existing: Set<Seq<char>>,
    n: int,
)
    requires
        0 <= n <= names.len() == fits.len(),
        all_seen(o),
        in_symbol_order(o.chosen),
    ensures
        ({
            let r = offered(o, names, fits, import, existing, n);
            &&& all_seen(r)
            &&& in_symbol_order(r.chosen)
            &&& r.chosen.len() >= o.chosen.len()
            &&& forall|x: Seq<char>| #[trigger]
                r.seen.contains(x) <==> o.seen.contains(x) || (!existing.contains(x)
                    && names.take(n).contains(x))
            &&& forall|y: (Seq<char>, Seq<char>)| #[trigger]
                o.chosen.contains(y) ==> r.chosen.contains(y)
            &&& forall|y: (Seq<char>, Seq<char>)| #[trigger]
                r.chosen.contains(y) ==> o.chosen.contains(y) || (y.1 == import
                    && !o.seen.contains(y.0) && !existing.contains(y.0) && exists|k: int|
                    0 <= k < n && fits[k] && #[trigger] names[k] == y.0)
            &&& forall|k: int|
                0 <= k < n && !existing.contains(#[trigger] names[k]) && !o.seen.contains(names[k])
                    && (forall|j: int|
                    0 <= j < n && #[trigger] names[j] == names[k] ==> fits[j])
                    ==> r.chosen.contains((names[k], import))
        }),
    decreases n,
{
    let r = offered(o, names, fits, import, existing, n);
    if n > 0 {
        lemma_offered(o, names, fits, import, existing, n - 1);
        let d = offered(o, names, fits, import, existing, n - 1);
        let name = names[n - 1];
        assert(names.take(n) =~= names.take(n - 1).push(name));
        assert forall|x: Seq<char>| names.take(n).contains(x) <==> #[trigger] names.take(
            n - 1,
        ).contains(x) || x == name by {
            if names.take(n - 1).contains(x) {
                let i = choose|i: int| 0 <= i < n - 1 && #[trigger] names.take(n - 1)[i] == x;
                assert(names.take(n)[i] == x);
            }
            if x == name {
                assert(names.take(n)[n - 1] == x);
            }
            if names.take(n).contains(x) && x != name {
                let i = choose|i: int| 0 <= i < n && #[trigger] names.take(n)[i] == x;
                assert(names.take(n - 1)[i] == x);
            }
        }
        lemma_symbol_inserted(d.chosen, (name, import));
        if !existing.contains(name) && !d.seen.contains(name) {
            assert(!lists(d.chosen, name)) by {
                if lists(d.chosen, name) {
                    let i = choose|i: int|
                        0 <= i < d.chosen.len() && (#[trigger] d.chosen[i]).0 == name;
                    assert(d.chosen.contains(d.chosen[i]));
                }
            }
        }
        assert forall|k: int|
            0 <= k < n && !existing.contains(#[trigger] names[k]) && !o.seen.contains(names[k])
                && (forall|j: int|
                0 <= j < n && #[trigger] names[j] == names[k] ==> fits[j]) implies
            r.chosen.contains((names[k], import)) by {
            if names.take(n - 1).contains(names[k]) {
                let i = choose|i: int| 0 <= i < n - 1 && #[trigger] names.take(n - 1)[i] == names[k];
                assert(names[i] == names[k]);
                assert(d.chosen.contains((names[i], import)));
            } else {
                assert(k == n - 1) by {
                    if k < n - 1 {
                        assert(names.take(n - 1)[k] == names[k]);
                    }
                }
            }
        }
    } else {
        assert(names.take(0) =~= Seq::<Seq<char>>::empty());
    }
}

/// The symbol comes from the file: it can be imported, under that path, and
/// provides the symbol.
pub open spec fn provides(
    p: Provider,
    importer: Option<Seq<char>>,
    name: Seq<char>,
    import: Seq<char>,
) -> bool {
    offers(p, importer) == Some(import) && provider_names(p).contains(name)
}

proof fn lemma_all_offers(
    ps: Seq<Provider>,
    importer: Option<Seq<char>>,
    prefix: Seq<char>,
    existing: Set<Seq<char>>,
    n: int,
)
    requires
        0 <= n <= ps.len(),
    ensures
        ({
            let r = all_offers(ps, importer, prefix_flags(ps, prefix), existing, n);
            &&& all_seen(r)
            &&& in_symbol_order(r.chosen)
            &&& forall|x: Seq<char>| #[trigger]
                r.seen.contains(x) ==> exists|i: int|
                    0 <= i < n && offers(#[trigger] ps[i], importer) is Some && provider_names(
                        ps[i],
                    ).contains(x)
            &&& forall|x: Seq<char>| #[trigger]
                r.seen.contains(x) && matches_prefix(x, prefix) ==> lists(r.chosen, x)
            &&& r.chosen.len() < ENOUGH_SYMBOLS ==> forall|i: int, x: Seq<char>|
                0 <= i < n && offers(#[trigger] ps[i], importer) is Some && provider_names(
                    ps[i],
                ).contains(x) && !existing.contains(x) ==> #[trigger] r.seen.contains(x)
            &&& forall|y: (Seq<char>, Seq<char>)| #[trigger]
                r.chosen.contains(y) ==> matches_prefix(y.0, prefix) && !existing.contains(y.0)
                    && exists|i: int|
                    0 <= i < n && provides(#[trigger] ps[i], importer, y.0, y.1) && forall|j: int|
                        0 <= j < i && offers(#[trigger] ps[j], importer) is Some
                            ==> !provider_names(ps[j]).contains(y.0)
        }),
    decreases n,
{
    let fits = prefix_flags(ps, prefix);
    let r = all_offers(ps, importer, fits, existing, n);
    if n > 0 {
        lemma_all_offers(ps, importer, prefix, existing, n - 1);
        let d = all_offers(ps, importer, fits, existing, n - 1);
        let p = ps[n - 1];
        if offers(p, importer) is Some && d.chosen.len() < ENOUGH_SYMBOLS {
            let import = offers(p, importer)->0;
            let names = provider_names(p);
            let flags = fits[n - 1];
            lemma_offered(d, names, flags, import, existing, names.len() as int);
            assert(names.take(names.len() as int) =~= names);
            assert forall|x: Seq<char>| #[trigger] r.seen.contains(x) implies exists|i: int|
                0 <= i < n && offers(#[trigger] ps[i], importer) is Some && provider_names(
                    ps[i],
                ).contains(x) by {
                if d.seen.contains(x) {
                    let i = choose|i: int|
                        0 <= i < n - 1 && offers(#[trigger] ps[i], importer) is Some
                            && provider_names(ps[i]).contains(x);
                    assert(offers(ps[i], importer) is Some);
                } else {
                    assert(offers(ps[n - 1], importer) is Some);
                }
            }
            assert forall|x: Seq<char>| #[trigger] r.seen.contains(x) && matches_prefix(
                x,
                prefix,
            ) implies lists(r.chosen, x) by {
                if d.seen.contains(x) {
                    let i = choose|i: int|
                        0 <= i < d.chosen.len() && (#[trigger] d.chosen[i]).0 == x;
                    assert(d.chosen.contains(d.chosen[i]));
                    assert(r.chosen.contains(d.chosen[i]));
                    let k = choose|k: int| 0 <= k < r.chosen.len() && r.chosen[k] == d.chosen[i];
                    assert(r.chosen[k].0 == x);
                } else {
                    let k = choose|k: int| 0 <= k < names.len() && names[k] == x;
                    assert(r.chosen.contains((names[k], import)));
                    let m = choose|m: int|
                        0 <= m < r.chosen.len() && r.chosen[m] == (names[k], import);
                    assert(r.chosen[m].0 == x);
                }
            }
            assert forall|y: (Seq<char>, Seq<char>)| #[trigger]
                r.chosen.contains(y) implies matches_prefix(y.0, prefix) && !existing.contains(y.0)
                && exists|i: int|
                0 <= i < n && provides(#[trigger] ps[i], importer, y.0, y.1) && forall|j: int|
                    0 <= j < i && offers(#[trigger] ps[j], importer) is Some ==> !provider_names(
                        ps[j],
                    ).contains(y.0) by {
                if d.chosen.contains(y) {
                    let i = choose|i: int|
                        0 <= i < n - 1 && provides(#[trigger] ps[i], importer, y.0, y.1)
                            && forall|j: int|
                            0 <= j < i && offers(#[trigger] ps[j], importer) is Some
                                ==> !provider_names(ps[j]).contains(y.0);
                    assert(provides(ps[i], importer, y.0, y.1));
                } else {
                    let k = choose|k: int|
                        0 <= k < names.len() && flags[k] && #[trigger] names[k] == y.0;
                    assert(names.contains(y.0));
                    assert(provides(ps[n - 1], importer, y.0, y.1));
                    assert forall|j: int|
                        0 <= j < n - 1 && offers(#[trigger] ps[j], importer) is Some implies
                        !provider_names(ps[j]).contains(y.0) by {
                        if provider_names(ps[j]).contains(y.0) {
                            assert(d.seen.contains(y.0));
                        }
                    }
                }
            }
        } else {
            assert forall|x: Seq<char>| #[trigger] r.seen.contains(x) implies exists|i: int|
                0 <= i < n && offers(#[trigger] ps[i], importer) is Some && provider_names(
                    ps[i],
                ).contains(x) by {
                let i = choose|i: int|
                    0 <= i < n - 1 && offers(#[trigger] ps[i], importer) is Some && provider_names(
                        ps[i],
                    ).contains(x);
                assert(offers(ps[i], importer) is Some);
            }
            assert forall|y: (Seq<char>, Seq<char>)| #[trigger]
                r.chosen.contains(y) implies matches_prefix(y.0, prefix) && !existing.contains(y.0)
                && exists|i: int|
                0 <= i < n && provides(#[trigger] ps[i], importer, y.0, y.1) && forall|j: int|
                    0 <= j < i && offers(#[trigger] ps[j], importer) is Some ==> !provider_names(
                        ps[j],
                    ).contains(y.0) by {
                let i = choose|i: int|
                    0 <= i < n - 1 && provides(#[trigger] ps[i], importer, y.0, y.1) && forall|
                        j: int,
                    |
                        0 <= j < i && offers(#[trigger] ps[j], importer) is Some
                            ==> !provider_names(ps[j]).contains(y.0);
                assert(provides(ps[i], importer, y.0, y.1));
            }
        }
    }
}

/// Each offer is a symbol that starts with the prefix and is not there yet, with
/// the import of the first file that provides it; the offers stand in symbol
/// order, none twice.
pub proof fn law_offers_can_be_imported(
    ps: Seq<Provider>,
    importer: Option<Seq<char>>,
    prefix: Seq<char>,
    existing: Set<Seq<char>>,
    k: int,
)
    requires
        0 <= k < all_offers(
            ps,
            importer,
            prefix_flags(ps, prefix),
            existing,
            ps.len() as int,
        ).chosen.len(),
    ensures
        ({
            let out = all_offers(
                ps,
                importer,
                prefix_flags(ps, prefix),
                existing,
                ps.len() as int,
            ).chosen;
            let y = out[k];
            &&& matches_prefix(y.0, prefix)
            &&& !existing.contains(y.0)
            &&& exists|i: int|
                0 <= i < ps.len() && provides(#[trigger] ps[i], importer, y.0, y.1) && forall|
                    j: int,
                |
                    0 <= j < i && offers(#[trigger] ps[j], importer) is Some ==> !provider_names(
                        ps[j],
                    ).contains(y.0)
            &&& in_symbol_order(out)
        }),
{
    lemma_all_offers(ps, importer, prefix, existing, ps.len() as int);
    let out = all_offers(
        ps,
        importer,
        prefix_flags(ps, prefix),
        existing,
        ps.len() as int,
    ).chosen;
    assert(out.contains(out[k]));
}

/// Unless there are enough offers, every symbol of a file that can be imported is
/// offered, if it starts with the prefix and is not there yet.
pub proof fn law_every_fitting_symbol_is_offered(
    ps: Seq<Provider>,
    importer: Option<Seq<char>>,
    prefix: Seq<char>,
    existing: Set<Seq<char>>,
    i: int,
    name: Seq<char>,
)
    requires
        0 <= i < ps.len(),
        offers(ps[i], importer) is Some,
        provider_names(ps[i]).contains(name),
        matches_prefix(name, prefix),
        !existing.contains(name),
    ensures
        ({
            let out = all_offers(
                ps,
                importer,
                prefix_flags(ps, prefix),
                existing,
                ps.len() as int,
            ).chosen;
            out.len() >= 100 || lists(out, name)
        }),
{
    lemma_all_offers(ps, importer, prefix, existing, ps.len() as int);
    let r = all_offers(ps, importer, prefix_flags(ps, prefix), existing, ps.len() as int);
    if r.chosen.len() < ENOUGH_SYMBOLS {
        assert(r.seen.contains(name));
    }
}

proof fn lemma_path_inserted(s: Seq<(Seq<char>, Seq<char>)>, f: (Seq<char>, Seq<char>))
    ensures
        forall|y: (Seq<char>, Seq<char>)| #[trigger]
            path_inserted(s, f).contains(y) ==> s.contains(y) || y == f,
        forall|y: (Seq<char>, Seq<char>)| #[trigger]
            s.contains(y) ==> path_inserted(s, f).contains(y),
        exists|i: int|
            0 <= i < path_inserted(s, f).len() && same_path(
                (#[trigger] path_inserted(s, f)[i]).1,
                f.1,
            ),
        by_file(s) ==> by_file(path_inserted(s, f)),
    decreases s.len(),
{
    let r = path_inserted(s, f);
    if s.len() == 0 || path_before(s.last().1, f.1) {
        assert(r[s.len() as int] == f);
        lemma_path_total(f.1, f.1);
        assert(same_path(r[s.len() as int].1, f.1));
        assert forall|y: (Seq<char>, Seq<char>)| #[trigger] s.contains(y) implies r.contains(y) by {
            let i = choose|i: int| 0 <= i < s.len() && s[i] == y;
            assert(r[i] == y);
        }
        if by_file(s) {
            assert forall|i: int, j: int| 0 <= i < j < r.len() implies #[trigger] path_before(
                r[i].1,
                r[j].1,
            ) by {
                if j < s.len() {
                    assert(path_before(s[i].1, s[j].1));
                } else if i < s.len() - 1 {
                    assert(path_before(s[i].1, s[s.len() - 1].1));
                    lemma_path_trans(s[i].1, s.last().1, f.1);
                }
            }
        }
    } else if same_path(s.last().1, f.1) {
        assert(same_path(r[s.len() - 1].1, f.1));
    } else {
        let t = s.drop_last();
        lemma_path_inserted(t, f);
        let q = path_inserted(t, f);
        assert(r == q.push(s.last()));
        let at = choose|i: int| 0 <= i < q.len() && same_path((#[trigger] q[i]).1, f.1);
        assert(same_path(r[at].1, f.1));
        assert forall|y: (Seq<char>, Seq<char>)| #[trigger] r.contains(y) implies s.contains(y) || y
            == f by {
            let i = choose|i: int| 0 <= i < r.len() && r[i] == y;
            if i < q.len() {
                assert(q[i] == y);
                assert(q.contains(y));
                if t.contains(y) {
                    let k = choose|k: int| 0 <= k < t.len() && t[k] == y;
                    assert(s[k] == y);
                }
            } else {
                assert(s[s.len() - 1] == y);
            }
        }
        assert forall|y: (Seq<char>, Seq<char>)| #[trigger] s.contains(y) implies r.contains(y) by {
            let k = choose|k: int| 0 <= k < s.len() && s[k] == y;
            if k < t.len() {
                assert(t[k] == y);
                assert(t.contains(y));
                let i = choose|i: int| 0 <= i < q.len() && q[i] == y;
                assert(r[i] == y);
            } else {
                assert(r[r.len() - 1] == y);
            }
        }
        if by_file(s) {
            assert(by_file(t)) by {
                assert forall|i: int, j: int| 0 <= i < j < t.len() implies #[trigger] path_before(
                    t[i].1,
                    t[j].1,
                ) by {
                    assert(path_before(s[i].1, s[j].1));
                }
            }
            lemma_path_total(s.last().1, f.1);
            assert forall|i: int, j: int| 0 <= i < j < r.len() implies #[trigger] path_before(
                r[i].1,
                r[j].1,
            ) by {
                if j < q.len() {
                    assert(path_before(q[i].1, q[j].1));
                } else {
                    assert(q.contains(q[i]));
                    if t.contains(q[i]) {
                        let k = choose|k: int| 0 <= k < t.len() && t[k] == q[i];
                        assert(path_before(s[k].1, s[s.len() - 1].1));
                    }
                }
            }
        }
    }
}

/// Files in path order, none twice.
pub open spec fn by_file(s: Seq<(Seq<char>, Seq<char>)>) -> bool {
    forall|i: int, j: int| 0 <= i < j < s.len() ==> #[trigger] path_before(s[i].1, s[j].1)
}

/// Ordering files keeps each of them, makes up none, and leaves no file twice.
pub proof fn law_files_are_kept_in_path_order(s: Seq<(Seq<char>, Seq<char>)>, n: int)
    requires
        0 <= n <= s.len(),
    ensures
        by_file(by_path(s, n)),
        forall|y: (Seq<char>, Seq<char>)| #[trigger]
            by_path(s, n).contains(y) ==> s.take(n).contains(y),
        forall|k: int|
            0 <= k < n ==> exists|i: int|
                0 <= i < by_path(s, n).len() && same_path(
                    (#[trigger] by_path(s, n)[i]).1,
                    (#[trigger] s[k]).1,
                ),
    decreases n,
{
    if n > 0 {
        law_files_are_kept_in_path_order(s, n - 1);
        let d = by_path(s, n - 1);
        let r = by_path(s, n);
        lemma_path_inserted(d, s[n - 1]);
        assert forall|y: (Seq<char>, Seq<char>)| #[trigger] r.contains(y) implies s.take(
            n,
        ).contains(y) by {
            if d.contains(y) {
                let i = choose|i: int| 0 <= i < n - 1 && #[trigger] s.take(n - 1)[i] == y;
                assert(s.take(n)[i] == y);
            } else {
                assert(s.take(n)[n - 1] == y);
            }
        }
        assert forall|k: int| 0 <= k < n implies exists|i: int|
            0 <= i < r.len() && same_path((#[trigger] r[i]).1, (#[trigger] s[k]).1) by {
            if k < n - 1 {
                let i = choose|i: int|
                    0 <= i < d.len() && same_path((#[trigger] d[i]).1, s[k].1);
                assert(d.contains(d[i]));
                assert(r.contains(d[i]));
                let m = choose|m: int| 0 <= m < r.len() && r[m] == d[i];
                assert(same_path(r[m].1, s[k].1));
            }
        }
    }
}

} // verus!
