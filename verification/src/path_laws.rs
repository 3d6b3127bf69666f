//! How paths fall into components and are joined from them.
use crate::paths::{
    below_base, components, components_of, is_absolute, is_component, joined, parents_between,
};
use crate::text::{find, join, lemma_find, lemma_find_at, lemma_find_first, split, starts};
use vstd::prelude::*;
use vstd::string::*;

verus! {

// ---------------------------------------------------------------------------
// Components
// ---------------------------------------------------------------------------

/// A name between slashes.
pub open spec fn is_segment(c: Seq<char>) -> bool {
    c.len() > 0 && !c.contains('/')
}

proof fn lemma_pieces(s: Seq<char>, i: int)
    requires
        0 <= i < split(s, "/"@).len(),
    ensures
        !split(s, "/"@)[i].contains('/'),
    decreases s.len(),
{
    reveal_strlit("/");
    let sep = "/"@;
    lemma_find(s, sep);
    lemma_find_first(s, sep);
    match find(s, sep) {
        Some(k) => {
            if i == 0 {
                let t = s.take(k);
                assert(split(s, sep)[0] == t);
                assert forall|j: int| 0 <= j < t.len() implies t[j] != '/' by {
                    assert(!starts(s.skip(j), sep));
                    if t[j] == '/' {
                        assert(s.skip(j).take(1) =~= sep);
                    }
                }
            } else {
                lemma_pieces(s.skip(k + 1), i - 1);
                assert(split(s, sep)[i] == split(s.skip(k + 1), sep)[i - 1]);
            }
        },
        None => {
            assert forall|j: int| 0 <= j < s.len() implies s[j] != '/' by {
                assert(!starts(s.skip(j), sep));
                if s[j] == '/' {
                    assert(s.skip(j).take(1) =~= sep);
                }
            }
        },
    }
}

proof fn lemma_components(path: Seq<char>, n: int, i: int)
    requires
        0 <= n <= split(path, "/"@).len(),
        0 <= i < components_of(split(path, "/"@), n).len(),
    ensures
        is_segment(components_of(split(path, "/"@), n)[i]),
    decreases n,
{
    let pieces = split(path, "/"@);
    let c = components_of(pieces, n - 1);
    if i < c.len() {
        lemma_components(path, n - 1, i);
    } else {
        assert(is_component(pieces, n - 1));
        lemma_pieces(path, n - 1);
    }
}

pub(crate) proof fn lemma_joined_segments(cs: Seq<Seq<char>>)
    requires
        cs.len() > 0,
        forall|i: int| 0 <= i < cs.len() ==> is_segment(#[trigger] cs[i]),
    ensures
        join(cs, "/"@).len() > 0,
        join(cs, "/"@)[0] != '/',
        join(cs, "/"@).last() != '/',
    decreases cs.len(),
{
    let z = cs[cs.len() - 1];
    assert(is_segment(z));
    assert(z.contains(z[0]) && z.contains(z[z.len() - 1]));
    if cs.len() > 1 {
        let t = cs.drop_last();
        assert forall|i: int| 0 <= i < t.len() implies is_segment(#[trigger] t[i]) by {
            assert(t[i] == cs[i]);
        }
        lemma_joined_segments(t);
    }
}

proof fn lemma_split_at(a: Seq<char>, b: Seq<char>)
    ensures
        split(a + "/"@ + b, "/"@) == split(a, "/"@) + split(b, "/"@),
    decreases a.len(),
{
    reveal_strlit("/");
    let sep = "/"@;
    let s = a + sep + b;
    lemma_find(a, sep);
    lemma_find_first(a, sep);
    let k = match find(a, sep) {
        Some(k) => k,
        None => a.len() as int,
    };
    assert(s.skip(k).take(1) =~= sep) by {
        if k < a.len() {
            assert(a.skip(k).take(1)[0] == sep[0]);
        }
    }
    assert forall|i: int| 0 <= i < k implies !starts(#[trigger] s.skip(i), sep) by {
        assert(!starts(a.skip(i), sep));
        if starts(s.skip(i), sep) {
            assert(s.skip(i).take(1)[0] == sep[0]);
            assert(a.skip(i).take(1) =~= sep);
        }
    }
    lemma_find_at(s, sep, k);
    match find(a, sep) {
        Some(k) => {
            assert(s.take(k) =~= a.take(k));
            assert(s.skip(k + 1) =~= a.skip(k + 1) + sep + b);
            lemma_split_at(a.skip(k + 1), b);
            assert(split(s, sep) =~= split(a, sep) + split(b, sep));
        },
        None => {
            assert(s.take(k) =~= a);
            assert(s.skip(k + 1) =~= b);
            assert(split(s, sep) =~= split(a, sep) + split(b, sep));
        },
    }
}

proof fn lemma_split_segments(cs: Seq<Seq<char>>)
    requires
        cs.len() > 0,
        forall|i: int| 0 <= i < cs.len() ==> is_segment(#[trigger] cs[i]),
    ensures
        split(join(cs, "/"@), "/"@) == cs,
    decreases cs.len(),
{
    reveal_strlit("/");
    let sep = "/"@;
    let z = cs[cs.len() - 1];
    assert(is_segment(z));
    assert(split(z, sep) =~= seq![z]) by {
        lemma_find(z, sep);
        match find(z, sep) {
            Some(k) => {
                assert(z.skip(k).take(1)[0] == sep[0]);
                assert(z[k] == '/');
            },
            None => {},
        }
    }
    if cs.len() == 1 {
        assert(cs =~= seq![z]);
    } else {
        let t = cs.drop_last();
        assert forall|i: int| 0 <= i < t.len() implies is_segment(#[trigger] t[i]) by {
            assert(t[i] == cs[i]);
        }
        lemma_split_segments(t);
        lemma_split_at(join(t, sep), z);
        assert(t + seq![z] =~= cs);
    }
}

/// Only the first piece of a path can be the component `.`.
proof fn lemma_dot_comes_first(pieces: Seq<Seq<char>>, n: int, i: int)
    requires
        0 <= n <= pieces.len(),
        0 <= i < components_of(pieces, n).len(),
        components_of(pieces, n)[i] == "."@,
    ensures
        i == 0,
        pieces[0] == "."@,
    decreases n,
{
    let c = components_of(pieces, n - 1);
    if i < c.len() {
        assert(components_of(pieces, n)[i] == c[i]);
        lemma_dot_comes_first(pieces, n - 1, i);
    } else {
        assert(is_component(pieces, n - 1));
        assert(n == 1);
        assert(components_of(pieces, 0).len() == 0);
    }
}

proof fn lemma_components_concat(p: Seq<Seq<char>>, q: Seq<Seq<char>>, n: int)
    requires
        0 <= n <= p.len() + q.len(),
        forall|i: int|
            0 <= i < q.len() ==> (#[trigger] q[i]).len() > 0 && (q[i] == "."@ ==> p.len() + i == 0),
    ensures
        components_of(p + q, n) == if n <= p.len() {
            components_of(p, n)
        } else {
            components_of(p, p.len() as int) + q.take(n - p.len())
        },
    decreases n,
{
    if n > 0 {
        lemma_components_concat(p, q, n - 1);
        if n <= p.len() {
            assert((p + q)[n - 1] == p[n - 1]);
        } else {
            let i = n - 1 - p.len();
            assert((p + q)[n - 1] == q[i]);
            assert(is_component(p + q, n - 1));
            assert(components_of(p, p.len() as int) + q.take(0) =~= components_of(
                p,
                p.len() as int,
            ));
            assert(q.take(i + 1) =~= q.take(i).push(q[i]));
            assert(components_of(p + q, n) =~= components_of(p, p.len() as int) + q.take(i + 1));
        }
    }
}

/// A relative path that is not empty has a component.
proof fn lemma_relative_has_component(path: Seq<char>, n: int)
    requires
        path.len() > 0,
        path[0] != '/',
        0 < n <= split(path, "/"@).len(),
    ensures
        components_of(split(path, "/"@), n).len() > 0,
    decreases n,
{
    reveal_strlit("/");
    let pieces = split(path, "/"@);
    if n > 1 {
        lemma_relative_has_component(path, n - 1);
    } else {
        lemma_find(path, "/"@);
        assert(pieces[0].len() > 0) by {
            match find(path, "/"@) {
                Some(k) => {
                    assert(path.skip(k).take(1)[0] == "/"@[0]);
                    assert(path[k] == '/');
                },
                None => {},
            }
        }
        assert(is_component(pieces, 0));
    }
}

/// A path joined from a base and components below it has those of both.
pub(crate) proof fn lemma_joined_components(base: Seq<char>, rel: Seq<Seq<char>>, x: Seq<char>)
    requires
        rel.len() > 0,
        forall|i: int| 0 <= i < rel.len() ==> is_segment(#[trigger] rel[i]),
        forall|i: int|
            0 <= i < rel.len() && #[trigger] rel[i] == "."@ ==> components(base).len() + i == 0
                && !is_absolute(base),
        x == join(rel, "/"@),
    ensures
        is_absolute(joined(base, x)) == is_absolute(base),
        components(joined(base, x)) == components(base) + rel,
{
    reveal_strlit("/");
    let sep = "/"@;
    lemma_joined_segments(rel);
    lemma_split_segments(rel);
    let all = rel.len() as int;
    assert(rel.take(all) =~= rel);
    if base.len() == 0 {
        let none = Seq::<Seq<char>>::empty();
        assert(split(base, sep) =~= seq![base]) by {
            lemma_find(base, sep);
        }
        reveal_with_fuel(components_of, 2);
        assert(components(base) =~= none);
        assert(joined(base, x) =~= x);
        lemma_components_concat(none, rel, all);
        assert(none + rel =~= rel);
        assert(components_of(none, 0) + rel =~= rel);
        assert(components(base) + rel =~= rel);
    } else {
        if base[0] != '/' {
            lemma_relative_has_component(base, split(base, sep).len() as int);
        }
        if base.last() == '/' {
            let b = base.drop_last();
            assert(b + sep + Seq::<char>::empty() =~= base);
            lemma_split_at(b, Seq::empty());
            lemma_split_at(b, x);
            assert(joined(base, x) =~= b + sep + x);
            let p = split(b, sep);
            let e = Seq::<char>::empty();
            assert(split(e, sep) =~= seq![e]) by {
                lemma_find(e, sep);
            }
            let q = split(base, sep);
            assert(q =~= p.push(e));
            lemma_components_prefix(p, e, p.len() as int);
            assert(components(base) == components_of(p, p.len() as int));
            lemma_components_concat(p, rel, p.len() + all);
        } else {
            lemma_split_at(base, x);
            assert(joined(base, x) =~= base + sep + x);
            lemma_components_concat(split(base, sep), rel, split(base, sep).len() + all);
        }
    }
}

proof fn lemma_components_prefix(p: Seq<Seq<char>>, e: Seq<char>, n: int)
    requires
        0 <= n <= p.len(),
    ensures
        components_of(p.push(e), n) == components_of(p, n),
    decreases n,
{
    if n > 0 {
        lemma_components_prefix(p, e, n - 1);
        assert(p.push(e)[n - 1] == p[n - 1]);
    }
}

/// What stands below a base is a list of names; `.` is among them only where
/// the path starts with it.
pub(crate) proof fn lemma_below_base(base: Seq<char>, file: Seq<char>)
    requires
        below_base(base, file) is Some,
    ensures
        ({
            let rel = below_base(base, file)->0;
            &&& forall|i: int| 0 <= i < rel.len() ==> is_segment(#[trigger] rel[i])
            &&& forall|i: int|
                0 <= i < rel.len() && #[trigger] rel[i] == "."@ ==> components(base).len() + i == 0
                    && !is_absolute(base)
            &&& components(base) + rel == components(file)
        }),
{
    reveal_strlit("/");
    let rel = below_base(base, file)->0;
    let b = components(base).len() as int;
    let pieces = split(file, "/"@);
    assert forall|i: int| 0 <= i < rel.len() implies is_segment(#[trigger] rel[i]) by {
        lemma_components(file, pieces.len() as int, b + i);
        assert(rel[i] == components(file)[b + i]);
    }
    assert forall|i: int| 0 <= i < rel.len() && #[trigger] rel[i] == "."@ implies b + i == 0
        && !is_absolute(base) by {
        assert(rel[i] == components(file)[b + i]);
        lemma_dot_comes_first(pieces, pieces.len() as int, b + i);
        if is_absolute(file) {
            assert(file.take(1) =~= "/"@);
            assert(find(file, "/"@) == Some(0int));
            reveal_strlit(".");
        }
    }
    assert(components(base) + rel =~= components(file)) by {
        assert(components(file).take(b) + components(file).skip(b) =~= components(file));
    }
}

// ---------------------------------------------------------------------------
// Laws
// ---------------------------------------------------------------------------

/// The parents of a path below a directory stand strictly between the two: each
/// has the first components of the path, one fewer than the one before, and one
/// at least below the directory.
pub proof fn law_parents_stand_between(path: Seq<char>, stop: Seq<char>, i: int)
    requires
        0 <= i < parents_between(path, stop).len(),
    ensures
        below_base(stop, path) is Some,
        below_base(stop, parents_between(path, stop)[i]) == Some(
            below_base(stop, path)->0.take(below_base(stop, path)->0.len() - 1 - i),
        ),
        below_base(stop, path)->0.len() - 1 - i > 0,
{
    let rel = below_base(stop, path)->0;
    let part = rel.take(rel.len() - 1 - i);
    lemma_below_base(stop, path);
    assert forall|k: int| 0 <= k < part.len() implies is_segment(#[trigger] part[k]) by {
        assert(part[k] == rel[k]);
    }
    assert forall|k: int| 0 <= k < part.len() && #[trigger] part[k] == "."@ implies components(
        stop,
    ).len() + k == 0 && !is_absolute(stop) by {
        assert(part[k] == rel[k]);
    }
    lemma_joined_components(stop, part, join(part, "/"@));
    let b = components(stop);
    assert((b + part).take(b.len() as int) =~= b);
    assert((b + part).skip(b.len() as int) =~= part);
}

} // verus!
