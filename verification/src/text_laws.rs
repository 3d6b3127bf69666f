//! What trimming, searching, splitting, ordering and printing of text give.
use crate::paths::lemma_rfind;
use crate::text::{
    base_name, before, decimal, digit_char, digits, drop_end, drop_start, ends, find, has,
    is_digit, is_space, join, lemma_find, lemma_find_first, rfind, split, starts, trim,
    trim_start, Class,
};
use vstd::prelude::*;

verus! {

/// Dropping a class of characters in front takes all of them, up to the first of
/// another.
pub proof fn law_front_is_dropped_up_to_another(s: Seq<char>, p: Class) -> (k: int)
    ensures
        0 <= k <= s.len(),
        drop_start(s, p) == s.skip(k),
        forall|i: int| 0 <= i < k ==> p.has(#[trigger] s[i]),
        k < s.len() ==> !p.has(s[k]),
    decreases s.len(),
{
    if s.len() > 0 && p.has(s[0]) {
        let k = law_front_is_dropped_up_to_another(s.skip(1), p);
        assert(s.skip(1).skip(k) =~= s.skip(k + 1));
        assert forall|i: int| 0 <= i < k + 1 implies p.has(#[trigger] s[i]) by {
            if i > 0 {
                assert(s.skip(1)[i - 1] == s[i]);
            }
        }
        k + 1
    } else {
        assert(s.skip(0) =~= s);
        0
    }
}

/// Dropping a class of characters at the end takes all of them, down to the last
/// of another.
pub proof fn law_end_is_dropped_down_to_another(s: Seq<char>, p: Class) -> (k: int)
    ensures
        0 <= k <= s.len(),
        drop_end(s, p) == s.take(k),
        forall|i: int| k <= i < s.len() ==> p.has(#[trigger] s[i]),
        k > 0 ==> !p.has(s[k - 1]),
    decreases s.len(),
{
    if s.len() > 0 && p.has(s.last()) {
        let k = law_end_is_dropped_down_to_another(s.drop_last(), p);
        assert(s.drop_last().take(k) =~= s.take(k));
        assert forall|i: int| k <= i < s.len() implies p.has(#[trigger] s[i]) by {
            if i < s.len() - 1 {
                assert(s.drop_last()[i] == s[i]);
            }
        }
        k
    } else {
        assert(s.take(s.len() as int) =~= s);
        s.len() as int
    }
}

/// A trimmed text is a part of the text that neither starts nor ends in white
/// space, and what stood around it was white space alone.
pub proof fn law_trim_drops_the_space_around(s: Seq<char>) -> (r: (int, int))
    ensures
        0 <= r.0 <= r.1 <= s.len(),
        trim(s) == s.subrange(r.0, r.1),
        forall|i: int| 0 <= i < r.0 || r.1 <= i < s.len() ==> is_space(#[trigger] s[i]),
        trim(s).len() > 0 ==> !is_space(trim(s)[0]) && !is_space(trim(s).last()),
{
    let a = law_front_is_dropped_up_to_another(s, Class::Space);
    let rest = s.skip(a);
    let b = law_end_is_dropped_down_to_another(rest, Class::Space);
    assert(rest.take(b) =~= s.subrange(a, a + b));
    assert forall|i: int| 0 <= i < a || a + b <= i < s.len() implies is_space(#[trigger] s[i]) by {
        if i < a {
            assert(Class::Space.has(s[i]));
        } else {
            assert(rest[i - a] == s[i]);
            assert(Class::Space.has(rest[i - a]));
        }
    }
    if b > 0 {
        assert(rest[b - 1] == trim(s).last());
        assert(rest[0] == trim(s)[0]);
    }
    (a, a + b)
}

/// A text trimmed in front is the text from its first character that is no white
/// space on.
pub proof fn law_trim_start_drops_the_space_in_front(s: Seq<char>) -> (k: int)
    ensures
        0 <= k <= s.len(),
        trim_start(s) == s.skip(k),
        forall|i: int| 0 <= i < k ==> is_space(#[trigger] s[i]),
        k < s.len() ==> !is_space(s[k]),
{
    let k = law_front_is_dropped_up_to_another(s, Class::Space);
    assert forall|i: int| 0 <= i < k implies is_space(#[trigger] s[i]) by {
        assert(Class::Space.has(s[i]));
    }
    k
}

/// A search finds the first place where the pattern stands, and nothing only
/// where it stands nowhere.
pub proof fn law_find_gives_the_first_place(s: Seq<char>, p: Seq<char>)
    ensures
        find(s, p) is None ==> forall|i: int|
            0 <= i <= s.len() - p.len() ==> #[trigger] s.subrange(i, i + p.len()) != p,
        find(s, p) matches Some(k) ==> 0 <= k <= s.len() - p.len() && s.subrange(k, k + p.len())
            == p && forall|i: int| 0 <= i < k ==> #[trigger] s.subrange(i, i + p.len()) != p,
        has(s, p) <==> exists|i: int|
            0 <= i <= s.len() - p.len() && #[trigger] s.subrange(i, i + p.len()) == p,
{
    lemma_find(s, p);
    lemma_find_first(s, p);
    assert forall|i: int| 0 <= i <= s.len() - p.len() implies (starts(#[trigger] s.skip(i), p)
        <==> s.subrange(i, i + p.len()) == p) by {
        assert(s.skip(i).take(p.len() as int) =~= s.subrange(i, i + p.len()));
    }
    assert forall|i: int|
        0 <= i <= s.len() - p.len() && (find(s, p) is None || i < find(s, p)->0) implies
        #[trigger] s.subrange(i, i + p.len()) != p by {
        assert(!starts(s.skip(i), p));
    }
    match find(s, p) {
        Some(k) => {
            assert(starts(s.skip(k), p));
            assert(s.subrange(k, k + p.len()) == p);
        },
        None => {},
    }
}

/// A search from behind finds the last place where the pattern stands, and
/// nothing only where it stands nowhere.
pub proof fn law_rfind_gives_the_last_place(s: Seq<char>, p: Seq<char>)
    ensures
        rfind(s, p) is None ==> forall|i: int|
            0 <= i <= s.len() - p.len() ==> #[trigger] s.subrange(i, i + p.len()) != p,
        rfind(s, p) matches Some(k) ==> 0 <= k <= s.len() - p.len() && s.subrange(k, k + p.len())
            == p && forall|i: int|
            k < i <= s.len() - p.len() ==> #[trigger] s.subrange(i, i + p.len()) != p,
    decreases s.len(),
{
    lemma_rfind(s, p);
    if p.len() <= s.len() {
        let m = s.len() - p.len();
        assert(s.subrange(m, m + p.len()) =~= s.skip(m));
    }
    if !ends(s, p) && s.len() > 0 {
        let t = s.drop_last();
        law_rfind_gives_the_last_place(t, p);
        let low: int = match rfind(s, p) {
            Some(k) => k,
            None => -1,
        };
        assert forall|i: int| low < i <= s.len() - p.len() implies #[trigger] s.subrange(
            i,
            i + p.len(),
        ) != p by {
            if i < s.len() - p.len() {
                assert(t.subrange(i, i + p.len()) =~= s.subrange(i, i + p.len()));
                assert(t.subrange(i, i + p.len()) != p);
            }
        }
    } else if !ends(s, p) {
        assert forall|i: int| 0 <= i <= s.len() - p.len() implies #[trigger] s.subrange(
            i,
            i + p.len(),
        ) != p by {
            assert(s.subrange(i, i + p.len()) =~= s.skip(0));
        }
    }
}

/// The base of a qualified name is what follows its last `::`; a name without one
/// is its own base.
pub proof fn law_base_follows_the_last_colons(q: Seq<char>, n: Seq<char>)
    requires
        find(n, "::"@) is None,
        n.len() > 0 ==> n[0] != ':',
    ensures
        base_name(n) == n,
        base_name(q + "::"@ + n) == n,
{
    reveal_strlit("::");
    let s = q + "::"@ + n;
    let p = "::"@;
    law_rfind_gives_the_last_place(n, p);
    law_find_gives_the_first_place(n, p);
    law_rfind_gives_the_last_place(s, p);
    let at = q.len() as int;
    assert(s.subrange(at, at + 2) =~= p);
    assert(s.subrange(at, at + p.len()) == p);
    match rfind(s, p) {
        Some(k) => {
            if k > at {
                assert(s.subrange(k, k + 2)[0] == ':' && s.subrange(k, k + 2)[1] == ':');
                assert(s[k] == ':' && s[k + 1] == ':');
                if k == at + 1 {
                    assert(s[k + 1] == n[0]);
                } else {
                    let j = k - at - 2;
                    assert(n.subrange(j, j + p.len()) =~= p);
                }
            }
            assert(k == at);
            assert(s.skip(k + 2) =~= n);
        },
        None => {},
    }
    match rfind(n, p) {
        Some(k) => {
            assert(n.subrange(k, k + p.len()) == p);
        },
        None => {},
    }
}

proof fn lemma_join_front(x: Seq<char>, rest: Seq<Seq<char>>, sep: Seq<char>)
    requires
        rest.len() > 0,
    ensures
        join(seq![x] + rest, sep) == x + sep + join(rest, sep),
    decreases rest.len(),
{
    let all = seq![x] + rest;
    if rest.len() == 1 {
        assert(all.drop_last() =~= seq![x]);
        assert(all.last() == rest[0]);
        assert(join(seq![x], sep) == x);
    } else {
        assert(all.drop_last() =~= seq![x] + rest.drop_last());
        assert(all.last() == rest.last());
        lemma_join_front(x, rest.drop_last(), sep);
        assert(join(all, sep) =~= x + sep + join(rest, sep));
    }
}

/// The pieces of a text, joined again, are the text, and none holds the
/// separator.
pub proof fn law_split_pieces_join_again(s: Seq<char>, p: Seq<char>)
    requires
        p.len() > 0,
    ensures
        split(s, p).len() > 0,
        join(split(s, p), p) == s,
        forall|i: int| 0 <= i < split(s, p).len() ==> !(#[trigger] has(split(s, p)[i], p)),
    decreases s.len(),
{
    lemma_find(s, p);
    lemma_find_first(s, p);
    match find(s, p) {
        Some(k) => {
            let rest = s.skip(k + p.len());
            law_split_pieces_join_again(rest, p);
            lemma_join_front(s.take(k), split(rest, p), p);
            assert(s.skip(k).take(p.len() as int) == p);
            assert(s =~= s.take(k) + p + rest);
            assert forall|i: int| 0 <= i < split(s, p).len() implies !(#[trigger] has(
                split(s, p)[i],
                p,
            )) by {
                if i == 0 {
                    let piece = s.take(k);
                    law_find_gives_the_first_place(piece, p);
                    law_find_gives_the_first_place(s, p);
                    if has(piece, p) {
                        let j = choose|j: int|
                            0 <= j <= piece.len() - p.len() && #[trigger] piece.subrange(
                                j,
                                j + p.len(),
                            ) == p;
                        assert(s.subrange(j, j + p.len()) =~= piece.subrange(j, j + p.len()));
                    }
                } else {
                    assert(split(s, p)[i] == split(rest, p)[i - 1]);
                    assert(!(has(split(rest, p)[i - 1], p)));
                }
            }
        },
        None => {
            assert forall|i: int| 0 <= i < split(s, p).len() implies !(#[trigger] has(
                split(s, p)[i],
                p,
            )) by {
                assert(split(s, p)[i] == s);
            }
        },
    }
}

/// One text comes before another where it is a shorter start of it, or where the
/// first character that differs is the smaller one.
pub proof fn law_order_is_by_the_first_difference(a: Seq<char>, b: Seq<char>)
    ensures
        before(a, b) <==> (a.len() < b.len() && b.take(a.len() as int) == a) || exists|k: int|
            0 <= k < a.len() && k < b.len() && a[k] < b[k] && #[trigger] a.take(k) == b.take(k),
    decreases a.len(),
{
    if a.len() == 0 {
        assert(b.take(0) =~= a);
    } else if b.len() > 0 {
        let x = a.skip(1);
        let y = b.skip(1);
        if a[0] == b[0] {
            law_order_is_by_the_first_difference(x, y);
            if before(a, b) {
                if x.len() < y.len() && y.take(x.len() as int) == x {
                    assert(b.take(a.len() as int) =~= seq![a[0]] + y.take(x.len() as int));
                    assert(a =~= seq![a[0]] + x);
                } else {
                    let k = choose|k: int|
                        0 <= k < x.len() && k < y.len() && x[k] < y[k] && #[trigger] x.take(k)
                            == y.take(k);
                    assert(a.take(k + 1) =~= seq![a[0]] + x.take(k));
                    assert(b.take(k + 1) =~= seq![b[0]] + y.take(k));
                    assert(a[k + 1] < b[k + 1]);
                }
            }
            if a.len() < b.len() && b.take(a.len() as int) == a {
                assert(y.take(x.len() as int) =~= b.take(a.len() as int).skip(1));
                assert(y.take(x.len() as int) == x);
            }
            if exists|k: int|
                0 <= k < a.len() && k < b.len() && a[k] < b[k] && #[trigger] a.take(k) == b.take(
                    k,
                ) {
                let k = choose|k: int|
                    0 <= k < a.len() && k < b.len() && a[k] < b[k] && #[trigger] a.take(k)
                        == b.take(k);
                assert(k > 0);
                assert(x.take(k - 1) =~= a.take(k).skip(1));
                assert(y.take(k - 1) =~= b.take(k).skip(1));
                assert(x[k - 1] < y[k - 1]);
            }
        } else {
            assert(a.take(0) =~= b.take(0));
            if a.len() < b.len() && b.take(a.len() as int) == a {
                assert(b.take(a.len() as int)[0] == b[0]);
            }
            if exists|k: int|
                0 <= k < a.len() && k < b.len() && a[k] < b[k] && #[trigger] a.take(k) == b.take(
                    k,
                ) {
                let k = choose|k: int|
                    0 <= k < a.len() && k < b.len() && a[k] < b[k] && #[trigger] a.take(k)
                        == b.take(k);
                if k > 0 {
                    assert(a.take(k)[0] == b.take(k)[0]);
                }
            }
        }
    }
}

/// The number that a row of decimal digits stands for.
pub open spec fn number(s: Seq<char>) -> int
    decreases s.len(),
{
    if s.len() == 0 {
        0
    } else {
        10 * number(s.drop_last()) + (s.last() as int - '0' as int)
    }
}

/// A printed number is a row of digits that reads as the number, and starts with
/// a zero only where it is zero.
pub proof fn law_digits_read_back(n: nat)
    ensures
        digits(n).len() > 0,
        forall|i: int| 0 <= i < digits(n).len() ==> is_digit(#[trigger] digits(n)[i]),
        number(digits(n)) == n,
        digits(n)[0] == '0' ==> n == 0,
    decreases n,
{
    let d = n % 10;
    assert(('0' as u32) + d <= 57);
    assert(digit_char(d) as int == '0' as int + d);
    if n >= 10 {
        law_digits_read_back(n / 10);
        assert(digits(n).drop_last() =~= digits(n / 10));
        assert(digits(n)[0] == digits(n / 10)[0]);
        assert forall|i: int| 0 <= i < digits(n).len() implies is_digit(#[trigger] digits(n)[i]) by {
            if i < digits(n).len() - 1 {
                assert(digits(n)[i] == digits(n / 10)[i]);
            }
        }
    } else {
        assert(digits(n).drop_last() =~= Seq::<char>::empty());
        assert(number(Seq::<char>::empty()) == 0);
    }
}

/// A printed integer has a minus sign exactly where it is negative; the digits
/// behind it read as its size.
pub proof fn law_decimal_reads_back(i: int)
    ensures
        i < 0 ==> decimal(i)[0] == '-' && number(decimal(i).skip(1)) == -i,
        i >= 0 ==> is_digit(decimal(i)[0]) && number(decimal(i)) == i,
{
    if i < 0 {
        law_digits_read_back((-i) as nat);
        assert(decimal(i).skip(1) =~= digits((-i) as nat));
    } else {
        law_digits_read_back(i as nat);
    }
}

pub(crate) proof fn lemma_no_piece(t: Seq<char>, p: Seq<char>, c: char)
    requires
        p.len() > 0,
        p[0] == c,
        !t.contains(c),
    ensures
        split(t, p) == seq![t],
{
    law_find_gives_the_first_place(t, p);
    if find(t, p) is Some {
        let k = find(t, p)->0;
        assert(t.subrange(k, k + p.len())[0] == t[k]);
        assert(t.contains(t[k]));
    }
}

proof fn lemma_first_separator(q: Seq<char>, p: Seq<char>, c: char, t: Seq<char>) -> (k: int)
    requires
        p.len() == 1 || p.len() == 2,
        forall|i: int| 0 <= i < p.len() ==> p[i] == c,
        p.len() == 2 && q.len() > 0 ==> q.last() != c,
    ensures
        find(q + p + t, p) == Some(k),
        0 <= k,
        k == q.len() && find(q, p) is None || (k + p.len() <= q.len() && find(q, p) == Some(k)),
{
    let s = q + p + t;
    let n = q.len() as int;
    law_find_gives_the_first_place(s, p);
    law_find_gives_the_first_place(q, p);
    assert(s.subrange(n, n + p.len()) =~= p);
    let k = find(s, p)->0;
    assert(find(s, p) is Some && k <= n);
    assert(s.subrange(k, k + p.len())[0] == s[k]);
    assert(s[k] == c);
    if p.len() == 2 && k == n - 1 {
        assert(s[k] == q.last());
    }
    if find(q, p) is Some {
        let j = find(q, p)->0;
        assert(s.subrange(j, j + p.len()) =~= q.subrange(j, j + p.len()));
    }
    if k < n {
        assert(s.subrange(k, k + p.len()) =~= q.subrange(k, k + p.len()));
    }
    k
}

/// What follows the last separator is the last piece; the pieces before it are
/// those of the text before it.
pub proof fn law_last_piece_follows_the_last_separator(
    q: Seq<char>,
    p: Seq<char>,
    c: char,
    t: Seq<char>,
)
    requires
        p.len() == 1 || p.len() == 2,
        forall|i: int| 0 <= i < p.len() ==> p[i] == c,
        !t.contains(c),
        p.len() == 2 && q.len() > 0 ==> q.last() != c,
    ensures
        split(q + p + t, p) == split(q, p).push(t),
    decreases q.len(),
{
    let s = q + p + t;
    let k = lemma_first_separator(q, p, c, t);
    let rest = s.skip(k + p.len());
    assert(split(s, p) == seq![s.take(k)] + split(rest, p));
    assert(s.take(k) =~= q.take(k));
    if find(q, p) is None {
        assert(rest =~= t);
        lemma_no_piece(t, p, c);
        assert(q.take(k) =~= q);
        assert(split(s, p) =~= split(q, p).push(t));
    } else {
        let r = q.skip(k + p.len());
        assert(rest =~= r + p + t);
        if r.len() > 0 {
            assert(r.last() == q.last());
        }
        law_last_piece_follows_the_last_separator(r, p, c, t);
        assert(split(s, p) =~= split(q, p).push(t));
    }
}

} // verus!
