//! Source positions inside decoded string interpolations.
//!
//! A string literal is decoded before the expressions in it are parsed. The
//! position map keeps, for every byte boundary of the decoded text, the file
//! offset it came from, and composes with the map of an enclosing string.
use crate::text::{chars_of, extend, string_of};
use crate::token::Span;
use crate::utf8::{
    char_width, lemma_size_bounds, lemma_size_concat, lemma_size_part, lemma_size_push, size, width,
};
use vstd::prelude::*;

verus! {

/// How many characters the escape or character at `i` takes: a backslash takes
/// the next character with it, `\x` two more, `\u` four more.
pub open spec fn unit_len(s: Seq<char>, i: int) -> int {
    let n = if s[i] != '\\' || i + 1 >= s.len() {
        1int
    } else if s[i + 1] == 'x' {
        4int
    } else if s[i + 1] == 'u' {
        6int
    } else {
        2int
    };
    if i + n <= s.len() {
        n
    } else {
        s.len() - i
    }
}

/// The text of the `k`-th escape; one that is not given decodes to nothing.
pub open spec fn escape_text(escapes: Seq<Seq<char>>, k: int) -> Seq<char> {
    if 0 <= k < escapes.len() {
        escapes[k]
    } else {
        Seq::empty()
    }
}

/// The decoded text of `s` from `i` on, whose first escape is the `k`-th.
pub open spec fn decoded(s: Seq<char>, escapes: Seq<Seq<char>>, i: int, k: int) -> Seq<char>
    decreases s.len() - i,
{
    if i < 0 || i >= s.len() {
        Seq::empty()
    } else if s[i] == '\\' {
        escape_text(escapes, k) + decoded(s, escapes, i + unit_len(s, i), k + 1)
    } else {
        seq![s[i]] + decoded(s, escapes, i + 1, k)
    }
}

/// A file offset for a local one: through the map of the enclosing string,
/// where there is one.
pub open spec fn through(base: Option<&Vec<usize>>, local: int) -> int {
    match base {
        Some(v) => v@[local] as int,
        None => local,
    }
}

/// `n` times the offset `x`.
pub open spec fn repeat(x: int, n: int) -> Seq<int> {
    Seq::new(n as nat, |i: int| x)
}

/// The file offsets of the decoded bytes of `s` from `i` on: all bytes of an
/// escape come from where it starts, the others from their own place.
pub open spec fn places(
    s: Seq<char>,
    escapes: Seq<Seq<char>>,
    start: int,
    base: Option<&Vec<usize>>,
    i: int,
    k: int,
) -> Seq<int>
    decreases s.len() - i,
{
    if i < 0 || i >= s.len() {
        seq![through(base, start + size(s))]
    } else {
        let here = start + size(s.take(i));
        if s[i] == '\\' {
            repeat(through(base, here), size(escape_text(escapes, k))) + places(
                s,
                escapes,
                start,
                base,
                i + unit_len(s, i),
                k + 1,
            )
        } else {
            Seq::new(width(s[i]) as nat, |b: int| through(base, here + b)) + places(
                s,
                escapes,
                start,
                base,
                i + 1,
                k,
            )
        }
    }
}

pub open spec fn offsets(v: Seq<usize>) -> Seq<int> {
    Seq::new(v.len(), |i: int| v[i] as int)
}

/// A file offset for a local one: the offset itself, or its entry in the map of
/// the enclosing string.
pub fn source_offset(base: Option<&Vec<usize>>, local: usize) -> (r: usize)
    requires
        base matches Some(v) ==> local < v@.len(),
    ensures
        r == through(base, local as int),
{
    match base {
        Some(v) => v[local],
        None => local,
    }
}

fn unit_at(s: &Vec<char>, i: usize) -> (r: usize)
    requires
        i < s@.len(),
    ensures
        r == unit_len(s@, i as int),
        1 <= r,
        i + r <= s@.len(),
{
    let len: usize = s.len();
    let n: usize = if s[i] != '\\' || i + 1 >= len {
        1
    } else if s[i + 1] == 'x' {
        4
    } else if s[i + 1] == 'u' {
        6
    } else {
        2
    };
    if n <= len - i {
        n
    } else {
        len - i
    }
}

/// The escapes of a literal, in order, each as written.
pub open spec fn escapes_in(s: Seq<char>, i: int) -> Seq<Seq<char>>
    decreases s.len() - i,
{
    if i < 0 || i >= s.len() {
        Seq::empty()
    } else if s[i] == '\\' {
        seq![s.subrange(i, i + unit_len(s, i))] + escapes_in(s, i + unit_len(s, i))
    } else {
        escapes_in(s, i + 1)
    }
}

/// The escapes of a literal, in order, each as written, for the decoder.
pub fn escape_chunks(inner: &str) -> (r: Vec<String>)
    ensures
        crate::text::texts(r@) == escapes_in(inner@, 0),
{
    let s = chars_of(inner);
    let mut out: Vec<String> = Vec::new();
    let mut i: usize = 0;
    assert(crate::text::texts(out@) + escapes_in(s@, 0) =~= escapes_in(s@, 0));
    while i < s.len()
        invariant
            i <= s@.len(),
            s@ == inner@,
            escapes_in(inner@, 0) == crate::text::texts(out@) + escapes_in(s@, i as int),
        decreases s@.len() - i,
    {
        let ghost had = crate::text::texts(out@);
        if s[i] == '\\' {
            let n = unit_at(&s, i);
            let chunk = crate::text::part(&s, i, i + n);
            out.push(string_of(&chunk));
            assert(crate::text::texts(out@) =~= had.push(chunk@));
            assert(crate::text::texts(out@) + escapes_in(s@, i + n) =~= had + escapes_in(
                s@,
                i as int,
            ));
            i += n;
        } else {
            i += 1;
        }
    }
    assert(crate::text::texts(out@) + escapes_in(s@, i as int) =~= crate::text::texts(out@));
    out
}

fn size_of(s: &Vec<char>) -> (r: usize)
    requires
        size(s@) <= usize::MAX,
    ensures
        r == size(s@),
{
    let mut n: usize = 0;
    let mut i: usize = 0;
    assert(s@.take(0).len() == 0);
    while i < s.len()
        invariant
            i <= s@.len(),
            n == size(s@.take(i as int)),
            size(s@) <= usize::MAX,
        decreases s@.len() - i,
    {
        let w = char_width(s[i]);
        proof {
            lemma_size_push(s@.take(i as int), s@[i as int]);
            assert(s@.take(i + 1) =~= s@.take(i as int).push(s@[i as int]));
            lemma_size_part(s@, i + 1);
        }
        n = n + w;
        i += 1;
    }
    assert(s@.take(i as int) =~= s@);
    n
}

/// Decodes the text between the quotes of a string literal that starts at the
/// local offset `local_start`, given what each of its escapes decodes to (see
/// [`escape_chunks`]), and maps every byte boundary of the result to the file.
pub fn decoded_with_positions(
    inner: &str,
    local_start: usize,
    escapes: &Vec<String>,
    base: Option<&Vec<usize>>,
) -> (r: (String, Vec<usize>))
    requires
        local_start + size(inner@) <= usize::MAX,
        base matches Some(v) ==> local_start + size(inner@) < v@.len(),
        forall|k: int| 0 <= k < escapes@.len() ==> size((#[trigger] escapes@[k])@) <= usize::MAX,
    ensures
        r.0@ == decoded(inner@, crate::text::texts(escapes@), 0, 0),
        offsets(r.1@) == places(
            inner@,
            crate::text::texts(escapes@),
            local_start as int,
            base,
            0,
            0,
        ),
{
    let s = chars_of(inner);
    let ghost es = crate::text::texts(escapes@);
    let mut text: Vec<char> = Vec::new();
    let mut positions: Vec<usize> = Vec::new();
    let mut here: usize = 0;
    let mut i: usize = 0;
    let mut k: usize = 0;
    let ghost goal_text = decoded(inner@, es, 0, 0);
    let ghost goal = places(inner@, es, local_start as int, base, 0, 0);
    assert(text@ + goal_text =~= goal_text);
    assert(offsets(positions@) + goal =~= goal);
    assert(s@.take(0).len() == 0);
    while i < s.len()
        invariant
            i <= s@.len(),
            k <= i,
            s@ == inner@,
            es == crate::text::texts(escapes@),
            here == size(s@.take(i as int)),
            local_start + size(inner@) <= usize::MAX,
            base matches Some(v) ==> local_start + size(inner@) < v@.len(),
            forall|k: int|
                0 <= k < escapes@.len() ==> size((#[trigger] escapes@[k])@) <= usize::MAX,
            goal_text == text@ + decoded(s@, es, i as int, k as int),
            goal == offsets(positions@) + places(
                s@,
                es,
                local_start as int,
                base,
                i as int,
                k as int,
            ),
        decreases s@.len() - i,
    {
        let ghost had_text = text@;
        let ghost had = offsets(positions@);
        let c: char = s[i];
        let n = unit_at(&s, i);
        proof {
            lemma_size_part(s@, i as int);
            lemma_size_part(s@, i + n);
            lemma_size_part(s@.skip(i as int), n as int);
            assert(s@.take(i + n) =~= s@.take(i as int) + s@.subrange(i as int, i + n));
            lemma_size_concat(s@.take(i as int), s@.subrange(i as int, i + n));
            lemma_size_bounds(s@.subrange(i as int, i + n));
        }
        let ghost at = local_start + here;
        if c == '\\' {
            let chunk: Vec<char> = if k < escapes.len() {
                chars_of(escapes[k].as_str())
            } else {
                Vec::new()
            };
            assert(chunk@ =~= escape_text(es, k as int));
            let len = size_of(&chunk);
            let place = source_offset(base, local_start + here);
            let mut b: usize = 0;
            assert(offsets(positions@) =~= had + repeat(place as int, 0));
            while b < len
                invariant
                    b <= len,
                    offsets(positions@) == had + repeat(place as int, b as int),
                decreases len - b,
            {
                let ghost now = offsets(positions@);
                positions.push(place);
                assert(offsets(positions@) =~= now.push(place as int));
                assert(offsets(positions@) =~= had + repeat(place as int, b + 1));
                b += 1;
            }
            extend(&mut text, &chunk);
            assert(text@ + decoded(s@, es, i + n, k + 1) =~= had_text + decoded(
                s@,
                es,
                i as int,
                k as int,
            ));
            assert(offsets(positions@) + places(
                s@,
                es,
                local_start as int,
                base,
                i + n,
                k + 1,
            ) =~= had + places(s@, es, local_start as int, base, i as int, k as int));
            let chunk_size = unit_size(&s, i, n);
            here = here + chunk_size;
            i += n;
            k += 1;
        } else {
            let w = char_width(c);
            proof {
                lemma_size_push(s@.take(i as int), c);
                assert(s@.take(i + 1) =~= s@.take(i as int).push(c));
            }
            let ghost row = Seq::new(w as nat, |b: int| through(base, at + b));
            let mut b: usize = 0;
            assert(offsets(positions@) =~= had + row.take(0));
            while b < w
                invariant
                    b <= w <= 4,
                    at == local_start + here,
                    local_start + here + w <= local_start + size(inner@) <= usize::MAX,
                    base matches Some(v) ==> local_start + size(inner@) < v@.len(),
                    row == Seq::new(w as nat, |b: int| through(base, at + b)),
                    offsets(positions@) == had + row.take(b as int),
                decreases w - b,
            {
                let ghost now = offsets(positions@);
                let place = source_offset(base, local_start + here + b);
                positions.push(place);
                assert(offsets(positions@) =~= now.push(place as int));
                assert(row[b as int] == place as int);
                assert(offsets(positions@) =~= had + row.take(b + 1));
                b += 1;
            }
            assert(row.take(w as int) =~= row);
            text.push(c);
            assert(text@ + decoded(s@, es, i + 1, k as int) =~= had_text + decoded(
                s@,
                es,
                i as int,
                k as int,
            ));
            assert(offsets(positions@) + places(
                s@,
                es,
                local_start as int,
                base,
                i + 1,
                k as int,
            ) =~= had + places(s@, es, local_start as int, base, i as int, k as int));
            here = here + w;
            i += 1;
        }
    }
    assert(s@.take(i as int) =~= s@);
    let ghost had = offsets(positions@);
    let end = source_offset(base, local_start + here);
    positions.push(end);
    assert(offsets(positions@) =~= had.push(end as int));
    assert(offsets(positions@) =~= goal);
    assert(text@ =~= goal_text);
    (string_of(&text), positions)
}

fn unit_size(s: &Vec<char>, i: usize, n: usize) -> (r: usize)
    requires
        i + n <= s@.len(),
        size(s@) <= usize::MAX,
    ensures
        r == size(s@.subrange(i as int, i + n)),
{
    let len: usize = s.len();
    assert(i + n <= len);
    let chunk = crate::text::part(s, i, i + n);
    proof {
        lemma_size_part(s@, i as int);
        assert(s@.skip(i as int).take(n as int) =~= s@.subrange(i as int, i + n));
        lemma_size_part(s@.skip(i as int), n as int);
    }
    size_of(&chunk)
}

/// Spans of the tokens of a decoded text, moved to the file.
pub fn remap_spans(spans: &Vec<Span>, positions: &Vec<usize>) -> (r: Vec<Span>)
    requires
        forall|i: int|
            0 <= i < spans@.len() ==> (#[trigger] spans@[i]).start < positions@.len()
                && spans@[i].end < positions@.len(),
    ensures
        r@.len() == spans@.len(),
        forall|i: int|
            0 <= i < r@.len() ==> #[trigger] r@[i] == (Span {
                start: positions@[spans@[i].start as int],
                end: positions@[spans@[i].end as int],
            }),
{
    let mut out: Vec<Span> = Vec::new();
    let mut i: usize = 0;
    while i < spans.len()
        invariant
            i <= spans@.len(),
            out@.len() == i,
            forall|k: int|
                0 <= k < spans@.len() ==> (#[trigger] spans@[k]).start < positions@.len()
                    && spans@[k].end < positions@.len(),
            forall|k: int|
                0 <= k < i ==> #[trigger] out@[k] == (Span {
                    start: positions@[spans@[k].start as int],
                    end: positions@[spans@[k].end as int],
                }),
        decreases spans@.len() - i,
    {
        let s = spans[i];
        out.push(Span::new(positions[s.start], positions[s.end]));
        i += 1;
    }
    out
}

// ---------------------------------------------------------------------------
// Laws
// ---------------------------------------------------------------------------

/// The map has an entry for every byte of the decoded text and one for its end.
pub proof fn law_every_boundary_is_mapped(
    s: Seq<char>,
    escapes: Seq<Seq<char>>,
    start: int,
    base: Option<&Vec<usize>>,
    i: int,
    k: int,
)
    requires
        0 <= i <= s.len(),
        0 <= k,
    ensures
        places(s, escapes, start, base, i, k).len() == size(decoded(s, escapes, i, k)) + 1,
    decreases s.len() - i,
{
    if i < s.len() {
        if s[i] == '\\' {
            let n = unit_len(s, i);
            law_every_boundary_is_mapped(s, escapes, start, base, i + n, k + 1);
            lemma_size_bounds(escape_text(escapes, k));
            lemma_size_concat(escape_text(escapes, k), decoded(s, escapes, i + n, k + 1));
        } else {
            law_every_boundary_is_mapped(s, escapes, start, base, i + 1, k);
            lemma_size_concat(seq![s[i]], decoded(s, escapes, i + 1, k));
            lemma_size_push(Seq::empty(), s[i]);
            assert(Seq::<char>::empty().push(s[i]) =~= seq![s[i]]);
        }
    }
}

/// Without escapes and enclosing string the map is the identity, shifted.
pub proof fn law_plain_text_keeps_its_offsets(s: Seq<char>, start: int, i: int, b: int)
    requires
        0 <= i <= s.len(),
        forall|j: int| 0 <= j < s.len() ==> s[j] != '\\',
        0 <= b <= size(s.skip(i)),
    ensures
        places(s, Seq::empty(), start, None, i, 0).len() == size(s.skip(i)) + 1,
        places(s, Seq::empty(), start, None, i, 0)[b] == start + size(s.take(i)) + b,
    decreases s.len() - i,
{
    lemma_size_part(s, i);
    if i < s.len() {
        let w = width(s[i]);
        lemma_size_push(s.take(i), s[i]);
        assert(s.take(i + 1) =~= s.take(i).push(s[i]));
        assert(s.skip(i).skip(1) =~= s.skip(i + 1));
        assert(s.skip(i)[0] == s[i]);
        assert(size(s.skip(i)) == w + size(s.skip(i + 1)));
        lemma_size_bounds(s.skip(i + 1));
        law_plain_text_keeps_its_offsets(
            s,
            start,
            i + 1,
            if b >= w {
                b - w
            } else {
                0
            },
        );
    } else {
        assert(s.take(i) =~= s);
        assert(s.skip(i).len() == 0);
    }
}

/// The first byte of the decoded text comes from where the literal starts, and
/// the map ends where the literal does.
pub proof fn law_map_spans_the_literal(
    s: Seq<char>,
    escapes: Seq<Seq<char>>,
    start: int,
    i: int,
    k: int,
)
    requires
        0 <= i <= s.len(),
        0 <= k,
    ensures
        ({
            let m = places(s, escapes, start, None, i, k);
            &&& m.len() > 0
            &&& m.last() == start + size(s)
            &&& forall|b: int| 0 <= b < m.len() ==> start + size(s.take(i)) <= #[trigger] m[b] <= start
                + size(s)
            &&& forall|b: int, c: int| 0 <= b <= c < m.len() ==> m[b] <= m[c]
        }),
    decreases s.len() - i,
{
    lemma_size_part(s, i);
    lemma_size_bounds(s.skip(i));
    let m = places(s, escapes, start, None, i, k);
    if i < s.len() {
        let n = if s[i] == '\\' {
            unit_len(s, i)
        } else {
            1
        };
        let next = if s[i] == '\\' {
            k + 1
        } else {
            k
        };
        law_map_spans_the_literal(s, escapes, start, i + n, next);
        let rest = places(s, escapes, start, None, i + n, next);
        let here = start + size(s.take(i));
        assert(s.take(i + n) =~= s.take(i) + s.subrange(i, i + n));
        lemma_size_concat(s.take(i), s.subrange(i, i + n));
        lemma_size_bounds(s.subrange(i, i + n));
        lemma_size_bounds(escape_text(escapes, k));
        if s[i] != '\\' {
            assert(s.subrange(i, i + 1) =~= Seq::<char>::empty().push(s[i]));
            lemma_size_push(Seq::empty(), s[i]);
        }
        let own = m.len() - rest.len();
        assert forall|b: int| 0 <= b < m.len() implies here <= #[trigger] m[b] <= start + size(s)
            && (b < own ==> m[b] <= start + size(s.take(i + n))) by {
            if b >= own {
                assert(m[b] == rest[b - own]);
            }
        }
        assert forall|b: int, c: int| 0 <= b <= c < m.len() implies m[b] <= m[c] by {
            if b >= own {
                assert(m[b] == rest[b - own]);
                assert(m[c] == rest[c - own]);
            } else if c >= own {
                assert(m[c] == rest[c - own]);
            }
        }
        assert(m.last() == rest.last());
    } else {
        assert(s.take(i) =~= s);
    }
}

/// Each escape is taken whole: it starts with its backslash, takes as many
/// characters as its kind has unless the literal ends before, and stands in the
/// literal where it was found.
pub proof fn law_escapes_are_taken_whole(s: Seq<char>, i: int, k: int) -> (at: int)
    requires
        0 <= i <= s.len(),
        0 <= k < escapes_in(s, i).len(),
    ensures
        ({
            let e = escapes_in(s, i)[k];
            &&& i <= at && at + e.len() <= s.len()
            &&& e == s.subrange(at, at + e.len())
            &&& e.len() > 0 && e[0] == '\\'
            &&& at + e.len() < s.len() ==> e.len() == if e[1] == 'x' {
                4int
            } else if e[1] == 'u' {
                6int
            } else {
                2int
            }
        }),
    decreases s.len() - i,
{
    if s[i] == '\\' {
        let n = unit_len(s, i);
        let own = seq![s.subrange(i, i + n)];
        if k == 0 {
            assert(escapes_in(s, i)[0] == own[0]);
            i
        } else {
            assert(escapes_in(s, i)[k] == escapes_in(s, i + n)[k - 1]);
            law_escapes_are_taken_whole(s, i + n, k - 1)
        }
    } else {
        law_escapes_are_taken_whole(s, i + 1, k)
    }
}

/// Text without escapes decodes to itself.
pub proof fn law_plain_text_decodes_to_itself(s: Seq<char>, escapes: Seq<Seq<char>>, i: int, k: int)
    requires
        0 <= i <= s.len(),
        forall|j: int| 0 <= j < s.len() ==> s[j] != '\\',
    ensures
        decoded(s, escapes, i, k) == s.skip(i),
        escapes_in(s, i).len() == 0,
    decreases s.len() - i,
{
    if i < s.len() {
        law_plain_text_decodes_to_itself(s, escapes, i + 1, k);
        assert(seq![s[i]] + s.skip(i + 1) =~= s.skip(i));
    } else {
        assert(s.skip(i) =~= Seq::empty());
    }
}

/// Each escape decodes to its own text, in order: the decoded text of two pieces
/// of a literal is that of the one and then that of the other, with the escapes
/// dealt out accordingly.
pub proof fn law_escapes_decode_in_order(
    a: Seq<char>,
    chunk: Seq<char>,
    b: Seq<char>,
    escapes: Seq<Seq<char>>,
    k: int,
)
    requires
        forall|j: int| 0 <= j < a.len() ==> a[j] != '\\',
        chunk.len() == 2,
        chunk[0] == '\\',
        chunk[1] != 'x' && chunk[1] != 'u',
        0 <= k < escapes.len(),
    ensures
        decoded(a + chunk + b, escapes, 0, k) == a + escapes[k] + decoded(
            a + chunk + b,
            escapes,
            (a.len() + 2) as int,
            k + 1,
        ),
{
    lemma_plain_start(a, chunk, b, escapes, 0, k);
    let s = a + chunk + b;
    assert(s[a.len() as int] == '\\');
    assert(s[a.len() as int + 1] == chunk[1]);
    assert(unit_len(s, a.len() as int) == 2);
    assert(a.skip(0) =~= a);
    assert(a + (escapes[k] + decoded(s, escapes, (a.len() + 2) as int, k + 1)) =~= a + escapes[k]
        + decoded(s, escapes, (a.len() + 2) as int, k + 1));
}

proof fn lemma_plain_start(
    a: Seq<char>,
    chunk: Seq<char>,
    b: Seq<char>,
    escapes: Seq<Seq<char>>,
    i: int,
    k: int,
)
    requires
        forall|j: int| 0 <= j < a.len() ==> a[j] != '\\',
        0 <= i <= a.len(),
    ensures
        decoded(a + chunk + b, escapes, i, k) == a.skip(i) + decoded(
            a + chunk + b,
            escapes,
            a.len() as int,
            k,
        ),
    decreases a.len() - i,
{
    let s = a + chunk + b;
    let rest = decoded(s, escapes, a.len() as int, k);
    if i < a.len() {
        lemma_plain_start(a, chunk, b, escapes, i + 1, k);
        assert(s[i] == a[i]);
        assert(seq![a[i]] + (a.skip(i + 1) + rest) =~= a.skip(i) + rest);
    } else {
        assert(a.skip(i) + rest =~= rest);
    }
}

} // verus!
