//! Text as a sequence of characters: trimming, lines, splitting, joining and
//! ordering, each stated over `Seq<char>` and computed on `Vec<char>`.
use vstd::prelude::*;
use vstd::string::*;

verus! {

/// `String::push` appends one character to the end of the string.
pub assume_specification[ String::push ](s: &mut String, c: char)
    ensures
        final(s)@ == old(s)@.push(c),
;

// ---------------------------------------------------------------------------
// Characters
// ---------------------------------------------------------------------------

/// The Unicode `White_Space` property.
pub open spec fn is_space(c: char) -> bool {
    ||| '\u{9}' <= c <= '\u{d}'
    ||| c == '\u{20}'
    ||| c == '\u{85}'
    ||| c == '\u{a0}'
    ||| c == '\u{1680}'
    ||| '\u{2000}' <= c <= '\u{200a}'
    ||| c == '\u{2028}'
    ||| c == '\u{2029}'
    ||| c == '\u{202f}'
    ||| c == '\u{205f}'
    ||| c == '\u{3000}'
}

/// True when `c` is a Unicode white space character.
pub fn is_space_char(c: char) -> (r: bool)
    ensures
        r == is_space(c),
{
    ('\u{9}' <= c && c <= '\u{d}') || c == '\u{20}' || c == '\u{85}' || c == '\u{a0}' || c
        == '\u{1680}' || ('\u{2000}' <= c && c <= '\u{200a}') || c == '\u{2028}' || c == '\u{2029}'
        || c == '\u{202f}' || c == '\u{205f}' || c == '\u{3000}'
}

pub open spec fn is_alpha(c: char) -> bool {
    'a' <= c <= 'z' || 'A' <= c <= 'Z'
}

pub open spec fn is_digit(c: char) -> bool {
    '0' <= c <= '9'
}

/// True when `c` is an ASCII letter.
pub fn is_alpha_char(c: char) -> (r: bool)
    ensures
        r == is_alpha(c),
{
    ('a' <= c && c <= 'z') || ('A' <= c && c <= 'Z')
}

/// True when `c` is an ASCII decimal digit.
pub fn is_digit_char(c: char) -> (r: bool)
    ensures
        r == is_digit(c),
{
    '0' <= c && c <= '9'
}

// ---------------------------------------------------------------------------
// Between strings and characters
// ---------------------------------------------------------------------------

/// The characters of `s`, in order.
pub fn chars_of(s: &str) -> (r: Vec<char>)
    ensures
        r@ == s@,
{
    let mut out: Vec<char> = Vec::new();
    for c in it: s.chars()
        invariant
            out@ == it.seq().take(it.index() as int),
            it.seq() == s@,
    {
        out.push(c);
        assert(it.seq().take(it.index() + 1) =~= it.seq().take(it.index() as int).push(c));
    }
    assert(s@.take(s@.len() as int) =~= s@);
    out
}

/// The string made of the characters of `v`.
pub fn string_of(v: &Vec<char>) -> (r: String)
    ensures
        r@ == v@,
{
    let mut out = String::new();
    let mut i: usize = 0;
    while i < v.len()
        invariant
            i <= v@.len(),
            out@ == v@.take(i as int),
        decreases v@.len() - i,
    {
        out.push(v[i]);
        assert(v@.take(i + 1) =~= v@.take(i as int).push(v@[i as int]));
        i += 1;
    }
    assert(v@.take(v@.len() as int) =~= v@);
    out
}

/// The characters of `v` at positions `from..to`.
pub fn part(v: &Vec<char>, from: usize, to: usize) -> (r: Vec<char>)
    requires
        from <= to <= v@.len(),
    ensures
        r@ == v@.subrange(from as int, to as int),
{
    let mut out: Vec<char> = Vec::new();
    let mut i: usize = from;
    while i < to
        invariant
            from <= i <= to <= v@.len(),
            out@ == v@.subrange(from as int, i as int),
        decreases to - i,
    {
        out.push(v[i]);
        assert(v@.subrange(from as int, i + 1) =~= v@.subrange(from as int, i as int).push(
            v@[i as int],
        ));
        i += 1;
    }
    out
}

/// Appends the characters of `b` to `a`.
pub fn extend(a: &mut Vec<char>, b: &Vec<char>)
    ensures
        final(a)@ == old(a)@ + b@,
{
    let mut i: usize = 0;
    while i < b.len()
        invariant
            i <= b@.len(),
            a@ == old(a)@ + b@.take(i as int),
        decreases b@.len() - i,
    {
        a.push(b[i]);
        assert(b@.take(i + 1) =~= b@.take(i as int).push(b@[i as int]));
        i += 1;
    }
    assert(b@.take(b@.len() as int) =~= b@);
}

/// A copy of `v`.
pub fn copy_chars(v: &Vec<char>) -> (r: Vec<char>)
    ensures
        r@ == v@,
{
    let r = part(v, 0, v.len());
    assert(v@.subrange(0, v@.len() as int) =~= v@);
    r
}

/// True when the two texts are the same.
pub fn eq_chars(a: &Vec<char>, b: &Vec<char>) -> (r: bool)
    ensures
        r == (a@ == b@),
{
    if a.len() != b.len() {
        return false;
    }
    let mut i: usize = 0;
    while i < a.len()
        invariant
            i <= a@.len(),
            a@.len() == b@.len(),
            forall|j: int| 0 <= j < i ==> a@[j] == b@[j],
        decreases a@.len() - i,
    {
        if a[i] != b[i] {
            return false;
        }
        i += 1;
    }
    assert(a@ =~= b@);
    true
}

/// True when the two strings hold the same text.
pub fn same(a: &str, b: &str) -> (r: bool)
    ensures
        r == (a@ == b@),
{
    let x = chars_of(a);
    let y = chars_of(b);
    eq_chars(&x, &y)
}

/// True when `v` holds the text of `s`.
pub fn is_text(v: &Vec<char>, s: &str) -> (r: bool)
    ensures
        r == (v@ == s@),
{
    let y = chars_of(s);
    eq_chars(v, &y)
}

/// The texts of a list of strings.
pub open spec fn texts(v: Seq<String>) -> Seq<Seq<char>> {
    Seq::new(v.len(), |i: int| v[i]@)
}

/// The texts of a list of character vectors.
pub open spec fn rows(v: Seq<Vec<char>>) -> Seq<Seq<char>> {
    Seq::new(v.len(), |i: int| v[i]@)
}

/// The text of an optional string.
pub open spec fn opt_text(v: Option<String>) -> Option<Seq<char>> {
    match v {
        Some(s) => Some(s@),
        None => None,
    }
}

/// A copy of an optional string.
pub fn copy_opt(v: &Option<String>) -> (r: Option<String>)
    ensures
        r == *v,
        opt_text(r) == opt_text(*v),
{
    match v {
        Some(s) => Some(s.clone()),
        None => None,
    }
}

/// A copy of a list of strings.
pub fn copy_strings(v: &Vec<String>) -> (r: Vec<String>)
    ensures
        texts(r@) == texts(v@),
        r@ == v@,
{
    let mut out: Vec<String> = Vec::new();
    let mut i: usize = 0;
    while i < v.len()
        invariant
            i <= v@.len(),
            out@ =~= v@.take(i as int),
        decreases v@.len() - i,
    {
        out.push(v[i].clone());
        i += 1;
    }
    assert(out@ =~= v@);
    out
}

/// True when the list holds the text `s`.
pub fn contains_text(v: &Vec<String>, s: &str) -> (r: bool)
    ensures
        r == texts(v@).contains(s@),
{
    let mut i: usize = 0;
    while i < v.len()
        invariant
            i <= v@.len(),
            forall|j: int| 0 <= j < i ==> texts(v@)[j] != s@,
        decreases v@.len() - i,
    {
        if same(v[i].as_str(), s) {
            assert(texts(v@)[i as int] == s@);
            return true;
        }
        i += 1;
    }
    false
}

// ---------------------------------------------------------------------------
// Trimming
// ---------------------------------------------------------------------------

/// A class of characters to trim.
pub enum Class {
    /// Unicode white space.
    Space,
    /// One character only.
    Only(char),
    /// A double or a single quote.
    Quote,
}

impl Class {
    pub open spec fn has(&self, c: char) -> bool {
        match *self {
            Class::Space => is_space(c),
            Class::Only(d) => c == d,
            Class::Quote => c == '"' || c == '\'',
        }
    }

    /// True when `c` belongs to the class.
    pub fn holds(&self, c: char) -> (r: bool)
        ensures
            r == self.has(c),
    {
        match *self {
            Class::Space => is_space_char(c),
            Class::Only(d) => c == d,
            Class::Quote => c == '"' || c == '\'',
        }
    }
}

/// `s` without its longest prefix of characters in `p`.
pub open spec fn drop_start(s: Seq<char>, p: Class) -> Seq<char>
    decreases s.len(),
{
    if s.len() > 0 && p.has(s[0]) {
        drop_start(s.skip(1), p)
    } else {
        s
    }
}

/// `s` without its longest suffix of characters in `p`.
pub open spec fn drop_end(s: Seq<char>, p: Class) -> Seq<char>
    decreases s.len(),
{
    if s.len() > 0 && p.has(s.last()) {
        drop_end(s.drop_last(), p)
    } else {
        s
    }
}

/// `s` without leading white space.
pub open spec fn trim_start(s: Seq<char>) -> Seq<char> {
    drop_start(s, Class::Space)
}

/// `s` without leading and trailing white space.
pub open spec fn trim(s: Seq<char>) -> Seq<char> {
    drop_end(drop_start(s, Class::Space), Class::Space)
}

/// Drops the longest prefix of characters in `p`.
pub fn drop_start_chars(s: &Vec<char>, p: Class) -> (r: Vec<char>)
    ensures
        r@ == drop_start(s@, p),
{
    let mut i: usize = 0;
    assert(s@.skip(0) =~= s@);
    while i < s.len() && p.holds(s[i])
        invariant
            i <= s@.len(),
            drop_start(s@, p) == drop_start(s@.skip(i as int), p),
        decreases s@.len() - i,
    {
        assert(s@.skip(i as int).skip(1) =~= s@.skip(i + 1));
        i += 1;
    }
    let r = part(s, i, s.len());
    assert(r@ =~= s@.skip(i as int));
    r
}

/// Drops the longest suffix of characters in `p`.
pub fn drop_end_chars(s: &Vec<char>, p: Class) -> (r: Vec<char>)
    ensures
        r@ == drop_end(s@, p),
{
    let mut n: usize = s.len();
    assert(s@.take(n as int) =~= s@);
    while n > 0 && p.holds(s[n - 1])
        invariant
            n <= s@.len(),
            drop_end(s@, p) == drop_end(s@.take(n as int), p),
        decreases n,
    {
        assert(s@.take(n as int).drop_last() =~= s@.take(n - 1));
        n -= 1;
    }
    let r = part(s, 0, n);
    assert(r@ =~= s@.take(n as int));
    r
}

/// `s` without leading white space.
pub fn trim_start_chars(s: &Vec<char>) -> (r: Vec<char>)
    ensures
        r@ == trim_start(s@),
{
    drop_start_chars(s, Class::Space)
}

/// `s` without leading and trailing white space.
pub fn trim_chars(s: &Vec<char>) -> (r: Vec<char>)
    ensures
        r@ == trim(s@),
{
    let a = trim_start_chars(s);
    drop_end_chars(&a, Class::Space)
}

/// `s` without leading and trailing white space.
pub fn trim_str(s: &str) -> (r: String)
    ensures
        r@ == trim(s@),
{
    let v = chars_of(s);
    let t = trim_chars(&v);
    string_of(&t)
}

// ---------------------------------------------------------------------------
// Searching
// ---------------------------------------------------------------------------

/// Position of the first `c` in `s`, or the length of `s` when there is none.
pub open spec fn first(s: Seq<char>, c: char) -> int
    decreases s.len(),
{
    if s.len() == 0 || s[0] == c {
        0
    } else {
        1 + first(s.skip(1), c)
    }
}

pub proof fn lemma_first(s: Seq<char>, c: char)
    ensures
        0 <= first(s, c) <= s.len(),
        first(s, c) < s.len() ==> s[first(s, c)] == c,
        forall|i: int| 0 <= i < first(s, c) ==> s[i] != c,
        first(s, c) < s.len() <==> s.contains(c),
    decreases s.len(),
{
    if s.len() == 0 {
    } else if s[0] == c {
        assert(s.contains(s[0]));
    } else {
        let t = s.skip(1);
        lemma_first(t, c);
        assert forall|i: int| 0 <= i < first(s, c) implies s[i] != c by {
            if i > 0 {
                assert(t[i - 1] == s[i]);
            }
        }
        if s.contains(c) {
            let k = choose|k: int| 0 <= k < s.len() && s[k] == c;
            assert(t[k - 1] == c);
        }
    }
}

/// Position of the first `c` in `s`, or the length of `s` when there is none.
pub fn find_char(s: &Vec<char>, c: char) -> (r: usize)
    ensures
        r == first(s@, c),
        r <= s@.len(),
        r < s@.len() <==> s@.contains(c),
        r < s@.len() ==> s@[r as int] == c,
        forall|i: int| 0 <= i < r ==> s@[i] != c,
{
    let mut i: usize = 0;
    assert(s@.skip(0) =~= s@);
    while i < s.len() && s[i] != c
        invariant
            i <= s@.len(),
            first(s@, c) == i + first(s@.skip(i as int), c),
        ensures
            i <= s@.len(),
            first(s@, c) == i + first(s@.skip(i as int), c),
            i < s@.len() ==> s@[i as int] == c,
        decreases s@.len() - i,
    {
        assert(s@.skip(i as int).skip(1) =~= s@.skip(i + 1));
        i += 1;
    }
    proof {
        lemma_first(s@, c);
    }
    i
}

/// True when `c` occurs in `s`.
pub fn has_char(s: &Vec<char>, c: char) -> (r: bool)
    ensures
        r == s@.contains(c),
{
    find_char(s, c) < s.len()
}

/// True when `s` starts with `p`.
pub open spec fn starts(s: Seq<char>, p: Seq<char>) -> bool {
    p.len() <= s.len() && s.take(p.len() as int) == p
}

/// True when `s` ends with `p`.
pub open spec fn ends(s: Seq<char>, p: Seq<char>) -> bool {
    p.len() <= s.len() && s.skip(s.len() - p.len()) == p
}

/// True when the characters of `p` stand in `s` from position `at` on.
pub fn stands_at(s: &Vec<char>, at: usize, p: &Vec<char>) -> (r: bool)
    requires
        at <= s@.len(),
    ensures
        r == starts(s@.skip(at as int), p@),
{
    if p.len() > s.len() - at {
        return false;
    }
    let n: usize = s.len();
    let mut i: usize = 0;
    while i < p.len()
        invariant
            i <= p@.len(),
            n == s@.len(),
            at + p@.len() <= n,
            forall|j: int| 0 <= j < i ==> s@[at + j] == p@[j],
        decreases p@.len() - i,
    {
        if s[at + i] != p[i] {
            assert(s@.skip(at as int).take(p@.len() as int)[i as int] == s@[at + i]);
            return false;
        }
        i += 1;
    }
    assert(s@.skip(at as int).take(p@.len() as int) =~= p@);
    true
}

/// True when `s` starts with the text of `p`.
pub fn starts_with(s: &Vec<char>, p: &str) -> (r: bool)
    ensures
        r == starts(s@, p@),
{
    let q = chars_of(p);
    assert(s@.skip(0) =~= s@);
    stands_at(s, 0, &q)
}

/// True when `s` ends with the text of `p`.
pub fn ends_with(s: &Vec<char>, p: &str) -> (r: bool)
    ensures
        r == ends(s@, p@),
{
    let q = chars_of(p);
    if q.len() > s.len() {
        return false;
    }
    let at: usize = s.len() - q.len();
    let r = stands_at(s, at, &q);
    assert(s@.skip(at as int).take(q@.len() as int) =~= s@.skip(at as int));
    r
}

/// Position of the first occurrence of `p` in `s`.
pub open spec fn find(s: Seq<char>, p: Seq<char>) -> Option<int>
    decreases s.len(),
{
    if starts(s, p) {
        Some(0)
    } else if s.len() == 0 {
        None
    } else {
        match find(s.skip(1), p) {
            Some(k) => Some(k + 1),
            None => None,
        }
    }
}

pub proof fn lemma_find(s: Seq<char>, p: Seq<char>)
    ensures
        find(s, p) matches Some(k) ==> 0 <= k && k + p.len() <= s.len() && starts(s.skip(k), p),
        find(s, p) is None ==> forall|i: int|
            0 <= i <= s.len() ==> !starts(#[trigger] s.skip(i), p),
    decreases s.len(),
{
    assert(s.skip(0) =~= s);
    if starts(s, p) {
    } else if s.len() > 0 {
        lemma_find(s.skip(1), p);
        match find(s.skip(1), p) {
            Some(k) => {
                assert(s.skip(1).skip(k) =~= s.skip(k + 1));
            },
            None => {
                assert forall|i: int| 0 <= i <= s.len() implies !starts(#[trigger] s.skip(i), p) by {
                    if i > 0 {
                        assert(s.skip(1).skip(i - 1) =~= s.skip(i));
                    }
                }
            },
        }
    } else {
        assert forall|i: int| 0 <= i <= s.len() implies !starts(#[trigger] s.skip(i), p) by {
            assert(s.skip(i) =~= s);
        }
    }
}

/// Position of the first occurrence of `p` in `s` at or after `from`.
pub fn find_from(s: &Vec<char>, from: usize, p: &Vec<char>) -> (r: Option<usize>)
    requires
        from <= s@.len(),
    ensures
        r matches Some(k) ==> from <= k && find(s@.skip(from as int), p@) == Some(
            k - from,
        ) && k + p@.len() <= s@.len(),
        r is None ==> find(s@.skip(from as int), p@) is None,
{
    let mut i: usize = from;
    let ghost t = s@.skip(from as int);
    assert(t.skip(0) =~= t);
    loop
        invariant
            from <= i <= s@.len(),
            t == s@.skip(from as int),
            t.skip(i - from) == s@.skip(i as int),
            match find(s@.skip(i as int), p@) {
                Some(k) => find(t, p@) == Some(k + (i - from)),
                None => find(t, p@) is None,
            },
        decreases s@.len() - i,
    {
        if stands_at(s, i, p) {
            return Some(i);
        }
        if i == s.len() {
            return None;
        }
        assert(s@.skip(i as int).skip(1) =~= s@.skip(i + 1));
        assert(t.skip(i + 1 - from) =~= s@.skip(i + 1));
        i += 1;
    }
}

/// True when `p` occurs in `s`.
pub open spec fn has(s: Seq<char>, p: Seq<char>) -> bool {
    find(s, p) is Some
}

/// True when the text of `p` occurs in `s`.
pub fn has_text(s: &Vec<char>, p: &str) -> (r: bool)
    ensures
        r == has(s@, p@),
{
    let q = chars_of(p);
    assert(s@.skip(0) =~= s@);
    find_from(s, 0, &q).is_some()
}

/// Position of the last occurrence of `p` in `s`.
pub open spec fn rfind(s: Seq<char>, p: Seq<char>) -> Option<int>
    decreases s.len(),
{
    if ends(s, p) {
        Some(s.len() - p.len())
    } else if s.len() == 0 {
        None
    } else {
        rfind(s.drop_last(), p)
    }
}

/// Position of the last occurrence of the text of `p` in `s`.
pub fn rfind_chars(s: &Vec<char>, p: &str) -> (r: Option<usize>)
    ensures
        r matches Some(k) ==> rfind(s@, p@) == Some(k as int) && k + p@.len() <= s@.len(),
        r is None ==> rfind(s@, p@) is None,
{
    let q = chars_of(p);
    let mut n: usize = s.len();
    assert(s@.take(n as int) =~= s@);
    loop
        invariant
            n <= s@.len(),
            q@ == p@,
            rfind(s@, p@) == rfind(s@.take(n as int), p@),
        decreases n,
    {
        if q.len() <= n {
            let at: usize = n - q.len();
            let ghost t = s@.take(n as int);
            assert(t.skip(at as int) =~= s@.skip(at as int).take(q@.len() as int));
            if stands_at(s, at, &q) {
                assert(ends(t, p@));
                return Some(at);
            }
        }
        if n == 0 {
            return None;
        }
        assert(s@.take(n as int).drop_last() =~= s@.take(n - 1));
        n -= 1;
    }
}

/// What follows the last `::` of a qualified name.
pub open spec fn base_name(s: Seq<char>) -> Seq<char> {
    match rfind(s, "::"@) {
        Some(k) => s.skip(k + 2),
        None => s,
    }
}

/// What follows the last `::` of a qualified name.
pub fn base_name_of(s: &Vec<char>) -> (r: Vec<char>)
    ensures
        r@ == base_name(s@),
{
    proof {
        reveal_strlit("::");
    }
    match rfind_chars(s, "::") {
        Some(k) => {
            assert(k + 2 <= s.len());
            let r = part(s, k + 2, s.len());
            assert(r@ =~= s@.skip(k + 2));
            r
        },
        None => copy_chars(s),
    }
}

// ---------------------------------------------------------------------------
// Lines
// ---------------------------------------------------------------------------

/// `s` without one trailing carriage return.
pub open spec fn drop_cr(s: Seq<char>) -> Seq<char> {
    if s.len() > 0 && s.last() == '\r' {
        s.drop_last()
    } else {
        s
    }
}

/// The lines of `s`: each ends at a line feed (a carriage return before it
/// belongs to the ending), and the last line may go without an ending.
pub open spec fn lines(s: Seq<char>) -> Seq<Seq<char>>
    decreases s.len(),
{
    if s.len() == 0 {
        Seq::empty()
    } else {
        let i = first(s, '\n');
        if i < 0 || i >= s.len() {
            seq![s]
        } else {
            seq![drop_cr(s.take(i))] + lines(s.skip(i + 1))
        }
    }
}

/// Lines as text, each with a line feed.
pub open spec fn ended(ls: Seq<Seq<char>>) -> Seq<char>
    decreases ls.len(),
{
    if ls.len() == 0 {
        Seq::empty()
    } else {
        ended(ls.drop_last()) + ls.last() + "\n"@
    }
}

/// A text that is one line: without a line feed, and without a carriage return
/// at its end, which would belong to the ending.
pub open spec fn one_line(s: Seq<char>) -> bool {
    !s.contains('\n') && (s.len() > 0 ==> s.last() != '\r')
}

pub proof fn lemma_ended_concat(a: Seq<Seq<char>>, b: Seq<Seq<char>>)
    ensures
        ended(a + b) == ended(a) + ended(b),
    decreases b.len(),
{
    if b.len() == 0 {
        assert(a + b =~= a);
        assert(ended(a) + ended(b) =~= ended(a));
    } else {
        assert((a + b).drop_last() =~= a + b.drop_last());
        lemma_ended_concat(a, b.drop_last());
        assert(ended(a + b) =~= ended(a) + ended(b));
    }
}

/// The first line, then the others.
proof fn lemma_ended_first(ls: Seq<Seq<char>>)
    requires
        ls.len() > 0,
    ensures
        ended(ls) == ls[0] + "\n"@ + ended(ls.skip(1)),
{
    assert(ls =~= seq![ls[0]] + ls.skip(1));
    lemma_ended_concat(seq![ls[0]], ls.skip(1));
    assert(seq![ls[0]].drop_last() =~= Seq::<Seq<char>>::empty());
    reveal_with_fuel(ended, 2);
    assert(ended(seq![ls[0]]) =~= ls[0] + "\n"@);
}

/// Joined with line feeds and with one at the end, lines are ended.
pub proof fn lemma_ended_join(ls: Seq<Seq<char>>)
    requires
        ls.len() > 0,
    ensures
        join(ls, "\n"@) + "\n"@ == ended(ls),
    decreases ls.len(),
{
    if ls.len() == 1 {
        assert(ls.drop_last() =~= Seq::<Seq<char>>::empty());
        reveal_with_fuel(ended, 2);
        assert(ended(ls) =~= ls[0] + "\n"@);
    } else {
        lemma_ended_join(ls.drop_last());
    }
}

/// The lines of ended lines are those lines.
pub proof fn lemma_lines_of_ended(ls: Seq<Seq<char>>)
    requires
        forall|i: int| 0 <= i < ls.len() ==> one_line(#[trigger] ls[i]),
    ensures
        lines(ended(ls)) == ls,
    decreases ls.len(),
{
    if ls.len() == 0 {
        assert(lines(ended(ls)) =~= ls);
    } else {
        reveal_strlit("\n");
        lemma_ended_first(ls);
        let rest = ls.skip(1);
        let s = ended(ls);
        let k = ls[0].len() as int;
        assert(one_line(ls[0]));
        assert(s[k] == '\n');
        lemma_first(s, '\n');
        assert(first(s, '\n') == k) by {
            assert(s.contains(s[k]));
            if first(s, '\n') < k {
                assert(ls[0][first(s, '\n')] == '\n');
                assert(ls[0].contains('\n'));
            }
        }
        assert(s.take(k) =~= ls[0]);
        assert(s.skip(k + 1) =~= ended(rest));
        assert forall|i: int| 0 <= i < rest.len() implies one_line(#[trigger] rest[i]) by {
            assert(rest[i] == ls[i + 1]);
        }
        lemma_lines_of_ended(rest);
        assert(ls =~= seq![ls[0]] + rest);
    }
}

/// No line holds a line feed.
pub proof fn lemma_lines_hold_no_feed(s: Seq<char>, i: int)
    requires
        0 <= i < lines(s).len(),
    ensures
        !lines(s)[i].contains('\n'),
    decreases s.len(),
{
    let k = first(s, '\n');
    lemma_first(s, '\n');
    if k < s.len() {
        if i > 0 {
            lemma_lines_hold_no_feed(s.skip(k + 1), i - 1);
            assert(lines(s)[i] == lines(s.skip(k + 1))[i - 1]);
        } else {
            let l = drop_cr(s.take(k));
            assert forall|j: int| 0 <= j < l.len() implies l[j] != '\n' by {
                assert(l[j] == s[j]);
            }
        }
    }
}

/// A text that ends in a line feed and holds no carriage return before one is
/// its lines, ended.
pub proof fn lemma_ended_lines(s: Seq<char>)
    requires
        s.len() > 0 ==> s.last() == '\n',
        forall|i: int| 0 <= i < s.len() - 1 && s[i] == '\r' ==> #[trigger] s[i + 1] != '\n',
    ensures
        ended(lines(s)) == s,
        forall|i: int| 0 <= i < lines(s).len() ==> one_line(#[trigger] lines(s)[i]),
    decreases s.len(),
{
    if s.len() > 0 {
        reveal_strlit("\n");
        let k = first(s, '\n');
        lemma_first(s, '\n');
        assert(s.contains(s.last()));
        let head = s.take(k);
        let rest = s.skip(k + 1);
        if k > 0 {
            assert(s[k - 1] == '\r' ==> s[k - 1 + 1] != '\n');
        }
        assert(drop_cr(head) == head);
        assert forall|i: int| 0 <= i < rest.len() - 1 && rest[i] == '\r' implies #[trigger] rest[i
            + 1] != '\n' by {
            assert(s[k + 1 + i] == '\r' ==> s[k + 1 + i + 1] != '\n');
        }
        lemma_ended_lines(rest);
        let ls = lines(s);
        assert(ls =~= seq![head] + lines(rest));
        assert(ls.skip(1) =~= lines(rest));
        lemma_ended_first(ls);
        assert(ended(ls) =~= s);
        assert forall|i: int| 0 <= i < ls.len() implies one_line(#[trigger] ls[i]) by {
            if i > 0 {
                assert(ls[i] == lines(rest)[i - 1]);
            } else {
                lemma_lines_hold_no_feed(s, 0);
            }
        }
    }
}

/// The lines of `s`.
pub fn lines_of(s: &Vec<char>) -> (r: Vec<Vec<char>>)
    ensures
        rows(r@) == lines(s@),
{
    let mut out: Vec<Vec<char>> = Vec::new();
    let mut from: usize = 0;
    assert(s@.skip(0) =~= s@);
    assert(rows(out@) =~= Seq::<Seq<char>>::empty());
    assert(rows(out@) + lines(s@) =~= lines(s@));
    while from < s.len()
        invariant
            from <= s@.len(),
            lines(s@) == rows(out@) + lines(s@.skip(from as int)),
        decreases s@.len() - from,
    {
        let ghost before = rows(out@);
        let rest = part(s, from, s.len());
        assert(rest@ =~= s@.skip(from as int));
        let i = find_char(&rest, '\n');
        if i == rest.len() {
            out.push(rest);
            assert(rows(out@) =~= before.push(s@.skip(from as int)));
            assert(lines(s@.skip(s@.len() as int)) =~= Seq::<Seq<char>>::empty());
            assert(rows(out@) + lines(s@.skip(s@.len() as int)) =~= before + lines(
                s@.skip(from as int),
            ));
            from = s.len();
        } else {
            let mut line = part(&rest, 0, i);
            assert(line@ =~= rest@.take(i as int));
            let ghost raw = line@;
            if line.len() > 0 && line[line.len() - 1] == '\r' {
                line.pop();
            }
            assert(line@ =~= drop_cr(raw));
            out.push(line);
            assert(rows(out@) =~= before.push(drop_cr(raw)));
            assert(rest@.skip(i + 1) =~= s@.skip(from + i + 1));
            assert(rows(out@) + lines(s@.skip(from + i + 1)) =~= before + lines(
                s@.skip(from as int),
            ));
            from = from + i + 1;
        }
    }
    assert(lines(s@.skip(from as int)) =~= Seq::<Seq<char>>::empty());
    assert(rows(out@) + lines(s@.skip(from as int)) =~= rows(out@));
    out
}

// ---------------------------------------------------------------------------
// Splitting and joining
// ---------------------------------------------------------------------------

/// The pieces of `s` between the occurrences of the non-empty `p`.
pub open spec fn split(s: Seq<char>, p: Seq<char>) -> Seq<Seq<char>>
    decreases s.len(),
{
    match find(s, p) {
        Some(k) => if p.len() > 0 && 0 <= k && k + p.len() <= s.len() {
            seq![s.take(k)] + split(s.skip(k + p.len()), p)
        } else {
            seq![s]
        },
        None => seq![s],
    }
}

/// The pieces of `s` between the occurrences of the text of `p`.
pub fn split_chars(s: &Vec<char>, p: &str) -> (r: Vec<Vec<char>>)
    requires
        p@.len() > 0,
    ensures
        rows(r@) == split(s@, p@),
        r@.len() > 0,
{
    let q = chars_of(p);
    let n: usize = s.len();
    let mut out: Vec<Vec<char>> = Vec::new();
    let mut from: usize = 0;
    assert(s@.skip(0) =~= s@);
    assert(rows(out@) + split(s@, p@) =~= split(s@, p@));
    loop
        invariant
            q@ == p@,
            n == s@.len(),
            p@.len() > 0,
            from <= s@.len(),
            split(s@, p@) == rows(out@) + split(s@.skip(from as int), p@),
        decreases s@.len() - from,
    {
        let ghost before = rows(out@);
        let ghost rest = s@.skip(from as int);
        proof {
            lemma_find(rest, p@);
        }
        match find_from(s, from, &q) {
            Some(k) => {
                let piece = part(s, from, k);
                assert(piece@ =~= rest.take(k - from));
                out.push(piece);
                assert(rows(out@) =~= before.push(rest.take(k - from)));
                assert(rest.skip(k - from + q@.len()) =~= s@.skip(k + q@.len()));
                assert(rows(out@) + split(s@.skip(k + q@.len()), p@) =~= before + split(rest, p@));
                assert(k + q@.len() <= n);
                from = k + q.len();
            },
            None => {
                let piece = part(s, from, s.len());
                assert(piece@ =~= rest);
                out.push(piece);
                assert(rows(out@) =~= before.push(rest));
                assert(rows(out@) =~= before + split(rest, p@));
                return out;
            },
        }
    }
}

/// The texts of `parts` with `sep` between neighbours.
pub open spec fn join(parts: Seq<Seq<char>>, sep: Seq<char>) -> Seq<char>
    decreases parts.len(),
{
    if parts.len() == 0 {
        Seq::empty()
    } else if parts.len() == 1 {
        parts[0]
    } else {
        join(parts.drop_last(), sep) + sep + parts.last()
    }
}

/// Joins the rows of `parts` with the text of `sep`.
pub fn join_rows(parts: &Vec<Vec<char>>, sep: &str) -> (r: Vec<char>)
    ensures
        r@ == join(rows(parts@), sep@),
{
    let q = chars_of(sep);
    let mut out: Vec<char> = Vec::new();
    let mut i: usize = 0;
    let ghost all = rows(parts@);
    assert(join(all.take(0), sep@) =~= Seq::<char>::empty());
    while i < parts.len()
        invariant
            i <= parts@.len(),
            q@ == sep@,
            all == rows(parts@),
            out@ == join(all.take(i as int), sep@),
        decreases parts@.len() - i,
    {
        if i > 0 {
            extend(&mut out, &q);
        }
        extend(&mut out, &parts[i]);
        assert(all.take(i + 1).drop_last() =~= all.take(i as int));
        if i == 0 {
            assert(out@ =~= all[0]);
        }
        i += 1;
    }
    assert(all.take(parts@.len() as int) =~= all);
    out
}

/// Joins strings with the text of `sep`.
pub fn join_strings(parts: &Vec<String>, sep: &str) -> (r: String)
    ensures
        r@ == join(texts(parts@), sep@),
{
    let mut v: Vec<Vec<char>> = Vec::new();
    let mut i: usize = 0;
    while i < parts.len()
        invariant
            i <= parts@.len(),
            rows(v@) =~= texts(parts@).take(i as int),
        decreases parts@.len() - i,
    {
        let ghost done = rows(v@);
        v.push(chars_of(parts[i].as_str()));
        assert(rows(v@) =~= done.push(parts@[i as int]@));
        i += 1;
    }
    assert(rows(v@) =~= texts(parts@));
    let r = join_rows(&v, sep);
    string_of(&r)
}

// ---------------------------------------------------------------------------
// Order
// ---------------------------------------------------------------------------

/// Lexicographic order by character value.
pub open spec fn before(a: Seq<char>, b: Seq<char>) -> bool
    decreases a.len(),
{
    if b.len() == 0 {
        false
    } else if a.len() == 0 {
        true
    } else if a[0] == b[0] {
        before(a.skip(1), b.skip(1))
    } else {
        a[0] < b[0]
    }
}

/// True when the text of `a` comes before the text of `b`.
pub fn comes_before(a: &str, b: &str) -> (r: bool)
    ensures
        r == before(a@, b@),
{
    let x = chars_of(a);
    let y = chars_of(b);
    let mut i: usize = 0;
    assert(x@.skip(0) =~= x@);
    assert(y@.skip(0) =~= y@);
    loop
        invariant
            x@ == a@,
            y@ == b@,
            i <= x@.len(),
            i <= y@.len(),
            before(a@, b@) == before(x@.skip(i as int), y@.skip(i as int)),
        decreases x@.len() - i,
    {
        if i == y.len() {
            return false;
        }
        if i == x.len() {
            return true;
        }
        if x[i] != y[i] {
            return x[i] < y[i];
        }
        assert(x@.skip(i as int).skip(1) =~= x@.skip(i + 1));
        assert(y@.skip(i as int).skip(1) =~= y@.skip(i + 1));
        i += 1;
    }
}

/// The order on texts is a strict total order.
pub proof fn lemma_before_total(a: Seq<char>, b: Seq<char>)
    ensures
        !before(a, a),
        before(a, b) ==> !before(b, a) && a != b,
        !before(a, b) && !before(b, a) ==> a == b,
    decreases a.len(),
{
    if a.len() > 0 {
        lemma_before_total(a.skip(1), a.skip(1));
    }
    if a.len() > 0 && b.len() > 0 && a[0] == b[0] {
        lemma_before_total(a.skip(1), b.skip(1));
        if !before(a, b) && !before(b, a) {
            assert(a =~= seq![a[0]] + a.skip(1));
            assert(b =~= seq![b[0]] + b.skip(1));
        }
    } else if a.len() == 0 && b.len() == 0 {
        assert(a =~= b);
    }
}

/// The order on texts is transitive.
pub proof fn lemma_before_trans(a: Seq<char>, b: Seq<char>, c: Seq<char>)
    requires
        before(a, b),
        before(b, c),
    ensures
        before(a, c),
    decreases a.len(),
{
    if a.len() > 0 && b.len() > 0 && c.len() > 0 && a[0] == b[0] && b[0] == c[0] {
        lemma_before_trans(a.skip(1), b.skip(1), c.skip(1));
    }
}

// ---------------------------------------------------------------------------
// Numbers
// ---------------------------------------------------------------------------

pub open spec fn digit_char(d: nat) -> char {
    ((('0' as u32) + d) as u32) as char
}

/// Decimal digits of a natural number, without leading zeros.
pub open spec fn digits(n: nat) -> Seq<char>
    decreases n,
{
    if n < 10 {
        seq![digit_char(n)]
    } else {
        digits(n / 10).push(digit_char(n % 10))
    }
}

/// Decimal form of an integer, with a leading `-` when it is negative.
pub open spec fn decimal(i: int) -> Seq<char> {
    if i < 0 {
        seq!['-'] + digits((-i) as nat)
    } else {
        digits(i as nat)
    }
}

fn digit_of(d: u64) -> (c: char)
    requires
        d < 10,
    ensures
        c == digit_char(d as nat),
{
    if d == 0 {
        '0'
    } else if d == 1 {
        '1'
    } else if d == 2 {
        '2'
    } else if d == 3 {
        '3'
    } else if d == 4 {
        '4'
    } else if d == 5 {
        '5'
    } else if d == 6 {
        '6'
    } else if d == 7 {
        '7'
    } else if d == 8 {
        '8'
    } else {
        '9'
    }
}

fn digits_of(n: u64) -> (r: Vec<char>)
    ensures
        r@ == digits(n as nat),
    decreases n,
{
    if n < 10 {
        let mut v: Vec<char> = Vec::new();
        v.push(digit_of(n));
        assert(v@ =~= digits(n as nat));
        v
    } else {
        let mut v = digits_of(n / 10);
        v.push(digit_of(n % 10));
        v
    }
}

/// Decimal form of `n`.
pub fn natural(n: u64) -> (r: String)
    ensures
        r@ == decimal(n as int),
{
    let v = digits_of(n);
    string_of(&v)
}

/// Decimal form of `i`.
pub fn integer(i: i64) -> (r: String)
    ensures
        r@ == decimal(i as int),
{
    if i >= 0 {
        natural(i as u64)
    } else {
        let m: u64 = (-(i + 1)) as u64 + 1;
        let v = digits_of(m);
        let mut out: Vec<char> = Vec::new();
        out.push('-');
        extend(&mut out, &v);
        assert(out@ =~= decimal(i as int));
        string_of(&out)
    }
}

pub(crate) proof fn lemma_find_first(s: Seq<char>, p: Seq<char>)
    ensures
        find(s, p) matches Some(k) ==> forall|i: int|
            0 <= i < k ==> !starts(#[trigger] s.skip(i), p),
    decreases s.len(),
{
    lemma_find(s, p);
    if !starts(s, p) && s.len() > 0 {
        lemma_find_first(s.skip(1), p);
        match find(s, p) {
            Some(k) => {
                assert forall|i: int| 0 <= i < k implies !starts(#[trigger] s.skip(i), p) by {
                    if i == 0 {
                        assert(s.skip(0) =~= s);
                    } else {
                        assert(s.skip(1).skip(i - 1) =~= s.skip(i));
                    }
                }
            },
            None => {},
        }
    }
}

pub(crate) proof fn lemma_find_at(s: Seq<char>, p: Seq<char>, k: int)
    requires
        0 <= k <= s.len(),
        starts(s.skip(k), p),
        forall|i: int| 0 <= i < k ==> !starts(#[trigger] s.skip(i), p),
    ensures
        find(s, p) == Some(k),
{
    lemma_find(s, p);
    lemma_find_first(s, p);
    match find(s, p) {
        Some(j) => {
            if j < k {
                assert(!starts(s.skip(j), p));
            }
            if k < j {
                assert(!starts(s.skip(k), p));
            }
        },
        None => {
            assert(!starts(s.skip(k), p));
        },
    }
}

} // verus!
