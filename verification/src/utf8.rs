//! Byte offsets in text.
use vstd::prelude::*;
use vstd::utf8::*;

verus! {

/// How many bytes a character takes in UTF-8.
pub open spec fn width(c: char) -> int {
    if c <= '\u{7f}' {
        1
    } else if c <= '\u{7ff}' {
        2
    } else if c <= '\u{ffff}' {
        3
    } else {
        4
    }
}

/// How many bytes a text takes in UTF-8.
pub open spec fn size(s: Seq<char>) -> int
    decreases s.len(),
{
    if s.len() == 0 {
        0
    } else {
        width(s[0]) + size(s.skip(1))
    }
}

/// How many characters start before the byte offset `offset`.
pub open spec fn chars_before(s: Seq<char>, offset: int) -> int
    decreases s.len(),
{
    if s.len() == 0 || offset <= 0 {
        0
    } else {
        1 + chars_before(s.skip(1), offset - width(s[0]))
    }
}

/// How many bytes a character takes in UTF-8.
pub fn char_width(c: char) -> (r: usize)
    ensures
        r == width(c),
        1 <= r <= 4,
{
    if c <= '\u{7f}' {
        1
    } else if c <= '\u{7ff}' {
        2
    } else if c <= '\u{ffff}' {
        3
    } else {
        4
    }
}

proof fn lemma_width(c: char)
    ensures
        encode_scalar(c as u32).len() == width(c),
{
    char_is_scalar(c);
}

/// The size of a text is the length of its UTF-8 encoding.
pub proof fn law_size_is_encoded_length(s: Seq<char>)
    ensures
        size(s) == encode_utf8(s).len(),
    decreases s.len(),
{
    if s.len() > 0 {
        assert(s.drop_first() =~= s.skip(1));
        law_size_is_encoded_length(s.skip(1));
        lemma_width(s[0]);
    }
}

pub proof fn lemma_size_bounds(s: Seq<char>)
    ensures
        s.len() <= size(s) <= 4 * s.len(),
    decreases s.len(),
{
    if s.len() > 0 {
        lemma_size_bounds(s.skip(1));
    }
}

pub proof fn lemma_size_concat(a: Seq<char>, b: Seq<char>)
    ensures
        size(a + b) == size(a) + size(b),
    decreases a.len(),
{
    if a.len() == 0 {
        assert(a + b =~= b);
    } else {
        assert((a + b).skip(1) =~= a.skip(1) + b);
        lemma_size_concat(a.skip(1), b);
    }
}

/// The size of one more character.
pub proof fn lemma_size_push(s: Seq<char>, c: char)
    ensures
        size(s.push(c)) == size(s) + width(c),
{
    lemma_size_concat(s, seq![c]);
    assert(s.push(c) =~= s + seq![c]);
    assert(seq![c].skip(1).len() == 0);
    assert(size(seq![c]) == width(c) + size(seq![c].skip(1)));
}

pub proof fn lemma_size_part(s: Seq<char>, n: int)
    requires
        0 <= n <= s.len(),
    ensures
        0 <= size(s.take(n)) <= size(s),
        size(s.take(n)) + size(s.skip(n)) == size(s),
{
    lemma_size_concat(s.take(n), s.skip(n));
    assert(s.take(n) + s.skip(n) =~= s);
    lemma_size_bounds(s.take(n));
    lemma_size_bounds(s.skip(n));
}

/// An offset between two characters has exactly the characters of that size
/// before it.
pub proof fn law_boundary_has_its_characters_before(s: Seq<char>, n: int)
    requires
        0 <= n <= s.len(),
    ensures
        chars_before(s, size(s.take(n))) == n,
    decreases s.len(),
{
    if n > 0 {
        lemma_size_bounds(s.take(n));
        assert(s.take(n).skip(1) =~= s.skip(1).take(n - 1));
        law_boundary_has_its_characters_before(s.skip(1), n - 1);
    } else {
        assert(s.take(0).len() == 0);
    }
}

/// How many characters start before the byte offset `offset`.
pub fn chars_up_to(s: &Vec<char>, offset: usize) -> (r: usize)
    ensures
        r == chars_before(s@, offset as int),
        r <= s@.len(),
{
    let mut left: usize = offset;
    let mut i: usize = 0;
    assert(s@.skip(0) =~= s@);
    while i < s.len() && left > 0
        invariant
            i <= s@.len(),
            chars_before(s@, offset as int) == i + chars_before(s@.skip(i as int), left as int),
        decreases s@.len() - i,
    {
        let w = char_width(s[i]);
        assert(s@.skip(i as int)[0] == s@[i as int]);
        assert(s@.skip(i as int).skip(1) =~= s@.skip(i + 1));
        assert(left < w ==> chars_before(s@.skip(i + 1), left - w) == 0);
        left = if left >= w {
            left - w
        } else {
            0
        };
        i += 1;
    }
    i
}

} // verus!
