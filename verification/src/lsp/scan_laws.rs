//! What the search for the call around the cursor passes over.
use crate::lsp::laws::law_arguments_are_counted_by_commas;
use crate::lsp::signatures::{
    at, callable, is_structural, scanned, stepped, Callable, Mode, Scan,
};
use vstd::prelude::*;

verus! {

/// The characters from `i` up to `j` are the inside of a literal that `close`
/// ends: no `close` among them, but behind a backslash, which a raw literal does
/// not have.
pub open spec fn is_inside(s: Seq<char>, i: int, j: int, close: char) -> bool
    decreases j - i,
{
    if i >= j {
        i == j
    } else if close != '`' && s[i] == '\\' {
        i + 2 <= j && is_inside(s, i + 2, j, close)
    } else {
        s[i] != close && is_inside(s, i + 1, j, close)
    }
}

proof fn lemma_inside(s: Seq<char>, i: int, j: int, close: char, st: Scan)
    requires
        0 <= i <= j < s.len(),
        is_inside(s, i, j, close),
        s[j] == close,
        close == '"' || close == '\'' || close == '`',
        st.mode == (Mode::Literal { close, escape: false }),
    ensures
        scanned(s, i, j + 1, st) == (Scan { mode: Mode::Code, ..st }),
    decreases j - i,
{
    if i < j {
        if close != '`' && s[i] == '\\' {
            let one = Scan { mode: Mode::Literal { close, escape: true }, ..st };
            assert(stepped(s, i, st) == (one, 1int));
            assert(stepped(s, i + 1, one) == (st, 1int));
            lemma_inside(s, i + 2, j, close, st);
            assert(scanned(s, i + 1, j + 1, one) == scanned(s, i + 2, j + 1, st));
        } else {
            lemma_inside(s, i + 1, j, close, st);
        }
    } else {
        let end = Scan { mode: Mode::Code, ..st };
        assert(stepped(s, j, st) == (end, 1int));
        assert(scanned(s, j + 1, j + 1, end) == end);
    }
}

/// A whole literal makes no difference, whatever brackets, commas, quotes of
/// another kind and escaped quotes it holds.
pub proof fn law_whole_literals_make_no_difference(
    s: Seq<char>,
    i: int,
    j: int,
    close: char,
    st: Scan,
)
    requires
        0 <= i < j < s.len(),
        s[i] == close,
        s[j] == close,
        close == '"' || close == '\'' || close == '`',
        is_inside(s, i + 1, j, close),
        st.mode is Code,
    ensures
        scanned(s, i, j + 1, st) == st,
{
    let one = Scan { mode: Mode::Literal { close, escape: false }, ..st };
    assert(stepped(s, i, st) == (one, 1int));
    lemma_inside(s, i + 1, j, close, one);
    assert((Scan { mode: Mode::Code, ..one }) =~= st);
}

/// A whole line comment makes no difference.
pub proof fn law_whole_line_comments_make_no_difference(s: Seq<char>, i: int, j: int, st: Scan)
    requires
        0 <= i,
        i + 2 <= j < s.len(),
        s[i] == '/',
        s[i + 1] == '/',
        s[j] == '\n',
        forall|k: int| i + 2 <= k < j ==> #[trigger] s[k] != '\n',
        st.mode is Code,
    ensures
        scanned(s, i, j + 1, st) == st,
{
    let one = Scan { mode: Mode::LineComment, ..st };
    assert(stepped(s, i, st) == (one, 2int));
    lemma_line_comment(s, i + 2, j, one);
    assert((Scan { mode: Mode::Code, ..one }) =~= st);
}

proof fn lemma_line_comment(s: Seq<char>, i: int, j: int, st: Scan)
    requires
        0 <= i <= j < s.len(),
        s[j] == '\n',
        forall|k: int| i <= k < j ==> #[trigger] s[k] != '\n',
        st.mode is LineComment,
    ensures
        scanned(s, i, j + 1, st) == (Scan { mode: Mode::Code, ..st }),
    decreases j - i,
{
    if i < j {
        assert(s[i] != '\n');
        lemma_line_comment(s, i + 1, j, st);
    } else {
        let end = Scan { mode: Mode::Code, ..st };
        assert(stepped(s, j, st) == (end, 1int));
        assert(scanned(s, j + 1, j + 1, end) == end);
    }
}

/// A whole block comment makes no difference, in code or inside another block
/// comment: comments nest.
pub proof fn law_whole_block_comments_make_no_difference(
    s: Seq<char>,
    i: int,
    j: int,
    st: Scan,
)
    requires
        0 <= i,
        i + 2 <= j,
        j + 1 < s.len(),
        s[i] == '/',
        s[i + 1] == '*',
        s[j] == '*',
        s[j + 1] == '/',
        forall|k: int|
            i + 2 <= k < j ==> !(#[trigger] s[k] == '/' && at(s, k + 1, '*')) && !(s[k] == '*'
                && at(s, k + 1, '/')),
        st.mode is Code || (st.mode matches Mode::BlockComment(depth) && depth >= 1),
    ensures
        scanned(s, i, j + 2, st) == st,
{
    let one = stepped(s, i, st).0;
    assert(one.mode is BlockComment);
    assert(stepped(s, i, st).1 == 2);
    lemma_block_comment(s, i + 2, j, one);
    assert(stepped(s, j, one).0 =~= st);
}

proof fn lemma_block_comment(s: Seq<char>, i: int, j: int, st: Scan)
    requires
        0 <= i <= j,
        j + 1 < s.len(),
        s[j] == '*',
        s[j + 1] == '/',
        forall|k: int|
            i <= k < j ==> !(#[trigger] s[k] == '/' && at(s, k + 1, '*')) && !(s[k] == '*' && at(
                s,
                k + 1,
                '/',
            )),
        st.mode is BlockComment,
    ensures
        scanned(s, i, j + 2, st) == stepped(s, j, st).0,
    decreases j - i,
{
    if i < j {
        assert(!(s[i] == '/' && at(s, i + 1, '*')));
        assert(stepped(s, i, st) == (st, 1int));
        lemma_block_comment(s, i + 1, j, st);
    } else {
        assert(at(s, j + 1, '/'));
        let end = stepped(s, j, st).0;
        assert(stepped(s, j, st).1 == 2);
        assert(scanned(s, j + 2, j + 2, end) == end);
    }
}

/// A whole pair of square or curly brackets makes no difference: its commas are
/// no arguments of the call around it.
pub proof fn law_whole_brackets_make_no_difference(s: Seq<char>, i: int, j: int, st: Scan)
    requires
        0 <= i < j < s.len(),
        st.mode is Code,
        (s[i] == '[' && s[j] == ']') || (s[i] == '{' && s[j] == '}'),
        forall|k: int| i < k < j ==> !is_structural(#[trigger] s[k]),
    ensures
        scanned(s, i, j + 1, st) == st,
{
    let one = stepped(s, i, st).0;
    assert(stepped(s, i, st).1 == 1);
    assert(one.open.drop_last() =~= st.open);
    lemma_to_the_end(s, i + 1, j, one);
    law_arguments_are_counted_by_commas(s, i + 1, j, one);
    let two = scanned(s, i + 1, j, one);
    let three = stepped(s, j, two).0;
    assert(two.open.drop_last() =~= st.open);
    assert(three.open =~= st.open);
    assert(three =~= st);
    assert(scanned(s, j, j + 1, two) == scanned(s, j + 1, j + 1, three));
}

proof fn lemma_to_the_end(s: Seq<char>, i: int, j: int, st: Scan)
    requires
        0 <= i <= j < s.len(),
        st.mode is Code,
        forall|k: int| i <= k < j ==> !is_structural(#[trigger] s[k]),
    ensures
        scanned(s, i, j + 1, st) == scanned(s, j, j + 1, scanned(s, i, j, st)),
    decreases j - i,
{
    if i < j {
        assert(!is_structural(s[i]));
        lemma_to_the_end(s, i + 1, j, stepped(s, i, st).0);
    }
}

/// The help is for the first callable with the name of the call.
pub proof fn law_first_callable_of_the_name_is_shown(cs: Seq<Callable>, name: Seq<char>)
    ensures
        callable(cs, name) is None <==> forall|i: int|
            0 <= i < cs.len() ==> (#[trigger] cs[i]).name@ != name,
        callable(cs, name) matches Some(c) ==> exists|i: int|
            0 <= i < cs.len() && #[trigger] cs[i] == c && c.name@ == name && forall|j: int|
                0 <= j < i ==> (#[trigger] cs[j]).name@ != name,
    decreases cs.len(),
{
    if cs.len() > 0 && cs[0].name@ != name {
        let rest = cs.skip(1);
        law_first_callable_of_the_name_is_shown(rest, name);
        if callable(rest, name) is Some {
            let c = callable(rest, name)->0;
            let i = choose|i: int|
                0 <= i < rest.len() && #[trigger] rest[i] == c && c.name@ == name && forall|j: int|
                    0 <= j < i ==> (#[trigger] rest[j]).name@ != name;
            assert(cs[i + 1] == c);
            assert forall|j: int| 0 <= j < i + 1 implies (#[trigger] cs[j]).name@ != name by {
                if j > 0 {
                    assert(cs[j] == rest[j - 1]);
                }
            }
        } else {
            assert forall|i: int| 0 <= i < cs.len() implies (#[trigger] cs[i]).name@ != name by {
                if i > 0 {
                    assert(cs[i] == rest[i - 1]);
                }
            }
        }
        if forall|i: int| 0 <= i < cs.len() ==> (#[trigger] cs[i]).name@ != name {
            assert forall|i: int| 0 <= i < rest.len() implies (#[trigger] rest[i]).name@ != name by {
                assert(rest[i] == cs[i + 1]);
            }
        }
    } else if cs.len() > 0 {
        assert(cs[0].name@ == name);
    }
}

} // verus!
