//! Doc comments (`///`).
//!
//! `///` lines directly above an item form its documentation. Ordinary `//`
//! comments and `////...` lines are never docs and break a doc block.
use crate::text::{
    chars_of, join, join_rows, lines, lines_of, opt_text, part, rows, starts, starts_with,
    string_of, trim, trim_chars, trim_start, trim_start_chars,
};
use crate::utf8::{chars_before, chars_up_to};
use vstd::prelude::*;
use vstd::string::*;

verus! {

/// The doc text of a trimmed line: what follows `///` and one optional space,
/// unless a fourth slash follows.
pub open spec fn line_doc(t: Seq<char>) -> Option<Seq<char>> {
    if !starts(t, "///"@) || starts(t, "////"@) {
        None
    } else if t.len() > 3 && t[3] == ' ' {
        Some(t.skip(4))
    } else {
        Some(t.skip(3))
    }
}

/// The doc texts of the unbroken run of doc lines that ends above line `n`.
pub open spec fn block_above(ls: Seq<Seq<char>>, n: int) -> Seq<Seq<char>>
    decreases n,
{
    if n <= 0 {
        Seq::empty()
    } else {
        match line_doc(trim_start(ls[n - 1])) {
            Some(d) => block_above(ls, n - 1).push(d),
            None => Seq::empty(),
        }
    }
}

/// How many line feeds stand among the first `n` characters.
pub open spec fn newlines(s: Seq<char>, n: int) -> int
    decreases n,
{
    if n <= 0 {
        0
    } else {
        newlines(s, n - 1) + if s[n - 1] == '\n' {
            1int
        } else {
            0int
        }
    }
}

/// The documentation of the item at the byte offset `start`: the doc lines
/// right above its line, unless they hold no text.
pub open spec fn doc_at(source: Seq<char>, start: int) -> Option<Seq<char>> {
    let ls = lines(source);
    let at = newlines(source, chars_before(source, start));
    let docs = block_above(ls, at);
    let text = join(docs, "\n"@);
    if at >= ls.len() || docs.len() == 0 || trim(text).len() == 0 {
        None
    } else {
        Some(text)
    }
}

/// Doc text of a trimmed line, or `None` when the line is no doc comment.
fn doc_text_of_line(t: &Vec<char>) -> (r: Option<Vec<char>>)
    ensures
        r is Some <==> line_doc(t@) is Some,
        r matches Some(d) ==> line_doc(t@) == Some(d@),
{
    proof {
        reveal_strlit("///");
    }
    if !starts_with(t, "///") || starts_with(t, "////") {
        return None;
    }
    let from: usize = if t.len() > 3 && t[3] == ' ' {
        4
    } else {
        3
    };
    let d = part(t, from, t.len());
    assert(d@ =~= t@.skip(from as int));
    Some(d)
}

fn count_newlines(s: &Vec<char>, n: usize) -> (r: usize)
    requires
        n <= s@.len(),
    ensures
        r == newlines(s@, n as int),
        r <= n,
{
    let mut k: usize = 0;
    let mut i: usize = 0;
    while i < n
        invariant
            i <= n <= s@.len(),
            k <= i,
            k == newlines(s@, i as int),
        decreases n - i,
    {
        if s[i] == '\n' {
            k += 1;
        }
        i += 1;
    }
    k
}

/// The doc block directly above the item that starts at the byte offset
/// `item_start`, markers stripped, or `None` when there is none. A blank line
/// between comment and item means that the comment documents nothing. An offset
/// behind the end of the source counts as its end.
pub fn extract_doc_comment(source: &str, item_start: usize) -> (r: Option<String>)
    ensures
        opt_text(r) == doc_at(source@, item_start as int),
{
    let s = chars_of(source);
    let n = chars_up_to(&s, item_start);
    let at = count_newlines(&s, n);
    let ls = lines_of(&s);
    let ghost all = rows(ls@);
    if at >= ls.len() {
        return None;
    }
    let mut top: usize = at;
    let mut go: bool = true;
    while top > 0 && go
        invariant
            top <= at < ls@.len(),
            all == rows(ls@),
            forall|i: int| top <= i < at ==> line_doc(trim_start(#[trigger] all[i])) is Some,
            !go ==> top > 0 && line_doc(trim_start(all[top - 1])) is None,
        decreases top, (if go { 1int } else { 0int }),
    {
        assert(all[top - 1] == ls@[top - 1]@);
        match doc_text_of_line(&trim_start_chars(&ls[top - 1])) {
            Some(_) => {
                top -= 1;
            },
            None => {
                go = false;
            },
        }
    }
    assert(block_above(all, top as int) =~= Seq::<Seq<char>>::empty());
    let mut docs: Vec<Vec<char>> = Vec::new();
    let mut i: usize = top;
    assert(rows(docs@) =~= block_above(all, top as int));
    while i < at
        invariant
            top <= i <= at < ls@.len(),
            all == rows(ls@),
            forall|k: int| top <= k < at ==> line_doc(trim_start(#[trigger] all[k])) is Some,
            rows(docs@) == block_above(all, i as int),
        decreases at - i,
    {
        assert(all[i as int] == ls@[i as int]@);
        let ghost had = rows(docs@);
        if let Some(d) = doc_text_of_line(&trim_start_chars(&ls[i])) {
            let ghost text = d@;
            docs.push(d);
            assert(rows(docs@) =~= had.push(text));
        }
        i += 1;
    }
    if docs.len() == 0 {
        return None;
    }
    let joined = join_rows(&docs, "\n");
    if trim_chars(&joined).len() == 0 {
        return None;
    }
    Some(string_of(&joined))
}

/// An ordinary comment, a line of four or more slashes, a blank line and a line
/// of code are no docs and end a block.
pub proof fn law_other_lines_break_the_block(ls: Seq<Seq<char>>, n: int)
    requires
        0 < n <= ls.len(),
        !starts(trim_start(ls[n - 1]), "///"@) || starts(trim_start(ls[n - 1]), "////"@),
    ensures
        block_above(ls, n).len() == 0,
{
}

/// The line, its indentation aside, is a doc comment with this text: three
/// slashes, then the text behind one space, or right behind the slashes where it
/// starts with neither a space nor a slash.
pub open spec fn is_doc_line(line: Seq<char>, text: Seq<char>) -> bool {
    ||| trim_start(line) == "///"@ + seq![' '] + text
    ||| trim_start(line) == "///"@ + text && (text.len() > 0 ==> text[0] != ' ' && text[0] != '/')
}

proof fn lemma_doc_line(line: Seq<char>, text: Seq<char>)
    ensures
        line_doc(trim_start(line)) == Some(text) <==> is_doc_line(line, text),
{
    reveal_strlit("///");
    reveal_strlit("////");
    let t = trim_start(line);
    if is_doc_line(line, text) {
        assert(t.take(3) =~= "///"@);
        if t == "///"@ + seq![' '] + text {
            assert(t[3] == ' ');
            assert(!starts(t, "////"@)) by {
                if starts(t, "////"@) {
                    assert(t.take(4)[3] == "////"@[3]);
                }
            }
            assert(t.skip(4) =~= text);
        } else {
            assert(!starts(t, "////"@)) by {
                if starts(t, "////"@) {
                    assert(t.take(4)[3] == "////"@[3]);
                    assert(t[3] == text[0]);
                }
            }
            assert(t.len() > 3 ==> t[3] == text[0]);
            assert(t.skip(3) =~= text);
        }
    }
    if line_doc(t) == Some(text) {
        assert(t.take(3) == "///"@);
        if t.len() > 3 && t[3] == ' ' {
            assert(t =~= "///"@ + seq![' '] + text) by {
                assert(forall|i: int| 0 <= i < 3 ==> t[i] == t.take(3)[i]);
                assert(forall|i: int| 4 <= i < t.len() ==> t[i] == t.skip(4)[i - 4]);
            }
        } else {
            assert(t =~= "///"@ + text) by {
                assert(forall|i: int| 0 <= i < 3 ==> t[i] == t.take(3)[i]);
                assert(forall|i: int| 3 <= i < t.len() ==> t[i] == t.skip(3)[i - 3]);
            }
            if text.len() > 0 && text[0] == '/' {
                assert(t[3] == text[0]);
                assert(t.take(4) =~= "////"@) by {
                    assert(forall|i: int| 0 <= i < 3 ==> t[i] == t.take(3)[i]);
                }
            }
        }
    }
}

/// The documentation above a line is the run of doc lines that ends right above
/// it, line by line and in their order, as far up as it goes.
pub proof fn law_docs_are_the_lines_above(
    ls: Seq<Seq<char>>,
    top: int,
    n: int,
    docs: Seq<Seq<char>>,
)
    requires
        0 <= top <= n <= ls.len(),
        docs.len() == n - top,
        forall|i: int| top <= i < n ==> is_doc_line(#[trigger] ls[i], docs[i - top]),
        top > 0 ==> forall|text: Seq<char>| !#[trigger] is_doc_line(ls[top - 1], text),
    ensures
        block_above(ls, n) == docs,
    decreases n - top,
{
    if n == top {
        if top > 0 {
            match line_doc(trim_start(ls[top - 1])) {
                Some(d) => {
                    lemma_doc_line(ls[top - 1], d);
                },
                None => {},
            }
        }
        assert(block_above(ls, n) =~= docs);
    } else {
        lemma_doc_line(ls[n - 1], docs[n - 1 - top]);
        law_docs_are_the_lines_above(ls, top, n - 1, docs.drop_last());
        assert(docs =~= docs.drop_last().push(docs.last()));
    }
}

/// An item is documented exactly where doc lines with some text stand right above
/// its line; its documentation is those lines, joined.
pub proof fn law_documented_items_have_docs_above(source: Seq<char>, start: int)
    ensures
        ({
            let at = newlines(source, chars_before(source, start));
            let docs = block_above(lines(source), at);
            &&& doc_at(source, start) is Some <==> at < lines(source).len() && docs.len() > 0
                && trim(join(docs, "\n"@)).len() > 0
            &&& doc_at(source, start) matches Some(d) ==> d == join(docs, "\n"@)
        }),
{
}

} // verus!
