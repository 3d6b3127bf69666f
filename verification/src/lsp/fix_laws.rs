//! Which types a leak is bound to, what lines an edit replaces, and what notes
//! say.
use crate::lsp::actions::{created_type, path_base, run_len, variable_for, word_char, word_flags};
use crate::lsp::diagnostics::{is_main_path, lex_notes, lint_notes, LexIssue, Severity};
use crate::lsp::document::{pair, TextEdit};
use crate::lsp::formatting::{is_line_edit, unix_lines};
use crate::lint::Finding;
use crate::paths::{components, components_of, is_component, stem};
use crate::text::{
    find, is_space, lemma_ended_join, lemma_lines_of_ended, lines, one_line, split, starts,
};
use crate::text_laws::{
    law_find_gives_the_first_place, law_last_piece_follows_the_last_separator,
    law_trim_start_drops_the_space_in_front, lemma_no_piece,
};
use crate::utf8::size;
use vstd::prelude::*;

verus! {

proof fn lemma_run(flags: Seq<bool>, i: int, j: int)
    requires
        0 <= i <= j <= flags.len(),
        forall|k: int| i <= k < j ==> #[trigger] flags[k],
        j == flags.len() || !flags[j],
    ensures
        run_len(flags, i) == j - i,
    decreases j - i,
{
    if i < j {
        assert(flags[i]);
        lemma_run(flags, i + 1, j);
    }
}

/// The word behind `new` is the type that is created; of a qualified name, its
/// last part.
pub proof fn law_created_type_stands_behind_new(
    q: Seq<char>,
    ty: Seq<char>,
    rest: Seq<char>,
)
    requires
        ty.len() > 0,
        !ty.contains(':'),
        !is_space(ty[0]),
        forall|i: int| 0 <= i < ty.len() ==> word_char(#[trigger] ty[i]),
        forall|i: int| 0 <= i < q.len() ==> word_char(#[trigger] q[i]),
        q.len() > 0 ==> !is_space(q[0]) && q.last() != ':',
        rest.len() > 0 ==> !word_char(rest[0]),
    ensures
        ({
            let s = "new "@ + ty + rest;
            created_type(s, word_flags(s)) == Some(ty)
        }),
        q.len() > 0 ==> ({
            let s = "new "@ + (q + "::"@ + ty) + rest;
            created_type(s, word_flags(s)) == Some(ty)
        }),
{
    reveal_strlit("::");
    lemma_no_piece(ty, "::"@, ':');
    lemma_created(ty, rest);
    if q.len() > 0 {
        let word = q + "::"@ + ty;
        assert forall|i: int| 0 <= i < word.len() implies word_char(#[trigger] word[i]) by {
            if i < q.len() {
                assert(word[i] == q[i]);
            } else if i >= q.len() + 2 {
                assert(word[i] == ty[i - q.len() - 2]);
            }
        }
        law_last_piece_follows_the_last_separator(q, "::"@, ':', ty);
        lemma_created(word, rest);
    }
}

proof fn lemma_created(word: Seq<char>, rest: Seq<char>)
    requires
        word.len() > 0,
        !is_space(word[0]),
        forall|i: int| 0 <= i < word.len() ==> word_char(#[trigger] word[i]),
        rest.len() > 0 ==> !word_char(rest[0]),
        split(word, "::"@).last().len() > 0,
    ensures
        ({
            let s = "new "@ + word + rest;
            created_type(s, word_flags(s)) == Some(split(word, "::"@).last())
        }),
{
    reveal_strlit("new ");
    reveal_strlit("new");
    let s = "new "@ + word + rest;
    assert(s.take(3) =~= "new"@);
    let tail = s.skip(3);
    let k = law_trim_start_drops_the_space_in_front(tail);
    assert(tail[0] == ' ');
    assert(tail[1] == word[0]);
    if k > 1 {
        assert(is_space(tail[1]));
    }
    if k == 0 {
        assert(is_space(' '));
    }
    assert(k == 1);
    let flags = word_flags(s);
    assert forall|i: int| 4 <= i < 4 + word.len() implies #[trigger] flags[i] by {
        assert(s[i] == word[i - 4]);
    }
    if rest.len() > 0 {
        assert(s[4 + word.len() as int] == rest[0]);
    }
    lemma_run(flags, 4, 4 + word.len() as int);
    assert(s.subrange(4, 4 + word.len() as int) =~= word);
}

/// The variable is called like the type, with a small first letter.
pub proof fn law_variable_is_called_like_its_type(ty: Seq<char>)
    requires
        ty.len() > 0,
    ensures
        variable_for(ty).skip(1) == ty.skip(1),
        'A' <= ty[0] <= 'Z' ==> variable_for(ty)[0] as int == ty[0] as int + 32,
        !('A' <= ty[0] <= 'Z') ==> variable_for(ty) == ty,
{
    assert(variable_for(ty).skip(1) =~= ty.skip(1));
    if 'A' <= ty[0] <= 'Z' {
        let n = ((ty[0] as u32) + 32) as u32;
        assert(n <= 122);
        assert((n as char) as int == n as int);
    } else {
        assert(variable_for(ty) =~= ty);
    }
}

/// The symbol list does not belong to the path of an import.
pub proof fn law_path_goes_without_its_symbols(base: Seq<char>, list: Seq<char>)
    requires
        !base.contains('{'),
    ensures
        path_base(base) == base,
        path_base(base + "::{"@ + list) == base,
{
    reveal_strlit("::{");
    let p = "::{"@;
    let s = base + p + list;
    law_find_gives_the_first_place(base, p);
    law_find_gives_the_first_place(s, p);
    if find(base, p) is Some {
        let k = find(base, p)->0;
        assert(base.subrange(k, k + p.len())[2] == base[k + 2]);
        assert(base.contains(base[k + 2]));
    }
    let n = base.len() as int;
    assert(s.subrange(n, n + 3) =~= p);
    assert(s.subrange(n, n + p.len()) == p);
    let k = find(s, p)->0;
    if k < n {
        assert(s.subrange(k, k + p.len())[2] == s[k + 2]);
        assert(s[k + 2] == '{');
        if k + 2 < n {
            assert(base.contains(base[k + 2]));
        } else {
            assert(k + 2 == n || k + 2 == n + 1);
            assert(s[n] == ':' && s[n + 1] == ':');
        }
    }
    assert(s.take(n) =~= base);
}

/// A character that starts no token is an error at its place, which names it.
pub proof fn law_stray_tokens_are_named(source: Seq<char>, es: Seq<LexIssue>, i: int)
    requires
        0 <= i < es.len(),
    ensures
        lex_notes(source, es).len() == es.len(),
        lex_notes(source, es)[i].severity == Severity::Error,
        lex_notes(source, es)[i].message == "unexpected token `"@ + es[i].slice@ + "`"@,
{
}

/// A finding is a warning with its own code and message.
pub proof fn law_findings_are_warnings(source: Seq<char>, fs: Seq<Finding>, i: int)
    requires
        0 <= i < fs.len(),
    ensures
        lint_notes(source, fs).len() == fs.len(),
        lint_notes(source, fs)[i].severity == Severity::Warning,
        lint_notes(source, fs)[i].code == fs[i].code,
        lint_notes(source, fs)[i].message == fs[i].message,
{
}

/// A file is the main one by its name alone, whatever directory it stands in.
pub proof fn law_main_files_are_called_main(dir: Seq<char>, n: Seq<char>)
    requires
        n.len() > 0,
        !n.contains('/'),
        n != "."@,
    ensures
        is_main_path(dir + "/"@ + n) <==> stem(n) == "main"@,
        is_main_path(n) <==> stem(n) == "main"@,
{
    reveal_strlit("/");
    let path = dir + "/"@ + n;
    law_last_piece_follows_the_last_separator(dir, "/"@, '/', n);
    let pieces = split(path, "/"@);
    assert(is_component(pieces, pieces.len() - 1));
    assert(components(path).last() == n);
    lemma_no_piece(n, "/"@, '/');
    let one = split(n, "/"@);
    assert(one =~= seq![n]);
    assert(is_component(one, 0));
    reveal_with_fuel(components_of, 2);
    assert(components(n) =~= seq![n]);
}

proof fn lemma_ascii_size(s: Seq<char>)
    requires
        forall|i: int| 0 <= i < s.len() ==> #[trigger] s[i] <= '\u{7f}',
    ensures
        size(s) == s.len(),
    decreases s.len(),
{
    if s.len() > 0 {
        let rest = s.skip(1);
        assert forall|i: int| 0 <= i < rest.len() implies #[trigger] rest[i] <= '\u{7f}' by {
            assert(rest[i] == s[i + 1]);
        }
        assert(s[0] <= '\u{7f}');
        lemma_ascii_size(rest);
    }
}

/// A line edit takes the lines from `a` through `b` whole and puts the formatted
/// ones in their place.
pub proof fn law_line_edits_replace_whole_lines(
    e: TextEdit,
    before: Seq<Seq<char>>,
    after: Seq<Seq<char>>,
    a: int,
    b: int,
)
    requires
        is_line_edit(e, before, after, a, b),
        0 <= a <= b < before.len() == after.len(),
        forall|i: int| 0 <= i < before[b].len() ==> #[trigger] before[b][i] <= '\u{7f}',
        forall|i: int| 0 <= i < after.len() ==> one_line(#[trigger] after[i]),
    ensures
        pair(e.range.start) == (a, 0int),
        pair(e.range.end) == (b, before[b].len() as int),
        lines(e.new_text@ + "\n"@) == after.subrange(a, b + 1),
{
    lemma_ascii_size(before[b]);
    let ls = after.subrange(a, b + 1);
    lemma_ended_join(ls);
    assert forall|i: int| 0 <= i < ls.len() implies one_line(#[trigger] ls[i]) by {
        assert(ls[i] == after[i + a]);
    }
    lemma_lines_of_ended(ls);
}

/// Each line ending becomes a line feed, and nothing else changes.
pub proof fn law_line_endings_become_feeds(a: Seq<char>, b: Seq<char>)
    ensures
        unix_lines(a + "\r\n"@ + b) == unix_lines(a) + "\n"@ + unix_lines(b),
        !a.contains('\r') ==> unix_lines(a) == a,
    decreases a.len(),
{
    reveal_strlit("\r\n");
    reveal_strlit("\n");
    let s = a + "\r\n"@ + b;
    if a.len() == 0 {
        assert(s.skip(2) =~= b);
        assert(unix_lines(s) =~= unix_lines(a) + "\n"@ + unix_lines(b));
    } else if a.len() > 1 && a[0] == '\r' && a[1] == '\n' {
        let r = a.skip(2);
        law_line_endings_become_feeds(r, b);
        assert(s.skip(2) =~= r + "\r\n"@ + b);
        assert(a.contains(a[0]));
        assert(unix_lines(s) =~= unix_lines(a) + "\n"@ + unix_lines(b));
    } else {
        let r = a.skip(1);
        law_line_endings_become_feeds(r, b);
        assert(s.skip(1) =~= r + "\r\n"@ + b);
        assert(s[0] == a[0]);
        if a.len() == 1 {
            assert(s[1] == '\r');
        } else {
            assert(s[1] == a[1]);
        }
        assert(unix_lines(s) =~= unix_lines(a) + "\n"@ + unix_lines(b));
        if !a.contains('\r') {
            if r.contains('\r') {
                let i = choose|i: int| 0 <= i < r.len() && r[i] == '\r';
                assert(a[i + 1] == '\r');
            }
            assert(seq![a[0]] + r =~= a);
        }
    }
}

} // verus!
