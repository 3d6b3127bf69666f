//! What the name, the stem and the extension of a path are.
use crate::cli::link::{exe_of, object_of};
use crate::paths::{
    component_before, components, components_before, components_of, extended, extension, file_name,
    has_name, is_absolute, is_component, joined, name_start, path_before, same_path, stem,
    unslashed_end, with_extension, with_name,
};
use crate::text::{before, rfind, split};
use crate::text_laws::{
    law_last_piece_follows_the_last_separator, law_rfind_gives_the_last_place,
};
use vstd::prelude::*;

verus! {

/// A name of a file: not empty, without slashes, and neither `.` nor `..`.
pub open spec fn is_file_name(n: Seq<char>) -> bool {
    n.len() > 0 && !n.contains('/') && n != "."@ && n != ".."@
}

proof fn lemma_last_char(s: Seq<char>, c: char, p: Seq<char>, k: int)
    requires
        p == seq![c],
        0 <= k < s.len(),
        s[k] == c,
        forall|i: int| k < i < s.len() ==> #[trigger] s[i] != c,
    ensures
        rfind(s, p) == Some(k),
{
    law_rfind_gives_the_last_place(s, p);
    assert(s.subrange(k, k + 1) =~= p);
    assert(s.subrange(k, k + p.len()) == p);
    match rfind(s, p) {
        Some(j) => {
            assert(s.subrange(j, j + p.len())[0] == s[j]);
            assert(s[j] == c);
        },
        None => {},
    }
}

proof fn lemma_no_char(s: Seq<char>, c: char, p: Seq<char>)
    requires
        p == seq![c],
        !s.contains(c),
    ensures
        rfind(s, p) is None,
{
    law_rfind_gives_the_last_place(s, p);
    match rfind(s, p) {
        Some(j) => {
            assert(s.subrange(j, j + p.len())[0] == s[j]);
            assert(s.contains(s[j]));
        },
        None => {},
    }
}

proof fn lemma_in_dir(dir: Seq<char>, n: Seq<char>)
    requires
        is_file_name(n),
    ensures
        unslashed_end(dir + "/"@ + n) == dir + "/"@ + n,
        name_start(dir + "/"@ + n) == dir.len() + 1,
        file_name(dir + "/"@ + n) == n,
        has_name(dir + "/"@ + n),
        unslashed_end(n) == n,
        name_start(n) == 0,
        file_name(n) == n,
        has_name(n),
{
    reveal_strlit("/");
    reveal_strlit(".");
    reveal_strlit("..");
    let path = dir + "/"@ + n;
    assert("/"@ =~= seq!['/']);
    assert(path.last() == n.last());
    assert(n.contains(n.last()));
    if n.len() > 1 {
        assert(path[path.len() - 2] == n[n.len() - 2]);
        assert(n.contains(n[n.len() - 2]));
    } else if n.last() == '.' {
        assert(n =~= "."@);
    }
    assert forall|i: int| dir.len() < i < path.len() implies #[trigger] path[i] != '/' by {
        assert(path[i] == n[i - dir.len() - 1]);
        assert(n.contains(n[i - dir.len() - 1]));
    }
    lemma_last_char(path, '/', "/"@, dir.len() as int);
    lemma_no_char(n, '/', "/"@);
    assert(path.skip(dir.len() as int + 1) =~= n);
    assert(n.skip(0) =~= n);
}

/// The last segment of a path is its name, and what a directory joined with a
/// name leads to has that name.
pub proof fn law_name_is_the_last_segment(dir: Seq<char>, n: Seq<char>)
    requires
        is_file_name(n),
    ensures
        file_name(n) == n,
        file_name(dir + "/"@ + n) == n,
        file_name(joined(dir, n)) == n,
        has_name(joined(dir, n)),
{
    reveal_strlit("/");
    lemma_in_dir(dir, n);
    assert(n.contains(n[0]));
    if dir.len() == 0 {
        assert(dir + n =~= n);
    } else if dir.last() == '/' {
        lemma_in_dir(dir.drop_last(), n);
        assert(dir + n =~= dir.drop_last() + "/"@ + n);
    }
}

proof fn lemma_stem(a: Seq<char>, e: Seq<char>)
    requires
        a.len() > 0,
        e.len() > 0,
        !e.contains('.'),
    ensures
        stem(a + "."@ + e) == a,
        rfind(a + "."@ + e, "."@) == Some(a.len() as int),
{
    reveal_strlit(".");
    reveal_strlit("..");
    let s = a + "."@ + e;
    assert("."@ =~= seq!['.']);
    assert forall|i: int| a.len() < i < s.len() implies #[trigger] s[i] != '.' by {
        assert(s[i] == e[i - a.len() - 1]);
        assert(e.contains(e[i - a.len() - 1]));
    }
    lemma_last_char(s, '.', "."@, a.len() as int);
    assert(s != ".."@) by {
        assert(s.last() == e.last());
        assert(e.contains(e.last()));
    }
    assert(s.take(a.len() as int) =~= a);
}

/// The extension is what follows the last dot of the name, the stem what stands
/// before it. A name without a dot, or with one in front only, has no extension.
pub proof fn law_extension_follows_the_last_dot(dir: Seq<char>, a: Seq<char>, e: Seq<char>)
    requires
        is_file_name(a + "."@ + e),
        is_file_name(a),
        e.len() > 0,
        !e.contains('.'),
    ensures
        stem(a + "."@ + e) == a,
        extension(dir + "/"@ + (a + "."@ + e)) == Some(e),
        extension(a + "."@ + e) == Some(e),
        !a.contains('.') ==> stem(a) == a && extension(dir + "/"@ + a) is None && extension(a)
            is None,
        is_file_name("."@ + e) ==> stem("."@ + e) == "."@ + e && extension(
            dir + "/"@ + ("."@ + e),
        ) is None,
{
    reveal_strlit(".");
    assert("."@ =~= seq!['.']);
    lemma_stem(a, e);
    let n = a + "."@ + e;
    lemma_in_dir(dir, n);
    assert(n.skip(a.len() as int + 1) =~= e);
    lemma_in_dir(dir, a);
    if !a.contains('.') {
        lemma_no_char(a, '.', "."@);
    }
    let h = "."@ + e;
    if is_file_name(h) {
        lemma_in_dir(dir, h);
        assert forall|i: int| 0 < i < h.len() implies #[trigger] h[i] != '.' by {
            assert(h[i] == e[i - 1]);
            assert(e.contains(e[i - 1]));
        }
        lemma_last_char(h, '.', "."@, 0);
    }
}

/// Another extension takes the place of the one that is there, in the same
/// directory and under the same stem; an empty one leaves the stem alone.
pub proof fn law_extension_is_replaced(
    dir: Seq<char>,
    a: Seq<char>,
    e: Seq<char>,
    x: Seq<char>,
)
    requires
        is_file_name(a + "."@ + e),
        is_file_name(a),
        e.len() > 0,
        !e.contains('.'),
        x.len() > 0,
    ensures
        with_extension(dir + "/"@ + (a + "."@ + e), x) == dir + "/"@ + (a + "."@ + x),
        with_extension(dir + "/"@ + (a + "."@ + e), Seq::empty()) == dir + "/"@ + a,
        with_extension(a + "."@ + e, x) == a + "."@ + x,
        !a.contains('.') ==> with_extension(dir + "/"@ + a, x) == dir + "/"@ + (a + "."@ + x)
            && with_extension(a, x) == a + "."@ + x,
        extended(dir + "/"@ + a, x) == dir + "/"@ + (a + "."@ + x),
        extended(a, x) == a + "."@ + x,
{
    reveal_strlit("/");
    let n = a + "."@ + e;
    law_extension_follows_the_last_dot(dir, a, e);
    lemma_in_dir(dir, n);
    lemma_in_dir(dir, a);
    assert((dir + "/"@ + n).take(dir.len() as int + 1) =~= dir + "/"@);
    assert((dir + "/"@ + a).take(dir.len() as int + 1) =~= dir + "/"@);
    assert(n.take(0) =~= Seq::<char>::empty());
    assert(a.take(0) =~= Seq::<char>::empty());
    assert((dir + "/"@) + a + "."@ + x =~= dir + "/"@ + (a + "."@ + x));
    assert(Seq::<char>::empty() + a + "."@ + x =~= a + "."@ + x);
}

/// Another name takes the place of the one that is there; the directory stays.
pub proof fn law_name_is_replaced(dir: Seq<char>, n: Seq<char>, m: Seq<char>)
    requires
        is_file_name(n),
    ensures
        with_name(dir + "/"@ + n, m) == dir + "/"@ + m,
        with_name(n, m) == m,
{
    reveal_strlit("/");
    lemma_in_dir(dir, n);
    assert((dir + "/"@ + n).take(dir.len() as int + 1) =~= dir + "/"@);
    assert(n.take(0) + m =~= m);
}

/// A path is joined under its base with one slash between them; an absolute one
/// stands for itself.
pub proof fn law_joined_stands_under_the_base(base: Seq<char>, rel: Seq<char>)
    ensures
        rel.len() > 0 && rel[0] == '/' ==> joined(base, rel) == rel,
        (rel.len() == 0 || rel[0] != '/') && base.len() > 0 ==> {
            &&& joined(base, rel).len() >= base.len()
            &&& joined(base, rel).take(base.len() as int) == base
            &&& base.last() != '/' ==> joined(base, rel).skip(base.len() as int) == "/"@ + rel
            &&& base.last() == '/' ==> joined(base, rel).skip(base.len() as int) == rel
        },
        base.len() == 0 ==> joined(base, rel) == rel,
{
    reveal_strlit("/");
    if (rel.len() == 0 || rel[0] != '/') && base.len() > 0 {
        assert(joined(base, rel).take(base.len() as int) =~= base);
        if base.last() == '/' {
            assert(joined(base, rel).skip(base.len() as int) =~= rel);
        } else {
            assert(joined(base, rel).skip(base.len() as int) =~= "/"@ + rel);
        }
    } else if base.len() == 0 {
        assert(base + rel =~= rel);
    }
}

/// A source is built into the executable of its stem, next to it, with `.exe` on
/// Windows.
pub proof fn law_executable_stands_next_to_its_source(dir: Seq<char>, a: Seq<char>)
    requires
        is_file_name(a + "."@ + "hll"@),
        is_file_name(a),
        !a.contains('.'),
    ensures
        exe_of(dir + "/"@ + (a + "."@ + "hll"@), false) == dir + "/"@ + a,
        exe_of(dir + "/"@ + (a + "."@ + "hll"@), true) == dir + "/"@ + (a + "."@ + "exe"@),
{
    reveal_strlit("hll");
    reveal_strlit("exe");
    law_extension_follows_the_last_dot(dir, a, "hll"@);
    law_extension_is_replaced(dir, a, "hll"@, "exe"@);
}

/// The object file stands next to its executable, under another name: `foo` and
/// `foo.exe` come from `foo.o`, and `foo.o` from `foo.obj.o`.
pub proof fn law_object_stands_next_to_its_executable(
    dir: Seq<char>,
    a: Seq<char>,
    e: Seq<char>,
)
    requires
        is_file_name(a + "."@ + e),
        is_file_name(a),
        e.len() > 0,
        !e.contains('.'),
    ensures
        e != "o"@ ==> object_of(dir + "/"@ + (a + "."@ + e)) == dir + "/"@ + (a + "."@ + "o"@),
        e == "o"@ ==> object_of(dir + "/"@ + (a + "."@ + e)) == dir + "/"@ + (a + "."@ + "obj.o"@),
        !a.contains('.') ==> object_of(dir + "/"@ + a) == dir + "/"@ + (a + "."@ + "o"@),
{
    reveal_strlit("o");
    reveal_strlit("obj.o");
    law_extension_follows_the_last_dot(dir, a, e);
    law_extension_is_replaced(dir, a, e, "o"@);
    law_extension_is_replaced(dir, a, e, "obj.o"@);
}

proof fn lemma_components_front(a: Seq<Seq<char>>, b: Seq<Seq<char>>, n: int)
    requires
        0 <= n <= a.len() <= b.len(),
        forall|i: int| 0 <= i < n ==> a[i] == b[i],
    ensures
        components_of(a, n) == components_of(b, n),
    decreases n,
{
    if n > 0 {
        lemma_components_front(a, b, n - 1);
        assert(a[n - 1] == b[n - 1]);
    }
}

/// The components of a file are those of its directory, then its name.
pub proof fn law_components_end_with_the_name(dir: Seq<char>, n: Seq<char>)
    requires
        is_file_name(n),
    ensures
        components(dir + "/"@ + n) == components(dir).push(n),
{
    reveal_strlit("/");
    law_last_piece_follows_the_last_separator(dir, "/"@, '/', n);
    let all = split(dir + "/"@ + n, "/"@);
    let front = split(dir, "/"@);
    assert(all.last() == n);
    assert(is_component(all, all.len() - 1));
    lemma_components_front(front, all, front.len() as int);
}

proof fn lemma_same_front(x: Seq<Seq<char>>, a: Seq<char>, b: Seq<char>)
    requires
        a != b,
    ensures
        components_before(x.push(a), x.push(b)) == component_before(a, b),
    decreases x.len(),
{
    if x.len() > 0 {
        lemma_same_front(x.skip(1), a, b);
        assert(x.push(a).skip(1) =~= x.skip(1).push(a));
        assert(x.push(b).skip(1) =~= x.skip(1).push(b));
    }
}

/// Files of one directory are ordered by their names, and two different names
/// never lead to the same path.
pub proof fn law_files_of_a_directory_go_by_name(dir: Seq<char>, a: Seq<char>, b: Seq<char>)
    requires
        is_file_name(a),
        is_file_name(b),
        a != b,
    ensures
        path_before(dir + "/"@ + a, dir + "/"@ + b) <==> before(a, b),
        !same_path(dir + "/"@ + a, dir + "/"@ + b),
{
    reveal_strlit("/");
    law_components_end_with_the_name(dir, a);
    law_components_end_with_the_name(dir, b);
    let x = components(dir);
    lemma_same_front(x, a, b);
    assert((dir + "/"@ + a)[0] == (dir + "/"@ + b)[0]);
    assert(is_absolute(dir + "/"@ + a) == is_absolute(dir + "/"@ + b));
    assert(x.push(a).last() == a && x.push(b).last() == b);
}

/// The directory itself and the one above come before anything else.
pub proof fn law_dots_come_first(n: Seq<char>)
    requires
        n != "."@,
    ensures
        component_before("."@, n),
        n != ".."@ ==> component_before(".."@, n),
        !component_before(n, "."@),
{
    reveal_strlit(".");
    reveal_strlit("..");
    assert("."@.len() != ".."@.len());
}

} // verus!
