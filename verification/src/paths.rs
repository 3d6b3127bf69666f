//! Paths as text, with `/` between segments.
use crate::text::{
    before, chars_of, comes_before, copy_chars, eq_chars, is_text, join, join_rows,
    lemma_before_total, lemma_before_trans, opt_text, part, rfind, rfind_chars, rows, split, split_chars, string_of,
    texts,
};
use vstd::prelude::*;
use vstd::string::*;

verus! {

/// `rel` under `base`: an absolute `rel` stands for itself, and a separator is
/// added where `base` does not end in one.
pub open spec fn joined(base: Seq<char>, rel: Seq<char>) -> Seq<char> {
    if rel.len() > 0 && rel[0] == '/' {
        rel
    } else if base.len() == 0 || base.last() == '/' {
        base + rel
    } else {
        base + "/"@ + rel
    }
}

/// `rel` under `base`.
pub fn join_path(base: &str, rel: &str) -> (r: String)
    ensures
        r@ == joined(base@, rel@),
{
    let b = chars_of(base);
    let q = chars_of(rel);
    if q.len() > 0 && q[0] == '/' {
        return String::from_str(rel);
    }
    let mut out = String::from_str(base);
    if b.len() > 0 && b[b.len() - 1] != '/' {
        out.append("/");
    }
    out.append(rel);
    out
}

/// A path that starts at the root.
pub open spec fn is_absolute(path: Seq<char>) -> bool {
    path.len() > 0 && path[0] == '/'
}

/// The piece at `i` counts as a component: it is not empty, and `.` counts only
/// in front of a relative path.
pub open spec fn is_component(pieces: Seq<Seq<char>>, i: int) -> bool {
    pieces[i].len() > 0 && (pieces[i] != "."@ || i == 0)
}

/// The components among the first `n` pieces.
pub open spec fn components_of(pieces: Seq<Seq<char>>, n: int) -> Seq<Seq<char>>
    decreases n,
{
    if n <= 0 {
        Seq::empty()
    } else if is_component(pieces, n - 1) {
        components_of(pieces, n - 1).push(pieces[n - 1])
    } else {
        components_of(pieces, n - 1)
    }
}

/// The components of a path, the root aside.
pub open spec fn components(path: Seq<char>) -> Seq<Seq<char>> {
    let pieces = split(path, "/"@);
    components_of(pieces, pieces.len() as int)
}

/// The components of `path` below `base`, where it stands below it.
pub open spec fn below_base(base: Seq<char>, path: Seq<char>) -> Option<Seq<Seq<char>>> {
    let b = components(base);
    let p = components(path);
    if is_absolute(base) == is_absolute(path) && b.len() <= p.len() && p.take(b.len() as int) == b {
        Some(p.skip(b.len() as int))
    } else {
        None
    }
}

/// The directories strictly between a path and the directory `stop` above it,
/// nearest to the path first; none where it does not stand below.
pub open spec fn parents_between(path: Seq<char>, stop: Seq<char>) -> Seq<Seq<char>> {
    match below_base(stop, path) {
        Some(rel) => if rel.len() == 0 {
            Seq::empty()
        } else {
            Seq::new(
                (rel.len() - 1) as nat,
                |i: int| joined(stop, join(rel.take(rel.len() - 1 - i), "/"@)),
            )
        },
        None => Seq::empty(),
    }
}

/// A file name without its extension: what stands before its last dot, unless
/// that comes first.
pub open spec fn stem(name: Seq<char>) -> Seq<char> {
    if name == ".."@ {
        name
    } else {
        match rfind(name, "."@) {
            Some(k) => if k > 0 {
                name.take(k)
            } else {
                name
            },
            None => name,
        }
    }
}

/// The components of a path, the root aside.
pub fn path_components(path: &Vec<char>) -> (r: Vec<Vec<char>>)
    ensures
        rows(r@) == components(path@),
{
    proof {
        reveal_strlit("/");
    }
    let pieces = split_chars(path, "/");
    let ghost ps = rows(pieces@);
    let mut out: Vec<Vec<char>> = Vec::new();
    let mut i: usize = 0;
    assert(rows(out@) =~= Seq::<Seq<char>>::empty());
    while i < pieces.len()
        invariant
            i <= pieces@.len(),
            ps == rows(pieces@),
            rows(out@) == components_of(ps, i as int),
        decreases pieces@.len() - i,
    {
        assert(ps[i as int] == pieces@[i as int]@);
        if pieces[i].len() > 0 && (i == 0 || !is_text(&pieces[i], ".")) {
            let ghost had = rows(out@);
            out.push(copy_chars(&pieces[i]));
            assert(rows(out@) =~= had.push(ps[i as int]));
        }
        i += 1;
    }
    out
}

/// The components of `path` below `base`, where it stands below it.
pub fn strip_base(base: &str, path: &str) -> (r: Option<Vec<Vec<char>>>)
    ensures
        r is Some <==> below_base(base@, path@) is Some,
        r matches Some(v) ==> below_base(base@, path@) == Some(rows(v@)),
{
    let bs = chars_of(base);
    let ps = chars_of(path);
    let b_root: bool = bs.len() > 0 && bs[0] == '/';
    let p_root: bool = ps.len() > 0 && ps[0] == '/';
    let b = path_components(&bs);
    let p = path_components(&ps);
    let ghost br = rows(b@);
    let ghost pr = rows(p@);
    if b_root != p_root || b.len() > p.len() {
        return None;
    }
    let mut i: usize = 0;
    while i < b.len()
        invariant
            i <= b@.len() <= p@.len(),
            br == rows(b@),
            pr == rows(p@),
            br == components(base@),
            pr == components(path@),
            forall|k: int| 0 <= k < i ==> #[trigger] br[k] == pr[k],
        decreases b@.len() - i,
    {
        if !eq_chars(&b[i], &p[i]) {
            assert(br[i as int] != pr[i as int]);
            assert(pr.take(br.len() as int)[i as int] == pr[i as int]);
            return None;
        }
        i += 1;
    }
    assert(pr.take(br.len() as int) =~= br);
    let mut out: Vec<Vec<char>> = Vec::new();
    let n: usize = p.len();
    let mut j: usize = b.len();
    assert(rows(out@) =~= pr.subrange(br.len() as int, br.len() as int));
    while j < n
        invariant
            b@.len() <= j <= n,
            n == p@.len(),
            br.len() == b@.len(),
            pr == rows(p@),
            rows(out@) == pr.subrange(br.len() as int, j as int),
        decreases n - j,
    {
        let ghost had = rows(out@);
        out.push(copy_chars(&p[j]));
        assert(rows(out@) =~= had.push(pr[j as int]));
        assert(rows(out@) =~= pr.subrange(br.len() as int, j + 1));
        j += 1;
    }
    assert(rows(out@) =~= pr.skip(br.len() as int));
    Some(out)
}

/// The parents of `slot` strictly below `stop`, nearest first.
pub fn parents_below(slot: &str, stop: &str) -> (r: Vec<String>)
    ensures
        texts(r@) == parents_between(slot@, stop@),
{
    let mut out: Vec<String> = Vec::new();
    assert(texts(out@) =~= Seq::<Seq<char>>::empty());
    let mut rel = match strip_base(stop, slot) {
        Some(v) => v,
        None => {
            return out;
        },
    };
    let ghost all = rows(rel@);
    if rel.len() == 0 {
        return out;
    }
    rel.pop();
    assert(rows(rel@) =~= all.take(all.len() - 1));
    while rel.len() > 0
        invariant
            rel@.len() < all.len(),
            below_base(stop@, slot@) == Some(all),
            rows(rel@) == all.take(rel@.len() as int),
            texts(out@) =~= parents_between(slot@, stop@).take(all.len() - 1 - rel@.len()),
        decreases rel@.len(),
    {
        let ghost n = rel@.len() as int;
        let ghost had = texts(out@);
        let below = string_of(&join_rows(&rel, "/"));
        let dir = join_path(stop, below.as_str());
        out.push(dir);
        assert(texts(out@) =~= had.push(joined(stop@, join(all.take(n), "/"@))));
        rel.pop();
        assert(rows(rel@) =~= all.take(n - 1));
    }
    assert(parents_between(slot@, stop@).take(all.len() - 1) =~= parents_between(slot@, stop@));
    out
}

/// A file name without its extension.
pub fn file_stem(name: &Vec<char>) -> (r: Vec<char>)
    ensures
        r@ == stem(name@),
{
    if is_text(name, "..") {
        return copy_chars(name);
    }
    match rfind_chars(name, ".") {
        Some(k) => {
            if k > 0 {
                let r = part(name, 0, k);
                assert(r@ =~= name@.take(k as int));
                r
            } else {
                copy_chars(name)
            }
        },
        None => copy_chars(name),
    }
}

// ---------------------------------------------------------------------------
// File names and extensions
// ---------------------------------------------------------------------------

/// A path without trailing slashes and `.` segments.
pub open spec fn unslashed_end(path: Seq<char>) -> Seq<char>
    decreases path.len(),
{
    if path.len() > 0 && path.last() == '/' {
        unslashed_end(path.drop_last())
    } else if path.len() > 1 && path.last() == '.' && path[path.len() - 2] == '/' {
        unslashed_end(path.take(path.len() - 2))
    } else {
        path
    }
}

fn drop_slashes(path: &Vec<char>) -> (r: Vec<char>)
    ensures
        r@ == unslashed_end(path@),
{
    let mut n: usize = path.len();
    assert(path@.take(n as int) =~= path@);
    loop
        invariant
            n <= path@.len(),
            unslashed_end(path@) == unslashed_end(path@.take(n as int)),
        decreases n,
    {
        let ghost p = path@.take(n as int);
        if n > 0 && path[n - 1] == '/' {
            assert(p.drop_last() =~= path@.take(n - 1));
            n -= 1;
        } else if n > 1 && path[n - 1] == '.' && path[n - 2] == '/' {
            assert(p.take(n - 2) =~= path@.take(n - 2));
            n -= 2;
        } else {
            let r = part(path, 0, n);
            assert(r@ =~= p);
            return r;
        }
    }
}

/// Where the file name of a path starts.
pub open spec fn name_start(path: Seq<char>) -> int {
    match rfind(unslashed_end(path), "/"@) {
        Some(k) => k + 1,
        None => 0,
    }
}

/// The file name of a path.
pub open spec fn file_name(path: Seq<char>) -> Seq<char> {
    unslashed_end(path).skip(name_start(path))
}

/// The path ends in a name.
pub open spec fn has_name(path: Seq<char>) -> bool {
    file_name(path).len() > 0 && file_name(path) != ".."@ && file_name(path) != "."@
}

/// The extension of a path: what follows the last dot of its name, unless that
/// dot comes first.
pub open spec fn extension(path: Seq<char>) -> Option<Seq<char>> {
    if !has_name(path) {
        None
    } else {
        match rfind(file_name(path), "."@) {
            Some(k) => if k > 0 {
                Some(file_name(path).skip(k + 1))
            } else {
                None
            },
            None => None,
        }
    }
}

/// A path with another extension, none where `ext` is empty. A path without a
/// name stays as it is.
pub open spec fn with_extension(path: Seq<char>, ext: Seq<char>) -> Seq<char> {
    if !has_name(path) {
        path
    } else if ext.len() == 0 {
        unslashed_end(path).take(name_start(path)) + stem(file_name(path))
    } else {
        unslashed_end(path).take(name_start(path)) + stem(file_name(path)) + "."@ + ext
    }
}

/// A path whose name has one more extension. A path without a name stays as it
/// is.
pub open spec fn extended(path: Seq<char>, ext: Seq<char>) -> Seq<char> {
    if has_name(path) {
        unslashed_end(path) + "."@ + ext
    } else {
        path
    }
}

/// A path with another file name; a path without a name gets one.
pub open spec fn with_name(path: Seq<char>, name: Seq<char>) -> Seq<char> {
    if has_name(path) {
        unslashed_end(path).take(name_start(path)) + name
    } else {
        joined(path, name)
    }
}

proof fn lemma_name_start(path: Seq<char>)
    ensures
        0 <= name_start(path) <= unslashed_end(path).len(),
{
    reveal_strlit("/");
    lemma_rfind(unslashed_end(path), "/"@);
}

pub(crate) proof fn lemma_rfind(s: Seq<char>, p: Seq<char>)
    ensures
        rfind(s, p) matches Some(k) ==> 0 <= k && k + p.len() <= s.len() && s.subrange(
            k,
            k + p.len(),
        ) == p,
    decreases s.len(),
{
    if crate::text::ends(s, p) {
        assert(s.subrange(s.len() - p.len(), s.len() as int) =~= s.skip(s.len() - p.len()));
    } else if s.len() > 0 {
        lemma_rfind(s.drop_last(), p);
        match rfind(s.drop_last(), p) {
            Some(k) => {
                assert(s.drop_last().subrange(k, k + p.len()) =~= s.subrange(k, k + p.len()));
            },
            None => {},
        }
    }
}

fn split_name(path: &str) -> (r: (Vec<char>, Vec<char>))
    ensures
        r.0@ == unslashed_end(path@).take(name_start(path@)),
        r.1@ == file_name(path@),
{
    proof {
        reveal_strlit("/");
        lemma_name_start(path@);
    }
    let p = drop_slashes(&chars_of(path));
    let k: usize = match rfind_chars(&p, "/") {
        Some(k) => {
            assert(k + 1 <= p.len());
            k + 1
        },
        None => 0,
    };
    let a = part(&p, 0, k);
    assert(a@ =~= p@.take(k as int));
    let b = part(&p, k, p.len());
    assert(b@ =~= p@.skip(k as int));
    (a, b)
}

fn is_name(name: &Vec<char>) -> (r: bool)
    ensures
        r == (name@.len() > 0 && name@ != ".."@ && name@ != "."@),
{
    name.len() > 0 && !is_text(name, "..") && !is_text(name, ".")
}

/// The extension of a path.
pub fn path_extension(path: &str) -> (r: Option<String>)
    ensures
        opt_text(r) == extension(path@),
{
    proof {
        reveal_strlit(".");
    }
    let (_, name) = split_name(path);
    if !is_name(&name) {
        return None;
    }
    match rfind_chars(&name, ".") {
        Some(k) => {
            if k > 0 {
                assert(k + 1 <= name.len());
                let e = part(&name, k + 1, name.len());
                assert(e@ =~= name@.skip(k + 1));
                Some(string_of(&e))
            } else {
                None
            }
        },
        None => None,
    }
}

/// A path with another extension, none where `ext` is empty.
pub fn set_extension(path: &str, ext: &str) -> (r: String)
    ensures
        r@ == with_extension(path@, ext@),
{
    let (dir, name) = split_name(path);
    if !is_name(&name) {
        return String::from_str(path);
    }
    let mut out = string_of(&dir);
    out.append(string_of(&file_stem(&name)).as_str());
    if chars_of(ext).len() > 0 {
        out.append(".");
        out.append(ext);
    }
    out
}

/// A path whose name has one more extension.
pub fn add_extension(path: &str, ext: &str) -> (r: String)
    ensures
        r@ == extended(path@, ext@),
{
    let (_, name) = split_name(path);
    if !is_name(&name) {
        return String::from_str(path);
    }
    let mut out = string_of(&drop_slashes(&chars_of(path)));
    out.append(".");
    out.append(ext);
    out
}

/// A path with another file name.
pub fn set_name(path: &str, name: &str) -> (r: String)
    ensures
        r@ == with_name(path@, name@),
{
    let (dir, old) = split_name(path);
    if !is_name(&old) {
        return join_path(path, name);
    }
    let mut out = string_of(&dir);
    out.append(name);
    out
}

// ---------------------------------------------------------------------------
// Order
// ---------------------------------------------------------------------------

/// The two texts are the same path: they have the same components.
pub open spec fn same_path(a: Seq<char>, b: Seq<char>) -> bool {
    is_absolute(a) == is_absolute(b) && components(a) == components(b)
}

/// `.` comes before `..`, and that before any name.
pub open spec fn rank(c: Seq<char>) -> int {
    if c == "."@ {
        0
    } else if c == ".."@ {
        1
    } else {
        2
    }
}

pub open spec fn component_before(a: Seq<char>, b: Seq<char>) -> bool {
    rank(a) < rank(b) || (rank(a) == rank(b) && before(a, b))
}

/// Lexicographic order by component.
pub open spec fn components_before(a: Seq<Seq<char>>, b: Seq<Seq<char>>) -> bool
    decreases a.len(),
{
    if b.len() == 0 {
        false
    } else if a.len() == 0 {
        true
    } else if a[0] == b[0] {
        components_before(a.skip(1), b.skip(1))
    } else {
        component_before(a[0], b[0])
    }
}

/// The order of paths: by component, the root before any other component.
pub open spec fn path_before(a: Seq<char>, b: Seq<char>) -> bool {
    if is_absolute(a) == is_absolute(b) {
        components_before(components(a), components(b))
    } else if is_absolute(a) {
        components(b).len() > 0
    } else {
        components(a).len() == 0
    }
}

fn rank_of(c: &Vec<char>) -> (r: u8)
    ensures
        r == rank(c@),
{
    if is_text(c, ".") {
        0
    } else if is_text(c, "..") {
        1
    } else {
        2
    }
}

fn comes_before_component(a: &Vec<char>, b: &Vec<char>) -> (r: bool)
    ensures
        r == component_before(a@, b@),
{
    let x = rank_of(a);
    let y = rank_of(b);
    x < y || (x == y && comes_before(string_of(a).as_str(), string_of(b).as_str()))
}

/// Whether two texts are the same path.
pub fn is_same_path(a: &str, b: &str) -> (r: bool)
    ensures
        r == same_path(a@, b@),
{
    let x = chars_of(a);
    let y = chars_of(b);
    let x_root: bool = x.len() > 0 && x[0] == '/';
    let y_root: bool = y.len() > 0 && y[0] == '/';
    let p = path_components(&x);
    let q = path_components(&y);
    if x_root != y_root || p.len() != q.len() {
        assert(rows(p@).len() == p@.len() && rows(q@).len() == q@.len());
        return false;
    }
    let mut i: usize = 0;
    while i < p.len()
        invariant
            i <= p@.len() == q@.len(),
            rows(p@) == components(a@),
            rows(q@) == components(b@),
            forall|k: int| 0 <= k < i ==> #[trigger] p@[k]@ == q@[k]@,
        decreases p@.len() - i,
    {
        if !eq_chars(&p[i], &q[i]) {
            assert(rows(p@)[i as int] != rows(q@)[i as int]);
            return false;
        }
        i += 1;
    }
    assert(rows(p@) =~= rows(q@));
    true
}

/// Whether path `a` comes before path `b`.
pub fn is_path_before(a: &str, b: &str) -> (r: bool)
    ensures
        r == path_before(a@, b@),
{
    let x = chars_of(a);
    let y = chars_of(b);
    let x_root: bool = x.len() > 0 && x[0] == '/';
    let y_root: bool = y.len() > 0 && y[0] == '/';
    let p = path_components(&x);
    let q = path_components(&y);
    let ghost ps = rows(p@);
    let ghost qs = rows(q@);
    assert(ps.len() == p@.len() && qs.len() == q@.len());
    if x_root != y_root {
        return if x_root {
            q.len() > 0
        } else {
            p.len() == 0
        };
    }
    let mut i: usize = 0;
    assert(ps.skip(0) =~= ps && qs.skip(0) =~= qs);
    loop
        invariant
            i <= p@.len(),
            i <= q@.len(),
            ps == rows(p@),
            qs == rows(q@),
            components_before(ps, qs) == components_before(ps.skip(i as int), qs.skip(i as int)),
            is_absolute(a@) == is_absolute(b@),
            ps == components(a@),
            qs == components(b@),
        decreases p@.len() - i,
    {
        let ghost u = ps.skip(i as int);
        let ghost v = qs.skip(i as int);
        if i == q.len() {
            return false;
        }
        if i == p.len() {
            return true;
        }
        assert(u[0] == p@[i as int]@ && v[0] == q@[i as int]@);
        if !eq_chars(&p[i], &q[i]) {
            return comes_before_component(&p[i], &q[i]);
        }
        assert(u.skip(1) =~= ps.skip(i + 1) && v.skip(1) =~= qs.skip(i + 1));
        i += 1;
    }
}

/// Strictly ascending as paths, so that no path stands twice.
pub open spec fn in_path_order(s: Seq<Seq<char>>) -> bool {
    forall|i: int, j: int| 0 <= i < j < s.len() ==> path_before(#[trigger] s[i], #[trigger] s[j])
}

/// The list holds the path, however it is spelled.
pub open spec fn has_path(s: Seq<Seq<char>>, f: Seq<char>) -> bool {
    exists|i: int| 0 <= i < s.len() && same_path(#[trigger] s[i], f)
}

/// The paths, then the first `n` of `more` that are not there yet.
pub open spec fn with_paths(paths: Seq<Seq<char>>, more: Seq<Seq<char>>, n: int) -> Seq<Seq<char>>
    decreases n,
{
    if n <= 0 {
        paths
    } else {
        let all = with_paths(paths, more, n - 1);
        if has_path(all, more[n - 1]) {
            all
        } else {
            all.push(more[n - 1])
        }
    }
}

/// Whether the list holds the path.
fn holds_path(v: &Vec<String>, x: &str) -> (r: bool)
    ensures
        r == has_path(texts(v@), x@),
{
    let mut i: usize = 0;
    while i < v.len()
        invariant
            i <= v@.len(),
            forall|k: int| 0 <= k < i ==> !same_path(#[trigger] texts(v@)[k], x@),
        decreases v@.len() - i,
    {
        if is_same_path(v[i].as_str(), x) {
            assert(same_path(texts(v@)[i as int], x@));
            return true;
        }
        i += 1;
    }
    false
}

/// Appends the path unless it is there.
pub fn push_path(out: &mut Vec<String>, x: &str)
    ensures
        texts(final(out)@) == if has_path(texts(old(out)@), x@) {
            texts(old(out)@)
        } else {
            texts(old(out)@).push(x@)
        },
{
    if !holds_path(out, x) {
        out.push(String::from_str(x));
        assert(texts(out@) =~= texts(old(out)@).push(x@));
    }
}

/// Appends the paths that are not there yet.
pub fn extend_paths(out: &mut Vec<String>, more: &Vec<String>)
    ensures
        texts(final(out)@) == with_paths(texts(old(out)@), texts(more@), more@.len() as int),
{
    let mut j: usize = 0;
    while j < more.len()
        invariant
            j <= more@.len(),
            texts(out@) == with_paths(texts(old(out)@), texts(more@), j as int),
        decreases more@.len() - j,
    {
        push_path(out, more[j].as_str());
        j += 1;
    }
}

/// Puts `x` into a list in path order unless the path is there.
fn insert_path(v: &mut Vec<String>, x: &String)
    requires
        in_path_order(texts(old(v)@)),
    ensures
        in_path_order(texts(final(v)@)),
        forall|f: Seq<char>| #[trigger]
            texts(final(v)@).contains(f) ==> texts(old(v)@).contains(f) || f == x@,
        forall|f: Seq<char>| has_path(texts(old(v)@), f) ==> #[trigger] has_path(texts(final(v)@), f),
        has_path(texts(final(v)@), x@),
{
    let ghost s = texts(v@);
    let n: usize = v.len();
    let mut at: usize = 0;
    while at < n && is_path_before(v[at].as_str(), x.as_str())
        invariant
            at <= n == v@.len(),
            s == texts(v@),
            forall|i: int| 0 <= i < at ==> path_before(#[trigger] s[i], x@),
        decreases n - at,
    {
        at += 1;
    }
    if at < n && is_same_path(v[at].as_str(), x.as_str()) {
        assert(same_path(s[at as int], x@));
        return;
    }
    let ghost y = x@;
    v.insert(at, x.clone());
    let ghost t = texts(v@);
    assert(t =~= s.insert(at as int, y));
    assert forall|i: int| at <= i < s.len() implies path_before(y, #[trigger] s[i]) by {
        lemma_path_total(s[at as int], y);
        lemma_path_total(y, s[at as int]);
        if i > at {
            assert(path_before(s[at as int], s[i]));
            lemma_path_trans(y, s[at as int], s[i]);
        }
    }
    assert(in_path_order(t)) by {
        assert forall|i: int, j: int| 0 <= i < j < t.len() implies path_before(
            #[trigger] t[i],
            #[trigger] t[j],
        ) by {
            let a = if i < at {
                i
            } else {
                i - 1
            };
            let b = if j < at {
                j
            } else {
                j - 1
            };
            if i == at {
                assert(t[j] == s[b]);
            } else if j == at {
                assert(t[i] == s[a]);
            } else {
                assert(t[i] == s[a] && t[j] == s[b]);
                assert(path_before(s[a], s[b]));
            }
        }
    }
    assert forall|f: Seq<char>| #[trigger] t.contains(f) implies s.contains(f) || f == y by {
        let k = choose|k: int| 0 <= k < t.len() && t[k] == f;
        if k < at {
            assert(s[k] == f);
        } else if k > at {
            assert(s[k - 1] == f);
        }
    }
    assert forall|f: Seq<char>| has_path(s, f) implies #[trigger] has_path(t, f) by {
        let k = choose|k: int| 0 <= k < s.len() && same_path(#[trigger] s[k], f);
        if k < at {
            assert(same_path(t[k], f));
        } else {
            assert(same_path(t[k + 1], f));
        }
    }
    assert(same_path(t[at as int], y));
}

/// The paths of `v` in path order, each once.
pub fn sorted_paths(v: &Vec<String>) -> (r: Vec<String>)
    ensures
        in_path_order(texts(r@)),
        forall|f: Seq<char>| #[trigger] texts(r@).contains(f) ==> texts(v@).contains(f),
        forall|f: Seq<char>| #[trigger] texts(v@).contains(f) ==> has_path(texts(r@), f),
{
    let mut out: Vec<String> = Vec::new();
    let ghost all = texts(v@);
    let mut i: usize = 0;
    while i < v.len()
        invariant
            i <= v@.len(),
            all == texts(v@),
            in_path_order(texts(out@)),
            forall|f: Seq<char>| #[trigger] texts(out@).contains(f) ==> all.contains(f),
            forall|k: int| 0 <= k < i ==> has_path(texts(out@), #[trigger] all[k]),
        decreases v@.len() - i,
    {
        let ghost had = texts(out@);
        insert_path(&mut out, &v[i]);
        assert(all[i as int] == v@[i as int]@);
        assert forall|k: int| 0 <= k < i + 1 implies has_path(texts(out@), #[trigger] all[k]) by {
            if k < i {
                assert(has_path(had, all[k]));
            }
        }
        i += 1;
    }
    out
}

proof fn lemma_component_total(a: Seq<char>, b: Seq<char>)
    ensures
        component_before(a, b) ==> !component_before(b, a) && a != b,
        !component_before(a, b) && !component_before(b, a) ==> a == b,
{
    lemma_before_total(a, b);
    lemma_before_total(b, a);
}

proof fn lemma_components_total(a: Seq<Seq<char>>, b: Seq<Seq<char>>)
    ensures
        components_before(a, b) ==> !components_before(b, a) && a != b,
        !components_before(a, b) && !components_before(b, a) ==> a == b,
    decreases a.len(),
{
    if a.len() > 0 && b.len() > 0 {
        if a[0] == b[0] {
            lemma_components_total(a.skip(1), b.skip(1));
            if !components_before(a, b) && !components_before(b, a) {
                assert(a =~= seq![a[0]] + a.skip(1));
                assert(b =~= seq![b[0]] + b.skip(1));
            }
        } else {
            lemma_component_total(a[0], b[0]);
        }
    } else if a.len() == 0 && b.len() == 0 {
        assert(a =~= b);
    }
}

proof fn lemma_components_trans(a: Seq<Seq<char>>, b: Seq<Seq<char>>, c: Seq<Seq<char>>)
    requires
        components_before(a, b),
        components_before(b, c),
    ensures
        components_before(a, c),
    decreases a.len(),
{
    if a.len() > 0 && b.len() > 0 && c.len() > 0 {
        if a[0] == b[0] && b[0] == c[0] {
            lemma_components_trans(a.skip(1), b.skip(1), c.skip(1));
        } else if a[0] != b[0] && b[0] != c[0] {
            if before(a[0], b[0]) && before(b[0], c[0]) {
                lemma_before_trans(a[0], b[0], c[0]);
            }
            lemma_component_total(a[0], b[0]);
            lemma_component_total(b[0], c[0]);
        }
    }
}

/// The order on paths is a strict total order, up to the spelling of a path.
pub proof fn lemma_path_total(a: Seq<char>, b: Seq<char>)
    ensures
        path_before(a, b) ==> !path_before(b, a) && !same_path(a, b),
        !path_before(a, b) && !path_before(b, a) ==> same_path(a, b),
{
    lemma_components_total(components(a), components(b));
    lemma_components_total(components(a), components(a));
}

/// The order on paths is transitive.
pub proof fn lemma_path_trans(a: Seq<char>, b: Seq<char>, c: Seq<char>)
    requires
        path_before(a, b),
        path_before(b, c),
    ensures
        path_before(a, c),
{
    if is_absolute(a) == is_absolute(b) && is_absolute(b) == is_absolute(c) {
        lemma_components_trans(components(a), components(b), components(c));
    }
}

} // verus!
