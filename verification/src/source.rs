//! Where dependencies come from: git sources in their normal form.
//!
//! The normal form is host and path without scheme (`github.com/owner/repo`).
//! Local directories are kept under `local/`: `/srv/lib` is
//! `local/srv/lib`, `C:\lib` is `local/__drive_C/lib`, and the share
//! `\\host\lib` is `local/__unc__/host/lib`, so that every form can serve as a
//! relative path on every system.
use crate::manifest::{name_part, valid_name};
use crate::text::{
    chars_of, copy_chars, drop_end, drop_end_chars, ends, ends_with, extend, find_char, first,
    is_alpha, is_alpha_char, is_digit, is_digit_char, part, rfind, rfind_chars, starts, starts_with, string_of, trim,
    trim_chars, Class,
};
use vstd::prelude::*;
use vstd::string::*;

verus! {

/// `s` with every backslash turned into a slash.
pub open spec fn slashes(s: Seq<char>) -> Seq<char> {
    Seq::new(
        s.len(),
        |i: int|
            if s[i] == '\\' {
                '/'
            } else {
                s[i]
            },
    )
}

/// `s` without trailing slashes and one `.git` behind its name.
pub open spec fn undecorated(s: Seq<char>) -> Seq<char> {
    let t = drop_end(s, Class::Only('/'));
    if ends(t, ".git"@) {
        t.take(t.len() - 4)
    } else {
        t
    }
}

/// `C:`, `C:\...` or `C:/...`.
pub open spec fn is_drive(s: Seq<char>) -> bool {
    s.len() >= 2 && is_alpha(s[0]) && s[1] == ':' && (s.len() == 2 || s[2] == '/' || s[2] == '\\')
}

/// The path below a drive or share, without leading slashes, after `/`.
pub open spec fn below(s: Seq<char>) -> Seq<char> {
    let t = crate::text::drop_start(slashes(s), Class::Only('/'));
    if t.len() == 0 {
        t
    } else {
        "/"@ + t
    }
}

/// A local path in normal form.
pub open spec fn local_form(s: Seq<char>) -> Seq<char> {
    if is_drive(s) {
        "local/__drive_"@ + seq![s[0]] + below(s.skip(2))
    } else if starts(s, "\\\\"@) {
        "local/__unc__"@ + below(s.skip(2))
    } else {
        "local"@ + s
    }
}

/// `owner/repo`: two names, the first of which is no host.
pub open spec fn is_short(s: Seq<char>) -> bool {
    let k = first(s, '/');
    &&& 0 < k < s.len() - 1
    &&& !s.skip(k + 1).contains('/')
    &&& !s.take(k).contains('.')
    &&& !s.take(k).contains(':')
}

/// A source without scheme, in normal form.
pub open spec fn normal_path(s: Seq<char>) -> Seq<char> {
    if starts(s, "/"@) || is_drive(s) || starts(s, "\\\\"@) {
        local_form(s)
    } else if starts(s, "local/"@) {
        if is_drive(s.skip(6)) {
            local_form(s.skip(6))
        } else {
            s
        }
    } else {
        s
    }
}

/// A leading scheme that [`normal_source`] takes away.
pub open spec fn has_scheme(s: Seq<char>) -> bool {
    starts(s, "https://"@) || starts(s, "http://"@) || starts(s, "file://"@)
}

/// The normal form of a git source.
pub open spec fn normal_source(raw: Seq<char>) -> Seq<char> {
    let s = trim(raw);
    if starts(s, "https://"@) {
        undecorated(s.skip(8))
    } else if starts(s, "http://"@) {
        undecorated(s.skip(7))
    } else if starts(s, "file://"@) {
        let p = undecorated(s.skip(7));
        if p.len() == 0 {
            p
        } else {
            local_form(p)
        }
    } else {
        normal_path(undecorated(s))
    }
}

/// The normal form of a source that is to be added, where `owner/repo` without
/// a scheme means GitHub.
pub open spec fn added_source(raw: Seq<char>) -> Seq<char> {
    let s = normal_source(raw);
    if is_short(s) && !has_scheme(trim(raw)) && !starts(s, "local/"@) {
        "github.com/"@ + s
    } else {
        s
    }
}

fn undecorate(s: &Vec<char>) -> (r: Vec<char>)
    ensures
        r@ == undecorated(s@),
{
    let t = drop_end_chars(s, Class::Only('/'));
    proof {
        reveal_strlit(".git");
    }
    if ends_with(&t, ".git") {
        let r = part(&t, 0, t.len() - 4);
        assert(r@ =~= t@.take(t@.len() - 4));
        r
    } else {
        t
    }
}

fn has_drive(s: &Vec<char>) -> (r: bool)
    ensures
        r == is_drive(s@),
{
    s.len() >= 2 && is_alpha_char(s[0]) && s[1] == ':' && (s.len() == 2 || s[2] == '/' || s[2]
        == '\\')
}

fn to_slashes(s: &Vec<char>) -> (r: Vec<char>)
    ensures
        r@ == slashes(s@),
{
    let mut out: Vec<char> = Vec::new();
    let mut i: usize = 0;
    while i < s.len()
        invariant
            i <= s@.len(),
            out@ =~= slashes(s@).take(i as int),
        decreases s@.len() - i,
    {
        let c: char = s[i];
        if c == '\\' {
            out.push('/');
        } else {
            out.push(c);
        }
        i += 1;
    }
    assert(out@ =~= slashes(s@));
    out
}

/// Puts what stands below a drive or share behind `out`.
fn push_below(out: &mut Vec<char>, s: &Vec<char>)
    ensures
        final(out)@ == old(out)@ + below(s@),
{
    let t = crate::text::drop_start_chars(&to_slashes(s), Class::Only('/'));
    proof {
        reveal_strlit("/");
    }
    if t.len() > 0 {
        out.push('/');
        extend(out, &t);
    }
    assert(out@ =~= old(out)@ + below(s@));
}

fn skip(s: &Vec<char>, n: usize) -> (r: Vec<char>)
    requires
        n <= s@.len(),
    ensures
        r@ == s@.skip(n as int),
{
    let r = part(s, n, s.len());
    assert(r@ =~= s@.skip(n as int));
    r
}

fn to_local(s: &Vec<char>) -> (r: Vec<char>)
    ensures
        r@ == local_form(s@),
{
    proof {
        reveal_strlit("\\\\");
    }
    if has_drive(s) {
        let mut out = chars_of("local/__drive_");
        out.push(s[0]);
        assert(out@ =~= "local/__drive_"@ + seq![s@[0]]);
        push_below(&mut out, &skip(s, 2));
        out
    } else if starts_with(s, "\\\\") {
        let mut out = chars_of("local/__unc__");
        push_below(&mut out, &skip(s, 2));
        out
    } else {
        let mut out = chars_of("local");
        extend(&mut out, s);
        out
    }
}

fn has_short_form(s: &Vec<char>) -> (r: bool)
    ensures
        r == is_short(s@),
{
    let k = find_char(s, '/');
    if k == 0 || k >= s.len() || k == s.len() - 1 {
        return false;
    }
    let owner = part(s, 0, k);
    assert(owner@ =~= s@.take(k as int));
    let repo = skip(s, k + 1);
    find_char(&repo, '/') == repo.len() && find_char(&owner, '.') == owner.len() && find_char(
        &owner,
        ':',
    ) == owner.len()
}

fn normalize_path(s: &Vec<char>) -> (r: Vec<char>)
    ensures
        r@ == normal_path(s@),
{
    proof {
        reveal_strlit("local/");
    }
    if starts_with(s, "/") || has_drive(s) || starts_with(s, "\\\\") {
        to_local(s)
    } else if starts_with(s, "local/") {
        let rest = skip(s, 6);
        if has_drive(&rest) {
            to_local(&rest)
        } else {
            copy_chars(s)
        }
    } else {
        copy_chars(s)
    }
}

/// Normalizes a git source: white space around it, one leading `https://` or
/// `http://`, trailing slashes and a `.git` suffix go; local paths, with or
/// without `file://`, move under `local/`. An empty result is for the caller to
/// reject.
pub fn normalize_git_source(raw: &str) -> (r: String)
    ensures
        r@ == normal_source(raw@),
{
    proof {
        reveal_strlit("https://");
        reveal_strlit("http://");
        reveal_strlit("file://");
    }
    let s = trim_chars(&chars_of(raw));
    let v = if starts_with(&s, "https://") {
        undecorate(&skip(&s, 8))
    } else if starts_with(&s, "http://") {
        undecorate(&skip(&s, 7))
    } else if starts_with(&s, "file://") {
        let p = undecorate(&skip(&s, 7));
        if p.len() == 0 {
            p
        } else {
            to_local(&p)
        }
    } else {
        normalize_path(&undecorate(&s))
    };
    string_of(&v)
}

/// Normalizes a source that is to be added. As for any source, except that
/// `owner/repo` without a scheme means GitHub.
pub fn normalize_added_source(raw: &str) -> (r: String)
    ensures
        r@ == added_source(raw@),
{
    let git = normalize_git_source(raw);
    let s = chars_of(git.as_str());
    let t = trim_chars(&chars_of(raw));
    let scheme: bool = starts_with(&t, "https://") || starts_with(&t, "http://") || starts_with(
        &t,
        "file://",
    );
    if has_short_form(&s) && !scheme && !starts_with(&s, "local/") {
        let mut out = chars_of("github.com/");
        extend(&mut out, &s);
        string_of(&out)
    } else {
        git
    }
}

// ---------------------------------------------------------------------------
// Back to something git can clone
// ---------------------------------------------------------------------------

/// What git clones a source from.
pub open spec fn url_of(git: Seq<char>) -> Seq<char> {
    if starts(git, "local/__drive_"@) && git.len() > 14 {
        seq![git[14]] + ":"@ + git.skip(15)
    } else if starts(git, "local/__unc__"@) {
        "/"@ + git.skip(13)
    } else if starts(git, "local/"@) {
        git.skip(5)
    } else {
        "https://"@ + git
    }
}

/// The URL or path that git clones a normalized source from.
pub fn clone_url(git: &str) -> (r: String)
    ensures
        r@ == url_of(git@),
{
    proof {
        reveal_strlit("local/__drive_");
        reveal_strlit("local/__unc__");
        reveal_strlit("local/");
    }
    let g = chars_of(git);
    if starts_with(&g, "local/__drive_") && g.len() > 14 {
        let mut out: Vec<char> = Vec::new();
        out.push(g[14]);
        extend(&mut out, &chars_of(":"));
        extend(&mut out, &skip(&g, 15));
        assert(out@ =~= url_of(git@));
        string_of(&out)
    } else if starts_with(&g, "local/__unc__") {
        let mut out = chars_of("/");
        extend(&mut out, &skip(&g, 13));
        string_of(&out)
    } else if starts_with(&g, "local/") {
        string_of(&skip(&g, 5))
    } else {
        let mut out = chars_of("https://");
        extend(&mut out, &g);
        string_of(&out)
    }
}

// ---------------------------------------------------------------------------
// Names
// ---------------------------------------------------------------------------

pub open spec fn lower(c: char) -> char {
    if 'A' <= c <= 'Z' {
        ((c as u32) + 32) as u32 as char
    } else {
        c
    }
}

/// A character of a repository name, as a character of an import name: in lower
/// case, and `_` for one that no name may hold.
pub open spec fn name_char(c: char) -> char {
    if is_alpha(c) || is_digit(c) {
        lower(c)
    } else {
        '_'
    }
}

/// The last segment of a source.
pub open spec fn last_segment(git: Seq<char>) -> Seq<char> {
    match rfind(git, "/"@) {
        Some(k) => git.skip(k + 1),
        None => git,
    }
}

/// The import name that a source suggests: its last segment, with `_` in front
/// of a leading digit.
pub open spec fn suggested_name(git: Seq<char>) -> Seq<char> {
    let name = last_segment(git).map_values(|c: char| name_char(c));
    if name.len() > 0 && is_digit(name[0]) {
        seq!['_'] + name
    } else {
        name
    }
}

fn to_name_char(c: char) -> (r: char)
    ensures
        r == name_char(c),
{
    if 'A' <= c && c <= 'Z' {
        ((c as u8) + 32) as char
    } else if is_alpha_char(c) || is_digit_char(c) {
        c
    } else {
        '_'
    }
}

/// The short import name of a source: its last segment in lower case, with `_`
/// for what no name may hold, so that a directory such as `my@dir` has one too.
pub fn derive_dep_name(git: &str) -> (r: String)
    ensures
        r@ == suggested_name(git@),
{
    proof {
        reveal_strlit("/");
    }
    let g = chars_of(git);
    let seg = match rfind_chars(&g, "/") {
        Some(k) => {
            assert(k + 1 <= g.len());
            skip(&g, k + 1)
        },
        None => copy_chars(&g),
    };
    let mut out: Vec<char> = Vec::new();
    let mut i: usize = 0;
    while i < seg.len()
        invariant
            i <= seg@.len(),
            out@ =~= seg@.take(i as int).map_values(|c: char| name_char(c)),
        decreases seg@.len() - i,
    {
        out.push(to_name_char(seg[i]));
        i += 1;
    }
    assert(seg@.take(i as int) =~= seg@);
    let ghost name = out@;
    if out.len() > 0 && is_digit_char(out[0]) {
        let mut led: Vec<char> = Vec::new();
        led.push('_');
        extend(&mut led, &out);
        assert(led@ =~= seq!['_'] + name);
        return string_of(&led);
    }
    string_of(&out)
}

// ---------------------------------------------------------------------------
// Laws
// ---------------------------------------------------------------------------

proof fn lemma_undecorated_plain(s: Seq<char>)
    requires
        s.len() > 0,
        s.last() != '/',
        !ends(s, ".git"@),
    ensures
        undecorated(s) == s,
{
}

/// An absolute path without white space around it, trailing slash or `.git`
/// suffix is cloned from where it was: normalizing it and asking for its URL
/// gives the path back.
pub proof fn law_local_path_is_cloned_from_itself(path: Seq<char>)
    requires
        path.len() > 1,
        path[0] == '/',
        trim(path) == path,
        path.last() != '/',
        !ends(path, ".git"@),
        !starts(path, "/__drive_"@),
        !starts(path, "/__unc__"@),
    ensures
        normal_source(path) == "local"@ + path,
        url_of(normal_source(path)) == path,
{
    reveal_strlit("https://");
    reveal_strlit("http://");
    reveal_strlit("file://");
    reveal_strlit("/");
    reveal_strlit("\\\\");
    reveal_strlit("local");
    reveal_strlit("local/");
    reveal_strlit("local/__drive_");
    reveal_strlit("local/__unc__");
    reveal_strlit("/__drive_");
    reveal_strlit("/__unc__");
    lemma_undecorated_plain(path);
    assert(path.take(8)[0] == '/' || path.len() < 8);
    assert(!starts(path, "https://"@)) by {
        if starts(path, "https://"@) {
            assert(path.take(8)[0] == "https://"@[0]);
        }
    }
    assert(!starts(path, "http://"@)) by {
        if starts(path, "http://"@) {
            assert(path.take(7)[0] == "http://"@[0]);
        }
    }
    assert(!starts(path, "file://"@)) by {
        if starts(path, "file://"@) {
            assert(path.take(7)[0] == "file://"@[0]);
        }
    }
    assert(path.take(1) =~= "/"@);
    assert(!starts(path, "\\\\"@)) by {
        if starts(path, "\\\\"@) {
            assert(path.take(2)[0] == "\\\\"@[0]);
        }
    }
    let g = "local"@ + path;
    assert(normal_source(path) == g);
    assert(!starts(g, "local/__drive_"@)) by {
        if starts(g, "local/__drive_"@) {
            assert forall|i: int| 0 <= i < 9 implies path.take(9)[i] == "/__drive_"@[i] by {
                assert(g.take(14)[i + 5] == "local/__drive_"@[i + 5]);
            }
            assert(path.take(9) =~= "/__drive_"@);
        }
    }
    assert(!starts(g, "local/__unc__"@)) by {
        if starts(g, "local/__unc__"@) {
            assert forall|i: int| 0 <= i < 8 implies path.take(8)[i] == "/__unc__"@[i] by {
                assert(g.take(13)[i + 5] == "local/__unc__"@[i + 5]);
            }
            assert(path.take(8) =~= "/__unc__"@);
        }
    }
    assert(g.take(6) =~= "local/"@);
    assert(g.skip(5) =~= path);
}

/// The name that a source suggests can be imported, unless its last segment is
/// empty or stands for the reserved `std`.
pub proof fn law_suggested_names_are_valid(git: Seq<char>)
    requires
        last_segment(git).len() > 0,
        suggested_name(git) != "std"@,
    ensures
        valid_name(suggested_name(git)),
{
    let seg = last_segment(git);
    let name = seg.map_values(|c: char| name_char(c));
    assert forall|i: int| 0 <= i < name.len() implies name_part(#[trigger] name[i]) by {
        assert(name[i] == name_char(seg[i]));
        lemma_lower(seg[i]);
    }
    assert(name_part(name[0]));
    let r = suggested_name(git);
    assert forall|i: int| 0 < i < r.len() implies name_part(#[trigger] r[i]) by {
        if is_digit(name[0]) {
            assert(r[i] == name[i - 1]);
        }
    }
}

proof fn lemma_lower(c: char)
    ensures
        is_alpha(c) ==> is_alpha(lower(c)),
        is_digit(c) ==> lower(c) == c,
{
}

/// What is recorded of an added source is read back as that source: normalizing
/// it again changes nothing, unless it still holds something to take away.
pub proof fn law_added_source_is_kept(raw: Seq<char>)
    requires
        ({
            let g = added_source(raw);
            &&& trim(g) == g
            &&& undecorated(g) == g
            &&& !has_scheme(g)
            &&& !starts(g, "/"@)
            &&& !is_drive(g)
            &&& !starts(g, "\\\\"@)
            &&& starts(g, "local/"@) ==> !is_drive(g.skip(6))
        }),
    ensures
        normal_source(added_source(raw)) == added_source(raw),
{
}

/// A scheme makes no difference to a source on a host.
pub proof fn law_scheme_is_dropped(s: Seq<char>)
    requires
        trim("https://"@ + s) == "https://"@ + s,
        trim("http://"@ + s) == "http://"@ + s,
    ensures
        normal_source("https://"@ + s) == undecorated(s),
        normal_source("http://"@ + s) == undecorated(s),
{
    reveal_strlit("https://");
    reveal_strlit("http://");
    let a = "https://"@ + s;
    let b = "http://"@ + s;
    assert(a.take(8) =~= "https://"@);
    assert(a.skip(8) =~= s);
    assert(b.take(7) =~= "http://"@);
    assert(b.skip(7) =~= s);
    assert(!starts(b, "https://"@)) by {
        if starts(b, "https://"@) {
            assert(b.take(8)[4] == "https://"@[4]);
        }
    }
}

} // verus!
