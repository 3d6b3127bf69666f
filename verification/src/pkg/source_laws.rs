//! Spellings of a source, and how revisions and branches are shown.
use crate::pkg::closure::{clash, Work};
use crate::pkg::ensure::{new_lock, refusal, EnsureOptions};
use crate::pkg::fetch::{scratch_name, scratch_path};
use crate::pkg::remote::{request, short, tag_label, within_bytes, Versioned};
use crate::pkg::report::{deeper, described, no_dependency, twig_text, Twig};
use crate::manifest::lock::{
    by_name, law_lockfile_reads_back, law_pins_sorted, lemma_lock_doc_plain, lemma_writable_sorted,
    lock_doc, locked, writable_pins,
};
use crate::manifest::Pin;
use crate::paths::joined;
use crate::source::{
    last_segment, local_form, name_char, normal_source, slashes, suggested_name, undecorated,
    url_of,
};
use crate::text::{
    decimal, digits, drop_end, drop_start, ends, is_alpha, is_digit, is_space, rfind, starts, trim, Class,
};
use crate::text_laws::{
    law_digits_read_back, law_rfind_gives_the_last_place, law_trim_drops_the_space_around,
};
use crate::tomldoc::{doc_text, reads_back, Tree};
use crate::utf8::{size, width};
use crate::versions::{req_parses, valid_req};
use vstd::prelude::*;

verus! {

/// A text that trimming leaves alone.
pub open spec fn is_trimmed(s: Seq<char>) -> bool {
    s.len() > 0 && !is_space(s[0]) && !is_space(s.last())
}

proof fn lemma_trimmed(s: Seq<char>)
    requires
        is_trimmed(s),
    ensures
        trim(s) == s,
{
    let r = law_trim_drops_the_space_around(s);
    if r.0 > 0 {
        assert(is_space(s[0]));
    }
    if r.1 < s.len() {
        assert(is_space(s[s.len() - 1]));
    }
    assert(s.subrange(0, s.len() as int) =~= s);
}

/// A trailing `.git` and trailing slashes do not belong to a source.
pub proof fn law_git_ending_is_dropped(s: Seq<char>)
    requires
        s.len() > 0,
        s.last() != '/',
        !ends(s, ".git"@),
    ensures
        undecorated(s) == s,
        undecorated(s + ".git"@) == s,
        undecorated(s + "/"@) == s,
        undecorated(s + ".git/"@) == s,
{
    reveal_strlit(".git");
    reveal_strlit("/");
    reveal_strlit(".git/");
    let c = Class::Only('/');
    assert(drop_end(s, c) == s);
    let g = s + ".git"@;
    assert(g.last() == 't');
    assert(drop_end(g, c) == g);
    assert(g.skip(g.len() - 4) =~= ".git"@);
    assert(g.take(g.len() - 4) =~= s);
    let t = s + "/"@;
    assert(t.drop_last() =~= s);
    assert(drop_end(t, c) == drop_end(s, c));
    let h = s + ".git/"@;
    assert(h.drop_last() =~= g);
    assert(drop_end(h, c) == drop_end(g, c));
}

/// One repository has one normal form, with or without `https://` and `.git`.
pub proof fn law_spellings_of_a_repository_agree(s: Seq<char>)
    requires
        is_trimmed(s),
        s.last() != '/',
        !ends(s, ".git"@),
    ensures
        normal_source("https://"@ + s) == s,
        normal_source("https://"@ + (s + ".git"@)) == s,
        normal_source("https://"@ + (s + "/"@)) == s,
        normal_source("http://"@ + s) == s,
        normal_source("http://"@ + (s + ".git"@)) == s,
{
    reveal_strlit("https://");
    reveal_strlit("http://");
    reveal_strlit(".git");
    reveal_strlit("/");
    law_git_ending_is_dropped(s);
    lemma_scheme(s);
    lemma_scheme(s + ".git"@);
    lemma_scheme(s + "/"@);
}

proof fn lemma_scheme(s: Seq<char>)
    requires
        s.len() > 0,
        !is_space(s.last()),
    ensures
        normal_source("https://"@ + s) == undecorated(s),
        normal_source("http://"@ + s) == undecorated(s),
{
    reveal_strlit("https://");
    reveal_strlit("http://");
    let a = "https://"@ + s;
    let b = "http://"@ + s;
    assert(a[0] == 'h' && b[0] == 'h');
    assert(a.last() == s.last() && b.last() == s.last());
    lemma_trimmed(a);
    lemma_trimmed(b);
    assert(a.take(8) =~= "https://"@);
    assert(a.skip(8) =~= s);
    assert(b.take(7) =~= "http://"@);
    assert(b.skip(7) =~= s);
    assert(!starts(b, "https://"@)) by {
        if starts(b, "https://"@) {
            assert(b.take(8)[4] == "https://"@[4]);
        }
    }
}

/// A network share is cloned from that share, with slashes.
pub proof fn law_shares_lead_back(t: Seq<char>)
    requires
        t.len() > 0,
        t[0] != '/' && t[0] != '\\',
    ensures
        url_of(local_form("\\\\"@ + t)) == "//"@ + slashes(t),
{
    reveal_strlit("\\\\");
    reveal_strlit("//");
    reveal_strlit("/");
    reveal_strlit("local/__unc__");
    reveal_strlit("local/__drive_");
    let s = "\\\\"@ + t;
    assert(s.take(2) =~= "\\\\"@);
    assert(s.skip(2) =~= t);
    let u = slashes(t);
    assert(u[0] == t[0]);
    assert(drop_start(u, Class::Only('/')) == u);
    let g = local_form(s);
    assert(g =~= "local/__unc__"@ + ("/"@ + u));
    assert(g.take(13) =~= "local/__unc__"@);
    assert(!starts(g, "local/__drive_"@)) by {
        if starts(g, "local/__drive_"@) {
            assert(g.take(14)[8] == "local/__drive_"@[8]);
        }
    }
    assert(g.skip(13) =~= "/"@ + u);
    assert(url_of(g) =~= "//"@ + u);
}

/// The suggested name is the last segment in small letters, with `_` for what no
/// name may hold, and in front of a digit.
pub proof fn law_suggested_name_is_the_last_segment(q: Seq<char>, n: Seq<char>, i: int)
    requires
        0 <= i < n.len(),
        !n.contains('/'),
    ensures
        ({
            let name = suggested_name(q + "/"@ + n);
            let at = name.len() - n.len() + i;
            &&& name.len() == n.len() + if is_digit(n[0]) {
                1int
            } else {
                0int
            }
            &&& is_digit(n[0]) ==> name[0] == '_'
            &&& 'A' <= n[i] <= 'Z' ==> name[at] as int == n[i] as int + 32
            &&& 'a' <= n[i] <= 'z' || is_digit(n[i]) ==> name[at] == n[i]
            &&& !is_alpha(n[i]) && !is_digit(n[i]) ==> name[at] == '_'
        }),
{
    reveal_strlit("/");
    lemma_last_segment(q, n);
    lemma_name_char(n[i]);
    lemma_name_char(n[0]);
    let plain = n.map_values(|c: char| name_char(c));
    assert(plain[i] == name_char(n[i]));
    assert(plain[0] == name_char(n[0]));
}

proof fn lemma_last_segment(q: Seq<char>, n: Seq<char>)
    requires
        !n.contains('/'),
    ensures
        last_segment(q + "/"@ + n) == n,
{
    reveal_strlit("/");
    let s = q + "/"@ + n;
    let p = "/"@;
    law_rfind_gives_the_last_place(s, p);
    let k = q.len() as int;
    assert(s.subrange(k, k + p.len()) =~= p);
    let r = rfind(s, p)->0;
    assert(s.subrange(r, r + p.len())[0] == s[r]);
    if r > k {
        assert(s[r] == n[r - k - 1]);
        assert(n.contains('/'));
    }
    assert(s.skip(k + 1) =~= n);
}

proof fn lemma_name_char(c: char)
    ensures
        'A' <= c <= 'Z' ==> name_char(c) as int == c as int + 32,
        'a' <= c <= 'z' || is_digit(c) ==> name_char(c) == c,
        !is_alpha(c) && !is_digit(c) ==> name_char(c) == '_',
        is_digit(name_char(c)) <==> is_digit(c),
{
    if 'A' <= c <= 'Z' {
        let m = ((c as u32) + 32) as u32;
        assert(m <= 122);
        assert((m as char) as int == m as int);
    }
}

/// A request counts without the white space around it, and a blank one asks for
/// nothing.
pub proof fn law_blank_requests_ask_for_nothing(r: &str)
    ensures
        request(None) is None,
        request(Some(r)) is None <==> trim(r@).len() == 0,
        request(Some(r)) is Some ==> request(Some(r)) == Some(trim(r@)),
{
}

proof fn lemma_within(s: Seq<char>, room: int) -> (k: int)
    requires
        room >= 0,
    ensures
        0 <= k <= s.len(),
        within_bytes(s, room) == s.take(k),
        size(s.take(k)) <= room,
        k < s.len() ==> size(s.take(k)) + width(s[k]) > room,
    decreases s.len(),
{
    if s.len() == 0 || width(s[0]) > room {
        assert(s.take(0) =~= Seq::<char>::empty());
        0
    } else {
        let k = lemma_within(s.skip(1), room - width(s[0]));
        assert(s.take(k + 1) =~= seq![s[0]] + s.skip(1).take(k));
        assert(s.take(k + 1).skip(1) =~= s.skip(1).take(k));
        k + 1
    }
}

/// A commit is shown by its first twelve bytes, and never by a part of a
/// character.
pub proof fn law_commits_are_shortened(rev: Seq<char>) -> (k: int)
    ensures
        0 <= k <= rev.len(),
        short(rev) == rev.take(k),
        size(short(rev)) <= 12,
        k < rev.len() ==> size(short(rev)) + width(rev[k]) > 12,
{
    lemma_within(rev, 12)
}

/// A tag that is a version is shown as that version, any other by its name.
pub proof fn law_version_tags_are_shown_as_versions(s: Seq<Versioned>, tag: Seq<char>)
    ensures
        (forall|i: int| 0 <= i < s.len() ==> (#[trigger] s[i]).tag != tag) ==> tag_label(s, tag)
            == tag,
        (exists|i: int| 0 <= i < s.len() && (#[trigger] s[i]).tag == tag) ==> exists|i: int|
            0 <= i < s.len() && (#[trigger] s[i]).tag == tag && tag_label(s, tag) == s[i].version,
    decreases s.len(),
{
    if s.len() > 0 && s[0].tag != tag {
        let rest = s.skip(1);
        law_version_tags_are_shown_as_versions(rest, tag);
        if forall|i: int| 0 <= i < s.len() ==> (#[trigger] s[i]).tag != tag {
            assert forall|i: int| 0 <= i < rest.len() implies (#[trigger] rest[i]).tag != tag by {
                assert(rest[i] == s[i + 1]);
            }
        }
        if exists|i: int| 0 <= i < s.len() && (#[trigger] s[i]).tag == tag {
            let i = choose|i: int| 0 <= i < s.len() && (#[trigger] s[i]).tag == tag;
            assert(rest[i - 1].tag == tag);
            let k = choose|k: int|
                0 <= k < rest.len() && (#[trigger] rest[k]).tag == tag && tag_label(rest, tag)
                    == rest[k].version;
            assert(s[k + 1].tag == tag);
        }
    } else if s.len() > 0 {
        assert(s[0].tag == tag);
    }
}

/// A branch of the tree is drawn from its parent's margin. Below a last branch
/// the margin stays empty; below any other a bar leads on to the next one.
pub proof fn law_bars_lead_to_the_next_branch(t: Twig, pin: Option<Pin>)
    ensures
        starts(twig_text(t, pin), t.prefix),
        t.last ==> twig_text(t, pin)[t.prefix.len() as int] == '└',
        !t.last ==> twig_text(t, pin)[t.prefix.len() as int] == '├',
        deeper(t).len() == t.prefix.len() + 4,
        starts(deeper(t), t.prefix),
        t.last ==> deeper(t)[t.prefix.len() as int] == ' ',
        !t.last ==> deeper(t)[t.prefix.len() as int] == '│',
        forall|i: int|
            t.prefix.len() < i < t.prefix.len() + 4 ==> #[trigger] deeper(t)[i] == ' ',
{
    reveal_strlit("└── ");
    reveal_strlit("├── ");
    reveal_strlit("    ");
    reveal_strlit("│   ");
    assert(twig_text(t, pin).take(t.prefix.len() as int) =~= t.prefix);
    assert(deeper(t).take(t.prefix.len() as int) =~= t.prefix);
}

/// A refused run is told why, and how many dependencies lack a pin and how many a
/// slot: offline before frozen.
pub proof fn law_refusals_count_what_is_missing(
    opts: EnsureOptions,
    pkg_root: Seq<char>,
    missing: nat,
    bad: nat,
)
    ensures
        refusal(opts, pkg_root, missing, bad) is Some <==> opts.offline || opts.frozen,
        opts.offline ==> starts(
            refusal(opts, pkg_root, missing, bad)->0,
            "dependencies missing from "@ + pkg_root + " ("@ + decimal(missing as int)
                + " unpinned, "@ + decimal(bad as int) + " unfetched)"@,
        ),
        opts.frozen && !opts.offline ==> starts(
            refusal(opts, pkg_root, missing, bad)->0,
            "lockfile out of date ("@ + decimal(missing as int) + " unpinned, "@ + decimal(
                bad as int,
            ) + " unfetched)"@,
        ),
{
    reveal_strlit("(");
    reveal_strlit(" ");
    reveal_strlit(" (");
    reveal_strlit("lockfile out of date ");
    reveal_strlit("lockfile out of date (");
    let tail = decimal(missing as int) + " unpinned, "@ + decimal(bad as int) + " unfetched)"@;
    let m = refusal(opts, pkg_root, missing, bad)->0;
    if opts.offline {
        let head = "dependencies missing from "@ + pkg_root + " ("@ + decimal(missing as int)
            + " unpinned, "@ + decimal(bad as int) + " unfetched)"@;
        assert(m.take(head.len() as int) =~= head);
    } else if opts.frozen {
        let head = "lockfile out of date ("@ + decimal(missing as int) + " unpinned, "@ + decimal(
            bad as int,
        ) + " unfetched)"@;
        assert(m.take(head.len() as int) =~= head);
    }
}

/// A clash names the dependency and both sides of it: the two sources, or the
/// version that is pinned and the request that it does not meet.
pub proof fn law_clashes_name_both_sides(w: Work, p: Pin, fits: Option<bool>)
    ensures
        clash(w, p, fits) is Some <==> p.git != w.git || fits == Some(false),
        p.git != w.git ==> starts(
            clash(w, p, fits)->0,
            "dependency name conflict: `"@ + w.name + "` comes from both `"@ + p.git + "` and `"@
                + w.git + "`"@,
        ),
        p.git == w.git && fits == Some(false) ==> starts(
            clash(w, p, fits)->0,
            "conflicting requirements for `"@ + w.name + "`: `"@ + p.version
                + "` does not satisfy `"@ + w.req + "`"@,
        ),
{
    reveal_strlit("`");
    reveal_strlit("` (rename one with `hella add <url> --name <name>`)");
    reveal_strlit("` (pin an explicit version in hella.toml)");
    let m = clash(w, p, fits)->0;
    if p.git != w.git {
        let head = "dependency name conflict: `"@ + w.name + "` comes from both `"@ + p.git
            + "` and `"@ + w.git + "`"@;
        assert(m.take(head.len() as int) =~= head);
    } else if fits == Some(false) {
        let head = "conflicting requirements for `"@ + w.name + "`: `"@ + p.version
            + "` does not satisfy `"@ + w.req + "`"@;
        assert(m.take(head.len() as int) =~= head);
    }
}

/// A lockfile that is written holds the new pins: whoever reads it back gets them,
/// by name, and not the old ones.
pub proof fn law_written_locks_hold_the_new_pins(
    old_pins: Seq<Pin>,
    now: Seq<Pin>,
    r: Result<Tree, Seq<char>>,
)
    requires
        old_pins != now,
        writable_pins(now),
        new_lock(old_pins, now) is Some ==> reads_back(new_lock(old_pins, now)->0, r),
    ensures
        new_lock(old_pins, now) is Some,
        r matches Ok(v) && locked(v) == Ok::<Seq<Pin>, Seq<char>>(by_name(now)),
{
    let s = by_name(now);
    law_pins_sorted(now);
    lemma_writable_sorted(now);
    lemma_lock_doc_plain(s);
    let gs = lock_doc(s);
    let text = new_lock(old_pins, now)->0;
    assert(text == doc_text(gs, gs.len() as int));
    law_lockfile_reads_back(s, r->Ok_0);
}

/// Two runs, and two fetches of one run, never share a scratch directory, and each
/// stands in the cache.
pub proof fn law_scratch_places_are_apart(
    cache: Seq<char>,
    kind: Seq<char>,
    pid: nat,
    nonce: nat,
    pid2: nat,
    nonce2: nat,
)
    ensures
        scratch_path(cache, kind, pid as int, nonce as int) == joined(
            cache,
            scratch_name(kind, pid as int, nonce as int),
        ),
        scratch_name(kind, pid as int, nonce as int) == scratch_name(
            kind,
            pid2 as int,
            nonce2 as int,
        ) ==> pid == pid2 && nonce == nonce2,
{
    reveal_strlit("-");
    let a = scratch_name(kind, pid as int, nonce as int);
    let b = scratch_name(kind, pid2 as int, nonce2 as int);
    law_digits_read_back(pid);
    law_digits_read_back(pid2);
    law_digits_read_back(nonce);
    law_digits_read_back(nonce2);
    let n = kind.len() as int;
    let x = digits(pid);
    let y = digits(pid2);
    assert(a[n + x.len()] == '-');
    assert(b[n + y.len()] == '-');
    if a == b {
        if x.len() < y.len() {
            assert(b[n + x.len()] == y[x.len() as int]);
            assert(is_digit(y[x.len() as int]));
        }
        if y.len() < x.len() {
            assert(a[n + y.len()] == x[y.len() as int]);
            assert(is_digit(x[y.len() as int]));
        }
        assert(a.subrange(n, n + x.len()) =~= x);
        assert(b.subrange(n, n + y.len()) =~= y);
        assert(a.skip(n + x.len() + 1) =~= digits(nonce));
        assert(b.skip(n + y.len() + 1) =~= digits(nonce2));
    }
}

/// A dependency is shown with its version, its source and its commit, or as
/// unpinned.
pub proof fn law_dependencies_are_shown_with_their_pins(name: Seq<char>, p: Pin)
    ensures
        described(name, Some(p)) == name + " "@ + p.version + " ("@ + p.git + " @"@ + short(p.rev)
            + ")"@,
        described(name, None) == name + " (unpinned)"@,
        starts(no_dependency(name), "no dependency named `"@ + name + "`"@),
{
    reveal_strlit("`");
    reveal_strlit("` (see `[dependencies]` in hella.toml)");
    let head = "no dependency named `"@ + name + "`"@;
    assert(no_dependency(name).take(head.len() as int) =~= head);
}

/// A version request is `latest`, `*` or a range, white space around it aside.
pub proof fn law_requests_are_ranges_or_floating(req: Seq<char>)
    ensures
        valid_req(req) <==> trim(req) == "latest"@ || trim(req) == "*"@ || req_parses(trim(req)),
{
}

} // verus!
