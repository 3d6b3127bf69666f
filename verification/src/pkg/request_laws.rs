//! From what is asked for to a source, a revision and a tool.
use crate::manifest::valid_name;
use crate::names::{ascending, lemma_put_get, pair_get, pair_keys};
use crate::paths::joined;
use crate::pkg::add::{add_request, has_space, source_and_rev};
use crate::pkg::remote::{
    all_fit, as_version, bare_tag, chosen, has_stable, lemma_first_space, lemma_last_fit,
    lemma_tag_read, listed, newest, range_of, spaceless, tag_line, tag_named, version_inserted,
    version_tags, Listing, Tag, Versioned,
};
use crate::pkg::tool::{binaries, exe_name, picked_name, plain_name, prepared, ToolClone};
use crate::source::{
    added_source, has_scheme, is_drive, local_form, normal_source, suggested_name, url_of,
};
use crate::text::{
    ends, first, is_alpha, is_space, lemma_first, opt_text, rfind, starts, trim,
};
use crate::versions::{is_floating, req_accepts, req_parses, version_info};
use vstd::prelude::*;

verus! {

// ---------------------------------------------------------------------------
// What a remote lists
// ---------------------------------------------------------------------------

/// A line for HEAD tells its commit and leaves the tags alone.
pub proof fn law_head_line_tells_head(l: Listing, sha: Seq<char>)
    requires
        spaceless(sha),
        sha.len() > 0,
    ensures
        listed(l, sha + "\t"@ + "HEAD"@).head == Some(sha),
        listed(l, sha + "\t"@ + "HEAD"@).tags == l.tags,
{
    reveal_strlit("\t");
    reveal_strlit("HEAD");
    let line = sha + "\t"@ + "HEAD"@;
    assert(line =~= sha + ("\t"@ + "HEAD"@));
    lemma_first_space(sha, "\t"@ + "HEAD"@);
    assert(line.take(sha.len() as int) =~= sha);
    assert(line.skip(sha.len() as int + 1) =~= "HEAD"@);
    assert(trim(sha) == sha);
    assert(trim("HEAD"@) == "HEAD"@);
}

/// A line for a tag tells its commit, unless the tag is known already, and
/// nothing else.
pub proof fn law_tag_line_tells_its_commit(
    l: Listing,
    sha: Seq<char>,
    tag: Seq<char>,
    other: Seq<char>,
)
    requires
        ascending(pair_keys(l.tags)),
        spaceless(sha),
        tag.len() > 0,
        !is_space(tag.last()),
        !ends(tag, "^{}"@),
        other != tag,
    ensures
        pair_get(l.tags, tag) is None ==> pair_get(listed(l, tag_line(sha, tag)).tags, tag) == Some(
            sha,
        ),
        pair_get(l.tags, tag) is Some ==> listed(l, tag_line(sha, tag)) == l,
        pair_get(listed(l, tag_line(sha, tag)).tags, other) == pair_get(l.tags, other),
        listed(l, tag_line(sha, tag)).head == l.head,
{
    lemma_tag_read(l, sha, tag);
    lemma_put_get(l.tags, tag, sha, tag);
    lemma_put_get(l.tags, tag, sha, other);
}

/// Branches and other references are passed over.
pub proof fn law_other_references_are_passed_over(
    l: Listing,
    sha: Seq<char>,
    reference: Seq<char>,
)
    requires
        spaceless(sha),
        reference.len() > 0,
        !is_space(reference[0]),
        !is_space(reference.last()),
        reference != "HEAD"@,
        !starts(reference, "refs/tags/"@),
    ensures
        listed(l, sha + "\t"@ + reference) == l,
{
    reveal_strlit("\t");
    let line = sha + "\t"@ + reference;
    assert(line =~= sha + ("\t"@ + reference));
    lemma_first_space(sha, "\t"@ + reference);
    assert(line.skip(sha.len() as int + 1) =~= reference);
    assert(trim(reference) == reference);
}

/// A leading `v` of a tag, in either case, is no part of its version; anything
/// else is.
pub proof fn law_leading_v_is_dropped(text: Seq<char>)
    ensures
        bare_tag("v"@ + text) == text,
        bare_tag("V"@ + text) == text,
        text.len() > 0 && text[0] != 'v' && text[0] != 'V' ==> bare_tag(text) == text,
        text.len() == 0 ==> bare_tag(text) == text,
{
    reveal_strlit("v");
    reveal_strlit("V");
    let a = "v"@ + text;
    let b = "V"@ + text;
    assert(a.take(1) =~= "v"@);
    assert(b.take(1) =~= "V"@);
    assert(a.skip(1) =~= text);
    assert(b.skip(1) =~= text);
    if text.len() > 0 {
        assert(text.take(1)[0] == text[0]);
    }
}

proof fn lemma_version_inserted(s: Seq<Versioned>, x: Versioned, y: Versioned)
    ensures
        version_inserted(s, x).contains(y) <==> s.contains(y) || y == x,
    decreases s.len(),
{
    let r = version_inserted(s, x);
    if s.len() == 0 || r == s.push(x) {
        assert(r[r.len() - 1] == x || s.len() == 0);
        let p = s.push(x);
        assert(p[s.len() as int] == x);
        if s.contains(y) {
            let k = choose|k: int| 0 <= k < s.len() && s[k] == y;
            assert(p[k] == y);
        }
        if p.contains(y) {
            let k = choose|k: int| 0 <= k < p.len() && p[k] == y;
            if k < s.len() {
                assert(s[k] == y);
            }
        }
    } else {
        let t = s.drop_last();
        let q = version_inserted(t, x);
        lemma_version_inserted(t, x, y);
        assert(r == q.push(s.last()));
        assert(s[s.len() - 1] == s.last());
        if q.contains(y) {
            let k = choose|k: int| 0 <= k < q.len() && q[k] == y;
            assert(r[k] == y);
        }
        if y == s.last() {
            assert(r[q.len() as int] == y);
        }
        if t.contains(y) {
            let k = choose|k: int| 0 <= k < t.len() && t[k] == y;
            assert(s[k] == y);
        }
        if s.contains(y) {
            let k = choose|k: int| 0 <= k < s.len() && s[k] == y;
            if k < t.len() {
                assert(t[k] == y);
            }
        }
        if r.contains(y) {
            let k = choose|k: int| 0 <= k < r.len() && r[k] == y;
            if k < q.len() {
                assert(q[k] == y);
            }
        }
    }
}

/// The versions of a remote are its tags that read as one, behind a leading `v`,
/// each with its tag and commit, and no others.
pub proof fn law_versions_are_tags(ts: Seq<Tag>, n: int, x: Versioned)
    requires
        0 <= n <= ts.len(),
    ensures
        version_tags(ts, n).contains(x) <==> exists|i: int|
            0 <= i < n && (#[trigger] ts[i]).name == x.tag && ts[i].sha == x.sha && x.text
                == bare_tag(x.tag) && (version_info(x.text) matches Some(v) && v.0 == x.version && (
            x.stable <==> v.1.len() == 0)),
    decreases n,
{
    if n > 0 {
        law_versions_are_tags(ts, n - 1, x);
        match as_version(ts[n - 1]) {
            Some(y) => {
                lemma_version_inserted(version_tags(ts, n - 1), y, x);
            },
            None => {},
        }
    }
}

// ---------------------------------------------------------------------------
// Which revision is chosen
// ---------------------------------------------------------------------------

/// Without a request, or for `latest` and `*`, the newest version is taken; a
/// remote without versions is taken at HEAD, and one without HEAD is an error.
pub proof fn law_no_request_means_newest(
    url: Seq<char>,
    req: Option<Seq<char>>,
    ts: Seq<Tag>,
    head: Option<Seq<char>>,
    s: Seq<Versioned>,
    range: Option<Seq<bool>>,
)
    requires
        req is None || req == Some("latest"@) || req == Some("*"@),
    ensures
        s.len() > 0 ==> (chosen(url, req, ts, head, s, range) matches Ok(c) && exists|i: int|
            0 <= i < s.len() && (#[trigger] s[i]).sha == c.rev && c.tag == Some(s[i].tag) && c.version
                == s[i].version && (has_stable(s) ==> s[i].stable) && !c.needs_rev_parse),
        s.len() == 0 && head is Some ==> (chosen(url, req, ts, head, s, range) matches Ok(c) && c.rev
            == head->0 && c.tag is None && !c.needs_rev_parse),
        s.len() == 0 && head is None ==> chosen(url, req, ts, head, s, range) is Err,
{
    let fits = all_fit(s.len());
    lemma_last_fit(s, fits, has_stable(s), s.len() as int);
    if s.len() > 0 {
        if has_stable(s) {
            let j = choose|j: int| 0 <= j < s.len() && (#[trigger] s[j]).stable;
            assert(fits[j]);
        } else {
            assert(fits[0]);
        }
        let i = newest(s, fits)->0;
        assert(0 <= i < s.len());
        assert(s[i].sha == s[i].sha);
    } else {
        assert(newest(s, fits) is None);
    }
}

/// A version range is met by the newest version in it, or by none: a version that
/// the range rejects is never chosen.
pub proof fn law_ranges_are_respected(
    url: Seq<char>,
    r: Seq<char>,
    ts: Seq<Tag>,
    head: Option<Seq<char>>,
    s: Seq<Versioned>,
)
    requires
        !is_floating(r),
        req_parses(bare_tag(r)),
    ensures
        chosen(url, Some(r), ts, head, s, range_of(Some(r), s)) matches Ok(c) ==> exists|i: int|
            0 <= i < s.len() && c.tag == Some((#[trigger] s[i]).tag) && c.rev == s[i].sha
                && c.version == s[i].version && req_accepts(bare_tag(r), s[i].text)
                && !c.needs_rev_parse,
        chosen(url, Some(r), ts, head, s, range_of(Some(r), s)) is Err <==> forall|i: int|
            0 <= i < s.len() && (has_stable(s) ==> (#[trigger] s[i]).stable) ==> !req_accepts(
                bare_tag(r),
                s[i].text,
            ),
{
    let fits = range_of(Some(r), s)->0;
    lemma_last_fit(s, fits, has_stable(s), s.len() as int);
    match newest(s, fits) {
        Some(i) => {
            assert(fits[i]);
            assert(req_accepts(bare_tag(r), s[i].text));
        },
        None => {
            assert forall|i: int|
                0 <= i < s.len() && (has_stable(s) ==> (#[trigger] s[i]).stable) implies !req_accepts(
                bare_tag(r),
                s[i].text,
            ) by {
                assert(!fits[i]);
            }
        },
    }
}

proof fn lemma_tag_named(ts: Seq<Tag>, name: Seq<char>)
    ensures
        tag_named(ts, name) matches Some(t) ==> t.name == name && ts.contains(t),
        tag_named(ts, name) is None <==> forall|i: int|
            0 <= i < ts.len() ==> (#[trigger] ts[i]).name != name,
    decreases ts.len(),
{
    if ts.len() > 0 {
        let t = ts.skip(1);
        lemma_tag_named(t, name);
        assert(forall|i: int| 0 <= i < t.len() ==> #[trigger] t[i] == ts[i + 1]);
        if ts[0].name == name {
            assert(ts.contains(ts[0]));
        } else {
            if tag_named(t, name) is Some {
                let x = tag_named(t, name)->0;
                let k = choose|k: int| 0 <= k < t.len() && t[k] == x;
                assert(ts[k + 1] == x);
            } else {
                assert forall|i: int| 0 <= i < ts.len() implies (#[trigger] ts[i]).name != name by {
                    if i > 0 {
                        assert(t[i - 1] == ts[i]);
                    }
                }
            }
            if forall|i: int| 0 <= i < ts.len() ==> (#[trigger] ts[i]).name != name {
                assert forall|i: int| 0 <= i < t.len() implies (#[trigger] t[i]).name != name by {
                    assert(t[i] == ts[i + 1]);
                }
            }
        }
    }
}

/// A request that is no range and names a tag is taken at the commit of that tag;
/// one that names none is left to the clone to look up, as it was written.
pub proof fn law_names_are_tags_first(
    url: Seq<char>,
    r: Seq<char>,
    ts: Seq<Tag>,
    head: Option<Seq<char>>,
    s: Seq<Versioned>,
)
    requires
        !is_floating(r),
        !req_parses(bare_tag(r)),
    ensures
        chosen(url, Some(r), ts, head, s, range_of(Some(r), s)) matches Ok(c) && {
            &&& (exists|i: int| 0 <= i < ts.len() && (#[trigger] ts[i]).name == r) ==> c.tag == Some(
                r,
            ) && !c.needs_rev_parse && exists|i: int|
                0 <= i < ts.len() && (#[trigger] ts[i]).name == r && ts[i].sha == c.rev
            &&& (forall|i: int| 0 <= i < ts.len() ==> (#[trigger] ts[i]).name != r)
                ==> c.tag is None && c.needs_rev_parse && c.rev == r
        },
{
    lemma_tag_named(ts, r);
    match tag_named(ts, r) {
        Some(t) => {
            let k = choose|k: int| 0 <= k < ts.len() && ts[k] == t;
            assert(ts[k].name == r);
        },
        None => {},
    }
}

// ---------------------------------------------------------------------------
// What is to be added
// ---------------------------------------------------------------------------

proof fn lemma_last_at(s: Seq<char>, r: Seq<char>)
    requires
        !r.contains('@'),
    ensures
        rfind(s + "@"@ + r, "@"@) == Some(s.len() as int),
    decreases r.len(),
{
    reveal_strlit("@");
    let raw = s + "@"@ + r;
    if r.len() == 0 {
        assert(raw.skip(raw.len() - 1) =~= "@"@);
    } else {
        assert(raw.last() == r.last());
        assert(r[r.len() - 1] == r.last());
        assert(!ends(raw, "@"@)) by {
            if ends(raw, "@"@) {
                assert(raw.skip(raw.len() - 1)[0] == raw.last());
            }
        }
        let t = r.drop_last();
        assert(!t.contains('@')) by {
            if t.contains('@') {
                let k = choose|k: int| 0 <= k < t.len() && t[k] == '@';
                assert(r[k] == '@');
            }
        }
        lemma_last_at(s, t);
        assert(raw.drop_last() =~= s + "@"@ + t);
    }
}

proof fn lemma_no_at(s: Seq<char>)
    requires
        !s.contains('@'),
    ensures
        rfind(s, "@"@) is None,
    decreases s.len(),
{
    reveal_strlit("@");
    if s.len() > 0 {
        assert(s[s.len() - 1] == s.last());
        assert(!ends(s, "@"@)) by {
            if ends(s, "@"@) {
                assert(s.skip(s.len() - 1)[0] == s.last());
            }
        }
        let t = s.drop_last();
        assert(!t.contains('@')) by {
            if t.contains('@') {
                let k = choose|k: int| 0 <= k < t.len() && t[k] == '@';
                assert(s[k] == '@');
            }
        }
        lemma_no_at(t);
    }
}

/// `<source>@<rev>` asks for that revision of that source; the revision is what
/// stands behind the last `@`.
pub proof fn law_revision_stands_behind_the_last_at(
    spec: Seq<char>,
    source: Seq<char>,
    rev: Seq<char>,
)
    requires
        rev.len() > 0,
        trim(rev) == rev,
        !has_space(rev),
        !rev.contains('@'),
    ensures
        source_and_rev(spec, source + "@"@ + rev, false) == Ok::<
            (Seq<char>, Option<Seq<char>>),
            Seq<char>,
        >((trim(source), Some(rev))),
{
    reveal_strlit("@");
    let raw = source + "@"@ + rev;
    lemma_last_at(source, rev);
    assert(raw.skip(source.len() as int + 1) =~= rev);
    assert(raw.take(source.len() as int) =~= source);
}

/// Without an `@` no revision is asked for, and an existing local path is taken as
/// it stands even with one.
pub proof fn law_plain_sources_ask_for_no_revision(spec: Seq<char>, raw: Seq<char>)
    ensures
        !raw.contains('@') ==> source_and_rev(spec, raw, false) == Ok::<
            (Seq<char>, Option<Seq<char>>),
            Seq<char>,
        >((raw, None)),
        source_and_rev(spec, raw, true) == Ok::<(Seq<char>, Option<Seq<char>>), Seq<char>>(
            (raw, None),
        ),
{
    if !raw.contains('@') {
        lemma_no_at(raw);
    }
}

/// An `@` with nothing behind it is an error.
pub proof fn law_empty_revisions_are_refused(spec: Seq<char>, source: Seq<char>, blank: Seq<char>)
    requires
        !blank.contains('@'),
        trim(blank).len() == 0,
    ensures
        source_and_rev(spec, source + "@"@ + blank, false) is Err,
{
    reveal_strlit("@");
    let raw = source + "@"@ + blank;
    lemma_last_at(source, blank);
    assert(raw.skip(source.len() as int + 1) =~= blank);
}

/// What is added bears the name that was asked for, or the one that its source
/// suggests, and never a name that cannot be imported.
pub proof fn law_added_names_can_be_imported(
    spec: Seq<char>,
    name_override: Option<Seq<char>>,
    local_exists: bool,
)
    ensures
        add_request(spec, name_override, local_exists) matches Ok(r) ==> {
            &&& valid_name(r.name)
            &&& r.git.len() > 0
            &&& name_override is Some ==> r.name == trim(name_override->0)
            &&& name_override is None ==> r.name == suggested_name(r.git)
            &&& source_and_rev(spec, trim(spec), local_exists) matches Ok(x) && r.git
                == added_source(x.0) && r.rev == x.1
        },
        trim(spec).len() == 0 ==> add_request(spec, name_override, local_exists) is Err,
{
}

/// `owner/repo` means GitHub: two plain names are looked for there.
pub proof fn law_short_sources_mean_github(owner: Seq<char>, repo: Seq<char>)
    requires
        owner.len() > 0,
        repo.len() > 0,
        !owner.contains('/') && !owner.contains('.') && !owner.contains(':'),
        !repo.contains('/'),
        owner != "local"@,
        normal_source(owner + "/"@ + repo) == owner + "/"@ + repo,
        !has_scheme(trim(owner + "/"@ + repo)),
    ensures
        added_source(owner + "/"@ + repo) == "github.com/"@ + (owner + "/"@ + repo),
{
    reveal_strlit("/");
    reveal_strlit("local");
    reveal_strlit("local/");
    let s = owner + "/"@ + repo;
    let k = owner.len() as int;
    lemma_first(s, '/');
    assert(s[k] == '/');
    assert(s.contains(s[k]));
    assert(first(s, '/') == k) by {
        let f = first(s, '/');
        if f < k {
            assert(owner[f] == '/');
        }
    }
    assert(s.skip(k + 1) =~= repo);
    assert(s.take(k) =~= owner);
    assert(!starts(s, "local/"@)) by {
        if starts(s, "local/"@) {
            assert(s.take(6)[5] == '/');
            assert(s[5] == '/');
            assert(k <= 5);
            if k < 5 {
                assert(s.take(6)[k] == "local/"@[k]);
            } else {
                assert(owner =~= s.take(6).take(5));
                assert(owner =~= "local"@) by {
                    assert(forall|i: int| 0 <= i < 5 ==> s.take(6)[i] == "local/"@[i]);
                }
            }
        }
    }
}

/// A source on a host is cloned over https from where it names.
pub proof fn law_hosts_are_cloned_over_https(git: Seq<char>)
    requires
        !starts(git, "local/"@),
    ensures
        url_of(git) == "https://"@ + git,
{
    reveal_strlit("local/__drive_");
    reveal_strlit("local/__unc__");
    reveal_strlit("local/");
    assert(!starts(git, "local/__drive_"@)) by {
        if starts(git, "local/__drive_"@) {
            assert(git.take(6) =~= git.take(14).take(6));
            assert("local/__drive_"@.take(6) =~= "local/"@);
        }
    }
    assert(!starts(git, "local/__unc__"@)) by {
        if starts(git, "local/__unc__"@) {
            assert(git.take(6) =~= git.take(13).take(6));
            assert("local/__unc__"@.take(6) =~= "local/"@);
        }
    }
}

/// A path on a drive is cloned from that path.
pub proof fn law_drive_paths_lead_back(drive: char, rest: Seq<char>)
    requires
        is_alpha(drive),
        rest.len() > 0,
        rest[0] != '/' && rest[0] != '\\',
        forall|i: int| 0 <= i < rest.len() ==> rest[i] != '\\',
    ensures
        url_of(local_form(seq![drive] + ":/"@ + rest)) == seq![drive] + ":/"@ + rest,
{
    reveal_strlit(":/");
    reveal_strlit(":");
    reveal_strlit("/");
    reveal_strlit("local/__drive_");
    let p = seq![drive] + ":/"@ + rest;
    assert(is_drive(p));
    let tail = p.skip(2);
    assert(tail =~= seq!['/'] + rest);
    assert(crate::source::slashes(tail) =~= tail);
    assert(crate::text::drop_start(tail, crate::text::Class::Only('/')) == rest) by {
        assert(tail.skip(1) =~= rest);
        reveal_with_fuel(crate::text::drop_start, 3);
    }
    let g = local_form(p);
    assert(g =~= "local/__drive_"@ + seq![drive] + ("/"@ + rest));
    assert(g.take(14) =~= "local/__drive_"@);
    assert(g[14] == drive);
    assert(g.skip(15) =~= "/"@ + rest);
    assert(url_of(g) =~= p);
}

// ---------------------------------------------------------------------------
// Tools
// ---------------------------------------------------------------------------

/// A tool bears the name that was asked for; without one that of its manifest,
/// and only without that the one that its source suggests.
pub proof fn law_asked_name_goes_first(
    asked: Option<Seq<char>>,
    manifest: Option<Seq<char>>,
    derived: Seq<char>,
)
    ensures
        asked is Some && trim(asked->0).len() > 0 ==> picked_name(asked, manifest, derived) == trim(
            asked->0,
        ),
        (asked is None || trim(asked->0).len() == 0) && manifest is Some ==> picked_name(
            asked,
            manifest,
            derived,
        ) == manifest->0,
        (asked is None || trim(asked->0).len() == 0) && manifest is None ==> picked_name(
            asked,
            manifest,
            derived,
        ) == derived,
{
}

/// A tool can be built exactly when it has an entry point and its name can be a
/// file name; it is built from `src/main.hll` where there is one.
pub proof fn law_tools_need_an_entry(
    git: Seq<char>,
    derived: Seq<char>,
    clone: ToolClone,
    asked: Option<Seq<char>>,
)
    ensures
        ({
            let name = picked_name(asked, opt_text(clone.manifest_name), derived);
            &&& prepared(git, derived, clone, asked) is Ok <==> (clone.has_src_main
                || clone.has_main) && plain_name(name)
            &&& prepared(git, derived, clone, asked) matches Ok(t) ==> {
                &&& t.0 == clone.dir@
                &&& t.2 == name
                &&& clone.has_src_main ==> t.1 == joined(clone.dir@, "src/main.hll"@)
                &&& !clone.has_src_main ==> t.1 == joined(clone.dir@, "main.hll"@)
            }
        }),
{
}

/// Uninstalling looks for the very file that installing wrote.
pub proof fn law_installed_tools_can_be_uninstalled(
    bin_dir: Seq<char>,
    tool: Seq<char>,
    windows: bool,
)
    ensures
        binaries(bin_dir, tool, windows).contains(joined(bin_dir, exe_name(tool, windows))),
        forall|i: int|
            0 <= i < binaries(bin_dir, tool, windows).len() ==> #[trigger] binaries(
                bin_dir,
                tool,
                windows,
            )[i] == joined(bin_dir, tool) || binaries(bin_dir, tool, windows)[i] == joined(
                bin_dir,
                exe_name(tool, windows),
            ),
{
    let b = binaries(bin_dir, tool, windows);
    assert(b[b.len() - 1] == joined(bin_dir, exe_name(tool, windows)));
}

/// On Windows the file of a tool ends in `.exe`, once; elsewhere it is the name.
pub proof fn law_tools_are_executable(tool: Seq<char>, windows: bool)
    ensures
        windows ==> ends(exe_name(tool, windows), ".exe"@),
        windows && ends(tool, ".exe"@) ==> exe_name(tool, windows) == tool,
        !windows ==> exe_name(tool, windows) == tool,
{
    let n = tool + ".exe"@;
    assert(n.skip(n.len() - ".exe"@.len()) =~= ".exe"@);
}

} // verus!
