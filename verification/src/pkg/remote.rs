//! Remote references, and the revision that a version request resolves to.
use crate::names::{lemma_mapped_get, lemma_mapped_put, mapped, pair_get, put, NameMap};
use crate::text::{
    chars_of, ends, ends_with, is_space, is_space_char, lines, lines_of, opt_text, part, rows, same,
    starts, starts_with, string_of, trim, trim_chars, trim_str,
};
use crate::utf8::{char_width, width};
use crate::versions::{
    accepts, floats, is_floating, is_version_before, not_before_either, parse_version, parses_req,
    req_accepts, req_parses, version_before, version_info,
};
use vstd::prelude::*;
use vstd::string::*;

verus! {

/// A tag and the commit it points at.
#[derive(Debug)]
pub struct TagRef {
    pub name: String,
    pub sha: String,
}

/// What a remote offers.
#[derive(Debug)]
pub struct RemoteRefs {
    /// Tags, ascending by name.
    pub tags: Vec<TagRef>,
    pub head: Option<String>,
}

/// Tag name and commit.
pub struct Tag {
    pub name: Seq<char>,
    pub sha: Seq<char>,
}

impl View for TagRef {
    type V = Tag;

    open spec fn view(&self) -> Tag {
        Tag { name: self.name@, sha: self.sha@ }
    }
}

pub open spec fn tags(v: Seq<TagRef>) -> Seq<Tag> {
    Seq::new(v.len(), |i: int| v[i]@)
}

// ---------------------------------------------------------------------------
// Listing
// ---------------------------------------------------------------------------

/// Position of the first white space in `s`, or its length.
pub open spec fn first_space(s: Seq<char>) -> int
    decreases s.len(),
{
    if s.len() == 0 || is_space(s[0]) {
        0
    } else {
        1 + first_space(s.skip(1))
    }
}

/// What is known of a remote: tags with their commits, and the commit of HEAD.
#[verifier::ext_equal]
pub struct Listing {
    pub tags: Seq<(Seq<char>, Seq<char>)>,
    pub head: Option<Seq<char>>,
}

/// A listing after one more line `<commit> <reference>`. The commit of an
/// annotated tag, written `refs/tags/<name>^{}`, wins over the tag object's.
pub open spec fn listed(l: Listing, line: Seq<char>) -> Listing {
    let k = first_space(line);
    if k >= line.len() {
        l
    } else {
        let sha = trim(line.take(k));
        let reference = trim(line.skip(k + 1));
        if reference == "HEAD"@ {
            Listing { head: Some(sha), ..l }
        } else if starts(reference, "refs/tags/"@) {
            let tag = reference.skip(10);
            if ends(tag, "^{}"@) {
                Listing { tags: put(l.tags, tag.take(tag.len() - 3), sha), ..l }
            } else if pair_get(l.tags, tag) is None {
                Listing { tags: put(l.tags, tag, sha), ..l }
            } else {
                l
            }
        } else {
            l
        }
    }
}

/// The listing in the first `n` lines.
pub open spec fn listing(ls: Seq<Seq<char>>, n: int) -> Listing
    decreases n,
{
    if n <= 0 {
        Listing { tags: Seq::empty(), head: None }
    } else {
        listed(listing(ls, n - 1), ls[n - 1])
    }
}

/// The texts of a map from names to strings.
pub open spec fn text_pairs(s: Seq<(Seq<char>, String)>) -> Seq<(Seq<char>, Seq<char>)> {
    mapped(s, |x: String| x@)
}

fn find_space(s: &Vec<char>) -> (r: usize)
    ensures
        r == first_space(s@),
        r <= s@.len(),
{
    let mut i: usize = 0;
    assert(s@.skip(0) =~= s@);
    while i < s.len() && !is_space_char(s[i])
        invariant
            i <= s@.len(),
            first_space(s@) == i + first_space(s@.skip(i as int)),
        decreases s@.len() - i,
    {
        assert(s@.skip(i as int).skip(1) =~= s@.skip(i + 1));
        i += 1;
    }
    i
}

fn read_line(map: &mut NameMap<String>, head: &mut Option<String>, line: &Vec<char>)
    ensures
        (Listing { tags: text_pairs(final(map).pairs()), head: opt_text(*final(head)) }) == listed(
            (Listing { tags: text_pairs(old(map).pairs()), head: opt_text(*old(head)) }),
            line@,
        ),
{
    let k = find_space(line);
    if k >= line.len() {
        return;
    }
    proof {
        reveal_strlit("refs/tags/");
        reveal_strlit("^{}");
    }
    let a = part(line, 0, k);
    assert(a@ =~= line@.take(k as int));
    let sha = string_of(&trim_chars(&a));
    let b = part(line, k + 1, line.len());
    assert(b@ =~= line@.skip(k + 1));
    let reference = trim_chars(&b);
    if crate::text::is_text(&reference, "HEAD") {
        *head = Some(sha);
    } else if starts_with(&reference, "refs/tags/") {
        let tag = part(&reference, 10, reference.len());
        assert(tag@ =~= reference@.skip(10));
        if ends_with(&tag, "^{}") {
            let name = part(&tag, 0, tag.len() - 3);
            assert(name@ =~= tag@.take(tag@.len() - 3));
            proof {
                lemma_mapped_put(map.pairs(), |x: String| x@, name@, sha);
            }
            map.insert(string_of(&name), sha);
        } else {
            let name = string_of(&tag);
            proof {
                lemma_mapped_get(map.pairs(), |x: String| x@, tag@);
                lemma_mapped_put(map.pairs(), |x: String| x@, tag@, sha);
            }
            if !map.contains_key(name.as_str()) {
                map.insert(name, sha);
            }
        }
    }
}

/// The tags in a listing.
pub open spec fn listed_tags(l: Listing) -> Seq<Tag> {
    Seq::new(l.tags.len(), |i: int| Tag { name: l.tags[i].0, sha: l.tags[i].1 })
}

/// Reads the output of `git ls-remote`: the commit of each tag, ascending by
/// tag name, and the commit of HEAD.
pub fn parse_ls_remote(out: &str) -> (r: RemoteRefs)
    ensures
        tags(r.tags@) == listed_tags(listing(lines(out@), lines(out@).len() as int)),
        opt_text(r.head) == listing(lines(out@), lines(out@).len() as int).head,
{
    let ls = lines_of(&chars_of(out));
    let ghost all = lines(out@);
    let mut map: NameMap<String> = NameMap::new();
    let mut head: Option<String> = None;
    let mut i: usize = 0;
    assert(text_pairs(map.pairs()) =~= Seq::<(Seq<char>, Seq<char>)>::empty());
    while i < ls.len()
        invariant
            i <= ls@.len(),
            rows(ls@) == all,
            (Listing { tags: text_pairs(map.pairs()), head: opt_text(head) }) == listing(
                all,
                i as int,
            ),
        decreases ls@.len() - i,
    {
        read_line(&mut map, &mut head, &ls[i]);
        assert(all[i as int] == ls@[i as int]@);
        i += 1;
    }
    assert(all.len() == ls@.len());
    let mut found: Vec<TagRef> = Vec::new();
    let n: usize = map.len();
    let ghost l = listing(all, all.len() as int);
    let mut j: usize = 0;
    while j < n
        invariant
            j <= n,
            n == map.pairs().len(),
            l.tags == text_pairs(map.pairs()),
            tags(found@) =~= listed_tags(l).take(j as int),
        decreases n - j,
    {
        let ghost had = tags(found@);
        let t = TagRef { name: map.key_at(j).clone(), sha: map.value_at(j).clone() };
        let ghost new = t@;
        found.push(t);
        assert(tags(found@) =~= had.push(new));
        j += 1;
    }
    assert(tags(found@) =~= listed_tags(l));
    RemoteRefs { tags: found, head }
}

// ---------------------------------------------------------------------------
// Versions among the tags
// ---------------------------------------------------------------------------

/// A tag without its leading `v`.
pub open spec fn bare_tag(tag: Seq<char>) -> Seq<char> {
    if starts(tag, "v"@) || starts(tag, "V"@) {
        tag.skip(1)
    } else {
        tag
    }
}

/// A tag without one leading `v` or `V`.
pub fn strip_v(tag: &str) -> (r: String)
    ensures
        r@ == bare_tag(tag@),
{
    proof {
        reveal_strlit("v");
        reveal_strlit("V");
    }
    let t = chars_of(tag);
    if starts_with(&t, "v") || starts_with(&t, "V") {
        let r = part(&t, 1, t.len());
        assert(r@ =~= t@.skip(1));
        string_of(&r)
    } else {
        String::from_str(tag)
    }
}

/// A tag that names a version.
#[derive(Debug)]
pub struct VersionTag {
    pub tag: String,
    pub sha: String,
    /// The tag without its leading `v`.
    pub text: String,
    /// The version in canonical form.
    pub version: String,
    /// Not a prerelease.
    pub stable: bool,
}

#[verifier::ext_equal]
pub struct Versioned {
    pub tag: Seq<char>,
    pub sha: Seq<char>,
    pub text: Seq<char>,
    pub version: Seq<char>,
    pub stable: bool,
}

impl View for VersionTag {
    type V = Versioned;

    open spec fn view(&self) -> Versioned {
        Versioned {
            tag: self.tag@,
            sha: self.sha@,
            text: self.text@,
            version: self.version@,
            stable: self.stable,
        }
    }
}

pub open spec fn versioned(v: Seq<VersionTag>) -> Seq<Versioned> {
    Seq::new(v.len(), |i: int| v[i]@)
}

/// The tag as a version, where `semver` reads one in it.
pub open spec fn as_version(t: Tag) -> Option<Versioned> {
    match version_info(bare_tag(t.name)) {
        Some(x) => Some(
            Versioned {
                tag: t.name,
                sha: t.sha,
                text: bare_tag(t.name),
                version: x.0,
                stable: x.1.len() == 0,
            },
        ),
        None => None,
    }
}

/// `x` put behind everything that it is not before.
pub open spec fn version_inserted(s: Seq<Versioned>, x: Versioned) -> Seq<Versioned>
    decreases s.len(),
{
    if s.len() == 0 || !version_before(x.text, s.last().text) {
        s.push(x)
    } else {
        version_inserted(s.drop_last(), x).push(s.last())
    }
}

/// The versions among the first `n` tags, ascending; equal ones keep the order
/// of the tags.
pub open spec fn version_tags(ts: Seq<Tag>, n: int) -> Seq<Versioned>
    decreases n,
{
    if n <= 0 {
        Seq::empty()
    } else {
        match as_version(ts[n - 1]) {
            Some(x) => version_inserted(version_tags(ts, n - 1), x),
            None => version_tags(ts, n - 1),
        }
    }
}

/// Every text is a version.
pub open spec fn all_versions(s: Seq<Versioned>) -> bool {
    forall|i: int| 0 <= i < s.len() ==> version_info((#[trigger] s[i]).text) is Some
}

/// No version comes before an earlier one.
pub open spec fn version_order(s: Seq<Versioned>) -> bool {
    forall|i: int, j: int|
        0 <= i < j < s.len() ==> !version_before((#[trigger] s[j]).text, (#[trigger] s[i]).text)
}

fn insert_version(sorted: &mut Vec<VersionTag>, x: VersionTag)
    requires
        all_versions(versioned(old(sorted)@)),
        version_order(versioned(old(sorted)@)),
        version_info(x@.text) is Some,
    ensures
        versioned(final(sorted)@) == version_inserted(versioned(old(sorted)@), x@),
        all_versions(versioned(final(sorted)@)),
        version_order(versioned(final(sorted)@)),
{
    let n: usize = sorted.len();
    let mut at: usize = n;
    let ghost s = versioned(sorted@);
    let ghost y = x@;
    assert(s.take(n as int) =~= s);
    assert(version_inserted(s.take(n as int), y) + s.skip(n as int) =~= version_inserted(s, y));
    let mut go: bool = true;
    while at > 0 && go
        invariant
            at <= n == sorted@.len(),
            s == versioned(sorted@),
            y == x@,
            all_versions(s),
            version_info(y.text) is Some,
            version_inserted(s, y) == version_inserted(s.take(at as int), y) + s.skip(at as int),
            forall|i: int| at <= i < n ==> !version_before((#[trigger] s[i]).text, y.text),
            !go ==> at > 0 && !version_before(y.text, s[at - 1].text) && not_before_either(
                y.text,
                s[at - 1].text,
            ),
        decreases at, (if go { 1int } else { 0int }),
    {
        assert(s[at - 1] == sorted@[at - 1]@);
        assert(version_info(s[at - 1].text) is Some);
        if is_version_before(x.text.as_str(), sorted[at - 1].text.as_str()) {
            let ghost t = s.take(at as int);
            assert(t.last() == s[at - 1]);
            assert(t.drop_last() =~= s.take(at - 1));
            assert(version_inserted(t, y) + s.skip(at as int) =~= version_inserted(
                s.take(at - 1),
                y,
            ) + s.skip(at - 1));
            at -= 1;
        } else {
            go = false;
        }
    }
    assert(at > 0 ==> s.take(at as int).last() == s[at - 1]);
    sorted.insert(at, x);
    let ghost r = versioned(sorted@);
    assert(r =~= s.take(at as int).push(y) + s.skip(at as int));
    assert forall|i: int| 0 <= i < r.len() implies version_info((#[trigger] r[i]).text) is Some by {
        if i < at {
            assert(r[i] == s[i]);
        } else if i > at {
            assert(r[i] == s[i - 1]);
        }
    }
    assert forall|i: int, j: int| 0 <= i < j < r.len() implies !version_before(
        (#[trigger] r[j]).text,
        (#[trigger] r[i]).text,
    ) by {
        if i < at && j < at {
            assert(r[i] == s[i] && r[j] == s[j]);
        } else if i < at && j == at {
            assert(r[i] == s[i]);
            if i < at - 1 {
                assert(!version_before(s[at - 1].text, s[i].text));
                assert(version_info(s[i].text) is Some);
            }
        } else if i < at {
            assert(r[i] == s[i] && r[j] == s[j - 1]);
        } else if i == at {
            assert(r[j] == s[j - 1]);
        } else {
            assert(r[i] == s[i - 1] && r[j] == s[j - 1]);
        }
    }
}

/// The tags that name a version, ascending by version.
pub fn semver_tags(ts: &Vec<TagRef>) -> (r: Vec<VersionTag>)
    ensures
        versioned(r@) == version_tags(tags(ts@), ts@.len() as int),
        all_versions(versioned(r@)),
        version_order(versioned(r@)),
{
    let mut out: Vec<VersionTag> = Vec::new();
    let mut i: usize = 0;
    assert(versioned(out@) =~= Seq::<Versioned>::empty());
    while i < ts.len()
        invariant
            i <= ts@.len(),
            versioned(out@) == version_tags(tags(ts@), i as int),
            all_versions(versioned(out@)),
            version_order(versioned(out@)),
        decreases ts@.len() - i,
    {
        let text = strip_v(ts[i].name.as_str());
        assert(tags(ts@)[i as int] == ts@[i as int]@);
        if let Some((version, pre)) = parse_version(text.as_str()) {
            let stable = chars_of(pre.as_str()).len() == 0;
            let x = VersionTag {
                tag: ts[i].name.clone(),
                sha: ts[i].sha.clone(),
                text,
                version,
                stable,
            };
            assert(as_version(tags(ts@)[i as int]) == Some(x@));
            insert_version(&mut out, x);
        }
        i += 1;
    }
    out
}

// ---------------------------------------------------------------------------
// Choosing a revision
// ---------------------------------------------------------------------------

/// A resolved revision.
#[derive(Debug)]
pub struct Resolved {
    /// The exact version label.
    pub version: String,
    pub rev: String,
    /// The tag to clone, when the revision came from one.
    pub tag: Option<String>,
    /// `rev` is a branch or commit still to be looked up in the clone.
    pub needs_rev_parse: bool,
}

#[verifier::ext_equal]
pub struct Choice {
    pub version: Seq<char>,
    pub rev: Seq<char>,
    pub tag: Option<Seq<char>>,
    pub needs_rev_parse: bool,
}

impl View for Resolved {
    type V = Choice;

    open spec fn view(&self) -> Choice {
        Choice {
            version: self.version@,
            rev: self.rev@,
            tag: opt_text(self.tag),
            needs_rev_parse: self.needs_rev_parse,
        }
    }
}

pub open spec fn choice_result(r: Result<Resolved, String>) -> Result<Choice, Seq<char>> {
    match r {
        Ok(c) => Ok(c@),
        Err(m) => Err(m@),
    }
}

/// The longest prefix of `s` that takes at most `room` bytes.
pub open spec fn within_bytes(s: Seq<char>, room: int) -> Seq<char>
    decreases s.len(),
{
    if s.len() == 0 || width(s[0]) > room {
        Seq::empty()
    } else {
        seq![s[0]] + within_bytes(s.skip(1), room - width(s[0]))
    }
}

/// A name shortened to twelve bytes.
pub open spec fn short(s: Seq<char>) -> Seq<char> {
    within_bytes(s, 12)
}

/// A name shortened to at most twelve bytes.
pub fn shorten(s: &str) -> (r: String)
    ensures
        r@ == short(s@),
{
    let v = chars_of(s);
    let mut out: Vec<char> = Vec::new();
    let mut room: usize = 12;
    let mut i: usize = 0;
    assert(v@.skip(0) =~= v@);
    assert(out@ + within_bytes(v@, 12) =~= within_bytes(v@, 12));
    while i < v.len()
        invariant
            i <= v@.len(),
            v@ == s@,
            room <= 12,
            short(s@) == out@ + within_bytes(v@.skip(i as int), room as int),
        decreases v@.len() - i,
    {
        let c: char = v[i];
        let w: usize = char_width(c);
        assert(v@.skip(i as int)[0] == c);
        if w > room {
            assert(short(s@) =~= out@);
            return string_of(&out);
        }
        let ghost had = out@;
        out.push(c);
        assert(v@.skip(i as int).skip(1) =~= v@.skip(i + 1));
        assert(out@ + within_bytes(v@.skip(i + 1), room - w) =~= had + within_bytes(
            v@.skip(i as int),
            room as int,
        ));
        room = room - w;
        i += 1;
    }
    assert(short(s@) =~= out@);
    string_of(&out)
}

/// The request, trimmed; a blank one is none.
pub open spec fn request(req: Option<&str>) -> Option<Seq<char>> {
    match req {
        Some(r) if trim(r@).len() > 0 => Some(trim(r@)),
        _ => None,
    }
}

/// Position of the last of the first `n` versions that may be chosen: one that
/// `fits`, and a stable one where only those count.
pub open spec fn last_fit(s: Seq<Versioned>, fits: Seq<bool>, stable_only: bool, n: int) -> Option<int>
    decreases n,
{
    if n <= 0 {
        None
    } else if (!stable_only || s[n - 1].stable) && n - 1 < fits.len() && fits[n - 1] {
        Some(n - 1)
    } else {
        last_fit(s, fits, stable_only, n - 1)
    }
}

pub open spec fn has_stable(s: Seq<Versioned>) -> bool {
    exists|i: int| 0 <= i < s.len() && (#[trigger] s[i]).stable
}

/// The newest version that fits; prereleases count only when nothing stable
/// exists.
pub open spec fn newest(s: Seq<Versioned>, fits: Seq<bool>) -> Option<int> {
    last_fit(s, fits, has_stable(s), s.len() as int)
}

pub open spec fn all_fit(n: nat) -> Seq<bool> {
    Seq::new(n, |i: int| true)
}

pub open spec fn from_version(x: Versioned) -> Choice {
    Choice { version: x.version, rev: x.sha, tag: Some(x.tag), needs_rev_parse: false }
}

/// The first tag called `name`.
pub open spec fn tag_named(ts: Seq<Tag>, name: Seq<char>) -> Option<Tag>
    decreases ts.len(),
{
    if ts.len() == 0 {
        None
    } else if ts[0].name == name {
        Some(ts[0])
    } else {
        tag_named(ts.skip(1), name)
    }
}

/// The version label of a tag: its version where it names one, else its name.
pub open spec fn tag_label(s: Seq<Versioned>, tag: Seq<char>) -> Seq<char>
    decreases s.len(),
{
    if s.len() == 0 {
        tag
    } else if s[0].tag == tag {
        s[0].version
    } else {
        tag_label(s.skip(1), tag)
    }
}

/// The revision that a request stands for. `s` holds the tags that name
/// versions, ascending; `range` says, for a request that is a version range,
/// which of them it accepts.
pub open spec fn chosen(
    url: Seq<char>,
    req: Option<Seq<char>>,
    ts: Seq<Tag>,
    head: Option<Seq<char>>,
    s: Seq<Versioned>,
    range: Option<Seq<bool>>,
) -> Result<Choice, Seq<char>> {
    match req {
        Some(r) if !is_floating(r) => match range {
            Some(fits) => match newest(s, fits) {
                Some(i) => Ok(from_version(s[i])),
                None => Err("no tag of `"@ + url + "` satisfies `"@ + r + "`"@),
            },
            None => match tag_named(ts, r) {
                Some(t) => Ok(
                    Choice {
                        version: tag_label(s, t.name),
                        rev: t.sha,
                        tag: Some(t.name),
                        needs_rev_parse: false,
                    },
                ),
                None => Ok(
                    Choice { version: "rev-"@ + short(r), rev: r, tag: None, needs_rev_parse: true },
                ),
            },
        },
        _ => match newest(s, all_fit(s.len())) {
            Some(i) => Ok(from_version(s[i])),
            None => match head {
                Some(h) => Ok(
                    Choice { version: "HEAD-"@ + short(h), rev: h, tag: None, needs_rev_parse: false },
                ),
                None => Err("`"@ + url + "` has no tags and no HEAD (is the repository empty?)"@),
            },
        },
    }
}

fn find_newest(s: &Vec<VersionTag>, fits: &Vec<bool>) -> (r: Option<usize>)
    ensures
        r is Some <==> newest(versioned(s@), fits@) is Some,
        r matches Some(i) ==> i < s@.len() && newest(versioned(s@), fits@) == Some(i as int),
{
    let ghost vs = versioned(s@);
    let mut stable: bool = false;
    let mut k: usize = 0;
    while k < s.len()
        invariant
            k <= s@.len(),
            vs == versioned(s@),
            stable == exists|i: int| 0 <= i < k && (#[trigger] vs[i]).stable,
        decreases s@.len() - k,
    {
        if s[k].stable {
            stable = true;
            assert(vs[k as int].stable);
        }
        k += 1;
    }
    assert(stable == has_stable(vs));
    let mut n: usize = s.len();
    while n > 0
        invariant
            n <= s@.len(),
            vs == versioned(s@),
            last_fit(vs, fits@, stable, n as int) == last_fit(vs, fits@, stable, s@.len() as int),
            stable == has_stable(vs),
        decreases n,
    {
        assert(vs[n - 1] == s@[n - 1]@);
        if (!stable || s[n - 1].stable) && n - 1 < fits.len() && fits[n - 1] {
            return Some(n - 1);
        }
        n -= 1;
    }
    None
}

fn version_choice(x: &VersionTag) -> (r: Resolved)
    ensures
        r@ == from_version(x@),
{
    Resolved {
        version: x.version.clone(),
        rev: x.sha.clone(),
        tag: Some(x.tag.clone()),
        needs_rev_parse: false,
    }
}

fn find_tag<'a>(ts: &'a Vec<TagRef>, name: &str) -> (r: Option<&'a TagRef>)
    ensures
        r is Some <==> tag_named(tags(ts@), name@) is Some,
        r matches Some(t) ==> tag_named(tags(ts@), name@) == Some(t@),
{
    let ghost all = tags(ts@);
    let mut i: usize = 0;
    assert(all.skip(0) =~= all);
    while i < ts.len()
        invariant
            i <= ts@.len(),
            all == tags(ts@),
            tag_named(all, name@) == tag_named(all.skip(i as int), name@),
        decreases ts@.len() - i,
    {
        assert(all.skip(i as int)[0] == all[i as int]);
        if same(ts[i].name.as_str(), name) {
            return Some(&ts[i]);
        }
        assert(all.skip(i as int).skip(1) =~= all.skip(i + 1));
        i += 1;
    }
    None
}

fn label_of(s: &Vec<VersionTag>, tag: &str) -> (r: String)
    ensures
        r@ == tag_label(versioned(s@), tag@),
{
    let ghost all = versioned(s@);
    let mut i: usize = 0;
    assert(all.skip(0) =~= all);
    while i < s.len()
        invariant
            i <= s@.len(),
            all == versioned(s@),
            tag_label(all, tag@) == tag_label(all.skip(i as int), tag@),
        decreases s@.len() - i,
    {
        assert(all.skip(i as int)[0] == all[i as int]);
        if same(s[i].tag.as_str(), tag) {
            return s[i].version.clone();
        }
        assert(all.skip(i as int).skip(1) =~= all.skip(i + 1));
        i += 1;
    }
    String::from_str(tag)
}

fn true_list(n: usize) -> (r: Vec<bool>)
    ensures
        r@ == all_fit(n as nat),
{
    let mut out: Vec<bool> = Vec::new();
    while out.len() < n
        invariant
            out@.len() <= n,
            forall|i: int| 0 <= i < out@.len() ==> #[trigger] out@[i],
        decreases n - out@.len(),
    {
        out.push(true);
    }
    assert(out@ =~= all_fit(n as nat));
    out
}

pub open spec fn opt_flags(v: Option<&Vec<bool>>) -> Option<Seq<bool>> {
    match v {
        Some(x) => Some(x@),
        None => None,
    }
}

/// Chooses the revision that a trimmed request stands for, given the tags that
/// name versions, ascending, and, for a version range, which of them it
/// accepts.
pub fn choose_rev(
    url: &str,
    req: Option<&str>,
    refs: &RemoteRefs,
    versions: &Vec<VersionTag>,
    range: Option<&Vec<bool>>,
) -> (r: Result<Resolved, String>)
    ensures
        choice_result(r) == chosen(
            url@,
            crate::modules::layout::opt_str(req),
            tags(refs.tags@),
            opt_text(refs.head),
            versioned(versions@),
            opt_flags(range),
        ),
{
    let wanted: Option<&str> = match req {
        Some(q) => if floats(q) {
            None
        } else {
            Some(q)
        },
        None => None,
    };
    let q = match wanted {
        None => {
            let every = true_list(versions.len());
            if let Some(i) = find_newest(versions, &every) {
                return Ok(version_choice(&versions[i]));
            }
            return match &refs.head {
                Some(h) => {
                    let mut version = String::from_str("HEAD-");
                    version.append(shorten(h.as_str()).as_str());
                    Ok(Resolved { version, rev: h.clone(), tag: None, needs_rev_parse: false })
                },
                None => {
                    let mut m = String::from_str("`");
                    m.append(url);
                    m.append("` has no tags and no HEAD (is the repository empty?)");
                    Err(m)
                },
            };
        },
        Some(q) => q,
    };
    if let Some(fits) = range {
        return match find_newest(versions, fits) {
            Some(i) => Ok(version_choice(&versions[i])),
            None => {
                let mut m = String::from_str("no tag of `");
                m.append(url);
                m.append("` satisfies `");
                m.append(q);
                m.append("`");
                Err(m)
            },
        };
    }
    match find_tag(&refs.tags, q) {
        Some(t) => Ok(
            Resolved {
                version: label_of(versions, t.name.as_str()),
                rev: t.sha.clone(),
                tag: Some(t.name.clone()),
                needs_rev_parse: false,
            },
        ),
        None => {
            let mut version = String::from_str("rev-");
            version.append(shorten(q).as_str());
            Ok(Resolved { version, rev: String::from_str(q), tag: None, needs_rev_parse: true })
        },
    }
}

/// Which versions a request accepts, where it is a version range; a leading
/// `v` does not count.
pub open spec fn range_of(req: Option<Seq<char>>, s: Seq<Versioned>) -> Option<Seq<bool>> {
    match req {
        Some(r) if req_parses(bare_tag(r)) => Some(
            Seq::new(s.len(), |i: int| req_accepts(bare_tag(r), s[i].text)),
        ),
        _ => None,
    }
}

/// Resolves a version request against a remote: the newest tag for no request,
/// `latest` or `*`, else HEAD; the newest tag in a version range, where `1.2.3`
/// means `^1.2.3`; the tag of that name; or a branch or commit to be looked up
/// in the clone.
pub fn resolve_rev(url: &str, req: Option<&str>, refs: &RemoteRefs) -> (r: Result<Resolved, String>)
    ensures
        choice_result(r) == chosen(
            url@,
            request(req),
            tags(refs.tags@),
            opt_text(refs.head),
            version_tags(tags(refs.tags@), refs.tags@.len() as int),
            range_of(
                request(req),
                version_tags(tags(refs.tags@), refs.tags@.len() as int),
            ),
        ),
{
    let versions = semver_tags(&refs.tags);
    let ghost vs = versioned(versions@);
    let trimmed: Option<String> = match req {
        Some(q) => {
            let t = trim_str(q);
            if chars_of(t.as_str()).len() > 0 {
                Some(t)
            } else {
                None
            }
        },
        None => None,
    };
    assert(opt_text(trimmed) == request(req));
    match &trimmed {
        Some(q) => {
            let bare = strip_v(q.as_str());
            if parses_req(bare.as_str()) {
                let mut fits: Vec<bool> = Vec::new();
                let ghost goal = Seq::new(
                    vs.len(),
                    |i: int| req_accepts(bare_tag(q@), vs[i].text),
                );
                let mut i: usize = 0;
                while i < versions.len()
                    invariant
                        i <= versions@.len() == vs.len(),
                        vs == versioned(versions@),
                        all_versions(vs),
                        bare@ == bare_tag(q@),
                        req_parses(bare@),
                        goal == Seq::new(
                            vs.len(),
                            |i: int| req_accepts(bare_tag(q@), vs[i].text),
                        ),
                        fits@ =~= goal.take(i as int),
                    decreases versions@.len() - i,
                {
                    assert(version_info(vs[i as int].text) is Some);
                    fits.push(accepts(bare.as_str(), versions[i].text.as_str()));
                    i += 1;
                }
                assert(fits@ =~= goal);
                choose_rev(url, Some(q.as_str()), refs, &versions, Some(&fits))
            } else {
                choose_rev(url, Some(q.as_str()), refs, &versions, None)
            }
        },
        None => choose_rev(url, None, refs, &versions, None),
    }
}

// ---------------------------------------------------------------------------
// Laws
// ---------------------------------------------------------------------------

pub(crate) proof fn lemma_last_fit(s: Seq<Versioned>, fits: Seq<bool>, stable_only: bool, n: int)
    requires
        0 <= n <= s.len() == fits.len(),
    ensures
        last_fit(s, fits, stable_only, n) matches Some(i) ==> 0 <= i < n && fits[i] && (stable_only
            ==> s[i].stable) && forall|j: int|
            i < j < n && (stable_only ==> s[j].stable) ==> !#[trigger] fits[j],
        last_fit(s, fits, stable_only, n) is None ==> forall|j: int|
            0 <= j < n && (stable_only ==> s[j].stable) ==> !#[trigger] fits[j],
    decreases n,
{
    if n > 0 {
        lemma_last_fit(s, fits, stable_only, n - 1);
    }
}

/// In an ascending list of versions the newest that fits comes after every
/// other that may be chosen: none of those is a later version.
pub proof fn law_newest_is_newest(s: Seq<Versioned>, fits: Seq<bool>, j: int)
    requires
        version_order(s),
        fits.len() == s.len(),
        0 <= j < s.len(),
        fits[j],
        has_stable(s) ==> s[j].stable,
    ensures
        newest(s, fits) matches Some(i) && 0 <= i < s.len() && fits[i] && (has_stable(s)
            ==> s[i].stable) && (i != j ==> j < i && !version_before(s[i].text, s[j].text)),
{
    lemma_last_fit(s, fits, has_stable(s), s.len() as int);
}

/// A prerelease is chosen only where no stable version exists.
pub proof fn law_stable_is_preferred(s: Seq<Versioned>, fits: Seq<bool>)
    requires
        fits.len() == s.len(),
        has_stable(s),
    ensures
        newest(s, fits) matches Some(i) ==> s[i].stable,
{
    lemma_last_fit(s, fits, true, s.len() as int);
}

/// A line of `git ls-remote` for a tag, and the one for the commit behind an
/// annotated tag.
pub open spec fn tag_line(sha: Seq<char>, tag: Seq<char>) -> Seq<char> {
    sha + "\t"@ + ("refs/tags/"@ + tag)
}

pub open spec fn peeled_line(sha: Seq<char>, tag: Seq<char>) -> Seq<char> {
    sha + "\t"@ + ("refs/tags/"@ + (tag + "^{}"@))
}

/// A commit as git prints it.
pub open spec fn spaceless(s: Seq<char>) -> bool {
    forall|i: int| 0 <= i < s.len() ==> !is_space(#[trigger] s[i])
}

pub(crate) proof fn lemma_first_space(s: Seq<char>, rest: Seq<char>)
    requires
        spaceless(s),
        rest.len() > 0,
        is_space(rest[0]),
    ensures
        first_space(s + rest) == s.len(),
    decreases s.len(),
{
    if s.len() == 0 {
        assert(s + rest =~= rest);
    } else {
        assert((s + rest).skip(1) =~= s.skip(1) + rest);
        assert forall|i: int| 0 <= i < s.skip(1).len() implies !is_space(
            #[trigger] s.skip(1)[i],
        ) by {
            assert(s.skip(1)[i] == s[i + 1]);
        }
        lemma_first_space(s.skip(1), rest);
    }
}

/// A line with a tag reference is read as that tag.
pub(crate) proof fn lemma_tag_read(l: Listing, sha: Seq<char>, name: Seq<char>)
    requires
        spaceless(sha),
        name.len() > 0,
        !is_space(name.last()),
    ensures
        listed(l, sha + "\t"@ + ("refs/tags/"@ + name)) == if ends(name, "^{}"@) {
            Listing { tags: put(l.tags, name.take(name.len() - 3), sha), ..l }
        } else if pair_get(l.tags, name) is None {
            Listing { tags: put(l.tags, name, sha), ..l }
        } else {
            l
        },
{
    reveal_strlit("\t");
    reveal_strlit("refs/tags/");
    reveal_strlit("HEAD");
    let reference = "refs/tags/"@ + name;
    let line = sha + "\t"@ + reference;
    assert(line =~= sha + ("\t"@ + reference));
    lemma_first_space(sha, "\t"@ + reference);
    assert(line.take(sha.len() as int) =~= sha);
    assert(line.skip(sha.len() as int + 1) =~= reference);
    assert(trim(sha) == sha);
    assert(reference[0] == 'r');
    assert(reference.last() == name.last());
    assert(trim(reference) == reference);
    assert("HEAD"@[0] == 'H');
    assert(reference.take(10) =~= "refs/tags/"@);
    assert(reference.skip(10) =~= name);
}

/// The commit that an annotated tag points at wins over the tag object,
/// whichever of the two lines comes first.
pub proof fn law_peeled_commit_wins(l: Listing, tag: Seq<char>, object: Seq<char>, commit: Seq<char>)
    requires
        crate::names::ascending(crate::names::pair_keys(l.tags)),
        spaceless(object),
        spaceless(commit),
        tag.len() > 0,
        !is_space(tag.last()),
        !ends(tag, "^{}"@),
    ensures
        pair_get(listed(listed(l, tag_line(object, tag)), peeled_line(commit, tag)).tags, tag) == Some(
            commit,
        ),
        pair_get(listed(listed(l, peeled_line(commit, tag)), tag_line(object, tag)).tags, tag) == Some(
            commit,
        ),
{
    reveal_strlit("^{}");
    let peeled = tag + "^{}"@;
    assert(ends(peeled, "^{}"@)) by {
        assert(peeled.skip(peeled.len() - 3) =~= "^{}"@);
    }
    assert(peeled.take(peeled.len() - 3) =~= tag);
    let a = listed(l, tag_line(object, tag));
    let b = listed(l, peeled_line(commit, tag));
    lemma_tag_read(l, object, tag);
    lemma_tag_read(a, commit, peeled);
    lemma_tag_read(l, commit, peeled);
    lemma_tag_read(b, object, tag);
    crate::names::lemma_put_ascending(l.tags, tag, object);
    crate::names::lemma_put_get(l.tags, tag, commit, tag);
    crate::names::lemma_put_get(a.tags, tag, commit, tag);
}

} // verus!
