//! Fetching a revision into its cache slot, and recording a new dependency.
use crate::manifest::lock::{copy_pin, lock_written, serialize_lockfile};
use crate::manifest::{
    deps, pins, Dep, Dependency, LockedDependency, Lockfile, Manifest, Mark, Pin, SlotMarker,
};
use crate::names::{
    ascending, lemma_mapped_get, lemma_mapped_put, lemma_put_ascending, lemma_put_get, pair_get,
    pair_keys, put, NameMap,
};
use crate::paths::{join_path, joined};
use crate::pkg::add::{AddRequest, Request};
use crate::pkg::closure::{index_pins, pin_list, pin_map, pin_values, pins_by_name};
use crate::pkg::ensure::opt_mark;
use crate::pkg::prune::is_staging_name;
use crate::pkg::remote::{Choice, Resolved};
use crate::text::{
    chars_of, copy_strings, decimal, join, join_strings, natural, opt_text, same, texts, trim, trim_str,
};
use vstd::prelude::*;
use vstd::string::*;

verus! {

// ---------------------------------------------------------------------------
// git commands
// ---------------------------------------------------------------------------

/// A git command to run.
#[derive(Debug)]
pub struct GitCommand {
    pub args: Vec<String>,
    /// Run in the clone rather than where the caller stands.
    pub in_clone: bool,
    /// What to say when it fails.
    pub what: String,
}

#[verifier::ext_equal]
pub struct Run {
    pub args: Seq<Seq<char>>,
    pub in_clone: bool,
    pub what: Seq<char>,
}

impl View for GitCommand {
    type V = Run;

    open spec fn view(&self) -> Run {
        Run { args: texts(self.args@), in_clone: self.in_clone, what: self.what@ }
    }
}

pub open spec fn runs(v: Seq<GitCommand>) -> Seq<Run> {
    Seq::new(v.len(), |i: int| v[i]@)
}

/// The commands that clone a revision and tell its commit: a tag is cloned
/// shallow, anything else is cloned in full and checked out.
pub open spec fn clone_runs(url: Seq<char>, c: Choice, dest: Seq<char>) -> Seq<Run> {
    let failed = "cannot clone `"@ + url + "`"@;
    let head = Run {
        args: seq!["rev-parse"@, "HEAD"@],
        in_clone: true,
        what: "cannot read cloned HEAD"@,
    };
    match c.tag {
        Some(tag) => seq![
            Run {
                args: seq![
                    "clone"@,
                    "--depth"@,
                    "1"@,
                    "--branch"@,
                    tag,
                    "--"@,
                    url,
                    dest,
                ],
                in_clone: false,
                what: failed,
            },
            head,
        ],
        None => seq![
            Run { args: seq!["clone"@, "--"@, url, dest], in_clone: false, what: failed },
            Run {
                args: seq!["checkout"@, "--detach"@, "--quiet"@, c.rev],
                in_clone: true,
                what: "cannot check out `"@ + c.rev + "`"@,
            },
            head,
        ],
    }
}

fn words(a: &str, b: &str, c: &str, d: &str) -> (r: Vec<String>)
    ensures
        texts(r@) == seq![a@, b@, c@, d@],
{
    let mut v: Vec<String> = Vec::new();
    v.push(String::from_str(a));
    v.push(String::from_str(b));
    v.push(String::from_str(c));
    v.push(String::from_str(d));
    assert(texts(v@) =~= seq![a@, b@, c@, d@]);
    v
}

/// The commands that clone a resolved revision into `dest`; the last one prints
/// the commit.
pub fn clone_commands(url: &str, resolved: &Resolved, dest: &str) -> (r: Vec<GitCommand>)
    ensures
        runs(r@) == clone_runs(url@, resolved@, dest@),
{
    let mut failed = String::from_str("cannot clone `");
    failed.append(url);
    failed.append("`");
    let mut out: Vec<GitCommand> = Vec::new();
    match &resolved.tag {
        Some(tag) => {
            let mut args = words("clone", "--depth", "1", "--branch");
            let mut more = words(tag.as_str(), "--", url, dest);
            let ghost a = texts(args@);
            let ghost b = texts(more@);
            args.append(&mut more);
            assert(texts(args@) =~= a + b);
            assert(texts(args@) =~= seq![
                "clone"@,
                "--depth"@,
                "1"@,
                "--branch"@,
                tag@,
                "--"@,
                url@,
                dest@,
            ]);
            out.push(GitCommand { args, in_clone: false, what: failed });
        },
        None => {
            out.push(
                GitCommand { args: words("clone", "--", url, dest), in_clone: false, what: failed },
            );
            let mut what = String::from_str("cannot check out `");
            what.append(resolved.rev.as_str());
            what.append("`");
            out.push(
                GitCommand {
                    args: words("checkout", "--detach", "--quiet", resolved.rev.as_str()),
                    in_clone: true,
                    what,
                },
            );
        },
    }
    let mut args: Vec<String> = Vec::new();
    args.push(String::from_str("rev-parse"));
    args.push(String::from_str("HEAD"));
    assert(texts(args@) =~= seq!["rev-parse"@, "HEAD"@]);
    out.push(
        GitCommand { args, in_clone: true, what: String::from_str("cannot read cloned HEAD") },
    );
    assert(runs(out@) =~= clone_runs(url@, resolved@, dest@));
    out
}

/// The command that lists the references of a remote.
pub fn ls_remote_command(url: &str) -> (r: GitCommand)
    ensures
        r@ == (Run {
            args: seq!["ls-remote"@, url@],
            in_clone: false,
            what: "cannot reach `"@ + url@ + "`"@,
        }),
{
    let mut what = String::from_str("cannot reach `");
    what.append(url);
    what.append("`");
    let mut args: Vec<String> = Vec::new();
    args.push(String::from_str("ls-remote"));
    args.push(String::from_str(url));
    assert(texts(args@) =~= seq!["ls-remote"@, url@]);
    GitCommand { args, in_clone: false, what }
}

/// What a remote that cannot be listed is reported as.
pub fn unreachable_remote(error: &str) -> (r: String)
    ensures
        r@ == error@ + " (check the URL and your network / credentials)"@,
{
    let mut out = String::from_str(error);
    out.append(" (check the URL and your network / credentials)");
    out
}

/// The settings that every git command gets, so that nothing depends on the
/// user's configuration.
pub open spec fn git_settings() -> Seq<Seq<char>> {
    seq![
        "-c"@,
        "user.email=hella@test"@,
        "-c"@,
        "user.name=hella"@,
        "-c"@,
        "commit.gpgsign=false"@,
        "-c"@,
        "init.defaultBranch=main"@,
    ]
}

/// All arguments of a git command, its settings first.
pub fn git_args(args: &Vec<String>) -> (r: Vec<String>)
    ensures
        texts(r@) == git_settings() + texts(args@),
{
    let mut out = words("-c", "user.email=hella@test", "-c", "user.name=hella");
    let mut rest = words("-c", "commit.gpgsign=false", "-c", "init.defaultBranch=main");
    let mut own = copy_strings(args);
    let ghost a = texts(out@);
    let ghost b = texts(rest@);
    let ghost c = texts(own@);
    out.append(&mut rest);
    assert(texts(out@) =~= a + b);
    assert(texts(out@) =~= git_settings());
    out.append(&mut own);
    assert(texts(out@) =~= git_settings() + c);
    out
}

/// What a failed git command is reported as.
pub open spec fn failure(what: Seq<char>, args: Seq<Seq<char>>, stderr: Seq<char>) -> Seq<char> {
    let err = trim(stderr);
    what + " failed (`git "@ + join(args, " "@) + "`)"@ + (if err.len() == 0 {
        ""@
    } else {
        ": "@
    }) + ": "@ + err
}

/// Reports a git command that failed.
pub fn git_failure(what: &str, args: &Vec<String>, stderr: &str) -> (r: String)
    ensures
        r@ == failure(what@, texts(args@), stderr@),
{
    let err = trim_str(stderr);
    let mut m = String::from_str(what);
    m.append(" failed (`git ");
    m.append(join_strings(args, " ").as_str());
    m.append("`)");
    m.append(
        if chars_of(err.as_str()).len() == 0 {
            ""
        } else {
            ": "
        },
    );
    m.append(": ");
    m.append(err.as_str());
    m
}

/// The commit of a clone, or why it is not the one that was asked for.
pub open spec fn cloned(url: Seq<char>, c: Choice, printed: Seq<char>) -> Result<
    Seq<char>,
    Seq<char>,
> {
    let sha = trim(printed);
    if !c.needs_rev_parse && sha != c.rev {
        Err("clone of `"@ + url + "` gave "@ + sha + " but `"@ + c.rev + "` was expected"@)
    } else {
        Ok(sha)
    }
}

pub open spec fn text_result(r: Result<String, String>) -> Result<Seq<char>, Seq<char>> {
    match r {
        Ok(s) => Ok(s@),
        Err(m) => Err(m@),
    }
}

/// The commit that `git rev-parse HEAD` printed in a clone; an error where
/// another one was expected.
pub fn check_clone(url: &str, resolved: &Resolved, printed: &str) -> (r: Result<String, String>)
    ensures
        text_result(r) == cloned(url@, resolved@, printed@),
{
    let sha = trim_str(printed);
    if !resolved.needs_rev_parse && !same(sha.as_str(), resolved.rev.as_str()) {
        let mut m = String::from_str("clone of `");
        m.append(url);
        m.append("` gave ");
        m.append(sha.as_str());
        m.append(" but `");
        m.append(resolved.rev.as_str());
        m.append("` was expected");
        return Err(m);
    }
    Ok(sha)
}

// ---------------------------------------------------------------------------
// Slots
// ---------------------------------------------------------------------------

/// What to do with a slot before fetching into it.
#[derive(Clone, Copy, Debug, PartialEq, Eq, Structural)]
pub enum SlotAction {
    /// It holds the revision already.
    Reuse,
    /// It holds another revision: clear it first.
    ClearStale,
    /// It holds files that no fetch put there: clear it first.
    ClearUnmanaged,
    /// It does not exist yet.
    Fresh,
}

pub open spec fn slot_plan(
    marker: Option<Mark>,
    exists_on_disk: bool,
    git: Seq<char>,
    rev: Seq<char>,
) -> SlotAction {
    match marker {
        Some(m) => if m.git == git && m.rev == rev {
            SlotAction::Reuse
        } else {
            SlotAction::ClearStale
        },
        None => if exists_on_disk {
            SlotAction::ClearUnmanaged
        } else {
            SlotAction::Fresh
        },
    }
}

/// Decides what to do with a slot, given its marker and whether the directory
/// exists. Only a marker with the same source and commit lets a slot be reused.
pub fn slot_action(
    marker: Option<&SlotMarker>,
    exists_on_disk: bool,
    git: &str,
    rev: &str,
) -> (r: SlotAction)
    ensures
        r == slot_plan(opt_mark(marker), exists_on_disk, git@, rev@),
{
    match marker {
        Some(m) => if same(m.git.as_str(), git) && same(m.rev.as_str(), rev) {
            SlotAction::Reuse
        } else {
            SlotAction::ClearStale
        },
        None => if exists_on_disk {
            SlotAction::ClearUnmanaged
        } else {
            SlotAction::Fresh
        },
    }
}

/// A scratch directory for one clone.
pub open spec fn scratch_path(cache: Seq<char>, kind: Seq<char>, pid: int, nonce: int) -> Seq<char> {
    joined(cache, scratch_name(kind, pid, nonce))
}

pub open spec fn scratch_name(kind: Seq<char>, pid: int, nonce: int) -> Seq<char> {
    kind + decimal(pid) + "-"@ + decimal(nonce)
}

fn scratch(cache_root: &str, kind: &str, pid: u32, nonce: u64) -> (r: String)
    ensures
        r@ == scratch_path(cache_root@, kind@, pid as int, nonce as int),
{
    let mut name = String::from_str(kind);
    name.append(natural(pid as u64).as_str());
    name.append("-");
    name.append(natural(nonce).as_str());
    join_path(cache_root, name.as_str())
}

/// The scratch directory of a fetch.
pub fn fetch_dir(cache_root: &str, pid: u32, nonce: u64) -> (r: String)
    ensures
        r@ == scratch_path(cache_root@, "hella-fetch-"@, pid as int, nonce as int),
{
    scratch(cache_root, "hella-fetch-", pid, nonce)
}

/// The scratch directory of a tool install.
pub fn install_dir(cache_root: &str, pid: u32, nonce: u64) -> (r: String)
    ensures
        r@ == scratch_path(cache_root@, "hella-install-"@, pid as int, nonce as int),
{
    scratch(cache_root, "hella-install-", pid, nonce)
}

/// A pin as a revision to fetch by its commit.
pub fn pinned_revision(pin: &LockedDependency) -> (r: Resolved)
    ensures
        r@ == (Choice {
            version: pin@.version,
            rev: pin@.rev,
            tag: None,
            needs_rev_parse: false,
        }),
{
    Resolved {
        version: pin.version.clone(),
        rev: pin.rev.clone(),
        tag: None,
        needs_rev_parse: false,
    }
}

/// Checks that a pin was fetched at its commit.
pub fn check_fetched(pin: &LockedDependency, sha: &str) -> (r: Result<(), String>)
    ensures
        r is Ok <==> sha@ == pin@.rev,
        r matches Err(m) ==> m@ == "fetched `"@ + pin@.name + "` gave "@ + sha@
            + " but lock pins "@ + pin@.rev,
{
    if same(sha, pin.rev.as_str()) {
        return Ok(());
    }
    let mut m = String::from_str("fetched `");
    m.append(pin.name.as_str());
    m.append("` gave ");
    m.append(sha);
    m.append(" but lock pins ");
    m.append(pin.rev.as_str());
    Err(m)
}

// ---------------------------------------------------------------------------
// Adding and removing
// ---------------------------------------------------------------------------

/// Checks that a name is not a dependency yet.
pub fn check_new_dep(manifest: &Manifest, name: &str) -> (r: Result<(), String>)
    ensures
        r is Ok <==> pair_get(manifest@.deps, name@) is None,
        r matches Err(m) ==> m@ == "`"@ + name@ + "` is already a dependency (run `hella remove "@
            + name@ + "` first to replace it)"@,
{
    proof {
        lemma_mapped_get(manifest.dependencies.pairs(), |x: Dependency| x@, name@);
    }
    if !manifest.dependencies.contains_key(name) {
        return Ok(());
    }
    let mut m = String::from_str("`");
    m.append(name);
    m.append("` is already a dependency (run `hella remove ");
    m.append(name);
    m.append("` first to replace it)");
    Err(m)
}

/// Checks that a name is a dependency.
pub fn check_old_dep(manifest: &Manifest, name: &str) -> (r: Result<(), String>)
    ensures
        r is Ok <==> pair_get(manifest@.deps, name@) is Some,
        r matches Err(m) ==> m@ == crate::pkg::report::no_dependency(name@),
{
    proof {
        lemma_mapped_get(manifest.dependencies.pairs(), |x: Dependency| x@, name@);
    }
    if manifest.dependencies.contains_key(name) {
        Ok(())
    } else {
        Err(crate::pkg::report::unknown_dependency(name))
    }
}

fn or_text(v: &Option<String>, other: &str) -> (r: String)
    ensures
        r@ == match opt_text(*v) {
            Some(s) => s,
            None => other@,
        },
{
    match v {
        Some(s) => s.clone(),
        None => String::from_str(other),
    }
}

/// The dependency of a request with `fallback` for a missing revision.
pub open spec fn requested_dep(req: Request, fallback: Seq<char>) -> Dep {
    Dep {
        git: req.git,
        version: match req.rev {
            Some(v) => v,
            None => fallback,
        },
        package: None,
    }
}

/// The dependency to resolve for a request: its revision, or the newest one.
pub fn dep_to_resolve(req: &AddRequest) -> (r: Dependency)
    ensures
        r@ == requested_dep(req@, "latest"@),
{
    Dependency { git: req.git.clone(), version: or_text(&req.rev, "latest"), package: None }
}

/// The dependency to write down for a request: the revision as it was asked
/// for, or the version that was found.
pub fn dep_to_record(req: &AddRequest, pin: &LockedDependency) -> (r: Dependency)
    ensures
        r@ == requested_dep(req@, pin@.version),
{
    Dependency {
        git: req.git.clone(),
        version: or_text(&req.rev, pin.version.as_str()),
        package: None,
    }
}

/// The pins by name with the first `n` of `more` on top.
pub open spec fn pins_over(base: Seq<(Seq<char>, Pin)>, more: Seq<Pin>, n: int) -> Seq<
    (Seq<char>, Pin),
>
    decreases n,
{
    if n <= 0 {
        base
    } else {
        put(pins_over(base, more, n - 1), more[n - 1].name, more[n - 1])
    }
}

/// Puts pins on top of those in the map.
pub fn add_pins(into: &mut NameMap<LockedDependency>, more: &Vec<LockedDependency>)
    ensures
        pin_map(final(into).pairs()) == pins_over(
            pin_map(old(into).pairs()),
            pins(more@),
            more@.len() as int,
        ),
{
    let mut i: usize = 0;
    while i < more.len()
        invariant
            i <= more@.len(),
            pin_map(into.pairs()) == pins_over(
                pin_map(old(into).pairs()),
                pins(more@),
                i as int,
            ),
        decreases more@.len() - i,
    {
        let p = copy_pin(&more[i]);
        proof {
            lemma_mapped_put(into.pairs(), |p: LockedDependency| p@, p@.name, p);
        }
        into.insert(more[i].name.clone(), p);
        i += 1;
    }
}

/// The lockfile text after an addition: what was locked, with the new pins on
/// top.
pub fn merged_lock_text(old_lock: &Lockfile, new_pins: &Vec<LockedDependency>) -> (r: String)
    ensures
        r@ == lock_written(
            pin_values(
                pins_over(
                    pins_by_name(old_lock@, old_lock@.len() as int),
                    pins(new_pins@),
                    new_pins@.len() as int,
                ),
            ),
        ),
{
    let mut all = index_pins(&old_lock.packages);
    add_pins(&mut all, new_pins);
    serialize_lockfile(&Lockfile { packages: pin_list(&all) })
}

/// What an addition is reported as.
pub fn added_message(req: &AddRequest, version: &str, rev: &str) -> (r: String)
    ensures
        r@ == "Added "@ + req@.name + " "@ + version@ + " ("@ + req@.git + "@"@ + rev@ + ")"@,
{
    let mut m = String::from_str("Added ");
    m.append(req.name.as_str());
    m.append(" ");
    m.append(version);
    m.append(" (");
    m.append(req.git.as_str());
    m.append("@");
    m.append(rev);
    m.append(")");
    m
}

// ---------------------------------------------------------------------------
// Laws
// ---------------------------------------------------------------------------

/// A slot is reused only for the source and commit that its marker records.
pub proof fn law_slot_reuse_is_exact(
    marker: Option<Mark>,
    exists_on_disk: bool,
    git: Seq<char>,
    rev: Seq<char>,
)
    ensures
        slot_plan(marker, exists_on_disk, git, rev) == SlotAction::Reuse <==> (marker matches Some(
            m,
        ) && m.git == git && m.rev == rev),
{
}

/// Scratch directories carry names by which cleaning up finds them.
pub proof fn law_scratch_is_staging(pid: int, nonce: int)
    ensures
        is_staging_name(scratch_name("hella-fetch-"@, pid, nonce)),
        is_staging_name(scratch_name("hella-install-"@, pid, nonce)),
{
    let a = scratch_name("hella-fetch-"@, pid, nonce);
    let b = scratch_name("hella-install-"@, pid, nonce);
    assert(a.take("hella-fetch-"@.len() as int) =~= "hella-fetch-"@);
    assert(b.take("hella-install-"@.len() as int) =~= "hella-install-"@);
}

/// The command is run in the clone and checks out `rev`.
pub open spec fn checks_out(r: Run, rev: Seq<char>) -> bool {
    r.in_clone && r.args.len() >= 2 && r.args[0] == "checkout"@ && r.args.last() == rev
}

/// The command is run in the clone and prints its commit.
pub open spec fn prints_commit(r: Run) -> bool {
    r.in_clone && r.args == seq!["rev-parse"@, "HEAD"@]
}

/// The command clones `url` into `dest`, and neither can be taken for an option.
pub open spec fn clones(r: Run, url: Seq<char>, dest: Seq<char>) -> bool {
    &&& !r.in_clone
    &&& r.args.len() >= 4
    &&& r.args[0] == "clone"@
    &&& r.args.skip(r.args.len() - 3) == seq!["--"@, url, dest]
}

/// A revision without a tag is checked out, exactly that revision, after the
/// clone and before the commit is printed, whether or not it still has to be
/// looked up. The clone holds all commits, so that any of them can be.
pub proof fn law_untagged_revision_is_checked_out(url: Seq<char>, c: Choice, dest: Seq<char>) -> (at:
    (int, int, int))
    requires
        c.tag is None,
    ensures
        ({
            let rs = clone_runs(url, c, dest);
            &&& 0 <= at.0 < at.1 < at.2 == rs.len() - 1
            &&& clones(rs[at.0], url, dest)
            &&& !rs[at.0].args.take(rs[at.0].args.len() - 2).contains("--depth"@)
            &&& checks_out(rs[at.1], c.rev)
            &&& prints_commit(rs[at.2])
        }),
{
    reveal_strlit("clone");
    reveal_strlit("--");
    reveal_strlit("--depth");
    let rs = clone_runs(url, c, dest);
    assert(rs[0].args.skip(1) =~= seq!["--"@, url, dest]);
    assert("clone"@.len() == 5 && "--"@.len() == 2 && "--depth"@.len() == 7);
    (0, 1, 2)
}

/// A tag is cloned by its name, and the commit is printed last.
pub proof fn law_tag_is_cloned_by_name(url: Seq<char>, c: Choice, dest: Seq<char>) -> (at: (
    int,
    int,
))
    requires
        c.tag is Some,
    ensures
        ({
            let rs = clone_runs(url, c, dest);
            &&& 0 <= at.0 < rs.len() - 1
            &&& clones(rs[at.0], url, dest)
            &&& 0 < at.1 < rs[at.0].args.len() - 4
            &&& rs[at.0].args[at.1] == "--branch"@
            &&& rs[at.0].args[at.1 + 1] == c.tag->0
            &&& prints_commit(rs.last())
        }),
{
    let rs = clone_runs(url, c, dest);
    assert(rs[0].args.skip(5) =~= seq!["--"@, url, dest]);
    (0, 3)
}

/// What is run depends on the tag and the revision alone: not on the version,
/// nor on whether the revision is a commit already.
pub proof fn law_commands_follow_the_revision(
    url: Seq<char>,
    c: Choice,
    d: Choice,
    dest: Seq<char>,
)
    requires
        c.tag == d.tag,
        c.rev == d.rev,
    ensures
        clone_runs(url, c, dest) == clone_runs(url, d, dest),
{
}

/// A pin is fetched at its commit: that commit is checked out, and a clone that
/// prints another is refused.
pub proof fn law_pin_is_fetched_at_its_commit(
    pin: Pin,
    url: Seq<char>,
    dest: Seq<char>,
    printed: Seq<char>,
) -> (at: int)
    ensures
        ({
            let c = Choice {
                version: pin.version,
                rev: pin.rev,
                tag: None,
                needs_rev_parse: false,
            };
            &&& 0 < at < clone_runs(url, c, dest).len() - 1
            &&& checks_out(clone_runs(url, c, dest)[at], pin.rev)
            &&& cloned(url, c, printed) is Ok <==> trim(printed) == pin.rev
            &&& cloned(url, c, printed) matches Ok(sha) ==> sha == pin.rev
        }),
{
    let c = Choice { version: pin.version, rev: pin.rev, tag: None, needs_rev_parse: false };
    law_untagged_revision_is_checked_out(url, c, dest).1
}

/// Where the commit is not known beforehand, the clone tells it; where it is, no
/// other commit is ever taken for it.
pub proof fn law_clone_tells_the_commit(url: Seq<char>, c: Choice, printed: Seq<char>)
    ensures
        c.needs_rev_parse ==> cloned(url, c, printed) == Ok::<Seq<char>, Seq<char>>(trim(printed)),
        cloned(url, c, printed) matches Ok(sha) ==> sha == trim(printed) && (c.needs_rev_parse
            || sha == c.rev),
        trim(printed) == c.rev ==> cloned(url, c, printed) is Ok,
{
}

/// A slot that is there is cleared before it is fetched into, one that is not
/// needs no clearing, and nothing is cleared that can be reused.
pub proof fn law_slots_are_cleared_before_a_fetch(
    marker: Option<Mark>,
    exists_on_disk: bool,
    git: Seq<char>,
    rev: Seq<char>,
)
    ensures
        slot_plan(marker, exists_on_disk, git, rev) == SlotAction::Fresh <==> marker is None
            && !exists_on_disk,
        slot_plan(marker, exists_on_disk, git, rev) == SlotAction::ClearUnmanaged <==> marker is None
            && exists_on_disk,
        slot_plan(marker, exists_on_disk, git, rev) == SlotAction::ClearStale <==> (
        marker matches Some(m) && (m.git != git || m.rev != rev)),
{
}

/// A dependency is resolved and recorded under the source and the revision that
/// were asked for; only where no revision was, something else stands in.
pub proof fn law_request_is_recorded(req: Request, fallback: Seq<char>)
    ensures
        requested_dep(req, fallback).git == req.git,
        req.rev matches Some(v) ==> requested_dep(req, fallback).version == v,
        req.rev is None ==> requested_dep(req, fallback).version == fallback,
        requested_dep(req, fallback).package is None,
{
}

/// Over the old pins stand the new ones: under a name stands the last new pin of
/// that name, or what stood there before.
pub proof fn law_new_pins_win(
    base: Seq<(Seq<char>, Pin)>,
    more: Seq<Pin>,
    n: int,
    name: Seq<char>,
)
    requires
        0 <= n <= more.len(),
        ascending(pair_keys(base)),
    ensures
        ascending(pair_keys(pins_over(base, more, n))),
        (forall|i: int| 0 <= i < n ==> (#[trigger] more[i]).name != name) ==> pair_get(
            pins_over(base, more, n),
            name,
        ) == pair_get(base, name),
        forall|i: int|
            0 <= i < n && (#[trigger] more[i]).name == name && (forall|j: int|
                i < j < n ==> (#[trigger] more[j]).name != name) ==> pair_get(
                pins_over(base, more, n),
                name,
            ) == Some(more[i]),
    decreases n,
{
    if n > 0 {
        law_new_pins_win(base, more, n - 1, name);
        let t = pins_over(base, more, n - 1);
        lemma_put_ascending(t, more[n - 1].name, more[n - 1]);
        lemma_put_get(t, more[n - 1].name, more[n - 1], name);
        assert forall|i: int|
            0 <= i < n && (#[trigger] more[i]).name == name && (forall|j: int|
                i < j < n ==> (#[trigger] more[j]).name != name) implies pair_get(
            pins_over(base, more, n),
            name,
        ) == Some(more[i]) by {
            if i < n - 1 {
                assert(more[n - 1].name != name);
            }
        }
    }
}

/// A failed command is reported with what it was for, the command, and what git
/// said.
pub proof fn law_failures_tell_what_git_said(
    what: Seq<char>,
    args: Seq<Seq<char>>,
    stderr: Seq<char>,
) -> (cut: int)
    ensures
        ({
            let m = failure(what, args, stderr);
            let words = what + " failed (`git "@ + join(args, " "@) + "`)"@;
            let err = trim(stderr);
            &&& words.len() < cut <= m.len()
            &&& m.take(words.len() as int) == words
            &&& m.skip(cut) == err
        }),
{
    let m = failure(what, args, stderr);
    let words = what + " failed (`git "@ + join(args, " "@) + "`)"@;
    let err = trim(stderr);
    reveal_strlit(": ");
    reveal_strlit("");
    let cut = m.len() - err.len();
    assert(m.take(words.len() as int) =~= words);
    assert(m.skip(cut) =~= err);
    cut
}

} // verus!
