//! What holds of the commands' decisions.
use crate::cli::entry::{profile_name, project_entry, ManifestRead, Project};
use crate::cli::fmt::{action_for, count, fmt_outcome, verdict_of, FileAction, FileVerdict};
use crate::cli::link::{
    compile_words, fresh, hint_text, link_words, linker, runtime_object, runtime_source,
    runtime_words, stamp_text, Runtime,
};
use crate::cli::lint_report::{column, warning_line};
use crate::cli::scaffold::{entry_text, manifest_start, new_project, project_files, Spot};
use crate::docs::newlines;
use crate::lint::Finding;
use crate::modules::layout::{manifest_dir, Ancestor};
use crate::paths::joined;
use crate::text::{decimal, ends, starts, trim};
use crate::utf8::chars_before;
use vstd::prelude::*;

verus! {

// ---------------------------------------------------------------------------
// Freshness
// ---------------------------------------------------------------------------

/// A binary is not up to date if a source is newer than it or has no time, if
/// its stamp is missing or another, or if it is not there at all.
pub proof fn law_changed_sources_are_stale(
    exe: Option<i128>,
    stamp: Option<Seq<char>>,
    expected: Seq<char>,
    sources: Seq<Option<i128>>,
    i: int,
)
    requires
        0 <= i < sources.len(),
    ensures
        exe is None ==> !fresh(exe, stamp, expected, sources),
        stamp is None ==> !fresh(exe, stamp, expected, sources),
        stamp matches Some(s) && s != expected ==> !fresh(exe, stamp, expected, sources),
        sources[i] is None ==> !fresh(exe, stamp, expected, sources),
        exe matches Some(t) && sources[i] matches Some(x) && x > t ==> !fresh(
            exe,
            stamp,
            expected,
            sources,
        ),
{
    if fresh(exe, stamp, expected, sources) {
        assert(sources[i] matches Some(x) && x <= exe->0);
    }
}

/// It is up to date if the stamp is the expected one and no source is newer; a
/// source of the same age does not count as newer.
pub proof fn law_unchanged_sources_are_fresh(
    exe: i128,
    expected: Seq<char>,
    times: Seq<i128>,
)
    requires
        forall|i: int| 0 <= i < times.len() ==> #[trigger] times[i] <= exe,
    ensures
        fresh(
            Some(exe),
            Some(expected),
            expected,
            Seq::new(times.len(), |i: int| Some(times[i])),
        ),
{
    let sources = Seq::new(times.len(), |i: int| Some(times[i]));
    assert forall|i: int| 0 <= i < sources.len() implies ((#[trigger] sources[i]) matches Some(x)
        && x <= exe) by {
        assert(times[i] <= exe);
    }
}

/// A stamp tells the toolchain, the profile and the runtime apart: two stamps are
/// the same only where all three are.
pub proof fn law_stamps_tell_builds_apart(
    toolchain: Seq<char>,
    release: bool,
    needs_async: bool,
    toolchain2: Seq<char>,
    release2: bool,
    needs_async2: bool,
)
    requires
        stamp_text(toolchain, release, needs_async) == stamp_text(
            toolchain2,
            release2,
            needs_async2,
        ),
    ensures
        toolchain == toolchain2,
        release == release2,
        needs_async == needs_async2,
{
    reveal_strlit("profile=");
    reveal_strlit("release");
    reveal_strlit("debug");
    reveal_strlit("\ntoolchain=hella ");
    reveal_strlit("\nasync=");
    reveal_strlit("runtime");
    reveal_strlit("none");
    reveal_strlit("\n");
    let a = stamp_text(toolchain, release, needs_async);
    let b = stamp_text(toolchain2, release2, needs_async2);
    let n = a.len() as int;
    assert(a[8] == b[8]);
    assert(a[n - 3] == b[n - 3]);
    assert(release == release2);
    assert(needs_async == needs_async2);
    let from: int = (8 + profile_name(release).len() + "\ntoolchain=hella "@.len()) as int;
    assert(toolchain.len() == toolchain2.len());
    assert(a.subrange(from, from + toolchain.len()) =~= toolchain);
    assert(b.subrange(from, from + toolchain.len()) =~= toolchain2);
}

// ---------------------------------------------------------------------------
// Linking
// ---------------------------------------------------------------------------

/// The linker is handed every part of the runtime that was asked for, then the
/// program, and the executable as its output; what Linux needs comes last, and
/// elsewhere nothing does.
pub proof fn law_link_holds_every_part(
    obj: Seq<char>,
    exe: Seq<char>,
    rts: Seq<Runtime>,
    windows: bool,
    linux: bool,
    i: int,
) -> (at: (int, int))
    requires
        0 <= i < rts.len(),
    ensures
        ({
            let ws = link_words(obj, exe, rts, windows, linux);
            &&& 0 <= at.0 < at.1 < ws.len() - 2
            &&& ws[at.0] == runtime_object(obj, rts[i])
            &&& rts[i] != Runtime::Shim && !windows ==> ws[at.0 + 1] == "-pthread"@
            &&& ws[at.1] == obj
            &&& ws[at.1 + 1] == "-o"@
            &&& ws[at.1 + 2] == exe
            &&& linux ==> ws.skip(at.1 + 3) == seq!["-lm"@, "-no-pie"@]
            &&& !linux ==> ws.len() == at.1 + 3
        }),
{
    let k = lemma_runtime_words(obj, rts, windows, rts.len() as int, i);
    let words = runtime_words(obj, rts, windows, rts.len() as int);
    let ws = link_words(obj, exe, rts, windows, linux);
    assert(ws[k] == words[k]);
    if rts[i] != Runtime::Shim && !windows {
        assert(ws[k + 1] == words[k + 1]);
    }
    if linux {
        assert(ws.skip(words.len() as int + 3) =~= seq!["-lm"@, "-no-pie"@]);
    }
    (k, words.len() as int)
}

/// A program without runtime is linked alone.
pub proof fn law_plain_program_is_linked_alone(
    obj: Seq<char>,
    exe: Seq<char>,
    windows: bool,
    linux: bool,
)
    ensures
        link_words(obj, exe, Seq::empty(), windows, linux).take(3) == seq![obj, "-o"@, exe],
        !linux ==> link_words(obj, exe, Seq::empty(), windows, linux).len() == 3,
{
    assert(link_words(obj, exe, Seq::empty(), windows, linux).take(3) =~= seq![obj, "-o"@, exe]);
}

proof fn lemma_runtime_words(
    obj: Seq<char>,
    rts: Seq<Runtime>,
    windows: bool,
    n: int,
    i: int,
) -> (k: int)
    requires
        0 <= i < n <= rts.len(),
    ensures
        0 <= k < runtime_words(obj, rts, windows, n).len(),
        runtime_words(obj, rts, windows, n)[k] == runtime_object(obj, rts[i]),
        rts[i] != Runtime::Shim && !windows ==> k + 1 < runtime_words(obj, rts, windows, n).len()
            && runtime_words(obj, rts, windows, n)[k + 1] == "-pthread"@,
    decreases n,
{
    let before = runtime_words(obj, rts, windows, n - 1);
    let all = runtime_words(obj, rts, windows, n);
    if i < n - 1 {
        let k = lemma_runtime_words(obj, rts, windows, n - 1, i);
        assert(all[k] == before[k]);
        if rts[i] != Runtime::Shim && !windows {
            assert(all[k + 1] == before[k + 1]);
        }
        k
    } else {
        assert(all[before.len() as int] == runtime_object(obj, rts[i]));
        before.len() as int
    }
}

/// A part of the runtime is compiled from its own source into the object that is
/// linked; no two parts share either.
pub proof fn law_runtime_parts_stay_apart(obj: Seq<char>, a: Runtime, b: Runtime, windows: bool)
    requires
        a != b,
    ensures
        compile_words(obj, a, windows).take(4) == seq![
            "-c"@,
            runtime_source(obj, a),
            "-o"@,
            runtime_object(obj, a),
        ],
        a != Runtime::Shim && !windows <==> compile_words(obj, a, windows).len() == 5,
        runtime_object(obj, a) != runtime_object(obj, b),
        runtime_source(obj, a) != runtime_source(obj, b),
        runtime_source(obj, a) != runtime_object(obj, a),
{
    reveal_strlit("hella_rt_gen");
    reveal_strlit("hella_async_gen");
    reveal_strlit("hella_sync_gen");
    reveal_strlit(".c");
    reveal_strlit(".o");
    reveal_strlit("/");
    assert(compile_words(obj, a, windows).take(4) =~= seq![
        "-c"@,
        runtime_source(obj, a),
        "-o"@,
        runtime_object(obj, a),
    ]);
    let x = runtime_object(obj, a);
    let y = runtime_object(obj, b);
    let z = runtime_source(obj, a);
    let v = runtime_source(obj, b);
    assert("hella_rt_gen"@.len() == 12);
    assert("hella_async_gen"@.len() == 15);
    assert("hella_sync_gen"@.len() == 14);
    assert(x.len() != y.len());
    assert(z.len() != v.len());
    assert(x.last() == 'o' && z.last() == 'c');
}

/// A linker that was chosen is used, whatever is installed; otherwise `clang`
/// goes before `cc`, and only without both there is none.
pub proof fn law_chosen_linker_is_used(
    chosen: Option<Seq<char>>,
    has_clang: bool,
    has_cc: bool,
    os: Seq<char>,
)
    ensures
        chosen is Some && trim(chosen->0).len() > 0 ==> linker(chosen, has_clang, has_cc, os)
            == Ok::<Seq<char>, Seq<char>>(chosen->0),
        (chosen is None || trim(chosen->0).len() == 0) && has_clang ==> linker(
            chosen,
            has_clang,
            has_cc,
            os,
        ) == Ok::<Seq<char>, Seq<char>>("clang"@),
        (chosen is None || trim(chosen->0).len() == 0) && !has_clang && has_cc ==> linker(
            chosen,
            has_clang,
            has_cc,
            os,
        ) == Ok::<Seq<char>, Seq<char>>("cc"@),
        linker(chosen, has_clang, has_cc, os) is Err <==> (chosen is None || trim(
            chosen->0,
        ).len() == 0) && !has_clang && !has_cc,
{
}

// ---------------------------------------------------------------------------
// Entry files
// ---------------------------------------------------------------------------

/// A project is entered by its `main.hll`, and by its `lib.hll` only where it
/// has no other; it carries the name of its manifest. Without a manifest that
/// can be used, or without both files, there is no entry.
pub proof fn law_main_goes_before_lib(
    root: Seq<char>,
    manifest: ManifestRead,
    has_main: bool,
    has_lib: bool,
)
    ensures
        project_entry(root, manifest, has_main, has_lib) is Ok <==> manifest is Named && (has_main
            || has_lib),
        project_entry(root, manifest, has_main, has_lib) matches Ok(e) ==> {
            &&& has_main ==> e.0 == joined(root, "src/main.hll"@)
            &&& !has_main ==> e.0 == joined(root, "src/lib.hll"@)
            &&& manifest matches ManifestRead::Named(name) && e.1 == Some((root, name@))
        },
{
}

/// Debug and release builds of a project never share a binary.
pub proof fn law_profiles_have_their_own_binaries(p: Project, windows: bool)
    requires
        p.bin_name@.len() > 0,
        p.bin_name@[0] != '/',
    ensures
        p.binary(true, windows) != p.binary(false, windows),
        starts(p.binary(true, windows), joined(joined(p.root@, "out"@), "release"@)),
        starts(p.binary(false, windows), joined(joined(p.root@, "out"@), "debug"@)),
{
    reveal_strlit("release");
    reveal_strlit("debug");
    reveal_strlit("out");
    reveal_strlit("/");
    reveal_strlit(".exe");
    let out = joined(p.root@, "out"@);
    let name = if windows {
        p.bin_name@ + ".exe"@
    } else {
        p.bin_name@
    };
    let r = joined(out, "release"@);
    let d = joined(out, "debug"@);
    assert(name[0] == p.bin_name@[0]);
    assert(r.last() == 'e' && d.last() == 'g');
    assert(p.binary(true, windows) == r + "/"@ + name);
    assert(p.binary(false, windows) == d + "/"@ + name);
    assert(p.binary(true, windows).take(r.len() as int) =~= r);
    assert(p.binary(false, windows).take(d.len() as int) =~= d);
    assert(p.binary(true, windows).len() == p.binary(false, windows).len() + 2);
}

/// The project around a directory is the nearest one: the directory with a
/// manifest that no nearer one with a manifest comes before.
pub proof fn law_nearest_manifest_wins(up: Seq<Ancestor>)
    ensures
        manifest_dir(up) matches Some(d) ==> exists|i: int|
            0 <= i < up.len() && (#[trigger] up[i]).has_manifest && up[i].path@ == d && forall|
                j: int,
            |
                0 <= j < i ==> !(#[trigger] up[j]).has_manifest,
        manifest_dir(up) is None <==> forall|j: int|
            0 <= j < up.len() ==> !(#[trigger] up[j]).has_manifest,
    decreases up.len(),
{
    if up.len() > 0 && !up[0].has_manifest {
        let rest = up.skip(1);
        law_nearest_manifest_wins(rest);
        if manifest_dir(rest) is Some {
            let d = manifest_dir(rest)->0;
            let i = choose|i: int|
                0 <= i < rest.len() && (#[trigger] rest[i]).has_manifest && rest[i].path@ == d
                    && forall|j: int| 0 <= j < i ==> !(#[trigger] rest[j]).has_manifest;
            assert(up[i + 1] == rest[i]);
            assert forall|j: int| 0 <= j < i + 1 implies !(#[trigger] up[j]).has_manifest by {
                if j > 0 {
                    assert(up[j] == rest[j - 1]);
                }
            }
        } else {
            assert forall|j: int| 0 <= j < up.len() implies !(#[trigger] up[j]).has_manifest by {
                if j > 0 {
                    assert(up[j] == rest[j - 1]);
                }
            }
        }
        if forall|j: int| 0 <= j < up.len() ==> !(#[trigger] up[j]).has_manifest {
            assert forall|j: int| 0 <= j < rest.len() implies !(#[trigger] rest[j]).has_manifest by {
                assert(rest[j] == up[j + 1]);
            }
        }
    }
}

// ---------------------------------------------------------------------------
// New projects
// ---------------------------------------------------------------------------

/// A project is created exactly where the version control is known, the path has
/// a name, and nothing is in the way.
pub proof fn law_projects_need_a_free_spot(
    path: Seq<char>,
    name: Option<Seq<char>>,
    spot: Spot,
    lib: bool,
    vcs: Seq<char>,
)
    ensures
        new_project(path, name, spot, lib, vcs) is Ok <==> (vcs == "git"@ || vcs == "none"@) && (
        name matches Some(n) && n.len() > 0) && (spot == Spot::Free || spot == Spot::EmptyDir),
{
}

/// A new project has a manifest with its name and version, and an entry file: a
/// binary one with a `main`, a library one without. A command finds that entry.
pub proof fn law_new_projects_have_an_entry(
    path: Seq<char>,
    name: Seq<char>,
    spot: Spot,
    lib: bool,
    vcs: Seq<char>,
    root: Seq<char>,
    read: String,
) -> (at: (int, int))
    requires
        new_project(path, Some(name), spot, lib, vcs) is Ok,
        read@ == name,
    ensures
        ({
            let files = new_project(path, Some(name), spot, lib, vcs)->Ok_0;
            let entry = files[at.1].0;
            &&& 0 <= at.0 < files.len() && files[at.0].0 == "hella.toml"@
            &&& starts(files[at.0].1, "name = \""@ + name + "\"\nversion = \"0.1.0\"\n"@)
            &&& 0 <= at.1 < files.len()
            &&& lib ==> entry == "src/lib.hll"@
            &&& !lib ==> entry == "src/main.hll"@ && ends(
                files[at.1].1,
                "void main() do\n    println(\"Hello from "@ + name + "!\")\nend\n"@,
            )
            &&& project_entry(root, ManifestRead::Named(read), !lib, lib) == Ok::<
                (Seq<char>, Option<(Seq<char>, Seq<char>)>),
                Seq<char>,
            >((joined(root, entry), Some((root, name))))
        }),
{
    let files = new_project(path, Some(name), spot, lib, vcs)->Ok_0;
    reveal_strlit("name = \"");
    reveal_strlit("\"\nversion = \"0.1.0\"\n");
    reveal_strlit(
        "\"\nversion = \"0.1.0\"\n\n# Third-party libraries live here once added:\n# `hella add github.com/owner/repo[@rev]` appends\n# `[dependencies]` and pins the exact SHA in `hella.lock`.\n",
    );
    let head = "name = \""@ + name + "\"\nversion = \"0.1.0\"\n"@;
    let m = manifest_start(name);
    assert(m.take(head.len() as int) =~= head);
    assert(files == project_files(name, lib));
    if !lib {
        reveal_strlit(
            " — Hella binary project.\n\nimport std::io\n\nvoid main() do\n    println(\"Hello from ",
        );
        reveal_strlit("void main() do\n    println(\"Hello from ");
        let tail = "void main() do\n    println(\"Hello from "@ + name + "!\")\nend\n"@;
        let t = entry_text(name, false);
        assert(t.skip(t.len() - tail.len()) =~= tail);
    }
    (0, 1)
}

// ---------------------------------------------------------------------------
// Formatting
// ---------------------------------------------------------------------------

/// A file counts as clean exactly when the formatter leaves it as it is, and as
/// broken exactly when the formatter cannot read it.
pub proof fn law_clean_files_stay_as_they_are(
    source: Seq<char>,
    formatted: Option<Seq<char>>,
    check: bool,
)
    ensures
        verdict_of(source, formatted) == FileVerdict::Clean <==> formatted == Some(source),
        verdict_of(source, formatted) == FileVerdict::Broken <==> formatted is None,
        formatted == Some(source) ==> action_for(verdict_of(source, formatted), check)
            == FileAction::Nothing,
        formatted is None ==> action_for(verdict_of(source, formatted), check)
            == FileAction::Explain,
        formatted matches Some(f) && f != source ==> action_for(
            verdict_of(source, formatted),
            check,
        ) == if check {
            FileAction::Report
        } else {
            FileAction::Write
        },
{
}

/// What was written is clean once the formatter leaves its own output alone.
pub proof fn law_formatted_files_are_clean(formatted: Seq<char>)
    ensures
        verdict_of(formatted, Some(formatted)) == FileVerdict::Clean,
{
}

/// Formatting succeeds exactly when every file could be read, and every file is
/// counted once: as clean, changed or broken.
pub proof fn law_formatting_fails_on_broken_files_only(vs: Seq<FileVerdict>)
    ensures
        fmt_outcome(
            vs.len(),
            count(vs, FileVerdict::Dirty, vs.len() as int),
            count(vs, FileVerdict::Broken, vs.len() as int),
            false,
        ) is Ok <==> !vs.contains(FileVerdict::Broken),
        count(vs, FileVerdict::Clean, vs.len() as int) + count(
            vs,
            FileVerdict::Dirty,
            vs.len() as int,
        ) + count(vs, FileVerdict::Broken, vs.len() as int) == vs.len(),
        forall|v: FileVerdict| #[trigger]
            count(vs, v, vs.len() as int) == vs.to_multiset().count(v),
{
    broadcast use vstd::seq_lib::group_to_multiset_ensures;

    let n = vs.len() as int;
    lemma_counts(vs, n);
    assert(vs.take(n) =~= vs);
    assert(count(vs, FileVerdict::Broken, n) == vs.to_multiset().count(FileVerdict::Broken));
}

proof fn lemma_counts(vs: Seq<FileVerdict>, n: int)
    requires
        0 <= n <= vs.len(),
    ensures
        forall|v: FileVerdict| #[trigger] count(vs, v, n) == vs.take(n).to_multiset().count(v),
        count(vs, FileVerdict::Clean, n) + count(vs, FileVerdict::Dirty, n) + count(
            vs,
            FileVerdict::Broken,
            n,
        ) == n,
    decreases n,
{
    broadcast use vstd::seq_lib::group_to_multiset_ensures;

    if n > 0 {
        lemma_counts(vs, n - 1);
        assert(vs.take(n) =~= vs.take(n - 1).push(vs[n - 1]));
    } else {
        assert(vs.take(0) =~= Seq::<FileVerdict>::empty());
    }
}

// ---------------------------------------------------------------------------
// Lint lines
// ---------------------------------------------------------------------------

/// The number of line feeds is the number of characters that are line feeds.
pub proof fn law_line_feeds_are_counted(s: Seq<char>, n: int)
    requires
        0 <= n <= s.len(),
    ensures
        newlines(s, n) == s.take(n).to_multiset().count('\n'),
    decreases n,
{
    broadcast use vstd::seq_lib::group_to_multiset_ensures;

    if n > 0 {
        law_line_feeds_are_counted(s, n - 1);
        assert(s.take(n) =~= s.take(n - 1).push(s[n - 1]));
    } else {
        assert(s.take(0) =~= Seq::<char>::empty());
    }
}

/// The column of a place is its distance from the start of its line.
pub proof fn law_column_counts_from_the_line_start(s: Seq<char>, n: int) -> (start: int)
    requires
        0 <= n <= s.len(),
    ensures
        0 <= start <= n,
        start == 0 || s[start - 1] == '\n',
        forall|i: int| start <= i < n ==> s[i] != '\n',
        column(s, n) == n - start,
    decreases n,
{
    if n <= 0 || s[n - 1] == '\n' {
        n
    } else {
        law_column_counts_from_the_line_start(s, n - 1)
    }
}

/// A warning is printed with its file, its place counted from one, its code and
/// its message.
pub proof fn law_warnings_name_their_place(path: Seq<char>, source: Seq<char>, w: Finding)
    ensures
        ({
            let n = chars_before(source, w.span.start as int);
            let line = warning_line(path, source, w);
            let head = path + ":"@ + decimal(newlines(source, n) + 1) + ":"@ + decimal(
                column(source, n) + 1,
            ) + ": "@;
            &&& starts(line, head)
            &&& ends(line, "["@ + w.code + "]: "@ + w.message)
        }),
{
    reveal_strlit(": ");
    reveal_strlit("[");
    reveal_strlit(": warning[");
    let n = chars_before(source, w.span.start as int);
    let line = warning_line(path, source, w);
    let head = path + ":"@ + decimal(newlines(source, n) + 1) + ":"@ + decimal(
        column(source, n) + 1,
    ) + ": "@;
    let tail = "["@ + w.code + "]: "@ + w.message;
    assert(line.take(head.len() as int) =~= head);
    assert(line.skip(line.len() - tail.len()) =~= tail);
}

/// The outcome of formatting starts with the count it is about: the files that
/// failed, then those that would change, else all files.
pub proof fn law_outcomes_tell_their_counts(files: nat, changed: nat, failed: nat, check: bool)
    ensures
        failed > 0 ==> (fmt_outcome(files, changed, failed, check) matches Err(m) && starts(
            m,
            decimal(failed as int) + " file(s) failed"@,
        )),
        failed == 0 && check && changed > 0 ==> (fmt_outcome(
            files,
            changed,
            failed,
            check,
        ) matches Err(m) && starts(m, decimal(changed as int) + " file(s) would"@)),
        failed == 0 && check && changed == 0 ==> (fmt_outcome(
            files,
            changed,
            failed,
            check,
        ) matches Ok(m) && starts(m, decimal(files as int) + " file(s)"@)),
        failed == 0 && !check ==> (fmt_outcome(files, changed, failed, check) matches Ok(m)
            && starts(m, decimal(files as int) + " file(s), "@ + decimal(changed as int))),
{
    reveal_strlit(" file(s) failed");
    reveal_strlit(" file(s) failed to parse");
    reveal_strlit(" file(s) failed to format");
    reveal_strlit(" file(s) would");
    reveal_strlit(" file(s) would be reformatted");
    reveal_strlit(" file(s)");
    reveal_strlit(" file(s) already formatted");
    reveal_strlit(" file(s), ");
    let head = if failed > 0 {
        decimal(failed as int) + " file(s) failed"@
    } else if check && changed > 0 {
        decimal(changed as int) + " file(s) would"@
    } else if check {
        decimal(files as int) + " file(s)"@
    } else {
        decimal(files as int) + " file(s), "@ + decimal(changed as int)
    };
    match fmt_outcome(files, changed, failed, check) {
        Ok(m) => {
            assert(m.take(head.len() as int) =~= head);
        },
        Err(m) => {
            assert(m.take(head.len() as int) =~= head);
        },
    }
}

/// A new project keeps its build directory, where every binary goes, out of
/// version control.
pub proof fn law_new_projects_ignore_their_builds(
    path: Seq<char>,
    name: Option<Seq<char>>,
    spot: Spot,
    lib: bool,
    vcs: Seq<char>,
)
    ensures
        new_project(path, name, spot, lib, vcs) matches Ok(files) ==> exists|i: int|
            0 <= i < files.len() && #[trigger] files[i] == (
                ".gitignore"@,
                "/"@ + "out"@ + "/\n"@,
            ),
{
    reveal_strlit("/out/\n");
    reveal_strlit("/");
    reveal_strlit("out");
    reveal_strlit("/\n");
    assert("/out/\n"@ =~= "/"@ + "out"@ + "/\n"@);
    match new_project(path, name, spot, lib, vcs) {
        Ok(files) => {
            assert(files[2].0 == ".gitignore"@);
        },
        Err(_) => {},
    }
}

/// Without a linker, the error says what to install on the system at hand.
pub proof fn law_missing_linkers_come_with_a_hint(os: Seq<char>)
    ensures
        linker(None, false, false, os) is Err,
        os == "macos"@ ==> ends(
            linker(None, false, false, os)->Err_0,
            "install the Xcode command line tools (`xcode-select --install`)"@,
        ),
        os == "windows"@ ==> ends(
            linker(None, false, false, os)->Err_0,
            "install LLVM (https://releases.llvm.org/download.html) or set HELLA_LINKER"@,
        ),
        os != "macos"@ && os != "windows"@ ==> ends(
            linker(None, false, false, os)->Err_0,
            "install clang or gcc (e.g. `apt install clang`) or set HELLA_LINKER"@,
        ),
{
    let m = linker(None, false, false, os)->Err_0;
    assert(m.skip(m.len() - hint_text(os).len()) =~= hint_text(os));
    reveal_strlit("macos");
    reveal_strlit("windows");
    assert("macos"@.len() != "windows"@.len());
}

} // verus!
