//! Output files, freshness of a build, and the final link.
use crate::cli::entry::{profile, profile_name};
use crate::modules::layout::opt_str;
use crate::paths::{
    add_extension, extended, extension, file_name, has_name, lemma_rfind, name_start, path_extension, set_extension,
    set_name, stem, unslashed_end, with_extension, with_name,
};
use crate::pkg::fetch::text_result;
use crate::text::{chars_of, rfind, same, texts, trim, trim_str};
use vstd::prelude::*;
use vstd::string::*;

verus! {

// ---------------------------------------------------------------------------
// Output files
// ---------------------------------------------------------------------------

/// The default executable of a source file: without its extension, and with
/// `.exe` on Windows, which runs no program without it.
pub open spec fn exe_of(input: Seq<char>, windows: bool) -> Seq<char> {
    let p = if extension(input) is Some {
        with_extension(input, Seq::empty())
    } else {
        input
    };
    if windows && extension(p) != Some("exe"@) {
        extended(p, "exe"@)
    } else {
        p
    }
}

/// The executable to build: the one that was named, else the source file
/// without its extension, with `.exe` on Windows.
pub fn default_exe_path(input: &str, named: Option<&str>, windows: bool) -> (r: String)
    ensures
        r@ == match opt_str(named) {
            Some(o) => o,
            None => exe_of(input@, windows),
        },
{
    if let Some(o) = named {
        return String::from_str(o);
    }
    proof {
        reveal_strlit("");
        assert(""@ =~= Seq::<char>::empty());
    }
    let p = if path_extension(input).is_some() {
        set_extension(input, "")
    } else {
        String::from_str(input)
    };
    if !windows {
        return p;
    }
    match path_extension(p.as_str()) {
        Some(e) => if same(e.as_str(), "exe") {
            p
        } else {
            add_extension(p.as_str(), "exe")
        },
        None => add_extension(p.as_str(), "exe"),
    }
}

/// The object file of an executable.
pub open spec fn object_of(exe: Seq<char>) -> Seq<char> {
    if extension(exe) == Some("o"@) {
        with_extension(exe, "obj.o"@)
    } else {
        with_extension(exe, "o"@)
    }
}

/// The object file of an executable, which is never the executable itself:
/// `foo.o` is built from `foo.obj.o`.
pub fn obj_path_for_exe(exe: &str) -> (r: String)
    ensures
        r@ == object_of(exe@),
{
    let is_o = match path_extension(exe) {
        Some(e) => same(e.as_str(), "o"),
        None => false,
    };
    if is_o {
        set_extension(exe, "obj.o")
    } else {
        set_extension(exe, "o")
    }
}

// ---------------------------------------------------------------------------
// Freshness
// ---------------------------------------------------------------------------

/// The record next to an executable of what produced it.
pub fn stamp_path(exe: &str) -> (r: String)
    ensures
        r@ == exe@ + ".hellastamp"@,
{
    let mut p = String::from_str(exe);
    p.append(".hellastamp");
    p
}

/// What produced a binary: the profile, the toolchain and the linked runtime.
pub open spec fn stamp_text(toolchain: Seq<char>, release: bool, needs_async: bool) -> Seq<char> {
    "profile="@ + profile_name(release) + "\ntoolchain=hella "@ + toolchain + "\nasync="@ + (
    if needs_async {
        "runtime"@
    } else {
        "none"@
    }) + "\n"@
}

/// The contents of a build stamp. The linked runtime is part of what produced a
/// binary, so a program that starts or stops needing it is built anew.
pub fn stamp_contents(toolchain: &str, release: bool, needs_async: bool) -> (r: String)
    ensures
        r@ == stamp_text(toolchain@, release, needs_async),
{
    let mut out = String::from_str("profile=");
    out.append(profile(release));
    out.append("\ntoolchain=hella ");
    out.append(toolchain);
    out.append("\nasync=");
    out.append(
        if needs_async {
            "runtime"
        } else {
            "none"
        },
    );
    out.append("\n");
    out
}

/// Every source has a time, and none is later than `exe`.
pub open spec fn none_newer(sources: Seq<Option<i128>>, exe: i128) -> bool {
    forall|i: int|
        0 <= i < sources.len() ==> ((#[trigger] sources[i]) matches Some(t) && t <= exe)
}

/// The binary is up to date: it exists, its stamp is what a build would write,
/// and no source is newer.
pub open spec fn fresh(
    exe: Option<i128>,
    stamp: Option<Seq<char>>,
    expected: Seq<char>,
    sources: Seq<Option<i128>>,
) -> bool {
    exe matches Some(t) && stamp == Some(expected) && none_newer(sources, t)
}

/// Whether a binary is up to date, given its modification time, its stamp, the
/// stamp that a build would write, and the modification times of its sources.
/// A missing file or time means that it is not.
pub fn is_fresh(
    exe: Option<i128>,
    stamp: Option<&str>,
    expected: &str,
    sources: &Vec<Option<i128>>,
) -> (r: bool)
    ensures
        r == fresh(exe, opt_str(stamp), expected@, sources@),
{
    let t: i128 = match exe {
        Some(t) => t,
        None => {
            return false;
        },
    };
    let matching: bool = match stamp {
        Some(s) => same(s, expected),
        None => false,
    };
    if !matching {
        return false;
    }
    let mut i: usize = 0;
    while i < sources.len()
        invariant
            i <= sources@.len(),
            exe == Some(t),
            opt_str(stamp) == Some(expected@),
            forall|k: int|
                0 <= k < i ==> ((#[trigger] sources@[k]) matches Some(x) && x <= t),
        decreases sources@.len() - i,
    {
        match sources[i] {
            Some(x) => {
                if x > t {
                    assert(!(sources@[i as int] matches Some(y) && y <= t));
                    return false;
                }
            },
            None => {
                assert(!(sources@[i as int] matches Some(y) && y <= t));
                return false;
            },
        }
        i += 1;
    }
    true
}

// ---------------------------------------------------------------------------
// Linking
// ---------------------------------------------------------------------------

/// A part of the runtime that is compiled and linked along.
#[derive(Clone, Copy, Debug, PartialEq, Eq, Structural)]
pub enum Runtime {
    /// Names that the C library of Windows lacks.
    Shim,
    /// Structured concurrency.
    Async,
    /// Mutexes, channels, clocks and sockets.
    Sync,
}

/// The parts of the runtime that a program needs, in link order.
pub open spec fn runtimes(windows: bool, needs_async: bool, needs_sync: bool) -> Seq<Runtime> {
    (if windows {
        seq![Runtime::Shim]
    } else {
        Seq::empty()
    }) + (if needs_async {
        seq![Runtime::Async]
    } else {
        Seq::empty()
    }) + (if needs_sync {
        seq![Runtime::Sync]
    } else {
        Seq::empty()
    })
}

/// The parts of the runtime that a program needs: nothing that it does not.
pub fn needed_runtimes(windows: bool, needs_async: bool, needs_sync: bool) -> (r: Vec<Runtime>)
    ensures
        r@ == runtimes(windows, needs_async, needs_sync),
{
    let mut out: Vec<Runtime> = Vec::new();
    if windows {
        out.push(Runtime::Shim);
    }
    if needs_async {
        out.push(Runtime::Async);
    }
    if needs_sync {
        out.push(Runtime::Sync);
    }
    assert(out@ =~= runtimes(windows, needs_async, needs_sync));
    out
}

pub open spec fn unit_name(rt: Runtime) -> Seq<char> {
    match rt {
        Runtime::Shim => "hella_rt_gen"@,
        Runtime::Async => "hella_async_gen"@,
        Runtime::Sync => "hella_sync_gen"@,
    }
}

/// The source of a runtime part, next to the object file.
pub open spec fn runtime_source(obj: Seq<char>, rt: Runtime) -> Seq<char> {
    with_name(obj, unit_name(rt) + ".c"@)
}

/// The object of a runtime part, next to the object file.
pub open spec fn runtime_object(obj: Seq<char>, rt: Runtime) -> Seq<char> {
    with_name(obj, unit_name(rt) + ".o"@)
}

/// The part needs threads from the C library.
pub open spec fn threaded(rt: Runtime, windows: bool) -> bool {
    rt != Runtime::Shim && !windows
}

fn unit(rt: Runtime) -> (r: &'static str)
    ensures
        r@ == unit_name(rt),
{
    match rt {
        Runtime::Shim => "hella_rt_gen",
        Runtime::Async => "hella_async_gen",
        Runtime::Sync => "hella_sync_gen",
    }
}

fn sibling(obj: &str, rt: Runtime, ending: &str) -> (r: String)
    ensures
        r@ == with_name(obj@, unit_name(rt) + ending@),
{
    let mut name = String::from_str(unit(rt));
    name.append(ending);
    set_name(obj, name.as_str())
}

/// Where the source of a runtime part is written.
pub fn runtime_source_path(obj: &str, rt: Runtime) -> (r: String)
    ensures
        r@ == runtime_source(obj@, rt),
{
    sibling(obj, rt, ".c")
}

/// Where the object of a runtime part goes.
pub fn runtime_object_path(obj: &str, rt: Runtime) -> (r: String)
    ensures
        r@ == runtime_object(obj@, rt),
{
    sibling(obj, rt, ".o")
}

pub open spec fn thread_flag(rt: Runtime, windows: bool) -> Seq<Seq<char>> {
    if threaded(rt, windows) {
        seq!["-pthread"@]
    } else {
        Seq::empty()
    }
}

/// The arguments that compile a runtime part.
pub open spec fn compile_words(obj: Seq<char>, rt: Runtime, windows: bool) -> Seq<Seq<char>> {
    seq!["-c"@, runtime_source(obj, rt), "-o"@, runtime_object(obj, rt)] + thread_flag(rt, windows)
}

fn is_threaded(rt: Runtime, windows: bool) -> (r: bool)
    ensures
        r == threaded(rt, windows),
{
    match rt {
        Runtime::Shim => false,
        Runtime::Async | Runtime::Sync => !windows,
    }
}

/// The arguments that compile a runtime part.
pub fn compile_args(obj: &str, rt: Runtime, windows: bool) -> (r: Vec<String>)
    ensures
        texts(r@) == compile_words(obj@, rt, windows),
{
    let mut v: Vec<String> = Vec::new();
    v.push(String::from_str("-c"));
    v.push(runtime_source_path(obj, rt));
    v.push(String::from_str("-o"));
    v.push(runtime_object_path(obj, rt));
    if is_threaded(rt, windows) {
        v.push(String::from_str("-pthread"));
    }
    assert(texts(v@) =~= compile_words(obj@, rt, windows));
    v
}

/// The link arguments of the first `n` runtime parts.
pub open spec fn runtime_words(obj: Seq<char>, rts: Seq<Runtime>, windows: bool, n: int) -> Seq<
    Seq<char>,
>
    decreases n,
{
    if n <= 0 {
        Seq::empty()
    } else {
        runtime_words(obj, rts, windows, n - 1) + seq![runtime_object(obj, rts[n - 1])]
            + thread_flag(rts[n - 1], windows)
    }
}

/// The arguments of the final link.
pub open spec fn link_words(
    obj: Seq<char>,
    exe: Seq<char>,
    rts: Seq<Runtime>,
    windows: bool,
    linux: bool,
) -> Seq<Seq<char>> {
    runtime_words(obj, rts, windows, rts.len() as int) + seq![obj, "-o"@, exe] + (if linux {
        seq!["-lm"@, "-no-pie"@]
    } else {
        Seq::empty()
    })
}

/// The arguments of the final link: runtime parts, the program, and on Linux
/// the math library, which the C library does not hold there, and a plain
/// executable, since objects hold absolute addresses.
pub fn link_args(obj: &str, exe: &str, rts: &Vec<Runtime>, windows: bool, linux: bool) -> (r: Vec<
    String,
>)
    ensures
        texts(r@) == link_words(obj@, exe@, rts@, windows, linux),
{
    let mut v: Vec<String> = Vec::new();
    let mut i: usize = 0;
    assert(texts(v@) =~= Seq::<Seq<char>>::empty());
    while i < rts.len()
        invariant
            i <= rts@.len(),
            texts(v@) == runtime_words(obj@, rts@, windows, i as int),
        decreases rts@.len() - i,
    {
        let ghost had = texts(v@);
        let o = runtime_object_path(obj, rts[i]);
        v.push(o);
        assert(texts(v@) =~= had + seq![o@]);
        let ghost more = texts(v@);
        if is_threaded(rts[i], windows) {
            v.push(String::from_str("-pthread"));
        }
        assert(texts(v@) =~= more + thread_flag(rts@[i as int], windows));
        i += 1;
    }
    let ghost had = texts(v@);
    v.push(String::from_str(obj));
    v.push(String::from_str("-o"));
    v.push(String::from_str(exe));
    assert(texts(v@) =~= had + seq![obj@, "-o"@, exe@]);
    let ghost more = texts(v@);
    if linux {
        v.push(String::from_str("-lm"));
        v.push(String::from_str("-no-pie"));
    }
    assert(texts(v@) =~= more + (if linux {
        seq!["-lm"@, "-no-pie"@]
    } else {
        Seq::empty()
    }));
    v
}

/// How to get a C linker on a system.
pub open spec fn hint_text(os: Seq<char>) -> Seq<char> {
    if os == "macos"@ {
        "install the Xcode command line tools (`xcode-select --install`)"@
    } else if os == "windows"@ {
        "install LLVM (https://releases.llvm.org/download.html) or set HELLA_LINKER"@
    } else {
        "install clang or gcc (e.g. `apt install clang`) or set HELLA_LINKER"@
    }
}

/// How to get a C linker on a system.
pub fn link_hint(os: &str) -> (r: &'static str)
    ensures
        r@ == hint_text(os@),
{
    if same(os, "macos") {
        "install the Xcode command line tools (`xcode-select --install`)"
    } else if same(os, "windows") {
        "install LLVM (https://releases.llvm.org/download.html) or set HELLA_LINKER"
    } else {
        "install clang or gcc (e.g. `apt install clang`) or set HELLA_LINKER"
    }
}

/// The linker to use.
pub open spec fn linker(chosen: Option<Seq<char>>, has_clang: bool, has_cc: bool, os: Seq<char>)
    -> Result<Seq<char>, Seq<char>> {
    match chosen {
        Some(l) if trim(l).len() > 0 => Ok(l),
        _ => if has_clang {
            Ok("clang"@)
        } else if has_cc {
            Ok("cc"@)
        } else {
            Err("no C linker found (tried `clang`, `cc`) — "@ + hint_text(os))
        },
    }
}

/// The C linker: the one that was chosen unless it is blank, else the first of
/// `clang` and `cc` that is there.
pub fn find_linker(chosen: Option<&str>, has_clang: bool, has_cc: bool, os: &str) -> (r: Result<
    String,
    String,
>)
    ensures
        text_result(r) == linker(opt_str(chosen), has_clang, has_cc, os@),
{
    if let Some(l) = chosen {
        if chars_of(trim_str(l).as_str()).len() > 0 {
            return Ok(String::from_str(l));
        }
    }
    if has_clang {
        return Ok(String::from_str("clang"));
    }
    if has_cc {
        return Ok(String::from_str("cc"));
    }
    let mut m = String::from_str("no C linker found (tried `clang`, `cc`) — ");
    m.append(link_hint(os));
    Err(m)
}

/// The exit code to hand on after a program ran: its own, one where a signal
/// ended it, none after success.
pub fn exit_code(code: Option<i32>, success: bool) -> (r: Option<i32>)
    ensures
        r == match code {
            Some(c) if c != 0 => Some(c),
            _ => if success {
                None
            } else {
                Some(1i32)
            },
        },
{
    match code {
        Some(c) => {
            if c != 0 {
                return Some(c);
            }
        },
        None => {},
    }
    if success {
        None
    } else {
        Some(1)
    }
}

// ---------------------------------------------------------------------------
// Laws
// ---------------------------------------------------------------------------

/// The object file never is the executable.
pub proof fn law_object_is_not_executable(exe: Seq<char>)
    requires
        has_name(exe),
    ensures
        object_of(exe) != exe,
{
    reveal_strlit("/");
    reveal_strlit(".");
    reveal_strlit("..");
    reveal_strlit("o");
    reveal_strlit("obj.o");
    let p = unslashed_end(exe);
    let n = name_start(exe);
    let name = file_name(exe);
    lemma_rfind(p, "/"@);
    lemma_rfind(name, "."@);
    lemma_drop_end_prefix(exe);
    assert(p =~= p.take(n) + name);
    let dir = p.take(n);
    let st = stem(name);
    if object_of(exe) == exe {
        match rfind(name, "."@) {
            Some(k) if k > 0 => {
                let ext = name.skip(k + 1);
                assert(name.subrange(k, k + 1)[0] == '.');
                assert(name =~= st + "."@ + ext);
                if ext == "o"@ {
                    assert(exe.len() == dir.len() + st.len() + 6);
                    assert(p.len() == dir.len() + st.len() + 2);
                    assert(exe.last() == 'o');
                    assert(p == exe);
                } else {
                    assert(exe.last() == 'o');
                    assert(p == exe);
                    assert(dir + st + "."@ + ext =~= p);
                    assert(dir + st + "."@ + "o"@ == p);
                    assert(ext.len() == 1);
                    assert(ext =~= "o"@);
                }
            },
            _ => {
                assert(st == name);
                assert(exe.len() == p.len() + 2);
                assert(exe.last() == 'o');
                assert(p == exe);
            },
        }
    }
}

proof fn lemma_drop_end_prefix(s: Seq<char>)
    ensures
        unslashed_end(s).len() <= s.len(),
        s.len() > 0 && s.last() != '/' && s.last() != '.' ==> unslashed_end(s) == s,
    decreases s.len(),
{
    if s.len() > 0 && s.last() == '/' {
        lemma_drop_end_prefix(s.drop_last());
    } else if s.len() > 1 && s.last() == '.' && s[s.len() - 2] == '/' {
        lemma_drop_end_prefix(s.take(s.len() - 2));
    }
}

/// A synchronous program links no runtime outside Windows, and no part of it is
/// linked that is not needed.
pub proof fn law_no_runtime_without_need(windows: bool, needs_async: bool, needs_sync: bool)
    ensures
        runtimes(windows, needs_async, needs_sync).contains(Runtime::Async) <==> needs_async,
        runtimes(windows, needs_async, needs_sync).contains(Runtime::Sync) <==> needs_sync,
        runtimes(windows, needs_async, needs_sync).contains(Runtime::Shim) <==> windows,
        runtimes(false, false, false).len() == 0,
{
    let rs = runtimes(windows, needs_async, needs_sync);
    let a: int = if windows {
        1
    } else {
        0
    };
    let b: int = a + if needs_async {
        1int
    } else {
        0int
    };
    if windows {
        assert(rs[0] == Runtime::Shim);
    }
    if needs_async {
        assert(rs[a] == Runtime::Async);
    }
    if needs_sync {
        assert(rs[b] == Runtime::Sync);
    }
}

/// A binary whose stamp was written for another profile or runtime is never
/// fresh.
pub proof fn law_other_profile_is_stale(
    toolchain: Seq<char>,
    release: bool,
    needs_async: bool,
    exe: Option<i128>,
    sources: Seq<Option<i128>>,
)
    ensures
        !fresh(
            exe,
            Some(stamp_text(toolchain, !release, needs_async)),
            stamp_text(toolchain, release, needs_async),
            sources,
        ),
        !fresh(
            exe,
            Some(stamp_text(toolchain, release, !needs_async)),
            stamp_text(toolchain, release, needs_async),
            sources,
        ),
{
    reveal_strlit("release");
    reveal_strlit("debug");
    reveal_strlit("runtime");
    reveal_strlit("none");
    let a = stamp_text(toolchain, true, needs_async);
    let b = stamp_text(toolchain, false, needs_async);
    assert(a.len() == b.len() + 2);
    let c = stamp_text(toolchain, release, true);
    let d = stamp_text(toolchain, release, false);
    assert(c.len() == d.len() + 3);
}

} // verus!
