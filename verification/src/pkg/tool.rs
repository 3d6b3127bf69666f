//! Installed tools: their names, files and entry points.
use crate::modules::layout::opt_str;
use crate::paths::{join_path, joined};
use crate::pkg::fetch::text_result;
use crate::text::{chars_of, ends, ends_with, has_char, opt_text, same, texts, trim, trim_str};
use vstd::prelude::*;
use vstd::string::*;

verus! {

/// The file name of a tool: with `.exe` where the system needs it.
pub open spec fn exe_name(tool: Seq<char>, windows: bool) -> Seq<char> {
    if windows && !ends(tool, ".exe"@) {
        tool + ".exe"@
    } else {
        tool
    }
}

/// The binary of a tool in `bin_dir`, with `.exe` on Windows.
pub fn bin_path(bin_dir: &str, tool: &str, windows: bool) -> (r: String)
    ensures
        r@ == joined(bin_dir@, exe_name(tool@, windows)),
{
    let mut name = String::from_str(tool);
    if windows && !ends_with(&chars_of(tool), ".exe") {
        name.append(".exe");
    }
    join_path(bin_dir, name.as_str())
}

/// A plain file name: not empty, no `.` or `..`, without separators and NUL.
pub open spec fn plain_name(name: Seq<char>) -> bool {
    &&& name.len() > 0
    &&& name != "."@
    &&& name != ".."@
    &&& !name.contains('/')
    &&& !name.contains('\\')
    &&& !name.contains('\0')
}

pub open spec fn bad_name(name: Seq<char>) -> Seq<char> {
    "invalid tool name `"@ + name + "` (must be a plain file name)"@
}

/// Checks that a tool name can be a file name.
pub fn validate_tool_name(name: &str) -> (r: Result<(), String>)
    ensures
        r is Ok <==> plain_name(name@),
        r matches Err(m) ==> m@ == bad_name(name@),
{
    let n = chars_of(name);
    if n.len() == 0 || same(name, ".") || same(name, "..") || has_char(&n, '/') || has_char(
        &n,
        '\\',
    ) || has_char(&n, '\0') {
        let mut m = String::from_str("invalid tool name `");
        m.append(name);
        m.append("` (must be a plain file name)");
        return Err(m);
    }
    Ok(())
}

/// The entry point of a tool repository, given which of the two candidates
/// exist: `src/main.hll`, else `main.hll`.
pub fn tool_entry(git: &str, has_src_main: bool, has_main: bool) -> (r: Result<String, String>)
    ensures
        text_result(r) == if has_src_main {
            Ok::<Seq<char>, Seq<char>>("src/main.hll"@)
        } else if has_main {
            Ok("main.hll"@)
        } else {
            Err(
                "tool repository `"@ + git@
                    + "` has no entry point (looked for src/main.hll and main.hll)"@,
            )
        },
{
    if has_src_main {
        Ok(String::from_str("src/main.hll"))
    } else if has_main {
        Ok(String::from_str("main.hll"))
    } else {
        let mut m = String::from_str("tool repository `");
        m.append(git);
        m.append("` has no entry point (looked for src/main.hll and main.hll)");
        Err(m)
    }
}

/// The name of a tool: the one asked for unless it is blank, else that of its
/// manifest, else the one that its source suggests.
pub open spec fn picked_name(
    asked: Option<Seq<char>>,
    manifest: Option<Seq<char>>,
    derived: Seq<char>,
) -> Seq<char> {
    match asked {
        Some(n) if trim(n).len() > 0 => trim(n),
        _ => match manifest {
            Some(m) => m,
            None => derived,
        },
    }
}

/// Chooses the binary name of a tool and checks that it can be a file name.
pub fn tool_name(asked: Option<&str>, manifest: Option<&str>, derived: &str) -> (r: Result<
    String,
    String,
>)
    ensures
        text_result(r) == ({
            let n = picked_name(opt_str(asked), opt_str(manifest), derived@);
            if plain_name(n) {
                Ok::<Seq<char>, Seq<char>>(n)
            } else {
                Err(bad_name(n))
            }
        }),
{
    let mut name: Option<String> = None;
    if let Some(n) = asked {
        let t = trim_str(n);
        if chars_of(t.as_str()).len() > 0 {
            name = Some(t);
        }
    }
    let chosen = match name {
        Some(n) => n,
        None => match manifest {
            Some(m) => String::from_str(m),
            None => String::from_str(derived),
        },
    };
    match validate_tool_name(chosen.as_str()) {
        Ok(_) => Ok(chosen),
        Err(m) => Err(m),
    }
}

/// A tool repository that was cloned and can be built.
#[derive(Debug)]
pub struct PreparedTool {
    pub dir: String,
    pub entry: String,
    pub name: String,
}

/// What is found in the clone of a tool repository.
#[derive(Debug)]
pub struct ToolClone {
    pub dir: String,
    pub has_src_main: bool,
    pub has_main: bool,
    /// The package name of its manifest, where it can be read.
    pub manifest_name: Option<String>,
}

pub open spec fn tool_result(r: Result<PreparedTool, String>) -> Result<
    (Seq<char>, Seq<char>, Seq<char>),
    Seq<char>,
> {
    match r {
        Ok(t) => Ok((t.dir@, t.entry@, t.name@)),
        Err(m) => Err(m@),
    }
}

/// Directory, entry and name of a tool, or why it cannot be built.
pub open spec fn prepared(
    git: Seq<char>,
    derived: Seq<char>,
    clone: ToolClone,
    asked: Option<Seq<char>>,
) -> Result<(Seq<char>, Seq<char>, Seq<char>), Seq<char>> {
    let name = picked_name(asked, opt_text(clone.manifest_name), derived);
    if !clone.has_src_main && !clone.has_main {
        Err(
            "tool repository `"@ + git
                + "` has no entry point (looked for src/main.hll and main.hll)"@,
        )
    } else if !plain_name(name) {
        Err(bad_name(name))
    } else {
        Ok(
            (
                clone.dir@,
                joined(
                    clone.dir@,
                    if clone.has_src_main {
                        "src/main.hll"@
                    } else {
                        "main.hll"@
                    },
                ),
                name,
            ),
        )
    }
}

/// Finds the entry of a cloned tool and chooses its name. `git` is its source,
/// `derived` the name that the source suggests, `asked` the name asked for.
pub fn prepare_tool(git: &str, derived: &str, clone: &ToolClone, asked: Option<&str>) -> (r: Result<
    PreparedTool,
    String,
>)
    ensures
        tool_result(r) == prepared(git@, derived@, *clone, opt_str(asked)),
{
    let rel = match tool_entry(git, clone.has_src_main, clone.has_main) {
        Ok(e) => e,
        Err(m) => {
            return Err(m);
        },
    };
    let manifest: Option<&str> = match &clone.manifest_name {
        Some(n) => Some(n.as_str()),
        None => None,
    };
    assert(opt_str(manifest) == opt_text(clone.manifest_name));
    let name = match tool_name(asked, manifest, derived) {
        Ok(n) => n,
        Err(m) => {
            return Err(m);
        },
    };
    Ok(
        PreparedTool {
            dir: clone.dir.clone(),
            entry: join_path(clone.dir.as_str(), rel.as_str()),
            name,
        },
    )
}

/// The files that may be the binary of a tool, best first.
pub open spec fn binaries(bin_dir: Seq<char>, tool: Seq<char>, windows: bool) -> Seq<Seq<char>> {
    let plain = joined(bin_dir, tool);
    let exe = joined(bin_dir, exe_name(tool, windows));
    if plain == exe {
        seq![plain]
    } else {
        seq![plain, exe]
    }
}

/// The files that uninstalling a tool looks for; an error where the name cannot
/// be one.
pub fn uninstall_candidates(bin_dir: &str, tool: &str, windows: bool) -> (r: Result<
    Vec<String>,
    String,
>)
    ensures
        r is Ok <==> plain_name(tool@),
        r matches Ok(v) ==> texts(v@) == binaries(bin_dir@, tool@, windows),
        r matches Err(m) ==> m@ == bad_name(tool@),
{
    match validate_tool_name(tool) {
        Ok(_) => {},
        Err(m) => {
            return Err(m);
        },
    }
    let mut out: Vec<String> = Vec::new();
    let plain = join_path(bin_dir, tool);
    let exe = bin_path(bin_dir, tool, windows);
    let both = !same(plain.as_str(), exe.as_str());
    out.push(plain);
    if both {
        out.push(exe);
    }
    assert(texts(out@) =~= binaries(bin_dir@, tool@, windows));
    Ok(out)
}

/// What is said where no tool of the name is installed.
pub fn not_installed(bin_dir: &str, tool: &str) -> (r: String)
    ensures
        r@ == "no installed tool named `"@ + tool@ + "` (looked in "@ + bin_dir@ + ")"@,
{
    let mut m = String::from_str("no installed tool named `");
    m.append(tool);
    m.append("` (looked in ");
    m.append(bin_dir);
    m.append(")");
    m
}

/// A tool never leaves its directory: a name that passes has no separator and
/// is no directory name.
pub proof fn law_tool_names_stay_in_bin(tool: Seq<char>, windows: bool)
    requires
        plain_name(tool),
    ensures
        !exe_name(tool, windows).contains('/'),
        !exe_name(tool, windows).contains('\\'),
{
    reveal_strlit(".exe");
    let n = exe_name(tool, windows);
    if n.contains('/') {
        let k = choose|k: int| 0 <= k < n.len() && n[k] == '/';
        if k < tool.len() {
            assert(tool[k] == '/');
        } else {
            assert(".exe"@[k - tool.len()] == '/');
        }
    }
    if n.contains('\\') {
        let k = choose|k: int| 0 <= k < n.len() && n[k] == '\\';
        if k < tool.len() {
            assert(tool[k] == '\\');
        } else {
            assert(".exe"@[k - tool.len()] == '\\');
        }
    }
}

} // verus!
