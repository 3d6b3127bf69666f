//! New projects and the installed standard library.
use crate::text::{chars_of, same};
use vstd::prelude::*;
use vstd::string::*;

verus! {

/// What stands where a project is to be created.
#[derive(Clone, Copy, Debug, PartialEq, Eq, Structural)]
pub enum Spot {
    Free,
    EmptyDir,
    FullDir,
    NotADir,
}

/// A file of a new project, relative to its root.
#[derive(Debug)]
pub struct NewFile {
    pub path: String,
    pub contents: String,
}

pub open spec fn new_files(v: Seq<NewFile>) -> Seq<(Seq<char>, Seq<char>)> {
    Seq::new(v.len(), |i: int| (v[i].path@, v[i].contents@))
}

/// The text of a string as `Debug` shows it.
pub uninterp spec fn debug_text(s: Seq<char>) -> Seq<char>;

/// `Debug` of a string: in double quotes, with escapes where needed. Printable
/// ASCII without quotes and backslashes stands as it is.
#[verifier::external_body]
fn show_debug(s: &str) -> (r: String)
    ensures
        r@ == debug_text(s@),
        is_printable(s@) ==> r@ == "\""@ + s@ + "\""@,
{
    format!("{s:?}")
}

/// Printable ASCII without quotes and backslashes.
pub open spec fn is_printable(s: Seq<char>) -> bool {
    forall|i: int|
        0 <= i < s.len() ==> ' ' <= #[trigger] s[i] <= '~' && s[i] != '"' && s[i] != '\\' && s[i]
            != '\''
}

/// The entry file of a new project.
pub open spec fn entry_text(name: Seq<char>, lib: bool) -> Seq<char> {
    if lib {
        "// "@ + name
            + " — Hella library.\n//\n// Add modules next to this file and import them by file name:\n// `import mymod` → `mymod.hll`, `import net::http` → `net/http.hll`.\n\nstring greet(string name) do\n    return \"hello {name}\"\nend\n"@
    } else {
        "// "@ + name
            + " — Hella binary project.\n\nimport std::io\n\nvoid main() do\n    println(\"Hello from "@
            + name + "!\")\nend\n"@
    }
}

/// The manifest of a new project.
pub open spec fn manifest_start(name: Seq<char>) -> Seq<char> {
    "name = \""@ + name
        + "\"\nversion = \"0.1.0\"\n\n# Third-party libraries live here once added:\n# `hella add github.com/owner/repo[@rev]` appends\n# `[dependencies]` and pins the exact SHA in `hella.lock`.\n"@
}

/// The files of a new project.
pub open spec fn project_files(name: Seq<char>, lib: bool) -> Seq<(Seq<char>, Seq<char>)> {
    seq![
        ("hella.toml"@, manifest_start(name)),
        (
            if lib {
                "src/lib.hll"@
            } else {
                "src/main.hll"@
            },
            entry_text(name, lib),
        ),
        (".gitignore"@, "/out/\n"@),
    ]
}

/// The plan of a new project, or why it cannot be created. The version control
/// is looked at first, then the name, then what stands there.
pub open spec fn new_project(
    path: Seq<char>,
    name: Option<Seq<char>>,
    spot: Spot,
    lib: bool,
    vcs: Seq<char>,
) -> Result<Seq<(Seq<char>, Seq<char>)>, Seq<char>> {
    if vcs != "git"@ && vcs != "none"@ {
        Err(
            "unsupported --vcs "@ + debug_text(vcs) + ": only `git` and `none` for now"@,
        )
    } else {
        match name {
            Some(n) if n.len() > 0 => match spot {
                Spot::NotADir => Err(path + " exists and is not a directory"@),
                Spot::FullDir => Err(path + " already exists and is not empty"@),
                Spot::Free | Spot::EmptyDir => Ok(project_files(n, lib)),
            },
            _ => Err("invalid project path: "@ + path),
        }
    }
}

pub open spec fn plan_result(r: Result<Vec<NewFile>, String>) -> Result<
    Seq<(Seq<char>, Seq<char>)>,
    Seq<char>,
> {
    match r {
        Ok(v) => Ok(new_files(v@)),
        Err(m) => Err(m@),
    }
}

fn entry_source(name: &str, lib: bool) -> (r: String)
    ensures
        r@ == entry_text(name@, lib),
{
    let mut out = String::from_str("// ");
    out.append(name);
    if lib {
        out.append(
            " — Hella library.\n//\n// Add modules next to this file and import them by file name:\n// `import mymod` → `mymod.hll`, `import net::http` → `net/http.hll`.\n\nstring greet(string name) do\n    return \"hello {name}\"\nend\n",
        );
    } else {
        out.append(
            " — Hella binary project.\n\nimport std::io\n\nvoid main() do\n    println(\"Hello from ",
        );
        out.append(name);
        out.append("!\")\nend\n");
    }
    out
}

/// The files of a project called `name`.
pub fn scaffold(name: &str, lib: bool) -> (r: Vec<NewFile>)
    ensures
        new_files(r@) == project_files(name@, lib),
{
    let mut manifest = String::from_str("name = \"");
    manifest.append(name);
    manifest.append(
        "\"\nversion = \"0.1.0\"\n\n# Third-party libraries live here once added:\n# `hella add github.com/owner/repo[@rev]` appends\n# `[dependencies]` and pins the exact SHA in `hella.lock`.\n",
    );
    let mut out: Vec<NewFile> = Vec::new();
    out.push(NewFile { path: String::from_str("hella.toml"), contents: manifest });
    out.push(
        NewFile {
            path: String::from_str(
                if lib {
                    "src/lib.hll"
                } else {
                    "src/main.hll"
                },
            ),
            contents: entry_source(name, lib),
        },
    );
    out.push(
        NewFile { path: String::from_str(".gitignore"), contents: String::from_str("/out/\n") },
    );
    assert(new_files(out@) =~= project_files(name@, lib));
    out
}

/// The error for a version control that is not supported, given how it is shown.
pub fn unsupported_vcs(shown: &str) -> (r: String)
    ensures
        r@ == "unsupported --vcs "@ + shown@ + ": only `git` and `none` for now"@,
{
    let mut m = String::from_str("unsupported --vcs ");
    m.append(shown);
    m.append(": only `git` and `none` for now");
    m
}

/// Plans a new project: its files, or why it cannot be created. `name` is the
/// last segment of the path.
pub fn plan_new(path: &str, name: Option<&str>, spot: Spot, lib: bool, vcs: &str) -> (r: Result<
    Vec<NewFile>,
    String,
>)
    ensures
        plan_result(r) == new_project(
            path@,
            crate::modules::layout::opt_str(name),
            spot,
            lib,
            vcs@,
        ),
{
    if !same(vcs, "git") && !same(vcs, "none") {
        return Err(unsupported_vcs(show_debug(vcs).as_str()));
    }
    let chosen: Option<&str> = match name {
        Some(n) => if chars_of(n).len() > 0 {
            Some(n)
        } else {
            None
        },
        None => None,
    };
    let n = match chosen {
        Some(n) => n,
        None => {
            let mut m = String::from_str("invalid project path: ");
            m.append(path);
            return Err(m);
        },
    };
    match spot {
        Spot::NotADir => {
            let mut m = String::from_str(path);
            m.append(" exists and is not a directory");
            Err(m)
        },
        Spot::FullDir => {
            let mut m = String::from_str(path);
            m.append(" already exists and is not empty");
            Err(m)
        },
        Spot::Free | Spot::EmptyDir => Ok(scaffold(n, lib)),
    }
}

/// Whether `hella setup` writes a library file: a new one always, an existing
/// one only when forced.
pub fn setup_writes(exists_already: bool, force: bool) -> (r: bool)
    ensures
        r == (!exists_already || force),
{
    !exists_already || force
}

/// A new project never takes the place of something: what stands there is
/// nothing or an empty directory.
pub proof fn law_nothing_is_overwritten(
    path: Seq<char>,
    name: Option<Seq<char>>,
    spot: Spot,
    lib: bool,
    vcs: Seq<char>,
)
    requires
        new_project(path, name, spot, lib, vcs) is Ok,
    ensures
        spot == Spot::Free || spot == Spot::EmptyDir,
{
}

} // verus!
