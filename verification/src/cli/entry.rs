//! The entry file of a command, and the project around it.
use crate::modules::layout::{manifest_dir, Ancestor};
use crate::paths::{join_path, joined};
use crate::text::opt_text;
use vstd::prelude::*;
use vstd::string::*;

verus! {

/// A project: its root, which holds `hella.toml`, and the name of its binary.
#[derive(Debug)]
pub struct Project {
    pub root: String,
    pub bin_name: String,
}

/// An entry file, with the project it belongs to unless it was named.
#[derive(Debug)]
pub struct ResolvedEntry {
    pub path: String,
    pub project: Option<Project>,
}

pub open spec fn profile_name(release: bool) -> Seq<char> {
    if release {
        "release"@
    } else {
        "debug"@
    }
}

/// The name of a build profile.
pub fn profile(release: bool) -> (r: &'static str)
    ensures
        r@ == profile_name(release),
{
    if release {
        "release"
    } else {
        "debug"
    }
}

impl Project {
    /// `out/debug` or `out/release` under the project root.
    pub fn out_dir(&self, release: bool) -> (r: String)
        ensures
            r@ == joined(joined(self.root@, "out"@), profile_name(release)),
    {
        let out = join_path(self.root.as_str(), "out");
        join_path(out.as_str(), profile(release))
    }

    /// The file name of the binary, with `.exe` on Windows.
    pub fn bin_filename(&self, windows: bool) -> (r: String)
        ensures
            r@ == if windows {
                self.bin_name@ + ".exe"@
            } else {
                self.bin_name@
            },
    {
        let mut name = self.bin_name.clone();
        if windows {
            name.append(".exe");
        }
        name
    }

    pub open spec fn binary(&self, release: bool, windows: bool) -> Seq<char> {
        joined(
            joined(joined(self.root@, "out"@), profile_name(release)),
            if windows {
                self.bin_name@ + ".exe"@
            } else {
                self.bin_name@
            },
        )
    }

    /// Where the binary goes.
    pub fn binary_path(&self, release: bool, windows: bool) -> (r: String)
        ensures
            r@ == self.binary(release, windows),
    {
        let dir = self.out_dir(release);
        join_path(dir.as_str(), self.bin_filename(windows).as_str())
    }
}

/// The nearest directory with a `hella.toml`; `up` lists the start directory
/// and those above it, nearest first.
pub fn find_project_root(up: &Vec<Ancestor>) -> (r: Option<String>)
    ensures
        opt_text(r) == manifest_dir(up@),
{
    let mut i: usize = 0;
    assert(up@.skip(0) =~= up@);
    while i < up.len()
        invariant
            i <= up@.len(),
            manifest_dir(up@) == manifest_dir(up@.skip(i as int)),
        decreases up@.len() - i,
    {
        if up[i].has_manifest {
            return Some(up[i].path.clone());
        }
        assert(up@.skip(i as int).skip(1) =~= up@.skip(i + 1));
        i += 1;
    }
    None
}

/// What reading the manifest of a project gave: its name, that there is none,
/// or why it cannot be used.
#[derive(Debug)]
pub enum ManifestRead {
    Named(String),
    Missing,
    Invalid(String),
}

/// An entry as mathematical text: its path, and root and binary name of its
/// project.
pub open spec fn entry_view(e: ResolvedEntry) -> (Seq<char>, Option<(Seq<char>, Seq<char>)>) {
    (
        e.path@,
        match e.project {
            Some(p) => Some((p.root@, p.bin_name@)),
            None => None,
        },
    )
}

pub open spec fn entry_result(r: Result<ResolvedEntry, String>) -> Result<
    (Seq<char>, Option<(Seq<char>, Seq<char>)>),
    Seq<char>,
> {
    match r {
        Ok(e) => Ok(entry_view(e)),
        Err(m) => Err(m@),
    }
}

/// The entry of the project at `root`: `src/main.hll`, else `src/lib.hll`.
pub open spec fn project_entry(
    root: Seq<char>,
    manifest: ManifestRead,
    has_main: bool,
    has_lib: bool,
) -> Result<(Seq<char>, Option<(Seq<char>, Seq<char>)>), Seq<char>> {
    match manifest {
        ManifestRead::Invalid(e) => Err(
            "invalid "@ + joined(root, "hella.toml"@) + ": "@ + e@,
        ),
        ManifestRead::Missing => Err(
            "invalid hella.toml in "@ + root + " (must define `name` and `version`)"@,
        ),
        ManifestRead::Named(name) => if has_main {
            Ok((joined(root, "src/main.hll"@), Some((root, name@))))
        } else if has_lib {
            Ok((joined(root, "src/lib.hll"@), Some((root, name@))))
        } else {
            Err(
                "no entry file found in project "@ + root
                    + " (looked for src/main.hll and src/lib.hll)"@,
            )
        },
    }
}

pub open spec fn no_project(cwd: Seq<char>) -> Seq<char> {
    "not in a Hella project (no hella.toml found in "@ + cwd
        + " or parents); run `hella new <name>` or use -f/--file <FILE>"@
}

/// The entry file of `build`, `run` and `check` in the project at `root`.
pub fn resolve_project_entry(
    root: &str,
    manifest: &ManifestRead,
    has_main: bool,
    has_lib: bool,
) -> (r: Result<ResolvedEntry, String>)
    ensures
        entry_result(r) == project_entry(root@, *manifest, has_main, has_lib),
{
    match manifest {
        ManifestRead::Invalid(e) => {
            let mut m = String::from_str("invalid ");
            m.append(join_path(root, "hella.toml").as_str());
            m.append(": ");
            m.append(e.as_str());
            Err(m)
        },
        ManifestRead::Missing => {
            let mut m = String::from_str("invalid hella.toml in ");
            m.append(root);
            m.append(" (must define `name` and `version`)");
            Err(m)
        },
        ManifestRead::Named(name) => {
            if !has_main && !has_lib {
                let mut m = String::from_str("no entry file found in project ");
                m.append(root);
                m.append(" (looked for src/main.hll and src/lib.hll)");
                return Err(m);
            }
            let path = join_path(
                root,
                if has_main {
                    "src/main.hll"
                } else {
                    "src/lib.hll"
                },
            );
            Ok(
                ResolvedEntry {
                    path,
                    project: Some(
                        Project { root: String::from_str(root), bin_name: name.clone() },
                    ),
                },
            )
        },
    }
}

/// The entry file of a command: the one that was named, or that of the project
/// around the current directory.
pub fn resolve_entry(
    explicit: Option<&str>,
    cwd: &str,
    root: Option<&str>,
    manifest: &ManifestRead,
    has_main: bool,
    has_lib: bool,
) -> (r: Result<ResolvedEntry, String>)
    ensures
        entry_result(r) == match (explicit, root) {
            (Some(f), _) => Ok((f@, None::<(Seq<char>, Seq<char>)>)),
            (None, Some(d)) => project_entry(d@, *manifest, has_main, has_lib),
            (None, None) => Err(no_project(cwd@)),
        },
{
    if let Some(f) = explicit {
        return Ok(ResolvedEntry { path: String::from_str(f), project: None });
    }
    match root {
        Some(d) => resolve_project_entry(d, manifest, has_main, has_lib),
        None => {
            let mut m = String::from_str("not in a Hella project (no hella.toml found in ");
            m.append(cwd);
            m.append(" or parents); run `hella new <name>` or use -f/--file <FILE>");
            Err(m)
        },
    }
}

/// What a command that needs a project says outside of one.
pub fn project_needed(cwd: &str, what: &str) -> (r: String)
    ensures
        r@ == "not in a Hella project (no hella.toml found in "@ + cwd@
            + " or parents); run `hella new <name>` first (`"@ + what@ + "` needs a project)"@,
{
    let mut m = String::from_str("not in a Hella project (no hella.toml found in ");
    m.append(cwd);
    m.append(" or parents); run `hella new <name>` first (`");
    m.append(what);
    m.append("` needs a project)");
    m
}

} // verus!
