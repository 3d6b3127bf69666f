//! Formatting many files.
use crate::text::{decimal, natural, same};
use vstd::prelude::*;
use vstd::string::*;

verus! {

/// What the formatter made of one file.
#[derive(Clone, Copy, Debug, PartialEq, Eq, Structural)]
pub enum FileVerdict {
    /// It is as the formatter would have it.
    Clean,
    /// It would change.
    Dirty,
    /// It does not parse.
    Broken,
}

/// What to do with one file.
#[derive(Clone, Copy, Debug, PartialEq, Eq, Structural)]
pub enum FileAction {
    Nothing,
    /// Name it.
    Report,
    /// Write the formatted text.
    Write,
    /// Show why it does not parse.
    Explain,
}

pub open spec fn verdict_of(source: Seq<char>, formatted: Option<Seq<char>>) -> FileVerdict {
    match formatted {
        None => FileVerdict::Broken,
        Some(f) => if f == source {
            FileVerdict::Clean
        } else {
            FileVerdict::Dirty
        },
    }
}

/// Judges a file by what the formatter made of it.
pub fn judge(source: &str, formatted: Option<&str>) -> (r: FileVerdict)
    ensures
        r == verdict_of(source@, crate::modules::layout::opt_str(formatted)),
{
    match formatted {
        None => FileVerdict::Broken,
        Some(f) => if same(f, source) {
            FileVerdict::Clean
        } else {
            FileVerdict::Dirty
        },
    }
}

pub open spec fn action_for(v: FileVerdict, check: bool) -> FileAction {
    match v {
        FileVerdict::Clean => FileAction::Nothing,
        FileVerdict::Dirty => if check {
            FileAction::Report
        } else {
            FileAction::Write
        },
        FileVerdict::Broken => FileAction::Explain,
    }
}

/// What to do with a file: with `check` nothing is ever written.
pub fn file_action(v: FileVerdict, check: bool) -> (r: FileAction)
    ensures
        r == action_for(v, check),
{
    match v {
        FileVerdict::Clean => FileAction::Nothing,
        FileVerdict::Dirty => if check {
            FileAction::Report
        } else {
            FileAction::Write
        },
        FileVerdict::Broken => FileAction::Explain,
    }
}

/// How many of the first `n` verdicts are `v`.
pub open spec fn count(vs: Seq<FileVerdict>, v: FileVerdict, n: int) -> nat
    decreases n,
{
    if n <= 0 {
        0
    } else {
        count(vs, v, n - 1) + if vs[n - 1] == v {
            1nat
        } else {
            0nat
        }
    }
}

/// What a run comes to: the last line, or the error it ends with.
pub open spec fn fmt_outcome(files: nat, changed: nat, failed: nat, check: bool) -> Result<
    Seq<char>,
    Seq<char>,
> {
    if failed > 0 {
        if check {
            Err(decimal(failed as int) + " file(s) failed to parse"@)
        } else {
            Err(decimal(failed as int) + " file(s) failed to format"@)
        }
    } else if check && changed > 0 {
        Err(decimal(changed as int) + " file(s) would be reformatted"@)
    } else if check {
        Ok(decimal(files as int) + " file(s) already formatted"@)
    } else {
        Ok(decimal(files as int) + " file(s), "@ + decimal(changed as int) + " reformatted"@)
    }
}

fn tally(vs: &Vec<FileVerdict>, v: FileVerdict) -> (r: usize)
    ensures
        r == count(vs@, v, vs@.len() as int),
{
    let mut n: usize = 0;
    let mut i: usize = 0;
    while i < vs.len()
        invariant
            i <= vs@.len(),
            n <= i,
            n == count(vs@, v, i as int),
        decreases vs@.len() - i,
    {
        if vs[i] == v {
            n += 1;
        }
        i += 1;
    }
    n
}

/// Sums up a run over files with these verdicts.
pub fn fmt_summary(vs: &Vec<FileVerdict>, check: bool) -> (r: Result<String, String>)
    ensures
        crate::pkg::fetch::text_result(r) == fmt_outcome(
            vs@.len(),
            count(vs@, FileVerdict::Dirty, vs@.len() as int),
            count(vs@, FileVerdict::Broken, vs@.len() as int),
            check,
        ),
{
    let changed = tally(vs, FileVerdict::Dirty);
    let failed = tally(vs, FileVerdict::Broken);
    if failed > 0 {
        let mut m = natural(failed as u64);
        m.append(
            if check {
                " file(s) failed to parse"
            } else {
                " file(s) failed to format"
            },
        );
        return Err(m);
    }
    if check && changed > 0 {
        let mut m = natural(changed as u64);
        m.append(" file(s) would be reformatted");
        return Err(m);
    }
    let mut m = natural(vs.len() as u64);
    if check {
        m.append(" file(s) already formatted");
    } else {
        m.append(" file(s), ");
        m.append(natural(changed as u64).as_str());
        m.append(" reformatted");
    }
    Ok(m)
}

/// What to say where no source file was found: an error for a single file that
/// was named, since it cannot be one; nothing to do otherwise.
pub fn nothing_to_format(single_file: Option<&str>) -> (r: Result<(), String>)
    ensures
        r is Ok <==> single_file is None,
        r matches Err(m) ==> m@ == "not a Hella source file: "@ + single_file->0@
            + " (expected `.hll`)"@,
{
    match single_file {
        Some(f) => {
            let mut m = String::from_str("not a Hella source file: ");
            m.append(f);
            m.append(" (expected `.hll`)");
            Err(m)
        },
        None => Ok(()),
    }
}

/// `--check` never writes a file.
pub proof fn law_check_writes_nothing(v: FileVerdict)
    ensures
        action_for(v, true) != FileAction::Write,
{
}

/// `--check` succeeds exactly when every file is clean.
pub proof fn law_check_passes_clean_files_only(vs: Seq<FileVerdict>)
    ensures
        fmt_outcome(
            vs.len(),
            count(vs, FileVerdict::Dirty, vs.len() as int),
            count(vs, FileVerdict::Broken, vs.len() as int),
            true,
        ) is Ok <==> forall|i: int| 0 <= i < vs.len() ==> #[trigger] vs[i] == FileVerdict::Clean,
{
    lemma_count(vs, FileVerdict::Dirty, vs.len() as int);
    lemma_count(vs, FileVerdict::Broken, vs.len() as int);
    assert forall|i: int|
        0 <= i < vs.len() && #[trigger] vs[i] != FileVerdict::Clean implies vs[i]
        == FileVerdict::Dirty || vs[i] == FileVerdict::Broken by {}
}

proof fn lemma_count(vs: Seq<FileVerdict>, v: FileVerdict, n: int)
    requires
        0 <= n <= vs.len(),
    ensures
        count(vs, v, n) == 0 <==> forall|i: int| 0 <= i < n ==> #[trigger] vs[i] != v,
    decreases n,
{
    if n > 0 {
        lemma_count(vs, v, n - 1);
    }
}

} // verus!
