//! From an import path to the file that provides the module.
use crate::paths::{join_path, joined};
use crate::text::{join, join_strings, texts};
use vstd::prelude::*;
use vstd::string::*;

verus! {

/// Where a module may stand under one base: `<base>/a/b.hll`, then the
/// directory module `<base>/a/b/mod.hll`.
pub open spec fn base_candidates(path: Seq<Seq<char>>, base: Seq<char>) -> Seq<Seq<char>> {
    let rel = join(path, "/"@);
    seq![joined(base, rel + ".hll"@), joined(joined(base, rel), "mod.hll"@)]
}

/// Where a module may stand under the ordered bases, best first.
pub open spec fn candidates(path: Seq<Seq<char>>, bases: Seq<Seq<char>>) -> Seq<Seq<char>>
    decreases bases.len(),
{
    if bases.len() == 0 {
        Seq::empty()
    } else {
        candidates(path, bases.drop_last()) + base_candidates(path, bases.last())
    }
}

/// The places where the module `path` may stand, best first.
pub fn import_candidates(path: &Vec<String>, bases: &Vec<String>) -> (r: Vec<String>)
    ensures
        texts(r@) == candidates(texts(path@), texts(bases@)),
{
    let rel = join_strings(path, "/");
    let mut out: Vec<String> = Vec::new();
    let mut i: usize = 0;
    let ghost bs = texts(bases@);
    assert(texts(out@) =~= candidates(texts(path@), bs.take(0)));
    while i < bases.len()
        invariant
            i <= bases@.len(),
            bs == texts(bases@),
            rel@ == join(texts(path@), "/"@),
            texts(out@) == candidates(texts(path@), bs.take(i as int)),
        decreases bases@.len() - i,
    {
        let ghost done = texts(out@);
        let mut name = rel.clone();
        name.append(".hll");
        out.push(join_path(bases[i].as_str(), name.as_str()));
        let dir = join_path(bases[i].as_str(), rel.as_str());
        out.push(join_path(dir.as_str(), "mod.hll"));
        assert(texts(out@) =~= done + base_candidates(texts(path@), bs[i as int]));
        assert(bs.take(i + 1).drop_last() =~= bs.take(i as int));
        i += 1;
    }
    assert(bs.take(i as int) =~= bs);
    out
}

/// Position of the first candidate that is one of `files`.
pub open spec fn first_present(cs: Seq<Seq<char>>, files: Seq<Seq<char>>) -> Option<int>
    decreases cs.len(),
{
    if cs.len() == 0 {
        None
    } else {
        match first_present(cs.drop_last(), files) {
            Some(k) => Some(k),
            None => if files.contains(cs.last()) {
                Some(cs.len() - 1)
            } else {
                None
            },
        }
    }
}

pub proof fn lemma_first_present(cs: Seq<Seq<char>>, files: Seq<Seq<char>>)
    ensures
        first_present(cs, files) matches Some(k) ==> 0 <= k < cs.len() && files.contains(cs[k])
            && forall|i: int| 0 <= i < k ==> !files.contains(#[trigger] cs[i]),
        first_present(cs, files) is None ==> forall|i: int|
            0 <= i < cs.len() ==> !files.contains(#[trigger] cs[i]),
    decreases cs.len(),
{
    if cs.len() > 0 {
        let t = cs.drop_last();
        lemma_first_present(t, files);
        assert forall|i: int| 0 <= i < t.len() implies #[trigger] cs[i] == t[i] by {}
    }
}

/// The file that provides the module, among those that exist.
pub open spec fn resolved(
    path: Seq<Seq<char>>,
    bases: Seq<Seq<char>>,
    files: Seq<Seq<char>>,
) -> Option<Seq<char>> {
    match first_present(candidates(path, bases), files) {
        Some(k) => Some(candidates(path, bases)[k]),
        None => None,
    }
}

/// Resolves a qualified import path (`["std", "io"]`) against ordered bases:
/// for each base the file `<base>/std/io.hll`, then the directory module
/// `<base>/std/io/mod.hll`. `files` lists the files that exist.
pub fn resolve_import(path: &Vec<String>, bases: &Vec<String>, files: &Vec<String>) -> (r: Option<
    String,
>)
    ensures
        r is Some <==> resolved(texts(path@), texts(bases@), texts(files@)) is Some,
        r matches Some(f) ==> resolved(texts(path@), texts(bases@), texts(files@)) == Some(f@),
{
    let cs = import_candidates(path, bases);
    let ghost all = texts(cs@);
    let ghost fs = texts(files@);
    let mut i: usize = 0;
    assert(first_present(all.take(0), fs) is None);
    while i < cs.len()
        invariant
            i <= cs@.len(),
            all == texts(cs@),
            all == candidates(texts(path@), texts(bases@)),
            fs == texts(files@),
            first_present(all.take(i as int), fs) is None,
        decreases cs@.len() - i,
    {
        assert(all.take(i + 1).drop_last() =~= all.take(i as int));
        if crate::text::contains_text(files, cs[i].as_str()) {
            proof {
                lemma_first_present(all.take(i as int), fs);
                lemma_first_present(all, fs);
                match first_present(all, fs) {
                    Some(k) => {
                        if k < i {
                            assert(all.take(i as int)[k] == all[k]);
                        }
                        if k > i {
                            assert(!fs.contains(all[i as int]));
                        }
                    },
                    None => {
                        assert(!fs.contains(all[i as int]));
                    },
                }
            }
            return Some(cs[i].clone());
        }
        i += 1;
    }
    assert(all.take(i as int) =~= all);
    None
}

/// A module that is found stands in an existing file at one of its candidate
/// places, and no better place holds an existing file.
pub proof fn law_best_candidate_wins(
    path: Seq<Seq<char>>,
    bases: Seq<Seq<char>>,
    files: Seq<Seq<char>>,
)
    ensures
        resolved(path, bases, files) matches Some(f) ==> files.contains(f) && exists|k: int|
            0 <= k < candidates(path, bases).len() && candidates(path, bases)[k] == f && forall|
                i: int,
            |
                0 <= i < k ==> !files.contains(#[trigger] candidates(path, bases)[i]),
        resolved(path, bases, files) is None ==> forall|i: int|
            0 <= i < candidates(path, bases).len() ==> !files.contains(
                #[trigger] candidates(path, bases)[i],
            ),
{
    lemma_first_present(candidates(path, bases), files);
}

/// Bases that come later never change what an earlier base provides, so a
/// dependency cannot take the place of a module next to the entry file.
pub proof fn law_later_bases_cannot_hijack(
    path: Seq<Seq<char>>,
    bases: Seq<Seq<char>>,
    later: Seq<Seq<char>>,
    files: Seq<Seq<char>>,
)
    requires
        resolved(path, bases, files) is Some,
    ensures
        resolved(path, bases + later, files) == resolved(path, bases, files),
    decreases later.len(),
{
    if later.len() == 0 {
        assert(bases + later =~= bases);
    } else {
        let all = bases + later;
        assert(all.drop_last() =~= bases + later.drop_last());
        law_later_bases_cannot_hijack(path, bases, later.drop_last(), files);
        let cs = candidates(path, all.drop_last());
        let extra = base_candidates(path, all.last());
        let two = cs + extra;
        assert(two.drop_last().drop_last() =~= cs);
        lemma_first_present(cs, files);
        assert(first_present(two.drop_last(), files) == first_present(cs, files));
        assert(first_present(two, files) == first_present(cs, files));
    }
}

} // verus!
