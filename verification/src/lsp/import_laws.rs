//! Import paths lead back to the files that they were derived from.
use crate::lsp::auto_import::{import_of, path_below};
use crate::modules::resolve::{base_candidates, candidates, first_present, resolved};
use crate::path_laws::{
    is_segment, lemma_below_base, lemma_joined_components, lemma_joined_segments,
};
use crate::paths::{below_base, components, joined, same_path, stem};
use crate::text::{ends, find, join, lemma_find, lemma_find_at, rfind, split, starts};
use vstd::prelude::*;
use vstd::string::*;

verus! {

// ---------------------------------------------------------------------------
// Splitting what was joined
// ---------------------------------------------------------------------------

proof fn lemma_join_front(parts: Seq<Seq<char>>, sep: Seq<char>)
    requires
        parts.len() >= 2,
    ensures
        join(parts, sep) == parts[0] + sep + join(parts.skip(1), sep),
    decreases parts.len(),
{
    let rest = parts.skip(1);
    if parts.len() == 2 {
        assert(parts.drop_last().len() == 1);
        assert(join(parts.drop_last(), sep) == parts[0]);
        assert(join(rest, sep) == parts[1]);
    } else {
        lemma_join_front(parts.drop_last(), sep);
        assert(parts.drop_last().skip(1) =~= rest.drop_last());
        assert(join(parts, sep) =~= parts[0] + sep + join(rest, sep));
    }
}

/// Parts that stay apart when they are joined with `::`: none holds `::`, and
/// none before the last ends in a colon.
pub open spec fn stay_apart(parts: Seq<Seq<char>>) -> bool {
    &&& forall|i: int| 0 <= i < parts.len() ==> find(#[trigger] parts[i], "::"@) is None
    &&& forall|i: int|
        0 <= i < parts.len() - 1 && (#[trigger] parts[i]).len() > 0 ==> parts[i].last() != ':'
}

proof fn lemma_split_joined(parts: Seq<Seq<char>>)
    requires
        parts.len() > 0,
        stay_apart(parts),
    ensures
        split(join(parts, "::"@), "::"@) == parts,
    decreases parts.len(),
{
    reveal_strlit("::");
    let sep = "::"@;
    let s = join(parts, sep);
    assert(find(parts[0], sep) is None);
    if parts.len() == 1 {
        assert(split(s, sep) =~= parts);
    } else {
        let rest = parts.skip(1);
        let k = parts[0].len() as int;
        lemma_join_front(parts, sep);
        assert forall|i: int| 0 <= i < rest.len() implies find(#[trigger] rest[i], sep) is None by {
            assert(rest[i] == parts[i + 1]);
        }
        assert forall|i: int| 0 <= i < rest.len() - 1 && (#[trigger] rest[i]).len() > 0 implies
        rest[i].last() != ':' by {
            assert(rest[i] == parts[i + 1]);
        }
        lemma_split_joined(rest);
        assert(s.skip(k).take(2) =~= sep);
        lemma_find(parts[0], sep);
        assert forall|i: int| 0 <= i < k implies !starts(#[trigger] s.skip(i), sep) by {
            if starts(s.skip(i), sep) {
                assert(s.skip(i).take(2)[0] == sep[0] && s.skip(i).take(2)[1] == sep[1]);
                assert(s[i] == ':' && s[i + 1] == ':');
                assert(parts[0][i] == ':');
                if i + 1 < k {
                    assert(parts[0][i + 1] == ':');
                    assert(parts[0].skip(i).take(2) =~= sep);
                    assert(!starts(parts[0].skip(i), sep));
                } else {
                    assert(parts[0].last() == ':');
                }
            }
        }
        lemma_find_at(s, sep, k);
        assert(s.take(k) =~= parts[0]);
        assert(s.skip(k + 2) =~= join(rest, sep));
        assert(parts =~= seq![parts[0]] + rest);
    }
}

// ---------------------------------------------------------------------------
// The law
// ---------------------------------------------------------------------------

/// The parts of the import path of a file with these components below its base.
pub open spec fn import_parts(rel: Seq<Seq<char>>) -> Seq<Seq<char>> {
    if rel.last() == "mod.hll"@ {
        rel.drop_last()
    } else {
        rel.drop_last().push(stem(rel.last()))
    }
}

/// A file below a base, spelled as the base and the components below it.
pub open spec fn respelled(base: Seq<char>, file: Seq<char>) -> Seq<char> {
    joined(base, join(below_base(base, file)->0, "/"@))
}

proof fn lemma_hll_stem(name: Seq<char>)
    requires
        ends(name, ".hll"@),
        name.len() > 4,
    ensures
        name == stem(name) + ".hll"@,
        stem(name).len() > 0,
{
    reveal_strlit(".hll");
    reveal_strlit(".");
    reveal_strlit("..");
    let n = name.len() as int;
    let tail = name.skip(n - 4);
    assert(tail[0] == '.' && tail[1] == 'h' && tail[2] == 'l' && tail[3] == 'l');
    assert(name[n - 4] == '.' && name[n - 3] == 'h' && name[n - 2] == 'l' && name[n - 1] == 'l');
    let a = name.drop_last();
    let b = a.drop_last();
    let c = b.drop_last();
    assert(name.skip(n - 1)[0] == 'l');
    assert(a.skip(n - 2)[0] == 'l');
    assert(b.skip(n - 3)[0] == 'h');
    assert(c.skip(n - 4) =~= "."@);
    assert(rfind(c, "."@) == Some(n - 4));
    assert(rfind(b, "."@) == Some(n - 4));
    assert(rfind(a, "."@) == Some(n - 4));
    assert(rfind(name, "."@) == Some(n - 4));
    assert(name =~= name.take(n - 4) + ".hll"@);
}

/// The import path that is derived for a source file leads back to it: resolved
/// under the same base it is the same path again. Left out are files whose names
/// could not be told from the separators of an import path, a file called just
/// `.hll`, and a directory module `x/mod.hll` beside a file `x.hll`, which wins.
pub proof fn law_import_path_leads_back(
    base: Seq<char>,
    file: Seq<char>,
    files: Seq<Seq<char>>,
)
    requires
        import_of(base, file) is Some,
        files.contains(respelled(base, file)),
        ({
            let rel = below_base(base, file)->0;
            &&& rel.len() > 0
            &&& ends(rel.last(), ".hll"@)
            &&& rel.last().len() > 4
            &&& stay_apart(import_parts(rel))
            &&& rel.last() == "mod.hll"@ ==> !files.contains(
                joined(base, join(rel.drop_last(), "/"@) + ".hll"@),
            )
        }),
    ensures
        resolved(split(import_of(base, file)->0, "::"@), seq![base], files) == Some(
            respelled(base, file),
        ),
        same_path(respelled(base, file), file),
{
    let found = respelled(base, file);
    let rel = below_base(base, file)->0;
    let parts = import_parts(rel);
    let last = rel.last();
    let b = components(base).len() as int;
    reveal_strlit("mod.hll");
    reveal_strlit("main.hll");
    reveal_strlit(".hll");
    reveal_strlit("/");
    lemma_below_base(base, file);
    lemma_joined_components(base, rel, join(rel, "/"@));
    assert(components(base) + rel =~= components(file)) by {
        assert(components(file).take(b) + components(file).skip(b) =~= components(file));
    }
    lemma_hll_stem(last);
    let cs = candidates(parts, seq![base]);
    assert(seq![base].drop_last() =~= Seq::<Seq<char>>::empty());
    assert(candidates(parts, seq![base].drop_last()) =~= Seq::<Seq<char>>::empty());
    assert(cs =~= base_candidates(parts, base));
    let two = cs.drop_last();
    assert(two.drop_last() =~= Seq::<Seq<char>>::empty());
    assert(two.last() == cs[0]);
    assert(cs.last() == cs[1]);
    reveal_with_fuel(first_present, 3);
    if last == "mod.hll"@ {
        let dirs = rel.drop_last();
        if rel.len() == 1 {
            assert(rel =~= seq!["mod.hll"@]);
        }
        assert forall|i: int| 0 <= i < dirs.len() implies is_segment(#[trigger] dirs[i]) by {
            assert(dirs[i] == rel[i]);
        }
        lemma_joined_segments(dirs);
        let x = join(dirs, "/"@);
        assert(join(rel, "/"@) == x + "/"@ + last);
        assert(joined(base, x).last() == x.last());
        assert("mod.hll"@[0] == 'm');
        assert((x + "/"@ + last)[0] == x[0]);
        assert(joined(joined(base, x), "mod.hll"@) =~= joined(base, x + "/"@ + last));
        assert(path_below(rel) == Some(join(dirs, "::"@)));
        lemma_split_joined(parts);
        assert(cs[0] == joined(base, x + ".hll"@));
        assert(cs[1] == found);
        assert(first_present(cs, files) == Some(1int));
    } else {
        assert(parts.drop_last() =~= rel.drop_last());
        assert(parts.last() == stem(last));
        assert(join(rel, "/"@) =~= join(parts, "/"@) + ".hll"@) by {
            if rel.len() == 1 {
                assert(join(parts, "/"@) == parts[0]);
            }
        }
        assert(path_below(rel) == Some(join(parts, "::"@)));
        lemma_split_joined(parts);
        assert(cs[0] == found);
        assert(first_present(two, files) == Some(0int));
        assert(first_present(cs, files) == Some(0int));
    }
}

} // verus!
