//! Gathering the files that an expansion may need: which one to look for next,
//! until every place where an import may stand has been looked at.
use crate::ast::Item;
use crate::modules::expand::{wanted_files, wanted_paths, Content, Source};
use crate::modules::resolve::{candidates, first_present, resolved};
use crate::names::completed;
use crate::text::{contains_text, copy_strings, opt_text, same, texts};
use vstd::prelude::*;

verus! {

/// Which files were found so far, and which are still to be looked for.
#[derive(Debug)]
pub struct Gather {
    bases: Vec<String>,
    wanted: Vec<String>,
    asked: Option<String>,
    absent: Vec<String>,
    sources: Vec<Source>,
}

/// The state of a gathering.
#[verifier::ext_equal]
pub struct Gathering {
    /// The search bases, best first.
    pub bases: Seq<Seq<char>>,
    /// Paths to look for, the last one first.
    pub wanted: Seq<Seq<char>>,
    /// The path that an answer is awaited for.
    pub asked: Option<Seq<char>>,
    /// Paths at which no file stands.
    pub absent: Seq<Seq<char>>,
    /// The files that were found, and what reading them gave.
    pub sources: Seq<(Seq<char>, Content)>,
}

/// Sources as paths and what reading them gave.
pub open spec fn found(sources: Seq<Source>) -> Seq<(Seq<char>, Content)> {
    Seq::new(sources.len(), |i: int| (sources[i].path@, sources[i].content))
}

impl View for Gather {
    type V = Gathering;

    closed spec fn view(&self) -> Gathering {
        Gathering {
            bases: texts(self.bases@),
            wanted: texts(self.wanted@),
            asked: opt_text(self.asked),
            absent: texts(self.absent@),
            sources: found(self.sources@),
        }
    }
}

/// The paths of sources.
pub open spec fn paths_of(sources: Seq<(Seq<char>, Content)>) -> Seq<Seq<char>> {
    Seq::new(sources.len(), |i: int| sources[i].0)
}

/// It is known whether a file stands at the path.
pub open spec fn answered(g: Gathering, path: Seq<char>) -> bool {
    g.absent.contains(path) || paths_of(g.sources).contains(path)
}

/// The paths that the imports of a file may stand for.
pub open spec fn wanted_of(content: Content, bases: Seq<Seq<char>>) -> Seq<Seq<char>> {
    match content {
        Content::Parsed(p) => wanted_paths(p.items@, bases, p.items@.len() as int),
        _ => Seq::empty(),
    }
}

/// A gathering for the imports of a program.
pub open spec fn started(items: Seq<Item>, bases: Seq<Seq<char>>) -> Gathering {
    Gathering {
        bases,
        wanted: wanted_paths(items, bases, items.len() as int),
        asked: None,
        absent: Seq::empty(),
        sources: Seq::empty(),
    }
}

/// How many of the first `n` wanted paths are left once those that are answered
/// are dropped from the end.
pub open spec fn left(g: Gathering, n: int) -> int
    decreases n,
{
    if n <= 0 {
        0
    } else if answered(g, g.wanted[n - 1]) {
        left(g, n - 1)
    } else {
        n
    }
}

/// The gathering asks for its next path, unless it awaits an answer.
pub open spec fn asking(g: Gathering) -> Gathering {
    let n = left(g, g.wanted.len() as int);
    if g.asked is Some {
        g
    } else if n == 0 {
        Gathering { wanted: Seq::empty(), ..g }
    } else {
        Gathering { wanted: g.wanted.take(n - 1), asked: Some(g.wanted[n - 1]), ..g }
    }
}

/// The gathering with the answer to what it asked for: what reading the file
/// gave, or that there is none. An answer to nothing changes nothing.
pub open spec fn told(g: Gathering, content: Option<Content>) -> Gathering {
    match (g.asked, content) {
        (None, _) => g,
        (Some(path), None) => Gathering { asked: None, absent: g.absent.push(path), ..g },
        (Some(path), Some(c)) => Gathering {
            wanted: g.wanted + wanted_of(c, g.bases),
            asked: None,
            sources: g.sources.push((path, c)),
            ..g
        },
    }
}

/// Nothing is left to look for.
pub open spec fn finished(g: Gathering) -> bool {
    g.wanted.len() == 0 && g.asked is None
}

fn holds_source(sources: &Vec<Source>, path: &str) -> (r: bool)
    ensures
        r == paths_of(found(sources@)).contains(path@),
{
    let mut i: usize = 0;
    while i < sources.len()
        invariant
            i <= sources@.len(),
            forall|k: int| 0 <= k < i ==> (#[trigger] paths_of(found(sources@))[k]) != path@,
        decreases sources@.len() - i,
    {
        if same(sources[i].path.as_str(), path) {
            assert(paths_of(found(sources@))[i as int] == path@);
            return true;
        }
        i += 1;
    }
    false
}

impl Gather {
    /// Starts with the imports of a program, searched under `bases`.
    pub fn new(items: &Vec<Item>, bases: &Vec<String>) -> (r: Gather)
        ensures
            r@ == started(items@, texts(bases@)),
    {
        let g = Gather {
            bases: copy_strings(bases),
            wanted: wanted_files(items, bases),
            asked: None,
            absent: Vec::new(),
            sources: Vec::new(),
        };
        assert(g@ =~= started(items@, texts(bases@)));
        g
    }

    /// The path to look at next, or `None` when every place has been looked at.
    /// Until [`Gather::record`] is told what stands there it stays the next one.
    pub fn next_file(&mut self) -> (r: Option<String>)
        ensures
            final(self)@ == asking(old(self)@),
            opt_text(r) == asking(old(self)@).asked,
            r is None <==> finished(final(self)@),
    {
        let ghost g = self@;
        if let Some(p) = &self.asked {
            return Some(p.clone());
        }
        let mut n: usize = self.wanted.len();
        while n > 0
            invariant
                self@ == g,
                g == old(self)@,
                g.asked is None,
                n <= self.wanted@.len(),
                left(g, g.wanted.len() as int) == left(g, n as int),
            decreases n,
        {
            let known: bool = contains_text(&self.absent, self.wanted[n - 1].as_str())
                || holds_source(&self.sources, self.wanted[n - 1].as_str());
            assert(self.wanted@[n - 1]@ == g.wanted[n - 1]);
            if !known {
                let path = self.wanted[n - 1].clone();
                self.wanted.truncate(n - 1);
                self.asked = Some(path.clone());
                assert(texts(self.wanted@) =~= g.wanted.take(n - 1));
                assert(self@ =~= asking(g));
                return Some(path);
            }
            n -= 1;
        }
        self.wanted = Vec::new();
        assert(texts(self.wanted@) =~= Seq::<Seq<char>>::empty());
        assert(self@ =~= asking(g));
        None
    }

    /// Takes what stands at the path that was asked for: what reading the file
    /// gave, or `None` where there is no file. Without a path that was asked for
    /// nothing changes.
    pub fn record(&mut self, content: Option<Content>)
        ensures
            final(self)@ == told(old(self)@, content),
    {
        let ghost g = self@;
        let path: String = match &self.asked {
            Some(p) => p.clone(),
            None => {
                return;
            },
        };
        self.asked = None;
        match content {
            None => {
                let ghost x = path;
                self.absent.push(path);
                assert(texts(self.absent@) =~= g.absent.push(x@));
                assert(self@ =~= told(g, content));
            },
            Some(c) => {
                let ghost x = path;
                if let Content::Parsed(program) = &c {
                    let mut more = wanted_files(&program.items, &self.bases);
                    let ghost added = texts(more@);
                    self.wanted.append(&mut more);
                    assert(texts(self.wanted@) =~= g.wanted + added);
                }
                assert(texts(self.wanted@) =~= g.wanted + wanted_of(c, g.bases));
                self.sources.push(Source { path, content: c });
                assert(found(self.sources@) =~= g.sources.push((x@, c)));
                assert(self@ =~= told(g, content));
            },
        }
    }

    /// The files that were found.
    pub fn finish(self) -> (r: Vec<Source>)
        ensures
            found(r@) == self@.sources,
    {
        self.sources
    }
}

// ---------------------------------------------------------------------------
// Laws
// ---------------------------------------------------------------------------

/// The path is answered or will be looked at.
pub open spec fn known(g: Gathering, path: Seq<char>) -> bool {
    g.wanted.contains(path) || g.asked == Some(path) || answered(g, path)
}

/// The gathering knows all paths of a list.
pub open spec fn knows(g: Gathering, paths: Seq<Seq<char>>) -> bool {
    forall|i: int| 0 <= i < paths.len() ==> known(g, #[trigger] paths[i])
}

/// The gathering knows every place where an import of the program, or of a file
/// that was found, may stand.
pub open spec fn covers(g: Gathering, items: Seq<Item>) -> bool {
    &&& knows(g, wanted_paths(items, g.bases, items.len() as int))
    &&& forall|i: int|
        0 <= i < g.sources.len() ==> knows(g, wanted_of((#[trigger] g.sources[i]).1, g.bases))
}

/// No file was found twice, or found and missed.
pub open spec fn consistent(g: Gathering) -> bool {
    &&& g.asked matches Some(p) ==> !answered(g, p)
    &&& forall|i: int, j: int|
        0 <= i < j < g.sources.len() ==> (#[trigger] g.sources[i]).0 != (#[trigger] g.sources[j]).0
    &&& forall|i: int|
        0 <= i < g.sources.len() ==> !g.absent.contains((#[trigger] g.sources[i]).0)
}

/// A gathering covers its program from the start.
pub proof fn law_gathering_starts_covering(items: Seq<Item>, bases: Seq<Seq<char>>)
    ensures
        covers(started(items, bases), items),
        consistent(started(items, bases)),
{
    let g = started(items, bases);
    let w = wanted_paths(items, bases, items.len() as int);
    assert forall|i: int| 0 <= i < w.len() implies known(g, #[trigger] w[i]) by {
        assert(g.wanted.contains(w[i]));
    }
}

proof fn lemma_left(g: Gathering, n: int)
    requires
        0 <= n <= g.wanted.len(),
    ensures
        0 <= left(g, n) <= n,
        left(g, n) > 0 ==> !answered(g, g.wanted[left(g, n) - 1]),
        forall|i: int| left(g, n) <= i < n ==> answered(g, #[trigger] g.wanted[i]),
    decreases n,
{
    if n > 0 && answered(g, g.wanted[n - 1]) {
        lemma_left(g, n - 1);
    }
}

/// Asking and being told keep a gathering covering and consistent.
pub proof fn law_gathering_stays_covering(
    g: Gathering,
    items: Seq<Item>,
    content: Option<Content>,
)
    requires
        covers(g, items),
        consistent(g),
    ensures
        covers(asking(g), items),
        consistent(asking(g)),
        covers(told(g, content), items),
        consistent(told(g, content)),
{
    let n = g.wanted.len() as int;
    lemma_left(g, n);
    let a = asking(g);
    assert(forall|p: Seq<char>| answered(g, p) == answered(a, p));
    assert forall|p: Seq<char>| #[trigger] known(g, p) implies known(a, p) by {
        if g.asked is None && g.wanted.contains(p) {
            let k = choose|k: int| 0 <= k < n && g.wanted[k] == p;
            let m = left(g, n);
            if k < m - 1 {
                assert(a.wanted[k] == p);
            }
        }
    }
    lemma_knows_more(g, a, items);
    if g.asked is Some {
        let t = told(g, content);
        assert forall|p: Seq<char>| #[trigger] known(g, p) implies known(t, p) by {
            lemma_told_keeps(g, content, p);
        }
        lemma_knows_more(g, t, items);
        match content {
            None => {
                assert forall|i: int| 0 <= i < t.sources.len() implies !t.absent.contains(
                    (#[trigger] t.sources[i]).0,
                ) by {
                    assert(paths_of(g.sources)[i] == t.sources[i].0);
                    assert(!g.absent.contains(g.sources[i].0));
                    if t.absent.contains(t.sources[i].0) {
                        let k = choose|k: int|
                            0 <= k < t.absent.len() && t.absent[k] == t.sources[i].0;
                        if k < g.absent.len() {
                            assert(g.absent[k] == t.sources[i].0);
                        }
                    }
                }
            },
            Some(c) => {
                let more = wanted_of(c, g.bases);
                assert forall|i: int| 0 <= i < more.len() implies known(t, #[trigger] more[i]) by {
                    assert(t.wanted[g.wanted.len() + i] == more[i]);
                }
                assert forall|i: int| 0 <= i < t.sources.len() implies knows(
                    t,
                    wanted_of((#[trigger] t.sources[i]).1, t.bases),
                ) by {
                    if i < g.sources.len() {
                        assert(t.sources[i] == g.sources[i]);
                        assert(knows(g, wanted_of(g.sources[i].1, g.bases)));
                    }
                }
                assert forall|i: int, j: int| 0 <= i < j < t.sources.len() implies (
                #[trigger] t.sources[i]).0 != (#[trigger] t.sources[j]).0 by {
                    assert(paths_of(g.sources)[i] == t.sources[i].0);
                }
            },
        }
    }
}

proof fn lemma_told_keeps(g: Gathering, content: Option<Content>, p: Seq<char>)
    requires
        g.asked is Some,
        known(g, p),
    ensures
        known(told(g, content), p),
{
    let t = told(g, content);
    if g.wanted.contains(p) {
        let k = choose|k: int| 0 <= k < g.wanted.len() && g.wanted[k] == p;
        assert(t.wanted[k] == p);
    } else if g.asked == Some(p) {
        match content {
            None => {
                assert(t.absent[g.absent.len() as int] == p);
            },
            Some(_) => {
                assert(paths_of(t.sources)[g.sources.len() as int] == p);
            },
        }
    } else if g.absent.contains(p) {
        let k = choose|k: int| 0 <= k < g.absent.len() && g.absent[k] == p;
        assert(t.absent[k] == p);
    } else {
        let s = paths_of(g.sources);
        let k = choose|k: int| 0 <= k < s.len() && s[k] == p;
        assert(paths_of(t.sources)[k] == p);
    }
}

/// Where more is known, what was covered stays so.
proof fn lemma_knows_more(g: Gathering, t: Gathering, items: Seq<Item>)
    requires
        covers(g, items),
        t.bases == g.bases,
        forall|p: Seq<char>| #[trigger] known(g, p) ==> known(t, p),
    ensures
        knows(t, wanted_paths(items, t.bases, items.len() as int)),
        forall|i: int|
            0 <= i < g.sources.len() ==> knows(
                t,
                wanted_of((#[trigger] g.sources[i]).1, t.bases),
            ),
{
    let w = wanted_paths(items, t.bases, items.len() as int);
    assert forall|i: int| 0 <= i < w.len() implies known(t, #[trigger] w[i]) by {
        assert(known(g, w[i]));
    }
    assert forall|i: int| 0 <= i < g.sources.len() implies knows(
        t,
        wanted_of((#[trigger] g.sources[i]).1, t.bases),
    ) by {
        let v = wanted_of(g.sources[i].1, t.bases);
        assert(knows(g, v));
        assert forall|k: int| 0 <= k < v.len() implies known(t, #[trigger] v[k]) by {
            assert(known(g, v[k]));
        }
    }
}

proof fn lemma_completed_holds(names: Seq<Seq<char>>, more: Seq<Seq<char>>, n: int, x: Seq<char>)
    requires
        0 <= n <= more.len(),
    ensures
        names.contains(x) || more.take(n).contains(x) ==> completed(names, more, n).contains(x),
    decreases n,
{
    if n > 0 {
        lemma_completed_holds(names, more, n - 1, x);
        let all = completed(names, more, n - 1);
        let now = completed(names, more, n);
        if all.contains(x) {
            let k = choose|k: int| 0 <= k < all.len() && all[k] == x;
            assert(now[k] == x);
        } else if more.take(n).contains(x) {
            let k = choose|k: int| 0 <= k < n && more.take(n)[k] == x;
            if k < n - 1 {
                assert(more.take(n - 1)[k] == x);
            } else {
                assert(now[all.len() as int] == x);
            }
        }
    }
}

/// The candidates of an import are wanted.
proof fn lemma_import_is_wanted(items: Seq<Item>, bases: Seq<Seq<char>>, n: int, k: int, x: Seq<char>)
    requires
        0 <= k < n <= items.len(),
        items[k] is Import,
        candidates(texts(items[k]->Import_0.path@), bases).contains(x),
    ensures
        wanted_paths(items, bases, n).contains(x),
    decreases n,
{
    let done = wanted_paths(items, bases, n - 1);
    if k < n - 1 {
        lemma_import_is_wanted(items, bases, n - 1, k, x);
    }
    match items[n - 1] {
        Item::Import(imp) => {
            let cs = candidates(texts(imp.path@), bases);
            assert(cs.take(cs.len() as int) =~= cs);
            lemma_completed_holds(done, cs, cs.len() as int, x);
        },
        _ => {},
    }
}

proof fn lemma_present_alike(cs: Seq<Seq<char>>, a: Seq<Seq<char>>, b: Seq<Seq<char>>)
    requires
        forall|i: int| 0 <= i < cs.len() ==> a.contains(#[trigger] cs[i]) == b.contains(cs[i]),
    ensures
        first_present(cs, a) == first_present(cs, b),
    decreases cs.len(),
{
    if cs.len() > 0 {
        let t = cs.drop_last();
        assert forall|i: int| 0 <= i < t.len() implies a.contains(#[trigger] t[i]) == b.contains(
            t[i],
        ) by {
            assert(t[i] == cs[i]);
        }
        lemma_present_alike(t, a, b);
        assert(a.contains(cs[cs.len() - 1]) == b.contains(cs[cs.len() - 1]));
    }
}

/// The file that was found parsed into these items.
pub open spec fn parsed_into(source: (Seq<char>, Content), items: Seq<Item>) -> bool {
    source.1 matches Content::Parsed(p) && p.items@ == items
}

/// The items are those of the program or of a file that was found.
pub open spec fn gathered_from(g: Gathering, program: Seq<Item>, items: Seq<Item>) -> bool {
    items == program || exists|i: int|
        0 <= i < g.sources.len() && parsed_into(#[trigger] g.sources[i], items)
}

/// A finished gathering has looked at every place where an import may stand:
/// whatever files there are, if they are the ones that were found among the
/// paths that were looked at, an import of the program or of a file that was
/// found resolves among the found ones as it does among all.
pub proof fn law_finished_gathering_is_complete(
    g: Gathering,
    program: Seq<Item>,
    items: Seq<Item>,
    k: int,
    files: Seq<Seq<char>>,
)
    requires
        covers(g, program),
        finished(g),
        gathered_from(g, program, items),
        0 <= k < items.len(),
        items[k] is Import,
        forall|p: Seq<char>| #[trigger] paths_of(g.sources).contains(p) ==> files.contains(p),
        forall|p: Seq<char>| #[trigger] g.absent.contains(p) ==> !files.contains(p),
    ensures
        resolved(texts(items[k]->Import_0.path@), g.bases, paths_of(g.sources)) == resolved(
            texts(items[k]->Import_0.path@),
            g.bases,
            files,
        ),
{
    let cs = candidates(texts(items[k]->Import_0.path@), g.bases);
    let there = paths_of(g.sources);
    let w = wanted_paths(items, g.bases, items.len() as int);
    assert(knows(g, w)) by {
        if items != program {
            let i = choose|i: int|
                0 <= i < g.sources.len() && parsed_into(#[trigger] g.sources[i], items);
            assert(knows(g, wanted_of(g.sources[i].1, g.bases)));
        }
    }
    assert forall|i: int| 0 <= i < cs.len() implies there.contains(#[trigger] cs[i])
        == files.contains(cs[i]) by {
        assert(cs.contains(cs[i]));
        lemma_import_is_wanted(items, g.bases, items.len() as int, k, cs[i]);
        let m = choose|m: int| 0 <= m < w.len() && w[m] == cs[i];
        assert(known(g, w[m]));
        assert(answered(g, cs[i]));
    }
    lemma_present_alike(cs, there, files);
}

} // verus!
