//! Auto-import: from an undefined symbol to the module that provides it and the
//! import path (`a::b::c`) that makes it visible.
use crate::ast::{ExternBlock, ExternMember, Item};
use crate::modules::layout::{opt_seq, opt_str};
use crate::names::{completed, extend_missing, NameSet};
use crate::paths::{
    below_base, extend_paths, file_stem, is_path_before, is_same_path, join_path, joined,
    lemma_path_total, path_before, same_path, stem, strip_base, with_paths,
};
use crate::text::{
    before, chars_of, comes_before, contains_text, copy_chars, ends, ends_with, is_text, join,
    join_rows, lemma_before_total, lines, lines_of, opt_text, rows, same, starts, starts_with,
    string_of, texts, trim_start, trim_start_chars,
};
use vstd::prelude::*;
use vstd::string::*;

verus! {

// ---------------------------------------------------------------------------
// Where to look
// ---------------------------------------------------------------------------

/// The file whose search bases count: the importing file, or for an untitled
/// buffer a `main.hll` in the first workspace root.
pub open spec fn base_entry(importer: Option<Seq<char>>, roots: Seq<Seq<char>>) -> Option<
    Seq<char>,
> {
    match importer {
        Some(file) => Some(file),
        None => if roots.len() > 0 {
            Some(joined(roots[0], "main.hll"@))
        } else {
            None
        },
    }
}

/// The file whose search bases count, if there is one.
pub fn import_entry(importer: Option<&str>, workspace_roots: &Vec<String>) -> (r: Option<String>)
    ensures
        opt_text(r) == base_entry(opt_str(importer), texts(workspace_roots@)),
{
    match importer {
        Some(file) => Some(String::from_str(file)),
        None => if workspace_roots.len() > 0 {
            Some(join_path(workspace_roots[0].as_str(), "main.hll"))
        } else {
            None
        },
    }
}

/// The bases of the file whose search bases count, or without one the installed
/// library and the `stdlib` of a checkout.
pub open spec fn known_bases(
    entry_bases: Option<Seq<Seq<char>>>,
    lib: Option<Seq<char>>,
    stdlib: Option<Seq<char>>,
) -> Seq<Seq<char>> {
    match entry_bases {
        Some(bases) => bases,
        None => opt_seq(lib) + opt_seq(stdlib),
    }
}

pub open spec fn opt_texts(v: Option<&Vec<String>>) -> Option<Seq<Seq<char>>> {
    match v {
        Some(list) => Some(texts(list@)),
        None => None,
    }
}

/// Bases to search for a provider: the workspace roots, then the known bases,
/// each once. `entry_bases` are the search bases of [`import_entry`].
pub fn import_bases(
    workspace_roots: &Vec<String>,
    entry_bases: Option<&Vec<String>>,
    lib: Option<&str>,
    stdlib: Option<&str>,
) -> (r: Vec<String>)
    ensures
        ({
            let known = known_bases(opt_texts(entry_bases), opt_str(lib), opt_str(stdlib));
            texts(r@) == with_paths(
                with_paths(Seq::empty(), texts(workspace_roots@), workspace_roots@.len() as int),
                known,
                known.len() as int,
            )
        }),
{
    let mut out: Vec<String> = Vec::new();
    assert(texts(out@) =~= Seq::<Seq<char>>::empty());
    extend_paths(&mut out, workspace_roots);
    match entry_bases {
        Some(bases) => {
            extend_paths(&mut out, bases);
        },
        None => {
            let mut known: Vec<String> = Vec::new();
            if let Some(l) = lib {
                known.push(String::from_str(l));
            }
            if let Some(s) = stdlib {
                known.push(String::from_str(s));
            }
            assert(texts(known@) =~= opt_seq(opt_str(lib)) + opt_seq(opt_str(stdlib)));
            extend_paths(&mut out, &known);
        },
    }
    out
}

/// The import path of the components below a base.
pub open spec fn path_below(rel: Seq<Seq<char>>) -> Option<Seq<char>> {
    if rel == seq!["main.hll"@] || rel == seq!["mod.hll"@] {
        None
    } else if rel.len() > 0 && rel.last() == "mod.hll"@ {
        Some(join(rel.drop_last(), "::"@))
    } else if rel.len() > 0 {
        Some(join(rel.drop_last().push(stem(rel.last())), "::"@))
    } else {
        Some(Seq::empty())
    }
}

/// The import path of a file under a base.
pub open spec fn import_of(base: Seq<char>, file: Seq<char>) -> Option<Seq<char>> {
    match below_base(base, file) {
        Some(rel) => path_below(rel),
        None => None,
    }
}

/// Import path of `file`, which lives under `base` (`std/io.hll` is `std::io`).
/// `None` when it does not live there or is no module: `main.hll` and `mod.hll`
/// right under a base.
pub fn import_path_for(base: &str, file: &str) -> (r: Option<String>)
    ensures
        opt_text(r) == import_of(base@, file@),
{
    let mut rel = match strip_base(base, file) {
        Some(v) => v,
        None => {
            return None;
        },
    };
    let ghost all = rows(rel@);
    let n: usize = rel.len();
    if n == 0 {
        let r = String::new();
        assert(r@ =~= Seq::<char>::empty());
        assert(all.len() == 0 && seq!["main.hll"@].len() == 1 && seq!["mod.hll"@].len() == 1);
        return Some(r);
    }
    let last = copy_chars(&rel[n - 1]);
    assert(last@ == all.last());
    let is_mod = is_text(&last, "mod.hll");
    if n == 1 && (is_mod || is_text(&last, "main.hll")) {
        assert(all =~= seq![last@]);
        return None;
    }
    proof {
        if all == seq!["main.hll"@] {
            assert(all[0] == "main.hll"@);
        }
        if all == seq!["mod.hll"@] {
            assert(all[0] == "mod.hll"@);
        }
    }
    rel.pop();
    assert(rows(rel@) =~= all.drop_last());
    if !is_mod {
        let name = file_stem(&last);
        let ghost nm = name@;
        rel.push(name);
        assert(rows(rel@) =~= all.drop_last().push(nm));
    }
    let joined = join_rows(&rel, "::");
    Some(string_of(&joined))
}

// ---------------------------------------------------------------------------
// Walking the bases
// ---------------------------------------------------------------------------

/// What a directory entry is.
#[derive(Clone, Copy, Debug, PartialEq, Eq, Structural)]
pub enum EntryKind {
    Directory,
    File,
    Other,
}

/// A source file and the base it was found under.
#[derive(Debug)]
pub struct Found {
    pub base: String,
    pub file: String,
}

/// How many directory entries a walk looks at.
pub const ENTRY_BUDGET: u64 = 20000;

/// How many files a walk collects.
pub const FILE_CAP: u64 = 500;

pub open spec fn found_pairs(v: Seq<Found>) -> Seq<(Seq<char>, Seq<char>)> {
    Seq::new(v.len(), |i: int| (v[i].base@, v[i].file@))
}

/// The list holds the file.
pub open spec fn has_file(s: Seq<(Seq<char>, Seq<char>)>, file: Seq<char>) -> bool {
    exists|i: int| 0 <= i < s.len() && same_path((#[trigger] s[i]).1, file)
}

/// A directory that is never walked.
pub open spec fn is_skipped_dir(name: Seq<char>) -> bool {
    name == "target"@ || name == "out"@ || name == "node_modules"@
}

/// A walk over directories for source files.
pub struct FileScan {
    stack: Vec<Found>,
    base: String,
    out: Vec<Found>,
    seen: u64,
    over: bool,
}

/// A walk as mathematical text: the directories that wait, each with its base;
/// the base of the directory that is being read; the files; the number of
/// entries; and whether a limit was hit.
#[verifier::ext_equal]
pub struct Walk {
    pub waiting: Seq<(Seq<char>, Seq<char>)>,
    pub base: Seq<char>,
    pub files: Seq<(Seq<char>, Seq<char>)>,
    pub seen: int,
    pub over: bool,
}

/// A walk after one more directory entry.
pub open spec fn with_entry(w: Walk, path: Seq<char>, name: Seq<char>, kind: EntryKind) -> Walk {
    if w.over {
        w
    } else if w.seen >= ENTRY_BUDGET || w.files.len() >= FILE_CAP {
        Walk { over: true, ..w }
    } else {
        let next = Walk { seen: w.seen + 1, ..w };
        if starts(name, "."@) {
            next
        } else if kind == EntryKind::Directory {
            if is_skipped_dir(name) {
                next
            } else {
                Walk { waiting: w.waiting.push((w.base, path)), ..next }
            }
        } else if kind == EntryKind::File && ends(name, ".hll"@) && !has_file(w.files, path) {
            Walk { files: w.files.push((w.base, path)), ..next }
        } else {
            next
        }
    }
}

impl View for FileScan {
    type V = Walk;

    closed spec fn view(&self) -> Walk {
        Walk {
            waiting: found_pairs(self.stack@),
            base: self.base@,
            files: found_pairs(self.out@),
            seen: self.seen as int,
            over: self.over,
        }
    }
}

impl FileScan {
    #[verifier::type_invariant]
    spec fn wf(self) -> bool {
        self.seen <= ENTRY_BUDGET && self.out@.len() <= FILE_CAP
    }

    /// A walk over the bases.
    pub fn new(bases: &Vec<String>) -> (r: FileScan)
        ensures
            r@ == (Walk {
                waiting: Seq::new(bases@.len(), |i: int| (bases@[i]@, bases@[i]@)),
                base: Seq::empty(),
                files: Seq::empty(),
                seen: 0,
                over: false,
            }),
    {
        let mut stack: Vec<Found> = Vec::new();
        let ghost goal = Seq::new(bases@.len(), |i: int| (bases@[i]@, bases@[i]@));
        let mut i: usize = 0;
        while i < bases.len()
            invariant
                i <= bases@.len(),
                goal == Seq::new(bases@.len(), |i: int| (bases@[i]@, bases@[i]@)),
                found_pairs(stack@) =~= goal.take(i as int),
            decreases bases@.len() - i,
        {
            let ghost had = found_pairs(stack@);
            stack.push(Found { base: bases[i].clone(), file: bases[i].clone() });
            assert(found_pairs(stack@) =~= had.push(goal[i as int]));
            i += 1;
        }
        assert(found_pairs(stack@) =~= goal);
        let r = FileScan { stack, base: String::new(), out: Vec::new(), seen: 0, over: false };
        assert(r@.base =~= Seq::<char>::empty());
        assert(r@.files =~= Seq::<(Seq<char>, Seq<char>)>::empty());
        r
    }

    /// A walk over nothing, which stands in while the parts of another are
    /// moved.
    fn blank() -> (r: FileScan)
        ensures
            r@ == (Walk {
                waiting: Seq::empty(),
                base: Seq::empty(),
                files: Seq::empty(),
                seen: 0,
                over: false,
            }),
    {
        let r = FileScan {
            stack: Vec::new(),
            base: String::new(),
            out: Vec::new(),
            seen: 0,
            over: false,
        };
        assert(r@.waiting =~= Seq::<(Seq<char>, Seq<char>)>::empty());
        assert(r@.base =~= Seq::<char>::empty());
        assert(r@.files =~= Seq::<(Seq<char>, Seq<char>)>::empty());
        r
    }

    /// The next directory to read; `None` when none is left or a limit was hit.
    pub fn next_dir(&mut self) -> (r: Option<String>)
        ensures
            r is None <==> old(self)@.over || old(self)@.waiting.len() == 0,
            r is None ==> final(self)@ == old(self)@,
            r matches Some(d) ==> d@ == old(self)@.waiting.last().1 && final(self)@ == (Walk {
                waiting: old(self)@.waiting.drop_last(),
                base: old(self)@.waiting.last().0,
                ..old(self)@
            }),
    {
        proof {
            use_type_invariant(&*self);
        }
        if self.over || self.stack.len() == 0 {
            return None;
        }
        let ghost w = self@;
        let mut taken = FileScan::blank();
        std::mem::swap(self, &mut taken);
        let FileScan { mut stack, base: _, out, seen, over } = taken;
        match stack.pop() {
            Some(f) => {
                let ghost b = f.base@;
                assert(found_pairs(stack@) =~= w.waiting.drop_last());
                *self = FileScan { stack, base: f.base, out, seen, over };
                assert(self@ =~= (Walk { waiting: w.waiting.drop_last(), base: b, ..w }));
                Some(f.file)
            },
            None => None,
        }
    }

    /// Takes one entry of the directory that is being read.
    pub fn entry(&mut self, path: &str, name: &str, kind: EntryKind)
        ensures
            final(self)@ == with_entry(old(self)@, path@, name@, kind),
    {
        proof {
            use_type_invariant(&*self);
        }
        if self.over {
            return;
        }
        let ghost w = self@;
        let mut taken = FileScan::blank();
        std::mem::swap(self, &mut taken);
        let FileScan { mut stack, base, mut out, mut seen, mut over } = taken;
        assert(w.seen == seen);
        assert(w.files.len() == out@.len());
        if seen >= ENTRY_BUDGET || out.len() as u64 >= FILE_CAP {
            over = true;
        } else {
            seen = seen + 1;
            let n = chars_of(name);
            if !starts_with(&n, ".") {
                if kind == EntryKind::Directory {
                    if !(same(name, "target") || same(name, "out") || same(name, "node_modules")) {
                        stack.push(Found { base: base.clone(), file: String::from_str(path) });
                        assert(found_pairs(stack@) =~= w.waiting.push((w.base, path@)));
                    }
                } else if kind == EntryKind::File && ends_with(&n, ".hll") && !lists_file(
                    &out,
                    path,
                ) {
                    out.push(Found { base: base.clone(), file: String::from_str(path) });
                    assert(found_pairs(out@) =~= w.files.push((w.base, path@)));
                }
            }
        }
        *self = FileScan { stack, base, out, seen, over };
        assert(self@ =~= with_entry(w, path@, name@, kind));
    }

    /// The files that were found: in path order, or as found when a limit cut
    /// the walk short.
    pub fn finish(self) -> (r: Vec<Found>)
        ensures
            found_pairs(r@) == if self@.over {
                self@.files
            } else {
                by_path(self@.files, self@.files.len() as int)
            },
            r@.len() <= FILE_CAP,
    {
        proof {
            use_type_invariant(&self);
        }
        if self.over {
            return self.out;
        }
        let mut out: Vec<Found> = Vec::new();
        let ghost all = found_pairs(self.out@);
        let mut i: usize = 0;
        assert(found_pairs(out@) =~= Seq::<(Seq<char>, Seq<char>)>::empty());
        while i < self.out.len()
            invariant
                i <= self.out@.len(),
                all == found_pairs(self.out@),
                found_pairs(out@) == by_path(all, i as int),
                out@.len() <= i,
            decreases self.out@.len() - i,
        {
            insert_found(&mut out, &self.out[i]);
            i += 1;
        }
        out
    }
}

fn lists_file(v: &Vec<Found>, file: &str) -> (r: bool)
    ensures
        r == has_file(found_pairs(v@), file@),
{
    let mut i: usize = 0;
    while i < v.len()
        invariant
            i <= v@.len(),
            forall|k: int| 0 <= k < i ==> !same_path((#[trigger] found_pairs(v@)[k]).1, file@),
        decreases v@.len() - i,
    {
        if is_same_path(v[i].file.as_str(), file) {
            assert(same_path(found_pairs(v@)[i as int].1, file@));
            return true;
        }
        i += 1;
    }
    false
}

/// `f` put into a list in path order; a file that is there stays as it is.
pub open spec fn path_inserted(
    s: Seq<(Seq<char>, Seq<char>)>,
    f: (Seq<char>, Seq<char>),
) -> Seq<(Seq<char>, Seq<char>)>
    decreases s.len(),
{
    if s.len() == 0 || path_before(s.last().1, f.1) {
        s.push(f)
    } else if same_path(s.last().1, f.1) {
        s
    } else {
        path_inserted(s.drop_last(), f).push(s.last())
    }
}

/// The first `n` files in path order, each once.
pub open spec fn by_path(s: Seq<(Seq<char>, Seq<char>)>, n: int) -> Seq<(Seq<char>, Seq<char>)>
    decreases n,
{
    if n <= 0 {
        Seq::empty()
    } else {
        path_inserted(by_path(s, n - 1), s[n - 1])
    }
}

fn insert_found(sorted: &mut Vec<Found>, f: &Found)
    ensures
        found_pairs(final(sorted)@) == path_inserted(
            found_pairs(old(sorted)@),
            (f.base@, f.file@),
        ),
        final(sorted)@.len() <= old(sorted)@.len() + 1,
{
    let ghost s = found_pairs(sorted@);
    let ghost x = (f.base@, f.file@);
    let n: usize = sorted.len();
    let mut at: usize = n;
    assert(s.take(n as int) =~= s);
    assert(path_inserted(s.take(n as int), x) + s.skip(n as int) =~= path_inserted(s, x));
    while at > 0 && !is_path_before(sorted[at - 1].file.as_str(), f.file.as_str())
        && !is_same_path(sorted[at - 1].file.as_str(), f.file.as_str())
        invariant
            at <= n == sorted@.len(),
            s == found_pairs(sorted@),
            x == (f.base@, f.file@),
            path_inserted(s, x) == path_inserted(s.take(at as int), x) + s.skip(at as int),
        decreases at,
    {
        let ghost t = s.take(at as int);
        assert(t.last() == s[at - 1]);
        assert(t.drop_last() =~= s.take(at - 1));
        assert(path_inserted(t, x) + s.skip(at as int) =~= path_inserted(s.take(at - 1), x)
            + s.skip(at - 1));
        at -= 1;
    }
    let ghost t = s.take(at as int);
    assert(at > 0 ==> t.last() == s[at - 1]);
    if at > 0 && is_same_path(sorted[at - 1].file.as_str(), f.file.as_str()) {
        proof {
            lemma_path_total(s[at - 1].1, f.file@);
        }
        assert(t + s.skip(at as int) =~= s);
        return;
    }
    sorted.insert(at, Found { base: f.base.clone(), file: f.file.clone() });
    assert(found_pairs(sorted@) =~= t.push(x) + s.skip(at as int));
}

// ---------------------------------------------------------------------------
// What modules provide
// ---------------------------------------------------------------------------

/// The names of the first `n` foreign declarations.
pub open spec fn extern_names(ms: Seq<ExternMember>, n: int) -> Seq<Seq<char>>
    decreases n,
{
    if n <= 0 {
        Seq::empty()
    } else {
        extern_names(ms, n - 1).push(
            match ms[n - 1] {
                ExternMember::Function { name, .. } => name@,
                ExternMember::Struct { name, .. } => name@,
                ExternMember::Enum { name, .. } => name@,
                ExternMember::Const { name, .. } => name@,
            },
        )
    }
}

/// The names that an item without attributes defines at the top level.
pub open spec fn item_defines(item: Item) -> Seq<Seq<char>> {
    match item {
        Item::Function(f) => seq![f.name@],
        Item::Struct(s) => seq![s.name@],
        Item::Class(c) => seq![c.name@],
        Item::Enum(e) => seq![e.name@],
        Item::Trait(t) => seq![t.name@],
        Item::Typedef(t) => seq![t.name@],
        Item::Distinct(d) => seq![d.name@],
        Item::Const(c) => seq![c.name@],
        Item::Var(v) => seq![v.name@],
        Item::Extern(b) => extern_names(b.members@, b.members@.len() as int),
        _ => Seq::empty(),
    }
}

/// The names that the first `n` items define, each once.
pub open spec fn defined(items: Seq<Item>, n: int) -> Seq<Seq<char>>
    decreases n,
{
    if n <= 0 {
        Seq::empty()
    } else {
        let more = item_defines(items[n - 1]);
        completed(defined(items, n - 1), more, more.len() as int)
    }
}

fn member_names(b: &ExternBlock) -> (r: Vec<String>)
    ensures
        texts(r@) == extern_names(b.members@, b.members@.len() as int),
{
    let mut out: Vec<String> = Vec::new();
    let mut i: usize = 0;
    assert(texts(out@) =~= Seq::<Seq<char>>::empty());
    while i < b.members.len()
        invariant
            i <= b.members@.len(),
            texts(out@) == extern_names(b.members@, i as int),
        decreases b.members@.len() - i,
    {
        let ghost had = texts(out@);
        let name = match &b.members[i] {
            ExternMember::Function { name, .. } => name,
            ExternMember::Struct { name, .. } => name,
            ExternMember::Enum { name, .. } => name,
            ExternMember::Const { name, .. } => name,
        };
        out.push(name.clone());
        assert(texts(out@) =~= had.push(name@));
        i += 1;
    }
    out
}

fn names_of(item: &Item) -> (r: Vec<String>)
    ensures
        texts(r@) == item_defines(*item),
{
    let mut out: Vec<String> = Vec::new();
    match item {
        Item::Function(f) => out.push(f.name.clone()),
        Item::Struct(s) => out.push(s.name.clone()),
        Item::Class(c) => out.push(c.name.clone()),
        Item::Enum(e) => out.push(e.name.clone()),
        Item::Trait(t) => out.push(t.name.clone()),
        Item::Typedef(t) => out.push(t.name.clone()),
        Item::Distinct(d) => out.push(d.name.clone()),
        Item::Const(c) => out.push(c.name.clone()),
        Item::Var(v) => out.push(v.name.clone()),
        Item::Extern(b) => {
            return member_names(b);
        },
        _ => {},
    }
    assert(texts(out@) =~= item_defines(*item));
    out
}

/// Top-level names that the items of a file define, each once.
pub fn top_names(items: &Vec<Item>) -> (r: Vec<String>)
    ensures
        texts(r@) == defined(items@, items@.len() as int),
{
    let mut out: Vec<String> = Vec::new();
    let mut i: usize = 0;
    assert(texts(out@) =~= Seq::<Seq<char>>::empty());
    while i < items.len()
        invariant
            i <= items@.len(),
            texts(out@) == defined(items@, i as int),
        decreases items@.len() - i,
    {
        let more = names_of(&items[i]);
        extend_missing(&mut out, &more);
        i += 1;
    }
    out
}

/// A source file and the names it defines; `None` where it cannot be read.
#[derive(Debug)]
pub struct Provider {
    pub base: String,
    pub file: String,
    pub names: Option<Vec<String>>,
}

/// The file can be imported by `importer`: it is another file and a module.
pub open spec fn offers(p: Provider, importer: Option<Seq<char>>) -> Option<Seq<char>> {
    match importer {
        Some(i) if same_path(i, p.file@) => None,
        _ => import_of(p.base@, p.file@),
    }
}

pub open spec fn provider_names(p: Provider) -> Seq<Seq<char>> {
    match p.names {
        Some(v) => texts(v@),
        None => Seq::empty(),
    }
}

/// The best import of `symbol` among the first `n` files: the first in text
/// order. A module that cannot be read provides nothing.
pub open spec fn best_import(
    ps: Seq<Provider>,
    importer: Option<Seq<char>>,
    symbol: Seq<char>,
    n: int,
) -> Option<Seq<char>>
    decreases n,
{
    if n <= 0 {
        None
    } else {
        let best = best_import(ps, importer, symbol, n - 1);
        match offers(ps[n - 1], importer) {
            Some(import) if provider_names(ps[n - 1]).contains(symbol) => match best {
                Some(b) if !before(import, b) => Some(b),
                _ => Some(import),
            },
            _ => best,
        }
    }
}

fn offer(p: &Provider, importer: Option<&str>) -> (r: Option<String>)
    ensures
        opt_text(r) == offers(*p, opt_str(importer)),
{
    if let Some(i) = importer {
        if is_same_path(i, p.file.as_str()) {
            return None;
        }
    }
    import_path_for(p.base.as_str(), p.file.as_str())
}

/// The import path that provides `symbol`: of several the first in text order.
/// The importing file itself, entries that are no modules, and files that cannot
/// be read are skipped.
pub fn find_import_for_symbol(symbol: &str, importer: Option<&str>, files: &Vec<Provider>) -> (r:
    Option<String>)
    ensures
        opt_text(r) == best_import(files@, opt_str(importer), symbol@, files@.len() as int),
{
    let mut best: Option<String> = None;
    let mut i: usize = 0;
    while i < files.len()
        invariant
            i <= files@.len(),
            best_import(files@, opt_str(importer), symbol@, i as int) == opt_text(best),
        decreases files@.len() - i,
    {
        if let Some(import) = offer(&files[i], importer) {
            if let Some(names) = &files[i].names {
                if contains_text(names, symbol) {
                    let better = match &best {
                        Some(b) => comes_before(import.as_str(), b.as_str()),
                        None => true,
                    };
                    if better {
                        best = Some(import);
                    }
                }
            }
        }
        i += 1;
    }
    best
}

/// The line where a new import goes: behind the last one, else on top.
pub open spec fn insertion_line(ls: Seq<Seq<char>>, n: int) -> int
    decreases n,
{
    if n <= 0 {
        0
    } else if starts(trim_start(ls[n - 1]), "import "@) {
        n
    } else {
        insertion_line(ls, n - 1)
    }
}

/// The line where a new import goes: behind the last one, else on top.
pub fn import_insertion_line(text: &str) -> (r: u32)
    requires
        text@.len() <= u32::MAX,
    ensures
        r == insertion_line(lines(text@), lines(text@).len() as int),
{
    let ls = lines_of(&chars_of(text));
    let ghost all = rows(ls@);
    assert(all.len() == ls@.len());
    proof {
        lemma_line_count(text@);
    }
    let mut n: usize = ls.len();
    while n > 0
        invariant
            n <= ls@.len() <= u32::MAX,
            all == rows(ls@),
            all == lines(text@),
            all.len() == ls@.len(),
            insertion_line(all, n as int) == insertion_line(all, ls@.len() as int),
        decreases n,
    {
        assert(all[n - 1] == ls@[n - 1]@);
        if starts_with(&trim_start_chars(&ls[n - 1]), "import ") {
            return n as u32;
        }
        n -= 1;
    }
    0
}

proof fn lemma_line_count(s: Seq<char>)
    ensures
        lines(s).len() <= s.len(),
    decreases s.len(),
{
    if s.len() > 0 {
        let k = crate::text::first(s, '\n');
        crate::text::lemma_first(s, '\n');
        if k < s.len() {
            lemma_line_count(s.skip(k + 1));
            assert(lines(s).len() == 1 + lines(s.skip(k + 1)).len());
        }
    }
}

// ---------------------------------------------------------------------------
// Completion
// ---------------------------------------------------------------------------

/// `str::to_lowercase`.
pub uninterp spec fn lowercase(s: Seq<char>) -> Seq<char>;

/// `str::to_lowercase`: the Unicode lower case of a text. An ASCII text keeps
/// its length, and each letter becomes its lower case.
#[verifier::external_body]
fn to_lowercase(s: &str) -> (r: String)
    ensures
        r@ == lowercase(s@),
        is_ascii_text(s@) ==> r@ == s@.map_values(|c: char| crate::source::lower(c)),
{
    s.to_lowercase()
}

pub open spec fn is_ascii_text(s: Seq<char>) -> bool {
    forall|i: int| 0 <= i < s.len() ==> #[trigger] s[i] <= '\u{7f}'
}

/// The name starts with the prefix, whatever the case.
pub open spec fn matches_prefix(name: Seq<char>, prefix: Seq<char>) -> bool {
    lowercase(prefix).len() == 0 || starts(lowercase(name), lowercase(prefix))
}

/// Symbols that are offered, with their imports, and all symbols looked at.
#[verifier::ext_equal]
pub struct Offers {
    pub chosen: Seq<(Seq<char>, Seq<char>)>,
    pub seen: Set<Seq<char>>,
}

/// The offers after the first `n` names of a module; `fits` says which names
/// match.
pub open spec fn offered(
    o: Offers,
    names: Seq<Seq<char>>,
    fits: Seq<bool>,
    import: Seq<char>,
    existing: Set<Seq<char>>,
    n: int,
) -> Offers
    decreases n,
{
    if n <= 0 {
        o
    } else {
        let done = offered(o, names, fits, import, existing, n - 1);
        let name = names[n - 1];
        if existing.contains(name) || done.seen.contains(name) {
            done
        } else {
            Offers {
                chosen: if n - 1 < fits.len() && fits[n - 1] {
                    symbol_inserted(done.chosen, (name, import))
                } else {
                    done.chosen
                },
                seen: done.seen.insert(name),
            }
        }
    }
}

/// `x` put behind every symbol that does not come after it.
pub open spec fn symbol_inserted(
    s: Seq<(Seq<char>, Seq<char>)>,
    x: (Seq<char>, Seq<char>),
) -> Seq<(Seq<char>, Seq<char>)>
    decreases s.len(),
{
    if s.len() == 0 || !before(x.0, s.last().0) {
        s.push(x)
    } else {
        symbol_inserted(s.drop_last(), x).push(s.last())
    }
}

/// How many symbols end a search.
pub const ENOUGH_SYMBOLS: u64 = 100;

/// The offers after the first `n` files; once there are enough, no further file
/// is looked at.
pub open spec fn all_offers(
    ps: Seq<Provider>,
    importer: Option<Seq<char>>,
    fits: Seq<Seq<bool>>,
    existing: Set<Seq<char>>,
    n: int,
) -> Offers
    decreases n,
{
    if n <= 0 {
        Offers { chosen: Seq::empty(), seen: Set::empty() }
    } else {
        let done = all_offers(ps, importer, fits, existing, n - 1);
        match offers(ps[n - 1], importer) {
            Some(import) if done.chosen.len() < ENOUGH_SYMBOLS => {
                let names = provider_names(ps[n - 1]);
                let flags = if n - 1 < fits.len() {
                    fits[n - 1]
                } else {
                    Seq::empty()
                };
                offered(done, names, flags, import, existing, names.len() as int)
            },
            _ => done,
        }
    }
}

pub open spec fn string_pairs(v: Seq<(String, String)>) -> Seq<(Seq<char>, Seq<char>)> {
    Seq::new(v.len(), |i: int| (v[i].0@, v[i].1@))
}

pub open spec fn flag_rows(v: Seq<Vec<bool>>) -> Seq<Seq<bool>> {
    Seq::new(v.len(), |i: int| v[i]@)
}

fn insert_symbol(sorted: &mut Vec<(String, String)>, name: String, import: String)
    ensures
        string_pairs(final(sorted)@) == symbol_inserted(
            string_pairs(old(sorted)@),
            (name@, import@),
        ),
{
    let ghost s = string_pairs(sorted@);
    let ghost x = (name@, import@);
    let n: usize = sorted.len();
    let mut at: usize = n;
    assert(s.take(n as int) =~= s);
    assert(symbol_inserted(s.take(n as int), x) + s.skip(n as int) =~= symbol_inserted(s, x));
    while at > 0 && comes_before(name.as_str(), sorted[at - 1].0.as_str())
        invariant
            at <= n == sorted@.len(),
            s == string_pairs(sorted@),
            x == (name@, import@),
            symbol_inserted(s, x) == symbol_inserted(s.take(at as int), x) + s.skip(at as int),
        decreases at,
    {
        let ghost t = s.take(at as int);
        assert(t.last() == s[at - 1]);
        assert(t.drop_last() =~= s.take(at - 1));
        assert(symbol_inserted(t, x) + s.skip(at as int) =~= symbol_inserted(s.take(at - 1), x)
            + s.skip(at - 1));
        at -= 1;
    }
    let ghost t = s.take(at as int);
    assert(at > 0 ==> t.last() == s[at - 1]);
    sorted.insert(at, (name, import));
    assert(string_pairs(sorted@) =~= t.push(x) + s.skip(at as int));
}

/// The symbols to offer, with their imports, in symbol order: those of the files
/// that `fits` marks, not in `existing`, each from the first file that has it.
pub fn select_candidates(
    files: &Vec<Provider>,
    importer: Option<&str>,
    fits: &Vec<Vec<bool>>,
    existing: &NameSet,
) -> (r: Vec<(String, String)>)
    ensures
        string_pairs(r@) == all_offers(
            files@,
            opt_str(importer),
            flag_rows(fits@),
            existing@,
            files@.len() as int,
        ).chosen,
{
    let mut out: Vec<(String, String)> = Vec::new();
    let mut seen = NameSet::new();
    let ghost imp = opt_str(importer);
    let ghost fs = flag_rows(fits@);
    let mut i: usize = 0;
    assert(string_pairs(out@) =~= Seq::<(Seq<char>, Seq<char>)>::empty());
    while i < files.len()
        invariant
            i <= files@.len(),
            imp == opt_str(importer),
            fs == flag_rows(fits@),
            (Offers { chosen: string_pairs(out@), seen: seen@ }) == all_offers(
                files@,
                imp,
                fs,
                existing@,
                i as int,
            ),
        decreases files@.len() - i,
    {
        let ghost start = Offers { chosen: string_pairs(out@), seen: seen@ };
        if let Some(import) = offer(&files[i], importer) {
            if (out.len() as u64) < ENOUGH_SYMBOLS {
                let ghost names = provider_names(files@[i as int]);
                let ghost flags = if i < fs.len() {
                    fs[i as int]
                } else {
                    Seq::empty()
                };
                if let Some(v) = &files[i].names {
                    let mut k: usize = 0;
                    while k < v.len()
                        invariant
                            k <= v@.len(),
                            i < files@.len(),
                            names == texts(v@),
                            fs == flag_rows(fits@),
                            flags == (if i < fs.len() {
                                fs[i as int]
                            } else {
                                Seq::empty()
                            }),
                            (Offers { chosen: string_pairs(out@), seen: seen@ }) == offered(
                                start,
                                names,
                                flags,
                                import@,
                                existing@,
                                k as int,
                            ),
                        decreases v@.len() - k,
                    {
                        let name = &v[k];
                        let fit: bool = i < fits.len() && k < fits[i].len() && fits[i][k];
                        assert(fit == (k < flags.len() && flags[k as int]));
                        if !existing.contains(name.as_str()) && !seen.contains(name.as_str()) {
                            seen.insert(name.clone());
                            if fit {
                                insert_symbol(&mut out, name.clone(), import.clone());
                            }
                        }
                        k += 1;
                    }
                } else {
                    assert(names =~= Seq::<Seq<char>>::empty());
                }
            }
        }
        i += 1;
    }
    out
}

/// Which names of each file start with `prefix`, whatever the case.
pub open spec fn prefix_flags(ps: Seq<Provider>, prefix: Seq<char>) -> Seq<Seq<bool>> {
    Seq::new(
        ps.len(),
        |i: int|
            Seq::new(
                provider_names(ps[i]).len(),
                |k: int| matches_prefix(provider_names(ps[i])[k], prefix),
            ),
    )
}

/// The symbols that start with `prefix`, whatever the case, with the imports
/// that provide them, in symbol order; those in `existing` are left out.
pub fn candidates_with_prefix(
    prefix: &str,
    importer: Option<&str>,
    files: &Vec<Provider>,
    existing: &NameSet,
) -> (r: Vec<(String, String)>)
    ensures
        string_pairs(r@) == all_offers(
            files@,
            opt_str(importer),
            prefix_flags(files@, prefix@),
            existing@,
            files@.len() as int,
        ).chosen,
{
    let lower = to_lowercase(prefix);
    let every: bool = chars_of(lower.as_str()).len() == 0;
    let mut fits: Vec<Vec<bool>> = Vec::new();
    let ghost goal = prefix_flags(files@, prefix@);
    let mut i: usize = 0;
    while i < files.len()
        invariant
            i <= files@.len(),
            lower@ == lowercase(prefix@),
            every == (lower@.len() == 0),
            goal == prefix_flags(files@, prefix@),
            flag_rows(fits@) =~= goal.take(i as int),
        decreases files@.len() - i,
    {
        let mut row: Vec<bool> = Vec::new();
        let ghost names = provider_names(files@[i as int]);
        if let Some(v) = &files[i].names {
            let mut k: usize = 0;
            while k < v.len()
                invariant
                    k <= v@.len(),
                    i < files@.len(),
                    names == texts(v@),
                    names == provider_names(files@[i as int]),
                    lower@ == lowercase(prefix@),
                    every == (lower@.len() == 0),
                    goal == prefix_flags(files@, prefix@),
                    row@ =~= goal[i as int].take(k as int),
                decreases v@.len() - k,
            {
                let name = to_lowercase(v[k].as_str());
                row.push(every || starts_with(&chars_of(name.as_str()), lower.as_str()));
                k += 1;
            }
        }
        let ghost had = flag_rows(fits@);
        assert(row@ =~= goal[i as int]);
        fits.push(row);
        assert(flag_rows(fits@) =~= had.push(goal[i as int]));
        i += 1;
    }
    assert(flag_rows(fits@) =~= goal);
    select_candidates(files, importer, &fits, existing)
}

// ---------------------------------------------------------------------------
// Laws
// ---------------------------------------------------------------------------

/// A file never imports itself, and an entry file right under a base is no
/// module.
pub proof fn law_no_self_import(p: Provider)
    ensures
        offers(p, Some(p.file@)) is None,
        path_below(seq!["main.hll"@]) is None,
{
}

/// A walk collects at most as many files as it may, and looks at no more
/// entries than it may.
pub proof fn law_walk_is_bounded(w: Walk, path: Seq<char>, name: Seq<char>, kind: EntryKind)
    requires
        w.seen <= ENTRY_BUDGET,
        w.files.len() <= FILE_CAP,
    ensures
        with_entry(w, path, name, kind).seen <= ENTRY_BUDGET,
        with_entry(w, path, name, kind).files.len() <= FILE_CAP,
{
}

/// Wherever a module provides the symbol an import is found, and no module
/// provides the symbol under an earlier one.
pub proof fn law_best_import_is_first(
    ps: Seq<Provider>,
    importer: Option<Seq<char>>,
    symbol: Seq<char>,
    n: int,
    k: int,
)
    requires
        0 <= k < n <= ps.len(),
        offers(ps[k], importer) is Some,
        provider_names(ps[k]).contains(symbol),
    ensures
        best_import(ps, importer, symbol, n) matches Some(b) && !before(
            offers(ps[k], importer)->0,
            b,
        ),
    decreases n,
{
    let o = offers(ps[k], importer)->0;
    if k < n - 1 {
        law_best_import_is_first(ps, importer, symbol, n - 1, k);
        let prev = best_import(ps, importer, symbol, n - 1)->0;
        match offers(ps[n - 1], importer) {
            Some(import) => {
                if before(import, prev) && before(o, import) {
                    crate::text::lemma_before_trans(o, import, prev);
                }
            },
            None => {},
        }
    } else {
        lemma_before_total(o, o);
    }
}

} // verus!
