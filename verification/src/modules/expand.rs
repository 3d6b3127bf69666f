//! Import expansion: inlining the modules a program imports.
use crate::ast::{Expr, ExprKind, ImportDecl, Item, Program};
use crate::cfg::{keeps, kept};
use crate::graph::{lemma_mark, unmarked};
use crate::graph;
use crate::lint::walk::{
    exprs_of_item, item_named_types, item_names, item_walk, ty_names, type_names,
};
use crate::modules::laws::{law_no_item_twice, sized};
use crate::modules::resolve::{candidates, import_candidates, resolve_import, resolved};
use crate::names::{completed, extend_missing};
use crate::paths::{has_path, in_path_order, is_same_path, same_path, sorted_paths};
use crate::text::{
    base_name, base_name_of, chars_of, contains_text, copy_strings, join, join_strings, same,
    string_of, texts,
};
use crate::token::Span;
use vstd::prelude::*;
use vstd::string::*;

verus! {

/// A file that imports may resolve to, and what reading it gave.
#[derive(Debug)]
pub struct Source {
    pub path: String,
    pub content: Content,
}

/// What reading a file gave.
#[derive(Debug)]
pub enum Content {
    /// The file could not be read, for this reason.
    Unreadable(String),
    /// The file does not split into tokens.
    LexError,
    /// The file does not parse, for this reason.
    ParseError(String),
    Parsed(Program),
}

/// A failed import. `span` is in the coordinates of `file`, the document that
/// holds the failing `import`.
#[derive(Debug)]
pub struct ImportError {
    pub message: String,
    pub span: Span,
    pub file: String,
}

/// What an import error says, as mathematical text.
#[verifier::ext_equal]
pub struct Failure {
    pub message: Seq<char>,
    pub span: Span,
    pub file: Seq<char>,
}

impl View for ImportError {
    type V = Failure;

    open spec fn view(&self) -> Failure {
        Failure { message: self.message@, span: self.span, file: self.file@ }
    }
}

pub open spec fn failures(es: Seq<ImportError>) -> Seq<Failure> {
    Seq::new(es.len(), |i: int| es[i]@)
}

/// Where an item was declared: the source with that number, or the entry
/// program where the number is one past the last source.
#[derive(Clone, Copy, Debug, PartialEq, Eq, Structural)]
pub struct Origin {
    pub file: usize,
    pub index: usize,
}

/// Everything an expansion depends on.
pub struct World {
    pub entry: Seq<Item>,
    pub sources: Seq<Source>,
    pub importer: Seq<char>,
    pub bases: Seq<Seq<char>>,
    pub debug: bool,
    pub host: Seq<char>,
}

// ---------------------------------------------------------------------------
// Declarations
// ---------------------------------------------------------------------------

/// The item behind all its attributes.
pub open spec fn inner_item(item: Item) -> Item
    decreases item,
{
    match item {
        Item::Attributed { item: inner, .. } => inner_item(*inner),
        other => other,
    }
}

/// A block of foreign declarations, attributes aside.
pub open spec fn is_linkage(item: Item) -> bool {
    inner_item(item) is Extern
}

/// The name a top-level item declares.
pub open spec fn decl_name(item: Item) -> Option<Seq<char>> {
    match inner_item(item) {
        Item::Function(f) => Some(f.name@),
        Item::Struct(s) => Some(s.name@),
        Item::Class(c) => Some(c.name@),
        Item::Enum(e) => Some(e.name@),
        Item::Trait(t) => Some(t.name@),
        Item::Typedef(t) => Some(t.name@),
        Item::Distinct(d) => Some(d.name@),
        Item::Const(c) => Some(c.name@),
        Item::Var(v) => Some(v.name@),
        _ => None,
    }
}

/// The names one expression refers to, its children aside.
pub open spec fn expr_refs(e: Expr) -> Seq<Seq<char>> {
    match e.kind {
        ExprKind::Call { callee, .. } => seq![callee@],
        ExprKind::Ident(name) => seq![name@],
        ExprKind::StructLit { name, .. } => seq![base_name(name@)],
        ExprKind::New { ty, .. } => ty_names(&ty),
        ExprKind::EnumVariant { enum_name: Some(name), .. } => seq![base_name(name@)],
        _ => Seq::empty(),
    }
}

/// The names the first `n` expressions refer to.
pub open spec fn exprs_refs(es: Seq<&Expr>, n: int) -> Seq<Seq<char>>
    decreases n,
{
    if n <= 0 {
        Seq::empty()
    } else {
        exprs_refs(es, n - 1) + expr_refs(*es[n - 1])
    }
}

/// Every name an item refers to, values first, then types.
pub open spec fn item_refs(item: Item) -> Seq<Seq<char>> {
    exprs_refs(item_walk(&item), item_walk(&item).len() as int) + item_names(&item)
}

impl World {
    /// The items of a source, or of the entry program.
    pub open spec fn items(self, file: int) -> Seq<Item> {
        if 0 <= file < self.sources.len() {
            match self.sources[file].content {
                Content::Parsed(p) => p.items@,
                _ => Seq::empty(),
            }
        } else {
            self.entry
        }
    }

    pub open spec fn path(self, file: int) -> Seq<char> {
        if 0 <= file < self.sources.len() {
            self.sources[file].path@
        } else {
            self.importer
        }
    }

    pub open spec fn item(self, o: Origin) -> Item {
        self.items(o.file as int)[o.index as int]
    }

    pub open spec fn name(self, o: Origin) -> Option<Seq<char>> {
        decl_name(self.item(o))
    }

    pub open spec fn paths(self) -> Seq<Seq<char>> {
        Seq::new(self.sources.len(), |i: int| self.sources[i].path@)
    }

    /// An origin that stands for an item.
    pub open spec fn valid(self, o: Origin) -> bool {
        o.file <= self.sources.len() && o.index < self.items(o.file as int).len()
    }

    pub open spec fn all_valid(self, s: Seq<Origin>) -> bool {
        forall|i: int| 0 <= i < s.len() ==> self.valid(#[trigger] s[i])
    }
}

/// Position of the first `x` in `s`.
pub open spec fn index_in(s: Seq<Seq<char>>, x: Seq<char>) -> Option<int>
    decreases s.len(),
{
    if s.len() == 0 {
        None
    } else {
        match index_in(s.drop_last(), x) {
            Some(k) => Some(k),
            None => if s.last() == x {
                Some(s.len() - 1)
            } else {
                None
            },
        }
    }
}

/// The source that an import path resolves to.
pub open spec fn located(w: World, path: Seq<Seq<char>>) -> Option<int> {
    match resolved(path, w.bases, w.paths()) {
        Some(f) => index_in(w.paths(), f),
        None => None,
    }
}

// ---------------------------------------------------------------------------
// Selective imports
// ---------------------------------------------------------------------------

/// Entry `p` of the list is the first that declares its name.
pub open spec fn leads_name(w: World, list: Seq<Origin>, p: int) -> bool {
    &&& 0 <= p < list.len()
    &&& w.name(list[p]) is Some
    &&& forall|q: int| 0 <= q < p ==> w.name(#[trigger] list[q]) != w.name(list[p])
}

/// Entry `p` is asked for by name.
pub open spec fn asked(w: World, list: Seq<Origin>, symbols: Seq<Seq<char>>, p: int) -> bool {
    leads_name(w, list, p) && symbols.contains(w.name(list[p])->0)
}

/// Entry `p` refers to the name that entry `q` declares.
pub open spec fn refers(w: World, list: Seq<Origin>, p: int, q: int) -> bool {
    leads_name(w, list, p) && leads_name(w, list, q) && item_refs(w.item(list[p])).contains(
        w.name(list[q])->0,
    )
}

/// Entry `p` is asked for, or something that is kept refers to it.
pub open spec fn required(w: World, list: Seq<Origin>, symbols: Seq<Seq<char>>, p: int) -> bool {
    graph::reached(
        |i: int| asked(w, list, symbols, i),
        |i: int, j: int| refers(w, list, i, j),
        p,
    )
}

/// A selective import keeps entry `p`: it is a linkage requirement, or it
/// declares a name that is required.
pub open spec fn picked(w: World, list: Seq<Origin>, symbols: Seq<Seq<char>>, p: int) -> bool {
    ||| is_linkage(w.item(list[p]))
    ||| w.name(list[p]) is Some && exists|q: int|
        0 <= q < list.len() && #[trigger] w.name(list[q]) == w.name(list[p]) && required(
            w,
            list,
            symbols,
            q,
        )
}

/// The kept entries among the first `n`.
pub open spec fn picks(w: World, list: Seq<Origin>, symbols: Seq<Seq<char>>, n: int) -> Seq<Origin>
    decreases n,
{
    if n <= 0 {
        Seq::empty()
    } else if picked(w, list, symbols, n - 1) {
        picks(w, list, symbols, n - 1).push(list[n - 1])
    } else {
        picks(w, list, symbols, n - 1)
    }
}

/// The symbols an import lists.
pub open spec fn symbol_names(v: Seq<(String, Span)>) -> Seq<Seq<char>> {
    Seq::new(v.len(), |i: int| v[i].0@)
}

/// What an import takes from an expanded module: everything, or what its symbol
/// list requires.
pub open spec fn taken(w: World, imp: ImportDecl, list: Seq<Origin>) -> Seq<Origin> {
    match imp.symbols {
        Some(v) => picks(w, list, symbol_names(v@), list.len() as int),
        None => list,
    }
}

// ---------------------------------------------------------------------------
// Expansion
// ---------------------------------------------------------------------------

/// The items among the first `n` that `@cfg` leaves.
pub open spec fn present(w: World, list: Seq<Origin>, n: int) -> Seq<Origin>
    decreases n,
{
    if n <= 0 {
        Seq::empty()
    } else if kept(w.item(list[n - 1]), w.debug, w.host) {
        present(w, list, n - 1).push(list[n - 1])
    } else {
        present(w, list, n - 1)
    }
}

/// What an expansion has found out so far, source by source.
#[verifier::ext_equal]
pub struct Progress {
    /// The expanded items of the sources that are done, with everything that
    /// their imports bring.
    pub done: Seq<Option<Seq<Origin>>>,
    /// The sources that an import resolved to.
    pub seen: Seq<bool>,
    /// The sources that closed a cycle and are still being expanded: what was
    /// expanded since lacks their items.
    pub cut: Seq<bool>,
    pub errors: Seq<Failure>,
}

pub open spec fn begun(n: nat) -> Progress {
    Progress {
        done: Seq::new(n, |i: int| None),
        seen: Seq::new(n, |i: int| false),
        cut: Seq::new(n, |i: int| false),
        errors: Seq::empty(),
    }
}

/// Source `g` is the entry file.
pub open spec fn is_entry(w: World, g: int) -> bool {
    same_path(w.path(g), w.importer)
}

/// Nothing that was expanded lacks the items of an open source.
pub open spec fn uncut(cut: Seq<bool>) -> bool {
    forall|i: int| 0 <= i < cut.len() ==> !#[trigger] cut[i]
}

pub open spec fn unresolved(w: World, file: int, imp: ImportDecl) -> Failure {
    Failure {
        message: "cannot resolve import `"@ + join(texts(imp.path@), "::"@) + "` (looked in "@
            + join(w.bases, ", "@) + ")"@,
        span: imp.span,
        file: w.path(file),
    }
}

/// Why source `g` cannot be used.
pub open spec fn unusable(w: World, g: int) -> Seq<char> {
    match w.sources[g].content {
        Content::Unreadable(why) => "failed to read import "@ + w.path(g) + ": "@ + why@,
        Content::LexError => "lex error in import "@ + w.path(g),
        Content::ParseError(why) => "parse error in "@ + w.path(g) + ": "@ + why@,
        Content::Parsed(_) => Seq::empty(),
    }
}

/// What the import `imp` in `file` brings. `open` marks the entry file and the
/// sources that are being expanded: one that is reached again while open closes
/// a cycle and brings nothing. One that is done brings its items again, so that
/// two modules can share a third. A source that was expanded while a cycle was
/// open is not done: a later import, which may want what lies behind the cycle,
/// expands it anew. `first` is false where `file` was expanded before; its
/// errors are known then.
pub open spec fn brought(
    w: World,
    file: int,
    imp: ImportDecl,
    first: bool,
    open: Seq<bool>,
    st: Progress,
) -> (Seq<Origin>, Progress)
    decreases unmarked(open), 0nat,
{
    match located(w, texts(imp.path@)) {
        None => (
            Seq::empty(),
            if first {
                Progress { errors: st.errors.push(unresolved(w, file, imp)), ..st }
            } else {
                st
            },
        ),
        Some(g) => if st.done[g] is Some {
            (taken(w, imp, st.done[g]->0), st)
        } else if !(0 <= g < open.len()) {
            (Seq::empty(), st)
        } else if open[g] {
            (
                Seq::empty(),
                Progress {
                    cut: if is_entry(w, g) {
                        st.cut
                    } else {
                        st.cut.update(g, true)
                    },
                    ..st
                },
            )
        } else if !(w.sources[g].content is Parsed) {
            (
                Seq::empty(),
                if st.seen[g] {
                    st
                } else {
                    Progress {
                        seen: st.seen.update(g, true),
                        errors: st.errors.push(
                            Failure { message: unusable(w, g), span: imp.span, file: w.path(file) },
                        ),
                        ..st
                    }
                },
            )
        } else {
            proof {
                lemma_mark(open, g);
            }
            let (all, st2) = expanded(
                w,
                g,
                w.items(g).len(),
                !st.seen[g],
                open.update(g, true),
                Progress { seen: st.seen.update(g, true), ..st },
            );
            let list = present(w, all, all.len() as int);
            let cut = st2.cut.update(g, false);
            (
                taken(w, imp, list),
                Progress {
                    done: if uncut(cut) {
                        st2.done.update(g, Some(list))
                    } else {
                        st2.done
                    },
                    cut,
                    ..st2
                },
            )
        },
    }
}

/// The first `n` items of `file` with its imports inlined.
pub open spec fn expanded(
    w: World,
    file: int,
    n: nat,
    first: bool,
    open: Seq<bool>,
    st: Progress,
) -> (Seq<Origin>, Progress)
    decreases unmarked(open), n,
{
    if n == 0 {
        (Seq::empty(), st)
    } else {
        let (out, st1) = expanded(w, file, (n - 1) as nat, first, open, st);
        match w.items(file)[n - 1] {
            Item::Import(imp) => {
                let (more, st2) = brought(w, file, imp, first, open, st1);
                (out + more, st2)
            },
            _ => (out.push(Origin { file: file as usize, index: (n - 1) as usize }), st1),
        }
    }
}

/// The two origins stand for the same declaration: the same item, or items
/// that declare the same name.
pub open spec fn same_decl(w: World, a: Origin, b: Origin) -> bool {
    a == b || (w.name(a) is Some && w.name(a) == w.name(b))
}

/// An import has brought the declaration already.
pub open spec fn imported(w: World, out: Seq<Origin>, o: Origin) -> bool {
    exists|q: int|
        0 <= q < out.len() && (#[trigger] out[q]).file < w.sources.len() && same_decl(
            w,
            out[q],
            o,
        )
}

/// `out` with the first `n` of `more`, the first import of a declaration
/// winning.
pub open spec fn merged(w: World, out: Seq<Origin>, more: Seq<Origin>, n: int) -> Seq<Origin>
    decreases n,
{
    if n <= 0 {
        out
    } else {
        let m = merged(w, out, more, n - 1);
        if imported(w, m, more[n - 1]) {
            m
        } else {
            m.push(more[n - 1])
        }
    }
}

/// At the start only the entry file is open: a module that imports it back
/// closes a cycle.
pub open spec fn entry_open(w: World) -> Seq<bool> {
    Seq::new(w.sources.len(), |i: int| is_entry(w, i))
}

/// The first `n` items of the entry program with its imports inlined. The
/// entry's own items are all kept, so a redefinition still shows.
pub open spec fn entry_list(w: World, n: nat) -> (Seq<Origin>, Progress)
    decreases n,
{
    if n == 0 {
        (Seq::empty(), begun(w.sources.len()))
    } else {
        let (out, st) = entry_list(w, (n - 1) as nat);
        match w.entry[n - 1] {
            Item::Import(imp) => {
                let (more, st2) = brought(
                    w,
                    w.sources.len() as int,
                    imp,
                    true,
                    entry_open(w),
                    st,
                );
                (merged(w, out, more, more.len() as int), st2)
            },
            _ => (
                out.push(Origin { file: w.sources.len() as usize, index: (n - 1) as usize }),
                st,
            ),
        }
    }
}

/// The program that remains: imports inlined, absent items dropped.
pub open spec fn program_list(w: World) -> Seq<Origin> {
    let all = entry_list(w, w.entry.len()).0;
    present(w, all, all.len() as int)
}

// ---------------------------------------------------------------------------
// Reading declarations
// ---------------------------------------------------------------------------

fn unwrap_item<'a>(item: &'a Item) -> (r: &'a Item)
    ensures
        *r == inner_item(*item),
    decreases item,
{
    match item {
        Item::Attributed { item: inner, .. } => unwrap_item(&**inner),
        other => other,
    }
}

fn is_extern(item: &Item) -> (r: bool)
    ensures
        r == is_linkage(*item),
{
    match unwrap_item(item) {
        Item::Extern(_) => true,
        _ => false,
    }
}

/// The name a top-level item declares, if it declares one.
pub fn item_name<'a>(item: &'a Item) -> (r: Option<&'a str>)
    ensures
        r is Some <==> decl_name(*item) is Some,
        r matches Some(n) ==> decl_name(*item) == Some(n@),
{
    match unwrap_item(item) {
        Item::Function(f) => Some(f.name.as_str()),
        Item::Struct(s) => Some(s.name.as_str()),
        Item::Class(c) => Some(c.name.as_str()),
        Item::Enum(e) => Some(e.name.as_str()),
        Item::Trait(t) => Some(t.name.as_str()),
        Item::Typedef(t) => Some(t.name.as_str()),
        Item::Distinct(d) => Some(d.name.as_str()),
        Item::Const(c) => Some(c.name.as_str()),
        Item::Var(v) => Some(v.name.as_str()),
        _ => None,
    }
}

fn push_refs(e: &Expr, out: &mut Vec<String>)
    ensures
        texts(final(out)@) == texts(old(out)@) + expr_refs(*e),
{
    match &e.kind {
        ExprKind::Call { callee, .. } => out.push(callee.clone()),
        ExprKind::Ident(name) => out.push(name.clone()),
        ExprKind::StructLit { name, .. } => {
            let b = base_name_of(&chars_of(name.as_str()));
            out.push(string_of(&b));
        },
        ExprKind::New { ty, .. } => {
            let mut names = type_names(ty);
            let ghost more = texts(names@);
            out.append(&mut names);
            assert(texts(out@) =~= texts(old(out)@) + more);
        },
        ExprKind::EnumVariant { enum_name: Some(name), .. } => {
            let b = base_name_of(&chars_of(name.as_str()));
            out.push(string_of(&b));
        },
        _ => {},
    }
    assert(texts(out@) =~= texts(old(out)@) + expr_refs(*e));
}

fn refs_of(item: &Item) -> (r: Vec<String>)
    ensures
        texts(r@) == item_refs(*item),
{
    let es = exprs_of_item(item);
    let mut out: Vec<String> = Vec::new();
    let mut i: usize = 0;
    assert(texts(out@) =~= exprs_refs(es@, 0));
    while i < es.len()
        invariant
            i <= es@.len(),
            texts(out@) == exprs_refs(es@, i as int),
        decreases es@.len() - i,
    {
        push_refs(es[i], &mut out);
        i += 1;
    }
    let mut names = item_named_types(item);
    let ghost values = texts(out@);
    let ghost types = texts(names@);
    out.append(&mut names);
    assert(texts(out@) =~= values + types);
    out
}

fn index_of(v: &Vec<String>, x: &str) -> (r: Option<usize>)
    ensures
        r is Some <==> index_in(texts(v@), x@) is Some,
        r matches Some(k) ==> k < v@.len() && index_in(texts(v@), x@) == Some(k as int),
{
    let ghost all = texts(v@);
    let mut i: usize = 0;
    assert(index_in(all.take(0), x@) is None);
    while i < v.len()
        invariant
            i <= v@.len(),
            all == texts(v@),
            index_in(all.take(i as int), x@) is None,
        decreases v@.len() - i,
    {
        assert(all.take(i + 1).drop_last() =~= all.take(i as int));
        if same(v[i].as_str(), x) {
            proof {
                lemma_index_prefix(all, x@, i + 1);
            }
            return Some(i);
        }
        i += 1;
    }
    assert(all.take(i as int) =~= all);
    None
}

proof fn lemma_index_prefix(s: Seq<Seq<char>>, x: Seq<char>, n: int)
    requires
        0 <= n <= s.len(),
        index_in(s.take(n), x) is Some,
    ensures
        index_in(s, x) == index_in(s.take(n), x),
    decreases s.len() - n,
{
    if n < s.len() {
        assert(s.take(n + 1).drop_last() =~= s.take(n));
        lemma_index_prefix(s, x, n + 1);
    } else {
        assert(s.take(n) =~= s);
    }
}

// ---------------------------------------------------------------------------
// The expander
// ---------------------------------------------------------------------------

/// What is expanded, against what.
struct Ctx<'a> {
    entry: &'a Program,
    sources: &'a Vec<Source>,
    paths: Vec<String>,
    importer: &'a str,
    bases: &'a Vec<String>,
    debug: bool,
    host: &'a str,
}

struct State {
    done: Vec<Option<Vec<Origin>>>,
    seen: Vec<bool>,
    cut: Vec<bool>,
    errors: Vec<ImportError>,
}

spec fn list_model(v: Option<Vec<Origin>>) -> Option<Seq<Origin>> {
    match v {
        Some(l) => Some(l@),
        None => None,
    }
}

impl State {
    spec fn model(&self) -> Progress {
        Progress {
            done: Seq::new(self.done@.len(), |i: int| list_model(self.done@[i])),
            seen: self.seen@,
            cut: self.cut@,
            errors: failures(self.errors@),
        }
    }

    spec fn wf(&self, w: World) -> bool {
        &&& self.done@.len() == w.sources.len()
        &&& self.seen@.len() == w.sources.len()
        &&& self.cut@.len() == w.sources.len()
        &&& forall|g: int|
            0 <= g < self.done@.len() ==> ((#[trigger] self.done@[g]) matches Some(l)
                ==> w.all_valid(l@))
    }

    fn fail(&mut self, message: String, span: Span, file: &str)
        ensures
            final(self).done == old(self).done,
            final(self).seen == old(self).seen,
            final(self).cut == old(self).cut,
            failures(final(self).errors@) == failures(old(self).errors@).push(
                (Failure { message: message@, span, file: file@ }),
            ),
    {
        let ghost e = Failure { message: message@, span, file: file@ };
        self.errors.push(ImportError { message, span, file: String::from_str(file) });
        assert(failures(self.errors@) =~= failures(old(self).errors@).push(e));
    }
}

impl<'a> Ctx<'a> {
    spec fn world(&self) -> World {
        World {
            entry: self.entry.items@,
            sources: self.sources@,
            importer: self.importer@,
            bases: texts(self.bases@),
            debug: self.debug,
            host: self.host@,
        }
    }

    spec fn wf(&self) -> bool {
        texts(self.paths@) == self.world().paths()
    }

    fn items(&self, file: usize) -> (r: Option<&'a Vec<Item>>)
        requires
            file <= self.sources@.len(),
        ensures
            r matches Some(v) ==> v@ == self.world().items(file as int),
            r is None ==> self.world().items(file as int).len() == 0,
    {
        if file < self.sources.len() {
            match &self.sources[file].content {
                Content::Parsed(p) => Some(&p.items),
                _ => None,
            }
        } else {
            Some(&self.entry.items)
        }
    }

    fn item(&self, o: Origin) -> (r: &'a Item)
        requires
            self.world().valid(o),
        ensures
            *r == self.world().item(o),
    {
        match self.items(o.file) {
            Some(v) => &v[o.index],
            None => &self.entry.items[o.index],
        }
    }

    fn path(&self, file: usize) -> (r: &'a str)
        requires
            file <= self.sources@.len(),
        ensures
            r@ == self.world().path(file as int),
    {
        if file < self.sources.len() {
            self.sources[file].path.as_str()
        } else {
            self.importer
        }
    }

    fn same_name(&self, a: Origin, b: Origin) -> (r: bool)
        requires
            self.world().valid(a),
            self.world().valid(b),
        ensures
            r == (self.world().name(a) is Some && self.world().name(a) == self.world().name(b)),
    {
        match (item_name(self.item(a)), item_name(self.item(b))) {
            (Some(x), Some(y)) => same(x, y),
            _ => false,
        }
    }

    fn is_lead(&self, list: &Vec<Origin>, p: usize) -> (r: bool)
        requires
            self.world().all_valid(list@),
            p < list@.len(),
        ensures
            r == leads_name(self.world(), list@, p as int),
    {
        assert(self.world().valid(list@[p as int]));
        if item_name(self.item(list[p])).is_none() {
            return false;
        }
        let mut q: usize = 0;
        while q < p
            invariant
                q <= p < list@.len(),
                self.world().all_valid(list@),
                self.world().name(list@[p as int]) is Some,
                forall|k: int|
                    0 <= k < q ==> self.world().name(#[trigger] list@[k]) != self.world().name(
                        list@[p as int],
                    ),
            decreases p - q,
        {
            assert(self.world().valid(list@[q as int]));
            assert(self.world().valid(list@[p as int]));
            if self.same_name(list[q], list[p]) {
                return false;
            }
            q += 1;
        }
        true
    }

    fn leads(&self, list: &Vec<Origin>) -> (r: Vec<bool>)
        requires
            self.world().all_valid(list@),
        ensures
            r@.len() == list@.len(),
            forall|p: int| 0 <= p < r@.len() ==> #[trigger] r@[p] == leads_name(self.world(), list@, p),
    {
        let mut out: Vec<bool> = Vec::new();
        let mut p: usize = 0;
        while p < list.len()
            invariant
                p <= list@.len(),
                out@.len() == p,
                self.world().all_valid(list@),
                forall|k: int|
                    0 <= k < p ==> #[trigger] out@[k] == leads_name(self.world(), list@, k),
            decreases list@.len() - p,
        {
            out.push(self.is_lead(list, p));
            p += 1;
        }
        out
    }

    /// Which leading entries declare one of `names`.
    fn named(&self, list: &Vec<Origin>, leads: &Vec<bool>, names: &Vec<String>) -> (r: Vec<bool>)
        requires
            self.world().all_valid(list@),
            leads@.len() == list@.len(),
            forall|p: int|
                0 <= p < leads@.len() ==> #[trigger] leads@[p] == leads_name(self.world(), list@, p),
        ensures
            r@.len() == list@.len(),
            forall|p: int| 0 <= p < r@.len() ==> #[trigger] r@[p] == (leads_name(self.world(), list@, p) && texts(names@).contains(self.world().name(list@[p])->0)),
    {
        let mut out: Vec<bool> = Vec::new();
        let mut p: usize = 0;
        while p < list.len()
            invariant
                p <= list@.len(),
                out@.len() == p,
                self.world().all_valid(list@),
                leads@.len() == list@.len(),
                forall|k: int|
                    0 <= k < leads@.len() ==> #[trigger] leads@[k] == leads_name(
                        self.world(),
                        list@,
                        k,
                    ),
                forall|k: int| 0 <= k < p ==> #[trigger] out@[k] == (leads_name(self.world(), list@, k) && texts(names@).contains(self.world().name(list@[k])->0)),
            decreases list@.len() - p,
        {
            assert(self.world().valid(list@[p as int]));
            let hit: bool = if leads[p] {
                match item_name(self.item(list[p])) {
                    Some(n) => contains_text(names, n),
                    None => false,
                }
            } else {
                false
            };
            out.push(hit);
            p += 1;
        }
        out
    }

    /// Which entries a list of symbols requires.
    fn requirements(&self, list: &Vec<Origin>, symbols: &Vec<String>) -> (r: Vec<bool>)
        requires
            self.world().all_valid(list@),
        ensures
            r@.len() == list@.len(),
            forall|p: int| 0 <= p < r@.len() ==> #[trigger] r@[p] == required(self.world(), list@, texts(symbols@), p),
    {
        let leads = self.leads(list);
        let start = self.named(list, &leads, symbols);
        let mut rows: Vec<Vec<bool>> = Vec::new();
        let mut p: usize = 0;
        let ghost w = self.world();
        while p < list.len()
            invariant
                p <= list@.len(),
                w == self.world(),
                rows@.len() == p,
                w.all_valid(list@),
                leads@.len() == list@.len(),
                forall|k: int|
                    0 <= k < leads@.len() ==> #[trigger] leads@[k] == leads_name(w, list@, k),
                forall|i: int| 0 <= i < p ==> (#[trigger] rows@[i])@.len() == list@.len(),
                forall|i: int, j: int|
                    0 <= i < p && 0 <= j < list@.len() ==> #[trigger] rows@[i]@[j] == refers(
                        w,
                        list@,
                        i,
                        j,
                    ),
            decreases list@.len() - p,
        {
            assert(w.valid(list@[p as int]));
            let refs = if leads[p] {
                refs_of(self.item(list[p]))
            } else {
                Vec::new()
            };
            let row = self.named(list, &leads, &refs);
            assert forall|j: int| 0 <= j < list@.len() implies #[trigger] row@[j] == refers(
                w,
                list@,
                p as int,
                j,
            ) by {
                if !leads@[p as int] {
                    assert(texts(refs@) =~= Seq::<Seq<char>>::empty());
                }
            }
            rows.push(row);
            p += 1;
        }
        let ghost syms = texts(symbols@);
        graph::reach(
            &start,
            &rows,
            Ghost(|i: int| asked(w, list@, syms, i)),
            Ghost(|i: int, j: int| refers(w, list@, i, j)),
        )
    }

    fn select(&self, list: &Vec<Origin>, symbols: &Vec<String>) -> (r: Vec<Origin>)
        requires
            self.world().all_valid(list@),
        ensures
            r@ == picks(self.world(), list@, texts(symbols@), list@.len() as int),
            self.world().all_valid(r@),
    {
        let need = self.requirements(list, symbols);
        let mut out: Vec<Origin> = Vec::new();
        let mut p: usize = 0;
        let ghost w = self.world();
        let ghost syms = texts(symbols@);
        while p < list.len()
            invariant
                p <= list@.len(),
                w == self.world(),
                w.all_valid(list@),
                w.all_valid(out@),
                need@.len() == list@.len(),
                forall|k: int|
                    0 <= k < need@.len() ==> #[trigger] need@[k] == required(w, list@, syms, k),
                out@ == picks(w, list@, syms, p as int),
            decreases list@.len() - p,
        {
            assert(w.valid(list@[p as int]));
            if is_extern(self.item(list[p])) || self.needs_name(list, &need, p, Ghost(syms)) {
                out.push(list[p]);
            }
            p += 1;
        }
        out
    }

    fn needs_name(
        &self,
        list: &Vec<Origin>,
        need: &Vec<bool>,
        p: usize,
        Ghost(syms): Ghost<Seq<Seq<char>>>,
    ) -> (r: bool)
        requires
            self.world().all_valid(list@),
            p < list@.len(),
            need@.len() == list@.len(),
            forall|k: int|
                0 <= k < need@.len() ==> #[trigger] need@[k] == required(
                    self.world(),
                    list@,
                    syms,
                    k,
                ),
        ensures
            r == (self.world().name(list@[p as int]) is Some && exists|q: int|
                0 <= q < list@.len() && #[trigger] self.world().name(list@[q])
                    == self.world().name(list@[p as int]) && required(
                    self.world(),
                    list@,
                    syms,
                    q,
                )),
    {
        let mut q: usize = 0;
        let ghost w = self.world();
        while q < list.len()
            invariant
                q <= list@.len(),
                p < list@.len(),
                w == self.world(),
                w.all_valid(list@),
                need@.len() == list@.len(),
                forall|k: int|
                    0 <= k < need@.len() ==> #[trigger] need@[k] == required(w, list@, syms, k),
                forall|k: int|
                    0 <= k < q && w.name(list@[p as int]) is Some && #[trigger] w.name(list@[k])
                        == w.name(list@[p as int]) ==> !required(w, list@, syms, k),
            decreases list@.len() - q,
        {
            assert(w.valid(list@[q as int]));
            assert(w.valid(list@[p as int]));
            if need[q] && self.same_name(list[q], list[p]) {
                assert(w.name(list@[q as int]) == w.name(list@[p as int]));
                return true;
            }
            q += 1;
        }
        false
    }

    /// What an import takes from an expanded module.
    fn take(&self, imp: &ImportDecl, list: &Vec<Origin>) -> (r: Vec<Origin>)
        requires
            self.world().all_valid(list@),
        ensures
            r@ == taken(self.world(), *imp, list@),
            self.world().all_valid(r@),
    {
        match &imp.symbols {
            Some(v) => {
                let names = symbols_of(v);
                self.select(list, &names)
            },
            None => copy_list(list),
        }
    }

    fn drop_absent(&self, list: &Vec<Origin>) -> (r: Vec<Origin>)
        requires
            self.world().all_valid(list@),
        ensures
            r@ == present(self.world(), list@, list@.len() as int),
            self.world().all_valid(r@),
    {
        let mut out: Vec<Origin> = Vec::new();
        let mut p: usize = 0;
        let ghost w = self.world();
        while p < list.len()
            invariant
                p <= list@.len(),
                w == self.world(),
                w.all_valid(list@),
                w.all_valid(out@),
                out@ == present(w, list@, p as int),
            decreases list@.len() - p,
        {
            assert(w.valid(list@[p as int]));
            if keeps(self.item(list[p]), self.debug, self.host) {
                out.push(list[p]);
            }
            p += 1;
        }
        out
    }

    fn locate(&self, path: &Vec<String>) -> (r: Option<usize>)
        requires
            self.wf(),
        ensures
            r is Some <==> located(self.world(), texts(path@)) is Some,
            r matches Some(g) ==> g < self.sources@.len() && located(self.world(), texts(path@))
                == Some(g as int),
    {
        match resolve_import(path, self.bases, &self.paths) {
            Some(f) => index_of(&self.paths, f.as_str()),
            None => None,
        }
    }

    fn bring(
        &self,
        file: usize,
        imp: &ImportDecl,
        first: bool,
        open: &mut Vec<bool>,
        st: &mut State,
    ) -> (r: Vec<Origin>)
        requires
            self.wf(),
            file <= self.sources@.len(),
            old(open)@.len() == self.sources@.len(),
            old(st).wf(self.world()),
        ensures
            (r@, final(st).model()) == brought(
                self.world(),
                file as int,
                *imp,
                first,
                old(open)@,
                old(st).model(),
            ),
            self.world().all_valid(r@),
            final(open)@ == old(open)@,
            final(st).wf(self.world()),
        decreases unmarked(old(open)@), 0nat,
    {
        let ghost w = self.world();
        let ghost before = st.model();
        let g: usize = match self.locate(&imp.path) {
            None => {
                if !first {
                    return Vec::new();
                }
                let mut message = String::from_str("cannot resolve import `");
                message.append(join_strings(&imp.path, "::").as_str());
                message.append("` (looked in ");
                message.append(join_strings(self.bases, ", ").as_str());
                message.append(")");
                st.fail(message, imp.span, self.path(file));
                assert(st.model() =~= (Progress {
                    errors: before.errors.push(unresolved(w, file as int, *imp)),
                    ..before
                }));
                return Vec::new();
            },
            Some(g) => g,
        };
        if let Some(list) = &st.done[g] {
            assert(before.done[g as int] == Some(list@));
            return self.take(imp, list);
        }
        assert(before.done[g as int] is None);
        if open[g] {
            if !is_same_path(self.path(g), self.importer) {
                st.cut.set(g, true);
                assert(st.model() =~= (Progress {
                    cut: before.cut.update(g as int, true),
                    ..before
                }));
            }
            return Vec::new();
        }
        let why: Option<String> = match &self.sources[g].content {
            Content::Unreadable(reason) => {
                let mut m = String::from_str("failed to read import ");
                m.append(self.path(g));
                m.append(": ");
                m.append(reason.as_str());
                Some(m)
            },
            Content::LexError => {
                let mut m = String::from_str("lex error in import ");
                m.append(self.path(g));
                Some(m)
            },
            Content::ParseError(reason) => {
                let mut m = String::from_str("parse error in ");
                m.append(self.path(g));
                m.append(": ");
                m.append(reason.as_str());
                Some(m)
            },
            Content::Parsed(_) => None,
        };
        if let Some(message) = why {
            if st.seen[g] {
                return Vec::new();
            }
            st.seen.set(g, true);
            st.fail(message, imp.span, self.path(file));
            assert(st.model() =~= (Progress {
                seen: before.seen.update(g as int, true),
                errors: before.errors.push(
                    Failure {
                        message: unusable(w, g as int),
                        span: imp.span,
                        file: w.path(file as int),
                    },
                ),
                ..before
            }));
            return Vec::new();
        }
        proof {
            lemma_mark(open@, g as int);
        }
        open.set(g, true);
        let again: bool = st.seen[g];
        st.seen.set(g, true);
        assert(st.model() =~= (Progress { seen: before.seen.update(g as int, true), ..before }));
        let all = self.expand_file(g, !again, open, st);
        open.set(g, false);
        assert(open@ =~= old(open)@);
        let ghost after = st.model();
        let list = self.drop_absent(&all);
        let r = self.take(imp, &list);
        let ghost kept_list = list@;
        st.cut.set(g, false);
        let ghost cut = after.cut.update(g as int, false);
        if is_uncut(&st.cut) {
            st.done.set(g, Some(list));
            assert(st.model() =~= (Progress {
                done: after.done.update(g as int, Some(kept_list)),
                cut,
                ..after
            }));
        } else {
            assert(st.model() =~= (Progress { cut, ..after }));
        }
        r
    }

    fn expand_file(
        &self,
        file: usize,
        first: bool,
        open: &mut Vec<bool>,
        st: &mut State,
    ) -> (r: Vec<Origin>)
        requires
            self.wf(),
            file < self.sources@.len(),
            old(open)@.len() == self.sources@.len(),
            old(st).wf(self.world()),
        ensures
            (r@, final(st).model()) == expanded(
                self.world(),
                file as int,
                self.world().items(file as int).len(),
                first,
                old(open)@,
                old(st).model(),
            ),
            self.world().all_valid(r@),
            final(open)@ == old(open)@,
            final(st).wf(self.world()),
        decreases unmarked(old(open)@), 1nat,
    {
        let ghost w = self.world();
        let ghost st0 = st.model();
        let ghost shut = open@;
        let mut out: Vec<Origin> = Vec::new();
        let items: &'a Vec<Item> = match self.items(file) {
            Some(v) => v,
            None => {
                return out;
            },
        };
        let mut i: usize = 0;
        while i < items.len()
            invariant
                i <= items@.len(),
                self.wf(),
                w == self.world(),
                file < self.sources@.len(),
                items@ == w.items(file as int),
                open@ == shut,
                shut == old(open)@,
                open@.len() == self.sources@.len(),
                st.wf(w),
                w.all_valid(out@),
                (out@, st.model()) == expanded(w, file as int, i as nat, first, shut, st0),
            decreases items@.len() - i,
        {
            match &items[i] {
                Item::Import(imp) => {
                    let ghost had = out@;
                    let mut more = self.bring(file, imp, first, open, st);
                    let ghost new = more@;
                    out.append(&mut more);
                    assert(out@ =~= had + new);
                    assert forall|k: int| 0 <= k < out@.len() implies w.valid(#[trigger] out@[k]) by {
                        if k < had.len() {
                            assert(w.valid(had[k]));
                        } else {
                            assert(w.valid(new[k - had.len()]));
                        }
                    }
                },
                _ => {
                    out.push(Origin { file, index: i });
                },
            }
            i += 1;
        }
        out
    }

    fn has_imported(&self, out: &Vec<Origin>, o: Origin) -> (r: bool)
        requires
            self.world().all_valid(out@),
            self.world().valid(o),
        ensures
            r == imported(self.world(), out@, o),
    {
        let mut q: usize = 0;
        let ghost w = self.world();
        while q < out.len()
            invariant
                q <= out@.len(),
                w == self.world(),
                w.all_valid(out@),
                w.valid(o),
                forall|k: int|
                    0 <= k < q && (#[trigger] out@[k]).file < w.sources.len() ==> !same_decl(
                        w,
                        out@[k],
                        o,
                    ),
            decreases out@.len() - q,
        {
            assert(w.valid(out@[q as int]));
            let x = out[q];
            if x.file < self.sources.len() && (x == o || self.same_name(x, o)) {
                assert(same_decl(w, out@[q as int], o));
                return true;
            }
            q += 1;
        }
        false
    }

    fn merge(&self, out: &mut Vec<Origin>, more: &Vec<Origin>)
        requires
            self.world().all_valid(old(out)@),
            self.world().all_valid(more@),
        ensures
            final(out)@ == merged(self.world(), old(out)@, more@, more@.len() as int),
            self.world().all_valid(final(out)@),
    {
        let mut p: usize = 0;
        let ghost w = self.world();
        while p < more.len()
            invariant
                p <= more@.len(),
                w == self.world(),
                w.all_valid(out@),
                w.all_valid(more@),
                out@ == merged(w, old(out)@, more@, p as int),
            decreases more@.len() - p,
        {
            assert(w.valid(more@[p as int]));
            if !self.has_imported(out, more[p]) {
                out.push(more[p]);
            }
            p += 1;
        }
    }

    fn expand_entry(&self, st: &mut State) -> (r: Vec<Origin>)
        requires
            self.wf(),
            old(st).wf(self.world()),
            old(st).model() == begun(self.sources@.len()),
        ensures
            (r@, final(st).model()) == entry_list(self.world(), self.entry.items@.len()),
            self.world().all_valid(r@),
            final(st).wf(self.world()),
    {
        let ghost w = self.world();
        let n: usize = self.sources.len();
        let mut open: Vec<bool> = Vec::new();
        while open.len() < n
            invariant
                open@.len() <= n,
                n == self.sources@.len(),
                w == self.world(),
                forall|k: int| 0 <= k < open@.len() ==> #[trigger] open@[k] == is_entry(w, k),
            decreases n - open@.len(),
        {
            open.push(is_same_path(self.path(open.len()), self.importer));
        }
        assert(open@ =~= entry_open(w));
        let mut out: Vec<Origin> = Vec::new();
        let items: &'a Vec<Item> = &self.entry.items;
        let mut i: usize = 0;
        while i < items.len()
            invariant
                i <= items@.len(),
                self.wf(),
                w == self.world(),
                n == self.sources@.len(),
                items@ == w.entry,
                open@ == entry_open(w),
                st.wf(w),
                w.all_valid(out@),
                (out@, st.model()) == entry_list(w, i as nat),
            decreases items@.len() - i,
        {
            match &items[i] {
                Item::Import(imp) => {
                    let more = self.bring(n, imp, true, &mut open, st);
                    self.merge(&mut out, &more);
                },
                _ => {
                    out.push(Origin { file: n, index: i });
                },
            }
            i += 1;
        }
        out
    }
}

fn is_uncut(cut: &Vec<bool>) -> (r: bool)
    ensures
        r == uncut(cut@),
{
    let mut i: usize = 0;
    while i < cut.len()
        invariant
            i <= cut@.len(),
            forall|k: int| 0 <= k < i ==> !#[trigger] cut@[k],
        decreases cut@.len() - i,
    {
        if cut[i] {
            return false;
        }
        i += 1;
    }
    true
}

fn symbols_of(v: &Vec<(String, Span)>) -> (r: Vec<String>)
    ensures
        texts(r@) == symbol_names(v@),
{
    let mut out: Vec<String> = Vec::new();
    let mut i: usize = 0;
    while i < v.len()
        invariant
            i <= v@.len(),
            texts(out@) =~= symbol_names(v@).take(i as int),
        decreases v@.len() - i,
    {
        let ghost had = texts(out@);
        out.push(v[i].0.clone());
        assert(texts(out@) =~= had.push(v@[i as int].0@));
        i += 1;
    }
    assert(texts(out@) =~= symbol_names(v@));
    out
}

fn copy_list(v: &Vec<Origin>) -> (r: Vec<Origin>)
    ensures
        r@ == v@,
{
    let mut out: Vec<Origin> = Vec::new();
    let mut i: usize = 0;
    while i < v.len()
        invariant
            i <= v@.len(),
            out@ =~= v@.take(i as int),
        decreases v@.len() - i,
    {
        out.push(v[i]);
        i += 1;
    }
    assert(out@ =~= v@);
    out
}

// ---------------------------------------------------------------------------
// Namespaces
// ---------------------------------------------------------------------------

/// One entry-level import and the module namespace it introduces.
#[derive(Debug)]
pub struct ResolvedImport {
    pub path: Vec<String>,
    /// The last segment: `std::io` is also called `io`.
    pub alias: String,
    /// The whole path.
    pub full: String,
    /// The top-level names that the module provides.
    pub provided: Vec<String>,
    /// The listed symbols; `None` for a whole module.
    pub symbols: Option<Vec<String>>,
}

/// What a resolved import says, as mathematical text.
#[verifier::ext_equal]
pub struct Namespace {
    pub path: Seq<Seq<char>>,
    pub alias: Seq<char>,
    pub full: Seq<char>,
    pub provided: Seq<Seq<char>>,
    pub symbols: Option<Seq<Seq<char>>>,
}

impl View for ResolvedImport {
    type V = Namespace;

    open spec fn view(&self) -> Namespace {
        Namespace {
            path: texts(self.path@),
            alias: self.alias@,
            full: self.full@,
            provided: texts(self.provided@),
            symbols: match self.symbols {
                Some(v) => Some(texts(v@)),
                None => None,
            },
        }
    }
}

pub open spec fn namespaces(v: Seq<ResolvedImport>) -> Seq<Namespace> {
    Seq::new(v.len(), |i: int| v[i]@)
}

/// The names that the first `n` items declare, each once, absent items aside.
pub open spec fn declared(items: Seq<Item>, debug: bool, host: Seq<char>, n: int) -> Seq<Seq<char>>
    decreases n,
{
    if n <= 0 {
        Seq::empty()
    } else {
        let names = declared(items, debug, host, n - 1);
        let item = items[n - 1];
        if kept(item, debug, host) && decl_name(item) is Some && !names.contains(
            decl_name(item)->0,
        ) {
            names.push(decl_name(item)->0)
        } else {
            names
        }
    }
}

/// Those of the first `n` names that are wanted.
pub open spec fn wanted(names: Seq<Seq<char>>, want: Seq<Seq<char>>, n: int) -> Seq<Seq<char>>
    decreases n,
{
    if n <= 0 {
        Seq::empty()
    } else if want.contains(names[n - 1]) {
        wanted(names, want, n - 1).push(names[n - 1])
    } else {
        wanted(names, want, n - 1)
    }
}

/// The names an import provides: what the module declares, narrowed to the
/// listed symbols. A listed symbol that the module does not declare stays on
/// the list, so that its use can be reported.
pub open spec fn provides(w: World, imp: ImportDecl) -> Seq<Seq<char>> {
    let listed = match imp.symbols {
        Some(v) => Some(symbol_names(v@)),
        None => None,
    };
    match located(w, texts(imp.path@)) {
        Some(g) if w.sources[g].content is Parsed => {
            let all = declared(w.items(g), w.debug, w.host, w.items(g).len() as int);
            match listed {
                Some(want) => {
                    completed(wanted(all, want, all.len() as int), want, want.len() as int)
                },
                None => all,
            }
        },
        _ => match listed {
            Some(want) => want,
            None => Seq::empty(),
        },
    }
}

pub open spec fn namespace(w: World, imp: ImportDecl) -> Namespace {
    let path = texts(imp.path@);
    Namespace {
        path,
        alias: if path.len() > 0 {
            path.last()
        } else {
            Seq::empty()
        },
        full: join(path, "::"@),
        provided: provides(w, imp),
        symbols: match imp.symbols {
            Some(v) => Some(symbol_names(v@)),
            None => None,
        },
    }
}

/// The namespaces of the imports among the first `n` entry items.
pub open spec fn entry_namespaces(w: World, n: int) -> Seq<Namespace>
    decreases n,
{
    if n <= 0 {
        Seq::empty()
    } else {
        match w.entry[n - 1] {
            Item::Import(imp) => entry_namespaces(w, n - 1).push(namespace(w, imp)),
            _ => entry_namespaces(w, n - 1),
        }
    }
}

/// Top-level names of a module, absent items aside.
pub fn provided_names(items: &Vec<Item>, debug_mode: bool, host: &str) -> (r: Vec<String>)
    ensures
        texts(r@) == declared(items@, debug_mode, host@, items@.len() as int),
{
    let mut out: Vec<String> = Vec::new();
    let mut i: usize = 0;
    assert(texts(out@) =~= Seq::<Seq<char>>::empty());
    while i < items.len()
        invariant
            i <= items@.len(),
            texts(out@) == declared(items@, debug_mode, host@, i as int),
        decreases items@.len() - i,
    {
        if keeps(&items[i], debug_mode, host) {
            if let Some(n) = item_name(&items[i]) {
                if !contains_text(&out, n) {
                    let ghost had = texts(out@);
                    out.push(String::from_str(n));
                    assert(texts(out@) =~= had.push(n@));
                }
            }
        }
        i += 1;
    }
    out
}

fn narrow(names: &Vec<String>, want: &Vec<String>) -> (r: Vec<String>)
    ensures
        texts(r@) == completed(
            wanted(texts(names@), texts(want@), names@.len() as int),
            texts(want@),
            want@.len() as int,
        ),
{
    let mut out: Vec<String> = Vec::new();
    let mut i: usize = 0;
    assert(texts(out@) =~= Seq::<Seq<char>>::empty());
    while i < names.len()
        invariant
            i <= names@.len(),
            texts(out@) == wanted(texts(names@), texts(want@), i as int),
        decreases names@.len() - i,
    {
        if contains_text(want, names[i].as_str()) {
            let ghost had = texts(out@);
            out.push(names[i].clone());
            assert(texts(out@) =~= had.push(names@[i as int]@));
        }
        i += 1;
    }
    extend_missing(&mut out, want);
    out
}

impl<'a> Ctx<'a> {
    fn provided(&self, imp: &ImportDecl) -> (r: Vec<String>)
        requires
            self.wf(),
        ensures
            texts(r@) == provides(self.world(), *imp),
    {
        let listed = match &imp.symbols {
            Some(v) => Some(symbols_of(v)),
            None => None,
        };
        if let Some(g) = self.locate(&imp.path) {
            if let Content::Parsed(p) = &self.sources[g].content {
                let all = provided_names(&p.items, self.debug, self.host);
                return match listed {
                    Some(want) => narrow(&all, &want),
                    None => all,
                };
            }
        }
        match listed {
            Some(want) => want,
            None => {
                let none: Vec<String> = Vec::new();
                assert(texts(none@) =~= Seq::<Seq<char>>::empty());
                none
            },
        }
    }

    fn namespace_of(&self, imp: &ImportDecl) -> (r: ResolvedImport)
        requires
            self.wf(),
        ensures
            r@ == namespace(self.world(), *imp),
    {
        let n: usize = imp.path.len();
        let alias = if n > 0 {
            imp.path[n - 1].clone()
        } else {
            String::new()
        };
        let symbols = match &imp.symbols {
            Some(v) => Some(symbols_of(v)),
            None => None,
        };
        let r = ResolvedImport {
            path: copy_strings(&imp.path),
            alias,
            full: join_strings(&imp.path, "::"),
            provided: self.provided(imp),
            symbols,
        };
        assert(r@ =~= namespace(self.world(), *imp));
        r
    }

    fn entry_imports(&self) -> (r: Vec<ResolvedImport>)
        requires
            self.wf(),
        ensures
            namespaces(r@) == entry_namespaces(self.world(), self.entry.items@.len() as int),
    {
        let mut out: Vec<ResolvedImport> = Vec::new();
        let mut i: usize = 0;
        let ghost w = self.world();
        assert(namespaces(out@) =~= Seq::<Namespace>::empty());
        while i < self.entry.items.len()
            invariant
                i <= self.entry.items@.len(),
                self.wf(),
                w == self.world(),
                namespaces(out@) == entry_namespaces(w, i as int),
            decreases self.entry.items@.len() - i,
        {
            if let Item::Import(imp) = &self.entry.items[i] {
                let ghost had = namespaces(out@);
                let one = self.namespace_of(imp);
                let ghost new = one@;
                out.push(one);
                assert(namespaces(out@) =~= had.push(new));
            }
            i += 1;
        }
        out
    }

    fn begin(&self) -> (r: State)
        ensures
            r.wf(self.world()),
            r.model() == begun(self.sources@.len()),
    {
        let n: usize = self.sources.len();
        let mut done: Vec<Option<Vec<Origin>>> = Vec::new();
        let mut seen: Vec<bool> = Vec::new();
        let mut cut: Vec<bool> = Vec::new();
        while done.len() < n
            invariant
                done@.len() == seen@.len() == cut@.len() <= n,
                forall|k: int| 0 <= k < done@.len() ==> (#[trigger] done@[k]) is None,
                forall|k: int| 0 <= k < seen@.len() ==> !#[trigger] seen@[k],
                forall|k: int| 0 <= k < cut@.len() ==> !#[trigger] cut@[k],
            decreases n - done@.len(),
        {
            done.push(None);
            seen.push(false);
            cut.push(false);
        }
        let r = State { done, seen, cut, errors: Vec::new() };
        assert(r.model() =~= begun(self.sources@.len()));
        r
    }

    fn visited_files(&self, st: &State) -> (r: Vec<String>)
        requires
            st.wf(self.world()),
        ensures
            in_path_order(texts(r@)),
            forall|f: Seq<char>| #[trigger]
                texts(r@).contains(f) ==> visited(self.world(), st.model(), f),
            forall|f: Seq<char>| #[trigger]
                visited(self.world(), st.model(), f) ==> has_path(texts(r@), f),
    {
        let mut all: Vec<String> = Vec::new();
        all.push(String::from_str(self.importer));
        let mut g: usize = 0;
        let ghost w = self.world();
        assert forall|f: Seq<char>| #[trigger] texts(all@).contains(f) <==> f == w.importer by {
            assert(texts(all@)[0] == w.importer);
        }
        while g < self.sources.len()
            invariant
                g <= self.sources@.len(),
                w == self.world(),
                st.wf(w),
                forall|f: Seq<char>| #[trigger]
                    texts(all@).contains(f) <==> f == w.importer || exists|k: int|
                        0 <= k < g && #[trigger] st.seen@[k] && w.path(k) == f,
            decreases self.sources@.len() - g,
        {
            let ghost had = texts(all@);
            if st.seen[g] {
                all.push(self.sources[g].path.clone());
                assert(texts(all@) =~= had.push(w.path(g as int)));
                assert forall|f: Seq<char>| #[trigger]
                    texts(all@).contains(f) <==> f == w.importer || exists|k: int|
                        0 <= k < g + 1 && #[trigger] st.seen@[k] && w.path(k) == f by {
                    assert(texts(all@)[had.len() as int] == w.path(g as int));
                    if had.contains(f) {
                        let k = choose|k: int| 0 <= k < had.len() && had[k] == f;
                        assert(texts(all@)[k] == f);
                    }
                }
            }
            g += 1;
        }
        let r = sorted_paths(&all);
        assert forall|f: Seq<char>| #[trigger] texts(r@).contains(f) implies visited(
            w,
            st.model(),
            f,
        ) by {
            assert(texts(all@).contains(f));
            if f != w.importer {
                let k = choose|k: int|
                    0 <= k < w.sources.len() && #[trigger] st.seen@[k] && w.path(k) == f;
                assert(st.model().seen[k]);
            }
        }
        assert forall|f: Seq<char>| #[trigger] visited(w, st.model(), f) implies has_path(
            texts(r@),
            f,
        ) by {
            assert(texts(all@).contains(f));
        }
        r
    }
}

/// `f` is the entry file or a file that an import resolved to.
pub open spec fn visited(w: World, st: Progress, f: Seq<char>) -> bool {
    f == w.importer || exists|g: int|
        0 <= g < w.sources.len() && #[trigger] st.seen[g] && w.path(g) == f
}

/// Output of [`expand_imports`].
#[derive(Debug)]
pub struct Expanded {
    pub program: Program,
    pub errors: Vec<ImportError>,
    /// The entry file and every file that an import resolved to, in path order
    /// and each once: what a build depends on.
    pub files: Vec<String>,
    /// Entry-level imports in source order.
    pub imports: Vec<ResolvedImport>,
}

/// What an expansion of `w` gives.
pub open spec fn is_expansion(w: World, r: Expanded) -> bool {
    let st = entry_list(w, w.entry.len()).1;
    &&& r.program.items@ == Seq::new(
        program_list(w).len(),
        |i: int| w.item(program_list(w)[i]),
    )
    &&& failures(r.errors@) == st.errors
    &&& in_path_order(texts(r.files@))
    &&& forall|f: Seq<char>| #[trigger] texts(r.files@).contains(f) ==> visited(w, st, f)
    &&& forall|f: Seq<char>| #[trigger] visited(w, st, f) ==> has_path(texts(r.files@), f)
    &&& namespaces(r.imports@) == entry_namespaces(w, w.entry.len() as int)
}

/// Inlines imports with `@cfg(debug)` false, as every analysis does.
pub fn expand_imports(
    program: Program,
    importer: &str,
    bases: &Vec<String>,
    sources: Vec<Source>,
    host: &str,
) -> (r: Expanded)
    ensures
        is_expansion(
            (World {
                entry: program.items@,
                sources: sources@,
                importer: importer@,
                bases: texts(bases@),
                debug: false,
                host: host@,
            }),
            r,
        ),
        r.program.span == program.span,
{
    expand_imports_with_cfg(program, importer, bases, sources, false, host)
}

/// Inlines `import` items recursively. Imports that fail are reported in
/// `errors` and skipped, so the rest of the document can still be checked.
/// `sources` holds the existing files that imports may resolve to, and
/// `debug_mode` is true only for the debug link profile.
pub fn expand_imports_with_cfg(
    program: Program,
    importer: &str,
    bases: &Vec<String>,
    sources: Vec<Source>,
    debug_mode: bool,
    host: &str,
) -> (r: Expanded)
    ensures
        is_expansion(
            (World {
                entry: program.items@,
                sources: sources@,
                importer: importer@,
                bases: texts(bases@),
                debug: debug_mode,
                host: host@,
            }),
            r,
        ),
        r.program.span == program.span,
{
    let ctx = Ctx {
        entry: &program,
        sources: &sources,
        paths: source_paths(&sources),
        importer,
        bases,
        debug: debug_mode,
        host,
    };
    let ghost w = ctx.world();
    assert(texts(ctx.paths@) =~= w.paths());
    let imports = ctx.entry_imports();
    let mut st = ctx.begin();
    let all = ctx.expand_entry(&mut st);
    let list = ctx.drop_absent(&all);
    let files = ctx.visited_files(&st);
    proof {
        lemma_sized(w, program, sources);
        law_no_item_twice(w);
    }
    let span = program.span;
    let items = move_items(program, sources, &list, Ghost(w));
    Expanded { program: Program { items, span }, errors: st.errors, files, imports }
}

proof fn lemma_sized(w: World, program: Program, sources: Vec<Source>)
    requires
        w.entry == program.items@,
        w.sources == sources@,
    ensures
        sized(w),
{
    assert(sources@.len() == sources.len());
    assert forall|f: int| #[trigger] w.items(f).len() <= usize::MAX by {
        if 0 <= f < w.sources.len() {
            if let Content::Parsed(p) = w.sources[f].content {
                assert(p.items@.len() == p.items.len());
            }
        } else {
            assert(program.items@.len() == program.items.len());
        }
    }
}

/// The items of one file, each of which can be moved out once.
type Shelf = Vec<Option<Item>>;

spec fn full(row: Seq<Option<Item>>, items: Seq<Item>) -> bool {
    row == Seq::new(items.len(), |i: int| Some(items[i]))
}

fn shelve(items: Vec<Item>) -> (r: Shelf)
    ensures
        full(r@, items@),
{
    let ghost all = items@;
    let mut out: Shelf = Vec::new();
    for x in it: items
        invariant
            it.seq() == all,
            out@ == Seq::new(it.index() as nat, |i: int| Some(all[i])),
    {
        out.push(Some(x));
        assert(out@ =~= Seq::new((it.index() + 1) as nat, |i: int| Some(all[i])));
    }
    out
}

/// Moves the listed items out of the entry program and the sources.
fn move_items(
    program: Program,
    sources: Vec<Source>,
    list: &Vec<Origin>,
    Ghost(w): Ghost<World>,
) -> (r: Vec<Item>)
    requires
        w.entry == program.items@,
        w.sources == sources@,
        w.all_valid(list@),
        list@.no_duplicates(),
    ensures
        r@ == Seq::new(list@.len(), |i: int| w.item(list@[i])),
{
    let mut shelves: Vec<Shelf> = Vec::new();
    for source in it: sources
        invariant
            it.seq() == w.sources,
            shelves@.len() == it.index(),
            forall|f: int| 0 <= f < shelves@.len() ==> full((#[trigger] shelves@[f])@, w.items(f)),
    {
        let ghost f = it.index();
        assert(source == w.sources[f]);
        let items = match source.content {
            Content::Parsed(p) => p.items,
            _ => Vec::new(),
        };
        assert(items@ =~= w.items(f));
        shelves.push(shelve(items));
    }
    shelves.push(shelve(program.items));
    let ghost n = w.sources.len();
    let mut out: Vec<Item> = Vec::new();
    let mut i: usize = 0;
    while i < list.len()
        invariant
            i <= list@.len(),
            n == w.sources.len(),
            w.all_valid(list@),
            list@.no_duplicates(),
            shelves@.len() == n + 1,
            forall|f: int| 0 <= f <= n ==> (#[trigger] shelves@[f])@.len() == w.items(f).len(),
            forall|k: int|
                i <= k < list@.len() ==> shelves@[(#[trigger] list@[k]).file as int]@[list@[k].index as int]
                    == Some(w.item(list@[k])),
            out@ =~= Seq::new(i as nat, |k: int| w.item(list@[k])),
        decreases list@.len() - i,
    {
        let o = list[i];
        assert(w.valid(list@[i as int]));
        let ghost before = shelves@;
        let mut row: Shelf = Vec::new();
        std::mem::swap(&mut row, &mut shelves[o.file]);
        let mut slot: Option<Item> = None;
        std::mem::swap(&mut slot, &mut row[o.index]);
        std::mem::swap(&mut row, &mut shelves[o.file]);
        assert(shelves@[o.file as int]@ =~= before[o.file as int]@.update(o.index as int, None));
        assert forall|k: int| i + 1 <= k < list@.len() implies shelves@[(
        #[trigger] list@[k]).file as int]@[list@[k].index as int] == Some(w.item(list@[k])) by {
            assert(w.valid(list@[k]));
            assert(list@[k] != list@[i as int]);
            assert(before[list@[k].file as int]@[list@[k].index as int] == Some(w.item(list@[k])));
        }
        if let Some(x) = slot {
            out.push(x);
        }
        i += 1;
    }
    out
}

fn source_paths(sources: &Vec<Source>) -> (r: Vec<String>)
    ensures
        r@.len() == sources@.len(),
        forall|i: int| 0 <= i < r@.len() ==> (#[trigger] r@[i])@ == sources@[i].path@,
{
    let mut out: Vec<String> = Vec::new();
    let mut i: usize = 0;
    while i < sources.len()
        invariant
            i <= sources@.len(),
            out@.len() == i,
            forall|k: int| 0 <= k < i ==> (#[trigger] out@[k])@ == sources@[k].path@,
        decreases sources@.len() - i,
    {
        out.push(sources[i].path.clone());
        i += 1;
    }
    out
}

/// The places where the imports among the first `n` items may stand, each once.
pub open spec fn wanted_paths(items: Seq<Item>, bases: Seq<Seq<char>>, n: int) -> Seq<Seq<char>>
    decreases n,
{
    if n <= 0 {
        Seq::empty()
    } else {
        let done = wanted_paths(items, bases, n - 1);
        match items[n - 1] {
            Item::Import(imp) => {
                let cs = candidates(texts(imp.path@), bases);
                completed(done, cs, cs.len() as int)
            },
            _ => done,
        }
    }
}

/// The files that the imports of a program may resolve to, each once: what the
/// caller has to look for before expanding.
pub fn wanted_files(items: &Vec<Item>, bases: &Vec<String>) -> (r: Vec<String>)
    ensures
        texts(r@) == wanted_paths(items@, texts(bases@), items@.len() as int),
{
    let mut out: Vec<String> = Vec::new();
    let mut i: usize = 0;
    assert(texts(out@) =~= Seq::<Seq<char>>::empty());
    while i < items.len()
        invariant
            i <= items@.len(),
            texts(out@) == wanted_paths(items@, texts(bases@), i as int),
        decreases items@.len() - i,
    {
        if let Item::Import(imp) = &items[i] {
            let cs = import_candidates(&imp.path, bases);
            assert(texts(cs@).len() == cs@.len());
            extend_missing(&mut out, &cs);
        }
        i += 1;
    }
    out
}

} // verus!
