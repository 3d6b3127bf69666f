//! TOML documents as plain trees.
//!
//! The `toml` crate parses; the rest of the library works on the tree of plain
//! values that [`read_toml`] hands out.
use crate::names::ascending;
use crate::text::{decimal, integer, is_alpha, is_digit, same};
use vstd::prelude::*;
use vstd::string::*;

verus! {

/// A TOML value. A floating point number is held as its decimal text, and a
/// table lists its entries in ascending order of their keys.
#[derive(Debug)]
pub enum TomlValue {
    Text(String),
    Integer(i64),
    Number(String),
    Boolean(bool),
    Datetime,
    List(Vec<TomlValue>),
    Table(Vec<(String, TomlValue)>),
}

/// A TOML value, as mathematical text.
pub enum Tree {
    Text(Seq<char>),
    Integer(i64),
    Number(Seq<char>),
    Boolean(bool),
    Datetime,
    List(Seq<Tree>),
    Table(Seq<(Seq<char>, Tree)>),
}

/// The tree that a value stands for.
pub open spec fn tree(v: TomlValue) -> Tree
    decreases v,
{
    match v {
        TomlValue::Text(s) => Tree::Text(s@),
        TomlValue::Integer(i) => Tree::Integer(i),
        TomlValue::Number(s) => Tree::Number(s@),
        TomlValue::Boolean(b) => Tree::Boolean(b),
        TomlValue::Datetime => Tree::Datetime,
        TomlValue::List(l) => Tree::List(
            Seq::new(
                l@.len(),
                |i: int|
                    if 0 <= i < l@.len() {
                        tree(l@[i])
                    } else {
                        Tree::Datetime
                    },
            ),
        ),
        TomlValue::Table(t) => Tree::Table(entries(t@)),
    }
}

/// The entries of a table.
pub open spec fn entries(t: Seq<(String, TomlValue)>) -> Seq<(Seq<char>, Tree)>
    decreases t,
{
    Seq::new(
        t.len(),
        |i: int|
            if 0 <= i < t.len() {
                (t[i].0@, tree(t[i].1))
            } else {
                (Seq::empty(), Tree::Datetime)
            },
    )
}

/// The value of `key` in a table.
pub open spec fn get(t: Seq<(Seq<char>, Tree)>, key: Seq<char>) -> Option<Tree>
    decreases t.len(),
{
    if t.len() == 0 {
        None
    } else if t[0].0 == key {
        Some(t[0].1)
    } else {
        get(t.skip(1), key)
    }
}

/// The keys of a table.
pub open spec fn keys(t: Seq<(Seq<char>, Tree)>) -> Seq<Seq<char>> {
    Seq::new(t.len(), |i: int| t[i].0)
}

/// A scalar as text.
pub open spec fn scalar(v: Tree) -> Option<Seq<char>> {
    match v {
        Tree::Text(s) => Some(s),
        Tree::Integer(i) => Some(decimal(i as int)),
        Tree::Number(s) => Some(s),
        Tree::Boolean(b) => Some(
            if b {
                "true"@
            } else {
                "false"@
            },
        ),
        Tree::Datetime | Tree::List(_) | Tree::Table(_) => None,
    }
}

/// The value of `key` as text, when it is a scalar.
pub open spec fn get_scalar(t: Seq<(Seq<char>, Tree)>, key: Seq<char>) -> Option<Seq<char>> {
    match get(t, key) {
        Some(v) => scalar(v),
        None => None,
    }
}

/// The value of `key` in a table.
pub fn lookup<'a>(t: &'a Vec<(String, TomlValue)>, key: &str) -> (r: Option<&'a TomlValue>)
    ensures
        r is Some <==> get(entries(t@), key@) is Some,
        r matches Some(v) ==> get(entries(t@), key@) == Some(tree(*v)),
{
    let ghost all = entries(t@);
    let mut i: usize = 0;
    assert(all.skip(0) =~= all);
    while i < t.len()
        invariant
            i <= t@.len(),
            all == entries(t@),
            get(all, key@) == get(all.skip(i as int), key@),
        decreases t@.len() - i,
    {
        assert(all.skip(i as int)[0] == all[i as int]);
        if same(t[i].0.as_str(), key) {
            return Some(&t[i].1);
        }
        assert(all.skip(i as int).skip(1) =~= all.skip(i + 1));
        i += 1;
    }
    None
}

/// A scalar as text: strings as they are, numbers and booleans as written.
pub fn value_to_string(v: &TomlValue) -> (r: Option<String>)
    ensures
        r is Some <==> scalar(tree(*v)) is Some,
        r matches Some(s) ==> scalar(tree(*v)) == Some(s@),
{
    match v {
        TomlValue::Text(s) => Some(s.clone()),
        TomlValue::Integer(i) => Some(integer(*i)),
        TomlValue::Number(s) => Some(s.clone()),
        TomlValue::Boolean(b) => {
            if *b {
                Some(String::from_str("true"))
            } else {
                Some(String::from_str("false"))
            }
        },
        TomlValue::Datetime | TomlValue::List(_) | TomlValue::Table(_) => None,
    }
}

/// The value of `key` as text, when it is a scalar.
pub fn lookup_string(t: &Vec<(String, TomlValue)>, key: &str) -> (r: Option<String>)
    ensures
        r is Some <==> get_scalar(entries(t@), key@) is Some,
        r matches Some(s) ==> get_scalar(entries(t@), key@) == Some(s@),
{
    match lookup(t, key) {
        Some(v) => value_to_string(v),
        None => None,
    }
}

// ---------------------------------------------------------------------------
// Documents in plain form
// ---------------------------------------------------------------------------

/// A value in plain form: a basic string, or an inline table of them.
pub enum Plain {
    Text(Seq<char>),
    Inline(Seq<(Seq<char>, Seq<char>)>),
}

/// The line above a group of pairs.
pub enum Heading {
    /// No line: the pairs belong to the document itself.
    Top,
    /// `[name]`
    Section(Seq<char>),
    /// `[[name]]`
    Element(Seq<char>),
}

/// A group of `key = value` lines, with what stands before it.
pub struct Group {
    /// Nothing, an empty line, or a comment line.
    pub lead: Seq<char>,
    pub heading: Heading,
    pub pairs: Seq<(Seq<char>, Plain)>,
}

pub open spec fn quoted(s: Seq<char>) -> Seq<char> {
    "\""@ + s + "\""@
}

/// The first `n` pairs of an inline table, with commas between them.
pub open spec fn inline_text(ps: Seq<(Seq<char>, Seq<char>)>, n: int) -> Seq<char>
    decreases n,
{
    if n <= 0 {
        Seq::empty()
    } else if n == 1 {
        ps[0].0 + " = "@ + quoted(ps[0].1)
    } else {
        inline_text(ps, n - 1) + ", "@ + ps[n - 1].0 + " = "@ + quoted(ps[n - 1].1)
    }
}

pub open spec fn plain_text(v: Plain) -> Seq<char> {
    match v {
        Plain::Text(s) => quoted(s),
        Plain::Inline(ps) => "{ "@ + inline_text(ps, ps.len() as int) + " }"@,
    }
}

/// The first `n` pairs, one line each.
pub open spec fn pairs_text(ps: Seq<(Seq<char>, Plain)>, n: int) -> Seq<char>
    decreases n,
{
    if n <= 0 {
        Seq::empty()
    } else {
        pairs_text(ps, n - 1) + ps[n - 1].0 + " = "@ + plain_text(ps[n - 1].1) + "\n"@
    }
}

pub open spec fn heading_text(h: Heading) -> Seq<char> {
    match h {
        Heading::Top => Seq::empty(),
        Heading::Section(n) => "["@ + n + "]\n"@,
        Heading::Element(n) => "[["@ + n + "]]\n"@,
    }
}

pub open spec fn group_text(g: Group) -> Seq<char> {
    g.lead + heading_text(g.heading) + pairs_text(g.pairs, g.pairs.len() as int)
}

/// The first `n` groups, written out.
pub open spec fn doc_text(gs: Seq<Group>, n: int) -> Seq<char>
    decreases n,
{
    if n <= 0 {
        Seq::empty()
    } else {
        doc_text(gs, n - 1) + group_text(gs[n - 1])
    }
}

/// A key that needs no quotes.
pub open spec fn bare_key(s: Seq<char>) -> bool {
    s.len() > 0 && forall|i: int|
        0 <= i < s.len() ==> is_alpha(#[trigger] s[i]) || is_digit(s[i]) || s[i] == '_' || s[i]
            == '-'
}

/// Text that stands in a basic string without escapes.
pub open spec fn plain_chars(s: Seq<char>) -> bool {
    forall|i: int|
        0 <= i < s.len() ==> ((#[trigger] s[i]) >= ' ' || s[i] == '\t') && s[i] != '\u{7f}' && s[i]
            != '"' && s[i] != '\\'
}

/// Nothing, an empty line, or a comment line.
pub open spec fn quiet(lead: Seq<char>) -> bool {
    ||| lead.len() == 0
    ||| lead == "\n"@
    ||| exists|c: Seq<char>| lead == "#"@ + c + "\n"@ && #[trigger] plain_chars(c)
}

pub open spec fn plain_value(v: Plain) -> bool {
    match v {
        Plain::Text(s) => plain_chars(s),
        Plain::Inline(ps) => {
            &&& forall|i: int|
                0 <= i < ps.len() ==> bare_key((#[trigger] ps[i]).0) && plain_chars(ps[i].1)
            &&& forall|i: int, j: int|
                0 <= i < j < ps.len() ==> (#[trigger] ps[i]).0 != (#[trigger] ps[j]).0
        },
    }
}

pub open spec fn plain_group(g: Group) -> bool {
    &&& quiet(g.lead)
    &&& match g.heading {
        Heading::Top => true,
        Heading::Section(n) => bare_key(n),
        Heading::Element(n) => bare_key(n),
    }
    &&& forall|i: int|
        0 <= i < g.pairs.len() ==> bare_key((#[trigger] g.pairs[i]).0) && plain_value(g.pairs[i].1)
    &&& forall|i: int, j: int|
        0 <= i < j < g.pairs.len() ==> (#[trigger] g.pairs[i]).0 != (#[trigger] g.pairs[j]).0
}

/// A document in plain form: top-level pairs come first and have names of
/// their own, a section occurs once, and only elements share a name.
pub open spec fn plain_doc(gs: Seq<Group>) -> bool {
    &&& forall|i: int| 0 <= i < gs.len() ==> plain_group(#[trigger] gs[i])
    &&& forall|i: int, j: int|
        0 <= i < gs.len() && 0 <= j < gs.len() && i != j ==> compatible(
            #[trigger] gs[i],
            #[trigger] gs[j],
            i < j,
        )
}

/// Two groups can stand in one document, `a` before `b` or after it.
pub open spec fn compatible(a: Group, b: Group, a_first: bool) -> bool {
    match (a.heading, b.heading) {
        (Heading::Top, Heading::Top) => false,
        (Heading::Top, Heading::Section(n)) => a_first && plain_get(a.pairs, n) is None,
        (Heading::Top, Heading::Element(n)) => a_first && plain_get(a.pairs, n) is None,
        (Heading::Section(m), Heading::Section(n)) => m != n,
        (Heading::Section(m), Heading::Element(n)) => m != n,
        _ => true,
    }
}

/// The value of `key` among the pairs.
pub open spec fn plain_get(ps: Seq<(Seq<char>, Plain)>, key: Seq<char>) -> Option<Plain>
    decreases ps.len(),
{
    if ps.len() == 0 {
        None
    } else if ps.last().0 == key {
        Some(ps.last().1)
    } else {
        plain_get(ps.drop_last(), key)
    }
}

/// The value of `key` in an inline table.
pub open spec fn inline_get(ps: Seq<(Seq<char>, Seq<char>)>, key: Seq<char>) -> Option<Seq<char>>
    decreases ps.len(),
{
    if ps.len() == 0 {
        None
    } else if ps.last().0 == key {
        Some(ps.last().1)
    } else {
        inline_get(ps.drop_last(), key)
    }
}

/// The pairs of the elements called `name`, in order.
pub open spec fn elements(gs: Seq<Group>, name: Seq<char>) -> Seq<Seq<(Seq<char>, Plain)>>
    decreases gs.len(),
{
    if gs.len() == 0 {
        Seq::empty()
    } else if gs.last().heading == Heading::Element(name) {
        elements(gs.drop_last(), name).push(gs.last().pairs)
    } else {
        elements(gs.drop_last(), name)
    }
}

/// The pairs of the section called `name`.
pub open spec fn section(gs: Seq<Group>, name: Seq<char>) -> Option<Seq<(Seq<char>, Plain)>>
    decreases gs.len(),
{
    if gs.len() == 0 {
        None
    } else if gs.last().heading == Heading::Section(name) {
        Some(gs.last().pairs)
    } else {
        section(gs.drop_last(), name)
    }
}

/// The top-level value of `key`.
pub open spec fn top(gs: Seq<Group>, key: Seq<char>) -> Option<Plain>
    decreases gs.len(),
{
    if gs.len() == 0 {
        None
    } else if gs.last().heading == Heading::Top {
        plain_get(gs.last().pairs, key)
    } else {
        top(gs.drop_last(), key)
    }
}

/// The tree holds the plain value.
pub open spec fn holds_plain(v: Tree, p: Plain) -> bool {
    match p {
        Plain::Text(s) => v == Tree::Text(s),
        Plain::Inline(ps) => v matches Tree::Table(t) && ascending(keys(t)) && forall|k: Seq<char>|
            #[trigger] get(t, k) == match inline_get(ps, k) {
                Some(s) => Some(Tree::Text(s)),
                None => None,
            },
    }
}

/// The tree is the table of the pairs.
pub open spec fn holds_pairs(v: Tree, ps: Seq<(Seq<char>, Plain)>) -> bool {
    v matches Tree::Table(t) && ascending(keys(t)) && forall|k: Seq<char>|
        match plain_get(ps, k) {
            Some(p) => (#[trigger] get(t, k)) matches Some(x) && holds_plain(x, p),
            None => get(t, k) is None,
        }
}

/// The tree is the table of the document.
pub open spec fn holds_doc(v: Tree, gs: Seq<Group>) -> bool {
    v matches Tree::Table(t) && ascending(keys(t)) && forall|k: Seq<char>|
        holds_key(#[trigger] get(t, k), gs, k)
}

pub open spec fn holds_key(v: Option<Tree>, gs: Seq<Group>, k: Seq<char>) -> bool {
    match section(gs, k) {
        Some(ps) => v matches Some(x) && holds_pairs(x, ps),
        None => if elements(gs, k).len() > 0 {
            v matches Some(Tree::List(xs)) && xs.len() == elements(gs, k).len() && forall|i: int|
                0 <= i < xs.len() ==> holds_pairs(#[trigger] xs[i], elements(gs, k)[i])
        } else {
            match top(gs, k) {
                Some(p) => v matches Some(x) && holds_plain(x, p),
                None => v is None,
            }
        },
    }
}

// ---------------------------------------------------------------------------
// The parser
// ---------------------------------------------------------------------------

/// The dynamic value type of the `toml` crate.
#[verifier::external_type_specification]
#[verifier::external_body]
pub struct ExTomlValue(toml::Value);

/// What a `toml::Value` holds.
pub uninterp spec fn value_tree(v: toml::Value) -> Tree;

/// What `str::parse::<toml::Value>` makes of a text: the tree of the value, or
/// the text of the error.
pub uninterp spec fn toml_document(text: Seq<char>) -> Result<Tree, Seq<char>>;

/// A parse result with its value as a tree.
pub open spec fn parsed_tree(r: Result<toml::Value, String>) -> Result<Tree, Seq<char>> {
    match r {
        Ok(v) => Ok(value_tree(v)),
        Err(m) => Err(m@),
    }
}

/// A result of [`read_toml`] with its value as a tree.
pub open spec fn read_tree(r: Result<TomlValue, String>) -> Result<Tree, Seq<char>> {
    match r {
        Ok(v) => Ok(tree(v)),
        Err(m) => Err(m@),
    }
}

/// A text that writes down a document in plain form is read as that document.
pub open spec fn reads_back(text: Seq<char>, r: Result<Tree, Seq<char>>) -> bool {
    forall|gs: Seq<Group>|
        plain_doc(gs) && text == #[trigger] doc_text(gs, gs.len() as int) ==> (r matches Ok(v)
            && holds_doc(v, gs))
}

/// `<toml::Value as FromStr>::from_str`: the document as a value, or the
/// parser's message. The result depends on the text alone. A document in plain
/// form is accepted and read as what it writes down: each section as a table,
/// elements of one name as a list of tables, each basic string as its text.
/// What other texts give is not stated.
#[verifier::external_body]
fn parse_text(text: &str) -> (r: Result<toml::Value, String>)
    ensures
        parsed_tree(r) == toml_document(text@),
        reads_back(text@, parsed_tree(r)),
{
    text.parse::<toml::Value>().map_err(|e| e.to_string())
}

/// The variants of `toml::Value`, one for one: the result holds what the value
/// holds. A float is held as its `Display` text, a date-time as a mark, and a
/// table in the order of its map, which is ascending by key.
#[verifier::external_body]
fn from_toml(v: toml::Value) -> (r: TomlValue)
    ensures
        tree(r) == value_tree(v),
{
    match v {
        toml::Value::String(s) => TomlValue::Text(s),
        toml::Value::Integer(i) => TomlValue::Integer(i),
        toml::Value::Float(f) => TomlValue::Number(f.to_string()),
        toml::Value::Boolean(b) => TomlValue::Boolean(b),
        toml::Value::Datetime(_) => TomlValue::Datetime,
        toml::Value::Array(a) => TomlValue::List(a.into_iter().map(from_toml).collect()),
        toml::Value::Table(t) => TomlValue::Table(
            t.into_iter().map(|(k, x)| (k, from_toml(x))).collect(),
        ),
    }
}

/// Parses a TOML document into a tree of plain values.
pub fn read_toml(text: &str) -> (r: Result<TomlValue, String>)
    ensures
        read_tree(r) == toml_document(text@),
        reads_back(text@, read_tree(r)),
{
    match parse_text(text) {
        Ok(v) => Ok(from_toml(v)),
        Err(e) => Err(e),
    }
}

} // verus!
