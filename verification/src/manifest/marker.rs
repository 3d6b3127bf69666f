//! The marker that a cache slot carries: what was fetched into it.
use crate::manifest::write::{push_line, quote};
use crate::manifest::{say3, ManifestError};
use crate::tomldoc::{
    bare_key, doc_text, elements, get, get_scalar, holds_doc, holds_key, lookup_string, pairs_text,
    plain_chars, plain_doc, plain_get, plain_group, read_toml, read_tree, reads_back, section,
    toml_document, top, tree, Group, Heading, Plain, TomlValue, Tree,
};
use vstd::prelude::*;
use vstd::string::*;

verus! {

/// What was fetched into a slot.
#[derive(Debug)]
pub struct SlotMarker {
    pub git: String,
    pub version: String,
    pub rev: String,
}

#[verifier::ext_equal]
pub struct Mark {
    pub git: Seq<char>,
    pub version: Seq<char>,
    pub rev: Seq<char>,
}

impl View for SlotMarker {
    type V = Mark;

    open spec fn view(&self) -> Mark {
        Mark { git: self.git@, version: self.version@, rev: self.rev@ }
    }
}

/// Name of the marker file in a slot.
pub fn slot_marker_name() -> (r: &'static str)
    ensures
        r@ == ".hella-slot"@,
{
    ".hella-slot"
}

pub open spec fn marker_pairs(m: Mark) -> Seq<(Seq<char>, Plain)> {
    seq![
        ("git"@, Plain::Text(m.git)),
        ("version"@, Plain::Text(m.version)),
        ("rev"@, Plain::Text(m.rev)),
    ]
}

/// A marker as a document of three lines.
pub open spec fn marker_doc(m: Mark) -> Seq<Group> {
    seq![Group { lead: Seq::empty(), heading: Heading::Top, pairs: marker_pairs(m) }]
}

pub open spec fn marker_written(m: Mark) -> Seq<char> {
    doc_text(marker_doc(m), marker_doc(m).len() as int)
}

pub open spec fn marker_missing(key: Seq<char>) -> Seq<char> {
    "malformed slot marker: missing `"@ + key + "`"@
}

/// The marker in a document.
pub open spec fn mark(v: Tree) -> Result<Mark, Seq<char>> {
    match v {
        Tree::Table(t) => match (
            get_scalar(t, "git"@),
            get_scalar(t, "version"@),
            get_scalar(t, "rev"@),
        ) {
            (None, _, _) => Err(marker_missing("git"@)),
            (_, None, _) => Err(marker_missing("version"@)),
            (_, _, None) => Err(marker_missing("rev"@)),
            (Some(git), Some(version), Some(rev)) => Ok(Mark { git, version, rev }),
        },
        _ => Err("malformed slot marker: expected TOML table"@),
    }
}

pub open spec fn marker_text(text: Seq<char>) -> Result<Mark, Seq<char>> {
    match toml_document(text) {
        Err(m) => Err("malformed slot marker: "@ + m),
        Ok(v) => mark(v),
    }
}

pub open spec fn marker_result(r: Result<SlotMarker, ManifestError>) -> Result<Mark, Seq<char>> {
    match r {
        Ok(m) => Ok(m@),
        Err(e) => Err(e.text()),
    }
}

/// Nothing in the marker needs an escape.
pub open spec fn writable_mark(m: Mark) -> bool {
    plain_chars(m.git) && plain_chars(m.version) && plain_chars(m.rev)
}

/// Writes a marker.
pub fn serialize_slot_marker(git: &str, version: &str, rev: &str) -> (r: String)
    ensures
        r@ == marker_written((Mark { git: git@, version: version@, rev: rev@ })),
{
    let mut out = String::new();
    assert(out@ =~= Seq::<char>::empty());
    push_line(&mut out, "git", quote(git).as_str());
    push_line(&mut out, "version", quote(version).as_str());
    push_line(&mut out, "rev", quote(rev).as_str());
    proof {
        let m = Mark { git: git@, version: version@, rev: rev@ };
        reveal_with_fuel(pairs_text, 4);
        reveal_with_fuel(doc_text, 2);
        assert(out@ == pairs_text(marker_pairs(m), 3));
        assert(marker_written(m) =~= out@);
    }
    out
}

fn missing_marker_key(key: &str) -> (r: ManifestError)
    ensures
        r.text() == marker_missing(key@),
{
    ManifestError::Invalid(say3("malformed slot marker: missing `", key, "`"))
}

/// The marker in a document.
pub fn marker_from_toml(doc: &TomlValue) -> (r: Result<SlotMarker, ManifestError>)
    ensures
        marker_result(r) == mark(tree(*doc)),
{
    let t = match doc {
        TomlValue::Table(t) => t,
        _ => {
            return Err(
                ManifestError::Invalid(
                    String::from_str("malformed slot marker: expected TOML table"),
                ),
            );
        },
    };
    let git = match lookup_string(t, "git") {
        Some(s) => s,
        None => {
            return Err(missing_marker_key("git"));
        },
    };
    let version = match lookup_string(t, "version") {
        Some(s) => s,
        None => {
            return Err(missing_marker_key("version"));
        },
    };
    let rev = match lookup_string(t, "rev") {
        Some(s) => s,
        None => {
            return Err(missing_marker_key("rev"));
        },
    };
    Ok(SlotMarker { git, version, rev })
}

/// Parses a marker. What [`serialize_slot_marker`] wrote of a writable marker
/// is that marker again.
pub fn parse_slot_marker(text: &str) -> (r: Result<SlotMarker, ManifestError>)
    ensures
        marker_result(r) == marker_text(text@),
        forall|m: Mark|
            writable_mark(m) && text@ == #[trigger] marker_written(m) ==> marker_result(r) == Ok::<
                Mark,
                Seq<char>,
            >(m),
{
    let parsed = read_toml(text);
    proof {
        assert forall|m: Mark| writable_mark(m) && text@ == #[trigger] marker_written(m) implies (
        read_tree(parsed) matches Ok(v) && mark(v) == Ok::<Mark, Seq<char>>(m)) by {
            lemma_marker_doc_plain(m);
            assert(reads_back(text@, read_tree(parsed)));
            law_marker_reads_back(m, read_tree(parsed)->Ok_0);
        }
    }
    match parsed {
        Ok(doc) => marker_from_toml(&doc),
        Err(e) => {
            let mut m = String::from_str("malformed slot marker: ");
            m.append(e.as_str());
            Err(ManifestError::Invalid(m))
        },
    }
}

proof fn lemma_marker_doc_plain(m: Mark)
    requires
        writable_mark(m),
    ensures
        plain_doc(marker_doc(m)),
{
    reveal_strlit("git");
    reveal_strlit("version");
    reveal_strlit("rev");
    assert(bare_key("git"@) && bare_key("version"@) && bare_key("rev"@));
    assert("git"@.len() == 3 && "version"@.len() == 7 && "rev"@.len() == 3);
    assert("git"@[0] != "rev"@[0]);
    assert(plain_group(marker_doc(m)[0]));
}

/// A marker that is written down and read as the document it writes is the
/// marker again.
pub proof fn law_marker_reads_back(m: Mark, v: Tree)
    requires
        writable_mark(m),
        holds_doc(v, marker_doc(m)),
    ensures
        mark(v) == Ok::<Mark, Seq<char>>(m),
{
    reveal_strlit("git");
    reveal_strlit("version");
    reveal_strlit("rev");
    assert("git"@.len() == 3 && "version"@.len() == 7 && "rev"@.len() == 3);
    assert("git"@[0] != "rev"@[0]);
    let t = v->Table_0;
    let gs = marker_doc(m);
    let ps = marker_pairs(m);
    reveal_with_fuel(section, 2);
    reveal_with_fuel(elements, 2);
    reveal_with_fuel(top, 2);
    reveal_with_fuel(plain_get, 4);
    assert(ps.drop_last() =~= ps.take(2));
    assert(ps.take(2).drop_last() =~= ps.take(1));
    assert(holds_key(get(t, "git"@), gs, "git"@));
    assert(holds_key(get(t, "version"@), gs, "version"@));
    assert(holds_key(get(t, "rev"@), gs, "rev"@));
    assert(plain_get(ps, "git"@) == Some(Plain::Text(m.git)));
    assert(plain_get(ps, "version"@) == Some(Plain::Text(m.version)));
    assert(plain_get(ps, "rev"@) == Some(Plain::Text(m.rev)));
}

} // verus!
