//! The lockfile: the exact pins of a dependency closure.
use crate::manifest::write::{lemma_valid_name_plain, push_line, quote};
use crate::manifest::{
    is_empty, is_valid_dep_name, pins, say3, valid_name, LockedDependency, Lockfile, ManifestError,
    Pin,
};
use crate::text::{
    before, comes_before, copy_opt, lemma_before_total, lemma_before_trans, trim, trim_str,
};
use crate::tomldoc::{
    bare_key, compatible, doc_text, elements, entries, get, get_scalar, group_text, holds_doc,
    holds_key, holds_pairs, lookup, lookup_string, pairs_text, plain_chars, plain_doc, plain_get,
    plain_group, plain_value, read_toml, read_tree, reads_back, section, toml_document, top, tree,
    Group, Heading, Plain, TomlValue, Tree,
};
use vstd::prelude::*;
use vstd::string::*;

verus! {

// ---------------------------------------------------------------------------
// Order
// ---------------------------------------------------------------------------

/// `p` put behind the last pin whose name does not come after its own.
pub open spec fn pin_inserted(s: Seq<Pin>, p: Pin) -> Seq<Pin>
    decreases s.len(),
{
    if s.len() == 0 || !before(p.name, s.last().name) {
        s.push(p)
    } else {
        pin_inserted(s.drop_last(), p).push(s.last())
    }
}

/// The pins by name, pins of one name keeping their order.
pub open spec fn by_name(s: Seq<Pin>) -> Seq<Pin>
    decreases s.len(),
{
    if s.len() == 0 {
        s
    } else {
        pin_inserted(by_name(s.drop_last()), s.last())
    }
}

/// The names never descend.
pub open spec fn name_order(s: Seq<Pin>) -> bool {
    forall|i: int, j: int|
        0 <= i < j < s.len() ==> !before((#[trigger] s[j]).name, (#[trigger] s[i]).name)
}

/// A copy of a pin.
pub fn copy_pin(p: &LockedDependency) -> (r: LockedDependency)
    ensures
        r@ == p@,
        r == *p,
{
    LockedDependency {
        name: p.name.clone(),
        git: p.git.clone(),
        version: p.version.clone(),
        rev: p.rev.clone(),
        package: copy_opt(&p.package),
    }
}

fn insert_pin(sorted: &mut Vec<LockedDependency>, p: LockedDependency)
    ensures
        pins(final(sorted)@) == pin_inserted(pins(old(sorted)@), p@),
{
    let n: usize = sorted.len();
    let mut at: usize = n;
    let ghost s = pins(sorted@);
    assert(s.take(n as int) =~= s);
    assert(pin_inserted(s.take(n as int), p@) + s.skip(n as int) =~= pin_inserted(s, p@));
    while at > 0 && comes_before(p.name.as_str(), sorted[at - 1].name.as_str())
        invariant
            at <= n == sorted@.len(),
            s == pins(sorted@),
            pin_inserted(s, p@) == pin_inserted(s.take(at as int), p@) + s.skip(at as int),
        decreases at,
    {
        let ghost t = s.take(at as int);
        assert(t.last() == s[at - 1]);
        assert(t.drop_last() =~= s.take(at - 1));
        assert(pin_inserted(t, p@) + s.skip(at as int) =~= pin_inserted(s.take(at - 1), p@)
            + s.skip(at - 1));
        at -= 1;
    }
    assert(at > 0 ==> s.take(at as int).last() == s[at - 1]);
    let ghost new = p@;
    sorted.insert(at, p);
    assert(pins(sorted@) =~= s.take(at as int).push(new) + s.skip(at as int));
}

/// The pins by name, pins of one name keeping their order.
pub fn sort_pins(v: &Vec<LockedDependency>) -> (r: Vec<LockedDependency>)
    ensures
        pins(r@) == by_name(pins(v@)),
{
    let mut out: Vec<LockedDependency> = Vec::new();
    let mut i: usize = 0;
    let ghost all = pins(v@);
    assert(pins(out@) =~= by_name(all.take(0)));
    while i < v.len()
        invariant
            i <= v@.len(),
            all == pins(v@),
            pins(out@) == by_name(all.take(i as int)),
        decreases v@.len() - i,
    {
        insert_pin(&mut out, copy_pin(&v[i]));
        assert(all.take(i + 1).drop_last() =~= all.take(i as int));
        i += 1;
    }
    assert(all.take(i as int) =~= all);
    out
}

proof fn lemma_pin_inserted(s: Seq<Pin>, p: Pin)
    requires
        name_order(s),
    ensures
        name_order(pin_inserted(s, p)),
        forall|i: int|
            0 <= i < pin_inserted(s, p).len() ==> (#[trigger] pin_inserted(s, p)[i]) == p
                || s.contains(pin_inserted(s, p)[i]),
        pin_inserted(s, p).to_multiset() == s.to_multiset().insert(p),
    decreases s.len(),
{
    broadcast use vstd::seq_lib::group_to_multiset_ensures;

    let r = pin_inserted(s, p);
    if s.len() == 0 || !before(p.name, s.last().name) {
        assert forall|i: int, j: int| 0 <= i < j < r.len() implies !before(
            (#[trigger] r[j]).name,
            (#[trigger] r[i]).name,
        ) by {
            if j < s.len() {
                assert(!before(s[j].name, s[i].name));
            } else if i < s.len() - 1 {
                assert(!before(s[s.len() - 1].name, s[i].name));
                if before(p.name, s[i].name) {
                    lemma_before_total(s.last().name, p.name);
                    lemma_before_total(s.last().name, s[i].name);
                    if s.last().name != p.name {
                        lemma_before_trans(p.name, s[i].name, s.last().name);
                    }
                }
            }
        }
        assert forall|i: int| 0 <= i < r.len() implies (#[trigger] r[i]) == p || s.contains(r[i]) by {
            if i < s.len() {
                assert(s[i] == r[i]);
            }
        }
    } else {
        let t = s.drop_last();
        assert(name_order(t)) by {
            assert forall|i: int, j: int| 0 <= i < j < t.len() implies !before(
                (#[trigger] t[j]).name,
                (#[trigger] t[i]).name,
            ) by {
                assert(!before(s[j].name, s[i].name));
            }
        }
        lemma_pin_inserted(t, p);
        let q = pin_inserted(t, p);
        assert(s =~= t.push(s.last()));
        assert(r.to_multiset() =~= s.to_multiset().insert(p));
        assert forall|i: int| 0 <= i < q.len() implies ((#[trigger] q[i]) == p || s.contains(q[i]))
            && !before(s.last().name, q[i].name) by {
            if q[i] == p {
                lemma_before_total(p.name, s.last().name);
            } else {
                let k = choose|k: int| 0 <= k < t.len() && t[k] == q[i];
                assert(s[k] == q[i]);
                assert(!before(s[s.len() - 1].name, s[k].name));
            }
        }
        assert forall|i: int, j: int| 0 <= i < j < r.len() implies !before(
            (#[trigger] r[j]).name,
            (#[trigger] r[i]).name,
        ) by {
            if j < q.len() {
                assert(!before(q[j].name, q[i].name));
            } else {
                assert(r[i] == q[i]);
            }
        }
        assert forall|i: int| 0 <= i < r.len() implies (#[trigger] r[i]) == p || s.contains(r[i]) by {
            if i < q.len() {
                assert(r[i] == q[i]);
            } else {
                assert(s[s.len() - 1] == r[i]);
            }
        }
    }
}

/// Sorting gives name order, loses nothing, and leaves alone what is in order.
pub proof fn law_pins_sorted(s: Seq<Pin>)
    ensures
        name_order(by_name(s)),
        by_name(s).to_multiset() == s.to_multiset(),
        name_order(s) ==> by_name(s) == s,
        by_name(by_name(s)) == by_name(s),
{
    lemma_sorted(s);
    lemma_sorted(by_name(s));
    lemma_already_sorted(by_name(s));
    if name_order(s) {
        lemma_already_sorted(s);
    }
}

proof fn lemma_sorted(s: Seq<Pin>)
    ensures
        name_order(by_name(s)),
        by_name(s).to_multiset() == s.to_multiset(),
    decreases s.len(),
{
    broadcast use vstd::seq_lib::group_to_multiset_ensures;

    if s.len() > 0 {
        lemma_sorted(s.drop_last());
        lemma_pin_inserted(by_name(s.drop_last()), s.last());
        assert(s =~= s.drop_last().push(s.last()));
        assert(by_name(s).to_multiset() =~= s.to_multiset());
    }
}

proof fn lemma_already_sorted(s: Seq<Pin>)
    requires
        name_order(s),
    ensures
        by_name(s) == s,
    decreases s.len(),
{
    if s.len() > 0 {
        let t = s.drop_last();
        assert(name_order(t)) by {
            assert forall|i: int, j: int| 0 <= i < j < t.len() implies !before(
                (#[trigger] t[j]).name,
                (#[trigger] t[i]).name,
            ) by {
                assert(!before(s[j].name, s[i].name));
            }
        }
        lemma_already_sorted(t);
        if t.len() > 0 {
            assert(!before(s[s.len() - 1].name, s[s.len() - 2].name));
        }
        assert(t.push(s.last()) =~= s);
    }
}

// ---------------------------------------------------------------------------
// Reading
// ---------------------------------------------------------------------------

pub open spec fn missing(key: Seq<char>) -> Seq<char> {
    "malformed hella.lock: package entry missing `"@ + key + "`"@
}

/// One `[[package]]` entry.
pub open spec fn pin(v: Tree) -> Result<Pin, Seq<char>> {
    match v {
        Tree::Table(t) => match get_scalar(t, "name"@) {
            None => Err(missing("name"@)),
            Some(name) => if !valid_name(name) {
                Err("malformed hella.lock: invalid package name `"@ + name + "`"@)
            } else {
                match (
                    get_scalar(t, "git"@),
                    get_scalar(t, "version"@),
                    get_scalar(t, "rev"@),
                ) {
                    (None, _, _) => Err(missing("git"@)),
                    (_, None, _) => Err(missing("version"@)),
                    (_, _, None) => Err(missing("rev"@)),
                    (Some(git), Some(version), Some(rev)) => Ok(
                        Pin { name, git, version, rev, package: get_scalar(t, "package"@) },
                    ),
                }
            },
        },
        _ => Err("malformed hella.lock: `package` entries must be tables"@),
    }
}

/// The first `n` entries, or the first error among them.
pub open spec fn pin_list(s: Seq<Tree>, n: int) -> Result<Seq<Pin>, Seq<char>>
    decreases n,
{
    if n <= 0 {
        Ok(Seq::empty())
    } else {
        match pin_list(s, n - 1) {
            Err(m) => Err(m),
            Ok(done) => match pin(s[n - 1]) {
                Err(m) => Err(m),
                Ok(p) => Ok(done.push(p)),
            },
        }
    }
}

/// The pins in a document, by name.
pub open spec fn locked(v: Tree) -> Result<Seq<Pin>, Seq<char>> {
    match v {
        Tree::Table(t) => match get(t, "package"@) {
            None => Ok(Seq::empty()),
            Some(Tree::List(s)) => match pin_list(s, s.len() as int) {
                Err(m) => Err(m),
                Ok(all) => Ok(by_name(all)),
            },
            Some(_) => Err("malformed hella.lock: `package` must be a list"@),
        },
        _ => Err("malformed hella.lock: expected TOML table"@),
    }
}

/// The pins in a text.
pub open spec fn lock_text(text: Seq<char>) -> Result<Seq<Pin>, Seq<char>> {
    if trim(text).len() == 0 {
        Ok(Seq::empty())
    } else {
        match toml_document(text) {
            Err(m) => Err("malformed hella.lock: "@ + m),
            Ok(v) => locked(v),
        }
    }
}

pub open spec fn lock_result(r: Result<Lockfile, ManifestError>) -> Result<Seq<Pin>, Seq<char>> {
    match r {
        Ok(l) => Ok(l@),
        Err(e) => Err(e.text()),
    }
}

pub open spec fn pin_result(r: Result<LockedDependency, ManifestError>) -> Result<Pin, Seq<char>> {
    match r {
        Ok(p) => Ok(p@),
        Err(e) => Err(e.text()),
    }
}

fn missing_key(key: &str) -> (r: ManifestError)
    ensures
        r.text() == missing(key@),
{
    ManifestError::Invalid(say3("malformed hella.lock: package entry missing `", key, "`"))
}

fn parse_pin(v: &TomlValue) -> (r: Result<LockedDependency, ManifestError>)
    ensures
        pin_result(r) == pin(tree(*v)),
{
    let t = match v {
        TomlValue::Table(t) => t,
        _ => {
            return Err(
                ManifestError::Invalid(
                    String::from_str("malformed hella.lock: `package` entries must be tables"),
                ),
            );
        },
    };
    let name = match lookup_string(t, "name") {
        Some(s) => s,
        None => {
            return Err(missing_key("name"));
        },
    };
    if !is_valid_dep_name(name.as_str()) {
        return Err(
            ManifestError::Invalid(
                say3("malformed hella.lock: invalid package name `", name.as_str(), "`"),
            ),
        );
    }
    let git = match lookup_string(t, "git") {
        Some(s) => s,
        None => {
            return Err(missing_key("git"));
        },
    };
    let version = match lookup_string(t, "version") {
        Some(s) => s,
        None => {
            return Err(missing_key("version"));
        },
    };
    let rev = match lookup_string(t, "rev") {
        Some(s) => s,
        None => {
            return Err(missing_key("rev"));
        },
    };
    let package = lookup_string(t, "package");
    Ok(LockedDependency { name, git, version, rev, package })
}

proof fn lemma_pin_error_stays(s: Seq<Tree>, m: int, n: int)
    requires
        m <= n,
        pin_list(s, m) is Err,
    ensures
        pin_list(s, n) == pin_list(s, m),
    decreases n - m,
{
    if m < n {
        lemma_pin_error_stays(s, m, n - 1);
    }
}

/// The pins in a document.
pub fn lockfile_from_toml(doc: &TomlValue) -> (r: Result<Lockfile, ManifestError>)
    ensures
        lock_result(r) == locked(tree(*doc)),
{
    let table = match doc {
        TomlValue::Table(t) => t,
        _ => {
            return Err(
                ManifestError::Invalid(
                    String::from_str("malformed hella.lock: expected TOML table"),
                ),
            );
        },
    };
    match lookup(table, "package") {
        None => {
            let l = Lockfile { packages: Vec::new() };
            assert(l@ =~= Seq::<Pin>::empty());
            Ok(l)
        },
        Some(TomlValue::List(list)) => {
            let mut packages: Vec<LockedDependency> = Vec::new();
            let ghost s = tree(TomlValue::List(*list))->List_0;
            let mut i: usize = 0;
            assert(pins(packages@) =~= Seq::<Pin>::empty());
            while i < list.len()
                invariant
                    i <= list@.len() == s.len(),
                    s == tree(TomlValue::List(*list))->List_0,
                    get(entries(table@), "package"@) == Some(Tree::List(s)),
                    tree(*doc) == Tree::Table(entries(table@)),
                    pin_list(s, i as int) == Ok::<Seq<Pin>, Seq<char>>(pins(packages@)),
                decreases list@.len() - i,
            {
                assert(s[i as int] == tree(list@[i as int]));
                match parse_pin(&list[i]) {
                    Ok(p) => {
                        let ghost had = pins(packages@);
                        let ghost new = p@;
                        packages.push(p);
                        assert(pins(packages@) =~= had.push(new));
                    },
                    Err(e) => {
                        assert(pin_list(s, i + 1) == Err::<Seq<Pin>, Seq<char>>(e.text()));
                        proof {
                            lemma_pin_error_stays(s, i + 1, s.len() as int);
                        }
                        return Err(e);
                    },
                }
                i += 1;
            }
            Ok(Lockfile { packages: sort_pins(&packages) })
        },
        Some(_) => Err(
            ManifestError::Invalid(
                String::from_str("malformed hella.lock: `package` must be a list"),
            ),
        ),
    }
}

/// Parses lockfile text: a `[[package]]` list of exact pins, given back by
/// name. What [`serialize_lockfile`] wrote of writable pins is those pins again.
pub fn parse_lockfile(text: &str) -> (r: Result<Lockfile, ManifestError>)
    ensures
        lock_result(r) == lock_text(text@),
        forall|s: Seq<Pin>|
            writable_pins(s) && text@ == #[trigger] lock_written(s) ==> lock_result(r) == Ok::<
                Seq<Pin>,
                Seq<char>,
            >(by_name(s)),
{
    if is_empty(&trim_str(text)) {
        let l = Lockfile { packages: Vec::new() };
        assert(l@ =~= Seq::<Pin>::empty());
        proof {
            assert forall|s: Seq<Pin>| writable_pins(s) && text@ == #[trigger] lock_written(
                s,
            ) implies by_name(s) == Seq::<Pin>::empty() by {
                lemma_lock_text_not_blank(s);
            }
        }
        return Ok(l);
    }
    let parsed = read_toml(text);
    proof {
        assert forall|s: Seq<Pin>| writable_pins(s) && text@ == #[trigger] lock_written(
            s,
        ) implies (read_tree(parsed) matches Ok(v) && locked(v) == Ok::<Seq<Pin>, Seq<char>>(
            by_name(s),
        )) by {
            law_pins_sorted(s);
            lemma_writable_sorted(s);
            lemma_lock_doc_plain(by_name(s));
            assert(reads_back(text@, read_tree(parsed)));
            law_lockfile_reads_back(by_name(s), read_tree(parsed)->Ok_0);
        }
    }
    match parsed {
        Ok(doc) => lockfile_from_toml(&doc),
        Err(e) => {
            let mut m = String::from_str("malformed hella.lock: ");
            m.append(e.as_str());
            Err(ManifestError::Invalid(m))
        },
    }
}

// ---------------------------------------------------------------------------
// Writing
// ---------------------------------------------------------------------------

/// The `key = "value"` lines of a pin.
pub open spec fn pin_pairs(p: Pin) -> Seq<(Seq<char>, Plain)> {
    let four = seq![
        ("name"@, Plain::Text(p.name)),
        ("git"@, Plain::Text(p.git)),
        ("version"@, Plain::Text(p.version)),
        ("rev"@, Plain::Text(p.rev)),
    ];
    match p.package {
        Some(x) => four.push(("package"@, Plain::Text(x))),
        None => four,
    }
}

/// A pin as a `[[package]]` entry behind an empty line.
pub open spec fn pin_group(p: Pin) -> Group {
    Group { lead: "\n"@, heading: Heading::Element("package"@), pairs: pin_pairs(p) }
}

/// The comment line on top of a lockfile.
pub open spec fn lock_head() -> Group {
    Group {
        lead: "# Generated by `hella add` — do not edit by hand.\n"@,
        heading: Heading::Top,
        pairs: Seq::empty(),
    }
}

/// A lockfile as a document: a comment line, then the pins.
pub open spec fn lock_doc(s: Seq<Pin>) -> Seq<Group> {
    seq![lock_head()] + Seq::new(s.len(), |i: int| pin_group(s[i]))
}

/// The text of a lockfile: its pins by name.
pub open spec fn lock_written(s: Seq<Pin>) -> Seq<char> {
    doc_text(lock_doc(by_name(s)), lock_doc(by_name(s)).len() as int)
}

fn pin_entry(p: &LockedDependency) -> (r: String)
    ensures
        r@ == group_text(pin_group(p@)),
{
    let ghost ps = pin_pairs(p@);
    let ghost four = pin_pairs((Pin { package: None, ..p@ }));
    let mut lines = String::new();
    assert(lines@ =~= Seq::<char>::empty());
    push_line(&mut lines, "name", quote(p.name.as_str()).as_str());
    push_line(&mut lines, "git", quote(p.git.as_str()).as_str());
    push_line(&mut lines, "version", quote(p.version.as_str()).as_str());
    push_line(&mut lines, "rev", quote(p.rev.as_str()).as_str());
    proof {
        reveal_with_fuel(pairs_text, 6);
    }
    assert(lines@ == pairs_text(four, 4));
    assert(pairs_text(ps, 1) == pairs_text(four, 1));
    assert(pairs_text(ps, 2) == pairs_text(four, 2));
    assert(pairs_text(ps, 3) == pairs_text(four, 3));
    assert(pairs_text(ps, 4) == pairs_text(four, 4));
    if let Some(x) = &p.package {
        push_line(&mut lines, "package", quote(x.as_str()).as_str());
        assert(lines@ == pairs_text(ps, 5));
    }
    let mut out = String::from_str("\n[[package]]\n");
    proof {
        reveal_strlit("\n[[package]]\n");
        reveal_strlit("\n");
        reveal_strlit("[[");
        reveal_strlit("package");
        reveal_strlit("]]\n");
        assert("\n[[package]]\n"@ =~= "\n"@ + ("[["@ + "package"@ + "]]\n"@));
    }
    out.append(lines.as_str());
    out
}

/// Writes a lockfile: a comment line, then the pins by name.
pub fn serialize_lockfile(lock: &Lockfile) -> (r: String)
    ensures
        r@ == lock_written(lock@),
{
    let sorted = sort_pins(&lock.packages);
    let ghost s = pins(sorted@);
    let ghost gs = lock_doc(s);
    let mut out = String::from_str("# Generated by `hella add` — do not edit by hand.\n");
    assert(gs[0] == lock_head());
    assert(group_text(lock_head()) =~= out@);
    assert(doc_text(gs, 1) =~= out@) by {
        reveal_with_fuel(doc_text, 2);
    }
    let mut i: usize = 0;
    while i < sorted.len()
        invariant
            i <= sorted@.len(),
            s == pins(sorted@),
            gs == lock_doc(s),
            out@ == doc_text(gs, i + 1),
        decreases sorted@.len() - i,
    {
        let entry = pin_entry(&sorted[i]);
        out.append(entry.as_str());
        assert(gs[i + 1] == pin_group(s[i as int]));
        i += 1;
    }
    out
}

// ---------------------------------------------------------------------------
// Reading back
// ---------------------------------------------------------------------------

/// A pin that can be written without loss: its name can be imported, and
/// nothing in it needs an escape.
pub open spec fn writable_pin(p: Pin) -> bool {
    &&& valid_name(p.name)
    &&& plain_chars(p.git)
    &&& plain_chars(p.version)
    &&& plain_chars(p.rev)
    &&& p.package matches Some(x) ==> plain_chars(x)
}

pub open spec fn writable_pins(s: Seq<Pin>) -> bool {
    forall|i: int| 0 <= i < s.len() ==> writable_pin(#[trigger] s[i])
}

pub(crate) proof fn lemma_writable_sorted(s: Seq<Pin>)
    requires
        writable_pins(s),
    ensures
        writable_pins(by_name(s)),
{
    law_pins_sorted(s);
    let r = by_name(s);
    assert forall|i: int| 0 <= i < r.len() implies writable_pin(#[trigger] r[i]) by {
        broadcast use vstd::seq_lib::group_to_multiset_ensures;

        assert(r.contains(r[i]));
        assert(r.to_multiset().count(r[i]) > 0);
        assert(s.to_multiset().count(r[i]) > 0);
        assert(s.contains(r[i]));
        let k = choose|k: int| 0 <= k < s.len() && s[k] == r[i];
        assert(writable_pin(s[k]));
    }
}

/// The key texts of a pin, told apart.
proof fn lemma_pin_keys()
    ensures
        bare_key("name"@),
        bare_key("git"@),
        bare_key("version"@),
        bare_key("rev"@),
        bare_key("package"@),
        "name"@.len() == 4,
        "git"@.len() == 3,
        "version"@.len() == 7,
        "rev"@.len() == 3,
        "package"@.len() == 7,
        "git"@ != "rev"@,
        "version"@ != "package"@,
{
    reveal_strlit("name");
    reveal_strlit("git");
    reveal_strlit("version");
    reveal_strlit("rev");
    reveal_strlit("package");
    assert("git"@[0] != "rev"@[0]);
    assert("version"@[0] != "package"@[0]);
}

proof fn lemma_lock_head_quiet()
    ensures
        plain_group(lock_head()),
        lock_head().lead.len() > 0,
        lock_head().lead[0] == '#',
{
    let c = " Generated by `hella add` — do not edit by hand."@;
    reveal_strlit(" Generated by `hella add` — do not edit by hand.");
    reveal_strlit("# Generated by `hella add` — do not edit by hand.\n");
    reveal_strlit("#");
    reveal_strlit("\n");
    assert(lock_head().lead =~= "#"@ + c + "\n"@);
    assert(plain_chars(c));
}

pub(crate) proof fn lemma_lock_doc_plain(s: Seq<Pin>)
    requires
        writable_pins(s),
    ensures
        plain_doc(lock_doc(s)),
{
    lemma_pin_keys();
    lemma_lock_head_quiet();
    let gs = lock_doc(s);
    assert forall|i: int| 0 <= i < gs.len() implies plain_group(#[trigger] gs[i]) by {
        if i > 0 {
            let p = s[i - 1];
            assert(gs[i] == pin_group(p));
            assert(writable_pin(p));
            lemma_valid_name_plain(p.name);
            let ps = pin_pairs(p);
            assert forall|j: int| 0 <= j < ps.len() implies bare_key((#[trigger] ps[j]).0)
                && plain_value(ps[j].1) by {}
            assert forall|j: int, k: int| 0 <= j < k < ps.len() implies (#[trigger] ps[j]).0 != (
            #[trigger] ps[k]).0 by {}
        } else {
            assert(gs[0] == lock_head());
        }
    }
    assert forall|i: int, j: int|
        0 <= i < gs.len() && 0 <= j < gs.len() && i != j implies compatible(
        #[trigger] gs[i],
        #[trigger] gs[j],
        i < j,
    ) by {
        if i > 0 {
            assert(gs[i] == pin_group(s[i - 1]));
        } else {
            assert(gs[0] == lock_head());
        }
        if j > 0 {
            assert(gs[j] == pin_group(s[j - 1]));
        } else {
            assert(gs[0] == lock_head());
        }
    }
}

/// The text of a lockfile starts with its comment line.
proof fn lemma_doc_starts(gs: Seq<Group>, n: int)
    requires
        1 <= n <= gs.len(),
        gs[0].lead.len() > 0,
    ensures
        doc_text(gs, n).len() > 0,
        doc_text(gs, n)[0] == gs[0].lead[0],
    decreases n,
{
    if n > 1 {
        lemma_doc_starts(gs, n - 1);
    } else {
        reveal_with_fuel(doc_text, 2);
        assert(doc_text(gs, 1) =~= group_text(gs[0]));
    }
}

proof fn lemma_lock_text_not_blank(s: Seq<Pin>)
    ensures
        trim(lock_written(s)).len() > 0,
{
    lemma_lock_head_quiet();
    let gs = lock_doc(by_name(s));
    assert(gs[0] == lock_head());
    lemma_doc_starts(gs, gs.len() as int);
    let t = lock_written(s);
    assert(t[0] == '#');
    lemma_trim_keeps(t);
}

proof fn lemma_trim_keeps(t: Seq<char>)
    requires
        t.len() > 0,
        !crate::text::is_space(t[0]),
    ensures
        trim(t).len() > 0,
{
    lemma_drop_end_keeps(t);
}

proof fn lemma_drop_end_keeps(t: Seq<char>)
    requires
        t.len() > 0,
        !crate::text::is_space(t[0]),
    ensures
        crate::text::drop_end(t, crate::text::Class::Space).len() > 0,
    decreases t.len(),
{
    if t.len() > 1 && crate::text::is_space(t.last()) {
        assert(t.drop_last()[0] == t[0]);
        lemma_drop_end_keeps(t.drop_last());
    }
}

proof fn lemma_lock_elements(s: Seq<Pin>, n: int)
    requires
        0 <= n <= s.len(),
    ensures
        elements(lock_doc(s).take(n + 1), "package"@).len() == n,
        forall|i: int|
            0 <= i < n ==> #[trigger] elements(lock_doc(s).take(n + 1), "package"@)[i] == pin_pairs(
                s[i],
            ),
        forall|k: Seq<char>| #[trigger] section(lock_doc(s).take(n + 1), k) is None,
        forall|k: Seq<char>| #[trigger] top(lock_doc(s).take(n + 1), k) is None,
    decreases n,
{
    let gs = lock_doc(s).take(n + 1);
    if n == 0 {
        assert(gs.drop_last() =~= Seq::<Group>::empty());
        assert(gs.last() == lock_head());
        assert(elements(gs.drop_last(), "package"@) =~= Seq::empty());
        assert forall|k: Seq<char>| #[trigger] section(gs, k) is None by {
            assert(section(gs.drop_last(), k) is None);
        }
    } else {
        lemma_lock_elements(s, n - 1);
        assert(gs.drop_last() =~= lock_doc(s).take(n));
        assert(gs.last() == pin_group(s[n - 1]));
        assert forall|k: Seq<char>| #[trigger] section(gs, k) is None by {
            assert(section(lock_doc(s).take(n), k) is None);
        }
        assert forall|k: Seq<char>| #[trigger] top(gs, k) is None by {
            assert(top(lock_doc(s).take(n), k) is None);
        }
        let e = elements(lock_doc(s).take(n), "package"@);
        assert(elements(gs, "package"@) =~= e.push(pin_pairs(s[n - 1])));
    }
}

proof fn lemma_pin_reads_back(p: Pin, v: Tree)
    requires
        writable_pin(p),
        holds_pairs(v, pin_pairs(p)),
    ensures
        pin(v) == Ok::<Pin, Seq<char>>(p),
{
    lemma_pin_keys();
    let t = v->Table_0;
    let ps = pin_pairs(p);
    reveal_with_fuel(plain_get, 6);
    let four = pin_pairs(Pin { package: None, ..p });
    assert(four.drop_last() =~= four.take(3));
    assert(four.take(3).drop_last() =~= four.take(2));
    assert(four.take(2).drop_last() =~= four.take(1));
    match p.package {
        Some(x) => {
            assert(ps.drop_last() =~= four);
        },
        None => {},
    }
    assert(plain_get(four, "name"@) == Some(Plain::Text(p.name)));
    assert(plain_get(ps, "name"@) == Some(Plain::Text(p.name)));
    assert(plain_get(ps, "git"@) == Some(Plain::Text(p.git)));
    assert(plain_get(ps, "version"@) == Some(Plain::Text(p.version)));
    assert(plain_get(ps, "rev"@) == Some(Plain::Text(p.rev)));
    assert(get(t, "name"@) == Some(Tree::Text(p.name)));
    assert(get(t, "git"@) == Some(Tree::Text(p.git)));
    assert(get(t, "version"@) == Some(Tree::Text(p.version)));
    assert(get(t, "rev"@) == Some(Tree::Text(p.rev)));
    match p.package {
        Some(x) => {
            assert(plain_get(ps, "package"@) == Some(Plain::Text(x)));
            assert(get(t, "package"@) == Some(Tree::Text(x)));
        },
        None => {
            assert(plain_get(ps, "package"@) is None);
            assert(get(t, "package"@) is None);
        },
    }
}

proof fn lemma_pins_read_back(s: Seq<Pin>, vs: Seq<Tree>, n: int)
    requires
        0 <= n <= s.len() == vs.len(),
        writable_pins(s),
        forall|i: int| 0 <= i < vs.len() ==> holds_pairs(#[trigger] vs[i], pin_pairs(s[i])),
    ensures
        pin_list(vs, n) == Ok::<Seq<Pin>, Seq<char>>(s.take(n)),
    decreases n,
{
    if n > 0 {
        lemma_pins_read_back(s, vs, n - 1);
        assert(writable_pin(s[n - 1]));
        lemma_pin_reads_back(s[n - 1], vs[n - 1]);
        assert(s.take(n - 1).push(s[n - 1]) =~= s.take(n));
    } else {
        assert(s.take(0) =~= Seq::<Pin>::empty());
    }
}

/// Pins in name order that are written down and read as the document they
/// write are those pins again.
pub proof fn law_lockfile_reads_back(s: Seq<Pin>, v: Tree)
    requires
        writable_pins(s),
        name_order(s),
        holds_doc(v, lock_doc(s)),
    ensures
        locked(v) == Ok::<Seq<Pin>, Seq<char>>(s),
{
    let t = v->Table_0;
    let gs = lock_doc(s);
    lemma_lock_elements(s, s.len() as int);
    assert(gs.take((s.len() + 1) as int) =~= gs);
    assert(section(gs, "package"@) is None);
    assert(top(gs, "package"@) is None);
    assert(holds_key(get(t, "package"@), gs, "package"@));
    if s.len() == 0 {
        assert(get(t, "package"@) is None);
        assert(s =~= Seq::<Pin>::empty());
    } else {
        let vs = get(t, "package"@)->0->List_0;
        assert forall|i: int| 0 <= i < vs.len() implies holds_pairs(
            #[trigger] vs[i],
            pin_pairs(s[i]),
        ) by {
            assert(elements(gs, "package"@)[i] == pin_pairs(s[i]));
        }
        lemma_pins_read_back(s, vs, s.len() as int);
        assert(s.take(s.len() as int) =~= s);
        law_pins_sorted(s);
    }
}

} // verus!
