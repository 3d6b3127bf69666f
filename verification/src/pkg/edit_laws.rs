//! What holds of edits to manifest texts.
use crate::manifest::write::{
    dep_plain, deps_group, lemma_dep_plain, lemma_dep_reads_back, lemma_get_entry,
    lemma_valid_name_plain, manifest_doc, package_group, writable_dep, written,
};
use crate::manifest::{
    dep_entries, dependencies, dependency, identity, manifest_text, project, requested, valid_name,
    validity, Dep, Project,
};
use crate::names::{
    ascending, lemma_ascending_unique, lemma_put_ascending, lemma_put_get, pair_get, pair_keys, put,
};
use crate::pkg::edit::{
    as_text, base_manifest, deps_heading, edited, entry_line, in_deps, inserted, is_deps_heading,
    is_entry, is_heading, last_entry, law_edit_is_idempotent, law_entry_line_names_its_dependency,
    law_removal_undoes_edit, lemma_cleared_nothing, lemma_deps_heading, lemma_edited_position,
    lemma_last_entry, lemma_last_entry_is, lemma_no_deps, line_name, read_form, reads_as_wanted, rewritten, spaced,
    with_dep, with_entry, without_entry,
};
use crate::text::{
    before, drop_end, drop_start, ended, first, is_alpha, is_digit, is_space, lemma_before_total,
    lemma_ended_concat, lemma_ended_join, lemma_ended_lines, lemma_first, lemma_lines_of_ended,
    lines, one_line, starts, trim, Class,
};
use crate::tomldoc::{
    bare_key, compatible, doc_text, elements, get, group_text, heading_text, holds_doc, holds_key,
    holds_pairs, holds_plain, inline_text, keys, pairs_text, plain_chars, plain_doc, plain_get,
    plain_group, plain_text, plain_value, quiet, quoted, section, toml_document, top, Group,
    Heading, Plain, Tree,
};
use crate::versions::valid_req;
use vstd::prelude::*;
use vstd::string::*;

verus! {

// ---------------------------------------------------------------------------
// Lines and texts
// ---------------------------------------------------------------------------

/// Every line of the list is one line.
pub open spec fn all_one_line(ls: Seq<Seq<char>>) -> bool {
    forall|i: int| 0 <= i < ls.len() ==> one_line(#[trigger] ls[i])
}

proof fn lemma_lines_of_text(ls: Seq<Seq<char>>)
    requires
        ls.len() > 0,
        all_one_line(ls),
    ensures
        lines(as_text(ls)) == ls,
        as_text(ls) == ended(ls),
{
    lemma_ended_join(ls);
    lemma_lines_of_ended(ls);
}

/// An edit that is made again changes nothing.
proof fn lemma_edit_again(text: Seq<char>, name: Seq<char>, d: Dep)
    requires
        valid_name(name),
        all_one_line(edited(lines(text), name, entry_line(name, d))),
    ensures
        with_entry(with_entry(text, name, d), name, d) == with_entry(text, name, d),
{
    let entry = entry_line(name, d);
    law_entry_line_names_its_dependency(name, d);
    law_edit_is_idempotent(lines(text), name, entry);
    lemma_lines_of_text(edited(lines(text), name, entry));
}

/// Removal undoes an insertion: what is removed from a text that an insertion
/// added one line to is that text, comments and formatting included.
pub proof fn law_removal_undoes_insertion(text: Seq<char>, name: Seq<char>, d: Dep)
    requires
        valid_name(name),
        one_line(entry_line(name, d)),
        text.len() > 0,
        text.last() == '\n',
        forall|i: int| 0 <= i < text.len() - 1 && text[i] == '\r' ==> #[trigger] text[i + 1]
            != '\n',
        deps_heading(lines(text), lines(text).len() as int) is Some,
        last_entry(lines(text), name, lines(text).len() as int) is None,
        inserted(text, name, d) == with_entry(text, name, d),
    ensures
        without_entry(inserted(text, name, d), name) == text,
{
    let ls = lines(text);
    let n = ls.len() as int;
    let entry = entry_line(name, d);
    let r = edited(ls, name, entry);
    law_entry_line_names_its_dependency(name, d);
    lemma_ended_lines(text);
    lemma_deps_heading(ls, n);
    let h = deps_heading(ls, n)->0;
    assert(all_one_line(r)) by {
        assert forall|i: int| 0 <= i < r.len() implies one_line(#[trigger] r[i]) by {
            if i <= h {
                assert(r[i] == ls[i]);
            } else if i > h + 1 {
                assert(r[i] == ls[i - 1]);
            }
        }
    }
    lemma_lines_of_text(r);
    law_removal_undoes_edit(ls, name, entry);
    lemma_last_entry(ls, name, n);
    lemma_cleared_nothing(ls, name, n);
    assert(ls.take(n) =~= ls);
    lemma_ended_join(ls);
}

// ---------------------------------------------------------------------------
// Documents in plain form, line by line
// ---------------------------------------------------------------------------

/// The line of a pair.
spec fn pair_line(p: (Seq<char>, Plain)) -> Seq<char> {
    p.0 + " = "@ + plain_text(p.1)
}

spec fn pair_lines(ps: Seq<(Seq<char>, Plain)>) -> Seq<Seq<char>> {
    Seq::new(ps.len(), |i: int| pair_line(ps[i]))
}

spec fn lead_lines(lead: Seq<char>) -> Seq<Seq<char>> {
    if lead.len() == 0 {
        Seq::empty()
    } else {
        seq![lead.drop_last()]
    }
}

spec fn heading_lines(h: Heading) -> Seq<Seq<char>> {
    match h {
        Heading::Top => Seq::empty(),
        Heading::Section(n) => seq!["["@ + n + "]"@],
        Heading::Element(n) => seq!["[["@ + n + "]]"@],
    }
}

spec fn group_lines(g: Group) -> Seq<Seq<char>> {
    lead_lines(g.lead) + heading_lines(g.heading) + pair_lines(g.pairs)
}

/// The lines of the first `n` groups.
spec fn doc_lines(gs: Seq<Group>, n: int) -> Seq<Seq<char>>
    decreases n,
{
    if n <= 0 {
        Seq::empty()
    } else {
        doc_lines(gs, n - 1) + group_lines(gs[n - 1])
    }
}

/// No control character but tabs.
spec fn visible(s: Seq<char>) -> bool {
    forall|i: int| 0 <= i < s.len() ==> #[trigger] s[i] >= ' ' || s[i] == '\t'
}

proof fn lemma_visible_is_one_line(s: Seq<char>)
    requires
        visible(s),
    ensures
        one_line(s),
{
    if s.contains('\n') {
        let k = choose|k: int| 0 <= k < s.len() && s[k] == '\n';
        assert(s[k] >= ' ' || s[k] == '\t');
    }
    if s.len() > 0 {
        assert(s[s.len() - 1] >= ' ' || s[s.len() - 1] == '\t');
    }
}

proof fn lemma_bare_is_visible(k: Seq<char>)
    requires
        bare_key(k),
    ensures
        visible(k),
{
}

proof fn lemma_inline_visible(ps: Seq<(Seq<char>, Seq<char>)>, n: int)
    requires
        0 <= n <= ps.len(),
        forall|i: int|
            0 <= i < ps.len() ==> bare_key((#[trigger] ps[i]).0) && plain_chars(ps[i].1),
    ensures
        visible(inline_text(ps, n)),
    decreases n,
{
    reveal_strlit(" = ");
    reveal_strlit(", ");
    reveal_strlit("\"");
    if n > 0 {
        let x = ps[n - 1];
        lemma_bare_is_visible(x.0);
        assert(visible(quoted(x.1)));
        let pair = x.0 + " = "@ + quoted(x.1);
        assert(visible(x.0 + " = "@));
        assert(visible(pair));
        if n > 1 {
            lemma_inline_visible(ps, n - 1);
            let head = inline_text(ps, n - 1) + ", "@;
            assert(visible(head));
            assert(inline_text(ps, n) =~= head + pair);
            assert(visible(head + pair));
        }
    }
}

proof fn lemma_pair_line(p: (Seq<char>, Plain))
    requires
        bare_key(p.0),
        plain_value(p.1),
    ensures
        visible(pair_line(p)),
        plain_text(p.1).len() >= 2,
        !is_space(plain_text(p.1).last()),
{
    reveal_strlit(" = ");
    reveal_strlit("\"");
    reveal_strlit("{ ");
    reveal_strlit(" }");
    lemma_bare_is_visible(p.0);
    assert(visible(p.0 + " = "@));
    match p.1 {
        Plain::Text(t) => {
            assert(visible(quoted(t)));
        },
        Plain::Inline(ps) => {
            lemma_inline_visible(ps, ps.len() as int);
            assert(visible("{ "@ + inline_text(ps, ps.len() as int)));
            assert(visible(plain_text(p.1)));
        },
    }
    assert(visible(p.0 + " = "@ + plain_text(p.1)));
}

proof fn lemma_pairs_text(ps: Seq<(Seq<char>, Plain)>, n: int)
    requires
        0 <= n <= ps.len(),
    ensures
        pairs_text(ps, n) == ended(pair_lines(ps).take(n)),
    decreases n,
{
    let ls = pair_lines(ps);
    if n > 0 {
        lemma_pairs_text(ps, n - 1);
        assert(ls.take(n).drop_last() =~= ls.take(n - 1));
        assert(ls.take(n).last() == pair_line(ps[n - 1]));
        assert(pairs_text(ps, n) =~= ended(ls.take(n)));
    } else {
        assert(ls.take(0) =~= Seq::<Seq<char>>::empty());
    }
}

proof fn lemma_lead(lead: Seq<char>)
    requires
        quiet(lead),
    ensures
        ended(lead_lines(lead)) == lead,
        lead.len() > 0 ==> visible(lead.drop_last()),
        lead.len() > 0 ==> lead.drop_last().len() == 0 || lead[0] == '#',
{
    reveal_strlit("\n");
    reveal_strlit("#");
    reveal_with_fuel(ended, 2);
    if lead.len() > 0 {
        assert(lead_lines(lead).drop_last() =~= Seq::<Seq<char>>::empty());
        assert(lead.last() == '\n');
        assert(ended(lead_lines(lead)) =~= lead);
        if lead != "\n"@ {
            let c = choose|c: Seq<char>| lead == "#"@ + c + "\n"@ && #[trigger] plain_chars(c);
            assert(lead.drop_last() =~= "#"@ + c);
            assert(visible("#"@ + c));
        } else {
            assert(lead.drop_last() =~= Seq::<char>::empty());
        }
    }
}

proof fn lemma_heading(h: Heading)
    requires
        match h {
            Heading::Top => true,
            Heading::Section(n) => bare_key(n),
            Heading::Element(n) => bare_key(n),
        },
    ensures
        ended(heading_lines(h)) == heading_text(h),
        forall|i: int| 0 <= i < heading_lines(h).len() ==> visible(#[trigger] heading_lines(h)[i]),
        !(h is Top) ==> is_heading(heading_lines(h)[0]) && is_deps_heading(heading_lines(h)[0]) == (
        h == Heading::Section("dependencies"@)),
{
    reveal_strlit("[");
    reveal_strlit("]");
    reveal_strlit("[[");
    reveal_strlit("]]");
    reveal_strlit("]\n");
    reveal_strlit("]]\n");
    reveal_strlit("\n");
    reveal_strlit("dependencies");
    reveal_strlit("[dependencies]");
    reveal_with_fuel(ended, 2);
    let ls = heading_lines(h);
    assert("["@ + "dependencies"@ + "]"@ =~= "[dependencies]"@);
    match h {
        Heading::Top => {},
        Heading::Section(n) => {
            let l = ls[0];
            lemma_bare_is_visible(n);
            assert(visible("["@ + n));
            assert(visible(l));
            assert(ls.drop_last() =~= Seq::<Seq<char>>::empty());
            assert(ended(ls) =~= heading_text(h));
            assert(trim(l) == l);
            assert(l.take(1) =~= "["@);
            if l == "[dependencies]"@ {
                assert(n =~= l.subrange(1, l.len() - 1));
                assert("dependencies"@ =~= l.subrange(1, l.len() - 1));
            }
        },
        Heading::Element(n) => {
            let l = ls[0];
            lemma_bare_is_visible(n);
            assert(visible("[["@ + n));
            assert(visible(l));
            assert(ls.drop_last() =~= Seq::<Seq<char>>::empty());
            assert(ended(ls) =~= heading_text(h));
            assert(trim(l) == l);
            assert(l.take(1) =~= "["@);
            assert(l[1] == '[');
            assert("[dependencies]"@[1] == 'd');
        },
    }
}

proof fn lemma_group_text(g: Group)
    requires
        quiet(g.lead),
        match g.heading {
            Heading::Top => true,
            Heading::Section(n) => bare_key(n),
            Heading::Element(n) => bare_key(n),
        },
    ensures
        ended(group_lines(g)) == group_text(g),
{
    lemma_lead(g.lead);
    lemma_heading(g.heading);
    lemma_pairs_text(g.pairs, g.pairs.len() as int);
    let a = lead_lines(g.lead);
    let b = heading_lines(g.heading);
    let c = pair_lines(g.pairs);
    assert(c.take(c.len() as int) =~= c);
    lemma_ended_concat(a + b, c);
    lemma_ended_concat(a, b);
}

proof fn lemma_group_lines(g: Group)
    requires
        plain_group(g),
    ensures
        ended(group_lines(g)) == group_text(g),
        all_one_line(group_lines(g)),
{
    lemma_group_text(g);
    lemma_lead(g.lead);
    lemma_heading(g.heading);
    let a = lead_lines(g.lead);
    let b = heading_lines(g.heading);
    let r = group_lines(g);
    assert forall|i: int| 0 <= i < r.len() implies one_line(#[trigger] r[i]) by {
        if i < a.len() {
            assert(r[i] == a[i]);
            lemma_visible_is_one_line(r[i]);
        } else if i < a.len() + b.len() {
            assert(r[i] == b[i - a.len()]);
            lemma_visible_is_one_line(r[i]);
        } else {
            let j = i - a.len() - b.len();
            assert(r[i] == pair_line(g.pairs[j]));
            lemma_pair_line(g.pairs[j]);
            lemma_visible_is_one_line(r[i]);
        }
    }
}

proof fn lemma_doc_lines(gs: Seq<Group>, n: int)
    requires
        0 <= n <= gs.len(),
        forall|i: int| 0 <= i < gs.len() ==> plain_group(#[trigger] gs[i]),
    ensures
        ended(doc_lines(gs, n)) == doc_text(gs, n),
        all_one_line(doc_lines(gs, n)),
    decreases n,
{
    if n > 0 {
        lemma_doc_lines(gs, n - 1);
        lemma_group_lines(gs[n - 1]);
        let a = doc_lines(gs, n - 1);
        let b = group_lines(gs[n - 1]);
        lemma_ended_concat(a, b);
        let r = a + b;
        assert forall|i: int| 0 <= i < r.len() implies one_line(#[trigger] r[i]) by {
            if i < a.len() {
                assert(r[i] == a[i]);
            } else {
                assert(r[i] == b[i - a.len()]);
            }
        }
    }
}

// ---------------------------------------------------------------------------
// What an edit makes of them
// ---------------------------------------------------------------------------

proof fn lemma_drop_end_keeps_start(s: Seq<char>)
    requires
        s.len() > 0,
        !is_space(s[0]),
    ensures
        drop_end(s, Class::Space).len() > 0,
        drop_end(s, Class::Space)[0] == s[0],
    decreases s.len(),
{
    if is_space(s.last()) {
        lemma_drop_end_keeps_start(s.drop_last());
    }
}

/// A pair line is no heading, and names its key where that is a name.
proof fn lemma_pair_names(p: (Seq<char>, Plain))
    requires
        bare_key(p.0),
        plain_value(p.1),
    ensures
        !is_heading(pair_line(p)),
        line_name(trim(pair_line(p))) == if valid_name(p.0) {
            Some(p.0)
        } else {
            None
        },
{
    reveal_strlit(" = ");
    reveal_strlit("[");
    reveal_strlit("#");
    lemma_pair_line(p);
    let e = pair_line(p);
    let name = p.0;
    let v = plain_text(p.1);
    assert(is_alpha(name[0]) || is_digit(name[0]) || name[0] == '_' || name[0] == '-');
    assert(e[0] == name[0]);
    assert(e.last() == v.last());
    assert(trim(e) == e);
    assert(!starts(e, "["@)) by {
        if starts(e, "["@) {
            assert(e.take(1)[0] == "["@[0]);
        }
    }
    assert(!starts(e, "#"@)) by {
        if starts(e, "#"@) {
            assert(e.take(1)[0] == "#"@[0]);
        }
    }
    let k = name.len() as int + 1;
    assert(e[k] == '=');
    assert forall|i: int| 0 <= i < k implies e[i] != '=' by {
        if i < name.len() {
            assert(is_alpha(name[i]) || is_digit(name[i]) || name[i] == '_' || name[i] == '-');
            assert(e[i] == name[i]);
        } else {
            assert(e[i] == ' ');
        }
    }
    lemma_first(e, '=');
    assert(first(e, '=') == k) by {
        let f = first(e, '=');
        assert(e.contains(e[k]));
        if f < k {
            assert(e[f] != '=');
        }
        if f > k {
            assert(e[k] != '=');
        }
    }
    let key = e.take(k);
    let z = name[name.len() - 1];
    assert(is_alpha(z) || is_digit(z) || z == '_' || z == '-');
    assert(key =~= name.push(' '));
    assert(key.drop_last() =~= name);
    assert(drop_start(key, Class::Space) == key);
    assert(drop_end(key, Class::Space) == drop_end(name, Class::Space));
    assert(drop_end(name, Class::Space) == name);
    assert(trim(key) == name);
    assert(drop_start(name, Class::Quote) == name);
    assert(drop_end(name, Class::Quote) == name);
}

/// The line before a group is neither a heading nor an entry.
proof fn lemma_lead_line(lead: Seq<char>)
    requires
        quiet(lead),
        lead.len() > 0,
    ensures
        !is_heading(lead.drop_last()),
        line_name(trim(lead.drop_last())) is None,
{
    reveal_strlit("[");
    reveal_strlit("#");
    lemma_lead(lead);
    let l = lead.drop_last();
    let t = trim(l);
    if l.len() > 0 {
        assert(l[0] == '#');
        assert(drop_start(l, Class::Space) == l);
        lemma_drop_end_keeps_start(l);
        assert(t[0] == '#');
        assert(t.take(1) =~= "#"@);
        if starts(t, "["@) {
            assert(t.take(1)[0] == "["@[0]);
        }
    } else {
        assert(t.len() == 0);
    }
}

/// Only the heading of the dependency section opens it.
proof fn lemma_group_opens_no_section(g: Group, i: int)
    requires
        plain_group(g),
        g.heading != Heading::Section("dependencies"@),
        0 <= i < group_lines(g).len(),
    ensures
        !(is_deps_heading(group_lines(g)[i]) && is_heading(group_lines(g)[i])),
{
    let a = lead_lines(g.lead).len();
    let b = heading_lines(g.heading).len();
    lemma_heading(g.heading);
    let r = group_lines(g);
    if i < a {
        assert(r[i] == g.lead.drop_last());
        lemma_lead_line(g.lead);
    } else if i < a + b {
        assert(r[i] == heading_lines(g.heading)[0]);
    } else {
        let p = g.pairs[i - a - b];
        assert(r[i] == pair_line(p));
        lemma_pair_names(p);
    }
}

/// Lines that are no headings stand in the section that the line before them
/// stands in.
proof fn lemma_same_section(ls: Seq<Seq<char>>, at: int, n: int)
    requires
        0 <= at <= n <= ls.len(),
        forall|i: int| at <= i < n ==> !is_heading(#[trigger] ls[i]),
    ensures
        in_deps(ls, n) == in_deps(ls, at),
    decreases n,
{
    if n > at {
        lemma_same_section(ls, at, n - 1);
        assert(!is_heading(ls[n - 1]));
    }
}

/// Where group `k` stands in the document.
proof fn lemma_doc_part(gs: Seq<Group>, k: int, n: int)
    requires
        0 <= k < n <= gs.len(),
    ensures
        doc_lines(gs, k).len() + group_lines(gs[k]).len() <= doc_lines(gs, n).len(),
        doc_lines(gs, n).take(doc_lines(gs, k).len() as int) == doc_lines(gs, k),
        doc_lines(gs, n).subrange(
            doc_lines(gs, k).len() as int,
            (doc_lines(gs, k).len() + group_lines(gs[k]).len()) as int,
        ) == group_lines(gs[k]),
    decreases n,
{
    let l = doc_lines(gs, n);
    let a = doc_lines(gs, k);
    let g = group_lines(gs[k]);
    if k == n - 1 {
        assert(l =~= a + g);
        assert(l.take(a.len() as int) =~= a);
        assert(l.subrange(a.len() as int, (a.len() + g.len()) as int) =~= g);
    } else {
        lemma_doc_part(gs, k, n - 1);
        let m = doc_lines(gs, n - 1);
        assert(l.take(a.len() as int) =~= m.take(a.len() as int));
        assert(l.subrange(a.len() as int, (a.len() + g.len()) as int) =~= m.subrange(
            a.len() as int,
            (a.len() + g.len()) as int,
        ));
    }
}

/// A group of another section holds no entry and closes the section before it.
proof fn lemma_group_holds_no_entry(ls: Seq<Seq<char>>, at: int, g: Group, name: Seq<char>)
    requires
        plain_group(g),
        !(g.heading is Top),
        g.heading != Heading::Section("dependencies"@),
        0 <= at,
        at + group_lines(g).len() <= ls.len(),
        ls.subrange(at, at + group_lines(g).len()) == group_lines(g),
    ensures
        forall|m: int|
            at <= m < at + group_lines(g).len() ==> !#[trigger] is_entry(ls, name, m),
{
    let r = group_lines(g);
    let q = lead_lines(g.lead).len() as int;
    let h = at + q;
    lemma_heading(g.heading);
    assert(r[q] == heading_lines(g.heading)[0]);
    assert(ls[h] == ls.subrange(at, at + r.len())[q]);
    assert(!in_deps(ls, h + 1));
    assert forall|m: int| h + 1 <= m < at + r.len() implies !is_heading(#[trigger] ls[m]) by {
        assert(ls[m] == ls.subrange(at, at + r.len())[m - at]);
        let p = g.pairs[m - h - 1];
        assert(r[m - at] == pair_line(p));
        lemma_pair_names(p);
    }
    assert forall|m: int| at <= m < at + r.len() implies !#[trigger] is_entry(ls, name, m) by {
        if m < h {
            assert(ls[m] == ls.subrange(at, at + r.len())[m - at]);
            assert(r[0] == g.lead.drop_last());
            lemma_lead_line(g.lead);
        } else if m > h {
            lemma_same_section(ls, h + 1, m);
        }
    }
}

/// Which lines of a document with a dependency section are entries.
proof fn lemma_section_entries(gs: Seq<Group>, h: int, name: Seq<char>)
    requires
        plain_doc(gs),
        0 <= h < gs.len(),
        gs[h].heading == Heading::Section("dependencies"@),
        valid_name(name),
    ensures
        ({
            let ls = doc_lines(gs, gs.len() as int);
            let at = (doc_lines(gs, h).len() + lead_lines(gs[h].lead).len()) as int;
            &&& at + 1 + gs[h].pairs.len() <= ls.len()
            &&& deps_heading(ls, ls.len() as int) == Some(at)
            &&& forall|m: int|
                0 <= m < ls.len() ==> (#[trigger] is_entry(ls, name, m) <==> at + 1 <= m < at + 1
                    + gs[h].pairs.len() && gs[h].pairs[m - at - 1].0 == name)
        }),
{
    let n = gs.len() as int;
    let ls = doc_lines(gs, n);
    let g = gs[h];
    let a = doc_lines(gs, h).len() as int;
    let q = lead_lines(g.lead).len() as int;
    let at = a + q;
    let np = g.pairs.len() as int;
    lemma_doc_part(gs, h, n);
    let r = group_lines(g);
    assert(plain_group(g));
    lemma_heading(g.heading);
    assert(ls.subrange(a, a + r.len())[q] == heading_lines(g.heading)[0]);
    assert(r.len() == q + 1 + np);
    // Before the heading.
    assert forall|m: int| 0 <= m < at implies !(is_deps_heading(#[trigger] ls[m]) && is_heading(
        ls[m],
    )) by {
        if m < a {
            assert(ls.take(a)[m] == doc_lines(gs, h)[m]);
            lemma_no_section_before(gs, h, h, m);
        } else {
            assert(ls.subrange(a, a + r.len())[m - a] == r[m - a]);
            assert(r[0] == g.lead.drop_last());
            lemma_lead_line(g.lead);
        }
    }
    lemma_first_heading(ls, at, ls.len() as int);
    assert forall|j: int| 0 <= j < np implies ls[at + 1 + j] == pair_line(#[trigger] g.pairs[j]) by {
        assert(ls.subrange(a, a + r.len())[q + 1 + j] == r[q + 1 + j]);
    }
    assert forall|m: int| at + 1 <= m < at + 1 + np implies !is_heading(#[trigger] ls[m]) by {
        assert(ls[m] == pair_line(g.pairs[m - at - 1]));
        lemma_pair_names(g.pairs[m - at - 1]);
    }
    assert(in_deps(ls, at + 1));
    assert forall|m: int| 0 <= m < ls.len() implies (#[trigger] is_entry(ls, name, m) <==> at + 1
        <= m < at + 1 + np && g.pairs[m - at - 1].0 == name) by {
        if m < at {
            lemma_no_deps(ls, m);
        } else if m > at && m < at + 1 + np {
            lemma_same_section(ls, at + 1, m);
            assert(ls[m] == pair_line(g.pairs[m - at - 1]));
            lemma_pair_names(g.pairs[m - at - 1]);
        } else if m > at {
            lemma_no_entry_behind(gs, h, n, name, m);
        }
    }
}

proof fn lemma_no_section_before(gs: Seq<Group>, h: int, n: int, m: int)
    requires
        plain_doc(gs),
        0 <= n <= h < gs.len(),
        gs[h].heading == Heading::Section("dependencies"@),
        0 <= m < doc_lines(gs, n).len(),
    ensures
        !(is_deps_heading(doc_lines(gs, n)[m]) && is_heading(doc_lines(gs, n)[m])),
    decreases n,
{
    let a = doc_lines(gs, n - 1);
    let g = gs[n - 1];
    assert(compatible(g, gs[h], true));
    if m < a.len() {
        lemma_no_section_before(gs, h, n - 1, m);
        assert(doc_lines(gs, n)[m] == a[m]);
    } else {
        assert(doc_lines(gs, n)[m] == group_lines(g)[m - a.len()]);
        lemma_group_opens_no_section(g, m - a.len());
    }
}

proof fn lemma_first_heading(ls: Seq<Seq<char>>, at: int, n: int)
    requires
        0 <= at < n <= ls.len(),
        is_deps_heading(ls[at]),
        is_heading(ls[at]),
        forall|m: int| 0 <= m < at ==> !(is_deps_heading(#[trigger] ls[m]) && is_heading(ls[m])),
    ensures
        deps_heading(ls, n) == Some(at),
    decreases n,
{
    if n - 1 > at {
        lemma_first_heading(ls, at, n - 1);
    } else {
        lemma_deps_heading(ls, at);
    }
}

proof fn lemma_no_entry_behind(gs: Seq<Group>, h: int, n: int, name: Seq<char>, m: int)
    requires
        plain_doc(gs),
        0 <= h < n <= gs.len(),
        gs[h].heading == Heading::Section("dependencies"@),
        doc_lines(gs, h + 1).len() <= m < doc_lines(gs, n).len(),
    ensures
        !is_entry(doc_lines(gs, gs.len() as int), name, m),
    decreases n,
{
    if n > h + 1 {
        let k = n - 1;
        let a = doc_lines(gs, k).len() as int;
        if m < a {
            lemma_no_entry_behind(gs, h, k, name, m);
        } else {
            let g = gs[k];
            assert(compatible(gs[h], g, true));
            assert(compatible(g, gs[h], false));
            lemma_doc_part(gs, k, gs.len() as int);
            lemma_group_holds_no_entry(doc_lines(gs, gs.len() as int), a, g, name);
        }
    }
}

/// The position of `key` among the pairs.
pub open spec fn key_index(ps: Seq<(Seq<char>, Plain)>, key: Seq<char>) -> Option<int>
    decreases ps.len(),
{
    if ps.len() == 0 {
        None
    } else if ps.last().0 == key {
        Some(ps.len() - 1)
    } else {
        key_index(ps.drop_last(), key)
    }
}

/// The pairs with `key = v`: in place of the one it has, else in front.
pub open spec fn with_pair(ps: Seq<(Seq<char>, Plain)>, key: Seq<char>, v: Plain) -> Seq<
    (Seq<char>, Plain),
> {
    match key_index(ps, key) {
        Some(j) => ps.update(j, (key, v)),
        None => seq![(key, v)] + ps,
    }
}

/// The position of the dependency section.
pub open spec fn deps_index(gs: Seq<Group>) -> Option<int>
    decreases gs.len(),
{
    if gs.len() == 0 {
        None
    } else if gs.last().heading == Heading::Section("dependencies"@) {
        Some(gs.len() - 1)
    } else {
        deps_index(gs.drop_last())
    }
}

/// The last line of the document holds something.
pub open spec fn ends_in_text(text: Seq<char>) -> bool {
    lines(text).len() > 0 && trim(lines(text).last()).len() > 0
}

/// The document with an entry for `name` in its dependency section, which is
/// opened at the end where there is none.
pub open spec fn doc_with(gs: Seq<Group>, name: Seq<char>, d: Dep) -> Seq<Group> {
    match deps_index(gs) {
        Some(h) => gs.update(
            h,
            Group { pairs: with_pair(gs[h].pairs, name, dep_plain(d)), ..gs[h] },
        ),
        None => gs.push(
            Group {
                lead: if ends_in_text(doc_text(gs, gs.len() as int)) {
                    "\n"@
                } else {
                    Seq::empty()
                },
                heading: Heading::Section("dependencies"@),
                pairs: seq![(name, dep_plain(d))],
            },
        ),
    }
}

proof fn lemma_key_index(ps: Seq<(Seq<char>, Plain)>, key: Seq<char>)
    ensures
        key_index(ps, key) matches Some(j) ==> 0 <= j < ps.len() && ps[j].0 == key,
        key_index(ps, key) is None ==> forall|j: int| 0 <= j < ps.len() ==> (#[trigger] ps[j]).0 != key,
    decreases ps.len(),
{
    if ps.len() > 0 {
        let t = ps.drop_last();
        lemma_key_index(t, key);
        if key_index(ps, key) is None {
            assert forall|j: int| 0 <= j < ps.len() implies (#[trigger] ps[j]).0 != key by {
                if j < t.len() {
                    assert(t[j] == ps[j]);
                }
            }
        }
    }
}

proof fn lemma_deps_index(gs: Seq<Group>)
    ensures
        deps_index(gs) matches Some(h) ==> 0 <= h < gs.len() && gs[h].heading == Heading::Section(
            "dependencies"@,
        ),
        deps_index(gs) is None ==> forall|i: int|
            0 <= i < gs.len() ==> (#[trigger] gs[i]).heading != Heading::Section("dependencies"@),
    decreases gs.len(),
{
    if gs.len() > 0 {
        let t = gs.drop_last();
        lemma_deps_index(t);
        if deps_index(gs) is None {
            assert forall|i: int| 0 <= i < gs.len() implies (#[trigger] gs[i]).heading
                != Heading::Section("dependencies"@) by {
                if i < t.len() {
                    assert(t[i] == gs[i]);
                }
            }
        }
    }
}

proof fn lemma_doc_update(gs: Seq<Group>, h: int, g: Group, n: int)
    requires
        0 <= h < gs.len(),
        0 <= n <= gs.len(),
    ensures
        n <= h ==> doc_lines(gs.update(h, g), n) == doc_lines(gs, n),
        n > h ==> doc_lines(gs.update(h, g), n) == doc_lines(gs, h) + group_lines(g) + doc_lines(
            gs,
            n,
        ).skip(doc_lines(gs, h + 1).len() as int),
    decreases n,
{
    let us = gs.update(h, g);
    if n > 0 {
        lemma_doc_update(gs, h, g, n - 1);
        if n - 1 == h {
            let l = doc_lines(gs, h + 1);
            assert(l.skip(l.len() as int) =~= Seq::<Seq<char>>::empty());
            assert(doc_lines(us, n) =~= doc_lines(gs, h) + group_lines(g) + l.skip(l.len() as int));
        } else if n - 1 > h {
            lemma_doc_part(gs, h, n - 1);
            let k = doc_lines(gs, h + 1).len() as int;
            let m = doc_lines(gs, n - 1);
            assert(k == doc_lines(gs, h).len() + group_lines(gs[h]).len());
            assert((m + group_lines(gs[n - 1])).skip(k) =~= m.skip(k) + group_lines(gs[n - 1]));
            assert(doc_lines(us, n) =~= doc_lines(gs, h) + group_lines(g) + doc_lines(gs, n).skip(k));
        }
    }
}

proof fn lemma_doc_push(gs: Seq<Group>, g: Group, n: int)
    requires
        0 <= n <= gs.len(),
    ensures
        doc_lines(gs.push(g), n) == doc_lines(gs, n),
        n == gs.len() ==> doc_lines(gs.push(g), n + 1) == doc_lines(gs, n) + group_lines(g),
    decreases n,
{
    if n > 0 {
        lemma_doc_push(gs, g, n - 1);
    }
}

proof fn lemma_splice(
    a: Seq<Seq<char>>,
    lead: Seq<Seq<char>>,
    head: Seq<Seq<char>>,
    ps: Seq<Seq<char>>,
    tail: Seq<Seq<char>>,
    j: int,
    x: Seq<char>,
)
    ensures
        0 <= j < ps.len() ==> (a + (lead + head + ps) + tail).update(
            a.len() + lead.len() + head.len() + j,
            x,
        ) == a + (lead + head + ps.update(j, x)) + tail,
        (a + (lead + head + ps) + tail).insert((a.len() + lead.len() + head.len()) as int, x) == a
            + (lead + head + (seq![x] + ps)) + tail,
{
    if 0 <= j < ps.len() {
        assert((a + (lead + head + ps) + tail).update(
            a.len() + lead.len() + head.len() + j,
            x,
        ) =~= a + (lead + head + ps.update(j, x)) + tail);
    }
    assert((a + (lead + head + ps) + tail).insert((a.len() + lead.len() + head.len()) as int, x)
        =~= a + (lead + head + (seq![x] + ps)) + tail);
}

proof fn lemma_cut(ls: Seq<Seq<char>>, a: Seq<Seq<char>>, g: Seq<Seq<char>>)
    requires
        a.len() + g.len() <= ls.len(),
        ls.take(a.len() as int) == a,
        ls.subrange(a.len() as int, (a.len() + g.len()) as int) == g,
    ensures
        ls == a + g + ls.skip((a.len() + g.len()) as int),
{
    assert(ls =~= ls.take(a.len() as int) + ls.subrange(
        a.len() as int,
        (a.len() + g.len()) as int,
    ) + ls.skip((a.len() + g.len()) as int));
}

proof fn lemma_edited_section(gs: Seq<Group>, h: int, name: Seq<char>, d: Dep)
    requires
        plain_doc(gs),
        valid_name(name),
        deps_index(gs) == Some(h),
    ensures
        edited(doc_lines(gs, gs.len() as int), name, entry_line(name, d)) == doc_lines(
            doc_with(gs, name, d),
            gs.len() as int,
        ),
{
    let n = gs.len() as int;
    let ls = doc_lines(gs, n);
    let len = ls.len() as int;
    let entry = entry_line(name, d);
    let dp = dep_plain(d);
    lemma_deps_index(gs);
    let g = gs[h];
    let a = doc_lines(gs, h);
    let lead = lead_lines(g.lead);
    let head = heading_lines(g.heading);
    let ps = pair_lines(g.pairs);
    let at = (a.len() + lead.len()) as int;
    let u = Group { pairs: with_pair(g.pairs, name, dp), ..g };
    let e = (a.len() + group_lines(g).len()) as int;
    let tail = ls.skip(e);
    assert(entry == pair_line((name, dp)));
    assert(head.len() == 1);
    lemma_section_entries(gs, h, name);
    lemma_key_index(g.pairs, name);
    lemma_doc_update(gs, h, u, n);
    lemma_doc_part(gs, h, n);
    lemma_cut(ls, a, group_lines(g));
    assert(doc_lines(gs, h + 1).len() == e);
    lemma_last_entry(ls, name, len);
    match key_index(g.pairs, name) {
        Some(j) => {
            let m = at + 1 + j;
            assert(is_entry(ls, name, m));
            assert(plain_group(g));
            assert forall|x: int| m < x < len implies !#[trigger] is_entry(ls, name, x) by {
                if x < at + 1 + g.pairs.len() {
                    assert(g.pairs[j].0 != g.pairs[x - at - 1].0);
                }
            }
            lemma_last_entry_is(ls, name, len, m);
            assert(pair_lines(u.pairs) =~= ps.update(j, entry));
            lemma_splice(a, lead, head, ps, tail, j, entry);
        },
        None => {
            match last_entry(ls, name, len) {
                Some(m) => {
                    assert(is_entry(ls, name, m));
                    assert(g.pairs[m - at - 1].0 == name);
                },
                None => {},
            }
            assert(pair_lines(u.pairs) =~= seq![entry] + ps);
            lemma_splice(a, lead, head, ps, tail, 0, entry);
        },
    }
}

proof fn lemma_opened_section(gs: Seq<Group>, name: Seq<char>, d: Dep)
    requires
        plain_doc(gs),
        valid_name(name),
        deps_index(gs) is None,
        lines(doc_text(gs, gs.len() as int)) == doc_lines(gs, gs.len() as int),
    ensures
        edited(doc_lines(gs, gs.len() as int), name, entry_line(name, d)) == doc_lines(
            doc_with(gs, name, d),
            gs.len() as int + 1,
        ),
{
    let n = gs.len() as int;
    let ls = doc_lines(gs, n);
    let len = ls.len() as int;
    let entry = entry_line(name, d);
    lemma_deps_index(gs);
    lemma_last_entry(ls, name, len);
    let x = doc_with(gs, name, d).last();
    assert(doc_with(gs, name, d) == gs.push(x));
    lemma_doc_push(gs, x, n);
    assert forall|m: int| 0 <= m < len implies !(is_deps_heading(#[trigger] ls[m]) && is_heading(
        ls[m],
    )) by {
        lemma_no_section_in(gs, n, m);
    }
    lemma_deps_heading(ls, len);
    assert forall|m: int| 0 <= m < len implies !#[trigger] is_entry(ls, name, m) by {
        lemma_no_deps(ls, m);
    }
    reveal_strlit("\n");
    reveal_strlit("[");
    reveal_strlit("]");
    reveal_strlit("dependencies");
    reveal_strlit("[dependencies]");
    let title = "["@ + "dependencies"@ + "]"@;
    assert(title =~= "[dependencies]"@);
    assert("\n"@.drop_last() =~= Seq::<char>::empty());
    assert(pair_lines(x.pairs) =~= seq![entry]);
    assert(group_lines(x) =~= lead_lines(x.lead) + seq![title] + seq![entry]);
    assert(spaced(ls) =~= ls + lead_lines(x.lead));
    assert(spaced(ls).push("[dependencies]"@).push(entry) =~= ls + group_lines(x));
}

/// Editing a document in plain form is editing its dependency section.
proof fn lemma_edited_doc(gs: Seq<Group>, name: Seq<char>, d: Dep)
    requires
        plain_doc(gs),
        valid_name(name),
    ensures
        edited(
            doc_lines(gs, gs.len() as int),
            name,
            entry_line(name, d),
        ) == doc_lines(doc_with(gs, name, d), doc_with(gs, name, d).len() as int),
        lines(doc_text(gs, gs.len() as int)) == doc_lines(gs, gs.len() as int),
{
    lemma_doc_lines(gs, gs.len() as int);
    lemma_lines_of_ended(doc_lines(gs, gs.len() as int));
    lemma_deps_index(gs);
    match deps_index(gs) {
        Some(h) => {
            lemma_edited_section(gs, h, name, d);
        },
        None => {
            lemma_opened_section(gs, name, d);
        },
    }
}

proof fn lemma_no_section_in(gs: Seq<Group>, n: int, m: int)
    requires
        plain_doc(gs),
        0 <= n <= gs.len(),
        forall|i: int|
            0 <= i < gs.len() ==> (#[trigger] gs[i]).heading != Heading::Section("dependencies"@),
        0 <= m < doc_lines(gs, n).len(),
    ensures
        !(is_deps_heading(doc_lines(gs, n)[m]) && is_heading(doc_lines(gs, n)[m])),
    decreases n,
{
    let a = doc_lines(gs, n - 1);
    let g = gs[n - 1];
    if m < a.len() {
        lemma_no_section_in(gs, n - 1, m);
        assert(doc_lines(gs, n)[m] == a[m]);
    } else {
        assert(doc_lines(gs, n)[m] == group_lines(g)[m - a.len()]);
        lemma_group_opens_no_section(g, m - a.len());
    }
}

/// Nothing but a section is called `dependencies`, so that an entry can be
/// added to it.
pub open spec fn takes_entries(gs: Seq<Group>) -> bool {
    forall|i: int|
        0 <= i < gs.len() ==> match (#[trigger] gs[i]).heading {
            Heading::Top => plain_get(gs[i].pairs, "dependencies"@) is None,
            Heading::Section(_) => true,
            Heading::Element(n) => n != "dependencies"@,
        }
}

proof fn lemma_with_pair(ps: Seq<(Seq<char>, Plain)>, key: Seq<char>, v: Plain)
    requires
        bare_key(key),
        plain_value(v),
        forall|i: int|
            0 <= i < ps.len() ==> bare_key((#[trigger] ps[i]).0) && plain_value(ps[i].1),
        forall|i: int, j: int|
            0 <= i < j < ps.len() ==> (#[trigger] ps[i]).0 != (#[trigger] ps[j]).0,
    ensures
        ({
            let r = with_pair(ps, key, v);
            &&& forall|i: int|
                0 <= i < r.len() ==> bare_key((#[trigger] r[i]).0) && plain_value(r[i].1)
            &&& forall|i: int, j: int|
                0 <= i < j < r.len() ==> (#[trigger] r[i]).0 != (#[trigger] r[j]).0
            &&& forall|k: Seq<char>| #[trigger]
                plain_get(r, k) == if k == key {
                    Some(v)
                } else {
                    plain_get(ps, k)
                }
        }),
{
    let r = with_pair(ps, key, v);
    lemma_key_index(ps, key);
    match key_index(ps, key) {
        Some(j) => {
            assert forall|i: int| 0 <= i < r.len() implies bare_key((#[trigger] r[i]).0)
                && plain_value(r[i].1) by {
                if i != j {
                    assert(r[i] == ps[i]);
                }
            }
            assert forall|a: int, b: int| 0 <= a < b < r.len() implies (#[trigger] r[a]).0 != (
            #[trigger] r[b]).0 by {
                assert(r[a].0 == ps[a].0 && r[b].0 == ps[b].0);
            }
            assert forall|k: Seq<char>| #[trigger] plain_get(r, k) == if k == key {
                Some(v)
            } else {
                plain_get(ps, k)
            } by {
                lemma_plain_get_update(ps, j, v, ps.len() as int, k);
                assert(r.take(ps.len() as int) =~= r);
                assert(ps.take(ps.len() as int) =~= ps);
            }
        },
        None => {
            assert forall|i: int| 0 <= i < r.len() implies bare_key((#[trigger] r[i]).0)
                && plain_value(r[i].1) by {
                if i > 0 {
                    assert(r[i] == ps[i - 1]);
                }
            }
            assert forall|a: int, b: int| 0 <= a < b < r.len() implies (#[trigger] r[a]).0 != (
            #[trigger] r[b]).0 by {
                assert(r[b] == ps[b - 1]);
                if a > 0 {
                    assert(r[a] == ps[a - 1]);
                }
            }
            assert forall|k: Seq<char>| #[trigger] plain_get(r, k) == if k == key {
                Some(v)
            } else {
                plain_get(ps, k)
            } by {
                lemma_plain_get_front(ps, key, v, k);
            }
        },
    }
}

proof fn lemma_plain_get_update(
    ps: Seq<(Seq<char>, Plain)>,
    j: int,
    v: Plain,
    n: int,
    k: Seq<char>,
)
    requires
        0 <= j < ps.len(),
        0 <= n <= ps.len(),
        forall|a: int, b: int|
            0 <= a < b < ps.len() ==> (#[trigger] ps[a]).0 != (#[trigger] ps[b]).0,
    ensures
        plain_get(ps.update(j, (ps[j].0, v)).take(n), k) == if k == ps[j].0 && j < n {
            Some(v)
        } else {
            plain_get(ps.take(n), k)
        },
    decreases n,
{
    let r = ps.update(j, (ps[j].0, v));
    if n > 0 {
        lemma_plain_get_update(ps, j, v, n - 1, k);
        assert(r.take(n).drop_last() =~= r.take(n - 1));
        assert(ps.take(n).drop_last() =~= ps.take(n - 1));
        assert(r.take(n).last() == r[n - 1]);
        assert(ps.take(n).last() == ps[n - 1]);
        if n - 1 > j {
            assert(ps[j].0 != ps[n - 1].0);
        }
    }
}

proof fn lemma_plain_get_front(
    ps: Seq<(Seq<char>, Plain)>,
    key: Seq<char>,
    v: Plain,
    k: Seq<char>,
)
    requires
        forall|j: int| 0 <= j < ps.len() ==> (#[trigger] ps[j]).0 != key,
    ensures
        plain_get(seq![(key, v)] + ps, k) == if k == key {
            Some(v)
        } else {
            plain_get(ps, k)
        },
    decreases ps.len(),
{
    let r = seq![(key, v)] + ps;
    if ps.len() > 0 {
        let t = ps.drop_last();
        assert forall|j: int| 0 <= j < t.len() implies (#[trigger] t[j]).0 != key by {
            assert(t[j] == ps[j]);
        }
        lemma_plain_get_front(t, key, v, k);
        assert(r.drop_last() =~= seq![(key, v)] + t);
        assert(r.last() == ps.last());
        assert(ps[ps.len() - 1].0 != key);
    } else {
        assert(r.drop_last() =~= Seq::<(Seq<char>, Plain)>::empty());
        reveal_with_fuel(plain_get, 2);
    }
}

/// The edited document is in plain form again, and its text is the edited text.
pub(crate) proof fn lemma_doc_with_plain(gs: Seq<Group>, name: Seq<char>, d: Dep)
    requires
        plain_doc(gs),
        takes_entries(gs),
        valid_name(name),
        writable_dep(d),
    ensures
        plain_doc(doc_with(gs, name, d)),
        with_entry(doc_text(gs, gs.len() as int), name, d) == doc_text(
            doc_with(gs, name, d),
            doc_with(gs, name, d).len() as int,
        ),
{
    let us = doc_with(gs, name, d);
    let dp = dep_plain(d);
    reveal_strlit("dependencies");
    assert(bare_key("dependencies"@));
    lemma_valid_name_plain(name);
    lemma_dep_plain(d);
    lemma_deps_index(gs);
    match deps_index(gs) {
        Some(h) => {
            assert(plain_group(gs[h]));
            lemma_with_pair(gs[h].pairs, name, dp);
            assert forall|i: int| 0 <= i < us.len() implies plain_group(#[trigger] us[i]) by {
                assert(plain_group(gs[i]));
            }
            assert forall|i: int, j: int|
                0 <= i < us.len() && 0 <= j < us.len() && i != j implies compatible(
                #[trigger] us[i],
                #[trigger] us[j],
                i < j,
            ) by {
                assert(compatible(gs[i], gs[j], i < j));
            }
        },
        None => {
            let x = us.last();
            assert(us =~= gs.push(x));
            assert(plain_group(x));
            assert forall|i: int| 0 <= i < us.len() implies plain_group(#[trigger] us[i]) by {
                if i < gs.len() {
                    assert(us[i] == gs[i]);
                    assert(plain_group(gs[i]));
                }
            }
            assert forall|i: int, j: int|
                0 <= i < us.len() && 0 <= j < us.len() && i != j implies compatible(
                #[trigger] us[i],
                #[trigger] us[j],
                i < j,
            ) by {
                if i < gs.len() && j < gs.len() {
                    assert(us[i] == gs[i] && us[j] == gs[j]);
                    assert(compatible(gs[i], gs[j], i < j));
                } else if i < gs.len() {
                    assert(us[i] == gs[i]);
                } else {
                    assert(us[j] == gs[j]);
                }
            }
        },
    }
    lemma_edited_doc(gs, name, d);
    lemma_doc_lines(us, us.len() as int);
    let ls = doc_lines(us, us.len() as int);
    law_entry_line_names_its_dependency(name, d);
    let at = lemma_edited_position(
        lines(doc_text(gs, gs.len() as int)),
        name,
        entry_line(name, d),
    );
    lemma_lines_of_text(ls);
}

// ---------------------------------------------------------------------------
// Reading them
// ---------------------------------------------------------------------------

/// Ascending tables that give the same for every key are the same.
proof fn lemma_table_determined(a: Seq<(Seq<char>, Tree)>, b: Seq<(Seq<char>, Tree)>)
    requires
        ascending(keys(a)),
        ascending(keys(b)),
        forall|k: Seq<char>| #[trigger] get(a, k) == get(b, k),
    ensures
        a == b,
{
    lemma_get_entry(a);
    lemma_get_entry(b);
    assert forall|k: Seq<char>| keys(a).contains(k) <==> keys(b).contains(k) by {
        assert(get(a, k) is Some <==> get(b, k) is Some);
    }
    assert(keys(a).to_set() =~= keys(b).to_set());
    lemma_ascending_unique(keys(a), keys(b));
    assert(a.len() == keys(a).len() && b.len() == keys(b).len());
    assert forall|i: int| 0 <= i < a.len() implies a[i] == b[i] by {
        assert(keys(a)[i] == keys(b)[i]);
        assert(get(a, a[i].0) == Some(a[i].1));
        assert(get(b, b[i].0) == Some(b[i].1));
    }
    assert(a =~= b);
}

/// A plain value is read in one way only.
proof fn lemma_value_determined(x: Tree, y: Tree, p: Plain)
    requires
        holds_plain(x, p),
        holds_plain(y, p),
    ensures
        x == y,
{
    match p {
        Plain::Text(_) => {},
        Plain::Inline(ps) => {
            let a = x->Table_0;
            let b = y->Table_0;
            assert forall|k: Seq<char>| #[trigger] get(a, k) == get(b, k) by {}
            lemma_table_determined(a, b);
        },
    }
}

proof fn lemma_pairs_determined(x: Tree, y: Tree, ps: Seq<(Seq<char>, Plain)>)
    requires
        holds_pairs(x, ps),
        holds_pairs(y, ps),
    ensures
        x == y,
{
    let a = x->Table_0;
    let b = y->Table_0;
    assert forall|k: Seq<char>| #[trigger] get(a, k) == get(b, k) by {
        match plain_get(ps, k) {
            Some(p) => {
                lemma_value_determined(get(a, k)->0, get(b, k)->0, p);
            },
            None => {},
        }
    }
    lemma_table_determined(a, b);
}

/// What documents with the same pairs under `k` hold there is the same.
proof fn lemma_key_determined(
    x: Option<Tree>,
    y: Option<Tree>,
    gs: Seq<Group>,
    us: Seq<Group>,
    k: Seq<char>,
)
    requires
        holds_key(x, gs, k),
        holds_key(y, us, k),
        section(gs, k) == section(us, k),
        elements(gs, k) == elements(us, k),
        top(gs, k) == top(us, k),
    ensures
        x == y,
{
    match section(gs, k) {
        Some(ps) => {
            lemma_pairs_determined(x->0, y->0, ps);
        },
        None => {
            if elements(gs, k).len() > 0 {
                let a = x->0->List_0;
                let b = y->0->List_0;
                assert forall|i: int| 0 <= i < a.len() implies a[i] == b[i] by {
                    lemma_pairs_determined(a[i], b[i], elements(gs, k)[i]);
                }
                assert(a =~= b);
            } else {
                match top(gs, k) {
                    Some(p) => {
                        lemma_value_determined(x->0, y->0, p);
                    },
                    None => {},
                }
            }
        },
    }
}

proof fn lemma_section_found(gs: Seq<Group>)
    ensures
        section(gs, "dependencies"@) == match deps_index(gs) {
            Some(h) => Some(gs[h].pairs),
            None => None,
        },
    decreases gs.len(),
{
    if gs.len() > 0 {
        lemma_section_found(gs.drop_last());
        lemma_deps_index(gs.drop_last());
    }
}

/// A group of the dependency section says nothing about other keys.
proof fn lemma_other_keys(gs: Seq<Group>, h: int, g: Group, n: int, k: Seq<char>)
    requires
        0 <= h < gs.len(),
        gs[h].heading == Heading::Section("dependencies"@),
        g.heading == gs[h].heading,
        0 <= n <= gs.len(),
        k != "dependencies"@,
    ensures
        section(gs.update(h, g).take(n), k) == section(gs.take(n), k),
        elements(gs.update(h, g).take(n), k) == elements(gs.take(n), k),
        top(gs.update(h, g).take(n), k) == top(gs.take(n), k),
    decreases n,
{
    let us = gs.update(h, g);
    if n > 0 {
        lemma_other_keys(gs, h, g, n - 1, k);
        assert(us.take(n).drop_last() =~= us.take(n - 1));
        assert(gs.take(n).drop_last() =~= gs.take(n - 1));
        assert(us.take(n).last() == us[n - 1]);
        assert(gs.take(n).last() == gs[n - 1]);
    } else {
        assert(us.take(0) =~= gs.take(0));
    }
}

/// An edit leaves what a document says under other keys alone, and what it says
/// of dependencies is what it said, with the entry.
proof fn lemma_doc_with_keys(gs: Seq<Group>, name: Seq<char>, d: Dep)
    requires
        takes_entries(gs),
    ensures
        forall|k: Seq<char>|
            #![trigger section(gs, k)]
            k != "dependencies"@ ==> section(doc_with(gs, name, d), k) == section(gs, k)
                && elements(doc_with(gs, name, d), k) == elements(gs, k) && top(
                doc_with(gs, name, d),
                k,
            ) == top(gs, k),
        section(doc_with(gs, name, d), "dependencies"@) == Some(
            match section(gs, "dependencies"@) {
                Some(ps) => with_pair(ps, name, dep_plain(d)),
                None => seq![(name, dep_plain(d))],
            },
        ),
        section(gs, "dependencies"@) is None ==> elements(gs, "dependencies"@).len() == 0 && top(
            gs,
            "dependencies"@,
        ) is None,
{
    let us = doc_with(gs, name, d);
    lemma_deps_index(gs);
    lemma_section_found(gs);
    lemma_nothing_else(gs);
    match deps_index(gs) {
        Some(h) => {
            let g = us[h];
            assert forall|k: Seq<char>|
                #![trigger section(gs, k)]
                k != "dependencies"@ implies section(us, k) == section(gs, k) && elements(us, k)
                == elements(gs, k) && top(us, k) == top(gs, k) by {
                lemma_other_keys(gs, h, g, gs.len() as int, k);
                assert(us.take(gs.len() as int) =~= us);
                assert(gs.take(gs.len() as int) =~= gs);
            }
            lemma_section_found(us);
            lemma_deps_index_update(gs, h, g);
        },
        None => {
            assert(us.drop_last() =~= gs);
            assert forall|k: Seq<char>|
                #![trigger section(gs, k)]
                k != "dependencies"@ implies section(us, k) == section(gs, k) && elements(us, k)
                == elements(gs, k) && top(us, k) == top(gs, k) by {}
        },
    }
}

proof fn lemma_deps_index_update(gs: Seq<Group>, h: int, g: Group)
    requires
        deps_index(gs) == Some(h),
        0 <= h < gs.len(),
        g.heading == gs[h].heading,
    ensures
        deps_index(gs.update(h, g)) == Some(h),
    decreases gs.len(),
{
    let us = gs.update(h, g);
    if gs.last().heading != Heading::Section("dependencies"@) {
        lemma_deps_index(gs.drop_last());
        lemma_deps_index_update(gs.drop_last(), h, g);
        assert(us.drop_last() =~= gs.drop_last().update(h, g));
    }
}

proof fn lemma_nothing_else(gs: Seq<Group>)
    requires
        takes_entries(gs),
    ensures
        elements(gs, "dependencies"@).len() == 0,
        top(gs, "dependencies"@) is None,
    decreases gs.len(),
{
    if gs.len() > 0 {
        let t = gs.drop_last();
        assert forall|i: int| 0 <= i < t.len() implies match (#[trigger] t[i]).heading {
            Heading::Top => plain_get(t[i].pairs, "dependencies"@) is None,
            Heading::Section(_) => true,
            Heading::Element(n) => n != "dependencies"@,
        } by {
            assert(t[i] == gs[i]);
        }
        lemma_nothing_else(t);
        assert(gs.last() == gs[gs.len() - 1]);
    }
}

/// The dependency that entry `i` of a table describes.
spec fn dep_at(t: Seq<(Seq<char>, Tree)>, i: int) -> Result<Dep, Seq<char>> {
    dep_of(t[i].0, t[i].1)
}

spec fn dep_of(name: Seq<char>, v: Tree) -> Result<Dep, Seq<char>> {
    dependency(name, v, valid_req(requested(v)))
}

/// The entries of a table are read one by one.
proof fn lemma_deps_read(t: Seq<(Seq<char>, Tree)>, n: int)
    requires
        0 <= n <= t.len(),
    ensures
        dependencies(t, validity(t), n) is Ok <==> forall|i: int|
            0 <= i < n ==> (#[trigger] dep_at(t, i)) is Ok,
        dependencies(t, validity(t), n) matches Ok(ds) ==> ascending(pair_keys(ds)) && forall|
            k: Seq<char>,
        | #[trigger]
            pair_get(ds, k) == match pair_get(t.take(n), k) {
                Some(x) => Some(dep_of(k, x)->Ok_0),
                None => None,
            },
    decreases n,
{
    if n > 0 {
        lemma_deps_read(t, n - 1);
        let x = t[n - 1];
        assert(validity(t)[n - 1] == valid_req(requested(x.1)));
        assert(t.take(n).drop_last() =~= t.take(n - 1));
        assert(t.take(n).last() == x);
        match dependencies(t, validity(t), n - 1) {
            Ok(done) => {
                match dep_at(t, n - 1) {
                    Ok(d) => {
                        lemma_put_ascending(done, x.0, d);
                        let ds = put(done, x.0, d);
                        assert forall|k: Seq<char>| #[trigger] pair_get(ds, k) == match pair_get(
                            t.take(n),
                            k,
                        ) {
                            Some(y) => Some(dep_of(k, y)->Ok_0),
                            None => None,
                        } by {
                            lemma_put_get(done, x.0, d, k);
                            assert(pair_get(done, k) == match pair_get(t.take(n - 1), k) {
                                Some(y) => Some(dep_of(k, y)->Ok_0),
                                None => None::<Dep>,
                            });
                        }
                    },
                    Err(_) => {},
                }
            },
            Err(_) => {
                let i = choose|i: int| 0 <= i < n - 1 && !((#[trigger] dep_at(t, i)) is Ok);
                assert(!(dep_at(t, i) is Ok));
            },
        }
    } else {
        assert(t.take(0) =~= Seq::<(Seq<char>, Tree)>::empty());
        assert(ascending(pair_keys(Seq::<(Seq<char>, Dep)>::empty())));
    }
}

/// From the front or from the back, an ascending table gives the same.
proof fn lemma_get_is_pair_get(t: Seq<(Seq<char>, Tree)>, k: Seq<char>)
    requires
        ascending(keys(t)),
    ensures
        get(t, k) == pair_get(t, k),
{
    lemma_get_entry(t);
    lemma_pair_listed(t, k);
    match pair_get(t, k) {
        Some(x) => {
            let j = choose|j: int| 0 <= j < t.len() && t[j] == (k, x);
            assert(get(t, t[j].0) == Some(t[j].1));
        },
        None => {
            if get(t, k) is Some {
                let j = choose|j: int| 0 <= j < keys(t).len() && keys(t)[j] == k;
                assert(t[j].0 == k);
            }
        },
    }
}

proof fn lemma_pair_listed<V>(s: Seq<(Seq<char>, V)>, k: Seq<char>)
    ensures
        pair_get(s, k) matches Some(v) ==> s.contains((k, v)),
        pair_get(s, k) is None ==> forall|j: int| 0 <= j < s.len() ==> (#[trigger] s[j]).0 != k,
    decreases s.len(),
{
    if s.len() > 0 {
        let t = s.drop_last();
        lemma_pair_listed(t, k);
        if s.last().0 == k {
            assert(s[s.len() - 1] == (k, s.last().1));
        } else {
            match pair_get(t, k) {
                Some(v) => {
                    let j = choose|j: int| 0 <= j < t.len() && t[j] == (k, v);
                    assert(s[j] == (k, v));
                },
                None => {
                    assert forall|j: int| 0 <= j < s.len() implies (#[trigger] s[j]).0 != k by {
                        if j < t.len() {
                            assert(t[j] == s[j]);
                        }
                    }
                },
            }
        }
    }
}

/// Ascending lists that give the same for every key are the same.
proof fn lemma_list_determined<V>(a: Seq<(Seq<char>, V)>, b: Seq<(Seq<char>, V)>)
    requires
        ascending(pair_keys(a)),
        ascending(pair_keys(b)),
        forall|k: Seq<char>| #[trigger] pair_get(a, k) == pair_get(b, k),
    ensures
        a == b,
{
    let x = pair_keys(a);
    let y = pair_keys(b);
    assert forall|k: Seq<char>| x.contains(k) <==> y.contains(k) by {
        assert(pair_get(a, k) == pair_get(b, k));
        lemma_pair_listed(a, k);
        lemma_pair_listed(b, k);
        match pair_get(a, k) {
            Some(v) => {
                let i = choose|i: int| 0 <= i < a.len() && a[i] == (k, v);
                let j = choose|j: int| 0 <= j < b.len() && b[j] == (k, v);
                assert(x[i] == k && y[j] == k);
            },
            None => {
                if x.contains(k) {
                    let i = choose|i: int| 0 <= i < x.len() && x[i] == k;
                    assert(a[i].0 == k);
                }
                if y.contains(k) {
                    let j = choose|j: int| 0 <= j < y.len() && y[j] == k;
                    assert(b[j].0 == k);
                }
            },
        }
    }
    assert(x.to_set() =~= y.to_set());
    lemma_ascending_unique(x, y);
    assert(a.len() == x.len() && b.len() == y.len());
    assert forall|i: int| 0 <= i < a.len() implies a[i] == b[i] by {
        assert(x[i] == y[i]);
        lemma_own_value(a, i);
        lemma_own_value(b, i);
        assert(pair_get(a, a[i].0) == pair_get(b, a[i].0));
    }
    assert(a =~= b);
}

proof fn lemma_own_value<V>(s: Seq<(Seq<char>, V)>, i: int)
    requires
        ascending(pair_keys(s)),
        0 <= i < s.len(),
    ensures
        pair_get(s, s[i].0) == Some(s[i].1),
{
    lemma_pair_listed(s, s[i].0);
    let ks = pair_keys(s);
    match pair_get(s, s[i].0) {
        Some(v) => {
            let j = choose|j: int| 0 <= j < s.len() && s[j] == (s[i].0, v);
            if i < j {
                assert(before(ks[i], ks[j]));
                lemma_before_total(ks[i], ks[j]);
            } else if j < i {
                assert(before(ks[j], ks[i]));
                lemma_before_total(ks[j], ks[i]);
            }
        },
        None => {},
    }
}

/// What the dependency tables of the two documents hold.
proof fn lemma_dep_tables(gs: Seq<Group>, name: Seq<char>, d: Dep, v: Tree, w: Tree)
    requires
        plain_doc(gs),
        takes_entries(gs),
        valid_name(name),
        writable_dep(d),
        holds_doc(v, gs),
        holds_doc(w, doc_with(gs, name, d)),
    ensures
        ascending(keys(dep_entries(v))),
        ascending(keys(dep_entries(w))),
        forall|k: Seq<char>|
            k != name ==> #[trigger] get(dep_entries(w), k) == get(dep_entries(v), k),
        get(dep_entries(w), name) matches Some(x) && holds_plain(x, dep_plain(d)),
        get(w->Table_0, "dependencies"@) matches Some(Tree::Table(_)),
{
    let us = doc_with(gs, name, d);
    let t = v->Table_0;
    let u = w->Table_0;
    let key = "dependencies"@;
    lemma_doc_with_keys(gs, name, d);
    lemma_deps_index(gs);
    lemma_section_found(gs);
    assert(holds_key(get(t, key), gs, key));
    assert(holds_key(get(u, key), us, key));
    let e = dep_entries(w);
    let ps = section(us, key)->0;
    assert(holds_pairs(Tree::Table(e), ps));
    match section(gs, key) {
        Some(old) => {
            let h = deps_index(gs)->0;
            assert(plain_group(gs[h]));
            lemma_valid_name_plain(name);
            lemma_dep_plain(d);
            lemma_with_pair(old, name, dep_plain(d));
            let c = dep_entries(v);
            assert(holds_pairs(Tree::Table(c), old));
            assert forall|k: Seq<char>| k != name implies #[trigger] get(e, k) == get(c, k) by {
                assert(plain_get(ps, k) == plain_get(old, k));
                match plain_get(old, k) {
                    Some(p) => {
                        lemma_value_determined(get(e, k)->0, get(c, k)->0, p);
                    },
                    None => {},
                }
            }
            assert(plain_get(ps, name) == Some(dep_plain(d)));
        },
        None => {
            assert(dep_entries(v) =~= Seq::<(Seq<char>, Tree)>::empty());
            reveal_with_fuel(plain_get, 2);
            assert(ps.drop_last() =~= Seq::<(Seq<char>, Plain)>::empty());
            assert(plain_get(ps, name) == Some(dep_plain(d)));
            assert forall|k: Seq<char>| k != name implies #[trigger] get(e, k) == get(
                dep_entries(v),
                k,
            ) by {
                assert(plain_get(ps, k) is None);
            }
        },
    }
}

/// An insertion into a document in plain form changes one dependency: what is
/// read of the edited document is the old manifest with that dependency, added
/// or in place of the one of that name, and everything else as it was.
pub proof fn law_insertion_changes_one_dependency(
    gs: Seq<Group>,
    name: Seq<char>,
    d: Dep,
    v: Tree,
    w: Tree,
)
    requires
        plain_doc(gs),
        takes_entries(gs),
        valid_name(name),
        writable_dep(d),
        holds_doc(v, gs),
        project(v, validity(dep_entries(v))) is Ok,
        holds_doc(w, doc_with(gs, name, d)),
    ensures
        plain_doc(doc_with(gs, name, d)),
        with_entry(doc_text(gs, gs.len() as int), name, d) == doc_text(
            doc_with(gs, name, d),
            doc_with(gs, name, d).len() as int,
        ),
        project(w, validity(dep_entries(w))) == Ok::<Project, Seq<char>>(
            with_dep(project(v, validity(dep_entries(v)))->Ok_0, name, d),
        ),
{
    let us = doc_with(gs, name, d);
    let t = v->Table_0;
    let u = w->Table_0;
    let c = dep_entries(v);
    let e = dep_entries(w);
    let p = project(v, validity(c))->Ok_0;
    lemma_doc_with_plain(gs, name, d);
    lemma_doc_with_keys(gs, name, d);
    lemma_dep_tables(gs, name, d, v, w);
    reveal_strlit("name");
    reveal_strlit("version");
    reveal_strlit("package");
    reveal_strlit("dependencies");
    assert("name"@.len() == 4 && "version"@.len() == 7 && "package"@.len() == 7
        && "dependencies"@.len() == 12);
    assert forall|k: Seq<char>| k != "dependencies"@ implies #[trigger] get(t, k) == get(u, k) by {
        assert(holds_key(get(t, k), gs, k));
        assert(holds_key(get(u, k), us, k));
        lemma_key_determined(get(t, k), get(u, k), gs, us, k);
    }
    assert(get(t, "package"@) == get(u, "package"@));
    assert(get(t, "name"@) == get(u, "name"@));
    assert(get(t, "version"@) == get(u, "version"@));
    assert(identity(u, "name"@) == identity(t, "name"@));
    assert(identity(u, "version"@) == identity(t, "version"@));
    let m = c.len() as int;
    let n = e.len() as int;
    lemma_deps_read(c, m);
    lemma_deps_read(e, n);
    assert(c.take(m) =~= c);
    assert(e.take(n) =~= e);
    lemma_get_entry(c);
    lemma_get_entry(e);
    let x = get(e, name)->0;
    lemma_dep_reads_back(name, d, x);
    assert(dependencies(c, validity(c), m) == Ok::<Seq<(Seq<char>, Dep)>, Seq<char>>(p.deps));
    assert forall|i: int| 0 <= i < n implies (#[trigger] dep_at(e, i)) is Ok by {
        let k = e[i].0;
        assert(get(e, k) == Some(e[i].1));
        if k != name {
            assert(get(c, k) == Some(e[i].1));
            assert(keys(c).contains(k));
            let j = choose|j: int| 0 <= j < keys(c).len() && keys(c)[j] == k;
            assert(get(c, c[j].0) == Some(c[j].1));
            assert(dep_at(c, j) is Ok);
        }
    }
    let ds = dependencies(e, validity(e), n)->Ok_0;
    lemma_put_ascending(p.deps, name, d);
    assert forall|k: Seq<char>| #[trigger] pair_get(ds, k) == pair_get(put(p.deps, name, d), k) by {
        lemma_put_get(p.deps, name, d, k);
        lemma_get_is_pair_get(e, k);
        lemma_get_is_pair_get(c, k);
        assert(pair_get(p.deps, k) == match pair_get(c.take(m), k) {
            Some(y) => Some(dep_of(k, y)->Ok_0),
            None => None::<Dep>,
        });
        if k != name {
            assert(get(e, k) == get(c, k));
        }
    }
    lemma_list_determined(ds, put(p.deps, name, d));
}

// ---------------------------------------------------------------------------
// Inserting again
// ---------------------------------------------------------------------------

/// No string of the manifest holds a line feed.
pub open spec fn single_lines(p: Project) -> bool {
    &&& !p.name.contains('\n')
    &&& !p.version.contains('\n')
    &&& forall|i: int|
        0 <= i < p.deps.len() ==> one_line(entry_line((#[trigger] p.deps[i]).0, p.deps[i].1))
}

/// What is read of a text lists dependencies by valid names, in order.
proof fn lemma_read_deps(text: Seq<char>)
    ensures
        manifest_text(text) matches Ok(p) ==> ascending(pair_keys(p.deps)) && forall|i: int|
            0 <= i < p.deps.len() ==> valid_name((#[trigger] p.deps[i]).0),
{
    match (toml_document(text), manifest_text(text)) {
        (Ok(v), Ok(p)) => {
            let t = dep_entries(v);
            let n = t.len() as int;
            lemma_deps_read(t, n);
            assert(t.take(n) =~= t);
            assert forall|i: int| 0 <= i < p.deps.len() implies valid_name(
                (#[trigger] p.deps[i]).0,
            ) by {
                let k = p.deps[i].0;
                lemma_own_value(p.deps, i);
                assert(pair_get(p.deps, k) is Some);
                assert(pair_get(t.take(n), k) is Some);
                lemma_pair_listed(t, k);
                let x = pair_get(t, k)->0;
                let j = choose|j: int| 0 <= j < t.len() && t[j] == (k, x);
                assert(dep_at(t, j) is Ok);
            }
        },
        _ => {},
    }
}

/// A line with a quoted string is one line where the string is.
proof fn lemma_quoted_line(key: Seq<char>, s: Seq<char>)
    requires
        bare_key(key),
        !s.contains('\n'),
    ensures
        one_line(key + " = "@ + quoted(s)),
{
    reveal_strlit(" = ");
    reveal_strlit("\"");
    let l = key + " = "@ + quoted(s);
    lemma_bare_is_visible(key);
    if l.contains('\n') {
        let i = choose|i: int| 0 <= i < l.len() && l[i] == '\n';
        let a = key.len();
        if i < a {
            assert(key[i] == '\n');
        } else if i >= a + 4 && i < a + 4 + s.len() {
            assert(s[i - a - 4] == '\n');
        }
    }
    assert(l.last() == '"');
}

/// A manifest that is written anew has the entry of each of its dependencies.
proof fn lemma_written_has_entry(p: Project, name: Seq<char>, d: Dep)
    requires
        valid_name(name),
        ascending(pair_keys(p.deps)),
        pair_get(p.deps, name) == Some(d),
        forall|i: int| 0 <= i < p.deps.len() ==> valid_name((#[trigger] p.deps[i]).0),
        single_lines(p),
    ensures
        with_entry(written(p), name, d) == written(p),
{
    reveal_strlit("name");
    reveal_strlit("version");
    reveal_strlit("package");
    reveal_strlit("dependencies");
    reveal_strlit("\n");
    lemma_pair_listed(p.deps, name);
    let j = choose|j: int| 0 <= j < p.deps.len() && p.deps[j] == (name, d);
    let gs = manifest_doc(p);
    let g = package_group(p);
    let h = deps_group(p);
    assert(gs == seq![g, h]);
    let a = group_lines(g);
    let b = group_lines(h);
    let ls = a + b;
    lemma_group_text(g);
    lemma_group_text(h);
    lemma_ended_concat(a, b);
    reveal_with_fuel(doc_text, 3);
    assert(written(p) =~= group_text(g) + group_text(h));
    assert(ended(ls) == written(p));
    // The lines.
    let ps = pair_lines(h.pairs);
    lemma_heading(g.heading);
    lemma_heading(h.heading);
    assert("\n"@.drop_last() =~= Seq::<char>::empty());
    assert(a.len() == 3);
    assert(ls.len() == 5 + ps.len());
    let t0 = heading_lines(g.heading)[0];
    let t1 = heading_lines(h.heading)[0];
    assert(ls[0] == t0);
    assert(ls[1] == "name"@ + " = "@ + quoted(p.name)) by {
        assert(ls[1] == pair_line(g.pairs[0]));
    }
    assert(ls[2] == "version"@ + " = "@ + quoted(p.version)) by {
        assert(ls[2] == pair_line(g.pairs[1]));
    }
    assert(ls[3] == Seq::<char>::empty());
    assert(ls[4] == t1);
    assert forall|i: int| 5 <= i < ls.len() implies #[trigger] ls[i] == entry_line(
        p.deps[i - 5].0,
        p.deps[i - 5].1,
    ) by {
        assert(ls[i] == ps[i - 5]);
    }
    assert(all_one_line(ls)) by {
        assert(bare_key("name"@) && bare_key("version"@));
        lemma_quoted_line("name"@, p.name);
        lemma_quoted_line("version"@, p.version);
        lemma_visible_is_one_line(t0);
        lemma_visible_is_one_line(t1);
        lemma_visible_is_one_line(Seq::empty());
        assert forall|i: int| 0 <= i < ls.len() implies one_line(#[trigger] ls[i]) by {
            if i >= 5 {
                assert(one_line(entry_line(p.deps[i - 5].0, p.deps[i - 5].1)));
            }
        }
    }
    lemma_lines_of_text(ls);
    // The entry.
    let n = ls.len() as int;
    assert forall|i: int| 5 <= i < n implies !is_heading(#[trigger] ls[i]) && line_name(
        trim(ls[i]),
    ) == Some(p.deps[i - 5].0) by {
        law_entry_line_names_its_dependency(p.deps[i - 5].0, p.deps[i - 5].1);
    }
    assert(in_deps(ls, 5));
    assert forall|i: int| 5 <= i < n implies (#[trigger] is_entry(ls, name, i) <==> p.deps[i - 5].0
        == name) by {
        lemma_same_section(ls, 5, i);
        assert(!is_heading(ls[i]));
    }
    let m = 5 + j;
    assert(is_entry(ls, name, m));
    assert forall|i: int| m < i < n implies !#[trigger] is_entry(ls, name, i) by {
        let ks = pair_keys(p.deps);
        assert(before(ks[j], ks[i - 5]));
        lemma_before_total(ks[j], ks[i - 5]);
    }
    lemma_last_entry_is(ls, name, n, m);
    assert(ls.update(m, entry_line(name, d)) =~= ls);
}

/// The lines stay lines when an entry is put among them.
proof fn lemma_edited_one_line(ls: Seq<Seq<char>>, name: Seq<char>, entry: Seq<char>)
    requires
        all_one_line(ls),
        one_line(entry),
    ensures
        all_one_line(edited(ls, name, entry)),
{
    reveal_strlit("[dependencies]");
    let n = ls.len() as int;
    let r = edited(ls, name, entry);
    lemma_last_entry(ls, name, n);
    lemma_deps_heading(ls, n);
    assert(one_line(Seq::empty()));
    assert(one_line("[dependencies]"@)) by {
        lemma_visible_is_one_line("[dependencies]"@);
    }
    assert forall|i: int| 0 <= i < r.len() implies one_line(#[trigger] r[i]) by {
        match last_entry(ls, name, n) {
            Some(k) => {
                if i != k {
                    assert(r[i] == ls[i]);
                }
            },
            None => match deps_heading(ls, n) {
                Some(h) => {
                    if i <= h {
                        assert(r[i] == ls[i]);
                    } else if i > h + 1 {
                        assert(r[i] == ls[i - 1]);
                    }
                },
                None => {
                    if i < n {
                        assert(r[i] == ls[i]);
                    }
                },
            },
        }
    }
}

/// Inserting the same dependency again changes nothing, whether the text was
/// edited or written anew. The result has to list the dependency, or writing it
/// anew must not make it so. Left out are texts in which a line ends in a
/// carriage return of its own, which becomes part of a line break, and strings
/// with a line feed, which no manifest can hold as they are written.
pub proof fn law_insertion_is_idempotent(text: Seq<char>, name: Seq<char>, d: Dep)
    requires
        valid_name(name),
        ({
            let out = inserted(text, name, d);
            &&& manifest_text(out) matches Ok(q) && (pair_get(q.deps, name) == Some(read_form(d))
                || !reads_as_wanted(rewritten(out, name, d), out, name, d))
        }),
        all_one_line(lines(text)),
        one_line(entry_line(name, d)),
        inserted(text, name, d) != with_entry(text, name, d) ==> single_lines(
            with_dep(base_manifest(text, name, d), name, d),
        ),
    ensures
        inserted(inserted(text, name, d), name, d) == inserted(text, name, d),
{
    let e = with_entry(text, name, d);
    let out = inserted(text, name, d);
    if out == e {
        lemma_edited_one_line(lines(text), name, entry_line(name, d));
        lemma_edit_again(text, name, d);
    } else {
        let base = base_manifest(text, name, d);
        let p = with_dep(base, name, d);
        lemma_read_deps(text);
        lemma_read_deps(e);
        lemma_put_ascending(base.deps, name, d);
        lemma_put_get(base.deps, name, d, name);
        assert forall|i: int| 0 <= i < p.deps.len() implies valid_name((#[trigger] p.deps[i]).0) by {
            let ks = pair_keys(base.deps);
            assert(pair_keys(p.deps)[i] == p.deps[i].0);
            if p.deps[i].0 != name {
                let k = choose|k: int| 0 <= k < ks.len() && ks[k] == p.deps[i].0;
                assert(valid_name(base.deps[k].0));
            }
        }
        lemma_written_has_entry(p, name, d);
    }
    assert(with_entry(out, name, d) == out);
    let q = manifest_text(out)->Ok_0;
    lemma_read_deps(out);
    if pair_get(q.deps, name) == Some(read_form(d)) {
        let again = put(q.deps, name, read_form(d));
        lemma_put_ascending(q.deps, name, read_form(d));
        assert forall|k: Seq<char>| #[trigger] pair_get(again, k) == pair_get(q.deps, k) by {
            lemma_put_get(q.deps, name, read_form(d), k);
        }
        lemma_list_determined(again, q.deps);
        assert(reads_as_wanted(out, out, name, d));
    }
}

} // verus!
