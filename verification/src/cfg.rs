//! Conditional compilation (`@cfg(...)`).
//!
//! `@cfg(...)` marks a top-level item as present only when its condition
//! holds. Conditions are evaluated while imports are expanded, so a dropped
//! item is invisible to every later pass.
//!
//! ```hll
//! @cfg(os = "macos")
//! @cfg(os = "linux" or os = "windows")
//! @cfg(target = "aarch64-apple-darwin")
//! @cfg(unix)
//! @cfg(debug)
//! @cfg(debug = false)
//! ```
//!
//! * `os` matches the operating system of the host triple.
//! * `target` matches the full triple exactly.
//! * `debug` holds only in the debug link profile; `debug = false` inverts it.
//! * `windows` and `unix` hold by operating system family; a host that is not
//!   recognized belongs to neither.
//! * Subconditions are joined by `or`: one that holds is enough.
//! * A condition that is not known does not hold.
use crate::ast::{Attribute, AttributeArg, Expr, ExprKind, Item};
use crate::text::{chars_of, find, has, has_text, lemma_find, same, starts};
use vstd::prelude::*;

verus! {

/// The operating system named by a target triple.
pub open spec fn os_of(triple: Seq<char>) -> Seq<char> {
    if has(triple, "darwin"@) || has(triple, "apple"@) {
        "macos"@
    } else if has(triple, "linux"@) {
        "linux"@
    } else if has(triple, "windows"@) {
        "windows"@
    } else {
        "unknown"@
    }
}

/// Operating system of the host triple: `macos`, `linux`, `windows` or
/// `unknown`.
pub fn host_os(triple: &str) -> (r: &'static str)
    ensures
        r@ == os_of(triple@),
{
    let t = chars_of(triple);
    if has_text(&t, "darwin") || has_text(&t, "apple") {
        "macos"
    } else if has_text(&t, "linux") {
        "linux"
    } else if has_text(&t, "windows") {
        "windows"
    } else {
        "unknown"
    }
}

/// True when `attr` is a `@cfg(...)` condition.
pub fn is_cfg(attr: &Attribute) -> (r: bool)
    ensures
        r == (attr.name@ == "cfg"@),
{
    same(attr.name.as_str(), "cfg")
}

/// What conditions are evaluated against.
pub struct Facts {
    pub debug: bool,
    pub triple: Seq<char>,
    pub os: Seq<char>,
}

/// `key = value` holds.
pub open spec fn named_holds(key: Seq<char>, value: Expr, facts: Facts) -> bool {
    if key == "os"@ {
        value.kind matches ExprKind::StringLit(s) && s@ == facts.os
    } else if key == "target"@ {
        value.kind matches ExprKind::StringLit(s) && s@ == facts.triple
    } else if key == "debug"@ {
        value.kind matches ExprKind::BoolLit(b) && facts.debug == b
    } else {
        false
    }
}

/// The bare word `name` holds.
pub open spec fn word_holds(name: Seq<char>, facts: Facts) -> bool {
    if name == "debug"@ {
        facts.debug
    } else if name == "windows"@ {
        facts.os == "windows"@
    } else if name == "unix"@ {
        facts.os != "windows"@ && facts.os != "unknown"@
    } else {
        false
    }
}

/// One subcondition holds.
pub open spec fn arg_holds(arg: AttributeArg, facts: Facts) -> bool {
    match arg {
        AttributeArg::Expr(e) => match e.kind {
            ExprKind::Assign { lhs, value } => match lhs.kind {
                ExprKind::Ident(key) => named_holds(key@, *value, facts),
                _ => false,
            },
            ExprKind::Ident(name) => word_holds(name@, facts),
            _ => false,
        },
        AttributeArg::Named(key, _, value) => named_holds(key@, value, facts),
        AttributeArg::Assign(key, _, value) => named_holds(key@, value, facts),
    }
}

/// An attribute lets its item stay: it is no `@cfg`, it has no condition, or
/// one of its subconditions holds.
pub open spec fn attr_holds(attr: Attribute, facts: Facts) -> bool {
    ||| attr.name@ != "cfg"@
    ||| attr.args@.len() == 0
    ||| exists|i: int| 0 <= i < attr.args@.len() && arg_holds(#[trigger] attr.args@[i], facts)
}

/// The facts of a host: `target` may be overridden, `os` never is.
pub open spec fn facts_of(debug: bool, host: Seq<char>, target: Option<&str>) -> Facts {
    Facts {
        debug,
        triple: match target {
            Some(t) => t@,
            None => host,
        },
        os: os_of(host),
    }
}

fn eval_named(
    key: &str,
    value: &Expr,
    debug_mode: bool,
    triple: &str,
    os: &str,
) -> (r: bool)
    ensures
        r == named_holds(key@, *value, (Facts { debug: debug_mode, triple: triple@, os: os@ })),
{
    if same(key, "os") {
        match &value.kind {
            ExprKind::StringLit(s) => same(s.as_str(), os),
            _ => false,
        }
    } else if same(key, "target") {
        match &value.kind {
            ExprKind::StringLit(s) => same(s.as_str(), triple),
            _ => false,
        }
    } else if same(key, "debug") {
        match &value.kind {
            ExprKind::BoolLit(b) => debug_mode == *b,
            _ => false,
        }
    } else {
        false
    }
}

fn eval_word(name: &str, debug_mode: bool, triple: &str, os: &str) -> (r: bool)
    ensures
        r == word_holds(name@, (Facts { debug: debug_mode, triple: triple@, os: os@ })),
{
    if same(name, "debug") {
        debug_mode
    } else if same(name, "windows") {
        same(os, "windows")
    } else if same(name, "unix") {
        !same(os, "windows") && !same(os, "unknown")
    } else {
        false
    }
}

fn eval_arg(arg: &AttributeArg, debug_mode: bool, triple: &str, os: &str) -> (r: bool)
    ensures
        r == arg_holds(*arg, (Facts { debug: debug_mode, triple: triple@, os: os@ })),
{
    match arg {
        AttributeArg::Expr(e) => match &e.kind {
            ExprKind::Assign { lhs, value } => match &lhs.kind {
                ExprKind::Ident(key) => eval_named(key.as_str(), &**value, debug_mode, triple, os),
                _ => false,
            },
            ExprKind::Ident(name) => eval_word(name.as_str(), debug_mode, triple, os),
            _ => false,
        },
        AttributeArg::Named(key, _, value) => eval_named(
            key.as_str(),
            value,
            debug_mode,
            triple,
            os,
        ),
        AttributeArg::Assign(key, _, value) => eval_named(
            key.as_str(),
            value,
            debug_mode,
            triple,
            os,
        ),
    }
}

/// Evaluates one attribute against the `host` triple. `debug_mode` is true only
/// for the debug link profile; `target_override` stands in for the triple that
/// `target` compares with.
pub fn eval_cfg(
    attr: &Attribute,
    debug_mode: bool,
    host: &str,
    target_override: Option<&str>,
) -> (r: bool)
    ensures
        r == attr_holds(*attr, facts_of(debug_mode, host@, target_override)),
{
    if !is_cfg(attr) || attr.args.len() == 0 {
        return true;
    }
    let triple = match target_override {
        Some(t) => t,
        None => host,
    };
    let os = host_os(host);
    let ghost facts = facts_of(debug_mode, host@, target_override);
    let mut i: usize = 0;
    while i < attr.args.len()
        invariant
            i <= attr.args@.len(),
            attr.name@ == "cfg"@,
            facts == facts_of(debug_mode, host@, target_override),
            facts == (Facts { debug: debug_mode, triple: triple@, os: os@ }),
            forall|j: int| 0 <= j < i ==> !arg_holds(#[trigger] attr.args@[j], facts),
        decreases attr.args@.len() - i,
    {
        if eval_arg(&attr.args[i], debug_mode, triple, os) {
            return true;
        }
        i += 1;
    }
    false
}

/// An item stays when every attribute in front of it lets it stay.
pub open spec fn kept(item: Item, debug: bool, host: Seq<char>) -> bool {
    match item {
        Item::Attributed { attrs, .. } => forall|i: int|
            0 <= i < attrs@.len() ==> attr_holds(
                #[trigger] attrs@[i],
                facts_of(debug, host, None),
            ),
        _ => true,
    }
}

/// True when the item survives `@cfg` filtering.
pub fn keeps(item: &Item, debug_mode: bool, host: &str) -> (r: bool)
    ensures
        r == kept(*item, debug_mode, host@),
{
    match item {
        Item::Attributed { attrs, .. } => {
            let mut i: usize = 0;
            while i < attrs.len()
                invariant
                    i <= attrs@.len(),
                    *item matches Item::Attributed { attrs: all, .. } && all@ == attrs@,
                    forall|j: int|
                        0 <= j < i ==> attr_holds(
                            #[trigger] attrs@[j],
                            facts_of(debug_mode, host@, None),
                        ),
                decreases attrs@.len() - i,
            {
                if !eval_cfg(&attrs[i], debug_mode, host, None) {
                    return false;
                }
                i += 1;
            }
            true
        },
        _ => true,
    }
}

/// The items that stay, in their order.
pub open spec fn surviving(items: Seq<Item>, debug: bool, host: Seq<char>) -> Seq<Item> {
    items.filter(|i: Item| kept(i, debug, host))
}

/// Drops the items whose `@cfg` does not hold.
pub fn apply_cfg(items: &mut Vec<Item>, debug_mode: bool, host: &str)
    ensures
        final(items)@ == surviving(old(items)@, debug_mode, host@),
{
    let n: usize = items.len();
    let mut k: usize = 0;
    let mut i: usize = 0;
    let ghost all = items@;
    let ghost p = |i: Item| kept(i, debug_mode, host@);
    assert(items@ =~= all.take(0).filter(p) + all.skip(0)) by {
        assert(all.take(0) =~= Seq::<Item>::empty());
        reveal(Seq::filter);
    }
    while k < n
        invariant
            k <= n == all.len(),
            p == (|i: Item| kept(i, debug_mode, host@)),
            i == all.take(k as int).filter(p).len(),
            items@ == all.take(k as int).filter(p) + all.skip(k as int),
        decreases n - k,
    {
        let ghost t = all.take(k + 1);
        assert(t.drop_last() =~= all.take(k as int));
        assert(t.filter(p) == if p(all[k as int]) {
            all.take(k as int).filter(p).push(all[k as int])
        } else {
            all.take(k as int).filter(p)
        }) by {
            reveal(Seq::filter);
            assert(t.last() == all[k as int]);
        }
        assert(items@[i as int] == all[k as int]);
        if keeps(&items[i], debug_mode, host) {
            assert(items@ =~= t.filter(p) + all.skip(k + 1));
            i += 1;
        } else {
            items.remove(i);
            assert(items@ =~= t.filter(p) + all.skip(k + 1));
        }
        k += 1;
    }
    assert(all.take(n as int) =~= all);
    assert(items@ =~= all.filter(p));
}

// ---------------------------------------------------------------------------
// Laws
// ---------------------------------------------------------------------------

/// Filtering twice is filtering once.
pub proof fn law_filter_idempotent(items: Seq<Item>, debug: bool, host: Seq<char>)
    ensures
        surviving(surviving(items, debug, host), debug, host) == surviving(items, debug, host),
{
    let p = |i: Item| kept(i, debug, host);
    lemma_filter_all(items.filter(p), p, items);
}

proof fn lemma_filter_all(s: Seq<Item>, p: spec_fn(Item) -> bool, from: Seq<Item>)
    requires
        s == from.filter(p),
    ensures
        s.filter(p) == s,
    decreases from.len(),
{
    reveal(Seq::filter);
    if from.len() > 0 {
        let t = from.drop_last();
        lemma_filter_all(t.filter(p), p, t);
        if p(from.last()) {
            assert(s.drop_last() =~= t.filter(p));
            assert(s.filter(p) =~= s);
        }
    }
}

/// An item without attributes always stays, and filtering keeps exactly the
/// items whose conditions hold.
pub proof fn law_only_false_conditions_drop(items: Seq<Item>, debug: bool, host: Seq<char>, item: Item)
    ensures
        !(item is Attributed) ==> kept(item, debug, host),
        surviving(items, debug, host).contains(item) <==> items.contains(item) && kept(
            item,
            debug,
            host,
        ),
{
    lemma_filter_member(items, |i: Item| kept(i, debug, host), item);
}

proof fn lemma_filter_member(items: Seq<Item>, p: spec_fn(Item) -> bool, item: Item)
    ensures
        items.filter(p).contains(item) <==> items.contains(item) && p(item),
    decreases items.len(),
{
    reveal(Seq::filter);
    if items.len() > 0 {
        let t = items.drop_last();
        lemma_filter_member(t, p, item);
        assert(items =~= t.push(items.last()));
        assert(items.contains(item) <==> t.contains(item) || item == items.last()) by {
            if t.contains(item) {
                let k = choose|k: int| 0 <= k < t.len() && t[k] == item;
                assert(items[k] == item);
            }
            assert(items[items.len() - 1] == items.last());
        }
        if p(items.last()) {
            let f = t.filter(p);
            let g = f.push(items.last());
            assert(g.contains(item) <==> f.contains(item) || item == items.last()) by {
                if f.contains(item) {
                    let k = choose|k: int| 0 <= k < f.len() && f[k] == item;
                    assert(g[k] == item);
                }
                assert(g[f.len() as int] == items.last());
            }
        }
    }
}

/// `unix` and `windows` never hold together, and one of them holds exactly on
/// a host that is recognized.
pub proof fn law_families_exclude_each_other(facts: Facts)
    ensures
        !(word_holds("unix"@, facts) && word_holds("windows"@, facts)),
        word_holds("unix"@, facts) || word_holds("windows"@, facts) <==> facts.os != "unknown"@,
{
    reveal_strlit("debug");
    reveal_strlit("windows");
    reveal_strlit("unix");
    reveal_strlit("unknown");
    assert("unix"@.len() == 4);
    assert("windows"@.len() == 7);
    assert("debug"@.len() == 5);
    assert("windows"@[0] != "unknown"@[0]);
}

/// `debug = b` holds exactly where bare `debug` has the value `b`.
pub proof fn law_debug_forms_agree(value: Expr, b: bool, facts: Facts)
    requires
        value.kind == ExprKind::BoolLit(b),
    ensures
        named_holds("debug"@, value, facts) <==> word_holds("debug"@, facts) == b,
{
    reveal_strlit("debug");
    reveal_strlit("os");
    reveal_strlit("target");
    assert("debug"@.len() == 5);
    assert("os"@.len() == 2);
    assert("target"@.len() == 6);
}

/// Stacked attributes must all hold: an item behind two groups of attributes
/// stays exactly when it would stay behind each of them.
pub proof fn law_stacking_is_conjunction(a: Item, b: Item, both: Item, debug: bool, host: Seq<char>)
    requires
        a is Attributed,
        b is Attributed,
        both is Attributed,
        both->attrs@ == a->attrs@ + b->attrs@,
    ensures
        kept(both, debug, host) <==> kept(a, debug, host) && kept(b, debug, host),
{
    let facts = facts_of(debug, host, None);
    let (x, y, z) = (a->attrs@, b->attrs@, both->attrs@);
    if kept(both, debug, host) {
        assert forall|i: int| 0 <= i < x.len() implies attr_holds(#[trigger] x[i], facts) by {
            assert(attr_holds(z[i], facts));
        }
        assert forall|i: int| 0 <= i < y.len() implies attr_holds(#[trigger] y[i], facts) by {
            assert(attr_holds(z[x.len() + i], facts));
        }
    }
    if kept(a, debug, host) && kept(b, debug, host) {
        assert forall|i: int| 0 <= i < z.len() implies attr_holds(#[trigger] z[i], facts) by {
            if i < x.len() {
                assert(attr_holds(x[i], facts));
            } else {
                assert(attr_holds(y[i - x.len()], facts));
            }
        }
    }
}

/// Joined subconditions are alternatives: `@cfg(a or b)` holds exactly when
/// `@cfg(a)` or `@cfg(b)` does.
pub proof fn law_joining_is_disjunction(a: Attribute, b: Attribute, both: Attribute, facts: Facts)
    requires
        a.name@ == "cfg"@,
        b.name@ == "cfg"@,
        both.name@ == "cfg"@,
        a.args@.len() > 0,
        b.args@.len() > 0,
        both.args@ == a.args@ + b.args@,
    ensures
        attr_holds(both, facts) <==> attr_holds(a, facts) || attr_holds(b, facts),
{
    let (x, y, z) = (a.args@, b.args@, both.args@);
    if attr_holds(both, facts) {
        let i = choose|i: int| 0 <= i < z.len() && arg_holds(#[trigger] z[i], facts);
        if i < x.len() {
            assert(arg_holds(x[i], facts));
        } else {
            assert(arg_holds(y[i - x.len()], facts));
        }
    }
    if attr_holds(a, facts) {
        let i = choose|i: int| 0 <= i < x.len() && arg_holds(#[trigger] x[i], facts);
        assert(arg_holds(z[i], facts));
    }
    if attr_holds(b, facts) {
        let i = choose|i: int| 0 <= i < y.len() && arg_holds(#[trigger] y[i], facts);
        assert(arg_holds(z[x.len() + i], facts));
    }
}

/// A condition that is not known does not hold, whatever its value.
pub proof fn law_unknown_conditions_do_not_hold(key: Seq<char>, value: Expr, facts: Facts)
    requires
        key != "os"@,
        key != "target"@,
        key != "debug"@,
    ensures
        !named_holds(key, value, facts),
        key != "windows"@ && key != "unix"@ ==> !word_holds(key, facts),
{
}

/// The subcondition is written `key = value`, in one of the forms that the
/// grammar has for it.
pub open spec fn says(arg: AttributeArg, key: Seq<char>, value: Expr) -> bool {
    ||| arg matches AttributeArg::Named(k, _, v) && k@ == key && v == value
    ||| arg matches AttributeArg::Assign(k, _, v) && k@ == key && v == value
    ||| arg matches AttributeArg::Expr(e) && (e.kind matches ExprKind::Assign { lhs, value: v } && (
    lhs.kind matches ExprKind::Ident(k) && k@ == key) && *v == value)
}

/// The subcondition is the bare word.
pub open spec fn says_word(arg: AttributeArg, word: Seq<char>) -> bool {
    arg matches AttributeArg::Expr(e) && (e.kind matches ExprKind::Ident(k) && k@ == word)
}

/// `os` is compared with the operating system of the host, `target` with the
/// whole triple, and `debug` with the profile, in whatever form they are
/// written; values of another kind never match.
pub proof fn law_conditions_compare_with_the_host(
    arg: AttributeArg,
    key: Seq<char>,
    value: Expr,
    facts: Facts,
)
    requires
        says(arg, key, value),
    ensures
        key == "os"@ ==> (arg_holds(arg, facts) <==> (value.kind matches ExprKind::StringLit(s)
            && s@ == facts.os)),
        key == "target"@ ==> (arg_holds(arg, facts) <==> (value.kind matches ExprKind::StringLit(s)
            && s@ == facts.triple)),
        key == "debug"@ ==> (arg_holds(arg, facts) <==> (value.kind matches ExprKind::BoolLit(b)
            && b == facts.debug)),
        key != "os"@ && key != "target"@ && key != "debug"@ ==> !arg_holds(arg, facts),
{
    reveal_strlit("os");
    reveal_strlit("target");
    reveal_strlit("debug");
    assert("os"@.len() == 2 && "target"@.len() == 6 && "debug"@.len() == 5);
}

/// Of the bare words only `debug`, `unix` and `windows` ever hold.
pub proof fn law_words_compare_with_the_host(
    arg: AttributeArg,
    word: Seq<char>,
    facts: Facts,
)
    requires
        says_word(arg, word),
    ensures
        word == "debug"@ ==> (arg_holds(arg, facts) <==> facts.debug),
        word == "windows"@ ==> (arg_holds(arg, facts) <==> facts.os == "windows"@),
        word == "unix"@ ==> (arg_holds(arg, facts) <==> facts.os != "windows"@ && facts.os
            != "unknown"@),
        arg_holds(arg, facts) ==> word == "debug"@ || word == "windows"@ || word == "unix"@,
{
    reveal_strlit("debug");
    reveal_strlit("windows");
    reveal_strlit("unix");
    assert("unix"@.len() == 4 && "windows"@.len() == 7 && "debug"@.len() == 5);
}

/// A subcondition that is neither an equation nor a word does not hold.
pub proof fn law_other_expressions_do_not_hold(arg: AttributeArg, facts: Facts)
    requires
        arg_holds(arg, facts),
    ensures
        (exists|word: Seq<char>| #[trigger] says_word(arg, word)) || exists|
            key: Seq<char>,
            value: Expr,
        | #[trigger] says(arg, key, value),
{
    match arg {
        AttributeArg::Expr(e) => match e.kind {
            ExprKind::Assign { lhs, value } => match lhs.kind {
                ExprKind::Ident(key) => {
                    assert(says(arg, key@, *value));
                },
                _ => {},
            },
            ExprKind::Ident(name) => {
                assert(says_word(arg, name@));
            },
            _ => {},
        },
        AttributeArg::Named(key, _, value) => {
            assert(says(arg, key@, value));
        },
        AttributeArg::Assign(key, _, value) => {
            assert(says(arg, key@, value));
        },
    }
}

/// An item goes exactly when a `@cfg` with conditions stands in front of it of
/// which none holds; other attributes and an empty `@cfg()` never drop it.
pub proof fn law_items_go_with_a_false_condition(item: Item, debug: bool, host: Seq<char>)
    ensures
        !kept(item, debug, host) <==> (item matches Item::Attributed { attrs, .. } && exists|i: int|
            0 <= i < attrs@.len() && (#[trigger] attrs@[i]).name@ == "cfg"@ && attrs@[i].args@.len()
                > 0 && forall|j: int|
                0 <= j < attrs@[i].args@.len() ==> !arg_holds(
                    #[trigger] attrs@[i].args@[j],
                    Facts { debug, triple: host, os: os_of(host) },
                )),
{
    match item {
        Item::Attributed { attrs, .. } => {
            let facts = facts_of(debug, host, None);
            if !kept(item, debug, host) {
                let i = choose|i: int|
                    0 <= i < attrs@.len() && !attr_holds(#[trigger] attrs@[i], facts);
                assert(attrs@[i].name@ == "cfg"@);
            }
            if exists|i: int|
                0 <= i < attrs@.len() && (#[trigger] attrs@[i]).name@ == "cfg"@
                    && attrs@[i].args@.len() > 0 && forall|j: int|
                    0 <= j < attrs@[i].args@.len() ==> !arg_holds(
                        #[trigger] attrs@[i].args@[j],
                        facts,
                    ) {
                let i = choose|i: int|
                    0 <= i < attrs@.len() && (#[trigger] attrs@[i]).name@ == "cfg"@
                        && attrs@[i].args@.len() > 0 && forall|j: int|
                        0 <= j < attrs@[i].args@.len() ==> !arg_holds(
                            #[trigger] attrs@[i].args@[j],
                            facts,
                        );
                assert(!attr_holds(attrs@[i], facts));
            }
        },
        _ => {},
    }
}

/// `p` stands somewhere in the text.
pub open spec fn stands_in(s: Seq<char>, p: Seq<char>) -> bool {
    exists|i: int| 0 <= i && i + p.len() <= s.len() && #[trigger] s.skip(i).take(p.len() as int) == p
}

proof fn lemma_stands_in(s: Seq<char>, p: Seq<char>)
    ensures
        has(s, p) <==> stands_in(s, p),
{
    lemma_find(s, p);
    if has(s, p) {
        let k = find(s, p)->0;
        assert(s.skip(k).take(p.len() as int) == p);
    }
    if stands_in(s, p) {
        let i = choose|i: int|
            0 <= i && i + p.len() <= s.len() && #[trigger] s.skip(i).take(p.len() as int) == p;
        assert(starts(s.skip(i), p));
    }
}

/// The operating system is read off the triple: macOS where it speaks of Darwin
/// or Apple, else Linux, else Windows, else it is not known.
pub proof fn law_os_is_read_off_the_triple(triple: Seq<char>)
    ensures
        stands_in(triple, "darwin"@) || stands_in(triple, "apple"@) ==> os_of(triple) == "macos"@,
        !stands_in(triple, "darwin"@) && !stands_in(triple, "apple"@) && stands_in(
            triple,
            "linux"@,
        ) ==> os_of(triple) == "linux"@,
        !stands_in(triple, "darwin"@) && !stands_in(triple, "apple"@) && !stands_in(
            triple,
            "linux"@,
        ) && stands_in(triple, "windows"@) ==> os_of(triple) == "windows"@,
        !stands_in(triple, "darwin"@) && !stands_in(triple, "apple"@) && !stands_in(
            triple,
            "linux"@,
        ) && !stands_in(triple, "windows"@) ==> os_of(triple) == "unknown"@,
{
    lemma_stands_in(triple, "darwin"@);
    lemma_stands_in(triple, "apple"@);
    lemma_stands_in(triple, "linux"@);
    lemma_stands_in(triple, "windows"@);
}

/// An overridden target changes what `target` is compared with, and nothing
/// else.
pub proof fn law_target_overrides_the_triple_only(
    debug: bool,
    host: Seq<char>,
    target: Option<&str>,
)
    ensures
        facts_of(debug, host, target).os == os_of(host),
        facts_of(debug, host, target).debug == debug,
        target matches Some(t) ==> facts_of(debug, host, target).triple == t@,
        target is None ==> facts_of(debug, host, target).triple == host,
{
}

} // verus!
