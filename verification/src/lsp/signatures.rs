//! Signature help.
//!
//! The call around the cursor is found in the text alone, so that it works
//! while a call is being typed; parameters come from the callables that are
//! known.
use crate::text::{
    chars_of, is_alpha, is_alpha_char, is_digit, is_digit_char, part, same, string_of, texts,
};
use crate::utf8::{
    chars_before, chars_up_to, law_boundary_has_its_characters_before, lemma_size_bounds, size,
    width,
};
use vstd::prelude::*;
use vstd::string::*;

verus! {

/// The unclosed call around the cursor.
#[derive(Debug)]
pub struct CallContext {
    /// Callee name (`method` in `obj.method(`).
    pub name: String,
    /// Zero-based index of the argument being typed.
    pub active: u32,
}

/// What the scan stands in.
pub enum Mode {
    Code,
    LineComment,
    /// A block comment, so many levels deep.
    BlockComment(int),
    /// A string or character literal up to `close`; `escape` behind a
    /// backslash.
    Literal { close: char, escape: bool },
}

/// A bracket that is open: the character that opened it, the callee before it
/// where that is `(`, and the number of commas directly inside.
#[verifier::ext_equal]
pub struct Open {
    pub by: char,
    pub name: Seq<char>,
    pub commas: int,
}

/// What the scan knows: where it stands, and the brackets that are open, the
/// innermost last.
#[verifier::ext_equal]
pub struct Scan {
    pub mode: Mode,
    pub open: Seq<Open>,
}

pub open spec fn is_gap(c: char) -> bool {
    c == ' ' || c == '\t' || c == '\n'
}

pub open spec fn is_name_char(c: char) -> bool {
    is_alpha(c) || is_digit(c) || c == '_' || c == '$'
}

/// Where the text before `i` ends without its trailing gap.
pub open spec fn gap_start(s: Seq<char>, i: int) -> int
    decreases i,
{
    if i <= 0 || !is_gap(s[i - 1]) {
        i
    } else {
        gap_start(s, i - 1)
    }
}

/// Where the name that ends at `i` starts.
pub open spec fn name_begin(s: Seq<char>, i: int) -> int
    decreases i,
{
    if i <= 0 || !is_name_char(s[i - 1]) {
        i
    } else {
        name_begin(s, i - 1)
    }
}

/// The name right before position `i`.
pub open spec fn name_before(s: Seq<char>, i: int) -> Seq<char> {
    s.subrange(name_begin(s, gap_start(s, i)), gap_start(s, i))
}

/// `c` stands at `i`.
pub open spec fn at(s: Seq<char>, i: int, c: char) -> bool {
    0 <= i < s.len() && s[i] == c
}

/// The brackets with one more comma in the innermost.
pub open spec fn comma(open: Seq<Open>) -> Seq<Open> {
    if open.len() == 0 {
        open
    } else {
        open.drop_last().push(Open { commas: open.last().commas + 1, ..open.last() })
    }
}

/// How many brackets stand up to and with the innermost parenthesis; 0 where
/// none is open.
pub open spec fn innermost_call(open: Seq<Open>) -> int
    decreases open.len(),
{
    if open.len() == 0 {
        0
    } else if open.last().by == '(' {
        open.len() as int
    } else {
        innermost_call(open.drop_last())
    }
}

/// The brackets behind a `)`, which closes the innermost parenthesis with
/// whatever was left open in it.
pub open spec fn closed_call(open: Seq<Open>) -> Seq<Open> {
    if innermost_call(open) > 0 {
        open.take(innermost_call(open) - 1)
    } else {
        open
    }
}

/// The brackets behind a `]` or `}`, which closes the innermost one if `by`
/// opened that.
pub open spec fn closed_bracket(open: Seq<Open>, by: char) -> Seq<Open> {
    if open.len() > 0 && open.last().by == by {
        open.drop_last()
    } else {
        open
    }
}

/// One step of the scan at position `i`, and how far it goes.
pub open spec fn stepped(s: Seq<char>, i: int, st: Scan) -> (Scan, int) {
    let c = s[i];
    match st.mode {
        Mode::LineComment => if c == '\n' {
            (Scan { mode: Mode::Code, ..st }, 1)
        } else {
            (st, 1)
        },
        Mode::BlockComment(depth) => if c == '/' && at(s, i + 1, '*') {
            (Scan { mode: Mode::BlockComment(depth + 1), ..st }, 2)
        } else if c == '*' && at(s, i + 1, '/') {
            (
                Scan {
                    mode: if depth <= 1 {
                        Mode::Code
                    } else {
                        Mode::BlockComment(depth - 1)
                    },
                    ..st
                },
                2,
            )
        } else {
            (st, 1)
        },
        Mode::Literal { close, escape } => if escape {
            (Scan { mode: Mode::Literal { close, escape: false }, ..st }, 1)
        } else if close != '`' && c == '\\' {
            (Scan { mode: Mode::Literal { close, escape: true }, ..st }, 1)
        } else if c == close {
            (Scan { mode: Mode::Code, ..st }, 1)
        } else {
            (st, 1)
        },
        Mode::Code => if c == '/' && at(s, i + 1, '/') {
            (Scan { mode: Mode::LineComment, ..st }, 2)
        } else if c == '/' && at(s, i + 1, '*') {
            (Scan { mode: Mode::BlockComment(1), ..st }, 2)
        } else if c == '"' || c == '\'' || c == '`' {
            (Scan { mode: Mode::Literal { close: c, escape: false }, ..st }, 1)
        } else if c == '(' {
            (
                Scan {
                    open: st.open.push(Open { by: c, name: name_before(s, i), commas: 0 }),
                    ..st
                },
                1,
            )
        } else if c == '[' || c == '{' {
            (
                Scan { open: st.open.push(Open { by: c, name: Seq::empty(), commas: 0 }), ..st },
                1,
            )
        } else if c == ',' {
            (Scan { open: comma(st.open), ..st }, 1)
        } else if c == ')' {
            (Scan { open: closed_call(st.open), ..st }, 1)
        } else if c == ']' {
            (Scan { open: closed_bracket(st.open, '['), ..st }, 1)
        } else if c == '}' {
            (Scan { open: closed_bracket(st.open, '{'), ..st }, 1)
        } else {
            (st, 1)
        },
    }
}

/// The scan from position `i` up to `n`.
pub open spec fn scanned(s: Seq<char>, i: int, n: int, st: Scan) -> Scan
    decreases n + 1 - i,
{
    if i >= n {
        st
    } else {
        let (next, by) = stepped(s, i, st);
        scanned(
            s,
            i + if by == 2 {
                2int
            } else {
                1int
            },
            n,
            next,
        )
    }
}

/// The innermost call that is open before the byte offset `offset`, and the
/// number of its argument there: how many commas stand directly between its
/// parentheses, those inside other brackets aside.
pub open spec fn call_at(text: Seq<char>, offset: int) -> Option<(Seq<char>, int)> {
    let end = scanned(
        text,
        0,
        chars_before(text, offset),
        Scan { mode: Mode::Code, open: Seq::empty() },
    );
    call_of(end.open)
}

/// The callee of the innermost parenthesis, where it has one, and the number of
/// its argument.
pub open spec fn call_of(open: Seq<Open>) -> Option<(Seq<char>, int)> {
    let k = innermost_call(open);
    if k > 0 && open[k - 1].name.len() > 0 {
        Some((open[k - 1].name, open[k - 1].commas))
    } else {
        None
    }
}

struct Frame {
    by: char,
    name: Vec<char>,
    commas: u32,
}

spec fn frames(v: Seq<Frame>) -> Seq<Open> {
    Seq::new(v.len(), |i: int| Open { by: v[i].by, name: v[i].name@, commas: v[i].commas as int })
}

/// How many frames stand up to and with the innermost parenthesis.
fn find_call(stack: &Vec<Frame>) -> (r: usize)
    ensures
        r == innermost_call(frames(stack@)),
        r <= stack@.len(),
{
    let mut k: usize = stack.len();
    let ghost all = frames(stack@);
    assert(all.take(k as int) =~= all);
    while k > 0
        invariant
            k <= stack@.len(),
            all == frames(stack@),
            innermost_call(all) == innermost_call(all.take(k as int)),
        decreases k,
    {
        assert(all.take(k as int).last() == all[k - 1]);
        if stack[k - 1].by == '(' {
            return k;
        }
        assert(all.take(k as int).drop_last() =~= all.take(k - 1));
        k -= 1;
    }
    k
}

enum Place {
    Code,
    LineComment,
    BlockComment(usize),
    Literal(char, bool),
}

spec fn mode_of(p: Place) -> Mode {
    match p {
        Place::Code => Mode::Code,
        Place::LineComment => Mode::LineComment,
        Place::BlockComment(d) => Mode::BlockComment(d as int),
        Place::Literal(close, escape) => Mode::Literal { close, escape },
    }
}

fn is_ident(c: char) -> (r: bool)
    ensures
        r == is_name_char(c),
{
    is_alpha_char(c) || is_digit_char(c) || c == '_' || c == '$'
}

/// The name right before position `open`.
fn ident_before(s: &Vec<char>, open: usize) -> (r: Vec<char>)
    requires
        open <= s@.len(),
    ensures
        r@ == name_before(s@, open as int),
{
    let mut end: usize = open;
    while end > 0 && (s[end - 1] == ' ' || s[end - 1] == '\t' || s[end - 1] == '\n')
        invariant
            end <= open <= s@.len(),
            gap_start(s@, open as int) == gap_start(s@, end as int),
        decreases end,
    {
        end -= 1;
    }
    let mut start: usize = end;
    while start > 0 && is_ident(s[start - 1])
        invariant
            start <= end <= s@.len(),
            name_begin(s@, end as int) == name_begin(s@, start as int),
        decreases start,
    {
        start -= 1;
    }
    part(s, start, end)
}

/// The innermost call that is open before the byte offset `offset`, with the
/// number of its top-level commas. Strings and comments do not count, so `"(",`,
/// `// ,` and `/* ( */` never confuse it, and neither do the commas of lists,
/// maps and inner calls. `None` outside any call.
pub fn enclosing_call(text: &str, offset: usize) -> (r: Option<CallContext>)
    requires
        text@.len() <= u32::MAX,
    ensures
        r is Some <==> call_at(text@, offset as int) is Some,
        r matches Some(c) ==> call_at(text@, offset as int) == Some((c.name@, c.active as int)),
{
    let s = chars_of(text);
    let n = chars_up_to(&s, offset);
    let mut stack: Vec<Frame> = Vec::new();
    let mut place = Place::Code;
    let mut i: usize = 0;
    let ghost start = Scan { mode: Mode::Code, open: Seq::empty() };
    let ghost goal = scanned(s@, 0, n as int, start);
    assert(frames(stack@) =~= Seq::<Open>::empty());
    while i < n
        invariant
            n <= s@.len() <= u32::MAX,
            i <= n + 1,
            goal == scanned(
                s@,
                i as int,
                n as int,
                (Scan { mode: mode_of(place), open: frames(stack@) }),
            ),
            place matches Place::BlockComment(d) ==> 1 <= d <= i,
            forall|k: int| 0 <= k < stack@.len() ==> (#[trigger] stack@[k]).commas <= i,
        decreases n + 1 - i,
    {
        let ghost fs = frames(stack@);
        let c: char = s[i];
        let more: bool = i + 1 < s.len();
        let slash: bool = more && s[i + 1] == '/';
        let star: bool = more && s[i + 1] == '*';
        match place {
            Place::LineComment => {
                if c == '\n' {
                    place = Place::Code;
                }
                i += 1;
            },
            Place::BlockComment(depth) => {
                if c == '/' && star {
                    place = Place::BlockComment(depth + 1);
                    i += 2;
                } else if c == '*' && slash {
                    place = if depth <= 1 {
                        Place::Code
                    } else {
                        Place::BlockComment(depth - 1)
                    };
                    i += 2;
                } else {
                    i += 1;
                }
            },
            Place::Literal(close, escape) => {
                if escape {
                    place = Place::Literal(close, false);
                } else if close != '`' && c == '\\' {
                    place = Place::Literal(close, true);
                } else if c == close {
                    place = Place::Code;
                }
                i += 1;
            },
            Place::Code => {
                if c == '/' && slash {
                    place = Place::LineComment;
                    i += 2;
                } else if c == '/' && star {
                    place = Place::BlockComment(1);
                    i += 2;
                } else if c == '"' || c == '\'' || c == '`' {
                    place = Place::Literal(c, false);
                    i += 1;
                } else if c == '(' {
                    let name = ident_before(&s, i);
                    let ghost nm = name@;
                    stack.push(Frame { by: c, name, commas: 0 });
                    assert(frames(stack@) =~= fs.push(Open { by: c, name: nm, commas: 0 }));
                    i += 1;
                } else if c == '[' || c == '{' {
                    stack.push(Frame { by: c, name: Vec::new(), commas: 0 });
                    assert(frames(stack@) =~= fs.push(
                        Open { by: c, name: Seq::empty(), commas: 0 },
                    ));
                    i += 1;
                } else if c == ',' {
                    if let Some(mut top) = stack.pop() {
                        let ghost old_top = fs.last();
                        top.commas = top.commas + 1;
                        stack.push(top);
                        assert(frames(stack@) =~= comma(fs));
                    }
                    i += 1;
                } else if c == ')' {
                    let k = find_call(&stack);
                    if k > 0 {
                        stack.truncate(k - 1);
                    }
                    assert(frames(stack@) =~= closed_call(fs));
                    i += 1;
                } else if c == ']' || c == '}' {
                    let by: char = if c == ']' {
                        '['
                    } else {
                        '{'
                    };
                    if stack.len() > 0 && stack[stack.len() - 1].by == by {
                        stack.pop();
                    }
                    assert(frames(stack@) =~= closed_bracket(fs, by));
                    i += 1;
                } else {
                    i += 1;
                }
            },
        }
    }
    let k = find_call(&stack);
    if k == 0 || stack[k - 1].name.len() == 0 {
        return None;
    }
    assert(frames(stack@)[k - 1].name == stack@[k - 1].name@);
    Some(CallContext { name: string_of(&stack[k - 1].name), active: stack[k - 1].commas })
}

// ---------------------------------------------------------------------------
// Help
// ---------------------------------------------------------------------------

/// Something that can be called: its name, how it is shown, and its parameters
/// with their types.
#[derive(Debug)]
pub struct Callable {
    pub name: String,
    pub detail: String,
    pub params: Vec<(String, String)>,
}

/// What to show for the call around the cursor.
#[derive(Debug)]
pub struct SignatureHelp {
    pub label: String,
    pub params: Vec<String>,
    pub active: u32,
}

/// The first callable called `name`.
pub open spec fn callable(cs: Seq<Callable>, name: Seq<char>) -> Option<Callable>
    decreases cs.len(),
{
    if cs.len() == 0 {
        None
    } else if cs[0].name@ == name {
        Some(cs[0])
    } else {
        callable(cs.skip(1), name)
    }
}

/// A parameter as it is shown: with its type, where that says something.
pub open spec fn param_label(name: Seq<char>, ty: Seq<char>) -> Seq<char> {
    if ty.len() == 0 || ty == "any"@ {
        name
    } else {
        name + ": "@ + ty
    }
}

pub open spec fn param_labels(ps: Seq<(String, String)>) -> Seq<Seq<char>> {
    Seq::new(ps.len(), |i: int| param_label(ps[i].0@, ps[i].1@))
}

/// The argument number, held to the last parameter.
pub open spec fn clamped(active: int, params: int) -> int {
    if params == 0 {
        0
    } else if active < params {
        active
    } else {
        params - 1
    }
}

/// The help is the one for the callable at that argument.
pub open spec fn is_help(h: SignatureHelp, c: Callable, active: int) -> bool {
    &&& h.label@ == c.detail@
    &&& texts(h.params@) == param_labels(c.params@)
    &&& h.active == clamped(active, c.params@.len() as int)
}

fn find_callable<'a>(cs: &'a Vec<Callable>, name: &str) -> (r: Option<&'a Callable>)
    ensures
        r is Some <==> callable(cs@, name@) is Some,
        r matches Some(c) ==> callable(cs@, name@) == Some(*c),
{
    let mut i: usize = 0;
    assert(cs@.skip(0) =~= cs@);
    while i < cs.len()
        invariant
            i <= cs@.len(),
            callable(cs@, name@) == callable(cs@.skip(i as int), name@),
        decreases cs@.len() - i,
    {
        assert(cs@.skip(i as int)[0] == cs@[i as int]);
        if same(cs[i].name.as_str(), name) {
            return Some(&cs[i]);
        }
        assert(cs@.skip(i as int).skip(1) =~= cs@.skip(i + 1));
        i += 1;
    }
    None
}

fn show_param(name: &String, ty: &String) -> (r: String)
    ensures
        r@ == param_label(name@, ty@),
{
    let mut out = name.clone();
    if chars_of(ty.as_str()).len() > 0 && !same(ty.as_str(), "any") {
        out.append(": ");
        out.append(ty.as_str());
    }
    out
}

/// Signature help at the byte offset `offset`: the call around it, looked up
/// among the callables, its argument held to the last parameter. `None` outside
/// calls and for callees that are not known.
pub fn help(callables: &Vec<Callable>, text: &str, offset: usize) -> (r: Option<SignatureHelp>)
    requires
        text@.len() <= u32::MAX,
        forall|i: int|
            0 <= i < callables@.len() ==> (#[trigger] callables@[i]).params@.len() <= u32::MAX,
    ensures
        match call_at(text@, offset as int) {
            Some(x) => match callable(callables@, x.0) {
                Some(c) => r matches Some(h) && is_help(h, c, x.1),
                None => r is None,
            },
            None => r is None,
        },
{
    let ctx = match enclosing_call(text, offset) {
        Some(c) => c,
        None => {
            return None;
        },
    };
    let c = match find_callable(callables, ctx.name.as_str()) {
        Some(c) => c,
        None => {
            return None;
        },
    };
    let mut params: Vec<String> = Vec::new();
    let mut i: usize = 0;
    while i < c.params.len()
        invariant
            i <= c.params@.len(),
            texts(params@) =~= param_labels(c.params@).take(i as int),
        decreases c.params@.len() - i,
    {
        let ghost had = texts(params@);
        let p = show_param(&c.params[i].0, &c.params[i].1);
        params.push(p);
        assert(texts(params@) =~= had.push(p@));
        i += 1;
    }
    assert(texts(params@) =~= param_labels(c.params@));
    proof {
        lemma_callable_listed(callables@, ctx.name@);
    }
    let n: u32 = c.params.len() as u32;
    let active: u32 = if n == 0 {
        0
    } else if ctx.active < n {
        ctx.active
    } else {
        n - 1
    };
    Some(SignatureHelp { label: c.detail.clone(), params, active })
}

proof fn lemma_callable_listed(cs: Seq<Callable>, name: Seq<char>)
    ensures
        callable(cs, name) matches Some(c) ==> exists|i: int|
            0 <= i < cs.len() && #[trigger] cs[i] == c,
    decreases cs.len(),
{
    if cs.len() > 0 {
        if cs[0].name@ != name {
            lemma_callable_listed(cs.skip(1), name);
            match callable(cs.skip(1), name) {
                Some(c) => {
                    let i = choose|i: int| 0 <= i < cs.skip(1).len() && #[trigger] cs.skip(1)[i] == c;
                    assert(cs[i + 1] == c);
                },
                None => {},
            }
        } else {
            assert(cs[0] == callable(cs, name)->0);
        }
    }
}

// ---------------------------------------------------------------------------
// Laws
// ---------------------------------------------------------------------------

/// The text of a line comment never counts, whatever it holds.
pub proof fn law_line_comment_is_skipped(s: Seq<char>, i: int, n: int, st: Scan)
    requires
        0 <= i <= n <= s.len(),
        st.mode is LineComment,
        forall|k: int| i <= k < n ==> s[k] != '\n',
    ensures
        scanned(s, i, n, st) == st,
    decreases n - i,
{
    if i < n {
        law_line_comment_is_skipped(s, i + 1, n, st);
    }
}

/// The text of a literal never counts: up to its closing quote, escapes aside,
/// the scan stays where it was.
pub proof fn law_literal_is_skipped(s: Seq<char>, i: int, n: int, st: Scan, close: char)
    requires
        0 <= i <= n <= s.len(),
        st.mode == (Mode::Literal { close, escape: false }),
        forall|k: int| i <= k < n ==> s[k] != close && s[k] != '\\',
    ensures
        scanned(s, i, n, st) == st,
    decreases n - i,
{
    if i < n {
        law_literal_is_skipped(s, i + 1, n, st, close);
    }
}

/// Commas inside a bracket are that bracket's own: whatever stands directly in
/// it changes nothing about the brackets around it.
pub proof fn law_inner_commas_stay_inside(s: Seq<char>, i: int, n: int, st: Scan)
    requires
        0 <= i <= n <= s.len(),
        st.mode is Code,
        st.open.len() > 0,
        forall|k: int| i <= k < n ==> !is_structural(#[trigger] s[k]),
    ensures
        scanned(s, i, n, st).mode is Code,
        scanned(s, i, n, st).open.len() == st.open.len(),
        scanned(s, i, n, st).open.drop_last() == st.open.drop_last(),
    decreases n - i,
{
    if i < n {
        assert(!is_structural(s[i]));
        let next = stepped(s, i, st).0;
        assert(next.open.drop_last() =~= st.open.drop_last());
        law_inner_commas_stay_inside(s, i + 1, n, next);
    }
}

/// A character that may open or close a bracket, a literal or a comment.
pub open spec fn is_structural(c: char) -> bool {
    c == '(' || c == ')' || c == '[' || c == ']' || c == '{' || c == '}' || c == '"' || c == '\''
        || c == '`' || c == '/'
}

/// Only the text before the cursor counts: whatever follows it makes no
/// difference, and a cursor behind the end stands at the end.
pub proof fn law_only_text_before_the_cursor_counts(a: Seq<char>, b: Seq<char>, k: int)
    requires
        k >= size(a),
    ensures
        call_at(a + b, size(a)) == call_at(a, k),
{
    law_boundary_has_its_characters_before(a + b, a.len() as int);
    assert((a + b).take(a.len() as int) =~= a);
    lemma_all_before(a, k);
    lemma_same_start(
        a + b,
        a,
        0,
        a.len() as int,
        Scan { mode: Mode::Code, open: Seq::empty() },
    );
}

proof fn lemma_all_before(s: Seq<char>, k: int)
    requires
        k >= size(s),
    ensures
        chars_before(s, k) == s.len(),
    decreases s.len(),
{
    if s.len() > 0 {
        lemma_size_bounds(s);
        lemma_all_before(s.skip(1), k - width(s[0]));
    }
}

proof fn lemma_same_name(s: Seq<char>, t: Seq<char>, i: int)
    requires
        0 <= i <= s.len(),
        i <= t.len(),
        forall|k: int| 0 <= k < i ==> s[k] == t[k],
    ensures
        name_before(s, i) == name_before(t, i),
{
    lemma_same_gap(s, t, i);
    lemma_gap_start(s, i);
    let e = gap_start(s, i);
    lemma_same_begin(s, t, e);
    lemma_name_begin(s, e);
    assert(name_before(s, i) =~= name_before(t, i));
}

proof fn lemma_gap_start(s: Seq<char>, i: int)
    requires
        0 <= i <= s.len(),
    ensures
        0 <= gap_start(s, i) <= i,
    decreases i,
{
    if i > 0 && is_gap(s[i - 1]) {
        lemma_gap_start(s, i - 1);
    }
}

proof fn lemma_name_begin(s: Seq<char>, i: int)
    requires
        0 <= i <= s.len(),
    ensures
        0 <= name_begin(s, i) <= i,
    decreases i,
{
    if i > 0 && is_name_char(s[i - 1]) {
        lemma_name_begin(s, i - 1);
    }
}

proof fn lemma_same_gap(s: Seq<char>, t: Seq<char>, i: int)
    requires
        0 <= i <= s.len(),
        i <= t.len(),
        forall|k: int| 0 <= k < i ==> s[k] == t[k],
    ensures
        gap_start(s, i) == gap_start(t, i),
    decreases i,
{
    if i > 0 && is_gap(s[i - 1]) {
        lemma_same_gap(s, t, i - 1);
    }
}

proof fn lemma_same_begin(s: Seq<char>, t: Seq<char>, i: int)
    requires
        0 <= i <= s.len(),
        i <= t.len(),
        forall|k: int| 0 <= k < i ==> s[k] == t[k],
    ensures
        name_begin(s, i) == name_begin(t, i),
    decreases i,
{
    if i > 0 && is_name_char(s[i - 1]) {
        lemma_same_begin(s, t, i - 1);
    }
}

/// Texts that agree up to `n` open the same brackets there.
proof fn lemma_same_start(s: Seq<char>, t: Seq<char>, i: int, n: int, st: Scan)
    requires
        0 <= i <= n + 1,
        n <= s.len(),
        n <= t.len(),
        forall|k: int| 0 <= k < n ==> s[k] == t[k],
    ensures
        scanned(s, i, n, st).open == scanned(t, i, n, st).open,
    decreases n + 1 - i,
{
    if i < n {
        lemma_same_name(s, t, i);
        let (a, by) = stepped(s, i, st);
        let (b, to) = stepped(t, i, st);
        if i + 1 < n {
            assert(s[i + 1] == t[i + 1]);
            assert(stepped(s, i, st) == stepped(t, i, st));
            lemma_same_start(s, t, i + if by == 2 {
                2int
            } else {
                1int
            }, n, a);
        } else {
            // The last character: what follows can only turn it into the start
            // or the end of a comment, which opens and closes no bracket.
            assert(a.open == b.open);
            assert(scanned(s, i + 1, n, a) == a && scanned(s, i + 2, n, a) == a);
            assert(scanned(t, i + 1, n, b) == b && scanned(t, i + 2, n, b) == b);
        }
    }
}

/// The argument that is shown always exists, where there is one.
pub proof fn law_active_parameter_exists(active: int, params: int)
    requires
        0 <= active,
        0 < params,
    ensures
        0 <= clamped(active, params) < params,
        active < params ==> clamped(active, params) == active,
{
}

} // verus!
