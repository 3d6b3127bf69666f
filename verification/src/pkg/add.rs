//! What `hella add` is asked for.
use crate::manifest::{is_valid_dep_name, valid_name};
use crate::source::{added_source, derive_dep_name, normalize_added_source, suggested_name};
use crate::text::{
    chars_of, is_space, is_space_char, opt_text, part, rfind, rfind_chars, string_of, trim,
    trim_chars, trim_str,
};
use vstd::prelude::*;
use vstd::string::*;

verus! {

/// A parsed `hella add` argument: normalized git source, requested revision,
/// and the short import name to register.
#[derive(Debug)]
pub struct AddRequest {
    pub git: String,
    pub rev: Option<String>,
    pub name: String,
}

#[verifier::ext_equal]
pub struct Request {
    pub git: Seq<char>,
    pub rev: Option<Seq<char>>,
    pub name: Seq<char>,
}

impl View for AddRequest {
    type V = Request;

    open spec fn view(&self) -> Request {
        Request { git: self.git@, rev: opt_text(self.rev), name: self.name@ }
    }
}

pub open spec fn request_result(r: Result<AddRequest, String>) -> Result<Request, Seq<char>> {
    match r {
        Ok(a) => Ok(a@),
        Err(m) => Err(m@),
    }
}

pub open spec fn has_space(s: Seq<char>) -> bool {
    exists|i: int| 0 <= i < s.len() && is_space(#[trigger] s[i])
}

/// Source and revision of a trimmed spec: split at the last `@`, unless the
/// spec is an existing local path, which is taken as it stands.
pub open spec fn source_and_rev(
    spec: Seq<char>,
    raw: Seq<char>,
    local_exists: bool,
) -> Result<(Seq<char>, Option<Seq<char>>), Seq<char>> {
    match rfind(raw, "@"@) {
        Some(at) if !local_exists => {
            let rev = trim(raw.skip(at + 1));
            if rev.len() == 0 {
                Err("empty revision in `"@ + spec + "` (expected `<source>[@<rev>]`)"@)
            } else if has_space(rev) {
                Err(
                    "invalid revision `"@ + rev + "` in `"@ + spec
                        + "` (must not contain whitespace)"@,
                )
            } else {
                Ok((trim(raw.take(at)), Some(rev)))
            }
        },
        _ => Ok((raw, None)),
    }
}

/// What a spec asks for.
pub open spec fn add_request(
    spec: Seq<char>,
    name_override: Option<Seq<char>>,
    local_exists: bool,
) -> Result<Request, Seq<char>> {
    let raw = trim(spec);
    if raw.len() == 0 {
        Err("empty package spec (expected `<source>[@<rev>]`)"@)
    } else {
        match source_and_rev(spec, raw, local_exists) {
            Err(m) => Err(m),
            Ok((source, rev)) => {
                let git = added_source(source);
                let name = match name_override {
                    Some(n) => trim(n),
                    None => suggested_name(git),
                };
                if git.len() == 0 {
                    Err("empty git source in `"@ + spec + "`"@)
                } else if !valid_name(name) {
                    Err(
                        "invalid dependency name `"@ + name
                            + "` (expected [_a-zA-Z][_a-zA-Z0-9]*, `std` is reserved) — pass `--name <name>`"@,
                    )
                } else {
                    Ok(Request { git, rev, name })
                }
            },
        }
    }
}

fn any_space(s: &Vec<char>) -> (r: bool)
    ensures
        r == has_space(s@),
{
    let mut i: usize = 0;
    while i < s.len()
        invariant
            i <= s@.len(),
            forall|j: int| 0 <= j < i ==> !is_space(#[trigger] s@[j]),
        decreases s@.len() - i,
    {
        if is_space_char(s[i]) {
            return true;
        }
        i += 1;
    }
    false
}

/// Parses `<source>[@<rev>]`, where the source is `github.com/owner/repo`,
/// `owner/repo`, `https://...[.git]`, `file://...` or an absolute local path.
/// `local_exists` says whether the trimmed spec is an existing local path.
pub fn parse_add_spec(spec: &str, name_override: Option<&str>, local_exists: bool) -> (r: Result<
    AddRequest,
    String,
>)
    ensures
        request_result(r) == add_request(
            spec@,
            crate::modules::layout::opt_str(name_override),
            local_exists,
        ),
{
    let raw = trim_chars(&chars_of(spec));
    if raw.len() == 0 {
        return Err(String::from_str("empty package spec (expected `<source>[@<rev>]`)"));
    }
    proof {
        reveal_strlit("@");
    }
    let mut source = string_of(&raw);
    let mut rev: Option<String> = None;
    if !local_exists {
        if let Some(at) = rfind_chars(&raw, "@") {
            assert(at + 1 <= raw.len());
            let tail = part(&raw, at + 1, raw.len());
            assert(tail@ =~= raw@.skip(at + 1));
            let wanted = trim_chars(&tail);
            if wanted.len() == 0 {
                let mut m = String::from_str("empty revision in `");
                m.append(spec);
                m.append("` (expected `<source>[@<rev>]`)");
                return Err(m);
            }
            if any_space(&wanted) {
                let mut m = String::from_str("invalid revision `");
                m.append(string_of(&wanted).as_str());
                m.append("` in `");
                m.append(spec);
                m.append("` (must not contain whitespace)");
                return Err(m);
            }
            let head = part(&raw, 0, at);
            assert(head@ =~= raw@.take(at as int));
            source = string_of(&trim_chars(&head));
            rev = Some(string_of(&wanted));
        }
    }
    assert(source_and_rev(spec@, raw@, local_exists) == Ok::<
        (Seq<char>, Option<Seq<char>>),
        Seq<char>,
    >((source@, opt_text(rev))));
    let git = normalize_added_source(source.as_str());
    if chars_of(git.as_str()).len() == 0 {
        let mut m = String::from_str("empty git source in `");
        m.append(spec);
        m.append("`");
        return Err(m);
    }
    let name = match name_override {
        Some(n) => trim_str(n),
        None => derive_dep_name(git.as_str()),
    };
    if !is_valid_dep_name(name.as_str()) {
        let mut m = String::from_str("invalid dependency name `");
        m.append(name.as_str());
        m.append(
            "` (expected [_a-zA-Z][_a-zA-Z0-9]*, `std` is reserved) — pass `--name <name>`",
        );
        return Err(m);
    }
    Ok(AddRequest { git, rev, name })
}

} // verus!
