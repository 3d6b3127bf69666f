//! Versions and version requests, as the `semver` crate understands them.
use crate::text::{same, trim, trim_str};
use vstd::prelude::*;

verus! {

/// `semver::VersionReq::parse` accepts the text.
pub uninterp spec fn req_parses(text: Seq<char>) -> bool;

/// `semver::VersionReq::parse`: whether the text is a version request such as
/// `1.2.3`, `^1.2` or `>=1.0, <2`. The answer depends on the text alone.
#[verifier::external_body]
pub(crate) fn parses_req(text: &str) -> (r: bool)
    ensures
        r == req_parses(text@),
{
    semver::VersionReq::parse(text).is_ok()
}

/// The request asks for the newest revision.
pub open spec fn is_floating(req: Seq<char>) -> bool {
    req == "latest"@ || req == "*"@
}

/// A version request is `latest`, `*`, or what `semver` accepts.
pub open spec fn valid_req(req: Seq<char>) -> bool {
    is_floating(trim(req)) || req_parses(trim(req))
}

/// Whether the trimmed text asks for the newest revision.
pub fn floats(req: &str) -> (r: bool)
    ensures
        r == is_floating(req@),
{
    same(req, "latest") || same(req, "*")
}

/// Whether a version request is valid: `latest`, `*`, or anything that
/// `semver` accepts.
pub fn is_valid_version_req(req: &str) -> (r: bool)
    ensures
        r == valid_req(req@),
{
    let t = trim_str(req);
    let parses = parses_req(t.as_str());
    is_valid_trimmed_req(t.as_str(), parses)
}

/// Whether a trimmed request is valid, given whether `semver` accepts it.
pub fn is_valid_trimmed_req(req: &str, parses: bool) -> (r: bool)
    ensures
        r == (is_floating(req@) || parses),
{
    floats(req) || parses
}

/// What `semver::Version::parse` makes of a text: the version's canonical text
/// and its prerelease part, which is empty for a release.
pub uninterp spec fn version_info(text: Seq<char>) -> Option<(Seq<char>, Seq<char>)>;

/// The first version comes before the second in the order of
/// `semver::Version`.
pub uninterp spec fn version_before(a: Seq<char>, b: Seq<char>) -> bool;

/// The request accepts the version, as `semver::VersionReq::matches` decides.
pub uninterp spec fn req_accepts(req: Seq<char>, version: Seq<char>) -> bool;

pub open spec fn info_texts(v: Option<(String, String)>) -> Option<(Seq<char>, Seq<char>)> {
    match v {
        Some(x) => Some((x.0@, x.1@)),
        None => None,
    }
}

/// `semver::Version::parse`: the version as `Display` writes it and the text
/// of its prerelease part, or `None` where the text is no version. The result
/// depends on the text alone.
#[verifier::external_body]
pub(crate) fn parse_version(text: &str) -> (r: Option<(String, String)>)
    ensures
        info_texts(r) == version_info(text@),
{
    semver::Version::parse(text).ok().map(|v| (v.to_string(), v.pre.to_string()))
}

/// Two versions compared with `<` of `semver::Version`, whose order is total:
/// of two versions at most one comes before the other, and a version that is
/// not before a second which is not before a third is not before the third.
#[verifier::external_body]
pub(crate) fn is_version_before(a: &str, b: &str) -> (r: bool)
    requires
        version_info(a@) is Some,
        version_info(b@) is Some,
    ensures
        r == version_before(a@, b@),
        r ==> !version_before(b@, a@),
        !r ==> not_before_either(a@, b@),
{
    match (semver::Version::parse(a), semver::Version::parse(b)) {
        (Ok(x), Ok(y)) => x < y,
        _ => false,
    }
}

/// No version that `b` is not before is one that `a` is before.
pub open spec fn not_before_either(a: Seq<char>, b: Seq<char>) -> bool {
    forall|c: Seq<char>| #[trigger]
        version_info(c) is Some && !version_before(b, c) ==> !version_before(a, c)
}

/// `semver::VersionReq::matches`: whether the request accepts the version.
#[verifier::external_body]
pub(crate) fn accepts(req: &str, version: &str) -> (r: bool)
    requires
        req_parses(req@),
        version_info(version@) is Some,
    ensures
        r == req_accepts(req@, version@),
{
    match (semver::VersionReq::parse(req), semver::Version::parse(version)) {
        (Ok(x), Ok(y)) => x.matches(&y),
        _ => false,
    }
}

} // verus!
