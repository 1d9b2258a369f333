//! Semantic-version requirement evaluation, delegated to the `semver` crate.
//!
//! Whether a requirement string parses, and whether it matches a version
//! string, are functions of the strings alone; the library names those
//! results and trusts the `semver` crate to compute them.

use vstd::prelude::*;

verus! {

/// Whether `semver::VersionReq::parse` accepts the requirement string.
pub uninterp spec fn req_ok(req: Seq<char>) -> bool;

/// Whether the requirement matches the version: false when the requirement
/// or the version does not parse, else what `semver::VersionReq::matches`
/// returns for the parsed pair.
pub uninterp spec fn req_matches(req: Seq<char>, version: Seq<char>) -> bool;

/// Relies on semver's `VersionReq::parse`: success depends on the
/// requirement text alone.
#[verifier::external_body]
pub fn check_req(req: &String) -> (r: bool)
    ensures
        r == req_ok(req@),
{
    semver::VersionReq::parse(req.as_str()).is_ok()
}

/// Relies on semver's `VersionReq::parse`, `Version::parse` and
/// `VersionReq::matches`: the result depends on the two texts alone, and is
/// false whenever either text does not parse.
#[verifier::external_body]
pub fn match_req(req: &String, version: &String) -> (r: bool)
    ensures
        r == req_matches(req@, version@),
{
    match (
        semver::VersionReq::parse(req.as_str()),
        semver::Version::parse(version.as_str()),
    ) {
        (Ok(r), Ok(v)) => r.matches(&v),
        _ => false,
    }
}

} // verus!
