//! Semantic-version questions, answered by the `semver` crate.
use vstd::prelude::*;

verus! {

/// Whether `semver::Version::parse` accepts the text.
pub uninterp spec fn is_semver(text: Seq<char>) -> bool;

/// Whether the version `a` has a lower precedence than `b`, both parsed by
/// `semver::Version::parse`.
pub uninterp spec fn semver_precedes(a: Seq<char>, b: Seq<char>) -> bool;

/// Whether the requirement, parsed by `semver::VersionReq::parse`, matches
/// the version, parsed by `semver::Version::parse`; a requirement that does
/// not parse matches nothing.
pub uninterp spec fn requirement_admits(requirement: Seq<char>, version: Seq<char>) -> bool;

/// Relies on `semver::Version::parse`: whether the text is a version.
#[verifier::external_body]
pub(crate) fn parses_as_version(text: &str) -> (r: bool)
    ensures
        r == is_semver(text@),
{
    semver::Version::parse(text).is_ok()
}

/// Relies on `semver::Version::parse` and the precedence order of
/// `semver::Version` (`<`): whether `a` comes before `b`.
#[verifier::external_body]
pub(crate) fn precedes(a: &str, b: &str) -> (r: bool)
    requires
        is_semver(a@),
        is_semver(b@),
    ensures
        r == semver_precedes(a@, b@),
{
    match (semver::Version::parse(a), semver::Version::parse(b)) {
        (Ok(x), Ok(y)) => x < y,
        _ => false,
    }
}

/// Relies on `semver::VersionReq::parse`, `semver::Version::parse` and
/// `semver::VersionReq::matches`: whether the requirement admits the
/// version; a requirement that does not parse admits nothing.
#[verifier::external_body]
pub(crate) fn admits(requirement: &str, version: &str) -> (r: bool)
    requires
        is_semver(version@),
    ensures
        r == requirement_admits(requirement@, version@),
{
    match (semver::VersionReq::parse(requirement), semver::Version::parse(version)) {
        (Ok(req), Ok(ver)) => req.matches(&ver),
        _ => false,
    }
}

/// A requirement is exact when it is a single `=` comparator, as a
/// requirement prints itself: `=1.2.3`, never joined to another by a comma.
pub open spec fn is_exact_requirement_text(req: Seq<char>) -> bool {
    req.len() > 0 && req[0] == '=' && !req.contains(',')
}

/// Whether a requirement, as it prints itself, pins one exact version.
pub fn is_exact_requirement(req: &str) -> (r: bool)
    ensures
        r == is_exact_requirement_text(req@),
{
    let cs = crate::text::chars_of(req);
    if cs.len() == 0 || cs[0] != '=' {
        return false;
    }
    let mut i: usize = 0;
    while i < cs.len()
        invariant
            cs@ == req@,
            i <= cs@.len(),
            forall|j: int| 0 <= j < i ==> cs@[j] != ',',
        decreases cs@.len() - i,
    {
        if cs[i] == ',' {
            assert(req@[i as int] == ',');
            return false;
        }
        i = i + 1;
    }
    true
}

/// A version meets a set of requirements when there are none, or when it
/// is a version that each of them admits.
pub open spec fn meets_all(version: Seq<char>, reqs: Seq<Seq<char>>) -> bool {
    reqs.len() == 0 || (is_semver(version) && forall|i: int|
        0 <= i < reqs.len() ==> requirement_admits(#[trigger] reqs[i], version))
}

/// A candidate is older than the current release unless both are versions
/// and it does not come first; what does not parse is not ruled out.
pub open spec fn older_than(candidate: Seq<char>, current: Seq<char>) -> bool {
    !is_semver(current) || !is_semver(candidate) || semver_precedes(candidate, current)
}

/// Whether `version` meets every requirement of `reqs`.
pub fn satisfies_requirements(version: &str, reqs: &Vec<String>) -> (r: bool)
    ensures
        r == meets_all(version@, crate::text::views(reqs@)),
{
    let ghost rv = crate::text::views(reqs@);
    if reqs.len() == 0 {
        return true;
    }
    if !parses_as_version(version) {
        return false;
    }
    let mut i: usize = 0;
    while i < reqs.len()
        invariant
            rv == crate::text::views(reqs@),
            is_semver(version@),
            i <= reqs@.len(),
            forall|j: int| 0 <= j < i ==> requirement_admits(#[trigger] rv[j], version@),
        decreases reqs@.len() - i,
    {
        if !admits(reqs[i].as_str(), version) {
            assert(!requirement_admits(rv[i as int], version@));
            return false;
        }
        i = i + 1;
    }
    true
}

/// Whether `candidate` is older than `current`, as far as both parse.
pub fn is_older(candidate: &str, current: &str) -> (r: bool)
    ensures
        r == older_than(candidate@, current@),
{
    if !parses_as_version(current) || !parses_as_version(candidate) {
        true
    } else {
        precedes(candidate, current)
    }
}

} // verus!
