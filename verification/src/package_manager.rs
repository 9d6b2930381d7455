//! The remote package manager's view of published versions: reading the
//! registry lookup response and resolving the newest published version.
//!
//! The lookup itself is a network call and lives with the runner; this
//! module holds the decision: parse the response document, read the
//! `latest` and `rc` distribution tags, parse both as semantic versions
//! — a missing or unparsable tag counts as version 0.0.0 — and take the
//! greater, preferring `rc` on a tie, exactly as a maximum of the two.
use vstd::prelude::*;

use crate::LpmError;
use crate::json::Json;
use crate::json::JsonData;
use crate::json::json_obj_field;
use crate::json::obj_field;
use crate::json::parse_value;
use crate::json::parsed_json;
use crate::json::value_to_json;

verus! {

/// What `semver::Version::parse` yields of a text: the numeric triple
/// and the pre-release and build texts, or nothing when the text is not
/// a semantic version; fixed by the version grammar alone.
pub uninterp spec fn semver_parts(s: Seq<char>) -> Option<(u64, u64, u64, Seq<char>, Seq<char>)>;

/// How two pre-release texts compare under pre-release precedence, as a
/// three-way order; nothing when either text is not a valid pre-release.
pub uninterp spec fn prerelease_order(a: Seq<char>, b: Seq<char>) -> Option<int>;

/// How two build-metadata texts compare under the version crate's total
/// order; nothing when either text is not valid build metadata.
pub uninterp spec fn build_order(a: Seq<char>, b: Seq<char>) -> Option<int>;

/// A parsed semantic version held as plain values.
pub struct SemVer {
    pub major: u64,
    pub minor: u64,
    pub patch: u64,
    pub pre: String,
    pub build: String,
}

impl SemVer {
    /// The parts of the version, as `semver_parts` speaks of them.
    pub open spec fn parts(&self) -> (u64, u64, u64, Seq<char>, Seq<char>) {
        (self.major, self.minor, self.patch, self.pre@, self.build@)
    }
}

/// Relies on semver::Version::parse: a deterministic parse of the
/// semantic-version grammar, handing out the version's components.
#[verifier::external_body]
fn parse_version(text: &str) -> (r: Option<SemVer>)
    ensures
        (r is Some) == (semver_parts(text@) is Some),
        r matches Some(v) ==> semver_parts(text@) == Some(v.parts()),
{
    match semver::Version::parse(text) {
        Ok(v) => Some(
            SemVer {
                major: v.major,
                minor: v.minor,
                patch: v.patch,
                pre: v.pre.as_str().to_string(),
                build: v.build.as_str().to_string(),
            },
        ),
        Err(_) => None,
    }
}

/// Relies on semver::Prerelease's ordering: precedence of two
/// pre-release texts, the empty text (a real release) outranking all.
#[verifier::external_body]
fn prerelease_cmp(a: &str, b: &str) -> (r: Option<i8>)
    ensures
        match r {
            Some(o) => prerelease_order(a@, b@) == Some(o as int),
            None => prerelease_order(a@, b@) is None,
        },
{
    match (semver::Prerelease::new(a), semver::Prerelease::new(b)) {
        (Ok(x), Ok(y)) => match x.cmp(&y) {
            std::cmp::Ordering::Less => Some(-1),
            std::cmp::Ordering::Equal => Some(0),
            std::cmp::Ordering::Greater => Some(1),
        },
        _ => None,
    }
}

/// Relies on semver::BuildMetadata's ordering: the total order on build
/// texts the version crate uses as its final tie-breaker.
#[verifier::external_body]
fn build_cmp(a: &str, b: &str) -> (r: Option<i8>)
    ensures
        match r {
            Some(o) => build_order(a@, b@) == Some(o as int),
            None => build_order(a@, b@) is None,
        },
{
    match (semver::BuildMetadata::new(a), semver::BuildMetadata::new(b)) {
        (Ok(x), Ok(y)) => match x.cmp(&y) {
            std::cmp::Ordering::Less => Some(-1),
            std::cmp::Ordering::Equal => Some(0),
            std::cmp::Ordering::Greater => Some(1),
        },
        _ => None,
    }
}

/// Whether version `a` comes strictly before `b`: the numeric triple
/// decides first, then pre-release precedence, then build metadata; a
/// comparison the version crate cannot make leaves the order unchanged.
pub open spec fn semver_lt_spec(
    a: (u64, u64, u64, Seq<char>, Seq<char>),
    b: (u64, u64, u64, Seq<char>, Seq<char>),
) -> bool {
    if a.0 != b.0 {
        a.0 < b.0
    } else if a.1 != b.1 {
        a.1 < b.1
    } else if a.2 != b.2 {
        a.2 < b.2
    } else {
        match prerelease_order(a.3, b.3) {
            Some(o) => if o != 0 {
                o < 0
            } else {
                match build_order(a.4, b.4) {
                    Some(o2) => o2 < 0,
                    None => false,
                }
            },
            None => false,
        }
    }
}

/// Whether version `a` comes strictly before `b`.
fn semver_lt(a: &SemVer, b: &SemVer) -> (r: bool)
    ensures
        r == semver_lt_spec(a.parts(), b.parts()),
{
    if a.major != b.major {
        a.major < b.major
    } else if a.minor != b.minor {
        a.minor < b.minor
    } else if a.patch != b.patch {
        a.patch < b.patch
    } else {
        match prerelease_cmp(a.pre.as_str(), b.pre.as_str()) {
            Some(o) => if o != 0 {
                o < 0
            } else {
                match build_cmp(a.build.as_str(), b.build.as_str()) {
                    Some(o2) => o2 < 0,
                    None => false,
                }
            },
            None => false,
        }
    }
}

/// Version 0.0.0, standing in for a missing or unparsable tag.
pub open spec fn zero_parts() -> (u64, u64, u64, Seq<char>, Seq<char>) {
    (0u64, 0u64, 0u64, Seq::<char>::empty(), Seq::<char>::empty())
}

/// The parts a tag contributes: its parsed components, or 0.0.0.
pub open spec fn tag_parts(tag: Option<Seq<char>>) -> (u64, u64, u64, Seq<char>, Seq<char>) {
    match tag {
        Some(s) => match semver_parts(s) {
            Some(p) => p,
            None => zero_parts(),
        },
        None => zero_parts(),
    }
}

/// The text a tag contributes when chosen: its own text if it parses,
/// the text `0.0.0` otherwise.
pub open spec fn tag_text(tag: Option<Seq<char>>) -> Seq<char> {
    match tag {
        Some(s) => if semver_parts(s) is Some {
            s
        } else {
            "0.0.0"@
        },
        None => "0.0.0"@,
    }
}

/// The newer of the two tags: the `latest` tag only when it strictly
/// outranks the `rc` tag, the `rc` tag otherwise — a maximum preferring
/// its second argument on a tie.
pub open spec fn newest_tag(latest: Option<Seq<char>>, rc: Option<Seq<char>>) -> Seq<char> {
    if semver_lt_spec(tag_parts(rc), tag_parts(latest)) {
        tag_text(latest)
    } else {
        tag_text(rc)
    }
}

/// The string field `key` of the response object `d`: the text when the
/// field is a string, nothing when it is absent, and an error marker —
/// as the response decoder treats it — when it has any other shape.
pub open spec fn response_tag(d: JsonData, key: Seq<char>) -> Result<Option<Seq<char>>, ()> {
    match obj_field(d, key) {
        Some(JsonData::Str(s)) => Ok(Some(s)),
        Some(_) => Err(()),
        None => Ok(None),
    }
}

/// What the registry lookup resolves a response body to: the newer of
/// the response's `latest` and `rc` distribution tags, or nothing when
/// the body is not a JSON object carrying a `dist-tags` object of
/// string tags.
pub open spec fn npm_resolved(body: Seq<char>) -> Option<Seq<char>> {
    match parsed_json(body) {
        Some(doc) => match obj_field(doc, "dist-tags"@) {
            Some(tags) => {
                if !(tags is Obj) {
                    None
                } else {
                    match (response_tag(tags, "latest"@), response_tag(tags, "rc"@)) {
                        (Ok(latest), Ok(rc)) => Some(newest_tag(latest, rc)),
                        _ => None,
                    }
                }
            },
            None => None,
        },
        None => None,
    }
}

/// A remote package manager: resolves the newest published version out
/// of a registry lookup response.
pub trait PackageManager {
    /// The newest published version named by the response body: the
    /// newer of its `latest` and `rc` tags, a missing or unparsable tag
    /// counting as 0.0.0.  Fails, as a network error, exactly when the
    /// body does not carry well-shaped distribution tags.
    fn get_latest_version_value(response_body: &str) -> (r: Result<String, LpmError>)
        ensures
            match r {
                Ok(v) => npm_resolved(response_body@) == Some(v@),
                Err(e) => e is Network && npm_resolved(response_body@) is None,
            },
    ;
}

/// The npm registry.
pub struct Npm;

impl Npm {
    /// Reads one distribution tag out of the `dist-tags` object.
    fn read_tag(tags: &Json, key: &str) -> (r: Result<Option<String>, LpmError>)
        ensures
            match r {
                Ok(Some(s)) => response_tag(tags@, key@) == Ok::<Option<Seq<char>>, ()>(
                    Some(s@),
                ),
                Ok(None) => response_tag(tags@, key@) == Ok::<Option<Seq<char>>, ()>(
                    None::<Seq<char>>,
                ),
                Err(e) => e is Network && response_tag(tags@, key@) is Err,
            },
    {
        match json_obj_field(tags, key) {
            Some(v) => match v {
                Json::Str(s) => Ok(Some(s.clone())),
                _ => Err(LpmError::Network("a distribution tag is not a string".to_owned())),
            },
            None => Ok(None),
        }
    }

    /// The tag's contribution to the comparison, and its text if chosen.
    fn tag_version(tag: &Option<String>) -> (r: (SemVer, String))
        ensures
            r.0.parts() == tag_parts(
                match tag {
                    Some(s) => Some(s@),
                    None => None,
                },
            ),
            r.1@ == tag_text(
                match tag {
                    Some(s) => Some(s@),
                    None => None,
                },
            ),
    {
        match tag {
            Some(s) => match parse_version(s.as_str()) {
                Some(v) => (v, s.clone()),
                None => (
                    SemVer {
                        major: 0,
                        minor: 0,
                        patch: 0,
                        pre: String::new(),
                        build: String::new(),
                    },
                    "0.0.0".to_owned(),
                ),
            },
            None => (
                SemVer { major: 0, minor: 0, patch: 0, pre: String::new(), build: String::new() },
                "0.0.0".to_owned(),
            ),
        }
    }
}

impl PackageManager for Npm {
    fn get_latest_version_value(response_body: &str) -> (r: Result<String, LpmError>) {
        let raw = match parse_value(response_body) {
            Ok(v) => v,
            Err(_) => {
                return Err(
                    LpmError::Network("the registry response is not valid JSON".to_owned()),
                );
            },
        };
        let doc = value_to_json(&raw);
        let tags = match json_obj_field(&doc, "dist-tags") {
            Some(tags) => tags,
            None => {
                return Err(
                    LpmError::Network(
                        "the registry response lacks distribution tags".to_owned(),
                    ),
                );
            },
        };
        match tags {
            Json::Obj(_) => {},
            _ => {
                return Err(
                    LpmError::Network(
                        "the registry response lacks distribution tags".to_owned(),
                    ),
                );
            },
        }
        let latest = Npm::read_tag(tags, "latest")?;
        let rc = Npm::read_tag(tags, "rc")?;
        let (latest_v, latest_text) = Npm::tag_version(&latest);
        let (rc_v, rc_text) = Npm::tag_version(&rc);
        if semver_lt(&rc_v, &latest_v) {
            Ok(latest_text)
        } else {
            Ok(rc_text)
        }
    }
}

} // verus!
