//! The post-install health gate.
//!
//! After an artifact is applied, the component is asked for its version again, and the pass goes
//! on only if the answer is the version that the manifest promised. The shared decision matrix
//! keeps this honest: a healthy install is precisely one that would now be skipped as current.

use vstd::prelude::*;

use crate::plan::{is_current, probed};
use crate::resolver::{
    decide, lemma_no_version, older, release_version, resolver_decision, shown_version, version_word,
    DetectedVersion, UpdateAction, UpdateDecision,
};
use crate::text::cat2;

verus! {

/// Whether the health gate's answer is right for what was detected.
pub open spec fn health_ok(
    dest: Seq<char>,
    expected: Seq<char>,
    detected: DetectedVersion,
    answer: Result<DetectedVersion, String>,
) -> bool {
    match answer {
        Ok(d) => d == detected && detected@ is Some && is_current(detected@, expected),
        Err(detail) => (detected@ is None || !is_current(detected@, expected)) && detail@ == (
        if detected@ is None {
            "nothing installed at "@ + dest
        } else {
            "post-install version check failed: "@ + resolver_decision(detected@, expected).1
        }),
    }
}

/// Judge what was detected at `dest` against the promised version.
///
/// # Errors
///
/// A description, if nothing is there or it reports a version other than the promised one.
pub fn judge_health(dest: &str, expected_version: &str, detected: DetectedVersion) -> (answer:
    Result<DetectedVersion, String>)
    ensures
        health_ok(dest@, expected_version@, detected, answer),
{
    let decision: UpdateDecision = decide(&detected, expected_version);
    match &detected {
        DetectedVersion::Absent => Err(cat2("nothing installed at ", dest)),
        DetectedVersion::Present(_) => {
            if decision.action == UpdateAction::Skip {
                Ok(detected)
            } else {
                Err(cat2("post-install version check failed: ", decision.summary.as_str()))
            }
        },
    }
}

/// Health-gate a just-installed component: the binary at `dest` must now report
/// `expected_version`. Returns what it reported.
///
/// # Errors
///
/// A description, if the binary is absent or reports a version other than the promised one.
pub fn check_health<D: Fn(&str) -> DetectedVersion>(
    dest: &str,
    expected_version: &str,
    probe: &D,
) -> (answer: Result<DetectedVersion, String>)
    requires
        forall|p: &str| p@ == dest@ ==> #[trigger] probe.requires((p,)),
    ensures
        exists|d: DetectedVersion| #[trigger]
            probed(*probe, dest@, d) && health_ok(dest@, expected_version@, d, answer),
{
    let detected: DetectedVersion = probe(dest);
    assert(probed(*probe, dest@, detected));
    judge_health(dest, expected_version, detected)
}

/// An installed binary whose version could not be read never passes the health check.
pub proof fn an_unreadable_version_is_unhealthy(
    dest: Seq<char>,
    expected: Seq<char>,
    detected: DetectedVersion,
    answer: Result<DetectedVersion, String>,
)
    requires
        detected@ == Some(Seq::<char>::empty()),
        health_ok(dest, expected, detected, answer),
    ensures
        answer is Err,
{
    reveal(resolver_decision);
    lemma_no_version();
}

/// A binary passes the health check exactly when its version and the promised one both read as
/// versions and the installed one is not older.
pub proof fn a_healthy_binary_is_not_older(
    dest: Seq<char>,
    expected: Seq<char>,
    detected: DetectedVersion,
    answer: Result<DetectedVersion, String>,
)
    requires
        health_ok(dest, expected, detected, answer),
    ensures
        answer is Ok <==> detected@ is Some && release_version(version_word(detected@->0)) is Some
            && release_version(expected) is Some && !older(
            release_version(version_word(detected@->0))->0,
            release_version(expected)->0,
        ),
{
    reveal(resolver_decision);
}

/// Which versions are healthy: an answer whose version is the promised one or above passes, and comes
/// back as it was; one that is below, cannot be read, or does not come at all fails.
#[verifier::spinoff_prover]
#[verifier::rlimit(60)]
pub proof fn the_promised_version_is_healthy(
    dest: Seq<char>,
    promised: (u64, u64, u64),
    detected: DetectedVersion,
    installed: (u64, u64, u64),
    answer: Result<DetectedVersion, String>,
)
    requires
        health_ok(dest, shown_version(promised), detected, answer),
    ensures
        detected is Absent ==> answer is Err,
        detected is Present && release_version(version_word(detected@->0)) is None ==> answer is Err,
        detected is Present && release_version(version_word(detected@->0)) == Some(installed) ==> (
        answer is Ok <==> installed.0 > promised.0 || (installed.0 == promised.0 && (installed.1
            > promised.1 || (installed.1 == promised.1 && installed.2 >= promised.2)))),
        answer is Ok ==> answer->Ok_0 == detected,
{
    let none = Seq::<char>::empty();
    a_healthy_binary_is_not_older(dest, shown_version(promised), detected, answer);
    crate::resolver::a_version_is_read(none, promised, none);
    assert(none + shown_version(promised) + none =~= shown_version(promised));
}

} // verus!
