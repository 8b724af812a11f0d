//! [`BrokerError`]: what can go wrong while a pass is orchestrated.

use vstd::prelude::*;

use crate::text::{cat2, cat3, cat4, decimal, decimal_of};

verus! {

/// Everything that can go wrong while the broker orchestrates a pass.
#[derive(Debug, Clone, PartialEq, Eq)]
pub enum BrokerError {
    /// The operation is intentionally not implemented.
    Unimplemented(&'static str),
    /// A filesystem or operating-system error.
    Io(String),
    /// A persisted file was present but malformed. Fails closed rather than resetting.
    StateCorrupt(String),
    /// The worker process could not be spawned or communicated with.
    Spawn(String),
    /// The worker returned output that is no report.
    WorkerReportUnparseable(String),
    /// The worker did not finish within its budget.
    WorkerTimedOut(String),
    /// The worker wrote more than its output may hold.
    WorkerStdoutTooLarge {
        /// The ceiling, in bytes.
        limit: u64,
    },
    /// A verification rejection from the trust core.
    Trust(String),
    /// The worker's plan failed the broker's own verification.
    ReverifyFailed(String),
    /// Staged bytes do not match the signed digest.
    StagingReverifyFailed {
        /// The component whose artifact it is.
        component: String,
        /// What was found.
        detail: String,
    },
    /// The manifest names an artifact for this platform that was not staged.
    StagedArtifactMissing {
        /// The component whose artifact is missing.
        component: String,
        /// The operating system it is for.
        os: String,
        /// The architecture it is for.
        arch: String,
    },
    /// A staged path resolves outside the staging directory.
    StagedPathEscapesStaging {
        /// The component whose artifact it is.
        component: String,
        /// Where it leads.
        detail: String,
    },
    /// A rollback could not complete.
    RollbackFailed {
        /// The component that was to be reinstated.
        component: String,
        /// Why it was not.
        detail: String,
    },
    /// A guarded path can be written by a non-privileged principal.
    AclViolation(String),
}

/// What a [`BrokerError`] says.
pub enum ErrorView {
    Unimplemented(Seq<char>),
    Io(Seq<char>),
    StateCorrupt(Seq<char>),
    Spawn(Seq<char>),
    WorkerReportUnparseable(Seq<char>),
    WorkerTimedOut(Seq<char>),
    WorkerStdoutTooLarge(u64),
    Trust(Seq<char>),
    ReverifyFailed(Seq<char>),
    StagingReverifyFailed(Seq<char>, Seq<char>),
    StagedArtifactMissing(Seq<char>, Seq<char>, Seq<char>),
    StagedPathEscapesStaging(Seq<char>, Seq<char>),
    RollbackFailed(Seq<char>, Seq<char>),
    AclViolation(Seq<char>),
}

impl View for BrokerError {
    type V = ErrorView;

    open spec fn view(&self) -> ErrorView {
        match *self {
            BrokerError::Unimplemented(what) => ErrorView::Unimplemented(what@),
            BrokerError::Io(d) => ErrorView::Io(d@),
            BrokerError::StateCorrupt(d) => ErrorView::StateCorrupt(d@),
            BrokerError::Spawn(d) => ErrorView::Spawn(d@),
            BrokerError::WorkerReportUnparseable(d) => ErrorView::WorkerReportUnparseable(d@),
            BrokerError::WorkerTimedOut(d) => ErrorView::WorkerTimedOut(d@),
            BrokerError::WorkerStdoutTooLarge { limit } => ErrorView::WorkerStdoutTooLarge(limit),
            BrokerError::Trust(d) => ErrorView::Trust(d@),
            BrokerError::ReverifyFailed(d) => ErrorView::ReverifyFailed(d@),
            BrokerError::StagingReverifyFailed {
                component,
                detail,
            } => ErrorView::StagingReverifyFailed(component@, detail@),
            BrokerError::StagedArtifactMissing {
                component,
                os,
                arch,
            } => ErrorView::StagedArtifactMissing(component@, os@, arch@),
            BrokerError::StagedPathEscapesStaging {
                component,
                detail,
            } => ErrorView::StagedPathEscapesStaging(component@, detail@),
            BrokerError::RollbackFailed { component, detail } => ErrorView::RollbackFailed(
                component@,
                detail@,
            ),
            BrokerError::AclViolation(d) => ErrorView::AclViolation(d@),
        }
    }
}

/// How an error reads.
pub open spec fn error_text(e: ErrorView) -> Seq<char> {
    match e {
        ErrorView::Unimplemented(what) => "not yet implemented: "@ + what,
        ErrorView::Io(d) => "i/o error: "@ + d,
        ErrorView::StateCorrupt(d) => "persisted trust state is corrupt: "@ + d,
        ErrorView::Spawn(d) => "could not run the worker: "@ + d,
        ErrorView::WorkerReportUnparseable(d) => "worker returned an unparseable report: "@ + d,
        ErrorView::WorkerTimedOut(d) => "the worker timed out: "@ + d,
        ErrorView::WorkerStdoutTooLarge(limit) => "the worker wrote more than "@ + decimal(
            limit as nat,
        ) + " bytes"@,
        ErrorView::Trust(d) => d,
        ErrorView::ReverifyFailed(d) => "independent re-verification failed: "@ + d,
        ErrorView::StagingReverifyFailed(c, d) => "staged bytes of "@ + c
            + " failed re-verification: "@ + d,
        ErrorView::StagedArtifactMissing(c, os, arch) => "no staged artifact for "@ + c + " on "@
            + (os + "/"@ + arch),
        ErrorView::StagedPathEscapesStaging(c, d) => "staged path of "@ + c
            + " escapes the staging directory: "@ + d,
        ErrorView::RollbackFailed(c, d) => "rollback of "@ + c + " failed: "@ + d,
        ErrorView::AclViolation(d) => "guarded path is not locked down: "@ + d,
    }
}

impl BrokerError {
    /// The error in words.
    pub fn message(&self) -> (text: String)
        ensures
            text@ == error_text(self@),
    {
        match self {
            BrokerError::Unimplemented(what) => cat2("not yet implemented: ", what),
            BrokerError::Io(d) => cat2("i/o error: ", d.as_str()),
            BrokerError::StateCorrupt(d) => cat2("persisted trust state is corrupt: ", d.as_str()),
            BrokerError::Spawn(d) => cat2("could not run the worker: ", d.as_str()),
            BrokerError::WorkerReportUnparseable(d) => cat2(
                "worker returned an unparseable report: ",
                d.as_str(),
            ),
            BrokerError::WorkerTimedOut(d) => cat2("the worker timed out: ", d.as_str()),
            BrokerError::WorkerStdoutTooLarge { limit } => {
                let n: String = decimal_of(*limit);
                cat3("the worker wrote more than ", n.as_str(), " bytes")
            },
            BrokerError::Trust(d) => d.clone(),
            BrokerError::ReverifyFailed(d) => cat2(
                "independent re-verification failed: ",
                d.as_str(),
            ),
            BrokerError::StagingReverifyFailed { component, detail } => cat4(
                "staged bytes of ",
                component.as_str(),
                " failed re-verification: ",
                detail.as_str(),
            ),
            BrokerError::StagedArtifactMissing { component, os, arch } => {
                let platform: String = cat3(os.as_str(), "/", arch.as_str());
                cat4("no staged artifact for ", component.as_str(), " on ", platform.as_str())
            },
            BrokerError::StagedPathEscapesStaging { component, detail } => cat4(
                "staged path of ",
                component.as_str(),
                " escapes the staging directory: ",
                detail.as_str(),
            ),
            BrokerError::RollbackFailed { component, detail } => cat4(
                "rollback of ",
                component.as_str(),
                " failed: ",
                detail.as_str(),
            ),
            BrokerError::AclViolation(d) => cat2("guarded path is not locked down: ", d.as_str()),
        }
    }
}

/// A message tells what its error holds: two errors of one kind that read alike hold the same.
pub proof fn a_message_tells_its_detail(a: Seq<char>, b: Seq<char>, c: Seq<char>)
    ensures
        error_text(ErrorView::Io(a)) == error_text(ErrorView::Io(b)) ==> a == b,
        error_text(ErrorView::StateCorrupt(a)) == error_text(ErrorView::StateCorrupt(b)) ==> a == b,
        error_text(ErrorView::Spawn(a)) == error_text(ErrorView::Spawn(b)) ==> a == b,
        error_text(ErrorView::WorkerReportUnparseable(a)) == error_text(
            ErrorView::WorkerReportUnparseable(b),
        ) ==> a == b,
        error_text(ErrorView::WorkerTimedOut(a)) == error_text(ErrorView::WorkerTimedOut(b)) ==> a
            == b,
        error_text(ErrorView::Trust(a)) == error_text(ErrorView::Trust(b)) ==> a == b,
        error_text(ErrorView::ReverifyFailed(a)) == error_text(ErrorView::ReverifyFailed(b)) ==> a
            == b,
        error_text(ErrorView::AclViolation(a)) == error_text(ErrorView::AclViolation(b)) ==> a == b,
        error_text(ErrorView::RollbackFailed(c, a)) == error_text(ErrorView::RollbackFailed(c, b))
            ==> a == b,
        error_text(ErrorView::StagingReverifyFailed(c, a)) == error_text(
            ErrorView::StagingReverifyFailed(c, b),
        ) ==> a == b,
        error_text(ErrorView::StagedPathEscapesStaging(c, a)) == error_text(
            ErrorView::StagedPathEscapesStaging(c, b),
        ) ==> a == b,
{
    lemma_same_tail("i/o error: "@, a, b);
    lemma_same_tail("persisted trust state is corrupt: "@, a, b);
    lemma_same_tail("could not run the worker: "@, a, b);
    lemma_same_tail("worker returned an unparseable report: "@, a, b);
    lemma_same_tail("the worker timed out: "@, a, b);
    lemma_same_tail("independent re-verification failed: "@, a, b);
    lemma_same_tail("guarded path is not locked down: "@, a, b);
    lemma_same_tail("rollback of "@ + c + " failed: "@, a, b);
    lemma_same_tail("staged bytes of "@ + c + " failed re-verification: "@, a, b);
    lemma_same_tail("staged path of "@ + c + " escapes the staging directory: "@, a, b);
}

proof fn lemma_same_tail(head: Seq<char>, a: Seq<char>, b: Seq<char>)
    ensures
        head + a == head + b ==> a == b,
{
    if head + a == head + b {
        let n: int = head.len() as int;
        assert((head + a).skip(n) =~= a);
        assert((head + b).skip(n) =~= b);
    }
}

} // verus!
