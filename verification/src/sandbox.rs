//! Running the network-facing worker with least privilege, and bounding what it can cost.
//!
//! The worker cannot hang the broker: one that still runs after its budget is killed. It cannot
//! exhaust the broker's memory: at most one byte past the cap of its output is read, and more than
//! the cap is refused.

use vstd::prelude::*;

use crate::error::{BrokerError, ErrorView};
use crate::text::{cat3, cat5, decimal, decimal_of};

verus! {

/// The largest worker report that is read: 64 MiB.
pub const WORKER_STDOUT_CAP: u64 = 67_108_864;

/// How many milliseconds the worker is given for one pass.
pub const WORKER_IPC_BUDGET: u64 = 1_800_000;

/// The uid and gid of the unprivileged account where it cannot be looked up.
pub const NOBODY_ID: u32 = 65_534;

/// How much privilege the worker holds.
#[derive(Debug, Clone, Copy, PartialEq, Eq, Structural)]
pub enum Sandbox {
    /// Dropped to an unprivileged identity.
    Restricted,
    /// That of the broker, which is itself unprivileged.
    Inherit,
}

impl Sandbox {
    /// Whether the worker must be dropped to the unprivileged account: where it is to be
    /// restricted and there is a privilege to drop.
    #[must_use]
    pub fn drops_privilege(&self, is_root: bool) -> (r: bool)
        ensures
            r == (*self is Restricted && is_root),
    {
        *self == Sandbox::Restricted && is_root
    }
}

/// How the worker's output was read.
#[derive(Debug, Clone, PartialEq, Eq)]
pub enum WorkerOutput {
    /// What was read of it, at most one byte past the cap.
    Read(Vec<u8>),
    /// It had no output to read.
    NotPiped,
    /// The reader failed.
    ReaderFailed,
}

/// How many bytes of the worker's output are read at most: one past the cap, by which an overflow
/// shows.
#[must_use]
pub fn read_limit(cap: u64) -> (limit: u64)
    requires
        cap < u64::MAX,
    ensures
        limit == cap + 1,
{
    cap + 1
}

/// The outcome of one exchange with the worker: its exit code and its output.
///
/// A worker that did not finish within its budget has timed out, whatever it wrote. An exit code
/// that cannot be read counts as -1.
///
/// # Errors
///
/// [`BrokerError::WorkerTimedOut`] if it did not finish, [`BrokerError::Spawn`] if its output could
/// not be read, and [`BrokerError::WorkerStdoutTooLarge`] if it wrote more than `cap` bytes.
pub fn communicate_bounded(
    finished: bool,
    budget_millis: u64,
    code: Option<i32>,
    output: WorkerOutput,
    cap: u64,
) -> (r: Result<(i32, Vec<u8>), BrokerError>)
    ensures
        match r {
            Ok((c, bytes)) => {
                &&& finished
                &&& c == match code {
                    Some(n) => n,
                    None => -1i32,
                }
                &&& bytes@ == match output {
                    WorkerOutput::Read(b) => b@,
                    _ => Seq::empty(),
                }
                &&& output !is ReaderFailed
                &&& bytes@.len() <= cap
            },
            Err(e) => if !finished {
                e@ == ErrorView::WorkerTimedOut(
                    "worker still running after "@ + decimal((budget_millis / 1000) as nat)
                        + "s; killed and reaped"@,
                )
            } else {
                match output {
                    WorkerOutput::ReaderFailed => e@ == ErrorView::Spawn(
                        "the worker stdout reader thread panicked"@,
                    ),
                    WorkerOutput::Read(b) => b@.len() > cap && e@
                        == ErrorView::WorkerStdoutTooLarge(cap),
                    WorkerOutput::NotPiped => false,
                }
            },
        },
{
    if !finished {
        let secs: String = decimal_of(budget_millis / 1000);
        return Err(
            BrokerError::WorkerTimedOut(
                cat3("worker still running after ", secs.as_str(), "s; killed and reaped"),
            ),
        );
    }
    let c: i32 = match code {
        Some(n) => n,
        None => -1,
    };
    let bytes: Vec<u8> = match output {
        WorkerOutput::Read(b) => b,
        WorkerOutput::NotPiped => Vec::new(),
        WorkerOutput::ReaderFailed => {
            return Err(
                BrokerError::Spawn("the worker stdout reader thread panicked".to_owned()),
            );
        },
    };
    if bytes.len() as u64 > cap {
        return Err(BrokerError::WorkerStdoutTooLarge { limit: cap });
    }
    Ok((c, bytes))
}

/// Whether the privilege-dropped worker can reach its staging directory, given the first ancestor
/// that denies it the way.
///
/// # Errors
///
/// [`BrokerError::Io`] that names the directory in the way.
pub fn worker_reaches(dir: &str, blocker: &Option<String>) -> (r: Result<(), BrokerError>)
    ensures
        match r {
            Ok(_) => blocker is None,
            Err(e) => *blocker matches Some(b) && e@ == ErrorView::Io(
                "the worker identity cannot reach its staging directory "@ + dir@ + ": "@ + b@
                    + " denies traverse to any other identity"@,
            ),
        },
{
    match blocker {
        None => Ok(()),
        Some(b) => Err(
            BrokerError::Io(
                cat5(
                    "the worker identity cannot reach its staging directory ",
                    dir,
                    ": ",
                    b.as_str(),
                    " denies traverse to any other identity",
                ),
            ),
        ),
    }
}

/// A step on `dir` came to `r`.
pub open spec fn step_came_to<F: FnOnce(&str) -> Result<(), BrokerError>>(
    step: F,
    dir: Seq<char>,
    r: Result<(), BrokerError>,
) -> bool {
    exists|d: &str| d@ == dir && #[trigger] step.ensures((d,), r)
}

/// Whether looking for what is in the way of `dir` found `blocker`.
pub open spec fn way_found<B: FnOnce(&str) -> Option<String>>(
    first_blocker: B,
    dir: Seq<char>,
    blocker: Option<String>,
) -> bool {
    exists|d: &str| d@ == dir && #[trigger] first_blocker.ensures((d,), blocker)
}

/// Whether the worker was found to have no way to its directory, with this error.
pub open spec fn has_no_way<B: FnOnce(&str) -> Option<String>>(
    first_blocker: B,
    dir: Seq<char>,
    e: ErrorView,
) -> bool {
    exists|b: String| #[trigger]
        way_found(first_blocker, dir, Some(b)) && e == ErrorView::Io(
            "the worker identity cannot reach its staging directory "@ + dir + ": "@ + b@
                + " denies traverse to any other identity"@,
        )
}

/// Prepare the directory that the worker writes into: it is created and locked down, and where the
/// worker is dropped to the unprivileged account it is handed to that account, which must be able
/// to reach it.
///
/// Each step is taken only once those before it have succeeded, and the directory is handed over
/// only where the worker is dropped.
///
/// # Errors
///
/// What the first failed step reports, or [`BrokerError::Io`] that names the directory in the way.
pub fn prepare_worker_writable_dir<
    C: FnOnce(&str) -> Result<(), BrokerError>,
    H: FnOnce(&str) -> Result<(), BrokerError>,
    O: FnOnce(&str) -> Result<(), BrokerError>,
    B: FnOnce(&str) -> Option<String>,
>(
    dir: &str,
    sandbox: Sandbox,
    is_root: bool,
    create: C,
    lock_down: H,
    hand_over: O,
    first_blocker: B,
) -> (r: Result<(), BrokerError>)
    requires
        create.requires((dir,)),
        step_came_to(create, dir@, Ok(())) ==> lock_down.requires((dir,)),
        sandbox is Restricted && is_root && step_came_to(create, dir@, Ok(())) && step_came_to(
            lock_down,
            dir@,
            Ok(()),
        ) ==> hand_over.requires((dir,)),
        sandbox is Restricted && is_root && step_came_to(create, dir@, Ok(())) && step_came_to(
            lock_down,
            dir@,
            Ok(()),
        ) && step_came_to(hand_over, dir@, Ok(())) ==> first_blocker.requires((dir,)),
    ensures
        r is Ok ==> step_came_to(create, dir@, Ok(())) && step_came_to(lock_down, dir@, Ok(())) && (
        sandbox is Restricted && is_root ==> step_came_to(hand_over, dir@, Ok(())) && way_found(
            first_blocker,
            dir@,
            None,
        )),
        r is Err ==> {
            ||| step_came_to(create, dir@, r)
            ||| step_came_to(lock_down, dir@, r)
            ||| sandbox is Restricted && is_root && step_came_to(hand_over, dir@, r)
            ||| sandbox is Restricted && is_root && has_no_way(first_blocker, dir@, r->Err_0@)
        },
{
    match create(dir) {
        Ok(u) => {
            assert(u == ());
            assert(step_came_to(create, dir@, Ok(())));
        },
        Err(e) => {
            assert(step_came_to(create, dir@, Err(e)));
            return Err(e);
        },
    }
    match lock_down(dir) {
        Ok(u) => {
            assert(u == ());
            assert(step_came_to(lock_down, dir@, Ok(())));
        },
        Err(e) => {
            assert(step_came_to(lock_down, dir@, Err(e)));
            return Err(e);
        },
    }
    if !sandbox.drops_privilege(is_root) {
        return Ok(());
    }
    match hand_over(dir) {
        Ok(u) => {
            assert(u == ());
            assert(step_came_to(hand_over, dir@, Ok(())));
        },
        Err(e) => {
            assert(step_came_to(hand_over, dir@, Err(e)));
            return Err(e);
        },
    }
    let blocker: Option<String> = first_blocker(dir);
    assert(way_found(first_blocker, dir@, blocker));
    worker_reaches(dir, &blocker)
}

} // verus!
