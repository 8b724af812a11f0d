//! Applying a verified artifact to the host.
//!
//! One invariant carries this module: the bytes that are hashed are the bytes that are installed.
//! The staging directory is writable by the worker, so what lies there is untrusted and can change
//! at any moment. A worker-reported path is refused unless it resolves inside the staging directory
//! ([`contained_staged_path`]); its bytes are read once, into a private copy, and verified there
//! ([`stage_and_verify_private`]); and the install takes the private copy
//! ([`install_from_private`]): a raw binary is swapped into place ([`crate::swap`]), a native
//! package is handed to the system's installer, which is always run by its absolute path.

use vstd::prelude::*;

use crate::error::{error_text, BrokerError, ErrorView};
use crate::hashing::{digest_matches, hex, sha256_of, verify_sha256};
use crate::path::{
    absolute_on, components, is_absolute_on, is_plain,
    is_strictly_within, join, joined, name_of, parent_of, strictly_within, with_ext, with_extension,
};
use crate::plan::{InstallMethod, PlannedComponent};
use crate::swap::{
    a_swap_never_loses_the_target, after_all, aside_of, happened, same_at, start, target_kept,
    Event, Files, SwapStateView,
};
use crate::text::{cat2, cat3, cat4, cat5, opt_view, views};

verus! {

/// The outcome of applying one component's artifact. A failure is a value, so that one stuck
/// component never aborts a whole pass.
#[derive(Debug, Clone, PartialEq, Eq)]
pub enum InstallOutcome {
    /// The artifact was applied.
    Installed,
    /// The target could not be replaced now; the next pass tries again.
    Deferred {
        /// Why the install was put off.
        reason: String,
    },
    /// The install failed outright; the caller rolls the component back.
    Failed {
        /// The failure detail.
        detail: String,
    },
}

/// [`InstallOutcome`] with its texts as sequences.
pub enum OutcomeView {
    Installed,
    Deferred(Seq<char>),
    Failed(Seq<char>),
}

impl View for InstallOutcome {
    type V = OutcomeView;

    open spec fn view(&self) -> OutcomeView {
        match self {
            InstallOutcome::Installed => OutcomeView::Installed,
            InstallOutcome::Deferred { reason } => OutcomeView::Deferred(reason@),
            InstallOutcome::Failed { detail } => OutcomeView::Failed(detail@),
        }
    }
}

impl InstallOutcome {
    /// A copy of the outcome.
    pub(crate) fn duplicate(&self) -> (copy: InstallOutcome)
        ensures
            copy == *self,
    {
        match self {
            InstallOutcome::Installed => InstallOutcome::Installed,
            InstallOutcome::Deferred { reason } => InstallOutcome::Deferred {
                reason: reason.clone(),
            },
            InstallOutcome::Failed { detail } => InstallOutcome::Failed { detail: detail.clone() },
        }
    }
}


/// The extension of the private copy of a raw binary, beside its target.
pub const VERIFIED_RAW_EXT: &'static str = "dig-updater-verified";

/// How often a locked target is tried again, and how many milliseconds lie between two tries.
#[derive(Debug, Clone, Copy, PartialEq, Eq, Structural)]
pub struct RetryPolicy {
    /// How many tries there are before giving up.
    pub attempts: u32,
    /// The wait in milliseconds, multiplied by the number of tries made.
    pub backoff: u64,
}

impl Default for RetryPolicy {
    fn default() -> (policy: Self)
        ensures
            policy == (RetryPolicy { attempts: 5, backoff: 250 }),
    {
        RetryPolicy { attempts: 5, backoff: 250 }
    }
}

// ------------------------------------------------------------------ containment

/// A result with its texts as sequences.
pub open spec fn texts_of(r: Result<String, String>) -> Result<Seq<char>, Seq<char>> {
    match r {
        Ok(p) => Ok(p@),
        Err(e) => Err(e@),
    }
}

/// What becomes of a worker-reported path, from what the staging directory and the path resolve to.
pub open spec fn containment(
    staged_path: Seq<char>,
    staging_dir: Seq<char>,
    component: Seq<char>,
    staging_root: Result<Seq<char>, Seq<char>>,
    resolved: Result<Seq<char>, Seq<char>>,
) -> Result<Seq<char>, ErrorView> {
    match (staging_root, resolved) {
        (Err(e), _) => Err(
            ErrorView::Io("staging dir "@ + staging_dir + " cannot be canonicalized: "@ + e),
        ),
        (Ok(_), Err(e)) => Err(
            ErrorView::StagedPathEscapesStaging(
                component,
                staged_path + " cannot be canonicalized: "@ + e,
            ),
        ),
        (Ok(root), Ok(path)) => if strictly_within(path, root) {
            Ok(path)
        } else {
            Err(
                ErrorView::StagedPathEscapesStaging(
                    component,
                    staged_path + " resolves to "@ + path + ", outside the staging dir "@ + root,
                ),
            )
        },
    }
}

/// A path or an error, with texts as sequences.
pub open spec fn path_of(r: Result<String, BrokerError>) -> Result<Seq<char>, ErrorView> {
    match r {
        Ok(p) => Ok(p@),
        Err(e) => Err(e@),
    }
}

/// Require the worker-reported `staged_path` to lie strictly inside `staging_dir`.
///
/// `staging_root` and `resolved` are what the two resolve to once every symlink and `..` is
/// followed, or why they do not. The resolved path is what the caller then reads.
///
/// # Errors
///
/// [`BrokerError::Io`] if the staging directory does not resolve;
/// [`BrokerError::StagedPathEscapesStaging`] if the path does not resolve, or resolves elsewhere or
/// to the staging directory itself.
pub fn contained_staged_path(
    staged_path: &str,
    staging_dir: &str,
    component: &str,
    staging_root: Result<String, String>,
    resolved: Result<String, String>,
) -> (r: Result<String, BrokerError>)
    ensures
        path_of(r) == containment(
            staged_path@,
            staging_dir@,
            component@,
            texts_of(staging_root),
            texts_of(resolved),
        ),
{
    let root: String = match staging_root {
        Ok(root) => root,
        Err(e) => {
            return Err(
                BrokerError::Io(
                    cat4("staging dir ", staging_dir, " cannot be canonicalized: ", e.as_str()),
                ),
            );
        },
    };
    let path: String = match resolved {
        Ok(path) => path,
        Err(e) => {
            return Err(
                BrokerError::StagedPathEscapesStaging {
                    component: component.to_owned(),
                    detail: cat3(staged_path, " cannot be canonicalized: ", e.as_str()),
                },
            );
        },
    };
    if !is_strictly_within(path.as_str(), root.as_str()) {
        return Err(
            BrokerError::StagedPathEscapesStaging {
                component: component.to_owned(),
                detail: cat5(
                    staged_path,
                    " resolves to ",
                    path.as_str(),
                    ", outside the staging dir ",
                    root.as_str(),
                ),
            },
        );
    }
    Ok(path)
}

// ------------------------------------------------------------------ the private copy

/// Where the private copy of a raw binary lies: beside its target, so that the last step is a
/// rename within one directory.
pub open spec fn private_of(dest: Seq<char>) -> Seq<char> {
    with_ext(dest, VERIFIED_RAW_EXT@)
}

/// Where the verified bytes are copied before the install: beside the target for a raw binary, in
/// the broker's own `apply_dir` for a package, with the extension that its installer expects.
pub open spec fn private_target_of(pc: PlannedComponent, apply_dir: Seq<char>) -> Seq<char> {
    match pc.method {
        InstallMethod::RawBinary => private_of(pc.dest@),
        InstallMethod::WindowsMsi => joined(apply_dir, pc.name@ + ".msi"@),
        InstallMethod::MacosPkg => joined(apply_dir, pc.name@ + ".pkg"@),
        InstallMethod::LinuxDeb => joined(apply_dir, pc.name@ + ".deb"@),
    }
}

/// Computes [`private_target_of`].
#[must_use]
pub fn private_target(pc: &PlannedComponent, apply_dir: &str) -> (path: String)
    ensures
        path@ == private_target_of(*pc, apply_dir@),
{
    match pc.method {
        InstallMethod::RawBinary => with_extension(pc.dest.as_str(), VERIFIED_RAW_EXT),
        InstallMethod::WindowsMsi => {
            let name: String = cat2(pc.name.as_str(), ".msi");
            join(apply_dir, name.as_str())
        },
        InstallMethod::MacosPkg => {
            let name: String = cat2(pc.name.as_str(), ".pkg");
            join(apply_dir, name.as_str())
        },
        InstallMethod::LinuxDeb => {
            let name: String = cat2(pc.name.as_str(), ".deb");
            join(apply_dir, name.as_str())
        },
    }
}

/// Whether `bytes` are those that the digest names.
pub open spec fn are_expected(digest: Seq<char>, bytes: Seq<u8>) -> bool {
    digest_matches(digest, hex(sha256_of(bytes)))
}

/// Whether the staged bytes were read and could not be copied, with this error.
pub open spec fn copy_refused<
    H,
    R: FnOnce(&str) -> Result<Vec<u8>, BrokerError>,
    W: FnOnce(&str, &Vec<u8>, bool) -> Result<H, BrokerError>,
>(staged: &str, private: &str, executable: bool, read: R, write: W, e: BrokerError) -> bool {
    exists|bytes: Vec<u8>|
        read.ensures((staged,), Ok(bytes)) && #[trigger] write.ensures(
            (private, &bytes, executable),
            Err(e),
        )
}

/// Copy the staged artifact into the private file, marked executable where that is asked, and verify
/// that copy. Gives the caller's hold on it, which `write` made.
///
/// The staged bytes are read once; what is written is what is hashed, so a later change of the
/// staged file has no effect on what is installed. Where the digest does not match, the private
/// copy is dropped, and only there.
///
/// # Errors
///
/// What `read` or `write` report; [`BrokerError::StagingReverifyFailed`] if the copied bytes are
/// not those of `expected_digest`.
pub fn stage_and_verify_private<
    H,
    R: FnOnce(&str) -> Result<Vec<u8>, BrokerError>,
    W: FnOnce(&str, &Vec<u8>, bool) -> Result<H, BrokerError>,
    D: FnOnce(H, &str),
>(
    staged: &str,
    private: &str,
    expected_digest: &str,
    component: &str,
    executable: bool,
    read: R,
    write: W,
    drop_private: D,
) -> (r: Result<H, BrokerError>)
    requires
        read.requires((staged,)),
        forall|bytes: Vec<u8>| #[trigger]
            read.ensures((staged,), Ok(bytes)) ==> write.requires((private, &bytes, executable)),
        forall|bytes: Vec<u8>, held: H|
            read.ensures((staged,), Ok(bytes)) && #[trigger] write.ensures(
                (private, &bytes, executable),
                Ok(held),
            ) && !are_expected(expected_digest@, bytes@) ==> drop_private.requires((held, private)),
    ensures
        r matches Ok(held) ==> exists|bytes: Vec<u8>|
            read.ensures((staged,), Ok(bytes)) && #[trigger] write.ensures(
                (private, &bytes, executable),
                Ok(held),
            ) && are_expected(expected_digest@, bytes@),
        r matches Err(e) ==> {
            ||| read.ensures((staged,), Err(e))
            ||| copy_refused(staged, private, executable, read, write, e)
            ||| exists|bytes: Vec<u8>, held: H|
                read.ensures((staged,), Ok(bytes)) && #[trigger] write.ensures(
                    (private, &bytes, executable),
                    Ok(held),
                ) && !are_expected(expected_digest@, bytes@) && drop_private.ensures(
                    (held, private),
                    (),
                ) && e@ == ErrorView::StagingReverifyFailed(
                    component@,
                    "expected "@ + expected_digest@ + ", got "@ + hex(sha256_of(bytes@)),
                )
        },
{
    let bytes: Vec<u8> = match read(staged) {
        Ok(bytes) => bytes,
        Err(e) => return Err(e),
    };
    let held: H = match write(private, &bytes, executable) {
        Ok(held) => held,
        Err(e) => {
            assert(copy_refused(staged, private, executable, read, write, e));
            return Err(e);
        },
    };
    let ghost copy = held;
    assert(write.ensures((private, &bytes, executable), Ok(copy)));
    match verify_sha256(expected_digest, bytes.as_slice()) {
        Ok(_) => Ok(held),
        Err(detail) => {
            drop_private(held, private);
            Err(
                BrokerError::StagingReverifyFailed { component: component.to_owned(), detail },
            )
        },
    }
}

// ------------------------------------------------------------------ retries

/// Why a rename failed.
#[derive(Debug, Clone, PartialEq, Eq)]
pub struct RenameError {
    /// The system's error code, where there is one.
    pub code: Option<i32>,
    /// The error in words.
    pub text: String,
}

/// Whether an error code says that the target is in use by a running process: a sharing violation,
/// a lock violation or a mapped file on Windows, a busy text file elsewhere. An error of access is
/// not among them: it does not clear by waiting.
pub open spec fn means_in_use(code: Option<i32>, windows: bool) -> bool {
    match code {
        Some(n) => if windows {
            n == 32 || n == 33 || n == 1224
        } else {
            n == 26
        },
        None => false,
    }
}

/// Computes [`means_in_use`].
#[must_use]
pub fn is_file_in_use(code: Option<i32>, windows: bool) -> (r: bool)
    ensures
        r == means_in_use(code, windows),
{
    match code {
        Some(n) => if windows {
            n == 32 || n == 33 || n == 1224
        } else {
            n == 26
        },
        None => false,
    }
}

/// How many tries a policy makes: at least one.
pub open spec fn tries_of(policy: RetryPolicy) -> nat {
    if policy.attempts == 0 {
        1
    } else {
        policy.attempts as nat
    }
}

/// Whether the try with this number found the target in use.
pub open spec fn found_in_use<J, R: Fn(J, &str, &str, u32) -> (J, Result<(), RenameError>)>(
    windows: bool,
    rename: R,
    from: &str,
    to: &str,
    n: u32,
) -> bool {
    exists|before: J, after: J, e: RenameError| #[trigger]
        rename.ensures((before, from, to, n), (after, Err(e))) && means_in_use(e.code, windows)
}

/// How many milliseconds a policy waits before the try with this number.
pub open spec fn backoff_before(policy: RetryPolicy, n: u32) -> int {
    policy.backoff * n
}

/// Whether the wait before the try with this number was made. A policy without a backoff makes
/// none.
pub open spec fn waited<S: Fn(u64)>(policy: RetryPolicy, sleep: S, n: u32) -> bool {
    policy.backoff > 0 ==> sleep.ensures((backoff_before(policy, n) as u64,), ())
}

/// Whether `millis` may be waited: it is the wait before a further try, once the one before it found
/// the target in use.
pub open spec fn may_wait<J, R: Fn(J, &str, &str, u32) -> (J, Result<(), RenameError>)>(
    policy: RetryPolicy,
    windows: bool,
    rename: R,
    from: &str,
    to: &str,
    millis: u64,
) -> bool {
    exists|n: u32|
        0 < n < policy.attempts && millis > 0 && #[trigger] backoff_before(policy, n) == millis
            && found_in_use(windows, rename, from, to, (n - 1) as u32)
}

/// Whether a try found the target in use.
pub open spec fn is_busy(windows: bool, r: Result<(), RenameError>) -> bool {
    r matches Err(e) && means_in_use(e.code, windows)
}

/// Whether the tries were made one after the other, with the journal handed from each to the next:
/// every one but the last found the target in use, and the wait before each further one was made.
pub open spec fn tried_in_turn<
    J,
    R: Fn(J, &str, &str, u32) -> (J, Result<(), RenameError>),
    S: Fn(u64),
>(
    policy: RetryPolicy,
    windows: bool,
    rename: R,
    from: &str,
    to: &str,
    sleep: S,
    tries: Seq<Result<(), RenameError>>,
    journals: Seq<J>,
) -> bool {
    &&& journals.len() == tries.len() + 1
    &&& forall|i: int|
        0 <= i < tries.len() ==> rename.ensures(
            (journals[i], from, to, i as u32),
            (journals[i + 1], #[trigger] tries[i]),
        )
    &&& forall|i: int| 0 <= i < tries.len() - 1 ==> is_busy(windows, #[trigger] tries[i])
    &&& forall|i: int| 0 < i < tries.len() ==> #[trigger] waited(policy, sleep, i as u32)
}

/// Whether the try with this number may be made, where the journal has come from `first` to `now`:
/// all tries before it found the target in use, and the wait before it is over.
pub open spec fn may_try<J, R: Fn(J, &str, &str, u32) -> (J, Result<(), RenameError>), S: Fn(u64)>(
    policy: RetryPolicy,
    windows: bool,
    rename: R,
    from: &str,
    to: &str,
    sleep: S,
    first: J,
    now: J,
    n: u32,
) -> bool {
    exists|tries: Seq<Result<(), RenameError>>, journals: Seq<J>|
        {
            &&& #[trigger] tried_in_turn(policy, windows, rename, from, to, sleep, tries, journals)
            &&& journals[0] == first
            &&& journals.last() == now
            &&& tries.len() == n
            &&& n > 0 ==> n < policy.attempts && is_busy(windows, tries.last()) && waited(
                policy,
                sleep,
                n,
            )
        }
}

/// Whether `tries` is how a rename was tried: the last one succeeded, failed for another reason than
/// that the target is in use, or was the last that the policy allows.
pub open spec fn tried<J, R: Fn(J, &str, &str, u32) -> (J, Result<(), RenameError>), S: Fn(u64)>(
    policy: RetryPolicy,
    windows: bool,
    rename: R,
    from: &str,
    to: &str,
    sleep: S,
    first: J,
    tries: Seq<Result<(), RenameError>>,
    last: J,
) -> bool {
    &&& 0 < tries.len() <= tries_of(policy)
    &&& exists|journals: Seq<J>|
        {
            &&& #[trigger] tried_in_turn(policy, windows, rename, from, to, sleep, tries, journals)
            &&& journals[0] == first
            &&& journals.last() == last
        }
    &&& is_busy(windows, tries.last()) ==> tries.len() == tries_of(policy)
}

/// Rename `from` to `to` with retries while the target is in use, waiting longer after every try. An error of
/// another kind does not clear by waiting and ends the tries at once.
///
/// `rename` is told the two paths and how many tries came before. It takes the caller's journal and gives it back, and
/// may be called again only where the target was in use and the wait is over.
///
/// # Errors
///
/// The last error.
pub fn retry_rename<J, R: Fn(J, &str, &str, u32) -> (J, Result<(), RenameError>), S: Fn(u64)>(
    policy: &RetryPolicy,
    windows: bool,
    from: &str,
    to: &str,
    journal: J,
    rename: &R,
    sleep: &S,
) -> (r: (J, Result<(), RenameError>))
    requires
        policy.backoff * policy.attempts <= u64::MAX,
        forall|now: J, n: u32|
            may_try(*policy, windows, *rename, from, to, *sleep, journal, now, n)
                ==> #[trigger] rename.requires((now, from, to, n)),
        forall|millis: u64|
            may_wait(*policy, windows, *rename, from, to, millis) ==> #[trigger] sleep.requires((millis,)),
    ensures
        exists|tries: Seq<Result<(), RenameError>>| #[trigger]
            tried(*policy, windows, *rename, from, to, *sleep, journal, tries, r.0) && r.1 == tries.last(),
{
    let most: u32 = if policy.attempts == 0 {
        1
    } else {
        policy.attempts
    };
    let mut attempt: u32 = 0;
    let ghost first = journal;
    let ghost mut tries: Seq<Result<(), RenameError>> = Seq::empty();
    let ghost mut journals: Seq<J> = seq![journal];
    let mut now: J = journal;
    loop
        invariant
            attempt < most,
            most == tries_of(*policy),
            policy.backoff * policy.attempts <= u64::MAX,
            first == journal,
            forall|now: J, n: u32|
                may_try(*policy, windows, *rename, from, to, *sleep, first, now, n)
                    ==> #[trigger] rename.requires((now, from, to, n)),
            forall|millis: u64|
                may_wait(*policy, windows, *rename, from, to, millis) ==> #[trigger] sleep.requires(
                    (millis,),
                ),
            tries.len() == attempt,
            tried_in_turn(*policy, windows, *rename, from, to, *sleep, tries, journals),
            attempt > 0 ==> attempt < policy.attempts && is_busy(windows, tries.last()) && waited(
                *policy,
                *sleep,
                attempt,
            ),
            journals[0] == first,
            journals.last() == now,
        decreases most - attempt,
    {
        let ghost before = now;
        assert(may_try(*policy, windows, *rename, from, to, *sleep, first, before, attempt));
        let (after, result) = rename(now, from, to, attempt);
        proof {
            lemma_tried_push(
                *policy,
                windows,
                *rename,
                from,
                to,
                *sleep,
                tries,
                journals,
                result,
                after,
            );
            tries = tries.push(result);
            journals = journals.push(after);
        }
        now = after;
        match result {
            Ok(u) => {
                let r: (J, Result<(), RenameError>) = (now, Ok(u));
                assert(tried(*policy, windows, *rename, from, to, *sleep, first, tries, r.0));
                return r;
            },
            Err(e) => {
                if !is_file_in_use(e.code, windows) || attempt + 1 == most {
                    let r: (J, Result<(), RenameError>) = (now, Err(e));
                    assert(tried(*policy, windows, *rename, from, to, *sleep, first, tries, r.0));
                    return r;
                }
                assert(rename.ensures((before, from, to, attempt), (after, Err(e))));
                assert(found_in_use(windows, *rename, from, to, attempt));
                let ghost next: u32 = (attempt + 1) as u32;
                if policy.backoff > 0 {
                    proof {
                        assert(policy.backoff * next <= policy.backoff * policy.attempts)
                            by (nonlinear_arith)
                            requires
                                next <= policy.attempts,
                                0 <= policy.backoff,
                        ;
                        assert(policy.backoff * next > 0) by (nonlinear_arith)
                            requires
                                next > 0,
                                policy.backoff > 0,
                        ;
                        assert(backoff_before(*policy, next) == policy.backoff * next);
                        assert(may_wait(
                            *policy,
                            windows,
                            *rename,
                            from,
                            to,
                            backoff_before(*policy, next) as u64,
                        ));
                    }
                    let millis: u64 = policy.backoff * (attempt as u64 + 1);
                    sleep(millis);
                }
                assert(waited(*policy, *sleep, next));
            },
        }
        attempt = attempt + 1;
    }
}

proof fn lemma_tried_push<
    J,
    R: Fn(J, &str, &str, u32) -> (J, Result<(), RenameError>),
    S: Fn(u64),
>(
    policy: RetryPolicy,
    windows: bool,
    rename: R,
    from: &str,
    to: &str,
    sleep: S,
    tries: Seq<Result<(), RenameError>>,
    journals: Seq<J>,
    result: Result<(), RenameError>,
    after: J,
)
    requires
        tried_in_turn(policy, windows, rename, from, to, sleep, tries, journals),
        tries.len() <= u32::MAX,
        tries.len() > 0 ==> is_busy(windows, tries.last()) && waited(
            policy,
            sleep,
            tries.len() as u32,
        ),
        rename.ensures((journals.last(), from, to, tries.len() as u32), (after, result)),
    ensures
        tried_in_turn(policy, windows, rename, from, to, sleep, tries.push(result), journals.push(after)),
{
    let more = tries.push(result);
    let longer = journals.push(after);
    assert forall|i: int| 0 <= i < more.len() implies rename.ensures(
        (longer[i], from, to, i as u32),
        (longer[i + 1], #[trigger] more[i]),
    ) by {
        if i < tries.len() {
            assert(more[i] == tries[i]);
        }
    }
    assert forall|i: int| 0 <= i < more.len() - 1 implies is_busy(windows, #[trigger] more[i]) by {
        assert(more[i] == tries[i]);
    }
}

// ------------------------------------------------------------------ a component's binaries

/// Replacing `to` by `from` came to `outcome`, and took the journal from `before` to `after`.
pub open spec fn replaced<J, S: Fn(J, &str, &str) -> (J, InstallOutcome)>(
    replace: S,
    before: J,
    from: Seq<char>,
    to: Seq<char>,
    outcome: OutcomeView,
    after: J,
) -> bool {
    exists|a: &str, b: &str, o: InstallOutcome|
        a@ == from && b@ == to && o@ == outcome && #[trigger] replace.ensures(
            (before, a, b),
            (after, o),
        )
}

/// Copying `from` to `to` came to `r`, and took the journal from `before` to `after`.
pub open spec fn copied<J, C: Fn(J, &str, &str) -> (J, Result<(), BrokerError>)>(
    copy: C,
    before: J,
    from: Seq<char>,
    to: Seq<char>,
    r: Result<(), BrokerError>,
    after: J,
) -> bool {
    exists|a: &str, b: &str|
        a@ == from && b@ == to && #[trigger] copy.ensures((before, a, b), (after, r))
}

/// Whether an alias was refreshed from the bytes at `dest`: they were copied beside it and then
/// swapped in.
pub open spec fn alias_refreshed<
    J,
    S: Fn(J, &str, &str) -> (J, InstallOutcome),
    C: Fn(J, &str, &str) -> (J, Result<(), BrokerError>),
>(replace: S, copy: C, dest: Seq<char>, alias: Seq<char>, before: J, after: J) -> bool {
    exists|between: J|
        #[trigger] copied(copy, before, dest, private_of(alias), Ok(()), between)
            && #[trigger] replaced(
            replace,
            between,
            private_of(alias),
            alias,
            OutcomeView::Installed,
            after,
        )
}

/// Whether the first aliases were refreshed one after the other, with the journal handed from each
/// to the next.
pub open spec fn refreshed_in_turn<
    J,
    S: Fn(J, &str, &str) -> (J, InstallOutcome),
    C: Fn(J, &str, &str) -> (J, Result<(), BrokerError>),
>(
    replace: S,
    copy: C,
    dest: Seq<char>,
    aliases: Seq<Seq<char>>,
    done: int,
    journals: Seq<J>,
) -> bool {
    &&& 0 <= done <= aliases.len()
    &&& journals.len() == done + 1
    &&& forall|i: int|
        0 <= i < done ==> alias_refreshed(
            replace,
            copy,
            dest,
            #[trigger] aliases[i],
            journals[i],
            journals[i + 1],
        )
}

/// Whether the primary was replaced and then the first `done` aliases were refreshed, with the
/// journal from `first` to `now`.
pub open spec fn set_reached<
    J,
    S: Fn(J, &str, &str) -> (J, InstallOutcome),
    C: Fn(J, &str, &str) -> (J, Result<(), BrokerError>),
>(
    replace: S,
    copy: C,
    private: Seq<char>,
    dest: Seq<char>,
    aliases: Seq<Seq<char>>,
    first: J,
    done: int,
    now: J,
) -> bool {
    exists|journals: Seq<J>|
        {
            &&& #[trigger] refreshed_in_turn(replace, copy, dest, aliases, done, journals)
            &&& replaced(replace, first, private, dest, OutcomeView::Installed, journals[0])
            &&& journals.last() == now
        }
}

/// Whether refreshing an alias ended the install with `outcome`.
pub open spec fn alias_stopped<
    J,
    S: Fn(J, &str, &str) -> (J, InstallOutcome),
    C: Fn(J, &str, &str) -> (J, Result<(), BrokerError>),
>(
    replace: S,
    copy: C,
    dest: Seq<char>,
    alias: Seq<char>,
    before: J,
    outcome: OutcomeView,
) -> bool {
    ||| exists|e: BrokerError, after: J| #[trigger]
        copied(copy, before, dest, private_of(alias), Err(e), after) && outcome
            == OutcomeView::Failed(
            "could not derive alias "@ + alias + " from the verified primary "@ + (dest + ": "@
                + error_text(e@)),
        )
    ||| outcome !is Installed && exists|between: J, after: J|
        #[trigger] copied(copy, before, dest, private_of(alias), Ok(()), between)
            && #[trigger] replaced(replace, between, private_of(alias), alias, outcome, after)
}

/// Whether the primary was replaced, the first `done` aliases were refreshed, and the install then
/// ended with `outcome`: because that was all of them, or because the next one could not be
/// refreshed.
pub open spec fn aliases_ended<
    J,
    S: Fn(J, &str, &str) -> (J, InstallOutcome),
    C: Fn(J, &str, &str) -> (J, Result<(), BrokerError>),
>(
    replace: S,
    copy: C,
    private: Seq<char>,
    dest: Seq<char>,
    aliases: Seq<Seq<char>>,
    first: J,
    done: int,
    now: J,
    outcome: OutcomeView,
) -> bool {
    &&& set_reached(replace, copy, private, dest, aliases, first, done, now)
    &&& if done == aliases.len() {
        outcome is Installed
    } else {
        alias_stopped(replace, copy, dest, aliases[done], now, outcome)
    }
}

/// Whether `outcome` is how installing a raw binary and its aliases ended.
pub open spec fn set_ended<
    J,
    S: Fn(J, &str, &str) -> (J, InstallOutcome),
    C: Fn(J, &str, &str) -> (J, Result<(), BrokerError>),
>(
    replace: S,
    copy: C,
    private: Seq<char>,
    dest: Seq<char>,
    aliases: Seq<Seq<char>>,
    first: J,
    outcome: OutcomeView,
) -> bool {
    ||| outcome !is Installed && exists|after: J| #[trigger]
        replaced(replace, first, private, dest, outcome, after)
    ||| exists|done: int, now: J| #[trigger]
        aliases_ended(replace, copy, private, dest, aliases, first, done, now, outcome)
}

/// Whether `b` may be copied from `a`, where the journal has come from `first` to `now`: it is the
/// private copy of the next alias, from the primary, once that is in place and all aliases before
/// are refreshed.
pub open spec fn may_copy<
    J,
    S: Fn(J, &str, &str) -> (J, InstallOutcome),
    C: Fn(J, &str, &str) -> (J, Result<(), BrokerError>),
>(
    replace: S,
    copy: C,
    private: Seq<char>,
    dest: Seq<char>,
    aliases: Seq<Seq<char>>,
    first: J,
    now: J,
    a: Seq<char>,
    b: Seq<char>,
) -> bool {
    a == dest && exists|done: int|
        #[trigger] set_reached(replace, copy, private, dest, aliases, first, done, now) && done
            < aliases.len() && b == private_of(aliases[done])
}

/// Whether `b` may be replaced by `a`, where the journal has come from `first` to `now`: the primary
/// by the verified copy, first of all; and the next alias by its own copy, once that was made.
pub open spec fn may_replace<
    J,
    S: Fn(J, &str, &str) -> (J, InstallOutcome),
    C: Fn(J, &str, &str) -> (J, Result<(), BrokerError>),
>(
    replace: S,
    copy: C,
    private: Seq<char>,
    dest: Seq<char>,
    aliases: Seq<Seq<char>>,
    first: J,
    now: J,
    a: Seq<char>,
    b: Seq<char>,
) -> bool {
    ||| now == first && a == private && b == dest
    ||| exists|done: int, before: J|
        #[trigger] set_reached(replace, copy, private, dest, aliases, first, done, before) && done
            < aliases.len() && #[trigger] copied(copy, before, dest, a, Ok(()), now) && a
            == private_of(aliases[done]) && b == aliases[done]
}

proof fn lemma_refreshed_push<
    J,
    S: Fn(J, &str, &str) -> (J, InstallOutcome),
    C: Fn(J, &str, &str) -> (J, Result<(), BrokerError>),
>(
    replace: S,
    copy: C,
    dest: Seq<char>,
    aliases: Seq<Seq<char>>,
    done: int,
    journals: Seq<J>,
    after: J,
)
    requires
        refreshed_in_turn(replace, copy, dest, aliases, done, journals),
        done < aliases.len(),
        alias_refreshed(replace, copy, dest, aliases[done], journals.last(), after),
    ensures
        refreshed_in_turn(replace, copy, dest, aliases, done + 1, journals.push(after)),
{
    let longer = journals.push(after);
    assert forall|i: int| 0 <= i < done + 1 implies alias_refreshed(
        replace,
        copy,
        dest,
        #[trigger] aliases[i],
        longer[i],
        longer[i + 1],
    ) by {
        if i < done {
            assert(alias_refreshed(
                replace,
                copy,
                dest,
                aliases[i],
                journals[i],
                journals[i + 1],
            ));
        }
    }
}

/// Replace the primary binary, then refresh every alias from the verified bytes just placed there:
/// never from another source, so that an alias cannot diverge. The aliases are touched only once
/// the primary is in place, and the first that cannot be refreshed ends the install.
///
/// Both steps take the caller's journal and give it back, so that no binary is touched beside those
/// that the journal tells of.
pub fn install_raw_binary_set<
    J,
    S: Fn(J, &str, &str) -> (J, InstallOutcome),
    C: Fn(J, &str, &str) -> (J, Result<(), BrokerError>),
>(
    dest: &str,
    aliases: &Vec<String>,
    private: &str,
    journal: J,
    replace: &S,
    copy: &C,
) -> (outcome: InstallOutcome)
    requires
        forall|now: J, a: &str, b: &str|
            may_replace(
                *replace,
                *copy,
                private@,
                dest@,
                views(aliases@),
                journal,
                now,
                a@,
                b@,
            ) ==> #[trigger] replace.requires((now, a, b)),
        forall|now: J, a: &str, b: &str|
            may_copy(
                *replace,
                *copy,
                private@,
                dest@,
                views(aliases@),
                journal,
                now,
                a@,
                b@,
            ) ==> #[trigger] copy.requires((now, a, b)),
    ensures
        set_ended(*replace, *copy, private@, dest@, views(aliases@), journal, outcome@),
{
    let ghost first = journal;
    let ghost all = views(aliases@);
    assert(may_replace(*replace, *copy, private@, dest@, all, first, first, private@, dest@));
    let (placed, primary) = replace(journal, private, dest);
    assert(replaced(*replace, first, private@, dest@, primary@, placed));
    match &primary {
        InstallOutcome::Installed => {},
        _ => return primary,
    }
    let ghost mut journals: Seq<J> = seq![placed];
    let mut now: J = placed;
    let mut i: usize = 0;
    while i < aliases.len()
        invariant
            i <= aliases@.len(),
            all == views(aliases@),
            first == journal,
            forall|now: J, a: &str, b: &str|
                may_replace(*replace, *copy, private@, dest@, all, first, now, a@, b@)
                    ==> #[trigger] replace.requires((now, a, b)),
            forall|now: J, a: &str, b: &str|
                may_copy(*replace, *copy, private@, dest@, all, first, now, a@, b@)
                    ==> #[trigger] copy.requires((now, a, b)),
            replaced(*replace, first, private@, dest@, OutcomeView::Installed, journals[0]),
            refreshed_in_turn(*replace, *copy, dest@, all, i as int, journals),
            journals.last() == now,
        decreases aliases@.len() - i,
    {
        let alias: &String = &aliases[i];
        let alias_private: String = with_extension(alias.as_str(), VERIFIED_RAW_EXT);
        let ghost before = now;
        proof {
            assert(all[i as int] == alias@);
            assert(set_reached(
                *replace,
                *copy,
                private@,
                dest@,
                all,
                first,
                i as int,
                before,
            ));
            assert(may_copy(
                *replace,
                *copy,
                private@,
                dest@,
                all,
                first,
                before,
                dest@,
                alias_private@,
            ));
        }
        let (between, made) = copy(now, dest, alias_private.as_str());
        assert(copied(*copy, before, dest@, private_of(alias@), made, between));
        match made {
            Ok(u) => assert(u == ()),
            Err(e) => {
                let why: String = e.message();
                let tail: String = cat3(dest, ": ", why.as_str());
                let detail: String = cat4(
                    "could not derive alias ",
                    alias.as_str(),
                    " from the verified primary ",
                    tail.as_str(),
                );
                let outcome = InstallOutcome::Failed { detail };
                proof {
                    assert(copied(*copy, before, dest@, private_of(alias@), Err(e), between));
                    assert(alias_stopped(*replace, *copy, dest@, alias@, before, outcome@));
                    assert(aliases_ended(
                        *replace,
                        *copy,
                        private@,
                        dest@,
                        all,
                        first,
                        i as int,
                        before,
                        outcome@,
                    ));
                }
                return outcome;
            },
        }
        let ghost halfway = between;
        assert(copied(*copy, before, dest@, alias_private@, Ok(()), halfway));
        assert(may_replace(
            *replace,
            *copy,
            private@,
            dest@,
            all,
            first,
            halfway,
            alias_private@,
            alias@,
        ));
        let (after, outcome) = replace(between, alias_private.as_str(), alias.as_str());
        assert(replaced(*replace, halfway, private_of(alias@), alias@, outcome@, after));
        match &outcome {
            InstallOutcome::Installed => {},
            _ => {
                proof {
                    assert(alias_stopped(*replace, *copy, dest@, alias@, before, outcome@));
                    assert(aliases_ended(
                        *replace,
                        *copy,
                        private@,
                        dest@,
                        all,
                        first,
                        i as int,
                        before,
                        outcome@,
                    ));
                }
                return outcome;
            },
        }
        proof {
            assert(alias_refreshed(*replace, *copy, dest@, all[i as int], before, after));
            lemma_refreshed_push(*replace, *copy, dest@, all, i as int, journals, after);
            journals = journals.push(after);
        }
        now = after;
        i = i + 1;
    }
    proof {
        assert(set_reached(*replace, *copy, private@, dest@, all, first, i as int, now));
        assert(aliases_ended(
            *replace,
            *copy,
            private@,
            dest@,
            all,
            first,
            i as int,
            now,
            OutcomeView::Installed,
        ));
    }
    InstallOutcome::Installed
}

// ------------------------------------------------------------------ native installers

/// What lies at a path.
#[derive(Debug, Clone, PartialEq, Eq)]
pub enum FileLook {
    /// A regular file.
    File,
    /// Something else.
    Other,
    /// Nothing that can be looked at, and why.
    Missing(String),
}

/// Looking at `path` gave `found`.
pub open spec fn looked_at<L: Fn(&str) -> FileLook>(
    look: L,
    path: Seq<char>,
    found: FileLook,
) -> bool {
    exists|p: &str| p@ == path && #[trigger] look.ensures((p,), found)
}

/// What becomes of a path at which `found` lies.
pub open spec fn trust_in(path: Seq<char>, found: FileLook) -> Result<Seq<char>, Seq<char>> {
    match found {
        FileLook::File => Ok(path),
        FileLook::Other => Err(path + " is not a regular file"@),
        FileLook::Missing(e) => Err("trusted installer not found at "@ + path + ": "@ + e@),
    }
}

/// Whether `r` is the answer on a path: it is refused unless it is absolute and names an existing
/// regular file.
pub open spec fn trusted<L: Fn(&str) -> FileLook>(
    look: L,
    windows: bool,
    path: Seq<char>,
    r: Result<Seq<char>, Seq<char>>,
) -> bool {
    if absolute_on(path, windows) {
        exists|found: FileLook| #[trigger]
            looked_at(look, path, found) && r == trust_in(path, found)
    } else {
        r == Err::<Seq<char>, Seq<char>>(path + " is not an absolute path"@)
    }
}

/// `path` itself, where it is absolute and names an existing regular file: a missing system tool
/// never falls through to a search by name.
///
/// # Errors
///
/// Why the path is refused.
pub fn trusted_absolute<L: Fn(&str) -> FileLook>(path: String, windows: bool, look: &L) -> (r:
    Result<String, String>)
    requires
        forall|p: &str| absolute_on(p@, windows) ==> #[trigger] look.requires((p,)),
    ensures
        trusted(*look, windows, path@, texts_of(r)),
{
    if !is_absolute_on(path.as_str(), windows) {
        return Err(cat2(path.as_str(), " is not an absolute path"));
    }
    let found: FileLook = look(path.as_str());
    assert(looked_at(*look, path@, found));
    match found {
        FileLook::File => Ok(path),
        FileLook::Other => Err(cat2(path.as_str(), " is not a regular file")),
        FileLook::Missing(e) => Err(
            cat4("trusted installer not found at ", path.as_str(), ": ", e.as_str()),
        ),
    }
}

/// The texts, with a comma and a space between them.
pub open spec fn listed(paths: Seq<Seq<char>>) -> Seq<char>
    decreases paths.len(),
{
    if paths.len() == 0 {
        Seq::empty()
    } else if paths.len() == 1 {
        paths[0]
    } else {
        listed(paths.drop_last()) + ", "@ + paths.last()
    }
}

/// Computes [`listed`].
#[must_use]
pub fn list_of(texts: &Vec<String>) -> (list: String)
    ensures
        list@ == listed(views(texts@)),
{
    let mut all: String = String::new();
    let mut i: usize = 0;
    assert(all@ =~= listed(views(texts@).take(0)));
    while i < texts.len()
        invariant
            i <= texts@.len(),
            all@ == listed(views(texts@).take(i as int)),
        decreases texts@.len() - i,
    {
        let text: &String = &texts[i];
        proof {
            let upto = views(texts@).take(i + 1);
            assert(views(texts@)[i as int] == text@);
            assert(upto.drop_last() =~= views(texts@).take(i as int));
            assert(upto.last() == text@);
        }
        if i > 0 {
            all.append(", ");
        }
        all.append(text.as_str());
        proof {
            assert(all@ =~= listed(views(texts@).take(i + 1)));
        }
        i = i + 1;
    }
    assert(views(texts@).take(i as int) =~= views(texts@));
    all
}

/// Whether a path is refused.
pub open spec fn refused<L: Fn(&str) -> FileLook>(look: L, windows: bool, path: Seq<char>) -> bool {
    exists|why: Seq<char>| #[trigger] trusted(look, windows, path, Err(why))
}

/// Whether `r` is the first of the candidates that is trusted.
pub open spec fn first_of<L: Fn(&str) -> FileLook>(
    look: L,
    windows: bool,
    candidates: Seq<Seq<char>>,
    r: Result<Seq<char>, Seq<char>>,
) -> bool {
    match r {
        Ok(path) => exists|k: int|
            {
                &&& 0 <= k < candidates.len()
                &&& path == #[trigger] candidates[k]
                &&& trusted(look, windows, candidates[k], Ok(path))
                &&& forall|j: int|
                    0 <= j < k ==> refused(look, windows, #[trigger] candidates[j])
            },
        Err(why) => {
            &&& why == "no trusted installer found at any of: "@ + listed(candidates)
            &&& forall|j: int|
                0 <= j < candidates.len() ==> refused(look, windows, #[trigger] candidates[j])
        },
    }
}

/// The first of the candidates that [`trusted_absolute`] accepts.
///
/// # Errors
///
/// All candidates, if none is accepted.
pub fn first_trusted<L: Fn(&str) -> FileLook>(
    candidates: &Vec<String>,
    windows: bool,
    look: &L,
) -> (r: Result<String, String>)
    requires
        forall|p: &str| absolute_on(p@, windows) ==> #[trigger] look.requires((p,)),
    ensures
        first_of(*look, windows, views(candidates@), texts_of(r)),
{
    let mut i: usize = 0;
    while i < candidates.len()
        invariant
            i <= candidates@.len(),
            forall|p: &str| absolute_on(p@, windows) ==> #[trigger] look.requires((p,)),
            forall|j: int|
                0 <= j < i ==> refused(*look, windows, #[trigger] views(candidates@)[j]),
        decreases candidates@.len() - i,
    {
        let candidate: &String = &candidates[i];
        assert(views(candidates@)[i as int] == candidate@);
        match trusted_absolute(candidate.clone(), windows, look) {
            Ok(path) => {
                proof {
                    assert(trusted(*look, windows, candidate@, Ok(path@)));
                    assert(path@ == candidate@) by {
                        if absolute_on(candidate@, windows) {
                            let found = choose|found: FileLook| #[trigger]
                                looked_at(*look, candidate@, found)
                                    && Ok::<Seq<char>, Seq<char>>(path@) == trust_in(
                                    candidate@,
                                    found,
                                );
                            assert(found is File);
                        }
                    }
                    assert(views(candidates@)[i as int] == path@);
                }
                return Ok(path);
            },
            Err(why) => {
                assert(trusted(*look, windows, candidate@, Err(why@)));
                assert(refused(*look, windows, views(candidates@)[i as int]));
            },
        }
        i = i + 1;
    }
    let all: String = list_of(candidates);
    Err(cat2("no trusted installer found at any of: ", all.as_str()))
}

/// The operating system that a pass runs on.
#[derive(Debug, Clone, Copy, PartialEq, Eq, Structural)]
pub enum HostOs {
    /// Windows.
    Windows,
    /// macOS.
    Macos,
    /// Linux.
    Linux,
    /// Any other.
    Other,
}

/// What the system's installers are found by.
#[derive(Debug, Clone, PartialEq, Eq)]
pub struct Host {
    /// The operating system.
    pub os: HostOs,
    /// `%SystemRoot%`.
    pub system_root: Option<String>,
    /// `%windir%`.
    pub windir: Option<String>,
}

/// The Windows directory: `%SystemRoot%`, else `%windir%`.
pub open spec fn windows_dir(host: Host) -> Option<Seq<char>> {
    match opt_view(host.system_root) {
        Some(root) => Some(root),
        None => opt_view(host.windir),
    }
}

/// Where a tool of the Windows directory lies.
pub open spec fn system32(root: Seq<char>, tool: Seq<char>) -> Seq<char> {
    joined(joined(root, "System32"@), tool)
}

/// The path of a tool of the Windows directory, if it can be trusted.
///
/// # Errors
///
/// Why it cannot: no variable names the directory, or [`trusted_absolute`] refuses it.
pub fn system32_tool<L: Fn(&str) -> FileLook>(host: &Host, tool: &str, look: &L) -> (r: Result<
    String,
    String,
>)
    requires
        forall|p: &str| absolute_on(p@, true) ==> #[trigger] look.requires((p,)),
    ensures
        match windows_dir(*host) {
            None => texts_of(r) == Err::<Seq<char>, Seq<char>>(
                "neither %SystemRoot% nor %windir% is set"@,
            ),
            Some(root) => trusted(*look, true, system32(root, tool@), texts_of(r)),
        },
{
    let root: &str = match &host.system_root {
        Some(root) => root.as_str(),
        None => match &host.windir {
            Some(root) => root.as_str(),
            None => return Err("neither %SystemRoot% nor %windir% is set".to_owned()),
        },
    };
    let dir: String = join(root, "System32");
    trusted_absolute(join(dir.as_str(), tool), true, look)
}

/// Whether `r` is the installer program for packages of the kind.
pub open spec fn program_found<L: Fn(&str) -> FileLook>(
    host: Host,
    method: InstallMethod,
    look: L,
    r: Result<Seq<char>, Seq<char>>,
) -> bool {
    match method {
        InstallMethod::WindowsMsi => if host.os is Windows {
            match windows_dir(host) {
                None => r == Err::<Seq<char>, Seq<char>>(
                    "neither %SystemRoot% nor %windir% is set"@,
                ),
                Some(root) => trusted(look, true, system32(root, "msiexec.exe"@), r),
            }
        } else {
            r == Err::<Seq<char>, Seq<char>>("msiexec is only available on Windows"@)
        },
        InstallMethod::MacosPkg => if host.os is Macos {
            trusted(look, false, "/usr/sbin/installer"@, r)
        } else {
            r == Err::<Seq<char>, Seq<char>>(
                "the flat-package installer is only available on macOS"@,
            )
        },
        InstallMethod::LinuxDeb => if host.os is Linux {
            first_of(look, false, seq!["/usr/bin/dpkg"@, "/bin/dpkg"@], r)
        } else {
            r == Err::<Seq<char>, Seq<char>>("dpkg is only available on Linux"@)
        },
        InstallMethod::RawBinary => false,
    }
}

/// The silent-install command for a package: the program and its arguments.
pub open spec fn command_for(method: InstallMethod, program: Seq<char>, pkg: Seq<char>) -> Seq<
    Seq<char>,
> {
    match method {
        InstallMethod::WindowsMsi => seq![program, "/i"@, pkg, "/qn"@, "/norestart"@],
        InstallMethod::MacosPkg => seq![program, "-pkg"@, pkg, "-target"@, "/"@],
        InstallMethod::LinuxDeb => seq![program, "-i"@, pkg],
        InstallMethod::RawBinary => Seq::empty(),
    }
}

/// Whether it may be looked at `path` for an installer: it is absolute on this host.
pub open spec fn may_look_at(host: Host, path: Seq<char>) -> bool {
    absolute_on(path, host.os is Windows)
}

/// Whether `argv` is the command for a package, or why there is none.
pub open spec fn argv_ok<L: Fn(&str) -> FileLook>(
    host: Host,
    method: InstallMethod,
    pkg: Seq<char>,
    look: L,
    argv: Result<Vec<String>, String>,
) -> bool {
    match argv {
        Ok(words) => exists|program: Seq<char>| #[trigger]
            program_found(host, method, look, Ok(program)) && views(words@) == command_for(
                method,
                program,
                pkg,
            ),
        Err(why) => program_found(host, method, look, Err(why@)),
    }
}

/// The silent-install command for a Windows package.
///
/// # Errors
///
/// Why no trusted installer is there.
pub fn msiexec_argv<L: Fn(&str) -> FileLook>(pkg: &str, host: &Host, look: &L) -> (argv: Result<
    Vec<String>,
    String,
>)
    requires
        forall|p: &str| may_look_at(*host, p@) ==> #[trigger] look.requires((p,)),
    ensures
        argv_ok(*host, InstallMethod::WindowsMsi, pkg@, *look, argv),
{
    if host.os != HostOs::Windows {
        return Err("msiexec is only available on Windows".to_owned());
    }
    let program: String = match system32_tool(host, "msiexec.exe", look) {
        Ok(program) => program,
        Err(e) => return Err(e),
    };
    let ghost found = program@;
    assert(program_found(*host, InstallMethod::WindowsMsi, *look, Ok(found)));
    let mut argv: Vec<String> = Vec::new();
    argv.push(program);
    argv.push("/i".to_owned());
    argv.push(pkg.to_owned());
    argv.push("/qn".to_owned());
    argv.push("/norestart".to_owned());
    assert(views(argv@) =~= command_for(InstallMethod::WindowsMsi, found, pkg@));
    Ok(argv)
}

/// The silent-install command for a macOS package.
///
/// # Errors
///
/// Why no trusted installer is there.
pub fn installer_argv<L: Fn(&str) -> FileLook>(pkg: &str, host: &Host, look: &L) -> (argv: Result<
    Vec<String>,
    String,
>)
    requires
        forall|p: &str| may_look_at(*host, p@) ==> #[trigger] look.requires((p,)),
    ensures
        argv_ok(*host, InstallMethod::MacosPkg, pkg@, *look, argv),
{
    if host.os != HostOs::Macos {
        return Err("the flat-package installer is only available on macOS".to_owned());
    }
    let program: String = match trusted_absolute("/usr/sbin/installer".to_owned(), false, look) {
        Ok(program) => program,
        Err(e) => return Err(e),
    };
    let ghost found = program@;
    assert(program_found(*host, InstallMethod::MacosPkg, *look, Ok(found)));
    let mut argv: Vec<String> = Vec::new();
    argv.push(program);
    argv.push("-pkg".to_owned());
    argv.push(pkg.to_owned());
    argv.push("-target".to_owned());
    argv.push("/".to_owned());
    assert(views(argv@) =~= command_for(InstallMethod::MacosPkg, found, pkg@));
    Ok(argv)
}

/// The install command for a Debian package.
///
/// # Errors
///
/// Why no trusted installer is there.
pub fn dpkg_argv<L: Fn(&str) -> FileLook>(pkg: &str, host: &Host, look: &L) -> (argv: Result<
    Vec<String>,
    String,
>)
    requires
        forall|p: &str| may_look_at(*host, p@) ==> #[trigger] look.requires((p,)),
    ensures
        argv_ok(*host, InstallMethod::LinuxDeb, pkg@, *look, argv),
{
    if host.os != HostOs::Linux {
        return Err("dpkg is only available on Linux".to_owned());
    }
    let mut candidates: Vec<String> = Vec::new();
    candidates.push("/usr/bin/dpkg".to_owned());
    candidates.push("/bin/dpkg".to_owned());
    assert(views(candidates@) =~= seq!["/usr/bin/dpkg"@, "/bin/dpkg"@]);
    let program: String = match first_trusted(&candidates, false, look) {
        Ok(program) => program,
        Err(e) => return Err(e),
    };
    let ghost found = program@;
    assert(program_found(*host, InstallMethod::LinuxDeb, *look, Ok(found)));
    let mut argv: Vec<String> = Vec::new();
    argv.push(program);
    argv.push("-i".to_owned());
    argv.push(pkg.to_owned());
    assert(views(argv@) =~= command_for(InstallMethod::LinuxDeb, found, pkg@));
    Ok(argv)
}

/// How running a program ended.
#[derive(Debug, Clone, PartialEq, Eq)]
pub enum ProgramRun {
    /// It ran and succeeded.
    Succeeded,
    /// It ran and failed, with this status.
    Exited(String),
    /// It could not be run.
    NotRun(String),
}

/// What a run of `program` means for the install.
pub open spec fn run_outcome(program: Seq<char>, run: ProgramRun) -> OutcomeView {
    match run {
        ProgramRun::Succeeded => OutcomeView::Installed,
        ProgramRun::Exited(status) => OutcomeView::Failed(
            program + " exited with "@ + status@,
        ),
        ProgramRun::NotRun(e) => OutcomeView::Failed("could not run "@ + program + ": "@ + e@),
    }
}

/// Run an install command and say what came of it. An empty command is never run.
pub fn run_installer<R: FnOnce(&Vec<String>) -> ProgramRun>(argv: &Vec<String>, run: R) -> (outcome:
    InstallOutcome)
    requires
        argv@.len() > 0 ==> run.requires((argv,)),
    ensures
        argv@.len() == 0 ==> outcome@ == OutcomeView::Failed("empty install command"@),
        argv@.len() > 0 ==> exists|p: ProgramRun| #[trigger]
            run.ensures((argv,), p) && outcome@ == run_outcome(argv@[0]@, p),
{
    if argv.len() == 0 {
        return InstallOutcome::Failed { detail: "empty install command".to_owned() };
    }
    let result: ProgramRun = run(argv);
    let ghost p = result;
    assert(run.ensures((argv,), p));
    let outcome: InstallOutcome = match result {
        ProgramRun::Succeeded => InstallOutcome::Installed,
        ProgramRun::Exited(status) => InstallOutcome::Failed {
            detail: cat3(argv[0].as_str(), " exited with ", status.as_str()),
        },
        ProgramRun::NotRun(e) => InstallOutcome::Failed {
            detail: cat4("could not run ", argv[0].as_str(), ": ", e.as_str()),
        },
    };
    assert(outcome@ == run_outcome(argv@[0]@, p));
    outcome
}

/// Whether `outcome` is how handing a package to its installer ended.
pub open spec fn native_ended<R: FnOnce(&Vec<String>) -> ProgramRun>(
    argv: Result<Vec<String>, String>,
    run: R,
    outcome: OutcomeView,
) -> bool {
    match argv {
        Err(why) => outcome == OutcomeView::Failed("no trusted installer available: "@ + why@),
        Ok(words) => if words@.len() == 0 {
            outcome == OutcomeView::Failed("empty install command"@)
        } else {
            exists|p: ProgramRun| #[trigger]
                run.ensures((&words,), p) && outcome == run_outcome(words@[0]@, p)
        },
    }
}

/// Whether the installer is done with the package: its command was run, or there is none to run.
pub open spec fn was_handed_over<R: FnOnce(&Vec<String>) -> ProgramRun>(
    argv: Result<Vec<String>, String>,
    run: R,
) -> bool {
    argv is Ok && argv->Ok_0@.len() > 0 ==> exists|p: ProgramRun| #[trigger]
        run.ensures((&argv->Ok_0,), p)
}

/// Hand the verified package to its installer, then drop the private copy of it, whatever came of it.
/// The copy may be dropped only once the installer is done with it.
pub fn run_native_installer<R: FnOnce(&Vec<String>) -> ProgramRun, D: FnOnce(&str)>(
    argv: Result<Vec<String>, String>,
    private: &str,
    run: R,
    drop_private: D,
) -> (outcome: InstallOutcome)
    requires
        argv is Ok && argv->Ok_0@.len() > 0 ==> run.requires((&argv->Ok_0,)),
        was_handed_over(argv, run) ==> drop_private.requires((private,)),
    ensures
        native_ended(argv, run, outcome@),
        drop_private.ensures((private,), ()),
{
    let outcome: InstallOutcome = match &argv {
        Ok(words) => run_installer(words, run),
        Err(detail) => InstallOutcome::Failed {
            detail: cat2("no trusted installer available: ", detail.as_str()),
        },
    };
    drop_private(private);
    outcome
}

/// Install a component from its verified private copy: a raw binary and its aliases are swapped
/// into place, a package is handed to its own installer and never touches the binary's path.
pub fn install_from_private<
    J,
    S: Fn(J, &str, &str) -> (J, InstallOutcome),
    C: Fn(J, &str, &str) -> (J, Result<(), BrokerError>),
    L: Fn(&str) -> FileLook,
    R: FnOnce(&Vec<String>) -> ProgramRun,
    D: FnOnce(&str),
>(
    pc: &PlannedComponent,
    private: &str,
    host: &Host,
    journal: J,
    replace: &S,
    copy: &C,
    look: &L,
    run: R,
    drop_private: D,
) -> (outcome: InstallOutcome)
    requires
        pc.method is RawBinary ==> {
            &&& forall|now: J, a: &str, b: &str|
                may_replace(
                    *replace,
                    *copy,
                    private@,
                    pc.dest@,
                    views(pc.aliases@),
                    journal,
                    now,
                    a@,
                    b@,
                ) ==> #[trigger] replace.requires((now, a, b))
            &&& forall|now: J, a: &str, b: &str|
                may_copy(
                    *replace,
                    *copy,
                    private@,
                    pc.dest@,
                    views(pc.aliases@),
                    journal,
                    now,
                    a@,
                    b@,
                ) ==> #[trigger] copy.requires((now, a, b))
        },
        pc.method !is RawBinary ==> {
            &&& forall|p: &str| may_look_at(*host, p@) ==> #[trigger] look.requires((p,))
            &&& forall|words: Vec<String>|
                argv_ok(*host, pc.method, private@, *look, Ok(words))
                    ==> #[trigger] run.requires((&words,))
            &&& forall|argv: Result<Vec<String>, String>| #[trigger]
                argv_ok(*host, pc.method, private@, *look, argv) && was_handed_over(argv, run)
                    ==> drop_private.requires((private,))
        },
    ensures
        pc.method is RawBinary ==> set_ended(
            *replace,
            *copy,
            private@,
            pc.dest@,
            views(pc.aliases@),
            journal,
            outcome@,
        ),
        pc.method !is RawBinary ==> drop_private.ensures((private,), ()) && exists|argv: Result<
            Vec<String>,
            String,
        >| #[trigger]
            argv_ok(*host, pc.method, private@, *look, argv) && native_ended(argv, run, outcome@),
{
    match pc.method {
        InstallMethod::RawBinary => install_raw_binary_set(
            pc.dest.as_str(),
            &pc.aliases,
            private,
            journal,
            replace,
            copy,
        ),
        InstallMethod::WindowsMsi => {
            let argv: Result<Vec<String>, String> = msiexec_argv(private, host, look);
            run_native_installer(argv, private, run, drop_private)
        },
        InstallMethod::MacosPkg => {
            let argv: Result<Vec<String>, String> = installer_argv(private, host, look);
            run_native_installer(argv, private, run, drop_private)
        },
        InstallMethod::LinuxDeb => {
            let argv: Result<Vec<String>, String> = dpkg_argv(private, host, look);
            run_native_installer(argv, private, run, drop_private)
        },
    }
}

// ------------------------------------------------------------------ what an install does to files

/// What an installed swap of `dest` by `private` made of the files: the target holds the verified
/// bytes, and no other file but those of the swap changed.
pub open spec fn swapped_in(
    private: Seq<char>,
    dest: Seq<char>,
    before: Files,
    after: Files,
) -> bool {
    &&& target_kept(private, dest, OutcomeView::Installed, before, after)
    &&& forall|p: Seq<char>|
        p != private && p != dest && p != aside_of(dest) ==> #[trigger] same_at(before, after, p)
}

/// What copying `from` to `to` made of the files.
pub open spec fn copied_to(from: Seq<char>, to: Seq<char>, before: Files, after: Files) -> bool {
    before.contains_key(from) && after == before.insert(to, before[from])
}

/// Whether the files went from world to world as the primary was swapped in and then each alias was
/// copied and swapped in.
pub open spec fn set_happened(
    private: Seq<char>,
    dest: Seq<char>,
    aliases: Seq<Seq<char>>,
    worlds: Seq<Files>,
) -> bool {
    &&& worlds.len() == 2 * aliases.len() + 2
    &&& swapped_in(private, dest, worlds[0], worlds[1])
    &&& forall|i: int|
        0 <= i < aliases.len() ==> #[trigger] alias_happened(dest, aliases[i], worlds, i)
}

/// Whether the `i`-th alias was copied from the primary and swapped in.
pub open spec fn alias_happened(
    dest: Seq<char>,
    alias: Seq<char>,
    worlds: Seq<Files>,
    i: int,
) -> bool {
    &&& copied_to(dest, private_of(alias), worlds[2 * i + 1], worlds[2 * i + 2])
    &&& swapped_in(private_of(alias), alias, worlds[2 * i + 2], worlds[2 * i + 3])
}

/// Whether the binaries of a component and the files beside them are all different.
pub open spec fn files_apart(dest: Seq<char>, aliases: Seq<Seq<char>>) -> bool {
    &&& forall|i: int|
        0 <= i < aliases.len() ==> {
            &&& (#[trigger] aliases[i]) != dest
            &&& private_of(aliases[i]) != dest
            &&& aside_of(aliases[i]) != dest
        }
    &&& forall|i: int, j: int|
        0 <= i < aliases.len() && 0 <= j < aliases.len() && i != j ==> {
            &&& (#[trigger] aliases[i]) != (#[trigger] aliases[j])
            &&& private_of(aliases[i]) != aliases[j]
            &&& aside_of(aliases[i]) != aliases[j]
        }
}

proof fn lemma_set_so_far(
    private: Seq<char>,
    dest: Seq<char>,
    aliases: Seq<Seq<char>>,
    worlds: Seq<Files>,
    n: int,
)
    requires
        set_happened(private, dest, aliases, worlds),
        files_apart(dest, aliases),
        0 <= n <= aliases.len(),
    ensures
        ({
            let now = worlds[2 * n + 1];
            let bytes = worlds[0][private];
            &&& now.contains_key(dest) && now[dest] == bytes
            &&& forall|i: int|
                0 <= i < n ==> now.contains_key(#[trigger] aliases[i]) && now[aliases[i]] == bytes
        }),
    decreases n,
{
    if n > 0 {
        let k: int = n - 1;
        lemma_set_so_far(private, dest, aliases, worlds, k);
        assert(alias_happened(dest, aliases[k], worlds, k));
        let (a, b, c) = (worlds[2 * k + 1], worlds[2 * k + 2], worlds[2 * k + 3]);
        assert(2 * n + 1 == 2 * k + 3);
        let alias = aliases[k];
        assert(same_at(b, c, dest));
        assert forall|i: int| 0 <= i < n implies c.contains_key(#[trigger] aliases[i])
            && c[aliases[i]] == worlds[0][private] by {
            if i < k {
                assert(a.contains_key(aliases[i]));
                assert(aliases[k] != aliases[i] && private_of(aliases[k]) != aliases[i] && aside_of(
                    aliases[k],
                ) != aliases[i]);
                assert(same_at(b, c, aliases[i]));
            }
        }
    }
}

/// What is installed is what was verified: where the private copy has the signed digest and the swap
/// ends with the target installed, the target has that digest too.
pub proof fn an_installed_binary_has_the_signed_digest(
    digest: Seq<char>,
    private: Seq<char>,
    dest: Seq<char>,
    events: Seq<Event>,
    worlds: Seq<Files>,
)
    requires
        private != dest,
        private != aside_of(dest),
        dest != aside_of(dest),
        happened(start(private, dest), events, worlds),
        after_all(start(private, dest), events).state == SwapStateView::Done(
            OutcomeView::Installed,
        ),
        are_expected(digest, worlds[0][private]),
    ensures
        worlds.last().contains_key(dest),
        are_expected(digest, worlds.last()[dest]),
{
    a_swap_never_loses_the_target(private, dest, events, worlds, OutcomeView::Installed);
}

/// The private copy of a binary is never the place that its target is moved aside to.
pub proof fn a_private_copy_is_not_the_moved_target(dest: Seq<char>)
    requires
        name_of(dest) is Some,
    ensures
        private_of(dest) != aside_of(dest),
{
    reveal_strlit("dig-updater-verified");
    reveal_strlit("dig-updater-old");
    assert(private_of(dest).len() == aside_of(dest).len() + 5);
}

/// Once a component is installed, its binary and every alias of it hold the same bytes: those of
/// the verified private copy.
pub proof fn an_installed_set_holds_the_verified_bytes(
    private: Seq<char>,
    dest: Seq<char>,
    aliases: Seq<Seq<char>>,
    worlds: Seq<Files>,
)
    requires
        set_happened(private, dest, aliases, worlds),
        files_apart(dest, aliases),
    ensures
        worlds.last().contains_key(dest),
        worlds.last()[dest] == worlds[0][private],
        forall|i: int|
            0 <= i < aliases.len() ==> worlds.last().contains_key(#[trigger] aliases[i])
                && worlds.last()[aliases[i]] == worlds[0][private],
{
    lemma_set_so_far(private, dest, aliases, worlds, aliases.len() as int);
    assert(worlds.last() == worlds[2 * (aliases.len() as int) + 1]);
}

// ------------------------------------------------------------------ laws on what is run and trusted

/// A reported path is taken exactly where it and the staging directory both resolve and the resolved
/// path lies strictly below the resolved directory, by whole components; and what is taken is the
/// resolved path, whatever was reported.
pub proof fn only_what_is_below_staging_is_taken(
    staged_path: Seq<char>,
    staging_dir: Seq<char>,
    component: Seq<char>,
    staging_root: Result<Seq<char>, Seq<char>>,
    resolved: Result<Seq<char>, Seq<char>>,
)
    ensures
        containment(staged_path, staging_dir, component, staging_root, resolved) is Ok
            <==> staging_root is Ok && resolved is Ok && components(staging_root->Ok_0).len()
            < components(resolved->Ok_0).len() && components(resolved->Ok_0).take(
            components(staging_root->Ok_0).len() as int,
        ) == components(staging_root->Ok_0),
        containment(staged_path, staging_dir, component, staging_root, resolved) is Ok
            ==> containment(staged_path, staging_dir, component, staging_root, resolved)->Ok_0
            == resolved->Ok_0,
        staging_root is Err ==> containment(
            staged_path,
            staging_dir,
            component,
            staging_root,
            resolved,
        )->Err_0 is Io,
        staging_root is Ok && containment(
            staged_path,
            staging_dir,
            component,
            staging_root,
            resolved,
        ) is Err ==> containment(
            staged_path,
            staging_dir,
            component,
            staging_root,
            resolved,
        )->Err_0 is StagedPathEscapesStaging,
{
    if staging_root is Ok && resolved is Ok {
        let (r, p) = (components(staging_root->Ok_0), components(resolved->Ok_0));
        let n: int = r.len() as int;
        if strictly_within(resolved->Ok_0, staging_root->Ok_0) {
            assert(p.take(n) =~= r) by {
                assert(p.subrange(0, n) =~= r);
            }
            if r.len() == p.len() {
                assert(p.take(n) =~= p);
            }
        }
        if r.len() < p.len() && p.take(n) == r {
            assert(p.subrange(0, n) =~= p.take(n));
            assert(r.is_prefix_of(p));
        }
    }
}

/// Which errors of a rename clear by waiting: on Windows a sharing violation (32), a lock violation (33)
/// and a mapped file (1224), elsewhere a busy text file (26). Every other error, that of access (5) among
/// them, does not.
pub proof fn only_a_file_in_use_is_waited_for(code: i32)
    ensures
        means_in_use(Some(code), true) <==> code == 32 || code == 33 || code == 1224,
        means_in_use(Some(code), false) <==> code == 26,
        !means_in_use(None, true),
        !means_in_use(None, false),
{
}

/// A policy makes as many tries as it says, and one at least; each wait is longer than the one before by
/// the policy's backoff, which is the first of them.
pub proof fn waits_grow_by_the_backoff(policy: RetryPolicy, n: u32)
    requires
        n < u32::MAX,
    ensures
        tries_of(policy) >= 1,
        policy.attempts >= 1 ==> tries_of(policy) == policy.attempts,
        policy.attempts == 0 ==> tries_of(policy) == 1,
        backoff_before(policy, 0) == 0,
        backoff_before(policy, (n + 1) as u32) == backoff_before(policy, n) + policy.backoff,
{
    let b: int = policy.backoff as int;
    let k: int = n as int;
    assert(b * (k + 1) == b * k + b) by (nonlinear_arith);
    assert(b * 0 == 0) by (nonlinear_arith);
}

/// A program is trusted only by its own absolute path, and only where a regular file was seen there; and
/// it is not refused where one was.
pub proof fn only_a_regular_file_at_an_absolute_path_is_trusted<L: Fn(&str) -> FileLook>(
    look: L,
    windows: bool,
    path: Seq<char>,
    r: Result<Seq<char>, Seq<char>>,
)
    requires
        trusted(look, windows, path, r),
    ensures
        r is Ok ==> r->Ok_0 == path && absolute_on(path, windows) && exists|p: &str|
            p@ == path && #[trigger] look.ensures((p,), FileLook::File),
        r is Err && absolute_on(path, windows) ==> exists|p: &str, found: FileLook|
            p@ == path && !(found is File) && #[trigger] look.ensures((p,), found),
{
    if absolute_on(path, windows) {
        let found = choose|found: FileLook| #[trigger]
            looked_at(look, path, found) && r == trust_in(path, found);
        let p = choose|p: &str| p@ == path && #[trigger] look.ensures((p,), found);
        assert(look.ensures((p,), found));
    }
}

/// A package is handed to the installer of its own system alone: `msiexec` in the Windows directory,
/// `/usr/sbin/installer` on macOS, `/usr/bin/dpkg` or else `/bin/dpkg` on Linux.
pub proof fn a_package_goes_to_its_systems_installer<L: Fn(&str) -> FileLook>(
    host: Host,
    method: InstallMethod,
    look: L,
    program: Seq<char>,
    above: Seq<char>,
    last: Seq<char>,
)
    requires
        program_found(host, method, look, Ok(program)),
        above.len() == 0 || above.last() == '/',
        is_plain(last),
    ensures
        method is WindowsMsi ==> host.os is Windows && (host.system_root is Some || host.windir
            is Some),
        method is WindowsMsi && ((host.system_root is Some && host.system_root->0@ == above + last)
            || (host.system_root is None && host.windir is Some && host.windir->0@ == above + last))
            ==> program == above + last + "/System32/msiexec.exe"@,
        method is MacosPkg ==> host.os is Macos && program == "/usr/sbin/installer"@,
        method is LinuxDeb ==> host.os is Linux && (program == "/usr/bin/dpkg"@ || program
            == "/bin/dpkg"@),
        !(method is RawBinary),
{
    if method is WindowsMsi {
        let root = windows_dir(host)->0;
        only_a_regular_file_at_an_absolute_path_is_trusted(
            look,
            true,
            system32(root, "msiexec.exe"@),
            Ok(program),
        );
        lemma_msiexec(above, last);
    } else if method is MacosPkg {
        only_a_regular_file_at_an_absolute_path_is_trusted(
            look,
            false,
            "/usr/sbin/installer"@,
            Ok(program),
        );
    }
}

#[verifier::spinoff_prover]
#[verifier::rlimit(40)]
proof fn lemma_msiexec(above: Seq<char>, last: Seq<char>)
    requires
        above.len() == 0 || above.last() == '/',
        is_plain(last),
    ensures
        system32(above + last, "msiexec.exe"@) == above + last + "/System32/msiexec.exe"@,
{
    reveal_strlit("System32");
    reveal_strlit("msiexec.exe");
    reveal_strlit("/System32/msiexec.exe");
    let root = above + last;
    assert(last[last.len() - 1] != '/');
    assert(root.last() == last[last.len() - 1]);
    let dir = root + seq!['/'] + "System32"@;
    assert(joined(root, "System32"@) == dir);
    assert(dir.last() == '2');
    assert(joined(dir, "msiexec.exe"@) =~= root + "/System32/msiexec.exe"@);
}

/// The command for a package starts with the installer, asks for a silent install of that package, and
/// has nothing else.
pub proof fn the_command_installs_the_package(program: Seq<char>, pkg: Seq<char>)
    ensures
        command_for(InstallMethod::WindowsMsi, program, pkg) == seq![
            program,
            "/i"@,
            pkg,
            "/qn"@,
            "/norestart"@,
        ],
        command_for(InstallMethod::MacosPkg, program, pkg) == seq![
            program,
            "-pkg"@,
            pkg,
            "-target"@,
            "/"@,
        ],
        command_for(InstallMethod::LinuxDeb, program, pkg) == seq![program, "-i"@, pkg],
{
}

/// An install by a program is done exactly if the program ran and succeeded.
pub proof fn only_a_successful_run_installs(program: Seq<char>, run: ProgramRun)
    ensures
        run_outcome(program, run) is Installed <==> run is Succeeded,
        run_outcome(program, run) is Failed <==> !(run is Succeeded),
{
}

/// The texts are listed in order, with a comma and a space between each and the next.
pub proof fn texts_are_listed_in_order(a: Seq<Seq<char>>, b: Seq<Seq<char>>, one: Seq<char>)
    requires
        a.len() > 0,
        b.len() > 0,
    ensures
        listed(a + b) == listed(a) + ", "@ + listed(b),
        listed(seq![one]) == one,
        listed(Seq::empty()) == Seq::<char>::empty(),
    decreases b.len(),
{
    let all = a + b;
    assert(all.drop_last() =~= a + b.drop_last());
    assert(all.last() == b.last());
    if b.len() == 1 {
        assert(a + b.drop_last() =~= a);
        assert(listed(all) =~= listed(a) + ", "@ + b[0]);
    } else {
        texts_are_listed_in_order(a, b.drop_last(), one);
        assert(listed(all) =~= listed(a) + ", "@ + listed(b));
    }
}

/// The private copy of a package lies in the broker's own directory, under the component's name and with
/// the extension that its installer expects; that of a raw binary lies beside its target.
#[verifier::spinoff_prover]
#[verifier::rlimit(40)]
pub proof fn a_private_copy_is_named_for_its_installer(
    pc: PlannedComponent,
    above: Seq<char>,
    last: Seq<char>,
)
    requires
        above.len() == 0 || above.last() == '/',
        is_plain(last),
        is_plain(pc.name@),
    ensures
        pc.method is WindowsMsi ==> private_target_of(pc, above + last) == above + last + seq!['/']
            + pc.name@ + ".msi"@,
        pc.method is MacosPkg ==> private_target_of(pc, above + last) == above + last + seq!['/']
            + pc.name@ + ".pkg"@,
        pc.method is LinuxDeb ==> private_target_of(pc, above + last) == above + last + seq!['/']
            + pc.name@ + ".deb"@,
        pc.method is RawBinary && name_of(pc.dest@) is Some ==> parent_of(
            private_target_of(pc, above + last),
        ) == parent_of(pc.dest@),
{
    reveal_strlit(".msi");
    reveal_strlit(".pkg");
    reveal_strlit(".deb");
    reveal_strlit("dig-updater-verified");
    let dir = above + last;
    let name = pc.name@;
    assert(dir.last() == last[last.len() - 1]);
    assert forall|ext: Seq<char>| ext.len() == 4 implies #[trigger] joined(dir, name + ext) == dir
        + seq!['/'] + name + ext by {
        assert((name + ext)[0] == name[0]);
        assert(joined(dir, name + ext) =~= dir + seq!['/'] + name + ext);
    }
    if name_of(pc.dest@) is Some {
        crate::path::lemma_with_extension(pc.dest@, VERIFIED_RAW_EXT@);
    }
}

/// A rename is tried again exactly while the target is in use: each try is made with the number of those
/// before it; every one but the last failed because the target was in use; before each further one the
/// backoff was waited for as many times as there were tries; and the last one succeeded, failed for another
/// reason, or was the last that the policy allows.
pub proof fn a_rename_is_tried_while_the_target_is_in_use<
    J,
    R: Fn(J, &str, &str, u32) -> (J, Result<(), RenameError>),
    S: Fn(u64),
>(
    policy: RetryPolicy,
    rename: R,
    from: &str,
    to: &str,
    sleep: S,
    first: J,
    tries: Seq<Result<(), RenameError>>,
    last: J,
    i: int,
)
    requires
        tried(policy, true, rename, from, to, sleep, first, tries, last),
        0 <= i < tries.len(),
    ensures
        1 <= tries.len(),
        tries.len() <= policy.attempts || tries.len() == 1,
        exists|before: J, after: J| #[trigger]
            rename.ensures((before, from, to, i as u32), (after, tries[i])),
        i < tries.len() - 1 ==> tries[i] is Err && (tries[i]->Err_0.code == Some(32i32)
            || tries[i]->Err_0.code == Some(33i32) || tries[i]->Err_0.code == Some(1224i32)),
        0 < i && policy.backoff > 0 ==> sleep.ensures(((policy.backoff * i) as u64,), ()),
        tries.len() < policy.attempts ==> tries.last() is Ok || (tries.last()->Err_0.code != Some(
            32i32,
        ) && tries.last()->Err_0.code != Some(33i32) && tries.last()->Err_0.code != Some(1224i32)),
{
    let journals = choose|journals: Seq<J>|
        #[trigger] tried_in_turn(policy, true, rename, from, to, sleep, tries, journals)
            && journals[0] == first && journals.last() == last;
    assert(rename.ensures((journals[i], from, to, i as u32), (journals[i + 1], tries[i])));
    if i < tries.len() - 1 {
        assert(is_busy(true, tries[i]));
    }
    if 0 < i {
        assert(waited(policy, sleep, i as u32));
    }
    if tries.len() < policy.attempts {
        assert(!is_busy(true, tries.last()));
    }
}

/// A component is installed only with all its binaries: the verified copy replaced the primary, and each
/// alias was copied from the primary to its own private copy, which then replaced it.
#[verifier::rlimit(40)]
pub proof fn a_component_is_installed_with_all_its_binaries<
    J,
    S: Fn(J, &str, &str) -> (J, InstallOutcome),
    C: Fn(J, &str, &str) -> (J, Result<(), BrokerError>),
>(
    replace: S,
    copy: C,
    private: Seq<char>,
    dest: Seq<char>,
    aliases: Seq<Seq<char>>,
    first: J,
    outcome: OutcomeView,
    i: int,
)
    requires
        set_ended(replace, copy, private, dest, aliases, first, outcome),
        outcome is Installed,
    ensures
        exists|a: &str, b: &str, after: J|
            a@ == private && b@ == dest && #[trigger] replace.ensures(
                (first, a, b),
                (after, InstallOutcome::Installed),
            ),
        0 <= i < aliases.len() ==> exists|before: J, a: &str, b: &str, between: J|
            a@ == dest && b@ == private_of(aliases[i]) && #[trigger] copy.ensures(
                (before, a, b),
                (between, Ok(())),
            ),
        0 <= i < aliases.len() ==> exists|between: J, a: &str, b: &str, after: J|
            a@ == private_of(aliases[i]) && b@ == aliases[i] && #[trigger] replace.ensures(
                (between, a, b),
                (after, InstallOutcome::Installed),
            ),
{
    let (done, now) = choose|done: int, now: J| #[trigger]
        aliases_ended(replace, copy, private, dest, aliases, first, done, now, outcome);
    if done < aliases.len() && !(done == aliases.len()) {
        assert(alias_stopped(replace, copy, dest, aliases[done], now, outcome));
    }
    let journals = choose|journals: Seq<J>|
        #[trigger] refreshed_in_turn(replace, copy, dest, aliases, done, journals) && replaced(
            replace,
            first,
            private,
            dest,
            OutcomeView::Installed,
            journals[0],
        ) && journals.last() == now;
    lemma_replaced(replace, first, private, dest, journals[0]);
    if 0 <= i < aliases.len() {
        assert(done == aliases.len());
        assert(alias_refreshed(replace, copy, dest, aliases[i], journals[i], journals[i + 1]));
        let between = choose|between: J|
            #[trigger] copied(copy, journals[i], dest, private_of(aliases[i]), Ok(()), between)
                && #[trigger] replaced(
                replace,
                between,
                private_of(aliases[i]),
                aliases[i],
                OutcomeView::Installed,
                journals[i + 1],
            );
        lemma_replaced(replace, between, private_of(aliases[i]), aliases[i], journals[i + 1]);
        let (a, b) = choose|a: &str, b: &str|
            a@ == dest && b@ == private_of(aliases[i]) && #[trigger] copy.ensures(
                (journals[i], a, b),
                (between, Ok(())),
            );
        assert(copy.ensures((journals[i], a, b), (between, Ok(()))));
    }
}

proof fn lemma_replaced<J, S: Fn(J, &str, &str) -> (J, InstallOutcome)>(
    replace: S,
    before: J,
    from: Seq<char>,
    to: Seq<char>,
    after: J,
)
    requires
        replaced(replace, before, from, to, OutcomeView::Installed, after),
    ensures
        exists|a: &str, b: &str|
            a@ == from && b@ == to && #[trigger] replace.ensures(
                (before, a, b),
                (after, InstallOutcome::Installed),
            ),
{
    let (a, b, o) = choose|a: &str, b: &str, o: InstallOutcome|
        a@ == from && b@ == to && o@ == OutcomeView::Installed && #[trigger] replace.ensures(
            (before, a, b),
            (after, o),
        );
    assert(o == InstallOutcome::Installed);
}

} // verus!
