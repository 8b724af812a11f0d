//! The single-instance lock.
//!
//! A pass must hold the lock before it touches the network or installs anything. Where a prior
//! pass still holds it, the new one exits without acting: that is an ordinary outcome, not an
//! error.

use vstd::prelude::*;

use crate::error::{BrokerError, ErrorView};
use crate::path::{join, joined};
use crate::text::cat2;

verus! {

/// The name of the lock on Windows that every production pass takes.
pub const PRODUCTION_NAME: &'static str = "DigUpdater";

/// The access list of the production lock on Windows: administrators and the local system alone.
pub const ADMIN_SYSTEM_ONLY_SDDL: &'static str = "D:(A;;GA;;;SY)(A;;GA;;;BA)";

/// The name of a lock on Windows, the same in every session.
#[must_use]
pub fn mutex_name(name: &str) -> (full: String)
    ensures
        full@ == "Global\\"@ + name@,
{
    cat2("Global\\", name)
}

/// The file that is locked on Unix: inside the state directory, whose own permissions guard it.
#[must_use]
pub fn lock_path(state_dir: &str) -> (path: String)
    ensures
        path@ == joined(state_dir@, "lock"@),
{
    join(state_dir, "lock")
}

/// How an attempt to take the lock ended.
#[derive(Debug, Clone, PartialEq, Eq)]
pub enum LockAttempt<H> {
    /// It was taken, and is held by this handle.
    Acquired(H),
    /// Another pass holds it.
    WouldBlock,
    /// It could not be created or opened.
    Failed(String),
}

/// A held single-instance lock: whoever has the value holds the lock, and dropping the handle
/// releases it.
#[derive(Debug)]
pub struct SingleInstanceLock<H> {
    handle: H,
}

/// Whether `r` is what an attempt means: a lock that another pass holds is no error.
pub open spec fn attempt_settled<H>(
    attempt: LockAttempt<H>,
    r: Result<Option<SingleInstanceLock<H>>, BrokerError>,
) -> bool {
    match attempt {
        LockAttempt::Acquired(handle) => r is Ok && r->Ok_0 is Some && r->Ok_0->0.held() == handle,
        LockAttempt::WouldBlock => r is Ok && r->Ok_0 is None,
        LockAttempt::Failed(why) => r is Err && r->Err_0@ == ErrorView::Io(why@),
    }
}

/// Whether the lock of this name and directory was tried and `r` is what came of it.
pub open spec fn lock_tried<H, A: FnOnce(&str, &str, bool) -> LockAttempt<H>>(
    attempt: A,
    name: Seq<char>,
    state_dir: &str,
    guarded: bool,
    r: Result<Option<SingleInstanceLock<H>>, BrokerError>,
) -> bool {
    exists|n: &str, x: LockAttempt<H>|
        n@ == "Global\\"@ + name && #[trigger] attempt.ensures((n, state_dir, guarded), x)
            && attempt_settled(x, r)
}

impl<H> SingleInstanceLock<H> {
    /// The handle that holds the lock.
    pub closed spec fn held(&self) -> H {
        self.handle
    }

    /// Try to take the production lock of a pass over `state_dir`: its name is the same for every
    /// pass, and only privileged identities may open it. `None` where another pass holds it.
    ///
    /// # Errors
    ///
    /// [`BrokerError::Io`] if the lock could not be created or opened.
    pub fn try_acquire<A: FnOnce(&str, &str, bool) -> LockAttempt<H>>(
        state_dir: &str,
        attempt: A,
    ) -> (r: Result<Option<Self>, BrokerError>)
        requires
            forall|n: &str|
                n@ == "Global\\"@ + PRODUCTION_NAME@ ==> #[trigger] attempt.requires(
                    (n, state_dir, true),
                ),
        ensures
            lock_tried(attempt, PRODUCTION_NAME@, state_dir, true, r),
    {
        let name: String = mutex_name(PRODUCTION_NAME);
        let came: LockAttempt<H> = attempt(name.as_str(), state_dir, true);
        let ghost x = came;
        let r: Result<Option<Self>, BrokerError> = Self::settle(came);
        assert(attempt_settled(x, r));
        r
    }

    /// Try to take the lock of another name, which any identity may open.
    ///
    /// # Errors
    ///
    /// [`BrokerError::Io`] if the lock could not be created or opened.
    pub fn try_acquire_named<A: FnOnce(&str, &str, bool) -> LockAttempt<H>>(
        name: &str,
        state_dir: &str,
        attempt: A,
    ) -> (r: Result<Option<Self>, BrokerError>)
        requires
            forall|n: &str|
                n@ == "Global\\"@ + name@ ==> #[trigger] attempt.requires((n, state_dir, false)),
        ensures
            lock_tried(attempt, name@, state_dir, false, r),
    {
        let full: String = mutex_name(name);
        let came: LockAttempt<H> = attempt(full.as_str(), state_dir, false);
        let ghost x = came;
        let r: Result<Option<Self>, BrokerError> = Self::settle(came);
        assert(attempt_settled(x, r));
        r
    }

    fn settle(attempt: LockAttempt<H>) -> (r: Result<Option<Self>, BrokerError>)
        ensures
            attempt_settled(attempt, r),
    {
        match attempt {
            LockAttempt::Acquired(handle) => Ok(Some(SingleInstanceLock { handle })),
            LockAttempt::WouldBlock => Ok(None),
            LockAttempt::Failed(why) => Err(BrokerError::Io(why)),
        }
    }
}

// ------------------------------------------------------------------ what a lock is for

/// The locks that are held, each by its name and directory.
pub type Locks = Set<(Seq<char>, Seq<char>)>;

/// What an attempt made of the locks on a system that keeps them apart: a free one is taken, one
/// that is held stays with its holder, and a failed attempt takes none.
pub open spec fn excludes<H>(
    held: Locks,
    lock: (Seq<char>, Seq<char>),
    attempt: LockAttempt<H>,
    after: Locks,
) -> bool {
    match attempt {
        LockAttempt::Acquired(_) => !held.contains(lock) && after == held.insert(lock),
        LockAttempt::WouldBlock => held.contains(lock) && after == held,
        LockAttempt::Failed(_) => after == held,
    }
}

/// On a system that keeps locks apart, at most one guard of a name and directory is alive: while one
/// is, trying to take the lock again gives none and is no error, unless the system fails; and once it
/// is dropped, the lock is given again.
pub proof fn a_held_lock_is_given_to_nobody_else<H>(
    lock: (Seq<char>, Seq<char>),
    before: Locks,
    first: LockAttempt<H>,
    held: Locks,
    guard: Result<Option<SingleInstanceLock<H>>, BrokerError>,
    second: LockAttempt<H>,
    still: Locks,
    other: Result<Option<SingleInstanceLock<H>>, BrokerError>,
    third: LockAttempt<H>,
    end: Locks,
    later: Result<Option<SingleInstanceLock<H>>, BrokerError>,
)
    requires
        excludes(before, lock, first, held),
        attempt_settled(first, guard),
        guard is Ok && guard->Ok_0 is Some,
        excludes(held, lock, second, still),
        attempt_settled(second, other),
        excludes(still.remove(lock), lock, third, end),
        attempt_settled(third, later),
    ensures
        !before.contains(lock),
        held.contains(lock) && still == held,
        second !is Failed ==> other is Ok && other->Ok_0 is None,
        third !is Failed ==> later is Ok && later->Ok_0 is Some,
{
}

/// The lock that is tried is the machine's, under the given name and directory; and it is held exactly where
/// the attempt took it, by the handle that it gave.
pub proof fn a_lock_is_held_where_it_was_taken<H, A: FnOnce(&str, &str, bool) -> LockAttempt<H>>(
    attempt: A,
    name: Seq<char>,
    state_dir: &str,
    guarded: bool,
    r: Result<Option<SingleInstanceLock<H>>, BrokerError>,
)
    requires
        lock_tried(attempt, name, state_dir, guarded, r),
    ensures
        exists|n: &str, x: LockAttempt<H>|
            n@ == "Global\\"@ + name && #[trigger] attempt.ensures((n, state_dir, guarded), x) && {
                &&& (r is Ok && r->Ok_0 is Some) <==> x is Acquired
                &&& (r is Ok && r->Ok_0 is None) <==> x is WouldBlock
                &&& r is Err <==> x is Failed
                &&& x is Acquired ==> r->Ok_0->0.held() == x->Acquired_0
            },
{
    let (n, x) = choose|n: &str, x: LockAttempt<H>|
        n@ == "Global\\"@ + name && #[trigger] attempt.ensures((n, state_dir, guarded), x)
            && attempt_settled(x, r);
    assert(attempt.ensures((n, state_dir, guarded), x));
}

} // verus!
