//! The sentinel that records a deliberate removal of the daily schedule.
//!
//! The self-heal re-registers a schedule that is provably absent. A user who removed it on purpose
//! is told apart by this marker: removing the schedule writes it, installing the schedule clears
//! it. Its mere existence is not trusted: it is honored only when it is owned by a privileged
//! identity, and anything else reads as not opted out, because auto-updates staying alive is the
//! safe failure.

use vstd::prelude::*;

use crate::error::{BrokerError, ErrorView};
use crate::path::{a_path_is_its_directory_and_its_name, is_plain, join, joined};

verus! {

/// The file name of the opt-out sentinel.
pub const OPTOUT_MARKER_NAME: &'static str = "schedule-optout";

/// The note written into the marker, for an operator who stumbles on the file.
pub const OPTOUT_MARKER_NOTE: &'static str =
    "This file records that the DIG auto-update daily schedule was DELIBERATELY removed via\n`dig-updater schedule uninstall`. While it exists, `dig-updater schedule ensure` (and the\nalways-on re-arm driver) will NOT re-register the schedule. Run `dig-updater schedule install`\nto re-enable auto-updates (which clears this file).\n";

/// Where the sentinel of a state directory is.
pub open spec fn marker_of(state_dir: Seq<char>) -> Seq<char> {
    joined(state_dir, OPTOUT_MARKER_NAME@)
}

/// The path of the opt-out sentinel within `state_dir`.
#[must_use]
pub fn marker_path(state_dir: &str) -> (path: String)
    ensures
        path@ == marker_of(state_dir@),
{
    join(state_dir, OPTOUT_MARKER_NAME)
}

/// Whether the operator has deliberately opted out of the daily schedule: exactly when
/// `is_privileged_owned` says that the marker exists and is owned by a privileged identity.
#[must_use]
pub fn is_opted_out<P: Fn(&str) -> bool>(state_dir: &str, is_privileged_owned: &P) -> (r: bool)
    requires
        forall|p: &str| p@ == marker_of(state_dir@) ==> #[trigger] is_privileged_owned.requires((p,)),
    ensures
        exists|p: &str|
            p@ == marker_of(state_dir@) && #[trigger] is_privileged_owned.ensures((p,), r),
{
    let path: String = marker_path(state_dir);
    is_privileged_owned(path.as_str())
}

/// A step on a path came to `r`.
pub open spec fn came_to<F: FnOnce(&str) -> Result<(), BrokerError>>(
    step: F,
    path: Seq<char>,
    r: Result<(), BrokerError>,
) -> bool {
    exists|p: &str| p@ == path && #[trigger] step.ensures((p,), r)
}

/// Writing the marker of `state_dir`, with its note, came to `r`.
pub open spec fn note_written<W: FnOnce(&str, &str) -> Result<(), BrokerError>>(
    write: W,
    state_dir: Seq<char>,
    r: Result<(), BrokerError>,
) -> bool {
    exists|p: &str, note: &str|
        p@ == marker_of(state_dir) && note@ == OPTOUT_MARKER_NOTE@ && #[trigger] write.ensures(
            (p, note),
            r,
        )
}

/// Record a deliberate opt-out: create the state directory, write the marker with its note into
/// it, lock the marker down, and claim privileged ownership of it. A marker that was not claimed would not be
/// honored, so the opt-out succeeds only if every step did, each after the one before it.
///
/// # Errors
///
/// What the first failed step reports.
pub fn set_opted_out<
    D: FnOnce(&str) -> Result<(), BrokerError>,
    W: FnOnce(&str, &str) -> Result<(), BrokerError>,
    H: FnOnce(&str) -> Result<(), BrokerError>,
    O: FnOnce(&str) -> Result<(), BrokerError>,
>(state_dir: &str, create_dir: D, write_note: W, lock_down: H, claim: O) -> (r: Result<
    (),
    BrokerError,
>)
    requires
        create_dir.requires((state_dir,)),
        forall|p: &str, note: &str|
            p@ == marker_of(state_dir@) && note@ == OPTOUT_MARKER_NOTE@ && came_to(
                create_dir,
                state_dir@,
                Ok(()),
            ) ==> #[trigger] write_note.requires((p, note)),
        forall|p: &str|
            p@ == marker_of(state_dir@) && came_to(create_dir, state_dir@, Ok(())) && note_written(write_note, state_dir@, Ok(())) ==> #[trigger] lock_down.requires((p,)),
        forall|p: &str|
            p@ == marker_of(state_dir@) && came_to(create_dir, state_dir@, Ok(())) && note_written(write_note, state_dir@, Ok(())) && came_to(lock_down, marker_of(state_dir@), Ok(())) ==> #[trigger] claim.requires((p,)),
    ensures
        r is Ok ==> came_to(create_dir, state_dir@, Ok(())) && note_written(write_note, state_dir@, Ok(())) && came_to(lock_down, marker_of(state_dir@), Ok(())) && came_to(
            claim,
            marker_of(state_dir@),
            Ok(()),
        ),
        r is Err ==> came_to(create_dir, state_dir@, r) || note_written(write_note, state_dir@, r) || came_to(lock_down, marker_of(state_dir@), r) || came_to(
            claim,
            marker_of(state_dir@),
            r,
        ),
{
    match create_dir(state_dir) {
        Ok(u) => {
            assert(u == ());
            assert(came_to(create_dir, state_dir@, Ok(())));
        },
        Err(e) => {
            assert(came_to(create_dir, state_dir@, Err(e)));
            return Err(e);
        },
    }
    let path: String = marker_path(state_dir);
    match write_note(path.as_str(), OPTOUT_MARKER_NOTE) {
        Ok(u) => {
            assert(u == ());
            assert(note_written(write_note, state_dir@, Ok(())));
        },
        Err(e) => {
            assert(note_written(write_note, state_dir@, Err(e)));
            return Err(e);
        },
    }
    match lock_down(path.as_str()) {
        Ok(u) => {
            assert(u == ());
            assert(came_to(lock_down, path@, Ok(())));
        },
        Err(e) => {
            assert(came_to(lock_down, path@, Err(e)));
            return Err(e);
        },
    }
    match claim(path.as_str()) {
        Ok(u) => {
            assert(u == ());
            assert(came_to(claim, path@, Ok(())));
            Ok(())
        },
        Err(e) => {
            assert(came_to(claim, path@, Err(e)));
            Err(e)
        },
    }
}

/// How removing the marker ended.
#[derive(Debug, Clone, PartialEq, Eq)]
pub enum Removal {
    /// The marker was removed.
    Removed,
    /// There was no marker.
    NotFound,
    /// The marker is there but could not be removed.
    Failed(String),
}

/// Removing the file at `path` came to `removal`.
pub open spec fn removed<R: FnOnce(&str) -> Removal>(
    remove: R,
    path: Seq<char>,
    removal: Removal,
) -> bool {
    exists|p: &str| p@ == path && #[trigger] remove.ensures((p,), removal)
}

/// Clear an opt-out: remove the marker, and nothing else. It succeeds where the marker is gone,
/// whether or not it was there.
///
/// # Errors
///
/// [`BrokerError::Io`] if the marker exists but could not be removed.
pub fn clear_opted_out<R: FnOnce(&str) -> Removal>(state_dir: &str, remove: R) -> (r: Result<
    (),
    BrokerError,
>)
    requires
        forall|p: &str| p@ == marker_of(state_dir@) ==> #[trigger] remove.requires((p,)),
    ensures
        exists|removal: Removal| #[trigger]
            removed(remove, marker_of(state_dir@), removal) && match r {
                Ok(_) => removal !is Failed,
                Err(e) => removal matches Removal::Failed(detail) && e@ == ErrorView::Io(detail@),
            },
{
    let path: String = marker_path(state_dir);
    let removal: Removal = remove(path.as_str());
    assert(removed(remove, marker_of(state_dir@), removal));
    match removal {
        Removal::Removed => Ok(()),
        Removal::NotFound => Ok(()),
        Removal::Failed(detail) => Err(BrokerError::Io(detail)),
    }
}

/// The marker of a state directory is a file in it.
pub proof fn the_marker_is_in_the_state_directory(above: Seq<char>, last: Seq<char>)
    requires
        above.len() == 0 || above.last() == '/',
        is_plain(last),
    ensures
        marker_of(above + last) == above + last + "/schedule-optout"@,
{
    reveal_strlit("schedule-optout");
    reveal_strlit("/schedule-optout");
    a_path_is_its_directory_and_its_name(above, last, "schedule-optout"@);
    assert(above + last + seq!['/'] + "schedule-optout"@ =~= above + last + "/schedule-optout"@);
}

} // verus!
