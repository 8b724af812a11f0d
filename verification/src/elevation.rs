//! Whether the process holds the privilege to change how this machine updates itself.

use vstd::prelude::*;

use crate::error::{BrokerError, ErrorView};

verus! {

/// Why an unprivileged caller is refused.
pub const NOT_ELEVATED_DETAIL: &'static str =
    "this operation reconfigures the beacon's SYSTEM/root-run schedule or update behavior and requires an elevated (Administrator) console or root";

/// Require elevation, as `is_elevated` answers.
///
/// # Errors
///
/// [`BrokerError::Io`] if the answer is no.
pub fn require<F: FnOnce() -> bool>(is_elevated: F) -> (r: Result<(), BrokerError>)
    requires
        is_elevated.requires(()),
    ensures
        match r {
            Ok(_) => is_elevated.ensures((), true),
            Err(e) => is_elevated.ensures((), false) && e@ == ErrorView::Io(NOT_ELEVATED_DETAIL@),
        },
{
    if is_elevated() {
        Ok(())
    } else {
        Err(BrokerError::Io(NOT_ELEVATED_DETAIL.to_owned()))
    }
}

} // verus!
