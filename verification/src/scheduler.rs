//! The daily schedule that wakes a pass.
//!
//! The updater never sleeps and loops: it is invoked, runs one pass, and exits. Something outside
//! it has to invoke it daily, and this module holds the rules about that artifact: how its presence
//! is read, when it is registered again, from where it may be registered, and how its deliberate
//! removal is recorded. Running the system's own tools is left to the caller.
//!
//! A presence that cannot be determined is not an absence. Only a provable absence is healed, since
//! anything else could recreate a task that already exists.

use vstd::prelude::*;

use crate::error::{BrokerError, ErrorView};
use crate::path::{a_path_is_its_directory_and_its_name, is_plain, parent, parent_of};
use crate::text::{
    ascii_lowered, cat2, cat3, cat5, chars_of, contains_chars, has_text, lowered_chars,
    stands_at,
};

verus! {

/// The Windows task path.
pub const WINDOWS_TASK_PATH: &'static str = "\\DIG\\dig-updater";

/// The determined presence of the daily schedule.
#[derive(Debug, Clone, Copy, PartialEq, Eq, Structural)]
pub enum SchedulePresence {
    /// The schedule is registered.
    Registered,
    /// The schedule is provably absent: the only state that the self-heal registers from.
    Absent,
    /// Whether the schedule is registered could not be determined.
    Unknown,
}

/// Whether the daily schedule is registered, and a detail for people.
#[derive(Debug, Clone, PartialEq, Eq)]
pub struct ScheduleStatus {
    /// The determined presence.
    pub presence: SchedulePresence,
    /// What is there, or why it is absent or unreadable.
    pub detail: String,
}

impl ScheduleStatus {
    /// A registered schedule.
    pub fn registered(detail: String) -> (s: Self)
        ensures
            s == (ScheduleStatus { presence: SchedulePresence::Registered, detail }),
    {
        ScheduleStatus { presence: SchedulePresence::Registered, detail }
    }

    /// An absent schedule.
    pub fn absent(detail: String) -> (s: Self)
        ensures
            s == (ScheduleStatus { presence: SchedulePresence::Absent, detail }),
    {
        ScheduleStatus { presence: SchedulePresence::Absent, detail }
    }

    /// A schedule whose presence could not be determined.
    pub fn unknown(detail: String) -> (s: Self)
        ensures
            s == (ScheduleStatus { presence: SchedulePresence::Unknown, detail }),
    {
        ScheduleStatus { presence: SchedulePresence::Unknown, detail }
    }

    /// Whether the schedule is registered: neither an absent nor an unknown one is.
    #[must_use]
    pub fn installed(&self) -> (r: bool)
        ensures
            r == (self.presence is Registered),
    {
        self.presence == SchedulePresence::Registered
    }
}

/// What was decided about the daily schedule in this pass.
#[derive(Debug, Clone, Copy, PartialEq, Eq, Structural)]
pub enum EnsureAction {
    /// Already registered, left untouched.
    AlreadyRegistered,
    /// Presence undetermined, left untouched.
    LeftUnknown,
    /// Provably absent, registered again.
    Reregistered,
    /// Deliberately removed, left so.
    SuppressedByOptOut,
}

/// What a presence calls for, where the operator has not opted out.
pub open spec fn action_for(presence: SchedulePresence) -> EnsureAction {
    match presence {
        SchedulePresence::Registered => EnsureAction::AlreadyRegistered,
        SchedulePresence::Unknown => EnsureAction::LeftUnknown,
        SchedulePresence::Absent => EnsureAction::Reregistered,
    }
}

/// The decision on a presence reading: only a provable absence is registered again.
#[must_use]
pub fn ensure_decision(presence: SchedulePresence) -> (action: EnsureAction)
    ensures
        action == action_for(presence),
        action is Reregistered <==> presence is Absent,
{
    match presence {
        SchedulePresence::Registered => EnsureAction::AlreadyRegistered,
        SchedulePresence::Unknown => EnsureAction::LeftUnknown,
        SchedulePresence::Absent => EnsureAction::Reregistered,
    }
}

/// The directory that holds `exe` was looked at and the answer was `privileged`.
pub open spec fn dir_judged<P: Fn(&str) -> bool>(
    is_privileged: P,
    exe: Seq<char>,
    privileged: bool,
) -> bool {
    &&& parent_of(exe) is Some
    &&& exists|p: &str|
        p@ == parent_of(exe)->0 && #[trigger] is_privileged.ensures((p,), privileged)
}

/// Why an executable without a parent directory is refused.
pub open spec fn no_parent_text(exe: Seq<char>) -> Seq<char> {
    "refusing to register the daily schedule: "@ + exe
        + " has no parent directory whose ownership could be checked"@
}

/// Why an executable in an unprivileged directory is refused.
pub open spec fn foothold_text(dir: Seq<char>) -> Seq<char> {
    "refusing to register the daily schedule: "@ + dir
        + " is not owned by a privileged identity, so whoever can write there could replace the binary and keep a permanent elevated foothold"@
}

/// Whether `e` is the refusal of the guard for `exe`.
pub open spec fn is_refusal<P: Fn(&str) -> bool>(
    is_privileged: P,
    exe: Seq<char>,
    e: BrokerError,
) -> bool {
    match parent_of(exe) {
        None => e@ == ErrorView::Io(no_parent_text(exe)),
        Some(dir) => dir_judged(is_privileged, exe, false) && e@ == ErrorView::Io(
            foothold_text(dir),
        ),
    }
}

/// Refuse to register a schedule for a binary whose directory is not privileged.
///
/// The daily task runs `exe` with full privilege and no further prompt, so a directory that others
/// can write would turn one approval into a permanent foothold. What is asked about is the
/// directory, never the binary.
///
/// # Errors
///
/// [`BrokerError::Io`] if `exe` has no parent directory, or that directory is not privileged.
pub fn refuse_unprivileged_exe_dir<P: Fn(&str) -> bool>(exe: &str, is_privileged: &P) -> (r: Result<
    (),
    BrokerError,
>)
    requires
        forall|p: &str|
            parent_of(exe@) == Some(p@) ==> #[trigger] is_privileged.requires((p,)),
    ensures
        r is Ok ==> dir_judged(*is_privileged, exe@, true),
        r is Err ==> is_refusal(*is_privileged, exe@, r->Err_0),
{
    match parent(exe) {
        None => Err(
            BrokerError::Io(
                cat3(
                    "refusing to register the daily schedule: ",
                    exe,
                    " has no parent directory whose ownership could be checked",
                ),
            ),
        ),
        Some(dir) => {
            let privileged: bool = is_privileged(dir.as_str());
            assert(dir_judged(*is_privileged, exe@, privileged));
            if privileged {
                Ok(())
            } else {
                Err(
                    BrokerError::Io(
                        cat3(
                            "refusing to register the daily schedule: ",
                            dir.as_str(),
                            " is not owned by a privileged identity, so whoever can write there could replace the binary and keep a permanent elevated foothold",
                        ),
                    ),
                )
            }
        },
    }
}

/// Register the daily schedule for `exe`, clearing a prior opt-out recorded in `state_dir`.
///
/// The guard runs first, so a binary in an unprivileged directory never reaches the registration;
/// the opt-out is cleared only after a successful registration, so a failed one never re-arms a
/// deliberate opt-out. Both are part of the contract: `register` may be called only where the guard
/// allows it, and `clear_opt_out` only after `register` has succeeded.
///
/// # Errors
///
/// The refusal of [`refuse_unprivileged_exe_dir`], or what `register` or `clear_opt_out` report.
pub fn install_with<
    P: Fn(&str) -> bool,
    R: FnOnce(&str) -> Result<(), BrokerError>,
    C: FnOnce(&str) -> Result<(), BrokerError>,
>(exe: &str, state_dir: &str, is_privileged: &P, register: R, clear_opt_out: C) -> (r: Result<
    (),
    BrokerError,
>)
    requires
        forall|p: &str|
            parent_of(exe@) == Some(p@) ==> #[trigger] is_privileged.requires((p,)),
        dir_judged(*is_privileged, exe@, true) ==> register.requires((exe,)),
        dir_judged(*is_privileged, exe@, true) && register.ensures((exe,), Ok(()))
            ==> clear_opt_out.requires((state_dir,)),
    ensures
        r is Ok ==> dir_judged(*is_privileged, exe@, true) && register.ensures((exe,), Ok(()))
            && clear_opt_out.ensures((state_dir,), Ok(())),
        r is Err ==> {
            ||| is_refusal(*is_privileged, exe@, r->Err_0)
            ||| dir_judged(*is_privileged, exe@, true) && register.ensures((exe,), r)
            ||| dir_judged(*is_privileged, exe@, true) && register.ensures((exe,), Ok(()))
                && clear_opt_out.ensures((state_dir,), r)
        },
{
    match refuse_unprivileged_exe_dir(exe, is_privileged) {
        Ok(_) => {},
        Err(e) => return Err(e),
    }
    match register(exe) {
        Ok(u) => assert(u == ()),
        Err(e) => return Err(e),
    }
    match clear_opt_out(state_dir) {
        Ok(u) => {
            assert(u == ());
            Ok(())
        },
        Err(e) => Err(e),
    }
}

/// Remove the daily schedule and record that it was deliberate.
///
/// The intent is recorded before the removal, and withdrawn if the removal fails: an absent
/// schedule without a record can then only mean that something else removed it. The order is part
/// of the contract: `remove` may be called only after `record` has succeeded, and `rescind` only
/// after `remove` has failed. What `rescind` reports is not passed on: the caller must act on the
/// failed removal.
///
/// # Errors
///
/// What `record` or `remove` report.
pub fn uninstall_recording_intent_first<
    A: FnOnce() -> Result<(), BrokerError>,
    M: FnOnce() -> Result<(), BrokerError>,
    W: FnOnce() -> Result<(), BrokerError>,
>(record: A, remove: M, rescind: W) -> (r: Result<(), BrokerError>)
    requires
        record.requires(()),
        record.ensures((), Ok(())) ==> remove.requires(()),
        forall|e: BrokerError|
            record.ensures((), Ok(())) && #[trigger] remove.ensures((), Err(e))
                ==> rescind.requires(()),
    ensures
        r is Ok ==> record.ensures((), Ok(())) && remove.ensures((), Ok(())),
        r is Err ==> {
            ||| record.ensures((), r)
            ||| record.ensures((), Ok(())) && remove.ensures((), r) && exists|w: Result<
                (),
                BrokerError,
            >| #[trigger] rescind.ensures((), w)
        },
{
    match record() {
        Ok(u) => assert(u == ()),
        Err(e) => return Err(e),
    }
    match remove() {
        Ok(u) => {
            assert(u == ());
            Ok(())
        },
        Err(e) => {
            let withdrawn: Result<(), BrokerError> = rescind();
            assert(rescind.ensures((), withdrawn));
            Err(e)
        },
    }
}

/// Ensure that the daily schedule is registered, healing a provably absent one.
///
/// A deliberate opt-out recorded in `state_dir` is honored first, before the system is even asked; a registered schedule
/// and one that cannot be read are left untouched; only a provable absence is registered again, and
/// then only past the guard of [`refuse_unprivileged_exe_dir`]. The contract says so: `presence`
/// may be called only where there is no opt-out, the guard's question may be asked only where the
/// schedule is absent, and `register` may be called only where the guard allows it.
///
/// # Errors
///
/// What `presence` or `register` report, or the guard's refusal.
pub fn ensure_with<
    O: FnOnce(&str) -> bool,
    S: FnOnce() -> Result<SchedulePresence, BrokerError>,
    P: Fn(&str) -> bool,
    R: FnOnce(&str) -> Result<(), BrokerError>,
>(
    exe: &str,
    state_dir: &str,
    opted_out: O,
    presence: S,
    is_privileged: &P,
    register: R,
) -> (r: Result<EnsureAction, BrokerError>)
    requires
        opted_out.requires((state_dir,)),
        opted_out.ensures((state_dir,), false) ==> presence.requires(()),
        forall|p: &str|
            opted_out.ensures((state_dir,), false) && presence.ensures((), Ok(SchedulePresence::Absent))
                && parent_of(exe@) == Some(p@) ==> #[trigger] is_privileged.requires((p,)),
        opted_out.ensures((state_dir,), false) && presence.ensures((), Ok(SchedulePresence::Absent))
            && dir_judged(
            *is_privileged,
            exe@,
            true,
        ) ==> register.requires((exe,)),
    ensures
        match r {
            Ok(EnsureAction::SuppressedByOptOut) => opted_out.ensures((state_dir,), true),
            Ok(EnsureAction::AlreadyRegistered) => opted_out.ensures((state_dir,), false)
                && presence.ensures((), Ok(SchedulePresence::Registered)),
            Ok(EnsureAction::LeftUnknown) => opted_out.ensures((state_dir,), false) && presence.ensures(
                (),
                Ok(SchedulePresence::Unknown),
            ),
            Ok(EnsureAction::Reregistered) => opted_out.ensures((state_dir,), false) && presence.ensures(
                (),
                Ok(SchedulePresence::Absent),
            ) && dir_judged(*is_privileged, exe@, true) && register.ensures((exe,), Ok(())),
            Err(e) => opted_out.ensures((state_dir,), false) && {
                ||| presence.ensures((), Err(e))
                ||| presence.ensures((), Ok(SchedulePresence::Absent)) && is_refusal(
                    *is_privileged,
                    exe@,
                    e,
                )
                ||| presence.ensures((), Ok(SchedulePresence::Absent)) && dir_judged(
                    *is_privileged,
                    exe@,
                    true,
                ) && register.ensures((exe,), Err(e))
            },
        },
{
    if opted_out(state_dir) {
        return Ok(EnsureAction::SuppressedByOptOut);
    }
    let found: SchedulePresence = match presence() {
        Ok(p) => p,
        Err(e) => return Err(e),
    };
    let action: EnsureAction = ensure_decision(found);
    if action == EnsureAction::Reregistered {
        match refuse_unprivileged_exe_dir(exe, is_privileged) {
            Ok(_) => {},
            Err(e) => return Err(e),
        }
        match register(exe) {
            Ok(u) => assert(u == ()),
            Err(e) => return Err(e),
        }
    }
    Ok(action)
}

/// Whether the message of a failed query says that access was denied.
pub open spec fn says_denied(stderr: Seq<char>) -> bool {
    let lower = ascii_lowered(stderr);
    has_text(lower, "access is denied"@) || has_text(lower, "0x80070005"@)
}

/// What a query of the Windows task means.
pub open spec fn query_presence(
    success: bool,
    stderr: Seq<char>,
    is_elevated: bool,
) -> SchedulePresence {
    if success {
        SchedulePresence::Registered
    } else if says_denied(stderr) || !is_elevated {
        SchedulePresence::Unknown
    } else {
        SchedulePresence::Absent
    }
}

/// Only an elevated query that was not denied can report an absence.
pub proof fn an_absence_is_only_reported_with_privilege(
    success: bool,
    stderr: Seq<char>,
    is_elevated: bool,
)
    ensures
        query_presence(success, stderr, is_elevated) is Absent <==> is_elevated && !success
            && !says_denied(stderr),
        query_presence(success, stderr, is_elevated) is Registered <==> success,
{
}

/// How the outcome of a query of the Windows task is described.
pub open spec fn query_detail(success: bool, stderr: Seq<char>, is_elevated: bool) -> Seq<char> {
    let task = WINDOWS_TASK_PATH@;
    if success {
        "registered at "@ + task
    } else if says_denied(stderr) {
        "cannot determine whether "@ + task
            + " is registered (access denied); re-run elevated to read it"@
    } else if !is_elevated {
        "cannot determine whether "@ + task
            + " is registered without elevation — the unprivileged query cannot distinguish an absent task from one it may not read; re-run elevated, or: schtasks /Query /TN "@
            + task
    } else {
        "no task registered at "@ + task
    }
}

/// Classify the outcome of a query of the Windows task.
///
/// A query that succeeds found the task. One that was denied, or that failed without elevation,
/// cannot tell an absent task from one that it may not read. Only an elevated query that failed
/// otherwise reports an absence.
#[must_use]
pub fn classify_query(success: bool, stderr: &str, is_elevated: bool) -> (status: ScheduleStatus)
    ensures
        status.presence == query_presence(success, stderr@, is_elevated),
        status.detail@ == query_detail(success, stderr@, is_elevated),
{
    if success {
        return ScheduleStatus::registered(cat2("registered at ", WINDOWS_TASK_PATH));
    }
    let lower: Vec<char> = lowered_chars(stderr);
    let denied: Vec<char> = chars_of("access is denied");
    let code: Vec<char> = chars_of("0x80070005");
    if contains_chars(&lower, &denied) || contains_chars(&lower, &code) {
        return ScheduleStatus::unknown(
            cat3(
                "cannot determine whether ",
                WINDOWS_TASK_PATH,
                " is registered (access denied); re-run elevated to read it",
            ),
        );
    }
    if !is_elevated {
        let head: String = cat3(
            "cannot determine whether ",
            WINDOWS_TASK_PATH,
            " is registered without elevation — the unprivileged query cannot distinguish an absent task from one it may not read; re-run elevated, or: schtasks /Query /TN ",
        );
        return ScheduleStatus::unknown(cat2(head.as_str(), WINDOWS_TASK_PATH));
    }
    ScheduleStatus::absent(cat2("no task registered at ", WINDOWS_TASK_PATH))
}

/// The status of a systemd timer, from whether its unit files are there and whether it is enabled.
#[must_use]
pub fn systemd_status(unit_dir: &str, unit: &str, files_present: bool, enabled: bool) -> (status:
    ScheduleStatus)
    ensures
        status.presence is Registered <==> files_present && enabled,
        status.presence is Absent <==> !(files_present && enabled),
        status.detail@ == if !files_present {
            "no unit files at "@ + unit_dir@ + "/"@ + unit@ + ".{service,timer}"@
        } else if enabled {
            unit@ + ".timer is enabled"@
        } else {
            "unit files present but "@ + unit@ + ".timer is not enabled"@
        },
{
    if !files_present {
        ScheduleStatus::absent(cat5("no unit files at ", unit_dir, "/", unit, ".{service,timer}"))
    } else if enabled {
        ScheduleStatus::registered(cat2(unit, ".timer is enabled"))
    } else {
        ScheduleStatus::absent(cat3("unit files present but ", unit, ".timer is not enabled"))
    }
}

/// The status of a launch daemon, from whether it is loaded.
#[must_use]
pub fn launchd_status(label: &str, loaded: bool) -> (status: ScheduleStatus)
    ensures
        status.presence is Registered <==> loaded,
        status.presence is Absent <==> !loaded,
        status.detail@ == label@ + if loaded {
            " is loaded"@
        } else {
            " is not loaded"@
        },
{
    if loaded {
        ScheduleStatus::registered(cat2(label, " is loaded"))
    } else {
        ScheduleStatus::absent(cat2(label, " is not loaded"))
    }
}

/// How deleting the Windows task ended: deleting an absent task is a success, and only a provable
/// absence counts as one.
///
/// `presence` may be asked only where the deletion failed.
///
/// # Errors
///
/// What `presence` reports, or [`BrokerError::Io`] if the task may still be there.
pub fn deletion_outcome<S: FnOnce() -> Result<SchedulePresence, BrokerError>>(
    deleted: bool,
    stderr: &str,
    presence: S,
) -> (r: Result<(), BrokerError>)
    requires
        !deleted ==> presence.requires(()),
    ensures
        deleted ==> r is Ok,
        !deleted ==> match r {
            Ok(_) => presence.ensures((), Ok(SchedulePresence::Absent)),
            Err(e) => presence.ensures((), Err(e)) || exists|p: SchedulePresence|
                p !is Absent && #[trigger] presence.ensures((), Ok(p)) && e@ == ErrorView::Io(
                    "schtasks /Delete failed: "@ + crate::text::trimmed(stderr@),
                ),
        },
{
    if deleted {
        return Ok(());
    }
    match presence() {
        Err(e) => Err(e),
        Ok(p) => {
            if p == SchedulePresence::Absent {
                Ok(())
            } else {
                let shown: String = crate::text::trim_text(stderr);
                Err(BrokerError::Io(cat2("schtasks /Delete failed: ", shown.as_str())))
            }
        },
    }
}

/// The UTF-16 code units of one character.
pub open spec fn utf16_units(c: char) -> Seq<u16> {
    let n = c as u32;
    if n < 0x10000 {
        seq![n as u16]
    } else {
        seq![
            (0xD800 + (n - 0x10000) / 0x400) as u16,
            (0xDC00 + (n - 0x10000) % 0x400) as u16,
        ]
    }
}

/// The UTF-16 code units of a text.
pub open spec fn utf16(s: Seq<char>) -> Seq<u16>
    decreases s.len(),
{
    if s.len() == 0 {
        Seq::empty()
    } else {
        utf16(s.drop_last()) + utf16_units(s.last())
    }
}

/// Code units as bytes, the low byte first.
pub open spec fn little_endian(units: Seq<u16>) -> Seq<u8> {
    Seq::new(
        2 * units.len(),
        |i: int|
            if i % 2 == 0 {
                (units[i / 2] % 256) as u8
            } else {
                (units[i / 2] / 256) as u8
            },
    )
}

/// Append a code unit, the low byte first.
fn push_unit(bytes: &mut Vec<u8>, unit: u16)
    ensures
        final(bytes)@ == old(bytes)@.push((unit % 256) as u8).push((unit / 256) as u8),
{
    bytes.push((unit % 256) as u8);
    bytes.push((unit / 256) as u8);
}

proof fn lemma_little_endian_push(units: Seq<u16>, unit: u16)
    ensures
        little_endian(units.push(unit)) == little_endian(units).push((unit % 256) as u8).push(
            (unit / 256) as u8,
        ),
{
    assert(little_endian(units.push(unit)) =~= little_endian(units).push((unit % 256) as u8).push(
        (unit / 256) as u8,
    ));
}

/// Append one character in UTF-16, the low byte of each unit first.
fn push_char(bytes: &mut Vec<u8>, c: char)
    ensures
        final(bytes)@ == old(bytes)@ + little_endian(utf16_units(c)),
{
    let n: u32 = c as u32;
    let ghost before = bytes@;
    proof {
        assert(little_endian(Seq::empty()) =~= Seq::empty());
    }
    if n < 0x10000 {
        push_unit(bytes, n as u16);
        proof {
            lemma_little_endian_push(Seq::empty(), n as u16);
            assert(Seq::<u16>::empty().push(n as u16) =~= utf16_units(c));
            assert(bytes@ =~= before + little_endian(utf16_units(c)));
        }
    } else {
        let high: u16 = (0xD800 + (n - 0x10000) / 0x400) as u16;
        let low: u16 = (0xDC00 + (n - 0x10000) % 0x400) as u16;
        push_unit(bytes, high);
        push_unit(bytes, low);
        proof {
            lemma_little_endian_push(Seq::empty(), high);
            lemma_little_endian_push(seq![high], low);
            assert(Seq::<u16>::empty().push(high) =~= seq![high]);
            assert(seq![high].push(low) =~= utf16_units(c));
            assert(bytes@ =~= before + little_endian(utf16_units(c)));
        }
    }
}

proof fn lemma_little_endian_cat(a: Seq<u16>, b: Seq<u16>)
    ensures
        little_endian(a + b) == little_endian(a) + little_endian(b),
{
    assert(little_endian(a + b) =~= little_endian(a) + little_endian(b));
}

/// Encode `text` as UTF-16, the low byte first, after a byte-order mark: the form in which the task
/// scheduler takes a definition.
#[must_use]
pub fn utf16le_with_bom(text: &str) -> (bytes: Vec<u8>)
    ensures
        bytes@ == seq![0xFFu8, 0xFEu8] + little_endian(utf16(text@)),
{
    let chars: Vec<char> = chars_of(text);
    let mut bytes: Vec<u8> = Vec::new();
    bytes.push(0xFF);
    bytes.push(0xFE);
    let mut i: usize = 0;
    assert(bytes@ =~= seq![0xFFu8, 0xFEu8] + little_endian(utf16(text@.take(0))));
    while i < chars.len()
        invariant
            i <= chars@.len(),
            chars@ == text@,
            bytes@ == seq![0xFFu8, 0xFEu8] + little_endian(utf16(text@.take(i as int))),
        decreases chars@.len() - i,
    {
        let c: char = chars[i];
        push_char(&mut bytes, c);
        proof {
            let head = utf16(text@.take(i as int));
            assert(text@.take(i + 1).drop_last() =~= text@.take(i as int));
            lemma_little_endian_cat(head, utf16_units(c));
            assert(bytes@ =~= seq![0xFFu8, 0xFEu8] + little_endian(utf16(text@.take(i + 1))));
        }
        i = i + 1;
    }
    assert(text@.take(i as int) =~= text@);
    bytes
}

/// The character that a code unit starts, if it starts one: a unit outside the surrogate range
/// stands for itself, and a high one together with a low one for a character past that range.
pub open spec fn utf16_value(units: Seq<u16>, i: int) -> Option<(int, int)> {
    if !(0 <= i < units.len()) {
        None
    } else if units[i] < 0xD800 || units[i] >= 0xE000 {
        Some((units[i] as int, 1))
    } else if units[i] < 0xDC00 && i + 1 < units.len() && 0xDC00 <= units[i + 1] < 0xE000 {
        Some((0x10000 + (units[i] - 0xD800) * 0x400 + (units[i + 1] - 0xDC00), 2))
    } else {
        None
    }
}

/// The character values that the code units from `i` on hold, `None` if they hold a lone half of a
/// pair.
pub open spec fn utf16_read(units: Seq<u16>, i: int) -> Option<Seq<int>>
    decreases units.len() - i,
{
    if i >= units.len() {
        Some(Seq::empty())
    } else {
        match utf16_value(units, i) {
            None => None,
            Some((n, k)) => if k <= 0 {
                None
            } else {
                match utf16_read(units, i + k) {
                    None => None,
                    Some(rest) => Some(seq![n] + rest),
                }
            },
        }
    }
}

/// The character values of a text.
pub open spec fn char_values(s: Seq<char>) -> Seq<int> {
    Seq::new(s.len(), |i: int| (s[i] as u32) as int)
}

/// A text that was encoded is read back: decoding its code units gives its characters.
pub proof fn utf16_is_read_back(s: Seq<char>)
    ensures
        utf16_read(utf16(s), 0) == Some(char_values(s)),
{
    lemma_read_tail(s, s.len() as int);
    assert(s.take(0) =~= Seq::empty());
    assert(utf16(s.take(0)).len() == 0);
    assert(s.skip(0) =~= s);
}

proof fn lemma_read_tail(s: Seq<char>, k: int)
    requires
        0 <= k <= s.len(),
    ensures
        utf16(s.take(s.len() - k)).len() <= utf16(s).len(),
        utf16(s.take(s.len() - k)) == utf16(s).take(utf16(s.take(s.len() - k)).len() as int),
        utf16_read(utf16(s), utf16(s.take(s.len() - k)).len() as int) == Some(
            char_values(s.skip(s.len() - k)),
        ),
    decreases k,
{
    let all = utf16(s);
    if k == 0 {
        assert(s.take(s.len() as int) =~= s);
        assert(all.take(all.len() as int) =~= all);
        assert(char_values(s.skip(s.len() as int)) =~= Seq::<int>::empty());
    } else {
        let i: int = s.len() - k;
        lemma_read_tail(s, k - 1);
        let longer = s.take(i + 1);
        assert(longer.drop_last() =~= s.take(i));
        let here = utf16(s.take(i));
        let c = s[i];
        assert(longer.last() == c);
        assert(utf16(longer) == here + utf16_units(c));
        let at: int = here.len() as int;
        let width: int = utf16_units(c).len() as int;
        assert(utf16(longer).len() == at + width);
        assert(all.take(at) =~= here) by {
            assert(all.take(at + width).take(at) =~= all.take(at));
            assert((here + utf16_units(c)).take(at) =~= here);
        }
        assert forall|j: int| 0 <= j < width implies all[at + j] == #[trigger] utf16_units(c)[j] by {
            assert(all.take(at + width)[at + j] == all[at + j]);
            assert((here + utf16_units(c))[at + j] == utf16_units(c)[j]);
        }
        lemma_units(c);
        assert(all[at] == utf16_units(c)[0]);
        if width == 2 {
            assert(all[at + 1] == utf16_units(c)[1]);
        }
        assert(utf16_value(all, at) == Some(((c as u32) as int, width)));
        assert(char_values(s.skip(i)) =~= seq![(c as u32) as int] + char_values(s.skip(i + 1)));
    }
}

proof fn lemma_units(c: char)
    ensures
        utf16_units(c).len() == 1 || utf16_units(c).len() == 2,
        utf16_units(c).len() == 1 ==> utf16_units(c)[0] == c as u32 && (utf16_units(c)[0] < 0xD800
            || utf16_units(c)[0] >= 0xE000),
        utf16_units(c).len() == 2 ==> 0xD800 <= utf16_units(c)[0] < 0xDC00 && 0xDC00
            <= utf16_units(c)[1] < 0xE000 && 0x10000 + (utf16_units(c)[0] - 0xD800) * 0x400 + (
        utf16_units(c)[1] - 0xDC00) == c as u32,
{
    let n = c as u32;
    assert(n < 0xD800 || 0xE000 <= n <= 0x10FFFF);
    if n >= 0x10000 {
        let m = (n - 0x10000) as int;
        assert(m == (m / 0x400) * 0x400 + m % 0x400) by (nonlinear_arith);
        assert(0 <= m / 0x400 < 0x400);
    }
}

/// A query that failed with words that access was denied, in any case, or with the code for it, tells
/// nothing, wherever the words stand in the message; one that says neither, with privilege, tells that
/// there is no task.
pub proof fn a_denied_query_tells_nothing(
    before: Seq<char>,
    words: Seq<char>,
    after: Seq<char>,
    is_elevated: bool,
    silent: Seq<char>,
)
    requires
        ascii_lowered(words) == "access is denied"@ || ascii_lowered(words) == "0x80070005"@,
        forall|i: int| !#[trigger] stands_at(ascii_lowered(silent), "access is denied"@, i),
        forall|i: int| !#[trigger] stands_at(ascii_lowered(silent), "0x80070005"@, i),
    ensures
        query_presence(false, before + words + after, is_elevated) is Unknown,
        query_presence(true, before + words + after, is_elevated) is Registered,
        query_presence(false, silent, true) is Absent,
        query_presence(false, silent, false) is Unknown,
        query_presence(true, silent, is_elevated) is Registered,
{
    let s = before + words + after;
    let lower = ascii_lowered(s);
    let pat = ascii_lowered(words);
    let k: int = before.len() as int;
    assert(lower.subrange(k, k + pat.len()) =~= pat);
    assert(stands_at(lower, pat, k));
    assert(!has_text(ascii_lowered(silent), "access is denied"@));
    assert(!has_text(ascii_lowered(silent), "0x80070005"@));
}

/// What a presence calls for: only a provable absence is registered again.
pub proof fn only_an_absence_is_registered_again(presence: SchedulePresence)
    ensures
        action_for(presence) is Reregistered <==> presence is Absent,
        action_for(presence) is AlreadyRegistered <==> presence is Registered,
        action_for(presence) is LeftUnknown <==> presence is Unknown,
{
}

/// Each code unit takes two bytes, the low one first.
pub proof fn code_units_are_little_endian(units: Seq<u16>, i: int)
    requires
        0 <= i < units.len(),
    ensures
        little_endian(units).len() == 2 * units.len(),
        units[i] == little_endian(units)[2 * i] + 0x100 * little_endian(units)[2 * i + 1],
{
    assert((2 * i) / 2 == i && (2 * i + 1) / 2 == i && (2 * i) % 2 == 0 && (2 * i + 1) % 2 == 1);
}

/// What is asked about a program is the directory that holds it, and its registration is refused exactly
/// where that directory is not privileged.
pub proof fn the_guard_asks_about_the_directory<P: Fn(&str) -> bool>(
    is_privileged: P,
    above: Seq<char>,
    last: Seq<char>,
    name: Seq<char>,
    privileged: bool,
    e: BrokerError,
)
    requires
        above.len() == 0 || above.last() == '/',
        is_plain(last),
        is_plain(name),
    ensures
        dir_judged(is_privileged, above + last + seq!['/'] + name, privileged) <==> exists|p: &str|
            p@ == above + last && #[trigger] is_privileged.ensures((p,), privileged),
        is_refusal(is_privileged, above + last + seq!['/'] + name, e) ==> e@ is Io && exists|p: &str|
            p@ == above + last && #[trigger] is_privileged.ensures((p,), false),
{
    a_path_is_its_directory_and_its_name(above, last, name);
}

} // verus!
