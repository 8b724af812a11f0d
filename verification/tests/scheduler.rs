//! The daily schedule.

use std::cell::{Cell, RefCell};

use dig_updater_broker::error::BrokerError;
use dig_updater_broker::scheduler::{
    classify_query, deletion_outcome, ensure_decision, ensure_with, install_with, launchd_status,
    refuse_unprivileged_exe_dir, systemd_status, uninstall_recording_intent_first,
    utf16le_with_bom, EnsureAction, SchedulePresence, ScheduleStatus,
};

/// What the ledger was asked to do, in order.
#[derive(Debug, Clone, Copy, PartialEq, Eq)]
enum LedgerCall {
    Record,
    Rescind,
}

struct RecordingLedger {
    calls: RefCell<Vec<LedgerCall>>,
    record_fails: bool,
}

impl RecordingLedger {
    fn working() -> Self {
        Self {
            calls: RefCell::new(Vec::new()),
            record_fails: false,
        }
    }

    fn that_cannot_record() -> Self {
        Self {
            calls: RefCell::new(Vec::new()),
            record_fails: true,
        }
    }

    fn calls(&self) -> Vec<LedgerCall> {
        self.calls.borrow().clone()
    }

    fn record(&self) -> Result<(), BrokerError> {
        self.calls.borrow_mut().push(LedgerCall::Record);
        if self.record_fails {
            return Err(BrokerError::Io(
                "not elevated enough to claim ownership".into(),
            ));
        }
        Ok(())
    }

    fn rescind(&self) -> Result<(), BrokerError> {
        self.calls.borrow_mut().push(LedgerCall::Rescind);
        Ok(())
    }
}

#[test]
fn utf16le_with_bom_starts_with_the_little_endian_bom() {
    let bytes = utf16le_with_bom("hi");
    assert_eq!(&bytes[..2], &[0xFF, 0xFE]);
}

#[test]
fn utf16le_with_bom_encodes_ascii_as_two_bytes_per_char() {
    let bytes = utf16le_with_bom("hi");
    assert_eq!(&bytes[2..], &[0x68, 0x00, 0x69, 0x00]);
}

fn read_back(bytes: &[u8]) -> String {
    let units: Vec<u16> = bytes[2..]
        .chunks_exact(2)
        .map(|c| u16::from_le_bytes([c[0], c[1]]))
        .collect();
    String::from_utf16(&units).unwrap()
}

#[test]
fn utf16le_with_bom_round_trips_through_string_from_utf16() {
    let original = "<Task>\u{2764}</Task>";
    assert_eq!(read_back(&utf16le_with_bom(original)), original);
}

#[test]
fn a_character_past_the_basic_plane_takes_two_units() {
    let original = "a\u{1F600}b\u{10FFFF}\u{FFFF}";
    let bytes = utf16le_with_bom(original);
    assert_eq!(&bytes[4..8], &[0x3D, 0xD8, 0x00, 0xDE]);
    assert_eq!(read_back(&bytes), original);
}

#[test]
fn uninstall_records_the_optout_before_it_removes_anything() {
    let ledger = RecordingLedger::working();
    let removed = Cell::new(false);
    uninstall_recording_intent_first(
        || ledger.record(),
        || {
            assert_eq!(
                ledger.calls(),
                vec![LedgerCall::Record],
                "the opt-out must already be recorded when the removal runs"
            );
            removed.set(true);
            Ok(())
        },
        || ledger.rescind(),
    )
    .expect("a successful removal after a successful record");

    assert!(removed.get(), "the artifact was removed");
    assert_eq!(
        ledger.calls(),
        vec![LedgerCall::Record],
        "a successful uninstall never rescinds its own record"
    );
}

#[test]
fn uninstall_rescinds_the_optout_when_the_removal_is_the_step_that_fails() {
    let ledger = RecordingLedger::working();
    let err = uninstall_recording_intent_first(
        || ledger.record(),
        || {
            Err(BrokerError::Io(
                "schtasks /Delete failed: access is denied".into(),
            ))
        },
        || ledger.rescind(),
    )
    .expect_err("the removal failure reaches the caller");

    assert!(
        err.message().contains("schtasks"),
        "the REMOVAL error is what the caller must act on, not a rescind error: {err:?}"
    );
    assert_eq!(
        ledger.calls(),
        vec![LedgerCall::Record, LedgerCall::Rescind]
    );
}

#[test]
fn uninstall_removes_nothing_when_the_optout_cannot_be_recorded() {
    let ledger = RecordingLedger::that_cannot_record();
    let err = uninstall_recording_intent_first(
        || ledger.record(),
        || panic!("the removal must not run when the opt-out could not be recorded"),
        || ledger.rescind(),
    )
    .expect_err("an unrecordable opt-out fails the uninstall");

    assert!(err.message().contains("ownership"), "{err:?}");
    assert_eq!(ledger.calls(), vec![LedgerCall::Record]);
}

#[test]
fn classify_query_reports_a_successful_query_as_registered() {
    assert_eq!(
        classify_query(true, "", false).presence,
        SchedulePresence::Registered
    );
    assert_eq!(
        classify_query(true, "", true).presence,
        SchedulePresence::Registered
    );
    assert_eq!(
        classify_query(true, "", true).detail,
        "registered at \\DIG\\dig-updater"
    );
}

#[test]
fn classify_query_reports_access_denied_as_unknown_not_absent() {
    for is_elevated in [false, true] {
        assert_eq!(
            classify_query(false, "ERROR: Access is denied.", is_elevated).presence,
            SchedulePresence::Unknown
        );
        assert_eq!(
            classify_query(false, "some prefix 0x80070005 suffix", is_elevated).presence,
            SchedulePresence::Unknown
        );
    }
    assert!(classify_query(false, "ERROR: Access is denied.", true)
        .detail
        .contains("(access denied); re-run elevated"));
}

#[test]
fn classify_query_unprivileged_path_not_found_is_unknown_not_absent() {
    let path_not_found = "ERROR: The system cannot find the path specified.";
    assert_eq!(
        classify_query(false, path_not_found, false).presence,
        SchedulePresence::Unknown,
    );
    assert_eq!(
        classify_query(false, "ERROR: something unexpected happened", false).presence,
        SchedulePresence::Unknown,
    );
    assert!(classify_query(false, path_not_found, false)
        .detail
        .ends_with("re-run elevated, or: schtasks /Query /TN \\DIG\\dig-updater"));
}

#[test]
fn classify_query_elevated_not_found_is_absent_preserving_self_heal() {
    let file_not_found = "ERROR: The system cannot find the file specified.";
    let no_such_task = "ERROR: The specified task name \"\\DIG\\dig-updater\" \
                        does not exist in the system.";
    assert_eq!(
        classify_query(false, file_not_found, true).presence,
        SchedulePresence::Absent
    );
    assert_eq!(
        classify_query(false, no_such_task, true).presence,
        SchedulePresence::Absent
    );
    assert_eq!(
        classify_query(false, "ERROR: something unexpected happened", true).presence,
        SchedulePresence::Absent
    );
}

#[test]
fn ensure_re_registers_only_a_provably_absent_schedule() {
    assert_eq!(
        ensure_decision(SchedulePresence::Absent),
        EnsureAction::Reregistered
    );
    assert_eq!(
        ensure_decision(SchedulePresence::Registered),
        EnsureAction::AlreadyRegistered
    );
    assert_eq!(
        ensure_decision(SchedulePresence::Unknown),
        EnsureAction::LeftUnknown,
    );
}

#[test]
fn ensure_short_circuits_to_suppressed_when_a_privileged_opt_out_marker_is_present() {
    assert_eq!(
        ensure_with(
            EXE,
            STATE,
            |dir: &str| {
                assert_eq!(dir, STATE);
                true
            },
            || panic!("an opted-out ensure never asks the scheduler"),
            &|_: &str| panic!("nothing is registered"),
            |_: &str| panic!("nothing is registered"),
        )
        .expect("ensure honors the opt-out without an OS probe"),
        EnsureAction::SuppressedByOptOut
    );
}

const EXE: &str = "/opt/dig/bin/dig-updater";
const STATE: &str = "/var/lib/dig-updater";

#[test]
fn refuse_unprivileged_exe_dir_rejects_a_user_writable_dir_and_names_it() {
    let err = refuse_unprivileged_exe_dir(EXE, &|_: &str| false)
        .expect_err("a non-privileged-owned exe directory must be refused");
    let msg = err.message();
    assert!(
        msg.contains("/opt/dig/bin"),
        "the refusal must name the offending directory, got: {msg}"
    );
    assert!(
        msg.contains("foothold"),
        "the refusal must explain WHY (the elevated-foothold risk), got: {msg}"
    );
}

#[test]
fn refuse_unprivileged_exe_dir_checks_the_directory_not_the_binary() {
    let seen = RefCell::new(Vec::new());
    let _ = refuse_unprivileged_exe_dir(EXE, &|dir: &str| {
        seen.borrow_mut().push(dir.to_string());
        true
    });
    assert_eq!(
        seen.borrow().as_slice(),
        &["/opt/dig/bin".to_string()],
        "the guard must check the exe's PARENT directory, not the exe path"
    );
}

#[test]
fn refuse_unprivileged_exe_dir_allows_a_privileged_owned_dir() {
    refuse_unprivileged_exe_dir(EXE, &|_: &str| true)
        .expect("a privileged-owned install root must be allowed");
}

#[test]
fn refuse_unprivileged_exe_dir_errors_legibly_when_exe_has_no_parent() {
    let err = refuse_unprivileged_exe_dir("/", &|_: &str| true)
        .expect_err("a parentless exe path cannot be verified and must be refused");
    assert!(
        err.message().contains("parent"),
        "the refusal must explain the missing parent directory, got: {err:?}"
    );
}

#[test]
fn install_refuses_a_non_privileged_owned_exe_dir_before_registering() {
    let registered = Cell::new(false);
    let err = install_with(
        EXE,
        STATE,
        &|_: &str| false,
        |_: &str| {
            registered.set(true);
            Ok(())
        },
        |_: &str| panic!("a refused install must not clear the opt-out"),
    )
    .expect_err("install must refuse a non-privileged-owned exe dir");
    assert!(err.message().contains("foothold"), "{err:?}");
    assert!(
        !registered.get(),
        "the OS registration must NOT run when the guard refuses"
    );
}

#[test]
fn install_proceeds_to_register_from_a_privileged_owned_dir() {
    let registered = Cell::new(false);
    let cleared = Cell::new(false);
    install_with(
        EXE,
        STATE,
        &|_: &str| true,
        |exe: &str| {
            assert_eq!(exe, EXE);
            registered.set(true);
            Ok(())
        },
        |dir: &str| {
            assert_eq!(dir, STATE);
            assert!(registered.get(), "the opt-out is cleared afterwards");
            cleared.set(true);
            Ok(())
        },
    )
    .expect("a privileged-owned root registers normally");
    assert!(registered.get(), "registration proceeds on the happy path");
    assert!(cleared.get());
}

#[test]
fn a_failed_registration_keeps_the_opt_out() {
    let err = install_with(
        EXE,
        STATE,
        &|_: &str| true,
        |_: &str| Err(BrokerError::Io("denied".to_string())),
        |_: &str| panic!("a failed registration must not re-arm"),
    )
    .expect_err("the failure is reported");
    assert_eq!(err.message(), "i/o error: denied");
}

#[test]
fn ensure_reregister_refuses_a_non_privileged_owned_exe_dir() {
    let registered = Cell::new(false);
    let err = ensure_with(
        EXE,
        STATE,
        |_: &str| false,
        || Ok(SchedulePresence::Absent),
        &|_: &str| false,
        |_: &str| {
            registered.set(true);
            Ok(())
        },
    )
    .expect_err("the self-heal must refuse to re-register from a non-privileged-owned dir");
    assert!(err.message().contains("foothold"), "{err:?}");
    assert!(
        !registered.get(),
        "the self-heal must NOT re-register when the guard refuses"
    );
}

#[test]
fn ensure_reregister_proceeds_from_a_privileged_owned_dir() {
    let registered = Cell::new(false);
    let action = ensure_with(
        EXE,
        STATE,
        |_: &str| false,
        || Ok(SchedulePresence::Absent),
        &|_: &str| true,
        |_: &str| {
            registered.set(true);
            Ok(())
        },
    )
    .expect("a privileged-owned root re-registers normally");
    assert_eq!(action, EnsureAction::Reregistered);
    assert!(
        registered.get(),
        "the self-heal re-registers on the happy path"
    );
}

#[test]
fn ensure_does_not_invoke_the_guard_when_already_registered() {
    let guard_consulted = Cell::new(false);
    let action = ensure_with(
        EXE,
        STATE,
        |_: &str| false,
        || Ok(SchedulePresence::Registered),
        &|_: &str| {
            guard_consulted.set(true);
            false
        },
        |_: &str| panic!("a registered schedule must not re-register"),
    )
    .expect("an already-registered schedule is left untouched");
    assert_eq!(action, EnsureAction::AlreadyRegistered);
    assert!(
        !guard_consulted.get(),
        "the guard must not run when nothing is being registered"
    );
}

#[test]
fn ensure_leaves_an_unreadable_schedule_alone() {
    let action = ensure_with(
        EXE,
        STATE,
        |_: &str| false,
        || Ok(SchedulePresence::Unknown),
        &|_: &str| panic!("nothing is registered"),
        |_: &str| panic!("nothing is registered"),
    )
    .expect("a schedule that cannot be read is left untouched");
    assert_eq!(action, EnsureAction::LeftUnknown);
    let err = ensure_with(
        EXE,
        STATE,
        |_: &str| false,
        || Err(BrokerError::Io("no scheduler".to_string())),
        &|_: &str| panic!("nothing is registered"),
        |_: &str| panic!("nothing is registered"),
    )
    .expect_err("a failed probe is reported");
    assert_eq!(err.message(), "i/o error: no scheduler");
}

#[test]
fn installed_is_true_only_for_registered_never_for_unknown() {
    assert!(ScheduleStatus::registered("x".into()).installed());
    assert!(!ScheduleStatus::absent("x".into()).installed());
    assert!(!ScheduleStatus::unknown("x".into()).installed());
}

#[test]
fn the_unix_schedules_are_registered_or_absent() {
    assert_eq!(
        systemd_status("/etc/systemd/system", "dig-updater", false, true),
        ScheduleStatus::absent(
            "no unit files at /etc/systemd/system/dig-updater.{service,timer}".to_string()
        )
    );
    assert_eq!(
        systemd_status("/etc/systemd/system", "dig-updater", true, true),
        ScheduleStatus::registered("dig-updater.timer is enabled".to_string())
    );
    assert_eq!(
        systemd_status("/etc/systemd/system", "dig-updater", true, false),
        ScheduleStatus::absent(
            "unit files present but dig-updater.timer is not enabled".to_string()
        )
    );
    assert_eq!(
        launchd_status("net.dig.updater", true),
        ScheduleStatus::registered("net.dig.updater is loaded".to_string())
    );
    assert_eq!(
        launchd_status("net.dig.updater", false),
        ScheduleStatus::absent("net.dig.updater is not loaded".to_string())
    );
}

#[test]
fn deleting_an_absent_task_is_a_success_and_an_unreadable_one_is_not() {
    deletion_outcome(true, "", || panic!("a deleted task is not asked about"))
        .expect("the task was deleted");
    deletion_outcome(false, "no such task", || Ok(SchedulePresence::Absent))
        .expect("there was nothing to delete");
    let err = deletion_outcome(false, " denied \n", || Ok(SchedulePresence::Unknown))
        .expect_err("the task may still be there");
    assert_eq!(
        err.message(),
        "i/o error: schtasks /Delete failed: denied"
    );
}
