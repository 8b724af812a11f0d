//! What is established about a component: digests, versions, loadability and records.

use std::cell::{Cell, RefCell};

use dig_updater_broker::config::Channel;
use dig_updater_broker::elf::ElfNeeds;
use dig_updater_broker::error::BrokerError;
use dig_updater_broker::hashing::{
    digest_hex, hex_lower, installed_digest_hex, refuse_symlink, verify_sha256,
};
use dig_updater_broker::health::{check_health, judge_health};
use dig_updater_broker::installed::{InstalledBuildStore, InstalledBuilds};
use dig_updater_broker::loadable::{
    decide_loadability, expand_runpath, host_check, host_sonames, inspect_artifact,
    is_library_name, ldconfig_sonames, read_bounded, refuse_oversized, resolves_on_host, Loadability,
    MAX_INSPECT_BYTES,
};
use dig_updater_broker::probe::{
    bounded_probe, inherited_allowlisted_env, probe_env_allowlist, system_working_dir, wait_within,
    Polled, Query, Wait, POLL_INTERVAL, PROBE_BUDGET,
};
use dig_updater_broker::resolver::DetectedVersion;
use dig_updater_broker::sandbox::{
    communicate_bounded, prepare_worker_writable_dir, read_limit, worker_reaches, Sandbox, WorkerOutput, NOBODY_ID,
    WORKER_IPC_BUDGET, WORKER_STDOUT_CAP,
};
use sha2::{Digest, Sha256};

// ------------------------------------------------------------------ digests

#[test]
fn sha256_file_matches_a_known_digest() {
    assert_eq!(
        digest_hex(b"abc"),
        "ba7816bf8f01cfea414140de5dae2223b00361a396177a9cb410ff61f20015ad"
    );
    assert_eq!(
        digest_hex(b"the-artifact-bytes"),
        hex_lower(&Sha256::digest(b"the-artifact-bytes"))
    );
}

#[test]
fn installed_digest_hex_is_the_lowercase_hex_of_the_files_sha256() {
    let expected = Sha256::digest(b"the-installed-bytes");
    let hex =
        installed_digest_hex(Some(b"the-installed-bytes")).expect("a readable file has a digest");
    assert_eq!(hex, hex_lower(&expected));
    assert_eq!(hex.len(), 64, "a SHA-256 renders as 64 hex digits");
    assert!(
        hex.chars()
            .all(|c| c.is_ascii_digit() || c.is_ascii_lowercase()),
        "must be LOWERCASE hex to match the manifest's own casing: {hex}"
    );
}

#[test]
fn installed_digest_hex_of_an_absent_file_is_none() {
    assert_eq!(installed_digest_hex(None), None);
    assert_eq!(installed_digest_hex(Some(b"")).map(|text| text.len()), Some(64));
}

#[test]
fn hex_lower_pads_every_byte_to_two_digits() {
    assert_eq!(hex_lower(&[0x00, 0x0f, 0xff, 0xa5]), "000fffa5");
}

#[test]
fn refuses_to_hash_a_symlink() {
    let err =
        refuse_symlink("/staging/link", true).expect_err("a symlinked staged file must be refused");
    assert!(err.message().contains("symlink"));
    assert_eq!(
        err.message(),
        "i/o error: refusing to open symlink `/staging/link` on the install path"
    );
    refuse_symlink("/staging/file", false).expect("a plain file is read");
}

#[test]
fn a_digest_is_verified_in_any_letter_case() {
    let digest = "BA7816BF8F01CFEA414140DE5DAE2223B00361A396177A9CB410FF61F20015AD";
    verify_sha256(digest, b"abc").expect("the bytes are the expected ones");
    let detail = verify_sha256(digest, b"abd").expect_err("the bytes are other ones");
    assert_eq!(
        detail,
        format!("expected {digest}, got {}", digest_hex(b"abd"))
    );
}

// ------------------------------------------------------------------ health

const DEST: &str = "/opt/dig/digstore";

#[test]
fn matching_version_is_healthy() {
    let probe = |_: &str| DetectedVersion::Present("digstore 0.15.0".to_string());
    assert!(check_health(DEST, "0.15.0", &probe).is_ok());
}

#[test]
fn wrong_version_is_unhealthy() {
    let probe = |_: &str| DetectedVersion::Present("digstore 0.14.0".to_string());
    let err = check_health(DEST, "0.15.0", &probe).expect_err("version mismatch is unhealthy");
    assert!(err.contains("version check"));
}

#[test]
fn absent_binary_is_unhealthy() {
    let probe = |_: &str| DetectedVersion::Absent;
    let err = check_health(DEST, "0.15.0", &probe).expect_err("absent is unhealthy");
    assert!(err.contains("nothing installed"));
    assert_eq!(err, "nothing installed at /opt/dig/digstore");
}

#[test]
fn unreadable_version_is_unhealthy() {
    let probe = |_: &str| DetectedVersion::Present(String::new());
    assert!(check_health(DEST, "0.15.0", &probe).is_err());
}

#[test]
fn the_decision_is_described_in_words() {
    let text = |raw: &str, wanted: &str| {
        judge_health(DEST, wanted, DetectedVersion::Present(raw.to_string()))
            .expect_err("not current")
    };
    assert_eq!(
        text("digstore 0.14.0", "0.15.0"),
        "post-install version check failed: v0.14.0 → v0.15.0 (update)"
    );
    assert_eq!(
        text("digstore beta", "0.15.0"),
        "post-install version check failed: beta → v0.15.0 (update — installed version unreadable, reinstalling)"
    );
    assert_eq!(
        text("", "0.15.0"),
        "post-install version check failed: unknown version → v0.15.0 (update — installed version unreadable, reinstalling)"
    );
    assert_eq!(
        text("digstore v0.15.0\r\nbuilt today", "nightly"),
        "post-install version check failed: v0.15.0 → vnightly (update — installed version unreadable, reinstalling)"
    );
    for current in ["0.15.0", "v0.15.0", "digstore 0.16.0\nsecond line 0.1.0", "a +0.15.0"] {
        assert!(
            judge_health(DEST, "0.15.0", DetectedVersion::Present(current.to_string())).is_ok(),
            "{current}"
        );
    }
}

#[test]
fn a_healthy_binary_is_reported_as_it_answered() {
    let detected = DetectedVersion::Present("digstore 0.15.0".to_string());
    assert_eq!(
        judge_health(DEST, "0.15.0", detected.clone()),
        Ok(detected)
    );
}

// ------------------------------------------------------------------ records of builds

fn store() -> InstalledBuildStore {
    InstalledBuildStore::for_channel("/var/lib/dig-updater", Channel::Stable)
}

#[test]
fn an_absent_or_corrupt_installed_builds_file_loads_as_empty() {
    let store = store();
    assert_eq!(
        store.load(None),
        InstalledBuilds::default(),
        "absent → empty"
    );
    assert_eq!(
        store.load(Some(b"{not json at all")),
        InstalledBuilds::default(),
        "corrupt → empty, NOT an error: one unreadable observability file must never stop a host \
         from updating"
    );
    assert!(store.read(b"{not json at all").is_err());
    assert!(store.read(b"{\"dig-app\": -1}").is_err());
}

#[test]
fn a_recorded_build_round_trips_per_component() {
    let store = store();
    let first = store
        .record(None, "dig-app", Some(3_004_000))
        .expect("record");
    let second = store
        .record(Some(&first), "digstore", Some(19_003))
        .expect("record");
    let loaded = store.load(Some(&second));
    assert_eq!(loaded.build_of("dig-app"), Some(3_004_000));
    assert_eq!(loaded.build_of("digstore"), Some(19_003));
    assert_eq!(
        loaded.build_of("dig-dns"),
        None,
        "an unrecorded component is None"
    );
    assert_eq!(
        second,
        b"{\n  \"dig-app\": 3004000,\n  \"digstore\": 19003\n}".to_vec()
    );
}

#[test]
fn recording_none_forgets_the_component_without_disturbing_the_others() {
    let store = store();
    let a = store
        .record(None, "dig-app", Some(3_004_000))
        .expect("record");
    let b = store
        .record(Some(&a), "digstore", Some(19_003))
        .expect("record");
    let c = store.record(Some(&b), "dig-app", None).expect("forget");
    let loaded = store.load(Some(&c));
    assert_eq!(
        loaded.build_of("dig-app"),
        None,
        "nothing of ours is installed there any more, so nothing is remembered"
    );
    assert_eq!(loaded.build_of("digstore"), Some(19_003));
}

#[test]
fn each_channel_keeps_its_own_records() {
    let stable = InstalledBuildStore::for_channel("/var/lib/dig-updater", Channel::Stable);
    let nightly = InstalledBuildStore::for_channel("/var/lib/dig-updater", Channel::Nightly);
    assert_ne!(stable.path(), nightly.path());
    assert_eq!(
        stable.path(),
        "/var/lib/dig-updater/installed-builds-stable.json"
    );
    stable
        .record(None, "dig-app", Some(3_004_000))
        .expect("record");
    assert_eq!(nightly.load(None).build_of("dig-app"), None);
}

#[test]
fn the_last_of_two_equal_names_counts() {
    let builds = InstalledBuilds::from_pairs(vec![
        ("a".to_string(), 1),
        ("b".to_string(), 2),
        ("a".to_string(), 3),
    ]);
    assert_eq!(builds.build_of("a"), Some(3));
    assert_eq!(builds.build_of("b"), Some(2));
    assert_eq!(
        store().load(Some(b"{\"a\": 1, \"a\": 3}")).build_of("a"),
        Some(3)
    );
}

// ------------------------------------------------------------------ loadability

fn gtk_needs() -> ElfNeeds {
    ElfNeeds {
        machine: 0,
        interp: Some("/lib64/ld-linux-x86-64.so.2".to_string()),
        needed: vec!["libgtk-3.so.0".to_string(), "libc.so.6".to_string()],
        runpath: Vec::new(),
    }
}

#[test]
fn a_missing_soname_makes_the_artifact_unloadable_and_names_it() {
    let headless = |soname: &str| soname != "libgtk-3.so.0";
    assert_eq!(
        decide_loadability(&gtk_needs(), &headless),
        Loadability::Unloadable {
            missing: vec!["libgtk-3.so.0".to_string()]
        },
        "the refusal must NAME the library the host lacks, not merely refuse"
    );
}

#[test]
fn all_sonames_present_is_loadable() {
    let desktop = |_: &str| true;
    assert_eq!(
        decide_loadability(&gtk_needs(), &desktop),
        Loadability::Loadable
    );
}

#[test]
fn no_dt_needed_at_all_is_loadable() {
    let barren = |_: &str| false;
    assert_eq!(
        decide_loadability(&ElfNeeds::default(), &barren),
        Loadability::Loadable
    );
}

#[test]
fn a_soname_found_only_via_runpath_is_loadable() {
    let needs = ElfNeeds {
        machine: 0,
        interp: None,
        needed: vec!["libdigbundled.so.1".to_string()],
        runpath: vec!["/opt/dig/lib".to_string()],
    };
    let only_in_runpath = |candidate: &str| candidate == "/opt/dig/lib/libdigbundled.so.1";
    assert_eq!(
        decide_loadability(&needs, &only_in_runpath),
        Loadability::Loadable
    );
    let slashed = ElfNeeds {
        runpath: vec!["/nowhere".to_string(), "/opt/dig/lib//".to_string()],
        ..needs
    };
    assert_eq!(
        decide_loadability(&slashed, &only_in_runpath),
        Loadability::Loadable
    );
}

#[test]
fn origin_in_a_runpath_expands_to_the_artifacts_own_directory() {
    let expanded = expand_runpath(
        &vec!["$ORIGIN/../lib".to_string(), "/opt/dig/lib".to_string()],
        "/opt/dig/bin",
    );
    assert_eq!(expanded, vec!["/opt/dig/bin/../lib", "/opt/dig/lib"]);
    assert_eq!(
        expand_runpath(&vec!["${ORIGIN}/a:$ORIGIN".to_string()], "/o"),
        vec!["/o/a:/o"]
    );
}

#[test]
fn a_non_elf_artifact_is_indeterminate_not_a_refusal() {
    let barren = |_: &str| false;
    assert_eq!(
        inspect_artifact(
            "/apply/dig-node.deb",
            Ok(b"!<arch>\ndebian-binary   2.0\n".to_vec()),
            &barren
        ),
        Loadability::Indeterminate {
            why: "/apply/dig-node.deb could not be read as an ELF image: not an ELF image"
                .to_string()
        },
        "a non-ELF artifact must never be refused"
    );
}

#[test]
fn an_unavailable_host_library_set_is_indeterminate_not_a_refusal() {
    let bytes = b"\x00\x01\x02\x03not-an-image".to_vec();
    let none = |_: &str| false;
    for (elf_host, sonames) in [
        (true, None),
        (false, None),
        (true, Some(vec!["libc.so.6".to_string()])),
    ] {
        assert!(
            matches!(
                host_check("/a/artifact.bin", elf_host, Ok(bytes.clone()), &sonames, &none),
                Loadability::Indeterminate { .. }
            ),
            "an unestablished answer is never a refusal"
        );
    }
}

#[test]
fn a_missing_artifact_is_indeterminate() {
    let barren = |_: &str| false;
    assert!(matches!(
        inspect_artifact(
            "/definitely/not/here/1870",
            Err("/definitely/not/here/1870 could not be read: no such file".to_string()),
            &barren
        ),
        Loadability::Indeterminate { .. }
    ));
}

#[test]
fn the_hosts_libraries_are_those_of_the_cache_and_of_its_directories() {
    let listing = "2 libs found in cache `/etc/ld.so.cache'\n\
                   \tlibz.so.1 (libc6,x86-64) => /lib/libz.so.1\r\n\
                   \tlibc.so.6 (libc6,x86-64) => /lib/libc.so.6\n\
                   Cache generated by: ldconfig\n";
    let cached = ldconfig_sonames(listing).expect("two libraries");
    assert_eq!(cached, vec!["libz.so.1", "libc.so.6"]);
    assert_eq!(ldconfig_sonames("no entries here\n"), None);
    assert!(is_library_name("libz.so.1.3") && !is_library_name("libz.a"));
    let all = host_sonames(Some(cached), vec!["libm.so.6".to_string()]).expect("three");
    assert_eq!(all.len(), 3);
    assert_eq!(host_sonames(None, vec![]), None);

    let files = |p: &str| p == "/opt/lib/libx.so";
    assert!(resolves_on_host("libm.so.6", &all, &files));
    assert!(!resolves_on_host("libx.so", &all, &files));
    assert!(resolves_on_host("/opt/lib/libx.so", &all, &files));
    assert!(!resolves_on_host("/opt/lib/libc.so.6", &all, &files));
}

#[test]
fn an_implausibly_large_artifact_is_not_inspected() {
    refuse_oversized("/a", MAX_INSPECT_BYTES).expect("at the ceiling it is read");
    assert_eq!(
        read_bounded(
            "/a",
            |_: &str| Ok(MAX_INSPECT_BYTES + 1),
            |_: &str| panic!("a file past the ceiling is not read")
        ),
        refuse_oversized("/a", MAX_INSPECT_BYTES + 1).map(|()| Vec::new())
    );
    assert_eq!(
        read_bounded("/a", |_: &str| Ok(2), |_: &str| Ok(vec![1, 2])),
        Ok(vec![1, 2])
    );
    assert_eq!(
        read_bounded(
            "/a",
            |_: &str| Err("denied".to_string()),
            |_: &str| panic!("a file of unknown size is not read")
        ),
        Err("/a could not be examined: denied".to_string())
    );
    assert_eq!(
        read_bounded("/a", |_: &str| Ok(2), |_: &str| Err("gone".to_string())),
        Err("/a could not be read: gone".to_string())
    );
    assert_eq!(
        refuse_oversized("/a", MAX_INSPECT_BYTES + 1),
        Err("/a is 268435457 bytes, past the 268435456-byte inspection ceiling".to_string())
    );
}

// ------------------------------------------------------------------ the version probe

const INSTALLED: &str = "/opt/dig/bin/dig-app";

/// Probe an installed binary whose query ends so.
fn probed(query: Query) -> DetectedVersion {
    bounded_probe(
        INSTALLED,
        |_: &str| true,
        |path: &str| {
            assert_eq!(path, INSTALLED);
            query
        },
    )
}

#[test]
fn a_binary_that_never_answers_is_bounded_not_awaited_forever() {
    let deadline = PROBE_BUDGET;
    let mut now = 0;
    let mut looks = 0;
    loop {
        match wait_within(Polled::Running, now, deadline) {
            Wait::Sleep(millis) => now += millis,
            Wait::TimedOut => break,
            Wait::Finished { .. } => panic!("the child never finishes"),
        }
        looks += 1;
    }
    assert_eq!(now, deadline);
    assert_eq!(looks, PROBE_BUDGET / POLL_INTERVAL);
    assert_eq!(
        probed(Query::TimedOut),
        DetectedVersion::Present(String::new()),
        "an unanswering binary is present-but-unreadable, never Absent — it IS installed"
    );
}

#[test]
fn an_unanswering_binary_fails_the_health_gate() {
    let detected = probed(Query::TimedOut);
    let probe = |_: &str| detected.clone();

    let err = check_health(INSTALLED, "3.0.0", &probe)
        .expect_err("a component that cannot report its version must not pass its health gate");
    assert!(
        err.contains("version check"),
        "expected a version-check failure, got: {err}"
    );
}

#[test]
fn a_probe_that_outlasts_its_budget_is_killed() {
    assert_eq!(wait_within(Polled::Running, 200, 200), Wait::TimedOut);
    assert_eq!(
        wait_within(Polled::Running, 199, 200),
        Wait::Sleep(POLL_INTERVAL)
    );
    assert_eq!(
        wait_within(Polled::Exited { success: true }, 500, 200),
        Wait::Finished { success: true }
    );
    assert_eq!(
        wait_within(Polled::Unreadable, 0, 200),
        Wait::Finished { success: false }
    );
}

#[test]
fn a_binary_that_answers_promptly_has_its_version_read() {
    assert_eq!(
        probed(Query::Answered("dig-app 3.0.0\n".to_string())),
        DetectedVersion::Present("dig-app 3.0.0".to_string()),
    );
}

#[test]
fn a_promptly_answered_matching_version_passes_the_health_gate() {
    let detected = probed(Query::Answered("dig-app 3.0.0\n".to_string()));
    let probe = |_: &str| detected.clone();
    assert!(check_health(INSTALLED, "3.0.0", &probe).is_ok());
}

#[test]
fn a_binary_that_rejects_the_flag_is_present_but_unreadable() {
    assert_eq!(
        probed(Query::Rejected),
        DetectedVersion::Present(String::new()),
    );
    assert_eq!(
        probed(Query::Unreadable),
        DetectedVersion::Present(String::new()),
    );
}

#[test]
fn the_probe_child_inherits_no_profile_or_xdg_variables() {
    let leaky = [
        ("HOME", "/home/canary-1746"),
        ("USERPROFILE", "C:\\Users\\canary-1746"),
        ("LOCALAPPDATA", "C:\\Users\\canary-1746\\AppData\\Local"),
        ("APPDATA", "C:\\Users\\canary-1746\\AppData\\Roaming"),
        ("XDG_DATA_HOME", "/home/canary-1746/.local/share"),
        ("XDG_CONFIG_HOME", "/home/canary-1746/.config"),
        ("SystemDrive", "C:"),
    ];
    let asked = RefCell::new(Vec::new());
    let inherited = inherited_allowlisted_env(&|key: &str| {
        asked.borrow_mut().push(key.to_string());
        leaky
            .iter()
            .find(|(k, _)| *k == key)
            .map(|(_, v)| v.to_string())
    });
    assert_eq!(
        inherited,
        vec![("SystemDrive".to_string(), "C:".to_string())]
    );
    assert_eq!(*asked.borrow(), vec!["SystemRoot", "SystemDrive"]);
    assert!(
        inherited
            .iter()
            .all(|(k, _)| probe_env_allowlist().contains(&k.as_str())),
        "only allowlisted variables may be passed: {inherited:?}"
    );
    assert!(
        !probe_env_allowlist().contains(&"PATH"),
        "PATH must not reach a probe child — it is a code-loading input on Windows"
    );
}

#[test]
fn nothing_installed_is_absent_without_spawning_anything() {
    assert_eq!(
        bounded_probe(
            "/opt/dig/bin/dig-updater-no-such-binary-1746",
            |_: &str| false,
            |_: &str| panic!("an absent binary must not be spawned")
        ),
        DetectedVersion::Absent,
    );
}

#[test]
fn an_unspawnable_binary_is_present_but_unreadable() {
    assert_eq!(
        probed(Query::NotRun),
        DetectedVersion::Present(String::new()),
    );
}

#[test]
fn a_probed_program_runs_in_a_system_directory() {
    assert_eq!(system_working_dir(false, &None), "/");
    assert_eq!(system_working_dir(true, &None), "C:/Windows/System32");
    assert_eq!(
        system_working_dir(true, &Some("D:/Win".to_string())),
        "D:/Win/System32"
    );
}

// ------------------------------------------------------------------ the worker

#[test]
fn a_worker_that_hangs_after_partial_output_times_out() {
    let result = communicate_bounded(
        false,
        300,
        None,
        WorkerOutput::Read(b"{\"partial\":".to_vec()),
        WORKER_STDOUT_CAP,
    );
    match result {
        Err(BrokerError::WorkerTimedOut(detail)) => {
            assert_eq!(detail, "worker still running after 0s; killed and reaped")
        }
        other => panic!("a hanging worker must fail closed with WorkerTimedOut, got: {other:?}"),
    }
    assert_eq!(WORKER_IPC_BUDGET, 30 * 60 * 1000);
}

#[test]
fn a_worker_that_floods_stdout_is_rejected_not_buffered() {
    let cap = 1024;
    assert_eq!(read_limit(cap), 1025);
    let result = communicate_bounded(
        true,
        30_000,
        Some(0),
        WorkerOutput::Read(vec![0; 1025]),
        cap,
    );
    assert!(
        matches!(result, Err(BrokerError::WorkerStdoutTooLarge { limit }) if limit == cap),
        "an over-cap worker must fail closed with WorkerStdoutTooLarge, got: {result:?}"
    );
}

#[test]
fn a_well_behaved_worker_is_read_verbatim() {
    let result = communicate_bounded(
        true,
        30_000,
        Some(0),
        WorkerOutput::Read(b"{\"ok\":true}".to_vec()),
        WORKER_STDOUT_CAP,
    );
    let (code, stdout) = result.expect("a prompt small report must succeed");
    assert_eq!(code, 0);
    assert_eq!(stdout, b"{\"ok\":true}");
    assert_eq!(WORKER_STDOUT_CAP, 64 * 1024 * 1024);
}

#[test]
fn a_report_exactly_at_the_cap_is_accepted() {
    let cap = 1024;
    let result = communicate_bounded(
        true,
        30_000,
        Some(0),
        WorkerOutput::Read(vec![0; 1024]),
        cap,
    );
    let (_code, stdout) = result.expect("output exactly at the cap must be accepted");
    assert_eq!(stdout.len() as u64, cap);
}

#[test]
fn a_worker_without_a_readable_code_or_output() {
    assert_eq!(
        communicate_bounded(true, 1, None, WorkerOutput::NotPiped, 10).expect("finished"),
        (-1, Vec::new())
    );
    let err = communicate_bounded(true, 1, Some(0), WorkerOutput::ReaderFailed, 10)
        .expect_err("the output was lost");
    assert_eq!(
        err.message(),
        "could not run the worker: the worker stdout reader thread panicked"
    );
}

#[test]
fn privilege_is_dropped_where_there_is_some_to_drop() {
    assert!(Sandbox::Restricted.drops_privilege(true));
    assert!(!Sandbox::Restricted.drops_privilege(false));
    assert!(!Sandbox::Inherit.drops_privilege(true));
    assert_eq!(NOBODY_ID, 65_534);
    worker_reaches("/s", &None).expect("nothing is in the way");
    let err = worker_reaches("/var/lib/s", &Some("/var/lib".to_string()))
        .expect_err("the worker cannot get there");
    assert_eq!(
        err.message(),
        "i/o error: the worker identity cannot reach its staging directory /var/lib/s: /var/lib denies traverse to any other identity"
    );
}

/// Prepare a staging directory: how it ended, and the steps that were taken.
fn prepared(
    sandbox: Sandbox,
    is_root: bool,
    fails: &str,
    blocker: Option<&str>,
) -> (Result<(), BrokerError>, Vec<String>) {
    let steps = RefCell::new(Vec::new());
    let step = |name: &str| {
        steps.borrow_mut().push(name.to_string());
        if name == fails {
            Err(BrokerError::Io(name.to_string()))
        } else {
            Ok(())
        }
    };
    let r = prepare_worker_writable_dir(
        "/s/staging",
        sandbox,
        is_root,
        |_: &str| step("create"),
        |_: &str| step("lock down"),
        |_: &str| step("hand over"),
        |_: &str| {
            steps.borrow_mut().push("look".to_string());
            blocker.map(str::to_string)
        },
    );
    (r, steps.into_inner())
}

#[test]
fn a_dropped_worker_gets_a_directory_that_it_can_reach() {
    let (r, steps) = prepared(Sandbox::Restricted, true, "", None);
    r.expect("prepared");
    assert_eq!(steps, vec!["create", "lock down", "hand over", "look"]);
    let (r, steps) = prepared(Sandbox::Inherit, true, "", Some("/s"));
    r.expect("the worker is the broker's own identity");
    assert_eq!(steps, vec!["create", "lock down"]);
    let (r, _) = prepared(Sandbox::Restricted, true, "", Some("/s"));
    assert!(r.expect_err("there is no way").message().contains("/s denies traverse"));
    for (at, fails) in ["create", "lock down", "hand over"].iter().enumerate() {
        let (r, steps) = prepared(Sandbox::Restricted, true, fails, None);
        assert_eq!(r.expect_err("reported").message(), format!("i/o error: {fails}"));
        assert_eq!(steps.len(), at + 1);
    }
}

#[test]
fn the_probe_asks_before_it_runs() {
    let looked = Cell::new(false);
    let detected = bounded_probe(
        INSTALLED,
        |_: &str| {
            looked.set(true);
            true
        },
        |_: &str| {
            assert!(looked.get());
            Query::Answered("3.0.0".to_string())
        },
    );
    assert_eq!(detected, DetectedVersion::Present("3.0.0".to_string()));
}
