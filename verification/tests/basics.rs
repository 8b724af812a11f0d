//! Configuration, display, elevation, paths, the lock, persistence and the opt-out marker.

use std::cell::RefCell;
use std::collections::BTreeMap;

use dig_updater_broker::config::{
    Channel, ConfigRead, ConfigStore, UpdaterConfig, CONFIG_SCHEMA,
};
use dig_updater_broker::display::without_control_chars;
use dig_updater_broker::elevation::require;
use dig_updater_broker::error::BrokerError;
use dig_updater_broker::liveprocess::{
    is_running, listing_names, tasklist_filter, windows_is_running,
};
use dig_updater_broker::lock::{
    lock_path, mutex_name, LockAttempt, SingleInstanceLock, ADMIN_SYSTEM_ONLY_SDDL,
    PRODUCTION_NAME,
};
use dig_updater_broker::optout::{
    clear_opted_out, is_opted_out, marker_path, set_opted_out, Removal, OPTOUT_MARKER_NAME,
    OPTOUT_MARKER_NOTE,
};
use dig_updater_broker::path::{
    components_of, file_name, is_absolute_on, is_strictly_within, is_within, join, parent, with_extension,
    with_file_name,
};
use dig_updater_broker::paths::{
    default_dir_is_usable, default_state_dir, default_status_dir, is_dir_writable,
    per_user_state_dir, resolve_dry_check_state_dir, sibling_installer_binary, sibling_status_dir,
    sibling_worker_binary, worker_file_name, DirCreation, HostEnv,
};
use dig_updater_broker::persist::write_json_atomic;
use dig_updater_broker::proc::CREATE_NO_WINDOW;

// ------------------------------------------------------------------ configuration

#[test]
fn missing_file_loads_as_default() {
    let store = ConfigStore::at("/var/lib/dig-updater");
    assert_eq!(
        store.load(ConfigRead::Missing).expect("load"),
        UpdaterConfig::default()
    );
}

#[test]
fn save_then_load_round_trips() {
    let store = ConfigStore::at("/var/lib/dig-updater");
    assert_eq!(store.path(), "/var/lib/dig-updater/config.json");
    let config = UpdaterConfig {
        schema: CONFIG_SCHEMA,
        channel: Channel::Alpha,
        paused: true,
        paused_until: Some(1_700_000_000),
    };
    let steps = RefCell::new(Vec::new());
    let disk = RefCell::new(None);
    store
        .save(
            &config,
            |dir: &str| {
                steps.borrow_mut().push(format!("lock down {dir}"));
                Ok(())
            },
            |path: &str, config: &UpdaterConfig| {
                steps.borrow_mut().push(format!("write {path}"));
                *disk.borrow_mut() = Some(config.clone());
                Ok(())
            },
        )
        .expect("save");
    assert_eq!(
        *steps.borrow(),
        vec![
            "lock down /var/lib/dig-updater".to_string(),
            "write /var/lib/dig-updater/config.json".to_string(),
        ],
        "the directory is guarded before the first write"
    );
    let read = ConfigRead::Config(disk.borrow().clone().expect("written"));
    assert_eq!(store.load(read).expect("load"), config);
}

#[test]
fn a_state_directory_that_cannot_be_guarded_is_not_written() {
    let store = ConfigStore::at("/var/lib/dig-updater");
    let err = store
        .save(
            &UpdaterConfig::default(),
            |_: &str| Err(BrokerError::Io("no".to_string())),
            |_: &str, _: &UpdaterConfig| panic!("nothing may be written"),
        )
        .expect_err("the failure is reported");
    assert_eq!(err.message(), "i/o error: no");
}

#[test]
fn corrupt_config_fails_closed_not_reset() {
    let store = ConfigStore::at("/var/lib/dig-updater");
    let err = store
        .load(ConfigRead::Malformed("expected value".to_string()))
        .expect_err("corrupt config must not silently reset to defaults");
    assert!(matches!(err, BrokerError::StateCorrupt(_)));
    assert_eq!(
        err.message(),
        "persisted trust state is corrupt: config: expected value"
    );
    let err = store
        .load(ConfigRead::Unreadable("denied".to_string()))
        .expect_err("an unreadable config is an error");
    assert!(matches!(err, BrokerError::Io(_)));
}

#[test]
fn channel_display_and_as_str_use_the_wire_token() {
    assert_eq!(Channel::Alpha.as_str(), "alpha");
    assert_eq!(Channel::Stable.as_str(), "stable");
    assert_eq!(Channel::Nightly.as_str(), "nightly");
}

#[test]
fn indefinite_pause_gates_at_every_future_time() {
    let config = UpdaterConfig {
        paused: true,
        paused_until: None,
        ..UpdaterConfig::default()
    };
    assert!(config.is_paused_at(0));
    assert!(config.is_paused_at(u64::MAX));
}

#[test]
fn a_timed_pause_lapses_once_now_reaches_paused_until() {
    let config = UpdaterConfig {
        paused: true,
        paused_until: Some(100),
        ..UpdaterConfig::default()
    };
    assert!(config.is_paused_at(50), "still within the snooze window");
    assert!(
        !config.is_paused_at(100),
        "the snooze must lapse AT its own expiry, not linger past it"
    );
    assert!(!config.is_paused_at(200));
}

#[test]
fn not_paused_never_gates_regardless_of_paused_until() {
    let config = UpdaterConfig {
        paused: false,
        paused_until: Some(u64::MAX),
        ..UpdaterConfig::default()
    };
    assert!(!config.is_paused_at(0));
}

// ------------------------------------------------------------------ display

#[test]
fn ordinary_text_is_returned_unchanged() {
    let plain = "libgtk-3.so.0, /usr/lib/x86_64-linux-gnu/libc.so.6 (build 3004000)";
    assert_eq!(without_control_chars(plain), plain);
}

#[test]
fn a_forged_log_line_cannot_survive_the_renderer() {
    let forged = "lib\r\x1b[2Kdig-updater: pass applied (2 component(s)).so.0";
    let safe = without_control_chars(forged);
    assert!(
        !safe.contains('\r') && !safe.contains('\u{1b}'),
        "no carriage return and no escape byte may reach the terminal: {safe:?}"
    );
    assert_eq!(
        safe.chars().count(),
        forged.chars().count(),
        "each control character is REPLACED, so the forgery is visible rather than erased"
    );
}

#[test]
fn a_newline_cannot_split_one_log_line_into_two() {
    assert!(!without_control_chars("a\nb\tc\0d").contains(['\n', '\t', '\0']));
}

// ------------------------------------------------------------------ elevation

#[test]
fn require_ok_when_the_injected_check_reports_elevated() {
    require(|| true).expect("an elevated check must be accepted");
}

#[test]
fn require_fails_cleanly_when_the_injected_check_reports_unprivileged() {
    let err = require(|| false).expect_err("an unprivileged check must be refused");
    assert!(matches!(err, BrokerError::Io(_)));
    assert!(err.message().contains("elevated"));
}

// ------------------------------------------------------------------ paths

fn unix_env() -> HostEnv {
    HostEnv {
        windows: false,
        program_data: None,
        local_app_data: None,
        xdg_cache_home: None,
        home: Some("/home/sam".to_string()),
        temp_dir: "/tmp".to_string(),
    }
}

fn windows_env() -> HostEnv {
    HostEnv {
        windows: true,
        program_data: Some("D:/Data".to_string()),
        local_app_data: Some("C:/Users/sam/AppData/Local".to_string()),
        xdg_cache_home: None,
        home: None,
        temp_dir: "C:/Temp".to_string(),
    }
}

#[test]
fn state_dir_is_admin_scoped_per_os() {
    assert!(default_state_dir(&windows_env()).ends_with("DIG/updater"));
    assert_eq!(default_state_dir(&windows_env()), "D:/Data/DIG/updater");
    assert_eq!(default_state_dir(&unix_env()), "/var/lib/dig-updater");
}

#[test]
fn worker_file_name_has_exe_suffix_on_windows() {
    for windows in [true, false] {
        let name = worker_file_name(windows);
        assert_eq!(name.ends_with(".exe"), windows);
    }
}

#[test]
fn status_dir_is_a_sibling_of_state_dir_not_nested_inside_it() {
    let state_dir = "/var/lib/dig-updater";
    let status_dir = sibling_status_dir(state_dir);
    assert_eq!(status_dir, "/var/lib/dig-updater-status");
    assert_eq!(
        parent(&status_dir),
        parent(state_dir),
        "must share the SAME parent, never nest under the hardened state dir"
    );
}

#[test]
fn default_status_dir_derives_from_default_state_dir() {
    for env in [unix_env(), windows_env()] {
        assert_eq!(
            default_status_dir(&env),
            sibling_status_dir(&default_state_dir(&env))
        );
    }
}

#[test]
fn dry_check_state_dir_prefers_a_non_empty_env_override_regardless_of_usability() {
    let override_dir = "/tmp/dig-updater-ci".to_string();
    for default_dir_usable in [true, false] {
        assert_eq!(
            resolve_dry_check_state_dir(
                Some(override_dir.clone()),
                || default_dir_usable,
                &unix_env()
            ),
            override_dir
        );
    }
}

#[test]
fn dry_check_state_dir_uses_the_hardened_default_when_it_is_usable() {
    for unset in [None, Some(String::new())] {
        assert_eq!(
            resolve_dry_check_state_dir(unset, || true, &unix_env()),
            default_state_dir(&unix_env())
        );
    }
}

#[test]
fn dry_check_state_dir_relocates_to_the_per_user_dir_when_the_default_is_not_usable() {
    for unset in [None, Some(String::new())] {
        assert_eq!(
            resolve_dry_check_state_dir(unset, || false, &unix_env()),
            per_user_state_dir(&unix_env())
        );
    }
}

#[test]
fn per_user_state_dir_always_resolves_a_non_empty_path() {
    let mut bare = unix_env();
    bare.home = None;
    for env in [unix_env(), windows_env(), bare] {
        assert_ne!(per_user_state_dir(&env), "");
    }
}

#[test]
fn per_user_state_dir_is_distinct_from_the_hardened_default() {
    for env in [unix_env(), windows_env()] {
        assert_ne!(per_user_state_dir(&env), default_state_dir(&env));
    }
}

#[test]
fn is_dir_writable_is_true_for_a_fresh_or_pre_existing_writable_directory() {
    for made in [DirCreation::Created, DirCreation::AlreadyExists] {
        assert!(is_dir_writable(
            "/s/state",
            |_: &str| made,
            |probe: &str| {
                assert_eq!(probe, "/s/state/.dig-updater-write-probe");
                true
            }
        ));
    }
}

#[test]
fn is_dir_writable_is_false_when_the_path_is_occupied_by_a_plain_file() {
    assert!(!is_dir_writable(
        "/s/state",
        |_: &str| DirCreation::AlreadyExists,
        |_: &str| false
    ));
    assert!(!is_dir_writable(
        "/s/state",
        |_: &str| DirCreation::Failed,
        |_: &str| panic!("there is nowhere to write")
    ));
}

#[test]
fn an_unprivileged_process_does_not_try_the_default_directory() {
    let env = windows_env();
    assert!(!default_dir_is_usable(
        &env,
        || false,
        |_: &str| panic!("an unprivileged process does not write there")
    ));
    for writable in [false, true] {
        let usable = default_dir_is_usable(
            &env,
            || true,
            |dir: &str| {
                assert_eq!(dir, "D:/Data/DIG/updater");
                writable
            },
        );
        assert_eq!(usable, writable);
    }
}

#[test]
fn sibling_status_dir_preserves_an_arbitrary_test_state_dir_name() {
    assert_eq!(sibling_status_dir("/tmp/abc123"), "/tmp/abc123-status");
    for state_dir in ["/tmp/abc123", "/tmp/abc123/", "relative", "/x/./y//."] {
        let status_dir = sibling_status_dir(state_dir);
        assert!(!is_within(&status_dir, state_dir));
        assert!(!is_within(state_dir, &status_dir));
    }
}

#[test]
fn the_worker_and_the_installer_sit_beside_the_updater() {
    assert_eq!(
        sibling_worker_binary("/opt/dig/bin/dig-updater", false).expect("has a directory"),
        "/opt/dig/bin/dig-updater-worker"
    );
    assert_eq!(
        sibling_installer_binary("C:/DIG/bin/dig-updater.exe", true).expect("has a directory"),
        "C:/DIG/bin/dig-installer.exe"
    );
    let err = sibling_worker_binary("/", false).expect_err("the root has no directory");
    assert_eq!(
        err.message(),
        "i/o error: current executable has no parent directory"
    );
}

#[test]
fn path_operations_follow_the_components() {
    assert_eq!(file_name("/opt/dig/bin/"), Some("bin".to_string()));
    assert_eq!(file_name("/opt/.."), None);
    assert_eq!(parent("/opt//dig/./"), Some("/opt".to_string()));
    assert_eq!(parent("/"), None);
    assert_eq!(parent("dig"), Some(String::new()));
    assert_eq!(join("/opt", "/abs"), "/abs");
    assert_eq!(join("/opt/", "dig"), "/opt/dig");
    assert_eq!(with_file_name("/opt/dig", "new"), "/opt/new");
    assert_eq!(with_extension("/opt/dig.exe", "tmp"), "/opt/dig.tmp");
    assert_eq!(with_extension("/opt/.hidden", "tmp"), "/opt/.hidden.tmp");
    assert_eq!(
        components_of("/a//b/./c/"),
        vec!["/".to_string(), "a".to_string(), "b".to_string(), "c".to_string()]
    );
}

#[test]
fn containment_goes_by_components_not_by_text() {
    assert!(is_strictly_within("/staging/a", "/staging"));
    assert!(!is_strictly_within("/staging/.", "/staging"));
    assert!(is_within("/staging/a", "/staging"));
    assert!(is_within("/staging", "/staging/"));
    assert!(!is_within("/staging-evil/a", "/staging"));
    assert!(!is_within("/", "/staging"));
}

#[test]
fn what_is_absolute_depends_on_the_host() {
    assert!(is_absolute_on("/usr/bin/dpkg", false));
    assert!(!is_absolute_on("dpkg", false));
    assert!(is_absolute_on("C:/Windows", true));
    assert!(is_absolute_on("//server/share", true));
    assert!(!is_absolute_on("/Windows", true));
    assert!(!is_absolute_on("C:Windows", true));
    assert!(!is_absolute_on("1:/Windows", true));
}

// ------------------------------------------------------------------ processes

#[test]
fn a_name_nothing_on_the_host_runs_is_not_detected() {
    let asked = RefCell::new(Vec::new());
    assert!(!is_running(
        "definitely-not-a-real-dig-binary-92-xyz.exe",
        &|name: &str| {
            asked.borrow_mut().push(name.to_string());
            false
        }
    ));
    assert_eq!(
        *asked.borrow(),
        vec!["definitely-not-a-real-dig-binary-92-xyz.exe".to_string()]
    );
}

#[test]
fn a_running_binary_is_found_by_its_file_name() {
    assert!(is_running("/opt/dig/bin/dig-app", &|name: &str| name
        == "dig-app"));
    assert!(!is_running("/opt/dig/..", &|_: &str| panic!(
        "a path without a name has nothing to ask about"
    )));
}

#[test]
fn the_windows_listing_is_matched_in_any_letter_case() {
    let hit = "\"PING.EXE\",\"4242\",\"Console\"";
    assert!(windows_is_running(true, hit, "ping.exe"));
    assert!(windows_is_running(true, "\"ÄPP.EXE\"", "äpp.exe"));
    assert!(!windows_is_running(false, hit, "ping.exe"));
    assert!(!windows_is_running(
        true,
        "INFO: No tasks are running which match the specified criteria. ping.exe",
        "ping.exe"
    ));
    assert!(listing_names("\"ping.exe\"", "ping.exe"));
    assert!(!listing_names("\"PING.EXE\"", "ping.exe"));
    assert_eq!(tasklist_filter("ping.exe"), "IMAGENAME eq ping.exe");
}

#[test]
fn create_no_window_is_the_win32_flag() {
    assert_eq!(CREATE_NO_WINDOW, 0x0800_0000);
}

// ------------------------------------------------------------------ the lock

/// A lock in memory, by name and directory.
struct Locks {
    held: RefCell<Vec<String>>,
}

impl Locks {
    fn attempt(&self, name: &str, state_dir: &str) -> LockAttempt<Held<'_>> {
        let key = format!("{name} {state_dir}");
        if self.held.borrow().contains(&key) {
            return LockAttempt::WouldBlock;
        }
        self.held.borrow_mut().push(key.clone());
        LockAttempt::Acquired(Held { locks: self, key })
    }

    fn acquire(&self, name: &str) -> Option<SingleInstanceLock<Held<'_>>> {
        SingleInstanceLock::try_acquire_named(
            name,
            "/s",
            |name: &str, state_dir: &str, guarded: bool| {
                assert!(!guarded);
                self.attempt(name, state_dir)
            },
        )
        .expect("acquire must not error")
    }
}

/// Releases its lock when it goes.
#[derive(Debug)]
struct Held<'a> {
    locks: &'a Locks,
    key: String,
}

impl std::fmt::Debug for Locks {
    fn fmt(&self, f: &mut std::fmt::Formatter<'_>) -> std::fmt::Result {
        f.debug_struct("Locks").finish()
    }
}

impl Drop for Held<'_> {
    fn drop(&mut self) {
        self.locks.held.borrow_mut().retain(|k| *k != self.key);
    }
}

fn locks() -> Locks {
    Locks {
        held: RefCell::new(Vec::new()),
    }
}

#[test]
fn a_fresh_lock_is_acquired() {
    let locks = locks();
    let lock = locks.acquire("dig-updater-test-fresh");
    assert!(lock.is_some(), "an unheld lock must be acquirable");
}

#[test]
fn a_second_acquire_while_the_first_is_held_is_refused() {
    let locks = locks();
    let name = "dig-updater-test-contended";
    let first = locks.acquire(name).expect("the lock starts unheld");
    assert!(
        locks.acquire(name).is_none(),
        "a lock already held by `first` must not be acquired again"
    );
    drop(first);
}

#[test]
fn releasing_the_first_lets_a_later_acquire_succeed() {
    let locks = locks();
    let name = "dig-updater-test-release-then-reacquire";
    let first = locks.acquire(name).expect("unheld");
    drop(first);
    let second = locks
        .acquire(name)
        .expect("must be acquirable again once released");
    drop(second);
}

#[test]
fn the_production_lock_is_guarded_and_its_failure_is_an_error() {
    let err = SingleInstanceLock::<()>::try_acquire(
        "/s",
        |name: &str, state_dir: &str, guarded: bool| {
            assert_eq!((name, state_dir, guarded), ("Global\\DigUpdater", "/s", true));
            LockAttempt::Failed("denied".to_string())
        },
    )
    .expect_err("a lock that cannot be opened is an error");
    assert_eq!(err.message(), "i/o error: denied");
}

#[test]
fn the_lock_file_lives_inside_the_state_dir_not_beside_it() {
    assert_eq!(
        lock_path("/var/lib/dig-updater"),
        "/var/lib/dig-updater/lock",
        "the lock file must live at <state_dir>/lock"
    );
}

#[test]
fn the_windows_lock_is_the_same_in_every_session() {
    assert_eq!(mutex_name(PRODUCTION_NAME), "Global\\DigUpdater");
    assert_eq!(ADMIN_SYSTEM_ONLY_SDDL, "D:(A;;GA;;;SY)(A;;GA;;;BA)");
}

// ------------------------------------------------------------------ persistence

/// Files in memory, and the directories that were created for them.
struct Disk {
    files: RefCell<Vec<(String, Vec<u8>)>>,
    dirs: RefCell<Vec<String>>,
}

impl Disk {
    fn new() -> Disk {
        Disk {
            files: RefCell::new(Vec::new()),
            dirs: RefCell::new(Vec::new()),
        }
    }

    fn put(&self, path: &str, bytes: &[u8]) {
        self.files.borrow_mut().retain(|(p, _)| p != path);
        self.files
            .borrow_mut()
            .push((path.to_string(), bytes.to_vec()));
    }

    fn get(&self, path: &str) -> Option<Vec<u8>> {
        self.files
            .borrow()
            .iter()
            .find(|(p, _)| p == path)
            .map(|(_, b)| b.clone())
    }

    fn write(&self, path: &str, bytes: &[u8]) -> Result<(), BrokerError> {
        write_json_atomic(
            path,
            bytes,
            |dir: &str| {
                self.dirs.borrow_mut().push(dir.to_string());
                Ok(())
            },
            |temp: &str, bytes: &[u8]| {
                assert_eq!(
                    self.dirs.borrow().last().cloned(),
                    parent(temp),
                    "the new contents are written beside the target"
                );
                self.put(temp, bytes);
                Ok(())
            },
            |from: &str, to: &str| {
                let moved = self.get(from).expect("the new contents are complete");
                self.files.borrow_mut().retain(|(p, _)| p != from);
                self.put(to, &moved);
                Ok(())
            },
        )
    }
}

#[test]
fn write_json_atomic_creates_missing_parent_dirs() {
    let disk = Disk::new();
    disk.write("/r/nested/deep/file.json", b"{}").expect("write");
    assert_eq!(*disk.dirs.borrow(), vec!["/r/nested/deep".to_string()]);
    assert_eq!(disk.get("/r/nested/deep/file.json"), Some(b"{}".to_vec()));
}

#[test]
fn write_json_atomic_leaves_no_temp_file_behind() {
    let disk = Disk::new();
    disk.write("/r/file.json", b"{}").expect("write");
    assert!(
        disk.files.borrow().iter().all(|(p, _)| !p.ends_with(".tmp")),
        "no temp file should remain"
    );
}

#[test]
fn write_json_atomic_overwrites_an_existing_file() {
    let disk = Disk::new();
    disk.write("/r/file.json", b"{\"a\":1}").expect("first write");
    disk.write("/r/file.json", b"{\"a\":2}").expect("second write");
    assert_eq!(disk.get("/r/file.json"), Some(b"{\"a\":2}".to_vec()));
}

#[test]
fn a_failed_write_never_reaches_the_target() {
    let err = write_json_atomic(
        "/r/file.json",
        b"{}",
        |_: &str| Ok(()),
        |temp: &str, bytes: &[u8]| {
            assert_eq!((temp, bytes), ("/r/file.json.tmp", b"{}".as_slice()));
            Err("disk full".to_string())
        },
        |_: &str, _: &str| panic!("an incomplete file must not be renamed"),
    )
    .expect_err("the failure is reported");
    assert_eq!(err.message(), "i/o error: disk full");
    let err = write_json_atomic(
        "/",
        b"{}",
        |_: &str| panic!("there is no directory"),
        |_: &str, _: &[u8]| panic!("there is no directory"),
        |_: &str, _: &str| panic!("there is no directory"),
    )
    .expect_err("the root is no file");
    assert_eq!(err.message(), "i/o error: path has no parent directory");
}

// ------------------------------------------------------------------ the opt-out marker

#[test]
fn a_fresh_state_dir_is_not_opted_out() {
    assert!(
        !is_opted_out("/var/lib/dig-updater", &|_: &str| false),
        "no marker present => not opted out => re-arm"
    );
}

#[test]
fn a_privileged_owned_marker_is_honored() {
    let owned = |path: &str| path == "/var/lib/dig-updater/schedule-optout";
    assert!(is_opted_out("/var/lib/dig-updater", &owned));
    assert!(!is_opted_out("/home/sam/dig-updater", &owned));
}

/// The files of a state directory in memory, and who owns them.
#[derive(Default)]
struct Markers {
    files: RefCell<BTreeMap<String, bool>>,
}

impl Markers {
    fn set(&self, state_dir: &str) -> Result<(), BrokerError> {
        set_opted_out(
            state_dir,
            |_: &str| Ok(()),
            |p: &str, note: &str| {
                assert_eq!(note, OPTOUT_MARKER_NOTE);
                self.files.borrow_mut().insert(p.to_string(), false);
                Ok(())
            },
            |_: &str| Ok(()),
            |p: &str| {
                self.files.borrow_mut().insert(p.to_string(), true);
                Ok(())
            },
        )
    }

    fn clear(&self, state_dir: &str) -> Result<(), BrokerError> {
        clear_opted_out(state_dir, |p: &str| {
            match self.files.borrow_mut().remove(p) {
                Some(_) => Removal::Removed,
                None => Removal::NotFound,
            }
        })
    }

    fn has(&self, path: &str) -> bool {
        self.files.borrow().contains_key(path)
    }

    fn is_opted_out(&self, state_dir: &str) -> bool {
        is_opted_out(state_dir, &|p: &str| {
            self.files.borrow().get(p).copied().unwrap_or(false)
        })
    }
}

#[test]
fn clear_opted_out_on_an_absent_marker_is_a_no_op_success() {
    let markers = Markers::default();
    markers
        .clear("/var/lib/dig-updater")
        .expect("clearing an absent marker is success, not an error");
    assert!(!markers.has(&marker_path("/var/lib/dig-updater")));
}

#[test]
fn clear_opted_out_removes_the_marker_file() {
    let dir = "/var/lib/dig-updater";
    let markers = Markers::default();
    markers.set(dir).expect("write the opt-out marker");
    assert!(
        markers.has(&marker_path(dir)),
        "the marker file is written"
    );
    assert!(markers.is_opted_out(dir));
    markers.clear(dir).expect("clear the opt-out marker");
    assert!(
        !markers.has(&marker_path(dir)),
        "the marker file is gone after clear"
    );
    assert!(
        !markers.is_opted_out(dir),
        "a cleared marker reads as not opted out"
    );
}

#[test]
fn a_marker_that_cannot_be_removed_is_an_error() {
    let err = clear_opted_out("/var/lib/dig-updater", |path: &str| {
        assert_eq!(path, "/var/lib/dig-updater/schedule-optout");
        Removal::Failed("busy".to_string())
    })
    .expect_err("a marker that stays is an error");
    assert_eq!(err.message(), "i/o error: busy");
}

/// The steps that recording an opt-out takes, in order, with the first failing one named.
fn record_opt_out(fails: &str) -> (Result<(), BrokerError>, Vec<String>) {
    let steps = RefCell::new(Vec::new());
    let step = |name: &str, path: &str| {
        steps.borrow_mut().push(format!("{name} {path}"));
        if name == fails {
            Err(BrokerError::Io(name.to_string()))
        } else {
            Ok(())
        }
    };
    let r = set_opted_out(
        "/never/created",
        |p: &str| step("create", p),
        |p: &str, _: &str| step("write", p),
        |p: &str| step("harden", p),
        |p: &str| step("claim", p),
    );
    (r, steps.into_inner())
}

#[test]
fn set_opted_out_creates_a_missing_state_dir() {
    let (r, steps) = record_opt_out("");
    r.expect("creates the state dir on the way to writing the marker");
    assert_eq!(
        steps,
        vec![
            "create /never/created".to_string(),
            "write /never/created/schedule-optout".to_string(),
            "harden /never/created/schedule-optout".to_string(),
            "claim /never/created/schedule-optout".to_string(),
        ]
    );
}

#[test]
fn set_opted_out_is_idempotent() {
    let dir = "/var/lib/dig-updater";
    let markers = Markers::default();
    markers.set(dir).expect("first write");
    let once = markers.files.borrow().clone();
    markers
        .set(dir)
        .expect("re-writing an existing marker succeeds");
    assert!(markers.has(&marker_path(dir)));
    assert_eq!(*markers.files.borrow(), once);
    assert_eq!(
        record_opt_out("").1,
        record_opt_out("").1,
        "the same steps are made each time"
    );
}

#[test]
fn an_opt_out_that_cannot_be_claimed_is_not_a_success() {
    for (at, fails) in ["create", "write", "harden", "claim"].iter().enumerate() {
        let (r, steps) = record_opt_out(fails);
        assert_eq!(r.expect_err("reported").message(), format!("i/o error: {fails}"));
        assert_eq!(steps.len(), at + 1, "nothing follows the failed step");
    }
}

#[test]
fn marker_path_is_inside_the_state_dir() {
    assert_eq!(
        marker_path("/var/lib/dig-updater"),
        "/var/lib/dig-updater/schedule-optout"
    );
    assert_eq!(OPTOUT_MARKER_NAME, "schedule-optout");
    assert!(OPTOUT_MARKER_NOTE.starts_with("This file records"));
}
