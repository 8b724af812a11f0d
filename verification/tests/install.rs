//! Applying artifacts, and rolling them back.

use std::cell::{Cell, RefCell};
use std::collections::BTreeMap;

use dig_updater_broker::error::BrokerError;
use dig_updater_broker::hashing::digest_hex;
use dig_updater_broker::install::{
    contained_staged_path, dpkg_argv, first_trusted, install_from_private, installer_argv,
    is_file_in_use, msiexec_argv, private_target, retry_rename, run_installer,
    run_native_installer, stage_and_verify_private, system32_tool, trusted_absolute, FileLook,
    Host, HostOs, InstallOutcome, ProgramRun, RenameError, RetryPolicy, VERIFIED_RAW_EXT,
};
use dig_updater_broker::path::{is_absolute_on, with_extension};
use dig_updater_broker::plan::{InstallMethod, PlannedComponent, PlannedVariant, VersionEvidence};
use dig_updater_broker::resolver::UpdateAction;
use dig_updater_broker::rollback::{
    cached_components, write_binary, LkgCache, LkgEntry, LkgRecord, RecordRead, RestoreKind,
};
use dig_updater_broker::swap::{rename_into_place_with, Swap, SwapAction, SUPERSEDED_EXT};

/// Run a swap whose actions are carried out by `perform`, and hold what was done against what the
/// swap asks for.
fn swap_with(
    private: &str,
    dest: &str,
    perform: &dyn Fn(&SwapAction) -> Result<(), String>,
) -> InstallOutcome {
    let (journal, outcome) = rename_into_place_with(
        private,
        dest,
        Vec::new(),
        &|mut journal: Vec<(SwapAction, Result<(), String>)>, action: &SwapAction| {
            let event = perform(action);
            journal.push((action.clone(), event.clone()));
            (journal, event)
        },
    );
    let mut swap = Swap::new(private, dest);
    for (action, event) in journal {
        assert_eq!(swap.outcome(), None, "nothing is done once the swap is over");
        assert_eq!(swap.action(), action);
        swap = swap.step(event);
    }
    assert_eq!(swap.outcome(), Some(outcome.clone()));
    outcome
}

/// Files in memory.
#[derive(Default)]
struct Disk {
    files: RefCell<BTreeMap<String, Vec<u8>>>,
    records: RefCell<BTreeMap<String, LkgRecord>>,
}

impl Disk {
    fn put(&self, path: &str, bytes: &[u8]) {
        self.files
            .borrow_mut()
            .insert(path.to_string(), bytes.to_vec());
    }

    fn get(&self, path: &str) -> Option<Vec<u8>> {
        self.files.borrow().get(path).cloned()
    }

    fn has(&self, path: &str) -> bool {
        self.files.borrow().contains_key(path)
    }

    fn remove(&self, path: &str) {
        self.files.borrow_mut().remove(path);
    }

    fn rename(&self, from: &str, to: &str) -> Result<(), String> {
        match self.get(from) {
            Some(bytes) => {
                self.remove(from);
                self.put(to, &bytes);
                Ok(())
            }
            None => Err(format!("{from}: no such file")),
        }
    }

    /// Carry out one step of a swap, renaming by `rename`.
    fn perform(
        &self,
        action: &SwapAction,
        rename: &dyn Fn(&str, &str) -> Result<(), String>,
    ) -> Result<(), String> {
        match action {
            SwapAction::CreateDir(_) => Ok(()),
            SwapAction::Remove(path) => {
                self.remove(path);
                Ok(())
            }
            SwapAction::Exists(path) => {
                if self.has(path) {
                    Ok(())
                } else {
                    Err("absent".to_string())
                }
            }
            SwapAction::Rename(from, to) => rename(from, to),
            SwapAction::Finish(_) => panic!("a finished swap asks for nothing"),
        }
    }

    fn swap(&self, private: &str, dest: &str) -> InstallOutcome {
        swap_with(private, dest, &|action: &SwapAction| {
            self.perform(action, &|from, to| self.rename(from, to))
        })
    }

    fn copy(&self, from: &str, to: &str) -> Result<(), BrokerError> {
        match self.get(from) {
            Some(bytes) => {
                self.put(to, &bytes);
                Ok(())
            }
            None => Err(BrokerError::Io(format!("{from}: no such file"))),
        }
    }

    fn read(&self, path: &str) -> Result<Vec<u8>, BrokerError> {
        self.get(path)
            .ok_or_else(|| BrokerError::Io(format!("{path}: no such file")))
    }

    fn stage(
        &self,
        staged: &str,
        private: &str,
        digest: &str,
        component: &str,
    ) -> Result<(), BrokerError> {
        stage_and_verify_private(
            staged,
            private,
            digest,
            component,
            true,
            |staged: &str| self.read(staged),
            |private: &str, bytes: &Vec<u8>, executable: bool| {
                assert!(executable);
                self.put(private, bytes);
                Ok(())
            },
            |(), private: &str| self.remove(private),
        )
    }

    /// Install a component, with no native installer on the host.
    fn install(&self, pc: &PlannedComponent, private: &str) -> InstallOutcome {
        install_from_private(
            pc,
            private,
            &host(HostOs::Linux),
            (),
            &|(), from: &str, to: &str| ((), self.swap(from, to)),
            &|(), from: &str, to: &str| ((), self.copy(from, to)),
            &|_: &str| FileLook::Missing("no such file".to_string()),
            |_: &Vec<String>| panic!("no trusted installer is there"),
            |private: &str| self.remove(private),
        )
    }

    fn snapshot(
        &self,
        cache: &LkgCache,
        component: &str,
        dest: &str,
        build: Option<u64>,
    ) -> Result<Option<LkgEntry>, BrokerError> {
        cache.snapshot(
            component,
            dest,
            build,
            |path: &str| Ok(self.get(path)),
            |path: &str, bytes: &Vec<u8>| {
                self.put(path, bytes);
                Ok(())
            },
            |path: &str, record: &LkgRecord| {
                self.records
                    .borrow_mut()
                    .insert(path.to_string(), record.clone());
                Ok(())
            },
        )
    }

    fn restore(
        &self,
        cache: &LkgCache,
        entry: &LkgEntry,
        floor: u64,
        kind: RestoreKind,
    ) -> Result<(), BrokerError> {
        cache.restore(
            entry,
            floor,
            kind,
            |path: &str| self.read(path),
            |path: &str, bytes: &Vec<u8>| {
                self.put(path, bytes);
                Ok(())
            },
        )
    }
}

fn host(os: HostOs) -> Host {
    Host {
        os,
        system_root: None,
        windir: None,
    }
}

fn planned(dest: &str, method: InstallMethod, digest: &str) -> PlannedComponent {
    PlannedComponent {
        name: "digstore".into(),
        method,
        dest: dest.into(),
        aliases: vec![],
        version: "0.15.0".into(),
        build: 15_000,
        variants: vec![PlannedVariant {
            variant: None,
            expected_digest: digest.into(),
            staged_path: String::new(),
        }],
        action: UpdateAction::Install,
        summary: String::new(),
        installed_build: None,
        evidence: VersionEvidence::SafeToProbe,
    }
}

// ------------------------------------------------------------------ containment

fn resolves_to(path: &str) -> Result<String, String> {
    Ok(path.to_string())
}

#[test]
fn a_staged_path_inside_staging_is_accepted() {
    let resolved = contained_staged_path(
        "/s/staging/artifact",
        "/s/staging",
        "digstore",
        resolves_to("/private/s/staging"),
        resolves_to("/private/s/staging/artifact"),
    )
    .unwrap();
    assert_eq!(resolved, "/private/s/staging/artifact");
}

#[test]
fn a_staged_path_outside_staging_is_rejected() {
    let err = contained_staged_path(
        "/elsewhere/evil",
        "/s/staging",
        "digstore",
        resolves_to("/s/staging"),
        resolves_to("/elsewhere/evil"),
    )
    .expect_err("a path outside staging must be refused");
    assert!(matches!(err, BrokerError::StagedPathEscapesStaging { .. }));
    assert_eq!(
        err.message(),
        "staged path of digstore escapes the staging directory: /elsewhere/evil resolves to /elsewhere/evil, outside the staging dir /s/staging"
    );
}

#[test]
fn a_dotdot_escape_from_staging_is_rejected() {
    let err = contained_staged_path(
        "/r/staging/../outside",
        "/r/staging",
        "digstore",
        resolves_to("/r/staging"),
        resolves_to("/r/outside"),
    )
    .expect_err("a `..` escape must be refused");
    assert!(matches!(err, BrokerError::StagedPathEscapesStaging { .. }));
}

#[test]
fn the_staging_directory_itself_is_no_staged_path() {
    for path in ["/s/staging", "/s/staging/", "/s/./staging"] {
        let err = contained_staged_path(
            "/s/staging/.",
            "/s/staging",
            "digstore",
            resolves_to("/s/staging"),
            resolves_to(path),
        )
        .expect_err("the path must lie strictly inside");
        assert!(matches!(err, BrokerError::StagedPathEscapesStaging { .. }));
    }
}

#[test]
fn a_path_that_does_not_resolve_is_refused() {
    let err = contained_staged_path(
        "/s/gone",
        "/s",
        "digstore",
        resolves_to("/s"),
        Err("no such file".to_string()),
    )
    .expect_err("nothing is there");
    assert!(matches!(err, BrokerError::StagedPathEscapesStaging { .. }));
    let err = contained_staged_path(
        "/s/a",
        "/s",
        "digstore",
        Err("denied".to_string()),
        resolves_to("/s/a"),
    )
    .expect_err("the staging directory does not resolve");
    assert_eq!(
        err.message(),
        "i/o error: staging dir /s cannot be canonicalized: denied"
    );
}

// ------------------------------------------------------------------ the private copy

#[test]
fn verify_accepts_matching_bytes_and_leaves_the_private_copy() {
    let disk = Disk::default();
    disk.put("/d/staged", b"artifact");
    let private = "/d/dest.dig-updater-verified";
    disk.stage("/d/staged", private, &digest_hex(b"artifact"), "digstore")
        .unwrap();
    assert_eq!(disk.get(private).unwrap(), b"artifact");
}

#[test]
fn verify_rejects_swapped_bytes_and_removes_the_private_copy() {
    let disk = Disk::default();
    disk.put("/d/staged", b"evil");
    let private = "/d/dest.dig-updater-verified";
    let err = disk
        .stage("/d/staged", private, &digest_hex(b"honest"), "digstore")
        .expect_err("swapped bytes must be rejected");
    assert!(matches!(err, BrokerError::StagingReverifyFailed { .. }));
    assert!(
        !disk.has(private),
        "a failed verify leaves nothing installable"
    );
    let err = disk
        .stage("/d/gone", private, &digest_hex(b"honest"), "digstore")
        .expect_err("there is nothing to read");
    assert!(matches!(err, BrokerError::Io(_)));
}

#[test]
fn a_swap_of_staging_after_verify_does_not_change_the_installed_bytes() {
    let disk = Disk::default();
    let honest = b"the-honest-verified-bytes";
    disk.put("/d/staged", honest);

    let dest = "/d/bin/digstore";
    let digest = digest_hex(honest);
    let pc = planned(dest, InstallMethod::RawBinary, &digest);
    let private = private_target(&pc, "/d");

    disk.stage("/d/staged", &private, &digest, "digstore")
        .unwrap();
    disk.put("/d/staged", b"malicious-substituted-bytes");

    assert_eq!(disk.install(&pc, &private), InstallOutcome::Installed);
    assert_eq!(
        disk.get(dest).unwrap(),
        honest,
        "installed bytes are the hashed bytes, not the post-hash swap"
    );
}

#[test]
fn install_from_private_renames_the_verified_copy_into_place() {
    let disk = Disk::default();
    let dest = "/d/bin/digstore";
    let pc = planned(dest, InstallMethod::RawBinary, "unused-here");
    let private = private_target(&pc, "/d");
    disk.put(&private, b"new-binary-bytes");

    assert_eq!(disk.install(&pc, &private), InstallOutcome::Installed);
    assert_eq!(disk.get(dest).unwrap(), b"new-binary-bytes");
    assert!(
        !disk.has(&private),
        "the private copy is renamed away, not left behind"
    );
}

#[test]
fn install_refreshes_every_alias_from_the_verified_primary_bytes() {
    let disk = Disk::default();
    let primary = "/d/bin/dig-dns";
    let alias_a = "/d/bin/digd";
    let alias_b = "/d/bin/digd2";
    for path in [primary, alias_a, alias_b] {
        disk.put(path, b"old");
    }
    let new_bytes = b"new-verified-0.14.0";
    let mut pc = planned(primary, InstallMethod::RawBinary, "unused");
    pc.aliases = vec![alias_a.to_string(), alias_b.to_string()];
    let private = private_target(&pc, "/d");
    disk.put(&private, new_bytes);

    assert_eq!(disk.install(&pc, &private), InstallOutcome::Installed);
    for p in [primary, alias_a, alias_b] {
        assert_eq!(disk.get(p).unwrap(), new_bytes, "{p:?} refreshed");
    }
}

#[test]
fn an_alias_that_cannot_be_derived_fails_the_component() {
    let disk = Disk::default();
    let mut pc = planned("/d/bin/dig-dns", InstallMethod::RawBinary, "unused");
    pc.aliases = vec!["/d/bin/digd".to_string()];
    let outcome = install_from_private(
        &pc,
        "/d/private",
        &host(HostOs::Linux),
        0,
        &|step: u32, from: &str, to: &str| {
            assert_eq!((step, from, to), (0, "/d/private", "/d/bin/dig-dns"));
            (step + 1, InstallOutcome::Installed)
        },
        &|step: u32, from: &str, to: &str| {
            assert_eq!(
                (step, from, to),
                (1, "/d/bin/dig-dns", "/d/bin/digd.dig-updater-verified")
            );
            (step + 1, Err(BrokerError::Io("disk full".to_string())))
        },
        &|_: &str| panic!("no installer is needed"),
        |_: &Vec<String>| panic!("no installer is needed"),
        |_: &str| panic!("the private copy is renamed away"),
    );
    assert_eq!(
        outcome,
        InstallOutcome::Failed {
            detail: "could not derive alias /d/bin/digd from the verified primary /d/bin/dig-dns: i/o error: disk full".to_string()
        }
    );
    let deferred = InstallOutcome::Deferred {
        reason: "locked".to_string(),
    };
    let outcome = install_from_private(
        &pc,
        "/d/private",
        &host(HostOs::Linux),
        (),
        &|(), _: &str, _: &str| ((), deferred.clone()),
        &|(), _: &str, _: &str| panic!("the aliases wait for the primary"),
        &|_: &str| panic!("no installer is needed"),
        |_: &Vec<String>| panic!("no installer is needed"),
        |_: &str| panic!("the swap cleans up"),
    );
    assert_eq!(outcome, deferred);
    assert!(disk.files.borrow().is_empty());
}

#[test]
fn private_target_is_a_dest_sibling_for_raw_binaries() {
    let pc = planned("/opt/dig/digstore", InstallMethod::RawBinary, "d");
    assert_eq!(
        private_target(&pc, "/var/lib/dig-updater/apply"),
        "/opt/dig/digstore.dig-updater-verified",
        "a raw binary stages beside its dest for an atomic rename"
    );
}

#[test]
fn private_target_is_in_the_apply_dir_for_packages() {
    for (method, name) in [
        (InstallMethod::LinuxDeb, "digstore.deb"),
        (InstallMethod::MacosPkg, "digstore.pkg"),
        (InstallMethod::WindowsMsi, "digstore.msi"),
    ] {
        let pc = planned("/usr/local/bin/dig-node", method, "d");
        assert_eq!(
            private_target(&pc, "/var/lib/dig-updater/apply"),
            format!("/var/lib/dig-updater/apply/{name}")
        );
    }
}

// ------------------------------------------------------------------ native installers

#[test]
fn run_native_installer_maps_an_unresolvable_installer_to_failed_and_cleans_up() {
    let dropped = Cell::new(false);
    let outcome = run_native_installer(
        Err("no trusted dpkg".to_string()),
        "/d/dig-node.deb",
        |_: &Vec<String>| panic!("there is nothing to run"),
        |private: &str| dropped.set(private == "/d/dig-node.deb"),
    );
    assert_eq!(
        outcome,
        InstallOutcome::Failed {
            detail: "no trusted installer available: no trusted dpkg".to_string()
        }
    );
    assert!(dropped.get(), "the transient package copy is removed");
}

#[test]
fn run_native_installer_runs_the_resolved_program_and_cleans_up() {
    let dropped = Cell::new(false);
    let argv = Ok(vec![
        "/definitely/not/a/real/installer-xyz".to_string(),
        "-i".to_string(),
        "/d/dig-node.deb".to_string(),
    ]);
    let outcome = run_native_installer(
        argv,
        "/d/dig-node.deb",
        |argv: &Vec<String>| {
            assert_eq!(argv.len(), 3);
            ProgramRun::NotRun("no such file".to_string())
        },
        |private: &str| dropped.set(private == "/d/dig-node.deb"),
    );
    assert!(matches!(outcome, InstallOutcome::Failed { .. }));
    assert!(dropped.get(), "the transient package copy is removed");
}

#[test]
fn install_from_private_dispatches_a_package_method_through_the_native_installer() {
    let disk = Disk::default();
    let dest = "/d/dig-node";
    let pc = planned(dest, InstallMethod::LinuxDeb, "unused");
    let private = "/d/dig-node.deb";
    disk.put(private, b"not-a-real-deb");
    let outcome = disk.install(&pc, private);
    assert!(matches!(outcome, InstallOutcome::Failed { .. }));
    assert!(
        !disk.has(dest),
        "a package install never renames into the raw-binary dest"
    );
    assert!(!disk.has(private));
}

#[test]
fn trusted_absolute_rejects_a_relative_or_missing_program() {
    let missing = |_: &str| FileLook::Missing("no such file".to_string());
    assert_eq!(
        trusted_absolute("msiexec".to_string(), false, &missing),
        Err("msiexec is not an absolute path".to_string()),
        "bare name refused"
    );
    assert_eq!(
        trusted_absolute("/definitely/not/here/installer".to_string(), false, &missing),
        Err(
            "trusted installer not found at /definitely/not/here/installer: no such file"
                .to_string()
        ),
        "a missing absolute path is refused"
    );
    assert_eq!(
        trusted_absolute("/usr/bin".to_string(), false, &|_: &str| FileLook::Other),
        Err("/usr/bin is not a regular file".to_string())
    );
}

#[test]
fn trusted_absolute_accepts_an_existing_absolute_file() {
    assert_eq!(
        trusted_absolute("/d/fake-installer".to_string(), false, &|_: &str| {
            FileLook::File
        }),
        Ok("/d/fake-installer".to_string())
    );
}

#[test]
fn msiexec_resolves_to_an_absolute_system32_path() {
    let windows = Host {
        os: HostOs::Windows,
        system_root: Some("C:/Windows".to_string()),
        windir: None,
    };
    let argv = msiexec_argv("C:/apply/dig-node.msi", &windows, &|_: &str| FileLook::File)
        .expect("msiexec resolves");
    assert!(
        is_absolute_on(&argv[0], true),
        "the installer program is an absolute path"
    );
    assert!(argv[0].to_lowercase().ends_with("system32/msiexec.exe"));
    assert!(argv.contains(&"/qn".to_string()) && argv.contains(&"/norestart".to_string()));
    assert_eq!(argv[2], "C:/apply/dig-node.msi");
    assert_eq!(
        msiexec_argv("x", &host(HostOs::Linux), &|_: &str| FileLook::File),
        Err("msiexec is only available on Windows".to_string())
    );
    assert_eq!(
        msiexec_argv("x", &host(HostOs::Windows), &|_: &str| FileLook::File),
        Err("neither %SystemRoot% nor %windir% is set".to_string())
    );
    let by_windir = Host {
        windir: Some("D:/Win".to_string()),
        ..host(HostOs::Windows)
    };
    assert_eq!(
        system32_tool(&by_windir, "schtasks.exe", &|_: &str| FileLook::File),
        Ok("D:/Win/System32/schtasks.exe".to_string())
    );
}

#[test]
fn dpkg_resolves_to_an_absolute_path_when_present() {
    let pkg = "/var/lib/dig-updater/apply/dig-node.deb";
    for present in [
        vec!["/usr/bin/dpkg", "/bin/dpkg"],
        vec!["/bin/dpkg"],
        vec![],
    ] {
        let look = |path: &str| {
            if present.contains(&path) {
                FileLook::File
            } else {
                FileLook::Missing("no such file".to_string())
            }
        };
        match dpkg_argv(pkg, &host(HostOs::Linux), &look) {
            Ok(argv) => {
                assert!(is_absolute_on(&argv[0], false));
                assert!(argv[0].ends_with("dpkg"));
                assert_eq!(argv[0], present[0]);
                assert_eq!(argv[1], "-i");
                assert_eq!(argv[2], pkg);
            }
            Err(detail) => {
                assert!(detail.contains("dpkg"));
                assert!(present.is_empty());
                assert_eq!(
                    detail,
                    "no trusted installer found at any of: /usr/bin/dpkg, /bin/dpkg"
                );
            }
        }
    }
    assert!(dpkg_argv(pkg, &host(HostOs::Macos), &|_: &str| FileLook::File).is_err());
}

#[test]
fn installer_resolves_to_the_absolute_usr_sbin_path() {
    let argv = installer_argv(
        "/var/lib/dig-updater/apply/dig-node.pkg",
        &host(HostOs::Macos),
        &|_: &str| FileLook::File,
    )
    .expect("installer");
    assert_eq!(argv[0], "/usr/sbin/installer");
    assert!(argv.contains(&"-pkg".to_string()));
    assert_eq!(argv[3..], ["-target".to_string(), "/".to_string()]);
    assert!(installer_argv("x", &host(HostOs::Windows), &|_: &str| FileLook::File).is_err());
}

#[test]
fn the_first_trusted_candidate_is_taken() {
    let candidates = vec!["systemctl".to_string(), "/bin/systemctl".to_string()];
    assert_eq!(
        first_trusted(&candidates, false, &|_: &str| FileLook::File),
        Ok("/bin/systemctl".to_string())
    );
    assert!(first_trusted(&Vec::new(), false, &|_: &str| FileLook::File).is_err());
}

#[test]
fn run_installer_reports_a_missing_program_as_failed() {
    let argv = vec![
        "/definitely-not-a-real-installer-binary-xyz".to_string(),
        "-x".to_string(),
    ];
    assert_eq!(
        run_installer(&argv, |_: &Vec<String>| ProgramRun::NotRun(
            "no such file".to_string()
        )),
        InstallOutcome::Failed {
            detail: "could not run /definitely-not-a-real-installer-binary-xyz: no such file"
                .to_string()
        }
    );
    assert_eq!(
        run_installer(&argv, |_: &Vec<String>| ProgramRun::Exited(
            "exit status: 1".to_string()
        )),
        InstallOutcome::Failed {
            detail: "/definitely-not-a-real-installer-binary-xyz exited with exit status: 1"
                .to_string()
        }
    );
    assert_eq!(
        run_installer(&argv, |_: &Vec<String>| ProgramRun::Succeeded),
        InstallOutcome::Installed
    );
    assert_eq!(
        run_installer(&Vec::new(), |_: &Vec<String>| panic!("nothing to run")),
        InstallOutcome::Failed {
            detail: "empty install command".to_string()
        }
    );
}

// ------------------------------------------------------------------ retries

fn busy() -> RenameError {
    RenameError {
        code: Some(26),
        text: "text file busy".to_string(),
    }
}

#[test]
fn retry_rename_places_a_file_when_the_target_is_free() {
    let disk = Disk::default();
    disk.put("/d/from", b"bytes");
    let (tries, renamed) = retry_rename(
        &RetryPolicy {
            attempts: 3,
            backoff: 0,
        },
        false,
        "/d/from",
        "/d/to",
        0,
        &|tries: u32, from: &str, to: &str, _: u32| {
            let renamed = disk.rename(from, to).map_err(|text| RenameError {
                code: Some(2),
                text,
            });
            (tries + 1, renamed)
        },
        &|_: u64| panic!("a zero backoff never sleeps"),
    );
    renamed.expect("a free target renames on the first try");
    assert_eq!(tries, 1, "and is not renamed again");
    assert_eq!(disk.get("/d/to").unwrap(), b"bytes");
    assert!(!disk.has("/d/from"));
}

#[test]
fn retry_rename_fails_fast_on_a_terminal_non_lock_error() {
    let ((), renamed) = retry_rename(
        &RetryPolicy {
            attempts: 5,
            backoff: 30_000,
        },
        false,
        "/d/from",
        "/d/to",
        (),
        &|(), _: &str, _: &str, _: u32| {
            let missing = RenameError {
                code: Some(2),
                text: "no such file".to_string(),
            };
            ((), Err(missing))
        },
        &|_: u64| panic!("a terminal error is not waited for"),
    );
    let err = renamed.expect_err("a missing source is terminal");
    assert!(
        !is_file_in_use(err.code, false),
        "a NotFound is not the file-in-use class"
    );
}

#[test]
fn a_target_in_use_is_tried_again_with_a_growing_wait() {
    let waits = RefCell::new(Vec::new());
    let (tries, renamed) = retry_rename(
        &RetryPolicy::default(),
        false,
        "/d/from",
        "/d/to",
        0,
        &|tries: u32, from: &str, to: &str, n: u32| {
            assert_eq!((from, to), ("/d/from", "/d/to"));
            assert_eq!(n, tries);
            assert_eq!(waits.borrow().len() as u32, n, "the wait comes first");
            (tries + 1, Err(busy()))
        },
        &|millis: u64| waits.borrow_mut().push(millis),
    );
    assert_eq!(renamed.expect_err("it stays in use"), busy());
    assert_eq!(tries, 5);
    assert_eq!(*waits.borrow(), vec![250, 500, 750, 1000]);
    let (tries, renamed) = retry_rename(
        &RetryPolicy {
            attempts: 0,
            backoff: 1,
        },
        false,
        "/d/from",
        "/d/to",
        0,
        &|tries: u32, _: &str, _: &str, _: u32| (tries + 1, Err(busy())),
        &|_: u64| panic!("there is one try"),
    );
    renamed.expect_err("it stays in use");
    assert_eq!(tries, 1);
}

#[test]
fn file_in_use_covers_both_windows_arms_and_unix_etxtbsy_558() {
    assert!(is_file_in_use(Some(32), true));
    assert!(is_file_in_use(Some(33), true));
    assert!(is_file_in_use(Some(1224), true));
    assert!(!is_file_in_use(Some(5), true));
    assert!(is_file_in_use(Some(26), false));
    assert!(!is_file_in_use(Some(13), false));
    assert!(!is_file_in_use(None, false));
}

// ------------------------------------------------------------------ the swap

#[test]
fn a_locked_target_defers_cleanly_with_no_half_write_558() {
    let disk = Disk::default();
    let dest = "/d/dig-dns.exe";
    disk.put(dest, b"original-running-bytes");
    let private = with_extension(dest, VERIFIED_RAW_EXT);
    disk.put(&private, b"new-verified-bytes");

    let outcome = swap_with(&private, dest, &|action: &SwapAction| {
        disk.perform(action, &|from, to| {
            if from == dest {
                Err("os error 32".to_string())
            } else {
                disk.rename(from, to)
            }
        })
    });
    assert_eq!(
        outcome,
        InstallOutcome::Deferred {
            reason: "target /d/dig-dns.exe locked after retries: os error 32".to_string()
        },
        "a locked target defers to the next pass"
    );
    assert_eq!(
        disk.get(dest).unwrap(),
        b"original-running-bytes",
        "a deferred replace leaves the original target byte-intact"
    );
    assert!(
        !disk.has(&with_extension(dest, SUPERSEDED_EXT)),
        "no orphan .old sibling is left after a deferred swap"
    );
    assert!(
        !disk.has(&private),
        "the private copy is cleaned up on defer"
    );
}

#[test]
fn a_failed_second_rename_restores_the_original_target_no_half_write_558() {
    let disk = Disk::default();
    let dest = "/d/dig-dns";
    disk.put(dest, b"original-bytes");
    let outcome = disk.swap("/d/no-such-dir/dig-dns.dig-updater-verified", dest);
    assert!(matches!(outcome, InstallOutcome::Deferred { .. }));
    assert_eq!(
        disk.get(dest).unwrap(),
        b"original-bytes",
        "a failed second rename must restore the original target, never leave it missing"
    );
    assert!(
        !disk.has(&with_extension(dest, SUPERSEDED_EXT)),
        "no orphan .old sibling is left after the swap is undone"
    );
}

#[test]
fn a_fresh_install_that_cannot_be_placed_is_put_off() {
    let disk = Disk::default();
    assert_eq!(
        disk.swap("/d/gone", "/d/dig-dns"),
        InstallOutcome::Deferred {
            reason: "could not place the new binary at /d/dig-dns: /d/gone: no such file"
                .to_string()
        }
    );
    assert!(!disk.has("/d/dig-dns"));
}

#[test]
fn a_directory_that_cannot_be_created_fails_the_swap() {
    let disk = Disk::default();
    disk.put("/d/private", b"new");
    let outcome = swap_with("/d/private", "/d/bin/x", &|action: &SwapAction| {
        match action {
            SwapAction::CreateDir(dir) => {
                assert_eq!(dir, "/d/bin");
                Err("read-only".to_string())
            }
            other => disk.perform(other, &|_, _| panic!("nothing is renamed")),
        }
    });
    assert_eq!(
        outcome,
        InstallOutcome::Failed {
            detail: "could not create /d/bin: read-only".to_string()
        }
    );
    assert!(!disk.has("/d/private"));
}

#[test]
fn a_swap_takes_at_most_eight_steps() {
    let mut swap = Swap::new("/d/private", "/d/x");
    let mut steps = 0;
    while swap.outcome().is_none() {
        let fails = match swap.action() {
            SwapAction::Rename(_, to) => to == "/d/x",
            _ => false,
        };
        swap = swap.step(if fails {
            Err("no".to_string())
        } else {
            Ok(())
        });
        steps += 1;
    }
    assert_eq!(steps, 7);
    assert!(matches!(
        swap.outcome(),
        Some(InstallOutcome::Failed { .. })
    ));
}

/// Place and undo both fail, after the target was really moved aside.
fn double_fault(disk: &Disk, private: &str, dest: &str) -> InstallOutcome {
    swap_with(private, dest, &|action: &SwapAction| {
        disk.perform(action, &|from, to| {
            if to == dest {
                Err("injected: cannot place at dest".to_string())
            } else {
                disk.rename(from, to)
            }
        })
    })
}

#[test]
fn a_double_rename_fault_escalates_to_failed_and_the_lkg_rollback_restores_dest_558() {
    let disk = Disk::default();
    let dest = "/d/bin/dig-dns";
    disk.put(dest, b"original-running-bytes");

    let lkg = LkgCache::at("/d/lkg");
    let snapshot = disk
        .snapshot(&lkg, "dig-dns", dest, Some(15_000))
        .unwrap()
        .expect("the original target is snapshotted");

    let private = with_extension(dest, VERIFIED_RAW_EXT);
    disk.put(&private, b"new-verified-bytes");
    let outcome = double_fault(&disk, &private, dest);

    assert!(
        matches!(outcome, InstallOutcome::Failed { .. }),
        "a double rename fault (place + undo both fail) must escalate to Failed, got {outcome:?}"
    );
    assert!(
        !disk.has(dest),
        "the double fault genuinely leaves dest missing until the rollback runs"
    );
    disk.restore(&lkg, &snapshot, 0, RestoreKind::InPlace)
        .expect("the last-known-good rollback restores dest on Failed");
    assert_eq!(
        disk.get(dest).unwrap(),
        b"original-running-bytes",
        "dest is restored to its original bytes — never left missing on any branch"
    );
}

#[test]
fn a_double_rename_fault_with_an_unageable_build_still_rolls_back_dest_558() {
    let disk = Disk::default();
    let dest = "/d/bin/dig-dns";
    disk.put(dest, b"original-running-bytes");

    let lkg = LkgCache::at("/d/lkg");
    let snapshot = disk
        .snapshot(&lkg, "dig-dns", dest, None)
        .unwrap()
        .expect("the original target is snapshotted");

    let private = with_extension(dest, VERIFIED_RAW_EXT);
    disk.put(&private, b"new-verified-bytes");
    let outcome = double_fault(&disk, &private, dest);

    assert!(
        matches!(outcome, InstallOutcome::Failed { .. }),
        "a double rename fault must escalate to Failed, got {outcome:?}"
    );
    assert!(!disk.has(dest), "the double fault leaves dest missing");
    disk.restore(&lkg, &snapshot, 10_000, RestoreKind::InPlace)
        .expect("an un-ageable in-pass snapshot is still restored (floor-exempt)");
    assert_eq!(
        disk.get(dest).unwrap(),
        b"original-running-bytes",
        "dest is restored even when the prior build was un-ageable — never left missing"
    );
}

// ------------------------------------------------------------------ rollback

#[test]
fn snapshot_of_a_missing_dest_is_none() {
    let disk = Disk::default();
    let cache = LkgCache::at("/d/lkg");
    let entry = disk
        .snapshot(&cache, "digstore", "/d/nope", Some(15_000))
        .unwrap();
    assert!(entry.is_none(), "a fresh install has nothing to snapshot");
    assert!(disk.files.borrow().is_empty() && disk.records.borrow().is_empty());
}

#[test]
fn snapshot_then_restore_round_trips_the_bytes() {
    let disk = Disk::default();
    let cache = LkgCache::at("/d/lkg");
    let dest = "/d/bin/digstore";
    disk.put(dest, b"good-old-binary");
    let entry = disk
        .snapshot(&cache, "digstore", dest, Some(14_000))
        .unwrap()
        .expect("a snapshot exists");
    assert_eq!(entry.digest, digest_hex(b"good-old-binary"));
    disk.put(dest, b"broken-new-binary");
    disk.restore(&cache, &entry, 10_000, RestoreKind::CrossPass)
        .expect("rollback restores");
    assert_eq!(disk.get(dest).unwrap(), b"good-old-binary");
}

#[test]
fn restore_refuses_a_below_floor_cached_build() {
    let disk = Disk::default();
    let cache = LkgCache::at("/d/lkg");
    disk.put("/d/digstore", b"old");
    let entry = disk
        .snapshot(&cache, "digstore", "/d/digstore", Some(9_000))
        .unwrap()
        .unwrap();
    let err = disk
        .restore(&cache, &entry, 10_000, RestoreKind::CrossPass)
        .expect_err("a below-floor rollback target must be refused");
    assert!(matches!(err, BrokerError::RollbackFailed { .. }));
    assert_eq!(
        err.message(),
        "rollback of digstore failed: cached build 9000 is below the current rollback floor 10000"
    );
}

#[test]
fn restore_refuses_an_unknown_age_cached_build() {
    let disk = Disk::default();
    let cache = LkgCache::at("/d/lkg");
    disk.put("/d/digstore", b"old");
    let entry = disk
        .snapshot(&cache, "digstore", "/d/digstore", None)
        .unwrap()
        .unwrap();
    let err = disk
        .restore(&cache, &entry, 0, RestoreKind::CrossPass)
        .expect_err("an un-ageable cached build cannot be proven at/above the floor");
    assert!(matches!(err, BrokerError::RollbackFailed { .. }));
}

#[test]
fn in_pass_restore_reinstates_an_unageable_snapshot_even_when_dest_is_missing() {
    let disk = Disk::default();
    let cache = LkgCache::at("/d/lkg");
    let dest = "/d/bin/dig-dns";
    disk.put(dest, b"original-running-bytes");
    let entry = disk
        .snapshot(&cache, "dig-dns", dest, None)
        .unwrap()
        .expect("the original target is snapshotted");
    disk.remove(dest);
    assert!(!disk.has(dest));
    disk.restore(&cache, &entry, 10_000, RestoreKind::InPlace)
        .expect("an in-pass restore-in-place is floor-exempt");
    assert_eq!(disk.get(dest).unwrap(), b"original-running-bytes");
}

#[test]
fn restore_refuses_corrupted_cached_bytes() {
    let disk = Disk::default();
    let cache = LkgCache::at("/d/lkg");
    disk.put("/d/digstore", b"good");
    let entry = disk
        .snapshot(&cache, "digstore", "/d/digstore", Some(15_000))
        .unwrap()
        .unwrap();
    disk.put(&entry.cached_path, b"tampered-cache");
    let err = disk
        .restore(&cache, &entry, 0, RestoreKind::InPlace)
        .expect_err("corrupted cache must not be reinstated");
    assert!(matches!(err, BrokerError::RollbackFailed { .. }));
    assert_eq!(disk.get("/d/digstore").unwrap(), b"good");
    disk.remove(&entry.cached_path);
    let err = disk
        .restore(&cache, &entry, 0, RestoreKind::InPlace)
        .expect_err("there is nothing to put back");
    assert!(err.message().contains("cached bytes unreadable"));
}

#[test]
fn a_reinstate_that_cannot_be_written_is_reported() {
    let disk = Disk::default();
    let cache = LkgCache::at("/d/lkg");
    disk.put("/d/digstore", b"good");
    let entry = disk
        .snapshot(&cache, "digstore", "/d/digstore", Some(15_000))
        .unwrap()
        .unwrap();
    let err = cache
        .restore(
            &entry,
            0,
            RestoreKind::InPlace,
            |path: &str| disk.read(path),
            |_: &str, _: &Vec<u8>| Err(BrokerError::Io("disk full".to_string())),
        )
        .expect_err("the write failed");
    assert_eq!(
        err.message(),
        "rollback of digstore failed: reinstate write failed: i/o error: disk full"
    );
}

#[test]
fn persisted_entry_reloads_for_a_manual_rollback() {
    let disk = Disk::default();
    let cache = LkgCache::at("/d/lkg");
    let dest = "/d/digstore";
    disk.put(dest, b"good");
    disk.snapshot(&cache, "digstore", dest, Some(15_000))
        .unwrap();

    let kept = disk
        .records
        .borrow()
        .get(&cache.record_path("digstore"))
        .cloned()
        .expect("the record was written");
    let reloaded = cache
        .load_entry("digstore", RecordRead::Record(kept))
        .expect("record reloads");
    assert_eq!(reloaded.build, Some(15_000));
    assert_eq!(reloaded.dest, dest);
    assert_eq!(reloaded.cached_path, cache.cached_path("digstore"));
    let names = vec![
        "digstore".to_string(),
        "digstore.json".to_string(),
        "notes.txt".to_string(),
    ];
    assert_eq!(cached_components(&names), vec!["digstore".to_string()]);
    assert_eq!(cache.dir(), "/d/lkg");
}

#[test]
fn a_binary_is_written_beside_itself_and_then_renamed() {
    let disk = Disk::default();
    disk.put("/d/x.bin", b"old");
    write_binary(
        "/d/x.bin",
        b"new",
        |dir: &str| {
            assert_eq!(dir, "/d");
            Ok(())
        },
        |temp: &str, bytes: &[u8]| {
            assert_eq!(temp, "/d/x.lkg-tmp");
            disk.put(temp, bytes);
            assert_eq!(disk.get("/d/x.bin").unwrap(), b"old");
            Ok(())
        },
        |from: &str, to: &str| disk.rename(from, to).map_err(BrokerError::Io),
    )
    .expect("written");
    assert_eq!(disk.get("/d/x.bin").unwrap(), b"new");
    assert!(!disk.has("/d/x.lkg-tmp"));
    let err = write_binary(
        "/d/x.bin",
        b"newer",
        |_: &str| Ok(()),
        |_: &str, _: &[u8]| Err(BrokerError::Io("disk full".to_string())),
        |_: &str, _: &str| panic!("half a binary is never moved"),
    )
    .expect_err("the failure is reported");
    assert_eq!(err.message(), "i/o error: disk full");
}

#[test]
fn a_record_that_is_missing_or_malformed_is_an_error() {
    let cache = LkgCache::at("/d/lkg");
    assert_eq!(
        cache
            .load_entry("digstore", RecordRead::Missing("no such file".to_string()))
            .expect_err("missing")
            .message(),
        "i/o error: no last-known-good for digstore: no such file"
    );
    assert_eq!(
        cache
            .load_entry("digstore", RecordRead::Malformed("eof".to_string()))
            .expect_err("malformed")
            .message(),
        "i/o error: eof"
    );
}
