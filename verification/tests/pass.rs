//! A pass over a plan, and the broker around it.

use std::cell::{Cell, RefCell};

use dig_updater_broker::broker::{
    config_mirror, estimate_next_wake, Broker, ConfigMirror, Repair, StatusRead,
};
use dig_updater_broker::config::{Channel, UpdaterConfig};
use dig_updater_broker::error::BrokerError;
use dig_updater_broker::hashing::digest_hex;
use dig_updater_broker::install::InstallOutcome;
use dig_updater_broker::installed::InstalledBuilds;
use dig_updater_broker::loadable::Loadability;
use dig_updater_broker::manifest::{Artifact, Component, Manifest, Platform, StagedArtifact};
use dig_updater_broker::pass::{
    alias_cache_key, check_binary_set, finish_apply, record_after, record_after_rollback, restart_after, reverify_err, rollback_set, snapshot_set, verified_install_detail, BinarySnapshot, BuildRecord, ComponentOutcome, ComponentResult, Installer, PassReport, ServiceAction, Staged, TrustFailure, VerifiedPlan, WorkerReport,
};
use dig_updater_broker::paths::{default_state_dir, HostEnv};
use dig_updater_broker::plan::{
    Catalog, ComponentTarget, HeldComponent, InstallMethod, Plan, PlannedComponent, PlannedVariant,
    VersionEvidence,
};
use dig_updater_broker::resolver::{DetectedVersion, UpdateAction};
use dig_updater_broker::rollback::{LkgEntry, LkgRecord, RecordRead};
use dig_updater_broker::sandbox::Sandbox;

fn outcome(component: &str, result: ComponentResult, detail: &str) -> ComponentOutcome {
    ComponentOutcome {
        component: component.into(),
        action: "update".into(),
        result,
        detail: detail.into(),
    }
}

fn planned(name: &str, action: UpdateAction) -> PlannedComponent {
    PlannedComponent {
        name: name.into(),
        method: InstallMethod::RawBinary,
        dest: format!("/opt/dig/bin/{name}"),
        aliases: vec![],
        version: "0.15.0".into(),
        build: 15_000,
        variants: vec![PlannedVariant {
            variant: None,
            expected_digest: digest_hex(b"new"),
            staged_path: format!("/s/staging/{name}"),
        }],
        action,
        summary: format!("{name} summary"),
        installed_build: Some(14_000),
        evidence: VersionEvidence::SafeToProbe,
    }
}

fn platform() -> Platform {
    Platform {
        os: "linux".into(),
        arch: "x64".into(),
    }
}

fn target(name: &str, service: Option<&str>) -> ComponentTarget {
    ComponentTarget {
        name: name.into(),
        method: InstallMethod::RawBinary,
        dest: format!("/opt/dig/bin/{name}"),
        aliases: vec![],
        service: service.map(str::to_string),
        evidence: VersionEvidence::SafeToProbe,
    }
}

// ------------------------------------------------------------------ services

#[test]
fn restart_fires_even_when_the_rollback_itself_errors_666f1() {
    let calls = RefCell::new(Vec::new());
    let ctl = |_: &str, action: ServiceAction| {
        calls.borrow_mut().push(action);
        Ok(())
    };
    let rollback_error = Err(BrokerError::RollbackFailed {
        component: "dig-node".into(),
        detail: "cached bytes unreadable".into(),
    });
    let out = restart_after(Some("net.dignetwork.dig-node"), ctl, rollback_error);
    assert!(
        out.is_err(),
        "the rollback error still propagates to the caller"
    );
    assert_eq!(
        *calls.borrow(),
        vec![ServiceAction::Start],
        "the service was restarted before the error propagated — never left down"
    );
}

#[test]
fn restart_after_folds_a_restart_failure_into_the_detail_without_failing_the_pass() {
    let ctl = |_: &str, _: ServiceAction| Err("boot failed".to_string());
    let ok = Ok(outcome(
        "dig-node",
        ComponentResult::Installed,
        "dig-node now reports 0.33.0",
    ));
    let out = restart_after(Some("net.dignetwork.dig-node"), ctl, ok).unwrap();
    assert_eq!(
        out.result,
        ComponentResult::Installed,
        "a restart failure never downgrades a good install"
    );
    assert!(
        out.detail.contains("warning: could not restart"),
        "the warning is surfaced: {}",
        out.detail
    );
    assert_eq!(
        out.detail,
        "dig-node now reports 0.33.0 (warning: could not restart net.dignetwork.dig-node: boot failed)"
    );
}

#[test]
fn restart_after_is_a_no_op_for_a_non_service_component() {
    let ctl = |_: &str, _: ServiceAction| panic!("must not be called for a service-less component");
    let ok = Ok(outcome("digstore", ComponentResult::Installed, "ok"));
    assert!(restart_after(None, ctl, ok).is_ok());
}

#[test]
fn alias_cache_key_is_filename_safe_and_distinct_from_the_primary() {
    let key = alias_cache_key("dig-node", "/opt/dig/bin/dign");
    assert_eq!(key, "dig-node--dign");
    assert!(!key.contains('/') && !key.contains('\\') && !key.contains(':'));
    assert_eq!(alias_cache_key("dig-node", "/"), "dig-node--");
}

#[test]
fn component_result_as_str_matches_its_serde_snake_case_rename() {
    for (result, token) in [
        (ComponentResult::Installed, "installed"),
        (ComponentResult::Skipped, "skipped"),
        (ComponentResult::Deferred, "deferred"),
        (ComponentResult::RolledBack, "rolled_back"),
        (ComponentResult::Held, "held"),
    ] {
        assert_eq!(result.as_str(), token);
    }
}

#[test]
fn verified_install_detail_states_what_was_observed_not_a_plan_prediction() {
    let detail = verified_install_detail(
        "dig-dns",
        &DetectedVersion::Present("dig-dns 0.13.0".to_string()),
    );
    assert_eq!(detail, "dig-dns now reports dig-dns 0.13.0");
    assert!(
        !detail.contains("->"),
        "must not read like a plan-time transition summary: {detail}"
    );
    assert_eq!(
        verified_install_detail("dig-dns", &DetectedVersion::Absent),
        "dig-dns installed, but its version is unknown"
    );
}

#[test]
fn paused_is_a_benign_nothing_applied_carrying_the_snooze_deadline() {
    let report = PassReport::paused(Some(1_700_000_000));
    assert!(!report.applied);
    assert_eq!(report.reason.as_deref(), Some("paused"));
    assert!(report.detail.unwrap().contains("1700000000"));
}

#[test]
fn paused_indefinitely_omits_a_deadline_from_the_detail() {
    let report = PassReport::paused(None);
    assert_eq!(report.reason.as_deref(), Some("paused"));
    assert!(!report.detail.unwrap().contains("unix time"));
}

// ------------------------------------------------------------------ one component

#[test]
fn the_health_gate_checks_every_binary_of_the_component() {
    let mut pc = planned("digstore", UpdateAction::Update);
    pc.aliases = vec!["/opt/dig/bin/digs".to_string()];
    let current = |_: &str| DetectedVersion::Present("digstore 0.15.0".to_string());
    let no_digest = |_: &str| panic!("a probed component is not hashed");
    assert_eq!(
        check_binary_set(&pc, &digest_hex(b"new"), &current, &no_digest),
        Ok(DetectedVersion::Present("digstore 0.15.0".to_string()))
    );
    let stale_alias = |path: &str| {
        DetectedVersion::Present(
            if path.ends_with("/digs") {
                "digstore 0.14.0"
            } else {
                "digstore 0.15.0"
            }
            .to_string(),
        )
    };
    let detail = check_binary_set(&pc, &digest_hex(b"new"), &stale_alias, &no_digest).expect_err("the alias is stale");
    assert!(
        detail.starts_with("alias /opt/dig/bin/digs failed the version check: "),
        "{detail}"
    );
}

#[test]
fn a_component_that_may_not_be_run_is_hashed_at_the_gate() {
    let mut pc = planned("dig-app", UpdateAction::Update);
    pc.evidence = VersionEvidence::ArtifactDigest;
    let no_probe = |_: &str| panic!("dig-app is never executed");
    assert_eq!(
        check_binary_set(&pc, &digest_hex(b"new"), &no_probe, &|_: &str| Some(digest_hex(b"new"))),
        Ok(DetectedVersion::Present("0.15.0".to_string()))
    );
    assert!(check_binary_set(&pc, &digest_hex(b"new"), &no_probe, &|_: &str| Some(digest_hex(b"old"))).is_err());
    assert_eq!(
        check_binary_set(&pc, &digest_hex(b"new"), &no_probe, &|_: &str| None),
        Err("nothing installed at /opt/dig/bin/dig-app".to_string())
    );
}

#[test]
fn what_follows_an_install_depends_on_how_it_ended() {
    let pc = planned("digstore", UpdateAction::Update);
    let healthy = finish_apply(
        &pc,
        InstallOutcome::Installed,
        || Ok(DetectedVersion::Present("digstore 0.15.0".to_string())),
        || panic!("a healthy component stays"),
    )
    .unwrap();
    assert_eq!(healthy.result, ComponentResult::Installed);
    assert_eq!(healthy.detail, "digstore now reports digstore 0.15.0");
    assert_eq!(healthy.action, "update");

    let rolled = Cell::new(0);
    let unhealthy = finish_apply(
        &pc,
        InstallOutcome::Installed,
        || Err("stale".to_string()),
        || {
            rolled.set(rolled.get() + 1);
            Ok(())
        },
    )
    .unwrap();
    assert_eq!(unhealthy.result, ComponentResult::RolledBack);
    assert_eq!(unhealthy.detail, "health gate failed, rolled back: stale");

    let failed = finish_apply(
        &pc,
        InstallOutcome::Failed {
            detail: "no disk".to_string(),
        },
        || panic!("nothing was installed"),
        || {
            rolled.set(rolled.get() + 1);
            Ok(())
        },
    )
    .unwrap();
    assert_eq!(failed.result, ComponentResult::RolledBack);
    assert_eq!(failed.detail, "install failed, rolled back: no disk");
    assert_eq!(rolled.get(), 2);

    let deferred = finish_apply(
        &pc,
        InstallOutcome::Deferred {
            reason: "locked".to_string(),
        },
        || panic!("nothing was installed"),
        || panic!("nothing was installed"),
    )
    .unwrap();
    assert_eq!(deferred.result, ComponentResult::Deferred);
    assert_eq!(deferred.detail, "locked");

    let err = finish_apply(
        &pc,
        InstallOutcome::Installed,
        || Err("stale".to_string()),
        || Err(BrokerError::Io("lost".to_string())),
    )
    .expect_err("a failed rollback is an error");
    assert_eq!(err.message(), "i/o error: lost");
}

fn entry(component: &str, dest: &str) -> LkgEntry {
    LkgEntry {
        component: component.into(),
        digest: String::new(),
        build: None,
        cached_path: format!("/lkg/{component}"),
        dest: dest.into(),
    }
}

#[test]
fn a_set_is_snapshotted_and_reverted_as_a_whole() {
    let mut pc = planned("dig-dns", UpdateAction::Update);
    pc.aliases = vec!["/opt/dig/bin/digd".to_string()];
    let snapshots = snapshot_set(&pc, 0, &|taken: u32, key: &str, dest: &str, build: Option<u64>| {
        assert_eq!(build, Some(14_000));
        let entry = if taken == 0 {
            assert_eq!(key, "dig-dns");
            Some(entry(key, dest))
        } else {
            assert_eq!((key, dest), ("dig-dns--digd", "/opt/dig/bin/digd"));
            None
        };
        (taken + 1, Ok(entry))
    })
    .unwrap();
    assert_eq!(
        snapshots,
        vec![
            BinarySnapshot {
                dest: "/opt/dig/bin/dig-dns".to_string(),
                entry: Some(entry("dig-dns", "/opt/dig/bin/dig-dns")),
            },
            BinarySnapshot {
                dest: "/opt/dig/bin/digd".to_string(),
                entry: None,
            },
        ]
    );
    let steps = RefCell::new(Vec::new());
    rollback_set(
        &snapshots,
        &|e: &LkgEntry| {
            steps.borrow_mut().push(format!("restore {}", e.component));
            Ok(())
        },
        &|path: &str| {
            steps.borrow_mut().push(format!("remove {path}"));
            Ok(())
        },
    )
    .unwrap();
    assert_eq!(
        *steps.borrow(),
        vec!["restore dig-dns", "remove /opt/dig/bin/digd"]
    );
    let err = rollback_set(&snapshots, &|_: &LkgEntry| Ok(()), &|_: &str| {
        Err("busy".to_string())
    })
    .expect_err("a fresh binary that stays is a failed rollback");
    assert_eq!(
        err.message(),
        "rollback of /opt/dig/bin/digd failed: could not remove freshly-installed binary: busy"
    );
    let err = snapshot_set(&pc, (), &|(), _: &str, _: &str, _: Option<u64>| {
        ((), Err(BrokerError::Io("no cache".to_string())))
    })
    .expect_err("a snapshot that cannot be taken is an error");
    assert_eq!(err.message(), "i/o error: no cache");
}

/// A host that runs one service-backed component and one without a service.
struct World {
    catalog: Catalog,
    platform: Platform,
    recorded: InstalledBuilds,
    steps: RefCell<Vec<String>>,
}

impl World {
    fn new() -> World {
        World {
            catalog: Catalog::new(vec![
                target("dig-node", Some("net.dignetwork.dig-node")),
                target("digstore", None),
                target("dig-updater", None),
            ]),
            platform: platform(),
            recorded: InstalledBuilds::default(),
            steps: RefCell::new(Vec::new()),
        }
    }

    fn installer(&self, suppress_state_advance: bool) -> Installer<'_> {
        Installer {
            catalog: &self.catalog,
            platform: &self.platform,
            recorded: &self.recorded,
            staging_dir: "/s/staging",
            apply_dir: "/s/apply",
            suppress_state_advance,
        }
    }

    fn step(&self, step: &str) {
        self.steps.borrow_mut().push(step.to_string());
    }

    fn apply_component(
        &self,
        pc: &PlannedComponent,
        stop: Result<(), String>,
        finished: Result<ComponentOutcome, BrokerError>,
    ) -> Result<ComponentOutcome, BrokerError> {
        self.installer(false).apply_component(
            pc,
            || {
                self.step("stage");
                Ok(Staged::Ready {
                    held: "/private".to_string(),
                    variant: 0,
                })
            },
            || {
                self.step("snapshot");
                Ok(vec![])
            },
            |service: &str, action: ServiceAction| {
                self.step(&format!("{action:?} {service}"));
                stop
            },
            |private: String| {
                self.step(&format!("install {private}"));
                InstallOutcome::Installed
            },
            |_: InstallOutcome, _: Vec<BinarySnapshot>, variant: usize| {
                assert_eq!(variant, 0);
                self.step("finish");
                finished
            },
            |service: &str, action: ServiceAction| {
                self.step(&format!("{action:?} {service}"));
                Ok(())
            },
            |private: String| self.step(&format!("drop {private}")),
        )
    }
}

#[test]
fn a_service_is_stopped_for_the_install_and_started_afterwards() {
    let world = World::new();
    let done = outcome("dig-node", ComponentResult::Installed, "ok");
    let out = world
        .apply_component(
            &planned("dig-node", UpdateAction::Update),
            Ok(()),
            Ok(done.clone()),
        )
        .unwrap();
    assert_eq!(out, done);
    assert_eq!(
        *world.steps.borrow(),
        vec![
            "stage",
            "snapshot",
            "Stop net.dignetwork.dig-node",
            "install /private",
            "finish",
            "Start net.dignetwork.dig-node",
        ]
    );
}

#[test]
fn a_stopped_service_is_started_even_when_the_component_errors() {
    let world = World::new();
    world
        .apply_component(
            &planned("dig-node", UpdateAction::Update),
            Ok(()),
            Err(BrokerError::Io("rollback failed".to_string())),
        )
        .expect_err("the error reaches the caller");
    assert_eq!(
        world.steps.borrow().last().map(String::as_str),
        Some("Start net.dignetwork.dig-node")
    );
}

#[test]
fn a_service_that_cannot_be_stopped_puts_the_component_off() {
    let world = World::new();
    let out = world
        .apply_component(
            &planned("dig-node", UpdateAction::Update),
            Err("timeout".to_string()),
            Ok(outcome("dig-node", ComponentResult::Installed, "unreached")),
        )
        .unwrap();
    assert_eq!(out.result, ComponentResult::Deferred);
    assert_eq!(
        out.detail,
        "could not stop service net.dignetwork.dig-node before replace: timeout"
    );
    assert_eq!(
        *world.steps.borrow(),
        vec![
            "stage",
            "snapshot",
            "Stop net.dignetwork.dig-node",
            "drop /private"
        ]
    );
}

#[test]
fn a_component_without_a_service_touches_none() {
    let world = World::new();
    world
        .apply_component(
            &planned("digstore", UpdateAction::Update),
            Ok(()),
            Ok(outcome("digstore", ComponentResult::Installed, "ok")),
        )
        .unwrap();
    assert_eq!(
        *world.steps.borrow(),
        vec!["stage", "snapshot", "install /private", "finish"]
    );
}

#[test]
fn a_component_that_is_refused_is_put_off_untouched() {
    let world = World::new();
    let out = world
        .installer(false)
        .apply_component(
            &planned("dig-node", UpdateAction::Update),
            || {
                Ok(Staged::Refused {
                    detail: "no libgtk".to_string(),
                })
            },
            || panic!("nothing is snapshotted"),
            |_: &str, _: ServiceAction| panic!("nothing is stopped"),
            |(): ()| panic!("nothing is installed"),
            |_: InstallOutcome, _: Vec<BinarySnapshot>, _: usize| panic!("nothing is finished"),
            |_: &str, _: ServiceAction| panic!("nothing is started"),
            |(): ()| panic!("nothing is dropped"),
        )
        .unwrap();
    assert_eq!(
        out,
        ComponentOutcome {
            action: "update".to_string(),
            ..outcome("dig-node", ComponentResult::Deferred, "no libgtk")
        }
    );
}

/// Stage a component whose staged file at `path` holds what `staged` says, on a host that cannot
/// load the bytes `gtk`. Gives what is held at the end and the steps made.
fn stage(
    pc: &PlannedComponent,
    resolve: &dyn Fn(&str) -> Result<String, String>,
    staged: &dyn Fn(&str) -> Vec<u8>,
) -> (Result<Staged<Vec<u8>>, BrokerError>, Vec<String>) {
    let world = World::new();
    let result = world.installer(false).stage_component(
        pc,
        Vec::new(),
        &|path: &str| resolve(path),
        &|path: &str| {
            world.step(&format!("read {path}"));
            Ok(staged(path))
        },
        &|_: Vec<u8>, path: &str, bytes: &Vec<u8>, executable: bool| {
            assert!(executable);
            world.step(&format!("write {path}"));
            Ok(bytes.clone())
        },
        &|held: &Vec<u8>, path: &str| {
            world.step(&format!("ask {path}"));
            if held == b"gtk" {
                Loadability::Unloadable {
                    missing: vec!["libgtk-3.so.0".to_string(), "libgdk-3.so.0".to_string()],
                }
            } else {
                Loadability::Indeterminate {
                    why: "no ELF image".to_string(),
                }
            }
        },
        &|_: Vec<u8>, path: &str| world.step(&format!("drop {path}")),
    );
    let steps = world.steps.borrow().clone();
    (result, steps)
}

#[test]
fn only_contained_bytes_with_the_signed_digest_are_staged() {
    let pc = planned("digstore", UpdateAction::Update);
    let private = "/opt/dig/bin/digstore.dig-updater-verified";
    let (staged, steps) = stage(&pc, &|path| Ok(format!("/real{path}")), &|_| b"new".to_vec());
    assert_eq!(
        staged.unwrap(),
        Staged::Ready {
            held: b"new".to_vec(),
            variant: 0
        }
    );
    assert_eq!(
        steps,
        vec![
            "read /real/s/staging/digstore".to_string(),
            format!("write {private}"),
            format!("ask {private}"),
        ]
    );
    let (err, steps) = stage(
        &pc,
        &|path| {
            Ok(if path.ends_with("digstore") {
                "/etc/shadow".to_string()
            } else {
                path.to_string()
            })
        },
        &|_| panic!("an escaping path is never read"),
    );
    assert!(matches!(
        err,
        Err(BrokerError::StagedPathEscapesStaging { .. })
    ));
    assert!(steps.is_empty());
    let (err, steps) = stage(&pc, &|path| Ok(path.to_string()), &|_| b"evil".to_vec());
    assert!(matches!(
        err,
        Err(BrokerError::StagingReverifyFailed { .. })
    ));
    assert_eq!(steps[1..], [format!("write {private}"), format!("drop {private}")]);
}

/// A component with a default build, which needs GTK, and another.
fn two_builds(other: &[u8]) -> PlannedComponent {
    let mut pc = planned("dig-app", UpdateAction::Update);
    pc.variants = vec![
        PlannedVariant {
            variant: None,
            expected_digest: digest_hex(b"gtk"),
            staged_path: "/s/staging/dig-app".into(),
        },
        PlannedVariant {
            variant: Some("headless".into()),
            expected_digest: digest_hex(other),
            staged_path: "/s/staging/dig-app-headless".into(),
        },
    ];
    pc
}

#[test]
fn the_build_that_this_host_can_load_is_staged() {
    let (staged, steps) = stage(&two_builds(b"plain"), &|path| Ok(path.to_string()), &|path| {
        if path.ends_with("headless") {
            b"plain".to_vec()
        } else {
            b"gtk".to_vec()
        }
    });
    assert_eq!(
        staged.unwrap(),
        Staged::Ready {
            held: b"plain".to_vec(),
            variant: 1
        }
    );
    let private = "/opt/dig/bin/dig-app.dig-updater-verified";
    assert_eq!(
        steps,
        vec![
            "read /s/staging/dig-app".to_string(),
            format!("write {private}"),
            format!("ask {private}"),
            "read /s/staging/dig-app-headless".to_string(),
            format!("write {private}"),
            format!("ask {private}"),
        ]
    );
}

#[test]
fn a_component_of_which_no_build_loads_is_refused_by_name() {
    let (staged, steps) = stage(&two_builds(b"gtk"), &|path| Ok(path.to_string()), &|_| {
        b"gtk".to_vec()
    });
    assert_eq!(
        staged.unwrap(),
        Staged::Refused {
            detail: "this host cannot load it, for want of: libgtk-3.so.0, libgdk-3.so.0, \
                     libgtk-3.so.0, libgdk-3.so.0"
                .to_string()
        }
    );
    assert_eq!(
        steps.last().map(String::as_str),
        Some("drop /opt/dig/bin/dig-app.dig-updater-verified")
    );
}

#[test]
fn a_manual_rollback_is_recorded_for_what_is_tracked() {
    let world = World::new();
    let record = |build: Option<u64>| {
        RecordRead::Record(LkgRecord {
            digest: String::new(),
            build,
            dest: String::new(),
        })
    };
    assert_eq!(
        record_after_rollback(&world.catalog, "dig-node", &record(Some(14_000))),
        BuildRecord::Replace(Some(14_000))
    );
    assert_eq!(
        record_after_rollback(&world.catalog, "dig-node", &record(None)),
        BuildRecord::Replace(None)
    );
    assert_eq!(
        record_after_rollback(&world.catalog, "dig-node--dign", &record(Some(14_000))),
        BuildRecord::Keep
    );
    assert_eq!(
        record_after_rollback(
            &world.catalog,
            "dig-node",
            &RecordRead::Missing("no such file".to_string())
        ),
        BuildRecord::Keep
    );
}

#[test]
fn the_record_follows_what_is_present() {
    let mut pc = planned("digstore", UpdateAction::Update);
    assert_eq!(
        record_after(&pc, ComponentResult::Installed),
        BuildRecord::Replace(Some(15_000))
    );
    assert_eq!(
        record_after(&pc, ComponentResult::RolledBack),
        BuildRecord::Replace(Some(14_000))
    );
    pc.installed_build = None;
    assert_eq!(
        record_after(&pc, ComponentResult::RolledBack),
        BuildRecord::Replace(None)
    );
    assert_eq!(
        record_after(&pc, ComponentResult::Deferred),
        BuildRecord::Keep
    );
}

/// Apply `dig-node`, whose staged bytes are `staged`, with an install that ends so and a binary that
/// then reports `version`.
fn apply_one(
    world: &World,
    staged: &[u8],
    ended: InstallOutcome,
    version: DetectedVersion,
) -> Result<ComponentOutcome, BrokerError> {
    let control = |_: &str, action: ServiceAction| {
        world.step(&format!("{action:?}"));
        Ok(())
    };
    world.installer(false).apply_one(
        &planned("dig-node", UpdateAction::Update),
        (),
        &|path: &str| Ok(path.to_string()),
        &|path: &str| {
            world.step(&format!("read {path}"));
            Ok(staged.to_vec())
        },
        &|(), path: &str, _: &Vec<u8>, _: bool| {
            world.step(&format!("write {path}"));
            Ok(())
        },
        &|(): &(), _: &str| Loadability::Loadable,
        &|(), path: &str| world.step(&format!("drop {path}")),
        (),
        &|(), key: &str, dest: &str, _: Option<u64>| {
            world.step(&format!("snapshot {key}"));
            ((), Ok(Some(entry(key, dest))))
        },
        control,
        |(), path: &str| {
            world.step(&format!("install {path}"));
            ended
        },
        &|path: &str| {
            world.step(&format!("run {path}"));
            version.clone()
        },
        &|_: &str| panic!("the binary is run, not hashed"),
        &|entry: &LkgEntry| {
            world.step(&format!("restore {}", entry.dest));
            Ok(())
        },
        &|_: &str| panic!("every binary was there"),
        control,
    )
}

#[test]
fn what_is_reported_installed_was_verified_and_checked() {
    let world = World::new();
    let done = apply_one(
        &world,
        b"new",
        InstallOutcome::Installed,
        DetectedVersion::Present("0.15.0".into()),
    )
    .unwrap();
    assert_eq!(done.result, ComponentResult::Installed);
    assert_eq!(
        *world.steps.borrow(),
        [
            "read /s/staging/dig-node",
            "write /opt/dig/bin/dig-node.dig-updater-verified",
            "snapshot dig-node",
            "Stop",
            "install /opt/dig/bin/dig-node.dig-updater-verified",
            "run /opt/dig/bin/dig-node",
            "Start",
        ]
    );
    let world = World::new();
    let undone = apply_one(
        &world,
        b"new",
        InstallOutcome::Installed,
        DetectedVersion::Present("0.14.0".into()),
    )
    .unwrap();
    assert_eq!(undone.result, ComponentResult::RolledBack);
    assert_eq!(
        world.steps.borrow()[5..],
        [
            "run /opt/dig/bin/dig-node",
            "restore /opt/dig/bin/dig-node",
            "Start",
        ]
    );
    let world = World::new();
    let failed = apply_one(
        &world,
        b"new",
        InstallOutcome::Failed {
            detail: "disk full".into(),
        },
        DetectedVersion::Absent,
    )
    .unwrap();
    assert_eq!(failed.result, ComponentResult::RolledBack);
    assert_eq!(failed.detail, "install failed, rolled back: disk full");
    let world = World::new();
    let err = apply_one(
        &world,
        b"evil",
        InstallOutcome::Installed,
        DetectedVersion::Absent,
    )
    .expect_err("the bytes are not the signed ones");
    assert!(matches!(err, BrokerError::StagingReverifyFailed { .. }));
    assert_eq!(
        world.steps.borrow()[2..],
        ["drop /opt/dig/bin/dig-node.dig-updater-verified"]
    );
}

// ------------------------------------------------------------------ a whole pass

fn manifest(names: &[&str]) -> Manifest {
    Manifest {
        schema: 1,
        root_version: 1,
        sequence: 1,
        generated: 1,
        expires: u64::MAX,
        rollback_floor_build: 10_000,
        components: names
            .iter()
            .map(|name| Component {
                name: name.to_string(),
                version: "0.15.0".into(),
                build: 15_000,
                artifacts: vec![Artifact {
                    os: "linux".into(),
                    arch: "x64".into(),
                    url: "https://x/y".into(),
                    sha256: digest_hex(b"new"),
                    size: 3,
                    variant: None,
                }],
            })
            .collect(),
    }
}

fn staged(name: &str) -> StagedArtifact {
    StagedArtifact {
        component: name.into(),
        version: "0.15.0".into(),
        build: 15_000,
        os: "linux".into(),
        arch: "x64".into(),
        variant: None,
        sha256: digest_hex(b"new"),
        size: 3,
        staged_path: format!("/s/staging/{name}"),
    }
}

/// Apply a plan in which each component but the updater ends as `others` says.
fn apply_plan(
    world: &World,
    plan: &Plan,
    suppress: bool,
    others: &dyn Fn(&str) -> ComponentResult,
) -> Result<PassReport, BrokerError> {
    world.installer(suppress).apply_plan(
        plan,
        &manifest(&[]),
        (),
        &|(), pc: &PlannedComponent, floor: u64| {
            assert_eq!(floor, 10_000);
            world.step(&format!("apply {}", pc.name));
            ((), Ok(outcome(&pc.name, others(&pc.name), "done")))
        },
        |_: &Manifest| {
            world.step("advance");
            Ok(())
        },
        |pc: &PlannedComponent, _: u64| {
            world.step(&format!("self {}", pc.name));
            Ok(outcome(&pc.name, ComponentResult::Deferred, "later"))
        },
    )
}

fn full_plan() -> Plan {
    Plan {
        components: vec![
            planned("dig-updater", UpdateAction::Update),
            planned("dig-node", UpdateAction::Update),
            planned("dig-dns", UpdateAction::Skip),
            planned("digstore", UpdateAction::Install),
        ],
        held: vec![HeldComponent {
            name: "dig-future".into(),
            reason: "not run".into(),
        }],
    }
}

#[test]
fn the_state_advances_after_all_others_and_the_updater_comes_last() {
    let world = World::new();
    let report = apply_plan(&world, &full_plan(), false, &|_| ComponentResult::Installed).unwrap();
    assert!(report.applied && report.state_advanced);
    assert_eq!(
        *world.steps.borrow(),
        vec![
            "apply dig-node",
            "apply digstore",
            "advance",
            "self dig-updater"
        ]
    );
    let lines: Vec<(String, ComponentResult)> = report
        .components
        .iter()
        .map(|c| (c.component.clone(), c.result))
        .collect();
    assert_eq!(
        lines,
        vec![
            ("dig-node".to_string(), ComponentResult::Installed),
            ("dig-dns".to_string(), ComponentResult::Skipped),
            ("digstore".to_string(), ComponentResult::Installed),
            ("dig-future".to_string(), ComponentResult::Held),
            ("dig-updater".to_string(), ComponentResult::Deferred),
        ]
    );
    assert_eq!(report.components[1].detail, "dig-dns summary");
    assert_eq!(report.components[3].detail, "not run");
    assert_eq!(report.components[3].action, "hold");
}

#[test]
fn one_component_that_is_not_installed_keeps_the_state() {
    for result in [ComponentResult::Deferred, ComponentResult::RolledBack] {
        let world = World::new();
        let report = apply_plan(&world, &full_plan(), false, &|name| {
            if name == "digstore" {
                result
            } else {
                ComponentResult::Installed
            }
        })
        .unwrap();
        assert!(report.applied && !report.state_advanced);
        assert_eq!(
            *world.steps.borrow(),
            vec!["apply dig-node", "apply digstore", "self dig-updater"]
        );
    }
}

#[test]
fn an_overridden_feed_installs_but_keeps_the_state() {
    let world = World::new();
    let report = apply_plan(&world, &full_plan(), true, &|_| ComponentResult::Installed).unwrap();
    assert!(!report.state_advanced);
    assert!(!world.steps.borrow().contains(&"advance".to_string()));
}

#[test]
fn an_error_ends_the_pass_before_the_state_and_the_updater() {
    let world = World::new();
    let err = world
        .installer(false)
        .apply_plan(
            &full_plan(),
            &manifest(&[]),
            (),
            &|(), pc: &PlannedComponent, _: u64| {
                world.step(&pc.name);
                ((), Err(BrokerError::Io("swapped bytes".to_string())))
            },
            |_: &Manifest| panic!("the state must not advance"),
            |_: &PlannedComponent, _: u64| panic!("the updater must not run"),
        )
        .expect_err("a security event aborts the pass");
    assert_eq!(err.message(), "i/o error: swapped bytes");
    assert_eq!(*world.steps.borrow(), vec!["dig-node"]);
}

fn verified(artifacts: Vec<StagedArtifact>) -> WorkerReport {
    WorkerReport::Verified(VerifiedPlan {
        delegation_json: "{}".into(),
        manifest_json: "{}".into(),
        artifacts,
    })
}

fn apply_report(
    world: &World,
    report: &WorkerReport,
    reverified: Result<Manifest, TrustFailure>,
) -> Result<PassReport, BrokerError> {
    world.installer(false).apply(
        report,
        |_: &VerifiedPlan| {
            world.step("reverify");
            reverified
        },
        &|path: &str| {
            world.step(&format!("probe {path}"));
            DetectedVersion::Present("digstore 0.14.0".to_string())
        },
        &|_: &str| panic!("nothing is evidenced by its digest"),
        &|_: &str| false,
        (),
        &|(), pc: &PlannedComponent, _: u64| {
            world.step(&format!("apply {}", pc.name));
            ((), Ok(outcome(&pc.name, ComponentResult::Installed, "done")))
        },
        |_: &Manifest| {
            world.step("advance");
            Ok(())
        },
        |_: &PlannedComponent, _: u64| panic!("the updater is not in the manifest"),
    )
}

#[test]
fn a_rejected_report_does_nothing() {
    let world = World::new();
    let report = apply_report(
        &world,
        &WorkerReport::Rejected {
            reason: "expired".into(),
            detail: "the manifest has expired".into(),
        },
        Ok(manifest(&[])),
    )
    .unwrap();
    assert!(!report.applied && !report.state_advanced);
    assert_eq!(report.reason.as_deref(), Some("expired"));
    assert_eq!(report.detail.as_deref(), Some("the manifest has expired"));
    assert!(world.steps.borrow().is_empty());
}

#[test]
fn a_plan_that_fails_the_second_verification_is_never_looked_at() {
    let world = World::new();
    let failure = TrustFailure {
        text: "bad signature".into(),
        code: "manifest_signature_invalid".into(),
    };
    let err = apply_report(&world, &verified(vec![staged("digstore")]), Err(failure.clone()))
        .expect_err("a forged plan is refused");
    assert_eq!(
        err.message(),
        "independent re-verification failed: bad signature (manifest_signature_invalid)"
    );
    assert_eq!(err.message(), reverify_err(&failure).message());
    assert_eq!(*world.steps.borrow(), vec!["reverify"]);
}

#[test]
fn a_verified_report_is_planned_and_applied() {
    let world = World::new();
    let report = apply_report(
        &world,
        &verified(vec![staged("digstore")]),
        Ok(manifest(&["digstore"])),
    )
    .unwrap();
    assert!(report.state_advanced);
    assert_eq!(
        *world.steps.borrow(),
        vec![
            "reverify",
            "probe /opt/dig/bin/digstore",
            "apply digstore",
            "advance"
        ]
    );
    let err = apply_report(&World::new(), &verified(vec![]), Ok(manifest(&["digstore"])))
        .expect_err("nothing was staged");
    assert!(matches!(err, BrokerError::StagedArtifactMissing { .. }));
}

// ------------------------------------------------------------------ the broker

fn broker() -> Broker {
    Broker::with_paths("/var/lib/dig-updater".to_string(), "x".to_string())
}

#[test]
fn staging_and_lkg_live_under_the_state_dir_not_tmp() {
    let broker = broker();
    assert_eq!(broker.staging_dir(), "/var/lib/dig-updater/staging");
    assert_eq!(broker.lkg_dir(), "/var/lib/dig-updater/lkg");
    assert_eq!(broker.apply_dir(), "/var/lib/dig-updater/apply");
    assert_eq!(broker.status_dir(), "/var/lib/dig-updater-status");
    assert_eq!(broker.worker_path(), "x");
}

fn unix_env() -> HostEnv {
    HostEnv {
        windows: false,
        program_data: None,
        local_app_data: None,
        xdg_cache_home: None,
        home: Some("/home/sam".to_string()),
        temp_dir: "/tmp".to_string(),
    }
}

#[test]
fn for_dry_check_honors_the_state_dir_env_override() {
    let exe = "/opt/dig/bin/dig-updater";
    let relocated = Broker::for_dry_check(
        &unix_env(),
        exe,
        Some("/tmp/override".to_string()),
        || panic!("an override is never second-guessed"),
    )
    .expect("resolves the sibling worker binary");
    assert_eq!(relocated.state_dir(), "/tmp/override");
    let default = Broker::for_dry_check(&unix_env(), exe, None, || true).expect("resolves");
    assert_eq!(default.state_dir(), default_state_dir(&unix_env()));
    assert_eq!(default.worker_path(), "/opt/dig/bin/dig-updater-worker");
    assert_eq!(
        default,
        Broker::new(&unix_env(), exe).expect("resolves")
    );
    assert!(Broker::new(&unix_env(), "/").is_err());
}

#[test]
fn guarded_paths_repair_owned_dirs_but_never_the_binary() {
    let broker = broker();
    let guarded = broker.guarded_paths(Some("/opt/dig/bin/dig-updater".to_string()));
    for dir in [
        broker.state_dir(),
        &broker.staging_dir(),
        &broker.lkg_dir(),
        &broker.apply_dir(),
    ] {
        assert!(guarded
            .iter()
            .any(|(p, r)| p == dir && *r == Repair::IfOwned));
    }
    assert!(guarded
        .iter()
        .all(|(_, r)| *r == Repair::IfOwned || *r == Repair::Never));
    assert_eq!(
        guarded.last(),
        Some(&("/opt/dig/bin/dig-updater".to_string(), Repair::Never))
    );
    assert_eq!(broker.guarded_paths(None).len(), 4);
}

#[test]
fn run_pass_hardens_dirs_and_acl_checks_before_spawning() {
    let steps = RefCell::new(Vec::new());
    let step = |s: String| steps.borrow_mut().push(s);
    let err = broker()
        .run_pass(
            None,
            Sandbox::Restricted,
            &|dir: &str| {
                step(format!("prepare {dir}"));
                Ok(())
            },
            |paths: &Vec<(String, Repair)>| {
                step(format!("check {}", paths.len()));
                Ok(())
            },
            |dir: &str, sandbox: Sandbox| {
                assert_eq!(sandbox, Sandbox::Restricted);
                step(format!("staging {dir}"));
                Ok(())
            },
            |dir: &str| {
                assert_eq!(dir, "/var/lib/dig-updater");
                step("load".to_string());
                Ok(7u64)
            },
            |worker: &str, staging: &str, state: &u64, sandbox: Sandbox| {
                assert_eq!(worker, broker().worker_path());
                assert_eq!(staging, broker().staging_dir());
                assert_eq!((*state, sandbox), (7, Sandbox::Restricted));
                step("spawn".to_string());
                Err(BrokerError::Spawn("no such worker".to_string()))
            },
            |_: &WorkerReport, _: u64| panic!("there is nothing to apply"),
        )
        .expect_err("a missing worker binary must fail to spawn");
    assert!(matches!(err, BrokerError::Spawn(_)));
    assert_eq!(
        *steps.borrow(),
        vec![
            "prepare /var/lib/dig-updater",
            "prepare /var/lib/dig-updater/lkg",
            "prepare /var/lib/dig-updater/apply",
            "check 4",
            "staging /var/lib/dig-updater/staging",
            "load",
            "spawn",
        ]
    );
}

#[test]
fn a_guarded_path_that_is_not_locked_down_ends_the_pass() {
    let err = broker()
        .run_pass(
            None,
            Sandbox::Restricted,
            &|_: &str| Ok(()),
            |_: &Vec<(String, Repair)>| Err(BrokerError::AclViolation("/x".to_string())),
            |_: &str, _: Sandbox| panic!("nothing follows a failed check"),
            |_: &str| -> Result<u64, BrokerError> { panic!("nothing follows a failed check") },
            |_: &str, _: &str, _: &u64, _: Sandbox| panic!("nothing follows a failed check"),
            |_: &WorkerReport, _: u64| panic!("nothing follows a failed check"),
        )
        .expect_err("the check fails closed");
    assert_eq!(err.message(), "guarded path is not locked down: /x");
}

#[test]
fn manual_rollback_anchors_its_floor_to_the_persisted_trust_state() {
    let broker = Broker::with_paths("/s".to_string(), "x".to_string());
    let record = |build: u64| LkgRecord {
        digest: digest_hex(b"old-below-floor-binary"),
        build: Some(build),
        dest: "/opt/digstore".to_string(),
    };
    let attempt = |build: u64| {
        let written = RefCell::new(Vec::new());
        let r = broker.rollback(
            vec!["digstore".to_string()],
            |dir: &str| {
                assert_eq!(dir, "/s");
                Ok(10_000)
            },
            &|_: &str| RecordRead::Record(record(build)),
            &|path: &str| {
                assert_eq!(path, "/s/lkg/digstore");
                Ok(b"old-below-floor-binary".to_vec())
            },
            &|path: &str, _: &Vec<u8>| {
                written.borrow_mut().push(path.to_string());
                Ok(())
            },
        );
        (r, written.into_inner())
    };
    let (r, written) = attempt(9_000);
    let err = r.expect_err("a below-persisted-floor cached build must be refused");
    assert!(matches!(err, BrokerError::RollbackFailed { .. }));
    assert!(written.is_empty());
    let (r, written) = attempt(10_000);
    assert_eq!(r.expect("at the floor"), vec!["digstore".to_string()]);
    assert_eq!(written, vec!["/opt/digstore".to_string()]);
    let err = broker.rollback(
        vec!["digstore".to_string()],
        |_: &str| Err(BrokerError::StateCorrupt("marks".to_string())),
        &|_: &str| panic!("without a floor nothing is rolled back"),
        &|_: &str| panic!("without a floor nothing is rolled back"),
        &|_: &str, _: &Vec<u8>| panic!("without a floor nothing is rolled back"),
    )
    .expect_err("the floor cannot be read");
    assert!(matches!(err, BrokerError::StateCorrupt(_)));
    let err = broker.rollback(
        vec!["digstore".to_string()],
        |_: &str| Ok(0),
        &|_: &str| RecordRead::Missing("no such file".to_string()),
        &|_: &str| panic!("there is no record"),
        &|_: &str, _: &Vec<u8>| panic!("there is no record"),
    )
    .expect_err("there is no record");
    assert_eq!(
        err.message(),
        "i/o error: no last-known-good for digstore: no such file"
    );
}

#[test]
fn run_once_exits_immediately_when_the_lock_is_already_held() {
    let report = broker().run_once(
        |dir: &str| {
            assert_eq!(dir, "/var/lib/dig-updater");
            Ok(false)
        },
        |_: &str| panic!("the configuration is read with the lock held"),
        0,
        |_: Sandbox| panic!("an overrun pass does nothing"),
        |_: &PassReport, _: &UpdaterConfig| panic!("an overrun pass mirrors nothing"),
    )
    .expect("a held lock is a benign no-op, not an error");
    assert_eq!(report, PassReport::already_running());
    assert_eq!(report.reason.as_deref(), Some("already_running"));
}

#[test]
fn a_paused_beacon_no_ops_without_ever_spawning_the_worker() {
    let mirrored = Cell::new(false);
    let report = broker().run_once(
        |_: &str| Ok(true),
        |_: &str| {
            Ok(UpdaterConfig {
                paused: true,
                ..UpdaterConfig::default()
            })
        },
        0,
        |_: Sandbox| panic!("a paused pass does nothing"),
        |report: &PassReport, config: &UpdaterConfig| {
            assert!(!report.applied && config.paused);
            mirrored.set(true)
        },
    )
    .expect("a paused beacon must no-op, not error, even with a missing worker binary");
    assert!(!report.applied);
    assert_eq!(report.reason.as_deref(), Some("paused"));
    assert!(mirrored.get());
}

#[test]
fn a_configuration_that_cannot_be_read_ends_the_pass() {
    let err = broker().run_once(
        |_: &str| Ok(true),
        |_: &str| Err(BrokerError::StateCorrupt("config: eof".to_string())),
        0,
        |_: Sandbox| panic!("it might hold a pause"),
        |_: &PassReport, _: &UpdaterConfig| panic!("nothing to mirror"),
    )
    .expect_err("the pause gate fails closed");
    assert!(matches!(err, BrokerError::StateCorrupt(_)));
    let ran = broker().run_once(
        |_: &str| Ok(true),
        |_: &str| {
            Ok(UpdaterConfig {
                paused: true,
                paused_until: Some(100),
                ..UpdaterConfig::default()
            })
        },
        100,
        |sandbox: Sandbox| {
            assert_eq!(sandbox, Sandbox::Restricted);
            Ok(PassReport::nothing_to_do("ran", "the pause had lapsed"))
        },
        |_: &PassReport, _: &UpdaterConfig| {},
    )
    .unwrap();
    assert_eq!(ran.reason.as_deref(), Some("ran"));
}

/// A configuration on disk and what the mirror last showed.
struct Settings {
    disk: RefCell<UpdaterConfig>,
    mirror: RefCell<Option<UpdaterConfig>>,
}

impl Settings {
    fn new() -> Settings {
        Settings {
            disk: RefCell::new(UpdaterConfig::default()),
            mirror: RefCell::new(None),
        }
    }

    fn load(&self) -> Result<UpdaterConfig, BrokerError> {
        Ok(self.disk.borrow().clone())
    }

    fn save(&self, dir: &str, config: &UpdaterConfig) -> Result<(), BrokerError> {
        assert_eq!(dir, "/var/lib/dig-updater");
        *self.disk.borrow_mut() = config.clone();
        Ok(())
    }

    fn show(&self, config: &UpdaterConfig) {
        *self.mirror.borrow_mut() = Some(config.clone());
    }

    fn pause(&self, until: Option<u64>, elevated: bool) -> Result<UpdaterConfig, BrokerError> {
        broker().pause(
            until,
            || elevated,
            |_: &str| self.load(),
            |dir: &str, config: &UpdaterConfig| self.save(dir, config),
            |config: &UpdaterConfig| self.show(config),
        )
    }

    fn resume(&self, elevated: bool) -> Result<UpdaterConfig, BrokerError> {
        broker().resume(
            || elevated,
            |_: &str| self.load(),
            |dir: &str, config: &UpdaterConfig| self.save(dir, config),
            |config: &UpdaterConfig| self.show(config),
        )
    }

    fn set_channel(&self, channel: Channel, elevated: bool) -> Result<UpdaterConfig, BrokerError> {
        broker().set_channel(
            channel,
            || elevated,
            |_: &str| self.load(),
            |dir: &str, config: &UpdaterConfig| self.save(dir, config),
            |config: &UpdaterConfig| self.show(config),
        )
    }

    fn refused(&self, result: Result<UpdaterConfig, BrokerError>) {
        let err = result.expect_err("a change without elevation must be refused");
        assert!(matches!(err, BrokerError::Io(_)));
        assert_eq!(*self.disk.borrow(), UpdaterConfig::default());
        assert_eq!(*self.mirror.borrow(), None);
    }
}

#[test]
fn unelevated_pause_is_refused() {
    let settings = Settings::new();
    settings.refused(settings.pause(None, false));
}

#[test]
fn unelevated_resume_is_refused() {
    let settings = Settings::new();
    settings.refused(settings.resume(false));
}

#[test]
fn unelevated_channel_set_is_refused() {
    let settings = Settings::new();
    settings.refused(settings.set_channel(Channel::Alpha, false));
}

#[test]
fn elevated_pause_persists_and_the_status_mirror_reflects_it_immediately() {
    let settings = Settings::new();
    let config = settings
        .pause(Some(u64::MAX), true)
        .expect("an elevated pause succeeds");
    assert!(config.paused);
    assert_eq!(config.paused_until, Some(u64::MAX));
    assert_eq!(*settings.disk.borrow(), config);

    let shown = settings.mirror.borrow().clone().expect("mirrored at once");
    let status = config_mirror(&shown, 1_700_000_000);
    assert!(status.paused);
    assert_eq!(status.paused_until, Some(u64::MAX));
}

#[test]
fn elevated_resume_clears_a_prior_pause() {
    let settings = Settings::new();
    settings.pause(None, true).expect("pause");
    let config = settings
        .resume(true)
        .expect("an elevated resume succeeds");
    assert!(!config.paused);
    assert_eq!(config.paused_until, None);
    assert!(!config_mirror(&config, 0).paused);
}

#[test]
fn status_and_channel_reads_never_require_elevation() {
    let broker = broker();
    assert_eq!(
        broker
            .channel(|dir: &str| {
                assert_eq!(dir, "/var/lib/dig-updater-status");
                StatusRead::NeverChecked
            })
            .expect("channel get"),
        Channel::Alpha
    );
    let never_checked = ConfigMirror {
        channel: Channel::Alpha,
        paused: false,
        paused_until: None,
    };
    assert_eq!(
        broker
            .status(|_: &str| StatusRead::NeverChecked)
            .expect("status"),
        never_checked
    );
    let shown = ConfigMirror {
        channel: Channel::Nightly,
        ..never_checked
    };
    assert_eq!(
        broker
            .channel(|_: &str| StatusRead::Shown(shown))
            .expect("channel get"),
        Channel::Nightly
    );
    let err = broker
        .status(|_: &str| StatusRead::Malformed("eof".to_string()))
        .expect_err("a malformed mirror is an error");
    assert!(matches!(err, BrokerError::StateCorrupt(_)));
}

#[test]
fn set_channel_updates_both_the_config_and_the_status_mirror() {
    let settings = Settings::new();
    settings
        .set_channel(Channel::Stable, true)
        .expect("an elevated channel set succeeds");
    assert_eq!(settings.disk.borrow().channel, Channel::Stable);
    let shown = settings.mirror.borrow().clone().expect("mirrored");
    assert_eq!(config_mirror(&shown, 0).channel, Channel::Stable);
}

#[test]
fn a_configuration_that_cannot_be_saved_is_not_mirrored() {
    let err = broker()
        .pause(
        None,
        || true,
        |_: &str| Ok(UpdaterConfig::default()),
        |_: &str, _: &UpdaterConfig| Err(BrokerError::Io("read-only".to_string())),
        |_: &UpdaterConfig| panic!("nothing was changed"),
    )
    .expect_err("the failure is reported");
    assert_eq!(err.message(), "i/o error: read-only");
}

#[test]
fn a_dry_check_tolerates_an_unreadable_configuration() {
    let report = broker()
        .dry_check(
        |_: &str| Ok(3u64),
        |worker: &str, staging: &str, state: &u64, sandbox: Sandbox| {
            assert_eq!(worker, broker().worker_path());
            assert_eq!(staging, broker().staging_dir());
            assert_eq!((*state, sandbox), (3, Sandbox::Restricted));
            Ok(verified(vec![]))
        },
        |_: &str| Err(BrokerError::StateCorrupt("config".to_string())),
        |_: &WorkerReport, config: &UpdaterConfig| assert_eq!(*config, UpdaterConfig::default()),
    )
    .expect("the check itself succeeded");
    assert_eq!(report, verified(vec![]));
}

#[test]
fn the_next_wake_is_a_day_away_where_there_is_a_schedule() {
    assert_eq!(estimate_next_wake(1_000, true), Some(87_400));
    assert_eq!(estimate_next_wake(1_000, false), None);
}

#[test]
fn every_error_reads_in_words() {
    let cases = [
        (
            BrokerError::Unimplemented("schedules"),
            "not yet implemented: schedules",
        ),
        (
            BrokerError::WorkerReportUnparseable("eof".to_string()),
            "worker returned an unparseable report: eof",
        ),
        (
            BrokerError::WorkerStdoutTooLarge { limit: 64 },
            "the worker wrote more than 64 bytes",
        ),
        (
            BrokerError::Trust("delegation signature invalid".to_string()),
            "delegation signature invalid",
        ),
    ];
    for (error, text) in cases {
        assert_eq!(error.message(), text);
    }
}
