//! Enumerating and planning.

use dig_updater_broker::error::BrokerError;
use dig_updater_broker::installed::InstalledBuilds;
use dig_updater_broker::manifest::{Artifact, Component, Manifest, Platform, StagedArtifact};
use dig_updater_broker::path::{is_within, join};
use dig_updater_broker::plan::{
    digest_evidence, guard_newer_installed, installed_build, pack_build, resolve_install_root,
    Catalog, ComponentTarget, InstallMethod, Plan, VersionEvidence, BEACON_COMPONENT_NAME,
    DIG_APP_COMPONENT_NAME,
};
use dig_updater_broker::resolver::{DetectedVersion, UpdateAction};

/// A host on which nothing is installed where a held component would be.
fn not_installed(_: &str) -> bool {
    false
}

fn platform() -> Platform {
    Platform {
        os: "linux".into(),
        arch: "x64".into(),
    }
}

fn nothing_recorded() -> InstalledBuilds {
    InstalledBuilds::default()
}

fn manifest_one(name: &str, version: &str, build: u64, digest: &str) -> Manifest {
    Manifest {
        schema: 1,
        root_version: 1,
        sequence: 1,
        generated: 1,
        expires: u64::MAX,
        rollback_floor_build: 0,
        components: vec![Component {
            name: name.into(),
            version: version.into(),
            build,
            artifacts: vec![Artifact {
                os: "linux".into(),
                arch: "x64".into(),
                url: "https://x/y".into(),
                sha256: digest.into(),
                size: 1,
                variant: None,
            }],
        }],
    }
}

fn staged(name: &str, path: &str) -> StagedArtifact {
    StagedArtifact {
        component: name.into(),
        version: "0.15.0".into(),
        build: 15_000,
        os: "linux".into(),
        arch: "x64".into(),
        variant: None,
        sha256: "deadbeef".into(),
        size: 1,
        staged_path: path.into(),
    }
}

fn staged_variant(name: &str, variant: &str, digest: &str, path: &str) -> StagedArtifact {
    StagedArtifact {
        variant: Some(variant.into()),
        sha256: digest.into(),
        staged_path: path.into(),
        ..staged(name, path)
    }
}

fn catalog() -> Catalog {
    Catalog::new(vec![ComponentTarget {
        name: "digstore".into(),
        method: InstallMethod::RawBinary,
        dest: "/opt/dig/digstore".into(),
        aliases: vec!["/opt/dig/digs".into()],
        service: None,
        evidence: VersionEvidence::SafeToProbe,
    }])
}

fn manifest_of(components: &[(&str, &str, u64)]) -> Manifest {
    Manifest {
        components: components
            .iter()
            .map(|(name, version, build)| Component {
                name: (*name).into(),
                version: (*version).into(),
                build: *build,
                artifacts: vec![Artifact {
                    os: "linux".into(),
                    arch: "x64".into(),
                    url: "https://x/y".into(),
                    sha256: "deadbeef".into(),
                    size: 1,
                    variant: None,
                }],
            })
            .collect(),
        ..manifest_one("unused", "0.0.0", 0, "deadbeef")
    }
}

const FIXTURE_DIGEST: &str = "deadbeef";

const FUTURE_UNKNOWN_COMPONENT: &str = "dig-future-tray-app";

fn probeable(name: &str, dest: &str) -> ComponentTarget {
    ComponentTarget {
        name: name.into(),
        method: InstallMethod::RawBinary,
        dest: dest.into(),
        aliases: vec![],
        service: None,
        evidence: VersionEvidence::SafeToProbe,
    }
}

fn catalog_with_dig_app() -> Catalog {
    Catalog::new(vec![
        probeable("digstore", "/opt/dig/digstore"),
        ComponentTarget {
            name: DIG_APP_COMPONENT_NAME.into(),
            method: InstallMethod::RawBinary,
            dest: "/opt/dig/dig-app".into(),
            aliases: vec![],
            service: None,
            evidence: VersionEvidence::ArtifactDigest,
        },
    ])
}

fn catalog_with_an_unevidenced_component() -> Catalog {
    Catalog::new(vec![
        probeable("digstore", "/opt/dig/digstore"),
        ComponentTarget {
            name: FUTURE_UNKNOWN_COMPONENT.into(),
            method: InstallMethod::RawBinary,
            dest: format!("/opt/dig/{FUTURE_UNKNOWN_COMPONENT}"),
            aliases: vec![],
            service: None,
            evidence: VersionEvidence::UnsafeToProbe,
        },
    ])
}

fn digest_reader_that_must_not_be_consulted(path: &str) -> Option<String> {
    panic!(
        "the planner hashed {} — a component that answers `--version` is established by its \
         probe, not by measuring it",
        path
    )
}

fn digest_reader(hex: Option<&str>) -> impl Fn(&str) -> Option<String> + '_ {
    move |_: &str| hex.map(str::to_string)
}

fn probe_that_may_only_run_digstore(path: &str) -> DetectedVersion {
    assert!(
        path.ends_with("/digstore"),
        "the planner EXECUTED {} — the privileged exec the evidence declaration exists to \
         prevent (a SYSTEM boot of an installed binary on every pass)",
        path
    );
    DetectedVersion::Present("digstore 0.14.0".into())
}

#[test]
fn dig_app_is_tracked_as_a_per_user_daemon_that_claims_no_alias() {
    let bin = "opt/dig/bin";
    let cat = Catalog::alpha_defaults_in(bin, &platform());
    let dig_app = cat
        .target(DIG_APP_COMPONENT_NAME)
        .expect("dig-app is a tracked component");

    assert_eq!(dig_app.method, InstallMethod::RawBinary);
    assert_eq!(dig_app.dest, join(bin, "dig-app"));
    assert_eq!(dig_app.service_id(), None);
    assert!(dig_app.aliases.is_empty());
    assert!(cat
        .target("dig-node")
        .unwrap()
        .aliases
        .contains(&join(bin, "dign")));
}

#[test]
fn every_component_the_beacon_may_execute_is_named_here_explicitly() {
    const MAY_BE_EXECUTED: [&str; 4] = [
        "dig-node",
        "digstore",
        "dig-dns",
        BEACON_COMPONENT_NAME,
    ];
    let cat = Catalog::alpha_defaults_in("/opt/dig/bin", &platform());

    let mut seen = 0;
    for target in cat.targets() {
        seen += 1;
        let may_execute = MAY_BE_EXECUTED.contains(&target.name.as_str());
        assert_eq!(
            target.evidence.requires_execution(), may_execute,
            "{} is declared {:?}; a component the beacon may execute at machine privilege must be named in MAY_BE_EXECUTED with a reason, and everything else must be established without running it",
            target.name, target.evidence
        );
    }
    assert_eq!(
        seen,
        MAY_BE_EXECUTED.len() + 1,
        "the catalog should hold the executable set plus dig-app; if that changed, the new component's evidence declaration needs reviewing here"
    );
    assert!(
        !MAY_BE_EXECUTED.contains(&DIG_APP_COMPONENT_NAME),
        "dig-app must never join the executable set: it boots its identity agent on any argument, \
         and the 3.3.0-or-older population that does so is real and unobservable"
    );
    assert_eq!(
        cat.target(DIG_APP_COMPONENT_NAME).unwrap().evidence,
        VersionEvidence::ArtifactDigest,
        "dig-app is kept current by MEASURING it against the signed manifest, never by running it"
    );
}

#[test]
fn a_digest_evidenced_component_is_planned_without_ever_being_executed() {
    let m = manifest_of(&[
        ("digstore", "0.15.0", 15_000),
        ("dig-app", "3.4.0", 3_004_000),
    ]);
    let plan = Plan::build(
        &m,
        &[
            staged("digstore", "/staging/digstore"),
            staged("dig-app", "/staging/dig-app"),
        ],
        &catalog_with_dig_app(),
        &platform(),
        &probe_that_may_only_run_digstore,
        &digest_reader(Some(FIXTURE_DIGEST)),
        &nothing_recorded(),
        &not_installed,
    )
    .unwrap();

    assert!(
        plan.held.is_empty(),
        "content-digest evidence needs no execution, so there is nothing to hold from: {:?}",
        plan.held
    );
    let dig_app = plan
        .components
        .iter()
        .find(|c| c.name == DIG_APP_COMPONENT_NAME)
        .expect("dig-app is PLANNED now, not held");
    assert_eq!(
        dig_app.action,
        UpdateAction::Skip,
        "the installed bytes hash to the manifest artifact's digest, so the current build IS \
         installed: {}",
        dig_app.summary
    );
    assert_eq!(
        dig_app.installed_build,
        Some(3_004_000),
        "a digest match ages the install on the same packed scale as every other component"
    );
    assert_eq!(
        dig_app.evidence,
        VersionEvidence::ArtifactDigest,
        "the evidence class must reach the applier, or its health gate would fall back to a probe"
    );

    let digstore = plan
        .components
        .iter()
        .find(|c| c.name == "digstore")
        .expect("the control component is still planned");
    assert_eq!(
        digstore.action,
        UpdateAction::Update,
        "the probe path must keep working: digstore is on 0.14.0 against a 0.15.0 manifest"
    );
}

#[test]
fn a_digest_mismatch_plans_an_update_and_leaves_the_install_unageable() {
    let m = manifest_of(&[("dig-app", "3.4.0", 3_004_000)]);
    let plan = Plan::build(
        &m,
        &[staged("dig-app", "/staging/dig-app")],
        &catalog_with_dig_app(),
        &platform(),
        &|path: &str| {
            panic!(
                "the planner executed {} to establish a version",
                path
            )
        },
        &digest_reader(Some("deadbeee")),
        &nothing_recorded(),
        &not_installed,
    )
    .unwrap();

    assert_eq!(plan.components[0].action, UpdateAction::Update);
    assert_eq!(
        plan.components[0].installed_build, None,
        "an unestablished build must be UN-AGEABLE, so a rollback declines rather than guesses"
    );
}

#[test]
fn a_digest_match_is_case_insensitive_across_the_manifests_hex_casing() {
    let m = manifest_one("dig-app", "3.4.0", 3_004_000, "DEADBEEF");
    let plan = Plan::build(
        &m,
        &[staged("dig-app", "/staging/dig-app")],
        &catalog_with_dig_app(),
        &platform(),
        &|path: &str| {
            panic!(
                "the planner executed {} to establish a version",
                path
            )
        },
        &digest_reader(Some("deadbeef")),
        &nothing_recorded(),
        &not_installed,
    )
    .unwrap();
    assert_eq!(plan.components[0].action, UpdateAction::Skip);
}

#[test]
fn an_absent_digest_evidenced_component_is_planned_install() {
    let m = manifest_of(&[("dig-app", "3.4.0", 3_004_000)]);
    let plan = Plan::build(
        &m,
        &[staged("dig-app", "/staging/dig-app")],
        &catalog_with_dig_app(),
        &platform(),
        &|path: &str| {
            panic!(
                "the planner executed {} to establish a version",
                path
            )
        },
        &digest_reader(None),
        &nothing_recorded(),
        &not_installed,
    )
    .unwrap();
    assert_eq!(plan.components[0].action, UpdateAction::Install);
    assert_eq!(plan.components[0].installed_build, None);
}

const DEFAULT_DIGEST: &str = "deadbeef";
const HEADLESS_DIGEST: &str = "feedface";

fn manifest_dig_app_two_variants() -> Manifest {
    let mut m = manifest_one("dig-app", "3.5.0", 3_005_000, DEFAULT_DIGEST);
    m.components[0].artifacts.push(Artifact {
        os: "linux".into(),
        arch: "x64".into(),
        url: "https://x/headless".into(),
        sha256: HEADLESS_DIGEST.into(),
        size: 1,
        variant: Some("headless".into()),
    });
    m
}

#[test]
fn a_multi_variant_component_plans_all_variants_default_first() {
    let m = manifest_dig_app_two_variants();
    let plan = Plan::build(
        &m,
        &[
            staged("dig-app", "/staging/dig-app"),
            staged_variant("dig-app", "headless", HEADLESS_DIGEST, "/staging/dig-app-headless"),
        ],
        &catalog_with_dig_app(),
        &platform(),
        &|path: &str| panic!("the planner executed {} for a version", path),
        &digest_reader(None),
        &nothing_recorded(),
        &not_installed,
    )
    .unwrap();

    let dig_app = &plan.components[0];
    assert_eq!(dig_app.variants.len(), 2, "both builds are planned");
    assert_eq!(dig_app.variants[0].variant, None, "the default is first");
    assert_eq!(dig_app.variants[0].expected_digest, DEFAULT_DIGEST);
    assert_eq!(dig_app.variants[0].staged_path, "/staging/dig-app");
    assert_eq!(dig_app.variants[1].variant.as_deref(), Some("headless"));
    assert_eq!(dig_app.variants[1].expected_digest, HEADLESS_DIGEST);
    assert_eq!(
        dig_app.variants[1].staged_path,
        "/staging/dig-app-headless"
    );
    assert_eq!(dig_app.action, UpdateAction::Install);
}

#[test]
fn a_host_running_the_headless_build_is_current_not_reinstalled_every_pass() {
    let m = manifest_dig_app_two_variants();
    let plan = Plan::build(
        &m,
        &[
            staged("dig-app", "/staging/dig-app"),
            staged_variant("dig-app", "headless", HEADLESS_DIGEST, "/staging/dig-app-headless"),
        ],
        &catalog_with_dig_app(),
        &platform(),
        &|path: &str| panic!("the planner executed {} for a version", path),
        &digest_reader(Some(HEADLESS_DIGEST)),
        &nothing_recorded(),
        &not_installed,
    )
    .unwrap();
    assert_eq!(
        plan.components[0].action,
        UpdateAction::Skip,
        "a host whose bytes hash to the headless variant is on the current build"
    );
    assert_eq!(
        plan.components[0].installed_build,
        Some(3_005_000),
        "and the install is aged on the same scale"
    );
}

#[test]
fn a_digest_evidenced_component_that_claims_aliases_is_held_fail_closed() {
    let m = manifest_of(&[("dig-app", "3.4.0", 3_004_000)]);
    let with_alias = Catalog::new(vec![ComponentTarget {
        name: DIG_APP_COMPONENT_NAME.into(),
        method: InstallMethod::RawBinary,
        dest: "/opt/dig/dig-app".into(),
        aliases: vec!["/opt/dig/dig-app-alias".into()],
        service: None,
        evidence: VersionEvidence::ArtifactDigest,
    }]);
    let plan = Plan::build(
        &m,
        &[staged("dig-app", "/staging/dig-app")],
        &with_alias,
        &platform(),
        &|path: &str| panic!("the planner executed {}", path),
        &digest_reader_that_must_not_be_consulted,
        &nothing_recorded(),
        &not_installed,
    )
    .expect("an unreconcilable declaration is a hold, not a failed plan");

    assert!(plan.components.is_empty());
    assert_eq!(plan.held.len(), 1);
    assert!(
        plan.held[0].reason.contains("alias"),
        "the hold must name the alias as its cause: {}",
        plan.held[0].reason
    );
}

#[test]
fn an_unsafe_to_probe_component_is_held_while_its_siblings_still_update() {
    let m = manifest_of(&[
        ("digstore", "0.15.0", 15_000),
        (FUTURE_UNKNOWN_COMPONENT, "1.0.0", 1_000_000),
    ]);
    let plan = Plan::build(
        &m,
        &[
            staged("digstore", "/staging/digstore"),
            staged(FUTURE_UNKNOWN_COMPONENT, "/staging/future"),
        ],
        &catalog_with_an_unevidenced_component(),
        &platform(),
        &probe_that_may_only_run_digstore,
        &digest_reader_that_must_not_be_consulted,
        &nothing_recorded(),
        &not_installed,
    )
    .unwrap();

    let names: Vec<&str> = plan.components.iter().map(|c| c.name.as_str()).collect();
    assert_eq!(
        names,
        vec!["digstore"],
        "a held component must never reach the plan the applier acts on"
    );
    assert_eq!(plan.components[0].action, UpdateAction::Update);

    let held = plan
        .held
        .iter()
        .find(|h| h.name == FUTURE_UNKNOWN_COMPONENT)
        .expect("an unevidenced component is reported as HELD, never silently omitted");
    assert!(
        held.reason.contains("--version"),
        "the hold must name its cause so a pass is never a vacuous success: {}",
        held.reason
    );
}

#[test]
fn an_unsafe_to_probe_component_is_never_executed_even_to_decide_the_hold() {
    let m = manifest_of(&[(FUTURE_UNKNOWN_COMPONENT, "1.0.0", 1_000_000)]);
    let plan = Plan::build(
        &m,
        &[staged(FUTURE_UNKNOWN_COMPONENT, "/staging/future")],
        &catalog_with_an_unevidenced_component(),
        &platform(),
        &|path: &str| panic!("the planner executed {} to decide a hold", path),
        &digest_reader_that_must_not_be_consulted,
        &nothing_recorded(),
        &not_installed,
    )
    .expect("holding a component never fails the plan");

    assert!(plan.components.is_empty());
    assert_eq!(plan.held.len(), 1);
    assert!(
        plan.held[0].reason.contains("did not run it"),
        "the reason must state that the binary was NOT executed: {}",
        plan.held[0].reason
    );
}

#[test]
fn the_evidence_class_drives_the_plan_by_declaration_not_by_component_name() {
    let m = manifest_of(&[("dig-app", "3.4.0", 3_004_000)]);
    let safe_dig_app = Catalog::new(vec![probeable("dig-app", "/opt/dig/dig-app")]);
    let plan = Plan::build(
        &m,
        &[staged("dig-app", "/staging/dig-app")],
        &safe_dig_app,
        &platform(),
        &|_: &str| DetectedVersion::Present("dig-app 3.3.0".into()),
        &digest_reader_that_must_not_be_consulted,
        &nothing_recorded(),
        &not_installed,
    )
    .unwrap();
    assert!(
        plan.held.is_empty(),
        "a safe-to-probe component is not held"
    );
    assert_eq!(plan.components[0].action, UpdateAction::Update);
    assert_eq!(
        plan.components[0].installed_build,
        Some(3_003_000),
        "and it is aged on the same packed scale as every other component"
    );
}

#[test]
fn a_version_line_with_trailing_detail_is_still_aged_correctly() {
    let detailed = DetectedVersion::Present("dig-app 3.4.0 (build abc123)".into());
    assert_eq!(installed_build(&detailed), Some(3_004_000));
    assert_eq!(
        installed_build(&DetectedVersion::Present("digstore 0.15.0".into())),
        Some(15_000),
        "the conventional two-token line is unchanged"
    );
    assert_eq!(
        installed_build(&DetectedVersion::Present("0.15.0".into())),
        Some(15_000),
        "a bare version is unchanged"
    );
    assert_eq!(
        installed_build(&DetectedVersion::Present("no version here at all".into())),
        None,
        "and a line with no version in it is still un-ageable"
    );
}

#[test]
fn an_unreadable_version_still_reinstalls_a_safe_to_probe_component() {
    let m = manifest_of(&[("digstore", "0.15.0", 15_000)]);
    let plan = Plan::build(
        &m,
        &[staged("digstore", "/staging/digstore")],
        &catalog_with_dig_app(),
        &platform(),
        &|_: &str| DetectedVersion::Present(String::new()),
        &digest_reader(Some(FIXTURE_DIGEST)),
        &nothing_recorded(),
        &not_installed,
    )
    .unwrap();
    assert!(plan.held.is_empty());
    assert_eq!(plan.components[0].action, UpdateAction::Update);
}

#[test]
fn a_held_component_does_not_need_a_staged_artifact() {
    let m = manifest_of(&[(FUTURE_UNKNOWN_COMPONENT, "1.0.0", 1_000_000)]);
    let plan = Plan::build(
        &m,
        &[],
        &catalog_with_an_unevidenced_component(),
        &platform(),
        &|_: &str| panic!("a held component is neither probed nor staged"),
        &digest_reader_that_must_not_be_consulted,
        &nothing_recorded(),
        &not_installed,
    )
    .expect("a held component with no staged bytes is not a structurally incomplete plan");
    assert_eq!(plan.held.len(), 1);
}

#[test]
fn pack_build_matches_the_feed_signer_encoding() {
    assert_eq!(pack_build("0.29.0"), Some(29_000));
    assert_eq!(pack_build("0.13.1"), Some(13_001));
    assert_eq!(pack_build("1.0.0"), Some(1_000_000));
    assert_eq!(pack_build("v0.15.0"), Some(15_000));
    assert_eq!(pack_build("garbage"), None);
    assert_eq!(pack_build("1.2"), None);
    assert_eq!(pack_build("1.1000.0"), None);
}

#[test]
fn pack_build_of_a_nightly_version_is_its_utc_date_not_the_semver_core() {
    assert_eq!(
        pack_build("0.9.0-nightly.20260714.abc1234"),
        Some(20_260_714)
    );
    assert_eq!(
        pack_build("0.31.1-nightly.20251231.deadbeef"),
        Some(20_251_231)
    );
    assert_eq!(pack_build("1.2.3-nightly.20260101.f00"), Some(20_260_101));
}

#[test]
fn pack_build_of_a_nightly_version_with_a_bad_date_is_unageable() {
    assert_eq!(pack_build("0.9.0-nightly.2026071.abc"), None); // 7-digit date
    assert_eq!(pack_build("0.9.0-nightly.notadate.abc"), None);
    assert_eq!(pack_build("0.9.0-nightly."), None); // empty date
}

#[test]
fn pack_build_still_ignores_ordinary_non_nightly_prerelease_metadata() {
    assert_eq!(pack_build("0.15.0-rc.1"), Some(15_000));
    assert_eq!(pack_build("0.15.0+build.7"), Some(15_000));
}

#[test]
fn absent_component_is_planned_install() {
    let m = manifest_one("digstore", "0.15.0", 15_000, "deadbeef");
    let plan = Plan::build(
        &m,
        &[staged("digstore", "/staging/digstore")],
        &catalog(),
        &platform(),
        &|_: &str| DetectedVersion::Absent,
        &digest_reader_that_must_not_be_consulted,
        &nothing_recorded(),
        &not_installed,
    )
    .unwrap();
    assert_eq!(plan.components.len(), 1);
    assert_eq!(plan.components[0].action, UpdateAction::Install);
    assert_eq!(plan.components[0].primary().expected_digest, "deadbeef");
    assert_eq!(plan.components[0].variants.len(), 1);
    assert_eq!(plan.components[0].installed_build, None);
    assert_eq!(plan.actionable().len(), 1);
}

#[test]
fn current_component_is_planned_skip() {
    let m = manifest_one("digstore", "0.15.0", 15_000, "deadbeef");
    let plan = Plan::build(
        &m,
        &[staged("digstore", "/staging/digstore")],
        &catalog(),
        &platform(),
        &|_: &str| DetectedVersion::Present("digstore 0.15.0".into()),
        &digest_reader_that_must_not_be_consulted,
        &nothing_recorded(),
        &not_installed,
    )
    .unwrap();
    assert_eq!(plan.components[0].action, UpdateAction::Skip);
    assert_eq!(plan.components[0].installed_build, Some(15_000));
    assert_eq!(plan.actionable().len(), 0);
}

#[test]
fn older_component_is_planned_update() {
    let m = manifest_one("digstore", "0.15.0", 15_000, "deadbeef");
    let plan = Plan::build(
        &m,
        &[staged("digstore", "/staging/digstore")],
        &catalog(),
        &platform(),
        &|_: &str| DetectedVersion::Present("digstore 0.14.0".into()),
        &digest_reader_that_must_not_be_consulted,
        &nothing_recorded(),
        &not_installed,
    )
    .unwrap();
    assert_eq!(plan.components[0].action, UpdateAction::Update);
    assert_eq!(plan.components[0].installed_build, Some(14_000));
}

#[test]
fn a_stale_alias_redrives_a_current_primary_as_an_update_666f3() {
    let m = manifest_one("digstore", "0.15.0", 15_000, "deadbeef");
    let plan = Plan::build(
        &m,
        &[staged("digstore", "/staging/digstore")],
        &catalog(),
        &platform(),
        &|p: &str| {
            if p.ends_with("/digs") {
                DetectedVersion::Present("digstore 0.14.0".into()) // stale alias
            } else {
                DetectedVersion::Present("digstore 0.15.0".into()) // current primary
            }
        },
        &digest_reader_that_must_not_be_consulted,
        &nothing_recorded(),
        &not_installed,
    )
    .unwrap();
    assert_eq!(plan.components[0].action, UpdateAction::Update);
    assert_eq!(plan.actionable().len(), 1);
}

#[test]
fn a_current_primary_and_current_alias_still_skips() {
    let m = manifest_one("digstore", "0.15.0", 15_000, "deadbeef");
    let plan = Plan::build(
        &m,
        &[staged("digstore", "/staging/digstore")],
        &catalog(),
        &platform(),
        &|_: &str| DetectedVersion::Present("digstore 0.15.0".into()),
        &digest_reader_that_must_not_be_consulted,
        &nothing_recorded(),
        &not_installed,
    )
    .unwrap();
    assert_eq!(plan.components[0].action, UpdateAction::Skip);
}

#[test]
fn untracked_component_is_skipped_entirely() {
    let m = manifest_one("some-future-tool", "1.0.0", 1_000_000, "deadbeef");
    let plan = Plan::build(
        &m,
        &[],
        &catalog(),
        &platform(),
        &|_: &str| DetectedVersion::Absent,
        &digest_reader_that_must_not_be_consulted,
        &nothing_recorded(),
        &not_installed,
    )
    .unwrap();
    assert!(
        plan.components.is_empty(),
        "untracked components are not planned"
    );
}

#[test]
fn missing_staged_artifact_is_an_error() {
    let m = manifest_one("digstore", "0.15.0", 15_000, "deadbeef");
    let err = Plan::build(
        &m,
        &[],
        &catalog(),
        &platform(),
        &|_: &str| DetectedVersion::Absent,
        &digest_reader_that_must_not_be_consulted,
        &nothing_recorded(),
        &not_installed,
    )
    .expect_err("a manifest artifact with no staged file is incomplete");
    assert!(matches!(err, BrokerError::StagedArtifactMissing { .. }));
}

#[test]
fn resolve_install_root_uses_the_exe_parent() {
    let bin = "Programs/DigStore/bin";
    let exe = join(bin, "dig-updater.exe");
    assert_eq!(resolve_install_root(Some(exe), &platform(), None), bin);
}

#[test]
fn resolve_install_root_falls_back_to_the_per_os_default_when_exe_is_unresolvable() {
    let windows = Platform {
        os: "windows".into(),
        arch: "x64".into(),
    };
    assert!(resolve_install_root(None, &windows, None).ends_with("DIG"));

    let linux = Platform {
        os: "linux".into(),
        arch: "x64".into(),
    };
    assert_eq!(
        resolve_install_root(None, &linux, None),
        "/usr/local/bin"
    );
}

#[test]
fn alpha_defaults_in_installs_every_component_as_a_sibling_of_the_bin_dir() {
    let bin = "/opt/digstore/bin";
    let cat = Catalog::alpha_defaults_in(bin, &platform()); // linux platform
    assert_eq!(
        cat.target("dig-node").unwrap().dest,
        "/opt/digstore/bin/dig-node"
    );
    assert_eq!(
        cat.target("digstore").unwrap().dest,
        "/opt/digstore/bin/digstore"
    );
    assert_eq!(
        cat.target("dig-updater").unwrap().dest,
        "/opt/digstore/bin/dig-updater"
    );
}

#[test]
fn alpha_defaults_in_adds_the_exe_suffix_on_windows() {
    let bin = "apps/DigStore/bin";
    let windows = Platform {
        os: "windows".into(),
        arch: "x64".into(),
    };
    let cat = Catalog::alpha_defaults_in(bin, &windows);
    assert_eq!(
        cat.target("digstore").unwrap().dest,
        join(bin, "digstore.exe")
    );
    assert_eq!(
        cat.target("dig-node").unwrap().method,
        InstallMethod::WindowsMsi
    );
    assert_eq!(
        cat.target("dig-node").unwrap().dest,
        join(bin, "dig-node.exe")
    );
}

#[test]
fn alpha_defaults_installs_beside_the_running_beacon_not_a_hardcoded_dir() {
    let exe_dir = "/opt/dig-portable/bin";
    let exe = join(exe_dir, "dig-updater");
    let cat = Catalog::alpha_defaults(&platform(), Some(exe), None);
    for name in ["dig-node", "digstore", "dig-dns", "dig-updater"] {
        let dest = &cat.target(name).unwrap().dest;
        assert!(
            is_within(dest, exe_dir),
            "{name} must install beside the beacon at {exe_dir}, got {dest}"
        );
    }
}

#[test]
fn each_aliased_component_enumerates_its_alias_as_a_dest_sibling() {
    let bin = "/opt/dig/bin";
    let cat = Catalog::alpha_defaults_in(bin, &platform());
    for (component, alias) in [
        ("digstore", "digs"),
        ("dig-dns", "digd"),
        ("dig-node", "dign"),
    ] {
        let target = cat.target(component).unwrap();
        let binaries: Vec<&str> = target.binaries();
        assert!(
            binaries.contains(&join(bin, alias).as_str()),
            "{component} must enumerate its `{alias}` alias in its binary set"
        );
        assert_eq!(binaries[0], target.dest, "the primary binary comes first");
    }
    assert!(cat
        .target(BEACON_COMPONENT_NAME)
        .unwrap()
        .aliases
        .is_empty());
}

#[test]
fn only_dig_node_declares_a_managed_service() {
    let cat = Catalog::alpha_defaults(&platform(), None, None);
    assert_eq!(
        cat.target("dig-node").unwrap().service_id(),
        Some("net.dignetwork.dig-node")
    );
    for component in ["digstore", "dig-dns", BEACON_COMPONENT_NAME] {
        assert_eq!(cat.target(component).unwrap().service_id(), None);
    }
}

#[test]
fn alpha_defaults_cover_the_tracked_set() {
    let cat = Catalog::alpha_defaults(&platform(), None, None);
    assert!(cat.target("dig-node").is_some());
    assert!(cat.target("digstore").is_some());
    assert!(cat.target("dig-dns").is_some());
    assert!(cat.target("dig-updater").is_some());
    assert_eq!(
        cat.target("dig-node").unwrap().method,
        InstallMethod::LinuxDeb
    );
    assert_eq!(
        cat.target("digstore").unwrap().method,
        InstallMethod::RawBinary
    );
}

#[test]
fn guard_forces_skip_when_the_recorded_build_exceeds_the_manifest_build() {
    let (action, summary) = guard_newer_installed(
        UpdateAction::Update,
        "v3.4.0 (update)".to_string(),
        Some(3_005_000),
        3_004_000,
    );
    assert_eq!(action, UpdateAction::Skip);
    assert!(
        summary.contains("3005000") && summary.contains("3004000"),
        "the summary must state BOTH builds so the skip is auditable: {summary}"
    );
}

#[test]
fn guard_leaves_an_equal_or_lower_recorded_build_alone() {
    for recorded in [3_004_000u64, 3_003_000, 0] {
        let (action, summary) = guard_newer_installed(
            UpdateAction::Update,
            "v3.4.0 (update)".to_string(),
            Some(recorded),
            3_004_000,
        );
        assert_eq!(
            action,
            UpdateAction::Update,
            "recorded {recorded} is not newer than 3004000, so the update stands"
        );
        assert_eq!(summary, "v3.4.0 (update)", "and its summary is untouched");
    }
}

#[test]
fn guard_never_turns_a_skip_into_an_update() {
    for action in [
        UpdateAction::Skip,
        UpdateAction::Install,
        UpdateAction::Update,
    ] {
        for recorded in [None, Some(0u64), Some(3_004_000), Some(u64::MAX)] {
            let (out, _) = guard_newer_installed(action, "s".to_string(), recorded, 3_004_000);
            let legal =
                out == action || (action == UpdateAction::Update && out == UpdateAction::Skip);
            assert!(
                legal,
                "{action:?} with recorded {recorded:?} became {out:?} — the only legal \
                 transition is Update -> Skip"
            );
        }
    }
}

#[test]
fn the_recorded_build_is_never_consulted_to_permit_an_install() {
    for action in [UpdateAction::Install, UpdateAction::Skip] {
        let (out, summary) =
            guard_newer_installed(action, "verbatim".to_string(), Some(u64::MAX), 3_004_000);
        assert_eq!(out, action);
        assert_eq!(summary, "verbatim");
    }
}

#[test]
fn a_digest_evidenced_component_recorded_newer_than_the_feed_is_planned_skip() {
    let m = manifest_of(&[
        ("digstore", "0.15.0", 15_000),
        ("dig-app", "3.4.0", 3_004_000),
    ]);
    let plan = Plan::build(
        &m,
        &[
            staged("digstore", "/staging/digstore"),
            staged("dig-app", "/staging/dig-app"),
        ],
        &catalog_with_dig_app(),
        &platform(),
        &probe_that_may_only_run_digstore,
        &digest_reader(Some("00000000")),
        &InstalledBuilds::from_pairs(vec![("dig-app".to_string(), 3_005_000u64)]),
        &not_installed,
    )
    .unwrap();

    let dig_app = plan
        .components
        .iter()
        .find(|c| c.name == DIG_APP_COMPONENT_NAME)
        .expect("dig-app is planned, not held");
    assert_eq!(
        dig_app.action,
        UpdateAction::Skip,
        "the host is AHEAD of the feed; installing would be a downgrade: {}",
        dig_app.summary
    );
    let digstore = plan
        .components
        .iter()
        .find(|c| c.name == "digstore")
        .expect("the control component is still planned");
    assert_eq!(
        digstore.action,
        UpdateAction::Update,
        "the control must still update — the guard is per-component, not a global brake"
    );
}

#[test]
fn an_absent_record_plans_a_digest_evidenced_component_exactly_as_before() {
    let m = manifest_of(&[("dig-app", "3.4.0", 3_004_000)]);
    let plan = Plan::build(
        &m,
        &[staged("dig-app", "/staging/dig-app")],
        &catalog_with_dig_app(),
        &platform(),
        &probe_that_may_only_run_digstore,
        &digest_reader(Some("00000000")),
        &nothing_recorded(),
        &not_installed,
    )
    .unwrap();
    assert_eq!(plan.components[0].action, UpdateAction::Update);
}

#[test]
fn a_build_number_that_does_not_fit_is_unageable() {
    assert_eq!(pack_build("18446744073709.551.615"), Some(u64::MAX));
    assert_eq!(pack_build("18446744073709.551.616"), None);
    assert_eq!(pack_build("18446744073710.0.0"), None);
}

#[test]
fn a_packed_build_orders_as_the_version_does() {
    let versions = ["0.9.9", "0.10.0", "0.10.1", "1.0.0", "1.0.999", "1.1.0"];
    let builds: Vec<u64> = versions
        .iter()
        .map(|v| pack_build(v).expect("a plain version"))
        .collect();
    assert!(builds.windows(2).all(|w| w[0] < w[1]), "{builds:?}");
}

#[test]
fn a_digest_says_current_other_or_nothing() {
    let expected = vec!["deadbeef".to_string(), "FEEDFACE".to_string()];
    assert_eq!(
        digest_evidence(&Some("feedface".to_string()), &expected, "3.5.0"),
        DetectedVersion::Present("3.5.0".to_string())
    );
    assert_eq!(
        digest_evidence(&Some("00000000".to_string()), &expected, "3.5.0"),
        DetectedVersion::Present(String::new())
    );
    assert_eq!(
        digest_evidence(&None, &expected, "3.5.0"),
        DetectedVersion::Absent
    );
}

#[test]
fn no_two_default_components_own_the_same_file() {
    for os in ["linux", "macos", "windows"] {
        let platform = Platform {
            os: os.into(),
            arch: "x64".into(),
        };
        let cat = Catalog::alpha_defaults_in("/opt/dig/bin", &platform);
        let mut owned: Vec<String> = Vec::new();
        for target in cat.targets() {
            for path in target.binaries() {
                assert!(!owned.contains(&path.to_string()), "{path} has two owners");
                owned.push(path.to_string());
            }
        }
    }
}

#[test]
fn an_error_names_the_component_and_the_platform() {
    let m = manifest_one("digstore", "0.15.0", 15_000, "deadbeef");
    let err = Plan::build(
        &m,
        &[],
        &catalog(),
        &platform(),
        &|_: &str| DetectedVersion::Absent,
        &digest_reader_that_must_not_be_consulted,
        &nothing_recorded(),
        &not_installed,
    )
    .expect_err("nothing was staged");
    assert_eq!(
        err.message(),
        "no staged artifact for digstore on linux/x64"
    );
}

#[test]
fn a_plan_with_records_is_the_plan_without_them_braked() {
    let digested = |name: &str, dest: &str| ComponentTarget {
        evidence: VersionEvidence::ArtifactDigest,
        ..probeable(name, dest)
    };
    let catalog = Catalog::new(vec![
        digested("ahead", "/opt/dig/ahead"),
        digested("even", "/opt/dig/even"),
        digested("absent", "/opt/dig/absent"),
        probeable("probed", "/opt/dig/probed"),
        ComponentTarget {
            evidence: VersionEvidence::UnsafeToProbe,
            ..probeable("held", "/opt/dig/held")
        },
    ]);
    let names = ["ahead", "even", "absent", "probed", "held"];
    let manifest = manifest_of(&names.map(|name| (name, "0.15.0", 15_000)));
    let artifacts: Vec<StagedArtifact> = names
        .iter()
        .map(|name| staged(name, &format!("/staging/{name}")))
        .collect();
    let build = |recorded: &InstalledBuilds, artifacts: &[StagedArtifact]| {
        Plan::build(
            &manifest,
            artifacts,
            &catalog,
            &platform(),
            &|_: &str| DetectedVersion::Present("probed 0.14.0".to_string()),
            &|path: &str| {
                if path == "/opt/dig/absent" {
                    None
                } else {
                    Some("feedface".to_string())
                }
            },
            recorded,
            &not_installed,
        )
    };
    let recorded = InstalledBuilds::from_pairs(vec![
        ("ahead".to_string(), 16_000),
        ("even".to_string(), 15_000),
        ("absent".to_string(), 16_000),
        ("probed".to_string(), 16_000),
        ("held".to_string(), 16_000),
    ]);
    let bare = build(&nothing_recorded(), &artifacts).expect("plans");
    let mut braked = build(&recorded, &artifacts).expect("plans");
    assert_eq!(braked.held, bare.held);
    assert_eq!(bare.components[0].action, UpdateAction::Update);
    assert_eq!(braked.components[0].action, UpdateAction::Skip);
    assert_eq!(
        braked.components[0].summary,
        "installed build 16000 is newer than the feed's 15000 — nothing to do"
    );
    braked.components[0].action = bare.components[0].action;
    braked.components[0].summary = bare.components[0].summary.clone();
    assert_eq!(braked.components, bare.components);
    let missing = build(&nothing_recorded(), &artifacts[..2]).expect_err("not all is staged");
    assert_eq!(
        build(&recorded, &artifacts[..2]).expect_err("not all is staged"),
        missing
    );
}
