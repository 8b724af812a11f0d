//! Following a channel change with the force-installed extension.

use std::cell::{Cell, RefCell};

use dig_updater_broker::config::Channel;
use dig_updater_broker::ext_forcelist::{
    follow_channel_change, stage_reinstall, ExtFollow, ForcelistCommander, InstalledDigInstaller,
    InstallerRun, POLICY_REFRESH_WAIT,
};
use dig_updater_broker::path::file_name;
use dig_updater_broker::paths::installer_file_name;

/// Records the verbs in the order in which they are run.
#[derive(Default)]
struct RecordingCommander {
    calls: RefCell<Vec<String>>,
    remove_fails: bool,
    add_fails: bool,
}

impl ForcelistCommander for RecordingCommander {
    fn remove(&self) -> Result<(), String> {
        self.calls.borrow_mut().push("remove".to_string());
        if self.remove_fails {
            Err("boom".to_string())
        } else {
            Ok(())
        }
    }

    fn add(&self, channel: Channel) -> Result<(), String> {
        self.calls
            .borrow_mut()
            .push(format!("add:{}", channel.as_str()));
        if self.add_fails {
            Err("boom".to_string())
        } else {
            Ok(())
        }
    }

    fn refresh_policy(&self) {
        self.calls.borrow_mut().push("refresh".to_string());
    }
}

#[test]
fn an_unchanged_channel_performs_no_policy_writes() {
    let commander = RecordingCommander::default();
    let waited = Cell::new(false);
    let outcome = follow_channel_change(Channel::Stable, Channel::Stable, &commander, || {
        waited.set(true);
    });
    assert_eq!(outcome, ExtFollow::Unchanged);
    assert!(
        commander.calls.borrow().is_empty(),
        "a no-op channel-set must not touch any browser's forcelist"
    );
    assert!(
        !waited.get(),
        "a no-op must not block on the policy-refresh wait"
    );
}

#[test]
fn a_channel_change_stages_remove_then_wait_then_readd_at_the_target() {
    let commander = RecordingCommander::default();
    let waited = Cell::new(false);
    let outcome = follow_channel_change(Channel::Nightly, Channel::Stable, &commander, || {
        assert_eq!(
            *commander.calls.borrow(),
            vec!["remove".to_string(), "refresh".to_string()]
        );
        waited.set(true)
    });

    assert_eq!(outcome, ExtFollow::Reinstalled(Channel::Stable));
    assert!(
        waited.get(),
        "the policy-refresh wait must run between remove and re-add"
    );
    assert_eq!(
        *commander.calls.borrow(),
        vec![
            "remove".to_string(),
            "refresh".to_string(),
            "add:stable".to_string()
        ]
    );
}

#[test]
fn the_readd_targets_the_new_channels_update_url_for_both_directions() {
    let commander = RecordingCommander::default();
    let outcome = follow_channel_change(Channel::Stable, Channel::Nightly, &commander, || {});
    assert_eq!(outcome, ExtFollow::Reinstalled(Channel::Nightly));
    assert_eq!(
        commander.calls.borrow().last().map(String::as_str),
        Some("add:nightly"),
        "switching to nightly must re-add pointing at the nightly channel"
    );
}

#[test]
fn a_remove_failure_aborts_before_any_wait_or_readd() {
    let commander = RecordingCommander {
        remove_fails: true,
        ..Default::default()
    };
    let waited = Cell::new(false);
    let outcome = follow_channel_change(Channel::Nightly, Channel::Stable, &commander, || {
        waited.set(true)
    });

    assert_eq!(
        outcome,
        ExtFollow::Failed("forcelist remove failed: boom".to_string())
    );
    assert!(!waited.get(), "a failed remove must not wait");
    assert_eq!(
        *commander.calls.borrow(),
        vec!["remove".to_string()],
        "a failed remove must never proceed to re-add (leaving the wrong build force-installed)"
    );
}

#[test]
fn a_readd_failure_is_reported_after_the_remove_and_wait() {
    let commander = RecordingCommander {
        add_fails: true,
        ..Default::default()
    };
    let outcome = follow_channel_change(Channel::Stable, Channel::Nightly, &commander, || {});
    match outcome {
        ExtFollow::Failed(detail) => {
            assert!(detail.contains("re-add"));
            assert_eq!(detail, "forcelist re-add (nightly) failed: boom");
        }
        other => panic!("expected a re-add failure, got {other:?}"),
    }
}

#[test]
fn the_stages_run_in_order() {
    let steps = RefCell::new(Vec::new());
    let outcome = stage_reinstall(
        Channel::Alpha,
        || {
            steps.borrow_mut().push("remove");
            Ok(())
        },
        || steps.borrow_mut().push("wait"),
        |_: Channel| {
            steps.borrow_mut().push("add");
            Ok(())
        },
    );
    assert_eq!(outcome, ExtFollow::Reinstalled(Channel::Alpha));
    assert_eq!(*steps.borrow(), vec!["remove", "wait", "add"]);
    assert_eq!(POLICY_REFRESH_WAIT, 15);
}

#[test]
fn resolve_names_the_sibling_installer_binary() {
    for windows in [false, true] {
        let installer = InstalledDigInstaller::resolve("/opt/dig/bin/dig-updater", windows)
            .expect("resolves alongside the running executable");
        assert_eq!(
            file_name(installer.path()),
            Some(installer_file_name(windows))
        );
    }
    assert!(InstalledDigInstaller::resolve("/", false).is_err());
}

#[test]
fn the_verbs_report_a_missing_installer_rather_than_shelling_a_bare_name() {
    let commander = InstalledDigInstaller::at("/nonexistent/dig-installer-nope".to_string());
    let absent = |path: &str, _: &Vec<String>| {
        assert_eq!(path, "/nonexistent/dig-installer-nope");
        InstallerRun::Missing
    };
    for result in [
        commander.remove_with(absent),
        commander.add_with(Channel::Stable, absent),
    ] {
        let detail = result.expect_err("a missing installer must be an error");
        assert!(
            detail.contains("not found"),
            "expected a not-found detail, got {detail:?}"
        );
    }
}

#[test]
fn the_verbs_pass_their_arguments_and_report_how_the_installer_ended() {
    let installer = InstalledDigInstaller::at("/opt/dig/bin/dig-installer".to_string());
    installer
        .remove_with(|_: &str, args: &Vec<String>| {
            assert_eq!(*args, vec!["--uninstall-ext-forcelist".to_string()]);
            InstallerRun::Succeeded
        })
        .expect("a success");
    let failed = installer.add_with(Channel::Nightly, |_: &str, args: &Vec<String>| {
        assert_eq!(
            *args,
            vec![
                "--set-ext-forcelist-channel".to_string(),
                "nightly".to_string()
            ]
        );
        InstallerRun::Exited("exit status: 2".to_string())
    });
    assert_eq!(
        failed,
        Err(
            "/opt/dig/bin/dig-installer --set-ext-forcelist-channel nightly exited with exit status: 2"
                .to_string()
        )
    );
    assert_eq!(
        installer.remove_with(|_: &str, _: &Vec<String>| InstallerRun::NotRun(
            "permission denied".to_string()
        )),
        Err("could not run /opt/dig/bin/dig-installer: permission denied".to_string())
    );
}
