//! Keeping the force-installed browser extension on the tracked channel.
//!
//! A browser on a nightly build sits at a higher version than any stable build and will not
//! downgrade by itself. Crossing that boundary takes a clean reinstall, staged across a policy
//! refresh: remove the entry, wait for the browsers to observe the removal, and only then add it
//! again pointing at the target channel.

use vstd::prelude::*;

use crate::config::{channel_token, Channel};
use crate::error::BrokerError;
use crate::paths::{program_name, sibling_installer_binary, sibling_ok};
use crate::text::{cat2, cat4, cat5, views};

verus! {

/// How many seconds to wait between removing the entry and adding it again.
pub const POLICY_REFRESH_WAIT: u64 = 15;

/// The installer's two elevation-gated verbs on the browsers' managed policy.
///
/// Each verb has its turn: the `may_` functions say when it may be run. [`follow_channel_change`]
/// takes a turn only once the step before it is done.
pub trait ForcelistCommander {
    /// Whether the entry may be removed.
    open spec fn may_remove(&self) -> bool {
        true
    }

    /// Whether the system may be nudged.
    open spec fn may_refresh(&self) -> bool {
        true
    }

    /// Whether the entry may be added again, pointing at `channel`.
    open spec fn may_add(&self, channel: Channel) -> bool {
        true
    }

    /// Remove only this extension's entry from every detected browser.
    ///
    /// # Errors
    ///
    /// A description, if the installer could not be run or failed.
    fn remove(&self) -> (r: Result<(), String>)
        requires
            self.may_remove(),
    ;

    /// Add the entry again across every detected browser, pointing at `channel`.
    ///
    /// # Errors
    ///
    /// A description, if the installer could not be run or failed.
    fn add(&self, channel: Channel) -> (r: Result<(), String>)
        requires
            self.may_add(channel),
    ;

    /// Nudge the system to re-evaluate managed policy. Best effort.
    fn refresh_policy(&self)
        requires
            self.may_refresh(),
    {
    }
}

/// Whether the entry was removed.
pub open spec fn was_removed<C: ForcelistCommander>(commander: &C) -> bool {
    exists|r: Result<(), String>| #[trigger] call_ensures(C::remove, (commander,), r) && r is Ok
}

/// Whether the entry was removed and the system then nudged.
pub open spec fn was_refreshed<C: ForcelistCommander>(commander: &C) -> bool {
    was_removed(commander) && call_ensures(C::refresh_policy, (commander,), ())
}

/// The outcome of following a channel change.
#[derive(Debug, Clone, PartialEq, Eq)]
pub enum ExtFollow {
    /// The channel did not change; nothing was written.
    Unchanged,
    /// The extension was reinstalled onto the target channel.
    Reinstalled(Channel),
    /// The staged reinstall failed; the detail names the failing step.
    Failed(String),
}

/// Whether `out` reports how the staged reinstall went.
pub open spec fn reinstall_ok(
    to: Channel,
    removed: Result<(), String>,
    added: Option<Result<(), String>>,
    out: ExtFollow,
) -> bool {
    match removed {
        Err(e) => added is None && (out matches ExtFollow::Failed(detail) && detail@
            == "forcelist remove failed: "@ + e@),
        Ok(_) => match added {
            None => false,
            Some(Err(e)) => out matches ExtFollow::Failed(detail) && detail@
                == "forcelist re-add ("@ + channel_token(to) + ") failed: "@ + e@,
            Some(Ok(_)) => out == ExtFollow::Reinstalled(to),
        },
    }
}

/// Stage a reinstall onto `to`: remove, wait, add.
///
/// The order is part of the contract: `wait` may be called only once `remove` has succeeded, and
/// `re_add` only once `wait` has returned.
pub fn stage_reinstall<
    R: FnOnce() -> Result<(), String>,
    W: FnOnce(),
    A: FnOnce(Channel) -> Result<(), String>,
>(to: Channel, remove: R, wait: W, re_add: A) -> (out: ExtFollow)
    requires
        remove.requires(()),
        forall|r: Result<(), String>| #[trigger]
            remove.ensures((), r) && r is Ok ==> wait.requires(()),
        forall|r: Result<(), String>| #[trigger]
            remove.ensures((), r) && r is Ok && wait.ensures((), ()) ==> re_add.requires((to,)),
    ensures
        exists|removed: Result<(), String>, added: Option<Result<(), String>>| #[trigger]
            reinstall_ok(to, removed, added, out) && remove.ensures((), removed)
                && (removed is Ok ==> wait.ensures((), ()) && added is Some && re_add.ensures(
                (to,),
                added->0,
            )),
{
    let removed: Result<(), String> = remove();
    if let Err(e) = &removed {
        let out = ExtFollow::Failed(cat2("forcelist remove failed: ", e.as_str()));
        assert(reinstall_ok(to, removed, None, out));
        return out;
    }
    wait();
    let added: Result<(), String> = re_add(to);
    let out: ExtFollow = match &added {
        Err(e) => ExtFollow::Failed(
            cat4("forcelist re-add (", to.as_str(), ") failed: ", e.as_str()),
        ),
        Ok(_) => ExtFollow::Reinstalled(to),
    };
    assert(reinstall_ok(to, removed, Some(added), out));
    out
}

/// Drive the force-installed extension to `to` when the tracked channel changes from `from`.
///
/// Nothing happens when the channel is the same. Otherwise the remove always precedes the wait and
/// the wait always precedes the re-add, so a browser can never keep the old, higher-versioned
/// build. The order is part of the contract: no verb may be run on an unchanged channel, the system
/// is nudged only once the entry is removed, the wait begins only after the nudge, and the entry is
/// added again only once the wait is over.
pub fn follow_channel_change<C: ForcelistCommander, F: FnOnce()>(
    from: Channel,
    to: Channel,
    commander: &C,
    await_policy_refresh: F,
) -> (out: ExtFollow)
    requires
        from != to ==> commander.may_remove(),
        from != to && was_removed(commander) ==> commander.may_refresh(),
        from != to && was_refreshed(commander) ==> await_policy_refresh.requires(()),
        from != to && was_refreshed(commander) && await_policy_refresh.ensures((), ())
            ==> commander.may_add(to),
    ensures
        from == to ==> out is Unchanged,
        from != to ==> exists|removed: Result<(), String>, added: Option<Result<(), String>>|
         #[trigger]
            reinstall_ok(to, removed, added, out) && call_ensures(
                C::remove,
                (commander,),
                removed,
            ) && (removed is Ok ==> was_refreshed(commander) && await_policy_refresh.ensures(
                (),
                (),
            ) && added is Some && call_ensures(C::add, (commander, to), added->0)),
{
    if from == to {
        return ExtFollow::Unchanged;
    }
    let remove = || -> (r: Result<(), String>)
        ensures
            call_ensures(C::remove, (commander,), r),
        { commander.remove() };
    let wait = || -> (u: ())
        requires
            was_removed(commander),
        ensures
            was_refreshed(commander),
            await_policy_refresh.ensures((), ()),
        {
            commander.refresh_policy();
            await_policy_refresh();
        };
    let re_add = |channel: Channel| -> (r: Result<(), String>)
        requires
            commander.may_add(channel),
        ensures
            call_ensures(C::add, (commander, channel), r),
        { commander.add(channel) };
    stage_reinstall(to, remove, wait, re_add)
}

/// The installer binary beside the running updater, by which the verbs are run.
#[derive(Debug, Clone, PartialEq, Eq)]
pub struct InstalledDigInstaller {
    installer: String,
}

impl InstalledDigInstaller {
    /// Where the installer is.
    pub closed spec fn installer_view(&self) -> Seq<char> {
        self.installer@
    }

    /// The installer beside the running executable: never a bare name looked up on the search path.
    ///
    /// # Errors
    ///
    /// [`BrokerError`] if the executable's path has no directory.
    pub fn resolve(exe: &str, windows: bool) -> (r: Result<Self, BrokerError>)
        ensures
            match r {
                Ok(i) => exists|path: String| #[trigger]
                    sibling_ok(exe@, program_name("dig-installer"@, windows), Ok(path)) && path@
                        == i.installer_view(),
                Err(e) => sibling_ok(exe@, program_name("dig-installer"@, windows), Err(e)),
            },
    {
        match sibling_installer_binary(exe, windows) {
            Ok(installer) => {
                assert(sibling_ok(
                    exe@,
                    program_name("dig-installer"@, windows),
                    Ok::<String, BrokerError>(installer),
                ));
                Ok(InstalledDigInstaller { installer })
            },
            Err(e) => Err(e),
        }
    }

    /// The installer at an explicit path.
    pub fn at(installer: String) -> (i: Self)
        ensures
            i.installer_view() == installer@,
    {
        InstalledDigInstaller { installer }
    }

    /// The installer's path.
    pub fn path(&self) -> (path: &str)
        ensures
            path@ == self.installer_view(),
    {
        self.installer.as_str()
    }

    /// How a run of the installer with `args` is reported.
    fn report(&self, args: &str, run: InstallerRun) -> (r: Result<(), String>)
        ensures
            reported(self.installer_view(), args@, run, r),
    {
        match run {
            InstallerRun::Missing => Err(
                cat2("dig-installer not found at ", self.installer.as_str()),
            ),
            InstallerRun::Succeeded => Ok(()),
            InstallerRun::Exited(status) => Err(
                cat5(self.installer.as_str(), " ", args, " exited with ", status.as_str()),
            ),
            InstallerRun::NotRun(e) => Err(
                cat4("could not run ", self.installer.as_str(), ": ", e.as_str()),
            ),
        }
    }

    /// Remove this extension's entry by running the installer, and only it.
    ///
    /// # Errors
    ///
    /// A description, if the installer is not there, could not be run, or failed.
    pub fn remove_with<R: FnOnce(&str, &Vec<String>) -> InstallerRun>(&self, run: R) -> (r: Result<
        (),
        String,
    >)
        requires
            forall|p: &str, args: &Vec<String>|
                p@ == self.installer_view() && views(args@) == remove_args()
                    ==> #[trigger] run.requires((p, args)),
        ensures
            verb_ran(run, self.installer_view(), remove_args(), "--uninstall-ext-forcelist"@, r),
    {
        let mut args: Vec<String> = Vec::new();
        args.push("--uninstall-ext-forcelist".to_owned());
        assert(views(args@) =~= remove_args());
        let ran: InstallerRun = run(self.installer.as_str(), &args);
        let ghost x = ran;
        assert(installer_ran(run, self.installer_view(), remove_args(), x));
        self.report("--uninstall-ext-forcelist", ran)
    }

    /// Add the entry again, pointing at `channel`, by running the installer, and only it.
    ///
    /// # Errors
    ///
    /// A description, if the installer is not there, could not be run, or failed.
    pub fn add_with<R: FnOnce(&str, &Vec<String>) -> InstallerRun>(
        &self,
        channel: Channel,
        run: R,
    ) -> (r: Result<(), String>)
        requires
            forall|p: &str, args: &Vec<String>|
                p@ == self.installer_view() && views(args@) == add_args(channel)
                    ==> #[trigger] run.requires((p, args)),
        ensures
            verb_ran(
                run,
                self.installer_view(),
                add_args(channel),
                "--set-ext-forcelist-channel "@ + channel_token(channel),
                r,
            ),
    {
        let mut args: Vec<String> = Vec::new();
        args.push("--set-ext-forcelist-channel".to_owned());
        args.push(channel.as_str().to_owned());
        assert(views(args@) =~= add_args(channel));
        let ran: InstallerRun = run(self.installer.as_str(), &args);
        let ghost x = ran;
        assert(installer_ran(run, self.installer_view(), add_args(channel), x));
        let shown: String = cat2("--set-ext-forcelist-channel ", channel.as_str());
        self.report(shown.as_str(), ran)
    }
}

/// The arguments that remove the entry.
pub open spec fn remove_args() -> Seq<Seq<char>> {
    seq!["--uninstall-ext-forcelist"@]
}

/// The arguments that add the entry for a channel.
pub open spec fn add_args(channel: Channel) -> Seq<Seq<char>> {
    seq!["--set-ext-forcelist-channel"@, channel_token(channel)]
}

/// Running the installer with these arguments came to `x`.
pub open spec fn installer_ran<R: FnOnce(&str, &Vec<String>) -> InstallerRun>(
    run: R,
    installer: Seq<char>,
    args: Seq<Seq<char>>,
    x: InstallerRun,
) -> bool {
    exists|p: &str, a: &Vec<String>|
        p@ == installer && views(a@) == args && #[trigger] run.ensures((p, a), x)
}

/// Whether `r` reports how a run of the installer ended.
pub open spec fn reported(
    installer: Seq<char>,
    args: Seq<char>,
    run: InstallerRun,
    r: Result<(), String>,
) -> bool {
    match run {
        InstallerRun::Missing => r matches Err(d) && d@ == "dig-installer not found at "@
            + installer,
        InstallerRun::Succeeded => r is Ok,
        InstallerRun::Exited(status) => r matches Err(d) && d@ == installer + " "@ + args
            + " exited with "@ + status@,
        InstallerRun::NotRun(e) => r matches Err(d) && d@ == "could not run "@ + installer + ": "@
            + e@,
    }
}

/// Whether the installer was run with these arguments and `r` reports how that ended.
pub open spec fn verb_ran<R: FnOnce(&str, &Vec<String>) -> InstallerRun>(
    run: R,
    installer: Seq<char>,
    args: Seq<Seq<char>>,
    shown: Seq<char>,
    r: Result<(), String>,
) -> bool {
    exists|x: InstallerRun| #[trigger]
        installer_ran(run, installer, args, x) && reported(installer, shown, x, r)
}

/// How a run of the installer ended.
#[derive(Debug, Clone, PartialEq, Eq)]
pub enum InstallerRun {
    /// There is no installer at the path.
    Missing,
    /// It ran and succeeded.
    Succeeded,
    /// It ran and failed, with this status.
    Exited(String),
    /// It could not be run.
    NotRun(String),
}

/// An extension is reported as reinstalled exactly where its entry was removed and then added again, and on
/// the channel that is followed; where a step failed, the report names what it said.
pub proof fn a_reinstall_needs_both_steps(
    to: Channel,
    removed: Result<(), String>,
    added: Option<Result<(), String>>,
    out: ExtFollow,
)
    requires
        reinstall_ok(to, removed, added, out),
    ensures
        out is Reinstalled <==> removed is Ok && added is Some && added->0 is Ok,
        out is Reinstalled ==> out->Reinstalled_0 == to,
        removed is Err ==> added is None,
        removed is Ok ==> added is Some,
        !(out is Unchanged),
        removed is Err ==> out is Failed && out->Failed_0@.len() >= removed->Err_0@.len()
            && out->Failed_0@.skip(out->Failed_0@.len() - removed->Err_0@.len())
            == removed->Err_0@,
{
    if removed is Err {
        let d = out->Failed_0@;
        let e = removed->Err_0@;
        assert(d.skip(d.len() - e.len()) =~= e);
    }
}

/// The installer is run to remove the entry, or to add it for the channel that is followed; and its run is
/// reported as a success exactly if it succeeded.
pub proof fn the_installer_is_told_the_channel(
    channel: Channel,
    installer: Seq<char>,
    args: Seq<char>,
    run: InstallerRun,
    r: Result<(), String>,
)
    requires
        reported(installer, args, run, r),
    ensures
        r is Ok <==> run is Succeeded,
        add_args(channel).len() == 2,
        add_args(channel)[0] == "--set-ext-forcelist-channel"@,
        add_args(channel)[1] == (match channel {
            Channel::Alpha => "alpha"@,
            Channel::Nightly => "nightly"@,
            Channel::Stable => "stable"@,
        }),
        remove_args() == seq!["--uninstall-ext-forcelist"@],
{
}

} // verus!
