//! Persisted configuration: the update channel and the pause state.

use vstd::prelude::*;

use crate::error::{BrokerError, ErrorView};
use crate::path::{join, joined, parent, parent_of};
use crate::text::cat2;

verus! {

/// The current on-disk shape of [`UpdaterConfig`].
pub const CONFIG_SCHEMA: u32 = 1;

/// The update channel that is tracked.
#[derive(Debug, Clone, Copy, PartialEq, Eq, Structural)]
pub enum Channel {
    /// The alpha channel.
    Alpha,
    /// The nightly channel, whose builds are numbered by date.
    Nightly,
    /// The stable channel, whose builds are numbered by version.
    Stable,
}

/// The wire and command-line token of a channel.
pub open spec fn channel_token(channel: Channel) -> Seq<char> {
    match channel {
        Channel::Alpha => "alpha"@,
        Channel::Nightly => "nightly"@,
        Channel::Stable => "stable"@,
    }
}

impl Default for Channel {
    fn default() -> (channel: Self)
        ensures
            channel == Channel::Alpha,
    {
        Channel::Alpha
    }
}

impl Channel {
    /// The wire and command-line token for this channel.
    #[must_use]
    pub fn as_str(self) -> (token: &'static str)
        ensures
            token@ == channel_token(self),
    {
        match self {
            Channel::Alpha => "alpha",
            Channel::Nightly => "nightly",
            Channel::Stable => "stable",
        }
    }
}

/// The persisted configuration that is consulted before a pass acts.
#[derive(Debug, Clone, PartialEq, Eq)]
pub struct UpdaterConfig {
    /// The on-disk schema version.
    pub schema: u32,
    /// The update channel that is tracked.
    pub channel: Channel,
    /// Whether auto-updates are paused.
    pub paused: bool,
    /// When paused, an optional unix-seconds expiry after which the pause lapses on its own.
    pub paused_until: Option<u64>,
}

impl Default for UpdaterConfig {
    /// The configuration of a fresh install, which has never paused or switched channel.
    fn default() -> (config: Self)
        ensures
            config == (UpdaterConfig {
                schema: CONFIG_SCHEMA,
                channel: Channel::Alpha,
                paused: false,
                paused_until: None,
            }),
    {
        UpdaterConfig {
            schema: CONFIG_SCHEMA,
            channel: Channel::Alpha,
            paused: false,
            paused_until: None,
        }
    }
}

/// Whether auto-update is paused at `now`: it was paused, and the pause has no expiry or has not
/// reached it.
pub open spec fn paused_at(config: UpdaterConfig, now: u64) -> bool {
    config.paused && match config.paused_until {
        Some(until) => now < until,
        None => true,
    }
}

impl UpdaterConfig {
    /// Is auto-update paused at `now`, in unix seconds?
    #[must_use]
    pub fn is_paused_at(&self, now: u64) -> (r: bool)
        ensures
            r == paused_at(*self, now),
    {
        self.paused && match self.paused_until {
            Some(until) => now < until,
            None => true,
        }
    }

    /// The configuration with auto-updates paused, until `until` if it is given.
    pub fn paused(self, until: Option<u64>) -> (config: Self)
        ensures
            config == (UpdaterConfig { paused: true, paused_until: until, ..self }),
    {
        UpdaterConfig { paused: true, paused_until: until, ..self }
    }

    /// The configuration with auto-updates in effect again.
    pub fn resumed(self) -> (config: Self)
        ensures
            config == (UpdaterConfig { paused: false, paused_until: None, ..self }),
    {
        UpdaterConfig { paused: false, paused_until: None, ..self }
    }

    /// The configuration tracking `channel`.
    pub fn tracking(self, channel: Channel) -> (config: Self)
        ensures
            config == (UpdaterConfig { channel, ..self }),
    {
        UpdaterConfig { channel, ..self }
    }
}

/// A timed pause holds before its expiry and lapses from it on, without a resume.
pub proof fn a_timed_pause_lapses(config: UpdaterConfig, until: u64, now: u64)
    ensures
        paused_at(
            UpdaterConfig { paused: true, paused_until: Some(until), ..config },
            now,
        ) <==> now < until,
{
}

/// A pause without an expiry holds at every time.
pub proof fn an_indefinite_pause_holds(config: UpdaterConfig, now: u64)
    ensures
        paused_at(UpdaterConfig { paused: true, paused_until: None, ..config }, now),
{
}

/// A configuration that is not paused gates nothing, whatever expiry it still carries.
pub proof fn not_paused_never_gates(config: UpdaterConfig, now: u64)
    requires
        !config.paused,
    ensures
        !paused_at(config, now),
{
}

/// What could be read of the config file.
#[derive(Debug, Clone, PartialEq, Eq)]
pub enum ConfigRead {
    /// There is no such file.
    Missing,
    /// It cannot be read.
    Unreadable(String),
    /// It is not a configuration.
    Malformed(String),
    /// The configuration.
    Config(UpdaterConfig),
}

/// Where the persisted [`UpdaterConfig`] lives under a state directory.
#[derive(Debug, Clone)]
pub struct ConfigStore {
    path: String,
}

impl ConfigStore {
    /// Where the config file is.
    pub closed spec fn path_view(&self) -> Seq<char> {
        self.path@
    }

    /// A store rooted at `state_dir`.
    #[must_use]
    pub fn at(state_dir: &str) -> (store: Self)
        ensures
            store.path_view() == joined(state_dir@, "config.json"@),
    {
        ConfigStore { path: join(state_dir, "config.json") }
    }

    /// The path of the config file.
    #[must_use]
    pub fn path(&self) -> (path: &str)
        ensures
            path@ == self.path_view(),
    {
        self.path.as_str()
    }

    /// The configuration, from what could be read of its file: a fresh install has none and gets
    /// the default, while a malformed one is an error, since an operator's settings must not be
    /// silently discarded.
    ///
    /// # Errors
    ///
    /// [`BrokerError::Io`] if the file cannot be read, [`BrokerError::StateCorrupt`] if it is
    /// malformed.
    pub fn load(&self, read: ConfigRead) -> (r: Result<UpdaterConfig, BrokerError>)
        ensures
            match read {
                ConfigRead::Missing => r == Ok::<UpdaterConfig, BrokerError>(
                    (UpdaterConfig {
                        schema: CONFIG_SCHEMA,
                        channel: Channel::Alpha,
                        paused: false,
                        paused_until: None,
                    }),
                ),
                ConfigRead::Unreadable(e) => r matches Err(err) && err@ == ErrorView::Io(e@),
                ConfigRead::Malformed(e) => r matches Err(err) && err@ == ErrorView::StateCorrupt(
                    "config: "@ + e@,
                ),
                ConfigRead::Config(config) => r == Ok::<UpdaterConfig, BrokerError>(config),
            },
    {
        match read {
            ConfigRead::Missing => Ok(UpdaterConfig::default()),
            ConfigRead::Unreadable(e) => Err(BrokerError::Io(e)),
            ConfigRead::Malformed(e) => Err(BrokerError::StateCorrupt(cat2("config: ", e.as_str()))),
            ConfigRead::Config(config) => Ok(config),
        }
    }

    /// Persist a configuration: the state directory is created and locked down before the file is
    /// written, so that a first `pause` leaves it no less guarded than a full pass does.
    ///
    /// # Errors
    ///
    /// What `lock_down` or `write` report.
    pub fn save<
        D: FnOnce(&str) -> Result<(), BrokerError>,
        W: FnOnce(&str, &UpdaterConfig) -> Result<(), BrokerError>,
    >(&self, config: &UpdaterConfig, lock_down: D, write: W) -> (r: Result<(), BrokerError>)
        requires
            forall|d: &str|
                parent_of(self.path_view()) == Some(d@) ==> #[trigger] lock_down.requires((d,)),
            forall|p: &str|
                p@ == self.path_view() && (parent_of(self.path_view()) is Some ==> locked_down(
                    lock_down,
                    parent_of(self.path_view())->0,
                    Ok(()),
                )) ==> #[trigger] write.requires((p, config)),
        ensures
            r is Ok ==> saved(write, self.path_view(), config, Ok(())) && (parent_of(
                self.path_view(),
            ) is Some ==> locked_down(lock_down, parent_of(self.path_view())->0, Ok(()))),
            r is Err ==> saved(write, self.path_view(), config, Err(r->Err_0)) || (parent_of(
                self.path_view(),
            ) is Some && locked_down(
                lock_down,
                parent_of(self.path_view())->0,
                Err(r->Err_0),
            )),
    {
        if let Some(dir) = parent(self.path.as_str()) {
            match lock_down(dir.as_str()) {
                Ok(u) => {
                    assert(u == ());
                    assert(locked_down(lock_down, dir@, Ok(())));
                },
                Err(e) => {
                    assert(locked_down(lock_down, dir@, Err(e)));
                    return Err(e);
                },
            }
        }
        match write(self.path.as_str(), config) {
            Ok(u) => {
                assert(u == ());
                assert(saved(write, self.path_view(), config, Ok(())));
                Ok(())
            },
            Err(e) => {
                assert(saved(write, self.path_view(), config, Err(e)));
                Err(e)
            },
        }
    }
}

/// Locking down `dir` came to `r`.
pub open spec fn locked_down<D: FnOnce(&str) -> Result<(), BrokerError>>(
    lock_down: D,
    dir: Seq<char>,
    r: Result<(), BrokerError>,
) -> bool {
    exists|d: &str| d@ == dir && #[trigger] lock_down.ensures((d,), r)
}

/// Writing the configuration to `path` came to `r`.
pub open spec fn saved<W: FnOnce(&str, &UpdaterConfig) -> Result<(), BrokerError>>(
    write: W,
    path: Seq<char>,
    config: &UpdaterConfig,
    r: Result<(), BrokerError>,
) -> bool {
    exists|p: &str| p@ == path && #[trigger] write.ensures((p, config), r)
}

/// Each channel has its own token.
pub proof fn channels_are_told_apart(a: Channel, b: Channel)
    ensures
        channel_token(a) == channel_token(b) <==> a == b,
        channel_token(Channel::Alpha) == "alpha"@,
        channel_token(Channel::Nightly) == "nightly"@,
        channel_token(Channel::Stable) == "stable"@,
{
    reveal_strlit("alpha");
    reveal_strlit("nightly");
    reveal_strlit("stable");
    assert("alpha"@.len() == 5 && "nightly"@.len() == 7 && "stable"@.len() == 6);
}

} // verus!
