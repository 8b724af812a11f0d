//! The privileged broker.
//!
//! The broker may persist the trust state and replace binaries, and it never touches the network:
//! the unprivileged worker fetches and verifies, and what it reports is verified again before it is
//! acted on. This module holds the broker's layout on disk and the order in which a pass, a dry
//! check, a change of configuration and a manual rollback go.

use vstd::prelude::*;

use crate::config::{paused_at, Channel, UpdaterConfig, CONFIG_SCHEMA};
use crate::elevation::{require, NOT_ELEVATED_DETAIL};
use crate::error::{error_text, BrokerError, ErrorView};
use crate::hashing::{hex, sha256_of};
use crate::pass::{did_nothing, PassReport, WorkerReport};
use crate::path::{is_plain, join, joined, lemma_join, parent_of, trim_back};
use crate::paths::{
    default_state_dir, program_name, resolve_dry_check_state_dir, sibling_status_dir,
    sibling_worker_binary, state_dir_of, status_dir_of, user_dir_of, HostEnv,
};
use crate::rollback::{
    bytes_of, entry_for, every_record_gives_its_component, floor_allows, floor_text, record_owners,
    restoration, was_read, was_written, EntryView, LkgCache, LkgEntry, LkgRecord, RecordRead,
    RestoreKind,
};
use crate::sandbox::Sandbox;
use crate::text::{decimal, opt_view, views};

verus! {

/// What may be done about a guarded path that is not locked down.
#[derive(Debug, Clone, Copy, PartialEq, Eq, Structural)]
pub enum Repair {
    /// Lock it down, where the broker owns it.
    IfOwned,
    /// Nothing: the broker must never change its own image.
    Never,
}

/// The broker: where its state is, and its worker.
#[derive(Debug, Clone, PartialEq, Eq)]
pub struct Broker {
    state_dir: String,
    worker_path: String,
}

/// [`Broker`] with its texts as sequences.
pub struct BrokerView {
    pub state_dir: Seq<char>,
    pub worker_path: Seq<char>,
}

impl View for Broker {
    type V = BrokerView;

    closed spec fn view(&self) -> BrokerView {
        BrokerView { state_dir: self.state_dir@, worker_path: self.worker_path@ }
    }
}

/// The guarded paths of a state directory.
pub open spec fn guarded(state_dir: Seq<char>, exe: Option<Seq<char>>) -> Seq<(Seq<char>, Repair)> {
    let owned = seq![
        (state_dir, Repair::IfOwned),
        (joined(state_dir, "staging"@), Repair::IfOwned),
        (joined(state_dir, "lkg"@), Repair::IfOwned),
        (joined(state_dir, "apply"@), Repair::IfOwned),
    ];
    match exe {
        Some(path) => owned.push((path, Repair::Never)),
        None => owned,
    }
}

/// The views of guarded paths.
pub open spec fn guarded_views(paths: Seq<(String, Repair)>) -> Seq<(Seq<char>, Repair)> {
    Seq::new(paths.len(), |i: int| (paths[i].0@, paths[i].1))
}

/// The directories that are created and locked down before a pass.
pub open spec fn managed(state_dir: Seq<char>) -> Seq<Seq<char>> {
    seq![state_dir, joined(state_dir, "lkg"@), joined(state_dir, "apply"@)]
}

impl Broker {
    /// The broker of the host: its state directory is fixed, and its worker sits beside `exe`.
    ///
    /// # Errors
    ///
    /// [`BrokerError::Io`] if `exe` has no directory.
    pub fn new(env: &HostEnv, exe: &str) -> (r: Result<Self, BrokerError>)
        ensures
            r is Ok <==> parent_of(exe@) is Some,
            r is Ok ==> r->Ok_0@ == (BrokerView {
                state_dir: state_dir_of(*env),
                worker_path: joined(
                    parent_of(exe@)->0,
                    program_name("dig-updater-worker"@, env.windows),
                ),
            }),
            r is Err ==> r->Err_0@ == ErrorView::Io("current executable has no parent directory"@),
    {
        let worker_path: String = match sibling_worker_binary(exe, env.windows) {
            Ok(path) => path,
            Err(e) => return Err(e),
        };
        Ok(Broker { state_dir: default_state_dir(env), worker_path })
    }

    /// The broker of a dry check, whose state directory can be relocated: a dry check installs
    /// nothing and advances nothing.
    ///
    /// # Errors
    ///
    /// [`BrokerError::Io`] if `exe` has no directory.
    pub fn for_dry_check<F: FnOnce() -> bool>(
        env: &HostEnv,
        exe: &str,
        override_dir: Option<String>,
        default_dir_usable: F,
    ) -> (r: Result<Self, BrokerError>)
        requires
            !(opt_view(override_dir) matches Some(o) && o.len() > 0)
                ==> default_dir_usable.requires(()),
        ensures
            r is Ok <==> parent_of(exe@) is Some,
            r is Ok ==> r->Ok_0@.worker_path == joined(
                parent_of(exe@)->0,
                program_name("dig-updater-worker"@, env.windows),
            ),
            r is Ok && opt_view(override_dir) is Some && opt_view(override_dir)->0.len() > 0
                ==> r->Ok_0@.state_dir == opt_view(override_dir)->0,
            r is Ok && !(opt_view(override_dir) is Some && opt_view(override_dir)->0.len() > 0)
                ==> (default_dir_usable.ensures((), true) && r->Ok_0@.state_dir == state_dir_of(
                *env,
            )) || (default_dir_usable.ensures((), false) && r->Ok_0@.state_dir == user_dir_of(
                *env,
            )),
            r is Err ==> r->Err_0@ == ErrorView::Io("current executable has no parent directory"@),
    {
        let worker_path: String = match sibling_worker_binary(exe, env.windows) {
            Ok(path) => path,
            Err(e) => return Err(e),
        };
        let state_dir: String = resolve_dry_check_state_dir(override_dir, default_dir_usable, env);
        Ok(Broker { state_dir, worker_path })
    }

    /// A broker with explicit paths.
    #[must_use]
    pub fn with_paths(state_dir: String, worker_path: String) -> (broker: Self)
        ensures
            broker@ == (BrokerView { state_dir: state_dir@, worker_path: worker_path@ }),
    {
        Broker { state_dir, worker_path }
    }

    /// The guarded state directory.
    #[must_use]
    pub fn state_dir(&self) -> (dir: &str)
        ensures
            dir@ == self@.state_dir,
    {
        self.state_dir.as_str()
    }

    /// The worker binary.
    #[must_use]
    pub fn worker_path(&self) -> (path: &str)
        ensures
            path@ == self@.worker_path,
    {
        self.worker_path.as_str()
    }

    /// The world-readable status directory: a sibling of the state directory.
    #[must_use]
    pub fn status_dir(&self) -> (dir: String)
        ensures
            dir@ == status_dir_of(self@.state_dir),
    {
        sibling_status_dir(self.state_dir.as_str())
    }

    /// Where the worker stages artifacts.
    #[must_use]
    pub fn staging_dir(&self) -> (dir: String)
        ensures
            dir@ == joined(self@.state_dir, "staging"@),
    {
        join(self.state_dir.as_str(), "staging")
    }

    /// The cache of last known good binaries.
    #[must_use]
    pub fn lkg_dir(&self) -> (dir: String)
        ensures
            dir@ == joined(self@.state_dir, "lkg"@),
    {
        join(self.state_dir.as_str(), "lkg")
    }

    /// Where packages are copied before their installer runs.
    #[must_use]
    pub fn apply_dir(&self) -> (dir: String)
        ensures
            dir@ == joined(self@.state_dir, "apply"@),
    {
        join(self.state_dir.as_str(), "apply")
    }

    /// The paths that are checked before each pass: the broker's directories, which it may repair,
    /// and its own binary, which it must not.
    pub fn guarded_paths(&self, exe: Option<String>) -> (paths: Vec<(String, Repair)>)
        ensures
            guarded_views(paths@) == guarded(self@.state_dir, opt_view(exe)),
    {
        let mut paths: Vec<(String, Repair)> = Vec::new();
        paths.push((self.state_dir.clone(), Repair::IfOwned));
        paths.push((self.staging_dir(), Repair::IfOwned));
        paths.push((self.lkg_dir(), Repair::IfOwned));
        paths.push((self.apply_dir(), Repair::IfOwned));
        let ghost dir = exe;
        if let Some(path) = exe {
            paths.push((path, Repair::Never));
        }
        assert(guarded_views(paths@) =~= guarded(self@.state_dir, opt_view(dir)));
        paths
    }
}

// ------------------------------------------------------------------ the gates of a pass

/// Asking `f` about `dir` came to `r`.
pub open spec fn answered<X, F: FnOnce(&str) -> X>(f: F, dir: Seq<char>, r: X) -> bool {
    exists|d: &str| d@ == dir && #[trigger] f.ensures((d,), r)
}

/// Whether the pass ran and was mirrored, or failed.
pub open spec fn ran<
    P: FnOnce(Sandbox) -> Result<PassReport, BrokerError>,
    S: FnOnce(&PassReport, &UpdaterConfig),
>(config: UpdaterConfig, pass: P, mirror: S, r: Result<PassReport, BrokerError>) -> bool {
    &&& pass.ensures((Sandbox::Restricted,), r)
    &&& r is Ok ==> mirror.ensures((&r->Ok_0, &config), ())
}

/// Whether a pass that holds the lock ended so: a configuration that cannot be read ends it, a
/// pause makes it do nothing, and otherwise it runs.
pub open spec fn gated<
    C: FnOnce(&str) -> Result<UpdaterConfig, BrokerError>,
    P: FnOnce(Sandbox) -> Result<PassReport, BrokerError>,
    S: FnOnce(&PassReport, &UpdaterConfig),
>(
    state_dir: Seq<char>,
    load_config: C,
    now: u64,
    pass: P,
    mirror: S,
    r: Result<PassReport, BrokerError>,
) -> bool {
    ||| r is Err && answered(load_config, state_dir, Err(r->Err_0))
    ||| exists|config: UpdaterConfig| #[trigger]
        answered(load_config, state_dir, Ok(config)) && if paused_at(config, now) {
            r is Ok && is_pause(r->Ok_0, config) && mirror.ensures((&r->Ok_0, &config), ())
        } else {
            ran(config, pass, mirror, r)
        }
}

/// Whether the report says that updates are paused.
pub open spec fn is_pause(report: PassReport, config: UpdaterConfig) -> bool {
    did_nothing(
        report,
        "paused"@,
        match config.paused_until {
            Some(until) => "auto-updates are paused until unix time "@ + decimal(until as nat)
                + "; exited without acting"@,
            None => "auto-updates are paused; exited without acting"@,
        },
    )
}

/// Whether the report says that another pass holds the lock.
pub open spec fn is_overrun(report: PassReport) -> bool {
    did_nothing(
        report,
        "already_running"@,
        "a prior pass still holds the single-instance lock; exited without acting"@,
    )
}

impl Broker {
    /// Run one pass behind its gates: the lock first, then the pause, then the pass itself.
    ///
    /// The configuration is read only with the lock held, and `pass` may be called only with the
    /// lock held and updates not paused, for a restricted worker. That another pass holds the lock and that updates are
    /// paused are ordinary outcomes. Each outcome but the first is mirrored for unprivileged
    /// readers.
    ///
    /// # Errors
    ///
    /// What `acquire`, `load_config` or `pass` report: a configuration that cannot be read ends the
    /// pass, since it might hold a pause.
    pub fn run_once<
        L: FnOnce(&str) -> Result<bool, BrokerError>,
        C: FnOnce(&str) -> Result<UpdaterConfig, BrokerError>,
        P: FnOnce(Sandbox) -> Result<PassReport, BrokerError>,
        S: FnOnce(&PassReport, &UpdaterConfig),
    >(&self, acquire: L, load_config: C, now: u64, pass: P, mirror: S) -> (r: Result<
        PassReport,
        BrokerError,
    >)
        requires
            forall|d: &str| d@ == self@.state_dir ==> #[trigger] acquire.requires((d,)),
            forall|d: &str|
                d@ == self@.state_dir && answered(acquire, self@.state_dir, Ok(true))
                    ==> #[trigger] load_config.requires((d,)),
            forall|config: UpdaterConfig|
                answered(acquire, self@.state_dir, Ok(true)) && #[trigger] answered(
                    load_config,
                    self@.state_dir,
                    Ok(config),
                ) && !paused_at(config, now) ==> pass.requires((Sandbox::Restricted,)),
            forall|report: PassReport, config: UpdaterConfig|
                answered(acquire, self@.state_dir, Ok(true)) && answered(
                    load_config,
                    self@.state_dir,
                    Ok(config),
                ) && (if paused_at(config, now) {
                    is_pause(report, config)
                } else {
                    pass.ensures((Sandbox::Restricted,), Ok(report))
                }) ==> #[trigger] mirror.requires((&report, &config)),
        ensures
            r is Err ==> answered(acquire, self@.state_dir, Err(r->Err_0)) || (answered(
                acquire,
                self@.state_dir,
                Ok(true),
            ) && gated(self@.state_dir, load_config, now, pass, mirror, r)),
            r is Ok ==> (answered(acquire, self@.state_dir, Ok(false)) && is_overrun(r->Ok_0)) || (
            answered(acquire, self@.state_dir, Ok(true)) && gated(
                self@.state_dir,
                load_config,
                now,
                pass,
                mirror,
                r,
            )),
    {
        let dir: &str = self.state_dir.as_str();
        match acquire(dir) {
            Err(e) => {
                assert(answered(acquire, self@.state_dir, Err(e)));
                return Err(e);
            },
            Ok(held) => {
                assert(answered(acquire, self@.state_dir, Ok(held)));
                if !held {
                    return Ok(PassReport::already_running());
                }
            },
        }
        let config: UpdaterConfig = match load_config(dir) {
            Ok(config) => config,
            Err(e) => {
                assert(answered(load_config, self@.state_dir, Err(e)));
                return Err(e);
            },
        };
        assert(answered(load_config, self@.state_dir, Ok(config)));
        if config.is_paused_at(now) {
            let report: PassReport = PassReport::paused(config.paused_until);
            mirror(&report, &config);
            return Ok(report);
        }
        match pass(Sandbox::Restricted) {
            Ok(report) => {
                mirror(&report, &config);
                Ok(report)
            },
            Err(e) => Err(e),
        }
    }
}

// ------------------------------------------------------------------ the body of a pass

/// Preparing `dir` came to `r`.
pub open spec fn prepared<P: Fn(&str) -> Result<(), BrokerError>>(
    prepare: P,
    dir: Seq<char>,
    r: Result<(), BrokerError>,
) -> bool {
    exists|d: &str| d@ == dir && #[trigger] prepare.ensures((d,), r)
}

/// Whether every managed directory was prepared.
pub open spec fn all_prepared<P: Fn(&str) -> Result<(), BrokerError>>(
    prepare: P,
    state_dir: Seq<char>,
) -> bool {
    forall|i: int|
        0 <= i < managed(state_dir).len() ==> prepared(
            prepare,
            #[trigger] managed(state_dir)[i],
            Ok(()),
        )
}

/// Whether the check of the guarded paths came to `r`.
pub open spec fn self_checked<K: FnOnce(&Vec<(String, Repair)>) -> Result<(), BrokerError>>(
    self_check: K,
    paths: Seq<(Seq<char>, Repair)>,
    r: Result<(), BrokerError>,
) -> bool {
    exists|v: Vec<(String, Repair)>|
        guarded_views(v@) == paths && #[trigger] self_check.ensures((&v,), r)
}

/// Whether preparing the staging directory for a worker of this privilege came to `r`.
pub open spec fn staging_ready<G: FnOnce(&str, Sandbox) -> Result<(), BrokerError>>(
    prepare_staging: G,
    dir: Seq<char>,
    sandbox: Sandbox,
    r: Result<(), BrokerError>,
) -> bool {
    exists|d: &str| d@ == dir && #[trigger] prepare_staging.ensures((d, sandbox), r)
}

/// Whether everything that must be in place before the worker runs is: the managed directories are
/// locked down, the guarded paths were checked, and the staging directory is ready.
pub open spec fn in_place<
    P: Fn(&str) -> Result<(), BrokerError>,
    K: FnOnce(&Vec<(String, Repair)>) -> Result<(), BrokerError>,
    G: FnOnce(&str, Sandbox) -> Result<(), BrokerError>,
>(
    state_dir: Seq<char>,
    exe: Option<Seq<char>>,
    sandbox: Sandbox,
    prepare: P,
    self_check: K,
    prepare_staging: G,
) -> bool {
    &&& all_prepared(prepare, state_dir)
    &&& self_checked(self_check, guarded(state_dir, exe), Ok(()))
    &&& staging_ready(prepare_staging, joined(state_dir, "staging"@), sandbox, Ok(()))
}

/// Whether `e` is why something was not in place.
pub open spec fn not_in_place<
    P: Fn(&str) -> Result<(), BrokerError>,
    K: FnOnce(&Vec<(String, Repair)>) -> Result<(), BrokerError>,
    G: FnOnce(&str, Sandbox) -> Result<(), BrokerError>,
>(
    state_dir: Seq<char>,
    exe: Option<Seq<char>>,
    sandbox: Sandbox,
    prepare: P,
    self_check: K,
    prepare_staging: G,
    e: BrokerError,
) -> bool {
    ||| exists|i: int|
        0 <= i < managed(state_dir).len() && prepared(
            prepare,
            #[trigger] managed(state_dir)[i],
            Err(e),
        )
    ||| all_prepared(prepare, state_dir) && self_checked(
        self_check,
        guarded(state_dir, exe),
        Err(e),
    )
    ||| self_checked(self_check, guarded(state_dir, exe), Ok(())) && staging_ready(
        prepare_staging,
        joined(state_dir, "staging"@),
        sandbox,
        Err(e),
    )
}

/// Letting the worker at this path fetch, verify and stage into this directory, with this trust state
/// and privilege, came to `r`.
pub open spec fn fetched<
    T,
    F: FnOnce(&str, &str, &T, Sandbox) -> Result<WorkerReport, BrokerError>,
>(
    fetch: F,
    broker: BrokerView,
    state: T,
    sandbox: Sandbox,
    r: Result<WorkerReport, BrokerError>,
) -> bool {
    exists|w: &str, d: &str|
        w@ == broker.worker_path && d@ == joined(broker.state_dir, "staging"@)
            && #[trigger] fetch.ensures((w, d, &state, sandbox), r)
}

/// Whether, with everything in place, the pass ended so: the trust state was loaded, the worker
/// reported, and the report was applied.
pub open spec fn fetched_and_applied<
    T,
    L: FnOnce(&str) -> Result<T, BrokerError>,
    F: FnOnce(&str, &str, &T, Sandbox) -> Result<WorkerReport, BrokerError>,
    A: FnOnce(&WorkerReport, T) -> Result<PassReport, BrokerError>,
>(
    broker: BrokerView,
    sandbox: Sandbox,
    load: L,
    fetch: F,
    apply: A,
    r: Result<PassReport, BrokerError>,
) -> bool {
    ||| r is Err && answered(load, broker.state_dir, Err(r->Err_0))
    ||| exists|state: T| #[trigger]
        answered(load, broker.state_dir, Ok(state)) && r is Err && fetched(
            fetch,
            broker,
            state,
            sandbox,
            Err(r->Err_0),
        )
    ||| exists|state: T, report: WorkerReport|
        #[trigger] answered(load, broker.state_dir, Ok(state)) && #[trigger] fetched(
            fetch,
            broker,
            state,
            sandbox,
            Ok(report),
        ) && apply.ensures((&report, state), r)
}

impl Broker {
    /// The body of a pass: the managed directories are created and locked down, the guarded paths
    /// are checked, the staging directory is prepared, the trust state is loaded, the worker runs,
    /// and what it reports is applied.
    ///
    /// The order is part of the contract: the check runs only on prepared directories, the worker
    /// only with everything in place, and `apply` only on what the worker reported. The worker runs
    /// with the privilege that its directory was prepared for.
    ///
    /// # Errors
    ///
    /// What the first failed step reports.
    pub fn run_pass<
        T,
        P: Fn(&str) -> Result<(), BrokerError>,
        K: FnOnce(&Vec<(String, Repair)>) -> Result<(), BrokerError>,
        G: FnOnce(&str, Sandbox) -> Result<(), BrokerError>,
        L: FnOnce(&str) -> Result<T, BrokerError>,
        F: FnOnce(&str, &str, &T, Sandbox) -> Result<WorkerReport, BrokerError>,
        A: FnOnce(&WorkerReport, T) -> Result<PassReport, BrokerError>,
    >(
        &self,
        exe: Option<String>,
        sandbox: Sandbox,
        prepare: &P,
        self_check: K,
        prepare_staging: G,
        load: L,
        fetch: F,
        apply: A,
    ) -> (r: Result<PassReport, BrokerError>)
        requires
            forall|d: &str|
                managed(self@.state_dir).contains(d@) ==> #[trigger] prepare.requires((d,)),
            forall|v: Vec<(String, Repair)>|
                all_prepared(*prepare, self@.state_dir) && guarded_views(v@) == guarded(
                    self@.state_dir,
                    opt_view(exe),
                ) ==> #[trigger] self_check.requires((&v,)),
            forall|d: &str|
                d@ == joined(self@.state_dir, "staging"@) && all_prepared(
                    *prepare,
                    self@.state_dir,
                ) && self_checked(
                    self_check,
                    guarded(self@.state_dir, opt_view(exe)),
                    Ok(()),
                ) ==> #[trigger] prepare_staging.requires((d, sandbox)),
            forall|d: &str|
                d@ == self@.state_dir && in_place(
                    self@.state_dir,
                    opt_view(exe),
                    sandbox,
                    *prepare,
                    self_check,
                    prepare_staging,
                ) ==> #[trigger] load.requires((d,)),
            forall|w: &str, d: &str, state: T|
                w@ == self@.worker_path && d@ == joined(self@.state_dir, "staging"@) && in_place(
                    self@.state_dir,
                    opt_view(exe),
                    sandbox,
                    *prepare,
                    self_check,
                    prepare_staging,
                ) && answered(load, self@.state_dir, Ok(state)) ==> #[trigger] fetch.requires(
                    (w, d, &state, sandbox),
                ),
            forall|state: T, report: WorkerReport|
                in_place(
                    self@.state_dir,
                    opt_view(exe),
                    sandbox,
                    *prepare,
                    self_check,
                    prepare_staging,
                ) && #[trigger] answered(load, self@.state_dir, Ok(state)) && #[trigger] fetched(
                    fetch,
                    self@,
                    state,
                    sandbox,
                    Ok(report),
                ) ==> apply.requires((&report, state)),
        ensures
            in_place(
                self@.state_dir,
                opt_view(exe),
                sandbox,
                *prepare,
                self_check,
                prepare_staging,
            ) && fetched_and_applied(self@, sandbox, load, fetch, apply, r) || r is Err
                && not_in_place(
                self@.state_dir,
                opt_view(exe),
                sandbox,
                *prepare,
                self_check,
                prepare_staging,
                r->Err_0,
            ),
    {
        let ghost dir = self@.state_dir;
        let ghost own = opt_view(exe);
        let mut dirs: Vec<String> = Vec::new();
        dirs.push(self.state_dir.clone());
        dirs.push(self.lkg_dir());
        dirs.push(self.apply_dir());
        assert(views(dirs@) =~= managed(dir));
        let mut i: usize = 0;
        while i < dirs.len()
            invariant
                i <= dirs@.len(),
                dir == self@.state_dir,
                views(dirs@) == managed(dir),
                forall|d: &str|
                    managed(self@.state_dir).contains(d@) ==> #[trigger] prepare.requires((d,)),
                forall|j: int|
                    0 <= j < i ==> prepared(*prepare, #[trigger] managed(dir)[j], Ok(())),
            decreases dirs@.len() - i,
        {
            assert(views(dirs@)[i as int] == dirs@[i as int]@);
            assert(managed(dir)[i as int] == dirs@[i as int]@);
            match prepare(dirs[i].as_str()) {
                Ok(u) => {
                    assert(u == ());
                    assert(prepared(*prepare, managed(dir)[i as int], Ok(())));
                },
                Err(e) => {
                    assert(prepared(*prepare, managed(dir)[i as int], Err(e)));
                    return Err(e);
                },
            }
            i = i + 1;
        }
        assert(all_prepared(*prepare, dir));
        let paths: Vec<(String, Repair)> = self.guarded_paths(exe);
        match self_check(&paths) {
            Ok(u) => {
                assert(u == ());
                assert(self_checked(self_check, guarded(dir, own), Ok(())));
            },
            Err(e) => {
                assert(self_checked(self_check, guarded(dir, own), Err(e)));
                return Err(e);
            },
        }
        let staging: String = self.staging_dir();
        match prepare_staging(staging.as_str(), sandbox) {
            Ok(u) => {
                assert(u == ());
                assert(staging_ready(prepare_staging, staging@, sandbox, Ok(())));
            },
            Err(e) => {
                assert(staging_ready(prepare_staging, staging@, sandbox, Err(e)));
                return Err(e);
            },
        }
        assert(in_place(dir, own, sandbox, *prepare, self_check, prepare_staging));
        let state: T = match load(self.state_dir.as_str()) {
            Ok(state) => state,
            Err(e) => {
                assert(answered(load, dir, Err(e)));
                return Err(e);
            },
        };
        assert(answered(load, dir, Ok(state)));
        let report: WorkerReport = match fetch(
            self.worker_path.as_str(),
            staging.as_str(),
            &state,
            sandbox,
        ) {
            Ok(report) => report,
            Err(e) => {
                assert(fetched(fetch, self@, state, sandbox, Err(e)));
                return Err(e);
            },
        };
        assert(fetched(fetch, self@, state, sandbox, Ok(report)));
        apply(&report, state)
    }
}

/// Whether a dry check ended so.
pub open spec fn dry_checked<
    T,
    L: FnOnce(&str) -> Result<T, BrokerError>,
    F: FnOnce(&str, &str, &T, Sandbox) -> Result<WorkerReport, BrokerError>,
    C: FnOnce(&str) -> Result<UpdaterConfig, BrokerError>,
    S: FnOnce(&WorkerReport, &UpdaterConfig),
>(
    broker: BrokerView,
    load: L,
    fetch: F,
    load_config: C,
    mirror: S,
    r: Result<WorkerReport, BrokerError>,
) -> bool {
    ||| r is Err && answered(load, broker.state_dir, Err(r->Err_0))
    ||| exists|state: T| #[trigger]
        answered(load, broker.state_dir, Ok(state)) && fetched(
            fetch,
            broker,
            state,
            Sandbox::Restricted,
            r,
        ) && (r is Ok ==> mirrored_with_config(broker.state_dir, load_config, mirror, r->Ok_0))
}

/// Whether the trust state was loaded and the worker reported.
pub open spec fn worker_reported<
    T,
    L: FnOnce(&str) -> Result<T, BrokerError>,
    F: FnOnce(&str, &str, &T, Sandbox) -> Result<WorkerReport, BrokerError>,
>(broker: BrokerView, load: L, fetch: F) -> bool {
    exists|report: WorkerReport| #[trigger] reported(broker, load, fetch, report)
}

/// Whether the trust state was loaded and the worker gave this report.
pub open spec fn reported<
    T,
    L: FnOnce(&str) -> Result<T, BrokerError>,
    F: FnOnce(&str, &str, &T, Sandbox) -> Result<WorkerReport, BrokerError>,
>(broker: BrokerView, load: L, fetch: F, report: WorkerReport) -> bool {
    exists|state: T|
        #[trigger] answered(load, broker.state_dir, Ok(state)) && fetched(
            fetch,
            broker,
            state,
            Sandbox::Restricted,
            Ok(report),
        )
}

/// Whether `config` is the persisted configuration, or the default where it cannot be read.
pub open spec fn shown_config<C: FnOnce(&str) -> Result<UpdaterConfig, BrokerError>>(
    state_dir: Seq<char>,
    load_config: C,
    config: UpdaterConfig,
) -> bool {
    exists|c: Result<UpdaterConfig, BrokerError>| #[trigger]
        answered(load_config, state_dir, c) && config == match c {
            Ok(read) => read,
            Err(_) => default_config(),
        }
}

/// The configuration of a fresh install.
pub open spec fn default_config() -> UpdaterConfig {
    UpdaterConfig {
        schema: CONFIG_SCHEMA,
        channel: Channel::Alpha,
        paused: false,
        paused_until: None,
    }
}

/// Whether a report was mirrored with the persisted configuration, or with the default where it
/// cannot be read.
pub open spec fn mirrored_with_config<
    C: FnOnce(&str) -> Result<UpdaterConfig, BrokerError>,
    S: FnOnce(&WorkerReport, &UpdaterConfig),
>(state_dir: Seq<char>, load_config: C, mirror: S, report: WorkerReport) -> bool {
    exists|c: Result<UpdaterConfig, BrokerError>| #[trigger]
        answered(load_config, state_dir, c) && mirror.ensures(
            (
                &report,
                &match c {
                    Ok(config) => config,
                    Err(_) => default_config(),
                },
            ),
            (),
        )
}

impl Broker {
    /// Run a dry check: load the trust state, let the restricted worker fetch and verify, and mirror
    /// its report. Nothing is installed and nothing advances. A configuration that cannot be read does
    /// not fail the check: it is read for the mirror alone.
    ///
    /// # Errors
    ///
    /// What `load` or `fetch` report.
    pub fn dry_check<
        T,
        L: FnOnce(&str) -> Result<T, BrokerError>,
        F: FnOnce(&str, &str, &T, Sandbox) -> Result<WorkerReport, BrokerError>,
        C: FnOnce(&str) -> Result<UpdaterConfig, BrokerError>,
        S: FnOnce(&WorkerReport, &UpdaterConfig),
    >(&self, load: L, fetch: F, load_config: C, mirror: S) -> (r: Result<
        WorkerReport,
        BrokerError,
    >)
        requires
            forall|d: &str| d@ == self@.state_dir ==> #[trigger] load.requires((d,)),
            forall|w: &str, d: &str, state: T|
                w@ == self@.worker_path && d@ == joined(self@.state_dir, "staging"@) && answered(
                    load,
                    self@.state_dir,
                    Ok(state),
                ) ==> #[trigger] fetch.requires((w, d, &state, Sandbox::Restricted)),
            forall|d: &str|
                d@ == self@.state_dir && worker_reported(self@, load, fetch)
                    ==> #[trigger] load_config.requires((d,)),
            forall|report: WorkerReport, config: UpdaterConfig|
                reported(self@, load, fetch, report) && shown_config(
                    self@.state_dir,
                    load_config,
                    config,
                ) ==> #[trigger] mirror.requires((&report, &config)),
        ensures
            dry_checked(self@, load, fetch, load_config, mirror, r),
    {
        let dir: &str = self.state_dir.as_str();
        let state: T = match load(dir) {
            Ok(state) => state,
            Err(e) => {
                assert(answered(load, self@.state_dir, Err(e)));
                return Err(e);
            },
        };
        assert(answered(load, self@.state_dir, Ok(state)));
        let staging: String = self.staging_dir();
        let report: WorkerReport = match fetch(
            self.worker_path.as_str(),
            staging.as_str(),
            &state,
            Sandbox::Restricted,
        ) {
            Ok(report) => report,
            Err(e) => {
                assert(fetched(fetch, self@, state, Sandbox::Restricted, Err(e)));
                return Err(e);
            },
        };
        assert(fetched(fetch, self@, state, Sandbox::Restricted, Ok(report)));
        assert(reported(self@, load, fetch, report));
        assert(worker_reported(self@, load, fetch));
        let got: Result<UpdaterConfig, BrokerError> = load_config(dir);
        let ghost c = got;
        assert(answered(load_config, self@.state_dir, c));
        let config: UpdaterConfig = match got {
            Ok(config) => config,
            Err(_) => UpdaterConfig::default(),
        };
        assert(config == match c {
            Ok(config) => config,
            Err(_) => default_config(),
        });
        assert(reported(self@, load, fetch, report));
        assert(shown_config(self@.state_dir, load_config, config));
        mirror(&report, &config);
        assert(mirrored_with_config(self@.state_dir, load_config, mirror, report));
        Ok(report)
    }
}

// ------------------------------------------------------------------ the configuration

/// A change of the configuration.
#[derive(Debug, Clone, Copy, PartialEq, Eq, Structural)]
pub enum ConfigEdit {
    /// Track this channel.
    SetChannel(Channel),
    /// Pause updates, until this unix time if one is given.
    Pause(Option<u64>),
    /// Put updates into effect again.
    Resume,
}

/// The configuration after a change.
pub open spec fn edited(config: UpdaterConfig, edit: ConfigEdit) -> UpdaterConfig {
    match edit {
        ConfigEdit::SetChannel(channel) => UpdaterConfig { channel, ..config },
        ConfigEdit::Pause(until) => UpdaterConfig { paused: true, paused_until: until, ..config },
        ConfigEdit::Resume => UpdaterConfig { paused: false, paused_until: None, ..config },
    }
}

/// Saving `config` came to `r`.
pub open spec fn config_saved<S: FnOnce(&str, &UpdaterConfig) -> Result<(), BrokerError>>(
    save: S,
    state_dir: Seq<char>,
    config: UpdaterConfig,
    r: Result<(), BrokerError>,
) -> bool {
    exists|d: &str| d@ == state_dir && #[trigger] save.ensures((d, &config), r)
}

/// Whether a permitted change ended so: the configuration was loaded, changed, saved and mirrored.
pub open spec fn config_changed<
    L: FnOnce(&str) -> Result<UpdaterConfig, BrokerError>,
    S: FnOnce(&str, &UpdaterConfig) -> Result<(), BrokerError>,
    M: FnOnce(&UpdaterConfig),
>(
    state_dir: Seq<char>,
    edit: ConfigEdit,
    load: L,
    save: S,
    mirror: M,
    r: Result<UpdaterConfig, BrokerError>,
) -> bool {
    ||| r is Err && answered(load, state_dir, Err(r->Err_0))
    ||| exists|config: UpdaterConfig| #[trigger]
        answered(load, state_dir, Ok(config)) && match r {
            Ok(changed) => changed == edited(config, edit) && config_saved(
                save,
                state_dir,
                changed,
                Ok(()),
            ) && mirror.ensures((&changed,), ()),
            Err(e) => config_saved(save, state_dir, edited(config, edit), Err(e)),
        }
}

/// Whether an attempt to change the configuration ended so: refused without the privilege, and
/// carried out with it.
pub open spec fn change_settled<
    E: FnOnce() -> bool,
    L: FnOnce(&str) -> Result<UpdaterConfig, BrokerError>,
    S: FnOnce(&str, &UpdaterConfig) -> Result<(), BrokerError>,
    M: FnOnce(&UpdaterConfig),
>(
    state_dir: Seq<char>,
    edit: ConfigEdit,
    is_elevated: E,
    load: L,
    save: S,
    mirror: M,
    r: Result<UpdaterConfig, BrokerError>,
) -> bool {
    ||| is_elevated.ensures((), false) && r is Err && r->Err_0@ == ErrorView::Io(
        NOT_ELEVATED_DETAIL@,
    )
    ||| is_elevated.ensures((), true) && config_changed(state_dir, edit, load, save, mirror, r)
}

/// Whether a change may be attempted with these: nothing is read without the privilege, only the
/// changed configuration is saved, and only a saved one is mirrored.
pub open spec fn change_may<
    E: FnOnce() -> bool,
    L: FnOnce(&str) -> Result<UpdaterConfig, BrokerError>,
    S: FnOnce(&str, &UpdaterConfig) -> Result<(), BrokerError>,
    M: FnOnce(&UpdaterConfig),
>(
    state_dir: Seq<char>,
    edit: ConfigEdit,
    is_elevated: E,
    load: L,
    save: S,
    mirror: M,
) -> bool {
    &&& is_elevated.requires(())
    &&& forall|d: &str|
        d@ == state_dir && is_elevated.ensures((), true) ==> #[trigger] load.requires((d,))
    &&& forall|d: &str, config: UpdaterConfig|
        d@ == state_dir && is_elevated.ensures((), true) && #[trigger] answered(
            load,
            state_dir,
            Ok(config),
        ) ==> #[trigger] save.requires((d, &edited(config, edit)))
    &&& forall|config: UpdaterConfig|
        is_elevated.ensures((), true) && config_saved(save, state_dir, config, Ok(()))
            ==> #[trigger] mirror.requires((&config,))
}

impl Broker {
    /// Track another channel; see [`Self::mutate_config`].
    ///
    /// # Errors
    ///
    /// Those of [`Self::mutate_config`].
    pub fn set_channel<
        E: FnOnce() -> bool,
        L: FnOnce(&str) -> Result<UpdaterConfig, BrokerError>,
        S: FnOnce(&str, &UpdaterConfig) -> Result<(), BrokerError>,
        M: FnOnce(&UpdaterConfig),
    >(&self, channel: Channel, is_elevated: E, load: L, save: S, mirror: M) -> (r: Result<
        UpdaterConfig,
        BrokerError,
    >)
        requires
            change_may(
                self@.state_dir,
                ConfigEdit::SetChannel(channel),
                is_elevated,
                load,
                save,
                mirror,
            ),
        ensures
            change_settled(
                self@.state_dir,
                ConfigEdit::SetChannel(channel),
                is_elevated,
                load,
                save,
                mirror,
                r,
            ),
    {
        self.mutate_config(ConfigEdit::SetChannel(channel), is_elevated, load, save, mirror)
    }

    /// Pause updates, until a unix time if one is given; see [`Self::mutate_config`].
    ///
    /// # Errors
    ///
    /// Those of [`Self::mutate_config`].
    pub fn pause<
        E: FnOnce() -> bool,
        L: FnOnce(&str) -> Result<UpdaterConfig, BrokerError>,
        S: FnOnce(&str, &UpdaterConfig) -> Result<(), BrokerError>,
        M: FnOnce(&UpdaterConfig),
    >(&self, until: Option<u64>, is_elevated: E, load: L, save: S, mirror: M) -> (r: Result<
        UpdaterConfig,
        BrokerError,
    >)
        requires
            change_may(
                self@.state_dir,
                ConfigEdit::Pause(until),
                is_elevated,
                load,
                save,
                mirror,
            ),
        ensures
            change_settled(
                self@.state_dir,
                ConfigEdit::Pause(until),
                is_elevated,
                load,
                save,
                mirror,
                r,
            ),
    {
        self.mutate_config(ConfigEdit::Pause(until), is_elevated, load, save, mirror)
    }

    /// Put updates into effect again; see [`Self::mutate_config`].
    ///
    /// # Errors
    ///
    /// Those of [`Self::mutate_config`].
    pub fn resume<
        E: FnOnce() -> bool,
        L: FnOnce(&str) -> Result<UpdaterConfig, BrokerError>,
        S: FnOnce(&str, &UpdaterConfig) -> Result<(), BrokerError>,
        M: FnOnce(&UpdaterConfig),
    >(&self, is_elevated: E, load: L, save: S, mirror: M) -> (r: Result<UpdaterConfig, BrokerError>)
        requires
            change_may(
                self@.state_dir,
                ConfigEdit::Resume,
                is_elevated,
                load,
                save,
                mirror,
            ),
        ensures
            change_settled(
                self@.state_dir,
                ConfigEdit::Resume,
                is_elevated,
                load,
                save,
                mirror,
                r,
            ),
    {
        self.mutate_config(ConfigEdit::Resume, is_elevated, load, save, mirror)
    }

    /// Change the configuration, for a caller with the privilege to: it is loaded, changed, saved
    /// and mirrored for unprivileged readers. For a caller without, nothing is read or written.
    ///
    /// # Errors
    ///
    /// [`BrokerError::Io`] without the privilege; otherwise what `load` or `save` report.
    pub fn mutate_config<
        E: FnOnce() -> bool,
        L: FnOnce(&str) -> Result<UpdaterConfig, BrokerError>,
        S: FnOnce(&str, &UpdaterConfig) -> Result<(), BrokerError>,
        M: FnOnce(&UpdaterConfig),
    >(&self, edit: ConfigEdit, is_elevated: E, load: L, save: S, mirror: M) -> (r: Result<
        UpdaterConfig,
        BrokerError,
    >)
        requires
            change_may(self@.state_dir, edit, is_elevated, load, save, mirror),
        ensures
            change_settled(self@.state_dir, edit, is_elevated, load, save, mirror, r),
    {
        match require(is_elevated) {
            Ok(_) => {},
            Err(e) => return Err(e),
        }
        let dir: &str = self.state_dir.as_str();
        let config: UpdaterConfig = match load(dir) {
            Ok(config) => config,
            Err(e) => {
                assert(answered(load, self@.state_dir, Err(e)));
                return Err(e);
            },
        };
        let ghost before = config;
        assert(answered(load, self@.state_dir, Ok(before)));
        let changed: UpdaterConfig = match edit {
            ConfigEdit::SetChannel(channel) => config.tracking(channel),
            ConfigEdit::Pause(until) => config.paused(until),
            ConfigEdit::Resume => config.resumed(),
        };
        assert(changed == edited(before, edit));
        match save(dir, &changed) {
            Ok(u) => {
                assert(u == ());
                assert(config_saved(save, self@.state_dir, changed, Ok(())));
            },
            Err(e) => {
                assert(config_saved(save, self@.state_dir, changed, Err(e)));
                return Err(e);
            },
        }
        mirror(&changed);
        Ok(changed)
    }
}

/// What the status mirror shows of a configuration.
#[derive(Debug, Clone, Copy, PartialEq, Eq, Structural)]
pub struct ConfigMirror {
    /// The tracked channel.
    pub channel: Channel,
    /// Whether updates are paused now.
    pub paused: bool,
    /// When the pause lapses.
    pub paused_until: Option<u64>,
}

/// What the status mirror shows of `config` at `now`.
#[must_use]
pub fn config_mirror(config: &UpdaterConfig, now: u64) -> (mirror: ConfigMirror)
    ensures
        mirror == (ConfigMirror {
            channel: config.channel,
            paused: paused_at(*config, now),
            paused_until: config.paused_until,
        }),
{
    ConfigMirror {
        channel: config.channel,
        paused: config.is_paused_at(now),
        paused_until: config.paused_until,
    }
}

/// What could be read of the status mirror.
#[derive(Debug, Clone, PartialEq, Eq)]
pub enum StatusRead {
    /// Nothing was mirrored yet.
    NeverChecked,
    /// It is there but malformed.
    Malformed(String),
    /// What it shows.
    Shown(ConfigMirror),
}

/// What the status mirror says: a host that was never checked tracks the default channel, unpaused.
pub open spec fn shown_status(read: StatusRead) -> Result<ConfigMirror, ErrorView> {
    match read {
        StatusRead::NeverChecked => Ok(
            ConfigMirror { channel: Channel::Alpha, paused: false, paused_until: None },
        ),
        StatusRead::Malformed(why) => Err(ErrorView::StateCorrupt(why@)),
        StatusRead::Shown(mirror) => Ok(mirror),
    }
}

impl Broker {
    /// What the status mirror shows, which any identity may read: no privilege is asked for.
    ///
    /// # Errors
    ///
    /// [`BrokerError::StateCorrupt`] if the mirror is malformed.
    pub fn status<R: FnOnce(&str) -> StatusRead>(&self, read: R) -> (r: Result<
        ConfigMirror,
        BrokerError,
    >)
        requires
            forall|d: &str| d@ == status_dir_of(self@.state_dir) ==> #[trigger] read.requires((d,)),
        ensures
            exists|x: StatusRead| #[trigger]
                answered(read, status_dir_of(self@.state_dir), x) && match r {
                    Ok(mirror) => shown_status(x) == Ok::<ConfigMirror, ErrorView>(mirror),
                    Err(e) => shown_status(x) == Err::<ConfigMirror, ErrorView>(e@),
                },
    {
        let dir: String = self.status_dir();
        let got: StatusRead = read(dir.as_str());
        let ghost x = got;
        assert(answered(read, status_dir_of(self@.state_dir), x));
        match got {
            StatusRead::NeverChecked => Ok(
                ConfigMirror { channel: Channel::Alpha, paused: false, paused_until: None },
            ),
            StatusRead::Malformed(why) => Err(BrokerError::StateCorrupt(why)),
            StatusRead::Shown(mirror) => Ok(mirror),
        }
    }

    /// The tracked channel, as the status mirror shows it.
    ///
    /// # Errors
    ///
    /// [`BrokerError::StateCorrupt`] if the mirror is malformed.
    pub fn channel<R: FnOnce(&str) -> StatusRead>(&self, read: R) -> (r: Result<
        Channel,
        BrokerError,
    >)
        requires
            forall|d: &str| d@ == status_dir_of(self@.state_dir) ==> #[trigger] read.requires((d,)),
        ensures
            exists|x: StatusRead| #[trigger]
                answered(read, status_dir_of(self@.state_dir), x) && match r {
                    Ok(channel) => shown_status(x) is Ok && shown_status(x)->Ok_0.channel
                        == channel,
                    Err(e) => shown_status(x) == Err::<ConfigMirror, ErrorView>(e@),
                },
    {
        match self.status(read) {
            Ok(mirror) => Ok(mirror.channel),
            Err(e) => Err(e),
        }
    }
}

/// How many seconds lie between two wakes.
pub const ONE_DAY_SECS: u64 = 86_400;

/// An estimate of the next wake: a day from now, where the daily schedule is registered.
#[must_use]
pub fn estimate_next_wake(now: u64, scheduled: bool) -> (wake: Option<u64>)
    requires
        now + ONE_DAY_SECS <= u64::MAX,
    ensures
        wake == if scheduled {
            Some((now + ONE_DAY_SECS) as u64)
        } else {
            None
        },
{
    if scheduled {
        Some(now + ONE_DAY_SECS)
    } else {
        None
    }
}

// ------------------------------------------------------------------ manual rollback

/// Reading the record of a component gave `r`.
pub open spec fn record_read<R: Fn(&str) -> RecordRead>(
    read_record: R,
    component: Seq<char>,
    r: RecordRead,
) -> bool {
    exists|c: &str| c@ == component && #[trigger] read_record.ensures((c,), r)
}

/// Reading cached bytes gave `r`.
pub open spec fn cache_read<B: Fn(&str) -> Result<Vec<u8>, BrokerError>>(
    read: B,
    path: Seq<char>,
    r: Result<Seq<u8>, ErrorView>,
) -> bool {
    exists|p: &str, x: Result<Vec<u8>, BrokerError>|
        p@ == path && bytes_of(x) == r && #[trigger] read.ensures((p,), x)
}

/// Writing bytes to `path` succeeded.
pub open spec fn reinstated<W: Fn(&str, &Vec<u8>) -> Result<(), BrokerError>>(
    write: W,
    path: Seq<char>,
    bytes: Seq<u8>,
) -> bool {
    exists|p: &str, b: &Vec<u8>|
        p@ == path && b@ == bytes && #[trigger] write.ensures((p, b), Ok(()))
}

/// Whether the entry's cached bytes were put back under the floor.
pub open spec fn entry_restored<
    B: Fn(&str) -> Result<Vec<u8>, BrokerError>,
    W: Fn(&str, &Vec<u8>) -> Result<(), BrokerError>,
>(read: B, write: W, entry: EntryView, floor: u64) -> bool {
    exists|bytes: Seq<u8>| #[trigger]
        cache_read(read, entry.cached_path, Ok(bytes)) && restoration(
            entry,
            floor,
            RestoreKind::CrossPass,
            Ok(bytes),
        ) == Ok::<Seq<u8>, ErrorView>(bytes) && reinstated(write, entry.dest, bytes)
}

/// Whether a component was rolled back to its record under the floor.
pub open spec fn component_restored<
    R: Fn(&str) -> RecordRead,
    B: Fn(&str) -> Result<Vec<u8>, BrokerError>,
    W: Fn(&str, &Vec<u8>) -> Result<(), BrokerError>,
>(
    dir: Seq<char>,
    read_record: R,
    read: B,
    write: W,
    component: Seq<char>,
    floor: u64,
) -> bool {
    exists|kept: LkgRecord| #[trigger]
        record_read(read_record, component, RecordRead::Record(kept)) && entry_restored(
            read,
            write,
            entry_for(dir, component, kept@),
            floor,
        )
}

/// Whether the cached bytes at this place may be read: they are those of a component whose record
/// names a build that is not below the floor.
pub open spec fn may_read_cached<R: Fn(&str) -> RecordRead>(
    dir: Seq<char>,
    read_record: R,
    floor: u64,
    path: Seq<char>,
) -> bool {
    exists|component: Seq<char>, kept: LkgRecord| #[trigger]
        record_read(read_record, component, RecordRead::Record(kept)) && path == entry_for(
            dir,
            component,
            kept@,
        ).cached_path && kept.build is Some && kept.build->0 >= floor
}

/// Whether these bytes may be written at this place: they have the digest that a record of the
/// cache names, and its build is not below the floor.
pub open spec fn may_reinstate<R: Fn(&str) -> RecordRead>(
    read_record: R,
    floor: u64,
    path: Seq<char>,
    bytes: Seq<u8>,
) -> bool {
    exists|component: Seq<char>, kept: LkgRecord| #[trigger]
        record_read(read_record, component, RecordRead::Record(kept)) && kept.dest@ == path
            && kept.digest@ == hex(sha256_of(bytes)) && kept.build is Some && kept.build->0 >= floor
}

impl Broker {
    /// Roll every cached component back to its last known good build. Gives those that were.
    ///
    /// The floor is the one that `load_floor` reads from the persisted trust state, never one that
    /// the caller picks, and `write` may be called only with bytes that it admits.
    ///
    /// # Errors
    ///
    /// What `load_floor` reports, or the error of the first component that could not be rolled
    /// back.
    pub fn rollback<
        L: FnOnce(&str) -> Result<u64, BrokerError>,
        R: Fn(&str) -> RecordRead,
        B: Fn(&str) -> Result<Vec<u8>, BrokerError>,
        W: Fn(&str, &Vec<u8>) -> Result<(), BrokerError>,
    >(
        &self,
        components: Vec<String>,
        load_floor: L,
        read_record: &R,
        read: &B,
        write: &W,
    ) -> (r: Result<Vec<String>, BrokerError>)
        requires
            forall|d: &str| d@ == self@.state_dir ==> #[trigger] load_floor.requires((d,)),
            forall|c: &str, floor: u64|
                #[trigger] answered(load_floor, self@.state_dir, Ok(floor)) && views(components@).contains(c@)
                    ==> #[trigger] read_record.requires((c,)),
            forall|p: &str, floor: u64|
                #[trigger] answered(load_floor, self@.state_dir, Ok(floor)) && may_read_cached(
                    joined(self@.state_dir, "lkg"@),
                    *read_record,
                    floor,
                    p@,
                ) ==> #[trigger] read.requires((p,)),
            forall|p: &str, b: &Vec<u8>, floor: u64|
                #[trigger] answered(load_floor, self@.state_dir, Ok(floor)) && may_reinstate(
                    *read_record,
                    floor,
                    p@,
                    b@,
                ) ==> #[trigger] write.requires((p, b)),
        ensures
            rolled_all_back(
                self@.state_dir,
                joined(self@.state_dir, "lkg"@),
                components@,
                load_floor,
                *read_record,
                *read,
                *write,
                r,
            ),
    {
        let dir: String = self.lkg_dir();
        let cache: LkgCache = LkgCache::at(dir.as_str());
        roll_back_from(
            self.state_dir.as_str(),
            &cache,
            components,
            load_floor,
            read_record,
            read,
            write,
        )
    }
}

/// Whether the rollback of the components ended so: all were rolled back under one floor, or the
/// floor could not be read, or it stopped at one of them.
pub open spec fn rolled_all_back<
    L: FnOnce(&str) -> Result<u64, BrokerError>,
    R: Fn(&str) -> RecordRead,
    B: Fn(&str) -> Result<Vec<u8>, BrokerError>,
    W: Fn(&str, &Vec<u8>) -> Result<(), BrokerError>,
>(
    state_dir: Seq<char>,
    dir: Seq<char>,
    components: Seq<String>,
    load_floor: L,
    read_record: R,
    read: B,
    write: W,
    r: Result<Vec<String>, BrokerError>,
) -> bool {
    &&& r is Ok ==> r->Ok_0@ == components && exists|floor: u64| #[trigger]
        answered(load_floor, state_dir, Ok(floor)) && forall|i: int|
            0 <= i < components.len() ==> component_restored(
                dir,
                read_record,
                read,
                write,
                #[trigger] views(components)[i],
                floor,
            )
    &&& r is Err ==> answered(load_floor, state_dir, Err(r->Err_0)) || exists|floor: u64, k: int|
        #[trigger] answered(load_floor, state_dir, Ok(floor)) && 0 <= k < components.len()
            && #[trigger] stopped_at(
            dir,
            read_record,
            read,
            write,
            views(components),
            floor,
            k,
            r->Err_0@,
        )
}

/// [`Broker::rollback`] from an explicit cache.
fn roll_back_from<
    L: FnOnce(&str) -> Result<u64, BrokerError>,
    R: Fn(&str) -> RecordRead,
    B: Fn(&str) -> Result<Vec<u8>, BrokerError>,
    W: Fn(&str, &Vec<u8>) -> Result<(), BrokerError>,
>(
    state_dir: &str,
    cache: &LkgCache,
    components: Vec<String>,
    load_floor: L,
    read_record: &R,
    read: &B,
    write: &W,
) -> (r: Result<Vec<String>, BrokerError>)
    requires
        load_floor.requires((state_dir,)),
        forall|c: &str, floor: u64|
            #[trigger] answered(load_floor, state_dir@, Ok(floor)) && views(components@).contains(c@)
                ==> #[trigger] read_record.requires((c,)),
        forall|p: &str, floor: u64|
            #[trigger] answered(load_floor, state_dir@, Ok(floor)) && may_read_cached(
                cache@,
                *read_record,
                floor,
                p@,
            ) ==> #[trigger] read.requires((p,)),
        forall|p: &str, b: &Vec<u8>, floor: u64|
            #[trigger] answered(load_floor, state_dir@, Ok(floor)) && may_reinstate(
                *read_record,
                floor,
                p@,
                b@,
            ) ==> #[trigger] write.requires((p, b)),
    ensures
        rolled_all_back(
            state_dir@,
            cache@,
            components@,
            load_floor,
            *read_record,
            *read,
            *write,
            r,
        ),
{
    let floor: u64 = match load_floor(state_dir) {
        Ok(floor) => floor,
        Err(e) => {
            assert(answered(load_floor, state_dir@, Err(e)));
            return Err(e);
        },
    };
    assert(answered(load_floor, state_dir@, Ok(floor)));
    let mut i: usize = 0;
    while i < components.len()
        invariant
            i <= components@.len(),
            answered(load_floor, state_dir@, Ok(floor)),
            forall|c: &str, floor: u64|
                #[trigger] answered(load_floor, state_dir@, Ok(floor)) && views(components@).contains(c@)
                    ==> #[trigger] read_record.requires((c,)),
            forall|p: &str, floor: u64|
                #[trigger] answered(load_floor, state_dir@, Ok(floor)) && may_read_cached(
                    cache@,
                    *read_record,
                    floor,
                    p@,
                ) ==> #[trigger] read.requires((p,)),
            forall|p: &str, b: &Vec<u8>, floor: u64|
                #[trigger] answered(load_floor, state_dir@, Ok(floor)) && may_reinstate(
                    *read_record,
                    floor,
                    p@,
                    b@,
                ) ==> #[trigger] write.requires((p, b)),
            forall|j: int|
                0 <= j < i ==> component_restored(
                    cache@,
                    *read_record,
                    *read,
                    *write,
                    #[trigger] views(components@)[j],
                    floor,
                ),
        decreases components@.len() - i,
    {
        let component: &String = &components[i];
        assert(views(components@)[i as int] == component@);
        assert(views(components@).contains(component@));
        let record: RecordRead = read_record(component.as_str());
        let ghost found = record;
        assert(record_read(*read_record, component@, found));
        let entry: LkgEntry = match cache.load_entry(component.as_str(), record) {
            Ok(entry) => entry,
            Err(e) => {
                proof {
                    assert(found !is Record);
                    assert(load_failed(cache@, *read_record, component@, e@));
                    assert(stopped_at(
                        cache@,
                        *read_record,
                        *read,
                        *write,
                        views(components@),
                        floor,
                        i as int,
                        e@,
                    ));
                }
                return Err(e);
            },
        };
        let ghost kept = found->Record_0;
        assert(found is Record);
        assert(entry@ == entry_for(cache@, component@, kept@));
        assert(record_read(*read_record, component@, RecordRead::Record(kept)));
        let read_cached = |p: &str| -> (x: Result<Vec<u8>, BrokerError>)
            requires
                read.requires((p,)),
            ensures
                read.ensures((p,), x),
            { read(p) };
        let write_back = |p: &str, b: &Vec<u8>| -> (x: Result<(), BrokerError>)
            requires
                write.requires((p, b)),
            ensures
                write.ensures((p, b), x),
            { write(p, b) };
        proof {
            assert forall|p: &str|
                p@ == entry.cached_path@ && floor_allows(
                    entry.build,
                    floor,
                    RestoreKind::CrossPass,
                ) implies #[trigger] read_cached.requires((p,)) by {
                assert(may_read_cached(cache@, *read_record, floor, p@));
                assert(read.requires((p,)));
            }
            assert forall|p: &str, b: &Vec<u8>|
                p@ == entry.dest@ && floor_allows(
                    entry.build,
                    floor,
                    RestoreKind::CrossPass,
                ) && was_read(read_cached, entry.cached_path@, Ok(b@)) && hex(sha256_of(b@))
                    == entry.digest@ implies #[trigger] write_back.requires(
                (p, b),
            ) by {
                assert(may_reinstate(*read_record, floor, p@, b@));
                assert(write.requires((p, b)));
            }
        }
        match cache.restore(&entry, floor, RestoreKind::CrossPass, read_cached, write_back) {
            Ok(_) => {
                proof {
                    let bytes = choose|bytes: Seq<u8>| #[trigger]
                        was_read(read_cached, entry.cached_path@, Ok(bytes))
                            && restoration(entry@, floor, RestoreKind::CrossPass, Ok(bytes)) == Ok::<
                            Seq<u8>,
                            ErrorView,
                        >(bytes) && was_written(
                            write_back,
                            entry.dest@,
                            bytes,
                            Ok(()),
                        );
                    assert(cache_read(*read, entry@.cached_path, Ok(bytes)));
                    assert(reinstated(*write, entry@.dest, bytes));
                    assert(entry_restored(*read, *write, entry@, floor));
                    assert(component_restored(
                        cache@,
                        *read_record,
                        *read,
                        *write,
                        views(components@)[i as int],
                        floor,
                    ));
                }
            },
            Err(e) => {
                proof {
                    lemma_refused(*read, *write, read_cached, write_back, entry, floor, e);
                    assert(component_refused(
                        cache@,
                        *read_record,
                        *read,
                        *write,
                        component@,
                        floor,
                        e@,
                    ));
                    assert(stopped_at(
                        cache@,
                        *read_record,
                        *read,
                        *write,
                        views(components@),
                        floor,
                        i as int,
                        e@,
                    ));
                }
                return Err(e);
            },
        }
        i = i + 1;
    }
    Ok(components)
}

/// A refusal over closures that only pass their arguments on is a refusal over what they call.
proof fn lemma_refused<
    B: Fn(&str) -> Result<Vec<u8>, BrokerError>,
    W: Fn(&str, &Vec<u8>) -> Result<(), BrokerError>,
    B2: FnOnce(&str) -> Result<Vec<u8>, BrokerError>,
    W2: FnOnce(&str, &Vec<u8>) -> Result<(), BrokerError>,
>(read: B, write: W, read_cached: B2, write_back: W2, entry: LkgEntry, floor: u64, e: BrokerError)
    requires
        forall|p: &str, x: Result<Vec<u8>, BrokerError>| #[trigger]
            read_cached.ensures((p,), x) ==> read.ensures((p,), x),
        forall|p: &str, b: &Vec<u8>, x: Result<(), BrokerError>| #[trigger]
            write_back.ensures((p, b), x) ==> write.ensures((p, b), x),
        (!floor_allows(entry.build, floor, RestoreKind::CrossPass) && e@
            == ErrorView::RollbackFailed(entry.component@, floor_text(entry.build, floor))) || (
        exists|cached: Result<Seq<u8>, ErrorView>| #[trigger]
            was_read(read_cached, entry.cached_path@, cached) && restoration(
                entry@,
                floor,
                RestoreKind::CrossPass,
                cached,
            ) == Err::<Seq<u8>, ErrorView>(e@)) || (exists|bytes: Seq<u8>, w: BrokerError|
            was_read(read_cached, entry.cached_path@, Ok(bytes)) && #[trigger] was_written(
                write_back,
                entry.dest@,
                bytes,
                Err(w),
            ) && e@ == ErrorView::RollbackFailed(
                entry.component@,
                "reinstate write failed: "@ + error_text(w@),
            )),
    ensures
        entry_refused(read, write, entry@, floor, e@),
{
    if exists|cached: Result<Seq<u8>, ErrorView>| #[trigger]
        was_read(read_cached, entry.cached_path@, cached) && restoration(
            entry@,
            floor,
            RestoreKind::CrossPass,
            cached,
        ) == Err::<Seq<u8>, ErrorView>(e@) {
        let cached = choose|cached: Result<Seq<u8>, ErrorView>| #[trigger]
            was_read(read_cached, entry.cached_path@, cached) && restoration(
                entry@,
                floor,
                RestoreKind::CrossPass,
                cached,
            ) == Err::<Seq<u8>, ErrorView>(e@);
        assert(cache_read(read, entry@.cached_path, cached));
    } else if exists|bytes: Seq<u8>, w: BrokerError|
        was_read(read_cached, entry.cached_path@, Ok(bytes)) && #[trigger] was_written(
            write_back,
            entry.dest@,
            bytes,
            Err(w),
        ) && e@ == ErrorView::RollbackFailed(
            entry.component@,
            "reinstate write failed: "@ + error_text(w@),
        ) {
        let (bytes, w) = choose|bytes: Seq<u8>, w: BrokerError|
            was_read(read_cached, entry.cached_path@, Ok(bytes)) && #[trigger] was_written(
                write_back,
                entry.dest@,
                bytes,
                Err(w),
            ) && e@ == ErrorView::RollbackFailed(
                entry.component@,
                "reinstate write failed: "@ + error_text(w@),
            );
        assert(reinstate_failed(write, entry@.dest, w));
    }
}

/// Whether the record of a component could not be loaded, with this error.
pub open spec fn load_failed<R: Fn(&str) -> RecordRead>(
    dir: Seq<char>,
    read_record: R,
    component: Seq<char>,
    e: ErrorView,
) -> bool {
    exists|found: RecordRead| #[trigger]
        record_read(read_record, component, found) && match found {
            RecordRead::Record(_) => false,
            RecordRead::Missing(why) => e == ErrorView::Io(
                "no last-known-good for "@ + component + ": "@ + why@,
            ),
            RecordRead::Malformed(why) => e == ErrorView::Io(why@),
        }
}

/// Writing bytes to `path` failed with `w`.
pub open spec fn reinstate_failed<W: Fn(&str, &Vec<u8>) -> Result<(), BrokerError>>(
    write: W,
    path: Seq<char>,
    w: BrokerError,
) -> bool {
    exists|p: &str, b: &Vec<u8>| p@ == path && #[trigger] write.ensures((p, b), Err(w))
}

/// Whether the entry could not be put back, with this error: the floor keeps it out, its bytes
/// cannot be read or are not those that were recorded, or they cannot be written.
pub open spec fn entry_refused<
    B: Fn(&str) -> Result<Vec<u8>, BrokerError>,
    W: Fn(&str, &Vec<u8>) -> Result<(), BrokerError>,
>(read: B, write: W, entry: EntryView, floor: u64, e: ErrorView) -> bool {
    ||| !floor_allows(entry.build, floor, RestoreKind::CrossPass) && e == ErrorView::RollbackFailed(
        entry.component,
        floor_text(entry.build, floor),
    )
    ||| exists|cached: Result<Seq<u8>, ErrorView>| #[trigger]
        cache_read(read, entry.cached_path, cached) && restoration(
            entry,
            floor,
            RestoreKind::CrossPass,
            cached,
        ) == Err::<Seq<u8>, ErrorView>(e)
    ||| exists|w: BrokerError| #[trigger]
        reinstate_failed(write, entry.dest, w) && e == ErrorView::RollbackFailed(
            entry.component,
            "reinstate write failed: "@ + error_text(w@),
        )
}

/// Whether a component with a record could not be rolled back to it, with this error.
pub open spec fn component_refused<
    R: Fn(&str) -> RecordRead,
    B: Fn(&str) -> Result<Vec<u8>, BrokerError>,
    W: Fn(&str, &Vec<u8>) -> Result<(), BrokerError>,
>(
    dir: Seq<char>,
    read_record: R,
    read: B,
    write: W,
    component: Seq<char>,
    floor: u64,
    e: ErrorView,
) -> bool {
    exists|kept: LkgRecord| #[trigger]
        record_read(read_record, component, RecordRead::Record(kept)) && entry_refused(
            read,
            write,
            entry_for(dir, component, kept@),
            floor,
            e,
        )
}

/// Whether the rollback stopped at component `k`, those before it having been rolled back.
pub open spec fn stopped_at<
    R: Fn(&str) -> RecordRead,
    B: Fn(&str) -> Result<Vec<u8>, BrokerError>,
    W: Fn(&str, &Vec<u8>) -> Result<(), BrokerError>,
>(
    dir: Seq<char>,
    read_record: R,
    read: B,
    write: W,
    components: Seq<Seq<char>>,
    floor: u64,
    k: int,
    e: ErrorView,
) -> bool {
    &&& 0 <= k < components.len()
    &&& forall|i: int|
        0 <= i < k ==> component_restored(
            dir,
            read_record,
            read,
            write,
            #[trigger] components[i],
            floor,
        )
    &&& load_failed(dir, read_record, components[k], e) || component_refused(
        dir,
        read_record,
        read,
        write,
        components[k],
        floor,
        e,
    )
}

// ------------------------------------------------------------------ laws

proof fn lemma_names_are_plain()
    ensures
        is_plain("staging"@),
        is_plain("lkg"@),
        is_plain("apply"@),
{
    reveal_strlit("staging");
    reveal_strlit("lkg");
    reveal_strlit("apply");
    assert("staging"@.len() == 7 && "lkg"@.len() == 3 && "apply"@.len() == 5);
}

/// The staging directory, the cache and the directory for packages lie directly below the state
/// directory, never in a place that others can write.
pub proof fn the_working_directories_are_below_the_state_directory(state_dir: Seq<char>)
    requires
        trim_back(state_dir, state_dir.len() as int) == state_dir.len(),
    ensures
        parent_of(joined(state_dir, "staging"@)) == Some(state_dir),
        parent_of(joined(state_dir, "lkg"@)) == Some(state_dir),
        parent_of(joined(state_dir, "apply"@)) == Some(state_dir),
{
    lemma_names_are_plain();
    lemma_join(state_dir, "staging"@);
    lemma_join(state_dir, "lkg"@);
    lemma_join(state_dir, "apply"@);
}

/// Every managed directory is guarded and may be repaired; the updater's own binary is guarded and
/// never is.
pub proof fn what_is_managed_is_guarded(state_dir: Seq<char>, exe: Option<Seq<char>>, i: int)
    requires
        0 <= i < managed(state_dir).len(),
    ensures
        guarded(state_dir, exe).contains((managed(state_dir)[i], Repair::IfOwned)),
        exe is Some ==> guarded(state_dir, exe).contains((exe->0, Repair::Never)),
{
    let all = guarded(state_dir, exe);
    assert(all[0] == (state_dir, Repair::IfOwned));
    assert(all[2] == (joined(state_dir, "lkg"@), Repair::IfOwned));
    assert(all[3] == (joined(state_dir, "apply"@), Repair::IfOwned));
    if exe is Some {
        assert(all[4] == (exe->0, Repair::Never));
    }
}

/// A resume takes back a pause, whatever its expiry, and leaves the channel.
pub proof fn a_resume_ends_a_pause(config: UpdaterConfig, until: Option<u64>, now: u64)
    ensures
        ({
            let after = edited(edited(config, ConfigEdit::Pause(until)), ConfigEdit::Resume);
            !paused_at(after, now) && after.channel == config.channel && after.schema
                == config.schema
        }),
{
}

/// A manual rollback that succeeds reverted every component whose record was among the files of the cache:
/// each to bytes that have the digest of its record, were cached under its name and are of a build that is
/// not below the floor, at the place that the record names.
#[verifier::rlimit(40)]
pub proof fn every_cached_component_is_rolled_back<
    L: FnOnce(&str) -> Result<u64, BrokerError>,
    R: Fn(&str) -> RecordRead,
    B: Fn(&str) -> Result<Vec<u8>, BrokerError>,
    W: Fn(&str, &Vec<u8>) -> Result<(), BrokerError>,
>(
    state_dir: Seq<char>,
    dir: Seq<char>,
    names: Seq<Seq<char>>,
    components: Seq<String>,
    load_floor: L,
    read_record: R,
    read: B,
    write: W,
    done: Vec<String>,
    k: int,
    component: Seq<char>,
)
    requires
        rolled_all_back(
            state_dir,
            dir,
            components,
            load_floor,
            read_record,
            read,
            write,
            Ok(done),
        ),
        views(components) == record_owners(names),
        0 <= k < names.len(),
        names[k] == component + ".json"@,
    ensures
        views(done@) == record_owners(names),
        views(done@).contains(component),
        exists|floor: u64, kept: LkgRecord, bytes: Seq<u8>| #[trigger]
            rolled_back_to(
                state_dir,
                dir,
                load_floor,
                read_record,
                read,
                write,
                component,
                floor,
                kept,
                bytes,
            ),
{
    let at = every_record_gives_its_component(names);
    let i: int = choose|i: int| 0 <= i < at.len() && #[trigger] at[i] == k;
    let owner = views(components)[i];
    assert(names[k] == owner + ".json"@);
    assert(owner =~= (owner + ".json"@).take(component.len() as int));
    assert(component =~= (component + ".json"@).take(component.len() as int));
    assert(owner == component);
    assert(views(done@)[i] == component);
    let floor = choose|floor: u64| #[trigger]
        answered(load_floor, state_dir, Ok(floor)) && forall|i: int|
            0 <= i < components.len() ==> component_restored(
                dir,
                read_record,
                read,
                write,
                #[trigger] views(components)[i],
                floor,
            );
    assert(component_restored(dir, read_record, read, write, views(components)[i], floor));
    let kept = choose|kept: LkgRecord| #[trigger]
        record_read(read_record, component, RecordRead::Record(kept)) && entry_restored(
            read,
            write,
            entry_for(dir, component, kept@),
            floor,
        );
    let entry = entry_for(dir, component, kept@);
    let bytes = choose|bytes: Seq<u8>| #[trigger]
        cache_read(read, entry.cached_path, Ok(bytes)) && restoration(
            entry,
            floor,
            RestoreKind::CrossPass,
            Ok(bytes),
        ) == Ok::<Seq<u8>, ErrorView>(bytes) && reinstated(write, entry.dest, bytes);
    let (p, x) = choose|p: &str, x: Result<Vec<u8>, BrokerError>|
        p@ == entry.cached_path && bytes_of(x) == Ok::<Seq<u8>, ErrorView>(bytes)
            && #[trigger] read.ensures((p,), x);
    assert(read.ensures((p,), Ok(x->Ok_0)));
    assert(rolled_back_to(
        state_dir,
        dir,
        load_floor,
        read_record,
        read,
        write,
        component,
        floor,
        kept,
        bytes,
    ));
}

/// Whether the component was rolled back to these bytes: the floor was read from the trust state, the
/// record from the cache, and the bytes from beside it; they have the record's digest, their build is not
/// below the floor, and they were written where the record says.
pub open spec fn rolled_back_to<
    L: FnOnce(&str) -> Result<u64, BrokerError>,
    R: Fn(&str) -> RecordRead,
    B: Fn(&str) -> Result<Vec<u8>, BrokerError>,
    W: Fn(&str, &Vec<u8>) -> Result<(), BrokerError>,
>(
    state_dir: Seq<char>,
    dir: Seq<char>,
    load_floor: L,
    read_record: R,
    read: B,
    write: W,
    component: Seq<char>,
    floor: u64,
    kept: LkgRecord,
    bytes: Seq<u8>,
) -> bool {
    &&& exists|d: &str| d@ == state_dir && #[trigger] load_floor.ensures((d,), Ok(floor))
    &&& exists|c: &str|
        c@ == component && #[trigger] read_record.ensures((c,), RecordRead::Record(kept))
    &&& exists|p: &str, b: Vec<u8>|
        p@ == joined(dir, component) && b@ == bytes && #[trigger] read.ensures((p,), Ok(b))
    &&& exists|p: &str, b: &Vec<u8>|
        p@ == kept.dest@ && b@ == bytes && #[trigger] write.ensures((p, b), Ok(()))
    &&& kept.digest@ == hex(sha256_of(bytes))
    &&& kept.build is Some
    &&& kept.build->0 >= floor
}

/// A pass that holds the lock does nothing while updates are paused, and says so; where they are not, what
/// it reports is what the pass itself came to, run with a restricted worker.
pub proof fn a_pause_stops_a_pass<
    C: FnOnce(&str) -> Result<UpdaterConfig, BrokerError>,
    P: FnOnce(Sandbox) -> Result<PassReport, BrokerError>,
    S: FnOnce(&PassReport, &UpdaterConfig),
>(
    state_dir: Seq<char>,
    load_config: C,
    now: u64,
    pass: P,
    mirror: S,
    r: Result<PassReport, BrokerError>,
)
    requires
        gated(state_dir, load_config, now, pass, mirror, r),
    ensures
        exists|d: &str, c: Result<UpdaterConfig, BrokerError>|
            d@ == state_dir && #[trigger] load_config.ensures((d,), c) && match c {
                Err(e) => r == Err::<PassReport, BrokerError>(e),
                Ok(config) => if config.paused && (config.paused_until is None || now
                    < config.paused_until->0) {
                    &&& r is Ok
                    &&& !r->Ok_0.applied
                    &&& !r->Ok_0.state_advanced
                    &&& r->Ok_0.components@.len() == 0
                    &&& r->Ok_0.reason is Some
                    &&& r->Ok_0.reason->0@ == "paused"@
                } else {
                    pass.ensures((Sandbox::Restricted,), r)
                },
            },
{
    if r is Err && answered(load_config, state_dir, Err(r->Err_0)) {
        let d = choose|d: &str|
            d@ == state_dir && #[trigger] load_config.ensures((d,), Err(r->Err_0));
        assert(load_config.ensures((d,), Err(r->Err_0)));
    } else {
        let config = choose|config: UpdaterConfig| #[trigger]
            answered(load_config, state_dir, Ok(config)) && if paused_at(config, now) {
                r is Ok && is_pause(r->Ok_0, config) && mirror.ensures((&r->Ok_0, &config), ())
            } else {
                ran(config, pass, mirror, r)
            };
        let d = choose|d: &str| d@ == state_dir && #[trigger] load_config.ensures((d,), Ok(config));
        assert(load_config.ensures((d,), Ok(config)));
    }
}

/// A change of the configuration changes what it names and nothing else.
pub proof fn a_change_changes_one_thing(
    config: UpdaterConfig,
    channel: Channel,
    until: Option<u64>,
)
    ensures
        ({
            let after = edited(config, ConfigEdit::SetChannel(channel));
            after.channel == channel && after.paused == config.paused && after.paused_until
                == config.paused_until && after.schema == config.schema
        }),
        ({
            let after = edited(config, ConfigEdit::Pause(until));
            after.paused && after.paused_until == until && after.channel == config.channel
                && after.schema == config.schema
        }),
        ({
            let after = edited(config, ConfigEdit::Resume);
            !after.paused && after.paused_until is None && after.channel == config.channel
                && after.schema == config.schema
        }),
{
}

/// What is guarded: the state directory and its three working directories, which may be repaired, and the
/// running program, which never is.
#[verifier::spinoff_prover]
#[verifier::rlimit(40)]
pub proof fn what_is_guarded(
    above: Seq<char>,
    last: Seq<char>,
    exe: Seq<char>,
    path: Seq<char>,
    repair: Repair,
)
    requires
        above.len() == 0 || above.last() == '/',
        is_plain(last),
    ensures
        guarded(above + last, Some(exe)).contains((path, repair)) <==> (repair is Never && path
            == exe) || (repair is IfOwned && (path == above + last || path == above + last
            + "/staging"@ || path == above + last + "/lkg"@ || path == above + last + "/apply"@)),
        managed(above + last) == seq![
            above + last,
            above + last + "/lkg"@,
            above + last + "/apply"@,
        ],
{
    let dir = above + last;
    lemma_working_dirs(above, last);
    let all = guarded(dir, Some(exe));
    assert(all.len() == 5);
    assert(all[0] == (dir, Repair::IfOwned));
    assert(all[1] == (dir + "/staging"@, Repair::IfOwned));
    assert(all[2] == (dir + "/lkg"@, Repair::IfOwned));
    assert(all[3] == (dir + "/apply"@, Repair::IfOwned));
    assert(all[4] == (exe, Repair::Never));
    if all.contains((path, repair)) {
        let i: int = choose|i: int| 0 <= i < all.len() && all[i] == (path, repair);
        assert(i == 0 || i == 1 || i == 2 || i == 3 || i == 4);
    }
    assert(managed(dir) =~= seq![dir, dir + "/lkg"@, dir + "/apply"@]);
}

proof fn lemma_working_dirs(above: Seq<char>, last: Seq<char>)
    requires
        above.len() == 0 || above.last() == '/',
        is_plain(last),
    ensures
        joined(above + last, "staging"@) == above + last + "/staging"@,
        joined(above + last, "lkg"@) == above + last + "/lkg"@,
        joined(above + last, "apply"@) == above + last + "/apply"@,
{
    assert("/staging"@ =~= seq!['/'] + "staging"@ && "staging"@.len() > 0 && "staging"@[0] != '/') by {
        reveal_strlit("/staging");
        reveal_strlit("staging");
    }
    assert("/lkg"@ =~= seq!['/'] + "lkg"@ && "lkg"@.len() > 0 && "lkg"@[0] != '/') by {
        reveal_strlit("/lkg");
        reveal_strlit("lkg");
    }
    assert("/apply"@ =~= seq!['/'] + "apply"@ && "apply"@.len() > 0 && "apply"@[0] != '/') by {
        reveal_strlit("/apply");
        reveal_strlit("apply");
    }
    lemma_joined_below(above, last, "staging"@);
    lemma_joined_below(above, last, "lkg"@);
    lemma_joined_below(above, last, "apply"@);
}

proof fn lemma_joined_below(above: Seq<char>, last: Seq<char>, name: Seq<char>)
    requires
        is_plain(last),
        name.len() > 0,
        name[0] != '/',
    ensures
        joined(above + last, name) == above + last + (seq!['/'] + name),
{
    let dir = above + last;
    assert(last[last.len() - 1] != '/');
    assert(dir.last() == last[last.len() - 1]);
    assert(dir + seq!['/'] + name =~= dir + (seq!['/'] + name));
}

/// What the status shows: what was mirrored last, as it is; for a host that was never checked, the alpha
/// channel without a pause.
pub proof fn what_the_status_shows(mirror: ConfigMirror, why: String)
    ensures
        shown_status(StatusRead::Shown(mirror)) == Ok::<ConfigMirror, ErrorView>(mirror),
        shown_status(StatusRead::NeverChecked) is Ok,
        shown_status(StatusRead::NeverChecked)->Ok_0.channel is Alpha,
        !shown_status(StatusRead::NeverChecked)->Ok_0.paused,
        shown_status(StatusRead::NeverChecked)->Ok_0.paused_until is None,
        shown_status(StatusRead::Malformed(why)) is Err,
{
}

/// A change of the configuration needs the privilege. With it, what is returned is the configuration that was
/// loaded, changed as asked, and that is what was saved; without it, nothing is.
pub proof fn a_change_needs_privilege_and_is_saved<
    E: FnOnce() -> bool,
    L: FnOnce(&str) -> Result<UpdaterConfig, BrokerError>,
    S: FnOnce(&str, &UpdaterConfig) -> Result<(), BrokerError>,
    M: FnOnce(&UpdaterConfig),
>(
    state_dir: Seq<char>,
    edit: ConfigEdit,
    is_elevated: E,
    load: L,
    save: S,
    mirror: M,
    r: Result<UpdaterConfig, BrokerError>,
)
    requires
        change_settled(state_dir, edit, is_elevated, load, save, mirror, r),
    ensures
        r is Ok ==> is_elevated.ensures((), true) && exists|d: &str, config: UpdaterConfig|
            d@ == state_dir && #[trigger] load.ensures((d,), Ok(config)) && r->Ok_0 == edited(
                config,
                edit,
            ),
        r is Ok ==> exists|d: &str|
            d@ == state_dir && #[trigger] save.ensures((d, &r->Ok_0), Ok(())),
        r is Ok ==> mirror.ensures((&r->Ok_0,), ()),
{
    if r is Ok {
        let config = choose|config: UpdaterConfig| #[trigger]
            answered(load, state_dir, Ok(config)) && r->Ok_0 == edited(config, edit)
                && config_saved(save, state_dir, r->Ok_0, Ok(())) && mirror.ensures(
                (&r->Ok_0,),
                (),
            );
        let d = choose|d: &str| d@ == state_dir && #[trigger] load.ensures((d,), Ok(config));
        assert(load.ensures((d,), Ok(config)));
    }
}

/// The worker runs from its own path, into the staging directory, with the trust state that was loaded and
/// with the privilege that was asked for; and what it reported is what is applied.
pub proof fn what_the_worker_reported_is_applied<
    T,
    L: FnOnce(&str) -> Result<T, BrokerError>,
    F: FnOnce(&str, &str, &T, Sandbox) -> Result<WorkerReport, BrokerError>,
    A: FnOnce(&WorkerReport, T) -> Result<PassReport, BrokerError>,
>(
    broker: BrokerView,
    sandbox: Sandbox,
    load: L,
    fetch: F,
    apply: A,
    r: Result<PassReport, BrokerError>,
)
    requires
        fetched_and_applied(broker, sandbox, load, fetch, apply, r),
        r is Ok,
    ensures
        exists|d: &str, state: T, w: &str, s: &str, report: WorkerReport|
            {
                &&& d@ == broker.state_dir
                &&& #[trigger] load.ensures((d,), Ok(state))
                &&& w@ == broker.worker_path
                &&& s@ == joined(broker.state_dir, "staging"@)
                &&& #[trigger] fetch.ensures((w, s, &state, sandbox), Ok(report))
                &&& apply.ensures((&report, state), r)
            },
{
    let (state, report) = choose|state: T, report: WorkerReport|
        #[trigger] answered(load, broker.state_dir, Ok(state)) && #[trigger] fetched(
            fetch,
            broker,
            state,
            sandbox,
            Ok(report),
        ) && apply.ensures((&report, state), r);
    let d = choose|d: &str| d@ == broker.state_dir && #[trigger] load.ensures((d,), Ok(state));
    let (w, s) = choose|w: &str, s: &str|
        w@ == broker.worker_path && s@ == joined(broker.state_dir, "staging"@)
            && #[trigger] fetch.ensures((w, s, &state, sandbox), Ok(report));
    assert(load.ensures((d,), Ok(state)) && fetch.ensures((w, s, &state, sandbox), Ok(report)));
}

/// A dry check gives what the restricted worker reported.
pub proof fn a_dry_check_gives_the_workers_report<
    T,
    L: FnOnce(&str) -> Result<T, BrokerError>,
    F: FnOnce(&str, &str, &T, Sandbox) -> Result<WorkerReport, BrokerError>,
    C: FnOnce(&str) -> Result<UpdaterConfig, BrokerError>,
    S: FnOnce(&WorkerReport, &UpdaterConfig),
>(
    broker: BrokerView,
    load: L,
    fetch: F,
    load_config: C,
    mirror: S,
    r: Result<WorkerReport, BrokerError>,
)
    requires
        dry_checked(broker, load, fetch, load_config, mirror, r),
        r is Ok,
    ensures
        exists|d: &str, state: T, w: &str, s: &str|
            {
                &&& d@ == broker.state_dir
                &&& #[trigger] load.ensures((d,), Ok(state))
                &&& w@ == broker.worker_path
                &&& s@ == joined(broker.state_dir, "staging"@)
                &&& #[trigger] fetch.ensures((w, s, &state, Sandbox::Restricted), r)
            },
        exists|config: UpdaterConfig| #[trigger] mirror.ensures((&r->Ok_0, &config), ()),
{
    let state = choose|state: T| #[trigger]
        answered(load, broker.state_dir, Ok(state)) && fetched(
            fetch,
            broker,
            state,
            Sandbox::Restricted,
            r,
        ) && mirrored_with_config(broker.state_dir, load_config, mirror, r->Ok_0);
    let d = choose|d: &str| d@ == broker.state_dir && #[trigger] load.ensures((d,), Ok(state));
    let (w, s) = choose|w: &str, s: &str|
        w@ == broker.worker_path && s@ == joined(broker.state_dir, "staging"@)
            && #[trigger] fetch.ensures((w, s, &state, Sandbox::Restricted), r);
    assert(load.ensures((d,), Ok(state)) && fetch.ensures((w, s, &state, Sandbox::Restricted), r));
}

/// Before the worker runs, everything is in place: the state directory, the cache and the directory for
/// packages were each prepared, all guarded paths were checked together, and the staging directory is ready
/// for a worker of that privilege.
pub proof fn a_pass_starts_on_guarded_ground<
    P: Fn(&str) -> Result<(), BrokerError>,
    K: FnOnce(&Vec<(String, Repair)>) -> Result<(), BrokerError>,
    G: FnOnce(&str, Sandbox) -> Result<(), BrokerError>,
>(
    state_dir: Seq<char>,
    exe: Option<Seq<char>>,
    sandbox: Sandbox,
    prepare: P,
    self_check: K,
    prepare_staging: G,
)
    requires
        in_place(state_dir, exe, sandbox, prepare, self_check, prepare_staging),
    ensures
        exists|d: &str| d@ == state_dir && #[trigger] prepare.ensures((d,), Ok(())),
        exists|d: &str|
            d@ == joined(state_dir, "lkg"@) && #[trigger] prepare.ensures((d,), Ok(())),
        exists|d: &str|
            d@ == joined(state_dir, "apply"@) && #[trigger] prepare.ensures((d,), Ok(())),
        exists|v: Vec<(String, Repair)>|
            guarded_views(v@) == guarded(state_dir, exe) && #[trigger] self_check.ensures(
                (&v,),
                Ok(()),
            ),
        exists|d: &str|
            d@ == joined(state_dir, "staging"@) && #[trigger] prepare_staging.ensures(
                (d, sandbox),
                Ok(()),
            ),
{
    let dirs = managed(state_dir);
    assert(dirs.len() == 3);
    assert(dirs[0] == state_dir && dirs[1] == joined(state_dir, "lkg"@) && dirs[2] == joined(
        state_dir,
        "apply"@,
    ));
    assert(prepared(prepare, dirs[0], Ok(())));
    assert(prepared(prepare, dirs[1], Ok(())));
    assert(prepared(prepare, dirs[2], Ok(())));
}

} // verus!
