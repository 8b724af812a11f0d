//! Applying one verified plan.
//!
//! A pass goes in a fixed order. The worker's plan is re-verified under the broker's own root key
//! before anything is decided. Each component is planned against the re-verified manifest. Every
//! actionable component but the updater's own is applied behind the health gate. The trust state
//! advances only if each of those was installed and passed its gate, and only then, always last,
//! does the updater replace itself ([`Installer::apply`]).
//!
//! One component goes through [`Installer::apply_one`]: the staged bytes of the first of its builds
//! that this host can load are contained, copied and verified; its binaries are snapshotted; its
//! service is stopped; it is installed, checked and on failure rolled back; and its service is
//! started again on every path on which it was stopped.

use vstd::prelude::*;

use crate::error::{BrokerError, ErrorView};
use crate::hashing::{hex, sha256_of};
use crate::health::{health_ok, judge_health, the_promised_version_is_healthy};
use crate::install::{
    are_expected, contained_staged_path, containment, copy_refused, list_of, listed,
    only_what_is_below_staging_is_taken, private_target, private_target_of,
    stage_and_verify_private, texts_of, InstallOutcome, OutcomeView,
};
use crate::installed::InstalledBuilds;
use crate::loadable::Loadability;
use crate::manifest::{Manifest, Platform, StagedArtifact};
use crate::path::{components, file_name, name_of};
use crate::plan::{
    complete, digest_answer, digest_evidence, first_missing, hashed, is_level, may_hash,
    may_look_for, may_probe, probed, the_first_target_of_a_name_counts, target_named, BEACON_COMPONENT_NAME, Catalog, HeldComponent, InstallMethod,
    Plan, PlanInput, PlannedComponent,
};
use crate::resolver::{
    a_version_is_read, action_token, lemma_no_version, lemma_shown_version, release_version,
    shown_version, the_last_word_of_the_first_line_counts, version_word, DetectedVersion,
    UpdateAction,
};
use crate::rollback::{LkgEntry, LkgRecord, RecordRead};
use crate::text::{
    add_texts, ascii_lowered, cat2, cat3, cat4, decimal, decimal_of, opt_view, same_text, views,
};

verus! {

/// What became of one component.
#[derive(Debug, Clone, Copy, PartialEq, Eq, Structural)]
pub enum ComponentResult {
    /// It was installed and passed its health gate.
    Installed,
    /// It was already current.
    Skipped,
    /// Its install was put off to the next pass.
    Deferred,
    /// Its install or its health gate failed, and it was rolled back.
    RolledBack,
    /// It was deliberately not acted on.
    Held,
}

/// The token for a result.
pub open spec fn result_token(result: ComponentResult) -> Seq<char> {
    match result {
        ComponentResult::Installed => "installed"@,
        ComponentResult::Skipped => "skipped"@,
        ComponentResult::Deferred => "deferred"@,
        ComponentResult::RolledBack => "rolled_back"@,
        ComponentResult::Held => "held"@,
    }
}

impl ComponentResult {
    /// The stable token for this result.
    #[must_use]
    pub fn as_str(self) -> (token: &'static str)
        ensures
            token@ == result_token(self),
    {
        match self {
            ComponentResult::Installed => "installed",
            ComponentResult::Skipped => "skipped",
            ComponentResult::Deferred => "deferred",
            ComponentResult::RolledBack => "rolled_back",
            ComponentResult::Held => "held",
        }
    }
}

/// One line of a pass report.
#[derive(Debug, Clone, PartialEq, Eq)]
pub struct ComponentOutcome {
    /// The component's name.
    pub component: String,
    /// The planned action (`install`, `update`, `skip`), or `hold`.
    pub action: String,
    /// What actually happened.
    pub result: ComponentResult,
    /// For an installed component, what it was found to report afterwards; else the plan's summary
    /// or the reason.
    pub detail: String,
}

/// [`ComponentOutcome`] with its texts as sequences.
#[verifier::ext_equal]
pub struct LineView {
    pub component: Seq<char>,
    pub action: Seq<char>,
    pub result: ComponentResult,
    pub detail: Seq<char>,
}

impl View for ComponentOutcome {
    type V = LineView;

    open spec fn view(&self) -> LineView {
        LineView {
            component: self.component@,
            action: self.action@,
            result: self.result,
            detail: self.detail@,
        }
    }
}

/// The line for a planned component.
pub open spec fn line(pc: PlannedComponent, result: ComponentResult, detail: Seq<char>) -> LineView {
    LineView { component: pc.name@, action: action_token(pc.action), result, detail }
}

/// The line for a held component.
pub open spec fn held_line(held: HeldComponent) -> LineView {
    LineView {
        component: held.name@,
        action: "hold"@,
        result: ComponentResult::Held,
        detail: held.reason@,
    }
}

/// The views of the lines.
pub open spec fn line_views(lines: Seq<ComponentOutcome>) -> Seq<LineView> {
    Seq::new(lines.len(), |i: int| lines[i]@)
}

impl ComponentOutcome {
    /// The line for a planned component.
    pub fn from(pc: &PlannedComponent, result: ComponentResult, detail: String) -> (o: Self)
        ensures
            o@ == line(*pc, result, detail@),
    {
        ComponentOutcome {
            component: pc.name.clone(),
            action: pc.action.as_str().to_owned(),
            result,
            detail,
        }
    }

    /// The line for a held component.
    pub fn held(held: &HeldComponent) -> (o: Self)
        ensures
            o@ == held_line(*held),
    {
        ComponentOutcome {
            component: held.name.clone(),
            action: "hold".to_owned(),
            result: ComponentResult::Held,
            detail: held.reason.clone(),
        }
    }
}

/// The outcome of a whole pass.
#[derive(Debug, Clone, PartialEq, Eq)]
pub struct PassReport {
    /// Whether a verified plan was applied.
    pub applied: bool,
    /// Where none was, the stable reason.
    pub reason: Option<String>,
    /// Where none was, the detail for people.
    pub detail: Option<String>,
    /// What became of each component.
    pub components: Vec<ComponentOutcome>,
    /// Whether the trust state advanced.
    pub state_advanced: bool,
}

/// Whether the report says that nothing was done, and why.
pub open spec fn did_nothing(report: PassReport, reason: Seq<char>, detail: Seq<char>) -> bool {
    &&& !report.applied
    &&& opt_view(report.reason) == Some(reason)
    &&& opt_view(report.detail) == Some(detail)
    &&& report.components@.len() == 0
    &&& !report.state_advanced
}

impl PassReport {
    /// A pass that did nothing.
    pub fn nothing_to_do(reason: &str, detail: &str) -> (report: Self)
        ensures
            did_nothing(report, reason@, detail@),
    {
        PassReport {
            applied: false,
            reason: Some(reason.to_owned()),
            detail: Some(detail.to_owned()),
            components: Vec::new(),
            state_advanced: false,
        }
    }

    /// A prior pass still holds the single-instance lock: an ordinary outcome.
    #[must_use]
    pub fn already_running() -> (report: Self)
        ensures
            did_nothing(
                report,
                "already_running"@,
                "a prior pass still holds the single-instance lock; exited without acting"@,
            ),
    {
        PassReport::nothing_to_do(
            "already_running",
            "a prior pass still holds the single-instance lock; exited without acting",
        )
    }

    /// Updates are paused: an ordinary outcome.
    #[must_use]
    pub fn paused(paused_until: Option<u64>) -> (report: Self)
        ensures
            did_nothing(
                report,
                "paused"@,
                match paused_until {
                    Some(until) => "auto-updates are paused until unix time "@ + decimal(
                        until as nat,
                    ) + "; exited without acting"@,
                    None => "auto-updates are paused; exited without acting"@,
                },
            ),
    {
        match paused_until {
            Some(until) => {
                let n: String = decimal_of(until);
                let detail: String = cat3(
                    "auto-updates are paused until unix time ",
                    n.as_str(),
                    "; exited without acting",
                );
                PassReport::nothing_to_do("paused", detail.as_str())
            },
            None => PassReport::nothing_to_do(
                "paused",
                "auto-updates are paused; exited without acting",
            ),
        }
    }
}

// ------------------------------------------------------------------ services

/// What is asked of a service.
#[derive(Debug, Clone, Copy, PartialEq, Eq, Structural)]
pub enum ServiceAction {
    /// Stop it.
    Stop,
    /// Start it.
    Start,
}

/// Asking the service for `action` came to `r`.
pub open spec fn controlled<C: FnOnce(&str, ServiceAction) -> Result<(), String>>(
    control: C,
    service: Seq<char>,
    action: ServiceAction,
    r: Result<(), String>,
) -> bool {
    exists|s: &str| s@ == service && #[trigger] control.ensures((s, action), r)
}

/// What a failed restart adds to a line.
pub open spec fn restart_warning(service: Seq<char>, restarted: Result<(), String>) -> Seq<char> {
    match restarted {
        Ok(_) => Seq::empty(),
        Err(why) => " (warning: could not restart "@ + service + ": "@ + why@ + ")"@,
    }
}

/// `r` with `more` added to the line's detail.
pub open spec fn annotated(
    r: Result<ComponentOutcome, BrokerError>,
    more: Seq<char>,
    out: Result<ComponentOutcome, BrokerError>,
) -> bool {
    match r {
        Err(e) => out == Err::<ComponentOutcome, BrokerError>(e),
        Ok(o) => out matches Ok(l) && l@ == (LineView { detail: o.detail@ + more, ..o@ }),
    }
}

/// Whether `out` is `result` after the service was started again.
pub open spec fn started_again<C: FnOnce(&str, ServiceAction) -> Result<(), String>>(
    service: Seq<char>,
    control: C,
    result: Result<ComponentOutcome, BrokerError>,
    out: Result<ComponentOutcome, BrokerError>,
) -> bool {
    exists|c: Result<(), String>| #[trigger]
        controlled(control, service, ServiceAction::Start, c) && annotated(
            result,
            restart_warning(service, c),
            out,
        )
}

/// Whether `out` is `result` after the service, if there is one, was started again.
pub open spec fn restarted<C: FnOnce(&str, ServiceAction) -> Result<(), String>>(
    service: Option<Seq<char>>,
    control: C,
    result: Result<ComponentOutcome, BrokerError>,
    out: Result<ComponentOutcome, BrokerError>,
) -> bool {
    match service {
        None => out == result,
        Some(s) => started_again(s, control, result, out),
    }
}

/// Start a stopped service again, whatever became of the install: a success, a deferral, a rollback
/// or an error, which is passed on only after the start. A failed start is a warning in the line's
/// detail and changes nothing else.
///
/// # Errors
///
/// The error that `result` holds.
pub fn restart_after<C: FnOnce(&str, ServiceAction) -> Result<(), String>>(
    service: Option<&str>,
    control: C,
    result: Result<ComponentOutcome, BrokerError>,
) -> (out: Result<ComponentOutcome, BrokerError>)
    requires
        service is Some ==> control.requires((service->0, ServiceAction::Start)),
    ensures
        restarted(
            match service {
                Some(s) => Some(s@),
                None => None,
            },
            control,
            result,
            out,
        ),
{
    let s: &str = match service {
        Some(s) => s,
        None => return result,
    };
    let c: Result<(), String> = control(s, ServiceAction::Start);
    assert(controlled(control, s@, ServiceAction::Start, c));
    let warning: String = match &c {
        Ok(_) => String::new(),
        Err(why) => {
            let head: String = cat4(" (warning: could not restart ", s, ": ", why.as_str());
            cat2(head.as_str(), ")")
        },
    };
    assert(warning@ =~= restart_warning(s@, c));
    match result {
        Err(e) => Err(e),
        Ok(o) => {
            let detail: String = cat2(o.detail.as_str(), warning.as_str());
            Ok(
                ComponentOutcome {
                    component: o.component,
                    action: o.action,
                    result: o.result,
                    detail,
                },
            )
        },
    }
}

// ------------------------------------------------------------------ snapshots of a binary set

/// The cache key of an alias: distinct from that of its component, and a plain file name.
pub open spec fn alias_key(component: Seq<char>, alias: Seq<char>) -> Seq<char> {
    component + "--"@ + match name_of(alias) {
        Some(leaf) => leaf,
        None => Seq::empty(),
    }
}

/// Computes [`alias_key`].
#[must_use]
pub fn alias_cache_key(component: &str, alias: &str) -> (key: String)
    ensures
        key@ == alias_key(component@, alias@),
{
    match file_name(alias) {
        Some(leaf) => cat3(component, "--", leaf.as_str()),
        None => {
            let key: String = cat2(component, "--");
            assert(key@ =~= alias_key(component@, alias@));
            key
        },
    }
}

/// A binary and what was there before the pass; nothing, for one that was not installed.
#[derive(Debug, Clone, PartialEq, Eq)]
pub struct BinarySnapshot {
    /// Where the binary is.
    pub dest: String,
    /// Its snapshot.
    pub entry: Option<LkgEntry>,
}

/// Snapshotting `dest` under `key` came to `r`, and took the notes from `before` to `after`.
pub open spec fn snapped<
    N,
    S: Fn(N, &str, &str, Option<u64>) -> (N, Result<Option<LkgEntry>, BrokerError>),
>(
    snapshot: S,
    before: N,
    key: Seq<char>,
    dest: Seq<char>,
    build: Option<u64>,
    r: Result<Option<LkgEntry>, BrokerError>,
    after: N,
) -> bool {
    exists|k: &str, d: &str|
        k@ == key && d@ == dest && #[trigger] snapshot.ensures((before, k, d, build), (after, r))
}

/// The cache key of the `i`-th binary of a component: that of the primary is the component's name.
pub open spec fn key_of(pc: PlannedComponent, i: int) -> Seq<char> {
    if i == 0 {
        pc.name@
    } else {
        alias_key(pc.name@, pc.aliases@[i - 1]@)
    }
}

/// The `i`-th binary of a component, the primary first.
pub open spec fn binary_of(pc: PlannedComponent, i: int) -> Seq<char> {
    if i == 0 {
        pc.dest@
    } else {
        pc.aliases@[i - 1]@
    }
}

/// Whether the first binaries of a component were snapshotted so, one after the other, with the
/// notes handed from each to the next.
pub open spec fn snapped_in_turn<
    N,
    S: Fn(N, &str, &str, Option<u64>) -> (N, Result<Option<LkgEntry>, BrokerError>),
>(snapshot: S, pc: PlannedComponent, snapshots: Seq<BinarySnapshot>, handed: Seq<N>) -> bool {
    &&& handed.len() == snapshots.len() + 1
    &&& forall|i: int|
        0 <= i < snapshots.len() ==> {
            &&& (#[trigger] snapshots[i]).dest@ == binary_of(pc, i)
            &&& snapped(
                snapshot,
                handed[i],
                key_of(pc, i),
                binary_of(pc, i),
                pc.installed_build,
                Ok(snapshots[i].entry),
                handed[i + 1],
            )
        }
}

/// Whether the first binaries of a component were snapshotted so, with the notes from `notes` to
/// `now`.
pub open spec fn set_snapped<
    N,
    S: Fn(N, &str, &str, Option<u64>) -> (N, Result<Option<LkgEntry>, BrokerError>),
>(pc: PlannedComponent, notes: N, snapshot: S, snapshots: Seq<BinarySnapshot>, now: N) -> bool {
    exists|handed: Seq<N>|
        {
            &&& #[trigger] snapped_in_turn(snapshot, pc, snapshots, handed)
            &&& handed[0] == notes
            &&& handed.last() == now
        }
}

/// Whether the snapshots are those of the whole set.
pub open spec fn whole_set_snapped<
    N,
    S: Fn(N, &str, &str, Option<u64>) -> (N, Result<Option<LkgEntry>, BrokerError>),
>(pc: PlannedComponent, notes: N, snapshot: S, snapshots: Seq<BinarySnapshot>) -> bool {
    snapshots.len() == 1 + pc.aliases@.len() && exists|now: N| #[trigger]
        set_snapped(pc, notes, snapshot, snapshots, now)
}

/// Whether `d` is the next binary of the component to be snapshotted, and `k` its cache key, where
/// the notes have come from `notes` to `now`. Once the whole set is, there is none: a snapshot that
/// was taken is never replaced.
pub open spec fn may_snapshot<
    N,
    S: Fn(N, &str, &str, Option<u64>) -> (N, Result<Option<LkgEntry>, BrokerError>),
>(
    pc: PlannedComponent,
    notes: N,
    snapshot: S,
    now: N,
    k: Seq<char>,
    d: Seq<char>,
) -> bool {
    exists|snapshots: Seq<BinarySnapshot>|
        {
            &&& #[trigger] set_snapped(pc, notes, snapshot, snapshots, now)
            &&& snapshots.len() <= pc.aliases@.len()
            &&& k == key_of(pc, snapshots.len() as int)
            &&& d == binary_of(pc, snapshots.len() as int)
        }
}

/// Whether a snapshot could not be taken, with this error, after those before it were.
pub open spec fn snapshot_failed<
    N,
    S: Fn(N, &str, &str, Option<u64>) -> (N, Result<Option<LkgEntry>, BrokerError>),
>(pc: PlannedComponent, notes: N, snapshot: S, e: BrokerError) -> bool {
    exists|snapshots: Seq<BinarySnapshot>, now: N, after: N|
        {
            &&& #[trigger] set_snapped(pc, notes, snapshot, snapshots, now)
            &&& snapshots.len() <= pc.aliases@.len()
            &&& #[trigger] snapped(
                snapshot,
                now,
                key_of(pc, snapshots.len() as int),
                binary_of(pc, snapshots.len() as int),
                pc.installed_build,
                Err(e),
                after,
            )
        }
}

proof fn lemma_snapped_push<
    N,
    S: Fn(N, &str, &str, Option<u64>) -> (N, Result<Option<LkgEntry>, BrokerError>),
>(
    snapshot: S,
    pc: PlannedComponent,
    snapshots: Seq<BinarySnapshot>,
    handed: Seq<N>,
    next: BinarySnapshot,
    after: N,
)
    requires
        snapped_in_turn(snapshot, pc, snapshots, handed),
        next.dest@ == binary_of(pc, snapshots.len() as int),
        snapped(
            snapshot,
            handed.last(),
            key_of(pc, snapshots.len() as int),
            binary_of(pc, snapshots.len() as int),
            pc.installed_build,
            Ok(next.entry),
            after,
        ),
    ensures
        snapped_in_turn(snapshot, pc, snapshots.push(next), handed.push(after)),
{
    let more = snapshots.push(next);
    let longer = handed.push(after);
    assert forall|i: int| 0 <= i < more.len() implies (#[trigger] more[i]).dest@ == binary_of(pc, i)
        && snapped(
        snapshot,
        longer[i],
        key_of(pc, i),
        binary_of(pc, i),
        pc.installed_build,
        Ok(more[i].entry),
        longer[i + 1],
    ) by {
        if i < snapshots.len() {
            assert(more[i] == snapshots[i]);
        }
    }
}

/// Snapshot every binary of a component, so that a rollback reverts the whole set.
///
/// `snapshot` takes the caller's notes and gives them back, so that each binary is snapshotted once.
///
/// # Errors
///
/// What the first failed snapshot reports.
pub fn snapshot_set<
    N,
    S: Fn(N, &str, &str, Option<u64>) -> (N, Result<Option<LkgEntry>, BrokerError>),
>(pc: &PlannedComponent, notes: N, snapshot: &S) -> (r: Result<Vec<BinarySnapshot>, BrokerError>)
    requires
        forall|now: N, k: &str, d: &str|
            may_snapshot(*pc, notes, *snapshot, now, k@, d@) ==> #[trigger] snapshot.requires(
                (now, k, d, pc.installed_build),
            ),
    ensures
        r matches Ok(snapshots) ==> whole_set_snapped(*pc, notes, *snapshot, snapshots@),
        r matches Err(e) ==> snapshot_failed(*pc, notes, *snapshot, e),
{
    let mut snapshots: Vec<BinarySnapshot> = Vec::new();
    let ghost first = notes;
    let ghost mut handed: Seq<N> = seq![notes];
    let mut now: N = notes;
    let mut i: usize = 0;
    let all: usize = pc.aliases.len();
    loop
        invariant
            all == pc.aliases@.len(),
            i <= all,
            forall|now: N, k: &str, d: &str|
                may_snapshot(*pc, first, *snapshot, now, k@, d@) ==> #[trigger] snapshot.requires(
                    (now, k, d, pc.installed_build),
                ),
            first == notes,
            snapshots@.len() == i,
            snapped_in_turn(*snapshot, *pc, snapshots@, handed),
            handed[0] == first,
            handed.last() == now,
        decreases all - i,
    {
        let dest: &String = if i == 0 {
            &pc.dest
        } else {
            &pc.aliases[i - 1]
        };
        let key: String = if i == 0 {
            pc.name.clone()
        } else {
            alias_cache_key(pc.name.as_str(), dest.as_str())
        };
        let ghost before = now;
        assert(set_snapped(*pc, first, *snapshot, snapshots@, before));
        assert(may_snapshot(*pc, first, *snapshot, before, key@, dest@));
        let (after, taken) = snapshot(now, key.as_str(), dest.as_str(), pc.installed_build);
        assert(snapped(
            *snapshot,
            before,
            key_of(*pc, i as int),
            binary_of(*pc, i as int),
            pc.installed_build,
            taken,
            after,
        ));
        match taken {
            Ok(entry) => {
                let next = BinarySnapshot { dest: dest.clone(), entry };
                proof {
                    lemma_snapped_push(*snapshot, *pc, snapshots@, handed, next, after);
                    handed = handed.push(after);
                }
                snapshots.push(next);
            },
            Err(e) => {
                assert(snapshot_failed(*pc, first, *snapshot, e));
                return Err(e);
            },
        }
        now = after;
        if i == all {
            assert(set_snapped(*pc, first, *snapshot, snapshots@, now));
            return Ok(snapshots);
        }
        i = i + 1;
    }
}

/// Removing `dest` came to `r`.
pub open spec fn removed<M: Fn(&str) -> Result<(), String>>(
    remove: M,
    dest: Seq<char>,
    r: Result<(), String>,
) -> bool {
    exists|d: &str| d@ == dest && #[trigger] remove.ensures((d,), r)
}

/// Whether reverting one binary came to `r`: a snapshot is put back, and a binary that was not
/// there before the pass is removed.
pub open spec fn reverted<
    R: Fn(&LkgEntry) -> Result<(), BrokerError>,
    M: Fn(&str) -> Result<(), String>,
>(restore: R, remove: M, snapshot: BinarySnapshot, r: Result<(), ErrorView>) -> bool {
    match snapshot.entry {
        Some(entry) => match r {
            Ok(_) => restore.ensures((&entry,), Ok(())),
            Err(e) => exists|b: BrokerError| b@ == e && #[trigger] restore.ensures(
                (&entry,),
                Err(b),
            ),
        },
        None => match r {
            Ok(_) => removed(remove, snapshot.dest@, Ok(())),
            Err(e) => exists|why: String| #[trigger]
                removed(remove, snapshot.dest@, Err(why)) && e == ErrorView::RollbackFailed(
                    snapshot.dest@,
                    "could not remove freshly-installed binary: "@ + why@,
                ),
        },
    }
}

/// Whether the entry is one of the snapshots.
pub open spec fn is_snapshotted(snapshots: Seq<BinarySnapshot>, entry: LkgEntry) -> bool {
    exists|i: int| 0 <= i < snapshots.len() && (#[trigger] snapshots[i]).entry == Some(entry)
}

/// Whether there was nothing at the place before the pass.
pub open spec fn was_absent(snapshots: Seq<BinarySnapshot>, dest: Seq<char>) -> bool {
    exists|i: int|
        0 <= i < snapshots.len() && (#[trigger] snapshots[i]).dest@ == dest && snapshots[i].entry
            is None
}

/// Revert every binary of a component to what it was before the pass.
///
/// `restore` puts a snapshot of this pass back; `remove` removes a file that may not be there.
///
/// # Errors
///
/// The error of the first binary that could not be reverted; all before it were.
pub fn rollback_set<
    R: Fn(&LkgEntry) -> Result<(), BrokerError>,
    M: Fn(&str) -> Result<(), String>,
>(snapshots: &Vec<BinarySnapshot>, restore: &R, remove: &M) -> (r: Result<(), BrokerError>)
    requires
        forall|e: &LkgEntry|
            is_snapshotted(snapshots@, *e) ==> #[trigger] restore.requires((e,)),
        forall|d: &str| was_absent(snapshots@, d@) ==> #[trigger] remove.requires((d,)),
    ensures
        r is Ok ==> forall|i: int|
            0 <= i < snapshots@.len() ==> reverted(
                *restore,
                *remove,
                #[trigger] snapshots@[i],
                Ok(()),
            ),
        r matches Err(e) ==> exists|k: int|
            {
                &&& 0 <= k < snapshots@.len()
                &&& reverted(*restore, *remove, #[trigger] snapshots@[k], Err(e@))
                &&& forall|i: int|
                    0 <= i < k ==> reverted(*restore, *remove, #[trigger] snapshots@[i], Ok(()))
            },
{
    let mut i: usize = 0;
    while i < snapshots.len()
        invariant
            i <= snapshots@.len(),
            forall|e: &LkgEntry|
                is_snapshotted(snapshots@, *e) ==> #[trigger] restore.requires((e,)),
            forall|d: &str| was_absent(snapshots@, d@) ==> #[trigger] remove.requires((d,)),
            forall|j: int|
                0 <= j < i ==> reverted(*restore, *remove, #[trigger] snapshots@[j], Ok(())),
        decreases snapshots@.len() - i,
    {
        let snapshot: &BinarySnapshot = &snapshots[i];
        assert(snapshots@[i as int] == *snapshot);
        match &snapshot.entry {
            Some(entry) => match restore(entry) {
                Ok(u) => {
                    assert(u == ());
                },
                Err(e) => {
                    assert(reverted(*restore, *remove, snapshots@[i as int], Err(e@)));
                    return Err(e);
                },
            },
            None => match remove(snapshot.dest.as_str()) {
                Ok(u) => {
                    assert(u == ());
                    assert(removed(*remove, snapshot.dest@, Ok(())));
                },
                Err(why) => {
                    assert(removed(*remove, snapshot.dest@, Err(why)));
                    let e = BrokerError::RollbackFailed {
                        component: snapshot.dest.clone(),
                        detail: cat2(
                            "could not remove freshly-installed binary: ",
                            why.as_str(),
                        ),
                    };
                    assert(reverted(*restore, *remove, snapshots@[i as int], Err(e@)));
                    return Err(e);
                },
            },
        }
        assert(reverted(*restore, *remove, snapshots@[i as int], Ok(())));
        i = i + 1;
    }
    Ok(())
}

// ------------------------------------------------------------------ the health gate

/// What is seen of a binary of the component: what it answers, where it may be executed, and what
/// its digest says otherwise, held against that of the build that was installed.
pub open spec fn seen<D: Fn(&str) -> DetectedVersion, G: Fn(&str) -> Option<String>>(
    pc: PlannedComponent,
    expected: Seq<char>,
    health: D,
    digest: G,
    path: Seq<char>,
    d: DetectedVersion,
) -> bool {
    &&& pc.evidence is SafeToProbe ==> probed(health, path, d)
    &&& pc.evidence !is SafeToProbe ==> exists|found: Option<String>| #[trigger]
        hashed(digest, path, found) && d@ == digest_answer(
            opt_view(found),
            seq![expected],
            pc.version@,
        )
}

/// Whether a binary of the component was checked with this answer.
pub open spec fn checked<D: Fn(&str) -> DetectedVersion, G: Fn(&str) -> Option<String>>(
    pc: PlannedComponent,
    expected: Seq<char>,
    health: D,
    digest: G,
    path: Seq<char>,
    answer: Result<DetectedVersion, String>,
) -> bool {
    exists|d: DetectedVersion| #[trigger]
        seen(pc, expected, health, digest, path, d) && health_ok(path, pc.version@, d, answer)
}

/// Whether an alias passed its check.
pub open spec fn alias_passed<D: Fn(&str) -> DetectedVersion, G: Fn(&str) -> Option<String>>(
    pc: PlannedComponent,
    expected: Seq<char>,
    health: D,
    digest: G,
    alias: Seq<char>,
) -> bool {
    exists|d: DetectedVersion| #[trigger] checked(pc, expected, health, digest, alias, Ok(d))
}

/// Whether an alias failed its check, and so the health check with this detail.
pub open spec fn alias_failed<D: Fn(&str) -> DetectedVersion, G: Fn(&str) -> Option<String>>(
    pc: PlannedComponent,
    expected: Seq<char>,
    health: D,
    digest: G,
    alias: Seq<char>,
    detail: Seq<char>,
) -> bool {
    exists|why: String| #[trigger]
        checked(pc, expected, health, digest, alias, Err(why)) && detail == "alias "@ + alias
            + " failed the version check: "@ + why@
}

/// Whether the health check's answer is right: every binary of the component passed, or `answer`
/// tells of the first that did not.
pub open spec fn gate_ok<D: Fn(&str) -> DetectedVersion, G: Fn(&str) -> Option<String>>(
    pc: PlannedComponent,
    expected: Seq<char>,
    health: D,
    digest: G,
    answer: Result<DetectedVersion, String>,
) -> bool {
    &&& answer is Ok ==> checked(pc, expected, health, digest, pc.dest@, answer) && forall|i: int|
        0 <= i < pc.aliases@.len() ==> alias_passed(
            pc,
            expected,
            health,
            digest,
            #[trigger] views(pc.aliases@)[i],
        )
    &&& answer is Err ==> {
        ||| checked(pc, expected, health, digest, pc.dest@, answer)
        ||| exists|k: int|
            {
                &&& 0 <= k < pc.aliases@.len()
                &&& alias_failed(
                    pc,
                    expected,
                    health,
                    digest,
                    #[trigger] views(pc.aliases@)[k],
                    answer->Err_0@,
                )
                &&& forall|i: int|
                    0 <= i < k ==> alias_passed(
                        pc,
                        expected,
                        health,
                        digest,
                        #[trigger] views(pc.aliases@)[i],
                    )
            }
    }
}

/// Check one binary of a component by the evidence that it was planned by.
fn check_binary<D: Fn(&str) -> DetectedVersion, G: Fn(&str) -> Option<String>>(
    pc: &PlannedComponent,
    expected: &str,
    path: &str,
    health: &D,
    digest: &G,
) -> (answer: Result<DetectedVersion, String>)
    requires
        pc.evidence is SafeToProbe ==> health.requires((path,)),
        pc.evidence !is SafeToProbe ==> digest.requires((path,)),
    ensures
        checked(*pc, expected@, *health, *digest, path@, answer),
{
    let detected: DetectedVersion = if pc.evidence.requires_execution() {
        let d: DetectedVersion = health(path);
        assert(probed(*health, path@, d));
        d
    } else {
        let found: Option<String> = digest(path);
        assert(hashed(*digest, path@, found));
        let mut digests: Vec<String> = Vec::new();
        digests.push(expected.to_owned());
        assert(views(digests@) =~= seq![expected@]);
        digest_evidence(&found, &digests, pc.version.as_str())
    };
    assert(seen(*pc, expected@, *health, *digest, path@, detected));
    judge_health(path, pc.version.as_str(), detected)
}

/// Whether `path` is a binary of the component.
pub open spec fn owns(pc: PlannedComponent, path: Seq<char>) -> bool {
    path == pc.dest@ || views(pc.aliases@).contains(path)
}

/// Health-gate every binary of a component: each must now be the manifest's version, a stale alias
/// as much as a stale primary. Gives what the primary was found to be.
///
/// The health check uses the evidence that the component was planned by: a component that may not be
/// executed is hashed again, held against `expected`, the digest of the build that was installed, and
/// `health` is never called for it.
///
/// # Errors
///
/// A description of the first binary that fails.
pub fn check_binary_set<D: Fn(&str) -> DetectedVersion, G: Fn(&str) -> Option<String>>(
    pc: &PlannedComponent,
    expected: &str,
    health: &D,
    digest: &G,
) -> (answer: Result<DetectedVersion, String>)
    requires
        forall|p: &str|
            pc.evidence is SafeToProbe && owns(*pc, p@) ==> #[trigger] health.requires((p,)),
        forall|p: &str|
            pc.evidence !is SafeToProbe && owns(*pc, p@) ==> #[trigger] digest.requires((p,)),
    ensures
        gate_ok(*pc, expected@, *health, *digest, answer),
{
    let primary: DetectedVersion = match check_binary(pc, expected, pc.dest.as_str(), health, digest) {
        Ok(d) => d,
        Err(detail) => return Err(detail),
    };
    let mut i: usize = 0;
    while i < pc.aliases.len()
        invariant
            i <= pc.aliases@.len(),
                forall|p: &str|
                pc.evidence is SafeToProbe && owns(*pc, p@) ==> #[trigger] health.requires((p,)),
            forall|p: &str|
                pc.evidence !is SafeToProbe && owns(*pc, p@) ==> #[trigger] digest.requires((p,)),
            checked(*pc, expected@, *health, *digest, pc.dest@, Ok(primary)),
            forall|j: int|
                0 <= j < i ==> alias_passed(
                    *pc,
                    expected@,
                    *health,
                    *digest,
                    #[trigger] views(pc.aliases@)[j],
                ),
        decreases pc.aliases@.len() - i,
    {
        let alias: &String = &pc.aliases[i];
        assert(views(pc.aliases@)[i as int] == alias@);
        assert(owns(*pc, alias@));
        match check_binary(pc, expected, alias.as_str(), health, digest) {
            Ok(d) => {
                assert(checked(*pc, expected@, *health, *digest, alias@, Ok(d)));
                assert(alias_passed(*pc, expected@, *health, *digest, views(pc.aliases@)[i as int]));
            },
            Err(why) => {
                let detail: String = cat4(
                    "alias ",
                    alias.as_str(),
                    " failed the version check: ",
                    why.as_str(),
                );
                proof {
                    assert(checked(*pc, expected@, *health, *digest, alias@, Err(why)));
                    assert(alias_failed(
                        *pc,
                        expected@,
                        *health,
                        *digest,
                        views(pc.aliases@)[i as int],
                        detail@,
                    ));
                }
                return Err(detail);
            },
        }
        i = i + 1;
    }
    Ok(primary)
}

/// What is reported of an installed component: what the health gate found it to be.
pub open spec fn installed_detail(component: Seq<char>, detected: Option<Seq<char>>) -> Seq<char> {
    match detected {
        Some(raw) => component + " now reports "@ + raw,
        None => component + " installed, but its version is unknown"@,
    }
}

/// Computes [`installed_detail`].
#[must_use]
pub fn verified_install_detail(component: &str, detected: &DetectedVersion) -> (detail: String)
    ensures
        detail@ == installed_detail(component@, detected@),
{
    match detected {
        DetectedVersion::Present(raw) => cat3(component, " now reports ", raw.as_str()),
        DetectedVersion::Absent => cat2(component, " installed, but its version is unknown"),
    }
}

/// Whether the component was rolled back, and reported with this detail, or the rollback failed.
pub open spec fn rolled_back<R: FnOnce() -> Result<(), BrokerError>>(
    pc: PlannedComponent,
    rollback: R,
    detail: Seq<char>,
    r: Result<ComponentOutcome, BrokerError>,
) -> bool {
    match r {
        Ok(o) => rollback.ensures((), Ok(())) && o@ == line(
            pc,
            ComponentResult::RolledBack,
            detail,
        ),
        Err(e) => rollback.ensures((), Err(e)),
    }
}

/// Whether an installed component passed its gate and is reported so.
pub open spec fn gate_passed<K: FnOnce() -> Result<DetectedVersion, String>>(
    pc: PlannedComponent,
    check: K,
    r: Result<ComponentOutcome, BrokerError>,
) -> bool {
    exists|d: DetectedVersion| #[trigger]
        check.ensures((), Ok(d)) && r is Ok && r->Ok_0@ == line(
            pc,
            ComponentResult::Installed,
            installed_detail(pc.name@, d@),
        )
}

/// Whether an installed component failed its gate and was rolled back.
pub open spec fn gate_refused<
    K: FnOnce() -> Result<DetectedVersion, String>,
    R: FnOnce() -> Result<(), BrokerError>,
>(pc: PlannedComponent, check: K, rollback: R, r: Result<ComponentOutcome, BrokerError>) -> bool {
    exists|why: String| #[trigger]
        check.ensures((), Err(why)) && rolled_back(
            pc,
            rollback,
            "health gate failed, rolled back: "@ + why@,
            r,
        )
}

/// Turn how the install ended into the component's line: an installed component is checked, and
/// rolled back if it fails; one that was put off is left; one that failed is rolled back.
///
/// `check` may be called only for an installed component, and `rollback` only where the install or
/// the check has failed.
///
/// # Errors
///
/// What `rollback` reports.
pub fn finish_apply<
    K: FnOnce() -> Result<DetectedVersion, String>,
    R: FnOnce() -> Result<(), BrokerError>,
>(pc: &PlannedComponent, outcome: InstallOutcome, check: K, rollback: R) -> (r: Result<
    ComponentOutcome,
    BrokerError,
>)
    requires
        outcome is Installed ==> check.requires(()),
        outcome is Failed ==> rollback.requires(()),
        forall|why: String|
            outcome is Installed && #[trigger] check.ensures((), Err(why)) ==> rollback.requires(
                (),
            ),
    ensures
        outcome is Installed ==> gate_passed(*pc, check, r) || gate_refused(
            *pc,
            check,
            rollback,
            r,
        ),
        outcome@ matches OutcomeView::Deferred(reason) ==> r is Ok && r->Ok_0@ == line(
            *pc,
            ComponentResult::Deferred,
            reason,
        ),
        outcome@ matches OutcomeView::Failed(detail) ==> rolled_back(
            *pc,
            rollback,
            "install failed, rolled back: "@ + detail,
            r,
        ),
{
    match outcome {
        InstallOutcome::Installed => match check() {
            Ok(detected) => {
                let detail: String = verified_install_detail(pc.name.as_str(), &detected);
                assert(check.ensures((), Ok(detected)));
                Ok(ComponentOutcome::from(pc, ComponentResult::Installed, detail))
            },
            Err(why) => {
                assert(check.ensures((), Err(why)));
                let detail: String = cat2("health gate failed, rolled back: ", why.as_str());
                match rollback() {
                    Ok(u) => {
                        assert(u == ());
                        Ok(ComponentOutcome::from(pc, ComponentResult::RolledBack, detail))
                    },
                    Err(e) => Err(e),
                }
            },
        },
        InstallOutcome::Deferred { reason } => Ok(
            ComponentOutcome::from(pc, ComponentResult::Deferred, reason),
        ),
        InstallOutcome::Failed { detail } => {
            let detail: String = cat2("install failed, rolled back: ", detail.as_str());
            match rollback() {
                Ok(u) => {
                    assert(u == ());
                    Ok(ComponentOutcome::from(pc, ComponentResult::RolledBack, detail))
                },
                Err(e) => Err(e),
            }
        },
    }
}

// ------------------------------------------------------------------ one component

/// What a pass is applied with.
pub struct Installer<'a> {
    /// Where and how each tracked component installs on this host.
    pub catalog: &'a Catalog,
    /// The platform whose artifacts are installed.
    pub platform: &'a Platform,
    /// The builds that earlier passes installed.
    pub recorded: &'a InstalledBuilds,
    /// Where the worker stages artifacts.
    pub staging_dir: &'a str,
    /// Where packages are copied before their installer runs.
    pub apply_dir: &'a str,
    /// Whether the trust state is left as it is even after a fully successful pass: set where the
    /// feed was overridden, whose marks may be on another channel's scale.
    pub suppress_state_advance: bool,
}

/// Resolving `path` came to `r`.
pub open spec fn resolved<V: Fn(&str) -> Result<String, String>>(
    resolve: V,
    path: Seq<char>,
    r: Result<Seq<char>, Seq<char>>,
) -> bool {
    exists|p: &str, x: Result<String, String>|
        p@ == path && texts_of(x) == r && #[trigger] resolve.ensures((p,), x)
}

/// Whether containing the staged path of the `k`-th build of a component came to `r`.
pub open spec fn contained<V: Fn(&str) -> Result<String, String>>(
    installer: Installer,
    pc: PlannedComponent,
    k: int,
    resolve: V,
    r: Result<Seq<char>, ErrorView>,
) -> bool {
    exists|root: Result<Seq<char>, Seq<char>>, path: Result<Seq<char>, Seq<char>>|
        #[trigger] resolved(resolve, installer.staging_dir@, root) && #[trigger] resolved(
            resolve,
            pc.variants@[k].staged_path@,
            path,
        ) && r == containment(
            pc.variants@[k].staged_path@,
            installer.staging_dir@,
            pc.name@,
            root,
            path,
        )
}

/// Whether `path` is one that staging a component resolves: the staging directory, or the staged
/// path of one of its builds.
pub open spec fn is_staging_path(
    installer: Installer,
    pc: PlannedComponent,
    path: Seq<char>,
) -> bool {
    path == installer.staging_dir@ || exists|k: int|
        0 <= k < pc.variants@.len() && path == (#[trigger] pc.variants@[k]).staged_path@
}

/// Reading the staged file at `path` came to `r`.
pub open spec fn staged_read<E: Fn(&str) -> Result<Vec<u8>, BrokerError>>(
    read: E,
    path: Seq<char>,
    r: Result<Vec<u8>, BrokerError>,
) -> bool {
    exists|p: &str| p@ == path && #[trigger] read.ensures((p,), r)
}

/// Whether `bytes` were read from the contained path of the `k`-th build.
pub open spec fn read_for<
    V: Fn(&str) -> Result<String, String>,
    E: Fn(&str) -> Result<Vec<u8>, BrokerError>,
>(
    installer: Installer,
    pc: PlannedComponent,
    k: int,
    resolve: V,
    read: E,
    bytes: Vec<u8>,
) -> bool {
    exists|path: Seq<char>|
        contained(installer, pc, k, resolve, Ok(path)) && #[trigger] staged_read(
            read,
            path,
            Ok(bytes),
        )
}

/// Writing `bytes` to the private copy, held as `before`, came to `r`.
pub open spec fn copy_written<H, W: Fn(H, &str, &Vec<u8>, bool) -> Result<H, BrokerError>>(
    installer: Installer,
    pc: PlannedComponent,
    write: W,
    bytes: Vec<u8>,
    r: Result<H, BrokerError>,
) -> bool {
    exists|before: H, p: &str|
        p@ == private_target_of(pc, installer.apply_dir@) && #[trigger] write.ensures(
            (before, p, &bytes, pc.method is RawBinary),
            r,
        )
}

/// Dropping the private copy that is held as `held` was done.
pub open spec fn was_dropped<H, D: Fn(H, &str)>(
    installer: Installer,
    pc: PlannedComponent,
    drop_private: D,
    held: H,
) -> bool {
    exists|p: &str|
        p@ == private_target_of(pc, installer.apply_dir@) && #[trigger] drop_private.ensures(
            (held, p),
            (),
        )
}

/// Whether `held` is a private copy with the bytes of the `k`-th build: read from its contained
/// path, and of the signed digest.
pub open spec fn is_verified<
    H,
    V: Fn(&str) -> Result<String, String>,
    E: Fn(&str) -> Result<Vec<u8>, BrokerError>,
    W: Fn(H, &str, &Vec<u8>, bool) -> Result<H, BrokerError>,
>(
    installer: Installer,
    pc: PlannedComponent,
    k: int,
    resolve: V,
    read: E,
    write: W,
    held: H,
) -> bool {
    exists|bytes: Vec<u8>|
        #[trigger] read_for(installer, pc, k, resolve, read, bytes) && #[trigger] copy_written(
            installer,
            pc,
            write,
            bytes,
            Ok(held),
        ) && are_expected(pc.variants@[k].expected_digest@, bytes@)
}

/// Whether `held` is a private copy whose `bytes`, read for the `k`-th build, are not those of the
/// signed digest.
pub open spec fn is_altered<
    H,
    V: Fn(&str) -> Result<String, String>,
    E: Fn(&str) -> Result<Vec<u8>, BrokerError>,
    W: Fn(H, &str, &Vec<u8>, bool) -> Result<H, BrokerError>,
>(
    installer: Installer,
    pc: PlannedComponent,
    k: int,
    resolve: V,
    read: E,
    write: W,
    bytes: Vec<u8>,
    held: H,
) -> bool {
    &&& read_for(installer, pc, k, resolve, read, bytes)
    &&& copy_written(installer, pc, write, bytes, Ok(held))
    &&& !are_expected(pc.variants@[k].expected_digest@, bytes@)
}

/// Asking whether this host can load the private copy gave `answer`.
pub open spec fn load_answer<H, L: Fn(&H, &str) -> Loadability>(
    installer: Installer,
    pc: PlannedComponent,
    loadability: L,
    held: H,
    answer: Loadability,
) -> bool {
    exists|p: &str|
        p@ == private_target_of(pc, installer.apply_dir@) && #[trigger] loadability.ensures(
            (&held, p),
            answer,
        )
}

/// Whether the `k`-th build, held as `held`, was verified and this host cannot load it for want of
/// the `missing` libraries.
pub open spec fn is_unloadable<
    H,
    V: Fn(&str) -> Result<String, String>,
    E: Fn(&str) -> Result<Vec<u8>, BrokerError>,
    W: Fn(H, &str, &Vec<u8>, bool) -> Result<H, BrokerError>,
    L: Fn(&H, &str) -> Loadability,
>(
    installer: Installer,
    pc: PlannedComponent,
    k: int,
    resolve: V,
    read: E,
    write: W,
    loadability: L,
    held: H,
    missing: Seq<Seq<char>>,
) -> bool {
    &&& is_verified(installer, pc, k, resolve, read, write, held)
    &&& exists|lacks: Vec<String>|
        views(lacks@) == missing && #[trigger] load_answer(
            installer,
            pc,
            loadability,
            held,
            Loadability::Unloadable { missing: lacks },
        )
}

/// Whether this host cannot load the `k`-th build for want of the `missing` libraries.
pub open spec fn build_lost<
    H,
    V: Fn(&str) -> Result<String, String>,
    E: Fn(&str) -> Result<Vec<u8>, BrokerError>,
    W: Fn(H, &str, &Vec<u8>, bool) -> Result<H, BrokerError>,
    L: Fn(&H, &str) -> Loadability,
>(
    installer: Installer,
    pc: PlannedComponent,
    k: int,
    resolve: V,
    read: E,
    write: W,
    loadability: L,
    missing: Seq<Seq<char>>,
) -> bool {
    exists|held: H| #[trigger]
        is_unloadable(installer, pc, k, resolve, read, write, loadability, held, missing)
}

/// Whether it is the turn of the `k`-th build: this host cannot load any of those before it, which
/// are preferred to it.
pub open spec fn is_turn_of<
    H,
    V: Fn(&str) -> Result<String, String>,
    E: Fn(&str) -> Result<Vec<u8>, BrokerError>,
    W: Fn(H, &str, &Vec<u8>, bool) -> Result<H, BrokerError>,
    L: Fn(&H, &str) -> Loadability,
>(
    installer: Installer,
    pc: PlannedComponent,
    k: int,
    resolve: V,
    read: E,
    write: W,
    loadability: L,
    lost: Seq<Seq<Seq<char>>>,
) -> bool {
    &&& 0 <= k < pc.variants@.len()
    &&& lost.len() == k
    &&& forall|j: int|
        0 <= j < k ==> build_lost(
            installer,
            pc,
            j,
            resolve,
            read,
            write,
            loadability,
            #[trigger] lost[j],
        )
}

/// Whether `held` is the verified private copy of the `k`-th build, the first that this host is not
/// known to be unable to load.
pub open spec fn is_chosen<
    H,
    V: Fn(&str) -> Result<String, String>,
    E: Fn(&str) -> Result<Vec<u8>, BrokerError>,
    W: Fn(H, &str, &Vec<u8>, bool) -> Result<H, BrokerError>,
    L: Fn(&H, &str) -> Loadability,
>(
    installer: Installer,
    pc: PlannedComponent,
    k: int,
    resolve: V,
    read: E,
    write: W,
    loadability: L,
    held: H,
) -> bool {
    &&& exists|lost: Seq<Seq<Seq<char>>>| #[trigger]
        is_turn_of(installer, pc, k, resolve, read, write, loadability, lost)
    &&& is_verified(installer, pc, k, resolve, read, write, held)
    &&& exists|answer: Loadability| #[trigger]
        load_answer(installer, pc, loadability, held, answer) && answer !is Unloadable
}

/// All that is in the lists, in order.
pub open spec fn gathered(lists: Seq<Seq<Seq<char>>>) -> Seq<Seq<char>>
    decreases lists.len(),
{
    if lists.len() == 0 {
        Seq::empty()
    } else {
        gathered(lists.drop_last()) + lists.last()
    }
}

/// Why a component is not installed of which this host can load no build.
pub open spec fn unloadable_text(lost: Seq<Seq<Seq<char>>>) -> Seq<char> {
    "this host cannot load it, for want of: "@ + listed(gathered(lost))
}

/// Whether this host can load no build of the component, which is refused with this detail; the
/// private copy of the last one was dropped.
pub open spec fn all_lost<
    H,
    V: Fn(&str) -> Result<String, String>,
    E: Fn(&str) -> Result<Vec<u8>, BrokerError>,
    W: Fn(H, &str, &Vec<u8>, bool) -> Result<H, BrokerError>,
    L: Fn(&H, &str) -> Loadability,
    D: Fn(H, &str),
>(
    installer: Installer,
    pc: PlannedComponent,
    resolve: V,
    read: E,
    write: W,
    loadability: L,
    drop_private: D,
    lost: Seq<Seq<Seq<char>>>,
    detail: Seq<char>,
) -> bool {
    &&& lost.len() == pc.variants@.len()
    &&& forall|j: int|
        0 <= j < lost.len() ==> build_lost(
            installer,
            pc,
            j,
            resolve,
            read,
            write,
            loadability,
            #[trigger] lost[j],
        )
    &&& exists|held: H|
        #[trigger] is_verified(installer, pc, lost.len() - 1, resolve, read, write, held)
            && was_dropped(installer, pc, drop_private, held)
    &&& detail == unloadable_text(lost)
}

/// Whether this host can load no build of the component, which is refused with this detail.
pub open spec fn none_loads<
    H,
    V: Fn(&str) -> Result<String, String>,
    E: Fn(&str) -> Result<Vec<u8>, BrokerError>,
    W: Fn(H, &str, &Vec<u8>, bool) -> Result<H, BrokerError>,
    L: Fn(&H, &str) -> Loadability,
    D: Fn(H, &str),
>(
    installer: Installer,
    pc: PlannedComponent,
    resolve: V,
    read: E,
    write: W,
    loadability: L,
    drop_private: D,
    detail: Seq<char>,
) -> bool {
    exists|lost: Seq<Seq<Seq<char>>>| #[trigger]
        all_lost(
            installer,
            pc,
            resolve,
            read,
            write,
            loadability,
            drop_private,
            lost,
            detail,
        )
}

/// Whether staging the `k`-th build failed with `e`: its path is not contained, its bytes cannot be
/// read or copied, or they are not those of the signed digest, in which case the copy was dropped.
pub open spec fn stage_failed<
    H,
    V: Fn(&str) -> Result<String, String>,
    E: Fn(&str) -> Result<Vec<u8>, BrokerError>,
    W: Fn(H, &str, &Vec<u8>, bool) -> Result<H, BrokerError>,
    D: Fn(H, &str),
>(
    installer: Installer,
    pc: PlannedComponent,
    k: int,
    resolve: V,
    read: E,
    write: W,
    drop_private: D,
    e: BrokerError,
) -> bool {
    ||| contained(installer, pc, k, resolve, Err(e@))
    ||| exists|path: Seq<char>|
        contained(installer, pc, k, resolve, Ok(path)) && #[trigger] staged_read(
            read,
            path,
            Err(e),
        )
    ||| exists|bytes: Vec<u8>|
        read_for(installer, pc, k, resolve, read, bytes) && #[trigger] copy_written(
            installer,
            pc,
            write,
            bytes,
            Err(e),
        )
    ||| exists|bytes: Vec<u8>, held: H|
        #[trigger] is_altered(installer, pc, k, resolve, read, write, bytes, held) && was_dropped(
            installer,
            pc,
            drop_private,
            held,
        ) && e@ == ErrorView::StagingReverifyFailed(
            pc.name@,
            "expected "@ + pc.variants@[k].expected_digest@ + ", got "@ + hex(sha256_of(bytes@)),
        )
}

/// Whether staging the component failed with `e`, at the first build that this host may be able to
/// load.
pub open spec fn staging_failed<
    H,
    V: Fn(&str) -> Result<String, String>,
    E: Fn(&str) -> Result<Vec<u8>, BrokerError>,
    W: Fn(H, &str, &Vec<u8>, bool) -> Result<H, BrokerError>,
    L: Fn(&H, &str) -> Loadability,
    D: Fn(H, &str),
>(
    installer: Installer,
    pc: PlannedComponent,
    resolve: V,
    read: E,
    write: W,
    loadability: L,
    drop_private: D,
    e: BrokerError,
) -> bool {
    exists|k: int, lost: Seq<Seq<Seq<char>>>|
        #[trigger] is_turn_of(installer, pc, k, resolve, read, write, loadability, lost)
            && stage_failed(installer, pc, k, resolve, read, write, drop_private, e)
}

/// Whether the staged file at `path` may be read: it is the contained path of the build whose turn
/// it is.
pub open spec fn may_read<
    H,
    V: Fn(&str) -> Result<String, String>,
    E: Fn(&str) -> Result<Vec<u8>, BrokerError>,
    W: Fn(H, &str, &Vec<u8>, bool) -> Result<H, BrokerError>,
    L: Fn(&H, &str) -> Loadability,
>(
    installer: Installer,
    pc: PlannedComponent,
    resolve: V,
    read: E,
    write: W,
    loadability: L,
    path: Seq<char>,
) -> bool {
    exists|k: int, lost: Seq<Seq<Seq<char>>>|
        #[trigger] is_turn_of(installer, pc, k, resolve, read, write, loadability, lost)
            && contained(installer, pc, k, resolve, Ok(path))
}

/// Whether `bytes` may be copied: they were read for the build whose turn it is.
pub open spec fn may_write<
    H,
    V: Fn(&str) -> Result<String, String>,
    E: Fn(&str) -> Result<Vec<u8>, BrokerError>,
    W: Fn(H, &str, &Vec<u8>, bool) -> Result<H, BrokerError>,
    L: Fn(&H, &str) -> Loadability,
>(
    installer: Installer,
    pc: PlannedComponent,
    resolve: V,
    read: E,
    write: W,
    loadability: L,
    bytes: Vec<u8>,
) -> bool {
    exists|k: int, lost: Seq<Seq<Seq<char>>>|
        #[trigger] is_turn_of(installer, pc, k, resolve, read, write, loadability, lost)
            && read_for(installer, pc, k, resolve, read, bytes)
}

/// Whether it may be asked if this host can load the private copy: it was verified, for the build
/// whose turn it is.
pub open spec fn may_ask<
    H,
    V: Fn(&str) -> Result<String, String>,
    E: Fn(&str) -> Result<Vec<u8>, BrokerError>,
    W: Fn(H, &str, &Vec<u8>, bool) -> Result<H, BrokerError>,
    L: Fn(&H, &str) -> Loadability,
>(
    installer: Installer,
    pc: PlannedComponent,
    resolve: V,
    read: E,
    write: W,
    loadability: L,
    held: H,
) -> bool {
    exists|k: int, lost: Seq<Seq<Seq<char>>>|
        #[trigger] is_turn_of(installer, pc, k, resolve, read, write, loadability, lost)
            && is_verified(installer, pc, k, resolve, read, write, held)
}

/// Whether staging may drop the private copy: its bytes are not those of the signed digest, or it is
/// of the last build and this host cannot load it.
pub open spec fn may_drop<
    H,
    V: Fn(&str) -> Result<String, String>,
    E: Fn(&str) -> Result<Vec<u8>, BrokerError>,
    W: Fn(H, &str, &Vec<u8>, bool) -> Result<H, BrokerError>,
    L: Fn(&H, &str) -> Loadability,
>(
    installer: Installer,
    pc: PlannedComponent,
    resolve: V,
    read: E,
    write: W,
    loadability: L,
    held: H,
) -> bool {
    ||| exists|k: int, lost: Seq<Seq<Seq<char>>>, bytes: Vec<u8>|
        #[trigger] is_turn_of(installer, pc, k, resolve, read, write, loadability, lost)
            && #[trigger] is_altered(installer, pc, k, resolve, read, write, bytes, held)
    ||| exists|missing: Seq<Seq<char>>| #[trigger]
        is_unloadable(
            installer,
            pc,
            pc.variants@.len() - 1,
            resolve,
            read,
            write,
            loadability,
            held,
            missing,
        )
}

/// What staging a component came to.
#[derive(Debug, Clone, PartialEq, Eq)]
pub enum Staged<H> {
    /// A build of it is in the private copy, verified.
    Ready {
        /// The caller's hold on the private copy.
        held: H,
        /// Which of the component's builds it is.
        variant: usize,
    },
    /// This host can load none of its builds.
    Refused {
        /// Why, in terms an operator can act on.
        detail: String,
    },
}

impl<'a> Installer<'a> {
    /// Contain the staged path of one build of a component, copy its bytes into the private file,
    /// and verify that copy.
    ///
    /// A path that does not resolve inside the staging directory is refused before a byte is read.
    ///
    /// # Errors
    ///
    /// Those of [`contained_staged_path`] and [`stage_and_verify_private`].
    fn stage_variant<
        H,
        V: Fn(&str) -> Result<String, String>,
        E: Fn(&str) -> Result<Vec<u8>, BrokerError>,
        W: Fn(H, &str, &Vec<u8>, bool) -> Result<H, BrokerError>,
        D: Fn(H, &str),
    >(
        &self,
        pc: &PlannedComponent,
        k: usize,
        hold: H,
        resolve: &V,
        read: &E,
        write: &W,
        drop_private: &D,
    ) -> (r: Result<H, BrokerError>)
        requires
            k < pc.variants@.len(),
            forall|p: &str|
                is_staging_path(*self, *pc, p@) ==> #[trigger] resolve.requires((p,)),
            forall|p: &str|
                contained(*self, *pc, k as int, *resolve, Ok(p@)) ==> #[trigger] read.requires(
                    (p,),
                ),
            forall|h: H, p: &str, b: &Vec<u8>|
                p@ == private_target_of(*pc, self.apply_dir@) && read_for(
                    *self,
                    *pc,
                    k as int,
                    *resolve,
                    *read,
                    *b,
                ) ==> #[trigger] write.requires((h, p, b, pc.method is RawBinary)),
            forall|h: H, p: &str, b: Vec<u8>|
                p@ == private_target_of(*pc, self.apply_dir@) && #[trigger] is_altered(
                    *self,
                    *pc,
                    k as int,
                    *resolve,
                    *read,
                    *write,
                    b,
                    h,
                ) ==> #[trigger] drop_private.requires((h, p)),
        ensures
            r matches Ok(held) ==> is_verified(
                *self,
                *pc,
                k as int,
                *resolve,
                *read,
                *write,
                held,
            ),
            r matches Err(e) ==> stage_failed(
                *self,
                *pc,
                k as int,
                *resolve,
                *read,
                *write,
                *drop_private,
                e,
            ),
    {
        let variant = &pc.variants[k];
        let root: Result<String, String> = resolve(self.staging_dir);
        let path: Result<String, String> = resolve(variant.staged_path.as_str());
        assert(resolved(*resolve, self.staging_dir@, texts_of(root)));
        assert(resolved(*resolve, pc.variants@[k as int].staged_path@, texts_of(path)));
        let staged: String = match contained_staged_path(
            variant.staged_path.as_str(),
            self.staging_dir,
            pc.name.as_str(),
            root,
            path,
        ) {
            Ok(p) => {
                assert(contained(*self, *pc, k as int, *resolve, Ok(p@)));
                p
            },
            Err(e) => {
                assert(contained(*self, *pc, k as int, *resolve, Err(e@)));
                return Err(e);
            },
        };
        let private: String = private_target(pc, self.apply_dir);
        let executable: bool = pc.method == InstallMethod::RawBinary;
        let from: &str = staged.as_str();
        let to: &str = private.as_str();
        let write_private = |p: &str, bytes: &Vec<u8>, x: bool| -> (w: Result<H, BrokerError>)
            requires
                p == to,
                x == executable,
                read_for(*self, *pc, k as int, *resolve, *read, *bytes),
            ensures
                write.ensures((hold, p, bytes, x), w),
            { write(hold, p, bytes, x) };
        proof {
            assert forall|bytes: Vec<u8>| #[trigger]
                read.ensures((from,), Ok(bytes)) implies read_for(
                *self,
                *pc,
                k as int,
                *resolve,
                *read,
                bytes,
            ) by {
                assert(staged_read(*read, staged@, Ok(bytes)));
            }
            assert forall|bytes: Vec<u8>, held: H|
                read.ensures((from,), Ok(bytes)) && #[trigger] write_private.ensures(
                    (to, &bytes, executable),
                    Ok(held),
                ) implies copy_written(*self, *pc, *write, bytes, Ok(held)) by {
                assert(write.ensures((hold, to, &bytes, executable), Ok(held)));
            }
            assert forall|bytes: Vec<u8>, held: H|
                read.ensures((from,), Ok(bytes)) && #[trigger] write_private.ensures(
                    (to, &bytes, executable),
                    Ok(held),
                ) && !are_expected(
                    pc.variants@[k as int].expected_digest@,
                    bytes@,
                ) implies drop_private.requires((held, to)) by {
                assert(is_altered(
                    *self,
                    *pc,
                    k as int,
                    *resolve,
                    *read,
                    *write,
                    bytes,
                    held,
                ));
            }
        }
        let done: Result<H, BrokerError> = stage_and_verify_private(
            from,
            to,
            variant.expected_digest.as_str(),
            pc.name.as_str(),
            executable,
            read,
            write_private,
            drop_private,
        );
        proof {
            if done is Err {
                let e = done->Err_0;
                if read.ensures((from,), Err(e)) {
                    assert(staged_read(*read, staged@, Err(e)));
                } else if copy_refused(from, to, executable, *read, write_private, e) {
                    let bytes = choose|bytes: Vec<u8>|
                        read.ensures((from,), Ok(bytes)) && #[trigger] write_private.ensures(
                            (to, &bytes, executable),
                            Err(e),
                        );
                    assert(write.ensures((hold, to, &bytes, executable), Err(e)));
                    assert(copy_written(*self, *pc, *write, bytes, Err(e)));
                } else {
                    let (bytes, held) = choose|bytes: Vec<u8>, held: H|
                        read.ensures((from,), Ok(bytes)) && #[trigger] write_private.ensures(
                            (to, &bytes, executable),
                            Ok(held),
                        ) && !are_expected(
                            pc.variants@[k as int].expected_digest@,
                            bytes@,
                        ) && drop_private.ensures((held, to), ()) && e@
                            == ErrorView::StagingReverifyFailed(
                            pc.name@,
                            "expected "@ + pc.variants@[k as int].expected_digest@ + ", got "@
                                + hex(sha256_of(bytes@)),
                        );
                    assert(is_altered(
                        *self,
                        *pc,
                        k as int,
                        *resolve,
                        *read,
                        *write,
                        bytes,
                        held,
                    ));
                    assert(was_dropped(*self, *pc, *drop_private, held));
                }
            }
        }
        done
    }

    /// Stage the first build of a component that this host can load: contain its staged path, copy
    /// its bytes into the private file, verify that copy, and ask whether this host can load it.
    ///
    /// The builds are taken in order of preference. One that this host cannot load is passed over,
    /// and the next is copied in its place; one of which that cannot be told is taken. `hold` is the
    /// caller's hold on the private copy: writing takes it and gives it back, so that what is held
    /// at the end is the copy that was verified.
    ///
    /// # Errors
    ///
    /// Those of [`contained_staged_path`] and [`stage_and_verify_private`].
    pub fn stage_component<
        H,
        V: Fn(&str) -> Result<String, String>,
        E: Fn(&str) -> Result<Vec<u8>, BrokerError>,
        W: Fn(H, &str, &Vec<u8>, bool) -> Result<H, BrokerError>,
        L: Fn(&H, &str) -> Loadability,
        D: Fn(H, &str),
    >(
        &self,
        pc: &PlannedComponent,
        hold: H,
        resolve: &V,
        read: &E,
        write: &W,
        loadability: &L,
        drop_private: &D,
    ) -> (r: Result<Staged<H>, BrokerError>)
        requires
            pc.variants@.len() > 0,
            forall|p: &str|
                is_staging_path(*self, *pc, p@) ==> #[trigger] resolve.requires((p,)),
            forall|p: &str|
                may_read(*self, *pc, *resolve, *read, *write, *loadability, p@)
                    ==> #[trigger] read.requires((p,)),
            forall|h: H, p: &str, b: &Vec<u8>|
                p@ == private_target_of(*pc, self.apply_dir@) && may_write(
                    *self,
                    *pc,
                    *resolve,
                    *read,
                    *write,
                    *loadability,
                    *b,
                ) ==> #[trigger] write.requires((h, p, b, pc.method is RawBinary)),
            forall|h: &H, p: &str|
                p@ == private_target_of(*pc, self.apply_dir@) && may_ask(
                    *self,
                    *pc,
                    *resolve,
                    *read,
                    *write,
                    *loadability,
                    *h,
                ) ==> #[trigger] loadability.requires((h, p)),
            forall|h: H, p: &str|
                p@ == private_target_of(*pc, self.apply_dir@) && may_drop(
                    *self,
                    *pc,
                    *resolve,
                    *read,
                    *write,
                    *loadability,
                    h,
                ) ==> #[trigger] drop_private.requires((h, p)),
        ensures
            r matches Ok(Staged::Ready { held, variant }) ==> is_chosen(
                *self,
                *pc,
                variant as int,
                *resolve,
                *read,
                *write,
                *loadability,
                held,
            ),
            r matches Ok(Staged::Refused { detail }) ==> none_loads(
                *self,
                *pc,
                *resolve,
                *read,
                *write,
                *loadability,
                *drop_private,
                detail@,
            ),
            r matches Err(e) ==> staging_failed(
                *self,
                *pc,
                *resolve,
                *read,
                *write,
                *loadability,
                *drop_private,
                e,
            ),
    {
        let private: String = private_target(pc, self.apply_dir);
        let mut held: H = hold;
        let mut missing: Vec<String> = Vec::new();
        let ghost mut lost: Seq<Seq<Seq<char>>> = Seq::empty();
        let mut k: usize = 0;
        assert(views(missing@) =~= gathered(lost));
        loop
            invariant
                private@ == private_target_of(*pc, self.apply_dir@),
                is_turn_of(
                    *self,
                    *pc,
                    k as int,
                    *resolve,
                    *read,
                    *write,
                    *loadability,
                    lost,
                ),
                views(missing@) == gathered(lost),
                forall|p: &str|
                    is_staging_path(*self, *pc, p@) ==> #[trigger] resolve.requires((p,)),
                forall|p: &str|
                    may_read(*self, *pc, *resolve, *read, *write, *loadability, p@)
                        ==> #[trigger] read.requires((p,)),
                forall|h: H, p: &str, b: &Vec<u8>|
                    p@ == private_target_of(*pc, self.apply_dir@) && may_write(
                        *self,
                        *pc,
                        *resolve,
                        *read,
                        *write,
                        *loadability,
                        *b,
                    ) ==> #[trigger] write.requires((h, p, b, pc.method is RawBinary)),
                forall|h: &H, p: &str|
                    p@ == private_target_of(*pc, self.apply_dir@) && may_ask(
                        *self,
                        *pc,
                        *resolve,
                        *read,
                        *write,
                        *loadability,
                        *h,
                    ) ==> #[trigger] loadability.requires((h, p)),
                forall|h: H, p: &str|
                    p@ == private_target_of(*pc, self.apply_dir@) && may_drop(
                        *self,
                        *pc,
                        *resolve,
                        *read,
                        *write,
                        *loadability,
                        h,
                    ) ==> #[trigger] drop_private.requires((h, p)),
            decreases pc.variants@.len() - k,
        {
            held =
            match self.stage_variant(pc, k, held, resolve, read, write, drop_private) {
                Ok(held) => held,
                Err(e) => return Err(e),
            };
            let ghost copy = held;
            let answer: Loadability = loadability(&held, private.as_str());
            assert(load_answer(*self, *pc, *loadability, copy, answer));
            match answer {
                Loadability::Unloadable { missing: lacks } => {
                    proof {
                        assert(is_unloadable(
                            *self,
                            *pc,
                            k as int,
                            *resolve,
                            *read,
                            *write,
                            *loadability,
                            copy,
                            views(lacks@),
                        ));
                        let more = lost.push(views(lacks@));
                        assert(more.drop_last() =~= lost);
                        assert forall|j: int| 0 <= j <= k implies build_lost(
                            *self,
                            *pc,
                            j,
                            *resolve,
                            *read,
                            *write,
                            *loadability,
                            #[trigger] more[j],
                        ) by {
                            if j < k {
                                assert(more[j] == lost[j]);
                            }
                        }
                        lost = more;
                    }
                    add_texts(&mut missing, &lacks);
                    if k == pc.variants.len() - 1 {
                        drop_private(held, private.as_str());
                        assert(was_dropped(*self, *pc, *drop_private, copy));
                        let names: String = list_of(&missing);
                        let detail: String = cat2(
                            "this host cannot load it, for want of: ",
                            names.as_str(),
                        );
                        assert(all_lost(
                            *self,
                            *pc,
                            *resolve,
                            *read,
                            *write,
                            *loadability,
                            *drop_private,
                            lost,
                            detail@,
                        ));
                        return Ok(Staged::Refused { detail });
                    }
                    k = k + 1;
                },
                _ => return Ok(Staged::Ready { held, variant: k }),
            }
        }
    }
}

/// The service of a component on this host.
pub open spec fn service_of(catalog: Catalog, name: Seq<char>) -> Option<Seq<char>> {
    match target_named(catalog@, name) {
        Some(t) => opt_view(t.service),
        None => None,
    }
}

/// Whether the step gave a private copy.
pub open spec fn was_staged<H, T: FnOnce() -> Result<Staged<H>, BrokerError>>(stage: T) -> bool {
    exists|held: H, variant: usize| #[trigger]
        stage.ensures((), Ok(Staged::Ready { held, variant }))
}

/// Whether the snapshots were taken.
pub open spec fn has_snapshots<S: FnOnce() -> Result<Vec<BinarySnapshot>, BrokerError>>(
    snapshot: S,
) -> bool {
    exists|snapshots: Vec<BinarySnapshot>| #[trigger] snapshot.ensures((), Ok(snapshots))
}

/// Whether the service was to be stopped and could not be.
pub open spec fn not_stopped<O: FnOnce(&str, ServiceAction) -> Result<(), String>>(
    service: Option<Seq<char>>,
    stop: O,
) -> bool {
    service is Some && exists|why: String| #[trigger]
        controlled(stop, service->0, ServiceAction::Stop, Err(why))
}

/// Whether no service holds the binaries: there is none, or it was stopped.
pub open spec fn is_free<O: FnOnce(&str, ServiceAction) -> Result<(), String>>(
    service: Option<Seq<char>>,
    stop: O,
) -> bool {
    service is Some ==> controlled(stop, service->0, ServiceAction::Stop, Ok(()))
}

/// Whether the component was installed from what was staged, with its snapshots taken, and was then
/// finished with `result`.
pub open spec fn was_finished<
    H,
    T: FnOnce() -> Result<Staged<H>, BrokerError>,
    S: FnOnce() -> Result<Vec<BinarySnapshot>, BrokerError>,
    I: FnOnce(H) -> InstallOutcome,
    F: FnOnce(InstallOutcome, Vec<BinarySnapshot>, usize) -> Result<ComponentOutcome, BrokerError>,
>(stage: T, snapshot: S, install: I, finish: F, result: Result<ComponentOutcome, BrokerError>) -> bool {
    exists|held: H, variant: usize, snapshots: Vec<BinarySnapshot>, outcome: InstallOutcome|
        {
            &&& #[trigger] stage.ensures((), Ok(Staged::Ready { held, variant }))
            &&& snapshot.ensures((), Ok(snapshots))
            &&& install.ensures((held,), outcome)
            &&& #[trigger] finish.ensures((outcome, snapshots, variant), result)
        }
}

/// Whether this host can load no build of the component, which is put off so that what is installed
/// stays.
pub open spec fn is_refused<H, T: FnOnce() -> Result<Staged<H>, BrokerError>>(
    pc: PlannedComponent,
    stage: T,
    r: Result<ComponentOutcome, BrokerError>,
) -> bool {
    exists|detail: String| #[trigger]
        stage.ensures((), Ok(Staged::Refused { detail })) && r is Ok && r->Ok_0@ == line(
            pc,
            ComponentResult::Deferred,
            detail@,
        )
}

/// Why a component is put off whose service could not be stopped.
pub open spec fn not_stopped_text(service: Seq<char>, why: Seq<char>) -> Seq<char> {
    "could not stop service "@ + service + " before replace: "@ + why
}

/// Whether the component was put off because its service could not be stopped.
pub open spec fn put_off<O: FnOnce(&str, ServiceAction) -> Result<(), String>>(
    pc: PlannedComponent,
    service: Option<Seq<char>>,
    stop: O,
    r: Result<ComponentOutcome, BrokerError>,
) -> bool {
    service is Some && exists|why: String| #[trigger]
        controlled(stop, service->0, ServiceAction::Stop, Err(why)) && r is Ok && r->Ok_0@ == line(
            pc,
            ComponentResult::Deferred,
            not_stopped_text(service->0, why@),
        )
}

/// Whether the component was installed with its service stopped, and the service was started again
/// afterwards.
pub open spec fn carried_out<
    H,
    T: FnOnce() -> Result<Staged<H>, BrokerError>,
    S: FnOnce() -> Result<Vec<BinarySnapshot>, BrokerError>,
    O: FnOnce(&str, ServiceAction) -> Result<(), String>,
    I: FnOnce(H) -> InstallOutcome,
    F: FnOnce(InstallOutcome, Vec<BinarySnapshot>, usize) -> Result<ComponentOutcome, BrokerError>,
    A: FnOnce(&str, ServiceAction) -> Result<(), String>,
>(
    service: Option<Seq<char>>,
    stage: T,
    snapshot: S,
    stop: O,
    install: I,
    finish: F,
    start: A,
    r: Result<ComponentOutcome, BrokerError>,
) -> bool {
    &&& is_free(service, stop)
    &&& exists|result: Result<ComponentOutcome, BrokerError>| #[trigger]
        was_finished(stage, snapshot, install, finish, result) && restarted(
            service,
            start,
            result,
            r,
        )
}

/// Whether `r` is how applying a component ended.
pub open spec fn component_ended<
    H,
    T: FnOnce() -> Result<Staged<H>, BrokerError>,
    S: FnOnce() -> Result<Vec<BinarySnapshot>, BrokerError>,
    O: FnOnce(&str, ServiceAction) -> Result<(), String>,
    I: FnOnce(H) -> InstallOutcome,
    F: FnOnce(InstallOutcome, Vec<BinarySnapshot>, usize) -> Result<ComponentOutcome, BrokerError>,
    A: FnOnce(&str, ServiceAction) -> Result<(), String>,
    D: FnOnce(H),
>(
    pc: PlannedComponent,
    service: Option<Seq<char>>,
    stage: T,
    snapshot: S,
    stop: O,
    install: I,
    finish: F,
    start: A,
    drop_private: D,
    r: Result<ComponentOutcome, BrokerError>,
) -> bool {
    ||| r is Err && stage.ensures((), Err(r->Err_0))
    ||| is_refused(pc, stage, r)
    ||| r is Err && was_staged(stage) && snapshot.ensures((), Err(r->Err_0))
    ||| has_snapshots(snapshot) && put_off(pc, service, stop, r) && exists|
        held: H,
        variant: usize,
    |
        #[trigger] stage.ensures((), Ok(Staged::Ready { held, variant })) && drop_private.ensures(
            (held,),
            (),
        )
    ||| carried_out(service, stage, snapshot, stop, install, finish, start, r)
}

impl<'a> Installer<'a> {
    /// Apply one actionable component.
    ///
    /// The order is part of the contract, through what each step may rely on, and no step can be
    /// made twice: the snapshots are taken only once a private copy is verified; the service is
    /// stopped only once the snapshots are taken; the install runs only on the verified copy, with
    /// the snapshots taken and the service stopped; the copy is dropped only where the service could
    /// not be stopped; and a service that was stopped is started again only, and always, once the
    /// component is finished, whatever `finish` reports. A service that cannot be stopped still holds
    /// its binary, so the component is put off.
    ///
    /// # Errors
    ///
    /// What `stage`, `snapshot` or `finish` report.
    pub fn apply_component<
        H,
        T: FnOnce() -> Result<Staged<H>, BrokerError>,
        S: FnOnce() -> Result<Vec<BinarySnapshot>, BrokerError>,
        O: FnOnce(&str, ServiceAction) -> Result<(), String>,
        I: FnOnce(H) -> InstallOutcome,
        F: FnOnce(InstallOutcome, Vec<BinarySnapshot>, usize) -> Result<
            ComponentOutcome,
            BrokerError,
        >,
        A: FnOnce(&str, ServiceAction) -> Result<(), String>,
        D: FnOnce(H),
    >(
        &self,
        pc: &PlannedComponent,
        stage: T,
        snapshot: S,
        stop: O,
        install: I,
        finish: F,
        start: A,
        drop_private: D,
    ) -> (r: Result<ComponentOutcome, BrokerError>)
        requires
            stage.requires(()),
            was_staged(stage) ==> snapshot.requires(()),
            forall|s: &str|
                was_staged(stage) && has_snapshots(snapshot) && service_of(
                    *self.catalog,
                    pc.name@,
                ) == Some(s@) ==> #[trigger] stop.requires((s, ServiceAction::Stop)),
            forall|held: H, variant: usize|
                #[trigger] stage.ensures((), Ok(Staged::Ready { held, variant })) && has_snapshots(
                    snapshot,
                ) && not_stopped(service_of(*self.catalog, pc.name@), stop)
                    ==> drop_private.requires((held,)),
            forall|held: H, variant: usize|
                #[trigger] stage.ensures((), Ok(Staged::Ready { held, variant })) && has_snapshots(
                    snapshot,
                ) && is_free(service_of(*self.catalog, pc.name@), stop) ==> install.requires(
                    (held,),
                ),
            forall|
                held: H,
                variant: usize,
                snapshots: Vec<BinarySnapshot>,
                outcome: InstallOutcome,
            |
                #[trigger] stage.ensures((), Ok(Staged::Ready { held, variant }))
                    && #[trigger] snapshot.ensures((), Ok(snapshots)) && is_free(
                    service_of(*self.catalog, pc.name@),
                    stop,
                ) && #[trigger] install.ensures((held,), outcome) ==> finish.requires(
                    (outcome, snapshots, variant),
                ),
            forall|s: &str, result: Result<ComponentOutcome, BrokerError>|
                service_of(*self.catalog, pc.name@) == Some(s@) && controlled(
                    stop,
                    s@,
                    ServiceAction::Stop,
                    Ok(()),
                ) && #[trigger] was_finished(stage, snapshot, install, finish, result)
                    ==> #[trigger] start.requires((s, ServiceAction::Start)),
        ensures
            component_ended(
                *pc,
                service_of(*self.catalog, pc.name@),
                stage,
                snapshot,
                stop,
                install,
                finish,
                start,
                drop_private,
                r,
            ),
    {
        let staged: Staged<H> = match stage() {
            Ok(staged) => staged,
            Err(e) => return Err(e),
        };
        let (held, variant): (H, usize) = match staged {
            Staged::Ready { held, variant } => (held, variant),
            Staged::Refused { detail } => {
                assert(stage.ensures((), Ok(Staged::Refused { detail })));
                let r: Result<ComponentOutcome, BrokerError> = Ok(
                    ComponentOutcome::from(pc, ComponentResult::Deferred, detail),
                );
                assert(is_refused(*pc, stage, r));
                return r;
            },
        };
        let ghost copy = held;
        assert(stage.ensures((), Ok(Staged::Ready { held: copy, variant })));
        assert(was_staged(stage));
        let snapshots: Vec<BinarySnapshot> = match snapshot() {
            Ok(s) => s,
            Err(e) => return Err(e),
        };
        assert(snapshot.ensures((), Ok(snapshots)));
        assert(has_snapshots(snapshot));
        let service: Option<&str> = match self.catalog.target(pc.name.as_str()) {
            Some(t) => t.service_id(),
            None => None,
        };
        let ghost id = service_of(*self.catalog, pc.name@);
        assert(id == match service {
            Some(s) => Some(s@),
            None => None,
        });
        if let Some(s) = service {
            match stop(s, ServiceAction::Stop) {
                Ok(u) => {
                    assert(u == ());
                    assert(controlled(stop, s@, ServiceAction::Stop, Ok(())));
                },
                Err(why) => {
                    assert(controlled(stop, s@, ServiceAction::Stop, Err(why)));
                    assert(controlled(stop, id->0, ServiceAction::Stop, Err(why)));
                    assert(not_stopped(id, stop));
                    drop_private(held);
                    let detail: String = cat4(
                        "could not stop service ",
                        s,
                        " before replace: ",
                        why.as_str(),
                    );
                    let r: Result<ComponentOutcome, BrokerError> = Ok(
                        ComponentOutcome::from(pc, ComponentResult::Deferred, detail),
                    );
                    assert(put_off(*pc, id, stop, r));
                    return r;
                },
            }
        }
        assert(is_free(id, stop));
        let ghost taken = snapshots;
        let outcome: InstallOutcome = install(held);
        let ghost came = outcome;
        assert(install.ensures((copy,), came));
        let result: Result<ComponentOutcome, BrokerError> = finish(outcome, snapshots, variant);
        let ghost finished = result;
        assert(finish.ensures((came, taken, variant), finished));
        assert(was_finished(stage, snapshot, install, finish, finished));
        let r: Result<ComponentOutcome, BrokerError> = restart_after(service, start, result);
        assert(restarted(id, start, finished, r));
        assert(carried_out(id, stage, snapshot, stop, install, finish, start, r));
        r
    }
}

/// Whether reverting the whole set came to `r`.
pub open spec fn set_reverted<
    R: Fn(&LkgEntry) -> Result<(), BrokerError>,
    M: Fn(&str) -> Result<(), String>,
>(restore: R, remove: M, snapshots: Seq<BinarySnapshot>, r: Result<(), ErrorView>) -> bool {
    &&& r is Ok ==> forall|i: int|
        0 <= i < snapshots.len() ==> reverted(restore, remove, #[trigger] snapshots[i], Ok(()))
    &&& r is Err ==> exists|k: int|
        {
            &&& 0 <= k < snapshots.len()
            &&& reverted(restore, remove, #[trigger] snapshots[k], Err(r->Err_0))
            &&& forall|i: int|
                0 <= i < k ==> reverted(restore, remove, #[trigger] snapshots[i], Ok(()))
        }
}

/// Whether the set was reverted and the component reported with this detail, or reverting failed.
pub open spec fn set_rolled_back<
    R: Fn(&LkgEntry) -> Result<(), BrokerError>,
    M: Fn(&str) -> Result<(), String>,
>(
    pc: PlannedComponent,
    restore: R,
    remove: M,
    snapshots: Seq<BinarySnapshot>,
    detail: Seq<char>,
    r: Result<ComponentOutcome, BrokerError>,
) -> bool {
    &&& r is Ok ==> set_reverted(restore, remove, snapshots, Ok(())) && r->Ok_0@ == line(
        pc,
        ComponentResult::RolledBack,
        detail,
    )
    &&& r is Err ==> set_reverted(restore, remove, snapshots, Err(r->Err_0@))
}

/// Whether every binary passed the health check, and the component is reported as installed.
pub open spec fn set_kept<D: Fn(&str) -> DetectedVersion, G: Fn(&str) -> Option<String>>(
    pc: PlannedComponent,
    expected: Seq<char>,
    health: D,
    digest: G,
    r: Result<ComponentOutcome, BrokerError>,
) -> bool {
    exists|d: DetectedVersion| #[trigger]
        gate_ok(pc, expected, health, digest, Ok(d)) && r is Ok && r->Ok_0@ == line(
            pc,
            ComponentResult::Installed,
            installed_detail(pc.name@, d@),
        )
}

/// Whether a binary failed the health check.
pub open spec fn gate_failed<D: Fn(&str) -> DetectedVersion, G: Fn(&str) -> Option<String>>(
    pc: PlannedComponent,
    expected: Seq<char>,
    health: D,
    digest: G,
) -> bool {
    exists|why: String| #[trigger] gate_ok(pc, expected, health, digest, Err(why))
}

/// Whether a binary failed the health check and the set was rolled back.
pub open spec fn set_refused<
    D: Fn(&str) -> DetectedVersion,
    G: Fn(&str) -> Option<String>,
    R: Fn(&LkgEntry) -> Result<(), BrokerError>,
    M: Fn(&str) -> Result<(), String>,
>(
    pc: PlannedComponent,
    expected: Seq<char>,
    health: D,
    digest: G,
    restore: R,
    remove: M,
    snapshots: Seq<BinarySnapshot>,
    r: Result<ComponentOutcome, BrokerError>,
) -> bool {
    exists|why: String| #[trigger]
        gate_ok(pc, expected, health, digest, Err(why)) && set_rolled_back(
            pc,
            restore,
            remove,
            snapshots,
            "health gate failed, rolled back: "@ + why@,
            r,
        )
}

/// Whether `r` is what follows an install, of the build with the `expected` digest, that ended so.
pub open spec fn set_finished<
    D: Fn(&str) -> DetectedVersion,
    G: Fn(&str) -> Option<String>,
    R: Fn(&LkgEntry) -> Result<(), BrokerError>,
    M: Fn(&str) -> Result<(), String>,
>(
    pc: PlannedComponent,
    expected: Seq<char>,
    outcome: OutcomeView,
    snapshots: Seq<BinarySnapshot>,
    health: D,
    digest: G,
    restore: R,
    remove: M,
    r: Result<ComponentOutcome, BrokerError>,
) -> bool {
    match outcome {
        OutcomeView::Installed => set_kept(pc, expected, health, digest, r) || set_refused(
            pc,
            expected,
            health,
            digest,
            restore,
            remove,
            snapshots,
            r,
        ),
        OutcomeView::Deferred(reason) => r is Ok && r->Ok_0@ == line(
            pc,
            ComponentResult::Deferred,
            reason,
        ),
        OutcomeView::Failed(detail) => set_rolled_back(
            pc,
            restore,
            remove,
            snapshots,
            "install failed, rolled back: "@ + detail,
            r,
        ),
    }
}

/// Whether the set may be reverted: the install failed, or the health check after it did.
pub open spec fn may_revert<D: Fn(&str) -> DetectedVersion, G: Fn(&str) -> Option<String>>(
    pc: PlannedComponent,
    expected: Seq<char>,
    outcome: OutcomeView,
    health: D,
    digest: G,
) -> bool {
    outcome is Failed || outcome is Installed && gate_failed(pc, expected, health, digest)
}

/// [`finish_apply`] with the health check and the rollback of the component's whole set.
fn finish_set<
    D: Fn(&str) -> DetectedVersion,
    G: Fn(&str) -> Option<String>,
    R: Fn(&LkgEntry) -> Result<(), BrokerError>,
    M: Fn(&str) -> Result<(), String>,
>(
    pc: &PlannedComponent,
    expected: &str,
    outcome: InstallOutcome,
    snapshots: &Vec<BinarySnapshot>,
    health: &D,
    digest: &G,
    restore: &R,
    remove: &M,
) -> (r: Result<ComponentOutcome, BrokerError>)
    requires
        forall|p: &str|
            outcome is Installed && pc.evidence is SafeToProbe && owns(*pc, p@)
                ==> #[trigger] health.requires((p,)),
        forall|p: &str|
            outcome is Installed && pc.evidence !is SafeToProbe && owns(*pc, p@)
                ==> #[trigger] digest.requires((p,)),
        forall|e: &LkgEntry|
            may_revert(*pc, expected@, outcome@, *health, *digest) && is_snapshotted(
                snapshots@,
                *e,
            ) ==> #[trigger] restore.requires((e,)),
        forall|d: &str|
            may_revert(*pc, expected@, outcome@, *health, *digest) && was_absent(snapshots@, d@)
                ==> #[trigger] remove.requires((d,)),
    ensures
        set_finished(
            *pc,
            expected@,
            outcome@,
            snapshots@,
            *health,
            *digest,
            *restore,
            *remove,
            r,
        ),
{
    let ghost ended = outcome@;
    let check = || -> (x: Result<DetectedVersion, String>)
        requires
            ended is Installed,
        ensures
            gate_ok(*pc, expected@, *health, *digest, x),
        { check_binary_set(pc, expected, health, digest) };
    let rollback = || -> (x: Result<(), BrokerError>)
        requires
            may_revert(*pc, expected@, ended, *health, *digest),
        ensures
            set_reverted(
                *restore,
                *remove,
                snapshots@,
                match x {
                    Ok(u) => Ok(u),
                    Err(e) => Err(e@),
                },
            ),
        { rollback_set(snapshots, restore, remove) };
    proof {
        assert forall|why: String|
            outcome is Installed && #[trigger] check.ensures(
                (),
                Err(why),
            ) implies rollback.requires(()) by {
            assert(gate_ok(*pc, expected@, *health, *digest, Err(why)));
        }
    }
    let r: Result<ComponentOutcome, BrokerError> = finish_apply(pc, outcome, check, rollback);
    proof {
        if ended is Installed {
            if gate_passed(*pc, check, r) {
                let d = choose|d: DetectedVersion| #[trigger]
                    check.ensures((), Ok(d)) && r is Ok && r->Ok_0@ == line(
                        *pc,
                        ComponentResult::Installed,
                        installed_detail(pc.name@, d@),
                    );
                assert(gate_ok(*pc, expected@, *health, *digest, Ok(d)));
                assert(set_kept(*pc, expected@, *health, *digest, r));
            } else {
                let why = choose|why: String| #[trigger]
                    check.ensures((), Err(why)) && rolled_back(
                        *pc,
                        rollback,
                        "health gate failed, rolled back: "@ + why@,
                        r,
                    );
                assert(gate_ok(*pc, expected@, *health, *digest, Err(why)));
                assert(set_refused(
                    *pc,
                    expected@,
                    *health,
                    *digest,
                    *restore,
                    *remove,
                    snapshots@,
                    r,
                ));
            }
        }
    }
    r
}

/// Whether a snapshot of the whole set was taken.
pub open spec fn was_snapshotted<
    N,
    S: Fn(N, &str, &str, Option<u64>) -> (N, Result<Option<LkgEntry>, BrokerError>),
>(pc: PlannedComponent, notes: N, snapshot: S) -> bool {
    exists|snapshots: Seq<BinarySnapshot>| #[trigger] whole_set_snapped(pc, notes, snapshot, snapshots)
}

/// Whether some build of the component is in the private copy, verified, and may be installed.
pub open spec fn has_chosen<
    H,
    V: Fn(&str) -> Result<String, String>,
    E: Fn(&str) -> Result<Vec<u8>, BrokerError>,
    W: Fn(H, &str, &Vec<u8>, bool) -> Result<H, BrokerError>,
    L: Fn(&H, &str) -> Loadability,
>(
    installer: Installer,
    pc: PlannedComponent,
    resolve: V,
    read: E,
    write: W,
    loadability: L,
) -> bool {
    exists|k: int, held: H| #[trigger]
        is_chosen(installer, pc, k, resolve, read, write, loadability, held)
}

/// Whether installing the `k`-th build from its verified private copy, with no service holding the
/// binaries, came to `outcome`.
pub open spec fn installed_so<
    H,
    V: Fn(&str) -> Result<String, String>,
    E: Fn(&str) -> Result<Vec<u8>, BrokerError>,
    W: Fn(H, &str, &Vec<u8>, bool) -> Result<H, BrokerError>,
    L: Fn(&H, &str) -> Loadability,
    O: FnOnce(&str, ServiceAction) -> Result<(), String>,
    I: FnOnce(H, &str) -> InstallOutcome,
>(
    installer: Installer,
    pc: PlannedComponent,
    k: int,
    resolve: V,
    read: E,
    write: W,
    loadability: L,
    stop: O,
    install: I,
    outcome: OutcomeView,
) -> bool {
    &&& is_free(service_of(*installer.catalog, pc.name@), stop)
    &&& exists|held: H, p: &str, o: InstallOutcome|
        is_chosen(installer, pc, k, resolve, read, write, loadability, held) && p@
            == private_target_of(pc, installer.apply_dir@) && o@ == outcome
            && #[trigger] install.ensures((held, p), o)
}

/// Whether the component was installed and may be checked.
pub open spec fn may_check<
    H,
    V: Fn(&str) -> Result<String, String>,
    E: Fn(&str) -> Result<Vec<u8>, BrokerError>,
    W: Fn(H, &str, &Vec<u8>, bool) -> Result<H, BrokerError>,
    L: Fn(&H, &str) -> Loadability,
    O: FnOnce(&str, ServiceAction) -> Result<(), String>,
    I: FnOnce(H, &str) -> InstallOutcome,
>(
    installer: Installer,
    pc: PlannedComponent,
    resolve: V,
    read: E,
    write: W,
    loadability: L,
    stop: O,
    install: I,
) -> bool {
    exists|k: int| #[trigger]
        installed_so(
            installer,
            pc,
            k,
            resolve,
            read,
            write,
            loadability,
            stop,
            install,
            OutcomeView::Installed,
        )
}

/// Whether the component was installed, and its binaries may be reverted to these snapshots of this
/// pass: the install failed, or the health check after it did.
pub open spec fn may_put_back<
    H,
    V: Fn(&str) -> Result<String, String>,
    E: Fn(&str) -> Result<Vec<u8>, BrokerError>,
    W: Fn(H, &str, &Vec<u8>, bool) -> Result<H, BrokerError>,
    L: Fn(&H, &str) -> Loadability,
    N,
    S: Fn(N, &str, &str, Option<u64>) -> (N, Result<Option<LkgEntry>, BrokerError>),
    O: FnOnce(&str, ServiceAction) -> Result<(), String>,
    I: FnOnce(H, &str) -> InstallOutcome,
    B: Fn(&str) -> DetectedVersion,
    G: Fn(&str) -> Option<String>,
>(
    installer: Installer,
    pc: PlannedComponent,
    resolve: V,
    read: E,
    write: W,
    loadability: L,
    notes: N,
    snapshot: S,
    stop: O,
    install: I,
    health: B,
    digest: G,
    snapshots: Seq<BinarySnapshot>,
) -> bool {
    &&& whole_set_snapped(pc, notes, snapshot, snapshots)
    &&& exists|k: int, outcome: OutcomeView|
        #[trigger] installed_so(
            installer,
            pc,
            k,
            resolve,
            read,
            write,
            loadability,
            stop,
            install,
            outcome,
        ) && may_revert(pc, pc.variants@[k].expected_digest@, outcome, health, digest)
}

/// Whether the component was installed from its verified private copy with its service stopped, and
/// finished with `result`.
pub open spec fn one_finished<
    H,
    V: Fn(&str) -> Result<String, String>,
    E: Fn(&str) -> Result<Vec<u8>, BrokerError>,
    W: Fn(H, &str, &Vec<u8>, bool) -> Result<H, BrokerError>,
    L: Fn(&H, &str) -> Loadability,
    N,
    S: Fn(N, &str, &str, Option<u64>) -> (N, Result<Option<LkgEntry>, BrokerError>),
    O: FnOnce(&str, ServiceAction) -> Result<(), String>,
    I: FnOnce(H, &str) -> InstallOutcome,
    B: Fn(&str) -> DetectedVersion,
    G: Fn(&str) -> Option<String>,
    R: Fn(&LkgEntry) -> Result<(), BrokerError>,
    M: Fn(&str) -> Result<(), String>,
>(
    installer: Installer,
    pc: PlannedComponent,
    resolve: V,
    read: E,
    write: W,
    loadability: L,
    notes: N,
    snapshot: S,
    stop: O,
    install: I,
    health: B,
    digest: G,
    restore: R,
    remove: M,
    result: Result<ComponentOutcome, BrokerError>,
) -> bool {
    exists|k: int, outcome: OutcomeView, snapshots: Seq<BinarySnapshot>|
        {
            &&& #[trigger] whole_set_snapped(pc, notes, snapshot, snapshots)
            &&& #[trigger] installed_so(
                installer,
                pc,
                k,
                resolve,
                read,
                write,
                loadability,
                stop,
                install,
                outcome,
            )
            &&& set_finished(
                pc,
                pc.variants@[k].expected_digest@,
                outcome,
                snapshots,
                health,
                digest,
                restore,
                remove,
                result,
            )
        }
}

/// Whether `r` is how applying one component ended: it could not be staged; or this host can load
/// no build of it; or it could not be snapshotted; or its service could not be stopped, and it was
/// put off; or it was installed, finished, and its service started again.
pub open spec fn one_applied<
    H,
    V: Fn(&str) -> Result<String, String>,
    E: Fn(&str) -> Result<Vec<u8>, BrokerError>,
    W: Fn(H, &str, &Vec<u8>, bool) -> Result<H, BrokerError>,
    L: Fn(&H, &str) -> Loadability,
    D: Fn(H, &str),
    N,
    S: Fn(N, &str, &str, Option<u64>) -> (N, Result<Option<LkgEntry>, BrokerError>),
    O: FnOnce(&str, ServiceAction) -> Result<(), String>,
    I: FnOnce(H, &str) -> InstallOutcome,
    B: Fn(&str) -> DetectedVersion,
    G: Fn(&str) -> Option<String>,
    R: Fn(&LkgEntry) -> Result<(), BrokerError>,
    M: Fn(&str) -> Result<(), String>,
    A: FnOnce(&str, ServiceAction) -> Result<(), String>,
>(
    installer: Installer,
    pc: PlannedComponent,
    resolve: V,
    read: E,
    write: W,
    loadability: L,
    drop_private: D,
    notes: N,
    snapshot: S,
    stop: O,
    install: I,
    health: B,
    digest: G,
    restore: R,
    remove: M,
    start: A,
    r: Result<ComponentOutcome, BrokerError>,
) -> bool {
    let service = service_of(*installer.catalog, pc.name@);
    ||| r is Err && staging_failed(
        installer,
        pc,
        resolve,
        read,
        write,
        loadability,
        drop_private,
        r->Err_0,
    )
    ||| r is Ok && r->Ok_0@ == line(pc, ComponentResult::Deferred, r->Ok_0.detail@) && none_loads(
        installer,
        pc,
        resolve,
        read,
        write,
        loadability,
        drop_private,
        r->Ok_0.detail@,
    )
    ||| r is Err && has_chosen(installer, pc, resolve, read, write, loadability)
        && snapshot_failed(pc, notes, snapshot, r->Err_0)
    ||| was_snapshotted(pc, notes, snapshot) && put_off(pc, service, stop, r) && exists|k: int, held: H|
        #[trigger] is_chosen(installer, pc, k, resolve, read, write, loadability, held)
            && was_dropped(installer, pc, drop_private, held)
    ||| exists|result: Result<ComponentOutcome, BrokerError>| #[trigger]
        one_finished(
            installer,
            pc,
            resolve,
            read,
            write,
            loadability,
            notes,
            snapshot,
            stop,
            install,
            health,
            digest,
            restore,
            remove,
            result,
        ) && restarted(service, start, result, r)
}

impl<'a> Installer<'a> {
    /// Apply one component, from its staged file to its line in the report.
    ///
    /// [`Self::apply_component`] with the steps of this module: staging and verifying a build that
    /// this host can load, snapshots of the whole set, the health check and the rollback of the
    /// whole set. The order is part of the contract, through when each step may be made:
    ///
    /// - `install` only on a private copy whose bytes came from inside the staging directory, have
    ///   the signed digest and are not known to be unloadable, with the snapshots taken and the
    ///   service stopped;
    /// - `health` and `digest` only once the component was installed;
    /// - `restore` and `remove` only where the install or the health check has failed, and only for
    ///   the snapshots that were taken;
    /// - `drop_private` only where the copy is altered or cannot be loaded, or the service could not
    ///   be stopped;
    /// - `start` only once all of that is over.
    ///
    /// `hold` is the caller's hold on the private copy: each write takes it and gives it back, and
    /// installing or dropping the copy takes it for good. `notes` are the caller's notes of the
    /// snapshots, which each one takes and gives back: none is taken twice.
    ///
    /// # Errors
    ///
    /// Those of [`Self::stage_component`], [`snapshot_set`] and [`rollback_set`].
    pub fn apply_one<
        H,
        V: Fn(&str) -> Result<String, String>,
        E: Fn(&str) -> Result<Vec<u8>, BrokerError>,
        W: Fn(H, &str, &Vec<u8>, bool) -> Result<H, BrokerError>,
        L: Fn(&H, &str) -> Loadability,
        D: Fn(H, &str),
        N,
        S: Fn(N, &str, &str, Option<u64>) -> (N, Result<Option<LkgEntry>, BrokerError>),
        O: FnOnce(&str, ServiceAction) -> Result<(), String>,
        I: FnOnce(H, &str) -> InstallOutcome,
        B: Fn(&str) -> DetectedVersion,
        G: Fn(&str) -> Option<String>,
        R: Fn(&LkgEntry) -> Result<(), BrokerError>,
        M: Fn(&str) -> Result<(), String>,
        A: FnOnce(&str, ServiceAction) -> Result<(), String>,
    >(
        &self,
        pc: &PlannedComponent,
        hold: H,
        resolve: &V,
        read: &E,
        write: &W,
        loadability: &L,
        drop_private: &D,
        notes: N,
        snapshot: &S,
        stop: O,
        install: I,
        health: &B,
        digest: &G,
        restore: &R,
        remove: &M,
        start: A,
    ) -> (r: Result<ComponentOutcome, BrokerError>)
        requires
            pc.variants@.len() > 0,
            forall|p: &str|
                is_staging_path(*self, *pc, p@) ==> #[trigger] resolve.requires((p,)),
            forall|p: &str|
                may_read(*self, *pc, *resolve, *read, *write, *loadability, p@)
                    ==> #[trigger] read.requires((p,)),
            forall|h: H, p: &str, b: &Vec<u8>|
                p@ == private_target_of(*pc, self.apply_dir@) && may_write(
                    *self,
                    *pc,
                    *resolve,
                    *read,
                    *write,
                    *loadability,
                    *b,
                ) ==> #[trigger] write.requires((h, p, b, pc.method is RawBinary)),
            forall|h: &H, p: &str|
                p@ == private_target_of(*pc, self.apply_dir@) && may_ask(
                    *self,
                    *pc,
                    *resolve,
                    *read,
                    *write,
                    *loadability,
                    *h,
                ) ==> #[trigger] loadability.requires((h, p)),
            forall|h: H, p: &str|
                p@ == private_target_of(*pc, self.apply_dir@) && may_drop(
                    *self,
                    *pc,
                    *resolve,
                    *read,
                    *write,
                    *loadability,
                    h,
                ) ==> #[trigger] drop_private.requires((h, p)),
            forall|h: H, p: &str, k: int|
                p@ == private_target_of(*pc, self.apply_dir@) && #[trigger] is_chosen(
                    *self,
                    *pc,
                    k,
                    *resolve,
                    *read,
                    *write,
                    *loadability,
                    h,
                ) && was_snapshotted(*pc, notes, *snapshot) && not_stopped(
                    service_of(*self.catalog, pc.name@),
                    stop,
                ) ==> #[trigger] drop_private.requires((h, p)),
            forall|now: N, k: &str, d: &str|
                has_chosen(*self, *pc, *resolve, *read, *write, *loadability) && may_snapshot(
                    *pc,
                    notes,
                    *snapshot,
                    now,
                    k@,
                    d@,
                ) ==> #[trigger] snapshot.requires((now, k, d, pc.installed_build)),
            forall|s: &str|
                has_chosen(*self, *pc, *resolve, *read, *write, *loadability) && was_snapshotted(
                    *pc,
                    notes,
                    *snapshot,
                ) && service_of(*self.catalog, pc.name@) == Some(s@) ==> #[trigger] stop.requires(
                    (s, ServiceAction::Stop),
                ),
            forall|h: H, p: &str, k: int|
                p@ == private_target_of(*pc, self.apply_dir@) && #[trigger] is_chosen(
                    *self,
                    *pc,
                    k,
                    *resolve,
                    *read,
                    *write,
                    *loadability,
                    h,
                ) && was_snapshotted(*pc, notes, *snapshot) && is_free(
                    service_of(*self.catalog, pc.name@),
                    stop,
                ) ==> #[trigger] install.requires((h, p)),
            forall|p: &str|
                may_check(*self, *pc, *resolve, *read, *write, *loadability, stop, install)
                    && pc.evidence is SafeToProbe && owns(*pc, p@) ==> #[trigger] health.requires(
                    (p,),
                ),
            forall|p: &str|
                may_check(*self, *pc, *resolve, *read, *write, *loadability, stop, install)
                    && pc.evidence !is SafeToProbe && owns(*pc, p@) ==> #[trigger] digest.requires(
                    (p,),
                ),
            forall|e: &LkgEntry, snapshots: Seq<BinarySnapshot>|
                #[trigger] may_put_back(
                    *self,
                    *pc,
                    *resolve,
                    *read,
                    *write,
                    *loadability,
                    notes,
                    *snapshot,
                    stop,
                    install,
                    *health,
                    *digest,
                    snapshots,
                ) && is_snapshotted(snapshots, *e) ==> #[trigger] restore.requires((e,)),
            forall|d: &str, snapshots: Seq<BinarySnapshot>|
                #[trigger] may_put_back(
                    *self,
                    *pc,
                    *resolve,
                    *read,
                    *write,
                    *loadability,
                    notes,
                    *snapshot,
                    stop,
                    install,
                    *health,
                    *digest,
                    snapshots,
                ) && was_absent(snapshots, d@) ==> #[trigger] remove.requires((d,)),
            forall|s: &str, result: Result<ComponentOutcome, BrokerError>|
                service_of(*self.catalog, pc.name@) == Some(s@) && controlled(
                    stop,
                    s@,
                    ServiceAction::Stop,
                    Ok(()),
                ) && #[trigger] one_finished(
                    *self,
                    *pc,
                    *resolve,
                    *read,
                    *write,
                    *loadability,
                    notes,
                    *snapshot,
                    stop,
                    install,
                    *health,
                    *digest,
                    *restore,
                    *remove,
                    result,
                ) ==> #[trigger] start.requires((s, ServiceAction::Start)),
        ensures
            one_applied(
                *self,
                *pc,
                *resolve,
                *read,
                *write,
                *loadability,
                *drop_private,
                notes,
                *snapshot,
                stop,
                install,
                *health,
                *digest,
                *restore,
                *remove,
                start,
                r,
            ),
    {
        let ghost service = service_of(*self.catalog, pc.name@);
        let private: String = private_target(pc, self.apply_dir);
        let to: &str = private.as_str();
        let stage = || -> (x: Result<Staged<H>, BrokerError>)
            ensures
                x matches Ok(Staged::Ready { held, variant }) ==> is_chosen(
                    *self,
                    *pc,
                    variant as int,
                    *resolve,
                    *read,
                    *write,
                    *loadability,
                    held,
                ),
                x matches Ok(Staged::Refused { detail }) ==> none_loads(
                    *self,
                    *pc,
                    *resolve,
                    *read,
                    *write,
                    *loadability,
                    *drop_private,
                    detail@,
                ),
                x matches Err(e) ==> staging_failed(
                    *self,
                    *pc,
                    *resolve,
                    *read,
                    *write,
                    *loadability,
                    *drop_private,
                    e,
                ),
            {
                self.stage_component(pc, hold, resolve, read, write, loadability, drop_private)
            };
        let take = || -> (x: Result<Vec<BinarySnapshot>, BrokerError>)
            requires
                has_chosen(*self, *pc, *resolve, *read, *write, *loadability),
            ensures
                x matches Ok(snapshots) ==> whole_set_snapped(*pc, notes, *snapshot, snapshots@),
                x matches Err(e) ==> snapshot_failed(*pc, notes, *snapshot, e),
            { snapshot_set(pc, notes, snapshot) };
        let put_in = |held: H| -> (x: InstallOutcome)
            requires
                install.requires((held, to)),
            ensures
                install.ensures((held, to), x),
            { install(held, to) };
        let finish = |outcome: InstallOutcome, snapshots: Vec<BinarySnapshot>, variant: usize| -> (x:
            Result<ComponentOutcome, BrokerError>)
            requires
                variant < pc.variants@.len(),
                whole_set_snapped(*pc, notes, *snapshot, snapshots@),
                installed_so(
                    *self,
                    *pc,
                    variant as int,
                    *resolve,
                    *read,
                    *write,
                    *loadability,
                    stop,
                    install,
                    outcome@,
                ),
            ensures
                set_finished(
                    *pc,
                    pc.variants@[variant as int].expected_digest@,
                    outcome@,
                    snapshots@,
                    *health,
                    *digest,
                    *restore,
                    *remove,
                    x,
                ),
            {
                let expected: &str = pc.variants[variant].expected_digest.as_str();
                proof {
                    if may_revert(*pc, expected@, outcome@, *health, *digest) {
                        assert(may_put_back(
                            *self,
                            *pc,
                            *resolve,
                            *read,
                            *write,
                            *loadability,
                            notes,
                            *snapshot,
                            stop,
                            install,
                            *health,
                            *digest,
                            snapshots@,
                        ));
                    }
                }
                finish_set(pc, expected, outcome, &snapshots, health, digest, restore, remove)
            };
        let drop_copy = |held: H| -> (u: ())
            requires
                drop_private.requires((held, to)),
            ensures
                drop_private.ensures((held, to), ()),
            {
                drop_private(held, to);
            };
        proof {
            assert forall|held: H, variant: usize| #[trigger]
                stage.ensures((), Ok(Staged::Ready { held, variant })) implies is_chosen(
                *self,
                *pc,
                variant as int,
                *resolve,
                *read,
                *write,
                *loadability,
                held,
            ) by {}
            assert forall|snapshots: Vec<BinarySnapshot>| #[trigger]
                take.ensures((), Ok(snapshots)) implies whole_set_snapped(
                *pc,
                notes,
                *snapshot,
                snapshots@,
            ) by {}
            if was_staged(stage) {
                let (held, variant) = choose|held: H, variant: usize| #[trigger]
                    stage.ensures((), Ok(Staged::Ready { held, variant }));
                assert(is_chosen(
                    *self,
                    *pc,
                    variant as int,
                    *resolve,
                    *read,
                    *write,
                    *loadability,
                    held,
                ));
                assert(has_chosen(*self, *pc, *resolve, *read, *write, *loadability));
            }
            if has_snapshots(take) {
                let snapshots = choose|snapshots: Vec<BinarySnapshot>| #[trigger]
                    take.ensures((), Ok(snapshots));
                assert(whole_set_snapped(*pc, notes, *snapshot, snapshots@));
                assert(was_snapshotted(*pc, notes, *snapshot));
            }
            assert forall|
                held: H,
                variant: usize,
                snapshots: Vec<BinarySnapshot>,
                outcome: InstallOutcome,
            |
                #[trigger] stage.ensures((), Ok(Staged::Ready { held, variant }))
                    && #[trigger] take.ensures((), Ok(snapshots)) && is_free(service, stop)
                    && #[trigger] put_in.ensures((held,), outcome) implies variant
                < pc.variants@.len() && installed_so(
                *self,
                *pc,
                variant as int,
                *resolve,
                *read,
                *write,
                *loadability,
                stop,
                install,
                outcome@,
            ) by {
                assert(install.ensures((held, to), outcome));
            }
            assert forall|result: Result<ComponentOutcome, BrokerError>|
                is_free(service, stop) && #[trigger] was_finished(
                    stage,
                    take,
                    put_in,
                    finish,
                    result,
                ) implies one_finished(
                *self,
                *pc,
                *resolve,
                *read,
                *write,
                *loadability,
                notes,
                *snapshot,
                stop,
                install,
                *health,
                *digest,
                *restore,
                *remove,
                result,
            ) by {
                let (held, variant, snapshots, outcome) = choose|
                    held: H,
                    variant: usize,
                    snapshots: Vec<BinarySnapshot>,
                    outcome: InstallOutcome,
                |
                    {
                        &&& #[trigger] stage.ensures((), Ok(Staged::Ready { held, variant }))
                        &&& take.ensures((), Ok(snapshots))
                        &&& put_in.ensures((held,), outcome)
                        &&& #[trigger] finish.ensures((outcome, snapshots, variant), result)
                    };
                assert(whole_set_snapped(*pc, notes, *snapshot, snapshots@));
                assert(installed_so(
                    *self,
                    *pc,
                    variant as int,
                    *resolve,
                    *read,
                    *write,
                    *loadability,
                    stop,
                    install,
                    outcome@,
                ));
            }
        }
        self.apply_component(pc, stage, take, stop, put_in, finish, start, drop_copy)
    }
}

// ------------------------------------------------------------------ the record of builds

/// What becomes of the record of a component's build.
#[derive(Debug, Clone, Copy, PartialEq, Eq, Structural)]
pub enum BuildRecord {
    /// It stays as it is.
    Keep,
    /// The component is recorded at this build, or forgotten where there is none.
    Replace(Option<u64>),
}

/// The record tells what is present: the new build once it is installed, and the one that was put
/// back, if there was one, once it is rolled back. It is no high-water mark, which would remember a
/// build that is no longer there.
pub open spec fn build_record(pc: PlannedComponent, result: ComponentResult) -> BuildRecord {
    match result {
        ComponentResult::Installed => BuildRecord::Replace(Some(pc.build)),
        ComponentResult::RolledBack => BuildRecord::Replace(pc.installed_build),
        _ => BuildRecord::Keep,
    }
}

/// Computes [`build_record`].
#[must_use]
pub fn record_after(pc: &PlannedComponent, result: ComponentResult) -> (record: BuildRecord)
    ensures
        record == build_record(*pc, result),
{
    match result {
        ComponentResult::Installed => BuildRecord::Replace(Some(pc.build)),
        ComponentResult::RolledBack => BuildRecord::Replace(pc.installed_build),
        _ => BuildRecord::Keep,
    }
}

/// What becomes of the record of a component's build after a manual rollback of what is cached under
/// its name: it is recorded at the build that was put back, or forgotten where that is unknown. What
/// is cached under another name, as an alias is, has no record of its own.
pub open spec fn build_record_restored(
    catalog: Catalog,
    component: Seq<char>,
    record: RecordRead,
) -> BuildRecord {
    match record {
        RecordRead::Record(kept) => if target_named(catalog@, component) is Some {
            BuildRecord::Replace(kept.build)
        } else {
            BuildRecord::Keep
        },
        _ => BuildRecord::Keep,
    }
}

/// Computes [`build_record_restored`].
#[must_use]
pub fn record_after_rollback(catalog: &Catalog, component: &str, record: &RecordRead) -> (r:
    BuildRecord)
    ensures
        r == build_record_restored(*catalog, component@, *record),
{
    match record {
        RecordRead::Record(kept) => match catalog.target(component) {
            Some(_) => BuildRecord::Replace(kept.build),
            None => BuildRecord::Keep,
        },
        _ => BuildRecord::Keep,
    }
}

// ------------------------------------------------------------------ a whole pass

/// A plan that the worker verified: the raw signed feed, and what it staged.
#[derive(Debug, Clone, PartialEq, Eq)]
pub struct VerifiedPlan {
    /// The signed delegation, as it was fetched.
    pub delegation_json: String,
    /// The signed manifest, as it was fetched.
    pub manifest_json: String,
    /// The staged artifacts.
    pub artifacts: Vec<StagedArtifact>,
}

/// What the worker reports.
#[derive(Debug, Clone, PartialEq, Eq)]
pub enum WorkerReport {
    /// Nothing installable was verified.
    Rejected {
        /// The stable reason.
        reason: String,
        /// The detail for people.
        detail: String,
    },
    /// A plan was verified. The broker verifies it again.
    Verified(VerifiedPlan),
}

/// A rejection of the trust chain.
#[derive(Debug, Clone, PartialEq, Eq)]
pub struct TrustFailure {
    /// The rejection in words.
    pub text: String,
    /// Its stable code.
    pub code: String,
}

/// The error for a plan that failed the broker's own verification.
pub fn reverify_err(failure: &TrustFailure) -> (e: BrokerError)
    ensures
        e@ == ErrorView::ReverifyFailed(failure.text@ + " ("@ + failure.code@ + ")"@),
{
    BrokerError::ReverifyFailed(cat4(failure.text.as_str(), " (", failure.code.as_str(), ")"))
}

/// Whether the component is the updater itself and is acted on.
pub open spec fn is_self(pc: PlannedComponent) -> bool {
    pc.action != UpdateAction::Skip && pc.name@ == BEACON_COMPONENT_NAME@
}

/// Whether the component is acted on and is not the updater itself.
pub open spec fn is_other(pc: PlannedComponent) -> bool {
    pc.action != UpdateAction::Skip && pc.name@ != BEACON_COMPONENT_NAME@
}

/// Whether `o` is what became of a component, with the journal from `before` to `after`: one that is
/// current is skipped, and one that is acted on was applied. The updater itself is set aside.
pub open spec fn settled<
    J,
    A: Fn(J, &PlannedComponent, u64) -> (J, Result<ComponentOutcome, BrokerError>),
>(
    apply_one: A,
    pc: PlannedComponent,
    floor: u64,
    before: J,
    o: ComponentOutcome,
    after: J,
) -> bool {
    &&& pc.action == UpdateAction::Skip ==> o@ == line(
        pc,
        ComponentResult::Skipped,
        pc.summary@,
    )
    &&& is_other(pc) ==> apply_one.ensures((before, &pc, floor), (after, Ok(o)))
    &&& !is_other(pc) ==> after == before
}

/// Whether each of the first components was settled so, with the journal handed from each to the
/// next.
pub open spec fn settled_in_turn<
    J,
    A: Fn(J, &PlannedComponent, u64) -> (J, Result<ComponentOutcome, BrokerError>),
>(
    apply_one: A,
    components: Seq<PlannedComponent>,
    floor: u64,
    answers: Seq<ComponentOutcome>,
    journals: Seq<J>,
) -> bool {
    &&& answers.len() <= components.len()
    &&& journals.len() == answers.len() + 1
    &&& forall|i: int|
        0 <= i < answers.len() ==> settled(
            apply_one,
            components[i],
            floor,
            journals[i],
            #[trigger] answers[i],
            journals[i + 1],
        )
}

/// Whether each of the first components was settled so, with the journal from `first` to `now`.
pub open spec fn all_settled<
    J,
    A: Fn(J, &PlannedComponent, u64) -> (J, Result<ComponentOutcome, BrokerError>),
>(
    apply_one: A,
    components: Seq<PlannedComponent>,
    floor: u64,
    first: J,
    answers: Seq<ComponentOutcome>,
    now: J,
) -> bool {
    exists|journals: Seq<J>|
        {
            &&& #[trigger] settled_in_turn(apply_one, components, floor, answers, journals)
            &&& journals[0] == first
            &&& journals.last() == now
        }
}

/// Whether it is the component's turn where the journal has come from `first` to `now`: every one
/// before it is settled, and it is to be acted on and is not the updater itself.
pub open spec fn is_next_of<
    J,
    A: Fn(J, &PlannedComponent, u64) -> (J, Result<ComponentOutcome, BrokerError>),
>(
    apply_one: A,
    components: Seq<PlannedComponent>,
    floor: u64,
    first: J,
    now: J,
    pc: PlannedComponent,
) -> bool {
    is_other(pc) && exists|answers: Seq<ComponentOutcome>|
        answers.len() < components.len() && #[trigger] all_settled(
            apply_one,
            components,
            floor,
            first,
            answers,
            now,
        ) && components[answers.len() as int] == pc
}

/// Whether every component that was acted on, the updater itself left out, was installed.
pub open spec fn others_installed(
    components: Seq<PlannedComponent>,
    answers: Seq<ComponentOutcome>,
) -> bool {
    forall|i: int|
        0 <= i < answers.len() && is_other(components[i]) ==> (#[trigger] answers[i]).result
            is Installed
}

/// The lines for the components, the updater itself left out.
pub open spec fn lines(
    components: Seq<PlannedComponent>,
    answers: Seq<ComponentOutcome>,
) -> Seq<LineView>
    decreases answers.len(),
{
    if answers.len() == 0 || answers.len() > components.len() {
        Seq::empty()
    } else if is_self(components[answers.len() - 1]) {
        lines(components, answers.drop_last())
    } else {
        lines(components, answers.drop_last()).push(answers.last()@)
    }
}

/// The lines for the held components.
pub open spec fn held_lines(held: Seq<HeldComponent>) -> Seq<LineView> {
    Seq::new(held.len(), |i: int| held_line(held[i]))
}

/// The updater's own component, if it is acted on: the last of that name.
pub open spec fn self_of(components: Seq<PlannedComponent>) -> Option<PlannedComponent>
    decreases components.len(),
{
    if components.len() == 0 {
        None
    } else if is_self(components.last()) {
        Some(components.last())
    } else {
        self_of(components.drop_last())
    }
}

/// Whether the trust state may advance: every other component was acted on and installed, and it is
/// not to be left as it is.
pub open spec fn may_advance<
    J,
    A: Fn(J, &PlannedComponent, u64) -> (J, Result<ComponentOutcome, BrokerError>),
>(
    apply_one: A,
    components: Seq<PlannedComponent>,
    floor: u64,
    first: J,
    answers: Seq<ComponentOutcome>,
    now: J,
    suppress: bool,
) -> bool {
    &&& answers.len() == components.len()
    &&& all_settled(apply_one, components, floor, first, answers, now)
    &&& others_installed(components, answers)
    &&& !suppress
}

/// Whether the rest of the pass is settled, so that the updater may replace itself: every other
/// component was dealt with, and the trust state advanced if it was to.
pub open spec fn rest_settled<
    J,
    A: Fn(J, &PlannedComponent, u64) -> (J, Result<ComponentOutcome, BrokerError>),
    W: FnOnce(&Manifest) -> Result<(), BrokerError>,
>(
    apply_one: A,
    advance: W,
    components: Seq<PlannedComponent>,
    manifest: Manifest,
    first: J,
    answers: Seq<ComponentOutcome>,
    now: J,
    suppress: bool,
) -> bool {
    &&& answers.len() == components.len()
    &&& all_settled(apply_one, components, manifest.rollback_floor_build, first, answers, now)
    &&& others_installed(components, answers) && !suppress ==> advance.ensures((&manifest,), Ok(()))
}

/// Whether applying the updater itself gave its line.
pub open spec fn self_lines<
    B: FnOnce(&PlannedComponent, u64) -> Result<ComponentOutcome, BrokerError>,
>(
    apply_self: B,
    components: Seq<PlannedComponent>,
    floor: u64,
    out: Seq<LineView>,
) -> bool {
    &&& self_of(components) is None ==> out.len() == 0
    &&& self_of(components) is Some ==> exists|o: ComponentOutcome| #[trigger]
        apply_self.ensures((&self_of(components)->0, floor), Ok(o)) && out == seq![o@]
}

/// Whether the report tells of a pass that went so.
pub open spec fn report_ok(
    report: PassReport,
    plan: Plan,
    answers: Seq<ComponentOutcome>,
    own: Seq<LineView>,
    suppress: bool,
) -> bool {
    &&& report.applied
    &&& report.reason is None
    &&& report.detail is None
    &&& report.state_advanced == (others_installed(plan.components@, answers) && !suppress)
    &&& line_views(report.components@) == lines(plan.components@, answers) + held_lines(plan.held@)
        + own
}

/// Whether the plan was applied and reported so.
pub open spec fn plan_applied<
    J,
    A: Fn(J, &PlannedComponent, u64) -> (J, Result<ComponentOutcome, BrokerError>),
    W: FnOnce(&Manifest) -> Result<(), BrokerError>,
    B: FnOnce(&PlannedComponent, u64) -> Result<ComponentOutcome, BrokerError>,
>(
    plan: Plan,
    manifest: Manifest,
    suppress: bool,
    first: J,
    apply_one: A,
    advance: W,
    apply_self: B,
    report: PassReport,
) -> bool {
    exists|answers: Seq<ComponentOutcome>, now: J, own: Seq<LineView>|
        #[trigger] rest_settled(
            apply_one,
            advance,
            plan.components@,
            manifest,
            first,
            answers,
            now,
            suppress,
        ) && #[trigger] self_lines(
            apply_self,
            plan.components@,
            manifest.rollback_floor_build,
            own,
        ) && report_ok(report, plan, answers, own, suppress)
}

/// Whether a component other than the updater could not be applied, all before it having been
/// settled.
pub open spec fn component_failed<
    J,
    A: Fn(J, &PlannedComponent, u64) -> (J, Result<ComponentOutcome, BrokerError>),
>(plan: Plan, floor: u64, first: J, apply_one: A, e: BrokerError) -> bool {
    exists|answers: Seq<ComponentOutcome>, now: J, after: J|
        answers.len() < plan.components@.len() && #[trigger] all_settled(
            apply_one,
            plan.components@,
            floor,
            first,
            answers,
            now,
        ) && is_other(plan.components@[answers.len() as int]) && #[trigger] apply_one.ensures(
            (now, &plan.components@[answers.len() as int], floor),
            (after, Err(e)),
        )
}

/// Whether the trust state was to advance and could not.
pub open spec fn advance_failed<
    J,
    A: Fn(J, &PlannedComponent, u64) -> (J, Result<ComponentOutcome, BrokerError>),
    W: FnOnce(&Manifest) -> Result<(), BrokerError>,
>(
    plan: Plan,
    manifest: Manifest,
    suppress: bool,
    first: J,
    apply_one: A,
    advance: W,
    e: BrokerError,
) -> bool {
    advance.ensures((&manifest,), Err(e)) && exists|answers: Seq<ComponentOutcome>, now: J|
     #[trigger]
        may_advance(
            apply_one,
            plan.components@,
            manifest.rollback_floor_build,
            first,
            answers,
            now,
            suppress,
        )
}

/// Whether applying the plan ended in this error.
pub open spec fn plan_failed<
    J,
    A: Fn(J, &PlannedComponent, u64) -> (J, Result<ComponentOutcome, BrokerError>),
    W: FnOnce(&Manifest) -> Result<(), BrokerError>,
    B: FnOnce(&PlannedComponent, u64) -> Result<ComponentOutcome, BrokerError>,
>(
    plan: Plan,
    manifest: Manifest,
    suppress: bool,
    first: J,
    apply_one: A,
    advance: W,
    apply_self: B,
    e: BrokerError,
) -> bool {
    ||| component_failed(plan, manifest.rollback_floor_build, first, apply_one, e)
    ||| advance_failed(plan, manifest, suppress, first, apply_one, advance, e)
    ||| self_of(plan.components@) is Some && apply_self.ensures(
        (&self_of(plan.components@)->0, manifest.rollback_floor_build),
        Err(e),
    )
}

impl<'a> Installer<'a> {
    /// Apply a plan: every actionable component but the updater's own, in order; then the trust
    /// state, if every one of them was installed; then, last, the updater itself.
    ///
    /// `apply_one` may be called only for an actionable component that is not the updater, once all
    /// before it are settled; `advance` only once each of those was installed; and `apply_self` only
    /// once the rest of the pass is settled. `apply_one` takes the caller's journal and gives it
    /// back, so that no component is applied beside those that the journal tells of. What becomes of
    /// the updater's own swap has no part in whether the state advances.
    ///
    /// # Errors
    ///
    /// The first error of `apply_one`, or what `advance` or `apply_self` report.
    pub fn apply_plan<
        J,
        A: Fn(J, &PlannedComponent, u64) -> (J, Result<ComponentOutcome, BrokerError>),
        W: FnOnce(&Manifest) -> Result<(), BrokerError>,
        B: FnOnce(&PlannedComponent, u64) -> Result<ComponentOutcome, BrokerError>,
    >(
        &self,
        plan: &Plan,
        manifest: &Manifest,
        journal: J,
        apply_one: &A,
        advance: W,
        apply_self: B,
    ) -> (r: Result<PassReport, BrokerError>)
        requires
            forall|now: J, pc: &PlannedComponent|
                is_next_of(
                    *apply_one,
                    plan.components@,
                    manifest.rollback_floor_build,
                    journal,
                    now,
                    *pc,
                ) ==> #[trigger] apply_one.requires((now, pc, manifest.rollback_floor_build)),
            forall|answers: Seq<ComponentOutcome>, now: J| #[trigger]
                may_advance(
                    *apply_one,
                    plan.components@,
                    manifest.rollback_floor_build,
                    journal,
                    answers,
                    now,
                    self.suppress_state_advance,
                ) ==> advance.requires((manifest,)),
            forall|answers: Seq<ComponentOutcome>, now: J| #[trigger]
                rest_settled(
                    *apply_one,
                    advance,
                    plan.components@,
                    *manifest,
                    journal,
                    answers,
                    now,
                    self.suppress_state_advance,
                ) && self_of(plan.components@) is Some ==> apply_self.requires(
                    (&self_of(plan.components@)->0, manifest.rollback_floor_build),
                ),
        ensures
            r is Ok ==> plan_applied(
                *plan,
                *manifest,
                self.suppress_state_advance,
                journal,
                *apply_one,
                advance,
                apply_self,
                r->Ok_0,
            ),
            r is Err ==> plan_failed(
                *plan,
                *manifest,
                self.suppress_state_advance,
                journal,
                *apply_one,
                advance,
                apply_self,
                r->Err_0,
            ),
    {
        let floor: u64 = manifest.rollback_floor_build;
        let ghost cs = plan.components@;
        let ghost suppress = self.suppress_state_advance;
        let ghost mut answers: Seq<ComponentOutcome> = Seq::empty();
        let ghost first = journal;
        let ghost mut journals: Seq<J> = seq![journal];
        let mut now: J = journal;
        let mut components: Vec<ComponentOutcome> = Vec::new();
        let mut all_installed: bool = true;
        let mut own: Option<&PlannedComponent> = None;
        let mut i: usize = 0;
        assert(line_views(components@) =~= lines(cs, answers));
        while i < plan.components.len()
            invariant
                i <= plan.components@.len(),
                cs == plan.components@,
                floor == manifest.rollback_floor_build,
                forall|now: J, pc: &PlannedComponent|
                    is_next_of(
                        *apply_one,
                        plan.components@,
                        manifest.rollback_floor_build,
                        first,
                        now,
                        *pc,
                    ) ==> #[trigger] apply_one.requires((now, pc, manifest.rollback_floor_build)),
                answers.len() == i,
                settled_in_turn(*apply_one, cs, floor, answers, journals),
                first == journal,
                journals[0] == first,
                journals.last() == now,
                all_installed == others_installed(cs, answers),
                line_views(components@) == lines(cs, answers),
                self_of(cs.take(i as int)) == match own {
                    Some(pc) => Some(*pc),
                    None => None,
                },
            decreases plan.components@.len() - i,
        {
            let pc: &PlannedComponent = &plan.components[i];
            proof {
                assert(cs.take(i + 1).drop_last() =~= cs.take(i as int));
                assert(cs.take(i + 1).last() == *pc);
                assert(cs[answers.len() as int] == *pc);
            }
            let ghost before = answers;
            let ghost handed = journals;
            if pc.action == UpdateAction::Skip {
                let o: ComponentOutcome = ComponentOutcome::from(
                    pc,
                    ComponentResult::Skipped,
                    pc.summary.clone(),
                );
                proof {
                    answers = answers.push(o);
                    journals = journals.push(now);
                }
                components.push(o);
            } else if same_text(pc.name.as_str(), BEACON_COMPONENT_NAME) {
                own = Some(pc);
                proof {
                    answers = answers.push(arbitrary());
                    journals = journals.push(now);
                }
            } else {
                assert(all_settled(*apply_one, cs, floor, first, answers, now));
                assert(is_next_of(*apply_one, cs, floor, first, now, *pc));
                let ghost came = now;
                let (after, applied) = apply_one(now, pc, floor);
                let o: ComponentOutcome = match applied {
                    Ok(o) => o,
                    Err(e) => {
                        proof {
                            assert(is_other(cs[answers.len() as int]));
                            assert(apply_one.ensures((came, pc, floor), (after, Err(e))));
                            assert(component_failed(*plan, floor, first, *apply_one, e));
                        }
                        return Err(e);
                    },
                };
                if o.result != ComponentResult::Installed {
                    all_installed = false;
                }
                proof {
                    answers = answers.push(o);
                    journals = journals.push(after);
                }
                now = after;
                components.push(o);
            }
            proof {
                assert(answers.drop_last() =~= before);
                assert(forall|j: int| 0 <= j < before.len() ==> answers[j] == before[j]);
                assert(settled_in_turn(*apply_one, cs, floor, answers, journals)) by {
                    assert forall|j: int| 0 <= j < answers.len() implies settled(
                        *apply_one,
                        cs[j],
                        floor,
                        journals[j],
                        #[trigger] answers[j],
                        journals[j + 1],
                    ) by {
                        if j < before.len() {
                            assert(settled(
                                *apply_one,
                                cs[j],
                                floor,
                                handed[j],
                                before[j],
                                handed[j + 1],
                            ));
                        }
                    }
                }
                assert(all_installed == others_installed(cs, answers)) by {
                    if others_installed(cs, before) {
                        assert forall|j: int|
                            0 <= j < before.len() && is_other(cs[j]) implies (
                        #[trigger] answers[j]).result is Installed by {
                            assert(before[j].result is Installed);
                        }
                    } else {
                        let j: int = choose|j: int|
                            0 <= j < before.len() && is_other(cs[j]) && (
                            #[trigger] before[j]).result !is Installed;
                        assert(answers[j].result !is Installed);
                    }
                    assert(answers.last() == answers[i as int]);
                }
                assert(line_views(components@) =~= lines(cs, answers));
            }
            i = i + 1;
        }
        assert(cs.take(i as int) =~= cs);
        let advanced: bool = all_installed && !self.suppress_state_advance;
        assert(all_settled(*apply_one, cs, floor, first, answers, now));
        if advanced {
            assert(may_advance(*apply_one, cs, floor, first, answers, now, suppress));
            match advance(manifest) {
                Ok(u) => assert(u == ()),
                Err(e) => return Err(e),
            }
        }
        assert(rest_settled(*apply_one, advance, cs, *manifest, first, answers, now, suppress));
        let ghost first = line_views(components@);
        let mut h: usize = 0;
        assert(line_views(components@) =~= first + held_lines(plan.held@.take(0)));
        while h < plan.held.len()
            invariant
                h <= plan.held@.len(),
                line_views(components@) == first + held_lines(plan.held@.take(h as int)),
            decreases plan.held@.len() - h,
        {
            let ghost shown = components@;
            components.push(ComponentOutcome::held(&plan.held[h]));
            proof {
                assert(line_views(components@) =~= line_views(shown).push(
                    held_line(plan.held@[h as int]),
                ));
                assert(held_lines(plan.held@.take(h + 1)) =~= held_lines(
                    plan.held@.take(h as int),
                ).push(held_line(plan.held@[h as int])));
                assert(line_views(components@) =~= first + held_lines(plan.held@.take(h + 1)));
            }
            h = h + 1;
        }
        assert(plan.held@.take(h as int) =~= plan.held@);
        let ghost mut last: Seq<LineView> = Seq::empty();
        if let Some(pc) = own {
            match apply_self(pc, floor) {
                Ok(o) => {
                    proof {
                        last = seq![o@];
                        assert(apply_self.ensures((&self_of(cs)->0, floor), Ok(o)));
                    }
                    let ghost shown = components@;
                    components.push(o);
                    assert(line_views(components@) =~= line_views(shown) + seq![o@]);
                },
                Err(e) => return Err(e),
            }
        }
        let report = PassReport {
            applied: true,
            reason: None,
            detail: None,
            components,
            state_advanced: advanced,
        };
        proof {
            assert(self_lines(apply_self, cs, floor, last));
            assert(line_views(report.components@) =~= lines(cs, answers) + held_lines(plan.held@)
                + last);
            assert(report_ok(report, *plan, answers, last, suppress));
        }
        Ok(report)
    }
}

/// What the plan of a pass is made from.
pub open spec fn pass_input(installer: Installer, verified: VerifiedPlan) -> PlanInput {
    PlanInput {
        targets: installer.catalog@,
        staged: verified.artifacts@,
        platform: *installer.platform,
        recorded: installer.recorded@,
    }
}

/// Whether the worker's plan was verified again, as `manifest`, and `plan` is the plan for it.
pub open spec fn planned_from<
    V: FnOnce(&VerifiedPlan) -> Result<Manifest, TrustFailure>,
    D: Fn(&str) -> DetectedVersion,
    G: Fn(&str) -> Option<String>,
    X: Fn(&str) -> bool,
>(
    installer: Installer,
    verified: VerifiedPlan,
    reverify: V,
    detect: D,
    digest: G,
    is_installed: X,
    manifest: Manifest,
    plan: Plan,
) -> bool {
    &&& reverify.ensures((&verified,), Ok(manifest))
    &&& complete(
        pass_input(installer, verified),
        manifest.components@,
        detect,
        digest,
        is_installed,
        plan,
    )
}

/// Whether the worker reported a plan and it was verified again.
pub open spec fn was_reverified<V: FnOnce(&VerifiedPlan) -> Result<Manifest, TrustFailure>>(
    report: WorkerReport,
    reverify: V,
) -> bool {
    report is Verified && exists|manifest: Manifest| #[trigger]
        reverify.ensures((&report->Verified_0,), Ok(manifest))
}

/// Whether the worker's plan failed the broker's own verification.
pub open spec fn reverify_refused<V: FnOnce(&VerifiedPlan) -> Result<Manifest, TrustFailure>>(
    verified: VerifiedPlan,
    reverify: V,
    e: ErrorView,
) -> bool {
    exists|f: TrustFailure| #[trigger]
        reverify.ensures((&verified,), Err(f)) && e == ErrorView::ReverifyFailed(
            f.text@ + " ("@ + f.code@ + ")"@,
        )
}

/// Whether the worker's plan was verified again but an artifact for it was not staged.
pub open spec fn plan_incomplete<V: FnOnce(&VerifiedPlan) -> Result<Manifest, TrustFailure>>(
    installer: Installer,
    verified: VerifiedPlan,
    reverify: V,
    e: ErrorView,
) -> bool {
    exists|manifest: Manifest, k: int|
        #[trigger] reverify.ensures((&verified,), Ok(manifest)) && #[trigger] first_missing(
            pass_input(installer, verified),
            manifest.components@,
            k,
            e,
        )
}

impl<'a> Installer<'a> {
    /// Apply what the worker reports.
    ///
    /// A rejected report does nothing. A verified one is verified again by `reverify`, under the
    /// broker's own root key and persisted state, before anything is decided; it is planned against
    /// the manifest that came of that; and the plan is applied ([`Self::apply_plan`]). What each
    /// step may rely on is what those before it have established.
    ///
    /// # Errors
    ///
    /// [`BrokerError::ReverifyFailed`] if the plan fails the broker's own verification,
    /// [`BrokerError::StagedArtifactMissing`] if it is incomplete, and those of
    /// [`Self::apply_plan`].
    pub fn apply<
        V: FnOnce(&VerifiedPlan) -> Result<Manifest, TrustFailure>,
        D: Fn(&str) -> DetectedVersion,
        G: Fn(&str) -> Option<String>,
        X: Fn(&str) -> bool,
        J,
        A: Fn(J, &PlannedComponent, u64) -> (J, Result<ComponentOutcome, BrokerError>),
        W: FnOnce(&Manifest) -> Result<(), BrokerError>,
        B: FnOnce(&PlannedComponent, u64) -> Result<ComponentOutcome, BrokerError>,
    >(
        &self,
        report: &WorkerReport,
        reverify: V,
        detect: &D,
        digest: &G,
        is_installed: &X,
        journal: J,
        apply_one: &A,
        advance: W,
        apply_self: B,
    ) -> (r: Result<PassReport, BrokerError>)
        requires
            report is Verified ==> reverify.requires((&report->Verified_0,)),
            forall|p: &str|
                was_reverified(*report, reverify) && may_probe(self.catalog@, p@)
                    ==> #[trigger] detect.requires((p,)),
            forall|p: &str|
                was_reverified(*report, reverify) && may_hash(self.catalog@, p@)
                    ==> #[trigger] digest.requires((p,)),
            forall|p: &str|
                was_reverified(*report, reverify) && may_look_for(self.catalog@, p@)
                    ==> #[trigger] is_installed.requires((p,)),
            forall|manifest: Manifest, plan: Plan, now: J, pc: &PlannedComponent|
                #[trigger] planned_from(
                    *self,
                    report->Verified_0,
                    reverify,
                    *detect,
                    *digest,
                    *is_installed,
                    manifest,
                    plan,
                ) && is_next_of(
                    *apply_one,
                    plan.components@,
                    manifest.rollback_floor_build,
                    journal,
                    now,
                    *pc,
                ) ==> #[trigger] apply_one.requires((now, pc, manifest.rollback_floor_build)),
            forall|manifest: Manifest, plan: Plan, answers: Seq<ComponentOutcome>, now: J|
                planned_from(
                    *self,
                    report->Verified_0,
                    reverify,
                    *detect,
                    *digest,
                    *is_installed,
                    manifest,
                    plan,
                ) && #[trigger] may_advance(
                    *apply_one,
                    plan.components@,
                    manifest.rollback_floor_build,
                    journal,
                    answers,
                    now,
                    self.suppress_state_advance,
                ) ==> advance.requires((&manifest,)),
            forall|manifest: Manifest, plan: Plan, answers: Seq<ComponentOutcome>, now: J|
                planned_from(
                    *self,
                    report->Verified_0,
                    reverify,
                    *detect,
                    *digest,
                    *is_installed,
                    manifest,
                    plan,
                ) && #[trigger] rest_settled(
                    *apply_one,
                    advance,
                    plan.components@,
                    manifest,
                    journal,
                    answers,
                    now,
                    self.suppress_state_advance,
                ) && self_of(plan.components@) is Some ==> apply_self.requires(
                    (&self_of(plan.components@)->0, manifest.rollback_floor_build),
                ),
        ensures
            report is Rejected ==> r is Ok && did_nothing(
                r->Ok_0,
                report->reason@,
                report->detail@,
            ),
            report is Verified && r is Ok ==> exists|manifest: Manifest, plan: Plan|
                #[trigger] planned_from(
                    *self,
                    report->Verified_0,
                    reverify,
                    *detect,
                    *digest,
                    *is_installed,
                    manifest,
                    plan,
                ) && plan_applied(
                    plan,
                    manifest,
                    self.suppress_state_advance,
                    journal,
                    *apply_one,
                    advance,
                    apply_self,
                    r->Ok_0,
                ),
            report is Verified && r is Err ==> {
                ||| reverify_refused(report->Verified_0, reverify, r->Err_0@)
                ||| plan_incomplete(*self, report->Verified_0, reverify, r->Err_0@)
                ||| exists|manifest: Manifest, plan: Plan|
                    #[trigger] planned_from(
                        *self,
                        report->Verified_0,
                        reverify,
                        *detect,
                        *digest,
                        *is_installed,
                        manifest,
                        plan,
                    ) && plan_failed(
                        plan,
                        manifest,
                        self.suppress_state_advance,
                        journal,
                        *apply_one,
                        advance,
                        apply_self,
                        r->Err_0,
                    )
            },
    {
        let verified: &VerifiedPlan = match report {
            WorkerReport::Rejected { reason, detail } => {
                return Ok(PassReport::nothing_to_do(reason.as_str(), detail.as_str()));
            },
            WorkerReport::Verified(verified) => verified,
        };
        let manifest: Manifest = match reverify(verified) {
            Ok(manifest) => manifest,
            Err(failure) => {
                assert(reverify.ensures((&report->Verified_0,), Err(failure)));
                return Err(reverify_err(&failure));
            },
        };
        assert(reverify.ensures((&report->Verified_0,), Ok(manifest)));
        let plan: Plan = match Plan::build(
            &manifest,
            verified.artifacts.as_slice(),
            self.catalog,
            self.platform,
            detect,
            digest,
            self.recorded,
            is_installed,
        ) {
            Ok(plan) => plan,
            Err(e) => {
                proof {
                    let k: int = choose|k: int| #[trigger]
                        first_missing(
                            pass_input(*self, *verified),
                            manifest.components@,
                            k,
                            e@,
                        );
                    assert(first_missing(
                        pass_input(*self, report->Verified_0),
                        manifest.components@,
                        k,
                        e@,
                    ));
                    assert(plan_incomplete(*self, report->Verified_0, reverify, e@));
                }
                return Err(e);
            },
        };
        assert(planned_from(
            *self,
            report->Verified_0,
            reverify,
            *detect,
            *digest,
            *is_installed,
            manifest,
            plan,
        ));
        self.apply_plan(&plan, &manifest, journal, apply_one, advance, apply_self)
    }
}

// ------------------------------------------------------------------ laws

/// The trust state advances only in a pass in which every component that was acted on, the updater
/// itself left out, is reported as installed.
pub proof fn the_state_advances_only_when_all_others_are_installed(
    report: PassReport,
    plan: Plan,
    answers: Seq<ComponentOutcome>,
    own: Seq<LineView>,
    suppress: bool,
    i: int,
)
    requires
        report_ok(report, plan, answers, own, suppress),
        answers.len() == plan.components@.len(),
        report.state_advanced,
        0 <= i < plan.components@.len(),
        is_other(plan.components@[i]),
    ensures
        !suppress,
        answers[i].result is Installed,
        exists|k: int|
            0 <= k < report.components@.len() && (#[trigger] report.components@[k])@ == answers[i]@,
{
    lemma_line_of(plan.components@, answers, i);
    let all = lines(plan.components@, answers);
    let k: int = choose|k: int| 0 <= k < all.len() && #[trigger] all[k] == answers[i]@;
    let shown = line_views(report.components@);
    assert(shown.len() == all.len() + plan.held@.len() + own.len());
    assert(shown[k] == all[k]);
    assert(report.components@[k]@ == answers[i]@);
}

proof fn lemma_line_of(
    components: Seq<PlannedComponent>,
    answers: Seq<ComponentOutcome>,
    i: int,
)
    requires
        0 <= i < answers.len() <= components.len(),
        !is_self(components[i]),
    ensures
        exists|k: int|
            0 <= k < lines(components, answers).len() && #[trigger] lines(components, answers)[k]
                == answers[i]@,
    decreases answers.len(),
{
    let n: int = answers.len() - 1;
    let fewer = lines(components, answers.drop_last());
    if i == n {
        let all = lines(components, answers);
        assert(all[all.len() - 1] == answers[i]@);
    } else {
        lemma_line_of(components, answers.drop_last(), i);
        let k: int = choose|k: int| 0 <= k < fewer.len() && #[trigger] fewer[k] == answers[i]@;
        assert(lines(components, answers)[k] == answers[i]@);
    }
}

/// A service that was stopped for an install was started again, whatever became of the component.
pub proof fn a_stopped_service_is_started_again<
    H,
    T: FnOnce() -> Result<Staged<H>, BrokerError>,
    S: FnOnce() -> Result<Vec<BinarySnapshot>, BrokerError>,
    O: FnOnce(&str, ServiceAction) -> Result<(), String>,
    I: FnOnce(H) -> InstallOutcome,
    F: FnOnce(InstallOutcome, Vec<BinarySnapshot>, usize) -> Result<ComponentOutcome, BrokerError>,
    A: FnOnce(&str, ServiceAction) -> Result<(), String>,
    D: FnOnce(H),
>(
    pc: PlannedComponent,
    service: Seq<char>,
    stage: T,
    snapshot: S,
    stop: O,
    install: I,
    finish: F,
    start: A,
    drop_private: D,
    r: Result<ComponentOutcome, BrokerError>,
)
    requires
        component_ended(
            pc,
            Some(service),
            stage,
            snapshot,
            stop,
            install,
            finish,
            start,
            drop_private,
            r,
        ),
    ensures
        ({
            ||| r is Err && stage.ensures((), Err(r->Err_0))
            ||| is_refused(pc, stage, r)
            ||| r is Err && snapshot.ensures((), Err(r->Err_0))
            ||| put_off(pc, Some(service), stop, r)
            ||| controlled(stop, service, ServiceAction::Stop, Ok(())) && exists|
                c: Result<(), String>,
            | #[trigger]
                controlled(start, service, ServiceAction::Start, c)
        }),
{
    if carried_out(Some(service), stage, snapshot, stop, install, finish, start, r) {
        let result = choose|result: Result<ComponentOutcome, BrokerError>| #[trigger]
            was_finished(stage, snapshot, install, finish, result) && restarted(
                Some(service),
                start,
                result,
                r,
            );
        assert(started_again(service, start, result, r));
    }
}

/// A component that is reported as installed was installed from a private copy whose bytes came from
/// strictly inside the staging directory, have the signed digest and are not known to be unloadable
/// here, with its service stopped, and every one of its binaries passed the health check for the
/// build that was installed.
pub proof fn what_is_reported_installed_was_verified_and_checked<
    H,
    V: Fn(&str) -> Result<String, String>,
    E: Fn(&str) -> Result<Vec<u8>, BrokerError>,
    W: Fn(H, &str, &Vec<u8>, bool) -> Result<H, BrokerError>,
    L: Fn(&H, &str) -> Loadability,
    D: Fn(H, &str),
    N,
    S: Fn(N, &str, &str, Option<u64>) -> (N, Result<Option<LkgEntry>, BrokerError>),
    O: FnOnce(&str, ServiceAction) -> Result<(), String>,
    I: FnOnce(H, &str) -> InstallOutcome,
    B: Fn(&str) -> DetectedVersion,
    G: Fn(&str) -> Option<String>,
    R: Fn(&LkgEntry) -> Result<(), BrokerError>,
    M: Fn(&str) -> Result<(), String>,
    A: FnOnce(&str, ServiceAction) -> Result<(), String>,
>(
    installer: Installer,
    pc: PlannedComponent,
    resolve: V,
    read: E,
    write: W,
    loadability: L,
    drop_private: D,
    notes: N,
    snapshot: S,
    stop: O,
    install: I,
    health: B,
    digest: G,
    restore: R,
    remove: M,
    start: A,
    r: Result<ComponentOutcome, BrokerError>,
)
    requires
        one_applied(
            installer,
            pc,
            resolve,
            read,
            write,
            loadability,
            drop_private,
            notes,
            snapshot,
            stop,
            install,
            health,
            digest,
            restore,
            remove,
            start,
            r,
        ),
        r is Ok,
        r->Ok_0.result is Installed,
    ensures
        verified_and_checked(
            installer,
            pc,
            resolve,
            read,
            write,
            loadability,
            stop,
            install,
            health,
            digest,
        ),
{
    let service = service_of(*installer.catalog, pc.name@);
    assert(r->Ok_0@.result is Installed);
    let result = choose|result: Result<ComponentOutcome, BrokerError>| #[trigger]
        one_finished(
            installer,
            pc,
            resolve,
            read,
            write,
            loadability,
            notes,
            snapshot,
            stop,
            install,
            health,
            digest,
            restore,
            remove,
            result,
        ) && restarted(service, start, result, r);
    if service is Some {
        assert(started_again(service->0, start, result, r));
    }
    assert(result is Ok && result->Ok_0@.result is Installed);
    let (k, outcome, snapshots) = choose|
        k: int,
        outcome: OutcomeView,
        snapshots: Seq<BinarySnapshot>,
    |
        {
            &&& #[trigger] whole_set_snapped(pc, notes, snapshot, snapshots)
            &&& #[trigger] installed_so(
                installer,
                pc,
                k,
                resolve,
                read,
                write,
                loadability,
                stop,
                install,
                outcome,
            )
            &&& set_finished(
                pc,
                pc.variants@[k].expected_digest@,
                outcome,
                snapshots,
                health,
                digest,
                restore,
                remove,
                result,
            )
        };
    assert(set_kept(pc, pc.variants@[k].expected_digest@, health, digest, result));
}

/// Whether a build of the component was installed from its verified private copy, with no service
/// holding the binaries, and every binary passed the health check for that build.
pub open spec fn verified_and_checked<
    H,
    V: Fn(&str) -> Result<String, String>,
    E: Fn(&str) -> Result<Vec<u8>, BrokerError>,
    W: Fn(H, &str, &Vec<u8>, bool) -> Result<H, BrokerError>,
    L: Fn(&H, &str) -> Loadability,
    O: FnOnce(&str, ServiceAction) -> Result<(), String>,
    I: FnOnce(H, &str) -> InstallOutcome,
    B: Fn(&str) -> DetectedVersion,
    G: Fn(&str) -> Option<String>,
>(
    installer: Installer,
    pc: PlannedComponent,
    resolve: V,
    read: E,
    write: W,
    loadability: L,
    stop: O,
    install: I,
    health: B,
    digest: G,
) -> bool {
    exists|k: int, d: DetectedVersion|
        #[trigger] installed_so(
            installer,
            pc,
            k,
            resolve,
            read,
            write,
            loadability,
            stop,
            install,
            OutcomeView::Installed,
        ) && #[trigger] gate_ok(pc, pc.variants@[k].expected_digest@, health, digest, Ok(d))
}

/// The trust state advances only over components that were verified and checked: where each
/// component of a pass is applied as [`Installer::apply_one`] applies it, and the pass reports that
/// the state advanced, every component that was acted on, the updater itself left out, was installed
/// from a verified private copy and passed the health check.
pub proof fn the_state_advances_only_over_verified_components<
    H,
    V: Fn(&str) -> Result<String, String>,
    E: Fn(&str) -> Result<Vec<u8>, BrokerError>,
    W: Fn(H, &str, &Vec<u8>, bool) -> Result<H, BrokerError>,
    L: Fn(&H, &str) -> Loadability,
    D: Fn(H, &str),
    N,
    S: Fn(N, &str, &str, Option<u64>) -> (N, Result<Option<LkgEntry>, BrokerError>),
    O: FnOnce(&str, ServiceAction) -> Result<(), String>,
    I: FnOnce(H, &str) -> InstallOutcome,
    B: Fn(&str) -> DetectedVersion,
    G: Fn(&str) -> Option<String>,
    R: Fn(&LkgEntry) -> Result<(), BrokerError>,
    M: Fn(&str) -> Result<(), String>,
    A: FnOnce(&str, ServiceAction) -> Result<(), String>,
    J,
    U: Fn(J, &PlannedComponent, u64) -> (J, Result<ComponentOutcome, BrokerError>),
    X: FnOnce(&Manifest) -> Result<(), BrokerError>,
    Y: FnOnce(&PlannedComponent, u64) -> Result<ComponentOutcome, BrokerError>,
>(
    installer: Installer,
    plan: Plan,
    manifest: Manifest,
    suppress: bool,
    journal: J,
    apply_one: U,
    advance: X,
    apply_self: Y,
    report: PassReport,
    resolve: V,
    read: E,
    write: W,
    loadability: L,
    drop_private: D,
    notes: N,
    snapshot: S,
    stop: spec_fn(PlannedComponent) -> O,
    install: spec_fn(PlannedComponent) -> I,
    health: B,
    digest: G,
    restore: R,
    remove: M,
    start: spec_fn(PlannedComponent) -> A,
    i: int,
)
    requires
        forall|before: J, pc: PlannedComponent, after: J, o: ComponentOutcome| #[trigger]
            apply_one.ensures(
                (before, &pc, manifest.rollback_floor_build),
                (after, Ok(o)),
            ) ==> one_applied(
                installer,
                pc,
                resolve,
                read,
                write,
                loadability,
                drop_private,
                notes,
                snapshot,
                stop(pc),
                install(pc),
                health,
                digest,
                restore,
                remove,
                start(pc),
                Ok(o),
            ),
        plan_applied(plan, manifest, suppress, journal, apply_one, advance, apply_self, report),
        report.state_advanced,
        0 <= i < plan.components@.len(),
        is_other(plan.components@[i]),
    ensures
        verified_and_checked(
            installer,
            plan.components@[i],
            resolve,
            read,
            write,
            loadability,
            stop(plan.components@[i]),
            install(plan.components@[i]),
            health,
            digest,
        ),
{
    let (answers, now, own) = choose|answers: Seq<ComponentOutcome>, now: J, own: Seq<LineView>|
        #[trigger] rest_settled(
            apply_one,
            advance,
            plan.components@,
            manifest,
            journal,
            answers,
            now,
            suppress,
        ) && #[trigger] self_lines(
            apply_self,
            plan.components@,
            manifest.rollback_floor_build,
            own,
        ) && report_ok(report, plan, answers, own, suppress);
    let pc = plan.components@[i];
    let journals = choose|journals: Seq<J>|
        {
            &&& #[trigger] settled_in_turn(
                apply_one,
                plan.components@,
                manifest.rollback_floor_build,
                answers,
                journals,
            )
            &&& journals[0] == journal
            &&& journals.last() == now
        };
    assert(settled(
        apply_one,
        pc,
        manifest.rollback_floor_build,
        journals[i],
        answers[i],
        journals[i + 1],
    ));
    assert(answers[i].result is Installed);
    what_is_reported_installed_was_verified_and_checked(
        installer,
        pc,
        resolve,
        read,
        write,
        loadability,
        drop_private,
        notes,
        snapshot,
        stop(pc),
        install(pc),
        health,
        digest,
        restore,
        remove,
        start(pc),
        Ok(answers[i]),
    );
}

/// The updater's own line, where it has one, is the last of the report.
pub proof fn the_updater_comes_last(
    report: PassReport,
    plan: Plan,
    answers: Seq<ComponentOutcome>,
    own: Seq<LineView>,
    suppress: bool,
)
    requires
        report_ok(report, plan, answers, own, suppress),
        own.len() == 1,
    ensures
        report.components@.len() > 0,
        report.components@.last()@ == own[0],
{
    let shown = line_views(report.components@);
    assert(shown.last() == own[0]);
}

/// Every held component has its line in the report, with the reason for the hold.
pub proof fn every_hold_is_reported(
    report: PassReport,
    plan: Plan,
    answers: Seq<ComponentOutcome>,
    own: Seq<LineView>,
    suppress: bool,
    i: int,
)
    requires
        report_ok(report, plan, answers, own, suppress),
        0 <= i < plan.held@.len(),
    ensures
        exists|k: int|
            0 <= k < report.components@.len() && (#[trigger] report.components@[k])@ == held_line(
                plan.held@[i],
            ),
{
    let shown = line_views(report.components@);
    let k: int = lines(plan.components@, answers).len() + i;
    assert(shown.len() == lines(plan.components@, answers).len() + plan.held@.len() + own.len());
    assert(shown[k] == held_line(plan.held@[i]));
    assert(report.components@[k]@ == held_line(plan.held@[i]));
}

/// The cache keys of a component's binaries do not collide with the component's own, and none holds
/// a separator where the component's name has none.
pub proof fn an_alias_key_is_a_plain_name(component: Seq<char>, alias: Seq<char>)
    requires
        forall|j: int| 0 <= j < component.len() ==> #[trigger] component[j] != '/',
    ensures
        alias_key(component, alias) != component,
        forall|j: int|
            0 <= j < alias_key(component, alias).len() ==> #[trigger] alias_key(component, alias)[j]
                != '/',
{
    reveal_strlit("--");
    crate::path::lemma_last(alias);
    assert(alias_key(component, alias).len() > component.len());
}

/// The trust state advances exactly when it is not to be left as it is and every component that was to be
/// installed or updated, but for the updater itself, was installed.
pub proof fn when_the_state_advances(
    report: PassReport,
    plan: Plan,
    answers: Seq<ComponentOutcome>,
    own: Seq<LineView>,
    suppress: bool,
)
    requires
        report_ok(report, plan, answers, own, suppress),
        answers.len() == plan.components@.len(),
    ensures
        report.applied,
        report.state_advanced <==> !suppress && forall|i: int|
            0 <= i < answers.len() && (#[trigger] plan.components@[i]).name@ != "dig-updater"@ && (
            plan.components@[i].action is Install || plan.components@[i].action is Update)
                ==> answers[i].result is Installed,
{
    if !suppress && (forall|i: int|
        0 <= i < answers.len() && (#[trigger] plan.components@[i]).name@ != "dig-updater"@ && (
        plan.components@[i].action is Install || plan.components@[i].action is Update)
            ==> answers[i].result is Installed) {
        assert forall|i: int|
            0 <= i < answers.len() && is_other(plan.components@[i]) implies (
        #[trigger] answers[i]).result is Installed by {
            assert(plan.components@[i].name@ != "dig-updater"@);
        }
        assert(others_installed(plan.components@, answers));
    }
    if report.state_advanced {
        assert forall|i: int|
            0 <= i < answers.len() && (#[trigger] plan.components@[i]).name@ != "dig-updater"@ && (
            plan.components@[i].action is Install || plan.components@[i].action is Update)
            implies answers[i].result is Installed by {
            assert(is_other(plan.components@[i]));
            assert(answers[i].result is Installed);
        }
    }
}

/// The report has a line for each component, in the order of the plan, but for the updater where it
/// is acted on; then one for each that is held, with its reason; and then the updater's own. What is
/// returned is the component that each of the first lines is for.
#[verifier::rlimit(40)]
pub proof fn what_is_reported(
    report: PassReport,
    plan: Plan,
    answers: Seq<ComponentOutcome>,
    own: Seq<LineView>,
    suppress: bool,
) -> (at: Seq<int>)
    requires
        report_ok(report, plan, answers, own, suppress),
        answers.len() == plan.components@.len(),
    ensures
        report.components@.len() == at.len() + plan.held@.len() + own.len(),
        forall|i: int|
            0 <= i < at.len() ==> 0 <= #[trigger] at[i] < answers.len() && report.components@[i]@
                == answers[at[i]]@,
        forall|i: int, j: int| 0 <= i < j < at.len() ==> #[trigger] at[i] < #[trigger] at[j],
        forall|k: int|
            0 <= k < answers.len() ==> ((exists|i: int| 0 <= i < at.len() && #[trigger] at[i] == k)
                <==> (#[trigger] plan.components@[k]).name@ != "dig-updater"@
                || plan.components@[k].action is Skip),
        forall|i: int|
            0 <= i < plan.held@.len() ==> tells_of_hold(
                report.components@[at.len() + i],
                #[trigger] plan.held@[i],
            ),
        forall|i: int|
            0 <= i < own.len() ==> report.components@[at.len() + plan.held@.len() + i]@
                == #[trigger] own[i],
{
    let at = lemma_lines_at(plan.components@, answers);
    let shown = line_views(report.components@);
    let first = lines(plan.components@, answers);
    let held = held_lines(plan.held@);
    assert(shown == first + held + own);
    assert(shown.len() == report.components@.len());
    assert(shown.len() == first.len() + held.len() + own.len());
    assert(forall|i: int| 0 <= i < shown.len() ==> shown[i] == report.components@[i]@);
    assert forall|i: int| 0 <= i < at.len() implies 0 <= #[trigger] at[i] < answers.len()
        && report.components@[i]@ == answers[at[i]]@ by {
        assert(shown[i] == first[i]);
    }
    assert forall|i: int| 0 <= i < plan.held@.len() implies tells_of_hold(
        report.components@[at.len() + i],
        #[trigger] plan.held@[i],
    ) by {
        assert(shown[at.len() + i] == held[i]);
    }
    assert forall|i: int| 0 <= i < own.len() implies report.components@[at.len() + plan.held@.len()
        + i]@ == #[trigger] own[i] by {
        assert(shown[at.len() + plan.held@.len() + i] == own[i]);
    }
    at
}

/// Whether the line tells that the component is held, and why.
pub open spec fn tells_of_hold(shown: ComponentOutcome, held: HeldComponent) -> bool {
    &&& shown.component@ == held.name@
    &&& shown.action@ == "hold"@
    &&& shown.result is Held
    &&& shown.detail@ == held.reason@
}

#[verifier::rlimit(40)]
proof fn lemma_lines_at(
    components: Seq<PlannedComponent>,
    answers: Seq<ComponentOutcome>,
) -> (at: Seq<int>)
    requires
        answers.len() <= components.len(),
    ensures
        at.len() == lines(components, answers).len(),
        forall|i: int|
            0 <= i < at.len() ==> 0 <= #[trigger] at[i] < answers.len() && lines(
                components,
                answers,
            )[i] == answers[at[i]]@,
        forall|i: int, j: int| 0 <= i < j < at.len() ==> #[trigger] at[i] < #[trigger] at[j],
        forall|k: int|
            0 <= k < answers.len() ==> ((exists|i: int| 0 <= i < at.len() && #[trigger] at[i] == k)
                <==> (#[trigger] components[k]).name@ != "dig-updater"@ || components[k].action
                is Skip),
    decreases answers.len(),
{
    if answers.len() == 0 {
        Seq::empty()
    } else {
        let n: int = answers.len() - 1;
        let fewer = answers.drop_last();
        let before = lemma_lines_at(components, fewer);
        let kept = !is_self(components[n]);
        let at = if kept {
            before.push(n)
        } else {
            before
        };
        assert(forall|k: int| 0 <= k < n ==> fewer[k] == answers[k]);
        assert forall|i: int| 0 <= i < at.len() implies 0 <= #[trigger] at[i] < answers.len()
            && lines(components, answers)[i] == answers[at[i]]@ by {
            if i < before.len() {
                assert(at[i] == before[i]);
                assert(lines(components, answers)[i] == lines(components, fewer)[i]);
            }
        }
        assert forall|i: int, j: int| 0 <= i < j < at.len() implies #[trigger] at[i]
            < #[trigger] at[j] by {
            assert(at[i] == before[i]);
            if j < before.len() {
                assert(at[j] == before[j]);
            }
        }
        assert forall|k: int| 0 <= k < answers.len() implies ((exists|i: int|
            0 <= i < at.len() && #[trigger] at[i] == k) <==> (#[trigger] components[k]).name@
            != "dig-updater"@ || components[k].action is Skip) by {
            if k < n {
                if exists|i: int| 0 <= i < at.len() && #[trigger] at[i] == k {
                    let i: int = choose|i: int| 0 <= i < at.len() && #[trigger] at[i] == k;
                    assert(i < before.len());
                    assert(before[i] == k);
                }
                if exists|i: int| 0 <= i < before.len() && #[trigger] before[i] == k {
                    let i: int = choose|i: int| 0 <= i < before.len() && #[trigger] before[i] == k;
                    assert(at[i] == k);
                }
            } else if kept {
                assert(at[before.len() as int] == k);
            } else {
                assert(forall|i: int| 0 <= i < at.len() ==> at[i] == before[i]);
            }
        }
        at
    }
}

/// A component that is current is left alone and reported as skipped, with the plan's summary; one that
/// is to be installed or updated is applied, unless it is the updater itself, which is left to the end.
pub proof fn what_becomes_of_each<
    J,
    A: Fn(J, &PlannedComponent, u64) -> (J, Result<ComponentOutcome, BrokerError>),
>(apply_one: A, pc: PlannedComponent, floor: u64, before: J, o: ComponentOutcome, after: J)
    requires
        settled(apply_one, pc, floor, before, o, after),
    ensures
        pc.action is Skip ==> after == before && o.component@ == pc.name@ && o.action@ == "skip"@
            && o.result is Skipped && o.detail@ == pc.summary@,
        (pc.action is Install || pc.action is Update) && pc.name@ != "dig-updater"@
            ==> apply_one.ensures((before, &pc, floor), (after, Ok(o))),
        pc.name@ == "dig-updater"@ ==> after == before,
{
}

/// The updater replaces itself where the plan says so, and not otherwise: what is applied last is the
/// last component of its name that is to be installed or updated.
pub proof fn the_updater_is_found_by_its_name(components: Seq<PlannedComponent>, k: int)
    requires
        -1 <= k < components.len(),
        k >= 0 ==> components[k].name@ == "dig-updater"@ && !(components[k].action is Skip),
        forall|i: int|
            k < i < components.len() ==> (#[trigger] components[i]).name@ != "dig-updater"@
                || components[i].action is Skip,
    ensures
        k >= 0 ==> self_of(components) == Some(components[k]),
        k < 0 ==> self_of(components) is None,
    decreases components.len(),
{
    if components.len() > 0 && k < components.len() - 1 {
        let last = components[components.len() - 1];
        assert(last.name@ != "dig-updater"@ || last.action is Skip);
        the_updater_is_found_by_its_name(components.drop_last(), k);
    }
}

/// The record tells what is there after the pass: the build that was installed, or the one that was there
/// before and was put back; where that is unknown, and where it was not there, the component is forgotten.
/// In every other case nothing changed, and the record stays.
pub proof fn the_record_tells_what_is_there(pc: PlannedComponent, result: ComponentResult)
    ensures
        result is Installed ==> build_record(pc, result) == BuildRecord::Replace(Some(pc.build)),
        result is RolledBack ==> build_record(pc, result) == BuildRecord::Replace(
            pc.installed_build,
        ),
        result is Skipped || result is Deferred || result is Held ==> build_record(pc, result)
            is Keep,
{
}

/// Starting a service again never changes what became of the component: only a start that failed shows, at
/// the end of the line's detail.
#[verifier::rlimit(40)]
pub proof fn a_failed_restart_is_a_warning<C: FnOnce(&str, ServiceAction) -> Result<(), String>>(
    service: Seq<char>,
    control: C,
    result: Result<ComponentOutcome, BrokerError>,
    out: Result<ComponentOutcome, BrokerError>,
)
    requires
        started_again(service, control, result, out),
    ensures
        exists|s: &str, c: Result<(), String>|
            s@ == service && #[trigger] control.ensures((s, ServiceAction::Start), c) && {
                &&& result is Err ==> out == result
                &&& result is Ok ==> out is Ok && out->Ok_0.result == result->Ok_0.result
                    && out->Ok_0.component@ == result->Ok_0.component@ && out->Ok_0.action@
                    == result->Ok_0.action@
                &&& result is Ok && c is Ok ==> out->Ok_0.detail@ == result->Ok_0.detail@
                &&& result is Ok && c is Err ==> out->Ok_0.detail@ == result->Ok_0.detail@
                    + " (warning: could not restart "@ + service + ": "@ + c->Err_0@ + ")"@
            },
{
    let c = choose|c: Result<(), String>| #[trigger]
        controlled(control, service, ServiceAction::Start, c) && annotated(
            result,
            restart_warning(service, c),
            out,
        );
    let s = choose|s: &str| s@ == service && #[trigger] control.ensures(
        (s, ServiceAction::Start),
        c,
    );
    if result is Ok {
        let d = result->Ok_0.detail@;
        assert(out->Ok_0@.detail == d + restart_warning(service, c));
        if c is Ok {
            assert(d + Seq::<char>::empty() =~= d);
        } else {
            assert(d + restart_warning(service, c) =~= d + " (warning: could not restart "@
                + service + ": "@ + c->Err_0@ + ")"@);
        }
    }
    assert(control.ensures((s, ServiceAction::Start), c));
}

/// What is missing of two lists of builds one after the other is what is missing of the first and then
/// what is missing of the second.
pub proof fn all_that_is_missing_is_gathered(
    a: Seq<Seq<Seq<char>>>,
    b: Seq<Seq<Seq<char>>>,
    one: Seq<Seq<char>>,
)
    ensures
        gathered(a + b) == gathered(a) + gathered(b),
        gathered(seq![one]) == one,
        gathered(Seq::empty()) == Seq::<Seq<char>>::empty(),
    decreases b.len(),
{
    assert(seq![one].drop_last() =~= Seq::empty());
    assert(gathered(seq![one].drop_last()) =~= Seq::empty());
    assert(gathered(seq![one]) =~= one);
    if b.len() == 0 {
        assert(a + b =~= a);
        assert(gathered(a) + gathered(b) =~= gathered(a));
    } else {
        all_that_is_missing_is_gathered(a, b.drop_last(), one);
        assert((a + b).drop_last() =~= a + b.drop_last());
        assert((a + b).last() == b.last());
        assert(gathered(a + b) =~= gathered(a) + gathered(b));
    }
}

/// Each binary of a component is cached under its own key: the primary under the component's name, an
/// alias under the component's name, two dashes and the alias's own.
pub proof fn each_binary_has_its_key(pc: PlannedComponent, i: int, above: Seq<char>, name: Seq<char>)
    requires
        0 < i <= pc.aliases@.len(),
        above.len() == 0 || above.last() == '/',
        crate::path::is_plain(name),
        pc.aliases@[i - 1]@ == above + name,
    ensures
        key_of(pc, 0) == pc.name@,
        binary_of(pc, 0) == pc.dest@,
        key_of(pc, i) == pc.name@ + "--"@ + name,
        binary_of(pc, i) == above + name,
{
    crate::path::a_final_name_is_found(above, name);
}

// ------------------------------------------------------------------ laws on one component

/// A set is snapshotted whole: the primary first and then each alias, in order, each by a call with its
/// own key and place and the build that is installed; and what the call gave is what is kept of it.
#[verifier::rlimit(40)]
pub proof fn a_set_is_snapshotted_whole<
    N,
    S: Fn(N, &str, &str, Option<u64>) -> (N, Result<Option<LkgEntry>, BrokerError>),
>(pc: PlannedComponent, notes: N, snapshot: S, snapshots: Seq<BinarySnapshot>, i: int)
    requires
        whole_set_snapped(pc, notes, snapshot, snapshots),
        0 <= i < snapshots.len(),
    ensures
        snapshots.len() == 1 + pc.aliases@.len(),
        snapshots[0].dest@ == pc.dest@,
        i > 0 ==> snapshots[i].dest@ == pc.aliases@[i - 1]@,
        exists|before: N, k: &str, d: &str, after: N|
            k@ == key_of(pc, i) && d@ == snapshots[i].dest@ && #[trigger] snapshot.ensures(
                (before, k, d, pc.installed_build),
                (after, Ok(snapshots[i].entry)),
            ),
{
    let now = choose|now: N| #[trigger] set_snapped(pc, notes, snapshot, snapshots, now);
    let handed = choose|handed: Seq<N>|
        #[trigger] snapped_in_turn(snapshot, pc, snapshots, handed) && handed[0] == notes
            && handed.last() == now;
    assert(snapshots[0].dest@ == binary_of(pc, 0));
    assert(snapshots[i].dest@ == binary_of(pc, i));
    assert(snapped(
        snapshot,
        handed[i],
        key_of(pc, i),
        binary_of(pc, i),
        pc.installed_build,
        Ok(snapshots[i].entry),
        handed[i + 1],
    ));
    let (k, d) = choose|k: &str, d: &str|
        k@ == key_of(pc, i) && d@ == binary_of(pc, i) && #[trigger] snapshot.ensures(
            (handed[i], k, d, pc.installed_build),
            (handed[i + 1], Ok(snapshots[i].entry)),
        );
    assert(snapshot.ensures(
        (handed[i], k, d, pc.installed_build),
        (handed[i + 1], Ok(snapshots[i].entry)),
    ));
}

/// Whether every binary is again what it was: its snapshot was put back, or, where there was nothing, it
/// was removed.
pub open spec fn is_as_before<
    R: Fn(&LkgEntry) -> Result<(), BrokerError>,
    M: Fn(&str) -> Result<(), String>,
>(restore: R, remove: M, snapshots: Seq<BinarySnapshot>) -> bool {
    forall|i: int|
        0 <= i < snapshots.len() ==> match (#[trigger] snapshots[i]).entry {
            Some(entry) => restore.ensures((&entry,), Ok(())),
            None => exists|d: &str|
                d@ == snapshots[i].dest@ && #[trigger] remove.ensures((d,), Ok(())),
        }
}

/// What follows an install. One that failed is never reported as installed: every binary is put back as it
/// was. One that was put off changes nothing. One that went through is reported as installed only if every
/// binary passed the health check; otherwise every binary is put back.
#[verifier::rlimit(40)]
pub proof fn what_follows_an_install<
    D: Fn(&str) -> DetectedVersion,
    G: Fn(&str) -> Option<String>,
    R: Fn(&LkgEntry) -> Result<(), BrokerError>,
    M: Fn(&str) -> Result<(), String>,
>(
    pc: PlannedComponent,
    expected: Seq<char>,
    outcome: OutcomeView,
    snapshots: Seq<BinarySnapshot>,
    health: D,
    digest: G,
    restore: R,
    remove: M,
    r: Result<ComponentOutcome, BrokerError>,
)
    requires
        set_finished(pc, expected, outcome, snapshots, health, digest, restore, remove, r),
    ensures
        r is Ok ==> r->Ok_0.component@ == pc.name@,
        r is Ok && outcome is Failed ==> r->Ok_0.result is RolledBack && is_as_before(
            restore,
            remove,
            snapshots,
        ),
        outcome is Deferred ==> r is Ok && r->Ok_0.result is Deferred && r->Ok_0.detail@
            == outcome->Deferred_0,
        r is Ok && outcome is Installed ==> r->Ok_0.result is Installed || r->Ok_0.result
            is RolledBack,
        r is Ok && r->Ok_0.result is Installed ==> outcome is Installed && exists|
            d: DetectedVersion,
        | #[trigger] gate_ok(pc, expected, health, digest, Ok(d)),
        r is Ok && r->Ok_0.result is RolledBack ==> is_as_before(restore, remove, snapshots) && (
        outcome is Failed || gate_failed(pc, expected, health, digest)),
        r is Err ==> exists|i: int|
            0 <= i < snapshots.len() && (match (#[trigger] snapshots[i]).entry {
                Some(entry) => exists|b: BrokerError|
                    b@ == r->Err_0@ && #[trigger] restore.ensures((&entry,), Err(b)),
                None => exists|d: &str, why: String|
                    d@ == snapshots[i].dest@ && #[trigger] remove.ensures((d,), Err(why)),
            }),
{
    if r is Ok {
        assert(r->Ok_0@.result == r->Ok_0.result && r->Ok_0@.component == r->Ok_0.component@);
    }
    if set_reverted(restore, remove, snapshots, Ok(())) {
        assert forall|i: int| 0 <= i < snapshots.len() implies match (
        #[trigger] snapshots[i]).entry {
            Some(entry) => restore.ensures((&entry,), Ok(())),
            None => exists|d: &str|
                d@ == snapshots[i].dest@ && #[trigger] remove.ensures((d,), Ok(())),
        } by {
            assert(reverted(restore, remove, snapshots[i], Ok(())));
        }
    }
    if r is Err {
        assert(set_reverted(restore, remove, snapshots, Err(r->Err_0@)));
        let k: int = choose|k: int|
            0 <= k < snapshots.len() && reverted(
                restore,
                remove,
                #[trigger] snapshots[k],
                Err(r->Err_0@),
            );
        if snapshots[k].entry is None {
            let why = choose|why: String| #[trigger]
                removed(remove, snapshots[k].dest@, Err(why)) && r->Err_0@
                    == ErrorView::RollbackFailed(
                    snapshots[k].dest@,
                    "could not remove freshly-installed binary: "@ + why@,
                );
            let d = choose|d: &str|
                d@ == snapshots[k].dest@ && #[trigger] remove.ensures((d,), Err(why));
            assert(remove.ensures((d,), Err(why)));
        }
    }
}

/// Whether the binary at `path` was found at the promised version, or above, by the evidence that the
/// component carries: what it answers where it may be executed, and its digest, that of the build that was
/// installed, where it may not.
pub open spec fn is_healthy_at<D: Fn(&str) -> DetectedVersion, G: Fn(&str) -> Option<String>>(
    pc: PlannedComponent,
    expected: Seq<char>,
    promised: (u64, u64, u64),
    health: D,
    digest: G,
    path: Seq<char>,
) -> bool {
    if pc.evidence is SafeToProbe {
        exists|p: &str, d: DetectedVersion|
            p@ == path && #[trigger] health.ensures((p,), d) && is_level(d, promised)
    } else {
        exists|p: &str, found: Option<String>|
            p@ == path && #[trigger] digest.ensures((p,), found) && found is Some && ascii_lowered(
                found->0@,
            ) == ascii_lowered(expected)
    }
}

/// Whether the binary at `path` was found absent, at a version that is unreadable or below the promised
/// one, or with another digest than that of the build that was installed.
pub open spec fn is_unhealthy_at<D: Fn(&str) -> DetectedVersion, G: Fn(&str) -> Option<String>>(
    pc: PlannedComponent,
    expected: Seq<char>,
    promised: (u64, u64, u64),
    health: D,
    digest: G,
    path: Seq<char>,
) -> bool {
    if pc.evidence is SafeToProbe {
        exists|p: &str, d: DetectedVersion|
            p@ == path && #[trigger] health.ensures((p,), d) && !is_level(d, promised)
    } else {
        exists|p: &str, found: Option<String>|
            p@ == path && #[trigger] digest.ensures((p,), found) && !(found is Some
                && ascii_lowered(found->0@) == ascii_lowered(expected))
    }
}

/// What the health check means: it passes only where the primary and every alias were found healthy, and it
/// fails only where one of them was not.
#[verifier::rlimit(40)]
pub proof fn the_health_check_is_of_every_binary<
    D: Fn(&str) -> DetectedVersion,
    G: Fn(&str) -> Option<String>,
>(
    pc: PlannedComponent,
    expected: Seq<char>,
    promised: (u64, u64, u64),
    health: D,
    digest: G,
    answer: Result<DetectedVersion, String>,
)
    requires
        gate_ok(pc, expected, health, digest, answer),
        pc.version@ == shown_version(promised),
    ensures
        answer is Ok ==> is_healthy_at(pc, expected, promised, health, digest, pc.dest@),
        answer is Ok ==> forall|i: int|
            0 <= i < pc.aliases@.len() ==> is_healthy_at(
                pc,
                expected,
                promised,
                health,
                digest,
                (#[trigger] pc.aliases@[i])@,
            ),
        answer is Err ==> is_unhealthy_at(pc, expected, promised, health, digest, pc.dest@) || exists|
            i: int,
        |
            0 <= i < pc.aliases@.len() && is_unhealthy_at(
                pc,
                expected,
                promised,
                health,
                digest,
                (#[trigger] pc.aliases@[i])@,
            ),
{
    if answer is Ok {
        lemma_checked(pc, expected, promised, health, digest, pc.dest@, answer);
        assert forall|i: int| 0 <= i < pc.aliases@.len() implies is_healthy_at(
            pc,
            expected,
            promised,
            health,
            digest,
            (#[trigger] pc.aliases@[i])@,
        ) by {
            assert(alias_passed(pc, expected, health, digest, views(pc.aliases@)[i]));
            let d = choose|d: DetectedVersion| #[trigger]
                checked(pc, expected, health, digest, views(pc.aliases@)[i], Ok(d));
            lemma_checked(pc, expected, promised, health, digest, pc.aliases@[i]@, Ok(d));
        }
    } else if checked(pc, expected, health, digest, pc.dest@, answer) {
        lemma_checked(pc, expected, promised, health, digest, pc.dest@, answer);
    } else {
        let k: int = choose|k: int|
            0 <= k < pc.aliases@.len() && alias_failed(
                pc,
                expected,
                health,
                digest,
                #[trigger] views(pc.aliases@)[k],
                answer->Err_0@,
            );
        let why = choose|why: String| #[trigger]
            checked(pc, expected, health, digest, views(pc.aliases@)[k], Err(why));
        lemma_checked(pc, expected, promised, health, digest, pc.aliases@[k]@, Err(why));
    }
}

#[verifier::spinoff_prover]
#[verifier::rlimit(40)]
proof fn lemma_checked<D: Fn(&str) -> DetectedVersion, G: Fn(&str) -> Option<String>>(
    pc: PlannedComponent,
    expected: Seq<char>,
    promised: (u64, u64, u64),
    health: D,
    digest: G,
    path: Seq<char>,
    answer: Result<DetectedVersion, String>,
)
    requires
        checked(pc, expected, health, digest, path, answer),
        pc.version@ == shown_version(promised),
    ensures
        answer is Ok ==> is_healthy_at(pc, expected, promised, health, digest, path),
        answer is Err ==> is_unhealthy_at(pc, expected, promised, health, digest, path),
{
    let d = choose|d: DetectedVersion| #[trigger]
        seen(pc, expected, health, digest, path, d) && health_ok(path, pc.version@, d, answer);
    let none = Seq::<char>::empty();
    let installed = release_version(version_word(d@->0));
    the_promised_version_is_healthy(path, promised, d, installed->0, answer);
    if pc.evidence is SafeToProbe {
        assert(probed(health, path, d));
        let p = choose|p: &str| p@ == path && #[trigger] health.ensures((p,), d);
        assert(health.ensures((p,), d));
    } else {
        let found = choose|found: Option<String>| #[trigger]
            hashed(digest, path, found) && d@ == digest_answer(
                opt_view(found),
                seq![expected],
                pc.version@,
            );
        let p = choose|p: &str| p@ == path && #[trigger] digest.ensures((p,), found);
        assert(digest.ensures((p,), found));
        lemma_shown_version(promised);
        if found is Some && ascii_lowered(found->0@) == ascii_lowered(expected) {
            assert(seq![expected][0] == expected);
            assert(d@ == Some(pc.version@));
            the_last_word_of_the_first_line_counts(none, pc.version@, none, none);
            assert(none + pc.version@ + none + none =~= pc.version@);
            a_version_is_read(none, promised, none);
            assert(none + pc.version@ + none =~= pc.version@);
        } else if found is Some {
            assert(d@ == Some(none)) by {
                assert forall|i: int| 0 <= i < seq![expected].len() implies ascii_lowered(
                    found->0@,
                ) != ascii_lowered(#[trigger] seq![expected][i]) by {}
            }
            lemma_no_version();
        }
    }
}

/// Whether the `k`-th build was verified as `bytes`, held as `held`: its staged path resolves strictly below
/// what the staging directory resolves to, the bytes were read there, their digest is the signed one, and
/// they were written to the private copy.
pub open spec fn was_verified_as<
    H,
    V: Fn(&str) -> Result<String, String>,
    E: Fn(&str) -> Result<Vec<u8>, BrokerError>,
    W: Fn(H, &str, &Vec<u8>, bool) -> Result<H, BrokerError>,
>(
    installer: Installer,
    pc: PlannedComponent,
    k: int,
    resolve: V,
    read: E,
    write: W,
    held: H,
    root: String,
    path: String,
    bytes: Vec<u8>,
) -> bool {
    &&& exists|d: &str|
        d@ == installer.staging_dir@ && #[trigger] resolve.ensures((d,), Ok(root))
    &&& exists|s: &str|
        s@ == pc.variants@[k].staged_path@ && #[trigger] resolve.ensures((s,), Ok(path))
    &&& components(root@).len() < components(path@).len()
    &&& components(path@).take(components(root@).len() as int) == components(root@)
    &&& exists|p: &str| p@ == path@ && #[trigger] read.ensures((p,), Ok(bytes))
    &&& ascii_lowered(pc.variants@[k].expected_digest@) == hex(sha256_of(bytes@))
    &&& exists|before: H, p: &str|
        p@ == private_target_of(pc, installer.apply_dir@) && #[trigger] write.ensures(
            (before, p, &bytes, pc.method is RawBinary),
            Ok(held),
        )
}

/// The build that is installed is the first, in the order of the plan, that this host is not known to be
/// unable to load; it was verified, and so were those before it, each of which this host cannot load.
#[verifier::rlimit(40)]
pub proof fn the_first_loadable_build_is_chosen<
    H,
    V: Fn(&str) -> Result<String, String>,
    E: Fn(&str) -> Result<Vec<u8>, BrokerError>,
    W: Fn(H, &str, &Vec<u8>, bool) -> Result<H, BrokerError>,
    L: Fn(&H, &str) -> Loadability,
>(
    installer: Installer,
    pc: PlannedComponent,
    k: int,
    resolve: V,
    read: E,
    write: W,
    loadability: L,
    held: H,
    j: int,
)
    requires
        is_chosen(installer, pc, k, resolve, read, write, loadability, held),
    ensures
        0 <= k < pc.variants@.len(),
        exists|root: String, path: String, bytes: Vec<u8>| #[trigger]
            was_verified_as(installer, pc, k, resolve, read, write, held, root, path, bytes),
        exists|p: &str, answer: Loadability|
            p@ == private_target_of(pc, installer.apply_dir@) && !(answer is Unloadable)
                && #[trigger] loadability.ensures((&held, p), answer),
        0 <= j < k ==> exists|other: H, p: &str, missing: Vec<String>|
            p@ == private_target_of(pc, installer.apply_dir@) && #[trigger] loadability.ensures(
                (&other, p),
                Loadability::Unloadable { missing },
            ) && is_verified(installer, pc, j, resolve, read, write, other),
{
    let lost = choose|lost: Seq<Seq<Seq<char>>>| #[trigger]
        is_turn_of(installer, pc, k, resolve, read, write, loadability, lost);
    lemma_verified_as(installer, pc, k, resolve, read, write, held);
    let answer = choose|answer: Loadability| #[trigger]
        load_answer(installer, pc, loadability, held, answer) && answer !is Unloadable;
    let p = choose|p: &str|
        p@ == private_target_of(pc, installer.apply_dir@) && #[trigger] loadability.ensures(
            (&held, p),
            answer,
        );
    assert(loadability.ensures((&held, p), answer));
    if 0 <= j < k {
        assert(build_lost(installer, pc, j, resolve, read, write, loadability, lost[j]));
        let other = choose|other: H| #[trigger]
            is_unloadable(installer, pc, j, resolve, read, write, loadability, other, lost[j]);
        let lacks = choose|lacks: Vec<String>|
            views(lacks@) == lost[j] && #[trigger] load_answer(
                installer,
                pc,
                loadability,
                other,
                Loadability::Unloadable { missing: lacks },
            );
        let q = choose|q: &str|
            q@ == private_target_of(pc, installer.apply_dir@) && #[trigger] loadability.ensures(
                (&other, q),
                Loadability::Unloadable { missing: lacks },
            );
        assert(loadability.ensures((&other, q), Loadability::Unloadable { missing: lacks }));
    }
}

/// What is verified came from strictly below the staging directory and has the signed digest.
pub proof fn what_is_verified_has_the_signed_digest<
    H,
    V: Fn(&str) -> Result<String, String>,
    E: Fn(&str) -> Result<Vec<u8>, BrokerError>,
    W: Fn(H, &str, &Vec<u8>, bool) -> Result<H, BrokerError>,
>(
    installer: Installer,
    pc: PlannedComponent,
    k: int,
    resolve: V,
    read: E,
    write: W,
    held: H,
)
    requires
        is_verified(installer, pc, k, resolve, read, write, held),
    ensures
        exists|root: String, path: String, bytes: Vec<u8>| #[trigger]
            was_verified_as(installer, pc, k, resolve, read, write, held, root, path, bytes),
{
    lemma_verified_as(installer, pc, k, resolve, read, write, held);
}

#[verifier::rlimit(40)]
proof fn lemma_verified_as<
    H,
    V: Fn(&str) -> Result<String, String>,
    E: Fn(&str) -> Result<Vec<u8>, BrokerError>,
    W: Fn(H, &str, &Vec<u8>, bool) -> Result<H, BrokerError>,
>(
    installer: Installer,
    pc: PlannedComponent,
    k: int,
    resolve: V,
    read: E,
    write: W,
    held: H,
)
    requires
        is_verified(installer, pc, k, resolve, read, write, held),
    ensures
        exists|root: String, path: String, bytes: Vec<u8>| #[trigger]
            was_verified_as(installer, pc, k, resolve, read, write, held, root, path, bytes),
{
    let bytes = choose|bytes: Vec<u8>|
        #[trigger] read_for(installer, pc, k, resolve, read, bytes) && #[trigger] copy_written(
            installer,
            pc,
            write,
            bytes,
            Ok(held),
        ) && are_expected(pc.variants@[k].expected_digest@, bytes@);
    let from = choose|from: Seq<char>|
        contained(installer, pc, k, resolve, Ok(from)) && #[trigger] staged_read(
            read,
            from,
            Ok(bytes),
        );
    let (r, q) = choose|r: Result<Seq<char>, Seq<char>>, q: Result<Seq<char>, Seq<char>>|
        #[trigger] resolved(resolve, installer.staging_dir@, r) && #[trigger] resolved(
            resolve,
            pc.variants@[k].staged_path@,
            q,
        ) && Ok::<Seq<char>, ErrorView>(from) == containment(
            pc.variants@[k].staged_path@,
            installer.staging_dir@,
            pc.name@,
            r,
            q,
        );
    only_what_is_below_staging_is_taken(
        pc.variants@[k].staged_path@,
        installer.staging_dir@,
        pc.name@,
        r,
        q,
    );
    let (d, x) = choose|d: &str, x: Result<String, String>|
        d@ == installer.staging_dir@ && texts_of(x) == r && #[trigger] resolve.ensures((d,), x);
    let (s, y) = choose|s: &str, y: Result<String, String>|
        s@ == pc.variants@[k].staged_path@ && texts_of(y) == q && #[trigger] resolve.ensures(
            (s,),
            y,
        );
    assert(resolve.ensures((d,), Ok(x->Ok_0)));
    assert(resolve.ensures((s,), Ok(y->Ok_0)));
    let root = x->Ok_0;
    let path = y->Ok_0;
    crate::hashing::hex_is_two_lowercase_digits_a_byte(sha256_of(bytes@));
    assert(was_verified_as(
        installer,
        pc,
        k,
        resolve,
        read,
        write,
        held,
        root,
        path,
        bytes,
    ));
}

/// A component is installed only with its service stopped, if the catalog names one for it; and it was
/// installed from the private copy of the chosen build.
pub proof fn an_install_finds_the_service_stopped<
    H,
    V: Fn(&str) -> Result<String, String>,
    E: Fn(&str) -> Result<Vec<u8>, BrokerError>,
    W: Fn(H, &str, &Vec<u8>, bool) -> Result<H, BrokerError>,
    L: Fn(&H, &str) -> Loadability,
    O: FnOnce(&str, ServiceAction) -> Result<(), String>,
    I: FnOnce(H, &str) -> InstallOutcome,
>(
    installer: Installer,
    pc: PlannedComponent,
    k: int,
    resolve: V,
    read: E,
    write: W,
    loadability: L,
    stop: O,
    install: I,
    outcome: OutcomeView,
    t: int,
)
    requires
        installed_so(
            installer,
            pc,
            k,
            resolve,
            read,
            write,
            loadability,
            stop,
            install,
            outcome,
        ),
        0 <= t < installer.catalog@.len(),
        installer.catalog@[t].name@ == pc.name@,
        forall|i: int| 0 <= i < t ==> (#[trigger] installer.catalog@[i]).name@ != pc.name@,
    ensures
        installer.catalog@[t].service is Some ==> exists|s: &str|
            s@ == installer.catalog@[t].service->0@ && #[trigger] stop.ensures(
                (s, ServiceAction::Stop),
                Ok(()),
            ),
        exists|held: H, p: &str, o: InstallOutcome|
            p@ == private_target_of(pc, installer.apply_dir@) && o@ == outcome
                && #[trigger] install.ensures((held, p), o) && is_chosen(
                installer,
                pc,
                k,
                resolve,
                read,
                write,
                loadability,
                held,
            ),
{
    the_first_target_of_a_name_counts(installer.catalog@, pc.name@, t);
    let service = service_of(*installer.catalog, pc.name@);
    if installer.catalog@[t].service is Some {
        assert(service == Some(installer.catalog@[t].service->0@));
        assert(controlled(stop, service->0, ServiceAction::Stop, Ok(())));
    }
}

/// A component that is reported as rolled back is as it was before the pass: its whole set was snapshotted,
/// and every binary of it was put back, or removed where there was none. One that is reported as put off was
/// not loadable here, could not be freed by its service, or was put off by the install itself.
#[verifier::rlimit(40)]
pub proof fn what_is_reported_rolled_back_is_as_before<
    H,
    V: Fn(&str) -> Result<String, String>,
    E: Fn(&str) -> Result<Vec<u8>, BrokerError>,
    W: Fn(H, &str, &Vec<u8>, bool) -> Result<H, BrokerError>,
    L: Fn(&H, &str) -> Loadability,
    D: Fn(H, &str),
    N,
    S: Fn(N, &str, &str, Option<u64>) -> (N, Result<Option<LkgEntry>, BrokerError>),
    O: FnOnce(&str, ServiceAction) -> Result<(), String>,
    I: FnOnce(H, &str) -> InstallOutcome,
    B: Fn(&str) -> DetectedVersion,
    G: Fn(&str) -> Option<String>,
    R: Fn(&LkgEntry) -> Result<(), BrokerError>,
    M: Fn(&str) -> Result<(), String>,
    A: FnOnce(&str, ServiceAction) -> Result<(), String>,
>(
    installer: Installer,
    pc: PlannedComponent,
    resolve: V,
    read: E,
    write: W,
    loadability: L,
    drop_private: D,
    notes: N,
    snapshot: S,
    stop: O,
    install: I,
    health: B,
    digest: G,
    restore: R,
    remove: M,
    start: A,
    r: Result<ComponentOutcome, BrokerError>,
)
    requires
        one_applied(
            installer,
            pc,
            resolve,
            read,
            write,
            loadability,
            drop_private,
            notes,
            snapshot,
            stop,
            install,
            health,
            digest,
            restore,
            remove,
            start,
            r,
        ),
        r is Ok,
    ensures
        r->Ok_0.component@ == pc.name@,
        r->Ok_0.result is Installed || r->Ok_0.result is Deferred || r->Ok_0.result is RolledBack,
        r->Ok_0.result is RolledBack ==> exists|snapshots: Seq<BinarySnapshot>| #[trigger]
            whole_set_snapped(pc, notes, snapshot, snapshots) && is_as_before(
                restore,
                remove,
                snapshots,
            ),
{
    let service = service_of(*installer.catalog, pc.name@);
    assert(r->Ok_0@.result == r->Ok_0.result && r->Ok_0@.component == r->Ok_0.component@);
    if exists|result: Result<ComponentOutcome, BrokerError>| #[trigger]
        one_finished(
            installer,
            pc,
            resolve,
            read,
            write,
            loadability,
            notes,
            snapshot,
            stop,
            install,
            health,
            digest,
            restore,
            remove,
            result,
        ) && restarted(service, start, result, r) {
        let result = choose|result: Result<ComponentOutcome, BrokerError>| #[trigger]
            one_finished(
                installer,
                pc,
                resolve,
                read,
                write,
                loadability,
                notes,
                snapshot,
                stop,
                install,
                health,
                digest,
                restore,
                remove,
                result,
            ) && restarted(service, start, result, r);
        if service is Some {
            assert(started_again(service->0, start, result, r));
        }
        assert(result is Ok && result->Ok_0@.result == r->Ok_0@.result);
        let (k, outcome, snapshots) = choose|
            k: int,
            outcome: OutcomeView,
            snapshots: Seq<BinarySnapshot>,
        |
            {
                &&& #[trigger] whole_set_snapped(pc, notes, snapshot, snapshots)
                &&& #[trigger] installed_so(
                    installer,
                    pc,
                    k,
                    resolve,
                    read,
                    write,
                    loadability,
                    stop,
                    install,
                    outcome,
                )
                &&& set_finished(
                    pc,
                    pc.variants@[k].expected_digest@,
                    outcome,
                    snapshots,
                    health,
                    digest,
                    restore,
                    remove,
                    result,
                )
            };
        what_follows_an_install(
            pc,
            pc.variants@[k].expected_digest@,
            outcome,
            snapshots,
            health,
            digest,
            restore,
            remove,
            result,
        );
        assert(result->Ok_0@.component == r->Ok_0@.component);
    }
}

/// A pass that reports that the trust state advanced has advanced it to the manifest that was verified, and
/// one that applied the updater itself did so under the manifest's floor.
#[verifier::rlimit(40)]
pub proof fn an_advance_is_to_the_verified_manifest<
    J,
    A: Fn(J, &PlannedComponent, u64) -> (J, Result<ComponentOutcome, BrokerError>),
    W: FnOnce(&Manifest) -> Result<(), BrokerError>,
    B: FnOnce(&PlannedComponent, u64) -> Result<ComponentOutcome, BrokerError>,
>(
    plan: Plan,
    manifest: Manifest,
    suppress: bool,
    first: J,
    apply_one: A,
    advance: W,
    apply_self: B,
    report: PassReport,
    k: int,
)
    requires
        plan_applied(plan, manifest, suppress, first, apply_one, advance, apply_self, report),
        -1 <= k < plan.components@.len(),
        k >= 0 ==> plan.components@[k].name@ == "dig-updater"@ && !(plan.components@[k].action
            is Skip),
        forall|i: int|
            k < i < plan.components@.len() ==> (#[trigger] plan.components@[i]).name@
                != "dig-updater"@ || plan.components@[i].action is Skip,
    ensures
        report.state_advanced ==> !suppress && advance.ensures((&manifest,), Ok(())),
        k >= 0 ==> exists|o: ComponentOutcome|
            #[trigger] apply_self.ensures(
                (&plan.components@[k], manifest.rollback_floor_build),
                Ok(o),
            ) && report.components@.len() > 0 && report.components@.last()@ == o@,
{
    let (answers, now, own) = choose|answers: Seq<ComponentOutcome>, now: J, own: Seq<LineView>|
        #[trigger] rest_settled(
            apply_one,
            advance,
            plan.components@,
            manifest,
            first,
            answers,
            now,
            suppress,
        ) && #[trigger] self_lines(
            apply_self,
            plan.components@,
            manifest.rollback_floor_build,
            own,
        ) && report_ok(report, plan, answers, own, suppress);
    the_updater_is_found_by_its_name(plan.components@, k);
    if k >= 0 {
        let o = choose|o: ComponentOutcome| #[trigger]
            apply_self.ensures(
                (&self_of(plan.components@)->0, manifest.rollback_floor_build),
                Ok(o),
            ) && own == seq![o@];
        the_updater_comes_last(report, plan, answers, own, suppress);
        assert(own[0] == o@);
    }
}

/// What is recorded after a manual rollback: for a component of the catalog, the build of the record that was
/// put back, or none where that is unknown; for what the catalog does not name, as an alias, nothing.
pub proof fn a_manual_rollback_is_recorded_by_component(
    catalog: Catalog,
    component: Seq<char>,
    kept: LkgRecord,
    t: int,
)
    requires
        0 <= t <= catalog@.len(),
        forall|i: int| 0 <= i < t ==> (#[trigger] catalog@[i]).name@ != component,
        t < catalog@.len() ==> catalog@[t].name@ == component,
    ensures
        t < catalog@.len() ==> build_record_restored(catalog, component, RecordRead::Record(kept))
            == BuildRecord::Replace(kept.build),
        t == catalog@.len() ==> build_record_restored(catalog, component, RecordRead::Record(kept))
            is Keep,
{
    the_first_target_of_a_name_counts(catalog@, component, t);
}

/// Results, and actions, are told apart by their tokens.
pub proof fn results_are_told_apart(a: ComponentResult, b: ComponentResult, x: UpdateAction, y: UpdateAction)
    ensures
        result_token(a) == result_token(b) <==> a == b,
        action_token(x) == action_token(y) <==> x == y,
        a is Installed <==> result_token(a) == "installed"@,
        a is RolledBack <==> result_token(a) == "rolled_back"@,
        x is Install <==> action_token(x) == "install"@,
        x is Update <==> action_token(x) == "update"@,
        x is Skip <==> action_token(x) == "skip"@,
{
    reveal_strlit("installed");
    reveal_strlit("skipped");
    reveal_strlit("deferred");
    reveal_strlit("rolled_back");
    reveal_strlit("held");
    reveal_strlit("install");
    reveal_strlit("update");
    reveal_strlit("skip");
    assert("installed"@.len() == 9 && "skipped"@.len() == 7 && "deferred"@.len() == 8);
    assert("rolled_back"@.len() == 11 && "held"@.len() == 4);
    assert("install"@.len() == 7 && "update"@.len() == 6 && "skip"@.len() == 4);
}

} // verus!
