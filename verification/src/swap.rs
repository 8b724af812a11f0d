//! Replacing a file that may be running.
//!
//! A running executable holds its own image open, so a rename onto it can fail where a rename of it
//! does not. The swap therefore moves the existing target aside, gives its name to the new file,
//! and moves it back if that fails. It is a state machine: each state asks for one action on the
//! file system, and what came of it leads to the next state. That the target is never lost, on any
//! branch, is [`a_swap_never_loses_the_target`].

use vstd::prelude::*;

use crate::install::{InstallOutcome, OutcomeView};
use crate::path::{parent, parent_of, with_ext, with_extension};
use crate::text::{cat2, cat4, cat5};

verus! {

/// The extension under which a running or locked target is moved aside.
pub const SUPERSEDED_EXT: &'static str = "dig-updater-old";

/// Where the target is moved aside to.
pub open spec fn aside_of(dest: Seq<char>) -> Seq<char> {
    with_ext(dest, SUPERSEDED_EXT@)
}

/// What follows once the new file has been dropped.
#[derive(Debug, Clone, PartialEq, Eq)]
pub enum After {
    /// The swap is over.
    Finish(InstallOutcome),
    /// The target is moved back. Holds why the new file could not be placed.
    Restore(String),
}

/// Where a swap is.
#[derive(Debug, Clone, PartialEq, Eq)]
pub enum SwapState {
    /// The target's directory is to be created.
    MakeDir,
    /// What an earlier swap left aside is to be removed.
    ClearAside,
    /// Whether there is a target is to be found out.
    Look,
    /// The target is to be moved aside.
    MoveAside,
    /// The new file is to be given the target's name.
    Place {
        /// Whether a target was moved aside.
        moved: bool,
    },
    /// The replaced target is to be removed.
    SweepAside,
    /// The new file is to be removed.
    DropPrivate(After),
    /// The target is to be moved back. Holds why the new file could not be placed.
    Undo(String),
    /// The swap is over.
    Done(InstallOutcome),
}

/// [`After`] with its texts as sequences.
pub enum AfterView {
    Finish(OutcomeView),
    Restore(Seq<char>),
}

/// [`SwapState`] with its texts as sequences.
pub enum SwapStateView {
    MakeDir,
    ClearAside,
    Look,
    MoveAside,
    Place { moved: bool },
    SweepAside,
    DropPrivate(AfterView),
    Undo(Seq<char>),
    Done(OutcomeView),
}

impl View for After {
    type V = AfterView;

    open spec fn view(&self) -> AfterView {
        match self {
            After::Finish(o) => AfterView::Finish(o@),
            After::Restore(e) => AfterView::Restore(e@),
        }
    }
}

impl View for SwapState {
    type V = SwapStateView;

    open spec fn view(&self) -> SwapStateView {
        match self {
            SwapState::MakeDir => SwapStateView::MakeDir,
            SwapState::ClearAside => SwapStateView::ClearAside,
            SwapState::Look => SwapStateView::Look,
            SwapState::MoveAside => SwapStateView::MoveAside,
            SwapState::Place { moved } => SwapStateView::Place { moved: *moved },
            SwapState::SweepAside => SwapStateView::SweepAside,
            SwapState::DropPrivate(after) => SwapStateView::DropPrivate(after@),
            SwapState::Undo(e) => SwapStateView::Undo(e@),
            SwapState::Done(o) => SwapStateView::Done(o@),
        }
    }
}

/// One step on the file system.
#[derive(Debug, Clone, PartialEq, Eq)]
pub enum SwapAction {
    /// Create a directory and those above it.
    CreateDir(String),
    /// Remove a file; whether that succeeds does not matter.
    Remove(String),
    /// Find out whether there is a file: success means that there is.
    Exists(String),
    /// Rename the first path to the second, with retries while the file is in use.
    Rename(String, String),
    /// Nothing more: the swap is over.
    Finish(InstallOutcome),
}

/// [`SwapAction`] with its texts as sequences.
pub enum ActionView {
    CreateDir(Seq<char>),
    Remove(Seq<char>),
    Exists(Seq<char>),
    Rename(Seq<char>, Seq<char>),
    Finish(OutcomeView),
}

impl View for SwapAction {
    type V = ActionView;

    open spec fn view(&self) -> ActionView {
        match self {
            SwapAction::CreateDir(p) => ActionView::CreateDir(p@),
            SwapAction::Remove(p) => ActionView::Remove(p@),
            SwapAction::Exists(p) => ActionView::Exists(p@),
            SwapAction::Rename(a, b) => ActionView::Rename(a@, b@),
            SwapAction::Finish(o) => ActionView::Finish(o@),
        }
    }
}

/// What came of an action.
pub type Event = Result<(), Seq<char>>;

/// The event that a result stands for.
pub open spec fn event_of(r: Result<(), String>) -> Event {
    match r {
        Ok(_) => Ok(()),
        Err(e) => Err(e@),
    }
}

/// The swap of one file: the new file, the target, and where the swap is.
#[derive(Debug, Clone, PartialEq, Eq)]
pub struct Swap {
    private: String,
    dest: String,
    state: SwapState,
}

/// [`Swap`] with its texts as sequences.
pub struct SwapView {
    pub private: Seq<char>,
    pub dest: Seq<char>,
    pub state: SwapStateView,
}

impl View for Swap {
    type V = SwapView;

    closed spec fn view(&self) -> SwapView {
        SwapView { private: self.private@, dest: self.dest@, state: self.state@ }
    }
}

/// A swap at its beginning.
pub open spec fn start(private: Seq<char>, dest: Seq<char>) -> SwapView {
    SwapView {
        private,
        dest,
        state: if parent_of(dest) is Some {
            SwapStateView::MakeDir
        } else {
            SwapStateView::ClearAside
        },
    }
}

/// The action that a swap asks for.
pub open spec fn action_of(s: SwapView) -> ActionView {
    match s.state {
        SwapStateView::MakeDir => ActionView::CreateDir(parent_of(s.dest)->0),
        SwapStateView::ClearAside => ActionView::Remove(aside_of(s.dest)),
        SwapStateView::Look => ActionView::Exists(s.dest),
        SwapStateView::MoveAside => ActionView::Rename(s.dest, aside_of(s.dest)),
        SwapStateView::Place { .. } => ActionView::Rename(s.private, s.dest),
        SwapStateView::SweepAside => ActionView::Remove(aside_of(s.dest)),
        SwapStateView::DropPrivate(_) => ActionView::Remove(s.private),
        SwapStateView::Undo(_) => ActionView::Rename(aside_of(s.dest), s.dest),
        SwapStateView::Done(o) => ActionView::Finish(o),
    }
}

/// Why a swap whose new file could not be placed is put off.
pub open spec fn unplaced_text(dest: Seq<char>, e: Seq<char>) -> Seq<char> {
    "could not place the new binary at "@ + dest + ": "@ + e
}

/// Why a swap that could not be undone has failed.
pub open spec fn double_fault_text(dest: Seq<char>, place: Seq<char>, undo: Seq<char>) -> Seq<
    char,
> {
    "could not place the new binary at "@ + dest + " ("@ + place
        + ") and restoring the original also failed ("@ + undo
        + "); dest left for the last-known-good rollback"@
}

/// The state that an event leads to.
#[verifier::opaque]
pub open spec fn next_state(s: SwapView, event: Event) -> SwapStateView {
    match (s.state, event) {
        (SwapStateView::MakeDir, Ok(_)) => SwapStateView::ClearAside,
        (SwapStateView::MakeDir, Err(e)) => SwapStateView::DropPrivate(
            AfterView::Finish(
                OutcomeView::Failed("could not create "@ + parent_of(s.dest)->0 + ": "@ + e),
            ),
        ),
        (SwapStateView::ClearAside, _) => SwapStateView::Look,
        (SwapStateView::Look, Ok(_)) => SwapStateView::MoveAside,
        (SwapStateView::Look, Err(_)) => SwapStateView::Place { moved: false },
        (SwapStateView::MoveAside, Ok(_)) => SwapStateView::Place { moved: true },
        (SwapStateView::MoveAside, Err(e)) => SwapStateView::DropPrivate(
            AfterView::Finish(
                OutcomeView::Deferred("target "@ + s.dest + " locked after retries: "@ + e),
            ),
        ),
        (SwapStateView::Place { .. }, Ok(_)) => SwapStateView::SweepAside,
        (SwapStateView::Place { moved }, Err(e)) => SwapStateView::DropPrivate(
            if moved {
                AfterView::Restore(e)
            } else {
                AfterView::Finish(OutcomeView::Deferred(unplaced_text(s.dest, e)))
            },
        ),
        (SwapStateView::SweepAside, _) => SwapStateView::Done(OutcomeView::Installed),
        (SwapStateView::DropPrivate(AfterView::Finish(o)), _) => SwapStateView::Done(o),
        (SwapStateView::DropPrivate(AfterView::Restore(e)), _) => SwapStateView::Undo(e),
        (SwapStateView::Undo(place), Ok(_)) => SwapStateView::Done(
            OutcomeView::Deferred(unplaced_text(s.dest, place)),
        ),
        (SwapStateView::Undo(place), Err(undo)) => SwapStateView::Done(
            OutcomeView::Failed(double_fault_text(s.dest, place, undo)),
        ),
        (SwapStateView::Done(o), _) => SwapStateView::Done(o),
    }
}

/// The swap after an event.
pub open spec fn stepped(s: SwapView, event: Event) -> SwapView {
    SwapView { state: next_state(s, event), ..s }
}

/// The swap after a series of events.
pub open spec fn after_all(s: SwapView, events: Seq<Event>) -> SwapView
    decreases events.len(),
{
    if events.len() == 0 {
        s
    } else {
        stepped(after_all(s, events.drop_last()), events.last())
    }
}

/// How many steps a swap can still take.
pub open spec fn steps_left(state: SwapStateView) -> nat {
    match state {
        SwapStateView::MakeDir => 8,
        SwapStateView::ClearAside => 7,
        SwapStateView::Look => 6,
        SwapStateView::MoveAside => 5,
        SwapStateView::Place { .. } => 4,
        SwapStateView::SweepAside => 1,
        SwapStateView::DropPrivate(_) => 2,
        SwapStateView::Undo(_) => 1,
        SwapStateView::Done(_) => 0,
    }
}

/// Whether the swap has come where it may be: its directory is created only where it has one.
pub open spec fn on_course(s: SwapView) -> bool {
    s.state is MakeDir ==> parent_of(s.dest) is Some
}

impl Swap {
    /// Begin to replace `dest` by the verified file `private`.
    pub fn new(private: &str, dest: &str) -> (swap: Swap)
        ensures
            swap@ == start(private@, dest@),
    {
        let state: SwapState = match parent(dest) {
            Some(_) => SwapState::MakeDir,
            None => SwapState::ClearAside,
        };
        Swap { private: private.to_owned(), dest: dest.to_owned(), state }
    }

    /// Whether the swap is over, and how it ended.
    pub fn outcome(&self) -> (outcome: Option<InstallOutcome>)
        ensures
            match outcome {
                Some(o) => self@.state == SwapStateView::Done(o@),
                None => self@.state !is Done,
            },
    {
        match &self.state {
            SwapState::Done(o) => Some(o.duplicate()),
            _ => None,
        }
    }

    /// The action that the swap asks for.
    pub fn action(&self) -> (action: SwapAction)
        requires
            on_course(self@),
        ensures
            action@ == action_of(self@),
    {
        match &self.state {
            SwapState::MakeDir => match parent(self.dest.as_str()) {
                Some(dir) => SwapAction::CreateDir(dir),
                None => SwapAction::Exists(self.dest.clone()),
            },
            SwapState::ClearAside => SwapAction::Remove(
                with_extension(self.dest.as_str(), SUPERSEDED_EXT),
            ),
            SwapState::Look => SwapAction::Exists(self.dest.clone()),
            SwapState::MoveAside => SwapAction::Rename(
                self.dest.clone(),
                with_extension(self.dest.as_str(), SUPERSEDED_EXT),
            ),
            SwapState::Place { .. } => SwapAction::Rename(self.private.clone(), self.dest.clone()),
            SwapState::SweepAside => SwapAction::Remove(
                with_extension(self.dest.as_str(), SUPERSEDED_EXT),
            ),
            SwapState::DropPrivate(_) => SwapAction::Remove(self.private.clone()),
            SwapState::Undo(_) => SwapAction::Rename(
                with_extension(self.dest.as_str(), SUPERSEDED_EXT),
                self.dest.clone(),
            ),
            SwapState::Done(o) => SwapAction::Finish(o.duplicate()),
        }
    }

    /// The swap after the action that it asked for came to `event`.
    pub fn step(self, event: Result<(), String>) -> (next: Swap)
        requires
            on_course(self@),
        ensures
            next@ == stepped(self@, event_of(event)),
            on_course(next@),
            steps_left(self@.state) > 0 ==> steps_left(next@.state) < steps_left(self@.state),
    {
        proof {
            reveal(next_state);
        }
        let Swap { private, dest, state } = self;
        let next: SwapState = match (state, event) {
            (SwapState::MakeDir, Ok(_)) => SwapState::ClearAside,
            (SwapState::MakeDir, Err(e)) => {
                let dir: String = match parent(dest.as_str()) {
                    Some(d) => d,
                    None => String::new(),
                };
                SwapState::DropPrivate(
                    After::Finish(
                        InstallOutcome::Failed {
                            detail: cat4("could not create ", dir.as_str(), ": ", e.as_str()),
                        },
                    ),
                )
            },
            (SwapState::ClearAside, _) => SwapState::Look,
            (SwapState::Look, Ok(_)) => SwapState::MoveAside,
            (SwapState::Look, Err(_)) => SwapState::Place { moved: false },
            (SwapState::MoveAside, Ok(_)) => SwapState::Place { moved: true },
            (SwapState::MoveAside, Err(e)) => SwapState::DropPrivate(
                After::Finish(
                    InstallOutcome::Deferred {
                        reason: cat4(
                            "target ",
                            dest.as_str(),
                            " locked after retries: ",
                            e.as_str(),
                        ),
                    },
                ),
            ),
            (SwapState::Place { .. }, Ok(_)) => SwapState::SweepAside,
            (SwapState::Place { moved }, Err(e)) => {
                if moved {
                    SwapState::DropPrivate(After::Restore(e))
                } else {
                    SwapState::DropPrivate(
                        After::Finish(
                            InstallOutcome::Deferred {
                                reason: cat4(
                                    "could not place the new binary at ",
                                    dest.as_str(),
                                    ": ",
                                    e.as_str(),
                                ),
                            },
                        ),
                    )
                }
            },
            (SwapState::SweepAside, _) => SwapState::Done(InstallOutcome::Installed),
            (SwapState::DropPrivate(After::Finish(o)), _) => SwapState::Done(o),
            (SwapState::DropPrivate(After::Restore(e)), _) => SwapState::Undo(e),
            (SwapState::Undo(place), Ok(_)) => SwapState::Done(
                InstallOutcome::Deferred {
                    reason: cat4(
                        "could not place the new binary at ",
                        dest.as_str(),
                        ": ",
                        place.as_str(),
                    ),
                },
            ),
            (SwapState::Undo(place), Err(undo)) => {
                let head: String = cat5(
                    "could not place the new binary at ",
                    dest.as_str(),
                    " (",
                    place.as_str(),
                    ") and restoring the original also failed (",
                );
                let tail: String = cat2(
                    undo.as_str(),
                    "); dest left for the last-known-good rollback",
                );
                let detail: String = cat2(head.as_str(), tail.as_str());
                assert(detail@ =~= double_fault_text(dest@, place@, undo@));
                SwapState::Done(InstallOutcome::Failed { detail })
            },
            (SwapState::Done(o), _) => SwapState::Done(o),
        };
        Swap { private, dest, state: next }
    }
}

/// Performing `action` came to `event`, and took the journal from `before` to `after`.
pub open spec fn performed<J, P: Fn(J, &SwapAction) -> (J, Result<(), String>)>(
    perform: P,
    before: J,
    action: ActionView,
    event: Event,
    after: J,
) -> bool {
    exists|a: &SwapAction, r: Result<(), String>|
        a@ == action && event_of(r) == event && #[trigger] perform.ensures((before, a), (after, r))
}

/// Whether the swap was not over and what it asked for came to `event`.
pub open spec fn performed_at<J, P: Fn(J, &SwapAction) -> (J, Result<(), String>)>(
    perform: P,
    at: SwapView,
    before: J,
    event: Event,
    after: J,
) -> bool {
    at.state !is Done && performed(perform, before, action_of(at), event, after)
}

/// Whether each event is what came of the action that the swap asked for at that point, with the
/// journal handed from each action to the next.
pub open spec fn performed_all<J, P: Fn(J, &SwapAction) -> (J, Result<(), String>)>(
    perform: P,
    s: SwapView,
    events: Seq<Event>,
    journals: Seq<J>,
) -> bool {
    &&& journals.len() == events.len() + 1
    &&& forall|i: int|
        0 <= i < events.len() ==> performed_at(
            perform,
            after_all(s, events.take(i)),
            journals[i],
            #[trigger] events[i],
            journals[i + 1],
        )
}

/// Whether `action` is what the swap asks for next where the journal has come from `first` to `now`:
/// what has been performed so far is what the swap asked for, and it is not over.
pub open spec fn is_next<J, P: Fn(J, &SwapAction) -> (J, Result<(), String>)>(
    perform: P,
    s: SwapView,
    first: J,
    now: J,
    action: ActionView,
) -> bool {
    exists|events: Seq<Event>, journals: Seq<J>|
        {
            &&& #[trigger] performed_all(perform, s, events, journals)
            &&& journals[0] == first
            &&& journals.last() == now
            &&& after_all(s, events).state !is Done
            &&& action == action_of(after_all(s, events))
        }
}

/// Whether the swap ran through these events to this end, with the journal from `first` to `last`.
pub open spec fn swap_ran<J, P: Fn(J, &SwapAction) -> (J, Result<(), String>)>(
    perform: P,
    private: Seq<char>,
    dest: Seq<char>,
    first: J,
    events: Seq<Event>,
    last: J,
    outcome: OutcomeView,
) -> bool {
    &&& after_all(start(private, dest), events).state == SwapStateView::Done(outcome)
    &&& exists|journals: Seq<J>|
        {
            &&& #[trigger] performed_all(perform, start(private, dest), events, journals)
            &&& journals[0] == first
            &&& journals.last() == last
        }
}

proof fn lemma_performed_push<J, P: Fn(J, &SwapAction) -> (J, Result<(), String>)>(
    perform: P,
    s: SwapView,
    events: Seq<Event>,
    journals: Seq<J>,
    e: Event,
    after: J,
)
    requires
        performed_all(perform, s, events, journals),
        after_all(s, events).state !is Done,
        performed(perform, journals.last(), action_of(after_all(s, events)), e, after),
    ensures
        performed_all(perform, s, events.push(e), journals.push(after)),
        after_all(s, events.push(e)) == stepped(after_all(s, events), e),
{
    let more = events.push(e);
    let longer = journals.push(after);
    assert(more.drop_last() =~= events);
    assert forall|i: int| 0 <= i < more.len() implies performed_at(
        perform,
        after_all(s, more.take(i)),
        longer[i],
        #[trigger] more[i],
        longer[i + 1],
    ) by {
        if i < events.len() {
            assert(more.take(i) =~= events.take(i));
            assert(more[i] == events[i]);
        } else {
            assert(more.take(i) =~= events);
        }
    }
}

/// Replace `dest` by the verified file `private`, safe against a running or locked target.
///
/// `perform` carries out one action and says what came of it. It takes the caller's journal and
/// gives it back, so no action can be carried out beside those that the journal tells of: `perform`
/// may be called only for what the swap asks for next, and not at all once it is over. A target that
/// cannot be moved or replaced is put off to the next pass with the original in place; only where
/// moving it back fails as well has the swap failed, so that the caller restores the last known good
/// file.
pub fn rename_into_place_with<J, P: Fn(J, &SwapAction) -> (J, Result<(), String>)>(
    private: &str,
    dest: &str,
    journal: J,
    perform: &P,
) -> (r: (J, InstallOutcome))
    requires
        forall|now: J, a: &SwapAction|
            is_next(*perform, start(private@, dest@), journal, now, a@)
                ==> #[trigger] perform.requires((now, a)),
    ensures
        exists|events: Seq<Event>| #[trigger]
            swap_ran(*perform, private@, dest@, journal, events, r.0, r.1@),
{
    let mut swap: Swap = Swap::new(private, dest);
    let ghost s = start(private@, dest@);
    let ghost first = journal;
    let ghost mut events: Seq<Event> = Seq::empty();
    let ghost mut journals: Seq<J> = seq![journal];
    let mut now: J = journal;
    loop
        invariant
            forall|now: J, a: &SwapAction|
                is_next(*perform, s, first, now, a@) ==> #[trigger] perform.requires((now, a)),
            s == start(private@, dest@),
            first == journal,
            swap@ == after_all(s, events),
            on_course(swap@),
            performed_all(*perform, s, events, journals),
            journals[0] == first,
            journals.last() == now,
        decreases steps_left(swap@.state),
    {
        if let Some(outcome) = swap.outcome() {
            let r: (J, InstallOutcome) = (now, outcome);
            assert(swap_ran(*perform, private@, dest@, first, events, r.0, r.1@));
            return r;
        }
        let action: SwapAction = swap.action();
        assert(is_next(*perform, s, first, now, action@));
        let ghost before = now;
        let (after, event) = perform(now, &action);
        proof {
            let e = event_of(event);
            assert(performed(*perform, before, action_of(swap@), e, after));
            lemma_performed_push(*perform, s, events, journals, e, after);
            events = events.push(e);
            journals = journals.push(after);
        }
        now = after;
        swap = swap.step(event);
    }
}

// ------------------------------------------------------------------ what a swap does to files

/// The files of a host: what each path holds.
pub type Files = Map<Seq<char>, Seq<u8>>;

/// What an action that came to `event` made of the files. A rename moves a file or changes nothing;
/// a removal may or may not have happened; looking tells whether the file is there.
pub open spec fn took_effect(files: Files, action: ActionView, event: Event, after: Files) -> bool {
    match action {
        ActionView::CreateDir(_) => after == files,
        ActionView::Remove(p) => after == files || after == files.remove(p),
        ActionView::Exists(p) => after == files && (event is Ok <==> files.contains_key(p)),
        ActionView::Rename(from, to) => if event is Ok {
            files.contains_key(from) && after == files.remove(from).insert(to, files[from])
        } else {
            after == files
        },
        ActionView::Finish(_) => after == files,
    }
}

/// Whether the files went from world to world as the swap's actions took effect.
pub open spec fn happened(s: SwapView, events: Seq<Event>, worlds: Seq<Files>) -> bool {
    &&& worlds.len() == events.len() + 1
    &&& forall|i: int|
        0 <= i < events.len() ==> #[trigger] took_effect(
            worlds[i],
            action_of(after_all(s, events.take(i))),
            events[i],
            worlds[i + 1],
        )
}

/// Whether `p` holds the same in both worlds.
pub open spec fn same_at(a: Files, b: Files, p: Seq<char>) -> bool {
    a.contains_key(p) == b.contains_key(p) && (a.contains_key(p) ==> a[p] == b[p])
}

/// What holds of the files at each point of a swap.
spec fn intact(s: SwapView, before: Files, now: Files) -> bool {
    let dest = s.dest;
    let aside = aside_of(s.dest);
    &&& forall|p: Seq<char>|
        p != s.private && p != dest && p != aside ==> #[trigger] same_at(before, now, p)
    &&& match s.state {
        SwapStateView::MakeDir | SwapStateView::ClearAside | SwapStateView::Look
        | SwapStateView::MoveAside => same_at(before, now, dest) && same_at(before, now, s.private),
        SwapStateView::Place { moved } => {
            &&& same_at(before, now, s.private)
            &&& !now.contains_key(dest)
            &&& moved == before.contains_key(dest)
            &&& moved ==> now.contains_key(aside) && now[aside] == before[dest]
        },
        SwapStateView::SweepAside => before.contains_key(s.private) && now.contains_key(dest)
            && now[dest] == before[s.private],
        SwapStateView::DropPrivate(AfterView::Finish(o)) => o !is Installed && same_at(
            before,
            now,
            dest,
        ),
        SwapStateView::DropPrivate(AfterView::Restore(_)) | SwapStateView::Undo(_) => {
            &&& before.contains_key(dest)
            &&& !now.contains_key(dest)
            &&& now.contains_key(aside)
            &&& now[aside] == before[dest]
        },
        SwapStateView::Done(o) => target_kept(s.private, dest, o, before, now),
    }
}

/// What a finished swap has made of its target: the verified bytes if it is installed, the
/// original if it is put off, and the original under one of its two names if it has failed.
pub open spec fn target_kept(
    private: Seq<char>,
    dest: Seq<char>,
    outcome: OutcomeView,
    before: Files,
    after: Files,
) -> bool {
    match outcome {
        OutcomeView::Installed => {
            &&& before.contains_key(private)
            &&& after.contains_key(dest)
            &&& after[dest] == before[private]
        },
        OutcomeView::Deferred(_) => same_at(before, after, dest),
        OutcomeView::Failed(_) => {
            ||| same_at(before, after, dest)
            ||| before.contains_key(dest) && after.contains_key(aside_of(dest))
                && after[aside_of(dest)] == before[dest]
        },
    }
}

proof fn lemma_intact(s: SwapView, event: Event, before: Files, now: Files, after: Files)
    requires
        s.private != s.dest,
        s.private != aside_of(s.dest),
        s.dest != aside_of(s.dest),
        intact(s, before, now),
        took_effect(now, action_of(s), event, after),
    ensures
        intact(stepped(s, event), before, after),
{
    reveal(next_state);
    assert forall|p: Seq<char>|
        p != s.private && p != s.dest && p != aside_of(s.dest) implies #[trigger] same_at(
        before,
        after,
        p,
    ) by {
        assert(same_at(before, now, p));
    }
}

proof fn lemma_intact_all(s: SwapView, events: Seq<Event>, worlds: Seq<Files>)
    requires
        s.private != s.dest,
        s.private != aside_of(s.dest),
        s.dest != aside_of(s.dest),
        happened(s, events, worlds),
        intact(s, worlds[0], worlds[0]),
    ensures
        intact(after_all(s, events), worlds[0], worlds.last()),
        after_all(s, events).private == s.private,
        after_all(s, events).dest == s.dest,
    decreases events.len(),
{
    if events.len() > 0 {
        let n: int = events.len() - 1;
        let fewer = events.drop_last();
        let seen = worlds.drop_last();
        assert forall|i: int| 0 <= i < fewer.len() implies #[trigger] took_effect(
            seen[i],
            action_of(after_all(s, fewer.take(i))),
            fewer[i],
            seen[i + 1],
        ) by {
            assert(fewer.take(i) =~= events.take(i));
            assert(took_effect(
                worlds[i],
                action_of(after_all(s, events.take(i))),
                events[i],
                worlds[i + 1],
            ));
        }
        lemma_intact_all(s, fewer, seen);
        assert(events.take(n) =~= fewer);
        assert(took_effect(
            worlds[n],
            action_of(after_all(s, events.take(n))),
            events[n],
            worlds[n + 1],
        ));
        lemma_intact(after_all(s, fewer), events[n], worlds[0], worlds[n], worlds[n + 1]);
    }
}

/// However its actions come out, a swap never loses its target: an installed target holds the bytes
/// of the verified file, one that was put off is as it was, and one that is missing where there was
/// one means that the swap has failed, with the original bytes still aside. No other file changes.
pub proof fn a_swap_never_loses_the_target(
    private: Seq<char>,
    dest: Seq<char>,
    events: Seq<Event>,
    worlds: Seq<Files>,
    outcome: OutcomeView,
)
    requires
        private != dest,
        private != aside_of(dest),
        dest != aside_of(dest),
        happened(start(private, dest), events, worlds),
        after_all(start(private, dest), events).state == SwapStateView::Done(outcome),
    ensures
        target_kept(private, dest, outcome, worlds[0], worlds.last()),
        worlds[0].contains_key(dest) && !worlds.last().contains_key(dest) ==> outcome is Failed
            && worlds.last().contains_key(aside_of(dest)) && worlds.last()[aside_of(dest)]
            == worlds[0][dest],
        forall|p: Seq<char>|
            p != private && p != dest && p != aside_of(dest) ==> #[trigger] same_at(
                worlds[0],
                worlds.last(),
                p,
            ),
{
    lemma_intact_all(start(private, dest), events, worlds);
}

/// A swap ends: it takes at most eight actions, whatever comes of them.
pub proof fn a_swap_ends(s: SwapView, events: Seq<Event>)
    requires
        events.len() >= steps_left(s.state),
    ensures
        after_all(s, events).state is Done,
    decreases events.len(),
{
    lemma_steps(s, events);
}

proof fn lemma_steps(s: SwapView, events: Seq<Event>)
    ensures
        after_all(s, events).state is Done || steps_left(after_all(s, events).state) + events.len()
            <= steps_left(s.state),
    decreases events.len(),
{
    reveal(next_state);
    if events.len() > 0 {
        lemma_steps(s, events.drop_last());
    }
}

/// A swap in whose way nothing stands goes through: where its directory can be made and its renames
/// succeed, whatever becomes of the removals and whether or not there was a target, it ends installed.
pub proof fn a_swap_goes_through_where_nothing_is_in_the_way(
    private: Seq<char>,
    dest: Seq<char>,
    events: Seq<Event>,
    outcome: OutcomeView,
)
    requires
        forall|i: int|
            0 <= i < events.len() && (action_of(
                after_all(start(private, dest), events.take(i)),
            ) is CreateDir || action_of(after_all(start(private, dest), events.take(i))) is Rename)
                ==> #[trigger] events[i] is Ok,
        after_all(start(private, dest), events).state == SwapStateView::Done(outcome),
    ensures
        outcome is Installed,
{
    lemma_goes_through(private, dest, events);
}

proof fn lemma_goes_through(private: Seq<char>, dest: Seq<char>, events: Seq<Event>)
    requires
        forall|i: int|
            0 <= i < events.len() && (action_of(
                after_all(start(private, dest), events.take(i)),
            ) is CreateDir || action_of(after_all(start(private, dest), events.take(i))) is Rename)
                ==> #[trigger] events[i] is Ok,
    ensures
        ({
            let state = after_all(start(private, dest), events).state;
            &&& !(state is DropPrivate)
            &&& !(state is Undo)
            &&& state is Done ==> state == SwapStateView::Done(OutcomeView::Installed)
        }),
    decreases events.len(),
{
    reveal(next_state);
    if events.len() > 0 {
        let n: int = events.len() - 1;
        let fewer = events.drop_last();
        assert forall|i: int|
            0 <= i < fewer.len() && (action_of(
                after_all(start(private, dest), fewer.take(i)),
            ) is CreateDir || action_of(after_all(start(private, dest), fewer.take(i))) is Rename)
            implies #[trigger] fewer[i] is Ok by {
            assert(fewer.take(i) =~= events.take(i));
            assert(events[i] is Ok);
        }
        lemma_goes_through(private, dest, fewer);
        assert(events.take(n) =~= fewer);
        assert(events[n] == events.last());
    }
}

/// A swap ends by what its actions come to. Where the directory cannot be made, it has failed; where the
/// target cannot be moved aside, it is put off; where the new file cannot be placed, it is put off, once
/// the target that was moved aside is back; and where that cannot be, it has failed.
#[verifier::rlimit(40)]
pub proof fn how_a_swap_ends(
    private: Seq<char>,
    dest: Seq<char>,
    any: Event,
    other: Event,
    e: Seq<char>,
    undo: Seq<char>,
)
    requires
        parent_of(dest) is Some,
    ensures
        ({
            let s = start(private, dest);
            let ok = Ok::<(), Seq<char>>(());
            let bad = Err::<(), Seq<char>>(e);
            let worse = Err::<(), Seq<char>>(undo);
            &&& after_all(s, seq![bad, any]).state matches SwapStateView::Done(o) && o is Failed
            &&& after_all(s, seq![ok, any, ok, bad, other]).state matches SwapStateView::Done(o) && o
                is Deferred
            &&& after_all(s, seq![ok, any, worse, bad, other]).state matches SwapStateView::Done(o)
                && o is Deferred
            &&& after_all(s, seq![ok, any, ok, ok, bad, other, ok]).state matches SwapStateView::Done(
                o,
            ) && o is Deferred
            &&& after_all(s, seq![ok, any, ok, ok, bad, other, worse]).state matches
                SwapStateView::Done(o) && o is Failed
            &&& after_all(s, seq![ok, any, ok, ok, ok, other]).state matches SwapStateView::Done(o)
                && o is Installed
            &&& after_all(s, seq![ok, any, worse, ok, other]).state matches SwapStateView::Done(o)
                && o is Installed
        }),
{
    reveal(next_state);
    let s = start(private, dest);
    let ok = Ok::<(), Seq<char>>(());
    let bad = Err::<(), Seq<char>>(e);
    let worse = Err::<(), Seq<char>>(undo);
    let s0 = Seq::<Event>::empty();
    lemma_after(s, s0, bad);
    lemma_after(s, s0.push(bad), any);
    assert(s0.push(bad).push(any) =~= seq![bad, any]);
    let looked = s0.push(ok).push(any);
    lemma_after(s, s0, ok);
    lemma_after(s, s0.push(ok), any);
    lemma_after(s, looked, ok);
    lemma_after(s, looked, worse);
    let there = looked.push(ok);
    let gone = looked.push(worse);
    lemma_after(s, there, bad);
    lemma_after(s, there.push(bad), other);
    assert(there.push(bad).push(other) =~= seq![ok, any, ok, bad, other]);
    lemma_after(s, gone, bad);
    lemma_after(s, gone.push(bad), other);
    assert(gone.push(bad).push(other) =~= seq![ok, any, worse, bad, other]);
    lemma_after(s, gone, ok);
    lemma_after(s, gone.push(ok), other);
    assert(gone.push(ok).push(other) =~= seq![ok, any, worse, ok, other]);
    let moved = there.push(ok);
    lemma_after(s, there, ok);
    lemma_after(s, moved, ok);
    lemma_after(s, moved.push(ok), other);
    assert(moved.push(ok).push(other) =~= seq![ok, any, ok, ok, ok, other]);
    let unplaced = moved.push(bad).push(other);
    lemma_after(s, moved, bad);
    lemma_after(s, moved.push(bad), other);
    lemma_after(s, unplaced, ok);
    lemma_after(s, unplaced, worse);
    assert(unplaced.push(ok) =~= seq![ok, any, ok, ok, bad, other, ok]);
    assert(unplaced.push(worse) =~= seq![ok, any, ok, ok, bad, other, worse]);
}

proof fn lemma_after(s: SwapView, events: Seq<Event>, event: Event)
    ensures
        after_all(s, events.push(event)) == stepped(after_all(s, events), event),
{
    assert(events.push(event).drop_last() =~= events);
}

} // verus!
