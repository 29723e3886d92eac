//! The run as a state machine: which step is due, and what follows from how
//! a step ended.
//!
//! The caller carries out each action on the file system and reports how it
//! ended; the decisions are taken here.

use vstd::prelude::*;
use crate::config::XcrConfig;
use crate::config::ConfigView;
use crate::config::text_of;

verus! {

/// Where a run stands.
#[derive(Debug, Clone, Copy, PartialEq, Eq, Structural)]
pub enum Phase {
    /// The project is looked for under the source path.
    Validating,
    /// The present bundle identifier is looked for in the settings file.
    BundleIdLookup,
    /// The project is copied to the destination.
    Copying,
    /// Text files of the copy are rewritten.
    RewritingContent,
    /// Files and directories of the copy are renamed.
    RenamingPaths,
    /// The new bundle identifier is written to the build settings.
    UpdatingSettings,
    /// A step failed after the destination was made: it is being removed.
    CleaningUp,
    /// Every step was carried out.
    Done,
    /// The run has failed.
    Failed,
}

/// How the action that was asked for ended.
#[derive(Debug, Clone, Copy, PartialEq, Eq, Structural)]
pub enum Event {
    /// It was carried out.
    Completed,
    /// It failed.
    Failed,
    /// The copy was not begun, because the destination was already there.
    DestinationExists,
}

/// What the caller is to do next.
#[derive(Debug, Clone, Copy, PartialEq, Eq, Structural)]
pub enum Action {
    /// Look for the project under the source path.
    ValidateProject,
    /// Read the settings file and look for the bundle identifier.
    FindBundleIdentifier,
    /// Make the destination, unless it is there, and copy the project.
    CopyProject,
    /// Rewrite the text files of the copy.
    UpdateFileContents,
    /// Rename the files and directories of the copy.
    RenameFiles,
    /// Write the new bundle identifier to the build settings.
    UpdateProjectSettings,
    /// Remove the destination, which this run made.
    RemoveDestination,
    /// Report where the copy is.
    ReportSuccess,
    /// Report the failure of `step`, or that of the removal where
    /// `cleanup_failed`.
    ReportFailure { step: Phase, cleanup_failed: bool },
}

/// The state of a run.
#[derive(Debug, Clone, Copy)]
pub struct RunState {
    pub phase: Phase,
    /// The step that failed, once one has.
    pub failed_step: Option<Phase>,
    /// Whether removing the destination failed.
    pub cleanup_failed: bool,
}

impl Phase {
    /// One of the six steps of a run that goes well.
    pub open spec fn is_step(self) -> bool {
        self is Validating || self is BundleIdLookup || self is Copying || self is RewritingContent
            || self is RenamingPaths || self is UpdatingSettings
    }

    /// A phase in which the destination is this run's own work.
    pub open spec fn owns_destination(self) -> bool {
        self is Copying || self is RewritingContent || self is RenamingPaths
            || self is UpdatingSettings
    }

    /// A phase that no event leaves.
    pub open spec fn is_terminal(self) -> bool {
        self is Done || self is Failed
    }

    /// The phase that follows when this step was carried out. The settings
    /// are updated only where a new bundle identifier was asked for.
    pub open spec fn successor(self, wants_settings: bool) -> Phase {
        match self {
            Phase::Validating => Phase::BundleIdLookup,
            Phase::BundleIdLookup => Phase::Copying,
            Phase::Copying => Phase::RewritingContent,
            Phase::RewritingContent => Phase::RenamingPaths,
            Phase::RenamingPaths => if wants_settings {
                Phase::UpdatingSettings
            } else {
                Phase::Done
            },
            Phase::UpdatingSettings => Phase::Done,
            Phase::CleaningUp => Phase::Failed,
            Phase::Done => Phase::Done,
            Phase::Failed => Phase::Failed,
        }
    }
}

impl RunState {
    /// The state in which a run begins.
    pub open spec fn initial() -> RunState {
        RunState { phase: Phase::Validating, failed_step: None, cleanup_failed: false }
    }

    /// A failed step is on record exactly while the run is failing, and the
    /// removal can only have failed once the run has.
    pub open spec fn well_formed(self) -> bool {
        &&& self.failed_step is Some <==> (self.phase is CleaningUp || self.phase is Failed)
        &&& self.failed_step is Some ==> self.failed_step->0.is_step()
        &&& self.phase is CleaningUp ==> self.failed_step->0.owns_destination()
        &&& self.cleanup_failed ==> self.phase is Failed
    }

    /// The state after `event` has answered the action that was due.
    ///
    /// A step that was carried out leads to the next step. The first failure
    /// ends the run: the destination is removed first if this run made it,
    /// and left alone if it was there before the copy began.
    pub open spec fn step(self, event: Event, wants_settings: bool) -> RunState {
        if self.phase.is_terminal() {
            self
        } else if self.phase is CleaningUp {
            RunState { phase: Phase::Failed, cleanup_failed: !(event is Completed), ..self }
        } else if event is Completed {
            RunState { phase: self.phase.successor(wants_settings), ..self }
        } else if self.phase.owns_destination() && !(self.phase is Copying
            && event is DestinationExists) {
            RunState { phase: Phase::CleaningUp, failed_step: Some(self.phase), ..self }
        } else {
            RunState { phase: Phase::Failed, failed_step: Some(self.phase), ..self }
        }
    }

    /// The action that is due in this state.
    pub open spec fn action(self) -> Action {
        match self.phase {
            Phase::Validating => Action::ValidateProject,
            Phase::BundleIdLookup => Action::FindBundleIdentifier,
            Phase::Copying => Action::CopyProject,
            Phase::RewritingContent => Action::UpdateFileContents,
            Phase::RenamingPaths => Action::RenameFiles,
            Phase::UpdatingSettings => Action::UpdateProjectSettings,
            Phase::CleaningUp => Action::RemoveDestination,
            Phase::Done => Action::ReportSuccess,
            Phase::Failed => Action::ReportFailure {
                step: self.failed_step->0,
                cleanup_failed: self.cleanup_failed,
            },
        }
    }

    /// The state after the events `events`, in order, from the beginning of
    /// a run.
    pub open spec fn after(events: Seq<Event>, wants_settings: bool) -> RunState
        decreases events.len(),
    {
        if events.len() == 0 {
            RunState::initial()
        } else {
            RunState::after(events.drop_last(), wants_settings).step(events.last(), wants_settings)
        }
    }
}

impl Phase {
    /// How many steps come before this one in a run that goes well.
    pub open spec fn rank(self) -> nat {
        match self {
            Phase::Validating => 0,
            Phase::BundleIdLookup => 1,
            Phase::Copying => 2,
            Phase::RewritingContent => 3,
            Phase::RenamingPaths => 4,
            Phase::UpdatingSettings => 5,
            _ => 6,
        }
    }
}

/// The number of steps in a run that goes well.
pub open spec fn steps_in_all(wants_settings: bool) -> nat {
    if wants_settings {
        6
    } else {
        5
    }
}

/// Every state that a run reaches is well formed.
pub proof fn lemma_run_well_formed(events: Seq<Event>, wants_settings: bool)
    ensures
        RunState::after(events, wants_settings).well_formed(),
    decreases events.len(),
{
    if events.len() > 0 {
        lemma_run_well_formed(events.drop_last(), wants_settings);
    }
}

/// The steps are taken strictly in sequence: a run stands at a step only
/// when every step before it, and nothing else, was carried out. The
/// settings are updated only where a new bundle identifier was asked for.
pub proof fn lemma_steps_in_sequence(events: Seq<Event>, wants_settings: bool)
    ensures
        RunState::after(events, wants_settings).phase.is_step() ==> {
            &&& events.len() == RunState::after(events, wants_settings).phase.rank()
            &&& forall|i: int| 0 <= i < events.len() ==> events[i] is Completed
        },
        RunState::after(events, wants_settings).phase is UpdatingSettings ==> wants_settings,
    decreases events.len(),
{
    if events.len() > 0 {
        let before = events.drop_last();
        lemma_steps_in_sequence(before, wants_settings);
        lemma_run_well_formed(before, wants_settings);
        if RunState::after(events, wants_settings).phase.is_step() {
            assert forall|i: int| 0 <= i < events.len() implies events[i] is Completed by {
                if i < before.len() {
                    assert(before[i] == events[i]);
                }
            }
        }
    }
}

/// A run is done only when each of its steps was carried out, and it is
/// done as soon as they were.
pub proof fn lemma_done_after_every_step(events: Seq<Event>, wants_settings: bool)
    ensures
        RunState::after(events, wants_settings).phase is Done <==> {
            &&& events.len() >= steps_in_all(wants_settings)
            &&& forall|i: int| 0 <= i < steps_in_all(wants_settings) ==> events[i] is Completed
        },
    decreases events.len(),
{
    let n = steps_in_all(wants_settings);
    lemma_steps_in_sequence(events, wants_settings);
    lemma_run_well_formed(events, wants_settings);
    if events.len() > 0 {
        let before = events.drop_last();
        lemma_done_after_every_step(before, wants_settings);
        lemma_steps_in_sequence(before, wants_settings);
        lemma_run_well_formed(before, wants_settings);
        let prior = RunState::after(before, wants_settings);
        assert forall|i: int| 0 <= i < before.len() implies before[i] == events[i] by {}
        if prior.phase.is_step() {
            if events.len() >= n && (forall|i: int| 0 <= i < n ==> events[i] is Completed) {
                assert(events.len() == n);
                assert(events.last() == events[n - 1]);
            }
        } else if prior.phase is Done {
        } else {
            lemma_failure_has_a_cause(before, wants_settings);
            let k = choose|k: int| 0 <= k < before.len() && k < 6 && !(before[k] is Completed);
            assert(events[k] == before[k]);
            if events.len() >= n && (forall|i: int| 0 <= i < n ==> events[i] is Completed) {
                lemma_failure_at(before, wants_settings, k);
            }
        }
    }
}

/// A run fails only where one of its steps did.
pub proof fn lemma_failure_has_a_cause(events: Seq<Event>, wants_settings: bool)
    ensures
        (RunState::after(events, wants_settings).phase is CleaningUp || RunState::after(
            events,
            wants_settings,
        ).phase is Failed) ==> exists|k: int|
            0 <= k < events.len() && k < 6 && !(events[k] is Completed),
    decreases events.len(),
{
    let s = RunState::after(events, wants_settings);
    if events.len() > 0 && (s.phase is CleaningUp || s.phase is Failed) {
        let before = events.drop_last();
        let prior = RunState::after(before, wants_settings);
        lemma_steps_in_sequence(before, wants_settings);
        if prior.phase.is_step() {
            let k = events.len() - 1;
            assert(!(events[k] is Completed));
        } else {
            lemma_failure_has_a_cause(before, wants_settings);
            let k = choose|k: int| 0 <= k < before.len() && k < 6 && !(before[k] is Completed);
            assert(events[k] == before[k]);
        }
    }
}

/// The step that failed first is the one on record, and no later event
/// brings the run back to a step.
pub proof fn lemma_failure_at(events: Seq<Event>, wants_settings: bool, k: int)
    requires
        0 <= k < events.len(),
        !(events[k] is Completed),
        forall|i: int| 0 <= i < k ==> events[i] is Completed,
        k < steps_in_all(wants_settings),
    ensures
        RunState::after(events, wants_settings).phase is CleaningUp || RunState::after(
            events,
            wants_settings,
        ).phase is Failed,
        RunState::after(events, wants_settings).failed_step == Some(
            RunState::after(events.take(k), wants_settings).phase,
        ),
        RunState::after(events.take(k), wants_settings).phase.rank() == k,
    decreases events.len(),
{
    let before = events.drop_last();
    if k == events.len() - 1 {
        assert(events.take(k) =~= before);
        lemma_all_completed(before, wants_settings);
    } else {
        assert(before[k] == events[k]);
        assert forall|i: int| 0 <= i < k implies before[i] is Completed by {
            assert(before[i] == events[i]);
        }
        lemma_failure_at(before, wants_settings, k);
        assert(before.take(k) =~= events.take(k));
    }
}

/// While every step is carried out, the run goes from step to step.
pub proof fn lemma_all_completed(events: Seq<Event>, wants_settings: bool)
    requires
        forall|i: int| 0 <= i < events.len() ==> events[i] is Completed,
        events.len() <= steps_in_all(wants_settings),
    ensures
        events.len() < steps_in_all(wants_settings) ==> {
            &&& RunState::after(events, wants_settings).phase.is_step()
            &&& RunState::after(events, wants_settings).phase.rank() == events.len()
        },
        events.len() == steps_in_all(wants_settings) ==> RunState::after(
            events,
            wants_settings,
        ).phase is Done,
        RunState::after(events, wants_settings).failed_step is None,
    decreases events.len(),
{
    if events.len() > 0 {
        let before = events.drop_last();
        assert forall|i: int| 0 <= i < before.len() implies before[i] is Completed by {
            assert(before[i] == events[i]);
        }
        lemma_all_completed(before, wants_settings);
    }
}

/// A destination that was there before the copy began is never removed:
/// the run fails at once, and what it reports is the failure of the copy.
pub proof fn lemma_existing_destination_is_kept(events: Seq<Event>, wants_settings: bool)
    requires
        events.len() >= 3,
        events[0] is Completed,
        events[1] is Completed,
        events[2] is DestinationExists,
    ensures
        forall|m: int|
            0 <= m <= events.len() ==> !(#[trigger] RunState::after(
                events.take(m),
                wants_settings,
            ).action() is RemoveDestination),
        RunState::after(events, wants_settings).action() == (Action::ReportFailure {
            step: Phase::Copying,
            cleanup_failed: false,
        }),
{
    assert forall|m: int| 0 <= m <= events.len() implies !(#[trigger] RunState::after(
        events.take(m),
        wants_settings,
    ).action() is RemoveDestination) && (m >= 3 ==> RunState::after(
        events.take(m),
        wants_settings,
    ) == RunState {
        phase: Phase::Failed,
        failed_step: Some(Phase::Copying),
        cleanup_failed: false,
    }) by {
        lemma_after_existing_destination(events, wants_settings, m);
    }
    assert(events.take(events.len() as int) =~= events);
}

proof fn lemma_after_existing_destination(events: Seq<Event>, wants_settings: bool, m: int)
    requires
        events.len() >= 3,
        events[0] is Completed,
        events[1] is Completed,
        events[2] is DestinationExists,
        0 <= m <= events.len(),
    ensures
        !(RunState::after(events.take(m), wants_settings).action() is RemoveDestination),
        m >= 3 ==> RunState::after(events.take(m), wants_settings) == (RunState {
            phase: Phase::Failed,
            failed_step: Some(Phase::Copying),
            cleanup_failed: false,
        }),
    decreases m,
{
    let e = events.take(m);
    if m <= 2 {
        assert forall|i: int| 0 <= i < e.len() implies e[i] is Completed by {
            assert(e[i] == events[i]);
        }
        lemma_all_completed(e, wants_settings);
    } else {
        assert(e.drop_last() =~= events.take(m - 1));
        assert(e.last() == events[m - 1]);
        lemma_after_existing_destination(events, wants_settings, m - 1);
        if m == 3 {
            let two = events.take(2);
            assert forall|i: int| 0 <= i < two.len() implies two[i] is Completed by {
                assert(two[i] == events[i]);
            }
            lemma_all_completed(two, wants_settings);
            lemma_run_well_formed(two, wants_settings);
        }
    }
}

/// The destination is removed only where this run made it: the copy was
/// begun, and the step that failed was the copy or a later one.
pub proof fn lemma_removal_only_after_copy_began(events: Seq<Event>, wants_settings: bool)
    requires
        RunState::after(events, wants_settings).action() is RemoveDestination,
    ensures
        events.len() >= 3,
        events[0] is Completed,
        events[1] is Completed,
        !(events[2] is DestinationExists),
        RunState::after(events, wants_settings).failed_step->0.owns_destination(),
{
    lemma_run_well_formed(events, wants_settings);
    let before = events.drop_last();
    assert(events.len() > 0);
    let prior = RunState::after(before, wants_settings);
    lemma_steps_in_sequence(before, wants_settings);
    assert(prior.phase.owns_destination());
    assert(before.len() == prior.phase.rank());
    assert(events[0] == before[0]);
    assert(events[1] == before[1]);
    if before.len() > 2 {
        assert(events[2] == before[2]);
    }
}

/// A run over a configuration.
#[derive(Debug)]
pub struct Xcr {
    config: XcrConfig,
    state: RunState,
}

impl Xcr {
    #[verifier::type_invariant]
    spec fn inv(&self) -> bool {
        self.state().well_formed()
    }

    /// The configuration of the run, as plain text.
    pub closed spec fn config_view(&self) -> ConfigView {
        self.config@
    }

    /// The state of the run.
    pub closed spec fn state(&self) -> RunState {
        self.state
    }

    /// A run over `config` that has not begun.
    pub fn new(config: XcrConfig) -> (r: Xcr)
        ensures
            r.config_view() == config@,
            r.state() == RunState::initial(),
    {
        Xcr {
            config,
            state: RunState { phase: Phase::Validating, failed_step: None, cleanup_failed: false },
        }
    }

    /// The configuration of the run.
    pub fn config(&self) -> (r: &XcrConfig)
        ensures
            r@ == self.config_view(),
    {
        &self.config
    }

    /// Records the bundle identifier found in the project, or that none
    /// was.
    pub fn record_bundle_identifier(&mut self, id: Option<String>)
        ensures
            final(self).config_view() == (ConfigView {
                old_bundle_id: text_of(id),
                ..old(self).config_view()
            }),
            final(self).state() == old(self).state(),
    {
        proof {
            use_type_invariant(&*self);
        }
        self.config.set_old_bundle_id(id);
    }

    /// Where the run stands.
    pub fn phase(&self) -> (r: Phase)
        ensures
            r == self.state().phase,
            self.state().well_formed(),
    {
        proof {
            use_type_invariant(self);
        }
        self.state.phase
    }

    /// The action that is due.
    pub fn action(&self) -> (r: Action)
        ensures
            r == self.state().action(),
    {
        proof {
            use_type_invariant(self);
        }
        match self.state.phase {
            Phase::Validating => Action::ValidateProject,
            Phase::BundleIdLookup => Action::FindBundleIdentifier,
            Phase::Copying => Action::CopyProject,
            Phase::RewritingContent => Action::UpdateFileContents,
            Phase::RenamingPaths => Action::RenameFiles,
            Phase::UpdatingSettings => Action::UpdateProjectSettings,
            Phase::CleaningUp => Action::RemoveDestination,
            Phase::Done => Action::ReportSuccess,
            Phase::Failed => match self.state.failed_step {
                Some(step) => Action::ReportFailure {
                    step,
                    cleanup_failed: self.state.cleanup_failed,
                },
                None => Action::ReportFailure {
                    step: Phase::Failed,
                    cleanup_failed: self.state.cleanup_failed,
                },
            },
        }
    }

    /// Takes in how the action that was due ended, and gives the action
    /// that is due now.
    pub fn execute(&mut self, event: Event) -> (action: Action)
        ensures
            final(self).state() == old(self).state().step(
                event,
                old(self).config_view().new_bundle_id is Some,
            ),
            final(self).config_view() == old(self).config_view(),
            action == final(self).state().action(),
    {
        proof {
            use_type_invariant(&*self);
        }
        let wants_settings = self.config.new_bundle_id().is_some();
        let completed = match event {
            Event::Completed => true,
            _ => false,
        };
        let existed = match event {
            Event::DestinationExists => true,
            _ => false,
        };
        let phase = self.state.phase;
        let (next, failed_step, cleanup_failed) = match phase {
            Phase::Done | Phase::Failed => (
                phase,
                self.state.failed_step,
                self.state.cleanup_failed,
            ),
            Phase::CleaningUp => (Phase::Failed, self.state.failed_step, !completed),
            Phase::Validating => if completed {
                (Phase::BundleIdLookup, None, false)
            } else {
                (Phase::Failed, Some(phase), false)
            },
            Phase::BundleIdLookup => if completed {
                (Phase::Copying, None, false)
            } else {
                (Phase::Failed, Some(phase), false)
            },
            Phase::Copying => if completed {
                (Phase::RewritingContent, None, false)
            } else if existed {
                (Phase::Failed, Some(phase), false)
            } else {
                (Phase::CleaningUp, Some(phase), false)
            },
            Phase::RewritingContent => if completed {
                (Phase::RenamingPaths, None, false)
            } else {
                (Phase::CleaningUp, Some(phase), false)
            },
            Phase::RenamingPaths => if !completed {
                (Phase::CleaningUp, Some(phase), false)
            } else if wants_settings {
                (Phase::UpdatingSettings, None, false)
            } else {
                (Phase::Done, None, false)
            },
            Phase::UpdatingSettings => if completed {
                (Phase::Done, None, false)
            } else {
                (Phase::CleaningUp, Some(phase), false)
            },
        };
        self.state = RunState { phase: next, failed_step, cleanup_failed };
        self.action()
    }
}

} // verus!
