//! The phases of an encounter and the one function that moves between them.

use vstd::prelude::*;

verus! {

/// The phase an encounter is in.
#[derive(Clone, Copy, Debug, PartialEq, Eq, Hash, Structural)]
pub enum EncounterState {
    /// No encounter is under way.
    Idle,
    Loading,
    Introduction,
    ActionChoice,
    ProbabilitySetup,
    OutcomeResolution,
    CheckEncounterResolution,
    EncounterResolved,
}

impl Default for EncounterState {
    fn default() -> (r: Self)
        ensures
            r == EncounterState::Idle,
    {
        EncounterState::Idle
    }
}

/// What can happen to an encounter. Each event is awaited in one phase and is
/// ignored in every other, but for `Left`, which ends the encounter from anywhere.
#[derive(Clone, Copy, Debug, PartialEq, Eq, Structural)]
pub enum EncounterEvent {
    /// An encounter was set up.
    Started,
    /// Everything the encounter shows is loaded.
    Loaded,
    /// The player has read the introduction.
    Introduced,
    /// The player has chosen an action.
    ActionChosen,
    /// The player has confirmed the dice pools.
    SetupConfirmed,
    /// No resolution is left to show.
    ResolutionsShown,
    /// The round is over and a challenger still stands.
    ChallengersRemain,
    /// The round is over and every challenger is completed.
    ChallengersCompleted,
    /// The encounter was left.
    Left,
}

impl EncounterState {
    /// The phase that follows this one when `event` happens.
    pub open spec fn next(self, event: EncounterEvent) -> EncounterState {
        match (self, event) {
            (_, EncounterEvent::Left) => EncounterState::Idle,
            (EncounterState::Idle, EncounterEvent::Started) => EncounterState::Loading,
            (EncounterState::Loading, EncounterEvent::Loaded) => EncounterState::Introduction,
            (EncounterState::Introduction, EncounterEvent::Introduced) => EncounterState::ActionChoice,
            (EncounterState::ActionChoice, EncounterEvent::ActionChosen) => {
                EncounterState::ProbabilitySetup
            },
            (EncounterState::ProbabilitySetup, EncounterEvent::SetupConfirmed) => {
                EncounterState::OutcomeResolution
            },
            (EncounterState::OutcomeResolution, EncounterEvent::ResolutionsShown) => {
                EncounterState::CheckEncounterResolution
            },
            (EncounterState::CheckEncounterResolution, EncounterEvent::ChallengersRemain) => {
                EncounterState::ActionChoice
            },
            (EncounterState::CheckEncounterResolution, EncounterEvent::ChallengersCompleted) => {
                EncounterState::EncounterResolved
            },
            (state, _) => state,
        }
    }

    /// The place of the phase in a round, counted from `Idle` at 0.
    pub open spec fn order(self) -> nat {
        match self {
            EncounterState::Idle => 0,
            EncounterState::Loading => 1,
            EncounterState::Introduction => 2,
            EncounterState::ActionChoice => 3,
            EncounterState::ProbabilitySetup => 4,
            EncounterState::OutcomeResolution => 5,
            EncounterState::CheckEncounterResolution => 6,
            EncounterState::EncounterResolved => 7,
        }
    }

    /// Moves to the phase that follows when `event` happens.
    pub fn advance(self, event: EncounterEvent) -> (r: EncounterState)
        ensures
            r == self.next(event),
    {
        match (self, event) {
            (_, EncounterEvent::Left) => EncounterState::Idle,
            (EncounterState::Idle, EncounterEvent::Started) => EncounterState::Loading,
            (EncounterState::Loading, EncounterEvent::Loaded) => EncounterState::Introduction,
            (EncounterState::Introduction, EncounterEvent::Introduced) => EncounterState::ActionChoice,
            (EncounterState::ActionChoice, EncounterEvent::ActionChosen) => {
                EncounterState::ProbabilitySetup
            },
            (EncounterState::ProbabilitySetup, EncounterEvent::SetupConfirmed) => {
                EncounterState::OutcomeResolution
            },
            (EncounterState::OutcomeResolution, EncounterEvent::ResolutionsShown) => {
                EncounterState::CheckEncounterResolution
            },
            (EncounterState::CheckEncounterResolution, EncounterEvent::ChallengersRemain) => {
                EncounterState::ActionChoice
            },
            (EncounterState::CheckEncounterResolution, EncounterEvent::ChallengersCompleted) => {
                EncounterState::EncounterResolved
            },
            (state, _) => state,
        }
    }

    /// A step never skips a phase: it stays, moves to the next phase in order,
    /// returns from the check to the choice of actions, or ends the encounter.
    pub proof fn lemma_next_is_a_step(self, event: EncounterEvent)
        ensures
            ({
                let after = self.next(event);
                ||| after == self
                ||| after.order() == self.order() + 1
                ||| (self == EncounterState::CheckEncounterResolution && after
                    == EncounterState::ActionChoice)
                ||| (event == EncounterEvent::Left && after == EncounterState::Idle)
            }),
    {
    }

    /// An encounter is resolved only by the check at the end of a round, and only
    /// when every challenger is completed.
    pub proof fn lemma_resolved_only_by_check(self, event: EncounterEvent)
        requires
            self != EncounterState::EncounterResolved,
            self.next(event) == EncounterState::EncounterResolved,
        ensures
            self == EncounterState::CheckEncounterResolution,
            event == EncounterEvent::ChallengersCompleted,
    {
    }

    /// Outcomes are shown only after the pools were confirmed.
    pub proof fn lemma_resolution_only_after_setup(self, event: EncounterEvent)
        requires
            self != EncounterState::OutcomeResolution,
            self.next(event) == EncounterState::OutcomeResolution,
        ensures
            self == EncounterState::ProbabilitySetup,
            event == EncounterEvent::SetupConfirmed,
    {
    }
}

} // verus!
