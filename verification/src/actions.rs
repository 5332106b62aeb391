//! Action definitions and the evaluation of a roll against their thresholds.

use crate::dice::{DicePool, InitialPools};
use vstd::prelude::*;

verus! {

/// The four outcome tiers of an action, worst first.
#[derive(Clone, Copy, Debug, PartialEq, Eq, Structural)]
pub enum ActionResult {
    CriticalFail,
    Fail,
    Success,
    CriticalSuccess,
}

impl ActionResult {
    /// The position of the tier, counted from the worst at 0.
    pub open spec fn tier(self) -> nat {
        match self {
            ActionResult::CriticalFail => 0,
            ActionResult::Fail => 1,
            ActionResult::Success => 2,
            ActionResult::CriticalSuccess => 3,
        }
    }

    /// The position of the tier, counted from the worst at 0.
    pub fn rank(&self) -> (r: u8)
        ensures
            r == self.tier(),
    {
        match self {
            ActionResult::CriticalFail => 0,
            ActionResult::Fail => 1,
            ActionResult::Success => 2,
            ActionResult::CriticalSuccess => 3,
        }
    }

    /// The words that tell the tier to the player.
    pub fn label(&self) -> (r: &'static str)
        ensures
            r@ == match *self {
                ActionResult::CriticalFail => "Failed Badly"@,
                ActionResult::Fail => "Failed"@,
                ActionResult::Success => "Succeeded!"@,
                ActionResult::CriticalSuccess => "Amazing Success!"@,
            },
    {
        match self {
            ActionResult::CriticalFail => "Failed Badly",
            ActionResult::Fail => "Failed",
            ActionResult::Success => "Succeeded!",
            ActionResult::CriticalSuccess => "Amazing Success!",
        }
    }

    /// Whether the tier counts as a success.
    pub fn succeeded(&self) -> (r: bool)
        ensures
            r == (self.tier() >= 2),
    {
        match self {
            ActionResult::Success | ActionResult::CriticalSuccess => true,
            _ => false,
        }
    }
}

/// An action on offer: its texts, its three thresholds and the pools it starts with.
///
/// Content is expected to keep `fail < success < critical_success`; see
/// [`ActionChoice::ordered`].
#[derive(Clone, Debug)]
pub struct ActionChoice {
    pub title: String,
    pub content: String,
    pub fail: u8,
    pub success: u8,
    pub critical_success: u8,
    pub dice_pool: InitialPools,
}

impl Default for ActionChoice {
    fn default() -> (r: Self)
        ensures
            r.title@ == "An Action"@,
            r.content@ == Seq::<char>::empty(),
            r.fail == 2,
            r.success == 6,
            r.critical_success == 9,
            r.dice_pool@ == InitialPools::default_pools(),
    {
        ActionChoice {
            title: "An Action".to_owned(),
            content: String::new(),
            fail: 2,
            success: 6,
            critical_success: 9,
            dice_pool: InitialPools::default(),
        }
    }
}

impl ActionChoice {
    /// Whether the thresholds ascend strictly.
    pub open spec fn ordered(&self) -> bool {
        self.fail < self.success < self.critical_success
    }

    /// The tier a roll of `value` falls into, and its distance from the threshold
    /// that decided the tier. Every comparison is strict: a roll equal to a
    /// threshold belongs to the tier above it.
    pub open spec fn outcome(&self, value: u8) -> (ActionResult, u8) {
        if value < self.fail {
            (ActionResult::CriticalFail, (self.fail - value) as u8)
        } else if value < self.success {
            (ActionResult::Fail, (self.success - value) as u8)
        } else if value < self.critical_success {
            (ActionResult::Success, (value - self.success) as u8)
        } else {
            (ActionResult::CriticalSuccess, (value - self.critical_success) as u8)
        }
    }

    /// Tells whether the thresholds ascend strictly.
    pub fn is_ordered(&self) -> (r: bool)
        ensures
            r == self.ordered(),
    {
        self.fail < self.success && self.success < self.critical_success
    }

    /// Classifies a roll against the thresholds and measures its gap.
    pub fn evaluate(&self, value: u8) -> (r: (ActionResult, u8))
        ensures
            r == self.outcome(value),
    {
        if value < self.fail {
            (ActionResult::CriticalFail, self.fail - value)
        } else if value < self.success {
            (ActionResult::Fail, self.success - value)
        } else if value < self.critical_success {
            (ActionResult::Success, value - self.success)
        } else {
            (ActionResult::CriticalSuccess, value - self.critical_success)
        }
    }

    /// A larger roll never falls into a lower tier.
    pub proof fn lemma_outcome_monotonic(&self, lower: u8, higher: u8)
        requires
            lower <= higher,
        ensures
            self.outcome(lower).0.tier() <= self.outcome(higher).0.tier(),
    {
    }

    /// With ascending thresholds, a roll that equals a threshold belongs to the
    /// tier above it.
    pub proof fn lemma_outcome_at_thresholds(&self)
        requires
            self.ordered(),
        ensures
            self.outcome(self.fail) == (ActionResult::Fail, (self.success - self.fail) as u8),
            self.outcome(self.success) == (ActionResult::Success, 0u8),
            self.outcome(self.critical_success) == (ActionResult::CriticalSuccess, 0u8),
    {
    }

    /// With ascending thresholds, each tier is exactly one band of rolls.
    pub proof fn lemma_outcome_bands(&self, value: u8)
        requires
            self.ordered(),
        ensures
            self.outcome(value).0 == ActionResult::CriticalFail <==> value < self.fail,
            self.outcome(value).0 == ActionResult::Fail <==> self.fail <= value < self.success,
            self.outcome(value).0 == ActionResult::Success <==> self.success <= value
                < self.critical_success,
            self.outcome(value).0 == ActionResult::CriticalSuccess <==> self.critical_success
                <= value,
    {
    }
}

/// What became of one action: the roll, its tier and its gap.
#[derive(Clone, Copy, Debug, PartialEq, Eq, Structural)]
pub struct Resolution {
    pub roll: u8,
    pub result: ActionResult,
    pub gap: u8,
}

impl Resolution {
    /// The resolution of `choice` for a roll of `roll`.
    pub open spec fn of(choice: &ActionChoice, roll: u8) -> Resolution {
        Resolution { roll, result: choice.outcome(roll).0, gap: choice.outcome(roll).1 }
    }

    /// Evaluates `roll` against `choice` and records the outcome.
    pub fn new(choice: &ActionChoice, roll: u8) -> (r: Self)
        ensures
            r == Resolution::of(choice, roll),
    {
        let (result, gap) = choice.evaluate(roll);
        Resolution { roll, result, gap }
    }
}

/// What an action does once it is resolved.
#[derive(Clone, Copy, Debug, PartialEq, Eq, Structural)]
pub enum ActionType {
    /// Only tells its outcome.
    Text,
    /// Deals damage that depends on the outcome.
    Attack { base_damage: u8 },
}

impl Default for ActionType {
    fn default() -> (r: Self)
        ensures
            r == ActionType::Text,
    {
        ActionType::Text
    }
}

/// An action as content defines it.
#[derive(Clone, Debug)]
pub struct ActionDefinition {
    pub choice: ActionChoice,
    pub action_type: ActionType,
}

/// Whom an action is aimed at: the identifier of a participant, if any.
#[derive(Clone, Copy, Debug, PartialEq, Eq, Structural)]
pub struct ActionTarget(pub Option<u64>);

impl Default for ActionTarget {
    fn default() -> (r: Self)
        ensures
            r == ActionTarget(None),
    {
        ActionTarget(None)
    }
}

/// An action that is under way in the current round: what it is, whose it is, the
/// pools it will be rolled with, and its resolution once it was rolled.
#[derive(Clone, Debug)]
pub struct PendingAction {
    pub choice: ActionChoice,
    pub action_type: ActionType,
    pub target: ActionTarget,
    /// Whether the action belongs to a challenger and not to the player.
    pub challenger: bool,
    pub pools: Vec<DicePool>,
    pub resolution: Option<Resolution>,
}

impl PendingAction {
    /// Whether two actions differ in their pools at most.
    pub open spec fn same_but_pools(&self, other: &PendingAction) -> bool {
        &&& self.choice == other.choice
        &&& self.action_type == other.action_type
        &&& self.target == other.target
        &&& self.challenger == other.challenger
        &&& self.resolution == other.resolution
    }

    /// An action as it is published for a round: without pools and unresolved.
    pub fn new(choice: ActionChoice, action_type: ActionType, target: ActionTarget, challenger: bool) -> (r:
        Self)
        ensures
            r.choice == choice,
            r.action_type == action_type,
            r.target == target,
            r.challenger == challenger,
            r.pools@ == Seq::<DicePool>::empty(),
            r.resolution == None::<Resolution>,
    {
        PendingAction { choice, action_type, target, challenger, pools: Vec::new(), resolution: None }
    }
}

} // verus!
