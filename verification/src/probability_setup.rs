//! The setup phase: the player spends powers on the dice pools of the pending
//! actions, and confirms.

use crate::actions::PendingAction;
use crate::dice::DicePool;
use crate::powers::{pools_of, Power, PowerTargetingType};
use vstd::prelude::*;

verus! {

/// What the player can press during setup. Powers, actions and pools are named by
/// their place: a power in the list of available powers, an action in the list of
/// pending actions, a pool in the pool set of its action.
#[derive(Clone, Copy, Debug, PartialEq, Eq, Structural)]
pub enum Buttons {
    Resolve,
    Power(usize),
    Pool { pool: usize, action: usize },
    Action(usize),
}

impl Default for Buttons {
    fn default() -> (r: Self)
        ensures
            r == Buttons::Resolve,
    {
        Buttons::Resolve
    }
}

/// What the player is choosing: a power, or the target of the power chosen. The
/// target state holds what the power is aimed at, its place among the available
/// powers, and the power itself.
#[derive(Clone, Copy, Debug, PartialEq, Eq, Structural)]
pub enum TargetingTypes {
    SelectPower,
    PowerTarget(PowerTargetingType, usize, Power),
}

impl Default for TargetingTypes {
    fn default() -> (r: Self)
        ensures
            r == TargetingTypes::SelectPower,
    {
        TargetingTypes::SelectPower
    }
}

/// What a press did.
#[derive(Clone, Copy, Debug, PartialEq, Eq, Structural)]
pub enum SetupOutcome {
    /// Nothing changed.
    Ignored,
    /// The player backed out of choosing a target.
    Deselected,
    /// A power was chosen and awaits its target.
    Targeting,
    /// A power was spent on the action at this place, whose pools changed.
    Applied { action: usize },
    /// The player confirmed the pools: the actions are to be resolved.
    Confirmed,
}

impl TargetingTypes {
    /// Whether `button` can be pressed in this state: the resolve button always,
    /// powers while one is to be chosen, and while a target is to be chosen the
    /// kind of target that the power is aimed at.
    pub open spec fn focusable(self, button: Buttons) -> bool {
        match (self, button) {
            (_, Buttons::Resolve) => true,
            (TargetingTypes::SelectPower, Buttons::Power(_)) => true,
            (TargetingTypes::PowerTarget(PowerTargetingType::Action, _, _), Buttons::Action(_)) => true,
            (
                TargetingTypes::PowerTarget(PowerTargetingType::Single, _, _),
                Buttons::Pool { pool: _, action: _ },
            ) => true,
            _ => false,
        }
    }

    /// What the resolve button says in this state: it confirms while a power is to
    /// be chosen, and backs out while a target is.
    pub fn resolve_label(&self) -> (r: &'static str)
        ensures
            r@ == match *self {
                TargetingTypes::SelectPower => "Resolve"@,
                TargetingTypes::PowerTarget(_, _, _) => "De-Select"@,
            },
    {
        match self {
            TargetingTypes::SelectPower => "Resolve",
            TargetingTypes::PowerTarget(_, _, _) => "De-Select",
        }
    }

    /// Tells whether `button` can be pressed in this state.
    pub fn accepts(&self, button: &Buttons) -> (r: bool)
        ensures
            r == self.focusable(*button),
    {
        match self {
            TargetingTypes::SelectPower => match button {
                Buttons::Resolve | Buttons::Power(_) => true,
                _ => false,
            },
            TargetingTypes::PowerTarget(targeting_type, _, _) => match targeting_type {
                PowerTargetingType::Action => match button {
                    Buttons::Resolve | Buttons::Action(_) => true,
                    _ => false,
                },
                _ => match button {
                    Buttons::Resolve | Buttons::Pool { pool: _, action: _ } => true,
                    _ => false,
                },
            },
        }
    }
}

/// The pool set of each action, in the order of the actions.
pub open spec fn pool_sets(actions: Seq<PendingAction>) -> Seq<Seq<DicePool>> {
    actions.map_values(|a: PendingAction| a.pools@)
}

/// A pool set in which `made` stands in the place of the pool at `at`.
pub open spec fn replaced(pools: Seq<DicePool>, at: int, made: Seq<DicePool>) -> Seq<DicePool> {
    pools.take(at) + made + pools.skip(at + 1)
}

/// The setup phase as contracts see it: what the player is choosing, the powers
/// left to spend, and the pool set of each pending action.
pub struct SetupState {
    pub targeting: TargetingTypes,
    pub powers: Seq<Power>,
    pub pools: Seq<Seq<DicePool>>,
}

impl SetupState {
    /// Whether the power at `at` is still available and is `power`.
    pub open spec fn holds(self, at: usize, power: Power) -> bool {
        at < self.powers.len() && self.powers[at as int] == power
    }

    /// The state after the power at `at` was spent to turn the pool set of
    /// `action` into `pools`.
    pub open spec fn spent(self, at: usize, action: usize, pools: Seq<DicePool>) -> SetupState {
        SetupState {
            targeting: TargetingTypes::SelectPower,
            powers: self.powers.remove(at as int),
            pools: self.pools.update(action as int, pools),
        }
    }

    /// The state that a press leads to, and what the press did.
    ///
    /// The resolve button backs out of choosing a target, or else confirms. A
    /// power button chooses an available power. A pool button spends the chosen
    /// power on that pool, whose place its output takes, and an action button
    /// spends it on that action, whose pool set its output joins at the end; both
    /// only where the power is aimed at such a target, is still available, and is
    /// valid for it. Every other press changes nothing.
    pub open spec fn press(self, button: Buttons) -> (SetupState, SetupOutcome) {
        match (button, self.targeting) {
            (Buttons::Resolve, TargetingTypes::PowerTarget(_, _, _)) => (
                SetupState { targeting: TargetingTypes::SelectPower, ..self },
                SetupOutcome::Deselected,
            ),
            (Buttons::Resolve, TargetingTypes::SelectPower) => (self, SetupOutcome::Confirmed),
            (Buttons::Power(at), _) => if at < self.powers.len() {
                (
                    SetupState {
                        targeting: TargetingTypes::PowerTarget(
                            self.powers[at as int].targeting(),
                            at,
                            self.powers[at as int],
                        ),
                        ..self
                    },
                    SetupOutcome::Targeting,
                )
            } else {
                (self, SetupOutcome::Ignored)
            },
            (
                Buttons::Pool { pool, action },
                TargetingTypes::PowerTarget(PowerTargetingType::Single, at, power),
            ) => if action < self.pools.len() && pool < self.pools[action as int].len()
                && self.holds(at, power) && power.valid(seq![self.pools[action as int][pool as int]]) {
                (
                    self.spent(
                        at,
                        action,
                        replaced(
                            self.pools[action as int],
                            pool as int,
                            power.applied(seq![self.pools[action as int][pool as int]]),
                        ),
                    ),
                    SetupOutcome::Applied { action },
                )
            } else {
                (self, SetupOutcome::Ignored)
            },
            (
                Buttons::Action(action),
                TargetingTypes::PowerTarget(PowerTargetingType::Action, at, power),
            ) => if action < self.pools.len() && self.holds(at, power) && power.valid(Seq::empty()) {
                (
                    self.spent(
                        at,
                        action,
                        self.pools[action as int] + power.applied(Seq::empty()),
                    ),
                    SetupOutcome::Applied { action },
                )
            } else {
                (self, SetupOutcome::Ignored)
            },
            _ => (self, SetupOutcome::Ignored),
        }
    }
}

/// The setup state that the three parts held by the caller stand for.
pub open spec fn setup_state(
    targeting: TargetingTypes,
    powers: Seq<Power>,
    actions: Seq<PendingAction>,
) -> SetupState {
    SetupState { targeting, powers, pools: pool_sets(actions) }
}

/// A press on a button that cannot be pressed in the current state spends no
/// power and changes no pool.
pub proof fn lemma_blocked_press_keeps_pools(state: SetupState, button: Buttons)
    requires
        !state.targeting.focusable(button),
    ensures
        state.press(button).0.powers == state.powers,
        state.press(button).0.pools == state.pools,
        !(state.press(button).1 is Applied),
        !(state.press(button).1 is Confirmed),
{
}

/// A power is spent exactly when it is applied: the list of available powers
/// loses the chosen power and keeps the others in order, and otherwise stays.
pub proof fn lemma_press_spends_one_power(state: SetupState, button: Buttons)
    ensures
        state.press(button).1 is Applied ==> state.targeting is PowerTarget
            && state.press(button).0.powers == state.powers.remove(
            state.targeting->PowerTarget_1 as int,
        ) && state.press(button).0.powers.len() + 1 == state.powers.len(),
        !(state.press(button).1 is Applied) ==> state.press(button).0.powers == state.powers
            && state.press(button).0.pools == state.pools,
{
}

/// A power spent on an action adds exactly one pool at the end of the pool set of
/// that action and replaces nothing; the other pool sets stay as they are.
pub proof fn lemma_action_power_adds_a_pool(state: SetupState, action: usize)
    requires
        state.press(Buttons::Action(action)).1 is Applied,
    ensures
        action < state.pools.len(),
        state.press(Buttons::Action(action)).0.pools.len() == state.pools.len(),
        state.press(Buttons::Action(action)).0.pools[action as int].len()
            == state.pools[action as int].len() + 1,
        state.press(Buttons::Action(action)).0.pools[action as int].drop_last()
            == state.pools[action as int],
        forall|k: int|
            0 <= k < state.pools.len() && k != action ==> state.press(
                Buttons::Action(action),
            ).0.pools[k] == state.pools[k],
{
    let after = state.press(Buttons::Action(action)).0.pools[action as int];
    assert(after.drop_last() =~= state.pools[action as int]);
}

/// A power spent on a pool puts its output in the place of that pool: the pools
/// before and after the target keep their order, and the other pool sets stay as
/// they are.
pub proof fn lemma_pool_power_replaces_its_target(state: SetupState, pool: usize, action: usize)
    requires
        state.press(Buttons::Pool { pool, action }).1 is Applied,
    ensures
        action < state.pools.len(),
        pool < state.pools[action as int].len(),
        state.targeting is PowerTarget,
        ({
            let before = state.pools[action as int];
            let after = state.press(Buttons::Pool { pool, action }).0.pools[action as int];
            let made = state.targeting->PowerTarget_2.applied(seq![before[pool as int]]);
            &&& 1 <= made.len() <= 2
            &&& after.len() == before.len() - 1 + made.len()
            &&& after.take(pool as int) == before.take(pool as int)
            &&& after.subrange(pool as int, pool + made.len()) == made
            &&& after.skip(pool + made.len()) == before.skip(pool + 1)
        }),
        forall|k: int|
            0 <= k < state.pools.len() && k != action ==> state.press(
                Buttons::Pool { pool, action },
            ).0.pools[k] == state.pools[k],
{
    let before = state.pools[action as int];
    let after = state.press(Buttons::Pool { pool, action }).0.pools[action as int];
    let power = state.targeting->PowerTarget_2;
    let made = power.applied(seq![before[pool as int]]);
    match power {
        Power::SplitDice => {
            crate::powers::lemma_split_applied(seq![before[pool as int]]);
        },
        Power::Advantage => {
            crate::powers::lemma_advantage_applied(seq![before[pool as int]]);
        },
        _ => {},
    }
    assert(after.take(pool as int) =~= before.take(pool as int));
    assert(after.subrange(pool as int, pool + made.len()) =~= made);
    assert(after.skip(pool + made.len()) =~= before.skip(pool + 1));
}

/// Gives every action the pools that its definition starts with.
pub fn setup_initial_pools(actions: &mut Vec<PendingAction>)
    ensures
        final(actions)@.len() == old(actions)@.len(),
        forall|k: int|
            0 <= k < old(actions)@.len() ==> {
                &&& (#[trigger] final(actions)@[k]).same_but_pools(&old(actions)@[k])
                &&& final(actions)@[k].pools@ == old(actions)@[k].choice.dice_pool@
            },
{
    let mut i: usize = 0;
    while i < actions.len()
        invariant
            i <= actions@.len(),
            actions@.len() == old(actions)@.len(),
            forall|k: int|
                0 <= k < i ==> {
                    &&& (#[trigger] actions@[k]).same_but_pools(&old(actions)@[k])
                    &&& actions@[k].pools@ == old(actions)@[k].choice.dice_pool@
                },
            forall|k: int| i <= k < actions@.len() ==> actions@[k] == old(actions)@[k],
        decreases actions@.len() - i,
    {
        let action = &mut actions[i];
        action.pools = action.choice.dice_pool.to_vec();
        i = i + 1;
    }
}

/// The pool set in which `made` stands in the place of the pool at `at`.
fn splice(pools: &Vec<DicePool>, at: usize, made: &Vec<DicePool>) -> (r: Vec<DicePool>)
    requires
        at < pools@.len(),
    ensures
        r@ == replaced(pools@, at as int, made@),
{
    let mut out: Vec<DicePool> = Vec::new();
    let mut i: usize = 0;
    while i < at
        invariant
            i <= at < pools@.len(),
            out@ == pools@.take(i as int),
        decreases at - i,
    {
        out.push(pools[i]);
        assert(out@ =~= pools@.take(i + 1));
        i = i + 1;
    }
    let mut j: usize = 0;
    while j < made.len()
        invariant
            j <= made@.len(),
            at < pools@.len(),
            out@ == pools@.take(at as int) + made@.take(j as int),
        decreases made@.len() - j,
    {
        out.push(made[j]);
        assert(out@ =~= pools@.take(at as int) + made@.take(j + 1));
        j = j + 1;
    }
    assert(made@.take(j as int) =~= made@);
    let len = pools.len();
    let mut k: usize = at + 1;
    while k < len
        invariant
            len == pools@.len(),
            at < k <= pools@.len(),
            out@ == pools@.take(at as int) + made@ + pools@.subrange(at + 1, k as int),
        decreases pools@.len() - k,
    {
        out.push(pools[k]);
        assert(out@ =~= pools@.take(at as int) + made@ + pools@.subrange(at + 1, k + 1));
        k = k + 1;
    }
    assert(pools@.subrange(at + 1, k as int) =~= pools@.skip(at + 1));
    out
}

/// The pool set with `made` added at its end.
fn extend(pools: &Vec<DicePool>, made: &Vec<DicePool>) -> (r: Vec<DicePool>)
    ensures
        r@ == pools@ + made@,
{
    let mut out: Vec<DicePool> = Vec::new();
    let mut i: usize = 0;
    while i < pools.len()
        invariant
            i <= pools@.len(),
            out@ == pools@.take(i as int),
        decreases pools@.len() - i,
    {
        out.push(pools[i]);
        assert(out@ =~= pools@.take(i + 1));
        i = i + 1;
    }
    assert(pools@.take(i as int) =~= pools@);
    let mut j: usize = 0;
    while j < made.len()
        invariant
            j <= made@.len(),
            out@ == pools@ + made@.take(j as int),
        decreases made@.len() - j,
    {
        out.push(made[j]);
        assert(out@ =~= pools@ + made@.take(j + 1));
        j = j + 1;
    }
    assert(made@.take(j as int) =~= made@);
    out
}

/// Spends the power at `at` on `action`, whose pool set becomes `pools`.
fn spend(
    targeting: &mut TargetingTypes,
    powers: &mut Vec<Power>,
    actions: &mut Vec<PendingAction>,
    at: usize,
    action: usize,
    pools: Vec<DicePool>,
)
    requires
        at < old(powers)@.len(),
        action < old(actions)@.len(),
    ensures
        setup_state(*final(targeting), final(powers)@, final(actions)@) == setup_state(
            *old(targeting),
            old(powers)@,
            old(actions)@,
        ).spent(at, action, pools@),
        final(actions)@.len() == old(actions)@.len(),
        forall|k: int|
            0 <= k < old(actions)@.len() ==> (#[trigger] final(actions)@[k]).same_but_pools(
                &old(actions)@[k],
            ),
{
    let ghost made = pools@;
    *targeting = TargetingTypes::SelectPower;
    powers.remove(at);
    let entry = &mut actions[action];
    entry.pools = pools;
    assert(pool_sets(actions@) =~= pool_sets(old(actions)@).update(action as int, made));
}

/// Handles one press of a button.
///
/// The three parts change as [`SetupState::press`] says, and nothing else of an
/// action changes than its pools.
pub fn process_input(
    targeting: &mut TargetingTypes,
    powers: &mut Vec<Power>,
    actions: &mut Vec<PendingAction>,
    button: Buttons,
) -> (outcome: SetupOutcome)
    ensures
        (setup_state(*final(targeting), final(powers)@, final(actions)@), outcome) == setup_state(
            *old(targeting),
            old(powers)@,
            old(actions)@,
        ).press(button),
        final(actions)@.len() == old(actions)@.len(),
        forall|k: int|
            0 <= k < old(actions)@.len() ==> (#[trigger] final(actions)@[k]).same_but_pools(
                &old(actions)@[k],
            ),
{
    let current = *targeting;
    match button {
        Buttons::Resolve => match current {
            TargetingTypes::PowerTarget(_, _, _) => {
                *targeting = TargetingTypes::SelectPower;
                SetupOutcome::Deselected
            },
            TargetingTypes::SelectPower => SetupOutcome::Confirmed,
        },
        Buttons::Power(at) => {
            if at < powers.len() {
                let power = powers[at];
                *targeting = TargetingTypes::PowerTarget(power.targets(), at, power);
                SetupOutcome::Targeting
            } else {
                SetupOutcome::Ignored
            }
        },
        Buttons::Pool { pool, action } => match current {
            TargetingTypes::PowerTarget(PowerTargetingType::Single, at, power) => {
                if action < actions.len() && pool < actions[action].pools.len() && at
                    < powers.len() && powers[at] == power {
                    let target = actions[action].pools[pool];
                    let candidates = [&target];
                    assert(pools_of(&candidates) =~= seq![target]);
                    if power.valid_targets(&candidates) {
                        let made = power.apply(&candidates);
                        let pools = splice(&actions[action].pools, pool, &made);
                        spend(targeting, powers, actions, at, action, pools);
                        SetupOutcome::Applied { action }
                    } else {
                        SetupOutcome::Ignored
                    }
                } else {
                    SetupOutcome::Ignored
                }
            },
            _ => SetupOutcome::Ignored,
        },
        Buttons::Action(action) => match current {
            TargetingTypes::PowerTarget(PowerTargetingType::Action, at, power) => {
                if action < actions.len() && at < powers.len() && powers[at] == power {
                    let candidates: [&DicePool; 0] = [];
                    assert(pools_of(&candidates) =~= Seq::<DicePool>::empty());
                    if power.valid_targets(&candidates) {
                        let made = power.apply(&candidates);
                        let pools = extend(&actions[action].pools, &made);
                        spend(targeting, powers, actions, at, action, pools);
                        SetupOutcome::Applied { action }
                    } else {
                        SetupOutcome::Ignored
                    }
                } else {
                    SetupOutcome::Ignored
                }
            },
            _ => SetupOutcome::Ignored,
        },
    }
}

} // verus!
