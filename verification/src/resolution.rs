//! Resolving the pending actions of a round, showing the resolutions one at a
//! time, and deciding whether the encounter goes on.

use crate::actions::{ActionResult, ActionType, PendingAction, Resolution};
use crate::dice::{
    highest_roll, set_accepts, set_draws, set_highest, set_value, DicePool, Roll,
};
use crate::random::DiceRng;
use crate::sequencing::EncounterEvent;
use vstd::prelude::*;

verus! {

/// How many values resolving an action draws: those of one roll of its pool set,
/// and none where the action is resolved already.
pub open spec fn draws_to_resolve(action: &PendingAction) -> nat {
    if action.resolution is Some {
        0
    } else {
        set_draws(action.pools@)
    }
}

/// Whether `drawn` can be the values drawn by resolving the actions in order.
pub open spec fn actions_accept(actions: Seq<PendingAction>, drawn: Seq<u8>) -> bool
    decreases actions.len(),
{
    if actions.len() == 0 {
        drawn.len() == 0
    } else {
        let cut = drawn.len() - draws_to_resolve(&actions.last());
        &&& cut >= 0
        &&& actions_accept(actions.drop_last(), drawn.take(cut))
        &&& actions.last().resolution is None ==> set_accepts(actions.last().pools@, drawn.skip(cut))
    }
}

/// The resolution of each action after resolving them in order drew `drawn`: the
/// one it had, or else that of the roll of its pool set.
pub open spec fn resolutions_of(actions: Seq<PendingAction>, drawn: Seq<u8>) -> Seq<Resolution>
    decreases actions.len(),
{
    if actions.len() == 0 {
        Seq::empty()
    } else {
        let last = actions.last();
        let cut = drawn.len() - draws_to_resolve(&last);
        resolutions_of(actions.drop_last(), drawn.take(cut)).push(
            match last.resolution {
                Some(resolution) => resolution,
                None => Resolution::of(&last.choice, set_value(last.pools@, drawn.skip(cut))),
            },
        )
    }
}

/// There is one resolution for each action.
pub proof fn lemma_resolutions_len(actions: Seq<PendingAction>, drawn: Seq<u8>)
    ensures
        resolutions_of(actions, drawn).len() == actions.len(),
    decreases actions.len(),
{
    if actions.len() > 0 {
        let cut = drawn.len() - draws_to_resolve(&actions.last());
        lemma_resolutions_len(actions.drop_last(), drawn.take(cut));
    }
}

/// Actions that are all resolved draw nothing and keep their resolutions: a
/// resolution is made once and stays.
pub proof fn lemma_resolved_stay(actions: Seq<PendingAction>, drawn: Seq<u8>)
    requires
        forall|k: int| 0 <= k < actions.len() ==> (#[trigger] actions[k]).resolution is Some,
        actions_accept(actions, drawn),
    ensures
        drawn.len() == 0,
        resolutions_of(actions, drawn).len() == actions.len(),
        forall|k: int|
            0 <= k < actions.len() ==> Some(#[trigger] resolutions_of(actions, drawn)[k])
                == actions[k].resolution,
    decreases actions.len(),
{
    if actions.len() > 0 {
        let rest = actions.drop_last();
        assert forall|k: int| 0 <= k < rest.len() implies (#[trigger] rest[k]).resolution is Some by {
            assert(rest[k] == actions[k]);
        }
        assert(actions.last() == actions[actions.len() - 1]);
        assert(drawn.take(drawn.len() as int) =~= drawn);
        lemma_resolved_stay(rest, drawn);
        assert forall|k: int| 0 <= k < actions.len() implies Some(
            #[trigger] resolutions_of(actions, drawn)[k],
        ) == actions[k].resolution by {
            if k < rest.len() {
                assert(rest[k] == actions[k]);
            }
        }
    }
}

/// Whether every action that is still to be resolved can be rolled: the largest
/// sum of its pool set fits a roll result.
pub open spec fn resolvable(actions: Seq<PendingAction>) -> bool {
    forall|k: int|
        0 <= k < actions.len() && (#[trigger] actions[k]).resolution is None ==> set_highest(
            actions[k].pools@,
        ) <= u8::MAX
}

/// Tells whether the actions can be resolved.
pub fn can_resolve(actions: &Vec<PendingAction>) -> (r: bool)
    ensures
        r == resolvable(actions@),
{
    let mut i: usize = 0;
    while i < actions.len()
        invariant
            i <= actions@.len(),
            resolvable(actions@.take(i as int)),
        decreases actions@.len() - i,
    {
        if actions[i].resolution.is_none() && highest_roll(&actions[i].pools).is_none() {
            return false;
        }
        assert forall|k: int|
            0 <= k < i + 1 && (#[trigger] actions@.take(i + 1)[k]).resolution is None implies set_highest(
            actions@.take(i + 1)[k].pools@,
        ) <= u8::MAX by {
            if k < i {
                assert(actions@.take(i as int)[k] == actions@.take(i + 1)[k]);
            }
        }
        i = i + 1;
    }
    assert(actions@.take(i as int) =~= actions@);
    true
}

/// Resolves every pending action that is not resolved yet: rolls its pool set
/// once, first action first, and attaches the resolution of the roll. The pools
/// of a resolved action are used up. An action that has a resolution keeps it
/// and is not rolled again.
pub fn resolve_actions(actions: &mut Vec<PendingAction>, rng: &mut DiceRng)
    requires
        resolvable(old(actions)@),
    ensures
        final(rng).follows(old(rng)),
        actions_accept(old(actions)@, final(rng).since(old(rng))),
        final(actions)@.len() == old(actions)@.len(),
        forall|k: int|
            0 <= k < old(actions)@.len() ==> {
                &&& (#[trigger] final(actions)@[k]).resolution == Some(
                    resolutions_of(old(actions)@, final(rng).since(old(rng)))[k],
                )
                &&& final(actions)@[k].choice == old(actions)@[k].choice
                &&& final(actions)@[k].action_type == old(actions)@[k].action_type
                &&& final(actions)@[k].target == old(actions)@[k].target
                &&& final(actions)@[k].challenger == old(actions)@[k].challenger
                &&& old(actions)@[k].resolution is None ==> final(actions)@[k].pools@
                    == Seq::<DicePool>::empty()
                &&& old(actions)@[k].resolution is Some ==> final(actions)@[k] == old(actions)@[k]
            },
{
    let ghost start = rng@;
    let ghost given = actions@;
    let mut i: usize = 0;
    assert(given.take(0) =~= Seq::<PendingAction>::empty());
    assert(rng@.skip(start.len() as int) =~= Seq::<u8>::empty());
    assert(start + Seq::<u8>::empty() =~= rng@);
    while i < actions.len()
        invariant
            i <= actions@.len(),
            actions@.len() == given.len(),
            given == old(actions)@,
            rng@ == start + rng@.skip(start.len() as int),
            actions_accept(given.take(i as int), rng@.skip(start.len() as int)),
            forall|k: int| i <= k < actions@.len() ==> actions@[k] == given[k],
            forall|k: int|
                0 <= k < given.len() && (#[trigger] given[k]).resolution is None ==> set_highest(
                    given[k].pools@,
                ) <= u8::MAX,
            forall|k: int|
                0 <= k < i ==> {
                    &&& (#[trigger] actions@[k]).resolution == Some(
                        resolutions_of(given.take(i as int), rng@.skip(start.len() as int))[k],
                    )
                    &&& actions@[k].choice == given[k].choice
                    &&& actions@[k].action_type == given[k].action_type
                    &&& actions@[k].target == given[k].target
                    &&& actions@[k].challenger == given[k].challenger
                    &&& given[k].resolution is None ==> actions@[k].pools@ == Seq::<DicePool>::empty()
                    &&& given[k].resolution is Some ==> actions@[k] == given[k]
                },
        decreases actions@.len() - i,
    {
        let ghost before = rng@;
        let ghost sofar = rng@.skip(start.len() as int);
        let ghost earlier = resolutions_of(given.take(i as int), sofar);
        let ghost next = given.take(i + 1);
        proof {
            assert(next.drop_last() =~= given.take(i as int));
            assert(next.last() == given[i as int]);
            lemma_resolutions_len(given.take(i as int), sofar);
        }
        if actions[i].resolution.is_none() {
            let action = &mut actions[i];
            let roll = action.pools.roll(rng);
            let resolution = Resolution::new(&action.choice, roll);
            action.resolution = Some(resolution);
            action.pools = Vec::new();
            proof {
                let fresh = rng@.skip(before.len() as int);
                let all = rng@.skip(start.len() as int);
                assert(all =~= sofar + fresh);
                assert(start + all =~= rng@);
                assert(all.take(all.len() - fresh.len()) =~= sofar);
                assert(all.skip(all.len() - fresh.len()) =~= fresh);
                assert(resolutions_of(next, all) == earlier.push(resolution));
            }
        } else {
            proof {
                assert(sofar.take(sofar.len() as int) =~= sofar);
                assert(resolutions_of(next, sofar) == earlier.push(
                    given[i as int].resolution->Some_0,
                ));
            }
        }
        i = i + 1;
    }
    assert(given.take(i as int) =~= given);
}

/// Whether an action has a resolution that waits to be shown.
pub open spec fn is_ready(action: &PendingAction) -> bool {
    action.resolution is Some
}

/// Whether the action at `at` is the one to show next: a resolved action of a
/// challenger where there is one, and of these the last; a resolved action of
/// the player where no challenger has one, and of these the first.
pub open spec fn is_next(actions: Seq<PendingAction>, at: int) -> bool {
    &&& 0 <= at < actions.len()
    &&& is_ready(&actions[at])
    &&& if actions[at].challenger {
        forall|k: int|
            at < k < actions.len() ==> !(is_ready(&#[trigger] actions[k]) && actions[k].challenger)
    } else {
        &&& forall|k: int|
            0 <= k < actions.len() ==> !(is_ready(&#[trigger] actions[k]) && actions[k].challenger)
        &&& forall|k: int| 0 <= k < at ==> !is_ready(&#[trigger] actions[k])
    }
}

/// The place of the action to show next, if any action is resolved.
pub fn next_resolution(actions: &Vec<PendingAction>) -> (r: Option<usize>)
    ensures
        match r {
            Some(at) => is_next(actions@, at as int),
            None => forall|k: int| 0 <= k < actions@.len() ==> !is_ready(&#[trigger] actions@[k]),
        },
{
    let mut found: Option<usize> = None;
    let mut i: usize = 0;
    while i < actions.len()
        invariant
            i <= actions@.len(),
            match found {
                Some(at) => at < i && is_next(actions@.take(i as int), at as int),
                None => forall|k: int| 0 <= k < i ==> !is_ready(&#[trigger] actions@[k]),
            },
        decreases actions@.len() - i,
    {
        let ghost seen = actions@.take(i as int);
        let ghost more = actions@.take(i + 1);
        let ready = actions[i].resolution.is_some();
        let challenger = actions[i].challenger;
        assert(forall|k: int| 0 <= k < i ==> seen[k] == more[k] && seen[k] == actions@[k]);
        assert(more[i as int] == actions@[i as int]);
        if ready {
            match found {
                None => {
                    found = Some(i);
                },
                Some(at) => {
                    if challenger {
                        found = Some(i);
                    }
                },
            }
        }
        i = i + 1;
    }
    assert(actions@.take(i as int) =~= actions@);
    found
}

/// What to do about the resolutions while outcomes are shown.
#[derive(Clone, Copy, Debug, PartialEq, Eq, Structural)]
pub enum NextResolution {
    /// A resolution is being shown: wait for the player.
    Wait,
    /// The action at this place is to be shown now.
    Show(usize),
    /// No resolution is left: the round is to be checked.
    Finished,
}

/// Picks the resolution to show, one at a time: nothing new while one is shown,
/// else the next resolved action, else the end of the phase.
pub fn trigger_next_resolution(actions: &Vec<PendingAction>, active: &mut Option<usize>) -> (r:
    NextResolution)
    ensures
        *old(active) is Some ==> r == NextResolution::Wait && *final(active) == *old(active),
        *old(active) is None ==> match r {
            NextResolution::Show(at) => is_next(actions@, at as int) && *final(active) == Some(at),
            NextResolution::Finished => *final(active) == None::<usize> && forall|k: int|
                0 <= k < actions@.len() ==> !is_ready(&#[trigger] actions@[k]),
            NextResolution::Wait => false,
        },
{
    if active.is_some() {
        return NextResolution::Wait;
    }
    match next_resolution(actions) {
        Some(at) => {
            *active = Some(at);
            NextResolution::Show(at)
        },
        None => NextResolution::Finished,
    }
}

/// Clears the resolution that was shown: its action leaves the round, and the
/// slot is free for the next.
pub fn acknowledge(actions: &mut Vec<PendingAction>, active: &mut Option<usize>) -> (r: Option<
    PendingAction,
>)
    ensures
        *final(active) == None::<usize>,
        match *old(active) {
            Some(at) => if at < old(actions)@.len() {
                r == Some(old(actions)@[at as int]) && final(actions)@ == old(actions)@.remove(
                    at as int,
                )
            } else {
                r is None && final(actions)@ == old(actions)@
            },
            None => r is None && final(actions)@ == old(actions)@,
        },
{
    let shown = *active;
    *active = None;
    match shown {
        Some(at) => {
            if at < actions.len() {
                Some(actions.remove(at))
            } else {
                None
            }
        },
        None => None,
    }
}

/// Decides at the end of a round whether the encounter goes on: it does while a
/// challenger is not completed.
pub fn check_encounter_state(completed: &Vec<bool>) -> (r: EncounterEvent)
    ensures
        r == if exists|k: int| 0 <= k < completed@.len() && !completed@[k] {
            EncounterEvent::ChallengersRemain
        } else {
            EncounterEvent::ChallengersCompleted
        },
{
    let mut i: usize = 0;
    while i < completed.len()
        invariant
            i <= completed@.len(),
            forall|k: int| 0 <= k < i ==> completed@[k],
        decreases completed@.len() - i,
    {
        if !completed[i] {
            return EncounterEvent::ChallengersRemain;
        }
        i = i + 1;
    }
    EncounterEvent::ChallengersCompleted
}

/// The health a participant has left.
#[derive(Clone, Copy, Debug, PartialEq, Eq, Structural)]
pub struct CurrentHealth(pub usize);

/// The health a participant starts with.
#[derive(Clone, Copy, Debug, PartialEq, Eq, Structural)]
pub struct MaxHealth(pub usize);

impl Default for CurrentHealth {
    fn default() -> (r: Self)
        ensures
            r == CurrentHealth(0),
    {
        CurrentHealth(0)
    }
}

impl Default for MaxHealth {
    fn default() -> (r: Self)
        ensures
            r == MaxHealth(0),
    {
        MaxHealth(0)
    }
}

impl CurrentHealth {
    /// Takes `damage` off, down to zero at most.
    pub fn take_damage(&mut self, damage: usize)
        ensures
            final(self).0 == if old(self).0 >= damage {
                old(self).0 - damage
            } else {
                0
            },
    {
        if self.0 >= damage {
            self.0 = self.0 - damage;
        } else {
            self.0 = 0;
        }
    }

    /// Whether nothing is left: a player in this state has failed, a challenger
    /// is completed.
    pub fn is_spent(&self) -> (r: bool)
        ensures
            r == (self.0 == 0),
    {
        self.0 == 0
    }
}

/// The damage an attack of `base_damage` deals for an outcome.
///
/// The player's attack deals its base damage on a success and twice that on a
/// critical success. A challenger's attack is rolled by the player as a defence:
/// it deals its base damage on a fail and twice that on a critical fail. Every
/// other outcome deals nothing.
pub open spec fn damage_of(result: ActionResult, base_damage: u8, challenger: bool) -> int {
    match (challenger, result) {
        (true, ActionResult::CriticalFail) => 2 * base_damage,
        (true, ActionResult::Fail) => base_damage as int,
        (false, ActionResult::Success) => base_damage as int,
        (false, ActionResult::CriticalSuccess) => 2 * base_damage,
        _ => 0,
    }
}

/// The damage that a resolved action deals; only attacks deal any.
pub fn attack_damage(resolution: &Resolution, action_type: &ActionType, challenger: bool) -> (r:
    usize)
    ensures
        r == match *action_type {
            ActionType::Attack { base_damage } => damage_of(
                resolution.result,
                base_damage,
                challenger,
            ),
            ActionType::Text => 0,
        },
{
    match action_type {
        ActionType::Text => 0,
        ActionType::Attack { base_damage } => {
            let base: usize = *base_damage as usize;
            if challenger {
                match resolution.result {
                    ActionResult::CriticalFail => base * 2,
                    ActionResult::Fail => base,
                    ActionResult::Success => 0,
                    ActionResult::CriticalSuccess => 0,
                }
            } else {
                match resolution.result {
                    ActionResult::CriticalFail => 0,
                    ActionResult::Fail => 0,
                    ActionResult::Success => base,
                    ActionResult::CriticalSuccess => base * 2,
                }
            }
        },
    }
}

} // verus!
