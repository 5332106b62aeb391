use bevy_turborand::prelude::Rng;
use bevy_turborand::SeededCore;
use dice_engine::actions::{
    ActionChoice, ActionResult, ActionTarget, ActionType, PendingAction, Resolution,
};
use dice_engine::dice::{DicePool, Roll};
use dice_engine::random::DiceRng;
use dice_engine::resolution::{
    acknowledge, attack_damage, check_encounter_state, next_resolution, resolve_actions,
    trigger_next_resolution, CurrentHealth, MaxHealth, NextResolution,
};
use dice_engine::sequencing::{EncounterEvent, EncounterState};

fn seeded(seed: u64) -> DiceRng {
    DiceRng::new(Rng::with_seed(seed))
}

fn action(challenger: bool, pools: Vec<DicePool>) -> PendingAction {
    let mut action =
        PendingAction::new(ActionChoice::default(), ActionType::Text, ActionTarget(None), challenger);
    action.pools = pools;
    action
}

fn resolved(challenger: bool) -> PendingAction {
    let mut action = action(challenger, Vec::new());
    action.resolution = Some(Resolution::new(&action.choice, 7));
    action
}

fn outcome(result: ActionResult) -> Resolution {
    Resolution { roll: 0, result, gap: 0 }
}

#[test]
fn every_action_is_rolled_once_in_order() {
    let sets = vec![
        vec![DicePool::d12()],
        Vec::new(),
        vec![DicePool::d6().advantage(), DicePool::bonus(2)],
    ];
    let mut actions: Vec<PendingAction> =
        sets.iter().map(|pools| action(false, pools.clone())).collect();
    resolve_actions(&mut actions, &mut seeded(21));
    let mut rng = seeded(21);
    for (resolved, pools) in actions.iter().zip(sets.iter()) {
        let roll = pools.roll(&mut rng);
        assert_eq!(resolved.resolution, Some(Resolution::new(&resolved.choice, roll)));
        assert!(resolved.pools.is_empty());
    }
    assert_eq!(actions[1].resolution.unwrap().roll, 1);
    assert_eq!(actions[1].resolution.unwrap().result, ActionResult::CriticalFail);
}

#[test]
fn resolving_no_action_draws_nothing() {
    let mut actions: Vec<PendingAction> = Vec::new();
    let mut used = seeded(2);
    resolve_actions(&mut actions, &mut used);
    assert!(actions.is_empty());
    assert_eq!(DicePool::d12().roll(&mut used), DicePool::d12().roll(&mut seeded(2)));
}

#[test]
fn challengers_are_shown_before_the_player() {
    let actions = vec![resolved(false), resolved(true), resolved(false), resolved(true), resolved(false)];
    assert_eq!(next_resolution(&actions), Some(3));
    let actions = vec![resolved(true), resolved(false)];
    assert_eq!(next_resolution(&actions), Some(0));
    let actions = vec![resolved(false), resolved(false)];
    assert_eq!(next_resolution(&actions), Some(0));
    let actions = vec![action(true, Vec::new()), resolved(false), resolved(false)];
    assert_eq!(next_resolution(&actions), Some(1));
    let actions = vec![action(true, Vec::new()), action(false, Vec::new())];
    assert_eq!(next_resolution(&actions), None);
    assert_eq!(next_resolution(&Vec::new()), None);
}

#[test]
fn resolutions_are_shown_one_at_a_time() {
    let mut actions = vec![resolved(false), resolved(true)];
    let mut active = None;
    assert_eq!(trigger_next_resolution(&actions, &mut active), NextResolution::Show(1));
    assert_eq!(active, Some(1));
    assert_eq!(trigger_next_resolution(&actions, &mut active), NextResolution::Wait);
    assert_eq!(active, Some(1));
    let shown = acknowledge(&mut actions, &mut active).unwrap();
    assert!(shown.challenger);
    assert_eq!(active, None);
    assert_eq!(actions.len(), 1);
    assert_eq!(trigger_next_resolution(&actions, &mut active), NextResolution::Show(0));
    assert!(!acknowledge(&mut actions, &mut active).unwrap().challenger);
    assert!(actions.is_empty());
    assert_eq!(trigger_next_resolution(&actions, &mut active), NextResolution::Finished);
    assert_eq!(active, None);
    assert!(acknowledge(&mut actions, &mut active).is_none());
}

#[test]
fn acknowledging_a_place_that_is_gone_only_frees_the_slot() {
    let mut actions = vec![resolved(false)];
    let mut active = Some(5);
    assert!(acknowledge(&mut actions, &mut active).is_none());
    assert_eq!(active, None);
    assert_eq!(actions.len(), 1);
}

#[test]
fn the_encounter_goes_on_while_a_challenger_stands() {
    assert_eq!(check_encounter_state(&vec![true, false, true]), EncounterEvent::ChallengersRemain);
    assert_eq!(check_encounter_state(&vec![false]), EncounterEvent::ChallengersRemain);
    assert_eq!(check_encounter_state(&vec![true, true]), EncounterEvent::ChallengersCompleted);
    assert_eq!(check_encounter_state(&Vec::new()), EncounterEvent::ChallengersCompleted);
    let check = EncounterState::CheckEncounterResolution;
    assert_eq!(check.advance(check_encounter_state(&vec![false])), EncounterState::ActionChoice);
    assert_eq!(check.advance(check_encounter_state(&vec![true])), EncounterState::EncounterResolved);
}

#[test]
fn attacks_of_the_player_hit_on_success() {
    let attack = ActionType::Attack { base_damage: 3 };
    assert_eq!(attack_damage(&outcome(ActionResult::CriticalFail), &attack, false), 0);
    assert_eq!(attack_damage(&outcome(ActionResult::Fail), &attack, false), 0);
    assert_eq!(attack_damage(&outcome(ActionResult::Success), &attack, false), 3);
    assert_eq!(attack_damage(&outcome(ActionResult::CriticalSuccess), &attack, false), 6);
}

#[test]
fn attacks_of_a_challenger_hit_on_failure() {
    let attack = ActionType::Attack { base_damage: 3 };
    assert_eq!(attack_damage(&outcome(ActionResult::CriticalFail), &attack, true), 6);
    assert_eq!(attack_damage(&outcome(ActionResult::Fail), &attack, true), 3);
    assert_eq!(attack_damage(&outcome(ActionResult::Success), &attack, true), 0);
    assert_eq!(attack_damage(&outcome(ActionResult::CriticalSuccess), &attack, true), 0);
}

#[test]
fn damage_at_the_bounds() {
    let heavy = ActionType::Attack { base_damage: 255 };
    assert_eq!(attack_damage(&outcome(ActionResult::CriticalSuccess), &heavy, false), 510);
    assert_eq!(attack_damage(&outcome(ActionResult::Fail), &heavy, true), 255);
    let none = ActionType::Attack { base_damage: 0 };
    assert_eq!(attack_damage(&outcome(ActionResult::CriticalFail), &none, true), 0);
    for result in [
        ActionResult::CriticalFail,
        ActionResult::Fail,
        ActionResult::Success,
        ActionResult::CriticalSuccess,
    ] {
        assert_eq!(attack_damage(&outcome(result), &ActionType::Text, true), 0);
        assert_eq!(attack_damage(&outcome(result), &ActionType::Text, false), 0);
    }
}

#[test]
fn health_stops_at_zero() {
    let mut health = CurrentHealth(5);
    assert!(!health.is_spent());
    health.take_damage(2);
    assert_eq!(health, CurrentHealth(3));
    health.take_damage(0);
    assert_eq!(health, CurrentHealth(3));
    health.take_damage(9);
    assert_eq!(health, CurrentHealth(0));
    assert!(health.is_spent());
    health.take_damage(1);
    assert_eq!(health, CurrentHealth(0));
    let mut exact = CurrentHealth(4);
    exact.take_damage(4);
    assert!(exact.is_spent());
    assert_eq!(CurrentHealth::default(), CurrentHealth(0));
    assert_eq!(MaxHealth::default(), MaxHealth(0));
}

#[test]
fn a_resolution_is_made_once() {
    let mut actions = vec![action(false, vec![DicePool::d12()]), resolved(true)];
    actions[1].pools = vec![DicePool::d6()];
    let kept = actions[1].resolution;
    resolve_actions(&mut actions, &mut seeded(4));
    let first = actions[0].resolution;
    assert_eq!(first.unwrap().roll, DicePool::d12().roll(&mut seeded(4)));
    assert_eq!(actions[1].resolution, kept);
    assert_eq!(actions[1].pools, vec![DicePool::d6()]);
    let mut used = seeded(9);
    resolve_actions(&mut actions, &mut used);
    assert_eq!(actions[0].resolution, first);
    assert_eq!(actions[1].resolution, kept);
    assert_eq!(DicePool::d12().roll(&mut used), DicePool::d12().roll(&mut seeded(9)));
}

#[test]
fn tiers_have_their_words() {
    assert_eq!(ActionResult::CriticalFail.label(), "Failed Badly");
    assert_eq!(ActionResult::Fail.label(), "Failed");
    assert_eq!(ActionResult::Success.label(), "Succeeded!");
    assert_eq!(ActionResult::CriticalSuccess.label(), "Amazing Success!");
}
