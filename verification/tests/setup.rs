use dice_engine::actions::{ActionChoice, ActionTarget, ActionType, PendingAction};
use dice_engine::dice::{DicePool, DiceType, InitialPools};
use dice_engine::powers::{Power, PowerTargetingType};
use dice_engine::probability_setup::{
    process_input, setup_initial_pools, Buttons, SetupOutcome, TargetingTypes,
};

fn action(pools: Vec<DicePool>) -> PendingAction {
    let mut action = PendingAction::new(
        ActionChoice { dice_pool: InitialPools::new(pools.clone()), ..ActionChoice::default() },
        ActionType::Text,
        ActionTarget(None),
        false,
    );
    action.pools = pools;
    action
}

fn pools_of(actions: &[PendingAction]) -> Vec<Vec<DicePool>> {
    actions.iter().map(|action| action.pools.clone()).collect()
}

#[test]
fn defaults_of_the_setup() {
    assert_eq!(Buttons::default(), Buttons::Resolve);
    assert_eq!(TargetingTypes::default(), TargetingTypes::SelectPower);
}

#[test]
fn initial_pools_are_copied_to_every_action() {
    let mut actions = vec![
        PendingAction::new(ActionChoice::default(), ActionType::Text, ActionTarget(None), true),
        PendingAction::new(
            ActionChoice {
                dice_pool: InitialPools::new(vec![DicePool::d4(), DicePool::bonus(2)]),
                ..ActionChoice::default()
            },
            ActionType::Attack { base_damage: 1 },
            ActionTarget(Some(3)),
            false,
        ),
    ];
    setup_initial_pools(&mut actions);
    assert_eq!(actions[0].pools, vec![DicePool::d12()]);
    assert_eq!(actions[1].pools, vec![DicePool::d4(), DicePool::bonus(2)]);
    assert!(actions[0].challenger && !actions[1].challenger);
    assert_eq!(actions[1].target, ActionTarget(Some(3)));
    assert_eq!(actions[1].resolution, None);
}

#[test]
fn focus_follows_the_targeting_state() {
    let select = TargetingTypes::SelectPower;
    let single = TargetingTypes::PowerTarget(PowerTargetingType::Single, 0, Power::SplitDice);
    let whole = TargetingTypes::PowerTarget(PowerTargetingType::Action, 0, Power::StaticBonus(1));
    let pool = Buttons::Pool { pool: 0, action: 0 };
    for state in [select, single, whole] {
        assert!(state.accepts(&Buttons::Resolve));
    }
    assert!(select.accepts(&Buttons::Power(4)));
    assert!(!select.accepts(&pool));
    assert!(!select.accepts(&Buttons::Action(0)));
    assert!(single.accepts(&pool));
    assert!(!single.accepts(&Buttons::Power(0)));
    assert!(!single.accepts(&Buttons::Action(0)));
    assert!(whole.accepts(&Buttons::Action(1)));
    assert!(!whole.accepts(&Buttons::Power(0)));
    assert!(!whole.accepts(&pool));
}

#[test]
fn resolve_confirms_or_deselects() {
    let mut powers = vec![Power::SplitDice];
    let mut actions = vec![action(vec![DicePool::d12()])];
    let mut targeting = TargetingTypes::SelectPower;
    assert_eq!(
        process_input(&mut targeting, &mut powers, &mut actions, Buttons::Resolve),
        SetupOutcome::Confirmed
    );
    assert_eq!(targeting, TargetingTypes::SelectPower);
    assert_eq!(
        process_input(&mut targeting, &mut powers, &mut actions, Buttons::Power(0)),
        SetupOutcome::Targeting
    );
    assert_eq!(
        targeting,
        TargetingTypes::PowerTarget(PowerTargetingType::Single, 0, Power::SplitDice)
    );
    assert_eq!(
        process_input(&mut targeting, &mut powers, &mut actions, Buttons::Resolve),
        SetupOutcome::Deselected
    );
    assert_eq!(targeting, TargetingTypes::SelectPower);
    assert_eq!(powers, vec![Power::SplitDice]);
    assert_eq!(pools_of(&actions), vec![vec![DicePool::d12()]]);
}

#[test]
fn a_power_that_is_not_there_cannot_be_chosen() {
    let mut powers = vec![Power::Advantage];
    let mut actions = vec![action(vec![DicePool::d12()])];
    let mut targeting = TargetingTypes::SelectPower;
    assert_eq!(
        process_input(&mut targeting, &mut powers, &mut actions, Buttons::Power(1)),
        SetupOutcome::Ignored
    );
    assert_eq!(targeting, TargetingTypes::SelectPower);
}

#[test]
fn split_takes_the_place_of_its_target() {
    let mut powers = vec![Power::Advantage, Power::SplitDice, Power::StaticBonus(2)];
    let mut actions = vec![
        action(vec![DicePool::d4()]),
        action(vec![DicePool::d6(), DicePool::d12().advantage(), DicePool::bonus(1)]),
    ];
    let mut targeting = TargetingTypes::SelectPower;
    process_input(&mut targeting, &mut powers, &mut actions, Buttons::Power(1));
    let outcome = process_input(
        &mut targeting,
        &mut powers,
        &mut actions,
        Buttons::Pool { pool: 1, action: 1 },
    );
    assert_eq!(outcome, SetupOutcome::Applied { action: 1 });
    assert_eq!(targeting, TargetingTypes::SelectPower);
    assert_eq!(powers, vec![Power::Advantage, Power::StaticBonus(2)]);
    assert_eq!(
        pools_of(&actions),
        vec![
            vec![DicePool::d4()],
            vec![
                DicePool::d6(),
                DicePool::d6().advantage(),
                DicePool::d6().advantage(),
                DicePool::bonus(1)
            ],
        ]
    );
}

#[test]
fn advantage_changes_its_target_in_place() {
    let mut powers = vec![Power::Advantage];
    let mut actions = vec![action(vec![DicePool::d4(), DicePool::d8()])];
    let mut targeting = TargetingTypes::SelectPower;
    process_input(&mut targeting, &mut powers, &mut actions, Buttons::Power(0));
    let outcome = process_input(
        &mut targeting,
        &mut powers,
        &mut actions,
        Buttons::Pool { pool: 0, action: 0 },
    );
    assert_eq!(outcome, SetupOutcome::Applied { action: 0 });
    assert!(powers.is_empty());
    assert_eq!(pools_of(&actions), vec![vec![DicePool::d4().advantage(), DicePool::d8()]]);
}

#[test]
fn an_invalid_target_changes_nothing() {
    let mut powers = vec![Power::SplitDice, Power::Advantage];
    let mut actions =
        vec![action(vec![DicePool::d2(), DicePool::bonus(3), DicePool::d6().advantage()])];
    let before = pools_of(&actions);
    let mut targeting = TargetingTypes::SelectPower;
    process_input(&mut targeting, &mut powers, &mut actions, Buttons::Power(0));
    let chosen = targeting;
    for pool in [0usize, 1, 3] {
        let outcome = process_input(
            &mut targeting,
            &mut powers,
            &mut actions,
            Buttons::Pool { pool, action: 0 },
        );
        assert_eq!(outcome, SetupOutcome::Ignored);
        assert_eq!(targeting, chosen);
    }
    assert_eq!(
        process_input(&mut targeting, &mut powers, &mut actions, Buttons::Pool { pool: 0, action: 4 }),
        SetupOutcome::Ignored
    );
    assert_eq!(
        process_input(&mut targeting, &mut powers, &mut actions, Buttons::Action(0)),
        SetupOutcome::Ignored
    );
    process_input(&mut targeting, &mut powers, &mut actions, Buttons::Resolve);
    process_input(&mut targeting, &mut powers, &mut actions, Buttons::Power(1));
    for pool in [1usize, 2] {
        let outcome = process_input(
            &mut targeting,
            &mut powers,
            &mut actions,
            Buttons::Pool { pool, action: 0 },
        );
        assert_eq!(outcome, SetupOutcome::Ignored);
    }
    assert_eq!(powers, vec![Power::SplitDice, Power::Advantage]);
    assert_eq!(pools_of(&actions), before);
}

#[test]
fn adding_powers_join_the_end_of_the_set() {
    let mut powers = vec![Power::StaticBonus(3), Power::AddDice(DiceType::D8)];
    let mut actions = vec![action(vec![DicePool::d12()]), action(Vec::new())];
    let mut targeting = TargetingTypes::SelectPower;
    process_input(&mut targeting, &mut powers, &mut actions, Buttons::Power(0));
    assert_eq!(
        targeting,
        TargetingTypes::PowerTarget(PowerTargetingType::Action, 0, Power::StaticBonus(3))
    );
    assert_eq!(
        process_input(&mut targeting, &mut powers, &mut actions, Buttons::Pool { pool: 0, action: 0 }),
        SetupOutcome::Ignored
    );
    assert_eq!(
        process_input(&mut targeting, &mut powers, &mut actions, Buttons::Action(0)),
        SetupOutcome::Applied { action: 0 }
    );
    assert_eq!(powers, vec![Power::AddDice(DiceType::D8)]);
    process_input(&mut targeting, &mut powers, &mut actions, Buttons::Power(0));
    assert_eq!(
        process_input(&mut targeting, &mut powers, &mut actions, Buttons::Action(1)),
        SetupOutcome::Applied { action: 1 }
    );
    assert!(powers.is_empty());
    assert_eq!(
        pools_of(&actions),
        vec![vec![DicePool::d12(), DicePool::bonus(3)], vec![DicePool::d8()]]
    );
    assert_eq!(
        process_input(&mut targeting, &mut powers, &mut actions, Buttons::Action(1)),
        SetupOutcome::Ignored
    );
}

#[test]
fn a_power_that_was_spent_cannot_be_spent_again() {
    let mut powers = vec![Power::Advantage];
    let mut actions = vec![action(vec![DicePool::d4(), DicePool::d8()])];
    let mut targeting =
        TargetingTypes::PowerTarget(PowerTargetingType::Single, 0, Power::SplitDice);
    assert_eq!(
        process_input(&mut targeting, &mut powers, &mut actions, Buttons::Pool { pool: 1, action: 0 }),
        SetupOutcome::Ignored
    );
    let mut targeting = TargetingTypes::PowerTarget(PowerTargetingType::Single, 1, Power::Advantage);
    assert_eq!(
        process_input(&mut targeting, &mut powers, &mut actions, Buttons::Pool { pool: 1, action: 0 }),
        SetupOutcome::Ignored
    );
    assert_eq!(powers, vec![Power::Advantage]);
    assert_eq!(pools_of(&actions), vec![vec![DicePool::d4(), DicePool::d8()]]);
}

#[test]
fn the_resolve_button_says_what_it_does() {
    assert_eq!(TargetingTypes::SelectPower.resolve_label(), "Resolve");
    assert_eq!(
        TargetingTypes::PowerTarget(PowerTargetingType::Action, 0, Power::StaticBonus(1))
            .resolve_label(),
        "De-Select"
    );
}
