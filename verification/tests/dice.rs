use bevy_turborand::prelude::Rng;
use bevy_turborand::SeededCore;
use dice_engine::dice::{highest_roll, DicePool, DicePoolType, DiceType, InitialPools, Roll};
use dice_engine::random::DiceRng;

fn seeded(seed: u64) -> DiceRng {
    DiceRng::new(Rng::with_seed(seed))
}

fn uniform_dice() -> Vec<(DiceType, u8)> {
    vec![
        (DiceType::D2, 2),
        (DiceType::D3, 3),
        (DiceType::D4, 4),
        (DiceType::D6, 6),
        (DiceType::D8, 8),
        (DiceType::D12, 12),
    ]
}

#[test]
fn uniform_dice_roll_within_their_range() {
    let mut rng = seeded(11);
    for (dice, sides) in uniform_dice() {
        for _ in 0..2000 {
            let value = dice.roll(&mut rng);
            assert!(1 <= value && value <= sides);
        }
    }
}

#[test]
fn uniform_dice_show_every_face() {
    let mut rng = seeded(5);
    for (dice, sides) in uniform_dice() {
        let mut seen = vec![false; sides as usize + 1];
        for _ in 0..2000 {
            seen[dice.roll(&mut rng) as usize] = true;
        }
        for face in 1..=sides as usize {
            assert!(seen[face]);
        }
        assert!(!seen[0]);
    }
}

#[test]
fn dice_bounds() {
    for (dice, sides) in uniform_dice() {
        assert_eq!(dice.min_roll(), 1);
        assert_eq!(dice.max_roll(), sides);
    }
    let fixed = DiceType::Static { value: 7 };
    assert_eq!(fixed.min_roll(), 7);
    assert_eq!(fixed.max_roll(), 7);
}

#[test]
fn constant_die_returns_its_value_and_draws_nothing() {
    let mut used = seeded(42);
    let mut fresh = seeded(42);
    for value in [0u8, 1, 3, 200, 255] {
        assert_eq!(DiceType::Static { value }.roll(&mut used), value);
        assert_eq!(DicePool::bonus(value).roll(&mut used), value);
        assert_eq!(DicePool::bonus(value).advantage().roll(&mut used), value);
    }
    for _ in 0..50 {
        assert_eq!(DiceType::D12.roll(&mut used), DiceType::D12.roll(&mut fresh));
    }
}

#[test]
fn single_pool_rolls_its_die_once() {
    let mut pool_rng = seeded(9);
    let mut die_rng = seeded(9);
    for _ in 0..200 {
        assert_eq!(DicePool::d8().roll(&mut pool_rng), DiceType::D8.roll(&mut die_rng));
    }
}

#[test]
fn advantage_is_the_larger_of_two_draws() {
    for seed in 0..40u64 {
        let mut pool_rng = seeded(seed);
        let mut die_rng = seeded(seed);
        for _ in 0..50 {
            let rolled = DicePool::d12().advantage().roll(&mut pool_rng);
            let first = DiceType::D12.roll(&mut die_rng);
            let second = DiceType::D12.roll(&mut die_rng);
            assert_eq!(rolled, first.max(second));
        }
    }
}

#[test]
fn empty_set_rolls_one_whatever_the_source() {
    let empty: Vec<DicePool> = Vec::new();
    for seed in 0..20u64 {
        let mut used = seeded(seed);
        let mut fresh = seeded(seed);
        assert_eq!(empty.roll(&mut used), 1);
        assert_eq!(empty.roll(&mut used), 1);
        assert_eq!(DiceType::D12.roll(&mut used), DiceType::D12.roll(&mut fresh));
    }
}

#[test]
fn set_rolls_the_sum_of_its_pools_in_order() {
    let set = vec![DicePool::d12(), DicePool::bonus(3), DicePool::d4().advantage()];
    for seed in 0..40u64 {
        let mut set_rng = seeded(seed);
        let mut die_rng = seeded(seed);
        let rolled = set.roll(&mut set_rng);
        let first = DiceType::D12.roll(&mut die_rng);
        let a = DiceType::D4.roll(&mut die_rng);
        let b = DiceType::D4.roll(&mut die_rng);
        assert_eq!(rolled, first + 3 + a.max(b));
    }
}

#[test]
fn set_of_constants_rolls_their_sum() {
    let set = vec![DicePool::bonus(2), DicePool::bonus(5)];
    assert_eq!(set.roll(&mut seeded(1)), 7);
    let nothing = vec![DicePool::bonus(0)];
    assert_eq!(nothing.roll(&mut seeded(1)), 0);
}

#[test]
fn highest_roll_tells_whether_a_set_can_be_rolled() {
    assert_eq!(highest_roll(&Vec::new()), Some(0));
    assert_eq!(highest_roll(&vec![DicePool::d12(), DicePool::bonus(3)]), Some(15));
    assert_eq!(highest_roll(&vec![DicePool::bonus(250), DicePool::d4()]), Some(254));
    assert_eq!(highest_roll(&vec![DicePool::bonus(250), DicePool::d6()]), None);
    assert_eq!(highest_roll(&vec![DicePool::bonus(255), DicePool::bonus(0)]), Some(255));
    assert_eq!(highest_roll(&vec![DicePool::bonus(255), DicePool::d2()]), None);
}

#[test]
fn pool_builders() {
    assert_eq!(DicePool::d2(), DicePool { dice: DiceType::D2, pool: DicePoolType::Single });
    assert_eq!(DicePool::d3(), DicePool { dice: DiceType::D3, pool: DicePoolType::Single });
    assert_eq!(DicePool::d4(), DicePool { dice: DiceType::D4, pool: DicePoolType::Single });
    assert_eq!(DicePool::d6(), DicePool { dice: DiceType::D6, pool: DicePoolType::Single });
    assert_eq!(DicePool::d8(), DicePool { dice: DiceType::D8, pool: DicePoolType::Single });
    assert_eq!(DicePool::d12(), DicePool { dice: DiceType::D12, pool: DicePoolType::Single });
    assert_eq!(
        DicePool::bonus(4),
        DicePool { dice: DiceType::Static { value: 4 }, pool: DicePoolType::Single }
    );
    assert_eq!(DicePool::new(DiceType::D6), DicePool::d6());
    assert_eq!(
        DicePool::d6().advantage(),
        DicePool { dice: DiceType::D6, pool: DicePoolType::Advantage }
    );
    assert_eq!(DicePool::d6().advantage().advantage(), DicePool::d6().advantage());
}

#[test]
fn defaults() {
    assert_eq!(DiceType::default(), DiceType::D12);
    assert_eq!(DicePoolType::default(), DicePoolType::Single);
    assert_eq!(DicePool::default(), DicePool::d12());
    assert_eq!(InitialPools::default().to_vec(), vec![DicePool::d12()]);
}

#[test]
fn initial_pools_keep_their_order() {
    let pools = vec![DicePool::d4(), DicePool::bonus(1), DicePool::d8().advantage()];
    let initial = InitialPools::new(pools.clone());
    assert_eq!(initial.to_vec(), pools);
    let walked: Vec<DicePool> = initial.iter().copied().collect();
    assert_eq!(walked, pools);
    assert_eq!(InitialPools::new(Vec::new()).iter().count(), 0);
}
