use bevy_turborand::prelude::Rng;
use bevy_turborand::SeededCore;
use dice_engine::dice::{DicePool, DiceType, Roll};
use dice_engine::random::DiceRng;
use dice_engine::simulation::{
    blend, refine, Estimate, SimulateDice, FRESH_WEIGHT, SAMPLES, STORED_WEIGHT,
};

fn seeded(seed: u64) -> DiceRng {
    DiceRng::new(Rng::with_seed(seed))
}

fn weighted(fresh: f32, stored: f32) -> f32 {
    (fresh * (FRESH_WEIGHT as f32) + stored * (STORED_WEIGHT as f32))
        / (FRESH_WEIGHT as f32 + STORED_WEIGHT as f32)
}

fn heights(estimate: &Estimate) -> Vec<(u8, f32)> {
    let peak = estimate.peak() as f32;
    estimate.buckets().iter().map(|(value, count)| (*value, *count as f32 / peak)).collect()
}

#[test]
fn tally_counts_each_value_in_ascending_order() {
    let estimate = Estimate::tally(vec![3, 1, 3, 2, 3, 12, 1]);
    assert_eq!(estimate.buckets(), &vec![(1, 2), (2, 1), (3, 3), (12, 1)]);
    assert_eq!(estimate.peak(), 3);
}

#[test]
fn tally_of_nothing_is_empty() {
    let estimate = Estimate::tally(Vec::new());
    assert!(estimate.buckets().is_empty());
    assert_eq!(estimate.peak(), 0);
}

#[test]
fn tally_of_one_value() {
    let estimate = Estimate::tally(vec![7; 100]);
    assert_eq!(estimate.buckets(), &vec![(7, 100)]);
    assert_eq!(estimate.peak(), 100);
}

#[test]
fn tallest_bucket_has_height_one() {
    let estimate = Estimate::tally(vec![5, 6, 6, 9, 9, 9, 9]);
    assert_eq!(heights(&estimate), vec![(5, 0.25), (6, 0.5), (9, 1.0)]);
}

#[test]
fn simulate_counts_every_roll() {
    let pools = vec![DicePool::d6(), DicePool::bonus(2)];
    let estimate = SimulateDice::<100>::simulate(&pools, &mut seeded(3));
    let total: usize = estimate.buckets().iter().map(|(_, count)| *count).sum();
    assert_eq!(total, 100);
    for (value, count) in estimate.buckets() {
        assert!(3 <= *value && *value <= 8);
        assert!(1 <= *count && *count <= estimate.peak());
    }
    assert!(estimate.buckets().iter().any(|(_, count)| *count == estimate.peak()));
    assert!(estimate.buckets().windows(2).all(|pair| pair[0].0 < pair[1].0));
}

#[test]
fn simulate_is_the_tally_of_the_same_rolls() {
    let pools = vec![DicePool::d12().advantage(), DicePool::d4()];
    let estimate = SimulateDice::<250>::simulate(&pools, &mut seeded(8));
    let mut rng = seeded(8);
    let mut rolls = Vec::new();
    for _ in 0..250 {
        rolls.push(pools.roll(&mut rng));
    }
    let expected = Estimate::tally(rolls);
    assert_eq!(estimate.buckets(), expected.buckets());
    assert_eq!(estimate.peak(), expected.peak());
}

#[test]
fn simulate_twice_from_one_seed_gives_the_same_buckets() {
    let pools = vec![DicePool::d12(), DicePool::d8().advantage(), DicePool::bonus(1)];
    let first = SimulateDice::<100>::simulate(&pools, &mut seeded(77));
    let second = SimulateDice::<100>::simulate(&pools, &mut seeded(77));
    assert_eq!(first.buckets(), second.buckets());
    assert_eq!(first.peak(), second.peak());
    assert_eq!(heights(&first), heights(&second));
}

#[test]
fn simulate_of_an_empty_set_is_one_bucket_of_ones() {
    let pools: Vec<DicePool> = Vec::new();
    let estimate = SimulateDice::<100>::simulate(&pools, &mut seeded(1));
    assert_eq!(estimate.buckets(), &vec![(1, 100)]);
    assert_eq!(heights(&estimate), vec![(1, 1.0)]);
}

#[test]
fn simulate_without_rolls_is_empty() {
    let estimate = SimulateDice::<0>::simulate(&DiceType::D12, &mut seeded(1));
    assert!(estimate.buckets().is_empty());
    assert_eq!(estimate.peak(), 0);
}

#[test]
fn simulate_works_for_a_die_and_for_a_pool() {
    let die = SimulateDice::<60>::simulate(&DiceType::D2, &mut seeded(4));
    assert_eq!(die.buckets().len(), 2);
    assert_eq!(die.buckets()[0].0, 1);
    assert_eq!(die.buckets()[1].0, 2);
    let fixed = SimulateDice::<10>::simulate(&DicePool::bonus(9), &mut seeded(4));
    assert_eq!(fixed.buckets(), &vec![(9, 10)]);
}

#[test]
fn weights() {
    assert_eq!(FRESH_WEIGHT, 1);
    assert_eq!(STORED_WEIGHT, 20);
}

#[test]
fn blend_mixes_shared_buckets_and_passes_the_others() {
    let stored = vec![(5u8, 1.0f32)];
    let fresh = vec![(5u8, 0.5f32), (6, 1.0)];
    let blended = blend(&fresh, &stored, weighted);
    assert_eq!(blended.len(), 2);
    assert_eq!(blended[0].0, 5);
    assert_eq!(blended[0].1, (0.5f32 * 1.0 + 1.0 * 20.0) / 21.0);
    assert!((blended[0].1 - 0.976).abs() < 0.001);
    assert_eq!(blended[1], (6, 1.0));
}

#[test]
fn blend_joins_by_value_in_ascending_order() {
    let fresh = vec![(1u8, 10u32), (3, 30), (4, 40), (9, 90)];
    let stored = vec![(2u8, 2u32), (3, 3), (9, 9), (10, 1), (11, 1)];
    let blended = blend(&fresh, &stored, |a: u32, b: u32| a * 1000 + b);
    assert_eq!(
        blended,
        vec![(1, 10), (2, 2), (3, 30003), (4, 40), (9, 90009), (10, 1), (11, 1)]
    );
}

#[test]
fn blend_with_an_empty_side_passes_the_other() {
    let some = vec![(2u8, 0.5f32), (7, 1.0)];
    let none: Vec<(u8, f32)> = Vec::new();
    assert_eq!(blend(&some, &none, weighted), some);
    assert_eq!(blend(&none, &some, weighted), some);
    assert_eq!(blend(&none, &none, weighted), none);
}

#[test]
fn refine_replaces_after_a_change_and_blends_otherwise() {
    let stored = vec![(5u8, 1.0f32), (8, 0.25)];
    let fresh = vec![(5u8, 0.5f32), (6, 1.0)];
    assert_eq!(refine(fresh.clone(), &stored, true, weighted), fresh);
    assert_eq!(
        refine(fresh.clone(), &stored, false, weighted),
        vec![(5, weighted(0.5, 1.0)), (6, 1.0), (8, 0.25)]
    );
}

#[test]
fn heights_keep_the_values_and_divide_by_the_peak() {
    let estimate = Estimate::tally(vec![2, 2, 2, 2, 4, 8, 8]);
    assert_eq!(
        estimate.heights(|count, peak| (count, peak)),
        vec![(2, (4, 4)), (4, (1, 4)), (8, (2, 4))]
    );
    assert_eq!(
        estimate.heights(|count, peak| count as f32 / peak as f32),
        vec![(2, 1.0), (4, 0.25), (8, 0.5)]
    );
    assert!(Estimate::tally(Vec::new()).heights(|count, peak| count / peak).is_empty());
}

#[test]
fn an_estimate_for_display_takes_a_hundred_rolls() {
    assert_eq!(SAMPLES, 100);
    let pools = vec![DicePool::d12()];
    let estimate = SimulateDice::<SAMPLES>::simulate(&pools, &mut seeded(6));
    let total: usize = estimate.buckets().iter().map(|(_, count)| *count).sum();
    assert_eq!(total, 100);
}
