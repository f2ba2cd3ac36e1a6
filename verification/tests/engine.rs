use dice_sim::engine::calc_dmg_probs;
use dice_sim::model::{Model, Options};
use dice_sim::weight_map::checked_total;

fn model(num_dice: i32, dice_stat: i32, num_rerolls: i32) -> Model {
    Model { num_dice, dice_stat, num_rerolls, armor: 0, ap: 0, num_shield_dice: 0, toxic_dmg: 0 }
}

#[test]
fn models_without_dice_always_tie() {
    let options = Options { num_simulations: 300, num_rounds: 1 };
    let dmg = calc_dmg_probs(model(0, 5, 0), model(0, 5, 0), options).unwrap();
    assert_eq!(dmg.len(), 1);
    assert_eq!(dmg.get(&0), Some(&90_000));
}

#[test]
fn models_that_cannot_succeed_always_tie() {
    let options = Options { num_simulations: 100, num_rounds: 3 };
    let attacker = Model { num_shield_dice: 2, toxic_dmg: 4, ..model(4, 9, 2) };
    let defender = Model { num_shield_dice: 1, armor: 3, ..model(2, 9, 0) };
    let dmg = calc_dmg_probs(attacker, defender, options).unwrap();
    assert_eq!(dmg.len(), 1);
    assert_eq!(dmg.get(&0), Some(&(100u128 * 100 * 64).pow(3)));
}

#[test]
fn a_sure_hit_against_no_dice() {
    // One die that cannot fail scores at least once; the defender rolls
    // nothing, so all damage goes to the defender.
    let options = Options { num_simulations: 500, num_rounds: 1 };
    let dmg = calc_dmg_probs(model(1, 1, 0), model(0, 5, 0), options).unwrap();
    assert_eq!(checked_total(&dmg), Some(250_000));
    for (d, w) in dmg.iter() {
        assert!(*d >= 1);
        assert!(*w >= 500);
    }
}

#[test]
fn the_weights_add_up_to_the_denominator() {
    let attacker = Model { num_shield_dice: 1, ap: 1, ..model(4, 5, 1) };
    let defender = Model { num_shield_dice: 3, armor: 2, toxic_dmg: 1, ..model(3, 4, 0) };
    for rounds in 1..=3 {
        let options = Options { num_simulations: 400, num_rounds: rounds };
        let dmg = calc_dmg_probs(attacker, defender, options).unwrap();
        let denominator = (400u128 * 400 * 512).pow(rounds as u32);
        assert_eq!(checked_total(&dmg), Some(denominator), "rounds={}", rounds);
        let sum: f64 = dmg.values().map(|w| *w as f64 / denominator as f64).sum();
        assert!((sum - 1.0).abs() < 1e-9);
    }
}

#[test]
fn equal_models_give_a_nearly_symmetric_distribution() {
    let options = Options { num_simulations: 100_000, num_rounds: 1 };
    let dmg = calc_dmg_probs(model(5, 5, 0), model(5, 5, 0), options).unwrap();
    let denominator = 100_000f64 * 100_000f64;
    let mut seen_both_sides = false;
    for (d, w) in dmg.iter() {
        let here = *w as f64 / denominator;
        let there = dmg.get(&-d).map(|v| *v as f64 / denominator).unwrap_or(0.0);
        assert!((here - there).abs() < 0.01, "damage {}: {} against {}", d, here, there);
        if *d > 0 && there > 0.0 {
            seen_both_sides = true;
        }
    }
    assert!(seen_both_sides);
}

#[test]
fn too_many_rounds_do_not_fit() {
    // The denominator of one round is 10^6; its seventh power is above 2^128.
    let options = Options { num_simulations: 1000, num_rounds: 7 };
    assert!(calc_dmg_probs(model(1, 5, 0), model(1, 5, 0), options).is_none());
    let options = Options { num_simulations: 1000, num_rounds: 6 };
    assert!(calc_dmg_probs(model(1, 5, 0), model(1, 5, 0), options).is_some());
}

#[test]
fn too_many_trials_for_the_shield_dice_do_not_fit() {
    // 8^29 * 2^21 * 2^21 is 2^129.
    let shielded = Model { num_shield_dice: 29, ..model(1, 5, 0) };
    let options = Options { num_simulations: 1 << 21, num_rounds: 1 };
    assert!(calc_dmg_probs(shielded, model(1, 5, 0), options).is_none());
    assert!(calc_dmg_probs(model(1, 5, 0), shielded, options).is_none());
    let options = Options { num_simulations: i32::MAX, num_rounds: 1 };
    assert!(calc_dmg_probs(shielded, shielded, options).is_none());
}

#[test]
fn many_shield_dice_with_few_trials_fit() {
    let shielded = Model { num_shield_dice: 29, ..model(2, 5, 0) };
    let options = Options { num_simulations: 50, num_rounds: 1 };
    let dmg = calc_dmg_probs(model(2, 4, 0), shielded, options).unwrap();
    assert_eq!(checked_total(&dmg), Some(50 * 50 * (1u128 << 87)));
}

#[test]
fn more_rounds_spread_the_damage() {
    let one = Options { num_simulations: 2000, num_rounds: 1 };
    let four = Options { num_simulations: 2000, num_rounds: 2 };
    let attacker = model(1, 1, 0);
    let defender = model(0, 5, 0);
    let single = calc_dmg_probs(attacker, defender, one).unwrap();
    let double = calc_dmg_probs(attacker, defender, four).unwrap();
    let least_single = single.keys().min().unwrap();
    let least_double = double.keys().min().unwrap();
    assert_eq!(*least_single, 1);
    assert_eq!(*least_double, 2);
}
