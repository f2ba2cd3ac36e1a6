use dice_sim::combat::{
    calc_single_round_damage, checked_single_round_damage, mitigated_damage,
};
use dice_sim::model::Model;
use dice_sim::weight_map::checked_total;
use std::collections::HashMap;

fn model(armor: i32, ap: i32, num_shield_dice: i32, toxic_dmg: i32) -> Model {
    Model { num_dice: 5, dice_stat: 5, num_rerolls: 0, armor, ap, num_shield_dice, toxic_dmg }
}

fn map_of(pairs: &[(i32, u128)]) -> HashMap<i32, u128> {
    let mut map = HashMap::new();
    for (k, v) in pairs {
        map.insert(*k, *v);
    }
    map
}

#[test]
fn plain_damage_is_the_difference() {
    let plain = model(0, 0, 0, 0);
    assert_eq!(mitigated_damage(&plain, &plain, 3, 0), Some(3));
    assert_eq!(mitigated_damage(&plain, &plain, -3, 0), Some(-3));
    assert_eq!(mitigated_damage(&plain, &plain, 0, 0), Some(0));
}

#[test]
fn blocks_take_damage_away() {
    let plain = model(0, 0, 0, 0);
    assert_eq!(mitigated_damage(&plain, &plain, 3, 1), Some(2));
    assert_eq!(mitigated_damage(&plain, &plain, 3, 3), Some(0));
    assert_eq!(mitigated_damage(&plain, &plain, 3, 5), Some(0));
    assert_eq!(mitigated_damage(&plain, &plain, -3, 2), Some(-1));
    assert_eq!(mitigated_damage(&plain, &plain, -3, 4), Some(0));
}

#[test]
fn armor_counts_less_what_is_penetrated() {
    let armored = model(2, 0, 0, 0);
    assert_eq!(mitigated_damage(&model(0, 0, 0, 0), &armored, 3, 0), Some(1));
    assert_eq!(mitigated_damage(&model(0, 1, 0, 0), &armored, 3, 0), Some(2));
    assert_eq!(mitigated_damage(&model(0, 5, 0, 0), &armored, 3, 0), Some(3));
    assert_eq!(mitigated_damage(&model(0, 0, 0, 0), &armored, 2, 0), Some(0));
    assert_eq!(mitigated_damage(&model(0, 0, 0, 0), &armored, 1, 0), Some(0));
    // The defender's armor does not protect the attacker.
    assert_eq!(mitigated_damage(&model(0, 0, 0, 0), &armored, -3, 0), Some(-3));
    assert_eq!(mitigated_damage(&armored, &model(0, 0, 0, 0), -3, 0), Some(-1));
    assert_eq!(mitigated_damage(&armored, &model(0, 2, 0, 0), -3, 0), Some(-3));
}

#[test]
fn shield_comes_before_armor() {
    let attacker = model(0, 1, 0, 0);
    let defender = model(3, 0, 2, 0);
    // 6 - 1 block = 5, less the net armor of 2.
    assert_eq!(mitigated_damage(&attacker, &defender, 6, 1), Some(3));
    assert_eq!(mitigated_damage(&attacker, &defender, 6, 4), Some(0));
    assert_eq!(mitigated_damage(&attacker, &defender, 6, 5), Some(0));
}

#[test]
fn toxic_damage_comes_after_all_mitigation() {
    let attacker = model(0, 0, 0, 2);
    let defender = model(9, 0, 0, 3);
    assert_eq!(mitigated_damage(&attacker, &defender, 3, 0), Some(2));
    assert_eq!(mitigated_damage(&attacker, &defender, 12, 1), Some(4));
    assert_eq!(mitigated_damage(&attacker, &defender, -2, 0), Some(-5));
    assert_eq!(mitigated_damage(&attacker, &defender, -2, 2), Some(-3));
}

#[test]
fn a_tie_deals_no_damage_at_all() {
    let attacker = model(0, 0, 0, 2);
    let defender = model(0, 0, 0, 3);
    assert_eq!(mitigated_damage(&attacker, &defender, 0, 0), Some(0));
}

#[test]
fn damage_beyond_32_bits_is_refused() {
    let plain = model(0, 0, 0, 0);
    let toxic = model(0, 0, 0, 1);
    assert_eq!(mitigated_damage(&plain, &plain, i32::MAX, 0), Some(i32::MAX));
    assert_eq!(mitigated_damage(&toxic, &plain, i32::MAX, 0), None);
    assert_eq!(mitigated_damage(&toxic, &plain, i32::MAX, 1), Some(i32::MAX));
    assert_eq!(mitigated_damage(&plain, &plain, i32::MIN, 0), Some(i32::MIN));
    assert_eq!(mitigated_damage(&plain, &toxic, i32::MIN, 0), None);
    assert_eq!(mitigated_damage(&plain, &toxic, i32::MIN, 1), Some(i32::MIN));
    assert_eq!(mitigated_damage(&plain, &plain, 5, -3), Some(8));
}

#[test]
fn one_round_without_shields() {
    let plain = model(0, 0, 0, 0);
    let dmg = calc_single_round_damage(
        &plain,
        &plain,
        &map_of(&[(2, 1), (3, 1)]),
        &map_of(&[(1, 2)]),
    );
    assert_eq!(dmg, map_of(&[(1, 2), (2, 2)]));
}

#[test]
fn one_round_multiplies_the_counts() {
    let plain = model(0, 0, 0, 0);
    let dmg = calc_single_round_damage(
        &plain,
        &plain,
        &map_of(&[(0, 3), (1, 5), (2, 2)]),
        &map_of(&[(0, 4), (1, 6)]),
    );
    // 0-0 and 1-1 tie; 1-0 and 2-1 leave one; 2-0 leaves two; 0-1 costs one.
    assert_eq!(dmg, map_of(&[(0, 12 + 30), (1, 20 + 12), (2, 8), (-1, 18)]));
    assert_eq!(checked_total(&dmg), Some(100));
}

#[test]
fn one_round_with_one_shield_die() {
    let attacker = model(0, 0, 0, 0);
    let defender = model(0, 0, 1, 0);
    let dmg = calc_single_round_damage(
        &attacker,
        &defender,
        &map_of(&[(1, 1)]),
        &map_of(&[(0, 1)]),
    );
    assert_eq!(dmg, map_of(&[(1, 5), (0, 3)]));
}

#[test]
fn a_tie_rolls_no_shield_dice() {
    let attacker = model(0, 0, 0, 4);
    let defender = model(0, 0, 1, 4);
    let dmg = calc_single_round_damage(
        &attacker,
        &defender,
        &map_of(&[(1, 1)]),
        &map_of(&[(1, 1)]),
    );
    assert_eq!(dmg, map_of(&[(0, 8)]));
}

#[test]
fn shield_weights_share_one_denominator() {
    let attacker = model(0, 0, 2, 0);
    let defender = model(0, 0, 1, 0);
    let counts = map_of(&[(0, 1), (1, 1)]);
    let dmg = calc_single_round_damage(&attacker, &defender, &counts, &counts);
    assert_eq!(dmg, map_of(&[(0, 64 + 64 + 24 + 30 + 9), (1, 40), (-1, 25)]));
    assert_eq!(checked_total(&dmg), Some(2 * 2 * 64));
}

#[test]
fn three_shield_dice_against_four_successes() {
    let attacker = model(0, 0, 0, 1);
    let defender = model(1, 0, 3, 0);
    let dmg = calc_single_round_damage(
        &attacker,
        &defender,
        &map_of(&[(4, 2)]),
        &map_of(&[(0, 3)]),
    );
    // 4 less 0, 1, 2 or 3 blocks, less one armor, plus one toxic.
    assert_eq!(dmg, map_of(&[(4, 6 * 125), (3, 6 * 225), (2, 6 * 135), (1, 6 * 27)]));
    assert_eq!(checked_total(&dmg), Some(6 * 512));
}

#[test]
fn blocked_outcomes_fall_on_one_key() {
    let attacker = model(0, 0, 0, 0);
    let defender = model(0, 0, 2, 0);
    let dmg = calc_single_round_damage(
        &attacker,
        &defender,
        &map_of(&[(1, 1)]),
        &map_of(&[(0, 1)]),
    );
    assert_eq!(dmg, map_of(&[(1, 25), (0, 30 + 9)]));
}

#[test]
fn empty_counts_give_an_empty_round() {
    let plain = model(0, 0, 0, 0);
    let none: HashMap<i32, u128> = HashMap::new();
    assert!(calc_single_round_damage(&plain, &plain, &none, &map_of(&[(1, 1)])).is_empty());
    assert!(calc_single_round_damage(&plain, &plain, &map_of(&[(1, 1)]), &none).is_empty());
}

#[test]
fn the_total_is_the_product_of_the_totals() {
    let attacker = model(1, 0, 3, 2);
    let defender = model(2, 1, 5, 0);
    let atk = map_of(&[(0, 7), (1, 11), (2, 13), (6, 1)]);
    let def = map_of(&[(0, 2), (3, 9), (4, 4)]);
    let dmg = calc_single_round_damage(&attacker, &defender, &atk, &def);
    assert_eq!(checked_total(&dmg), Some(32 * 15 * 8u128.pow(5)));
}

#[test]
fn equal_sides_with_equal_counts_are_symmetric() {
    let plain = model(0, 0, 0, 0);
    let counts = map_of(&[(0, 5), (1, 9), (2, 4), (3, 1), (5, 1)]);
    let dmg = calc_single_round_damage(&plain, &plain, &counts, &counts);
    assert!(!dmg.is_empty());
    for (d, w) in dmg.iter() {
        assert_eq!(dmg.get(&-d), Some(w), "damage {}", d);
    }
}

#[test]
fn changing_sides_turns_the_damage_around() {
    let attacker = model(1, 0, 3, 2);
    let defender = model(2, 1, 1, 0);
    let atk = map_of(&[(0, 7), (1, 11), (2, 13), (6, 1)]);
    let def = map_of(&[(0, 2), (3, 9), (4, 4)]);
    let one_way = calc_single_round_damage(&attacker, &defender, &atk, &def);
    let other_way = calc_single_round_damage(&defender, &attacker, &def, &atk);
    assert_eq!(one_way.len(), other_way.len());
    for (d, w) in one_way.iter() {
        assert_eq!(other_way.get(&-d), Some(w), "damage {}", d);
    }
}

#[test]
fn a_checked_round_agrees_with_an_unchecked_one() {
    let attacker = model(1, 0, 3, 2);
    let defender = model(2, 1, 1, 0);
    let atk = map_of(&[(0, 7), (1, 11), (2, 13), (6, 1)]);
    let def = map_of(&[(0, 2), (3, 9), (4, 4)]);
    assert_eq!(
        checked_single_round_damage(&attacker, &defender, &atk, &def),
        Some(calc_single_round_damage(&attacker, &defender, &atk, &def))
    );
}

#[test]
fn a_checked_round_refuses_a_model_that_is_not_valid() {
    let good = model(0, 0, 0, 0);
    let bad = model(0, 0, 30, 0);
    let counts = map_of(&[(1, 1)]);
    assert_eq!(checked_single_round_damage(&bad, &good, &counts, &counts), None);
    assert_eq!(checked_single_round_damage(&good, &bad, &counts, &counts), None);
}

#[test]
fn a_checked_round_refuses_a_damage_that_does_not_fit() {
    let plain = model(0, 0, 0, 0);
    let toxic = model(0, 0, 0, 10);
    let none = map_of(&[(0, 1)]);
    let most = map_of(&[(i32::MAX, 1)]);
    let nearly = map_of(&[(i32::MAX - 10, 1)]);
    assert_eq!(
        checked_single_round_damage(&plain, &plain, &most, &none),
        Some(map_of(&[(i32::MAX, 1)]))
    );
    assert_eq!(
        checked_single_round_damage(&plain, &plain, &none, &most),
        Some(map_of(&[(-i32::MAX, 1)]))
    );
    assert_eq!(checked_single_round_damage(&toxic, &plain, &most, &none), None);
    assert_eq!(
        checked_single_round_damage(&toxic, &plain, &nearly, &none),
        Some(map_of(&[(i32::MAX, 1)]))
    );
    assert_eq!(checked_single_round_damage(&plain, &toxic, &none, &most), None);
    // A difference of successes beyond 32 bits cannot be fought out.
    let below = map_of(&[(-2, 1)]);
    assert_eq!(checked_single_round_damage(&plain, &plain, &most, &below), None);
    assert_eq!(checked_single_round_damage(&plain, &plain, &below, &most), None);
}

#[test]
fn a_checked_round_refuses_a_denominator_that_does_not_fit() {
    let plain = model(0, 0, 0, 0);
    let heavy = map_of(&[(1, 1u128 << 64)]);
    let light = map_of(&[(1, (1u128 << 64) - 1)]);
    assert_eq!(checked_single_round_damage(&plain, &plain, &heavy, &heavy), None);
    assert_eq!(
        checked_single_round_damage(&plain, &plain, &heavy, &light),
        Some(map_of(&[(0, (1u128 << 64) * ((1u128 << 64) - 1))]))
    );
    let shielded = model(0, 0, 29, 0);
    let many = map_of(&[(1, 1u128 << 41)]);
    let one = map_of(&[(1, 1)]);
    assert_eq!(checked_single_round_damage(&plain, &shielded, &many, &one), None);
    assert_eq!(checked_single_round_damage(&plain, &shielded, &one, &many), None);
    assert_eq!(
        checked_single_round_damage(&plain, &shielded, &one, &map_of(&[(1, 1u128 << 40)])),
        Some(map_of(&[(0, 1u128 << 127)]))
    );
    let too_much = map_of(&[(0, u128::MAX), (1, 1)]);
    assert_eq!(checked_single_round_damage(&plain, &plain, &too_much, &one), None);
    assert_eq!(checked_single_round_damage(&plain, &plain, &one, &too_much), None);
}

#[test]
fn a_checked_round_of_counts_that_weigh_nothing() {
    let plain = model(0, 0, 0, 0);
    let nothing = map_of(&[(1, 0)]);
    let full = map_of(&[(2, u128::MAX)]);
    assert_eq!(
        checked_single_round_damage(&plain, &plain, &nothing, &full),
        Some(map_of(&[(-1, 0)]))
    );
    assert_eq!(
        checked_single_round_damage(&plain, &plain, &full, &nothing),
        Some(map_of(&[(1, 0)]))
    );
}
