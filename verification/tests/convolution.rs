use dice_sim::convolution::{calc_multi_round_damage, checked_multi_round_damage};
use dice_sim::weight_map::checked_total;
use std::collections::HashMap;

fn map_of(pairs: &[(i32, u128)]) -> HashMap<i32, u128> {
    let mut map = HashMap::new();
    for (k, v) in pairs {
        map.insert(*k, *v);
    }
    map
}

#[test]
fn one_round_is_the_input() {
    let single = map_of(&[(-3, 2), (0, 5), (4, 1)]);
    assert_eq!(calc_multi_round_damage(&single, 1), single);
}

#[test]
fn one_round_of_an_empty_map() {
    let single: HashMap<i32, u128> = HashMap::new();
    assert_eq!(calc_multi_round_damage(&single, 1), single);
    assert_eq!(calc_multi_round_damage(&single, 3), single);
}

#[test]
fn two_rounds_of_a_coin() {
    let single = map_of(&[(0, 1), (1, 1)]);
    assert_eq!(calc_multi_round_damage(&single, 2), map_of(&[(0, 1), (1, 2), (2, 1)]));
}

#[test]
fn three_rounds_of_a_coin() {
    let single = map_of(&[(0, 1), (1, 1)]);
    assert_eq!(
        calc_multi_round_damage(&single, 3),
        map_of(&[(0, 1), (1, 3), (2, 3), (3, 1)])
    );
}

#[test]
fn two_rounds_with_damage_to_both_sides() {
    let single = map_of(&[(-1, 2), (1, 3)]);
    assert_eq!(calc_multi_round_damage(&single, 2), map_of(&[(-2, 4), (0, 12), (2, 9)]));
}

#[test]
fn three_rounds_with_uneven_weights() {
    let single = map_of(&[(0, 1), (2, 2), (5, 3)]);
    // (1 + 2x^2 + 3x^5)^3
    assert_eq!(
        calc_multi_round_damage(&single, 3),
        map_of(&[
            (0, 1),
            (2, 6),
            (4, 12),
            (5, 9),
            (6, 8),
            (7, 36),
            (9, 36),
            (10, 27),
            (12, 54),
            (15, 27)
        ])
    );
}

#[test]
fn a_key_of_weight_zero_stays() {
    let single = map_of(&[(0, 1), (3, 0)]);
    assert_eq!(calc_multi_round_damage(&single, 2), map_of(&[(0, 1), (3, 0), (6, 0)]));
}

#[test]
fn rounds_keep_the_mass() {
    let single = map_of(&[(-2, 3), (0, 4), (1, 2), (7, 1)]);
    let mut expected: u128 = 1;
    for rounds in 1..=6 {
        expected *= 10;
        let result = calc_multi_round_damage(&single, rounds);
        assert_eq!(checked_total(&result), Some(expected), "rounds={}", rounds);
    }
}

#[test]
fn probabilities_still_add_up_to_one() {
    let single = map_of(&[(-1, 1), (0, 5), (1, 2)]);
    let result = calc_multi_round_damage(&single, 4);
    let whole = 8f64.powi(4);
    let sum: f64 = result.values().map(|w| *w as f64 / whole).sum();
    assert!((sum - 1.0).abs() < 1e-9);
}

#[test]
fn checked_rounds_agree_with_unchecked() {
    let single = map_of(&[(-1, 2), (1, 3)]);
    for rounds in 1..=5 {
        assert_eq!(
            checked_multi_round_damage(&single, rounds),
            Some(calc_multi_round_damage(&single, rounds))
        );
    }
}

#[test]
fn checked_rounds_need_a_round() {
    let single = map_of(&[(0, 1)]);
    assert_eq!(checked_multi_round_damage(&single, 0), None);
    assert_eq!(checked_multi_round_damage(&single, -1), None);
}

#[test]
fn checked_rounds_refuse_a_key_that_does_not_fit() {
    let single = map_of(&[(i32::MAX, 1)]);
    assert_eq!(checked_multi_round_damage(&single, 1), Some(single.clone()));
    assert_eq!(checked_multi_round_damage(&single, 2), None);
    let low = map_of(&[(i32::MIN / 2 - 1, 1)]);
    assert_eq!(checked_multi_round_damage(&low, 2), None);
    let fits = map_of(&[(i32::MIN / 2, 1)]);
    assert_eq!(checked_multi_round_damage(&fits, 2), Some(map_of(&[(i32::MIN, 1)])));
}

#[test]
fn checked_rounds_refuse_a_total_that_does_not_fit() {
    let single = map_of(&[(0, 1u128 << 64)]);
    assert_eq!(checked_multi_round_damage(&single, 1), Some(single.clone()));
    assert_eq!(checked_multi_round_damage(&single, 2), None);
    let heavy = map_of(&[(0, u128::MAX), (1, 1)]);
    assert_eq!(checked_multi_round_damage(&heavy, 1), None);
    let two = map_of(&[(0, 1), (1, 1)]);
    assert!(checked_multi_round_damage(&two, 128).is_none());
    assert!(checked_multi_round_damage(&two, 127).is_some());
}

#[test]
fn many_rounds_of_a_certain_outcome() {
    let single = map_of(&[(1, 1)]);
    assert_eq!(checked_multi_round_damage(&single, 1000), Some(map_of(&[(1000, 1)])));
}

#[test]
fn mirrored_rounds_add_up_to_a_mirrored_total() {
    let single = map_of(&[(-1, 2), (0, 5), (3, 1)]);
    let mirrored = map_of(&[(1, 2), (0, 5), (-3, 1)]);
    for rounds in 1..=4 {
        let total = calc_multi_round_damage(&single, rounds);
        let turned = calc_multi_round_damage(&mirrored, rounds);
        assert_eq!(total.len(), turned.len());
        for (k, w) in total.iter() {
            assert_eq!(turned.get(&-k), Some(w), "rounds={} key={}", rounds, k);
        }
    }
}

#[test]
fn symmetric_rounds_add_up_to_a_symmetric_total() {
    let single = map_of(&[(-2, 3), (-1, 1), (0, 4), (1, 1), (2, 3)]);
    let total = calc_multi_round_damage(&single, 3);
    for (k, w) in total.iter() {
        assert_eq!(total.get(&-k), Some(w), "key={}", k);
    }
}
