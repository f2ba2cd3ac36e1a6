use dice_sim::dice::{
    explodes, make_success_probs, num_dice_to_reroll, roll_open_ended, roll_pool, sf_from_faces,
    sf_from_roll, sf_from_rolls, simulated_num_successes_from_multi_roll,
    simulated_sf_from_multi_roll, simulated_sf_from_single_roll, simulated_sfs_from_multi_roll,
    tally_successes, total_successes, Sf,
};
use dice_sim::model::{Model, PIP_HI, PIP_LO};
use std::collections::HashMap;
use dice_sim::weight_map::checked_total;
use rand::Rng;

fn model(num_dice: i32, dice_stat: i32, num_rerolls: i32) -> Model {
    Model {
        num_dice,
        dice_stat,
        num_rerolls,
        armor: 0,
        ap: 0,
        num_shield_dice: 0,
        toxic_dmg: 0,
    }
}

#[test]
fn a_new_tally_is_empty() {
    let sf = Sf::new();
    assert_eq!((sf.s, sf.f), (0, 0));
}

#[test]
fn tallies_add_up() {
    let mut sf = Sf { s: 2, f: 5 };
    sf.add(&Sf { s: 3, f: 1 });
    assert_eq!((sf.s, sf.f), (5, 6));
}

#[test]
fn a_roll_is_counted_against_the_threshold() {
    let mut sf = Sf::new();
    sf.record(5, 5);
    assert_eq!((sf.s, sf.f), (1, 0));
    sf.record(4, 5);
    assert_eq!((sf.s, sf.f), (1, 1));
    sf.record(PIP_HI, 5);
    assert_eq!((sf.s, sf.f), (2, 1));
    sf.record(PIP_HI, PIP_HI + 1);
    assert_eq!((sf.s, sf.f), (2, 2));
}

#[test]
fn only_the_highest_face_is_rolled_again() {
    for pip in PIP_LO..PIP_HI {
        assert!(!explodes(pip));
    }
    assert!(explodes(PIP_HI));
}

#[test]
fn a_single_roll_counts_at_least_one_roll() {
    let mut rng = rand::thread_rng();
    for _ in 0..2000 {
        let sf = simulated_sf_from_single_roll(&mut rng, 5).unwrap();
        assert!(sf.s >= 0 && sf.f >= 0);
        assert!(sf.s + sf.f >= 1);
        assert!(sf.f <= 1);
    }
}

#[test]
fn a_threshold_of_the_lowest_face_never_fails() {
    let mut rng = rand::thread_rng();
    for _ in 0..2000 {
        let sf = simulated_sf_from_single_roll(&mut rng, PIP_LO).unwrap();
        assert_eq!(sf.f, 0);
        assert!(sf.s >= 1);
    }
}

#[test]
fn a_threshold_above_the_highest_face_never_succeeds() {
    let mut rng = rand::thread_rng();
    for _ in 0..2000 {
        let sf = simulated_sf_from_single_roll(&mut rng, PIP_HI + 1).unwrap();
        assert_eq!(sf.s, 0);
        assert!(sf.f >= 1);
    }
}

#[test]
fn rolls_are_not_all_the_lowest_face() {
    let mut rng = rand::thread_rng();
    let mut successes = 0;
    let mut failures = 0;
    let mut explosions = 0;
    for _ in 0..4000 {
        let sf = simulated_sf_from_single_roll(&mut rng, 2).unwrap();
        successes += sf.s;
        failures += sf.f;
        if sf.s + sf.f > 1 {
            explosions += 1;
        }
    }
    assert!(successes > 0);
    assert!(failures > 0);
    assert!(explosions > 0);
}

#[test]
fn every_face_between_the_lowest_and_the_highest_comes_up() {
    // With a threshold of t the share of dice whose first roll fails is
    // (t - 1) / 8; it is told from the tally by one failure and no success.
    let mut rng = rand::thread_rng();
    let trials = 40_000;
    for threshold in 2..=PIP_HI {
        let mut failed = 0;
        for _ in 0..trials {
            let sf = simulated_sf_from_single_roll(&mut rng, threshold).unwrap();
            if sf.s == 0 {
                failed += 1;
            }
        }
        let share = failed as f64 / trials as f64;
        let expected = (threshold - 1) as f64 / 8.0;
        assert!((share - expected).abs() < 0.02, "threshold={} share={}", threshold, share);
    }
}

#[test]
fn no_more_dice_are_rerolled_than_failed_or_allowed() {
    assert_eq!(num_dice_to_reroll(3, 5), 3);
    assert_eq!(num_dice_to_reroll(5, 3), 3);
    assert_eq!(num_dice_to_reroll(4, 4), 4);
    assert_eq!(num_dice_to_reroll(2, 0), 0);
    assert_eq!(num_dice_to_reroll(0, 7), 0);
}

#[test]
fn no_dice_score_nothing() {
    let mut rng = rand::thread_rng();
    assert_eq!(simulated_num_successes_from_multi_roll(&mut rng, 0, 5, 0), Some(0));
    assert_eq!(simulated_num_successes_from_multi_roll(&mut rng, 0, 5, 3), Some(0));
}

#[test]
fn dice_that_cannot_succeed_score_nothing() {
    let mut rng = rand::thread_rng();
    for _ in 0..200 {
        assert_eq!(simulated_num_successes_from_multi_roll(&mut rng, 6, PIP_HI + 1, 0), Some(0));
        assert_eq!(simulated_num_successes_from_multi_roll(&mut rng, 6, PIP_HI + 1, 4), Some(0));
    }
}

#[test]
fn dice_that_cannot_fail_score_at_least_once_each() {
    let mut rng = rand::thread_rng();
    for _ in 0..200 {
        let n = simulated_num_successes_from_multi_roll(&mut rng, 6, PIP_LO, 2).unwrap();
        assert!(n >= 6);
    }
}

#[test]
fn rerolls_raise_the_mean() {
    let mut rng = rand::thread_rng();
    let trials = 80_000;
    let mut plain: i64 = 0;
    let mut rerolled: i64 = 0;
    for _ in 0..trials {
        plain += simulated_num_successes_from_multi_roll(&mut rng, 4, 6, 0).unwrap() as i64;
        rerolled += simulated_num_successes_from_multi_roll(&mut rng, 4, 6, 4).unwrap() as i64;
    }
    // A die scores 3/7 on average. Its last roll is one of the seven lower
    // faces, so it fails with chance 5/7, and every failed die is rolled once
    // more.
    let plain_mean = plain as f64 / trials as f64;
    let rerolled_mean = rerolled as f64 / trials as f64;
    assert!((plain_mean - 4.0 * 3.0 / 7.0).abs() < 0.06, "plain={}", plain_mean);
    let expected = 4.0 * 3.0 / 7.0 + 4.0 * (5.0 / 7.0) * 3.0 / 7.0;
    assert!((rerolled_mean - expected).abs() < 0.08, "rerolled={}", rerolled_mean);
}

#[test]
fn rerolls_are_capped() {
    let mut rng = rand::thread_rng();
    let trials = 40_000;
    let mut total: i64 = 0;
    for _ in 0..trials {
        total += simulated_num_successes_from_multi_roll(&mut rng, 4, PIP_HI, 1).unwrap() as i64;
    }
    // A die scores 1/7 on average and always ends in a failure, so there are
    // four failures, of which only one die is rolled once more.
    let expected = 5.0 / 7.0;
    let mean = total as f64 / trials as f64;
    assert!((mean - expected).abs() < 0.05, "mean={}", mean);
}

#[test]
fn a_model_without_dice_always_scores_nothing() {
    let mut rng = rand::thread_rng();
    let counts = make_success_probs(&mut rng, &model(0, 5, 0), 1000).unwrap();
    assert_eq!(counts.len(), 1);
    assert_eq!(counts.get(&0), Some(&1000));
    let probability = counts[&0] as f64 / 1000.0;
    assert_eq!(probability, 1.0);
}

#[test]
fn a_model_that_cannot_succeed_always_scores_nothing() {
    let mut rng = rand::thread_rng();
    let counts = make_success_probs(&mut rng, &model(3, PIP_HI + 1, 2), 500).unwrap();
    assert_eq!(counts.len(), 1);
    assert_eq!(counts.get(&0), Some(&500));
}

#[test]
fn no_trials_give_an_empty_map() {
    let mut rng = rand::thread_rng();
    let counts = make_success_probs(&mut rng, &model(3, 4, 0), 0).unwrap();
    assert!(counts.is_empty());
}

#[test]
fn counts_add_up_to_the_number_of_trials() {
    let mut rng = rand::thread_rng();
    let counts = make_success_probs(&mut rng, &model(5, 5, 2), 3000).unwrap();
    assert_eq!(checked_total(&counts), Some(3000));
    for (successes, count) in counts.iter() {
        assert!(*successes >= 0);
        assert!(*count >= 1);
    }
}

#[test]
fn estimated_mean_matches_a_reference_simulation() {
    let trials = 100_000;
    let mut rng = rand::thread_rng();
    let counts = make_success_probs(&mut rng, &model(5, 5, 0), trials).unwrap();
    let mut mean = 0.0;
    for (successes, count) in counts.iter() {
        mean += *successes as f64 * (*count as f64 / trials as f64);
    }

    let mut reference_total: i64 = 0;
    for _ in 0..trials {
        for _ in 0..5 {
            loop {
                let pip: i32 = rng.gen_range(1..=8);
                if pip >= 5 {
                    reference_total += 1;
                }
                if pip != 8 {
                    break;
                }
            }
        }
    }
    let reference_mean = reference_total as f64 / trials as f64;
    assert!((mean - reference_mean).abs() < 0.05, "mean={} reference={}", mean, reference_mean);
    assert!((mean - 20.0 / 7.0).abs() < 0.05, "mean={}", mean);
}

#[test]
fn an_open_ended_roll_ends_with_the_first_lower_face() {
    let mut rng = rand::thread_rng();
    let mut longest = 0;
    for _ in 0..20_000 {
        let faces = roll_open_ended(&mut rng);
        assert!(!faces.is_empty());
        let (last, before) = faces.split_last().unwrap();
        assert!(*last >= PIP_LO && *last < PIP_HI);
        assert!(before.iter().all(|face| *face == PIP_HI));
        longest = longest.max(faces.len());
    }
    // Three top faces in a row have a chance of 1 in 512.
    assert!(longest >= 3);
}

#[test]
fn the_length_of_a_roll_follows_the_chance_of_the_top_face() {
    let mut rng = rand::thread_rng();
    let trials = 80_000;
    let mut longer_than_one = 0;
    let mut longer_than_two = 0;
    for _ in 0..trials {
        let faces = roll_open_ended(&mut rng);
        if faces.len() > 1 {
            longer_than_one += 1;
        }
        if faces.len() > 2 {
            longer_than_two += 1;
        }
    }
    let share_one = longer_than_one as f64 / trials as f64;
    let share_two = longer_than_two as f64 / trials as f64;
    assert!((share_one - 1.0 / 8.0).abs() < 0.01, "share={}", share_one);
    assert!((share_two - 1.0 / 64.0).abs() < 0.005, "share={}", share_two);
}

#[test]
fn faces_are_counted_against_the_threshold() {
    let sf = sf_from_faces(&vec![8, 8, 3], 5);
    assert_eq!((sf.s, sf.f), (2, 1));
    let sf = sf_from_faces(&vec![8, 8, 3], 3);
    assert_eq!((sf.s, sf.f), (3, 0));
    let sf = sf_from_faces(&vec![8, 8, 3], 9);
    assert_eq!((sf.s, sf.f), (0, 3));
    let sf = sf_from_faces(&vec![4], 4);
    assert_eq!((sf.s, sf.f), (1, 0));
    let sf = sf_from_faces(&vec![4], 5);
    assert_eq!((sf.s, sf.f), (0, 1));
    let sf = sf_from_faces(&vec![], 5);
    assert_eq!((sf.s, sf.f), (0, 0));
    let many = vec![8; 100];
    let sf = sf_from_faces(&many, 8);
    assert_eq!((sf.s, sf.f), (100, 0));
}

#[test]
fn a_long_run_of_top_faces_is_counted_in_full() {
    let mut faces = vec![8; 70];
    faces.push(2);
    let sf = sf_from_faces(&faces, 5);
    assert_eq!((sf.s, sf.f), (70, 1));
}

#[test]
fn a_pool_rolls_every_die() {
    let mut rng = rand::thread_rng();
    for _ in 0..500 {
        let sf = simulated_sf_from_multi_roll(&mut rng, 7, 5).unwrap();
        assert!(sf.s >= 0 && sf.f >= 0);
        assert!(sf.s + sf.f >= 7);
        assert!(sf.f <= 7);
    }
    let sf = simulated_sf_from_multi_roll(&mut rng, 0, 5).unwrap();
    assert_eq!((sf.s, sf.f), (0, 0));
}

#[test]
fn failed_dice_are_rolled_once_more() {
    let mut rng = rand::thread_rng();
    let mut rerolled_some = false;
    for _ in 0..500 {
        let (first, rerolled) = simulated_sfs_from_multi_roll(&mut rng, 6, 5, 2).unwrap();
        assert!(first.s + first.f >= 6);
        let again = first.f.min(2);
        assert!(rerolled.s + rerolled.f >= again);
        assert!(rerolled.f <= again);
        if again == 0 {
            assert_eq!((rerolled.s, rerolled.f), (0, 0));
        } else {
            rerolled_some = true;
        }
    }
    assert!(rerolled_some);
}

#[test]
fn without_rerolls_nothing_is_rolled_once_more() {
    let mut rng = rand::thread_rng();
    for _ in 0..200 {
        let (first, rerolled) = simulated_sfs_from_multi_roll(&mut rng, 6, 7, 0).unwrap();
        assert!(first.s + first.f >= 6);
        assert_eq!((rerolled.s, rerolled.f), (0, 0));
    }
}

#[test]
fn a_tally_counts_how_often_each_result_came() {
    let counts = tally_successes(&vec![2, 0, 2, 5, 2, 0]);
    let mut expected: HashMap<i32, u128> = HashMap::new();
    expected.insert(0, 2);
    expected.insert(2, 3);
    expected.insert(5, 1);
    assert_eq!(counts, expected);
    assert!(tally_successes(&vec![]).is_empty());
    let same = tally_successes(&vec![-4; 9]);
    assert_eq!(same.len(), 1);
    assert_eq!(same.get(&-4), Some(&9));
}

#[test]
fn a_roll_that_is_not_over_has_no_tally() {
    assert_eq!(sf_from_roll(&vec![8, 8, 3], 5).map(|sf| (sf.s, sf.f)), Some((2, 1)));
    assert_eq!(sf_from_roll(&vec![4], 5).map(|sf| (sf.s, sf.f)), Some((0, 1)));
    assert_eq!(sf_from_roll(&vec![8, 8, 3], 9).map(|sf| (sf.s, sf.f)), Some((0, 3)));
    assert!(sf_from_roll(&vec![8, 8, 8], 5).is_none());
    assert!(sf_from_roll(&vec![8], 5).is_none());
    assert!(sf_from_roll(&vec![], 5).is_none());
}

#[test]
fn the_tallies_of_all_dice_are_added_up() {
    let rolls = vec![vec![3], vec![8, 8, 6], vec![5], vec![8, 1]];
    assert_eq!(sf_from_rolls(&rolls, 5).map(|sf| (sf.s, sf.f)), Some((5, 2)));
    assert_eq!(sf_from_rolls(&rolls, 1).map(|sf| (sf.s, sf.f)), Some((7, 0)));
    assert_eq!(sf_from_rolls(&rolls, 8).map(|sf| (sf.s, sf.f)), Some((3, 4)));
    assert_eq!(sf_from_rolls(&rolls, 9).map(|sf| (sf.s, sf.f)), Some((0, 7)));
    assert_eq!(sf_from_rolls(&vec![], 5).map(|sf| (sf.s, sf.f)), Some((0, 0)));
}

#[test]
fn a_pool_with_a_roll_that_is_not_over_has_no_tally() {
    assert!(sf_from_rolls(&vec![vec![3], vec![8, 8], vec![5]], 5).is_none());
    assert!(sf_from_rolls(&vec![vec![3], vec![]], 5).is_none());
    assert!(sf_from_rolls(&vec![vec![8]], 5).is_none());
}

#[test]
fn successes_are_added_up_within_32_bits() {
    assert_eq!(total_successes(Sf { s: 3, f: 9 }, Sf { s: 4, f: 1 }), Some(7));
    assert_eq!(total_successes(Sf { s: 0, f: 0 }, Sf { s: 0, f: 0 }), Some(0));
    assert_eq!(total_successes(Sf { s: i32::MAX, f: 0 }, Sf { s: 0, f: 5 }), Some(i32::MAX));
    assert_eq!(total_successes(Sf { s: i32::MAX, f: 0 }, Sf { s: 1, f: 0 }), None);
    assert_eq!(total_successes(Sf { s: i32::MIN, f: 0 }, Sf { s: -1, f: 0 }), None);
    assert_eq!(total_successes(Sf { s: i32::MIN, f: 0 }, Sf { s: 0, f: 0 }), Some(i32::MIN));
}

#[test]
fn two_failed_dice_and_one_reroll_that_explodes_score_one() {
    // Two dice show 3 and 2 against a threshold of 5; with one reroll one die
    // is rolled once more and shows 8, then 4.
    let first = sf_from_rolls(&vec![vec![3], vec![2]], 5).unwrap();
    assert_eq!((first.s, first.f), (0, 2));
    assert_eq!(num_dice_to_reroll(1, first.f), 1);
    let rerolled = sf_from_rolls(&vec![vec![8, 4]], 5).unwrap();
    assert_eq!((rerolled.s, rerolled.f), (1, 1));
    assert_eq!(total_successes(first, rerolled), Some(1));
}

#[test]
fn rerolls_only_add_to_the_successes() {
    let first = sf_from_rolls(&vec![vec![6], vec![2], vec![8, 1]], 5).unwrap();
    let none = sf_from_rolls(&vec![], 5).unwrap();
    let more = vec![vec![8, 8, 3], vec![7]];
    let rerolled = sf_from_rolls(&more, 5).unwrap();
    let without = total_successes(first, none).unwrap();
    let with = total_successes(first, rerolled).unwrap();
    assert_eq!(without, 2);
    assert_eq!(with, 5);
    let rolls: usize = more.iter().map(|faces| faces.len()).sum();
    assert!(with >= without && (with - without) as usize <= rolls);
}

#[test]
fn a_pool_is_rolled_die_by_die() {
    let mut rng = rand::thread_rng();
    let rolls = roll_pool(&mut rng, 9);
    assert_eq!(rolls.len(), 9);
    for faces in rolls.iter() {
        let (last, before) = faces.split_last().unwrap();
        assert!(*last >= PIP_LO && *last < PIP_HI);
        assert!(before.iter().all(|face| *face == PIP_HI));
    }
    assert!(roll_pool(&mut rng, 0).is_empty());
}

#[test]
fn at_the_highest_threshold_every_die_fails_once() {
    let mut rng = rand::thread_rng();
    for _ in 0..300 {
        let sf = simulated_sf_from_multi_roll(&mut rng, 5, PIP_HI).unwrap();
        assert_eq!(sf.f, 5);
        let one = simulated_sf_from_single_roll(&mut rng, PIP_HI).unwrap();
        assert_eq!(one.f, 1);
    }
}
