use dice_sim::combinatorics::{binomial_pmf, checked_power, n_choose_k, power, BinomialCache};

#[test]
fn five_choose_two_is_ten() {
    assert_eq!(n_choose_k(5, 2), 10);
}

#[test]
fn choose_is_symmetric_for_every_valid_input() {
    for n in 1..=29 {
        for k in 0..=n {
            assert_eq!(n_choose_k(n, k), n_choose_k(n, n - k), "n={} k={}", n, k);
        }
    }
}

#[test]
fn choosing_none_or_all_is_one() {
    for n in 1..=29 {
        assert_eq!(n_choose_k(n, 0), 1);
        assert_eq!(n_choose_k(n, n), 1);
    }
}

#[test]
fn choose_follows_pascals_rule() {
    for n in 2..=29 {
        for k in 1..n {
            assert_eq!(n_choose_k(n, k), n_choose_k(n - 1, k - 1) + n_choose_k(n - 1, k));
        }
    }
}

#[test]
fn choose_of_one_trial() {
    assert_eq!(n_choose_k(1, 0), 1);
    assert_eq!(n_choose_k(1, 1), 1);
}

#[test]
fn choose_at_the_largest_number_of_trials() {
    assert_eq!(n_choose_k(29, 1), 29);
    assert_eq!(n_choose_k(29, 14), 77_558_760);
    assert_eq!(n_choose_k(29, 15), 77_558_760);
    assert_eq!(n_choose_k(29, 29), 1);
}

#[test]
fn choose_small_table() {
    assert_eq!(n_choose_k(4, 2), 6);
    assert_eq!(n_choose_k(6, 3), 20);
    assert_eq!(n_choose_k(10, 3), 120);
    assert_eq!(n_choose_k(20, 10), 184_756);
}

#[test]
fn pmf_of_two_in_five_fair_trials() {
    let weight = binomial_pmf(5, 2, 1, 2);
    assert_eq!(weight, 10);
    assert_eq!(weight as f64 / power(2, 5) as f64, 0.3125);
}

#[test]
fn pmf_of_a_shield_roll() {
    // C(3, 1) * 3 * 5 * 5
    assert_eq!(binomial_pmf(3, 1, 3, 8), 225);
    assert_eq!(binomial_pmf(3, 0, 3, 8), 125);
    assert_eq!(binomial_pmf(3, 3, 3, 8), 27);
}

#[test]
fn pmf_with_no_or_all_successes() {
    assert_eq!(binomial_pmf(4, 0, 1, 4), 81);
    assert_eq!(binomial_pmf(4, 4, 1, 4), 1);
    assert_eq!(binomial_pmf(4, 4, 0, 4), 0);
    assert_eq!(binomial_pmf(4, 0, 0, 4), 256);
    assert_eq!(binomial_pmf(4, 4, 4, 4), 256);
    assert_eq!(binomial_pmf(4, 3, 4, 4), 0);
}

#[test]
fn pmf_weights_add_up_to_the_denominator() {
    for n in 1..=29 {
        let mut sum: u128 = 0;
        for k in 0..=n {
            sum += binomial_pmf(n, k, 3, 8);
        }
        assert_eq!(sum, power(8, n as u32), "n={}", n);
    }
    let mut sum: u128 = 0;
    for k in 0..=12 {
        sum += binomial_pmf(12, k, 7, 10);
    }
    assert_eq!(sum, 1_000_000_000_000);
}

#[test]
fn pmf_probabilities_add_up_to_one() {
    for n in 1..=29 {
        let whole = power(10, n as u32) as f64;
        let mut sum = 0.0;
        for k in 0..=n {
            sum += binomial_pmf(n, k, 3, 10) as f64 / whole;
        }
        assert!((sum - 1.0).abs() < 1e-9, "n={} sum={}", n, sum);
    }
}

#[test]
fn power_exact_values() {
    assert_eq!(power(8, 0), 1);
    assert_eq!(power(8, 3), 512);
    assert_eq!(power(0, 0), 1);
    assert_eq!(power(0, 4), 0);
    assert_eq!(power(2, 127), 1u128 << 127);
    assert_eq!(power(8, 29), 1u128 << 87);
}

#[test]
fn checked_power_tells_overflow() {
    assert_eq!(checked_power(2, 127), Some(1u128 << 127));
    assert_eq!(checked_power(2, 128), None);
    assert_eq!(checked_power(0, 5), Some(0));
    assert_eq!(checked_power(1, u32::MAX), Some(1));
    assert_eq!(checked_power(10, 38), Some(100_000_000_000_000_000_000_000_000_000_000_000_000));
    assert_eq!(checked_power(10, 39), None);
    assert_eq!(checked_power(u128::MAX, 1), Some(u128::MAX));
    assert_eq!(checked_power(u128::MAX, 2), None);
    assert_eq!(checked_power(3, u32::MAX), None);
    assert_eq!(checked_power(7, 0), Some(1));
    assert_eq!(checked_power(0, 0), Some(1));
    assert_eq!(checked_power(u128::MAX, 0), Some(1));
}

#[test]
fn the_cache_gives_what_the_computation_gives() {
    let mut cache = BinomialCache::new();
    for _ in 0..2 {
        for n in 1..=29 {
            for k in 0..=n {
                assert_eq!(cache.n_choose_k(n, k), n_choose_k(n, k), "n={} k={}", n, k);
            }
        }
    }
    assert_eq!(cache.n_choose_k(5, 2), 10);
    assert_eq!(cache.n_choose_k(29, 29), 1);
}

#[test]
fn the_cache_gives_the_same_weights() {
    let mut cache = BinomialCache::new();
    for k in 0..=7 {
        assert_eq!(cache.binomial_pmf(7, k, 3, 8), binomial_pmf(7, k, 3, 8));
    }
    assert_eq!(cache.binomial_pmf(5, 2, 1, 2), 10);
}

#[test]
fn the_cache_takes_the_coefficient_of_a_weight_from_its_table() {
    let mut cache = BinomialCache::new();
    assert_eq!(cache.binomial_pmf(6, 3, 3, 8), 20 * 27 * 125);
    assert_eq!(cache.n_choose_k(6, 3), 20);
    assert_eq!(cache.binomial_pmf(6, 3, 1, 2), 20);
}
