//! The damage distribution of a fight between two models.

use std::collections::HashMap;
use vstd::prelude::*;
use vstd::arithmetic::power::{pow, lemma_pow1, lemma_pow_increases};
use crate::combat::{
    checked_single_round_damage, damage_key, is_outcome, is_single_round,
    lemma_shield_denominator, orig_fits, pair_full, row_full, shield_denominator, SHIELD_SIDES,
};
use crate::combinatorics::power;
use crate::convolution::{checked_multi_round_damage, is_multi_round, keys_fit};
use crate::dice::{is_sample, make_success_probs};
use crate::model::{Model, Options};
use crate::weight_map::total;

verus! {

/// The denominator of the weights of one round: each side's number of trials
/// and the shield denominator, multiplied.
pub open spec fn round_denominator(attacker: Model, defender: Model, num_simulations: int) -> int {
    (shield_denominator(attacker, defender) * num_simulations) * num_simulations
}

/// The outcome of the fight is sure to be computed: neither side rolls a die,
/// so no roll decides, and the denominator of the last round fits in 128
/// bits.
pub open spec fn is_sure(attacker: Model, defender: Model, options: Options) -> bool {
    &&& attacker.num_dice == 0
    &&& defender.num_dice == 0
    &&& pow(
        round_denominator(attacker, defender, options.num_simulations as int),
        options.num_rounds as nat,
    ) <= u128::MAX
}

/// `dmg` is the damage distribution of `options.num_rounds` rounds of a fight
/// whose single round is `single`, built from simulated successes that came
/// up as often as `atk_counts` and `def_counts` say.
pub open spec fn is_fight(
    dmg: Map<i32, u128>,
    attacker: Model,
    defender: Model,
    options: Options,
    atk_counts: Map<i32, u128>,
    def_counts: Map<i32, u128>,
    single: Map<i32, u128>,
) -> bool {
    &&& is_sample(atk_counts, attacker, options.num_simulations as int)
    &&& is_sample(def_counts, defender, options.num_simulations as int)
    &&& is_single_round(single, attacker, defender, atk_counts, def_counts)
    &&& is_multi_round(dmg, single, options.num_rounds as int)
}

/// Where both sides always score nothing, every round is a tie.
proof fn lemma_ties_only(
    attacker: Model,
    defender: Model,
    counts: Map<i32, u128>,
    single: Map<i32, u128>,
    rounds: int,
)
    requires
        forall|k: i32| #[trigger] counts.contains_key(k) ==> k == 0,
        is_single_round(single, attacker, defender, counts, counts),
    ensures
        keys_fit(single, rounds),
{
    assert forall|d: i32| #[trigger] single.contains_key(d) implies d == 0 by {
        assert(is_outcome(attacker, defender, counts, counts, d as int));
        let x = choose|x: i32| #[trigger]
            counts.contains_key(x) && row_full(attacker, defender, x as int, counts, d as int);
        let y = choose|y: i32| #[trigger]
            counts.contains_key(y) && pair_full(attacker, defender, x as int, y as int, d as int);
        let k = choose|k: int|
            0 <= k && #[trigger] damage_key(attacker, defender, x - y, k) == d as int;
    }
    assert forall|d: i32| #[trigger] single.contains_key(d) implies i32::MIN <= d * rounds
        <= i32::MAX by {
        assert(d * rounds == 0) by (nonlinear_arith)
            requires
                d == 0,
        ;
    }
}

/// The damage distribution of a fight: the probability of each total damage
/// over `options.num_rounds` rounds, as a weight over the denominator
/// `round_denominator(..)^num_rounds`. Positive damage is taken by the
/// defender, negative damage by the attacker.
///
/// The successes of each side are estimated from `options.num_simulations`
/// simulated attacks, so two calls may differ. `None` comes back where the
/// denominator of one round does not fit in 128 bits, and otherwise only
/// where what the dice showed is beyond the limits of the integers: a tally of
/// rolls or a damage beyond 32 bits, or a weight of the rounds added up beyond
/// 128 bits.
pub fn calc_dmg_probs(attacker: Model, defender: Model, options: Options) -> (result: Option<
    HashMap<i32, u128>,
>)
    requires
        attacker.valid(),
        defender.valid(),
        options.valid(),
    ensures
        result matches Some(dmg) ==> {
            &&& exists|
                atk_counts: Map<i32, u128>,
                def_counts: Map<i32, u128>,
                single: Map<i32, u128>,
            |
                #[trigger] is_fight(
                    dmg@,
                    attacker,
                    defender,
                    options,
                    atk_counts,
                    def_counts,
                    single,
                )
            &&& total(dmg@) == pow(
                round_denominator(attacker, defender, options.num_simulations as int),
                options.num_rounds as nat,
            )
        },
        round_denominator(attacker, defender, options.num_simulations as int) > u128::MAX
            ==> result is None,
        pow(
            round_denominator(attacker, defender, options.num_simulations as int),
            options.num_rounds as nat,
        ) > u128::MAX ==> result is None,
        is_sure(attacker, defender, options) ==> result is Some,
{
    let ghost denominator = round_denominator(
        attacker,
        defender,
        options.num_simulations as int,
    );
    let scale: i32 = if attacker.num_shield_dice >= defender.num_shield_dice {
        attacker.num_shield_dice
    } else {
        defender.num_shield_dice
    };
    proof {
        lemma_shield_denominator(scale as nat);
    }
    let shield_total: u128 = power(SHIELD_SIDES as u128, scale as u32);
    let trials: u128 = options.num_simulations as u128;
    let fits = match shield_total.checked_mul(trials) {
        Some(per_side) => per_side.checked_mul(trials).is_some(),
        None => false,
    };
    proof {
        assert(denominator == (shield_total * trials) * trials);
        assert(denominator >= 1) by (nonlinear_arith)
            requires
                denominator == (shield_total * trials) * trials,
                trials >= 1,
                shield_total >= 1,
        ;
        if !fits {
            assert(denominator > u128::MAX) by (nonlinear_arith)
                requires
                    denominator == (shield_total * trials) * trials,
                    shield_total * trials > u128::MAX || (shield_total * trials) * trials
                        > u128::MAX,
                    trials >= 1,
                    shield_total >= 1,
            ;
        }
        lemma_pow_increases(denominator as nat, 1, options.num_rounds as nat);
        lemma_pow1(denominator);
    }
    if !fits {
        return None;
    }
    let mut rng = rand::thread_rng();
    let atk_success_probs = match make_success_probs(
        &mut rng,
        &attacker,
        options.num_simulations,
    ) {
        Some(counts) => counts,
        None => {
            return None;
        },
    };
    let def_success_probs = match make_success_probs(
        &mut rng,
        &defender,
        options.num_simulations,
    ) {
        Some(counts) => counts,
        None => {
            return None;
        },
    };
    proof {
        if attacker.num_dice == 0 && defender.num_dice == 0 {
            assert(atk_success_probs@ == def_success_probs@);
            assert forall|x: i32, y: i32|
                #![trigger atk_success_probs@.contains_key(x), def_success_probs@.contains_key(y)]
                atk_success_probs@.contains_key(x) && def_success_probs@.contains_key(
                    y,
                ) implies orig_fits(attacker, defender, x - y) by {}
        }
    }
    let dmg_probs = match checked_single_round_damage(
        &attacker,
        &defender,
        &atk_success_probs,
        &def_success_probs,
    ) {
        Some(dmg_probs) => dmg_probs,
        None => {
            return None;
        },
    };
    if options.num_rounds > 1 {
        let result = checked_multi_round_damage(&dmg_probs, options.num_rounds);
        proof {
            if is_sure(attacker, defender, options) {
                lemma_ties_only(
                    attacker,
                    defender,
                    atk_success_probs@,
                    dmg_probs@,
                    options.num_rounds as int,
                );
            }
            if result is Some {
                assert(is_fight(
                    result->0@,
                    attacker,
                    defender,
                    options,
                    atk_success_probs@,
                    def_success_probs@,
                    dmg_probs@,
                ));
            }
        }
        result
    } else {
        proof {
            lemma_pow1(total(dmg_probs@));
            assert(is_fight(
                dmg_probs@,
                attacker,
                defender,
                options,
                atk_success_probs@,
                def_success_probs@,
                dmg_probs@,
            ));
        }
        Some(dmg_probs)
    }
}

} // verus!
