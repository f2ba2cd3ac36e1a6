//! The damage of one round of combat, from the successes of both sides.

use std::collections::HashMap;
use vstd::prelude::*;
use vstd::arithmetic::power::{
    pow, lemma_pow0, lemma_pow_adds, lemma_pow_increases, lemma_pow_positive,
};
use crate::combinatorics::{
    binomial, binomial_weight, binomial_weights, lemma_binomial_positive,
    lemma_binomial_theorem, lemma_binomial_weight_nonneg, power, BinomialCache, MAX_NUM_TRIALS,
};
use crate::convolution::is_mirror;
use crate::model::Model;
use crate::sums::{
    sum, lemma_sum_ext, lemma_sum_le, lemma_sum_nonneg, lemma_sum_scale, lemma_sum_single,
    lemma_sum_split, lemma_sum_swap, lemma_sum_term_le,
};
use crate::weight_map::{
    add_to_map_value, checked_total, entries, key_hi, key_lo, lemma_seen,
    lemma_weighted_constant, lemma_weighted_empty, lemma_weighted_ext, lemma_weighted_insert,
    lemma_weighted_le, lemma_weighted_nonneg, lemma_weighted_swap, lemma_weighted_value_le, lists,
    mass, seen, total, weighted_sum, weighted_terms,
};

verus! {

/// In how many of the `SHIELD_SIDES` equally likely ways a shield die blocks.
pub const SHIELD_HIT: u32 = 3;

/// In how many equally likely ways a shield die can fall.
pub const SHIELD_SIDES: u32 = 8;

/// `x` where it is positive, else zero.
pub open spec fn at_least_zero(x: int) -> int {
    if x > 0 {
        x
    } else {
        0
    }
}

/// The side that deals damage: the one with more successes, the attacker on
/// a tie.
pub open spec fn dmg_giver(attacker: Model, defender: Model, orig_dmg: int) -> Model {
    if orig_dmg >= 0 {
        attacker
    } else {
        defender
    }
}

/// The side that takes damage.
pub open spec fn dmg_receiver(attacker: Model, defender: Model, orig_dmg: int) -> Model {
    if orig_dmg >= 0 {
        defender
    } else {
        attacker
    }
}

/// The armor of the receiver that the giver does not penetrate.
pub open spec fn net_armor(attacker: Model, defender: Model, orig_dmg: int) -> int {
    at_least_zero(
        dmg_receiver(attacker, defender, orig_dmg).armor - dmg_giver(
            attacker,
            defender,
            orig_dmg,
        ).ap,
    )
}

/// How many shield dice are rolled: those of the receiver, none on a tie.
pub open spec fn shield_dice(attacker: Model, defender: Model, orig_dmg: int) -> int {
    if orig_dmg == 0 {
        0
    } else {
        dmg_receiver(attacker, defender, orig_dmg).num_shield_dice as int
    }
}

/// The damage of one round in which the attacker scored `orig_dmg` successes
/// more than the defender and the receiver blocked with `shield_successes`
/// shield dice: what shield and armor leave of the difference, plus the toxic
/// damage of the giver. It is positive when the defender takes it, negative
/// when the attacker does, and zero on a tie.
pub open spec fn damage_key(
    attacker: Model,
    defender: Model,
    orig_dmg: int,
    shield_successes: int,
) -> int {
    let magnitude = if orig_dmg >= 0 {
        orig_dmg
    } else {
        -orig_dmg
    };
    let post_shield_dmg = at_least_zero(magnitude - shield_successes);
    let post_armor_dmg = at_least_zero(post_shield_dmg - net_armor(attacker, defender, orig_dmg));
    let post_toxic_dmg = post_armor_dmg + dmg_giver(attacker, defender, orig_dmg).toxic_dmg;
    if orig_dmg > 0 {
        post_toxic_dmg
    } else if orig_dmg < 0 {
        -post_toxic_dmg
    } else {
        0
    }
}

/// The number of shield dice to which all shield weights are scaled: the
/// greater of the two models' numbers.
pub open spec fn shield_scale(attacker: Model, defender: Model) -> int {
    if attacker.num_shield_dice >= defender.num_shield_dice {
        attacker.num_shield_dice as int
    } else {
        defender.num_shield_dice as int
    }
}

/// The weight of `shield_successes` blocks, over the denominator
/// `SHIELD_SIDES^shield_scale`.
pub open spec fn shield_weight(
    attacker: Model,
    defender: Model,
    orig_dmg: int,
    shield_successes: int,
) -> int {
    let n = shield_dice(attacker, defender, orig_dmg);
    binomial_weight(n as nat, shield_successes, SHIELD_HIT as int, SHIELD_SIDES - SHIELD_HIT) * pow(
        SHIELD_SIDES as int,
        (shield_scale(attacker, defender) - n) as nat,
    )
}

/// What each number of blocks adds to the damage `d`, for one difference of
/// successes.
pub open spec fn pair_terms(attacker: Model, defender: Model, orig_dmg: int, d: int) -> spec_fn(
    int,
) -> int {
    |k: int|
        if damage_key(attacker, defender, orig_dmg, k) == d {
            shield_weight(attacker, defender, orig_dmg, k)
        } else {
            0
        }
}

/// The weight with which a difference of `orig_dmg` successes ends in the
/// damage `d`, over all numbers of blocks.
pub open spec fn pair_share(attacker: Model, defender: Model, orig_dmg: int, d: int) -> int {
    sum(
        pair_terms(attacker, defender, orig_dmg, d),
        0,
        shield_dice(attacker, defender, orig_dmg) + 1,
    )
}

/// Some number of blocks below `upto` turns the difference `orig_dmg` into
/// the damage `d`.
pub open spec fn pair_reaches(
    attacker: Model,
    defender: Model,
    orig_dmg: int,
    upto: int,
    d: int,
) -> bool {
    exists|k: int| 0 <= k < upto && #[trigger] damage_key(attacker, defender, orig_dmg, k) == d
}

/// Some number of blocks turns `x` successes against `y` into the damage `d`.
pub open spec fn pair_full(attacker: Model, defender: Model, x: int, y: int, d: int) -> bool {
    pair_reaches(attacker, defender, x - y, shield_dice(attacker, defender, x - y) + 1, d)
}

/// `SHIELD_SIDES` to the power of at most `MAX_NUM_TRIALS` fits in 88 bits.
pub proof fn lemma_shield_denominator(e: nat)
    requires
        e <= MAX_NUM_TRIALS,
    ensures
        1 <= pow(SHIELD_SIDES as int, e) <= 0x80_0000_0000_0000_0000_0000,
{
    lemma_pow_positive(8, e);
    lemma_pow_increases(8, e, 29);
    assert(pow(8, 10) == 0x4000_0000) by {
        reveal_with_fuel(pow, 11);
    }
    lemma_pow_adds(8, 10, 10);
    lemma_pow_adds(8, 20, 9);
    assert(pow(8, 9) == 0x800_0000) by {
        reveal_with_fuel(pow, 10);
    }
    assert(pow(8, 20) == 0x4000_0000 * 0x4000_0000);
    assert(pow(8, 29) == (0x4000_0000 * 0x4000_0000) * 0x800_0000);
}

/// What the models' validity gives for one pair of successes.
proof fn lemma_shield_bounds(attacker: Model, defender: Model, orig_dmg: int)
    requires
        attacker.valid(),
        defender.valid(),
    ensures
        0 <= shield_dice(attacker, defender, orig_dmg) <= shield_scale(attacker, defender)
            <= MAX_NUM_TRIALS,
{
}

/// Every number of blocks that can come up has a weight of at least one, and
/// none has a negative weight.
proof fn lemma_shield_weight_bounds(attacker: Model, defender: Model, orig_dmg: int, k: int)
    requires
        attacker.valid(),
        defender.valid(),
    ensures
        0 <= shield_weight(attacker, defender, orig_dmg, k),
        0 <= k <= shield_dice(attacker, defender, orig_dmg) ==> 1 <= shield_weight(
            attacker,
            defender,
            orig_dmg,
            k,
        ),
{
    let n = shield_dice(attacker, defender, orig_dmg) as nat;
    let rest = (shield_scale(attacker, defender) - n) as nat;
    let w = binomial_weight(n, k, 3, 5);
    let up = pow(8, rest);
    lemma_binomial_weight_nonneg(n, k, 3, 5);
    lemma_pow_positive(8, rest);
    if 0 <= k <= n {
        lemma_binomial_positive(n, k as nat);
        lemma_pow_positive(3, k as nat);
        lemma_pow_positive(5, (n - k) as nat);
        assert(w >= 1) by (nonlinear_arith)
            requires
                w == binomial(n, k as nat) * (pow(3, k as nat) * pow(5, (n - k) as nat)),
                binomial(n, k as nat) >= 1,
                pow(3, k as nat) >= 1,
                pow(5, (n - k) as nat) >= 1,
        ;
    }
    assert(w * up >= 0 && (w >= 1 ==> w * up >= 1)) by (nonlinear_arith)
        requires
            w >= 0,
            up >= 1,
    ;
}

/// The weights of the first few numbers of blocks add up to no more than the
/// weights of all.
proof fn lemma_pair_prefix(attacker: Model, defender: Model, orig_dmg: int, d: int, upto: int)
    requires
        attacker.valid(),
        defender.valid(),
        0 <= upto <= shield_dice(attacker, defender, orig_dmg) + 1,
    ensures
        0 <= sum(pair_terms(attacker, defender, orig_dmg, d), 0, upto) <= pair_share(
            attacker,
            defender,
            orig_dmg,
            d,
        ),
{
    let t = pair_terms(attacker, defender, orig_dmg, d);
    let end = shield_dice(attacker, defender, orig_dmg) + 1;
    assert forall|k: int| 0 <= k < end implies #[trigger] t(k) >= 0 by {
        lemma_shield_weight_bounds(attacker, defender, orig_dmg, k);
    }
    lemma_sum_split(t, 0, upto, end);
    lemma_sum_nonneg(t, 0, upto);
    lemma_sum_nonneg(t, upto, end);
}

/// The difference of successes `orig_dmg` can be fought out: it fits in 32
/// bits, and so does the damage that it leaves where nothing is blocked.
/// Blocks only take damage away.
pub open spec fn orig_fits(attacker: Model, defender: Model, orig_dmg: int) -> bool {
    &&& i32::MIN <= orig_dmg <= i32::MAX
    &&& i32::MIN <= damage_key(attacker, defender, orig_dmg, 0) <= i32::MAX
}

/// Every pair of counted successes can be fought out.
pub open spec fn pairs_fit(
    attacker: Model,
    defender: Model,
    atk_counts: Map<i32, u128>,
    def_counts: Map<i32, u128>,
) -> bool {
    forall|x: i32, y: i32|
        #![trigger atk_counts.contains_key(x), def_counts.contains_key(y)]
        atk_counts.contains_key(x) && def_counts.contains_key(y) ==> orig_fits(
            attacker,
            defender,
            x - y,
        )
}

/// The damage of one round, from the difference of successes and the number
/// of blocks; `None` where it does not fit in 32 bits.
pub fn mitigated_damage(
    attacker: &Model,
    defender: &Model,
    orig_dmg: i32,
    shield_successes: i32,
) -> (result: Option<i32>)
    ensures
        match result {
            Some(key) => key == damage_key(
                *attacker,
                *defender,
                orig_dmg as int,
                shield_successes as int,
            ),
            None => {
                let key = damage_key(
                    *attacker,
                    *defender,
                    orig_dmg as int,
                    shield_successes as int,
                );
                key < i32::MIN || key > i32::MAX
            },
        },
{
    let (dmg_giver, dmg_receiver) = if orig_dmg >= 0 {
        (attacker, defender)
    } else {
        (defender, attacker)
    };
    let armor_left: i64 = dmg_receiver.armor as i64 - dmg_giver.ap as i64;
    let net_armor: i64 = if armor_left > 0 {
        armor_left
    } else {
        0
    };
    let magnitude: i64 = if orig_dmg >= 0 {
        orig_dmg as i64
    } else {
        -(orig_dmg as i64)
    };
    let unblocked: i64 = magnitude - shield_successes as i64;
    let post_shield_dmg: i64 = if unblocked > 0 {
        unblocked
    } else {
        0
    };
    let unstopped: i64 = post_shield_dmg - net_armor;
    let post_armor_dmg: i64 = if unstopped > 0 {
        unstopped
    } else {
        0
    };
    let post_toxic_dmg: i64 = post_armor_dmg + dmg_giver.toxic_dmg as i64;
    let key: i64 = if orig_dmg > 0 {
        post_toxic_dmg
    } else if orig_dmg < 0 {
        -post_toxic_dmg
    } else {
        0
    };
    if key < i32::MIN as i64 || key > i32::MAX as i64 {
        None
    } else {
        Some(key as i32)
    }
}

/// Adds to `dmg_probs` what one pair of success counts contributes: for each
/// number of blocks, the joint weight of the pair times the weight of that
/// many blocks, at the damage that is left.
fn add_pair(
    attacker: &Model,
    defender: &Model,
    atk_successes: i32,
    atk_weight: u128,
    def_successes: i32,
    def_weight: u128,
    cache: &mut BinomialCache,
    dmg_probs: &mut HashMap<i32, u128>,
)
    requires
        attacker.valid(),
        defender.valid(),
        old(cache).wf(),
        orig_fits(*attacker, *defender, atk_successes - def_successes),
        forall|d: int|
            mass(old(dmg_probs)@, d) + atk_weight * def_weight * #[trigger] pair_share(
                *attacker,
                *defender,
                atk_successes - def_successes,
                d,
            ) <= u128::MAX,
    ensures
        final(cache).wf(),
        forall|d: int|
            mass(final(dmg_probs)@, d) == mass(old(dmg_probs)@, d) + atk_weight * def_weight
                * #[trigger] pair_share(*attacker, *defender, atk_successes - def_successes, d),
        forall|d: i32|
            #![trigger final(dmg_probs)@.contains_key(d)]
            final(dmg_probs)@.contains_key(d) <==> old(dmg_probs)@.contains_key(d) || pair_full(
                *attacker,
                *defender,
                atk_successes as int,
                def_successes as int,
                d as int,
            ),
{
    let ghost att = *attacker;
    let ghost def = *defender;
    let ghost start = dmg_probs@;
    let orig_dmg: i32 = atk_successes - def_successes;
    let dmg_receiver = if orig_dmg >= 0 {
        defender
    } else {
        attacker
    };
    let num_shield_dice: i32 = if orig_dmg == 0 {
        0
    } else {
        dmg_receiver.num_shield_dice
    };
    let scale: i32 = if attacker.num_shield_dice >= defender.num_shield_dice {
        attacker.num_shield_dice
    } else {
        defender.num_shield_dice
    };
    proof {
        lemma_shield_denominator((scale - num_shield_dice) as nat);
        lemma_shield_denominator(num_shield_dice as nat);
        lemma_shield_denominator(scale as nat);
        lemma_pow_adds(8, num_shield_dice as nat, (scale - num_shield_dice) as nat);
        // The pair's joint weight fits: no blocks at all is one outcome.
        let first = damage_key(att, def, orig_dmg as int, 0);
        let t = pair_terms(att, def, orig_dmg as int, first);
        assert forall|k: int| 0 <= k < num_shield_dice + 1 implies #[trigger] t(k) >= 0 by {
            lemma_shield_weight_bounds(att, def, orig_dmg as int, k);
        }
        lemma_sum_term_le(t, 0, num_shield_dice + 1, 0);
        lemma_shield_weight_bounds(att, def, orig_dmg as int, 0);
        assert(pair_share(att, def, orig_dmg as int, first) >= 1);
        assert(atk_weight * def_weight <= u128::MAX) by (nonlinear_arith)
            requires
                mass(start, first) + atk_weight * def_weight * pair_share(
                    att,
                    def,
                    orig_dmg as int,
                    first,
                ) <= u128::MAX,
                pair_share(att, def, orig_dmg as int, first) >= 1,
                mass(start, first) >= 0,
                atk_weight >= 0,
                def_weight >= 0,
        ;
    }
    let scale_up: u128 = power(SHIELD_SIDES as u128, (scale - num_shield_dice) as u32);
    let atk_and_def_weight: u128 = atk_weight * def_weight;
    let mut shield_successes: i32 = 0;
    proof {
        assert forall|d: int|
            mass(dmg_probs@, d) == mass(start, d) + atk_and_def_weight * sum(
                #[trigger] pair_terms(att, def, orig_dmg as int, d),
                0,
                0,
            ) by {
            assert(atk_and_def_weight * 0 == 0) by (nonlinear_arith);
        }
    }
    while shield_successes <= num_shield_dice
        invariant
            attacker.valid(),
            defender.valid(),
            cache.wf(),
            att == *attacker,
            def == *defender,
            orig_dmg == atk_successes - def_successes,
            orig_fits(att, def, orig_dmg as int),
            num_shield_dice == shield_dice(att, def, orig_dmg as int),
            scale == shield_scale(att, def),
            0 <= num_shield_dice <= scale <= MAX_NUM_TRIALS,
            scale_up == pow(8, (scale - num_shield_dice) as nat),
            pow(8, num_shield_dice as nat) * scale_up == pow(8, scale as nat),
            pow(8, num_shield_dice as nat) <= 0x80_0000_0000_0000_0000_0000,
            pow(8, scale as nat) <= 0x80_0000_0000_0000_0000_0000,
            atk_and_def_weight == atk_weight * def_weight,
            0 <= shield_successes <= num_shield_dice + 1,
            forall|d: int|
                mass(start, d) + atk_weight * def_weight * #[trigger] pair_share(
                    att,
                    def,
                    orig_dmg as int,
                    d,
                ) <= u128::MAX,
            forall|d: int|
                mass(dmg_probs@, d) == mass(start, d) + atk_and_def_weight * sum(
                    #[trigger] pair_terms(att, def, orig_dmg as int, d),
                    0,
                    shield_successes as int,
                ),
            forall|d: i32|
                #![trigger dmg_probs@.contains_key(d)]
                dmg_probs@.contains_key(d) <==> start.contains_key(d) || pair_reaches(
                    att,
                    def,
                    orig_dmg as int,
                    shield_successes as int,
                    d as int,
                ),
        decreases num_shield_dice + 1 - shield_successes,
    {
        let ghost before = dmg_probs@;
        let ghost k = shield_successes as int;
        let shield_prob: u128 = if num_shield_dice == 0 {
            1
        } else {
            cache.binomial_pmf(num_shield_dice, shield_successes, SHIELD_HIT, SHIELD_SIDES)
        };
        proof {
            lemma_pow0(3);
            lemma_pow0(5);
            assert(shield_prob == binomial_weight(num_shield_dice as nat, k, 3, 5));
            if num_shield_dice == 0 {
                assert(pow(8, 0) == 1) by {
                    lemma_pow0(8);
                }
            }
            assert(shield_prob * scale_up <= pow(8, scale as nat)) by (nonlinear_arith)
                requires
                    shield_prob <= pow(8, num_shield_dice as nat),
                    pow(8, num_shield_dice as nat) * scale_up == pow(8, scale as nat),
                    scale_up >= 0,
            ;
        }
        let weight: u128 = shield_prob * scale_up;
        proof {
            lemma_damage_key_bound(att, def, orig_dmg as int, k);
        }
        let key = mitigated_damage(attacker, defender, orig_dmg, shield_successes).unwrap();
        proof {
            let t = pair_terms(att, def, orig_dmg as int, key as int);
            assert(weight == shield_weight(att, def, orig_dmg as int, k));
            assert(t(k) == weight);
            assert(sum(t, 0, k + 1) == sum(t, 0, k) + t(k));
            lemma_pair_prefix(att, def, orig_dmg as int, key as int, k + 1);
            lemma_pair_prefix(att, def, orig_dmg as int, key as int, k);
            assert(mass(before, key as int) + atk_and_def_weight * weight <= u128::MAX
                && atk_and_def_weight * weight >= 0) by (nonlinear_arith)
                requires
                    mass(before, key as int) == mass(start, key as int) + atk_and_def_weight * sum(
                        t,
                        0,
                        k,
                    ),
                    mass(start, key as int) + atk_and_def_weight * pair_share(
                        att,
                        def,
                        orig_dmg as int,
                        key as int,
                    ) <= u128::MAX,
                    sum(t, 0, k) + weight <= pair_share(att, def, orig_dmg as int, key as int),
                    0 <= sum(t, 0, k),
                    0 <= weight,
                    0 <= atk_and_def_weight,
                    0 <= mass(start, key as int),
            ;
        }
        add_to_map_value(dmg_probs, &key, atk_and_def_weight * weight);
        proof {
            assert forall|d: int|
                mass(dmg_probs@, d) == mass(start, d) + atk_and_def_weight * sum(
                    #[trigger] pair_terms(att, def, orig_dmg as int, d),
                    0,
                    k + 1,
                ) by {
                let t = pair_terms(att, def, orig_dmg as int, d);
                assert(sum(t, 0, k + 1) == sum(t, 0, k) + t(k));
                assert(mass(before, d) == mass(start, d) + atk_and_def_weight * sum(t, 0, k));
                if d == key {
                    assert(t(k) == weight);
                    assert(atk_and_def_weight * (sum(t, 0, k) + weight) == atk_and_def_weight
                        * sum(t, 0, k) + atk_and_def_weight * weight) by (nonlinear_arith);
                } else {
                    assert(t(k) == 0);
                    assert(mass(dmg_probs@, d) == mass(before, d));
                }
            }
            assert forall|d: i32|
                #![trigger dmg_probs@.contains_key(d)]
                dmg_probs@.contains_key(d) <==> start.contains_key(d) || pair_reaches(
                    att,
                    def,
                    orig_dmg as int,
                    k + 1,
                    d as int,
                ) by {
                if pair_reaches(att, def, orig_dmg as int, k + 1, d as int) {
                    let j = choose|j: int|
                        0 <= j < k + 1 && #[trigger] damage_key(att, def, orig_dmg as int, j)
                            == d as int;
                    if j < k {
                        assert(pair_reaches(att, def, orig_dmg as int, k, d as int));
                    }
                }
                if pair_reaches(att, def, orig_dmg as int, k, d as int) {
                    let j = choose|j: int|
                        0 <= j < k && #[trigger] damage_key(att, def, orig_dmg as int, j)
                            == d as int;
                    assert(0 <= j < k + 1 && damage_key(att, def, orig_dmg as int, j) == d as int);
                }
                if d == key {
                    assert(damage_key(att, def, orig_dmg as int, k) == d as int);
                }
            }
        }
        shield_successes = shield_successes + 1;
    }
}

/// For each number of successes of the defender, the weight with which
/// `atk_successes` successes against it end in the damage `d`.
pub open spec fn row_values(
    attacker: Model,
    defender: Model,
    atk_successes: int,
    d: int,
) -> spec_fn(int) -> int {
    |def_successes: int| pair_share(attacker, defender, atk_successes - def_successes, d)
}

/// The weight with which `atk_successes` successes of the attacker end in the
/// damage `d`, over all that the defender may score.
pub open spec fn row_share(
    attacker: Model,
    defender: Model,
    def_counts: Map<i32, u128>,
    atk_successes: int,
    d: int,
) -> int {
    weighted_sum(def_counts, row_values(attacker, defender, atk_successes, d))
}

/// For each number of successes of the attacker, the weight with which it
/// ends in the damage `d`.
pub open spec fn round_values(
    attacker: Model,
    defender: Model,
    def_counts: Map<i32, u128>,
    d: int,
) -> spec_fn(int) -> int {
    |atk_successes: int| row_share(attacker, defender, def_counts, atk_successes, d)
}

/// The weight of the damage `d` in one round: the sum, over every number of
/// successes of the attacker, of the defender and of blocks that leave `d`, of
/// the product of their three weights.
pub open spec fn single_round_mass(
    attacker: Model,
    defender: Model,
    atk_counts: Map<i32, u128>,
    def_counts: Map<i32, u128>,
    d: int,
) -> int {
    weighted_sum(atk_counts, round_values(attacker, defender, def_counts, d))
}

/// Some number of successes of the defender and some number of blocks turn
/// `x` successes of the attacker into the damage `d`.
pub open spec fn row_full(
    attacker: Model,
    defender: Model,
    x: int,
    def_counts: Map<i32, u128>,
    d: int,
) -> bool {
    exists|y: i32| #[trigger]
        def_counts.contains_key(y) && pair_full(attacker, defender, x, y as int, d)
}

/// The damage `d` can come up in one round.
pub open spec fn is_outcome(
    attacker: Model,
    defender: Model,
    atk_counts: Map<i32, u128>,
    def_counts: Map<i32, u128>,
    d: int,
) -> bool {
    exists|x: i32| #[trigger]
        atk_counts.contains_key(x) && row_full(attacker, defender, x as int, def_counts, d)
}

/// No pair of success counts gives a damage a negative weight.
proof fn lemma_row_values_nonneg(attacker: Model, defender: Model, x: int, d: int)
    requires
        attacker.valid(),
        defender.valid(),
    ensures
        forall|y: int| #[trigger] row_values(attacker, defender, x, d)(y) >= 0,
{
    assert forall|y: int| #[trigger] row_values(attacker, defender, x, d)(y) >= 0 by {
        lemma_shield_bounds(attacker, defender, x - y);
        lemma_pair_prefix(
            attacker,
            defender,
            x - y,
            d,
            shield_dice(attacker, defender, x - y) + 1,
        );
    }
}

/// One more entry of the defender's counts adds its weight times the share
/// of its pair, and a part of the counts gives no more than all of them.
proof fn lemma_row_step(
    attacker: Model,
    defender: Model,
    items: Seq<(i32, u128)>,
    def_counts: Map<i32, u128>,
    b: int,
    x: int,
    d: int,
)
    requires
        attacker.valid(),
        defender.valid(),
        lists(items, def_counts),
        0 <= b < items.len(),
    ensures
        row_share(attacker, defender, seen(items, b + 1), x, d) == row_share(
            attacker,
            defender,
            seen(items, b),
            x,
            d,
        ) + items[b].1 * pair_share(attacker, defender, x - items[b].0, d),
        0 <= row_share(attacker, defender, seen(items, b), x, d),
        0 <= pair_share(attacker, defender, x - items[b].0, d),
        row_share(attacker, defender, seen(items, b + 1), x, d) <= row_share(
            attacker,
            defender,
            def_counts,
            x,
            d,
        ),
{
    let values = row_values(attacker, defender, x, d);
    lemma_seen(items, def_counts, b);
    lemma_seen(items, def_counts, b + 1);
    lemma_row_values_nonneg(attacker, defender, x, d);
    lemma_weighted_insert(seen(items, b), items[b].0, items[b].1, values);
    lemma_weighted_nonneg(seen(items, b), values);
    lemma_weighted_le(seen(items, b + 1), def_counts, values);
    assert(values(items[b].0 as int) >= 0);
}

/// No number of successes of the attacker gives a damage a negative weight.
proof fn lemma_round_values_nonneg(
    attacker: Model,
    defender: Model,
    def_counts: Map<i32, u128>,
    d: int,
)
    requires
        attacker.valid(),
        defender.valid(),
    ensures
        forall|x: int| #[trigger] round_values(attacker, defender, def_counts, d)(x) >= 0,
{
    assert forall|x: int| #[trigger] round_values(attacker, defender, def_counts, d)(x) >= 0 by {
        lemma_row_values_nonneg(attacker, defender, x, d);
        lemma_weighted_nonneg(def_counts, row_values(attacker, defender, x, d));
    }
}

/// One more entry of the attacker's counts adds its weight times the share
/// of its row, and a part of the counts gives no more than all of them.
proof fn lemma_round_step(
    attacker: Model,
    defender: Model,
    items: Seq<(i32, u128)>,
    atk_counts: Map<i32, u128>,
    def_counts: Map<i32, u128>,
    a: int,
    d: int,
)
    requires
        attacker.valid(),
        defender.valid(),
        lists(items, atk_counts),
        0 <= a < items.len(),
    ensures
        single_round_mass(attacker, defender, seen(items, a + 1), def_counts, d)
            == single_round_mass(attacker, defender, seen(items, a), def_counts, d) + items[a].1
            * row_share(attacker, defender, def_counts, items[a].0 as int, d),
        0 <= single_round_mass(attacker, defender, seen(items, a), def_counts, d),
        0 <= row_share(attacker, defender, def_counts, items[a].0 as int, d),
        single_round_mass(attacker, defender, seen(items, a + 1), def_counts, d)
            <= single_round_mass(attacker, defender, atk_counts, def_counts, d),
{
    let values = round_values(attacker, defender, def_counts, d);
    lemma_seen(items, atk_counts, a);
    lemma_seen(items, atk_counts, a + 1);
    lemma_round_values_nonneg(attacker, defender, def_counts, d);
    lemma_weighted_insert(seen(items, a), items[a].0, items[a].1, values);
    lemma_weighted_nonneg(seen(items, a), values);
    lemma_weighted_le(seen(items, a + 1), atk_counts, values);
    assert(values(items[a].0 as int) >= 0);
}

/// Adds to `dmg_probs` what one number of successes of the attacker
/// contributes, over all that the defender may score.
fn add_row(
    attacker: &Model,
    defender: &Model,
    atk_successes: i32,
    atk_weight: u128,
    def_counts: &HashMap<i32, u128>,
    def_items: &Vec<(i32, u128)>,
    cache: &mut BinomialCache,
    dmg_probs: &mut HashMap<i32, u128>,
)
    requires
        attacker.valid(),
        defender.valid(),
        old(cache).wf(),
        lists(def_items@, def_counts@),
        forall|y: i32| #[trigger]
            def_counts@.contains_key(y) ==> orig_fits(*attacker, *defender, atk_successes - y),
        forall|d: int|
            mass(old(dmg_probs)@, d) + atk_weight * #[trigger] row_share(
                *attacker,
                *defender,
                def_counts@,
                atk_successes as int,
                d,
            ) <= u128::MAX,
    ensures
        final(cache).wf(),
        forall|d: int|
            mass(final(dmg_probs)@, d) == mass(old(dmg_probs)@, d) + atk_weight
                * #[trigger] row_share(*attacker, *defender, def_counts@, atk_successes as int, d),
        forall|d: i32|
            #![trigger final(dmg_probs)@.contains_key(d)]
            final(dmg_probs)@.contains_key(d) <==> old(dmg_probs)@.contains_key(d) || row_full(
                *attacker,
                *defender,
                atk_successes as int,
                def_counts@,
                d as int,
            ),
{
    let ghost att = *attacker;
    let ghost def = *defender;
    let ghost start = dmg_probs@;
    let ghost x = atk_successes as int;
    proof {
        assert forall|d: int|
            mass(dmg_probs@, d) == mass(start, d) + atk_weight * #[trigger] row_share(
                att,
                def,
                seen(def_items@, 0),
                x,
                d,
            ) by {
            lemma_weighted_empty(row_values(att, def, x, d));
            assert(atk_weight * 0 == 0) by (nonlinear_arith);
        }
    }
    let mut b: usize = 0;
    while b < def_items.len()
        invariant
            attacker.valid(),
            defender.valid(),
            cache.wf(),
            att == *attacker,
            def == *defender,
            x == atk_successes,
            lists(def_items@, def_counts@),
            0 <= b <= def_items.len(),
            forall|y: i32| #[trigger]
                def_counts@.contains_key(y) ==> orig_fits(att, def, atk_successes - y),
            forall|d: int|
                mass(start, d) + atk_weight * #[trigger] row_share(att, def, def_counts@, x, d)
                    <= u128::MAX,
            forall|d: int|
                mass(dmg_probs@, d) == mass(start, d) + atk_weight * #[trigger] row_share(
                    att,
                    def,
                    seen(def_items@, b as int),
                    x,
                    d,
                ),
            forall|d: i32|
                #![trigger dmg_probs@.contains_key(d)]
                dmg_probs@.contains_key(d) <==> start.contains_key(d) || exists|j: int|
                    0 <= j < b && #[trigger] pair_full(
                        att,
                        def,
                        x,
                        def_items@[j].0 as int,
                        d as int,
                    ),
        decreases def_items.len() - b,
    {
        let (def_successes, def_weight) = def_items[b];
        let ghost before = dmg_probs@;
        let ghost y = def_successes as int;
        proof {
            assert(def_counts@.contains_key(def_items@[b as int].0));
            assert forall|d: int|
                mass(before, d) + atk_weight * def_weight * #[trigger] pair_share(
                    att,
                    def,
                    x - y,
                    d,
                ) <= u128::MAX by {
                lemma_row_step(att, def, def_items@, def_counts@, b as int, x, d);
                let part = row_share(att, def, seen(def_items@, b as int), x, d);
                let more = row_share(att, def, seen(def_items@, b + 1), x, d);
                let all = row_share(att, def, def_counts@, x, d);
                let share = pair_share(att, def, x - y, d);
                assert(mass(before, d) == mass(start, d) + atk_weight * part);
                assert(mass(start, d) + atk_weight * all <= u128::MAX);
                assert(atk_weight * part + atk_weight * def_weight * share <= atk_weight * all)
                    by (nonlinear_arith)
                    requires
                        more == part + def_weight * share,
                        more <= all,
                        atk_weight >= 0,
                ;
            }
        }
        add_pair(
            attacker,
            defender,
            atk_successes,
            atk_weight,
            def_successes,
            def_weight,
            cache,
            dmg_probs,
        );
        proof {
            assert forall|d: int|
                mass(dmg_probs@, d) == mass(start, d) + atk_weight * #[trigger] row_share(
                    att,
                    def,
                    seen(def_items@, b + 1),
                    x,
                    d,
                ) by {
                lemma_row_step(att, def, def_items@, def_counts@, b as int, x, d);
                let part = row_share(att, def, seen(def_items@, b as int), x, d);
                let more = row_share(att, def, seen(def_items@, b + 1), x, d);
                let share = pair_share(att, def, x - y, d);
                assert(mass(before, d) == mass(start, d) + atk_weight * part);
                assert(mass(dmg_probs@, d) == mass(before, d) + atk_weight * def_weight * share);
                assert(atk_weight * part + atk_weight * def_weight * share == atk_weight * more)
                    by (nonlinear_arith)
                    requires
                        more == part + def_weight * share,
                ;
            }
            assert forall|d: i32|
                #![trigger dmg_probs@.contains_key(d)]
                dmg_probs@.contains_key(d) <==> start.contains_key(d) || exists|j: int|
                    0 <= j < b + 1 && #[trigger] pair_full(
                        att,
                        def,
                        x,
                        def_items@[j].0 as int,
                        d as int,
                    ) by {
                if exists|j: int|
                    0 <= j < b + 1 && #[trigger] pair_full(
                        att,
                        def,
                        x,
                        def_items@[j].0 as int,
                        d as int,
                    ) {
                    let j = choose|j: int|
                        0 <= j < b + 1 && #[trigger] pair_full(
                            att,
                            def,
                            x,
                            def_items@[j].0 as int,
                            d as int,
                        );
                    if j < b {
                        assert(before.contains_key(d));
                    }
                }
                if before.contains_key(d) && !start.contains_key(d) {
                    let j = choose|j: int|
                        0 <= j < b && #[trigger] pair_full(
                            att,
                            def,
                            x,
                            def_items@[j].0 as int,
                            d as int,
                        );
                    assert(0 <= j < b + 1 && pair_full(
                        att,
                        def,
                        x,
                        def_items@[j].0 as int,
                        d as int,
                    ));
                }
                if pair_full(att, def, x, y, d as int) {
                    assert(pair_full(att, def, x, def_items@[b as int].0 as int, d as int));
                }
            }
        }
        b = b + 1;
    }
    proof {
        lemma_seen(def_items@, def_counts@, b as int);
        assert forall|d: i32|
            #![trigger dmg_probs@.contains_key(d)]
            dmg_probs@.contains_key(d) <==> start.contains_key(d) || row_full(
                att,
                def,
                x,
                def_counts@,
                d as int,
            ) by {
            if row_full(att, def, x, def_counts@, d as int) {
                let y = choose|y: i32| #[trigger]
                    def_counts@.contains_key(y) && pair_full(att, def, x, y as int, d as int);
                let j = choose|j: int| 0 <= j < def_items@.len() && #[trigger] def_items@[j].0 == y;
                assert(0 <= j < b && pair_full(att, def, x, def_items@[j].0 as int, d as int));
            }
            if dmg_probs@.contains_key(d) && !start.contains_key(d) {
                let j = choose|j: int|
                    0 <= j < b && #[trigger] pair_full(
                        att,
                        def,
                        x,
                        def_items@[j].0 as int,
                        d as int,
                    );
                assert(def_counts@.contains_key(def_items@[j].0));
            }
        }
    }
}

/// The weights of all numbers of blocks, as a function.
pub open spec fn shield_weights(attacker: Model, defender: Model, orig_dmg: int) -> spec_fn(
    int,
) -> int {
    |k: int| shield_weight(attacker, defender, orig_dmg, k)
}

/// The shares of all damages in one difference of successes, as a function.
pub open spec fn pair_shares(attacker: Model, defender: Model, orig_dmg: int) -> spec_fn(
    int,
) -> int {
    |d: int| pair_share(attacker, defender, orig_dmg, d)
}

/// The shares of all damages in one number of successes of the attacker, as
/// a function.
pub open spec fn row_shares(
    attacker: Model,
    defender: Model,
    def_counts: Map<i32, u128>,
    atk_successes: int,
) -> spec_fn(int) -> int {
    |d: int| row_share(attacker, defender, def_counts, atk_successes, d)
}

/// The weights of all damages in one round, as a function.
pub open spec fn round_masses(
    attacker: Model,
    defender: Model,
    atk_counts: Map<i32, u128>,
    def_counts: Map<i32, u128>,
) -> spec_fn(int) -> int {
    |d: int| single_round_mass(attacker, defender, atk_counts, def_counts, d)
}

/// The denominator of all shield weights of the two models.
pub open spec fn shield_denominator(attacker: Model, defender: Model) -> int {
    pow(SHIELD_SIDES as int, shield_scale(attacker, defender) as nat)
}

/// The weights of all numbers of blocks add up to the shield denominator.
pub proof fn lemma_shield_total(attacker: Model, defender: Model, orig_dmg: int)
    requires
        attacker.valid(),
        defender.valid(),
    ensures
        sum(
            shield_weights(attacker, defender, orig_dmg),
            0,
            shield_dice(attacker, defender, orig_dmg) + 1,
        ) == shield_denominator(attacker, defender),
{
    let n = shield_dice(attacker, defender, orig_dmg) as nat;
    let rest = (shield_scale(attacker, defender) - n) as nat;
    let up = pow(8, rest);
    let plain = binomial_weights(n, 3, 5);
    let scaled = shield_weights(attacker, defender, orig_dmg);
    assert forall|k: int| 0 <= k < n + 1 implies #[trigger] scaled(k) == up * plain(k) by {
        assert(plain(k) * up == up * plain(k)) by (nonlinear_arith);
    }
    lemma_sum_scale(plain, scaled, up, 0, (n + 1) as int);
    lemma_binomial_theorem(n, 3, 5);
    lemma_pow_adds(8, rest, n);
}

/// Blocks only take damage away: where the damage that nothing is blocked
/// of fits in 32 bits, so does the damage after any number of blocks.
pub proof fn lemma_damage_key_bound(attacker: Model, defender: Model, orig_dmg: int, k: int)
    requires
        attacker.valid(),
        defender.valid(),
        orig_fits(attacker, defender, orig_dmg),
        0 <= k,
    ensures
        key_lo() <= damage_key(attacker, defender, orig_dmg, k) < key_hi(),
{
}

/// No damage has a greater share in a pair than the shield denominator.
pub proof fn lemma_pair_share_le(attacker: Model, defender: Model, orig_dmg: int, d: int)
    requires
        attacker.valid(),
        defender.valid(),
    ensures
        0 <= pair_share(attacker, defender, orig_dmg, d) <= shield_denominator(attacker, defender),
{
    let end = shield_dice(attacker, defender, orig_dmg) + 1;
    let t = pair_terms(attacker, defender, orig_dmg, d);
    let w = shield_weights(attacker, defender, orig_dmg);
    assert forall|k: int| 0 <= k < end implies #[trigger] t(k) <= w(k) by {
        lemma_shield_weight_bounds(attacker, defender, orig_dmg, k);
    }
    lemma_sum_le(t, w, 0, end);
    lemma_shield_total(attacker, defender, orig_dmg);
    lemma_pair_prefix(attacker, defender, orig_dmg, d, end);
}

/// The shares of all damages in a pair add up to the shield denominator.
pub proof fn lemma_pair_share_total(attacker: Model, defender: Model, orig_dmg: int)
    requires
        attacker.valid(),
        defender.valid(),
        orig_fits(attacker, defender, orig_dmg),
    ensures
        sum(pair_shares(attacker, defender, orig_dmg), key_lo(), key_hi()) == shield_denominator(
            attacker,
            defender,
        ),
{
    let end = shield_dice(attacker, defender, orig_dmg) + 1;
    let table = |d: int, k: int| pair_terms(attacker, defender, orig_dmg, d)(k);
    let rows = pair_shares(attacker, defender, orig_dmg);
    let cols = shield_weights(attacker, defender, orig_dmg);
    assert forall|d: int| key_lo() <= d < key_hi() implies #[trigger] rows(d) == sum(
        |k: int| table(d, k),
        0,
        end,
    ) by {
        lemma_sum_ext(pair_terms(attacker, defender, orig_dmg, d), |k: int| table(d, k), 0, end);
    }
    assert forall|k: int| 0 <= k < end implies #[trigger] cols(k) == sum(
        |d: int| table(d, k),
        key_lo(),
        key_hi(),
    ) by {
        lemma_damage_key_bound(attacker, defender, orig_dmg, k);
        lemma_sum_single(
            |d: int| table(d, k),
            key_lo(),
            key_hi(),
            damage_key(attacker, defender, orig_dmg, k),
        );
    }
    lemma_sum_swap(table, rows, cols, key_lo(), key_hi(), 0, end);
    lemma_shield_total(attacker, defender, orig_dmg);
}

/// The shares of all damages in one number of successes of the attacker add
/// up to the shield denominator times the total of the defender's counts.
pub proof fn lemma_row_total(
    attacker: Model,
    defender: Model,
    def_counts: Map<i32, u128>,
    x: int,
)
    requires
        attacker.valid(),
        defender.valid(),
        forall|y: i32| #[trigger]
            def_counts.contains_key(y) ==> orig_fits(attacker, defender, x - y),
    ensures
        sum(row_shares(attacker, defender, def_counts, x), key_lo(), key_hi())
            == shield_denominator(attacker, defender) * total(def_counts),
{
    let table = |d: int, y: int| pair_share(attacker, defender, x - y, d);
    let rows = row_shares(attacker, defender, def_counts, x);
    let cols = |y: int| sum(|d: int| table(d, y), key_lo(), key_hi());
    assert forall|d: int| key_lo() <= d < key_hi() implies #[trigger] rows(d) == weighted_sum(
        def_counts,
        |y: int| table(d, y),
    ) by {
        lemma_weighted_ext(def_counts, row_values(attacker, defender, x, d), |y: int| table(d, y));
    }
    lemma_weighted_swap(def_counts, table, rows, cols, key_lo(), key_hi());
    assert forall|y: i32| #[trigger] def_counts.contains_key(y) implies cols(y as int)
        == shield_denominator(attacker, defender) by {
        lemma_pair_share_total(attacker, defender, x - y);
        lemma_sum_ext(
            pair_shares(attacker, defender, x - y),
            |d: int| table(d, y as int),
            key_lo(),
            key_hi(),
        );
    }
    lemma_weighted_constant(def_counts, cols, shield_denominator(attacker, defender));
}

/// The denominator of one round: the weights of all damages add up to the
/// product of the totals of the two counts and the shield denominator.
pub proof fn lemma_single_round_total(
    attacker: Model,
    defender: Model,
    atk_counts: Map<i32, u128>,
    def_counts: Map<i32, u128>,
)
    requires
        attacker.valid(),
        defender.valid(),
        pairs_fit(attacker, defender, atk_counts, def_counts),
    ensures
        sum(round_masses(attacker, defender, atk_counts, def_counts), key_lo(), key_hi()) == (
        shield_denominator(attacker, defender) * total(def_counts)) * total(atk_counts),
{
    let table = |d: int, x: int| row_share(attacker, defender, def_counts, x, d);
    let rows = round_masses(attacker, defender, atk_counts, def_counts);
    let cols = |x: int| sum(|d: int| table(d, x), key_lo(), key_hi());
    let each = shield_denominator(attacker, defender) * total(def_counts);
    assert forall|d: int| key_lo() <= d < key_hi() implies #[trigger] rows(d) == weighted_sum(
        atk_counts,
        |x: int| table(d, x),
    ) by {
        lemma_weighted_ext(
            atk_counts,
            round_values(attacker, defender, def_counts, d),
            |x: int| table(d, x),
        );
    }
    lemma_weighted_swap(atk_counts, table, rows, cols, key_lo(), key_hi());
    assert forall|x: i32| #[trigger] atk_counts.contains_key(x) implies cols(x as int) == each by {
        lemma_row_total(attacker, defender, def_counts, x as int);
        lemma_sum_ext(
            row_shares(attacker, defender, def_counts, x as int),
            |d: int| table(d, x as int),
            key_lo(),
            key_hi(),
        );
    }
    lemma_weighted_constant(atk_counts, cols, each);
}

/// No damage of one round has a greater weight than the denominator.
pub proof fn lemma_single_round_le(
    attacker: Model,
    defender: Model,
    atk_counts: Map<i32, u128>,
    def_counts: Map<i32, u128>,
    d: int,
)
    requires
        attacker.valid(),
        defender.valid(),
    ensures
        0 <= single_round_mass(attacker, defender, atk_counts, def_counts, d) <= (
        shield_denominator(attacker, defender) * total(def_counts)) * total(atk_counts),
{
    let whole = shield_denominator(attacker, defender);
    let each = whole * total(def_counts);
    let values = round_values(attacker, defender, def_counts, d);
    let flat = |x: int| each;
    assert forall|x: int| key_lo() <= x < key_hi() implies #[trigger] values(x) <= flat(x) by {
        let row = row_values(attacker, defender, x, d);
        let row_flat = |y: int| whole;
        assert forall|y: int| key_lo() <= y < key_hi() implies #[trigger] row(y) <= row_flat(y) by {
            lemma_pair_share_le(attacker, defender, x - y, d);
        }
        lemma_weighted_value_le(def_counts, row, row_flat);
        lemma_weighted_constant(def_counts, row_flat, whole);
    }
    lemma_weighted_value_le(atk_counts, values, flat);
    lemma_weighted_constant(atk_counts, flat, each);
    lemma_round_values_nonneg(attacker, defender, def_counts, d);
    lemma_weighted_nonneg(atk_counts, values);
}

/// Changing sides turns damage around: a difference of successes ends in the
/// damage `d` with the weight with which, seen from the other side, the
/// opposite difference ends in `-d`.
pub proof fn lemma_pair_mirror(attacker: Model, defender: Model, orig_dmg: int, d: int)
    ensures
        pair_share(attacker, defender, orig_dmg, d) == pair_share(
            defender,
            attacker,
            -orig_dmg,
            -d,
        ),
        forall|upto: int|
            pair_reaches(attacker, defender, orig_dmg, upto, d) == #[trigger] pair_reaches(
                defender,
                attacker,
                -orig_dmg,
                upto,
                -d,
            ),
{
    let here = pair_terms(attacker, defender, orig_dmg, d);
    let there = pair_terms(defender, attacker, -orig_dmg, -d);
    let end = shield_dice(attacker, defender, orig_dmg) + 1;
    assert forall|k: int| 0 <= k < end implies #[trigger] here(k) == there(k) by {
        assert(damage_key(attacker, defender, orig_dmg, k) == -damage_key(
            defender,
            attacker,
            -orig_dmg,
            k,
        ));
    }
    lemma_sum_ext(here, there, 0, end);
    assert forall|upto: int|
        pair_reaches(attacker, defender, orig_dmg, upto, d) == #[trigger] pair_reaches(
            defender,
            attacker,
            -orig_dmg,
            upto,
            -d,
        ) by {
        if pair_reaches(attacker, defender, orig_dmg, upto, d) {
            let k = choose|k: int|
                0 <= k < upto && #[trigger] damage_key(attacker, defender, orig_dmg, k) == d;
            assert(damage_key(defender, attacker, -orig_dmg, k) == -d);
        }
        if pair_reaches(defender, attacker, -orig_dmg, upto, -d) {
            let k = choose|k: int|
                0 <= k < upto && #[trigger] damage_key(defender, attacker, -orig_dmg, k) == -d;
            assert(damage_key(attacker, defender, orig_dmg, k) == d);
        }
    }
}

/// The mirror law of one round: with the two sides exchanged, every damage
/// `d` has the weight that `-d` had, and can come up where `-d` could. So two
/// equal models whose successes came up equally often give a distribution that
/// is symmetric around zero.
pub proof fn lemma_single_round_mirror(
    attacker: Model,
    defender: Model,
    atk_counts: Map<i32, u128>,
    def_counts: Map<i32, u128>,
    d: int,
)
    ensures
        single_round_mass(attacker, defender, atk_counts, def_counts, d) == single_round_mass(
            defender,
            attacker,
            def_counts,
            atk_counts,
            -d,
        ),
        is_outcome(attacker, defender, atk_counts, def_counts, d) == is_outcome(
            defender,
            attacker,
            def_counts,
            atk_counts,
            -d,
        ),
{
    let table = |x: int, y: int|
        mass(atk_counts, x) * (mass(def_counts, y) * pair_share(attacker, defender, x - y, d));
    let rows = weighted_terms(
        atk_counts,
        round_values(attacker, defender, def_counts, d),
    );
    let cols = weighted_terms(
        def_counts,
        round_values(defender, attacker, atk_counts, -d),
    );
    assert forall|x: int| key_lo() <= x < key_hi() implies #[trigger] rows(x) == sum(
        |y: int| table(x, y),
        key_lo(),
        key_hi(),
    ) by {
        lemma_sum_scale(
            weighted_terms(def_counts, row_values(attacker, defender, x, d)),
            |y: int| table(x, y),
            mass(atk_counts, x) as int,
            key_lo(),
            key_hi(),
        );
    }
    assert forall|y: int| key_lo() <= y < key_hi() implies #[trigger] cols(y) == sum(
        |x: int| table(x, y),
        key_lo(),
        key_hi(),
    ) by {
        let inner = weighted_terms(
            atk_counts,
            row_values(defender, attacker, y, -d),
        );
        assert forall|x: int| key_lo() <= x < key_hi() implies #[trigger] table(x, y) == mass(
            def_counts,
            y,
        ) * inner(x) by {
            lemma_pair_mirror(attacker, defender, x - y, d);
            let share = pair_share(attacker, defender, x - y, d);
            assert(pair_share(defender, attacker, y - x, -d) == share);
            assert(mass(atk_counts, x) * (mass(def_counts, y) * share) == mass(def_counts, y) * (
            mass(atk_counts, x) * share)) by (nonlinear_arith);
        }
        lemma_sum_scale(
            inner,
            |x: int| table(x, y),
            mass(def_counts, y) as int,
            key_lo(),
            key_hi(),
        );
    }
    lemma_sum_swap(table, rows, cols, key_lo(), key_hi(), key_lo(), key_hi());

    if is_outcome(attacker, defender, atk_counts, def_counts, d) {
        let x = choose|x: i32| #[trigger]
            atk_counts.contains_key(x) && row_full(attacker, defender, x as int, def_counts, d);
        let y = choose|y: i32| #[trigger]
            def_counts.contains_key(y) && pair_full(attacker, defender, x as int, y as int, d);
        lemma_pair_mirror(attacker, defender, x - y, d);
        assert(pair_full(defender, attacker, y as int, x as int, -d));
        assert(row_full(defender, attacker, y as int, atk_counts, -d));
    }
    if is_outcome(defender, attacker, def_counts, atk_counts, -d) {
        let y = choose|y: i32| #[trigger]
            def_counts.contains_key(y) && row_full(defender, attacker, y as int, atk_counts, -d);
        let x = choose|x: i32| #[trigger]
            atk_counts.contains_key(x) && pair_full(defender, attacker, y as int, x as int, -d);
        lemma_pair_mirror(attacker, defender, x - y, d);
        assert(pair_full(attacker, defender, x as int, y as int, d));
        assert(row_full(attacker, defender, x as int, def_counts, d));
    }
}

/// `single` is the damage distribution of one round in which the successes
/// of the two sides came up as often as `atk_counts` and `def_counts` say.
pub open spec fn is_single_round(
    single: Map<i32, u128>,
    attacker: Model,
    defender: Model,
    atk_counts: Map<i32, u128>,
    def_counts: Map<i32, u128>,
) -> bool {
    &&& forall|d: int|
        mass(single, d) == #[trigger] single_round_mass(
            attacker,
            defender,
            atk_counts,
            def_counts,
            d,
        )
    &&& forall|d: i32|
        #![trigger single.contains_key(d)]
        single.contains_key(d) <==> is_outcome(attacker, defender, atk_counts, def_counts, d as int)
    &&& total(single) == (shield_denominator(attacker, defender) * total(def_counts)) * total(
        atk_counts,
    )
}

/// With the two sides exchanged, the damage map of one round is turned around
/// zero, where neither map holds the one damage that has no opposite in 32
/// bits. With [`crate::convolution::lemma_rounds_mirror`] the same holds of
/// the rounds added up.
pub proof fn lemma_single_round_turns_around(
    attacker: Model,
    defender: Model,
    atk_counts: Map<i32, u128>,
    def_counts: Map<i32, u128>,
    one_way: Map<i32, u128>,
    other_way: Map<i32, u128>,
)
    requires
        is_single_round(one_way, attacker, defender, atk_counts, def_counts),
        is_single_round(other_way, defender, attacker, def_counts, atk_counts),
        !one_way.contains_key(i32::MIN),
        !other_way.contains_key(i32::MIN),
    ensures
        is_mirror(other_way, one_way),
{
    assert forall|k: int| #[trigger] mass(other_way, k) == mass(one_way, -k) by {
        lemma_single_round_mirror(attacker, defender, atk_counts, def_counts, -k);
        assert(mass(other_way, k) == single_round_mass(
            defender,
            attacker,
            def_counts,
            atk_counts,
            k,
        ));
        assert(mass(one_way, -k) == single_round_mass(
            attacker,
            defender,
            atk_counts,
            def_counts,
            -k,
        ));
    }
    assert forall|k: i32| #[trigger] other_way.contains_key(k) implies one_way.contains_key(
        (-k) as i32,
    ) by {
        lemma_single_round_mirror(attacker, defender, atk_counts, def_counts, -(k as int));
    }
    assert forall|k: i32| #[trigger] one_way.contains_key(k) implies other_way.contains_key(
        (-k) as i32,
    ) by {
        lemma_single_round_mirror(attacker, defender, atk_counts, def_counts, k as int);
    }
}

/// The damage distribution of one round, from how often each number of
/// successes came up for the attacker and for the defender.
///
/// Every pair of success counts and every number of blocks adds the product of
/// their weights at the damage that they leave. The weights of the result are
/// over the denominator `total(atk_counts) * total(def_counts) *
/// SHIELD_SIDES^shield_scale`.
pub fn calc_single_round_damage(
    attacker: &Model,
    defender: &Model,
    atk_counts: &HashMap<i32, u128>,
    def_counts: &HashMap<i32, u128>,
) -> (dmg_probs: HashMap<i32, u128>)
    requires
        attacker.valid(),
        defender.valid(),
        pairs_fit(*attacker, *defender, atk_counts@, def_counts@),
        forall|d: int| #[trigger]
            single_round_mass(*attacker, *defender, atk_counts@, def_counts@, d) <= u128::MAX,
    ensures
        is_single_round(dmg_probs@, *attacker, *defender, atk_counts@, def_counts@),
{
    let ghost att = *attacker;
    let ghost def = *defender;
    let atk_items = entries(atk_counts);
    let def_items = entries(def_counts);
    let mut dmg_probs: HashMap<i32, u128> = HashMap::new();
    let mut cache = BinomialCache::new();
    proof {
        assert forall|d: int|
            mass(dmg_probs@, d) == #[trigger] single_round_mass(
                att,
                def,
                seen(atk_items@, 0),
                def_counts@,
                d,
            ) by {
            lemma_weighted_empty(round_values(att, def, def_counts@, d));
        }
    }
    let mut a: usize = 0;
    while a < atk_items.len()
        invariant
            attacker.valid(),
            defender.valid(),
            cache.wf(),
            att == *attacker,
            def == *defender,
            lists(atk_items@, atk_counts@),
            lists(def_items@, def_counts@),
            0 <= a <= atk_items.len(),
            pairs_fit(att, def, atk_counts@, def_counts@),
            forall|d: int| #[trigger]
                single_round_mass(att, def, atk_counts@, def_counts@, d) <= u128::MAX,
            forall|d: int|
                mass(dmg_probs@, d) == #[trigger] single_round_mass(
                    att,
                    def,
                    seen(atk_items@, a as int),
                    def_counts@,
                    d,
                ),
            forall|d: i32|
                #![trigger dmg_probs@.contains_key(d)]
                dmg_probs@.contains_key(d) <==> exists|i: int|
                    0 <= i < a && #[trigger] row_full(
                        att,
                        def,
                        atk_items@[i].0 as int,
                        def_counts@,
                        d as int,
                    ),
        decreases atk_items.len() - a,
    {
        let (atk_successes, atk_weight) = atk_items[a];
        let ghost before = dmg_probs@;
        proof {
            assert(atk_counts@.contains_key(atk_items@[a as int].0));
            assert forall|d: int|
                mass(before, d) + atk_weight * #[trigger] row_share(
                    att,
                    def,
                    def_counts@,
                    atk_successes as int,
                    d,
                ) <= u128::MAX by {
                lemma_round_step(att, def, atk_items@, atk_counts@, def_counts@, a as int, d);
                assert(single_round_mass(att, def, atk_counts@, def_counts@, d) <= u128::MAX);
            }
        }
        add_row(
            attacker,
            defender,
            atk_successes,
            atk_weight,
            def_counts,
            &def_items,
            &mut cache,
            &mut dmg_probs,
        );
        proof {
            assert forall|d: int|
                mass(dmg_probs@, d) == #[trigger] single_round_mass(
                    att,
                    def,
                    seen(atk_items@, a + 1),
                    def_counts@,
                    d,
                ) by {
                lemma_round_step(att, def, atk_items@, atk_counts@, def_counts@, a as int, d);
                assert(mass(dmg_probs@, d) == mass(before, d) + atk_weight * row_share(
                    att,
                    def,
                    def_counts@,
                    atk_successes as int,
                    d,
                ));
            }
            assert forall|d: i32|
                #![trigger dmg_probs@.contains_key(d)]
                dmg_probs@.contains_key(d) <==> exists|i: int|
                    0 <= i < a + 1 && #[trigger] row_full(
                        att,
                        def,
                        atk_items@[i].0 as int,
                        def_counts@,
                        d as int,
                    ) by {
                if exists|i: int|
                    0 <= i < a + 1 && #[trigger] row_full(
                        att,
                        def,
                        atk_items@[i].0 as int,
                        def_counts@,
                        d as int,
                    ) {
                    let i = choose|i: int|
                        0 <= i < a + 1 && #[trigger] row_full(
                            att,
                            def,
                            atk_items@[i].0 as int,
                            def_counts@,
                            d as int,
                        );
                    if i < a {
                        assert(before.contains_key(d));
                    }
                }
                if before.contains_key(d) {
                    let i = choose|i: int|
                        0 <= i < a && #[trigger] row_full(
                            att,
                            def,
                            atk_items@[i].0 as int,
                            def_counts@,
                            d as int,
                        );
                    assert(0 <= i < a + 1 && row_full(
                        att,
                        def,
                        atk_items@[i].0 as int,
                        def_counts@,
                        d as int,
                    ));
                }
                if row_full(att, def, atk_successes as int, def_counts@, d as int) {
                    assert(row_full(
                        att,
                        def,
                        atk_items@[a as int].0 as int,
                        def_counts@,
                        d as int,
                    ));
                }
            }
        }
        a = a + 1;
    }
    proof {
        lemma_seen(atk_items@, atk_counts@, a as int);
        assert forall|d: i32|
            #![trigger dmg_probs@.contains_key(d)]
            dmg_probs@.contains_key(d) <==> is_outcome(
                att,
                def,
                atk_counts@,
                def_counts@,
                d as int,
            ) by {
            if is_outcome(att, def, atk_counts@, def_counts@, d as int) {
                let x = choose|x: i32| #[trigger]
                    atk_counts@.contains_key(x) && row_full(
                        att,
                        def,
                        x as int,
                        def_counts@,
                        d as int,
                    );
                let i = choose|i: int| 0 <= i < atk_items@.len() && #[trigger] atk_items@[i].0 == x;
                assert(0 <= i < a && row_full(
                    att,
                    def,
                    atk_items@[i].0 as int,
                    def_counts@,
                    d as int,
                ));
            }
            if dmg_probs@.contains_key(d) {
                let i = choose|i: int|
                    0 <= i < a && #[trigger] row_full(
                        att,
                        def,
                        atk_items@[i].0 as int,
                        def_counts@,
                        d as int,
                    );
                assert(atk_counts@.contains_key(atk_items@[i].0));
            }
        }
        lemma_single_round_total(att, def, atk_counts@, def_counts@);
        lemma_sum_ext(
            |d: int| mass(dmg_probs@, d) as int,
            round_masses(att, def, atk_counts@, def_counts@),
            key_lo(),
            key_hi(),
        );
    }
    dmg_probs
}

/// One round can be computed from these counts: the models are valid, every
/// pair of counted successes can be fought out, and the totals of the counts
/// and the denominator of the round fit in 128 bits.
pub open spec fn round_fits(
    attacker: Model,
    defender: Model,
    atk_counts: Map<i32, u128>,
    def_counts: Map<i32, u128>,
) -> bool {
    &&& attacker.valid()
    &&& defender.valid()
    &&& pairs_fit(attacker, defender, atk_counts, def_counts)
    &&& total(atk_counts) <= u128::MAX
    &&& total(def_counts) <= u128::MAX
    &&& (shield_denominator(attacker, defender) * total(def_counts)) * total(atk_counts)
        <= u128::MAX
}

/// Whether the given pair of successes can be fought out.
fn check_orig_fits(attacker: &Model, defender: &Model, x: i32, y: i32) -> (ok: bool)
    ensures
        ok == orig_fits(*attacker, *defender, x - y),
{
    let wide: i64 = x as i64 - y as i64;
    if wide < i32::MIN as i64 || wide > i32::MAX as i64 {
        return false;
    }
    mitigated_damage(attacker, defender, wide as i32, 0).is_some()
}

/// Whether every pair of counted successes can be fought out.
fn check_pairs_fit(
    attacker: &Model,
    defender: &Model,
    atk_counts: &HashMap<i32, u128>,
    def_counts: &HashMap<i32, u128>,
) -> (ok: bool)
    ensures
        ok == pairs_fit(*attacker, *defender, atk_counts@, def_counts@),
{
    let atk_items = entries(atk_counts);
    let def_items = entries(def_counts);
    let mut a: usize = 0;
    while a < atk_items.len()
        invariant
            lists(atk_items@, atk_counts@),
            lists(def_items@, def_counts@),
            0 <= a <= atk_items.len(),
            forall|i: int, j: int|
                0 <= i < a && 0 <= j < def_items@.len() ==> orig_fits(
                    *attacker,
                    *defender,
                    (#[trigger] atk_items@[i]).0 - (#[trigger] def_items@[j]).0,
                ),
        decreases atk_items.len() - a,
    {
        let mut b: usize = 0;
        while b < def_items.len()
            invariant
                lists(atk_items@, atk_counts@),
                lists(def_items@, def_counts@),
                0 <= a < atk_items.len(),
                0 <= b <= def_items.len(),
                forall|j: int|
                    0 <= j < b ==> orig_fits(
                        *attacker,
                        *defender,
                        atk_items@[a as int].0 - (#[trigger] def_items@[j]).0,
                    ),
            decreases def_items.len() - b,
        {
            if !check_orig_fits(attacker, defender, atk_items[a].0, def_items[b].0) {
                assert(atk_counts@.contains_key(atk_items@[a as int].0));
                assert(def_counts@.contains_key(def_items@[b as int].0));
                return false;
            }
            b = b + 1;
        }
        a = a + 1;
    }
    assert forall|x: i32, y: i32|
        #![trigger atk_counts@.contains_key(x), def_counts@.contains_key(y)]
        atk_counts@.contains_key(x) && def_counts@.contains_key(y) implies orig_fits(
        *attacker,
        *defender,
        x - y,
    ) by {
        let i = choose|i: int| 0 <= i < atk_items@.len() && #[trigger] atk_items@[i].0 == x;
        let j = choose|j: int| 0 <= j < def_items@.len() && #[trigger] def_items@[j].0 == y;
        assert(orig_fits(*attacker, *defender, atk_items@[i].0 - def_items@[j].0));
    }
    true
}

/// The damage distribution of one round, as [`calc_single_round_damage`]
/// gives it, where it can be computed: `None` where a model is not valid,
/// where a pair of counted successes leaves a damage that does not fit in 32
/// bits, or where the denominator of the round does not fit in 128 bits.
pub fn checked_single_round_damage(
    attacker: &Model,
    defender: &Model,
    atk_counts: &HashMap<i32, u128>,
    def_counts: &HashMap<i32, u128>,
) -> (result: Option<HashMap<i32, u128>>)
    ensures
        match result {
            Some(dmg_probs) => round_fits(*attacker, *defender, atk_counts@, def_counts@)
                && is_single_round(dmg_probs@, *attacker, *defender, atk_counts@, def_counts@),
            None => !round_fits(*attacker, *defender, atk_counts@, def_counts@),
        },
{
    if !attacker.is_valid() || !defender.is_valid() {
        return None;
    }
    if !check_pairs_fit(attacker, defender, atk_counts, def_counts) {
        return None;
    }
    let atk_total = match checked_total(atk_counts) {
        Some(t) => t,
        None => {
            return None;
        },
    };
    let def_total = match checked_total(def_counts) {
        Some(t) => t,
        None => {
            return None;
        },
    };
    let scale: i32 = if attacker.num_shield_dice >= defender.num_shield_dice {
        attacker.num_shield_dice
    } else {
        defender.num_shield_dice
    };
    proof {
        lemma_shield_denominator(scale as nat);
    }
    let shield_total: u128 = power(SHIELD_SIDES as u128, scale as u32);
    let fits = atk_total == 0 || def_total == 0 || match shield_total.checked_mul(def_total) {
        Some(per_attack) => per_attack.checked_mul(atk_total).is_some(),
        None => false,
    };
    proof {
        let whole = (shield_total * def_total) * atk_total;
        assert(whole == (shield_denominator(*attacker, *defender) * total(def_counts@)) * total(
            atk_counts@,
        ));
        if atk_total == 0 || def_total == 0 {
            assert(whole == 0) by (nonlinear_arith)
                requires
                    whole == (shield_total * def_total) * atk_total,
                    atk_total == 0 || def_total == 0,
            ;
        } else if !fits {
            assert(whole > u128::MAX) by (nonlinear_arith)
                requires
                    whole == (shield_total * def_total) * atk_total,
                    shield_total * def_total > u128::MAX || (shield_total * def_total) * atk_total
                        > u128::MAX,
                    atk_total >= 1,
                    def_total >= 1,
                    shield_total >= 1,
            ;
        }
    }
    if !fits {
        return None;
    }
    proof {
        assert forall|d: int| #[trigger]
            single_round_mass(*attacker, *defender, atk_counts@, def_counts@, d)
                <= u128::MAX by {
            lemma_single_round_le(*attacker, *defender, atk_counts@, def_counts@, d);
        }
    }
    Some(calc_single_round_damage(attacker, defender, atk_counts, def_counts))
}

} // verus!
