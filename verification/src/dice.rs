//! Simulated rolls of open-ended dice.

use rand::distributions::{Distribution, Uniform};
use rand::rngs::ThreadRng;
use std::collections::HashMap;
use vstd::prelude::*;
use crate::model::{Model, PIP_HI, PIP_LO};
use crate::weight_map::{
    add_to_map_value, lemma_mass_le_total, lemma_total_empty, lemma_total_insert, mass, total,
};

verus! {

/// The thread-local random number generator of `rand`, opaque to the proofs.
#[verifier::external_type_specification]
#[verifier::external_body]
pub struct ExThreadRng(ThreadRng);

/// `rand::thread_rng`: the generator of the calling thread, seeded by the
/// system. Nothing is claimed of it.
pub assume_specification[ rand::thread_rng ]() -> (rng: ThreadRng);

/// One draw from `rand`'s `Uniform::new(low, high)` by `Distribution::sample`.
/// `Uniform::new` panics unless `low < high`; a sample then lies in the
/// half-open range from `low` to `high`. Nothing is claimed of which value
/// comes.
#[verifier::external_body]
fn sample_uniform(rng: &mut ThreadRng, low: i32, high: i32) -> (pip: i32)
    requires
        low < high,
    ensures
        low <= pip < high,
{
    Uniform::new(low, high).sample(rng)
}

/// A tally of successes and failures.
#[derive(Clone, Copy, Debug)]
pub struct Sf {
    /// Rolls that reached the threshold.
    pub s: i32,
    /// Rolls that did not.
    pub f: i32,
}

impl Sf {
    /// The empty tally.
    pub fn new() -> (sf: Sf)
        ensures
            sf.s == 0,
            sf.f == 0,
    {
        Sf { s: 0, f: 0 }
    }

    /// Adds the counts of `other` to this tally.
    pub fn add(&mut self, other: &Sf)
        requires
            i32::MIN <= old(self).s + other.s <= i32::MAX,
            i32::MIN <= old(self).f + other.f <= i32::MAX,
        ensures
            final(self).s == old(self).s + other.s,
            final(self).f == old(self).f + other.f,
    {
        self.s += other.s;
        self.f += other.f;
    }

    /// Counts one roll that showed `pip`: a success where it reaches
    /// `dice_stat`, a failure where it does not.
    pub fn record(&mut self, pip: i32, dice_stat: i32)
        requires
            old(self).s < i32::MAX,
            old(self).f < i32::MAX,
        ensures
            pip >= dice_stat ==> final(self).s == old(self).s + 1 && final(self).f == old(self).f,
            pip < dice_stat ==> final(self).s == old(self).s && final(self).f == old(self).f + 1,
    {
        if pip >= dice_stat {
            self.s += 1;
        } else {
            self.f += 1;
        }
    }
}

/// Whether a die that shows `pip_outcome` is rolled again: it is where it
/// shows its highest face.
pub fn explodes(pip_outcome: i32) -> (again: bool)
    ensures
        again == (pip_outcome == PIP_HI),
{
    pip_outcome == PIP_HI
}

/// `faces` is what one open-ended die shows: it is rolled again after every
/// highest face, and no more after the first face below it.
pub open spec fn is_open_ended_roll(faces: Seq<i32>) -> bool {
    &&& faces.len() >= 1
    &&& forall|i: int| 0 <= i < faces.len() ==> PIP_LO <= #[trigger] faces[i] <= PIP_HI
    &&& forall|i: int| 0 <= i < faces.len() - 1 ==> #[trigger] faces[i] == PIP_HI
    &&& faces[faces.len() - 1] != PIP_HI
}

/// How many of `faces` reach `dice_stat`.
pub open spec fn count_at_least(faces: Seq<i32>, dice_stat: int) -> nat
    decreases faces.len(),
{
    if faces.len() == 0 {
        0
    } else if faces.last() >= dice_stat {
        count_at_least(faces.drop_last(), dice_stat) + 1
    } else {
        count_at_least(faces.drop_last(), dice_stat)
    }
}

/// How many of `faces` stay below `dice_stat`.
pub open spec fn count_below(faces: Seq<i32>, dice_stat: int) -> nat
    decreases faces.len(),
{
    if faces.len() == 0 {
        0
    } else if faces.last() < dice_stat {
        count_below(faces.drop_last(), dice_stat) + 1
    } else {
        count_below(faces.drop_last(), dice_stat)
    }
}

/// Every face is counted once: as a success or as a failure. Faces that all
/// reach the threshold count no failure, faces that all stay below it no
/// success.
pub proof fn lemma_counts(faces: Seq<i32>, dice_stat: int)
    ensures
        count_at_least(faces, dice_stat) + count_below(faces, dice_stat) == faces.len(),
        (forall|i: int| 0 <= i < faces.len() ==> #[trigger] faces[i] >= dice_stat) ==> count_below(
            faces,
            dice_stat,
        ) == 0,
        (forall|i: int| 0 <= i < faces.len() ==> #[trigger] faces[i] < dice_stat)
            ==> count_at_least(faces, dice_stat) == 0,
    decreases faces.len(),
{
    if faces.len() > 0 {
        let rest = faces.drop_last();
        lemma_counts(rest, dice_stat);
        assert forall|i: int| 0 <= i < rest.len() implies rest[i] == faces[i] by {}
        if forall|i: int| 0 <= i < faces.len() ==> #[trigger] faces[i] >= dice_stat {
            assert forall|i: int| 0 <= i < rest.len() implies #[trigger] rest[i] >= dice_stat by {
                assert(faces[i] >= dice_stat);
            }
            assert(faces[faces.len() - 1] >= dice_stat);
        }
        if forall|i: int| 0 <= i < faces.len() ==> #[trigger] faces[i] < dice_stat {
            assert forall|i: int| 0 <= i < rest.len() implies #[trigger] rest[i] < dice_stat by {
                assert(faces[i] < dice_stat);
            }
            assert(faces[faces.len() - 1] < dice_stat);
        }
    }
}

/// The die is not rolled again after the last of `faces`.
pub open spec fn roll_is_over(faces: Seq<i32>) -> bool {
    faces.len() >= 1 && faces.last() != PIP_HI
}

/// `faces` is a roll that could not go on: the die has shown its highest
/// face `i32::MAX` times, and one more roll could not be counted in 32 bits.
pub open spec fn is_unfinished_roll(faces: Seq<i32>) -> bool {
    &&& faces.len() == i32::MAX
    &&& forall|i: int| 0 <= i < faces.len() ==> #[trigger] faces[i] == PIP_HI
}

/// `faces` can be what rolling one open-ended die hands back: a roll that
/// ended with a face below the highest, or one that could not go on.
pub open spec fn is_drawn_roll(faces: Seq<i32>) -> bool {
    (is_open_ended_roll(faces) && faces.len() <= i32::MAX) || is_unfinished_roll(faces)
}

/// What the tally of one open-ended roll can be: at least one roll; no
/// failure where the lowest face succeeds; at most one failure, the last
/// roll, where the highest face succeeds, and exactly one where only the
/// highest face succeeds; no success where not even that does.
pub proof fn lemma_open_ended_counts(faces: Seq<i32>, dice_stat: int)
    requires
        is_open_ended_roll(faces),
    ensures
        count_at_least(faces, dice_stat) + count_below(faces, dice_stat) == faces.len(),
        dice_stat <= PIP_LO ==> count_below(faces, dice_stat) == 0,
        dice_stat <= PIP_HI ==> count_below(faces, dice_stat) <= 1,
        dice_stat == PIP_HI ==> count_below(faces, dice_stat) == 1,
        dice_stat > PIP_HI ==> count_at_least(faces, dice_stat) == 0,
{
    lemma_counts(faces, dice_stat);
    let rest = faces.drop_last();
    lemma_counts(rest, dice_stat);
    assert forall|i: int| 0 <= i < rest.len() implies #[trigger] rest[i] == PIP_HI by {
        assert(faces[i] == PIP_HI);
    }
    assert(faces[faces.len() - 1] == faces.last());
}

/// Rolls one open-ended die and hands back the faces that it showed, in
/// order: the die is rolled again as long as it shows its highest face. The
/// only bound is what 32 bits can count: a die that has shown its highest face
/// `i32::MAX` times is not rolled again, and all those faces are handed back.
pub fn roll_open_ended(rng: &mut ThreadRng) -> (faces: Vec<i32>)
    ensures
        is_drawn_roll(faces@),
{
    let mut faces: Vec<i32> = Vec::new();
    let mut rolls: i32 = 0;
    while rolls < i32::MAX
        invariant
            0 <= rolls <= i32::MAX,
            faces@.len() == rolls,
            forall|i: int| 0 <= i < faces@.len() ==> #[trigger] faces@[i] == PIP_HI,
        decreases i32::MAX - rolls,
    {
        let pip_outcome = sample_uniform(rng, PIP_LO, PIP_HI + 1);
        faces.push(pip_outcome);
        rolls = rolls + 1;
        if !explodes(pip_outcome) {
            return faces;
        }
    }
    faces
}

/// The tally of the given faces: each face that reaches `dice_stat` is a
/// success, each that does not a failure.
pub fn sf_from_faces(faces: &Vec<i32>, dice_stat: i32) -> (sf: Sf)
    requires
        faces@.len() <= i32::MAX,
    ensures
        sf.s == count_at_least(faces@, dice_stat as int),
        sf.f == count_below(faces@, dice_stat as int),
{
    let mut sf = Sf::new();
    let mut i: usize = 0;
    while i < faces.len()
        invariant
            0 <= i <= faces@.len() <= i32::MAX,
            sf.s == count_at_least(faces@.take(i as int), dice_stat as int),
            sf.f == count_below(faces@.take(i as int), dice_stat as int),
        decreases faces.len() - i,
    {
        proof {
            lemma_counts(faces@.take(i as int), dice_stat as int);
            assert(faces@.take(i + 1).drop_last() =~= faces@.take(i as int));
            assert(faces@.take(i + 1).last() == faces@[i as int]);
        }
        sf.record(faces[i], dice_stat);
        i = i + 1;
    }
    assert(faces@.take(i as int) =~= faces@);
    sf
}

/// The tally of one die that showed `faces`, where its roll is over; none
/// where the die would have to be rolled again.
pub open spec fn tally_of_roll(faces: Seq<i32>, dice_stat: int) -> Option<Sf> {
    if roll_is_over(faces) {
        Some(
            Sf {
                s: count_at_least(faces, dice_stat) as i32,
                f: count_below(faces, dice_stat) as i32,
            },
        )
    } else {
        None
    }
}

/// The tally of one die that showed `faces`: `None` exactly where the roll is
/// not over, that is, where there is no face or the last one is the highest.
pub fn sf_from_roll(faces: &Vec<i32>, dice_stat: i32) -> (result: Option<Sf>)
    requires
        faces@.len() <= i32::MAX,
    ensures
        result == tally_of_roll(faces@, dice_stat as int),
{
    if faces.len() == 0 {
        return None;
    }
    if explodes(faces[faces.len() - 1]) {
        return None;
    }
    proof {
        lemma_counts(faces@, dice_stat as int);
    }
    Some(sf_from_faces(faces, dice_stat))
}

/// `result` can be what rolling one open-ended die against `dice_stat` gives:
/// the tally of some faces that the die can show.
pub open spec fn is_single_roll(result: Option<Sf>, dice_stat: int) -> bool {
    exists|faces: Seq<i32>|
        #![trigger is_drawn_roll(faces)]
        is_drawn_roll(faces) && result == tally_of_roll(faces, dice_stat)
}

/// The tally of every open-ended roll is one that a pool of one die can have.
pub proof fn lemma_single_roll(sf: Sf, dice_stat: int)
    requires
        is_single_roll(Some(sf), dice_stat),
    ensures
        is_pool(sf, 1, dice_stat),
{
    let faces = choose|faces: Seq<i32>|
        #![trigger is_drawn_roll(faces)]
        is_drawn_roll(faces) && Some(sf) == tally_of_roll(faces, dice_stat);
    assert(roll_is_over(faces));
    assert(faces[faces.len() - 1] == faces.last());
    lemma_open_ended_counts(faces, dice_stat);
}

/// Rolls one open-ended die: each roll is counted against `dice_stat`, and as
/// long as the die shows its highest face it is rolled again into the same
/// tally. `None` comes exactly where the faces that were rolled do not end a
/// roll, that is, where the rolls can no longer be counted in 32 bits.
pub fn simulated_sf_from_single_roll(rng: &mut ThreadRng, dice_stat: i32) -> (result: Option<Sf>)
    ensures
        is_single_roll(result, dice_stat as int),
        result matches Some(sf) ==> is_pool(sf, 1, dice_stat as int),
{
    let faces = roll_open_ended(rng);
    let result = sf_from_roll(&faces, dice_stat);
    proof {
        if result is Some {
            lemma_single_roll(result->0, dice_stat as int);
        }
    }
    result
}

/// How many dice are rolled once more, as a number: the smaller of
/// `num_rerolls` and `num_failures`.
pub open spec fn rerolled_dice(num_rerolls: int, num_failures: int) -> int {
    if num_rerolls < num_failures {
        num_rerolls
    } else {
        num_failures
    }
}

/// How many dice are rolled once more: as many as there were failures, but
/// no more than `num_rerolls`.
pub fn num_dice_to_reroll(num_rerolls: i32, num_failures: i32) -> (num_dice: i32)
    ensures
        num_dice == rerolled_dice(num_rerolls as int, num_failures as int),
{
    if num_rerolls < num_failures {
        num_rerolls
    } else {
        num_failures
    }
}

/// The faces of each die of a pool.
pub open spec fn faces_of(rolls: Seq<Vec<i32>>) -> Seq<Seq<i32>> {
    Seq::new(rolls.len(), |i: int| rolls[i]@)
}

/// How many faces of all dice reach `dice_stat`.
pub open spec fn total_at_least(rolls: Seq<Seq<i32>>, dice_stat: int) -> nat
    decreases rolls.len(),
{
    if rolls.len() == 0 {
        0
    } else {
        total_at_least(rolls.drop_last(), dice_stat) + count_at_least(rolls.last(), dice_stat)
    }
}

/// How many faces of all dice stay below `dice_stat`.
pub open spec fn total_below(rolls: Seq<Seq<i32>>, dice_stat: int) -> nat
    decreases rolls.len(),
{
    if rolls.len() == 0 {
        0
    } else {
        total_below(rolls.drop_last(), dice_stat) + count_below(rolls.last(), dice_stat)
    }
}

/// The roll of every die is over.
pub open spec fn all_over(rolls: Seq<Seq<i32>>) -> bool {
    forall|i: int| 0 <= i < rolls.len() ==> roll_is_over(#[trigger] rolls[i])
}

/// The tally of a pool of dice that showed `rolls`: the successes and the
/// failures of all dice, added up. There is none where the roll of a die is
/// not over, or where a sum does not fit in 32 bits.
pub open spec fn tally_of_rolls(rolls: Seq<Seq<i32>>, dice_stat: int) -> Option<Sf> {
    if all_over(rolls) && total_at_least(rolls, dice_stat) <= i32::MAX && total_below(
        rolls,
        dice_stat,
    ) <= i32::MAX {
        Some(
            Sf {
                s: total_at_least(rolls, dice_stat) as i32,
                f: total_below(rolls, dice_stat) as i32,
            },
        )
    } else {
        None
    }
}

/// The first dice of a pool count no more than all of them.
pub proof fn lemma_total_prefix(rolls: Seq<Seq<i32>>, n: int, dice_stat: int)
    requires
        0 <= n <= rolls.len(),
    ensures
        total_at_least(rolls.take(n), dice_stat) <= total_at_least(rolls, dice_stat),
        total_below(rolls.take(n), dice_stat) <= total_below(rolls, dice_stat),
    decreases rolls.len(),
{
    if n == rolls.len() {
        assert(rolls.take(n) =~= rolls);
    } else {
        lemma_total_prefix(rolls.drop_last(), n, dice_stat);
        assert(rolls.drop_last().take(n) =~= rolls.take(n));
    }
}

/// What the tally of a pool of open-ended dice can be: every die is rolled
/// at least once; there is no failure where the lowest face succeeds, at most
/// one for each die where the highest face succeeds, exactly one for each die
/// where only the highest face succeeds, and no success where not even that
/// does.
pub proof fn lemma_pool_totals(rolls: Seq<Seq<i32>>, dice_stat: int)
    requires
        forall|i: int| 0 <= i < rolls.len() ==> is_open_ended_roll(#[trigger] rolls[i]),
    ensures
        rolls.len() <= total_at_least(rolls, dice_stat) + total_below(rolls, dice_stat),
        dice_stat <= PIP_LO ==> total_below(rolls, dice_stat) == 0,
        dice_stat <= PIP_HI ==> total_below(rolls, dice_stat) <= rolls.len(),
        dice_stat == PIP_HI ==> total_below(rolls, dice_stat) == rolls.len(),
        dice_stat > PIP_HI ==> total_at_least(rolls, dice_stat) == 0,
    decreases rolls.len(),
{
    if rolls.len() > 0 {
        let rest = rolls.drop_last();
        assert forall|i: int| 0 <= i < rest.len() implies is_open_ended_roll(
            #[trigger] rest[i],
        ) by {
            assert(rest[i] == rolls[i]);
        }
        lemma_pool_totals(rest, dice_stat);
        assert(rolls.last() == rolls[rolls.len() - 1]);
        lemma_open_ended_counts(rolls.last(), dice_stat);
    }
}

/// The tally of a pool of dice that showed `rolls`: `None` exactly where the
/// roll of a die is not over, or where the successes or the failures of all
/// dice do not fit in 32 bits.
pub fn sf_from_rolls(rolls: &Vec<Vec<i32>>, dice_stat: i32) -> (result: Option<Sf>)
    requires
        forall|i: int| 0 <= i < rolls@.len() ==> (#[trigger] rolls@[i])@.len() <= i32::MAX,
    ensures
        result == tally_of_rolls(faces_of(rolls@), dice_stat as int),
{
    let ghost all = faces_of(rolls@);
    let mut sf = Sf::new();
    let mut die: usize = 0;
    assert(all.take(0) =~= Seq::<Seq<i32>>::empty());
    while die < rolls.len()
        invariant
            all == faces_of(rolls@),
            0 <= die <= rolls@.len(),
            forall|i: int| 0 <= i < rolls@.len() ==> (#[trigger] rolls@[i])@.len() <= i32::MAX,
            forall|i: int| 0 <= i < die ==> roll_is_over(#[trigger] all[i]),
            0 <= sf.s,
            0 <= sf.f,
            sf.s == total_at_least(all.take(die as int), dice_stat as int),
            sf.f == total_below(all.take(die as int), dice_stat as int),
        decreases rolls.len() - die,
    {
        proof {
            assert(all.take(die + 1).drop_last() =~= all.take(die as int));
            assert(all.take(die + 1).last() == all[die as int]);
            assert(all[die as int] == rolls@[die as int]@);
            lemma_total_prefix(all, die + 1, dice_stat as int);
            lemma_counts(all[die as int], dice_stat as int);
        }
        let one = match sf_from_roll(&rolls[die], dice_stat) {
            Some(one) => one,
            None => {
                assert(!roll_is_over(all[die as int]));
                return None;
            },
        };
        if one.s > i32::MAX - sf.s || one.f > i32::MAX - sf.f {
            return None;
        }
        sf.add(&one);
        die = die + 1;
    }
    assert(all.take(die as int) =~= all);
    Some(sf)
}

/// `rolls` can be what rolling `num_dice` open-ended dice hands back.
pub open spec fn is_drawn_pool(rolls: Seq<Seq<i32>>, num_dice: int) -> bool {
    &&& rolls.len() == num_dice
    &&& forall|i: int| 0 <= i < rolls.len() ==> is_drawn_roll(#[trigger] rolls[i])
}

/// Rolls `num_dice` open-ended dice and hands back the faces of each.
pub fn roll_pool(rng: &mut ThreadRng, num_dice: i32) -> (rolls: Vec<Vec<i32>>)
    requires
        0 <= num_dice,
    ensures
        is_drawn_pool(faces_of(rolls@), num_dice as int),
{
    let mut rolls: Vec<Vec<i32>> = Vec::new();
    let mut die: i32 = 0;
    while die < num_dice
        invariant
            0 <= die <= num_dice,
            rolls@.len() == die,
            forall|i: int| 0 <= i < rolls@.len() ==> is_drawn_roll((#[trigger] rolls@[i])@),
        decreases num_dice - die,
    {
        let faces = roll_open_ended(rng);
        rolls.push(faces);
        die = die + 1;
    }
    rolls
}

/// `sf` can be the tally of `num_dice` open-ended dice: every die is rolled at
/// least once; there is no failure where the lowest face succeeds, at most one
/// for each die where the highest face succeeds, exactly one for each die
/// where only the highest face succeeds, and no success where not even that
/// does.
pub open spec fn is_pool(sf: Sf, num_dice: int, dice_stat: int) -> bool {
    &&& 0 <= sf.s
    &&& 0 <= sf.f
    &&& num_dice <= sf.s + sf.f
    &&& num_dice == 0 ==> sf.s + sf.f == 0
    &&& dice_stat <= PIP_LO ==> sf.f == 0
    &&& dice_stat <= PIP_HI ==> sf.f <= num_dice
    &&& dice_stat == PIP_HI ==> sf.f == num_dice
    &&& dice_stat > PIP_HI ==> sf.s == 0
}

/// The tally of dice that were rolled is one that a pool can have.
pub proof fn lemma_pool(rolls: Seq<Seq<i32>>, num_dice: int, dice_stat: int)
    requires
        is_drawn_pool(rolls, num_dice),
    ensures
        tally_of_rolls(rolls, dice_stat) matches Some(sf) ==> is_pool(sf, num_dice, dice_stat),
        num_dice == 0 ==> tally_of_rolls(rolls, dice_stat) == Some(Sf { s: 0, f: 0 }),
{
    if tally_of_rolls(rolls, dice_stat) is Some {
        assert forall|i: int| 0 <= i < rolls.len() implies is_open_ended_roll(
            #[trigger] rolls[i],
        ) by {
            assert(is_drawn_roll(rolls[i]));
            assert(roll_is_over(rolls[i]));
            assert(rolls[i][rolls[i].len() - 1] == rolls[i].last());
        }
        lemma_pool_totals(rolls, dice_stat);
    }
}

/// `result` can be what rolling `num_dice` open-ended dice against
/// `dice_stat` gives: the tally of some faces that the dice can show.
pub open spec fn is_pool_tally(result: Option<Sf>, num_dice: int, dice_stat: int) -> bool {
    exists|rolls: Seq<Seq<i32>>|
        #![trigger is_drawn_pool(rolls, num_dice)]
        is_drawn_pool(rolls, num_dice) && result == tally_of_rolls(rolls, dice_stat)
}

/// Rolls `num_dice` open-ended dice into one tally. `None` comes exactly
/// where the faces that were rolled have no tally: where the rolls of a die,
/// or the sums, can no longer be counted in 32 bits. With no dice that cannot
/// happen.
pub fn simulated_sf_from_multi_roll(rng: &mut ThreadRng, num_dice: i32, dice_stat: i32) -> (result:
    Option<Sf>)
    requires
        0 <= num_dice,
    ensures
        is_pool_tally(result, num_dice as int, dice_stat as int),
        result matches Some(sf) ==> is_pool(sf, num_dice as int, dice_stat as int),
        num_dice == 0 ==> result == Some(Sf { s: 0, f: 0 }),
{
    let rolls = roll_pool(rng, num_dice);
    proof {
        lemma_pool(faces_of(rolls@), num_dice as int, dice_stat as int);
        lemma_drawn_lengths(rolls@, num_dice as int);
    }
    sf_from_rolls(&rolls, dice_stat)
}

/// No die of a pool that was rolled shows more faces than 32 bits can count.
proof fn lemma_drawn_lengths(rolls: Seq<Vec<i32>>, num_dice: int)
    requires
        is_drawn_pool(faces_of(rolls), num_dice),
    ensures
        forall|i: int| 0 <= i < rolls.len() ==> (#[trigger] rolls[i])@.len() <= i32::MAX,
{
    assert forall|i: int| 0 <= i < rolls.len() implies (#[trigger] rolls[i])@.len()
        <= i32::MAX by {
        assert(is_drawn_roll(faces_of(rolls)[i]));
    }
}

/// The tallies of an attack whose dice showed `first_rolls` and whose dice
/// that were rolled once more showed `more_rolls`; none where either pool has
/// no tally.
pub open spec fn tallies_of_rolls(
    first_rolls: Seq<Seq<i32>>,
    more_rolls: Seq<Seq<i32>>,
    dice_stat: int,
) -> Option<(Sf, Sf)> {
    match tally_of_rolls(first_rolls, dice_stat) {
        Some(first) => match tally_of_rolls(more_rolls, dice_stat) {
            Some(rerolled) => Some((first, rerolled)),
            None => None,
        },
        None => None,
    }
}

/// `first_rolls` and `more_rolls` can be what one attack rolls: `num_dice`
/// dice and then, once more, as many dice as failed, but no more than
/// `num_rerolls`. Where the first dice have no tally, nothing is rolled once
/// more.
pub open spec fn is_drawn_attack(
    first_rolls: Seq<Seq<i32>>,
    more_rolls: Seq<Seq<i32>>,
    num_dice: int,
    dice_stat: int,
    num_rerolls: int,
) -> bool {
    &&& is_drawn_pool(first_rolls, num_dice)
    &&& match tally_of_rolls(first_rolls, dice_stat) {
        Some(first) => is_drawn_pool(more_rolls, rerolled_dice(num_rerolls, first.f as int)),
        None => more_rolls.len() == 0,
    }
}

/// `first` and `rerolled` can be the tallies of `num_dice` dice and of those
/// that were rolled once more: as many dice as failed at first, but no more
/// than `num_rerolls`, and none where `num_rerolls` is zero.
pub open spec fn is_rerolled_pool(
    first: Sf,
    rerolled: Sf,
    num_dice: int,
    dice_stat: int,
    num_rerolls: int,
) -> bool {
    &&& is_pool(first, num_dice, dice_stat)
    &&& num_rerolls == 0 ==> rerolled.s == 0 && rerolled.f == 0
    &&& is_pool(rerolled, rerolled_dice(num_rerolls, first.f as int), dice_stat)
}

/// The tallies of an attack that was rolled are such as an attack can have.
pub proof fn lemma_attack(
    first_rolls: Seq<Seq<i32>>,
    more_rolls: Seq<Seq<i32>>,
    num_dice: int,
    dice_stat: int,
    num_rerolls: int,
)
    requires
        0 <= num_rerolls,
        is_drawn_attack(first_rolls, more_rolls, num_dice, dice_stat, num_rerolls),
    ensures
        tallies_of_rolls(first_rolls, more_rolls, dice_stat) matches Some(tallies)
            ==> is_rerolled_pool(tallies.0, tallies.1, num_dice, dice_stat, num_rerolls),
        num_dice == 0 ==> tallies_of_rolls(first_rolls, more_rolls, dice_stat) == Some(
            (Sf { s: 0, f: 0 }, Sf { s: 0, f: 0 }),
        ),
{
    lemma_pool(first_rolls, num_dice, dice_stat);
    if tally_of_rolls(first_rolls, dice_stat) is Some {
        let first = tally_of_rolls(first_rolls, dice_stat)->0;
        lemma_pool(more_rolls, rerolled_dice(num_rerolls, first.f as int), dice_stat);
    }
}

/// `result` can be what the rolls of one attack give: the tallies of some
/// faces that its dice, and those rolled once more, can show.
pub open spec fn is_attack_tallies(
    result: Option<(Sf, Sf)>,
    num_dice: int,
    dice_stat: int,
    num_rerolls: int,
) -> bool {
    exists|first_rolls: Seq<Seq<i32>>, more_rolls: Seq<Seq<i32>>|
        #![trigger is_drawn_attack(first_rolls, more_rolls, num_dice, dice_stat, num_rerolls)]
        is_drawn_attack(first_rolls, more_rolls, num_dice, dice_stat, num_rerolls) && result
            == tallies_of_rolls(first_rolls, more_rolls, dice_stat)
}

/// Rolls `num_dice` dice and then rolls once more as many dice as there were
/// failures, but no more than `num_rerolls`; the dice that are rolled once
/// more have no rerolls of their own. Hands back both tallies. `None` comes
/// exactly where the faces that were rolled have no tallies: where some rolls
/// can no longer be counted in 32 bits. With no dice that cannot happen.
pub fn simulated_sfs_from_multi_roll(
    rng: &mut ThreadRng,
    num_dice: i32,
    dice_stat: i32,
    num_rerolls: i32,
) -> (result: Option<(Sf, Sf)>)
    requires
        0 <= num_dice,
        0 <= num_rerolls,
    ensures
        is_attack_tallies(result, num_dice as int, dice_stat as int, num_rerolls as int),
        result matches Some(tallies) ==> is_rerolled_pool(
            tallies.0,
            tallies.1,
            num_dice as int,
            dice_stat as int,
            num_rerolls as int,
        ),
        num_dice == 0 ==> result == Some((Sf { s: 0, f: 0 }, Sf { s: 0, f: 0 })),
{
    let first_rolls = roll_pool(rng, num_dice);
    proof {
        lemma_pool(faces_of(first_rolls@), num_dice as int, dice_stat as int);
        lemma_drawn_lengths(first_rolls@, num_dice as int);
    }
    let first = match sf_from_rolls(&first_rolls, dice_stat) {
        Some(first) => first,
        None => {
            proof {
                let none = Seq::<Seq<i32>>::empty();
                assert(is_drawn_attack(
                    faces_of(first_rolls@),
                    none,
                    num_dice as int,
                    dice_stat as int,
                    num_rerolls as int,
                ));
            }
            return None;
        },
    };
    let again = num_dice_to_reroll(num_rerolls, first.f);
    let more_rolls = roll_pool(rng, again);
    proof {
        lemma_drawn_lengths(more_rolls@, again as int);
        assert(is_drawn_attack(
            faces_of(first_rolls@),
            faces_of(more_rolls@),
            num_dice as int,
            dice_stat as int,
            num_rerolls as int,
        ));
        lemma_attack(
            faces_of(first_rolls@),
            faces_of(more_rolls@),
            num_dice as int,
            dice_stat as int,
            num_rerolls as int,
        );
    }
    match sf_from_rolls(&more_rolls, dice_stat) {
        Some(rerolled) => Some((first, rerolled)),
        None => None,
    }
}

/// The successes of two tallies, added up, where they fit in 32 bits.
pub open spec fn successes_of_tallies(first: Sf, rerolled: Sf) -> Option<i32> {
    if i32::MIN <= first.s + rerolled.s <= i32::MAX {
        Some((first.s + rerolled.s) as i32)
    } else {
        None
    }
}

/// The successes of the dice and of those rolled once more, added up: `None`
/// exactly where the sum does not fit in 32 bits.
pub fn total_successes(first: Sf, rerolled: Sf) -> (result: Option<i32>)
    ensures
        result == successes_of_tallies(first, rerolled),
        match result {
            Some(n) => n == first.s + rerolled.s,
            None => first.s + rerolled.s > i32::MAX || first.s + rerolled.s < i32::MIN,
        },
{
    let num_first_successes = first.s;
    let num_rerolled_successes = rerolled.s;
    num_first_successes.checked_add(num_rerolled_successes)
}

/// The successes of an attack whose dice showed `first_rolls` and whose dice
/// that were rolled once more showed `more_rolls`: all faces of both that
/// reach `dice_stat`. There is none where a roll is not over or a sum does not
/// fit in 32 bits.
pub open spec fn successes_of_rolls(
    first_rolls: Seq<Seq<i32>>,
    more_rolls: Seq<Seq<i32>>,
    dice_stat: int,
) -> Option<i32> {
    match tallies_of_rolls(first_rolls, more_rolls, dice_stat) {
        Some(tallies) => successes_of_tallies(tallies.0, tallies.1),
        None => None,
    }
}

/// `result` can be what `num_dice` dice with `num_rerolls` rerolls score: the
/// successes of some faces that the dice, and those rolled once more, can
/// show.
pub open spec fn is_attack_result(
    result: Option<i32>,
    num_dice: int,
    dice_stat: int,
    num_rerolls: int,
) -> bool {
    exists|first_rolls: Seq<Seq<i32>>, more_rolls: Seq<Seq<i32>>|
        #![trigger is_drawn_attack(first_rolls, more_rolls, num_dice, dice_stat, num_rerolls)]
        is_drawn_attack(first_rolls, more_rolls, num_dice, dice_stat, num_rerolls) && result
            == successes_of_rolls(first_rolls, more_rolls, dice_stat)
}

/// `successes` can be what `num_dice` dice with `num_rerolls` rerolls score.
pub open spec fn is_num_successes(
    successes: i32,
    num_dice: int,
    dice_stat: int,
    num_rerolls: int,
) -> bool {
    is_attack_result(Some(successes), num_dice, dice_stat, num_rerolls)
}

/// What holds of every number of successes: it is not negative; no dice
/// score nothing, nor do dice that cannot succeed; dice that cannot fail score
/// at least once each.
pub proof fn lemma_num_successes(successes: i32, num_dice: int, dice_stat: int, num_rerolls: int)
    requires
        is_num_successes(successes, num_dice, dice_stat, num_rerolls),
        0 <= num_rerolls,
    ensures
        0 <= successes,
        num_dice == 0 ==> successes == 0,
        dice_stat > PIP_HI ==> successes == 0,
        dice_stat <= PIP_LO ==> successes >= num_dice,
{
    let (first_rolls, more_rolls) = choose|first_rolls: Seq<Seq<i32>>, more_rolls: Seq<Seq<i32>>|
        #![trigger is_drawn_attack(first_rolls, more_rolls, num_dice, dice_stat, num_rerolls)]
        is_drawn_attack(first_rolls, more_rolls, num_dice, dice_stat, num_rerolls) && Some(
            successes,
        ) == successes_of_rolls(first_rolls, more_rolls, dice_stat);
    lemma_attack(first_rolls, more_rolls, num_dice, dice_stat, num_rerolls);
}

/// Rerolls only add: on the same rolls of the first dice, an attack with dice
/// rolled once more scores what it scores without them plus the successes of
/// those dice, which are no more than their rolls.
pub proof fn lemma_rerolls_only_add(
    first_rolls: Seq<Seq<i32>>,
    more_rolls: Seq<Seq<i32>>,
    dice_stat: int,
)
    requires
        successes_of_rolls(first_rolls, more_rolls, dice_stat) is Some,
    ensures
        successes_of_rolls(first_rolls, Seq::empty(), dice_stat) is Some,
        successes_of_rolls(first_rolls, more_rolls, dice_stat)->0 == successes_of_rolls(
            first_rolls,
            Seq::empty(),
            dice_stat,
        )->0 + total_at_least(more_rolls, dice_stat),
        total_at_least(more_rolls, dice_stat) <= total_at_least(more_rolls, dice_stat)
            + total_below(more_rolls, dice_stat),
{
    let none = Seq::<Seq<i32>>::empty();
    assert(all_over(none));
    assert(total_at_least(none, dice_stat) == 0 && total_below(none, dice_stat) == 0);
}

/// Rolls `num_dice` dice and counts the successes. Then as many dice as there
/// were failures, but no more than `num_rerolls`, are rolled once more, with
/// no rerolls of their own, and their successes count too. `None` comes
/// exactly where the faces that were rolled have no such sum: where some rolls
/// can no longer be counted in 32 bits. With no dice that cannot happen.
pub fn simulated_num_successes_from_multi_roll(
    rng: &mut ThreadRng,
    num_dice: i32,
    dice_stat: i32,
    num_rerolls: i32,
) -> (result: Option<i32>)
    requires
        0 <= num_dice,
        0 <= num_rerolls,
    ensures
        is_attack_result(result, num_dice as int, dice_stat as int, num_rerolls as int),
        num_dice == 0 ==> result == Some(0i32),
{
    match simulated_sfs_from_multi_roll(rng, num_dice, dice_stat, num_rerolls) {
        Some((first, rerolled)) => total_successes(first, rerolled),
        None => None,
    }
}

/// How often `key` occurs among `results`.
pub open spec fn occurrences(results: Seq<i32>, key: int) -> nat
    decreases results.len(),
{
    if results.len() == 0 {
        0
    } else if results.last() == key {
        occurrences(results.drop_last(), key) + 1
    } else {
        occurrences(results.drop_last(), key)
    }
}

/// A value occurs at least once exactly where it is among the results.
pub proof fn lemma_occurrences(results: Seq<i32>, key: i32)
    ensures
        occurrences(results, key as int) > 0 <==> results.contains(key),
    decreases results.len(),
{
    if results.len() > 0 {
        let rest = results.drop_last();
        lemma_occurrences(rest, key);
        if rest.contains(key) {
            let i = choose|i: int| 0 <= i < rest.len() && rest[i] == key;
            assert(results[i] == key);
        }
        if results.contains(key) && results.last() != key {
            let i = choose|i: int| 0 <= i < results.len() && results[i] == key;
            assert(rest[i] == key);
        }
        if results.last() == key {
            assert(results[results.len() - 1] == key);
        }
    }
}

/// `counts` says of each value how often it occurs among `results`.
pub open spec fn is_tally(counts: Map<i32, u128>, results: Seq<i32>) -> bool {
    &&& forall|k: int| mass(counts, k) == #[trigger] occurrences(results, k)
    &&& forall|k: i32| #[trigger] counts.contains_key(k) <==> results.contains(k)
    &&& total(counts) == results.len()
}

/// Counts how often each value occurs among `results`.
pub fn tally_successes(results: &Vec<i32>) -> (counts: HashMap<i32, u128>)
    ensures
        is_tally(counts@, results@),
{
    let mut success_counts: HashMap<i32, u128> = HashMap::new();
    let mut i: usize = 0;
    proof {
        lemma_total_empty();
        assert(results@.take(0) =~= Seq::<i32>::empty());
    }
    while i < results.len()
        invariant
            0 <= i <= results@.len(),
            is_tally(success_counts@, results@.take(i as int)),
        decreases results.len() - i,
    {
        let num_successes = results[i];
        let ghost before = success_counts@;
        let ghost seen = results@.take(i as int);
        let ghost next = results@.take(i + 1);
        proof {
            lemma_mass_le_total(before, num_successes as int);
            assert(next.drop_last() =~= seen);
            assert(next.last() == num_successes);
        }
        add_to_map_value(&mut success_counts, &num_successes, 1);
        proof {
            assert forall|k: int| mass(success_counts@, k) == #[trigger] occurrences(next, k) by {
                assert(mass(before, k) == occurrences(seen, k));
            }
            assert forall|k: i32| #[trigger]
                success_counts@.contains_key(k) <==> next.contains(k) by {
                lemma_occurrences(next, k);
                lemma_occurrences(seen, k);
                assert(before.contains_key(k) <==> seen.contains(k));
            }
        }
        i = i + 1;
    }
    assert(results@.take(i as int) =~= results@);
    success_counts
}

/// `counts` can be what `num_simulations` simulated attacks of `model` give:
/// the counts add up to the number of trials, and no number of successes is
/// negative. A model that rolls no dice, or cannot succeed, always scores
/// none; one that cannot fail scores at least once for each die.
pub open spec fn is_sample(counts: Map<i32, u128>, model: Model, num_simulations: int) -> bool {
    &&& total(counts) == num_simulations
    &&& forall|k: i32| #[trigger]
        counts.contains_key(k) ==> 0 <= k && 1 <= counts[k] <= num_simulations
    &&& (model.num_dice == 0 || model.dice_stat > PIP_HI) && num_simulations > 0 ==> counts
        == Map::<i32, u128>::empty().insert(0, num_simulations as u128)
    &&& model.dice_stat <= PIP_LO ==> forall|k: i32| #[trigger]
        counts.contains_key(k) ==> k >= model.num_dice
}

/// The tally of results that each can be what the model scores is a sample.
proof fn lemma_tally_is_sample(counts: Map<i32, u128>, results: Seq<i32>, model: Model)
    requires
        model.valid(),
        is_tally(counts, results),
        forall|i: int|
            0 <= i < results.len() ==> is_num_successes(
                #[trigger] results[i],
                model.num_dice as int,
                model.dice_stat as int,
                model.num_rerolls as int,
            ),
    ensures
        is_sample(counts, model, results.len() as int),
{
    let n = results.len() as int;
    assert forall|k: i32| #[trigger] counts.contains_key(k) implies 0 <= k && 1 <= counts[k] <= n
        && (model.num_dice == 0 || model.dice_stat > PIP_HI ==> k == 0) && (model.dice_stat
        <= PIP_LO ==> k >= model.num_dice) by {
        let i = choose|i: int| 0 <= i < results.len() && results[i] == k;
        lemma_num_successes(
            results[i],
            model.num_dice as int,
            model.dice_stat as int,
            model.num_rerolls as int,
        );
        lemma_occurrences(results, k);
        assert(mass(counts, k as int) == occurrences(results, k as int));
        lemma_mass_le_total(counts, k as int);
    }
    if (model.num_dice == 0 || model.dice_stat > PIP_HI) && n > 0 {
        lemma_num_successes(
            results[0],
            model.num_dice as int,
            model.dice_stat as int,
            model.num_rerolls as int,
        );
        assert(results.contains(0i32));
        assert(counts.contains_key(0i32));
        let only = Map::<i32, u128>::empty().insert(0, counts[0i32]);
        assert(counts =~= only);
        lemma_total_empty();
        lemma_total_insert(Map::<i32, u128>::empty(), 0, counts[0i32]);
    }
}

/// Simulates `num_simulations` attacks of `model` and counts how often each
/// number of successes came up. A count divided by `num_simulations` is the
/// estimated probability of that many successes. `None` comes only where the
/// rolls of a trial can no longer be counted in 32 bits; for a model without
/// dice that cannot happen.
pub fn make_success_probs(rng: &mut ThreadRng, model: &Model, num_simulations: i32) -> (result:
    Option<HashMap<i32, u128>>)
    requires
        model.valid(),
        0 <= num_simulations,
    ensures
        result matches Some(counts) ==> is_sample(counts@, *model, num_simulations as int),
        model.num_dice == 0 ==> result is Some,
        num_simulations == 0 ==> result is Some,
{
    let mut results: Vec<i32> = Vec::new();
    let mut trial: i32 = 0;
    while trial < num_simulations
        invariant
            model.valid(),
            0 <= trial <= num_simulations,
            results@.len() == trial,
            forall|i: int|
                0 <= i < results@.len() ==> is_num_successes(
                    #[trigger] results@[i],
                    model.num_dice as int,
                    model.dice_stat as int,
                    model.num_rerolls as int,
                ),
        decreases num_simulations - trial,
    {
        let num_successes = match simulated_num_successes_from_multi_roll(
            rng,
            model.num_dice,
            model.dice_stat,
            model.num_rerolls,
        ) {
            Some(num_successes) => num_successes,
            None => {
                return None;
            },
        };
        results.push(num_successes);
        trial = trial + 1;
    }
    let success_counts = tally_successes(&results);
    proof {
        lemma_tally_is_sample(success_counts@, results@, *model);
    }
    Some(success_counts)
}

} // verus!
