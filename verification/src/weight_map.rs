//! Maps from an integer outcome to an integer weight.

use std::collections::HashMap;
use vstd::prelude::*;
use vstd::std_specs::iter::IteratorSpec;
use crate::sums::{
    sum, lemma_sum_ext, lemma_sum_le, lemma_sum_nonneg, lemma_sum_scale, lemma_sum_swap,
    lemma_sum_term_le, lemma_sum_update, lemma_sum_zero,
};

verus! {

/// The weight that `m` gives to `key`: zero where `m` has no entry.
pub open spec fn mass(m: Map<i32, u128>, key: int) -> nat {
    if i32::MIN <= key <= i32::MAX && m.contains_key(key as i32) {
        m[key as i32] as nat
    } else {
        0
    }
}

/// The least key that a map can hold.
pub open spec fn key_lo() -> int {
    i32::MIN as int
}

/// One more than the greatest key that a map can hold.
pub open spec fn key_hi() -> int {
    i32::MAX as int + 1
}

/// The sum of all weights in `m`.
pub open spec fn total(m: Map<i32, u128>) -> int {
    sum(|k: int| mass(m, k) as int, key_lo(), key_hi())
}

/// A total is never negative.
pub proof fn lemma_total_nonneg(m: Map<i32, u128>)
    ensures
        total(m) >= 0,
{
    lemma_sum_nonneg(|k: int| mass(m, k) as int, key_lo(), key_hi());
}

/// No weight exceeds the total.
pub proof fn lemma_mass_le_total(m: Map<i32, u128>, key: int)
    ensures
        mass(m, key) <= total(m),
{
    if key_lo() <= key < key_hi() {
        lemma_sum_term_le(|k: int| mass(m, k) as int, key_lo(), key_hi(), key);
    } else {
        lemma_total_nonneg(m);
    }
}

/// The empty map weighs nothing.
pub proof fn lemma_total_empty()
    ensures
        total(Map::<i32, u128>::empty()) == 0,
{
    lemma_sum_zero(|k: int| mass(Map::<i32, u128>::empty(), k) as int, key_lo(), key_hi());
}

/// Setting one entry changes the total by the change of that entry.
pub proof fn lemma_total_insert(m: Map<i32, u128>, key: i32, weight: u128)
    ensures
        total(m.insert(key, weight)) == total(m) - mass(m, key as int) + weight,
{
    lemma_sum_update(
        |k: int| mass(m, k) as int,
        |k: int| mass(m.insert(key, weight), k) as int,
        key_lo(),
        key_hi(),
        key as int,
    );
}

/// A map that is nowhere heavier has no greater total.
pub proof fn lemma_total_le(light: Map<i32, u128>, heavy: Map<i32, u128>)
    requires
        forall|k: int| mass(light, k) <= mass(heavy, k),
    ensures
        total(light) <= total(heavy),
{
    lemma_sum_le(
        |k: int| mass(light, k) as int,
        |k: int| mass(heavy, k) as int,
        key_lo(),
        key_hi(),
    );
}

/// What each key of `m` adds to a sum in which a key `i` counts `value(i)`
/// times its weight.
pub open spec fn weighted_terms(m: Map<i32, u128>, value: spec_fn(int) -> int) -> spec_fn(
    int,
) -> int {
    |i: int| mass(m, i) * value(i)
}

/// The sum over all keys `i` of the weight of `i` times `value(i)`.
pub open spec fn weighted_sum(m: Map<i32, u128>, value: spec_fn(int) -> int) -> int {
    sum(weighted_terms(m, value), key_lo(), key_hi())
}

/// The empty map adds nothing.
pub proof fn lemma_weighted_empty(value: spec_fn(int) -> int)
    ensures
        weighted_sum(Map::<i32, u128>::empty(), value) == 0,
{
    let t = weighted_terms(Map::<i32, u128>::empty(), value);
    assert forall|i: int| key_lo() <= i < key_hi() implies #[trigger] t(i) == 0 by {
        assert(0 * value(i) == 0);
    }
    lemma_sum_zero(t, key_lo(), key_hi());
}

/// A new key adds its weight times its value.
pub proof fn lemma_weighted_insert(
    m: Map<i32, u128>,
    key: i32,
    weight: u128,
    value: spec_fn(int) -> int,
)
    requires
        !m.contains_key(key),
    ensures
        weighted_sum(m.insert(key, weight), value) == weighted_sum(m, value) + weight * value(
            key as int,
        ),
{
    let before = weighted_terms(m, value);
    let after = weighted_terms(m.insert(key, weight), value);
    assert forall|i: int| key_lo() <= i < key_hi() && i != key implies #[trigger] before(i)
        == after(i) by {
        assert(mass(m, i) == mass(m.insert(key, weight), i));
    }
    lemma_sum_update(before, after, key_lo(), key_hi(), key as int);
    assert(mass(m, key as int) == 0);
    assert(before(key as int) == 0 * value(key as int));
    assert(0 * value(key as int) == 0);
}

/// Values that agree on all keys give the same sum.
pub proof fn lemma_weighted_ext(
    m: Map<i32, u128>,
    value: spec_fn(int) -> int,
    other: spec_fn(int) -> int,
)
    requires
        forall|i: int| key_lo() <= i < key_hi() ==> #[trigger] value(i) == other(i),
    ensures
        weighted_sum(m, value) == weighted_sum(m, other),
{
    lemma_sum_ext(weighted_terms(m, value), weighted_terms(m, other), key_lo(), key_hi());
}

/// With values that are not negative, the sum is not negative.
pub proof fn lemma_weighted_nonneg(m: Map<i32, u128>, value: spec_fn(int) -> int)
    requires
        forall|i: int| key_lo() <= i < key_hi() ==> #[trigger] value(i) >= 0,
    ensures
        weighted_sum(m, value) >= 0,
{
    let t = weighted_terms(m, value);
    assert forall|i: int| key_lo() <= i < key_hi() implies #[trigger] t(i) >= 0 by {
        assert(mass(m, i) * value(i) >= 0) by (nonlinear_arith)
            requires
                mass(m, i) >= 0,
                value(i) >= 0,
        ;
    }
    lemma_sum_nonneg(t, key_lo(), key_hi());
}

/// With values that are not negative, a map that is nowhere heavier has no
/// greater sum.
pub proof fn lemma_weighted_le(
    light: Map<i32, u128>,
    heavy: Map<i32, u128>,
    value: spec_fn(int) -> int,
)
    requires
        forall|i: int| mass(light, i) <= mass(heavy, i),
        forall|i: int| key_lo() <= i < key_hi() ==> #[trigger] value(i) >= 0,
    ensures
        weighted_sum(light, value) <= weighted_sum(heavy, value),
{
    let tl = weighted_terms(light, value);
    let th = weighted_terms(heavy, value);
    assert forall|i: int| key_lo() <= i < key_hi() implies #[trigger] tl(i) <= th(i) by {
        assert(mass(light, i) * value(i) <= mass(heavy, i) * value(i)) by (nonlinear_arith)
            requires
                mass(light, i) <= mass(heavy, i),
                value(i) >= 0,
        ;
    }
    lemma_sum_le(tl, th, key_lo(), key_hi());
}

/// With greater values, the sum is no smaller.
pub proof fn lemma_weighted_value_le(
    m: Map<i32, u128>,
    value: spec_fn(int) -> int,
    more: spec_fn(int) -> int,
)
    requires
        forall|i: int| key_lo() <= i < key_hi() ==> #[trigger] value(i) <= more(i),
    ensures
        weighted_sum(m, value) <= weighted_sum(m, more),
{
    let tv = weighted_terms(m, value);
    let tm = weighted_terms(m, more);
    assert forall|i: int| key_lo() <= i < key_hi() implies #[trigger] tv(i) <= tm(i) by {
        assert(mass(m, i) * value(i) <= mass(m, i) * more(i)) by (nonlinear_arith)
            requires
                mass(m, i) >= 0,
                value(i) <= more(i),
        ;
    }
    lemma_sum_le(tv, tm, key_lo(), key_hi());
}

/// Where every key of the map has the same value, the sum is that value times
/// the total.
pub proof fn lemma_weighted_constant(m: Map<i32, u128>, value: spec_fn(int) -> int, c: int)
    requires
        forall|i: i32| #[trigger] m.contains_key(i) ==> value(i as int) == c,
    ensures
        weighted_sum(m, value) == c * total(m),
{
    let t = weighted_terms(m, value);
    let masses = |k: int| mass(m, k) as int;
    assert forall|i: int| key_lo() <= i < key_hi() implies #[trigger] t(i) == c * masses(i) by {
        if m.contains_key(i as i32) {
            assert(mass(m, i) * c == c * mass(m, i)) by (nonlinear_arith);
        } else {
            assert(0 * value(i) == 0 && c * 0 == 0) by (nonlinear_arith);
        }
    }
    lemma_sum_scale(masses, t, c, key_lo(), key_hi());
}

/// A family of weighted sums, one for each `d` in a range, adds up to the
/// weighted sum of what the values add up to for each key.
pub proof fn lemma_weighted_swap(
    m: Map<i32, u128>,
    table: spec_fn(int, int) -> int,
    rows: spec_fn(int) -> int,
    cols: spec_fn(int) -> int,
    lo: int,
    hi: int,
)
    requires
        forall|d: int| lo <= d < hi ==> #[trigger] rows(d) == weighted_sum(m, |i: int| table(d, i)),
        forall|i: int|
            key_lo() <= i < key_hi() ==> #[trigger] cols(i) == sum(|d: int| table(d, i), lo, hi),
    ensures
        sum(rows, lo, hi) == weighted_sum(m, cols),
{
    let scaled = |d: int, i: int| mass(m, i) * table(d, i);
    let scaled_cols = weighted_terms(m, cols);
    assert forall|d: int| lo <= d < hi implies #[trigger] rows(d) == sum(
        |i: int| scaled(d, i),
        key_lo(),
        key_hi(),
    ) by {
        lemma_sum_ext(
            weighted_terms(m, |i: int| table(d, i)),
            |i: int| scaled(d, i),
            key_lo(),
            key_hi(),
        );
    }
    assert forall|i: int| key_lo() <= i < key_hi() implies #[trigger] scaled_cols(i) == sum(
        |d: int| scaled(d, i),
        lo,
        hi,
    ) by {
        lemma_sum_scale(|d: int| table(d, i), |d: int| scaled(d, i), mass(m, i) as int, lo, hi);
    }
    lemma_sum_swap(scaled, rows, scaled_cols, lo, hi, key_lo(), key_hi());
}

/// `s` lists every entry of `m` exactly once.
pub open spec fn lists(s: Seq<(i32, u128)>, m: Map<i32, u128>) -> bool {
    &&& forall|i: int|
        0 <= i < s.len() ==> m.contains_key(#[trigger] s[i].0) && m[s[i].0] == s[i].1
    &&& forall|i: int, j: int| 0 <= i < j < s.len() ==> s[i].0 != s[j].0
    &&& forall|k: i32|
        m.contains_key(k) ==> exists|i: int| 0 <= i < s.len() && #[trigger] s[i].0 == k
}

/// The entries of `m`, in the order in which the map hands them out.
pub fn entries(m: &HashMap<i32, u128>) -> (v: Vec<(i32, u128)>)
    ensures
        lists(v@, m@),
{
    broadcast use vstd::std_specs::hash::group_hash_axioms;

    let mut v: Vec<(i32, u128)> = Vec::new();
    let ghost all = m.iter().remaining();
    for pair in it: m.iter()
        invariant
            it.seq() == all,
            all.no_duplicates(),
            v@.len() == it.index(),
            forall|i: int| 0 <= i < v@.len() ==> v@[i].0 == *all[i].0 && v@[i].1 == *all[i].1,
    {
        let (k, w) = pair;
        v.push((*k, *w));
    }
    proof {
        assert(v@.len() == all.len());
        assert forall|i: int| 0 <= i < v@.len() implies m@.contains_key(#[trigger] v@[i].0)
            && m@[v@[i].0] == v@[i].1 by {
            assert(m@.contains_key(*all[i].0) && m@[*all[i].0] == *all[i].1);
        }
        assert forall|i: int, j: int| 0 <= i < j < v@.len() implies v@[i].0 != v@[j].0 by {
            assert(m@.contains_key(*all[i].0) && m@[*all[i].0] == *all[i].1);
            assert(m@.contains_key(*all[j].0) && m@[*all[j].0] == *all[j].1);
            if v@[i].0 == v@[j].0 {
                assert(all[i] == all[j]);
            }
        }
        assert forall|k: i32| m@.contains_key(k) implies exists|i: int|
            0 <= i < v@.len() && #[trigger] v@[i].0 == k by {
            assert(all.contains((&k, &m@[k])));
            let i = choose|i: int| 0 <= i < all.len() && all[i] == (&k, &m@[k]);
            assert(v@[i].0 == k);
        }
    }
    v
}

/// The map that holds the first `n` entries of `s`.
pub open spec fn seen(s: Seq<(i32, u128)>, n: int) -> Map<i32, u128>
    decreases n,
{
    if n <= 0 {
        Map::empty()
    } else {
        seen(s, n - 1).insert(s[n - 1].0, s[n - 1].1)
    }
}

/// What the first `n` entries of a listing hold: their keys, each with its own
/// weight, and nothing heavier than the whole map.
pub proof fn lemma_seen(s: Seq<(i32, u128)>, m: Map<i32, u128>, n: int)
    requires
        lists(s, m),
        0 <= n <= s.len(),
    ensures
        forall|k: i32|
            seen(s, n).contains_key(k) <==> exists|j: int| 0 <= j < n && #[trigger] s[j].0 == k,
        forall|k: i32| seen(s, n).contains_key(k) ==> m.contains_key(k) && seen(s, n)[k] == m[k],
        forall|k: int| mass(seen(s, n), k) <= mass(m, k),
        n < s.len() ==> !seen(s, n).contains_key(s[n].0),
        n == s.len() ==> seen(s, n) == m,
    decreases n,
{
    if n > 0 {
        lemma_seen(s, m, n - 1);
        let before = seen(s, n - 1);
        let last = s[n - 1];
        assert(m.contains_key(last.0) && m[last.0] == last.1);
        assert forall|k: i32| seen(s, n).contains_key(k) implies exists|j: int|
            0 <= j < n && #[trigger] s[j].0 == k by {
            if k == last.0 {
                assert(s[n - 1].0 == k);
            } else {
                assert(before.contains_key(k));
                let j = choose|j: int| 0 <= j < n - 1 && #[trigger] s[j].0 == k;
                assert(0 <= j < n && s[j].0 == k);
            }
        }
        assert forall|k: i32| (exists|j: int| 0 <= j < n && #[trigger] s[j].0 == k) implies seen(
            s,
            n,
        ).contains_key(k) by {
            let j = choose|j: int| 0 <= j < n && #[trigger] s[j].0 == k;
            if j < n - 1 {
                assert(0 <= j < n - 1 && s[j].0 == k);
            }
        }
    }
    if n < s.len() && seen(s, n).contains_key(s[n].0) {
        let j = choose|j: int| 0 <= j < n && #[trigger] s[j].0 == s[n].0;
        assert(s[j].0 != s[n].0);
    }
    if n == s.len() {
        assert forall|k: i32| m.contains_key(k) implies seen(s, n).contains_key(k) by {
            let i = choose|i: int| 0 <= i < s.len() && #[trigger] s[i].0 == k;
            assert(0 <= i < n && s[i].0 == k);
        }
        assert(seen(s, n) =~= m);
    }
}

/// The sum of all weights in `m`, where it fits in 128 bits.
pub fn checked_total(m: &HashMap<i32, u128>) -> (result: Option<u128>)
    ensures
        match result {
            Some(t) => t == total(m@),
            None => total(m@) > u128::MAX,
        },
{
    let items = entries(m);
    let mut acc: u128 = 0;
    let mut i: usize = 0;
    proof {
        lemma_total_empty();
    }
    while i < items.len()
        invariant
            lists(items@, m@),
            0 <= i <= items.len(),
            acc == total(seen(items@, i as int)),
        decreases items.len() - i,
    {
        proof {
            lemma_seen(items@, m@, i as int);
            lemma_seen(items@, m@, i + 1);
            lemma_total_insert(seen(items@, i as int), items@[i as int].0, items@[i as int].1);
            lemma_total_le(seen(items@, i + 1), m@);
        }
        let weight: u128 = items[i].1;
        if weight > u128::MAX - acc {
            return None;
        }
        acc = acc + weight;
        i = i + 1;
    }
    proof {
        lemma_seen(items@, m@, i as int);
    }
    Some(acc)
}

/// Adds `val` to the weight at `key`, which counts as zero where the map has
/// no entry yet.
pub fn add_to_map_value(map: &mut HashMap<i32, u128>, key: &i32, val: u128)
    requires
        mass(old(map)@, *key as int) + val <= u128::MAX,
    ensures
        final(map)@ == old(map)@.insert(*key, (mass(old(map)@, *key as int) + val) as u128),
        total(final(map)@) == total(old(map)@) + val,
{
    broadcast use vstd::std_specs::hash::group_hash_axioms;

    let old_map_val: u128 = match map.get(key) {
        Some(v) => *v,
        None => 0,
    };
    proof {
        lemma_total_insert(map@, *key, (old_map_val + val) as u128);
    }
    map.insert(*key, old_map_val + val);
}

/// Divides every weight in place by `divisor`, rounding down.
pub fn normalize_map_values(map: &mut HashMap<i32, u128>, divisor: u128)
    requires
        divisor != 0,
    ensures
        final(map)@.dom() == old(map)@.dom(),
        forall|k: i32|
            old(map)@.contains_key(k) ==> #[trigger] final(map)@[k] == old(map)@[k] / divisor,
{
    broadcast use vstd::std_specs::hash::group_hash_axioms;

    let items = entries(map);
    let ghost before = map@;
    let mut i: usize = 0;
    while i < items.len()
        invariant
            divisor != 0,
            lists(items@, before),
            0 <= i <= items.len(),
            map@.dom() == before.dom(),
            forall|j: int| 0 <= j < i ==> map@[#[trigger] items@[j].0] == items@[j].1 / divisor,
            forall|j: int| i <= j < items.len() ==> map@[#[trigger] items@[j].0] == items@[j].1,
        decreases items.len() - i,
    {
        let (key, weight) = items[i];
        map.insert(key, weight / divisor);
        assert(map@.dom() =~= before.dom());
        i = i + 1;
    }
    assert forall|k: i32| before.contains_key(k) implies #[trigger] map@[k] == before[k]
        / divisor by {
        let j = choose|j: int| 0 <= j < items@.len() && #[trigger] items@[j].0 == k;
        assert(map@[items@[j].0] == items@[j].1 / divisor);
    }
}

} // verus!
