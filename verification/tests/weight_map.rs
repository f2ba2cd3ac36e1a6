use dice_sim::weight_map::{add_to_map_value, checked_total, entries, normalize_map_values};
use std::collections::HashMap;

#[test]
fn add_to_a_missing_key_starts_from_zero() {
    let mut map: HashMap<i32, u128> = HashMap::new();
    add_to_map_value(&mut map, &3, 5);
    assert_eq!(map.len(), 1);
    assert_eq!(map.get(&3), Some(&5));
}

#[test]
fn add_to_a_present_key_adds() {
    let mut map: HashMap<i32, u128> = HashMap::new();
    add_to_map_value(&mut map, &-2, 5);
    add_to_map_value(&mut map, &-2, 7);
    add_to_map_value(&mut map, &4, 1);
    add_to_map_value(&mut map, &-2, 0);
    assert_eq!(map.len(), 2);
    assert_eq!(map.get(&-2), Some(&12));
    assert_eq!(map.get(&4), Some(&1));
}

#[test]
fn add_up_to_the_largest_weight() {
    let mut map: HashMap<i32, u128> = HashMap::new();
    add_to_map_value(&mut map, &0, u128::MAX - 1);
    add_to_map_value(&mut map, &0, 1);
    assert_eq!(map.get(&0), Some(&u128::MAX));
}

#[test]
fn normalize_divides_every_value() {
    let mut map: HashMap<i32, u128> = HashMap::new();
    map.insert(1, 10);
    map.insert(2, 7);
    map.insert(-5, 0);
    normalize_map_values(&mut map, 2);
    assert_eq!(map.len(), 3);
    assert_eq!(map.get(&1), Some(&5));
    assert_eq!(map.get(&2), Some(&3));
    assert_eq!(map.get(&-5), Some(&0));
}

#[test]
fn normalize_by_one_changes_nothing() {
    let mut map: HashMap<i32, u128> = HashMap::new();
    map.insert(1, 10);
    map.insert(2, 7);
    let before = map.clone();
    normalize_map_values(&mut map, 1);
    assert_eq!(map, before);
}

#[test]
fn normalize_an_empty_map() {
    let mut map: HashMap<i32, u128> = HashMap::new();
    normalize_map_values(&mut map, 9);
    assert!(map.is_empty());
}

#[test]
fn total_adds_all_weights() {
    let mut map: HashMap<i32, u128> = HashMap::new();
    assert_eq!(checked_total(&map), Some(0));
    map.insert(i32::MIN, 1);
    map.insert(0, 2);
    map.insert(i32::MAX, 3);
    assert_eq!(checked_total(&map), Some(6));
}

#[test]
fn total_that_does_not_fit() {
    let mut map: HashMap<i32, u128> = HashMap::new();
    map.insert(1, u128::MAX);
    assert_eq!(checked_total(&map), Some(u128::MAX));
    map.insert(2, 1);
    assert_eq!(checked_total(&map), None);
}

#[test]
fn entries_list_the_map() {
    let mut map: HashMap<i32, u128> = HashMap::new();
    map.insert(4, 40);
    map.insert(-1, 10);
    map.insert(9, 90);
    let mut listed = entries(&map);
    listed.sort();
    assert_eq!(listed, vec![(-1, 10), (4, 40), (9, 90)]);
}
