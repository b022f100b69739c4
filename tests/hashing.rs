use std::collections::hash_map::DefaultHasher;
use std::hash::{Hash, Hasher};

use perfect_hash::construct::next_power_of_two;
use perfect_hash::hash::calculate_hash;

#[test]
fn hash_matches_a_fresh_default_hasher() {
    let mut s = DefaultHasher::new();
    "foo".hash(&mut s);
    assert_eq!(calculate_hash("foo"), s.finish());
    assert_ne!(calculate_hash("foo"), calculate_hash("bar"));
    assert_eq!(calculate_hash("foo"), calculate_hash(&String::from("foo")));
}

#[test]
fn next_power_of_two_values() {
    assert_eq!(next_power_of_two(1), 1);
    assert_eq!(next_power_of_two(2), 2);
    assert_eq!(next_power_of_two(3), 4);
    assert_eq!(next_power_of_two(1000), 1024);
    assert_eq!(next_power_of_two(1024), 1024);
}
