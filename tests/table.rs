use perfect_hash::hash::calculate_hash;
use perfect_hash::table::{BuildError, Table};

fn build(keys: &[&str]) -> Table {
    Table::new(keys).unwrap()
}

#[test]
fn it_works() {
    let keys = vec!["foo", "bar", "baz", "qux", "zot", "frob", "zork", "zeek"];

    let t = build(&keys);

    for (i, k) in keys.iter().enumerate() {
        assert_eq!(t.query(k), i);
    }
}

#[test]
fn eight_keys_take_eight_slots() {
    let keys = vec!["foo", "bar", "baz", "qux", "zot", "frob", "zork", "zeek"];
    let t = build(&keys);
    assert_eq!(t.size(), 8);
    let mut seen = vec![false; 8];
    for k in keys.iter() {
        let i = t.query(k);
        assert!(!seen[i]);
        seen[i] = true;
    }
}

#[test]
fn single_key_answers_zero() {
    let t = build(&["only"]);
    assert_eq!(t.size(), 1);
    assert_eq!(t.query("only"), 0);
}

#[test]
fn empty_key_list_gives_empty_table() {
    let t = build(&[]);
    assert_eq!(t.size(), 0);
    assert_eq!(t.query("anything"), 0);
}

#[test]
fn size_is_next_power_of_two() {
    let names: Vec<String> = (0..33).map(|i| format!("k{}", i)).collect();
    for (n, expected) in [(1, 1), (2, 2), (3, 4), (4, 4), (5, 8), (8, 8), (9, 16), (17, 32), (33, 64)] {
        let keys: Vec<&str> = names[..n].iter().map(|s| s.as_str()).collect();
        assert_eq!(build(&keys).size(), expected);
    }
}

#[test]
fn large_key_set_round_trips() {
    let names: Vec<String> = (0..5000).map(|i| format!("key-{}", i)).collect();
    let keys: Vec<&str> = names.iter().map(|s| s.as_str()).collect();
    let t = build(&keys);
    assert_eq!(t.size(), 8192);
    for (i, k) in keys.iter().enumerate() {
        assert_eq!(t.query(k), i);
    }
}

#[test]
fn answers_stay_in_range_for_unknown_keys() {
    let keys = vec!["alpha", "beta", "gamma", "delta", "epsilon"];
    let t = build(&keys);
    for i in 0..1000 {
        let probe = format!("stranger{}", i);
        assert!(t.query(&probe) < keys.len());
    }
}

#[test]
fn building_twice_answers_alike() {
    let keys = vec!["one", "two", "three", "four", "five", "six", "seven"];
    let a = build(&keys);
    let b = build(&keys);
    for k in keys.iter().chain(["eight", "nine"].iter()) {
        assert_eq!(a.query(k), b.query(k));
    }
    assert_eq!(a.values(), b.values());
    assert_eq!(a.seeds(), b.seeds());
}

#[test]
fn duplicate_keys_are_refused() {
    assert_eq!(
        Table::new(&["same", "other", "same"]).err(),
        Some(BuildError::SeedSearchExhausted)
    );
}

#[test]
fn equal_hashes_exhaust_the_seed_search() {
    assert_eq!(
        Table::from_hashes(&vec![42, 42]).err(),
        Some(BuildError::SeedSearchExhausted)
    );
}

#[test]
fn distinct_primary_slots_always_build() {
    let hashes: Vec<u64> = vec![0, 1, 2, 3, 4, 5, 6, 7];
    let t = Table::from_hashes(&hashes).unwrap();
    assert_eq!(t.size(), 8);
    for (i, h) in hashes.iter().enumerate() {
        assert_eq!(t.query_hash(*h), i);
    }
}

#[test]
fn shared_primary_slots_are_seeded() {
    // All eight hashes fall in primary slot 0 of an eight-slot table.
    let hashes: Vec<u64> = (1..=8).map(|i| i * 8).collect();
    let t = Table::from_hashes(&hashes).unwrap();
    for (i, h) in hashes.iter().enumerate() {
        assert_eq!(t.query_hash(*h), i);
    }
}

#[test]
fn single_key_goes_through_an_offset() {
    let t = build(&["only"]);
    assert_eq!(t.seeds(), &vec![-1]);
    assert_eq!(t.values(), &vec![0]);
}

#[test]
fn eight_keys_fill_values_with_a_permutation() {
    let keys = vec!["foo", "bar", "baz", "qux", "zot", "frob", "zork", "zeek"];
    let t = build(&keys);
    let mut v = t.values().clone();
    v.sort();
    assert_eq!(v, vec![0, 1, 2, 3, 4, 5, 6, 7]);
}

#[test]
fn seed_entries_follow_bucket_sizes() {
    let names: Vec<String> = (0..300).map(|i| format!("entry{}", i)).collect();
    let keys: Vec<&str> = names.iter().map(|s| s.as_str()).collect();
    let t = build(&keys);
    let size = t.size();
    let mut counts = vec![0usize; size];
    for k in keys.iter() {
        counts[(calculate_hash(k) % size as u64) as usize] += 1;
    }
    for p in 0..size {
        let e = t.seeds()[p];
        match counts[p] {
            0 => assert_eq!(e, 0),
            1 => {
                assert!(e < 0);
                let d = (-e - 1) as usize;
                assert!(d < size);
            }
            _ => assert!(e >= 1),
        }
    }
    for v in t.values().iter() {
        assert!((*v as usize) < keys.len());
    }
}

#[test]
fn shared_slot_defeating_seed_one_records_a_later_seed() {
    // Even hashes share primary slot 0 of a two-slot table; look for one
    // that collides with hash 0 under seed 1.
    let mut found = false;
    for h in 1..200u64 {
        let hb = h * 2;
        let s1a = perfect_hash::mix::seeded_slot_of(0, 1, 2);
        let s1b = perfect_hash::mix::seeded_slot_of(hb, 1, 2);
        if s1a == s1b {
            let t = Table::from_hashes(&vec![0, hb]).unwrap();
            assert!(t.seeds()[0] >= 2);
            assert_eq!(t.query_hash(0), 0);
            assert_eq!(t.query_hash(hb), 1);
            found = true;
            break;
        }
    }
    assert!(found);
}
