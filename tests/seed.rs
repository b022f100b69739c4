use perfect_hash::mix::{seeded_slot_of, xorshift_mult64};
use perfect_hash::seed::{find_seed, try_seed, MAX_SEED};

#[test]
fn mix_of_known_values() {
    assert_eq!(xorshift_mult64(0), 0);
    assert_eq!(xorshift_mult64(1), 5180492295206395165);
    assert_eq!(xorshift_mult64(12345), 10977518812293740004);
}

#[test]
fn seeded_slot_wraps_the_sum() {
    assert_eq!(seeded_slot_of(u64::MAX, 2, 8), (xorshift_mult64(1) % 8) as usize);
}

#[test]
fn seed_search_retries_past_the_first_seed() {
    // Two keys in a two-slot table: seed 1 fails whenever both mix to one slot.
    let claimed = vec![None, None];
    let members = vec![0usize, 1];
    let mut retried = false;
    for h in 1..200u64 {
        let hashes = vec![0u64, h];
        let s = find_seed(&hashes, &members, &claimed).unwrap();
        assert!(try_seed(&hashes, &members, &claimed, s));
        for t in 1..s {
            assert!(!try_seed(&hashes, &members, &claimed, t));
        }
        if s > 1 {
            retried = true;
        }
    }
    assert!(retried);
}

#[test]
fn seed_search_avoids_claimed_slots() {
    let hashes = vec![3u64, 9, 27];
    let members = vec![0usize, 1, 2];
    let claimed = vec![Some(0), None, None, Some(1), None, None, None, None];
    let s = find_seed(&hashes, &members, &claimed).unwrap();
    let slots: Vec<usize> = hashes.iter().map(|h| seeded_slot_of(*h, s, 8)).collect();
    for (i, a) in slots.iter().enumerate() {
        assert!(claimed[*a].is_none());
        for b in &slots[i + 1..] {
            assert_ne!(a, b);
        }
    }
}

#[test]
fn seed_search_gives_up_on_equal_hashes() {
    let hashes = vec![7u64, 7];
    assert_eq!(find_seed(&hashes, &vec![0, 1], &vec![None; 4]), None);
    assert!(MAX_SEED >= 1);
}
