use vstd::prelude::*;
use crate::mix::{seeded_slot, seeded_slot_of};

verus! {

/// The largest seed tried for one bucket before construction gives up.
pub const MAX_SEED: u64 = 1000000;

/// Whether seed `s` sends every member of a bucket (indices into `hashes`) to
/// a slot that `claimed` leaves free, and no two members to the same slot.
pub open spec fn seed_fits(
    hashes: Seq<u64>,
    members: Seq<usize>,
    claimed: Seq<Option<u32>>,
    s: u64,
) -> bool {
    &&& forall|j: int|
        0 <= j < members.len() ==> (#[trigger] claimed[seeded_slot(
            hashes[members[j] as int],
            s,
            claimed.len(),
        )]) is None
    &&& forall|j: int, k: int|
        0 <= j < k < members.len() ==> seeded_slot(hashes[members[j] as int], s, claimed.len())
            != seeded_slot(hashes[members[k] as int], s, claimed.len())
}

/// The first seed from `s` up to `MAX_SEED` that fits the bucket `members`.
pub open spec fn first_fit(
    hashes: Seq<u64>,
    members: Seq<usize>,
    claimed: Seq<Option<u32>>,
    s: nat,
) -> Option<u64>
    decreases MAX_SEED + 1 - s,
{
    if s > MAX_SEED {
        None
    } else if seed_fits(hashes, members, claimed, s as u64) {
        Some(s as u64)
    } else {
        first_fit(hashes, members, claimed, s + 1)
    }
}

/// A seed that fits, where none from `from` on fits before it, is the first fit from `from`.
pub proof fn lemma_first_fit_found(
    hashes: Seq<u64>,
    members: Seq<usize>,
    claimed: Seq<Option<u32>>,
    s: u64,
    from: nat,
)
    requires
        from <= s <= MAX_SEED,
        seed_fits(hashes, members, claimed, s),
        forall|t: u64| from <= t < s ==> !seed_fits(hashes, members, claimed, t),
    ensures
        first_fit(hashes, members, claimed, from) == Some(s),
    decreases s - from,
{
    if from < s {
        assert(!seed_fits(hashes, members, claimed, from as u64));
        lemma_first_fit_found(hashes, members, claimed, s, from + 1);
    }
}

/// Where no seed from `from` to `MAX_SEED` fits, there is no first fit from `from`.
pub proof fn lemma_first_fit_none(
    hashes: Seq<u64>,
    members: Seq<usize>,
    claimed: Seq<Option<u32>>,
    from: nat,
)
    requires
        forall|t: u64| from <= t <= MAX_SEED ==> !seed_fits(hashes, members, claimed, t),
    ensures
        first_fit(hashes, members, claimed, from) is None,
    decreases MAX_SEED + 1 - from,
{
    if from <= MAX_SEED {
        assert(!seed_fits(hashes, members, claimed, from as u64));
        lemma_first_fit_none(hashes, members, claimed, from + 1);
    }
}

/// Tells whether seed `s` fits the bucket `members`.
pub fn try_seed(hashes: &Vec<u64>, members: &Vec<usize>, claimed: &Vec<Option<u32>>, s: u64) -> (r:
    bool)
    requires
        claimed.len() > 0,
        forall|j: int| 0 <= j < members.len() ==> members[j] < hashes.len(),
    ensures
        r == seed_fits(hashes@, members@, claimed@, s),
{
    let size = claimed.len();
    let mut taken: Vec<usize> = Vec::new();
    let mut j: usize = 0;
    while j < members.len()
        invariant
            size == claimed.len(),
            size > 0,
            forall|j: int| 0 <= j < members.len() ==> members[j] < hashes.len(),
            j <= members.len(),
            taken.len() == j,
            forall|l: int|
                0 <= l < j ==> taken[l] == seeded_slot(hashes[members[l] as int], s, size as nat),
            forall|l: int| 0 <= l < j ==> (#[trigger] claimed[taken[l] as int]) is None,
            forall|l: int, m: int| 0 <= l < m < j ==> taken[l] != taken[m],
        decreases members.len() - j,
    {
        let slot = seeded_slot_of(hashes[members[j]], s, size);
        if claimed[slot].is_some() {
            return false;
        }
        let mut l: usize = 0;
        while l < j
            invariant
                l <= j,
                j < members.len(),
                j == taken.len(),
                size == claimed.len(),
                size > 0,
                forall|j: int| 0 <= j < members.len() ==> members[j] < hashes.len(),
                slot == seeded_slot(hashes[members[j as int] as int], s, size as nat),
                forall|m: int|
                    0 <= m < j ==> taken[m] == seeded_slot(hashes[members[m] as int], s, size as nat),
                forall|m: int| 0 <= m < l ==> taken[m] != slot,
            decreases j - l,
        {
            if taken[l] == slot {
                assert(!seed_fits(hashes@, members@, claimed@, s)) by {
                    assert(seeded_slot(hashes[members[l as int] as int], s, size as nat)
                        == seeded_slot(hashes[members[j as int] as int], s, size as nat));
                }
                return false;
            }
            l += 1;
        }
        taken.push(slot);
        j += 1;
    }
    assert forall|l: int| 0 <= l < members.len() implies (#[trigger] claimed@[seeded_slot(
        hashes[members[l] as int],
        s,
        size as nat,
    )]) is None by {
        assert(claimed[taken[l] as int] is None);
    }
    assert forall|l: int, m: int| 0 <= l < m < members.len() implies seeded_slot(
        hashes[members[l] as int],
        s,
        size as nat,
    ) != seeded_slot(hashes[members[m] as int], s, size as nat) by {
        assert(taken[l] != taken[m]);
    }
    true
}

/// Searches the seeds `1..=MAX_SEED`, in increasing order, for the first that
/// fits the bucket `members`; `None` where none does.
pub fn find_seed(hashes: &Vec<u64>, members: &Vec<usize>, claimed: &Vec<Option<u32>>) -> (r:
    Option<u64>)
    requires
        claimed.len() > 0,
        forall|j: int| 0 <= j < members.len() ==> members[j] < hashes.len(),
    ensures
        r == first_fit(hashes@, members@, claimed@, 1),
        match r {
            Some(s) => {
                &&& 1 <= s <= MAX_SEED
                &&& seed_fits(hashes@, members@, claimed@, s)
                &&& forall|t: u64| 1 <= t < s ==> !seed_fits(hashes@, members@, claimed@, t)
            },
            None => forall|t: u64| 1 <= t <= MAX_SEED ==> !seed_fits(hashes@, members@, claimed@, t),
        },
{
    let mut s: u64 = 1;
    while s <= MAX_SEED
        invariant
            1 <= s <= MAX_SEED + 1,
            claimed.len() > 0,
            forall|j: int| 0 <= j < members.len() ==> members[j] < hashes.len(),
            forall|t: u64| 1 <= t < s ==> !seed_fits(hashes@, members@, claimed@, t),
        decreases MAX_SEED + 1 - s,
    {
        if try_seed(hashes, members, claimed, s) {
            proof {
                lemma_first_fit_found(hashes@, members@, claimed@, s, 1);
            }
            return Some(s);
        }
        s += 1;
    }
    proof {
        lemma_first_fit_none(hashes@, members@, claimed@, 1);
    }
    None
}

} // verus!
