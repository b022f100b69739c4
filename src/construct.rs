use vstd::prelude::*;
use vstd::set_lib::{lemma_int_range, set_int_range};
use crate::mix::{seeded_slot, seeded_slot_of};
use crate::seed::{find_seed, first_fit, seed_fits, MAX_SEED};
use crate::table::{entry_slot, primary_slot, MAX_KEYS};

verus! {

/// A primary slot lies in the table.
pub proof fn lemma_primary_slot_bound(h: u64, size: nat)
    requires
        size > 0,
    ensures
        0 <= primary_slot(h, size) < size,
{
}

/// Whether `x` is a power of two.
pub open spec fn is_pow2(x: nat) -> bool
    decreases x,
{
    if x <= 1 {
        x == 1
    } else {
        x % 2 == 0 && is_pow2(x / 2)
    }
}

/// The first of `p`, `2p`, `4p`, ... that is at least `n`.
pub open spec fn pow2_from(n: nat, p: nat) -> nat
    decreases 2 * n - p,
{
    if p >= n || p == 0 {
        p
    } else {
        pow2_from(n, 2 * p)
    }
}

/// The smallest power of two at least `n`.
pub open spec fn next_pow2(n: nat) -> nat {
    pow2_from(n, 1)
}

/// Whether `p` is the smallest power of two at least `n`.
pub open spec fn is_next_pow2(n: nat, p: nat) -> bool {
    &&& is_pow2(p)
    &&& p >= n
    &&& (p == 1 || p / 2 < n)
}

/// The smallest power of two at least `n`.
pub fn next_power_of_two(n: usize) -> (r: usize)
    requires
        1 <= n <= MAX_KEYS,
    ensures
        r == next_pow2(n as nat),
        is_next_pow2(n as nat, r as nat),
        r < 2 * n,
{
    let mut p: usize = 1;
    while p < n
        invariant
            1 <= n <= MAX_KEYS,
            1 <= p < 2 * n,
            is_pow2(p as nat),
            p == 1 || p / 2 < n,
            pow2_from(n as nat, p as nat) == next_pow2(n as nat),
        decreases 2 * n - p,
    {
        assert(is_pow2((p + p) as nat)) by {
            assert((p + p) as nat / 2 == p as nat);
        }
        p = p + p;
    }
    p
}

/// The buckets once the first `k` hashes are dealt, each to the bucket of
/// its primary slot, in order.
pub open spec fn deal(hashes: Seq<u64>, size: nat, k: nat) -> Seq<Seq<usize>>
    decreases k,
{
    if k == 0 {
        Seq::new(size, |b: int| Seq::<usize>::empty())
    } else {
        let prev = deal(hashes, size, (k - 1) as nat);
        let p = primary_slot(hashes[k - 1], size);
        prev.update(p, prev[p].push((k - 1) as usize))
    }
}

/// Dealing `k` hashes gives `size` buckets of at most `k` keys each.
pub proof fn lemma_deal_len(hashes: Seq<u64>, size: nat, k: nat)
    requires
        size > 0,
        k <= hashes.len(),
    ensures
        deal(hashes, size, k).len() == size,
        forall|b: int| 0 <= b < size ==> #[trigger] deal(hashes, size, k)[b].len() <= k,
    decreases k,
{
    if k > 0 {
        lemma_deal_len(hashes, size, (k - 1) as nat);
        lemma_primary_slot_bound(hashes[k - 1], size);
    }
}

/// `claimed` after the first `k` members of a bucket are placed with seed `s`.
pub open spec fn commit(
    hashes: Seq<u64>,
    members: Seq<usize>,
    claimed: Seq<Option<u32>>,
    s: u64,
    k: nat,
) -> Seq<Option<u32>>
    decreases k,
{
    if k == 0 {
        claimed
    } else {
        let m = members[k - 1];
        commit(hashes, members, claimed, s, (k - 1) as nat).update(
            seeded_slot(hashes[m as int], s, claimed.len()),
            Some(m as u32),
        )
    }
}

/// Seeds, from the state `(level, b)` on, every bucket of two keys or more:
/// those of length `level` from index `b`, then the shorter ones, longest
/// first and in index order, each with its first fitting seed against the
/// slots claimed so far, which is recorded at the bucket's primary slot.
/// Gives the claimed slots and the seed array at the end, or `None` where
/// some bucket has no fitting seed.
pub open spec fn seed_all(
    hashes: Seq<u64>,
    buckets: Seq<Seq<usize>>,
    level: int,
    b: int,
    claimed: Seq<Option<u32>>,
    seeds: Seq<i32>,
) -> Option<(Seq<Option<u32>>, Seq<i32>)>
    decreases level, buckets.len() - b,
{
    if level < 2 {
        Some((claimed, seeds))
    } else if b < 0 || b >= buckets.len() {
        seed_all(hashes, buckets, level - 1, 0, claimed, seeds)
    } else if buckets[b].len() != level {
        seed_all(hashes, buckets, level, b + 1, claimed, seeds)
    } else {
        match first_fit(hashes, buckets[b], claimed, 1) {
            None => None,
            Some(s) => seed_all(
                hashes,
                buckets,
                level,
                b + 1,
                commit(hashes, buckets[b], claimed, s, buckets[b].len()),
                seeds.update(b, s as i32),
            ),
        }
    }
}

/// The seeding of a table for these hashes: the claimed slots and the seed
/// array once every bucket of two keys or more is seeded, from no slot
/// claimed and every seed 0; `None` where a seed search fails.
pub open spec fn seeding(hashes: Seq<u64>) -> Option<(Seq<Option<u32>>, Seq<i32>)> {
    let n = hashes.len();
    let size = next_pow2(n);
    seed_all(
        hashes,
        deal(hashes, size, n),
        n as int,
        0,
        Seq::new(size, |j: int| None::<u32>),
        Seq::new(size, |j: int| 0i32),
    )
}

/// The slots claimed by the seeding of a table for these hashes.
pub open spec fn seeded_claims(hashes: Seq<u64>) -> Seq<Option<u32>> {
    match seeding(hashes) {
        Some((claimed, _)) => claimed,
        None => Seq::empty(),
    }
}

/// The seed array left by the seeding of a table for these hashes.
pub open spec fn seeded_seeds(hashes: Seq<u64>) -> Seq<i32> {
    match seeding(hashes) {
        Some((_, seeds)) => seeds,
        None => Seq::empty(),
    }
}

/// The slots below `j` that `claimed` leaves free, in increasing order.
pub open spec fn free_slots(claimed: Seq<Option<u32>>, j: nat) -> Seq<usize>
    decreases j,
{
    if j == 0 {
        Seq::empty()
    } else {
        let prev = free_slots(claimed, (j - 1) as nat);
        if claimed[j - 1] is None {
            prev.push((j - 1) as usize)
        } else {
            prev
        }
    }
}

/// Places, from bucket `b` on in index order, the key of each single-key
/// bucket in the last of the `free` slots, recording the offset `-(d + 1)`
/// of that slot `d` at the bucket's primary slot.
pub open spec fn place_singles(
    buckets: Seq<Seq<usize>>,
    b: int,
    claimed: Seq<Option<u32>>,
    seeds: Seq<i32>,
    free: Seq<usize>,
) -> (Seq<Option<u32>>, Seq<i32>)
    decreases buckets.len() - b,
{
    if b < 0 || b >= buckets.len() {
        (claimed, seeds)
    } else if buckets[b].len() == 1 && free.len() > 0 {
        let d = free[free.len() - 1] as int;
        place_singles(
            buckets,
            b + 1,
            claimed.update(d, Some(buckets[b][0] as u32)),
            seeds.update(b, (-(d + 1)) as i32),
            free.subrange(0, free.len() - 1),
        )
    } else {
        place_singles(buckets, b + 1, claimed, seeds, free)
    }
}

/// The claimed slots and the seed array once every key is placed: the
/// seeding, then the single-key buckets in the slots it leaves free.
pub open spec fn placement(hashes: Seq<u64>) -> (Seq<Option<u32>>, Seq<i32>) {
    let claimed = seeded_claims(hashes);
    place_singles(
        deal(hashes, claimed.len(), hashes.len()),
        0,
        claimed,
        seeded_seeds(hashes),
        free_slots(claimed, claimed.len()),
    )
}

/// A level that no bucket has is passed over.
proof fn lemma_seed_all_skips_level(
    hashes: Seq<u64>,
    buckets: Seq<Seq<usize>>,
    level: int,
    b: int,
    claimed: Seq<Option<u32>>,
    seeds: Seq<i32>,
)
    requires
        level >= 2,
        0 <= b <= buckets.len(),
        forall|c: int| 0 <= c < buckets.len() ==> #[trigger] buckets[c].len() != level,
    ensures
        seed_all(hashes, buckets, level, b, claimed, seeds) == seed_all(
            hashes,
            buckets,
            level - 1,
            0,
            claimed,
            seeds,
        ),
    decreases buckets.len() - b,
{
    if b < buckets.len() {
        lemma_seed_all_skips_level(hashes, buckets, level, b + 1, claimed, seeds);
    }
}

/// Seeding may start at any level that no bucket exceeds.
proof fn lemma_seed_all_from_top(
    hashes: Seq<u64>,
    buckets: Seq<Seq<usize>>,
    top: int,
    level: int,
    claimed: Seq<Option<u32>>,
    seeds: Seq<i32>,
)
    requires
        0 <= level <= top,
        forall|c: int| 0 <= c < buckets.len() ==> #[trigger] buckets[c].len() <= level,
    ensures
        seed_all(hashes, buckets, top, 0, claimed, seeds) == seed_all(
            hashes,
            buckets,
            level,
            0,
            claimed,
            seeds,
        ),
    decreases top - level,
{
    if top > level {
        if top >= 2 {
            lemma_seed_all_skips_level(hashes, buckets, top, 0, claimed, seeds);
        }
        lemma_seed_all_from_top(hashes, buckets, top - 1, level, claimed, seeds);
    }
}

/// The contents of a list of buckets.
pub open spec fn bucket_views(buckets: Seq<Vec<usize>>) -> Seq<Seq<usize>> {
    Seq::new(buckets.len(), |b: int| buckets[b]@)
}

/// `buckets[b]` lists, in increasing order, the indices of the hashes whose
/// primary slot is `b`.
pub open spec fn buckets_wf(hashes: Seq<u64>, buckets: Seq<Vec<usize>>, size: nat) -> bool {
    &&& buckets.len() == size
    &&& forall|b: int, j: int|
        0 <= b < size && 0 <= j < buckets[b]@.len() ==> {
            &&& (#[trigger] buckets[b]@[j] as int) < hashes.len()
            &&& primary_slot(hashes[buckets[b]@[j] as int], size) == b
        }
    &&& forall|b: int, j: int, k: int|
        0 <= b < size && 0 <= j < k < buckets[b]@.len() ==> #[trigger] buckets[b]@[j]
            < #[trigger] buckets[b]@[k]
    &&& forall|i: int|
        0 <= i < hashes.len() ==> #[trigger] buckets[primary_slot(
            hashes[i],
            size,
        )]@.contains(i as usize)
}

/// Groups the hash indices by primary slot.
fn bucket_keys(hashes: &Vec<u64>, size: usize) -> (r: Vec<Vec<usize>>)
    requires
        size > 0,
    ensures
        buckets_wf(hashes@, r@, size as nat),
        bucket_views(r@) == deal(hashes@, size as nat, hashes.len() as nat),
{
    let mut buckets: Vec<Vec<usize>> = Vec::new();
    let mut b: usize = 0;
    while b < size
        invariant
            b <= size,
            buckets.len() == b,
            forall|c: int| 0 <= c < b ==> buckets[c]@ == Seq::<usize>::empty(),
        decreases size - b,
    {
        buckets.push(Vec::new());
        b += 1;
    }
    assert(bucket_views(buckets@) =~= deal(hashes@, size as nat, 0));
    let mut i: usize = 0;
    while i < hashes.len()
        invariant
            size > 0,
            i <= hashes.len(),
            buckets.len() == size,
            bucket_views(buckets@) == deal(hashes@, size as nat, i as nat),
            forall|b: int, j: int|
                0 <= b < size && 0 <= j < buckets[b]@.len() ==> {
                    &&& (#[trigger] buckets[b]@[j] as int) < i
                    &&& primary_slot(hashes[buckets[b]@[j] as int], size as nat) == b
                },
            forall|b: int, j: int, k: int|
                0 <= b < size && 0 <= j < k < buckets[b]@.len() ==> #[trigger] buckets[b]@[j]
                    < #[trigger] buckets[b]@[k],
            forall|k: int|
                0 <= k < i ==> #[trigger] buckets[primary_slot(
                    hashes[k],
                    size as nat,
                )]@.contains(k as usize),
        decreases hashes.len() - i,
    {
        let p = (hashes[i] % (size as u64)) as usize;
        let ghost before = buckets@;
        proof {
            lemma_primary_slot_bound(hashes[i as int], size as nat);
        }
        buckets[p].push(i);
        assert(buckets@ == before.update(p as int, buckets[p as int]));
        assert(buckets[p as int]@ == before[p as int]@.push(i));
        assert(bucket_views(buckets@) =~= deal(hashes@, size as nat, (i + 1) as nat));
        assert forall|k: int| 0 <= k <= i implies #[trigger] buckets[primary_slot(
            hashes[k],
            size as nat,
        )]@.contains(k as usize) by {
            let q = primary_slot(hashes[k], size as nat);
            lemma_primary_slot_bound(hashes[k], size as nat);
            if k == i {
                assert(buckets[q]@[buckets[q]@.len() - 1] == i);
            } else {
                assert(before[q]@.contains(k as usize));
                let w = choose|w: int| 0 <= w < before[q]@.len() && before[q]@[w] == k as usize;
                assert(buckets[q]@[w] == k as usize);
            }
        }
        i += 1;
    }
    buckets
}

/// Key `i` is sent by `seeds` to a slot of `claimed` that holds `i`.
pub open spec fn resolves(hashes: Seq<u64>, claimed: Seq<Option<u32>>, seeds: Seq<i32>, i: int) -> bool {
    let e = entry_slot(seeds, hashes[i]);
    &&& 0 <= e < claimed.len()
    &&& claimed[e] == Some(i as u32)
}

/// A state of construction: `claimed[j]` is the key placed at slot `j`,
/// `placed` the claimed slots, `todo` the keys not yet placed, and every key
/// already placed resolves to its own slot.
pub open spec fn progress(
    hashes: Seq<u64>,
    claimed: Seq<Option<u32>>,
    seeds: Seq<i32>,
    todo: Set<int>,
    placed: Set<int>,
) -> bool {
    let n = hashes.len();
    let size = claimed.len();
    &&& seeds.len() == size
    &&& size > 0
    &&& todo.finite()
    &&& placed.finite()
    &&& todo.len() + placed.len() == n
    &&& forall|i: int| #[trigger] todo.contains(i) ==> 0 <= i < n
    &&& forall|j: int| #[trigger] placed.contains(j) <==> 0 <= j < size && claimed[j] is Some
    &&& forall|j: int| 0 <= j < size && (#[trigger] claimed[j]) is Some ==> claimed[j]->0 < n
    &&& forall|p: int| 0 <= p < size && #[trigger] seeds[p] < 0 ==> -seeds[p] - 1 < size
    &&& forall|i: int|
        0 <= i < n && !todo.contains(i) ==> #[trigger] resolves(hashes, claimed, seeds, i)
}

/// `members` lists, in increasing order, the keys whose primary slot is `b`.
pub open spec fn is_bucket(hashes: Seq<u64>, members: Seq<usize>, b: int, size: nat) -> bool {
    &&& forall|j: int|
        0 <= j < members.len() ==> {
            &&& (#[trigger] members[j] as int) < hashes.len()
            &&& primary_slot(hashes[members[j] as int], size) == b
        }
    &&& forall|j: int, k: int| 0 <= j < k < members.len() ==> #[trigger] members[j] < #[trigger] members[k]
    &&& forall|i: int|
        0 <= i < hashes.len() && primary_slot(hashes[i], size) == b ==> #[trigger] members.contains(
            i as usize,
        )
}

/// Places the bucket `members` of primary slot `b` with the first seed that
/// fits, and records that seed at `b`. Gives back the keys and slots still
/// unplaced and placed, or `None` where no seed up to `MAX_SEED` fits.
fn seed_bucket(
    hashes: &Vec<u64>,
    members: &Vec<usize>,
    b: usize,
    claimed: &mut Vec<Option<u32>>,
    seeds: &mut Vec<i32>,
    Ghost(todo): Ghost<Set<int>>,
    Ghost(placed): Ghost<Set<int>>,
) -> (r: Option<(Ghost<Set<int>>, Ghost<Set<int>>)>)
    requires
        progress(hashes@, old(claimed)@, old(seeds)@, todo, placed),
        hashes.len() <= MAX_KEYS,
        b < old(claimed).len(),
        is_bucket(hashes@, members@, b as int, old(claimed).len() as nat),
        forall|i: int|
            0 <= i < hashes.len() && primary_slot(hashes[i], old(claimed).len() as nat) == b
                ==> #[trigger] todo.contains(i),
    ensures
        final(claimed).len() == old(claimed).len(),
        r is None <==> first_fit(hashes@, members@, old(claimed)@, 1) is None,
        r is Some ==> final(claimed)@ == commit(
            hashes@,
            members@,
            old(claimed)@,
            first_fit(hashes@, members@, old(claimed)@, 1)->0,
            members.len() as nat,
        ),
        r is Some ==> 1 <= first_fit(hashes@, members@, old(claimed)@, 1)->0 <= MAX_SEED,
        r is Some ==> final(seeds)@ == old(seeds)@.update(
            b as int,
            (first_fit(hashes@, members@, old(claimed)@, 1)->0) as i32,
        ),
        match r {
            Some((t, p)) => {
                &&& progress(hashes@, final(claimed)@, final(seeds)@, t@, p@)
                &&& forall|i: int|
                    0 <= i < hashes.len() ==> (#[trigger] t@.contains(i) <==> todo.contains(i)
                        && primary_slot(hashes[i], old(claimed).len() as nat) != b)
            },
            None => forall|t: u64|
                1 <= t <= MAX_SEED ==> !seed_fits(hashes@, members@, old(claimed)@, t),
        },
{
    let ghost n = hashes.len();
    let size = claimed.len();
    let found = find_seed(hashes, members, claimed);
    let s = match found {
        None => {
            return None;
        },
        Some(s) => s,
    };
    let ghost claimed0 = claimed@;
    let ghost seeds0 = seeds@;
    seeds.set(b, s as i32);
    let ghost mut left = todo;
    let ghost mut taken = placed;
    assert forall|i: int|
        0 <= i < n && !left.contains(i) implies #[trigger] resolves(
        hashes@,
        claimed@,
        seeds@,
        i,
    ) by {
        assert(resolves(hashes@, claimed0, seeds0, i));
        assert(primary_slot(hashes[i], size as nat) != b);
    }
    let mut j: usize = 0;
    while j < members.len()
        invariant
            n == hashes.len(),
            n <= MAX_KEYS,
            size == claimed.len(),
            b < size,
            1 <= s <= MAX_SEED,
            j <= members.len(),
            seeds@[b as int] == s as i32,
            seeds@ == seeds0.update(b as int, s as i32),
            claimed@ == commit(hashes@, members@, claimed0, s, j as nat),
            claimed0.len() == size,
            is_bucket(hashes@, members@, b as int, size as nat),
            progress(hashes@, claimed@, seeds@, left, taken),
            forall|k: int, l: int|
                0 <= k < l < members.len() ==> seeded_slot(hashes[members[k] as int], s, size as nat)
                    != seeded_slot(hashes[members[l] as int], s, size as nat),
            forall|k: int|
                j <= k < members.len() ==> left.contains(members[k] as int) && (#[trigger] claimed@[seeded_slot(
                    hashes[members[k] as int],
                    s,
                    size as nat,
                )]) is None,
            forall|k: int| 0 <= k < j ==> !left.contains(#[trigger] members[k] as int),
            forall|i: int|
                0 <= i < n && primary_slot(hashes[i], size as nat) != b ==> (#[trigger] left.contains(i)
                    <==> todo.contains(i)),
        decreases members.len() - j,
    {
        let m = members[j];
        let slot = seeded_slot_of(hashes[m], s, size);
        let ghost before = claimed@;
        let ghost seeds_now = seeds@;
        claimed.set(slot, Some(m as u32));
        proof {
            assert(!taken.contains(slot as int));
            assert(left.contains(m as int));
            left = left.remove(m as int);
            taken = taken.insert(slot as int);
            assert forall|i: int|
                0 <= i < n && !left.contains(i) implies #[trigger] resolves(
                hashes@,
                claimed@,
                seeds@,
                i,
            ) by {
                if i != m {
                    assert(resolves(hashes@, before, seeds_now, i));
                } else {
                    assert(primary_slot(hashes[i], size as nat) == b);
                }
            }
            assert forall|k: int|
                j + 1 <= k < members.len() implies left.contains(members[k] as int) && (#[trigger] claimed@[seeded_slot(
                hashes[members[k] as int],
                s,
                size as nat,
            )]) is None by {
                assert(members[k] > members[j as int]);
                assert(before[seeded_slot(hashes[members[k] as int], s, size as nat)] is None);
            }
        }
        j += 1;
    }
    proof {
        assert forall|i: int|
            0 <= i < n implies (#[trigger] left.contains(i) <==> todo.contains(i) && primary_slot(
            hashes[i],
            size as nat,
        ) != b) by {
            if primary_slot(hashes[i], size as nat) == b {
                assert(members@.contains(i as usize));
                let k = choose|k: int| 0 <= k < members.len() && members@[k] == i as usize;
                assert(!left.contains(members[k] as int));
            }
        }
    }
    Some((Ghost(left), Ghost(taken)))
}

/// Whether bucket `b` is seeded once every bucket longer than `level`, and
/// those of length `level` before `next`, are; single-key and empty buckets
/// never are.
pub open spec fn seeded_before(buckets: Seq<Vec<usize>>, level: int, next: int, b: int) -> bool {
    let l = buckets[b]@.len() as int;
    l >= 2 && (l > level || (l == level && b < next))
}

/// Whether bucket `b` is placed once every bucket of two keys or more, and
/// the single-key buckets before `next`, are.
pub open spec fn placed_before(buckets: Seq<Vec<usize>>, next: int, b: int) -> bool {
    let l = buckets[b]@.len() as int;
    l >= 2 || (l == 1 && b < next)
}

/// Places every key in a slot of its own: buckets of two keys or more,
/// longest first, by seed search; single-key buckets then in free slots,
/// recorded as offsets. `None` where a seed search fails.
pub(crate) fn place_keys(hashes: &Vec<u64>, size: usize) -> (r: Option<(Vec<Option<u32>>, Vec<i32>)>)
    requires
        1 <= hashes.len() <= MAX_KEYS,
        hashes.len() <= size < 2 * MAX_KEYS,
        size == next_pow2(hashes.len() as nat),
    ensures
        r is None <==> seeding(hashes@) is None,
        match r {
            Some((claimed, seeds)) => {
                &&& claimed.len() == size
                &&& seeds.len() == size
                &&& forall|i: int|
                    0 <= i < hashes.len() ==> #[trigger] resolves(hashes@, claimed@, seeds@, i)
                &&& forall|j: int|
                    0 <= j < size && (#[trigger] claimed[j]) is Some ==> claimed[j]->0 < hashes.len()
                &&& forall|p: int| 0 <= p < size && #[trigger] seeds[p] < 0 ==> -seeds[p] - 1 < size
                &&& forall|p: int|
                    0 <= p < size ==> is_bucket(
                        hashes@,
                        #[trigger] deal(hashes@, size as nat, hashes.len() as nat)[p],
                        p,
                        size as nat,
                    )
                &&& forall|p: int|
                    0 <= p < size ==> {
                        let l = deal(hashes@, size as nat, hashes.len() as nat)[p].len();
                        &&& l == 0 ==> #[trigger] seeds[p] == 0
                        &&& l == 1 ==> seeds[p] < 0
                        &&& l >= 2 ==> 1 <= seeds[p] && seeds[p] == seeded_seeds(hashes@)[p]
                    }
                &&& forall|j: int|
                    0 <= j < size && (#[trigger] seeded_claims(hashes@)[j]) is Some ==> claimed[j]
                        == seeded_claims(hashes@)[j]
                &&& (claimed@, seeds@) == placement(hashes@)
            },
            None => exists|i: int, k: int|
                0 <= i < k < hashes.len() && primary_slot(hashes[i], size as nat) == primary_slot(
                    hashes[k],
                    size as nat,
                ),
        },
{
    let n = hashes.len();
    let buckets = bucket_keys(hashes, size);
    let ghost bv = deal(hashes@, size as nat, n as nat);
    proof {
        lemma_deal_len(hashes@, size as nat, n as nat);
    }
    let mut claimed: Vec<Option<u32>> = Vec::new();
    let mut seeds: Vec<i32> = Vec::new();
    let mut maxlen: usize = 0;
    let mut b: usize = 0;
    while b < size
        invariant
            b <= size,
            buckets.len() == size,
            claimed.len() == b,
            seeds.len() == b,
            forall|c: int| 0 <= c < b ==> (#[trigger] claimed[c]) is None,
            forall|c: int| 0 <= c < b ==> #[trigger] seeds[c] == 0,
            forall|c: int| 0 <= c < b ==> (#[trigger] buckets[c]@.len()) <= maxlen,
            maxlen <= n,
            n == hashes.len(),
            bv == bucket_views(buckets@),
            bv.len() == size,
            forall|c: int| 0 <= c < size ==> #[trigger] bv[c].len() <= n,
        decreases size - b,
    {
        claimed.push(None);
        seeds.push(0);
        if buckets[b].len() > maxlen {
            assert(bv[b as int] == buckets[b as int]@);
            maxlen = buckets[b].len();
        }
        b += 1;
    }
    let ghost mut todo = set_int_range(0, n as int);
    let ghost mut placed = Set::<int>::empty();
    proof {
        assert(claimed@ =~= Seq::new(size as nat, |j: int| None::<u32>));
        assert forall|c: int| 0 <= c < bv.len() implies #[trigger] bv[c].len() <= maxlen by {
            assert(bv[c] == buckets[c]@);
        }
        assert(seeds@ =~= Seq::new(size as nat, |j: int| 0i32));
        lemma_seed_all_from_top(hashes@, bv, n as int, maxlen as int, claimed@, seeds@);
        lemma_int_range(0, n as int);
        assert forall|j: int| #[trigger] placed.contains(j) <==> 0 <= j < size && claimed[j] is Some by {
            if 0 <= j < size {
                assert(claimed[j] is None);
            }
        }
    }
    let mut level: usize = maxlen;
    while level >= 2
        invariant
            n == hashes.len(),
            1 <= n <= MAX_KEYS,
            n <= size < 2 * MAX_KEYS,
            claimed.len() == size,
            buckets_wf(hashes@, buckets@, size as nat),
            forall|c: int| 0 <= c < size ==> (#[trigger] buckets[c]@.len()) <= maxlen,
            level <= maxlen,
            progress(hashes@, claimed@, seeds@, todo, placed),
            bv == bucket_views(buckets@),
            seeding(hashes@) == seed_all(hashes@, bv, level as int, 0, claimed@, seeds@),
            forall|p: int|
                0 <= p < size ==> (seeded_before(buckets@, level as int, 0, p) ==> 1
                    <= #[trigger] seeds[p]) && (!seeded_before(buckets@, level as int, 0, p)
                    ==> seeds[p] == 0),
            forall|i: int|
                0 <= i < n ==> (#[trigger] todo.contains(i) <==> !seeded_before(
                    buckets@,
                    level as int,
                    0,
                    primary_slot(hashes[i], size as nat),
                )),
        decreases level,
    {
        let mut b: usize = 0;
        while b < size
            invariant
                n == hashes.len(),
                1 <= n <= MAX_KEYS,
                n <= size < 2 * MAX_KEYS,
                claimed.len() == size,
                b <= size,
                level >= 2,
                buckets_wf(hashes@, buckets@, size as nat),
                progress(hashes@, claimed@, seeds@, todo, placed),
                bv == bucket_views(buckets@),
                seeding(hashes@) == seed_all(hashes@, bv, level as int, b as int, claimed@, seeds@),
                forall|p: int|
                    0 <= p < size ==> (seeded_before(buckets@, level as int, b as int, p) ==> 1
                        <= #[trigger] seeds[p]) && (!seeded_before(buckets@, level as int, b as int, p)
                        ==> seeds[p] == 0),
                forall|i: int|
                    0 <= i < n ==> (#[trigger] todo.contains(i) <==> !seeded_before(
                        buckets@,
                        level as int,
                        b as int,
                        primary_slot(hashes[i], size as nat),
                    )),
            decreases size - b,
        {
            let ghost c0 = claimed@;
            let ghost s0 = seeds@;
            proof {
                assert(bv[b as int] == buckets[b as int]@);
            }
            if buckets[b].len() == level {
                proof {
                    assert forall|i: int|
                        0 <= i < n && primary_slot(hashes[i], size as nat) == b implies #[trigger] todo.contains(i) by {
                        assert(!seeded_before(buckets@, level as int, b as int, b as int));
                    }
                }
                match seed_bucket(
                    hashes,
                    &buckets[b],
                    b,
                    &mut claimed,
                    &mut seeds,
                    Ghost(todo),
                    Ghost(placed),
                ) {
                    None => {
                        proof {
                            let m0 = buckets[b as int]@[0];
                            let m1 = buckets[b as int]@[1];
                            assert(m0 < m1);
                            assert(seed_all(hashes@, bv, level as int, b as int, c0, s0) is None);
                            assert(primary_slot(hashes[m0 as int], size as nat) == primary_slot(
                                hashes[m1 as int],
                                size as nat,
                            ));
                        }
                        return None;
                    },
                    Some((t, p)) => {
                        proof {
                            todo = t@;
                            placed = p@;
                        }
                    },
                }
            }
            proof {
                assert(seed_all(hashes@, bv, level as int, b as int, c0, s0) == seed_all(
                    hashes@,
                    bv,
                    level as int,
                    b + 1,
                    claimed@,
                    seeds@,
                ));
                assert forall|p: int|
                    0 <= p < size implies (seeded_before(buckets@, level as int, b + 1, p) ==> 1
                    <= #[trigger] seeds[p]) && (!seeded_before(buckets@, level as int, b + 1, p)
                    ==> seeds[p] == 0) by {
                    if p != b {
                        assert(seeds[p] == s0[p]);
                        assert(seeded_before(buckets@, level as int, b + 1, p) == seeded_before(
                            buckets@,
                            level as int,
                            b as int,
                            p,
                        ));
                    }
                }
                assert forall|i: int|
                    0 <= i < n implies (#[trigger] todo.contains(i) <==> !seeded_before(
                    buckets@,
                    level as int,
                    b + 1,
                    primary_slot(hashes[i], size as nat),
                )) by {
                    lemma_primary_slot_bound(hashes[i], size as nat);
                }
            }
            b += 1;
        }
        proof {
            assert(seed_all(hashes@, bv, level as int, size as int, claimed@, seeds@) == seed_all(
                hashes@,
                bv,
                level - 1,
                0,
                claimed@,
                seeds@,
            ));
            assert forall|i: int|
                0 <= i < n implies (#[trigger] todo.contains(i) <==> !seeded_before(
                buckets@,
                level - 1,
                0,
                primary_slot(hashes[i], size as nat),
            )) by {
                lemma_primary_slot_bound(hashes[i], size as nat);
            }
        }
        level = level - 1;
    }
    assert(seed_all(hashes@, bv, level as int, 0, claimed@, seeds@) == Some((claimed@, seeds@)));
    let ghost c1 = claimed@;
    let ghost s1 = seeds@;
    proof {
        assert forall|p: int| 0 <= p < size implies {
            let l = buckets[p]@.len();
            &&& l >= 2 ==> #[trigger] seeds[p] == s1[p] && 1 <= s1[p]
            &&& l == 0 ==> seeds[p] == 0
            &&& l == 1 && p < 0 ==> seeds[p] < 0
            &&& l == 1 && p >= 0 ==> seeds[p] == 0
        } by {
            assert(seeded_before(buckets@, level as int, 0, p) <==> buckets[p]@.len() >= 2);
        }
    }
    // The slots still free, in increasing order.
    let mut free: Vec<usize> = Vec::new();
    let ghost mut seen = Set::<int>::empty();
    let mut j: usize = 0;
    while j < size
        invariant
            j <= size,
            claimed.len() == size,
            seen.finite(),
            free.len() + seen.len() == j,
            free@ == free_slots(claimed@, j as nat),
            forall|x: int| #[trigger] seen.contains(x) <==> placed.contains(x) && x < j,
            forall|x: int| #[trigger] placed.contains(x) <==> 0 <= x < size && claimed[x] is Some,
            forall|k: int| 0 <= k < free.len() ==> #[trigger] free[k] < j && claimed[free[k] as int] is None,
            forall|k: int, l: int| 0 <= k < l < free.len() ==> #[trigger] free[k] < #[trigger] free[l],
        decreases size - j,
    {
        if claimed[j].is_none() {
            free.push(j);
        } else {
            proof {
                seen = seen.insert(j as int);
            }
        }
        j += 1;
    }
    proof {
        assert(seen =~= placed);
        assert(seeded_claims(hashes@) == c1);
        assert(seeded_seeds(hashes@) == s1);
    }
    let mut b: usize = 0;
    while b < size
        invariant
            n == hashes.len(),
            1 <= n <= MAX_KEYS,
            n <= size < 2 * MAX_KEYS,
            claimed.len() == size,
            b <= size,
            buckets_wf(hashes@, buckets@, size as nat),
            progress(hashes@, claimed@, seeds@, todo, placed),
            forall|i: int|
                0 <= i < n ==> (#[trigger] todo.contains(i) <==> !placed_before(
                    buckets@,
                    b as int,
                    primary_slot(hashes[i], size as nat),
                )),
            free.len() >= todo.len(),
            forall|k: int| 0 <= k < free.len() ==> #[trigger] free[k] < size && claimed[free[k] as int] is None,
            forall|k: int, l: int| 0 <= k < l < free.len() ==> #[trigger] free[k] < #[trigger] free[l],
            bv == bucket_views(buckets@),
            seeding(hashes@) == Some((c1, s1)),
            c1.len() == size,
            placement(hashes@) == place_singles(bv, b as int, claimed@, seeds@, free@),
            forall|j: int| 0 <= j < size && (#[trigger] c1[j]) is Some ==> claimed[j] == c1[j],
            forall|p: int|
                0 <= p < size ==> {
                    let l = buckets[p]@.len();
                    &&& l >= 2 ==> #[trigger] seeds[p] == s1[p] && 1 <= s1[p]
                    &&& l == 0 ==> seeds[p] == 0
                    &&& l == 1 && p < b ==> seeds[p] < 0
                    &&& l == 1 && p >= b ==> seeds[p] == 0
                },
        decreases size - b,
    {
        let ghost seeds_top = seeds@;
        let ghost claimed_top = claimed@;
        let ghost free_top = free@;
        proof {
            assert(bv[b as int] == buckets[b as int]@);
        }
        if buckets[b].len() == 1 {
            let m = buckets[b][0];
            proof {
                assert(todo.contains(m as int));
                assert(todo.len() > 0);
            }
            let dst = free.pop().unwrap();
            let ghost before = claimed@;
            let ghost seeds_before = seeds@;
            claimed.set(dst, Some(m as u32));
            seeds.set(b, -((dst as i32) + 1));
            proof {
                assert(!placed.contains(dst as int));
                todo = todo.remove(m as int);
                placed = placed.insert(dst as int);
                assert forall|i: int|
                    0 <= i < n && !todo.contains(i) implies #[trigger] resolves(
                    hashes@,
                    claimed@,
                    seeds@,
                    i,
                ) by {
                    if i != m {
                        assert(resolves(hashes@, before, seeds_before, i));
                        assert(primary_slot(hashes[i], size as nat) != b);
                    } else {
                        assert(primary_slot(hashes[i], size as nat) == b);
                    }
                }
                assert forall|j: int| 0 <= j < size && (#[trigger] c1[j]) is Some implies claimed[j]
                    == c1[j] by {
                    if j == dst {
                        assert(before[j] is None);
                    }
                }
            }
        }
        proof {
            assert(place_singles(bv, b as int, claimed_top, seeds_top, free_top) == place_singles(
                bv,
                b + 1,
                claimed@,
                seeds@,
                free@,
            ));
            assert forall|p: int| 0 <= p < size implies {
                let l = buckets[p]@.len();
                &&& l >= 2 ==> #[trigger] seeds[p] == s1[p] && 1 <= s1[p]
                &&& l == 0 ==> seeds[p] == 0
                &&& l == 1 && p < b + 1 ==> seeds[p] < 0
                &&& l == 1 && p >= b + 1 ==> seeds[p] == 0
            } by {
                if p != b {
                    assert(seeds[p] == seeds_top[p]);
                }
            }
        }
        proof {
            assert forall|i: int|
                0 <= i < n implies (#[trigger] todo.contains(i) <==> !placed_before(
                buckets@,
                b + 1,
                primary_slot(hashes[i], size as nat),
            )) by {
                lemma_primary_slot_bound(hashes[i], size as nat);
                if primary_slot(hashes[i], size as nat) == b && buckets[b as int]@.len() == 1 {
                    assert(buckets[b as int]@.contains(i as usize));
                    assert(buckets[b as int]@[0] == i as usize);
                }
            }
        }
        b += 1;
    }
    proof {
        assert forall|i: int| 0 <= i < n implies #[trigger] resolves(
            hashes@,
            claimed@,
            seeds@,
            i,
        ) by {
            let q = primary_slot(hashes[i], size as nat);
            lemma_primary_slot_bound(hashes[i], size as nat);
            assert(buckets[q]@.contains(i as usize));
            assert(!todo.contains(i));
        }
        assert forall|p: int| 0 <= p < size implies is_bucket(
            hashes@,
            #[trigger] bv[p],
            p,
            size as nat,
        ) by {
            assert(bv[p] == buckets[p]@);
        }
        assert(place_singles(bv, size as int, claimed@, seeds@, free@) == (claimed@, seeds@));
        assert forall|p: int| 0 <= p < size implies bv[p].len() == buckets[p]@.len() by {
            assert(bv[p] == buckets[p]@);
        }
    }
    Some((claimed, seeds))
}

} // verus!
