use vstd::prelude::*;
use crate::construct::{
    deal, is_bucket, is_next_pow2, lemma_primary_slot_bound, next_pow2, next_power_of_two,
    place_keys, placement, resolves, seeded_claims, seeded_seeds, seeding,
};
use crate::hash::{calculate_hash, str_hash};
use crate::mix::{seeded_slot, seeded_slot_of};

verus! {

/// The largest number of keys a table is built for; slots and offsets then
/// fit in 32 bits.
pub const MAX_KEYS: usize = 1073741824;

/// A built minimal perfect hash table.
///
/// `values[i]` is the key index stored at slot `i`. `seeds[p]`, for a primary
/// slot `p`, is either a seed `s >= 0` (the key lives at the slot its hash
/// mixes to under `s`) or an offset `-(d + 1)` (the key lives at slot `d`).
pub struct Table {
    values: Vec<u32>,
    seeds: Vec<i32>,
}

/// The contents of a `Table`: its two arrays.
pub struct TableView {
    pub values: Seq<u32>,
    pub seeds: Seq<i32>,
}

impl View for Table {
    type V = TableView;

    closed spec fn view(&self) -> TableView {
        TableView { values: self.values@, seeds: self.seeds@ }
    }
}

/// The slot consulted first for a key of hash `h`.
pub open spec fn primary_slot(h: u64, size: nat) -> int
    recommends
        size > 0,
{
    (h as nat % size) as int
}

/// The slot that the seed array sends a key of hash `h` to.
pub open spec fn entry_slot(seeds: Seq<i32>, h: u64) -> int {
    let e = seeds[primary_slot(h, seeds.len())];
    if e < 0 {
        -e - 1
    } else {
        seeded_slot(h, e as u64, seeds.len())
    }
}

/// What a table answers for a key of hash `h`; an empty table answers 0.
pub open spec fn lookup(t: TableView, h: u64) -> nat {
    if t.values.len() == 0 {
        0
    } else {
        t.values[entry_slot(t.seeds, h)] as nat
    }
}

/// Why a table could not be built.
#[derive(Clone, Copy, Debug, PartialEq, Eq, Structural)]
pub enum BuildError {
    /// More than `MAX_KEYS` keys.
    TooManyKeys,
    /// For some bucket of two keys or more, no seed up to `MAX_SEED` placed
    /// all its keys in free slots.
    SeedSearchExhausted,
}

/// The hashes of a list of keys, in order.
pub open spec fn key_hashes(keys: Seq<&str>) -> Seq<u64> {
    Seq::new(keys.len(), |i: int| str_hash(keys[i]@))
}

/// The bucket of primary slot `p` in a table of `size` slots: the indices of
/// the hashes whose primary slot is `p`, in increasing order.
pub open spec fn key_bucket(hashes: Seq<u64>, size: nat, p: int) -> Seq<usize> {
    deal(hashes, size, hashes.len())[p]
}

/// The table built for these hashes: the key index that the placement
/// claims at each slot, 0 at a slot it leaves free, and its seed array.
pub open spec fn table_for(hashes: Seq<u64>) -> TableView {
    let (claimed, seeds) = placement(hashes);
    TableView {
        values: Seq::new(
            claimed.len(),
            |j: int|
                match claimed[j] {
                    Some(v) => v,
                    None => 0u32,
                },
        ),
        seeds,
    }
}

/// `t` is the table for keys of these hashes. It has the next power of two
/// of slots (none for no key) and answers `i` for the `i`-th hash and an
/// index in range for any hash. Every slot holds an index in range. The
/// seed entry of a primary slot is 0 for an empty bucket, the offset
/// `-(d + 1)` of the slot `d` holding the key of a single-key bucket, and
/// for a bucket of two keys or more the seed that `seeding` gives it, whose
/// slots hold what `seeding` claimed for them. All of it is `table_for`.
pub open spec fn built_from(t: TableView, hashes: Seq<u64>) -> bool {
    let n = hashes.len();
    let size = t.values.len();
    &&& t.seeds.len() == size
    &&& n == 0 ==> size == 0
    &&& n >= 1 ==> size == next_pow2(n) && is_next_pow2(n, size)
    &&& forall|i: int| 0 <= i < n ==> #[trigger] lookup(t, hashes[i]) == i
    &&& n >= 1 ==> forall|h: u64| #[trigger] lookup(t, h) < n
    &&& forall|j: int| 0 <= j < size ==> #[trigger] t.values[j] < n
    &&& forall|i: int|
        0 <= i < n ==> 0 <= #[trigger] entry_slot(t.seeds, hashes[i]) < size && t.values[entry_slot(
            t.seeds,
            hashes[i],
        )] == i
    &&& n >= 1 ==> seeding(hashes) is Some
    &&& n >= 1 ==> t == table_for(hashes)
    &&& forall|p: int|
        0 <= p < size ==> is_bucket(hashes, #[trigger] key_bucket(hashes, size, p), p, size)
    &&& forall|p: int|
        0 <= p < size ==> {
            let l = key_bucket(hashes, size, p).len();
            &&& (#[trigger] t.seeds[p] == 0 <==> l == 0)
            &&& (t.seeds[p] < 0 <==> l == 1)
            &&& (t.seeds[p] >= 1 <==> l >= 2)
            &&& l == 1 ==> 0 <= -t.seeds[p] - 1 < size && t.values[-t.seeds[p] - 1]
                == key_bucket(hashes, size, p)[0]
            &&& l >= 2 ==> t.seeds[p] == seeded_seeds(hashes)[p]
        }
    &&& forall|j: int|
        0 <= j < size && (#[trigger] seeded_claims(hashes)[j]) is Some ==> t.values[j]
            == seeded_claims(hashes)[j]->0
}

/// Two of the hashes share a primary slot in a table of `size` slots.
pub open spec fn shares_primary(hashes: Seq<u64>, size: nat) -> bool {
    exists|i: int, k: int|
        0 <= i < k < hashes.len() && primary_slot(hashes[i], size) == primary_slot(hashes[k], size)
}

/// What building from these hashes gives: a table for them, or an error
/// when, and only when, it applies. A seed search runs only on a bucket of
/// two keys or more, so it fails only where two keys share a primary slot.
pub open spec fn build_outcome(r: Result<Table, BuildError>, hashes: Seq<u64>) -> bool {
    &&& (r == Err::<Table, BuildError>(BuildError::TooManyKeys) <==> hashes.len() > MAX_KEYS)
    &&& (r == Err::<Table, BuildError>(BuildError::SeedSearchExhausted) <==> 1 <= hashes.len()
        <= MAX_KEYS && seeding(hashes) is None)
    &&& match r {
        Ok(t) => built_from(t@, hashes),
        Err(BuildError::TooManyKeys) => hashes.len() > MAX_KEYS,
        Err(BuildError::SeedSearchExhausted) => {
            &&& 1 <= hashes.len() <= MAX_KEYS
            &&& exists|size: nat| is_next_pow2(hashes.len(), size) && shares_primary(hashes, size)
        },
    }
}

impl Table {
    #[verifier::type_invariant]
    spec fn well_formed(self) -> bool {
        &&& self.values.len() == self.seeds.len()
        &&& self.values.len() < 2 * MAX_KEYS
        &&& forall|p: int|
            0 <= p < self.seeds.len() && self.seeds[p] < 0 ==> -self.seeds[p] - 1 < self.values.len()
    }

    /// Builds a table over keys given by their hashes: the `i`-th hash is
    /// answered with `i`.
    pub fn from_hashes(hashes: &Vec<u64>) -> (r: Result<Table, BuildError>)
        ensures
            build_outcome(r, hashes@),
    {
        let n = hashes.len();
        if n > MAX_KEYS {
            return Err(BuildError::TooManyKeys);
        }
        if n == 0 {
            return Ok(Table { values: Vec::new(), seeds: Vec::new() });
        }
        let size = next_power_of_two(n);
        let placed = place_keys(hashes, size);
        let (claimed, seeds) = match placed {
            None => {
                assert(is_next_pow2(n as nat, size as nat) && shares_primary(hashes@, size as nat));
                return Err(BuildError::SeedSearchExhausted);
            },
            Some(p) => p,
        };
        let mut values: Vec<u32> = Vec::new();
        let mut j: usize = 0;
        while j < size
            invariant
                j <= size,
                claimed.len() == size,
                values.len() == j,
                forall|k: int|
                    0 <= k < j ==> #[trigger] values[k] == match claimed[k] {
                        Some(v) => v,
                        None => 0u32,
                    },
            decreases size - j,
        {
            let v = match claimed[j] {
                Some(v) => v,
                None => 0u32,
            };
            values.push(v);
            j += 1;
        }
        proof {
            assert(values@ =~= table_for(hashes@).values);
        }
        let t = Table { values, seeds };
        proof {
            assert forall|p: int| 0 <= p < size implies {
                let l = (#[trigger] key_bucket(hashes@, size as nat, p)).len();
                l == 1 ==> 0 <= -t@.seeds[p] - 1 < size && t@.values[-t@.seeds[p] - 1]
                    == key_bucket(hashes@, size as nat, p)[0]
            } by {
                let bk = key_bucket(hashes@, size as nat, p);
                assert(is_bucket(hashes@, bk, p, size as nat));
                if bk.len() == 1 {
                    let m = bk[0] as int;
                    assert(resolves(hashes@, claimed@, seeds@, m));
                }
            }
            assert forall|j: int| 0 <= j < size implies #[trigger] t@.values[j] < n by {
                assert(values[j] == match claimed[j] {
                    Some(v) => v,
                    None => 0u32,
                });
            }
            assert forall|j: int|
                0 <= j < size && (#[trigger] seeded_claims(hashes@)[j]) is Some implies t@.values[j]
                == seeded_claims(hashes@)[j]->0 by {
                assert(values[j] == match claimed[j] {
                    Some(v) => v,
                    None => 0u32,
                });
            }
            assert forall|i: int| 0 <= i < n implies 0 <= #[trigger] entry_slot(
                t@.seeds,
                hashes[i],
            ) < size && t@.values[entry_slot(t@.seeds, hashes[i])] == i by {
                assert(resolves(hashes@, claimed@, seeds@, i));
            }
            assert forall|i: int| 0 <= i < n implies #[trigger] lookup(t@, hashes[i]) == i by {
                assert(resolves(hashes@, claimed@, seeds@, i));
            }
            assert forall|h: u64| #[trigger] lookup(t@, h) < n by {
                lemma_primary_slot_bound(h, size as nat);
                let e = seeds[primary_slot(h, size as nat)];
                if e >= 0 {
                    lemma_primary_slot_bound(
                        crate::mix::mix(vstd::wrapping::u64_specs::wrapping_add(h, e as u64)),
                        size as nat,
                    );
                }
                let x = entry_slot(seeds@, h);
                assert(values[x] == match claimed[x] {
                    Some(v) => v,
                    None => 0u32,
                });
            }
        }
        Ok(t)
    }

    /// Builds a table over a list of distinct keys: the `i`-th key is
    /// answered with `i`.
    pub fn new(keys: &[&str]) -> (r: Result<Table, BuildError>)
        ensures
            build_outcome(r, key_hashes(keys@)),
    {
        let mut hashes: Vec<u64> = Vec::new();
        let mut i: usize = 0;
        while i < keys.len()
            invariant
                i <= keys.len(),
                hashes@ == key_hashes(keys@.subrange(0, i as int)),
            decreases keys.len() - i,
        {
            let h = calculate_hash(keys[i]);
            hashes.push(h);
            i += 1;
            assert(hashes@ =~= key_hashes(keys@.subrange(0, i as int)));
        }
        assert(keys@.subrange(0, keys.len() as int) =~= keys@);
        Table::from_hashes(&hashes)
    }

    /// The key index stored at each slot.
    pub fn values(&self) -> (r: &Vec<u32>)
        ensures
            r@ == self@.values,
    {
        &self.values
    }

    /// The seed or offset entry of each primary slot.
    pub fn seeds(&self) -> (r: &Vec<i32>)
        ensures
            r@ == self@.seeds,
    {
        &self.seeds
    }

    /// The number of slots.
    pub fn size(&self) -> (r: usize)
        ensures
            r == self@.values.len(),
    {
        self.values.len()
    }

    /// The key index stored for a key of hash `h`, in constant time.
    pub fn query_hash(&self, h: u64) -> (r: usize)
        ensures
            r as nat == lookup(self@, h),
    {
        proof {
            use_type_invariant(self);
        }
        let size = self.values.len();
        if size == 0 {
            return 0;
        }
        let e = self.seeds[(h % (size as u64)) as usize];
        if e < 0 {
            self.values[(-(e + 1)) as usize] as usize
        } else {
            self.values[seeded_slot_of(h, e as u64, size)] as usize
        }
    }

    /// The index, in the list the table was built from, of key `k`.
    /// A key outside that list gets some index, with no membership check.
    pub fn query(&self, k: &str) -> (r: usize)
        ensures
            r as nat == lookup(self@, str_hash(k@)),
    {
        self.query_hash(calculate_hash(k))
    }
}

} // verus!
