use vstd::prelude::*;

verus! {

/// The odd multiplier of the 64-bit xorshift-multiply mix.
pub const MIX_MULTIPLIER: u64 = 2685821657736338717;

/// The 64-bit xorshift-multiply mix: shift right 12, left 25, right 27, each
/// folded in with xor, then a wrapping multiply by `MIX_MULTIPLIER`.
pub open spec fn mix(x: u64) -> u64 {
    let a = x ^ (x >> 12u64);
    let b = a ^ (a << 25u64);
    let c = b ^ (b >> 27u64);
    vstd::wrapping::u64_specs::wrapping_mul(c, MIX_MULTIPLIER)
}

/// The slot that a key of hash `h` lands in under `seed`, in a table of `size` slots.
pub open spec fn seeded_slot(h: u64, seed: u64, size: nat) -> int
    recommends
        size > 0,
{
    (mix(vstd::wrapping::u64_specs::wrapping_add(h, seed)) as nat % size) as int
}

/// Computes `mix(x)`.
pub fn xorshift_mult64(x: u64) -> (r: u64)
    ensures
        r == mix(x),
{
    let mut x = x;
    x = x ^ (x >> 12u64);
    x = x ^ (x << 25u64);
    x = x ^ (x >> 27u64);
    x.wrapping_mul(MIX_MULTIPLIER)
}

/// Computes `seeded_slot(h, seed, size)`.
pub fn seeded_slot_of(h: u64, seed: u64, size: usize) -> (r: usize)
    requires
        size > 0,
    ensures
        r as int == seeded_slot(h, seed, size as nat),
        r < size,
{
    (xorshift_mult64(h.wrapping_add(seed)) % (size as u64)) as usize
}

} // verus!
