//! The hashing strategy and the packed tag scheme.
//!
//! A key is hashed to a 64-bit value by the Fx algorithm; the low 32 bits,
//! with the top bit forced on as a presence marker, form the *tag* stored
//! in the table's tag buffer.  A tag therefore is one of: `TAG_EMPTY`
//! (never used), `TAG_DELETED` (a tombstone), or a value with the
//! presence bit set (an occupied slot's hash signature).

use core::hash::Hasher;
use vstd::prelude::*;

verus! {

/// Multiplier used by the Fx hashing algorithm for 64-bit words.
pub const FX_SEED64: u64 = 0x517cc1b727220a95;

/// Tag of a slot that has never held an entry.
pub const TAG_EMPTY: u32 = 0;

/// Tag of a slot whose entry was removed; lookups probe past it.
pub const TAG_DELETED: u32 = 1;

/// Bit that marks a tag as the hash signature of a live entry.
pub const TAG_PRESENT: u32 = 0x8000_0000;

/// The 31 bits of an occupied tag that carry the hash signature.
pub const TAG_HASH_MASK: u32 = 0x7fff_ffff;

/// The externally visible state of one slot, decoded from its packed
/// tag: the packing trick never leaks past this accessor.
#[derive(Clone, Copy, PartialEq, Eq, Structural, Debug)]
pub enum SlotState {
    /// The slot has never held an entry.
    Empty,
    /// The slot's entry was removed; probe sequences continue past it.
    Deleted,
    /// The slot holds a live entry with the given 31-bit hash signature.
    Occupied(u32),
}

/// One folding step of the Fx hash: rotate the state left by five bits,
/// xor in the next word, and multiply (wrapping) by the seed constant.
pub open spec fn fx_fold(h: u64, w: u64) -> u64 {
    mul_wrap64(((h << 5u64) | (h >> 59u64)) ^ w, FX_SEED64)
}

/// Wrapping 64-bit multiplication.
pub open spec fn mul_wrap64(a: u64, b: u64) -> u64 {
    ((a as int * b as int) % 0x1_0000_0000_0000_0000) as u64
}

/// The 64-bit Fx hash of `key` under seed word `seed`: both words folded
/// into an initially zero state.
pub open spec fn fx_hash_spec(seed: u64, key: u64) -> u64 {
    fx_fold(fx_fold(0, seed), key)
}

/// The tag carrying the hash signature of a live entry with hash `h`:
/// the low 32 bits of the hash with the presence bit forced on.
pub open spec fn pack_tag(h: u64) -> u32 {
    (h as u32) | TAG_PRESENT
}

/// The tag a live entry with the given key gets under the given seed.
pub open spec fn key_tag(seed: u64, key: u64) -> u32 {
    pack_tag(fx_hash_spec(seed, key))
}

/// A tag marks an occupied slot exactly when its presence bit is set,
/// which for a `u32` is the same as being at least `TAG_PRESENT`.
pub open spec fn tag_occupied(t: u32) -> bool {
    t >= TAG_PRESENT
}

/// Every tag held by a well-formed table is empty, a tombstone, or an
/// occupied slot's signature.
pub open spec fn tag_valid(t: u32) -> bool {
    t == TAG_EMPTY || t == TAG_DELETED || tag_occupied(t)
}

/// A packed tag always has the presence bit set.
pub proof fn lemma_pack_tag_occupied(h: u64)
    ensures
        tag_occupied(pack_tag(h)),
{
    let low = h as u32;
    assert((low | 0x8000_0000u32) >= 0x8000_0000u32) by (bit_vector);
}

/// The hashing strategy a table is configured with: Fx hashing of the
/// 64-bit key, with a caller-chosen seed word folded in first.
#[derive(Clone, Copy, PartialEq, Eq, Structural, Debug)]
pub struct FxStrategy {
    pub seed: u64,
}

impl FxStrategy {
    /// A strategy with the given seed word.
    pub fn new(seed: u64) -> (s: Self)
        ensures
            s.seed == seed,
    {
        FxStrategy { seed }
    }

    /// The 64-bit hash of `key` under this strategy.
    pub fn hash(&self, key: u64) -> (h: u64)
        ensures
            h == fx_hash_spec(self.seed, key),
    {
        fx_hash_words(self.seed, key)
    }

    /// The packed tag a live entry with `key` gets under this strategy.
    pub fn tag(&self, key: u64) -> (t: u32)
        ensures
            t == key_tag(self.seed, key),
            tag_occupied(t),
    {
        let h = self.hash(key);
        proof {
            lemma_pack_tag_occupied(h);
        }
        (h as u32) | TAG_PRESENT
    }
}

impl Default for FxStrategy {
    /// The default strategy uses a zero seed.
    fn default() -> (s: Self)
        ensures
            s.seed == 0,
    {
        FxStrategy { seed: 0 }
    }
}

/// Relies on fxhash::FxHasher64: `Default::default` starts the state at
/// zero, each `Hasher::write_u64` folds its word in as
/// `hash = (hash.rotate_left(5) ^ word).wrapping_mul(0x517cc1b727220a95)`,
/// and `Hasher::finish` returns the accumulated state.
#[verifier::external_body]
fn fx_hash_words(seed: u64, key: u64) -> (h: u64)
    ensures
        h == fx_hash_spec(seed, key),
{
    let mut hasher = fxhash::FxHasher64::default();
    hasher.write_u64(seed);
    hasher.write_u64(key);
    hasher.finish()
}

} // verus!
