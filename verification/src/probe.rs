//! Probe-sequence arithmetic.
//!
//! For a capacity `cap` (a power of two) the ideal slot of a tag is its
//! value modulo `cap`, computed executably by masking with `cap - 1`.
//! Collisions are resolved by scanning forward with wraparound; the
//! distance of a slot from a home position is the number of forward
//! steps, with wraparound, from the home to the slot.

use crate::hash::{tag_occupied, TAG_EMPTY};
use vstd::arithmetic::power2::*;
use vstd::arithmetic::power::pow;
use vstd::bits::*;
use vstd::prelude::*;

verus! {

/// Largest capacity the tag scheme supports: the signature keeps 31 hash
/// bits, so the table never grows past `2^31` slots.
pub const MAX_CAP: usize = 0x8000_0000;

/// Lanes compared in one step by the block (vectorized) lookup path.
pub const HASH_LANES: usize = 16;

/// The ideal slot of a tag in a table of `cap` slots.
pub open spec fn spec_home(t: u32, cap: int) -> int {
    (t as int) % cap
}

/// The slot reached after `d` forward steps from `home`, wrapping at `cap`.
pub open spec fn probe_idx(home: int, d: int, cap: int) -> int {
    if home + d < cap {
        home + d
    } else {
        home + d - cap
    }
}

/// The number of forward steps, wrapping at `cap`, from `home` to `i`.
pub open spec fn probe_dist(i: int, home: int, cap: int) -> int {
    if i >= home {
        i - home
    } else {
        i + cap - home
    }
}

/// Stepping `probe_dist` steps from `home` lands on the slot itself, and
/// the distance is always in `[0, cap)`.
pub proof fn lemma_probe_roundtrip(i: int, home: int, cap: int)
    requires
        0 <= home < cap,
        0 <= i < cap,
    ensures
        0 <= probe_dist(i, home, cap) < cap,
        probe_idx(home, probe_dist(i, home, cap), cap) == i,
{
}

/// Each step count below `cap` reaches a distinct in-range slot whose
/// distance from `home` is that step count.
pub proof fn lemma_probe_idx_range(home: int, d: int, cap: int)
    requires
        0 <= home < cap,
        0 <= d < cap,
    ensures
        0 <= probe_idx(home, d, cap) < cap,
        probe_dist(probe_idx(home, d, cap), home, cap) == d,
{
}

/// The probe runs of a tag buffer are unbroken: between an occupied
/// slot and its home position, walking forward with wraparound, no slot
/// is empty.  This is what lets an unsuccessful lookup stop at the
/// first empty slot it meets.
pub open spec fn runs_ok(tags: Seq<u32>, cap: int) -> bool {
    forall|i: int, d: int|
        0 <= i < cap && tag_occupied(tags[i]) && 0 <= d < probe_dist(
            i,
            spec_home(tags[i], cap),
            cap,
        ) ==> #[trigger] tags[probe_idx(spec_home(tags[i], cap), d, cap)] != TAG_EMPTY
}

/// Instantiates `runs_ok` at a single slot and step count.
pub proof fn runs_ok_at(tags: Seq<u32>, cap: int, i: int, d: int)
    requires
        runs_ok(tags, cap),
        0 <= i < cap,
        tag_occupied(tags[i]),
        0 <= d < probe_dist(i, spec_home(tags[i], cap), cap),
    ensures
        tags[probe_idx(spec_home(tags[i], cap), d, cap)] != TAG_EMPTY,
{
    assert(tags[probe_idx(spec_home(tags[i], cap), d, cap)] != TAG_EMPTY);
}

/// A power of two `cap` is `pow2(e)` for some exponent `e`, and when it
/// is at most `2^31` that exponent is below 32.
pub proof fn lemma_pow2_exponent(cap: int) -> (e: nat)
    requires
        is_pow2(cap),
        cap <= MAX_CAP,
    ensures
        cap == pow2(e),
        e <= 31,
{
    broadcast use is_pow2_equiv;

    let e = choose|i: nat| pow(2, i) == cap;
    lemma_pow2(e);
    assert(pow2(e) == cap);
    lemma2_to64();
    if e > 31 {
        lemma_pow2_strictly_increases(31, e);
    }
    e
}

/// The capacity ceiling itself is a power of two.
pub proof fn lemma_max_cap_pow2()
    ensures
        is_pow2(MAX_CAP as int),
{
    broadcast use is_pow2_equiv;

    lemma_pow2(31);
    lemma2_to64();
    assert(pow(2, 31nat) == MAX_CAP);
}

/// Doubling a power of two below another power of two stays at or below it.
pub proof fn lemma_pow2_double_le(a: int, b: int)
    requires
        is_pow2(a),
        is_pow2(b),
        a < b,
    ensures
        2 * a <= b,
{
    broadcast use is_pow2_equiv;

    let ea = choose|i: nat| pow(2, i) == a;
    let eb = choose|i: nat| pow(2, i) == b;
    lemma_pow2(ea);
    lemma_pow2(eb);
    assert(pow2(ea) == a && pow2(eb) == b);
    if eb <= ea {
        if eb < ea {
            lemma_pow2_strictly_increases(eb, ea);
        }
        assert(false);
    }
    if ea + 1 < eb {
        lemma_pow2_strictly_increases((ea + 1) as nat, eb);
    }
    lemma_pow2_adds(ea, 1);
    lemma2_to64();
}

/// Twice a power of two is a power of two, and half of one (when even)
/// is as well.
pub proof fn lemma_pow2_double(a: int)
    requires
        is_pow2(a),
    ensures
        is_pow2(2 * a),
{
    broadcast use is_pow2_equiv;

    let ea = choose|i: nat| pow(2, i) == a;
    lemma_pow2(ea);
    lemma_pow2(ea + 1);
    lemma_pow2_adds(ea, 1);
    lemma2_to64();
    assert(pow(2, ea + 1) == 2 * a);
}

/// Half of an even power of two is a power of two.
pub proof fn lemma_pow2_half(a: int)
    requires
        is_pow2(a),
        a >= 2,
    ensures
        is_pow2(a / 2),
        2 * (a / 2) == a,
{
    broadcast use is_pow2_equiv;

    let ea = choose|i: nat| pow(2, i) == a;
    lemma_pow2(ea);
    assert(pow2(ea) == a);
    lemma2_to64();
    if ea == 0 {
        assert(false);
    }
    lemma_pow2((ea - 1) as nat);
    lemma_pow2_adds((ea - 1) as nat, 1);
    assert(pow2((ea - 1) as nat) == a / 2);
    assert(pow(2, (ea - 1) as nat) == a / 2);
}

/// The ideal slot of tag `hash`: its value masked to the table's
/// power-of-two capacity.
pub fn idx_for(hash: u32, cap: usize) -> (idx: usize)
    requires
        is_pow2(cap as int),
        cap <= MAX_CAP,
    ensures
        idx == spec_home(hash, cap as int),
        idx < cap,
{
    proof {
        let e = lemma_pow2_exponent(cap as int);
        lemma_pow2_pos(e);
        lemma_u64_low_bits_mask_is_mod(hash as u64, e);
        assert(low_bits_mask(e) == cap - 1);
    }
    let idx64: u64 = (hash as u64) & ((cap as u64) - 1);
    idx64 as usize
}

/// The smallest power of two at or above `n`, with zero mapped to zero.
pub fn next_pow2(n: usize) -> (r: usize)
    requires
        n <= MAX_CAP,
    ensures
        n == 0 ==> r == 0,
        n > 0 ==> is_pow2(r as int) && n <= r < 2 * n,
        r <= MAX_CAP,
{
    if n == 0 {
        return 0;
    }
    let mut c: usize = 1;
    proof {
        broadcast use is_pow2_equiv;

        lemma_pow2(0);
        lemma_pow2(31);
        lemma2_to64();
        assert(pow(2, 0nat) == 1);
        assert(pow(2, 31nat) == MAX_CAP);
    }
    while c < n
        invariant
            1 <= c,
            is_pow2(c as int),
            c < 2 * n,
            n <= MAX_CAP,
            is_pow2(MAX_CAP as int),
        decreases 2 * n - c,
    {
        proof {
            if (MAX_CAP as int) <= c {
                assert(false);
            } else {
                lemma_pow2_double_le(c as int, MAX_CAP as int);
            }
            lemma_pow2_double(c as int);
        }
        c = c * 2;
    }
    proof {
        if c > MAX_CAP {
            lemma_pow2_double_le(MAX_CAP as int, c as int);
        }
    }
    c
}

/// How many fixed-width lanes of tags cover `cap` slots: the block count
/// used by the vectorized lookup path.
pub fn simds_for_cap(cap: usize) -> (n: usize)
    requires
        cap <= MAX_CAP,
    ensures
        n == (cap + HASH_LANES - 1) / (HASH_LANES as int),
        n * HASH_LANES >= cap,
        cap > 0 ==> n >= 1 && (n - 1) * HASH_LANES < cap,
    no_unwind
{
    (cap + HASH_LANES - 1) / HASH_LANES
}

} // verus!
