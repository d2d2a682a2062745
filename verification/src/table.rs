//! The hash table engine.
//!
//! Storage is three parallel buffers of one power-of-two length: packed
//! tags, keys, and values.  A slot is empty, a tombstone, or occupied;
//! an occupied slot's tag is its key's hash signature.  Placement walks
//! the probe sequence from the tag's home slot, displacing residents
//! that sit closer to their own home (the Robin Hood rule); removal
//! tombstones the slot; lookups probe from the home slot and may stop
//! at the first empty slot because probe runs are unbroken.

use crate::counting::{
    count_nonempty, count_occupied, lemma_all_empty, lemma_all_nonempty,
    lemma_count_occupied_pos, lemma_counts_bounded, lemma_counts_push, lemma_counts_split,
    lemma_counts_update,
};
use crate::hash::{
    fx_hash_spec, key_tag, lemma_pack_tag_occupied, tag_occupied, tag_valid, FxStrategy, SlotState,
    TAG_DELETED, TAG_EMPTY, TAG_HASH_MASK, TAG_PRESENT,
};
use crate::model::{
    has_live_key, keys_unique, lemma_clear_slot, lemma_live_index, lemma_no_live_keys,
    lemma_prefix_entry_count, lemma_prefix_map_step,
    lemma_set_value, lemma_write_slot, live_index, slot_has_key, slots_map,
};
use crate::probe::{
    idx_for, lemma_max_cap_pow2, lemma_pow2_double, lemma_pow2_double_le, lemma_pow2_half, lemma_probe_idx_range,
    lemma_probe_roundtrip, next_pow2, probe_dist, probe_idx, runs_ok, runs_ok_at, simds_for_cap,
    spec_home, HASH_LANES, MAX_CAP,
};
use vstd::arithmetic::power2::is_pow2;
use vstd::prelude::*;

verus! {

/// Errors the table reports to its caller rather than panicking.
#[derive(Clone, Copy, PartialEq, Eq, Structural, Debug)]
pub enum TableError {
    /// A reservation would push the table past its largest capacity.
    CapacityOverflow,
    /// `shrink_to` was asked for a minimum above the current capacity.
    MinCapacityTooLarge,
}

/// Well-formedness of bare storage buffers: three same-length parallel
/// buffers whose tags are valid, whose occupied slots carry a value and
/// their key's signature under `seed`, whose live keys are unique, and
/// whose probe runs are unbroken.
pub open spec fn buffers_ok<V>(
    tags: Seq<u32>,
    keys: Seq<u64>,
    vals: Seq<Option<V>>,
    cap: int,
    seed: u64,
) -> bool {
    &&& tags.len() == cap
    &&& keys.len() == cap
    &&& vals.len() == cap
    &&& (forall|i: int| 0 <= i < cap ==> tag_valid(#[trigger] tags[i]))
    &&& (forall|i: int| 0 <= i < cap ==> (tag_occupied(#[trigger] tags[i]) <==> vals[i] is Some))
    &&& (forall|i: int|
        0 <= i < cap && tag_occupied(#[trigger] tags[i]) ==> tags[i] == key_tag(seed, keys[i]))
    &&& keys_unique(tags, keys)
    &&& runs_ok(tags, cap)
}

/// An open-addressing hash table from 64-bit keys to values of type `V`.
pub struct HashMap<V> {
    tags: Vec<u32>,
    keys: Vec<u64>,
    vals: Vec<Option<V>>,
    len: usize,
    used: usize,
    cap: usize,
    hasher: FxStrategy,
}

impl<V> View for HashMap<V> {
    type V = Map<u64, V>;

    /// The finite map this table represents.
    closed spec fn view(&self) -> Map<u64, V> {
        slots_map(self.tags@, self.keys@, self.vals@)
    }
}

impl<V> HashMap<V> {
    /// Number of slots in the storage buffers.
    pub closed spec fn spec_cap(self) -> nat {
        self.cap as nat
    }

    /// Number of live entries.
    pub closed spec fn spec_len(self) -> nat {
        self.len as nat
    }

    /// Number of used slots: live entries plus tombstones.
    pub closed spec fn spec_used(self) -> nat {
        self.used as nat
    }

    /// The hashing strategy the table was configured with.
    pub closed spec fn strategy(self) -> FxStrategy {
        self.hasher
    }

    /// The table's internal invariant.
    pub closed spec fn wf(self) -> bool {
        &&& buffers_ok(self.tags@, self.keys@, self.vals@, self.cap as int, self.hasher.seed)
        &&& (self.cap == 0 || is_pow2(self.cap as int))
        &&& self.cap <= MAX_CAP
        &&& self.len == count_occupied(self.tags@)
        &&& self.used == count_nonempty(self.tags@)
    }

    /// An empty table with no storage, capacity zero.
    pub fn new() -> (t: Self)
        ensures
            t.wf(),
            t@ == Map::<u64, V>::empty(),
            t.spec_len() == 0,
            t.spec_used() == 0,
            t.spec_cap() == 0,
            t.strategy().seed == 0,
    {
        Self::with_capacity(0)
    }

    /// An empty table pre-sized to the smallest power of two holding
    /// `capacity` slots (zero stays zero), with the default strategy.
    pub fn with_capacity(capacity: usize) -> (t: Self)
        requires
            capacity <= MAX_CAP,
        ensures
            t.wf(),
            t@ == Map::<u64, V>::empty(),
            t.spec_len() == 0,
            t.spec_used() == 0,
            capacity == 0 ==> t.spec_cap() == 0,
            capacity > 0 ==> is_pow2(t.spec_cap() as int) && capacity <= t.spec_cap() < 2
                * capacity,
            t.strategy().seed == 0,
    {
        Self::with_capacity_and_hasher(capacity, Default::default())
    }

    /// An empty table pre-sized as `with_capacity`, hashing with the
    /// given strategy.
    pub fn with_capacity_and_hasher(capacity: usize, hasher: FxStrategy) -> (t: Self)
        requires
            capacity <= MAX_CAP,
        ensures
            t.wf(),
            t@ == Map::<u64, V>::empty(),
            t.spec_len() == 0,
            t.spec_used() == 0,
            capacity == 0 ==> t.spec_cap() == 0,
            capacity > 0 ==> is_pow2(t.spec_cap() as int) && capacity <= t.spec_cap() < 2
                * capacity,
            t.strategy() == hasher,
    {
        let cap = next_pow2(capacity);
        let (tags, keys, vals) = Self::fresh_buffers(cap);
        let t = HashMap { tags, keys, vals, len: 0, used: 0, cap, hasher };
        proof {
            lemma_no_live_keys::<V>(t.tags@, t.keys@, t.vals@);
            assert(t@ =~= Map::<u64, V>::empty());
        }
        t
    }

    /// Three all-empty parallel buffers of length `cap`.
    fn fresh_buffers(cap: usize) -> (r: (Vec<u32>, Vec<u64>, Vec<Option<V>>))
        ensures
            r.0@.len() == cap,
            r.1@.len() == cap,
            r.2@.len() == cap,
            forall|i: int| 0 <= i < cap ==> r.0@[i] == TAG_EMPTY,
            forall|i: int| 0 <= i < cap ==> r.2@[i] is None,
            count_occupied(r.0@) == 0,
            count_nonempty(r.0@) == 0,
    {
        let mut tags: Vec<u32> = Vec::new();
        let mut keys: Vec<u64> = Vec::new();
        let mut vals: Vec<Option<V>> = Vec::new();
        let mut i: usize = 0;
        while i < cap
            invariant
                i <= cap,
                tags@.len() == i,
                keys@.len() == i,
                vals@.len() == i,
                forall|j: int| 0 <= j < i ==> tags@[j] == TAG_EMPTY,
                forall|j: int| 0 <= j < i ==> vals@[j] is None,
                count_occupied(tags@) == 0,
                count_nonempty(tags@) == 0,
            decreases cap - i,
        {
            proof {
                lemma_counts_push(tags@, TAG_EMPTY);
            }
            tags.push(TAG_EMPTY);
            keys.push(0);
            vals.push(None);
            i = i + 1;
        }
        (tags, keys, vals)
    }

    /// Number of live entries in the table.
    pub fn len(&self) -> (n: usize)
        ensures
            n == self.spec_len(),
    {
        self.len
    }

    /// Number of slots currently allocated.
    pub fn capacity(&self) -> (n: usize)
        ensures
            n == self.spec_cap(),
    {
        self.cap
    }

    /// Whether the table holds no entries.
    pub fn is_empty(&self) -> (b: bool)
        ensures
            b == (self.spec_len() == 0),
    {
        self.len == 0
    }

    /// The hashing strategy the table was configured with.
    pub fn hasher(&self) -> (s: &FxStrategy)
        ensures
            *s == self.strategy(),
    {
        &self.hasher
    }

    /// Places the entry `(tag, key, val)` — with `key` live nowhere in
    /// the buffers — by walking the probe sequence from the tag's home
    /// slot, swapping with any resident that sits closer to its own
    /// home than the incoming entry does (the Robin Hood rule), and
    /// writing into the first empty slot, which the load bound
    /// guarantees exists.
    #[verifier::loop_isolation(false)]
    #[verifier::rlimit(100)]
    fn raw_place(
        tags: &mut Vec<u32>,
        keys: &mut Vec<u64>,
        vals: &mut Vec<Option<V>>,
        cap: usize,
        tag: u32,
        key: u64,
        val: V,
        Ghost(seed): Ghost<u64>,
    )
        requires
            buffers_ok(old(tags)@, old(keys)@, old(vals)@, cap as int, seed),
            is_pow2(cap as int),
            cap <= MAX_CAP,
            count_nonempty(old(tags)@) < cap,
            tag == key_tag(seed, key),
            !has_live_key(old(tags)@, old(keys)@, key),
        ensures
            buffers_ok(final(tags)@, final(keys)@, final(vals)@, cap as int, seed),
            count_occupied(final(tags)@) == count_occupied(old(tags)@) + 1,
            count_nonempty(final(tags)@) == count_nonempty(old(tags)@) + 1,
            slots_map(final(tags)@, final(keys)@, final(vals)@) == slots_map(
                old(tags)@,
                old(keys)@,
                old(vals)@,
            ).insert(key, val),
    {
        let ghost capi = cap as int;
        let ghost target = slots_map(old(tags)@, old(keys)@, old(vals)@).insert(key, val);

        proof {
            lemma_pack_tag_occupied(fx_hash_spec(seed, key));
            assert(slots_map(tags@, keys@, vals@) =~= target.remove(key)) by {
                if slots_map(tags@, keys@, vals@).dom().contains(key) {
                    assert(has_live_key(tags@, keys@, key));
                }
            }
        }

        let mut cur_tag = tag;
        let mut cur_key = key;
        let mut cur_val = val;

        let home0 = idx_for(tag, cap);
        let mut idx = home0;
        let mut step: usize = 0;

        while step < cap
            invariant
                buffers_ok(tags@, keys@, vals@, capi, seed),
                count_occupied(tags@) == count_occupied(old(tags)@),
                count_nonempty(tags@) == count_nonempty(old(tags)@),
                step <= cap,
                idx == probe_idx(home0 as int, step as int, capi),
                idx < cap,
                tag_occupied(cur_tag),
                cur_tag == key_tag(seed, cur_key),
                !has_live_key(tags@, keys@, cur_key),
                target.contains_key(cur_key),
                target[cur_key] == cur_val,
                slots_map(tags@, keys@, vals@) == target.remove(cur_key),
                forall|d: int|
                    0 <= d < step ==> tags@[#[trigger] probe_idx(home0 as int, d, capi)]
                        != TAG_EMPTY,
                forall|d: int|
                    0 <= d < probe_dist(idx as int, spec_home(cur_tag, capi), capi) ==> tags@[
                        #[trigger] probe_idx(spec_home(cur_tag, capi), d, capi)] != TAG_EMPTY,
            decreases cap - step,
        {
            let t = tags[idx];
            if t == TAG_EMPTY {
                let ghost pt = tags@;
                let ghost pk = keys@;
                let ghost pv = vals@;
                tags.set(idx, cur_tag);
                keys.set(idx, cur_key);
                vals.set(idx, Some(cur_val));
                proof {
                    lemma_write_slot(pt, pk, pv, idx as int, cur_tag, cur_key, cur_val);
                    lemma_counts_update(pt, idx as int, cur_tag);
                    assert(slots_map(tags@, keys@, vals@) =~= target);
                    assert(runs_ok(tags@, capi)) by {
                        assert forall|m: int, d: int|
                            0 <= m < capi && tag_occupied(tags@[m]) && 0 <= d < probe_dist(
                                m,
                                spec_home(tags@[m], capi),
                                capi,
                            ) implies tags@[#[trigger] probe_idx(
                            spec_home(tags@[m], capi),
                            d,
                            capi,
                        )] != TAG_EMPTY by {
                            let h = spec_home(tags@[m], capi);
                            lemma_probe_idx_range(h, d, capi);
                            let p = probe_idx(h, d, capi);
                            if m == idx {
                                assert(pt[p] != TAG_EMPTY || p == idx);
                            } else {
                                runs_ok_at(pt, capi, m, d);
                            }
                        }
                    }
                }
                return ;
            }
            // The slot is in use; if its resident is occupied and has
            // probed less far than the incoming entry, evict it and
            // carry it onward (otherwise probe onward unchanged).
            if t != TAG_DELETED {
                let home_r = idx_for(t, cap);
                let r_dist = if idx >= home_r {
                    idx - home_r
                } else {
                    idx + cap - home_r
                };
                let home_c = idx_for(cur_tag, cap);
                let c_dist = if idx >= home_c {
                    idx - home_c
                } else {
                    idx + cap - home_c
                };
                if c_dist > r_dist {
                    let ghost pt = tags@;
                    let ghost pk = keys@;
                    let ghost pv = vals@;
                    let r_tag = t;
                    let r_key = keys[idx];
                    tags.set(idx, cur_tag);
                    keys.set(idx, cur_key);
                    let mut tmp: Option<V> = Some(cur_val);
                    vals.set_and_swap(idx, &mut tmp);
                    proof {
                        assert(tag_occupied(r_tag));
                        assert(slot_has_key(pt, pk, idx as int, r_key));
                        lemma_live_index(pt, pk, idx as int, r_key);
                        assert(cur_key != r_key);
                        assert(slots_map(pt, pk, pv).dom().contains(r_key));
                        assert(slots_map(pt, pk, pv)[r_key] == pv[idx as int]->0);
                        lemma_write_slot(pt, pk, pv, idx as int, cur_tag, cur_key, cur_val);
                        lemma_counts_update(pt, idx as int, cur_tag);
                        assert(target.contains_key(r_key) && target[r_key] == pv[idx as int]->0);
                        assert(slots_map(tags@, keys@, vals@) =~= target.remove(r_key)) by {
                            assert(slots_map(tags@, keys@, vals@) == slots_map(
                                pt,
                                pk,
                                pv,
                            ).remove(r_key).insert(cur_key, cur_val));
                        }
                        assert(!has_live_key(tags@, keys@, r_key)) by {
                            if has_live_key(tags@, keys@, r_key) {
                                let j = choose|j: int|
                                    slot_has_key(tags@, keys@, j, r_key);
                                assert(j != idx);
                                assert(slot_has_key(pt, pk, j, r_key));
                                assert(false);
                            }
                        }
                        // Emptiness pattern is unchanged by an
                        // occupied-for-occupied swap.
                        assert(forall|p: int|
                            0 <= p < capi ==> (tags@[p] == TAG_EMPTY <==> pt[p] == TAG_EMPTY));
                        assert(runs_ok(tags@, capi)) by {
                            assert forall|m: int, d: int|
                                0 <= m < capi && tag_occupied(tags@[m]) && 0 <= d < probe_dist(
                                    m,
                                    spec_home(tags@[m], capi),
                                    capi,
                                ) implies tags@[#[trigger] probe_idx(
                                spec_home(tags@[m], capi),
                                d,
                                capi,
                            )] != TAG_EMPTY by {
                                let h = spec_home(tags@[m], capi);
                                lemma_probe_idx_range(h, d, capi);
                                if m != idx {
                                    runs_ok_at(pt, capi, m, d);
                                }
                            }
                        }
                        // The evicted entry's own run, up to and
                        // including this slot, is unbroken.
                        assert forall|d: int|
                            0 <= d <= probe_dist(idx as int, spec_home(r_tag, capi), capi)
                             implies tags@[#[trigger] probe_idx(
                            spec_home(r_tag, capi),
                            d,
                            capi,
                        )] != TAG_EMPTY by {
                            let h = spec_home(r_tag, capi);
                            lemma_probe_idx_range(h, d, capi);
                            lemma_probe_roundtrip(idx as int, h, capi);
                            if d < probe_dist(idx as int, h, capi) {
                                runs_ok_at(pt, capi, idx as int, d);
                            } else {
                                assert(probe_idx(h, d, capi) == idx);
                            }
                        }
                    }
                    cur_tag = r_tag;
                    cur_key = r_key;
                    cur_val = tmp.unwrap();
                }
            }
            proof {
                lemma_probe_roundtrip(idx as int, spec_home(cur_tag, capi), capi);
            }
            step = step + 1;
            idx = if idx + 1 == cap {
                0
            } else {
                idx + 1
            };
        }
        // A full probe cycle visits every slot, so reaching this point
        // would mean no slot is empty, against the load bound.
        proof {
            assert forall|i: int| 0 <= i < capi implies tags@[i] != TAG_EMPTY by {
                lemma_probe_roundtrip(i, home0 as int, capi);
                assert(tags@[probe_idx(home0 as int, probe_dist(i, home0 as int, capi), capi)]
                    != TAG_EMPTY);
            }
            lemma_all_nonempty(tags@);
            assert(false);
        }
    }

    /// Rebuilds storage at `new_cap` slots, re-inserting every live
    /// entry through the placement engine.  Tombstones are dropped; the
    /// represented map is unchanged.
    #[verifier::loop_isolation(false)]
    #[verifier::rlimit(100)]
    fn resize_to(&mut self, new_cap: usize)
        requires
            old(self).wf(),
            new_cap == 0 ==> old(self).spec_len() == 0,
            new_cap > 0 ==> is_pow2(new_cap as int),
            new_cap <= MAX_CAP,
            old(self).spec_len() <= new_cap,
        ensures
            final(self).wf(),
            final(self)@ == old(self)@,
            final(self).spec_len() == old(self).spec_len(),
            final(self).spec_used() == final(self).spec_len(),
            final(self).spec_cap() == new_cap,
            final(self).strategy() == old(self).strategy(),
    {
        let ghost ncapi = new_cap as int;
        let ghost seed = self.hasher.seed;
        let ghost otags = self.tags@;
        let ghost okeys = self.keys@;
        let ghost ovals = self.vals@;
        let cap = self.cap;
        let (mut ntags, mut nkeys, mut nvals) = Self::fresh_buffers(new_cap);
        proof {
            lemma_no_live_keys::<V>(ntags@, nkeys@, nvals@);
            lemma_no_live_keys::<V>(otags.take(0), okeys.take(0), ovals.take(0));
            assert(slots_map(ntags@, nkeys@, nvals@) =~= slots_map(
                otags.take(0),
                okeys.take(0),
                ovals.take(0),
            ));
            assert(otags.take(0) =~= Seq::<u32>::empty());
        }
        let mut i: usize = 0;
        while i < cap
            invariant
                i <= cap,
                self.tags@ == otags,
                self.keys@ == okeys,
                self.vals@.len() == cap,
                forall|j: int| i <= j < cap ==> self.vals@[j] == ovals[j],
                self.cap == cap,
                self.len == old(self).len,
                self.used == old(self).used,
                self.hasher == old(self).hasher,
                self.hasher.seed == seed,
                buffers_ok(ntags@, nkeys@, nvals@, ncapi, seed),
                count_occupied(ntags@) == count_occupied(otags.take(i as int)),
                count_nonempty(ntags@) == count_occupied(ntags@),
                slots_map(ntags@, nkeys@, nvals@) == slots_map(
                    otags.take(i as int),
                    okeys.take(i as int),
                    ovals.take(i as int),
                ),
            decreases cap - i,
        {
            let t = self.tags[i];
            proof {
                lemma_counts_push(otags.take(i as int), otags[i as int]);
                assert(otags.take(i as int).push(otags[i as int]) =~= otags.take(i as int + 1));
                lemma_prefix_map_step(otags, okeys, ovals, i as int);
            }
            if t != TAG_EMPTY && t != TAG_DELETED {
                let k = self.keys[i];
                let mut tmp: Option<V> = None;
                self.vals.set_and_swap(i, &mut tmp);
                proof {
                    assert(tag_occupied(t));
                    assert(ovals[i as int] is Some);
                    assert(!has_live_key(ntags@, nkeys@, k)) by {
                        if has_live_key(ntags@, nkeys@, k) {
                            assert(slots_map(ntags@, nkeys@, nvals@).dom().contains(k));
                            let j = choose|j: int|
                                slot_has_key(
                                    otags.take(i as int),
                                    okeys.take(i as int),
                                    j,
                                    k,
                                );
                            assert(slot_has_key(otags, okeys, j, k));
                            assert(slot_has_key(otags, okeys, i as int, k));
                            assert(okeys[j] == okeys[i as int]);
                            assert(false);
                        }
                    }
                    assert(count_nonempty(ntags@) < new_cap) by {
                        lemma_counts_split(otags, i as int);
                        lemma_count_occupied_pos(otags.skip(i as int), 0);
                    }
                }
                let v = tmp.unwrap();
                Self::raw_place(
                    &mut ntags,
                    &mut nkeys,
                    &mut nvals,
                    new_cap,
                    t,
                    k,
                    v,
                    Ghost(seed),
                );
            }
            i = i + 1;
        }
        proof {
            assert(otags.take(cap as int) =~= otags);
            assert(okeys.take(cap as int) =~= okeys);
            assert(ovals.take(cap as int) =~= ovals);
        }
        self.tags = ntags;
        self.keys = nkeys;
        self.vals = nvals;
        self.cap = new_cap;
        self.used = self.len;
    }

    /// Makes sure a free slot exists before a placement: allocates one
    /// slot from nothing, doubles when the table is full of live
    /// entries, and rebuilds at the same capacity when it is full only
    /// because of tombstones.
    fn try_grow(&mut self)
        requires
            old(self).wf(),
            old(self).spec_len() < MAX_CAP,
        ensures
            final(self).wf(),
            final(self)@ == old(self)@,
            final(self).spec_len() == old(self).spec_len(),
            final(self).strategy() == old(self).strategy(),
            final(self).spec_used() < final(self).spec_cap(),
            old(self).spec_used() < old(self).spec_cap() ==> *final(self) == *old(self),
            old(self).spec_cap() == 0 ==> final(self).spec_cap() == 1,
            old(self).spec_used() == old(self).spec_cap() && old(self).spec_len() == old(self).spec_cap() && old(self).spec_cap() > 0 ==> final(self).spec_cap() == 2 * old(self).spec_cap(),
            old(self).spec_used() == old(self).spec_cap() && old(self).spec_len() < old(self).spec_cap() && old(self).spec_cap() > 0 ==> final(self).spec_cap() == old(self).spec_cap(),
    {
        if self.used < self.cap {
            return ;
        }
        proof {
            lemma_counts_bounded(self.tags@);
        }
        if self.cap == 0 {
            proof {
                broadcast use vstd::arithmetic::power2::is_pow2_equiv;

                vstd::arithmetic::power2::lemma_pow2(0);
                vstd::arithmetic::power2::lemma2_to64();
                assert(vstd::arithmetic::power::pow(2, 0nat) == 1);
            }
            self.resize_to(1);
            return ;
        }
        if self.len == self.cap {
            proof {
                lemma_max_cap_pow2();
                if self.cap < MAX_CAP {
                    lemma_pow2_double_le(self.cap as int, MAX_CAP as int);
                }
                lemma_pow2_double(self.cap as int);
            }
            self.resize_to(2 * self.cap);
        } else {
            self.resize_to(self.cap);
        }
    }

    /// Inserts `key` with `val`.  Returns the previous value when the
    /// key was already present (leaving the entry count unchanged), and
    /// `None` on a fresh insertion (raising it by one).  May grow the
    /// storage first.
    pub fn insert(&mut self, key: u64, val: V) -> (r: Option<V>)
        requires
            old(self).wf(),
            old(self).spec_len() < MAX_CAP,
        ensures
            final(self).wf(),
            final(self)@ == old(self)@.insert(key, val),
            final(self).strategy() == old(self).strategy(),
            match r {
                Some(v) => old(self)@.contains_key(key) && v == old(self)@[key] && final(self).spec_len() == old(self).spec_len(),
                None => !old(self)@.contains_key(key) && final(self).spec_len() == old(self).spec_len() + 1,
            },
            old(self).spec_used() < old(self).spec_cap() ==> final(self).spec_cap() == old(self).spec_cap(),
            old(self).spec_cap() == 0 ==> final(self).spec_cap() == 1,
            old(self).spec_used() == old(self).spec_cap() && old(self).spec_len() == old(self).spec_cap() && old(self).spec_cap() > 0 ==> final(self).spec_cap() == 2 * old(self).spec_cap(),
    {
        self.try_grow();
        let ghost capi = self.cap as int;
        match self.get_idx(&key) {
            Some(i) => {
                let ghost pv = self.vals@;
                let mut tmp = Some(val);
                self.vals.set_and_swap(i, &mut tmp);
                proof {
                    lemma_set_value(self.tags@, self.keys@, pv, i as int, val);
                    assert(self.keys@[i as int] == key);
                    assert(tmp == pv[i as int]);
                }
                Some(tmp.unwrap())
            },
            None => {
                let tag = self.hasher.tag(key);
                proof {
                    assert(!has_live_key(self.tags@, self.keys@, key)) by {
                        if has_live_key(self.tags@, self.keys@, key) {
                            assert(self@.dom().contains(key));
                        }
                    }
                    lemma_counts_bounded(self.tags@);
                }
                Self::raw_place(
                    &mut self.tags,
                    &mut self.keys,
                    &mut self.vals,
                    self.cap,
                    tag,
                    key,
                    val,
                    Ghost(self.hasher.seed),
                );
                self.len = self.len + 1;
                self.used = self.used + 1;
                None
            },
        }
    }

    /// Halves the capacity once the live entries fill at most a quarter
    /// of it, rebuilding the storage; otherwise leaves the table alone.
    fn try_shrink(&mut self)
        requires
            old(self).wf(),
        ensures
            final(self).wf(),
            final(self)@ == old(self)@,
            final(self).spec_len() == old(self).spec_len(),
            final(self).strategy() == old(self).strategy(),
            old(self).spec_len() > old(self).spec_cap() / 4 ==> *final(self) == *old(self),
            old(self).spec_cap() == 0 ==> *final(self) == *old(self),
            old(self).spec_cap() > 0 && old(self).spec_len() <= old(self).spec_cap() / 4
                ==> final(self).spec_cap() == old(self).spec_cap() / 2,
            final(self).spec_cap() <= old(self).spec_cap(),
    {
        if self.cap == 0 {
            return ;
        }
        if self.len > self.cap / 4 {
            return ;
        }
        proof {
            if self.cap >= 2 {
                lemma_pow2_half(self.cap as int);
            }
        }
        self.resize_to(self.cap / 2);
    }

    /// Removes `key`'s entry, tombstoning its slot, and returns the
    /// stored value; absent keys leave the table unchanged.  May shrink
    /// the storage afterwards.
    pub fn remove(&mut self, key: &u64) -> (r: Option<V>)
        requires
            old(self).wf(),
        ensures
            final(self).wf(),
            final(self)@ == old(self)@.remove(*key),
            final(self).strategy() == old(self).strategy(),
            match r {
                Some(v) => old(self)@.contains_key(*key) && v == old(self)@[*key] && final(self).spec_len() + 1 == old(self).spec_len(),
                None => !old(self)@.contains_key(*key) && *final(self) == *old(self),
            },
            r is Some && old(self).spec_len() - 1 > old(self).spec_cap() / 4 ==> final(self).spec_cap() == old(self).spec_cap(),
            r is Some && old(self).spec_cap() > 0 && old(self).spec_len() - 1 <= old(self).spec_cap() / 4 ==> final(self).spec_cap() == old(self).spec_cap() / 2,
    {
        let ghost capi = self.cap as int;
        match self.get_idx(key) {
            Some(i) => {
                let ghost pt = self.tags@;
                let ghost pv = self.vals@;
                self.tags.set(i, TAG_DELETED);
                let mut tmp: Option<V> = None;
                self.vals.set_and_swap(i, &mut tmp);
                proof {
                    lemma_clear_slot(pt, self.keys@, pv, i as int);
                    lemma_counts_update(pt, i as int, TAG_DELETED);
                    lemma_count_occupied_pos(pt, i as int);
                    assert(!tag_occupied(TAG_DELETED));
                    assert(forall|p: int|
                        0 <= p < capi ==> (self.tags@[p] == TAG_EMPTY <==> pt[p] == TAG_EMPTY));
                    assert(runs_ok(self.tags@, capi)) by {
                        assert forall|m: int, d: int|
                            0 <= m < capi && tag_occupied(self.tags@[m]) && 0 <= d < probe_dist(
                                m,
                                spec_home(self.tags@[m], capi),
                                capi,
                            ) implies self.tags@[#[trigger] probe_idx(
                            spec_home(self.tags@[m], capi),
                            d,
                            capi,
                        )] != TAG_EMPTY by {
                            let h = spec_home(self.tags@[m], capi);
                            lemma_probe_idx_range(h, d, capi);
                            assert(m != i);
                            runs_ok_at(pt, capi, m, d);
                        }
                    }
                }
                self.len = self.len - 1;
                self.try_shrink();
                Some(tmp.unwrap())
            },
            None => {
                proof {
                    assert(old(self)@ =~= old(self)@.remove(*key));
                }
                None
            },
        }
    }

    /// Removes `key`'s entry and returns the stored key and value.
    pub fn remove_entry(&mut self, key: &u64) -> (r: Option<(u64, V)>)
        requires
            old(self).wf(),
        ensures
            final(self).wf(),
            final(self)@ == old(self)@.remove(*key),
            final(self).strategy() == old(self).strategy(),
            match r {
                Some(kv) => kv.0 == *key && old(self)@.contains_key(*key) && kv.1 == old(self)@[*key] && final(self).spec_len() + 1 == old(self).spec_len(),
                None => !old(self)@.contains_key(*key) && final(self).spec_len() == old(self).spec_len(),
            },
    {
        match self.remove(key) {
            Some(v) => Some((*key, v)),
            None => None,
        }
    }

    /// Empties every slot, dropping all entries but keeping the
    /// allocated capacity.
    #[verifier::loop_isolation(false)]
    pub fn clear(&mut self)
        requires
            old(self).wf(),
        ensures
            final(self).wf(),
            final(self)@ == Map::<u64, V>::empty(),
            final(self).spec_len() == 0,
            final(self).spec_used() == 0,
            final(self).spec_cap() == old(self).spec_cap(),
            final(self).strategy() == old(self).strategy(),
    {
        let cap = self.cap;
        let mut i: usize = 0;
        while i < cap
            invariant
                i <= cap,
                self.cap == cap,
                self.hasher == old(self).hasher,
                self.tags@.len() == cap,
                self.keys@.len() == cap,
                self.vals@.len() == cap,
                forall|j: int| 0 <= j < i ==> self.tags@[j] == TAG_EMPTY,
                forall|j: int| 0 <= j < i ==> self.vals@[j] is None,
            decreases cap - i,
        {
            self.tags.set(i, TAG_EMPTY);
            self.vals.set(i, None);
            i = i + 1;
        }
        self.len = 0;
        self.used = 0;
        proof {
            lemma_all_empty(self.tags@);
            lemma_no_live_keys::<V>(self.tags@, self.keys@, self.vals@);
            assert(self@ =~= Map::<u64, V>::empty());
            assert(forall|p: int| 0 <= p < cap ==> !tag_occupied(#[trigger] self.tags@[p]));
        }
    }

    /// Grows the storage so that at least `additional` more entries fit
    /// without any further rebuild.
    pub fn reserve(&mut self, additional: usize)
        requires
            old(self).wf(),
            old(self).spec_len() + additional <= MAX_CAP,
        ensures
            final(self).wf(),
            final(self)@ == old(self)@,
            final(self).spec_len() == old(self).spec_len(),
            final(self).strategy() == old(self).strategy(),
            final(self).spec_cap() - final(self).spec_used() >= additional,
    {
        proof {
            lemma_counts_bounded(self.tags@);
        }
        if additional > self.cap - self.used {
            let target = self.len + additional;
            let new_cap = next_pow2(target);
            self.resize_to(new_cap);
        }
    }

    /// Like `reserve`, but instead of demanding room up front it
    /// reports a reservation that would overrun the largest capacity as
    /// an error, leaving the table untouched.
    pub fn try_reserve(&mut self, additional: usize) -> (r: Result<(), TableError>)
        requires
            old(self).wf(),
        ensures
            final(self).wf(),
            final(self)@ == old(self)@,
            final(self).spec_len() == old(self).spec_len(),
            final(self).strategy() == old(self).strategy(),
            match r {
                Ok(_) => old(self).spec_len() + additional <= MAX_CAP && final(self).spec_cap()
                    - final(self).spec_used() >= additional,
                Err(e) => e == TableError::CapacityOverflow && old(self).spec_len() + additional
                    > MAX_CAP && *final(self) == *old(self),
            },
    {
        proof {
            lemma_counts_bounded(self.tags@);
        }
        if additional > MAX_CAP - self.len {
            return Err(TableError::CapacityOverflow);
        }
        self.reserve(additional);
        Ok(())
    }

    /// Rebuilds the storage at the smallest capacity that holds the
    /// live entries (zero for an empty table).
    pub fn shrink_to_fit(&mut self)
        requires
            old(self).wf(),
        ensures
            final(self).wf(),
            final(self)@ == old(self)@,
            final(self).spec_len() == old(self).spec_len(),
            final(self).strategy() == old(self).strategy(),
            old(self).spec_len() == 0 ==> final(self).spec_cap() == 0,
            old(self).spec_len() > 0 ==> is_pow2(final(self).spec_cap() as int) && old(self).spec_len() <= final(self).spec_cap() < 2 * old(self).spec_len(),
    {
        proof {
            lemma_counts_bounded(self.tags@);
        }
        let target = next_pow2(self.len);
        self.resize_to(target);
    }

    /// Shrinks the storage as far as possible while keeping room for
    /// `min_capacity` slots.  Asking for a minimum above the current
    /// capacity is a caller error, reported rather than honoured.
    pub fn shrink_to(&mut self, min_capacity: usize) -> (r: Result<(), TableError>)
        requires
            old(self).wf(),
        ensures
            final(self).wf(),
            final(self)@ == old(self)@,
            final(self).spec_len() == old(self).spec_len(),
            final(self).strategy() == old(self).strategy(),
            match r {
                Ok(_) => {
                    let floor = if old(self).spec_len() > min_capacity {
                        old(self).spec_len()
                    } else {
                        min_capacity as nat
                    };
                    min_capacity <= old(self).spec_cap() && (floor == 0 ==> final(self).spec_cap() == 0) && (floor > 0 ==> is_pow2(final(self).spec_cap() as int)
                        && floor <= final(self).spec_cap() < 2 * floor)
                },
                Err(e) => e == TableError::MinCapacityTooLarge && min_capacity > old(self).spec_cap() && *final(self) == *old(self),
            },
    {
        if self.cap < min_capacity {
            return Err(TableError::MinCapacityTooLarge);
        }
        proof {
            lemma_counts_bounded(self.tags@);
        }
        let a = next_pow2(self.len);
        let b = next_pow2(min_capacity);
        let target = if a > b {
            a
        } else {
            b
        };
        self.resize_to(target);
        Ok(())
    }

    /// The slot holding `key`'s live entry, probing from the tag's home
    /// slot; `None` when the key is absent, which the unbroken-run
    /// invariant lets the scan conclude at the first empty slot.
    #[verifier::loop_isolation(false)]
    fn get_idx(&self, key: &u64) -> (r: Option<usize>)
        requires
            self.wf(),
        ensures
            match r {
                Some(i) => slot_has_key(self.tags@, self.keys@, i as int, *key) && i
                    < self.spec_cap() && self@.contains_key(*key) && live_index(
                    self.tags@,
                    self.keys@,
                    *key,
                ) == i,
                None => !self@.contains_key(*key),
            },
    {
        if self.cap == 0 {
            proof {
                if self@.contains_key(*key) {
                    let s = choose|s: int| slot_has_key(self.tags@, self.keys@, s, *key);
                    assert(false);
                }
            }
            return None;
        }
        let tag = self.hasher.tag(*key);
        let home = idx_for(tag, self.cap);
        let ghost capi = self.cap as int;
        let mut idx = home;
        let mut step: usize = 0;
        while step < self.cap
            invariant
                step <= self.cap,
                idx == probe_idx(home as int, step as int, capi),
                idx < self.cap,
                forall|d: int|
                    0 <= d < step ==> !slot_has_key(
                        self.tags@,
                        self.keys@,
                        #[trigger] probe_idx(home as int, d, capi),
                        *key,
                    ),
            decreases self.cap - step,
        {
            let t = self.tags[idx];
            if t == tag {
                if self.keys[idx] == *key {
                    proof {
                        lemma_live_index(self.tags@, self.keys@, idx as int, *key);
                    }
                    return Some(idx);
                }
            } else if t == TAG_EMPTY {
                proof {
                    if self@.contains_key(*key) {
                        let s = choose|s: int| slot_has_key(self.tags@, self.keys@, s, *key);
                        assert(self.tags@[s] == tag);
                        lemma_probe_roundtrip(s, home as int, capi);
                        let dd = probe_dist(s, home as int, capi);
                        if dd < step {
                            assert(!slot_has_key(
                                self.tags@,
                                self.keys@,
                                probe_idx(home as int, dd, capi),
                                *key,
                            ));
                        } else if dd == step {
                            assert(s == idx);
                        } else {
                            runs_ok_at(self.tags@, capi, s, step as int);
                        }
                    }
                }
                return None;
            }
            step = step + 1;
            idx = if idx + 1 == self.cap {
                0
            } else {
                idx + 1
            };
        }
        proof {
            if self@.contains_key(*key) {
                let s = choose|s: int| slot_has_key(self.tags@, self.keys@, s, *key);
                assert(self.tags@[s] == tag);
                lemma_probe_roundtrip(s, home as int, capi);
                let dd = probe_dist(s, home as int, capi);
                assert(!slot_has_key(
                    self.tags@,
                    self.keys@,
                    probe_idx(home as int, dd, capi),
                    *key,
                ));
            }
        }
        None
    }

    /// The value stored for `key`, if present.
    pub fn get(&self, key: &u64) -> (r: Option<&V>)
        requires
            self.wf(),
        ensures
            match r {
                Some(v) => self@.contains_key(*key) && *v == self@[*key],
                None => !self@.contains_key(*key),
            },
    {
        match self.get_idx(key) {
            Some(i) => Some(self.vals[i].as_ref().unwrap()),
            None => None,
        }
    }

    /// The stored key and value for `key`, if present.
    pub fn get_key_value(&self, key: &u64) -> (r: Option<(&u64, &V)>)
        requires
            self.wf(),
        ensures
            match r {
                Some(kv) => self@.contains_key(*key) && *kv.0 == *key && *kv.1 == self@[*key],
                None => !self@.contains_key(*key),
            },
    {
        match self.get_idx(key) {
            Some(i) => Some((&self.keys[i], self.vals[i].as_ref().unwrap())),
            None => None,
        }
    }

    /// A mutable reference to the value stored for `key`; writes
    /// through it update the entry in place, and nothing else changes.
    pub fn get_mut(&mut self, key: &u64) -> (r: Option<&mut V>)
        requires
            old(self).wf(),
        ensures
            match r {
                Some(v) => old(self)@.contains_key(*key) && *v == old(self)@[*key] && final(self).wf() && final(self)@ == old(self)@.insert(*key, *final(v)) && final(self).spec_len() == old(self).spec_len() && final(self).spec_cap() == old(self).spec_cap() && final(self).strategy() == old(self).strategy(),
                None => !old(self)@.contains_key(*key) && *final(self) == *old(self),
            },
    {
        let ghost pt = self.tags@;
        let ghost pk = self.keys@;
        let ghost pv = self.vals@;
        match self.get_idx(key) {
            Some(i) => {
                let slot = &mut self.vals[i];
                let r = slot.as_mut();
                proof {
                    lemma_set_value(pt, pk, pv, i as int, *final(r.unwrap()));
                }
                r
            },
            None => None,
        }
    }

    /// Whether the table holds an entry for `key`.
    pub fn contains_key(&self, key: &u64) -> (b: bool)
        requires
            self.wf(),
        ensures
            b == self@.contains_key(*key),
    {
        self.get_idx(key).is_some()
    }

    /// Whether any lane of the block of tags starting at `base` equals
    /// `target`: the block-compare capability the vectorized lookup
    /// leans on, one whole block against one broadcast target per step.
    #[verifier::loop_isolation(false)]
    fn block_matches(tags: &Vec<u32>, base: usize, cap: usize, target: u32) -> (m: bool)
        requires
            tags@.len() == cap,
            base < cap,
            base + HASH_LANES <= usize::MAX,
        ensures
            m == exists|l: int| base <= l < base + HASH_LANES && l < cap && tags@[l] == target,
    {
        let mut l: usize = 0;
        while l < HASH_LANES && base + l < cap
            invariant
                l <= HASH_LANES,
                forall|j: int| base <= j < base + l && j < cap ==> tags@[j] != target,
            decreases HASH_LANES - l,
        {
            if tags[base + l] == target {
                return true;
            }
            l = l + 1;
        }
        false
    }

    /// The value stored for `key`, found by the vectorized lookup path:
    /// the tag buffer is scanned one fixed-width block at a time, each
    /// block compared wholesale against the target tag, and keys are
    /// compared only at matching lanes.  Returns exactly what `get`
    /// returns on every input.
    #[verifier::loop_isolation(false)]
    pub fn get_vectorized(&self, key: &u64) -> (r: Option<&V>)
        requires
            self.wf(),
        ensures
            match r {
                Some(v) => self@.contains_key(*key) && *v == self@[*key],
                None => !self@.contains_key(*key),
            },
    {
        let ghost capi = self.cap as int;
        if self.cap == 0 {
            proof {
                if self@.contains_key(*key) {
                    let s = choose|s: int| slot_has_key(self.tags@, self.keys@, s, *key);
                    assert(false);
                }
            }
            return None;
        }
        let tag = self.hasher.tag(*key);
        let nblocks = simds_for_cap(self.cap);
        let mut b: usize = 0;
        while b < nblocks
            invariant
                b <= nblocks,
                forall|i: int|
                    0 <= i < b * HASH_LANES && i < capi ==> !slot_has_key(
                        self.tags@,
                        self.keys@,
                        i,
                        *key,
                    ),
            decreases nblocks - b,
        {
            let base = b * HASH_LANES;
            proof {
                assert(base < self.cap);
            }
            if Self::block_matches(&self.tags, base, self.cap, tag) {
                let mut l: usize = 0;
                while l < HASH_LANES && base + l < self.cap
                    invariant
                        l <= HASH_LANES,
                        base == b * HASH_LANES,
                        b < nblocks,
                        forall|i: int|
                            0 <= i < base + l && i < capi ==> !slot_has_key(
                                self.tags@,
                                self.keys@,
                                i,
                                *key,
                            ),
                    decreases HASH_LANES - l,
                {
                    let idx = base + l;
                    if self.tags[idx] == tag {
                        if self.keys[idx] == *key {
                            proof {
                                lemma_live_index(self.tags@, self.keys@, idx as int, *key);
                            }
                            return Some(self.vals[idx].as_ref().unwrap());
                        }
                    }
                    l = l + 1;
                }
            } else {
                proof {
                    assert forall|i: int| base <= i < base + HASH_LANES && i < capi
                         implies !slot_has_key(self.tags@, self.keys@, i, *key) by {
                        if slot_has_key(self.tags@, self.keys@, i, *key) {
                            assert(self.tags@[i] == tag);
                        }
                    }
                }
            }
            b = b + 1;
        }
        proof {
            if self@.contains_key(*key) {
                let s = choose|s: int| slot_has_key(self.tags@, self.keys@, s, *key);
                assert(s < capi <= nblocks * HASH_LANES);
                assert(false);
            }
        }
        None
    }

    /// The state of slot `i`, decoded from its packed tag.
    pub fn slot_state(&self, i: usize) -> (s: SlotState)
        requires
            self.wf(),
            i < self.spec_cap(),
        ensures
            s == self.spec_slot_state(i as int),
    {
        let t = self.tags[i];
        if t == TAG_EMPTY {
            SlotState::Empty
        } else if t == TAG_DELETED {
            SlotState::Deleted
        } else {
            SlotState::Occupied(t & TAG_HASH_MASK)
        }
    }

    /// What `slot_state` reports for slot `i`.
    pub closed spec fn spec_slot_state(self, i: int) -> SlotState {
        let t = self.tags@[i];
        if t == TAG_EMPTY {
            SlotState::Empty
        } else if t == TAG_DELETED {
            SlotState::Deleted
        } else {
            SlotState::Occupied(t & TAG_HASH_MASK)
        }
    }

    /// The first slot at or after `i` holding a live entry, or the
    /// capacity when none remains: the order iteration yields entries.
    pub closed spec fn spec_next_live(self, i: int) -> int {
        next_live(self.tags@, i)
    }

    /// The key stored in slot `j`.
    pub closed spec fn spec_key_at(self, j: int) -> u64 {
        self.keys@[j]
    }

    /// A cursor over the live entries, in slot order.
    pub fn iter(&self) -> (it: Iter<'_, V>)
        ensures
            it.table == self,
            it.idx == 0,
    {
        Iter { table: self, idx: 0 }
    }

    /// A cursor over the live keys, in slot order.
    pub fn keys(&self) -> (it: Keys<'_, V>)
        ensures
            it.table == self,
            it.idx == 0,
    {
        Keys { table: self, idx: 0 }
    }

    /// A cursor over the live values, in slot order.
    pub fn values(&self) -> (it: Values<'_, V>)
        ensures
            it.table == self,
            it.idx == 0,
    {
        Values { table: self, idx: 0 }
    }

    /// Capacity is zero or a power of two, and the live entries always
    /// fit: the capacity-shape half of the table's well-formedness.
    pub proof fn lemma_capacity_invariant(self)
        requires
            self.wf(),
        ensures
            self.spec_cap() == 0 || is_pow2(self.spec_cap() as int),
            self.spec_len() <= self.spec_used() <= self.spec_cap(),
            self.spec_cap() <= MAX_CAP,
    {
        lemma_counts_bounded(self.tags@);
    }

    /// The entry count a table reports is exactly the number of keys
    /// in the map it represents.
    pub proof fn lemma_len_counts_entries(self)
        requires
            self.wf(),
        ensures
            self@.dom().finite(),
            self@.dom().len() == self.spec_len(),
    {
        lemma_prefix_entry_count::<V>(self.tags@, self.keys@, self.vals@, self.cap as int);
        assert(self.tags@.take(self.cap as int) =~= self.tags@);
        assert(self.keys@.take(self.cap as int) =~= self.keys@);
        assert(self.vals@.take(self.cap as int) =~= self.vals@);
    }

    /// Round trip: inserting binds the key to the value and touches no
    /// other key.  Through `insert`'s and `get`'s contracts, a lookup
    /// of any key returns the value most recently inserted for it, no
    /// matter what was inserted for other keys in between.
    pub proof fn lemma_insert_round_trip(m: Map<u64, V>, k: u64, v: V, q: u64)
        ensures
            m.insert(k, v).contains_key(k),
            m.insert(k, v)[k] == v,
            q != k ==> (m.insert(k, v).contains_key(q) <==> m.contains_key(q)),
            q != k && m.contains_key(q) ==> m.insert(k, v)[q] == m[q],
    {
    }

    /// Update semantics for the entry count: inserting an
    /// already-present key leaves the count unchanged, a fresh key
    /// raises it by exactly one.  With `lemma_len_counts_entries`, this
    /// is the arithmetic behind `insert`'s contract on `len`.
    pub proof fn lemma_update_semantics(m: Map<u64, V>, k: u64, v: V)
        requires
            m.dom().finite(),
        ensures
            m.insert(k, v).dom().finite(),
            m.contains_key(k) ==> m.insert(k, v).dom().len() == m.dom().len(),
            !m.contains_key(k) ==> m.insert(k, v).dom().len() == m.dom().len() + 1,
    {
        assert(m.insert(k, v).dom() =~= m.dom().insert(k));
        vstd::set::axiom_set_insert_finite(m.dom(), k);
        vstd::set::axiom_set_insert_len(m.dom(), k);
        if m.contains_key(k) {
            assert(m.dom().insert(k) =~= m.dom());
        }
    }

    /// Removal semantics: removing a key strikes exactly that key, and
    /// removing an absent key changes nothing.  With
    /// `lemma_len_counts_entries`, this is the arithmetic behind
    /// `remove`'s contract on `len`.
    pub proof fn lemma_remove_semantics(m: Map<u64, V>, k: u64, q: u64)
        requires
            m.dom().finite(),
        ensures
            !m.remove(k).contains_key(k),
            q != k ==> (m.remove(k).contains_key(q) <==> m.contains_key(q)),
            q != k && m.contains_key(q) ==> m.remove(k)[q] == m[q],
            m.contains_key(k) ==> m.remove(k).dom().len() + 1 == m.dom().len(),
            !m.contains_key(k) ==> m.remove(k) == m,
    {
        assert(m.remove(k).dom() =~= m.dom().remove(k));
        vstd::set::axiom_set_remove_len(m.dom(), k);
        if !m.contains_key(k) {
            assert(m.remove(k) =~= m);
        }
    }

    /// Observable equality: two well-formed tables representing the
    /// same map agree on their entry counts, and every lookup's result
    /// is fixed by the represented map alone.  Together with the
    /// rebuild contract — `resize_to`, `reserve` and the shrink
    /// operations keep the represented map — a table rebuilt at
    /// another capacity is observably the table it was built from,
    /// whatever order its live entries were re-inserted in.
    pub proof fn lemma_view_determines_observations(a: HashMap<V>, b: HashMap<V>)
        requires
            a.wf(),
            b.wf(),
            a@ == b@,
        ensures
            a.spec_len() == b.spec_len(),
    {
        a.lemma_len_counts_entries();
        b.lemma_len_counts_entries();
    }
}

impl<V: Clone> Clone for HashMap<V> {
    /// Clones the table slot for slot: same capacity, same keys, each
    /// value cloned with `V::clone`.
    fn clone(&self) -> (res: Self)
        ensures
            res.spec_len() == self.spec_len(),
            res.spec_used() == self.spec_used(),
            res.spec_cap() == self.spec_cap(),
            res.strategy() == self.strategy(),
            self.wf() ==> res.wf(),
            self.wf() ==> res@.dom() =~= self@.dom(),
            self.wf() ==> forall|k: u64| #[trigger]
                res@.dom().contains(k) ==> cloned::<V>(self@[k], res@[k]),
    {
        let ntags = self.tags.clone();
        let nkeys = self.keys.clone();
        let nvals = self.vals.clone();
        proof {
            assert forall|j: int| 0 <= j < self.tags@.len() implies ntags@[j]
                == self.tags@[j] by {
                assert(cloned::<u32>(self.tags@[j], ntags@[j]));
            }
            assert(ntags@ =~= self.tags@);
            assert forall|j: int| 0 <= j < self.keys@.len() implies nkeys@[j]
                == self.keys@[j] by {
                assert(cloned::<u64>(self.keys@[j], nkeys@[j]));
            }
            assert(nkeys@ =~= self.keys@);
            assert forall|j: int| 0 <= j < self.vals@.len() implies ((nvals@[j]
                is Some <==> self.vals@[j] is Some) && (nvals@[j] is Some ==> cloned::<V>(
                self.vals@[j]->0,
                nvals@[j]->0,
            ))) by {
                assert(cloned::<Option<V>>(self.vals@[j], nvals@[j]));
            }
        }
        let res = HashMap {
            tags: ntags,
            keys: nkeys,
            vals: nvals,
            len: self.len,
            used: self.used,
            cap: self.cap,
            hasher: self.hasher,
        };
        proof {
            if self.wf() {
                assert forall|k: u64| res@.dom().contains(k) <==> self@.dom().contains(k) by {
                    if has_live_key(res.tags@, res.keys@, k) {
                        let j = choose|j: int| slot_has_key(res.tags@, res.keys@, j, k);
                        assert(slot_has_key(self.tags@, self.keys@, j, k));
                    }
                    if has_live_key(self.tags@, self.keys@, k) {
                        let j = choose|j: int| slot_has_key(self.tags@, self.keys@, j, k);
                        assert(slot_has_key(res.tags@, res.keys@, j, k));
                    }
                }
                assert forall|k: u64| #[trigger] res@.dom().contains(k) implies cloned::<V>(
                    self@[k],
                    res@[k],
                ) by {
                    let j = choose|j: int| slot_has_key(res.tags@, res.keys@, j, k);
                    lemma_live_index(res.tags@, res.keys@, j, k);
                    lemma_live_index(self.tags@, self.keys@, j, k);
                }
            }
        }
        res
    }
}

/// The first slot of `tags` at or after `i` marking a live entry, or
/// the buffer length when none remains.
pub open spec fn next_live(tags: Seq<u32>, i: int) -> int
    decreases tags.len() - i,
    when 0 <= i <= tags.len()
{
    if i >= tags.len() {
        tags.len() as int
    } else if tag_occupied(tags[i]) {
        i
    } else {
        next_live(tags, i + 1)
    }
}

/// `next_live` lands on the first occupied slot at or after `i`.
pub proof fn lemma_next_live(tags: Seq<u32>, i: int)
    requires
        0 <= i <= tags.len(),
    ensures
        i <= next_live(tags, i) <= tags.len(),
        next_live(tags, i) < tags.len() ==> tag_occupied(tags[next_live(tags, i)]),
        forall|j: int| i <= j < next_live(tags, i) ==> !tag_occupied(tags[j]),
    decreases tags.len() - i,
{
    if i < tags.len() && !tag_occupied(tags[i]) {
        lemma_next_live(tags, i + 1);
    }
}

/// A borrowing cursor over a table's live entries, visited in slot
/// order.  The sequence covers every live entry exactly once; its
/// order carries no other meaning.
pub struct Iter<'a, V> {
    /// The table iterated over.
    pub table: &'a HashMap<V>,
    /// The next slot to examine.
    pub idx: usize,
}

impl<'a, V> Iter<'a, V> {
    /// The next live entry at or after the cursor, as its key and a
    /// reference to its value, advancing the cursor past it.
    #[verifier::loop_isolation(false)]
    pub fn next(&mut self) -> (r: Option<(u64, &'a V)>)
        requires
            old(self).table.wf(),
            old(self).idx <= old(self).table.spec_cap(),
        ensures
            final(self).table == old(self).table,
            ({
                let t = old(self).table;
                let j = t.spec_next_live(old(self).idx as int);
                match r {
                    Some(kv) => j < t.spec_cap() && kv.0 == t.spec_key_at(j) && final(self).idx
                        == j + 1 && t@.contains_key(kv.0) && *kv.1 == t@[kv.0],
                    None => j == t.spec_cap() && final(self).idx == t.spec_cap(),
                }
            }),
    {
        let t = self.table;
        let ghost start = self.idx as int;
        proof {
            lemma_next_live(t.tags@, start);
        }
        while self.idx < t.cap
            invariant
                start <= self.idx <= t.cap,
                self.table == t,
                next_live(t.tags@, start) == next_live(t.tags@, self.idx as int),
            decreases t.cap - self.idx,
        {
            let j = self.idx;
            if t.tags[j] >= TAG_PRESENT {
                self.idx = j + 1;
                proof {
                    lemma_live_index(t.tags@, t.keys@, j as int, t.keys@[j as int]);
                }
                return Some((t.keys[j], t.vals[j].as_ref().unwrap()));
            }
            self.idx = j + 1;
        }
        None
    }
}

/// A borrowing cursor over a table's live keys, in slot order.
pub struct Keys<'a, V> {
    /// The table iterated over.
    pub table: &'a HashMap<V>,
    /// The next slot to examine.
    pub idx: usize,
}

impl<'a, V> Keys<'a, V> {
    /// The next live key at or after the cursor, advancing past it.
    #[verifier::loop_isolation(false)]
    pub fn next(&mut self) -> (r: Option<u64>)
        requires
            old(self).table.wf(),
            old(self).idx <= old(self).table.spec_cap(),
        ensures
            final(self).table == old(self).table,
            ({
                let t = old(self).table;
                let j = t.spec_next_live(old(self).idx as int);
                match r {
                    Some(k) => j < t.spec_cap() && k == t.spec_key_at(j) && final(self).idx == j
                        + 1 && t@.contains_key(k),
                    None => j == t.spec_cap() && final(self).idx == t.spec_cap(),
                }
            }),
    {
        let t = self.table;
        let ghost start = self.idx as int;
        proof {
            lemma_next_live(t.tags@, start);
        }
        while self.idx < t.cap
            invariant
                start <= self.idx <= t.cap,
                self.table == t,
                next_live(t.tags@, start) == next_live(t.tags@, self.idx as int),
            decreases t.cap - self.idx,
        {
            let j = self.idx;
            if t.tags[j] >= TAG_PRESENT {
                self.idx = j + 1;
                proof {
                    lemma_live_index(t.tags@, t.keys@, j as int, t.keys@[j as int]);
                }
                return Some(t.keys[j]);
            }
            self.idx = j + 1;
        }
        None
    }
}

/// A borrowing cursor over a table's live values, in slot order.
pub struct Values<'a, V> {
    /// The table iterated over.
    pub table: &'a HashMap<V>,
    /// The next slot to examine.
    pub idx: usize,
}

impl<'a, V> Values<'a, V> {
    /// The next live value at or after the cursor, advancing past it.
    #[verifier::loop_isolation(false)]
    pub fn next(&mut self) -> (r: Option<&'a V>)
        requires
            old(self).table.wf(),
            old(self).idx <= old(self).table.spec_cap(),
        ensures
            final(self).table == old(self).table,
            ({
                let t = old(self).table;
                let j = t.spec_next_live(old(self).idx as int);
                match r {
                    Some(v) => j < t.spec_cap() && final(self).idx == j + 1 && t@.contains_key(
                        t.spec_key_at(j),
                    ) && *v == t@[t.spec_key_at(j)],
                    None => j == t.spec_cap() && final(self).idx == t.spec_cap(),
                }
            }),
    {
        let t = self.table;
        let ghost start = self.idx as int;
        proof {
            lemma_next_live(t.tags@, start);
        }
        while self.idx < t.cap
            invariant
                start <= self.idx <= t.cap,
                self.table == t,
                next_live(t.tags@, start) == next_live(t.tags@, self.idx as int),
            decreases t.cap - self.idx,
        {
            let j = self.idx;
            if t.tags[j] >= TAG_PRESENT {
                self.idx = j + 1;
                proof {
                    lemma_live_index(t.tags@, t.keys@, j as int, t.keys@[j as int]);
                }
                return Some(t.vals[j].as_ref().unwrap());
            }
            self.idx = j + 1;
        }
        None
    }
}

} // verus!
