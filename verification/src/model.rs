//! The mathematical model of the storage buffers.
//!
//! Three parallel buffers — tags, keys, values — represent a finite map
//! from keys to values: each occupied slot contributes its key and
//! value.  Provided no key is held by two occupied slots, the
//! represented map is well defined, and writing a single slot moves the
//! map by an insert, a remove, or both.

use crate::hash::{tag_occupied, TAG_DELETED};
use vstd::prelude::*;

verus! {

/// Slot `i` is occupied and holds the live entry for key `k`.
pub open spec fn slot_has_key(tags: Seq<u32>, keys: Seq<u64>, i: int, k: u64) -> bool {
    0 <= i < tags.len() && tag_occupied(tags[i]) && keys[i] == k
}

/// Some occupied slot holds the live entry for key `k`.
pub open spec fn has_live_key(tags: Seq<u32>, keys: Seq<u64>, k: u64) -> bool {
    exists|i: int| slot_has_key(tags, keys, i, k)
}

/// The slot holding the live entry for key `k` (unique when keys are
/// unique).
pub open spec fn live_index(tags: Seq<u32>, keys: Seq<u64>, k: u64) -> int {
    choose|i: int| slot_has_key(tags, keys, i, k)
}

/// No key is held by two distinct occupied slots.
pub open spec fn keys_unique(tags: Seq<u32>, keys: Seq<u64>) -> bool {
    forall|i: int, j: int|
        #![trigger keys[i], keys[j]]
        0 <= i < tags.len() && 0 <= j < tags.len() && tag_occupied(tags[i]) && tag_occupied(
            tags[j],
        ) && keys[i] == keys[j] ==> i == j
}

/// The finite map the buffers represent: each occupied slot's key maps
/// to that slot's value.
pub open spec fn slots_map<V>(tags: Seq<u32>, keys: Seq<u64>, vals: Seq<Option<V>>) -> Map<
    u64,
    V,
> {
    Map::new(
        |k: u64| has_live_key(tags, keys, k),
        |k: u64| vals[live_index(tags, keys, k)]->0,
    )
}

/// With unique keys, a slot holding `k` is the slot `live_index` picks.
pub proof fn lemma_live_index(tags: Seq<u32>, keys: Seq<u64>, i: int, k: u64)
    requires
        keys_unique(tags, keys),
        slot_has_key(tags, keys, i, k),
    ensures
        has_live_key(tags, keys, k),
        live_index(tags, keys, k) == i,
{
    let j = live_index(tags, keys, k);
    assert(slot_has_key(tags, keys, j, k));
    assert(keys[i] == keys[j]);
}

/// Writing an occupied slot `i` with tag `t`, key `k` and value `v`,
/// where `k` is live nowhere else, inserts `k` and removes whatever key
/// slot `i` held before.
pub proof fn lemma_write_slot<V>(
    tags: Seq<u32>,
    keys: Seq<u64>,
    vals: Seq<Option<V>>,
    i: int,
    t: u32,
    k: u64,
    v: V,
)
    requires
        keys.len() == tags.len(),
        vals.len() == tags.len(),
        keys_unique(tags, keys),
        0 <= i < tags.len(),
        tag_occupied(t),
        forall|j: int| j != i ==> !slot_has_key(tags, keys, j, k),
    ensures
        keys_unique(tags.update(i, t), keys.update(i, k)),
        slots_map(tags.update(i, t), keys.update(i, k), vals.update(i, Some(v)))
            == if tag_occupied(tags[i]) {
            slots_map(tags, keys, vals).remove(keys[i]).insert(k, v)
        } else {
            slots_map(tags, keys, vals).insert(k, v)
        },
{
    let nt = tags.update(i, t);
    let nk = keys.update(i, k);
    let nv = vals.update(i, Some(v));
    let old_map = slots_map(tags, keys, vals);
    let new_map = slots_map(nt, nk, nv);

    assert forall|a: int, b: int|
        #![trigger nk[a], nk[b]]
        0 <= a < nt.len() && 0 <= b < nt.len() && tag_occupied(nt[a]) && tag_occupied(nt[b])
            && nk[a] == nk[b] implies a == b by {
        if a != i && b != i {
            assert(keys[a] == keys[b]);
        } else if a == i && b != i {
            assert(slot_has_key(tags, keys, b, k));
        } else if a != i && b == i {
            assert(slot_has_key(tags, keys, a, k));
        }
    }

    let target = if tag_occupied(tags[i]) {
        old_map.remove(keys[i]).insert(k, v)
    } else {
        old_map.insert(k, v)
    };

    assert forall|q: u64| new_map.dom().contains(q) <==> target.dom().contains(q) by {
        if q == k {
            assert(slot_has_key(nt, nk, i, q));
        } else {
            if has_live_key(nt, nk, q) {
                let j = choose|j: int| slot_has_key(nt, nk, j, q);
                assert(j != i);
                assert(slot_has_key(tags, keys, j, q));
            }
            if tag_occupied(tags[i]) && q == keys[i] {
                if has_live_key(nt, nk, q) {
                    let j = choose|j: int| slot_has_key(nt, nk, j, q);
                    assert(slot_has_key(tags, keys, j, q));
                    assert(keys[j] == keys[i]);
                    assert(false);
                }
            } else {
                if has_live_key(tags, keys, q) {
                    let j = choose|j: int| slot_has_key(tags, keys, j, q);
                    assert(j != i);
                    assert(slot_has_key(nt, nk, j, q));
                }
            }
        }
    }

    assert forall|q: u64| new_map.dom().contains(q) implies new_map[q] == target[q] by {
        if q == k {
            lemma_live_index(nt, nk, i, k);
            assert(new_map[q] == v);
        } else {
            let j = choose|j: int| slot_has_key(nt, nk, j, q);
            assert(j != i);
            assert(slot_has_key(tags, keys, j, q));
            lemma_live_index(nt, nk, j, q);
            lemma_live_index(tags, keys, j, q);
            assert(new_map[q] == nv[j]->0);
            assert(old_map[q] == vals[j]->0);
        }
    }

    assert(new_map =~= target);
}

/// Tombstoning an occupied slot removes its key from the map.
pub proof fn lemma_clear_slot<V>(tags: Seq<u32>, keys: Seq<u64>, vals: Seq<Option<V>>, i: int)
    requires
        keys.len() == tags.len(),
        vals.len() == tags.len(),
        keys_unique(tags, keys),
        0 <= i < tags.len(),
        tag_occupied(tags[i]),
    ensures
        keys_unique(tags.update(i, TAG_DELETED), keys),
        slots_map(tags.update(i, TAG_DELETED), keys, vals.update(i, None::<V>)) == slots_map(
            tags,
            keys,
            vals,
        ).remove(keys[i]),
{
    let nt = tags.update(i, TAG_DELETED);
    let nv = vals.update(i, None::<V>);
    let old_map = slots_map(tags, keys, vals);
    let new_map = slots_map(nt, keys, nv);
    let r = keys[i];

    assert(!tag_occupied(TAG_DELETED));

    assert forall|q: u64| new_map.dom().contains(q) <==> old_map.remove(r).dom().contains(q) by {
        if has_live_key(nt, keys, q) {
            let j = choose|j: int| slot_has_key(nt, keys, j, q);
            assert(j != i);
            assert(slot_has_key(tags, keys, j, q));
            if q == r {
                assert(keys[j] == keys[i]);
                assert(false);
            }
        }
        if q != r && has_live_key(tags, keys, q) {
            let j = choose|j: int| slot_has_key(tags, keys, j, q);
            assert(j != i);
            assert(slot_has_key(nt, keys, j, q));
        }
    }

    assert forall|q: u64| new_map.dom().contains(q) implies new_map[q] == old_map.remove(r)[q] by {
        let j = choose|j: int| slot_has_key(nt, keys, j, q);
        assert(j != i);
        assert(slot_has_key(tags, keys, j, q));
        lemma_live_index(nt, keys, j, q);
        lemma_live_index(tags, keys, j, q);
    }

    assert(new_map =~= old_map.remove(r));
}

/// Overwriting only the value of the occupied slot `i` updates its
/// key's entry.
pub proof fn lemma_set_value<V>(tags: Seq<u32>, keys: Seq<u64>, vals: Seq<Option<V>>, i: int, v: V)
    requires
        keys.len() == tags.len(),
        vals.len() == tags.len(),
        keys_unique(tags, keys),
        0 <= i < tags.len(),
        tag_occupied(tags[i]),
    ensures
        slots_map(tags, keys, vals.update(i, Some(v))) == slots_map(tags, keys, vals).insert(
            keys[i],
            v,
        ),
{
    let nv = vals.update(i, Some(v));
    let old_map = slots_map(tags, keys, vals);
    let new_map = slots_map(tags, keys, nv);
    let k = keys[i];

    lemma_live_index(tags, keys, i, k);

    assert forall|q: u64| new_map.dom().contains(q) implies new_map[q]
        == old_map.insert(k, v).index(q) by {
        assert(has_live_key(tags, keys, q));
        let j = choose|j: int| slot_has_key(tags, keys, j, q);
        lemma_live_index(tags, keys, j, q);
        if q == k {
            lemma_live_index(tags, keys, i, k);
            assert(j == i);
        }
    }

    assert(new_map =~= old_map.insert(k, v));
}

/// Extending a prefix of the buffers by one slot extends the prefix's
/// represented map by that slot's entry, if the slot is occupied.
pub proof fn lemma_prefix_map_step<V>(tags: Seq<u32>, keys: Seq<u64>, vals: Seq<Option<V>>, i: int)
    requires
        0 <= i < tags.len(),
        keys.len() == tags.len(),
        vals.len() == tags.len(),
        keys_unique(tags, keys),
    ensures
        tag_occupied(tags[i]) ==> slots_map(tags.take(i + 1), keys.take(i + 1), vals.take(i + 1))
            == slots_map(tags.take(i), keys.take(i), vals.take(i)).insert(keys[i], vals[i]->0),
        !tag_occupied(tags[i]) ==> slots_map(tags.take(i + 1), keys.take(i + 1), vals.take(i + 1))
            == slots_map(tags.take(i), keys.take(i), vals.take(i)),
{
    let at = tags.take(i);
    let ak = keys.take(i);
    let av = vals.take(i);
    let bt = tags.take(i + 1);
    let bk = keys.take(i + 1);
    let bv = vals.take(i + 1);
    let a_map = slots_map(at, ak, av);
    let b_map = slots_map(bt, bk, bv);

    assert forall|x: int, y: int|
        #![trigger bk[x], bk[y]]
        0 <= x < bt.len() && 0 <= y < bt.len() && tag_occupied(bt[x]) && tag_occupied(bt[y])
            && bk[x] == bk[y] implies x == y by {
        assert(keys[x] == keys[y]);
    }
    assert(keys_unique(bt, bk));
    assert forall|x: int, y: int|
        #![trigger ak[x], ak[y]]
        0 <= x < at.len() && 0 <= y < at.len() && tag_occupied(at[x]) && tag_occupied(at[y])
            && ak[x] == ak[y] implies x == y by {
        assert(keys[x] == keys[y]);
    }
    assert(keys_unique(at, ak));

    if tag_occupied(tags[i]) {
        let target = a_map.insert(keys[i], vals[i]->0);
        assert forall|q: u64| b_map.dom().contains(q) <==> target.dom().contains(q) by {
            if q == keys[i] {
                assert(slot_has_key(bt, bk, i, q));
            } else {
                if has_live_key(bt, bk, q) {
                    let j = choose|j: int| slot_has_key(bt, bk, j, q);
                    assert(j != i);
                    assert(slot_has_key(at, ak, j, q));
                }
                if has_live_key(at, ak, q) {
                    let j = choose|j: int| slot_has_key(at, ak, j, q);
                    assert(slot_has_key(bt, bk, j, q));
                }
            }
        }
        assert forall|q: u64| b_map.dom().contains(q) implies b_map[q] == target[q] by {
            if q == keys[i] {
                assert(slot_has_key(bt, bk, i, q));
                lemma_live_index(bt, bk, i, q);
            } else {
                let j = choose|j: int| slot_has_key(bt, bk, j, q);
                assert(j != i);
                assert(slot_has_key(at, ak, j, q));
                lemma_live_index(bt, bk, j, q);
                lemma_live_index(at, ak, j, q);
            }
        }
        assert(b_map =~= target);
    } else {
        assert forall|q: u64| b_map.dom().contains(q) <==> a_map.dom().contains(q) by {
            if has_live_key(bt, bk, q) {
                let j = choose|j: int| slot_has_key(bt, bk, j, q);
                assert(j != i);
                assert(slot_has_key(at, ak, j, q));
            }
            if has_live_key(at, ak, q) {
                let j = choose|j: int| slot_has_key(at, ak, j, q);
                assert(slot_has_key(bt, bk, j, q));
            }
        }
        assert forall|q: u64| b_map.dom().contains(q) implies b_map[q] == a_map[q] by {
            let j = choose|j: int| slot_has_key(bt, bk, j, q);
            assert(j != i);
            assert(slot_has_key(at, ak, j, q));
            lemma_live_index(bt, bk, j, q);
            lemma_live_index(at, ak, j, q);
        }
        assert(b_map =~= a_map);
    }
}

/// The represented map of a buffer prefix is finite, with exactly as
/// many entries as the prefix has occupied slots.
pub proof fn lemma_prefix_entry_count<V>(
    tags: Seq<u32>,
    keys: Seq<u64>,
    vals: Seq<Option<V>>,
    i: int,
)
    requires
        keys.len() == tags.len(),
        vals.len() == tags.len(),
        keys_unique(tags, keys),
        0 <= i <= tags.len(),
    ensures
        slots_map(tags.take(i), keys.take(i), vals.take(i)).dom().finite(),
        slots_map(tags.take(i), keys.take(i), vals.take(i)).dom().len()
            == crate::counting::count_occupied(tags.take(i)),
    decreases i,
{
    if i == 0 {
        lemma_no_live_keys::<V>(tags.take(0), keys.take(0), vals.take(0));
        assert(tags.take(0) =~= Seq::<u32>::empty());
    } else {
        lemma_prefix_entry_count::<V>(tags, keys, vals, i - 1);
        lemma_prefix_map_step::<V>(tags, keys, vals, i - 1);
        crate::counting::lemma_counts_push(tags.take(i - 1), tags[i - 1]);
        assert(tags.take(i - 1).push(tags[i - 1]) =~= tags.take(i));
        let prev = slots_map(tags.take(i - 1), keys.take(i - 1), vals.take(i - 1));
        if tag_occupied(tags[i - 1]) {
            let k = keys[i - 1];
            assert(!prev.dom().contains(k)) by {
                if has_live_key(tags.take(i - 1), keys.take(i - 1), k) {
                    let j = choose|j: int| #[trigger]
                        slot_has_key(tags.take(i - 1), keys.take(i - 1), j, k);
                    assert(slot_has_key(tags, keys, j, k));
                    assert(slot_has_key(tags, keys, i - 1, k));
                    assert(keys[j] == keys[i - 1]);
                    assert(false);
                }
            }
            assert(prev.insert(k, vals[i - 1]->0).dom() =~= prev.dom().insert(k));
            vstd::set::axiom_set_insert_finite(prev.dom(), k);
            vstd::set::axiom_set_insert_len(prev.dom(), k);
        }
    }
}

/// Buffers with no occupied slot represent the empty map.
pub proof fn lemma_no_live_keys<V>(tags: Seq<u32>, keys: Seq<u64>, vals: Seq<Option<V>>)
    requires
        forall|i: int| 0 <= i < tags.len() ==> !tag_occupied(tags[i]),
    ensures
        slots_map(tags, keys, vals) =~= Map::<u64, V>::empty(),
{
    assert forall|q: u64| !has_live_key(tags, keys, q) by {
        if has_live_key(tags, keys, q) {
            let j = choose|j: int| slot_has_key(tags, keys, j, q);
            assert(false);
        }
    }
}

} // verus!
