//! Counting occupied and non-empty tags in a tag buffer.
//!
//! The table keeps its number of live entries and its number of used
//! (live or tombstoned) slots as fields; these spec functions define the
//! counts the fields must agree with, and the lemmas track how the
//! counts move when a single slot changes.

use crate::hash::{tag_occupied, TAG_EMPTY};
use vstd::prelude::*;

verus! {

/// The number of tags marking an occupied slot.
pub open spec fn count_occupied(tags: Seq<u32>) -> nat
    decreases tags.len(),
{
    if tags.len() == 0 {
        0
    } else {
        count_occupied(tags.drop_last()) + (if tag_occupied(tags.last()) {
            1nat
        } else {
            0nat
        })
    }
}

/// The number of tags that are not empty (occupied or tombstoned).
pub open spec fn count_nonempty(tags: Seq<u32>) -> nat
    decreases tags.len(),
{
    if tags.len() == 0 {
        0
    } else {
        count_nonempty(tags.drop_last()) + (if tags.last() != TAG_EMPTY {
            1nat
        } else {
            0nat
        })
    }
}

/// Both counts are bounded by the buffer's length, occupied slots are a
/// subset of the non-empty ones.
pub proof fn lemma_counts_bounded(tags: Seq<u32>)
    ensures
        count_occupied(tags) <= count_nonempty(tags) <= tags.len(),
    decreases tags.len(),
{
    if tags.len() > 0 {
        lemma_counts_bounded(tags.drop_last());
    }
}

/// Appending a tag adds its own contribution to each count.
pub proof fn lemma_counts_push(tags: Seq<u32>, t: u32)
    ensures
        count_occupied(tags.push(t)) == count_occupied(tags) + (if tag_occupied(t) {
            1nat
        } else {
            0nat
        }),
        count_nonempty(tags.push(t)) == count_nonempty(tags) + (if t != TAG_EMPTY {
            1nat
        } else {
            0nat
        }),
{
    assert(tags.push(t).drop_last() =~= tags);
}

/// Overwriting one tag changes each count by the difference of the old
/// and new tags' contributions.
pub proof fn lemma_counts_update(tags: Seq<u32>, i: int, t: u32)
    requires
        0 <= i < tags.len(),
    ensures
        count_occupied(tags.update(i, t)) == count_occupied(tags) - (if tag_occupied(tags[i]) {
            1int
        } else {
            0int
        }) + (if tag_occupied(t) {
            1int
        } else {
            0int
        }),
        count_nonempty(tags.update(i, t)) == count_nonempty(tags) - (if tags[i] != TAG_EMPTY {
            1int
        } else {
            0int
        }) + (if t != TAG_EMPTY {
            1int
        } else {
            0int
        }),
    decreases tags.len(),
{
    let upd = tags.update(i, t);
    if i == tags.len() - 1 {
        assert(upd.drop_last() =~= tags.drop_last());
        assert(upd.last() == t);
    } else {
        assert(upd.drop_last() =~= tags.drop_last().update(i, t));
        assert(upd.last() == tags.last());
        lemma_counts_update(tags.drop_last(), i, t);
    }
}

/// Counts add over concatenation.
pub proof fn lemma_counts_concat(a: Seq<u32>, b: Seq<u32>)
    ensures
        count_occupied(a + b) == count_occupied(a) + count_occupied(b),
        count_nonempty(a + b) == count_nonempty(a) + count_nonempty(b),
    decreases b.len(),
{
    if b.len() == 0 {
        assert(a + b =~= a);
    } else {
        lemma_counts_concat(a, b.drop_last());
        assert((a + b).drop_last() =~= a + b.drop_last());
        assert((a + b).last() == b.last());
    }
}

/// A prefix's count plus the remainder's count is the whole count.
pub proof fn lemma_counts_split(s: Seq<u32>, i: int)
    requires
        0 <= i <= s.len(),
    ensures
        count_occupied(s) == count_occupied(s.take(i)) + count_occupied(s.skip(i)),
        count_nonempty(s) == count_nonempty(s.take(i)) + count_nonempty(s.skip(i)),
{
    assert(s =~= s.take(i) + s.skip(i));
    lemma_counts_concat(s.take(i), s.skip(i));
}

/// A buffer with no empty tag at all has a full non-empty count.
pub proof fn lemma_all_nonempty(tags: Seq<u32>)
    requires
        forall|i: int| 0 <= i < tags.len() ==> #[trigger] tags[i] != TAG_EMPTY,
    ensures
        count_nonempty(tags) == tags.len(),
    decreases tags.len(),
{
    if tags.len() > 0 {
        lemma_all_nonempty(tags.drop_last());
    }
}

/// A buffer of only empty tags has zero counts.
pub proof fn lemma_all_empty(tags: Seq<u32>)
    requires
        forall|i: int| 0 <= i < tags.len() ==> #[trigger] tags[i] == TAG_EMPTY,
    ensures
        count_occupied(tags) == 0,
        count_nonempty(tags) == 0,
    decreases tags.len(),
{
    if tags.len() > 0 {
        lemma_all_empty(tags.drop_last());
    }
}

/// A buffer with an occupied slot has a positive occupied count.
pub proof fn lemma_count_occupied_pos(tags: Seq<u32>, i: int)
    requires
        0 <= i < tags.len(),
        tag_occupied(tags[i]),
    ensures
        count_occupied(tags) >= 1,
    decreases tags.len(),
{
    if i < tags.len() - 1 {
        lemma_count_occupied_pos(tags.drop_last(), i);
    }
}

} // verus!
