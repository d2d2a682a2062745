//! Scenario tests for the table's observable behaviour: round trips,
//! update and removal semantics, the grow and shrink policy, the
//! equivalence of the two lookup paths, and the error cases.

use smash::{FxStrategy, HashMap, SlotState, TableError};

#[test]
fn with_capacity_rounds_to_power_of_two() {
    let hm = HashMap::<u8>::with_capacity(5);
    assert_eq!(hm.capacity(), 8);
    assert_eq!(hm.len(), 0);
    assert!(hm.is_empty());
    let hm2 = HashMap::<u8>::with_capacity(16);
    assert_eq!(hm2.capacity(), 16);
    let hm3 = HashMap::<u8>::with_capacity(0);
    assert_eq!(hm3.capacity(), 0);
}

#[test]
fn round_trip_distinct_keys() {
    let mut hm = HashMap::<u64>::new();
    for k in 0..500u64 {
        hm.insert(k, k * 3 + 1);
    }
    for k in 0..500u64 {
        assert_eq!(hm.get(&k), Some(&(k * 3 + 1)));
    }
    assert_eq!(hm.get(&1000), None);
}

#[test]
fn update_semantics() {
    let mut hm = HashMap::<&str>::new();
    assert_eq!(hm.insert(7, "first"), None);
    assert_eq!(hm.len(), 1);
    assert_eq!(hm.insert(8, "other"), None);
    assert_eq!(hm.len(), 2);
    assert_eq!(hm.insert(7, "second"), Some("first"));
    assert_eq!(hm.len(), 2);
    assert_eq!(hm.get(&7), Some(&"second"));
}

#[test]
fn removal_semantics() {
    let mut hm = HashMap::<u32>::new();
    hm.insert(1, 10);
    hm.insert(2, 20);
    assert_eq!(hm.remove(&1), Some(10));
    assert_eq!(hm.get(&1), None);
    assert_eq!(hm.len(), 1);
    assert_eq!(hm.remove(&99), None);
    assert_eq!(hm.len(), 1);
    assert_eq!(hm.remove_entry(&2), Some((2, 20)));
    assert_eq!(hm.len(), 0);
}

#[test]
fn insert_ten_thousand_then_remove_one() {
    let mut hm = HashMap::<u64>::new();
    for key in 0..10000u64 {
        hm.insert(key, 10000 - key);
    }
    assert_eq!(hm.len(), 10000);
    assert_eq!(hm.get(&5000), Some(&5000));
    assert_eq!(hm.remove(&5000), Some(5000));
    assert_eq!(hm.get(&5000), None);
    assert_eq!(hm.len(), 9999);
}

#[test]
fn growth_steps_from_zero_capacity() {
    let mut hm = HashMap::<u8>::with_capacity(0);
    assert_eq!(hm.capacity(), 0);
    hm.insert(10, 1);
    assert_eq!(hm.capacity(), 1);
    hm.insert(20, 2);
    assert_eq!(hm.capacity(), 2);
}

#[test]
fn shrink_after_removals() {
    let mut hm = HashMap::<u64>::new();
    for k in 0..100u64 {
        hm.insert(k, k);
    }
    for k in 0..90u64 {
        hm.remove(&k);
    }
    assert_eq!(hm.len(), 10);
    assert!(hm.len() > hm.capacity() / 4);
    for k in 90..100u64 {
        assert_eq!(hm.get(&k), Some(&k));
    }
}

#[test]
fn scalar_and_vectorized_lookups_agree() {
    let mut hm = HashMap::<u64>::new();
    for k in 0..300u64 {
        hm.insert(k * 7, k);
    }
    for k in 50..120u64 {
        hm.remove(&(k * 7));
    }
    for q in 0..2500u64 {
        assert_eq!(hm.get(&q), hm.get_vectorized(&q));
    }
}

#[test]
fn capacity_stays_power_of_two() {
    let mut hm = HashMap::<u64>::new();
    for k in 0..1000u64 {
        hm.insert(k, k);
        let cap = hm.capacity();
        assert!(cap == 0 || cap.is_power_of_two());
        assert!(hm.len() <= cap);
    }
    for k in 0..990u64 {
        hm.remove(&k);
        let cap = hm.capacity();
        assert!(cap == 0 || cap.is_power_of_two());
        assert!(hm.len() <= cap);
    }
    for k in 990..1000u64 {
        assert_eq!(hm.get(&k), Some(&k));
    }
}

#[test]
fn reserve_and_shrink_keep_entries() {
    let mut hm = HashMap::<u64>::new();
    for k in 0..33u64 {
        hm.insert(k, k + 1);
    }
    hm.reserve(1000);
    assert!(hm.capacity() >= 1033);
    for k in 0..33u64 {
        assert_eq!(hm.get(&k), Some(&(k + 1)));
    }
    hm.shrink_to_fit();
    assert_eq!(hm.capacity(), 64);
    for k in 0..33u64 {
        assert_eq!(hm.get(&k), Some(&(k + 1)));
    }
}

#[test]
fn shrink_to_respects_minimum() {
    let mut hm = HashMap::<u64>::new();
    for k in 0..10u64 {
        hm.insert(k, k);
    }
    assert_eq!(hm.capacity(), 16);
    assert_eq!(hm.shrink_to(300), Err(TableError::MinCapacityTooLarge));
    assert_eq!(hm.capacity(), 16);
    assert_eq!(hm.shrink_to(12), Ok(()));
    assert_eq!(hm.capacity(), 16);
    assert_eq!(hm.shrink_to(0), Ok(()));
    assert_eq!(hm.capacity(), 16);
    for k in 0..10u64 {
        assert_eq!(hm.get(&k), Some(&k));
    }
}

#[test]
fn try_reserve_reports_overflow() {
    let mut hm = HashMap::<u64>::new();
    hm.insert(1, 1);
    assert_eq!(hm.try_reserve(usize::MAX), Err(TableError::CapacityOverflow));
    assert_eq!(hm.len(), 1);
    assert_eq!(hm.get(&1), Some(&1));
    assert_eq!(hm.try_reserve(100), Ok(()));
    assert!(hm.capacity() >= 101);
}

#[test]
fn clear_keeps_capacity() {
    let mut hm = HashMap::<u64>::new();
    for k in 0..50u64 {
        hm.insert(k, k);
    }
    let cap = hm.capacity();
    hm.clear();
    assert_eq!(hm.len(), 0);
    assert!(hm.is_empty());
    assert_eq!(hm.capacity(), cap);
    assert_eq!(hm.get(&7), None);
    hm.insert(7, 70);
    assert_eq!(hm.get(&7), Some(&70));
}

#[test]
fn get_mut_updates_in_place() {
    let mut hm = HashMap::<u64>::new();
    hm.insert(5, 50);
    if let Some(v) = hm.get_mut(&5) {
        *v = 55;
    }
    assert_eq!(hm.get(&5), Some(&55));
    assert!(hm.get_mut(&6).is_none());
}

#[test]
fn get_key_value_and_contains() {
    let mut hm = HashMap::<u32>::new();
    hm.insert(11, 111);
    assert_eq!(hm.get_key_value(&11), Some((&11, &111)));
    assert_eq!(hm.get_key_value(&12), None);
    assert!(hm.contains_key(&11));
    assert!(!hm.contains_key(&12));
}

#[test]
fn iteration_covers_every_entry_once() {
    let mut hm = HashMap::<u64>::new();
    for k in 0..40u64 {
        hm.insert(k, k * 2);
    }
    let mut seen: Vec<(u64, u64)> = Vec::new();
    let mut it = hm.iter();
    while let Some((k, v)) = it.next() {
        seen.push((k, *v));
    }
    seen.sort();
    let expected: Vec<(u64, u64)> = (0..40u64).map(|k| (k, k * 2)).collect();
    assert_eq!(seen, expected);

    let mut ks: Vec<u64> = Vec::new();
    let mut kit = hm.keys();
    while let Some(k) = kit.next() {
        ks.push(k);
    }
    ks.sort();
    assert_eq!(ks, (0..40u64).collect::<Vec<_>>());

    let mut vs: Vec<u64> = Vec::new();
    let mut vit = hm.values();
    while let Some(v) = vit.next() {
        vs.push(*v);
    }
    vs.sort();
    assert_eq!(vs, (0..40u64).map(|k| k * 2).collect::<Vec<_>>());
}

#[test]
fn clone_preserves_entries() {
    let mut hm = HashMap::<String>::new();
    hm.insert(1, String::from("one"));
    hm.insert(2, String::from("two"));
    let copy = hm.clone();
    assert_eq!(copy.len(), 2);
    assert_eq!(copy.capacity(), hm.capacity());
    assert_eq!(copy.get(&1), Some(&String::from("one")));
    assert_eq!(copy.get(&2), Some(&String::from("two")));
    hm.insert(1, String::from("uno"));
    assert_eq!(copy.get(&1), Some(&String::from("one")));
}

#[test]
fn rebuild_order_does_not_matter() {
    let pairs: Vec<(u64, u64)> = (0..200u64).map(|k| (k * 13 + 1, k)).collect();
    let mut forward = HashMap::<u64>::new();
    for &(k, v) in pairs.iter() {
        forward.insert(k, v);
    }
    let mut backward = HashMap::<u64>::new();
    for &(k, v) in pairs.iter().rev() {
        backward.insert(k, v);
    }
    forward.reserve(2000);
    backward.shrink_to_fit();
    assert_eq!(forward.len(), backward.len());
    for &(k, v) in pairs.iter() {
        assert_eq!(forward.get(&k), Some(&v));
        assert_eq!(backward.get(&k), Some(&v));
    }
    assert_eq!(forward.get(&0), None);
    assert_eq!(backward.get(&0), None);
}

#[test]
fn hasher_matches_fx_reference() {
    // Oracle values computed from the Fx folding rule:
    // hash = (hash.rotate_left(5) ^ word).wrapping_mul(0x517cc1b727220a95),
    // folding the seed word and then the key word into a zero state.
    let s0 = FxStrategy::new(0);
    assert_eq!(s0.hash(1), 0x517cc1b727220a95);
    assert_eq!(s0.hash(0), 0);
    let s1 = FxStrategy::new(0xdeadbeef);
    assert_eq!(s1.hash(42), 0xca8bbb6de0b703be);
    let s2 = FxStrategy::new(7);
    assert_eq!(s2.hash(123456789), 0x9203d4a53c0bf15a);
}

#[test]
fn custom_hasher_strategy_round_trips() {
    let mut hm = HashMap::<u64>::with_capacity_and_hasher(8, FxStrategy::new(0xabcdef));
    assert_eq!(hm.hasher(), &FxStrategy::new(0xabcdef));
    for k in 0..30u64 {
        hm.insert(k * 1000003, k);
    }
    for k in 0..30u64 {
        assert_eq!(hm.get(&(k * 1000003)), Some(&k));
    }
}

#[test]
fn slot_states_reflect_liveness() {
    let mut hm = HashMap::<u64>::with_capacity(4);
    hm.insert(3, 33);
    let mut occupied = 0;
    let mut empty = 0;
    for i in 0..hm.capacity() {
        match hm.slot_state(i) {
            SlotState::Occupied(_) => occupied += 1,
            SlotState::Empty => empty += 1,
            SlotState::Deleted => panic!("no slot was deleted"),
        }
    }
    assert_eq!(occupied, 1);
    assert_eq!(empty, hm.capacity() - 1);
}

#[test]
fn idx_for_masks_to_capacity() {
    assert_eq!(smash::idx_for(0x8000_0007, 8), 7);
    assert_eq!(smash::idx_for(0x8000_0008, 8), 0);
    assert_eq!(smash::idx_for(0xffff_ffff, 16), 15);
}
