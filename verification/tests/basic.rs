//! The table exercised end to end: construction, block counts, and a
//! randomised insert/lookup workload.

use smash::{simds_for_cap, HashMap, HASH_LANES, MAX_CAP};

#[test]
fn construct() {
    let _hm: HashMap<i32> = HashMap::new();
}

#[test]
fn test_simds_for_cap() {
    assert_eq!(simds_for_cap(0), 0);
    assert_eq!(simds_for_cap(1), 1);
    assert_eq!(simds_for_cap(HASH_LANES), 1);
    assert_eq!(simds_for_cap(HASH_LANES - 1), 1);
    assert_eq!(simds_for_cap(HASH_LANES * 13), 13);
    assert_eq!(simds_for_cap(HASH_LANES * 13 + 1), 14);
}

#[test]
fn test_simds_for_cap_max() {
    simds_for_cap(MAX_CAP);
}

#[test]
fn test_insert_get_sum() {
    let mut hm = HashMap::<u32>::new();
    let nums = (0..10000u32)
        .map(|i| i * 100 + rand::random::<u32>() % 100)
        .collect::<Vec<_>>();

    let mut sum = 0u32;
    for (i, &num) in nums.iter().enumerate() {
        assert_eq!(hm.len(), i);
        assert_eq!(hm.capacity().max(1), i.next_power_of_two());

        let val = rand::random::<u32>() % 10000;
        hm.insert(num as u64, val);
        sum += val;
    }

    let mut new_sum = 0u32;
    for num in nums {
        new_sum += hm.get(&(num as u64)).unwrap();
    }

    assert_eq!(sum, new_sum);
}
