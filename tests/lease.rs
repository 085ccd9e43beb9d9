use std::collections::HashSet;

use reuse_trace::lease_cache::{LeaseCache, MAX_EXPIRING_VEC_SIZE};

#[test]
fn test_lease_cache_new() {
    let lease_cache = LeaseCache::<usize>::new();
    assert_eq!(lease_cache.expiring_len(), MAX_EXPIRING_VEC_SIZE);
    assert_eq!(lease_cache.curr_expiring_index(), 0);
    assert_eq!(lease_cache.len(), 0);
}

#[test]
fn test_lease_cache_insert() {
    let mut lease_cache = LeaseCache::new();
    lease_cache.insert(1usize, 1);
    lease_cache.insert(2, 2);
    lease_cache.insert(3, 3);
    assert!(lease_cache.contains(&1));
    assert!(lease_cache.contains(&2));
    assert!(lease_cache.contains(&3));
    let mut abs_index = lease_cache.slot_of(&1).unwrap();
    assert_eq!(lease_cache.slot_contains(abs_index, &1), true);
    abs_index = lease_cache.slot_of(&2).unwrap();
    assert_eq!(lease_cache.slot_contains(abs_index, &2), true);
    abs_index = lease_cache.slot_of(&3).unwrap();
    assert_eq!(lease_cache.slot_contains(abs_index, &3), true);
}

#[test]
fn test_lease_cache_update() {
    let mut lease_cache = LeaseCache::new();
    lease_cache.update(&1usize, 1);
    let abs_index: usize = lease_cache.slot_of(&1).unwrap();
    assert!(lease_cache.slot_contains(abs_index, &1));
    lease_cache.update(&1, 4);
    let abs_index_old = abs_index;
    assert!(!lease_cache.slot_contains(abs_index_old, &1));
    let abs_index_new = lease_cache.slot_of(&1).unwrap();
    assert!(lease_cache.slot_contains(abs_index_new, &1));
}

#[test]
fn test_lease_cache_dump_expiring() {
    let mut lease_cache = LeaseCache::new();
    lease_cache.insert(1usize, 1);
    lease_cache.insert(2, 2);
    lease_cache.insert(3, 3);
    let as_set = |v: Vec<usize>| v.into_iter().collect::<HashSet<usize>>();
    let mut expiring = as_set(lease_cache.dump_expiring());
    assert_eq!(expiring, HashSet::new());
    expiring = as_set(lease_cache.dump_expiring());
    let mut expected = HashSet::new();
    expected.insert(1);
    assert_eq!(expiring, expected);
    expiring = as_set(lease_cache.dump_expiring());
    expected.insert(2);
    expected.remove(&1);
    assert_eq!(expiring, expected);
    expiring = as_set(lease_cache.dump_expiring());
    expected.insert(3);
    expected.remove(&2);
    assert_eq!(expiring, expected);
}

#[test]
fn test_lease_cache_force_evict() {
    let epsilon = 0.1;
    let num_iters = 100;
    let mut num_obj1_evicted = 0;
    let mut num_obj2_evicted = 0;
    let mut num_obj3_evicted = 0;
    for _ in 0..num_iters {
        let mut lease_cache = LeaseCache::new();
        lease_cache.insert(1usize, 100000);
        lease_cache.insert(2, 100000);
        lease_cache.insert(3, 9);
        let evicted_obj = lease_cache.force_evict();
        match evicted_obj {
            1 => num_obj1_evicted += 1,
            2 => num_obj2_evicted += 1,
            3 => num_obj3_evicted += 1,
            _ => panic!("Invalid object evicted"),
        }
    }
    let check_obj1 = ((num_obj1_evicted as f64 / num_iters as f64) - (1.0 / 3.0)).abs() < epsilon;
    let check_obj2 = ((num_obj2_evicted as f64 / num_iters as f64) - (1.0 / 3.0)).abs() < epsilon;
    let check_obj3 = ((num_obj3_evicted as f64 / num_iters as f64) - (1.0 / 3.0)).abs() < epsilon;
    println!("eviction count: {} {} {}", num_obj1_evicted, num_obj2_evicted, num_obj3_evicted);
    println!(
        "eviction ratio: {} {} {}",
        num_obj1_evicted as f64 / num_iters as f64,
        num_obj2_evicted as f64 / num_iters as f64,
        num_obj3_evicted as f64 / num_iters as f64
    );
    assert!(check_obj1 && check_obj2 && check_obj3);
}

#[test]
fn test_lease_cache_force_evict_string() {
    let epsilon = 0.1;
    let num_iters = 100;
    let mut num_obj1_evicted = 0;
    let mut num_obj2_evicted = 0;
    let mut num_obj3_evicted = 0;
    let obj_1 = "x1";
    let obj_2 = "x2";
    let obj_3 = "x3";
    for _ in 0..num_iters {
        let mut lease_cache = LeaseCache::new();
        lease_cache.insert(obj_1.to_string(), 100000);
        lease_cache.insert(obj_2.to_string(), 100000);
        lease_cache.insert(obj_3.to_string(), 9);
        let evicted_obj = lease_cache.force_evict();
        match evicted_obj.as_str() {
            o if o == obj_1 => num_obj1_evicted += 1,
            o if o == obj_2 => num_obj2_evicted += 1,
            o if o == obj_3 => num_obj3_evicted += 1,
            _ => panic!("Invalid object evicted"),
        }
    }
    let check_obj1 = ((num_obj1_evicted as f64 / num_iters as f64) - (1.0 / 3.0)).abs() < epsilon;
    let check_obj2 = ((num_obj2_evicted as f64 / num_iters as f64) - (1.0 / 3.0)).abs() < epsilon;
    let check_obj3 = ((num_obj3_evicted as f64 / num_iters as f64) - (1.0 / 3.0)).abs() < epsilon;
    println!("eviction count: {} {} {}", num_obj1_evicted, num_obj2_evicted, num_obj3_evicted);
    println!(
        "eviction ratio: {} {} {}",
        num_obj1_evicted as f64 / num_iters as f64,
        num_obj2_evicted as f64 / num_iters as f64,
        num_obj3_evicted as f64 / num_iters as f64
    );
    assert!(check_obj1 && check_obj2 && check_obj3);
}

#[test]
fn lease_time_and_removal() {
    let mut c = LeaseCache::new();
    c.insert(7usize, 5);
    assert_eq!(c.get_time_till_eviction(&7), 5);
    c.dump_expiring();
    assert_eq!(c.get_time_till_eviction(&7), 4);
    // a slot behind the current one counts round the schedule
    c.insert(8usize, MAX_EXPIRING_VEC_SIZE - 1);
    assert_eq!(c.slot_of(&8), Some(0));
    assert_eq!(c.get_time_till_eviction(&8), MAX_EXPIRING_VEC_SIZE - 1);
    c.remove_from_cache(&7);
    assert!(!c.contains(&7));
    assert!(!c.slot_contains(5, &7));
    assert_eq!(c.len(), 1);
}
