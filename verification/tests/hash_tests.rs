use vec_impl::MyHashSet1;

#[test]
fn hash_set_add_contains_remove() {
    let mut hset = MyHashSet1::new();
    for ind in 0..10 {
        let key = ind * 10000;
        assert!(!hset.contains(&key));
        hset.add(key);
        assert!(hset.contains(&key));
    }
    for ind in 0..10 {
        let key = ind * 10000;
        assert!(hset.contains(&key));
        hset.remove(&key);
        assert!(!hset.contains(&key));
    }
}

#[test]
fn hash_set_add_twice_then_remove_once() {
    let mut hset: MyHashSet1<i32> = MyHashSet1::new();
    hset.add(42);
    hset.add(42);
    hset.remove(&42);
    assert!(!hset.contains(&42));
    hset.add(42);
    assert!(hset.contains(&42));
    assert!(!hset.contains(&43));
}

// Keys given the same hash share their probe window: the search steps past
// other keys and past deleted slots, and stops at an empty slot.
#[test]
fn hash_set_collisions_share_probe_window() {
    let mut hset: MyHashSet1<u64> = MyHashSet1::new();
    for k in 0..5u64 {
        hset.add_with_hash(7, k);
    }
    for k in 0..5u64 {
        assert!(hset.contains_with_hash(7, &k));
        assert!(hset.contains_with_hash(10007, &k));
    }
    assert!(!hset.contains_with_hash(7, &5));
    assert!(!hset.contains_with_hash(8, &0));
    hset.remove_with_hash(7, &1);
    assert!(!hset.contains_with_hash(7, &1));
    assert!(hset.contains_with_hash(7, &4));
    hset.add_with_hash(7, 9);
    assert!(hset.contains_with_hash(8, &9));
    assert!(hset.contains_with_hash(7, &9));
}

// At most twenty slots are probed: a twenty-first key with the same home
// slot is not added.
#[test]
fn hash_set_full_probe_window_drops_key() {
    let mut hset: MyHashSet1<u32> = MyHashSet1::new();
    for k in 0..20u32 {
        hset.add_with_hash(9999, k);
    }
    hset.add_with_hash(9999, 20);
    assert!(!hset.contains_with_hash(9999, &20));
    assert!(hset.contains_with_hash(9999, &19));
    assert!(hset.contains_with_hash(18, &19));
}
