use stampede::{bucket_size, ctrl_hash, StampedeMap, DELETED, EMPTY};

#[test]
fn basic_set_and_get() {
    let mut map: StampedeMap<_, _> = StampedeMap::new();
    map.set(0, 1);
    assert_eq!(map.get(0), Some(&1));
    map.set(1, 10);
    map.set(2, 9);
    map.set(3, 8);
    map.set(4, 7);
    map.set(5, 6);
    map.set(6, 5);
    map.set(7, 4);
    map.set(8, 3);
    map.set(9, 2);
    map.set(10, 0);
    assert_eq!(map.get(10), Some(&0));
    assert_eq!(map.get(9), Some(&2));
    assert_eq!(map.get(1), Some(&10));
    assert_eq!(map.get(0), Some(&1));
    assert_eq!(map.get(2), Some(&9));
    assert_eq!(map.get(3), Some(&8));
    assert_eq!(map.get(4), Some(&7));
    assert_eq!(map.get(5), Some(&6));
    assert_eq!(map.get(6), Some(&5));
    assert_eq!(map.get(7), Some(&4));
    assert_eq!(map.get(8), Some(&3));
    assert_eq!(map.get(9), Some(&2));
}

#[test]
fn regressions() {
    let mut map: StampedeMap<usize, usize> = StampedeMap::new();
    let input = vec![(0, 0), (882041908, 0), (201832565, 0)];
    for (k, v) in input.iter().copied() {
        map.set(k, v);
        assert_eq!(map.get(k), Some(&v));
        map.delete(k);
        assert_ne!(map.get(k), Some(&v));
    }
}

#[test]
fn new_map_finds_nothing() {
    let map: StampedeMap<u64, u64> = StampedeMap::new();
    assert_eq!(map.get(42), None);
    assert_eq!(map.len(), 0);
    assert!(map.is_empty());
    assert_eq!(map.capacity(), 16);
}

#[test]
fn set_then_get_one() {
    let mut map: StampedeMap<u64, u64> = StampedeMap::new();
    map.set(0, 1);
    assert_eq!(map.get(0), Some(&1));
    assert_eq!(map.len(), 1);
    assert!(!map.is_empty());
}

#[test]
fn eleven_keys_and_a_replacement() {
    let mut map: StampedeMap<u64, u64> = StampedeMap::new();
    for k in 0..11 {
        map.set(k, k * 10);
    }
    for k in 0..11 {
        assert_eq!(map.get(k), Some(&(k * 10)));
    }
    map.set(5, 999);
    assert_eq!(map.get(5), Some(&999));
    assert_eq!(map.len(), 11);
}

#[test]
fn set_get_delete_each_key() {
    let mut map: StampedeMap<u64, u64> = StampedeMap::new();
    for k in [0u64, 882041908, 201832565] {
        map.set(k, 0);
        assert_eq!(map.get(k), Some(&0));
        map.delete(k);
        assert_eq!(map.get(k), None);
    }
    assert_eq!(map.len(), 0);
}

#[test]
fn thirteenth_insert_grows_the_map() {
    let mut map: StampedeMap<u64, u64> = StampedeMap::with_capacity(16);
    assert_eq!(map.capacity(), 16);
    for k in 0..12 {
        map.set(k, k);
    }
    assert_eq!(map.capacity(), 16);
    map.set(12, 12);
    assert!(map.capacity() >= 32);
    assert_eq!(map.capacity(), 32);
    for k in 0..13 {
        assert_eq!(map.get(k), Some(&k));
    }
    assert_eq!(map.len(), 13);
}

#[test]
fn with_capacity_rounds_up_to_a_power_of_two() {
    assert_eq!(StampedeMap::<u64, u64>::with_capacity(0).capacity(), 16);
    assert_eq!(StampedeMap::<u64, u64>::with_capacity(1).capacity(), 16);
    assert_eq!(StampedeMap::<u64, u64>::with_capacity(16).capacity(), 16);
    assert_eq!(StampedeMap::<u64, u64>::with_capacity(17).capacity(), 32);
    assert_eq!(StampedeMap::<u64, u64>::with_capacity(100).capacity(), 128);
    assert_eq!(StampedeMap::<u64, u64>::with_capacity(1024).capacity(), 1024);
    let map: StampedeMap<u64, u64> = StampedeMap::with_capacity(100);
    assert_eq!(map.len(), 0);
    assert_eq!(map.get(7), None);
}

#[test]
fn clear_removes_everything_and_keeps_capacity() {
    let mut map: StampedeMap<u64, u64> = StampedeMap::new();
    for k in 0..40 {
        map.set(k, k + 1);
    }
    let cap = map.capacity();
    map.clear();
    assert_eq!(map.len(), 0);
    assert!(map.is_empty());
    assert_eq!(map.capacity(), cap);
    for k in 0..40 {
        assert_eq!(map.get(k), None);
    }
    map.set(3, 4);
    assert_eq!(map.get(3), Some(&4));
    assert_eq!(map.len(), 1);
}

#[test]
fn delete_of_an_absent_key_does_nothing() {
    let mut map: StampedeMap<u64, u64> = StampedeMap::new();
    map.set(1, 2);
    map.delete(5);
    assert_eq!(map.len(), 1);
    assert_eq!(map.get(1), Some(&2));
    map.delete(1);
    map.delete(1);
    assert_eq!(map.len(), 0);
}

#[test]
fn repeated_set_of_one_key_keeps_len_and_capacity() {
    let mut map: StampedeMap<u64, u64> = StampedeMap::new();
    for v in 0..1000 {
        map.set(7, v);
    }
    assert_eq!(map.len(), 1);
    assert_eq!(map.capacity(), 16);
    assert_eq!(map.get(7), Some(&999));
}

#[test]
fn tombstones_are_reused_and_trigger_growth() {
    let mut map: StampedeMap<u64, u64> = StampedeMap::new();
    for round in 0..100u64 {
        map.set(round, round);
        map.delete(round);
    }
    assert_eq!(map.len(), 0);
    for round in 0..100u64 {
        assert_eq!(map.get(round), None);
    }
    assert!(map.capacity() >= 16);
    assert_eq!(map.capacity() & (map.capacity() - 1), 0);
}

#[test]
fn many_keys_survive_growth() {
    let mut map: StampedeMap<u64, u64> = StampedeMap::new();
    for k in 0..5000u64 {
        map.set(k, k * 3);
    }
    assert_eq!(map.len(), 5000);
    assert!(map.capacity() * 3 >= 5000 * 4);
    for k in (0..5000u64).step_by(2) {
        map.delete(k);
    }
    assert_eq!(map.len(), 2500);
    for k in 0..5000u64 {
        if k % 2 == 0 {
            assert_eq!(map.get(k), None);
        } else {
            assert_eq!(map.get(k), Some(&(k * 3)));
        }
    }
}

#[test]
fn answers_do_not_depend_on_resizes() {
    let mut small: StampedeMap<u64, u64> = StampedeMap::new();
    let mut large: StampedeMap<u64, u64> = StampedeMap::with_capacity(4096);
    for k in 0..1000u64 {
        small.set(k * 7, k);
        large.set(k * 7, k);
        if k % 3 == 0 {
            small.delete(k * 5);
            large.delete(k * 5);
        }
    }
    assert!(small.capacity() < large.capacity() || small.capacity() == 4096);
    assert_eq!(small.len(), large.len());
    for k in 0..7000u64 {
        assert_eq!(small.get(k), large.get(k));
    }
}

#[test]
fn latest_write_wins_over_a_history() {
    let mut map: StampedeMap<u64, u64> = StampedeMap::new();
    map.set(1, 10);
    map.set(2, 20);
    map.delete(1);
    map.set(3, 30);
    map.set(2, 21);
    map.set(1, 11);
    map.delete(3);
    assert_eq!(map.get(1), Some(&11));
    assert_eq!(map.get(2), Some(&21));
    assert_eq!(map.get(3), None);
    assert_eq!(map.len(), 2);
}

#[test]
fn hashed_operations_use_the_full_hash() {
    let mut map: StampedeMap<u64, &str> = StampedeMap::new();
    // Same home slot and same tag, different full hashes.
    let a: u64 = 0x0000_0000_0000_0005;
    let b: u64 = 0x0100_0000_0000_0005;
    let c: u64 = 0x0200_0000_0000_0005;
    map.set_hashed(a, "a");
    map.set_hashed(b, "b");
    map.set_hashed(c, "c");
    assert_eq!(map.get_hashed(a), Some(&"a"));
    assert_eq!(map.get_hashed(b), Some(&"b"));
    assert_eq!(map.get_hashed(c), Some(&"c"));
    map.delete_hashed(a);
    assert_eq!(map.get_hashed(a), None);
    assert_eq!(map.get_hashed(b), Some(&"b"));
    assert_eq!(map.get_hashed(c), Some(&"c"));
    // Re-setting b after the tombstone in front of it replaces, not duplicates.
    map.set_hashed(b, "b2");
    assert_eq!(map.len(), 2);
    map.delete_hashed(b);
    assert_eq!(map.get_hashed(b), None);
    assert_eq!(map.get_hashed(c), Some(&"c"));
    assert_eq!(map.len(), 1);
}

#[test]
fn hashed_probe_wraps_past_the_last_slot() {
    let mut map: StampedeMap<u64, u64> = StampedeMap::new();
    // All start at slot 15, the last one of a 16-slot map.
    for i in 0..8u64 {
        map.set_hashed(15 + (i << 32), i);
    }
    assert_eq!(map.capacity(), 16);
    for i in 0..8u64 {
        assert_eq!(map.get_hashed(15 + (i << 32)), Some(&i));
    }
    map.delete_hashed(15);
    for i in 1..8u64 {
        assert_eq!(map.get_hashed(15 + (i << 32)), Some(&i));
    }
    assert_eq!(map.get_hashed(15), None);
    assert_eq!(map.get_hashed(14), None);
}

#[test]
fn hash_is_stable_within_a_map() {
    let map: StampedeMap<u64, u64> = StampedeMap::new();
    assert_eq!(map.hash(&17), map.hash(&17));
    let mut m2: StampedeMap<u64, u64> = StampedeMap::new();
    let h = m2.hash(&99);
    m2.set(99, 5);
    assert_eq!(m2.get_hashed(h), Some(&5));
}

#[test]
fn control_bytes_and_tags() {
    assert_eq!(EMPTY, 0b1111_1110);
    assert_eq!(DELETED, 0b1000_0000);
    assert_eq!(ctrl_hash(0), 0);
    assert_eq!(ctrl_hash(0x7f), 0x7f);
    assert_eq!(ctrl_hash(0x80), 0);
    assert_eq!(ctrl_hash(0xffff_ffff_ffff_ff85), 0x05);
    assert_eq!(bucket_size(), 16);
}
