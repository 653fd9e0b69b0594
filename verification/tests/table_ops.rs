//! Behavioural tests for the hash table: insertion, lookup, removal,
//! growth and the concrete mixed scenario.

use agb_hashmap::table::HashTable;

#[test]
fn empty_table_has_nothing() {
    let t: HashTable<i32> = HashTable::new();
    assert_eq!(t.len(), 0);
    assert!(t.is_empty());
    assert_eq!(t.get(0), None);
    assert_eq!(t.get(u32::MAX), None);
    assert!(!t.contains_key(42));
    assert_eq!(t.capacity(), 8);
}

#[test]
fn insert_then_get_round_trip() {
    let mut t: HashTable<i32> = HashTable::new();
    assert_eq!(t.insert(1, 10), None);
    assert_eq!(t.insert(2, 20), None);
    assert_eq!(t.insert(3, 30), None);
    assert_eq!(t.get(1), Some(&10));
    assert_eq!(t.get(2), Some(&20));
    assert_eq!(t.get(3), Some(&30));
    assert_eq!(t.get(4), None);
}

#[test]
fn last_insert_wins() {
    let mut t: HashTable<String> = HashTable::new();
    assert_eq!(t.insert(7, String::from("first")), None);
    assert_eq!(
        t.insert(7, String::from("second")),
        Some(String::from("first"))
    );
    assert_eq!(
        t.insert(7, String::from("third")),
        Some(String::from("second"))
    );
    assert_eq!(t.get(7), Some(&String::from("third")));
    assert_eq!(t.len(), 1);
}

#[test]
fn removal_completeness() {
    let mut t: HashTable<i32> = HashTable::new();
    for k in 0..10u32 {
        t.insert(k, k as i32 * 2);
    }
    assert_eq!(t.remove(4), Some(8));
    assert!(!t.contains_key(4));
    assert_eq!(t.get(4), None);
    assert_eq!(t.remove(4), None);
    for k in 0..10u32 {
        if k != 4 {
            assert_eq!(t.get(k), Some(&(k as i32 * 2)));
        }
    }
}

#[test]
fn len_tracks_inserts_and_removes() {
    let mut t: HashTable<u8> = HashTable::new();
    assert_eq!(t.len(), 0);
    t.insert(1, 1);
    assert_eq!(t.len(), 1);
    t.insert(2, 2);
    assert_eq!(t.len(), 2);
    // inserting an existing key leaves the count unchanged
    t.insert(2, 99);
    assert_eq!(t.len(), 2);
    // removing a present key decrements it
    t.remove(1);
    assert_eq!(t.len(), 1);
    // removing an absent key leaves it unchanged
    t.remove(1);
    assert_eq!(t.len(), 1);
    assert!(!t.is_empty());
    t.remove(2);
    assert!(t.is_empty());
}

#[test]
fn growth_preserves_contents() {
    let mut t: HashTable<u64> = HashTable::with_capacity(4);
    assert_eq!(t.capacity(), 4);
    for k in 0..200u32 {
        assert_eq!(t.insert(k, (k as u64) * 3 + 1), None);
    }
    assert!(t.capacity() >= 200);
    assert_eq!(t.len(), 200);
    for k in 0..200u32 {
        assert_eq!(t.get(k), Some(&((k as u64) * 3 + 1)));
    }
    assert_eq!(t.get(200), None);
}

#[test]
fn scenario_capacity_four_with_growth() {
    // keys A, B, C, D with a table of initial capacity 4; the load
    // threshold forces growth at the third entry
    let a = 'A' as u32;
    let b = 'B' as u32;
    let c = 'C' as u32;
    let d = 'D' as u32;
    let mut t: HashTable<i32> = HashTable::with_capacity(4);
    assert_eq!(t.capacity(), 4);
    t.insert(a, 1);
    t.insert(b, 2);
    t.insert(c, 3);
    // the third insertion crossed the load threshold
    assert_eq!(t.capacity(), 8);
    assert_eq!(t.get(a), Some(&1));
    assert_eq!(t.get(b), Some(&2));
    assert_eq!(t.get(c), Some(&3));
    assert_eq!(t.remove(b), Some(2));
    assert_eq!(t.get(b), None);
    assert_eq!(t.get(a), Some(&1));
    assert_eq!(t.get(c), Some(&3));
    t.insert(d, 4);
    assert_eq!(t.get(a), Some(&1));
    assert_eq!(t.get(b), None);
    assert_eq!(t.get(c), Some(&3));
    assert_eq!(t.get(d), Some(&4));
    assert_eq!(t.len(), 3);
}

#[test]
fn capacity_rounding() {
    assert_eq!(HashTable::<i32>::with_capacity(0).capacity(), 4);
    assert_eq!(HashTable::<i32>::with_capacity(4).capacity(), 4);
    assert_eq!(HashTable::<i32>::with_capacity(5).capacity(), 8);
    assert_eq!(HashTable::<i32>::with_capacity(8).capacity(), 8);
    assert_eq!(HashTable::<i32>::with_capacity(9).capacity(), 16);
    assert_eq!(HashTable::<i32>::with_capacity(100).capacity(), 128);
}

#[test]
fn seeded_tables_behave_alike() {
    let mut t: HashTable<u32> = HashTable::with_seed(0xdead_beef);
    for k in 0..50u32 {
        t.insert(k * 17, k);
    }
    for k in 0..50u32 {
        assert_eq!(t.get(k * 17), Some(&k));
    }
    let mut u: HashTable<u32> = HashTable::with_capacity_and_seed(32, 7);
    u.insert(3, 3);
    assert_eq!(u.get(3), Some(&3));
    assert_eq!(u.capacity(), 32);
}

#[test]
fn clear_empties_but_keeps_capacity() {
    let mut t: HashTable<i32> = HashTable::with_capacity(4);
    for k in 0..20u32 {
        t.insert(k, k as i32);
    }
    let cap = t.capacity();
    t.clear();
    assert_eq!(t.len(), 0);
    assert_eq!(t.capacity(), cap);
    for k in 0..20u32 {
        assert_eq!(t.get(k), None);
    }
    // the table is fully usable again
    t.insert(5, 55);
    assert_eq!(t.get(5), Some(&55));
    assert_eq!(t.len(), 1);
}

#[test]
fn keys_lists_every_present_key_once() {
    let mut t: HashTable<i32> = HashTable::new();
    let expected = [3u32, 1000, 77, 12, 500];
    for (n, k) in expected.iter().enumerate() {
        t.insert(*k, n as i32);
    }
    t.remove(77);
    let mut keys = t.keys();
    keys.sort_unstable();
    let mut want: Vec<u32> = expected.iter().copied().filter(|k| *k != 77).collect();
    want.sort_unstable();
    assert_eq!(keys, want);
}

#[test]
fn entry_at_walks_every_entry_once() {
    let mut t: HashTable<i32> = HashTable::new();
    for k in 0..30u32 {
        t.insert(k, -(k as i32));
    }
    let mut seen: Vec<(u32, i32)> = Vec::new();
    for i in 0..t.capacity() {
        if let Some((k, v)) = t.entry_at(i) {
            seen.push((*k, *v));
        }
    }
    seen.sort_unstable();
    let want: Vec<(u32, i32)> = (0..30u32).map(|k| (k, -(k as i32))).collect();
    assert_eq!(seen, want);
    assert_eq!(t.entry_at(t.capacity()), None);
}

#[test]
fn heavy_mixed_workload() {
    let mut t: HashTable<u64> = HashTable::with_capacity(4);
    for k in 0..500u32 {
        assert_eq!(t.insert(k, k as u64), None);
    }
    // remove every even key
    for k in (0..500u32).step_by(2) {
        assert_eq!(t.remove(k), Some(k as u64));
    }
    assert_eq!(t.len(), 250);
    for k in 0..500u32 {
        if k % 2 == 0 {
            assert_eq!(t.get(k), None);
        } else {
            assert_eq!(t.get(k), Some(&(k as u64)));
        }
    }
    // reinsert the evens with new values
    for k in (0..500u32).step_by(2) {
        assert_eq!(t.insert(k, (k as u64) + 1000), None);
    }
    assert_eq!(t.len(), 500);
    for k in (0..500u32).step_by(2) {
        assert_eq!(t.get(k), Some(&((k as u64) + 1000)));
    }
}

/// The same xor-shift mixing the table uses (seed 0), reproduced here to
/// pick keys that collide in a small bucket array.
fn mix(key: u32) -> u32 {
    let x0 = key;
    let x1 = x0 ^ (x0 << 13);
    let x2 = x1 ^ (x1 >> 17);
    x2 ^ (x2 << 5)
}

#[test]
fn colliding_keys_survive_middle_removal() {
    // find four distinct keys that share one ideal bucket at capacity 16
    let mut found: Vec<u32> = Vec::new();
    let mut k: u32 = 0;
    while found.len() < 4 {
        if mix(k) % 16 == 3 {
            found.push(k);
        }
        k += 1;
    }
    let mut t: HashTable<u32> = HashTable::with_capacity(16);
    for (n, key) in found.iter().enumerate() {
        assert_eq!(t.insert(*key, n as u32), None);
    }
    assert_eq!(t.capacity(), 16);
    // removing from the middle of the probe chain shifts the tail back
    assert_eq!(t.remove(found[1]), Some(1));
    assert_eq!(t.get(found[0]), Some(&0));
    assert_eq!(t.get(found[1]), None);
    assert_eq!(t.get(found[2]), Some(&2));
    assert_eq!(t.get(found[3]), Some(&3));
    assert_eq!(t.remove(found[0]), Some(0));
    assert_eq!(t.get(found[2]), Some(&2));
    assert_eq!(t.get(found[3]), Some(&3));
    assert_eq!(t.len(), 2);
}
