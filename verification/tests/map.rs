use std::cell::Cell;
use std::hash::{BuildHasher, Hasher};

use safe_ex::Drain;
use safe_ex::HashMap;

#[derive(Clone, Default)]
struct Fixed;

struct FixedHasher;

impl Hasher for FixedHasher {
    fn finish(&self) -> u64 {
        0x2a
    }

    fn write(&mut self, _bytes: &[u8]) {}
}

impl BuildHasher for Fixed {
    type Hasher = FixedHasher;

    fn build_hasher(&self) -> FixedHasher {
        FixedHasher
    }
}

#[derive(Clone, Default)]
struct Plain;

struct PlainHasher(u64);

impl Hasher for PlainHasher {
    fn finish(&self) -> u64 {
        self.0
    }

    fn write(&mut self, bytes: &[u8]) {
        for &b in bytes {
            self.0 = (self.0 << 8) | b as u64;
        }
    }

    fn write_u64(&mut self, n: u64) {
        self.0 = n;
    }
}

impl BuildHasher for Plain {
    type Hasher = PlainHasher;

    fn build_hasher(&self) -> PlainHasher {
        PlainHasher(0)
    }
}

struct Unsteady {
    calls: Cell<u64>,
}

impl BuildHasher for Unsteady {
    type Hasher = FixedSeed;

    fn build_hasher(&self) -> FixedSeed {
        let n = self.calls.get();
        self.calls.set(n + 1);
        FixedSeed(n.wrapping_mul(0x9e37_79b9_7f4a_7c15))
    }
}

struct FixedSeed(u64);

impl Hasher for FixedSeed {
    fn finish(&self) -> u64 {
        self.0
    }

    fn write(&mut self, _bytes: &[u8]) {}
}

#[test]
fn an_unsteady_hash_builder_breaks_no_invariant() {
    let mut map: HashMap<u64, u64, Unsteady> =
        HashMap::with_hasher(Unsteady { calls: Cell::new(0) });
    for key in 0..60 {
        let prior = map.insert(key, key + 1000);
        assert!(prior.is_none() || prior == Some(key + 1000));
    }
    for round in 0..3 {
        for key in 0..60 {
            if let Some(value) = map.get(&key) {
                assert_eq!(*value, key + 1000);
            }
            if round == 1 {
                if let Some((k, v)) = map.remove_entry(&key) {
                    assert_eq!((k, v), (key, key + 1000));
                }
            }
            if let Some(value) = map.get_mut(&key) {
                assert_eq!(*value, key + 1000);
            }
            let table = &map.table;
            let size = table.capacity();
            let live = table.alloc.meta[..size].iter().filter(|&&t| t >= 0).count();
            let dead = table.alloc.meta[..size].iter().filter(|&&t| t == -1).count();
            assert_eq!(live, map.len());
            assert_eq!(dead, table.deleted);
            assert!(live + dead <= size);
            assert!(size == 0 || size.is_power_of_two());
            assert!((0..size).all(|i| (table.alloc.meta[i] >= 0)
                == table.alloc.buckets[i].is_some()));
            assert!(size == 0 || (0..32).all(|k| table.alloc.meta[size + k]
                == table.alloc.meta[k]));
        }
    }
    let mut drain = map.drain();
    while let Some((k, v)) = drain.next() {
        assert_eq!(v, k + 1000);
    }
    assert!(map.is_empty());
}

#[test]
fn entries_are_filed_where_their_hash_says() {
    let mut map: HashMap<u64, u64, Plain> = HashMap::with_capacity_and_hasher(64, Plain);
    map.insert(37, 1);
    map.insert(69, 2);
    map.insert(64 + 37, 3);
    assert_eq!(map.table.alloc.buckets[37], Some((37, 1)));
    assert_eq!(map.table.alloc.meta[37], safe_ex::meta::occupied(37));
    assert_eq!(map.table.alloc.buckets[5], Some((69, 2)));
    assert_eq!(map.table.alloc.meta[5], 69);
    assert_eq!(map.table.alloc.meta[64 + 5], 69);
    assert_eq!(map.table.alloc.buckets[38], Some((101, 3)));
    assert_eq!(map.table.alloc.meta[38], 101);
    assert_eq!(map.len(), 3);

    let mut fixed: HashMap<u64, u64, Fixed> = HashMap::with_capacity_and_hasher(64, Fixed);
    fixed.insert(1, 1);
    fixed.insert(2, 2);
    assert_eq!(fixed.table.alloc.buckets[0x2a], Some((1, 1)));
    assert_eq!(fixed.table.alloc.buckets[0x2b], Some((2, 2)));
    assert_eq!(fixed.table.alloc.meta[0x2a], 0x2a);
}

#[test]
fn fresh_map_allocates_nothing_and_finds_nothing() {
    let mut map: HashMap<u64, u64> = HashMap::new();
    assert_eq!(map.capacity(), 0);
    assert_eq!(map.len(), 0);
    assert!(map.is_empty());
    assert_eq!(map.get(&1), None);
    assert!(map.get_mut(&1).is_none());
    assert_eq!(map.remove(&1), None);
    assert_eq!(map.remove_entry(&1), None);
    let mut drain: Drain<u64, u64> = map.drain();
    assert_eq!(drain.next(), None);
    assert_eq!(map.capacity(), 0);
    assert_eq!(map.table.alloc.meta.len(), 0);
    assert_eq!(map.table.alloc.buckets.len(), 0);
}

#[test]
fn capacities_are_powers_of_two() {
    let map: HashMap<u64, u64> = HashMap::with_capacity(0);
    assert_eq!(map.capacity(), 0);
    let map: HashMap<u64, u64> = HashMap::with_capacity(1);
    assert_eq!(map.capacity(), 1);
    let map: HashMap<u64, u64> = HashMap::with_capacity(3);
    assert_eq!(map.capacity(), 4);
    let map: HashMap<u64, u64> = HashMap::with_capacity(600);
    assert_eq!(map.capacity(), 1024);
    let map: HashMap<u64, u64, Plain> = HashMap::with_hasher(Plain);
    assert_eq!(map.capacity(), 0);
    let map: HashMap<u64, u64, Plain> = HashMap::with_capacity_and_hasher(33, Plain);
    assert_eq!(map.capacity(), 64);
    assert_eq!(map.len(), 0);
}

#[test]
fn growth_comes_past_seven_eighths() {
    let mut map: HashMap<u64, u64, Plain> = HashMap::with_capacity_and_hasher(16, Plain);
    for key in 0..14 {
        assert_eq!(map.insert(key, !key), None);
        assert_eq!(map.capacity(), 16);
    }
    assert_eq!(map.insert(14, !14), None);
    assert_eq!(map.capacity(), 32);
    assert_eq!(map.len(), 15);
    for key in 0..15 {
        assert_eq!(map.get(&key), Some(&!key));
    }
}

#[test]
fn first_insert_makes_eight_slots() {
    let mut map: HashMap<u64, u64, Plain> = HashMap::with_hasher(Plain);
    assert_eq!(map.insert(1, 2), None);
    assert_eq!(map.capacity(), 8);
    assert_eq!(map.get(&1), Some(&2));
    let mut one: HashMap<u64, u64, Plain> = HashMap::with_capacity_and_hasher(1, Plain);
    assert_eq!(one.insert(1, 2), None);
    assert_eq!(one.capacity(), 2);
    assert_eq!(one.insert(2, 3), None);
    assert_eq!(one.capacity(), 4);
    assert_eq!(one.get(&1), Some(&2));
    assert_eq!(one.get(&2), Some(&3));
}

#[test]
fn churn_on_one_key_never_blocks_inserts() {
    let mut map: HashMap<u64, u64, Plain> = HashMap::with_capacity_and_hasher(16, Plain);
    for key in 0..3 {
        map.insert(key, key);
    }
    for round in 0..64 {
        assert_eq!(map.insert(100, round), None);
        assert_eq!(map.remove(&100), Some(round));
        assert!(map.len() + map.table.deleted <= map.capacity());
        assert_eq!(map.capacity(), 16);
    }
    assert!(map.table.deleted <= 11);
    assert_eq!(map.insert(100, 1), None);
    assert_eq!(map.get(&100), Some(&1));
    for key in 0..3 {
        assert_eq!(map.get(&key), Some(&key));
    }

    let mut small: HashMap<u64, u64, Plain> = HashMap::with_capacity_and_hasher(8, Plain);
    for round in 0..8 {
        assert_eq!(small.insert(7, round), None);
        assert_eq!(small.remove(&7), Some(round));
    }
    assert_eq!(small.insert(7, 70), None);
    assert_eq!(small.get(&7), Some(&70));
    assert_eq!(small.len(), 1);
}

#[test]
fn removal_shrinks_a_sparse_map() {
    let mut map: HashMap<u64, u64, Plain> = HashMap::with_capacity_and_hasher(64, Plain);
    for key in 0..9 {
        map.insert(key, key);
    }
    assert_eq!(map.remove(&0), Some(0));
    assert_eq!(map.capacity(), 64);
    assert_eq!(map.remove(&1), Some(1));
    assert_eq!(map.capacity(), 32);
    assert_eq!(map.table.deleted, 0);
    assert_eq!(map.remove(&99), None);
    assert_eq!(map.capacity(), 32);
    for key in 2..9 {
        assert_eq!(map.get(&key), Some(&key));
    }
}

#[test]
fn every_key_on_one_hash_still_works() {
    let mut map: HashMap<u64, u64, Fixed> = HashMap::with_hasher(Fixed);
    for key in 0..100 {
        assert_eq!(map.insert(key, key * 3), None);
    }
    assert_eq!(map.len(), 100);
    for key in 0..100 {
        assert_eq!(map.get(&key), Some(&(key * 3)));
    }
    for key in (0..100).step_by(2) {
        assert_eq!(map.remove_entry(&key), Some((key, key * 3)));
    }
    assert_eq!(map.len(), 50);
    for key in 0..100 {
        let expected = if key % 2 == 0 { None } else { Some(key * 3) };
        assert_eq!(map.get(&key).copied(), expected);
    }
    for key in 0..100 {
        map.insert(key, key);
    }
    assert_eq!(map.len(), 100);
    for key in 0..100 {
        assert_eq!(map.get(&key), Some(&key));
    }
}

#[test]
fn lookups_take_the_borrowed_form() {
    let mut map: HashMap<String, usize> = HashMap::new();
    for word in ["a", "bb", "ccc", "dddd"] {
        assert_eq!(map.insert(word.to_string(), word.len()), None);
    }
    assert_eq!(map.get("ccc"), Some(&3));
    assert_eq!(map.get("e"), None);
    *map.get_mut("bb").unwrap() = 20;
    assert_eq!(map.remove("bb"), Some(20));
    assert_eq!(map.remove_entry("a"), Some(("a".to_string(), 1)));
    assert_eq!(map.len(), 2);
    assert_eq!(map.insert("ccc".to_string(), 30), Some(3));
}

#[test]
fn reserve_covers_what_is_asked() {
    let mut map: HashMap<u64, u64, Plain> = HashMap::with_capacity_and_hasher(16, Plain);
    for key in 0..10 {
        map.insert(key, key);
    }
    map.remove(&0);
    map.reserve(7);
    assert_eq!(map.capacity(), 16);
    assert_eq!(map.table.deleted, 1);
    map.reserve(8);
    assert_eq!(map.capacity(), 32);
    assert_eq!(map.len(), 9);
    assert_eq!(map.table.deleted, 0);
    for key in 1..10 {
        assert_eq!(map.get(&key), Some(&key));
    }
    let mut none: HashMap<u64, u64, Plain> = HashMap::with_hasher(Plain);
    none.reserve(0);
    assert_eq!(none.capacity(), 0);
    none.reserve(1);
    assert_eq!(none.capacity(), 1);
}

#[test]
fn shrink_to_fit_settles() {
    let mut map: HashMap<u64, u64, Plain> = HashMap::with_capacity_and_hasher(256, Plain);
    for key in 0..33 {
        map.insert(key, key);
    }
    map.shrink_to_fit();
    assert_eq!(map.capacity(), 64);
    assert_eq!(map.len(), 33);
    map.shrink_to_fit();
    assert_eq!(map.capacity(), 64);
    assert_eq!(map.len(), 33);
    for key in 0..33 {
        assert_eq!(map.get(&key), Some(&key));
    }
}

#[test]
fn resize_moves_every_entry() {
    let mut map: HashMap<u64, u64, Plain> = HashMap::with_hasher(Plain);
    for key in 0..20 {
        map.insert(key, key + 1);
    }
    map.resize(500);
    assert_eq!(map.capacity(), 512);
    assert_eq!(map.len(), 20);
    map.resize(20);
    assert_eq!(map.capacity(), 32);
    for key in 0..20 {
        assert_eq!(map.get(&key), Some(&(key + 1)));
    }
}

#[test]
fn clear_keeps_the_capacity() {
    let mut map: HashMap<u64, u64> = HashMap::new();
    for key in 0..50 {
        map.insert(key, key);
    }
    let capacity = map.capacity();
    map.clear();
    map.clear();
    assert_eq!(map.capacity(), capacity);
    assert!(map.is_empty());
    assert_eq!(map.get(&4), None);
    assert_eq!(map.insert(4, 5), None);
    assert_eq!(map.get(&4), Some(&5));
}

#[test]
fn drain() {
    let mut map: HashMap<u64, u64> = HashMap::new();

    for i in 0..100 {
        map.insert(i, !i);
    }

    let mut returned = [false; 100];
    let capacity = map.capacity();

    let mut drain = map.drain();
    assert_eq!(drain.len(), 100);
    while let Some((k, v)) = drain.next() {
        assert_eq!(returned[k as usize], false);
        returned[k as usize] = true;

        assert_eq!(v, !k);
    }
    assert_eq!(drain.len(), 0);

    assert_eq!(returned, [true; 100]);
    assert_eq!(map.len(), 0);
    assert_eq!(map.capacity(), capacity);
    assert_eq!(map.get(&0), None);
}

#[test]
fn a_drain_dropped_early_leaves_the_map_empty() {
    let mut map: HashMap<u64, String, Plain> = HashMap::with_hasher(Plain);
    for key in 0..10 {
        map.insert(key, key.to_string());
    }
    {
        let mut drain = map.drain();
        assert!(drain.next().is_some());
    }
    assert!(map.is_empty());
    assert_eq!(map.get(&3), None);
    assert_eq!(map.insert(3, "three".to_string()), None);
    assert_eq!(map.len(), 1);
}
