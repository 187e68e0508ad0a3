use safe_ex::meta::{occupied, DELETED, VACANT};
use safe_ex::table::Table;

fn plain(key: &u64) -> u64 {
    *key
}

fn mirror_holds(table: &Table<u64, u64>) -> bool {
    let size = table.capacity();
    size == 0 || (0..32).all(|k| table.alloc.meta[size + k] == table.alloc.meta[k])
}

fn counts_hold(table: &Table<u64, u64>) -> bool {
    let size = table.capacity();
    let live = table.alloc.meta[..size].iter().filter(|&&t| t >= 0).count();
    let dead = table.alloc.meta[..size].iter().filter(|&&t| t == DELETED).count();
    let payloads = table.alloc.buckets.iter().filter(|b| b.is_some()).count();
    live == table.len() && dead == table.deleted && payloads == live
        && table.len() + table.deleted <= size
        && (size == 0 || size.is_power_of_two())
        && (0..size).all(|i| (table.alloc.meta[i] >= 0) == table.alloc.buckets[i].is_some())
}

fn each_entry_is_found_at_its_slot(table: &Table<u64, u64>) -> bool {
    (0..table.capacity()).all(|i| match &table.alloc.buckets[i] {
        Some((key, _)) => table.locate(plain(key), key) == Some(i),
        None => true,
    })
}

#[test]
fn every_entry_is_found_by_probing_from_its_hash() {
    let mut table: Table<u64, u64> = Table::new(64);
    for key in 0..50u64 {
        table.insert(key * 7, key * 7, key);
    }
    assert!(each_entry_is_found_at_its_slot(&table));
    for key in 0..20u64 {
        table.remove_entry(key * 7, &(key * 7));
    }
    assert!(each_entry_is_found_at_its_slot(&table));
    table.rehash(&plain);
    assert!(each_entry_is_found_at_its_slot(&table));
    table.resize(300, &plain);
    assert!(each_entry_is_found_at_its_slot(&table));
    assert!(counts_hold(&table) && mirror_holds(&table));
    assert_eq!(table.len(), 30);
}

#[test]
fn new_table_is_empty_and_sized() {
    let none: Table<u64, u64> = Table::new(0);
    assert_eq!(none.capacity(), 0);
    assert_eq!(none.len(), 0);
    assert_eq!(none.get(3, &3), None);
    assert_eq!(none.locate(3, &3), None);

    let some: Table<u64, u64> = Table::new(9);
    assert_eq!(some.capacity(), 16);
    assert_eq!(some.len(), 0);
    assert_eq!(some.deleted, 0);
    assert!(counts_hold(&some));
}

#[test]
fn insert_then_get_gives_the_value() {
    let mut table: Table<u64, u64> = Table::new(64);
    assert_eq!(table.insert(7, 7, 70), None);
    assert_eq!(table.len(), 1);
    assert_eq!(table.get(7, &7), Some(&70));
    assert_eq!(table.locate(7, &7), Some(7));
    assert_eq!(table.alloc.meta[7], occupied(7));
    assert_eq!(table.get(8, &8), None);
    assert!(counts_hold(&table) && mirror_holds(&table));
}

#[test]
fn insert_over_a_key_hands_back_the_old_value() {
    let mut table: Table<u64, u64> = Table::new(64);
    assert_eq!(table.insert(7, 7, 70), None);
    assert_eq!(table.insert(7, 7, 71), Some(70));
    assert_eq!(table.len(), 1);
    assert_eq!(table.get(7, &7), Some(&71));
    assert!(counts_hold(&table));
}

#[test]
fn remove_leaves_a_tombstone_and_nothing_to_find() {
    let mut table: Table<u64, u64> = Table::new(64);
    table.insert(7, 7, 70);
    assert_eq!(table.remove_entry(7, &7), Some((7, 70)));
    assert_eq!(table.len(), 0);
    assert_eq!(table.deleted, 1);
    assert_eq!(table.alloc.meta[7], DELETED);
    assert_eq!(table.alloc.meta[64 + 7], DELETED);
    assert_eq!(table.get(7, &7), None);
    assert_eq!(table.remove_entry(7, &7), None);
    assert_eq!(table.len(), 0);
    assert_eq!(table.deleted, 1);
    assert!(counts_hold(&table) && mirror_holds(&table));
}

#[test]
fn insert_then_remove_hands_back_what_was_put() {
    let mut table: Table<u64, u64> = Table::new(8);
    for key in 0..5u64 {
        assert_eq!(table.insert(key * 8, key, key + 100), None);
    }
    for key in 0..5u64 {
        assert_eq!(table.remove_entry(key * 8, &key), Some((key, key + 100)));
        assert_eq!(table.get(key * 8, &key), None);
    }
    assert_eq!(table.len(), 0);
    assert_eq!(table.deleted, 5);
    assert!(counts_hold(&table));
}

#[test]
fn colliding_keys_follow_the_probe_path() {
    let mut table: Table<u64, u64> = Table::new(64);
    for key in 0..40u64 {
        assert_eq!(table.insert(60, key, key * 2), None);
    }
    for slot in 0..40usize {
        assert!(table.alloc.buckets[(60 + slot) % 64].is_some());
    }
    for key in 0..40u64 {
        assert_eq!(table.get(60, &key), Some(&(key * 2)));
    }
    assert_eq!(table.get(60, &40), None);
    assert_eq!(table.remove_entry(60, &3), Some((3, 6)));
    assert_eq!(table.get(60, &39), Some(&78));
    assert_eq!(table.insert(60, 77, 1), None);
    assert_eq!(table.locate(60, &77), Some(63));
    assert_eq!(table.deleted, 0);
    assert!(counts_hold(&table) && mirror_holds(&table));
}

#[test]
fn claim_takes_the_first_free_slot_and_counts_tombstones() {
    let mut table: Table<u64, u64> = Table::new(8);
    assert_eq!(table.claim(2, 1, 10), 2);
    assert_eq!(table.claim(2, 2, 20), 3);
    assert_eq!(table.claim(10, 3, 30), 4);
    assert_eq!(table.remove_at(3), Some((2, 20)));
    assert_eq!(table.deleted, 1);
    assert_eq!(table.claim(2, 4, 40), 3);
    assert_eq!(table.deleted, 0);
    assert_eq!(table.len(), 3);
    assert_eq!(table.claim(7, 5, 50), 7);
    assert_eq!(table.claim(7, 6, 60), 0);
    assert_eq!(table.value_at(0), Some(&60));
    assert_eq!(table.value_at(1), None);
    assert!(counts_hold(&table) && mirror_holds(&table));
}

#[test]
fn get_mut_writes_through() {
    let mut table: Table<u64, u64> = Table::new(16);
    table.insert(5, 5, 50);
    *table.get_mut(5, &5).unwrap() += 1;
    assert_eq!(table.get(5, &5), Some(&51));
    assert!(table.get_mut(6, &6).is_none());
    *table.value_at_mut(5).unwrap() = 9;
    assert_eq!(table.get(5, &5), Some(&9));
}

#[test]
fn a_hash_that_changes_loses_the_key() {
    let mut table: Table<u64, u64> = Table::new(64);
    table.insert(5, 1, 10);
    assert_eq!(table.get(5 + 128, &1), Some(&10));
    assert_eq!(table.get(6, &1), None);
    assert_eq!(table.insert(6, 1, 11), None);
    assert_eq!(table.len(), 2);
    assert_eq!(table.get(5, &1), Some(&10));
    assert_eq!(table.get(6, &1), Some(&11));
    assert!(counts_hold(&table));
}

#[test]
fn capacity_one_holds_one_entry() {
    let mut table: Table<u64, u64> = Table::new(1);
    assert_eq!(table.capacity(), 1);
    assert_eq!(table.insert(9, 9, 90), None);
    assert!(table.alloc.meta.iter().all(|&t| t == occupied(9)));
    assert_eq!(table.alloc.meta.len(), 33);
    assert_eq!(table.get(9, &9), Some(&90));
    assert_eq!(table.get(9, &8), None);
    assert_eq!(table.get(9 + 128, &8), None);
    assert_eq!(table.insert(9, 9, 91), Some(90));
    assert_eq!(table.remove_entry(9, &9), Some((9, 91)));
    assert_eq!(table.get(9, &9), None);
    assert_eq!(table.insert(9, 9, 92), None);
    assert_eq!(table.deleted, 0);
    assert!(counts_hold(&table) && mirror_holds(&table));
}

#[test]
fn capacity_of_one_group_can_be_filled() {
    let mut table: Table<u64, u64> = Table::new(32);
    for key in 0..32u64 {
        assert_eq!(table.insert(20, key, key), None);
    }
    assert_eq!(table.len(), 32);
    for key in 0..32u64 {
        assert_eq!(table.get(20, &key), Some(&key));
        assert_eq!(table.locate(20, &key), Some(((20 + key) % 32) as usize));
    }
    assert_eq!(table.get(20, &32), None);
    assert!(counts_hold(&table) && mirror_holds(&table));
}

#[test]
fn resize_keeps_every_entry_and_drops_tombstones() {
    let mut table: Table<u64, u64> = Table::new(16);
    for key in 0..10u64 {
        table.insert(key, key, !key);
    }
    table.remove_entry(3, &3);
    table.remove_entry(4, &4);
    assert_eq!(table.deleted, 2);
    table.resize(100, &plain);
    assert_eq!(table.capacity(), 128);
    assert_eq!(table.len(), 8);
    assert_eq!(table.deleted, 0);
    for key in 0..10u64 {
        let expected = if key == 3 || key == 4 { None } else { Some(!key) };
        assert_eq!(table.get(key, &key).copied(), expected);
    }
    table.resize(8, &plain);
    assert_eq!(table.capacity(), 8);
    assert_eq!(table.len(), 8);
    table.resize(9, &plain);
    assert_eq!(table.capacity(), 16);
    assert!(counts_hold(&table) && mirror_holds(&table));
}

#[test]
fn auto_reserve_grows_past_seven_eighths() {
    let mut table: Table<u64, u64> = Table::new(16);
    for key in 0..14u64 {
        table.auto_reserve(&plain);
        assert_eq!(table.capacity(), 16);
        table.insert(key, key, key);
    }
    table.auto_reserve(&plain);
    assert_eq!(table.capacity(), 32);
    assert_eq!(table.len(), 14);
    for key in 0..14u64 {
        assert_eq!(table.get(key, &key), Some(&key));
    }

    let mut none: Table<u64, u64> = Table::new(0);
    none.auto_reserve(&plain);
    assert_eq!(none.capacity(), 8);

    let mut one: Table<u64, u64> = Table::new(1);
    one.auto_reserve(&plain);
    assert_eq!(one.capacity(), 2);
}

#[test]
fn auto_reserve_reclaims_tombstones_at_the_same_capacity() {
    let mut table: Table<u64, u64> = Table::new(16);
    for key in 0..3u64 {
        table.insert(key, key, key);
    }
    for round in 0..11u64 {
        table.insert(5 + round, 100 + round, 0);
        table.remove_entry(5 + round, &(100 + round));
    }
    assert_eq!(table.len(), 3);
    assert_eq!(table.deleted, 11);
    table.auto_reserve(&plain);
    assert_eq!(table.capacity(), 16);
    assert_eq!(table.deleted, 0);
    assert_eq!(table.len(), 3);
    for key in 0..3u64 {
        assert_eq!(table.get(key, &key), Some(&key));
    }
    assert!(counts_hold(&table));
}

#[test]
fn rehash_clears_tombstones_in_place() {
    let mut table: Table<u64, u64> = Table::new(32);
    for key in 0..12u64 {
        table.insert(key, key, key + 1);
    }
    for key in 0..6u64 {
        table.remove_entry(key, &key);
    }
    assert_eq!(table.deleted, 6);
    table.rehash(&plain);
    assert_eq!(table.capacity(), 32);
    assert_eq!(table.deleted, 0);
    assert_eq!(table.len(), 6);
    assert!(table.alloc.meta[..32].iter().all(|&t| t != DELETED));
    for key in 6..12u64 {
        assert_eq!(table.get(key, &key), Some(&(key + 1)));
    }
    for key in 0..6u64 {
        assert_eq!(table.get(key, &key), None);
    }
    assert!(counts_hold(&table) && mirror_holds(&table));
}

#[test]
fn auto_shrink_halves_a_sparse_table() {
    let mut table: Table<u64, u64> = Table::new(64);
    for key in 0..8u64 {
        table.insert(key, key, key);
    }
    table.auto_shrink(&plain);
    assert_eq!(table.capacity(), 64);
    table.remove_entry(0, &0);
    table.auto_shrink(&plain);
    assert_eq!(table.capacity(), 32);
    assert_eq!(table.len(), 7);
    assert_eq!(table.deleted, 0);
    for key in 1..8u64 {
        assert_eq!(table.get(key, &key), Some(&key));
    }
}

#[test]
fn reserve_is_idle_where_there_is_room() {
    let mut table: Table<u64, u64> = Table::new(16);
    for key in 0..4u64 {
        table.insert(key, key, key);
    }
    table.remove_entry(0, &0);
    let tags = table.alloc.meta.clone();
    table.reserve(13, &plain);
    assert_eq!(table.capacity(), 16);
    assert_eq!(table.deleted, 1);
    assert_eq!(table.alloc.meta, tags);
    table.reserve(14, &plain);
    assert_eq!(table.capacity(), 32);
    assert_eq!(table.deleted, 0);
    assert_eq!(table.len(), 3);
    table.reserve(30, &plain);
    assert_eq!(table.capacity(), 64);
}

#[test]
fn shrink_to_fit_twice_is_shrink_to_fit_once() {
    let mut table: Table<u64, u64> = Table::new(128);
    for key in 0..5u64 {
        table.insert(key, key, key);
    }
    table.shrink_to_fit(&plain);
    assert_eq!(table.capacity(), 8);
    assert_eq!(table.len(), 5);
    let tags = table.alloc.meta.clone();
    table.shrink_to_fit(&plain);
    assert_eq!(table.capacity(), 8);
    assert_eq!(table.len(), 5);
    assert_eq!(table.alloc.meta, tags);
    for key in 0..5u64 {
        assert_eq!(table.get(key, &key), Some(&key));
    }
    let mut none: Table<u64, u64> = Table::new(0);
    none.shrink_to_fit(&plain);
    assert_eq!(none.capacity(), 1);
}

#[test]
fn clear_twice_is_clear_once() {
    let mut table: Table<u64, u64> = Table::new(16);
    for key in 0..9u64 {
        table.insert(key, key, key);
    }
    table.remove_entry(2, &2);
    table.clear();
    assert_eq!(table.len(), 0);
    assert_eq!(table.deleted, 0);
    assert_eq!(table.capacity(), 16);
    assert!(table.alloc.meta.iter().all(|&t| t == VACANT));
    assert!(table.alloc.buckets.iter().all(|b| b.is_none()));
    let tags = table.alloc.meta.clone();
    table.clear();
    assert_eq!(table.alloc.meta, tags);
    assert_eq!(table.len(), 0);
    assert_eq!(table.capacity(), 16);
    assert_eq!(table.get(1, &1), None);
}

#[test]
fn drain_hands_out_the_entries_in_slot_order() {
    let mut table: Table<u64, u64> = Table::new(64);
    for key in [40u64, 3, 17, 63] {
        table.insert(key, key, key + 1);
    }
    table.remove_entry(17, &17);
    let mut drain = table.drain();
    assert_eq!(table.len(), 0);
    assert_eq!(table.deleted, 0);
    assert_eq!(table.capacity(), 64);
    assert!(table.alloc.meta.iter().all(|&t| t == VACANT));
    assert_eq!(drain.len(), 3);
    assert_eq!(drain.size_hint(), (3, Some(3)));
    assert_eq!(drain.next(), Some((3, 4)));
    assert_eq!(drain.len(), 2);
    assert_eq!(drain.next(), Some((40, 41)));
    assert_eq!(drain.next(), Some((63, 64)));
    assert_eq!(drain.len(), 0);
    assert_eq!(drain.next(), None);
    assert_eq!(drain.next(), None);
    assert_eq!(table.get(3, &3), None);
}

#[test]
fn drain_of_small_tables() {
    let mut none: Table<u64, u64> = Table::new(0);
    let mut drain = none.drain();
    assert_eq!(drain.next(), None);
    assert_eq!(none.capacity(), 0);

    let mut two: Table<u64, u64> = Table::new(2);
    two.insert(1, 1, 10);
    let mut drain = two.drain();
    assert_eq!(drain.next(), Some((1, 10)));
    assert_eq!(drain.next(), None);
    assert_eq!(two.capacity(), 2);
}
