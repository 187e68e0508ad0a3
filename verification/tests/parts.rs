use safe_ex::controller::fallback::Vacancy as ScalarVacancy;
use safe_ex::controller::{Controller, Count, Either as EitherController, Never, Vacancy};
use safe_ex::find::{FindRef, MetaMut};
use safe_ex::finder::fallback::{Match as ScalarMatch, Occupied as ScalarOccupied};
use safe_ex::finder::{Any, Either, Finder, Insertable, Match, Occupied};
use safe_ex::hint::{likely, unlikely};
use safe_ex::mask::{low_lanes, lowest, with, without};
use safe_ex::meta::{is_occupied, occupied, Meta, DELETED, OCCUPIED, VACANT};
use safe_ex::power::{next_power_of_two, MAX_CAPACITY};
use safe_ex::storage::Alloc;

fn sample_group() -> [i8; 32] {
    let mut group = [VACANT; 32];
    group[0] = 5;
    group[3] = DELETED;
    group[7] = 5;
    group[8] = 0;
    group[31] = 127;
    group
}

#[test]
fn tag_bytes_have_their_encodings() {
    assert_eq!(OCCUPIED, 0);
    assert_eq!(VACANT as u8, 0x80);
    assert_eq!(DELETED as u8, 0xff);
}

#[test]
fn occupied_keeps_the_low_seven_bits() {
    assert_eq!(occupied(0), 0);
    assert_eq!(occupied(0x7f), 0x7f);
    assert_eq!(occupied(0x80), 0);
    assert_eq!(occupied(0x1234_5678_9abc_deff), 0x7f);
    assert_eq!(occupied(u64::MAX), 0x7f);
    assert_eq!(occupied(0x1f5), 0x75);
}

#[test]
fn is_occupied_reads_the_high_bit() {
    assert!(is_occupied(0));
    assert!(is_occupied(127));
    assert!(!is_occupied(VACANT));
    assert!(!is_occupied(DELETED));
    assert!(!is_occupied(-2));
}

#[test]
fn typed_tags_agree_with_raw_tags() {
    for hash in [0u64, 1, 0x7f, 0x80, 0x1f5, u64::MAX] {
        let meta = Meta::occupied(safe_ex::meta::Hash::new(hash));
        assert!(meta.is_occupied());
        assert_eq!(meta.raw(), occupied(hash));
        assert_eq!(u8::from(meta), (hash & 0x7f) as u8);
        assert_eq!(meta.hash(), Some(safe_ex::meta::Hash::new(hash)));
    }
    assert_eq!(Meta::vacant().raw(), VACANT);
    assert_eq!(Meta::deleted().raw(), DELETED);
    assert_eq!(u8::from(Meta::vacant()), 0x80);
    assert_eq!(u8::from(Meta::deleted()), 0xff);
    assert!(!Meta::vacant().is_occupied());
    assert!(!Meta::deleted().is_occupied());
    assert_eq!(Meta::vacant().hash(), None);
    assert_eq!(Meta::deleted().hash(), None);
    assert_eq!(Meta::default(), Meta::vacant());
}

#[test]
fn masks_set_clear_and_find_lanes() {
    assert_eq!(lowest(0b1000), 3);
    assert_eq!(lowest(1), 0);
    assert_eq!(lowest(0x8000_0000), 31);
    assert_eq!(without(0b1010, 1), 0b1000);
    assert_eq!(without(0x8000_0001, 31), 1);
    assert_eq!(with(0, 31), 0x8000_0000);
    assert_eq!(with(0b100, 0), 0b101);
    assert_eq!(with(0b100, 2), 0b100);
    assert_eq!(low_lanes(0), 0);
    assert_eq!(low_lanes(1), 1);
    assert_eq!(low_lanes(16), 0xffff);
    assert_eq!(low_lanes(31), 0x7fff_ffff);
    assert_eq!(low_lanes(32), u32::MAX);
    assert_eq!(low_lanes(1024), u32::MAX);
}

#[test]
fn match_marks_exactly_the_equal_lanes() {
    let group = sample_group();
    assert_eq!(Match { meta: 5 }.find(&group), (1 << 0) | (1 << 7));
    assert_eq!(Match { meta: 0 }.find(&group), 1 << 8);
    assert_eq!(Match { meta: 127 }.find(&group), 1 << 31);
    assert_eq!(Match { meta: DELETED }.find(&group), 1 << 3);
    assert_eq!(Match { meta: 9 }.find(&group), 0);
    let vacant = Match { meta: VACANT }.find(&group);
    assert_eq!(vacant, !((1 << 0) | (1 << 3) | (1 << 7) | (1 << 8) | (1u32 << 31)));
}

#[test]
fn occupied_and_insertable_split_the_lanes() {
    let group = sample_group();
    let taken = (1 << 0) | (1 << 7) | (1 << 8) | (1u32 << 31);
    assert_eq!(Occupied.find(&group), taken);
    assert_eq!(Insertable.find(&group), !taken);
    assert_eq!(Occupied.find(&[VACANT; 32]), 0);
    assert_eq!(Insertable.find(&[VACANT; 32]), u32::MAX);
    assert_eq!(Occupied.find(&[0; 32]), u32::MAX);
    assert_eq!(Insertable.find(&[DELETED; 32]), u32::MAX);
}

#[test]
fn any_and_either_combine() {
    let group = sample_group();
    assert_eq!(Any.find(&group), u32::MAX);
    let mut both = Either(Match { meta: 5 }, Match { meta: 0 });
    assert_eq!(both.find(&group), (1 << 0) | (1 << 7) | (1 << 8));
    let mut all = Either(Occupied, Insertable);
    assert_eq!(all.find(&group), u32::MAX);
}

#[test]
fn scalar_scanners_agree_with_wide_ones() {
    let mut groups = vec![sample_group(), [VACANT; 32], [DELETED; 32], [0; 32], [127; 32]];
    let mut mixed = [0i8; 32];
    for (i, m) in mixed.iter_mut().enumerate() {
        *m = (i as i8).wrapping_mul(37).wrapping_sub(60);
    }
    groups.push(mixed);
    for group in groups.iter() {
        assert_eq!(ScalarOccupied.find(group), Occupied.find(group));
        for tag in [0i8, 5, 127, VACANT, DELETED, -60, 14] {
            assert_eq!(ScalarMatch { meta: tag }.find(group), Match { meta: tag }.find(group));
        }
        assert_eq!(ScalarVacancy.finished(group), Vacancy.finished(group));
    }
}

#[test]
fn vacancy_stops_on_an_empty_tag_only() {
    assert!(Vacancy.finished(&sample_group()));
    assert!(Vacancy.finished(&[VACANT; 32]));
    assert!(!Vacancy.finished(&[DELETED; 32]));
    assert!(!Vacancy.finished(&[3; 32]));
    let mut last = [7i8; 32];
    last[31] = VACANT;
    assert!(Vacancy.finished(&last));
    assert!(ScalarVacancy.finished(&last));
    assert!(!ScalarVacancy.finished(&[DELETED; 32]));
    let _ = Vacancy::default();
}

#[test]
fn count_stops_when_less_than_a_group_is_left() {
    let group = [0i8; 32];
    let mut count = Count(96);
    assert!(!count.finished(&group));
    assert_eq!(count.0, 64);
    assert!(!count.finished(&group));
    assert_eq!(count.0, 32);
    assert!(count.finished(&group));
    assert_eq!(count.0, 0);
    assert!(count.finished(&group));
    assert_eq!(count.0, 0);

    let mut small = Count(16);
    assert!(small.finished(&group));
    assert_eq!(small.0, 0);

    let mut exact = Count(32);
    assert!(exact.finished(&group));
}

#[test]
fn never_never_stops_and_either_feeds_both() {
    assert!(!Never.finished(&[VACANT; 32]));
    let mut both = EitherController(Vacancy, Count(96));
    assert!(both.finished(&[VACANT; 32]));
    assert_eq!((both.1).0, 64);
    assert!(!both.finished(&[1; 32]));
    assert_eq!((both.1).0, 32);
    assert!(both.finished(&[1; 32]));
}

#[test]
fn hints_hand_back_their_argument() {
    assert!(likely(true));
    assert!(!likely(false));
    assert!(unlikely(true));
    assert!(!unlikely(false));
}

#[test]
fn next_power_of_two_rounds_up() {
    assert_eq!(next_power_of_two(0), 1);
    assert_eq!(next_power_of_two(1), 1);
    assert_eq!(next_power_of_two(2), 2);
    assert_eq!(next_power_of_two(3), 4);
    assert_eq!(next_power_of_two(5), 8);
    assert_eq!(next_power_of_two(100), 128);
    assert_eq!(next_power_of_two(1024), 1024);
    assert_eq!(next_power_of_two(1025), 2048);
    assert_eq!(next_power_of_two(MAX_CAPACITY), MAX_CAPACITY);
    assert_eq!(next_power_of_two(MAX_CAPACITY - 1), MAX_CAPACITY);
    assert_eq!(MAX_CAPACITY, usize::MAX / 4 + 1);
}

#[test]
fn storage_is_sized_and_blank() {
    let none: Alloc<u8> = Alloc::new(0);
    assert_eq!(none.size(), 0);
    assert_eq!(none.meta.len(), 0);
    assert_eq!(none.buckets.len(), 0);

    let some: Alloc<u8> = Alloc::new(5);
    assert_eq!(some.size(), 8);
    assert_eq!(some.meta.len(), 8 + 32);
    assert_eq!(some.buckets.len(), 8);
    assert!(some.meta.iter().all(|&t| t == VACANT));
    assert!(some.buckets.iter().all(|b| b.is_none()));

    let big: Alloc<u8> = Alloc::new(64);
    assert_eq!(big.size(), 64);
    assert_eq!(big.meta.len(), 96);
}

#[test]
fn tag_writes_keep_the_mirror() {
    let mut alloc: Alloc<u8> = Alloc::new(64);
    alloc.get_meta(3).write(9);
    assert_eq!(alloc.meta[3], 9);
    assert_eq!(alloc.meta[64 + 3], 9);
    alloc.get_meta(40).occupy(0x1f5);
    assert_eq!(alloc.meta[40], 0x75);
    alloc.get_meta(31).write(DELETED);
    assert_eq!(alloc.meta[31], DELETED);
    assert_eq!(alloc.meta[64 + 31], DELETED);
    alloc.get_meta(32).write(1);
    assert_eq!(alloc.meta[32], 1);
    for k in 0..32 {
        assert_eq!(alloc.meta[64 + k], alloc.meta[k]);
    }
    let written = alloc.meta.iter().filter(|&&t| t != VACANT).count();
    assert_eq!(written, 4 + 2);

    let mut tiny: Alloc<u8> = Alloc::new(2);
    tiny.get_meta(1).write(4);
    for position in 0..34 {
        let expected = if position % 2 == 1 { 4 } else { VACANT };
        assert_eq!(tiny.meta[position], expected);
    }
    for k in 0..32 {
        assert_eq!(tiny.meta[2 + k], tiny.meta[k]);
    }

    let mut tags = vec![VACANT; 40];
    {
        let mut handle = MetaMut::new(&mut tags, 5);
        assert_eq!(*handle, VACANT);
        handle.write(11);
        assert_eq!(*handle, 11);
    }
    for position in 0..40 {
        let expected = if position % 8 == 5 { 11 } else { VACANT };
        assert_eq!(tags[position], expected);
    }
}

#[test]
fn groups_are_read_across_the_wrap() {
    let mut alloc: Alloc<u8> = Alloc::new(64);
    alloc.get_meta(0).write(1);
    alloc.get_meta(63).write(2);
    let group = alloc.load(60);
    assert_eq!(group[3], 2);
    assert_eq!(group[4], 1);
    assert_eq!(group[5], VACANT);
    assert_eq!(alloc.index_of(130), 2);
    assert_eq!(alloc.index_of(63), 63);
    let none: Alloc<u8> = Alloc::new(0);
    assert_eq!(none.index_of(77), 0);
}

#[test]
fn probe_reports_wanted_slots_in_path_order() {
    let mut alloc: Alloc<u8> = Alloc::new(64);
    for idx in [1usize, 33, 40, 62] {
        alloc.get_meta(idx).write(7);
        alloc.buckets[idx] = Some(idx as u8);
    }
    let mut probe: FindRef<u8, Occupied, Never> = alloc.find_ref(38, Occupied, Never);
    let mut seen = Vec::new();
    while let Some(idx) = probe.next(&alloc) {
        seen.push(idx);
    }
    assert_eq!(seen, vec![40, 62, 1, 33]);

    let mut stopped: FindRef<u8, Match, Vacancy> = alloc.find_ref(38, Match { meta: 7 }, Vacancy);
    assert_eq!(stopped.next(&alloc), Some(40));
    assert_eq!(stopped.next(&alloc), Some(62));
    assert_eq!(stopped.next(&alloc), Some(1));
    assert_eq!(stopped.next(&alloc), None);
    assert_eq!(stopped.next(&alloc), None);

    let mut entries = alloc.find(38, Occupied, Never);
    assert_eq!(entries.next(), Some((&7, Some(&40))));
    assert_eq!(entries.next(), Some((&7, Some(&62))));
    assert_eq!(entries.next(), Some((&7, Some(&1))));
    assert_eq!(entries.next(), Some((&7, Some(&33))));
    assert_eq!(entries.next(), None);

    let mut again: FindRef<u8, Occupied, Never> = alloc.find_ref(0, Occupied, Never);
    let mut supplied = again.supply(&alloc);
    let first = supplied.next().unwrap();
    assert_eq!(first.index(), 1);
    assert_eq!(first.meta(), &7);
    assert_eq!(first.bucket(), Some(&1));
}

#[test]
fn probe_of_a_tiny_table_ignores_the_tail() {
    let mut one: Alloc<u8> = Alloc::new(1);
    one.get_meta(0).write(3);
    one.buckets[0] = Some(0);
    let mut probe: FindRef<u8, Match, Never> = one.find_ref(9, Match { meta: 3 }, Never);
    assert_eq!(probe.next(&one), Some(0));
    assert_eq!(probe.next(&one), None);
    let mut free: FindRef<u8, Insertable, Never> = one.find_ref(9, Insertable, Never);
    assert_eq!(free.next(&one), None);

    let mut two: Alloc<u8> = Alloc::new(2);
    two.get_meta(1).write(3);
    let mut probe: FindRef<u8, Match, Never> = two.find_ref(1, Match { meta: 3 }, Never);
    assert_eq!(probe.next(&two), Some(1));
    assert_eq!(probe.next(&two), None);
    let mut free: FindRef<u8, Insertable, Never> = two.find_ref(1, Insertable, Never);
    assert_eq!(free.next(&two), Some(0));
    assert_eq!(free.next(&two), None);

    let none: Alloc<u8> = Alloc::new(0);
    let mut probe: FindRef<u8, Any, Never> = none.find_ref(5, Any, Never);
    assert_eq!(probe.next(&none), None);
}

#[test]
fn probe_of_one_group_covers_the_table_once() {
    let alloc: Alloc<u8> = Alloc::new(32);
    let mut probe: FindRef<u8, Any, Never> = alloc.find_ref(20, Any, Never);
    let mut seen = Vec::new();
    while let Some(idx) = probe.next(&alloc) {
        seen.push(idx);
    }
    let expected: Vec<usize> = (20..32).chain(0..20).collect();
    assert_eq!(seen, expected);
}
