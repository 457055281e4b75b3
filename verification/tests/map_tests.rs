use raw_map::{EntryLayout, RawTable2, U64Spec};

fn fresh_map(cap: usize) -> raw_map::RawMap<u64, u64, U64Spec> {
    let layout = EntryLayout::new(16, 8, 8);
    let table = RawTable2::new(cap, layout, U64Spec).expect("alloc");
    table.as_map()
}

#[test]
fn find_after_insert() {
    let mut map = fresh_map(0);
    let keys = [7u64, 99, 1024, 5, 0, 31];
    for (i, k) in keys.iter().enumerate() {
        map.insert(k, (i as u64) * 10).unwrap();
    }
    for (i, k) in keys.iter().enumerate() {
        assert_eq!(map.get(k), Some(&((i as u64) * 10)));
    }
    assert_eq!(map.size(), keys.len());
}

#[test]
fn delete_then_absent() {
    let mut map = fresh_map(8);
    map.insert(&1, 10).unwrap();
    map.insert(&2, 20).unwrap();
    assert_eq!(map.size(), 2);
    map.delete(&1);
    assert!(map.get(&1).is_none());
    assert_eq!(map.size(), 1);
    map.delete(&1);
    assert_eq!(map.size(), 1);
    assert_eq!(map.get(&2), Some(&20));
}

#[test]
fn growth_preserves_all_entries() {
    let mut map = fresh_map(0);
    let n: u64 = 10000;
    for i in 0..n {
        map.insert(&i, i).unwrap();
    }
    assert_eq!(map.size(), n as usize);
    for i in 0..n {
        assert_eq!(map.get(&i), Some(&i));
    }
    assert_eq!(map.get(&42), Some(&42));
}

#[test]
fn extend_is_union_with_overwrite() {
    let mut a = fresh_map(0);
    let mut b = fresh_map(0);
    a.insert(&1, 100).unwrap();
    a.insert(&2, 200).unwrap();
    b.insert(&2, 999).unwrap();
    b.insert(&3, 300).unwrap();
    a.extend(&b).unwrap();
    assert_eq!(a.get(&1), Some(&100));
    assert_eq!(a.get(&2), Some(&999));
    assert_eq!(a.get(&3), Some(&300));
    assert_eq!(a.size(), 3);
}

#[test]
fn clear_resets_count_not_capacity() {
    let mut map = fresh_map(16);
    for i in 0..10u64 {
        map.insert(&i, i).unwrap();
    }
    map.clear();
    assert_eq!(map.size(), 0);
    assert!(map.get(&3).is_none());
    for i in 0..10u64 {
        map.insert(&i, i + 1).unwrap();
    }
    assert_eq!(map.size(), 10);
    assert_eq!(map.get(&3), Some(&4));
}

#[test]
fn idempotent_overwrite() {
    let mut map = fresh_map(4);
    map.insert(&5, 1).unwrap();
    let before = map.size();
    map.insert(&5, 2).unwrap();
    assert_eq!(map.size(), before);
    assert_eq!(map.get(&5), Some(&2));
}

#[test]
fn iteration_visits_exactly_the_live_set() {
    let mut map = fresh_map(0);
    let keys = [3u64, 77, 12, 500, 9];
    for k in keys.iter() {
        map.insert(k, k * 2).unwrap();
    }
    map.delete(&12);
    let table = map.into_table();
    let mut seen: Vec<(u64, u64)> = Vec::new();
    let mut idx: usize = 0;
    while let Some((i, k, v)) = table.next_entry(idx) {
        seen.push((*k, *v));
        idx = i + 1;
    }
    assert_eq!(seen.len(), 4);
    for (k, v) in seen.iter() {
        assert!(keys.contains(k) && *k != 12);
        assert_eq!(*v, *k * 2);
    }
    let mut uniq = seen.clone();
    uniq.sort();
    uniq.dedup();
    assert_eq!(uniq.len(), seen.len());
}

#[test]
fn zero_capacity_table_starts_empty() {
    let layout = EntryLayout::new(16, 8, 8);
    let table: RawTable2<u64, u64, U64Spec> = RawTable2::new(0, layout, U64Spec).expect("alloc");
    assert_eq!(table.len(), 0);
    let map = table.as_map();
    assert!(map.get(&1).is_none());
}
