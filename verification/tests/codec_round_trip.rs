use arena::Arena;
use arena::Entry;

#[test]
fn entries_round_trip_preserves_tags_and_values() {
    let mut arena = Arena::new();
    let _a = arena.insert("a");
    let b = arena.insert("b");
    let _c = arena.insert("c");
    arena.remove(b);

    let (counter, entries) = arena.to_entries();
    assert_eq!(counter, arena.counter_value());
    assert_eq!(entries.len(), 2);

    let restored: Arena<&str> = Arena::from_entries(counter, entries).unwrap();
    assert_eq!(restored.len(), 2);
    assert_eq!(restored.counter_value(), counter);

    // the same (tag, slot, value) records come back out
    let (counter2, mut entries2) = restored.to_entries();
    let (_, mut entries1) = arena.to_entries();
    assert_eq!(counter2, counter);
    entries1.sort_by_key(|e| e.idx);
    entries2.sort_by_key(|e| e.idx);
    assert_eq!(entries1, entries2);
}

#[test]
fn from_entries_rejects_reused_slot() {
    let entries = vec![
        Entry { uid: 0, idx: 0, val: 'x' },
        Entry { uid: 1, idx: 0, val: 'y' },
    ];
    assert!(Arena::from_entries(5, entries).is_none());
}

#[test]
fn from_entries_rejects_unspent_tag() {
    let entries = vec![Entry { uid: 7, idx: 0, val: 'x' }];
    assert!(Arena::from_entries(5, entries).is_none());
}

#[test]
fn from_entries_threads_gaps_onto_free_list() {
    let entries = vec![
        Entry { uid: 4, idx: 3, val: "late" },
        Entry { uid: 2, idx: 1, val: "early" },
    ];
    let mut restored: Arena<&str> = Arena::from_entries(10, entries).unwrap();
    assert_eq!(restored.len(), 2);
    assert_eq!(restored.slot_count(), 4);
    assert_eq!(restored.free_slot_count(), 2);
    // records are laid out in slot-index order
    assert_eq!(restored.as_slice(), &["early", "late"]);

    // the gap slots are reused before the table grows
    restored.insert("one");
    restored.insert("two");
    assert_eq!(restored.slot_count(), 4);
    restored.insert("three");
    assert_eq!(restored.slot_count(), 5);
}

#[test]
fn from_entries_of_empty_image() {
    let restored: Arena<char> = Arena::from_entries(1, Vec::new()).unwrap();
    assert!(restored.is_empty());
    assert_eq!(restored.slot_count(), 0);
}
