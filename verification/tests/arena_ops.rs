use arena::Arena;

#[test]
fn rain_test() {
    let mut arena = Arena::new();
    let a = arena.insert("a");
    let b = arena.insert("b");
    let c = arena.insert("c");
    let d = arena.insert("d");
    let e = arena.insert("e");

    arena.remove(b);
    arena.remove(a);

    let f = arena.insert("f");
    let g = arena.insert("g");

    assert_eq!(*arena.get(c).unwrap(), "c");
    assert_eq!(*arena.get(d).unwrap(), "d");
    assert_eq!(*arena.get(e).unwrap(), "e");
    assert_eq!(*arena.get(f).unwrap(), "f");
    assert_eq!(*arena.get(g).unwrap(), "g");

    arena.remove(f);

    assert_eq!(*arena.get(c).unwrap(), "c");
    assert_eq!(*arena.get(d).unwrap(), "d");
    assert_eq!(*arena.get(g).unwrap(), "g");
    assert_eq!(*arena.get(e).unwrap(), "e");
}

#[test]
fn insert_then_remove_middle() {
    let mut arena = Arena::new();
    let a = arena.insert('A');
    let b = arena.insert('B');
    let c = arena.insert('C');

    assert_eq!(arena.as_slice(), &['A', 'B', 'C']);

    assert_eq!(arena.remove(b), Some('B'));

    assert_eq!(arena.as_slice(), &['A', 'C']);
    assert_eq!(arena.get(a), Some(&'A'));
    assert_eq!(arena.get(b), None);
    assert_eq!(arena.get(c), Some(&'C'));
}

#[test]
fn remove_at_moves_last_into_hole() {
    let mut arena = Arena::new();
    let a = arena.insert('A');
    let _b = arena.insert('B');
    let c = arena.insert('C');
    let d = arena.insert('D');

    assert_eq!(arena.remove_at(1), Some('B'));
    assert_eq!(arena.as_slice(), &['A', 'D', 'C']);
    assert_eq!(arena.index_of(d), Some(1));
    assert_eq!(arena.index_of(a), Some(0));
    assert_eq!(arena.index_of(c), Some(2));
    assert_eq!(arena.remove_at(5), None);
}

#[test]
fn clear_keeps_and_reuses_slots() {
    let mut arena = Arena::new();
    arena.insert(1u32);
    arena.insert(2u32);
    arena.insert(3u32);
    assert_eq!(arena.len(), 3);
    assert_eq!(arena.slot_count(), 3);

    arena.clear();

    assert_eq!(arena.len(), 0);
    assert_eq!(arena.slot_count(), 3);
    assert_eq!(arena.free_slot_count(), 3);

    // freed slots are reused before any new one is created
    arena.insert(4u32);
    assert_eq!(arena.slot_count(), 3);
    arena.insert(5u32);
    assert_eq!(arena.slot_count(), 3);
    arena.insert(6u32);
    assert_eq!(arena.slot_count(), 3);
    arena.insert(7u32);
    assert_eq!(arena.slot_count(), 4);
}

#[test]
fn clear_all_drops_slots() {
    let mut arena = Arena::from_vec(vec!['A', 'B', 'C']);
    assert_eq!(arena.len(), 3);
    assert_eq!(arena.slot_count(), 3);

    arena.clear_all();

    assert_eq!(arena.len(), 0);
    assert_eq!(arena.slot_count(), 0);
}

#[test]
fn stale_handle_rejected_after_slot_reuse() {
    let mut arena = Arena::new();
    let a = arena.insert("first");
    assert_eq!(arena.remove(a), Some("first"));
    assert_eq!(arena.remove(a), None);

    // the new value reuses slot 0, but with a fresh generation tag
    let b = arena.insert("second");
    assert_eq!(arena.slot_count(), 1);
    assert_eq!(arena.get(a), None);
    assert!(!arena.contains(a));
    assert_eq!(arena.index_of(a), None);
    assert_eq!(arena.get(b), Some(&"second"));
}

#[test]
fn pop_in_reverse_order() {
    let mut arena = Arena::from_vec(vec!['A', 'B', 'C']);
    assert_eq!(arena.pop(), Some('C'));
    assert_eq!(arena.free_slot_count(), 1);
    assert_eq!(arena.pop(), Some('B'));
    assert_eq!(arena.pop(), Some('A'));
    assert_eq!(arena.pop(), None);
    assert!(arena.is_empty());
}

#[test]
fn swap_keeps_ids_valid() {
    let mut arena = Arena::new();
    let a = arena.insert('A');
    let b = arena.insert('B');

    arena.swap(0, 1);

    assert_eq!(arena.as_slice(), &['B', 'A']);
    assert_eq!(arena.get(a), Some(&'A'));
    assert_eq!(arena.get(b), Some(&'B'));
    assert_eq!(arena.index_of(a), Some(1));
    assert_eq!(arena.index_of(b), Some(0));
}

#[test]
fn swap_positions_by_id() {
    let mut arena = Arena::new();
    let a = arena.insert('A');
    let b = arena.insert('B');

    assert!(arena.swap_positions(a, b));
    assert_eq!(arena.as_slice(), &['B', 'A']);
    assert_eq!(arena.get(a), Some(&'A'));
    assert_eq!(arena.get(b), Some(&'B'));

    let stale = a;
    arena.remove(a);
    assert!(!arena.swap_positions(stale, b));
}

#[test]
fn swap_after_removal_updates_both_mappings() {
    // after a removal, owning slots and positions no longer coincide
    let mut arena = Arena::new();
    let a = arena.insert('a');
    let b = arena.insert('b');
    let c = arena.insert('c');
    arena.remove(a);
    assert_eq!(arena.as_slice(), &['c', 'b']);

    arena.swap(0, 1);
    assert_eq!(arena.as_slice(), &['b', 'c']);
    assert_eq!(arena.index_of(b), Some(0));
    assert_eq!(arena.index_of(c), Some(1));
    assert_eq!(arena.id_at(0), Some(b));
    assert_eq!(arena.id_at(1), Some(c));
}

#[test]
fn sort_preserves_handles() {
    let mut arena = Arena::new();
    let c = arena.insert('C');
    let a = arena.insert('A');
    let b = arena.insert('B');

    assert_eq!(arena.as_slice(), &['C', 'A', 'B']);

    arena.sort();

    assert_eq!(arena.as_slice(), &['A', 'B', 'C']);
    assert_eq!(arena.get(a), Some(&'A'));
    assert_eq!(arena.get(b), Some(&'B'));
    assert_eq!(arena.get(c), Some(&'C'));
    assert_eq!(arena.index_of(a), Some(0));
    assert_eq!(arena.index_of(b), Some(1));
    assert_eq!(arena.index_of(c), Some(2));
}

#[test]
fn sort_by_field_comparator() {
    let mut arena = Arena::new();
    let three = arena.insert((3u32, 'c'));
    let one = arena.insert((1u32, 'a'));
    let two = arena.insert((2u32, 'b'));

    arena.sort_by(|x: &(u32, char), y: &(u32, char)| x.0.cmp(&y.0));

    assert_eq!(arena.as_slice(), &[(1, 'a'), (2, 'b'), (3, 'c')]);
    assert_eq!(arena.get(one), Some(&(1, 'a')));
    assert_eq!(arena.get(two), Some(&(2, 'b')));
    assert_eq!(arena.get(three), Some(&(3, 'c')));
}

#[test]
fn dual_mapping_round_trip() {
    let mut arena = Arena::new();
    arena.insert(10i64);
    arena.insert(20i64);
    arena.insert(30i64);
    arena.remove_at(0);
    arena.insert(40i64);
    arena.pop();

    for p in 0..arena.len() {
        let id = arena.id_at(p).unwrap();
        assert_eq!(arena.index_of(id), Some(p));
    }
    assert_eq!(arena.id_at(arena.len()), None);
}

#[test]
fn get_mut_changes_one_value() {
    let mut arena = Arena::new();
    let a = arena.insert(String::from("old"));
    let b = arena.insert(String::from("keep"));

    if let Some(v) = arena.get_mut(a) {
        *v = String::from("new");
    }

    assert_eq!(arena.get(a).map(String::as_str), Some("new"));
    assert_eq!(arena.get(b).map(String::as_str), Some("keep"));
    arena.remove(a);
    assert!(arena.get_mut(a).is_none());
}

#[test]
fn get2_mut_gives_two_disjoint_references() {
    let mut arena = Arena::new();
    let a = arena.insert('A');
    let b = arena.insert('B');

    match arena.get2_mut(a, b) {
        (Some(val_a), Some(val_b)) => {
            *val_a = 'X';
            *val_b = 'Y';
        },
        _ => panic!(),
    }

    assert_eq!(arena.as_slice(), &['X', 'Y']);
    assert_eq!(arena.get(a), Some(&'X'));
    assert_eq!(arena.get(b), Some(&'Y'));

    arena.remove(b);
    let (ra, rb) = arena.get2_mut(a, b);
    assert_eq!(ra.map(|v| *v), Some('X'));
    assert!(rb.is_none());
}

#[test]
fn as_mut_slice_in_place_updates() {
    let mut arena = Arena::from_vec(vec![1i32, 2, 3, 4, 5]);
    for num in arena.as_mut_slice() {
        *num += 1;
    }
    assert_eq!(arena.as_slice(), &[2, 3, 4, 5, 6]);
}

#[test]
fn extend_from_slice_assigns_ids() {
    let mut arena = Arena::new();
    let a = arena.insert('x');
    arena.extend_from_slice(&['y', 'z']);
    assert_eq!(arena.as_slice(), &['x', 'y', 'z']);
    assert_eq!(arena.get(a), Some(&'x'));
    let y = arena.id_at(1).unwrap();
    assert_eq!(arena.get(y), Some(&'y'));
}

#[test]
fn from_vec_assigns_consecutive_tags() {
    let arena = Arena::from_vec(vec!['A', 'B', 'C']);
    assert_eq!(arena.len(), 3);
    assert_eq!(arena.slot_count(), 3);
    assert_eq!(arena.free_slot_count(), 0);
    let ids: Vec<_> = (0..3).map(|p| arena.id_at(p).unwrap()).collect();
    assert_eq!(arena.get(ids[0]), Some(&'A'));
    assert_eq!(arena.get(ids[1]), Some(&'B'));
    assert_eq!(arena.get(ids[2]), Some(&'C'));
}

#[test]
fn to_vec_returns_values() {
    let mut arena = Arena::from_vec(vec!['A', 'B', 'C']);
    arena.insert('D');
    let vec = arena.to_vec();
    assert_eq!(&vec, &['A', 'B', 'C', 'D']);
}

#[test]
fn foreign_handle_rejected() {
    let mut first = Arena::new();
    let mut second = Arena::new();
    let a = first.insert('A');
    let b = second.insert('B');

    assert!(first.match_id(&a));
    assert!(!first.match_id(&b));
    assert!(!second.match_id(&a));
    assert_eq!(first.get(b), None);
    assert_eq!(second.get(a), None);
    assert!(!first.contains(b));
    assert_eq!(first.index_of(b), None);
    assert_eq!(first.remove(b), None);
}

#[test]
fn insert_with_self_referential() {
    let mut arena = Arena::new();
    let foo = arena.insert_with(|id| (id, "Foo"));
    let bar = arena.insert_with(|id| (id, "Bar"));

    assert_eq!(arena.get(foo).unwrap().0, foo);
    assert_eq!(arena.get(foo).unwrap().1, "Foo");
    assert_eq!(arena.get(bar).unwrap().0, bar);
    assert_eq!(arena.get(bar).unwrap().1, "Bar");
}

#[test]
fn pairs_and_ids_walk_positions() {
    let mut arena = Arena::new();
    let a = arena.insert('A');
    let b = arena.insert('B');
    let c = arena.insert('C');

    let mut pairs = arena.pairs();
    assert_eq!(pairs.next(), Some((a, &'A')));
    assert_eq!(pairs.next(), Some((b, &'B')));
    assert_eq!(pairs.next(), Some((c, &'C')));
    assert_eq!(pairs.next(), None);

    let mut ids = arena.ids();
    assert_eq!(ids.next(), Some(a));
    assert_eq!(ids.next(), Some(b));
    assert_eq!(ids.next(), Some(c));
    assert_eq!(ids.next(), None);
}

#[test]
fn ids_are_ordered_and_hashable() {
    let mut arena = Arena::new();
    let a = arena.insert('A');
    let b = arena.insert('B');
    assert_ne!(a, b);
    let mut set = std::collections::BTreeSet::new();
    set.insert(b);
    set.insert(a);
    set.insert(a);
    assert_eq!(set.len(), 2);
}

#[test]
fn default_is_empty() {
    let arena: Arena<u8> = Arena::default();
    assert!(arena.is_empty());
    assert_eq!(arena.slot_count(), 0);
}

#[test]
fn with_capacity_starts_empty() {
    let arena: Arena<String> = Arena::with_capacity(1000);
    assert!(arena.is_empty());
    assert_eq!(arena.slot_count(), 0);
}
