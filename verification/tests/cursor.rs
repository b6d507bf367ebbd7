use spaced_list::{HollowSpacedList, Traversal};

fn sample() -> HollowSpacedList<i64> {
    let mut list = HollowSpacedList::<i64>::new();
    for distance in [2, 1, 3, 3] {
        list.append_node(distance);
    }
    list
}

#[test]
fn a_new_cursor_stands_at_the_root_on_the_top_level() {
    let list = sample();
    let cursor = Traversal::new(&list);
    assert_eq!(cursor.degree, 2);
    assert_eq!(cursor.position, 0);
    assert_eq!(cursor.node_index, 0);
    assert_eq!(cursor.link_index, 3);
    assert!(cursor.super_traversal.is_none());
    assert!(cursor.can_descend());
    let empty = HollowSpacedList::<i64>::new();
    let cursor = Traversal::new(&empty);
    assert_eq!((cursor.degree, cursor.node_index, cursor.link_index), (0, 0, 0));
    assert!(!cursor.can_descend());
}

#[test]
fn descending_and_stepping() {
    let list = sample();
    let mut cursor = Traversal::new(&list);
    cursor.descend_shallow();
    assert_eq!((cursor.degree, cursor.node_index, cursor.link_index), (1, 0, 1));
    assert_eq!(cursor.position, 0);
    let mut peek = cursor.clone();
    peek.descend_and_advance_shallow();
    assert_eq!((peek.degree, peek.node_index, peek.link_index), (0, 1, 1));
    assert_eq!(peek.position, 2);
    cursor.advance_unchecked();
    assert_eq!((cursor.degree, cursor.node_index, cursor.link_index), (1, 2, 1));
    assert_eq!(cursor.position, 3);
    let mut top = Traversal::new(&list);
    top.descend_and_advance_shallow();
    assert_eq!((top.degree, top.node_index, top.link_index), (1, 2, 3));
    assert_eq!(top.position, 3);
    let lower = top.descend();
    assert_eq!((lower.degree, lower.node_index, lower.link_index), (0, 2, 2));
    let mut end = Traversal::new(&list);
    end.advance_to_end();
    assert_eq!((end.degree, end.node_index, end.link_index), (0, 4, 4));
    assert_eq!(end.position, 9);
    assert!(!end.can_descend());
}

#[test]
fn advancing_passes_every_node() {
    let list = sample();
    let mut cursor = Traversal::new(&list).descend().descend();
    let mut seen = vec![(cursor.node_index, cursor.position)];
    for _ in 0..4 {
        cursor = cursor.advance();
        assert_eq!(cursor.degree, 0);
        assert_eq!(cursor.link_index, cursor.node_index);
        seen.push((cursor.node_index, cursor.position));
    }
    assert_eq!(seen, vec![(0, 0), (1, 2), (2, 3), (3, 6), (4, 9)]);
    let coarse = Traversal::new(&list).descend().advance();
    assert_eq!((coarse.degree, coarse.node_index, coarse.link_index), (1, 2, 3));
    assert_eq!(coarse.position, 3);
    let coarse = coarse.advance();
    assert_eq!((coarse.degree, coarse.node_index, coarse.link_index), (1, 4, 5));
    assert_eq!(coarse.position, 9);
}

#[test]
fn advancing_leaves_a_nested_list_at_its_capacity_boundary() {
    let mut list = HollowSpacedList::<i64>::new();
    list.append_node(10);
    list.append_node(10);
    list.insert_node(12);
    list.insert_node(15);
    list.insert_node(17);
    list.insert_node(16);
    let found = list.node_at(16).unwrap();
    assert_eq!(found.position, 16);
    assert_eq!(found.node_index, 1);
    assert_eq!(found.list.capacity(), 1);
    let middle = found.super_traversal.as_ref().unwrap();
    assert_eq!((middle.position, middle.node_index), (15, 2));
    assert_eq!((middle.list.size(), middle.list.capacity()), (3, 4));
    let outer = middle.super_traversal.as_ref().unwrap();
    assert_eq!((outer.position, outer.node_index), (10, 1));
    assert!(outer.super_traversal.is_none());
    let next = found.advance();
    assert_eq!((next.position, next.node_index, next.link_index), (17, 3, 3));
    assert_eq!(next.super_traversal.as_ref().unwrap().node_index, 1);
    let spare = next.advance();
    assert_eq!((spare.position, spare.node_index, spare.link_index), (17, 4, 4));
    assert_eq!(spare.list.capacity(), 4);
    assert_eq!(spare.super_traversal.as_ref().unwrap().node_index, 1);
    let out = spare.advance();
    assert_eq!((out.position, out.node_index, out.link_index), (20, 2, 2));
    assert!(out.super_traversal.is_none());
}

#[test]
fn advancing_steps_onto_slots_that_are_not_in_use() {
    let mut list = HollowSpacedList::<i64>::new();
    for distance in [2, 1, 3] {
        list.append_node(distance);
    }
    assert_eq!((list.size(), list.capacity()), (3, 4));
    let last = list.node_at(6).unwrap();
    assert_eq!(last.node_index, 3);
    let spare = last.advance();
    assert_eq!((spare.degree, spare.node_index, spare.link_index), (0, 4, 4));
    assert_eq!(spare.position, 6);
    let coarse = Traversal::new(&list).descend().advance();
    assert_eq!((coarse.degree, coarse.node_index, coarse.position), (1, 2, 3));
    let coarse = coarse.advance();
    assert_eq!((coarse.degree, coarse.node_index, coarse.position), (1, 4, 6));
    assert_eq!(coarse.link_index, 5);
}

#[test]
fn the_next_node_passes_over_slots_that_are_not_in_use() {
    let mut list = HollowSpacedList::<i64>::new();
    list.append_node(10);
    list.append_node(10);
    list.insert_node(12);
    list.insert_node(15);
    list.insert_node(17);
    let last_nested = list.node_at(17).unwrap();
    assert_eq!((last_nested.node_index, last_nested.list.capacity()), (3, 4));
    let next = last_nested.next_node();
    assert_eq!((next.position, next.node_index), (20, 2));
    assert!(next.super_traversal.is_none());
    let inner = list.node_at(12).unwrap().next_node();
    assert_eq!((inner.position, inner.node_index), (15, 2));
    assert_eq!(inner.super_traversal.as_ref().unwrap().node_index, 1);
    assert_eq!(list.node_after(17).map(|cursor| cursor.position), Some(20));
    assert_eq!(list.node_at_or_after(18).map(|cursor| cursor.node_index), Some(2));
}

#[test]
fn entering_a_nested_list() {
    let mut list = HollowSpacedList::<i64>::new();
    list.append_node(10);
    list.insert_node(3);
    list.insert_node(7);
    list.insert_node(8);
    let root = Traversal::new(&list);
    assert_eq!(root.degree, 0);
    assert!(root.can_descend());
    let inner = root.clone().descend();
    assert_eq!((inner.degree, inner.node_index, inner.link_index), (2, 0, 3));
    assert_eq!(inner.position, 0);
    assert_eq!((inner.list.size(), inner.list.capacity()), (3, 4));
    assert_eq!(inner.super_traversal.as_ref().unwrap().node_index, 0);
    let mut stepped = root.clone().descend();
    stepped.advance_unchecked();
    let end = root.descend_and_advance();
    assert_eq!((end.degree, end.node_index, end.position), (2, 4, 8));
    assert_eq!(
        (end.degree, end.node_index, end.position),
        (stepped.degree, stepped.node_index, stepped.position)
    );
    assert_eq!(end.list.length(), stepped.list.length());
    assert_eq!(end.link_index, 7);
    assert_eq!(end.super_traversal.as_ref().unwrap().node_index, 0);
    let out = end.advance();
    assert_eq!((out.position, out.node_index), (10, 1));
    assert!(out.super_traversal.is_none());
}

#[test]
fn searching_from_the_middle_of_a_list() {
    let mut list = HollowSpacedList::<i64>::new();
    for distance in [2, 1, 3, 3, 1, 1, 1, 1] {
        list.append_node(distance);
    }
    list.insert_node(7);
    let mut cursor = Traversal::new(&list);
    cursor.descend_and_advance_shallow();
    assert_eq!((cursor.degree, cursor.node_index, cursor.position), (2, 4, 9));
    let found = cursor.clone().advance_while(|cursor| cursor.position <= 11);
    assert_eq!((found.degree, found.node_index, found.position), (0, 6, 11));
    let stays = cursor.clone().advance_while(|cursor| cursor.position <= 5);
    assert_eq!((stays.degree, stays.node_index, stays.position), (0, 4, 9));
    let mut shallow = Traversal::new(&list);
    shallow.descend_shallow();
    shallow.advance_while_shallow(|cursor| cursor.position <= 100);
    assert_eq!((shallow.degree, shallow.node_index, shallow.position), (0, 3, 6));
    let mut lower = Traversal::new(&list);
    lower.descend_shallow();
    let deep = lower.advance_while(|cursor| cursor.position <= 100);
    assert_eq!((deep.node_index, deep.position), (1, 7));
    assert_eq!(deep.super_traversal.as_ref().unwrap().node_index, 3);
}

#[test]
fn searching_one_level_only() {
    let mut list = sample();
    list.insert_node(4);
    list.insert_node(5);
    let expected = [
        (-1, 0, 0),
        (0, 0, 0),
        (1, 0, 0),
        (2, 1, 2),
        (3, 2, 3),
        (5, 2, 3),
        (6, 3, 6),
        (8, 3, 6),
        (9, 4, 9),
        (50, 4, 9),
    ];
    for (limit, node_index, position) in expected {
        let mut cursor = Traversal::new(&list);
        cursor.advance_while_shallow(|cursor| cursor.position <= limit);
        assert_eq!(cursor.degree, 0);
        assert_eq!(cursor.node_index, node_index);
        assert_eq!(cursor.position, position);
        assert_eq!(cursor.link_index, node_index);
        assert!(cursor.super_traversal.is_none());
    }
}

#[test]
fn searching_through_nested_lists() {
    let mut list = sample();
    list.insert_node(4);
    list.insert_node(5);
    list.insert_node(8);
    let expected = [(0, 0), (2, 2), (3, 3), (4, 4), (5, 5), (6, 6), (7, 6), (8, 8), (9, 9)];
    for (limit, position) in expected {
        let found = Traversal::new(&list).advance_while(|cursor| cursor.position <= limit);
        assert_eq!(found.position, position);
        assert_eq!(found.degree, 0);
        assert!(!found.can_descend());
        let strict = Traversal::new(&list).advance_while(|cursor| cursor.position < limit + 1);
        assert_eq!(strict.position, position);
    }
    let none = Traversal::new(&list).advance_while(|_| false);
    assert_eq!((none.position, none.node_index), (0, 0));
    let all = Traversal::new(&list).advance_while(|_| true);
    assert_eq!((all.position, all.node_index), (9, 4));
}
