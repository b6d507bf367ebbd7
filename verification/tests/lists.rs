use spaced_list::{HollowSpacedList, Traversal};

fn position(found: Option<Traversal<i64>>) -> Option<i64> {
    found.map(|cursor| cursor.position)
}

#[test]
fn appended_distances_add_up() {
    let mut list = HollowSpacedList::<i64>::new();
    list.append_node(2);
    list.append_node(5);
    list.append_node(9);
    assert_eq!(list.length(), 16);
    assert_eq!(list.size(), 3);
    assert_eq!(list.capacity(), 4);
    assert_eq!(position(list.node_at(2)), Some(2));
    assert_eq!(position(list.node_at(7)), Some(7));
    assert_eq!(position(list.node_at(16)), Some(16));
    assert_eq!(position(list.node_at(5)), None);
    assert_eq!(position(list.node_at(9)), None);
}

#[test]
fn three_ascending_nodes_by_distance() {
    let mut list = HollowSpacedList::<i64>::new();
    list.append_node(2);
    list.append_node(3);
    list.append_node(4);
    assert_eq!(list.length(), 9);
    assert_eq!(list.size(), 3);
    assert_eq!(position(list.node_at(5)), Some(5));
    assert_eq!(position(list.node_at(4)), None);
    assert_eq!(position(list.node_before(5)), Some(2));
    assert_eq!(position(list.node_after(5)), Some(9));
}

#[test]
fn three_ascending_nodes_by_position() {
    let mut list = HollowSpacedList::<i64>::new();
    list.insert_node(2);
    list.insert_node(5);
    list.insert_node(9);
    assert_eq!(list.length(), 9);
    assert_eq!(list.size(), 3);
    assert_eq!(position(list.node_at(5)), Some(5));
    assert_eq!(position(list.node_at(4)), None);
    assert_eq!(position(list.node_before(5)), Some(2));
    assert_eq!(position(list.node_after(5)), Some(9));
    let found = list.node_at(5).unwrap();
    assert_eq!(found.node_index, 2);
    assert_eq!(found.degree, 0);
    assert!(found.super_traversal.is_none());
}

#[test]
fn insert_between_two_nodes_nests() {
    let mut list = HollowSpacedList::<i64>::new();
    list.append_node(10);
    assert_eq!(list.size(), 1);
    list.insert_node(4);
    assert_eq!(list.length(), 10);
    assert_eq!(list.size(), 1);
    assert_eq!(list.capacity(), 1);
    let nested = list.skeleton().get_sublist_at(0).as_ref().unwrap();
    assert_eq!(nested.size(), 1);
    assert_eq!(nested.length(), 4);
    assert!(nested.skeleton().get_sublist_at(0).is_none());
    let found = list.node_at(4).unwrap();
    assert_eq!(found.position, 4);
    assert_eq!(found.node_index, 1);
    let outer = found.super_traversal.as_ref().unwrap();
    assert_eq!(outer.position, 0);
    assert_eq!(outer.node_index, 0);
    assert_eq!(position(list.node_at(0)), Some(0));
    assert_eq!(position(list.node_at(10)), Some(10));
    assert_eq!(position(list.node_after(4)), Some(10));
    assert_eq!(position(list.node_after(0)), Some(4));
    assert_eq!(position(list.node_before(10)), Some(4));
    assert_eq!(position(list.node_at_or_before(9)), Some(4));
    assert_eq!(position(list.node_at_or_after(1)), Some(4));
    assert_eq!(position(list.node_at_or_after(5)), Some(10));
}

#[test]
fn insert_behind_the_end_is_append() {
    let count: i64 = 1000000;
    let mut inserted = HollowSpacedList::<i64>::new();
    let mut appended = HollowSpacedList::<i64>::new();
    for n in 0..count {
        inserted.insert_node(n);
        appended.append_node(if n == 0 { 0 } else { 1 });
    }
    assert_eq!(inserted.length(), appended.length());
    assert_eq!(inserted.size(), appended.size());
    assert_eq!(inserted.capacity(), appended.capacity());
    for index in 0..inserted.capacity() {
        assert_eq!(
            inserted.skeleton().get_link_length_at(index),
            appended.skeleton().get_link_length_at(index)
        );
        assert!(inserted.skeleton().get_sublist_at(index).is_none());
        assert!(appended.skeleton().get_sublist_at(index).is_none());
    }
    for n in (-2..count + 2).step_by(7) {
        let left = inserted.node_at(n);
        let right = appended.node_at(n);
        assert_eq!(left.as_ref().map(|c| c.node_index), right.as_ref().map(|c| c.node_index));
        assert_eq!(position(left), position(right));
        assert_eq!(position(inserted.node_before(n)), position(appended.node_before(n)));
        assert_eq!(position(inserted.node_after(n)), position(appended.node_after(n)));
        assert_eq!(
            position(inserted.node_at_or_before(n)),
            position(appended.node_at_or_before(n))
        );
        assert_eq!(
            position(inserted.node_at_or_after(n)),
            position(appended.node_at_or_after(n))
        );
    }
}
