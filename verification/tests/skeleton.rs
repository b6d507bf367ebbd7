use spaced_list::navigation::{
    can_have_link_index_at, link_index_down_left, link_index_down_right, link_index_left,
    link_index_right, link_index_up_left, link_index_up_right, node_index_down, node_index_left,
    node_index_right, node_index_up,
};
use spaced_list::{HollowSpacedList, SpacedListSkeleton};

fn links(skeleton: &SpacedListSkeleton<i64>) -> Vec<i64> {
    (0..skeleton.capacity()).map(|index| skeleton.get_link_length_at(index)).collect()
}

#[test]
fn growing_doubles_and_keeps_the_length() {
    let mut skeleton = SpacedListSkeleton::<i64>::default();
    assert_eq!(skeleton.capacity(), 0);
    assert_eq!(skeleton.depth(), 0);
    assert_eq!(skeleton.length(), 0);
    skeleton.grow();
    assert_eq!(links(&skeleton), vec![0]);
    assert_eq!(skeleton.depth(), 1);
    skeleton.inflate_at(0, 7);
    assert_eq!(skeleton.length(), 7);
    skeleton.grow();
    assert_eq!(links(&skeleton), vec![7, 7]);
    assert_eq!(skeleton.depth(), 2);
    skeleton.grow();
    assert_eq!(links(&skeleton), vec![7, 7, 0, 7]);
    assert_eq!(skeleton.depth(), 3);
    skeleton.grow();
    assert_eq!(links(&skeleton), vec![7, 7, 0, 7, 0, 0, 0, 7]);
    assert_eq!(skeleton.depth(), 4);
    assert_eq!(skeleton.length(), 7);
    for index in 0..8 {
        assert!(skeleton.get_sublist_at(index).is_none());
        assert!(skeleton.is_in_bounds(index));
    }
    assert!(!skeleton.is_in_bounds(8));
    assert!(skeleton.is_slot(7));
    assert!(!skeleton.is_slot(8));
    assert_eq!(skeleton.last_link_index(), 7);
}

#[test]
fn inflating_changes_the_links_that_span_the_slot() {
    let mut skeleton = SpacedListSkeleton::<i64>::default();
    for _ in 0..4 {
        skeleton.grow();
    }
    assert_eq!(skeleton.capacity(), 8);
    skeleton.inflate_at(0, 1);
    assert_eq!(links(&skeleton), vec![1, 1, 0, 1, 0, 0, 0, 1]);
    skeleton.inflate_at(1, 10);
    assert_eq!(links(&skeleton), vec![1, 11, 0, 11, 0, 0, 0, 11]);
    skeleton.inflate_at(2, 100);
    assert_eq!(links(&skeleton), vec![1, 11, 100, 111, 0, 0, 0, 111]);
    skeleton.inflate_at(5, 1000);
    assert_eq!(links(&skeleton), vec![1, 11, 100, 111, 0, 1000, 0, 1111]);
    skeleton.inflate_at(7, 5);
    assert_eq!(links(&skeleton), vec![1, 11, 100, 111, 0, 1000, 0, 1116]);
    skeleton.inflate_at(4, 2);
    assert_eq!(links(&skeleton), vec![1, 11, 100, 111, 2, 1002, 0, 1118]);
    skeleton.inflate_at(6, 3);
    skeleton.inflate_at(3, 4);
    assert_eq!(links(&skeleton), vec![1, 11, 100, 115, 2, 1002, 3, 1125]);
}

#[test]
fn deflating_undoes_inflating() {
    let mut skeleton = SpacedListSkeleton::<i64>::default();
    for _ in 0..6 {
        skeleton.grow();
    }
    for index in 0..skeleton.capacity() {
        skeleton.inflate_at(index, (index as i64 * 37) % 11);
    }
    let before = links(&skeleton);
    for index in 0..skeleton.capacity() {
        skeleton.inflate_at(index, 12345);
        assert_ne!(links(&skeleton), before);
        skeleton.deflate_at(index, 12345);
        assert_eq!(links(&skeleton), before);
        skeleton.deflate_at(index, 3);
        skeleton.inflate_at(index, 3);
        assert_eq!(links(&skeleton), before);
    }
}

#[test]
fn inflating_every_link_of_a_large_skeleton() {
    let mut skeleton = SpacedListSkeleton::<i32>::default();
    for _ in 0..14 {
        skeleton.grow();
    }
    assert_eq!(skeleton.capacity(), 1 << 13);
    assert_eq!(skeleton.depth(), 14);
    for link_index in 0..skeleton.capacity() {
        skeleton.inflate_at(link_index, 2)
    }
    assert_eq!(skeleton.length(), 2 << 13);
    assert_eq!(skeleton.get_link_length_at(0), 2);
    assert_eq!(skeleton.get_link_length_at(1), 4);
    assert_eq!(skeleton.get_link_length_at((1 << 12) - 1), 2 << 12);
}

#[test]
fn links_and_slots_can_be_changed_in_place() {
    let mut skeleton = SpacedListSkeleton::<i64>::default();
    skeleton.grow();
    skeleton.grow();
    *skeleton.get_link_length_at_mut(1) += 6;
    *skeleton.get_link_length_at_mut(0) = 2;
    assert_eq!(links(&skeleton), vec![2, 6]);
    assert!(skeleton.get_sublist_at(0).is_none());
    assert_eq!(skeleton.get_or_add_sublist_at(0).size(), 0);
    assert!(skeleton.get_sublist_at(0).is_some());
    skeleton.get_or_add_sublist_at_mut(0).append_node(1);
    skeleton.get_or_add_sublist_at_mut(0).append_node(1);
    assert_eq!(skeleton.get_or_add_sublist_at(0).size(), 2);
    assert_eq!(skeleton.get_sublist_at(0).as_ref().unwrap().length(), 2);
    assert!(skeleton.get_sublist_at(1).is_none());
    let taken = skeleton.get_sublist_at_mut(0).take();
    assert_eq!(taken.unwrap().size(), 2);
    assert!(skeleton.get_sublist_at(0).is_none());
}

#[test]
fn growing_a_list_moves_no_node() {
    let mut list = HollowSpacedList::<i64>::new();
    list.append_node(4);
    assert_eq!(list.skeleton().capacity(), 1);
    list.grow();
    assert_eq!(list.capacity(), 2);
    assert_eq!(list.size(), 1);
    assert_eq!(list.length(), 4);
    assert_eq!(links(list.skeleton()), vec![4, 4]);
    assert_eq!(list.traversal().link_index, 1);
    assert_eq!(list.node_at(4).unwrap().node_index, 1);
    list.append_node(3);
    assert_eq!(list.capacity(), 2);
    assert_eq!(list.length(), 7);
    assert_eq!(links(list.skeleton()), vec![4, 7]);
    assert_eq!(list.node_at(4).unwrap().node_index, 1);
    assert_eq!(list.node_at(7).unwrap().node_index, 2);
}

#[test]
fn index_arithmetic() {
    assert_eq!(node_index_right(4, 0), 5);
    assert_eq!(node_index_right(4, 2), 8);
    assert_eq!(node_index_left(4, 2), 0);
    assert_eq!(node_index_left(7, 0), 6);
    assert_eq!(node_index_up(6), 6);
    assert_eq!(node_index_down(6), 6);
    assert_eq!(link_index_right(1, 1), 5);
    assert_eq!(link_index_left(5, 1), 1);
    assert_eq!(link_index_right(0, 0), 2);
    assert_eq!(link_index_up_right(2, 0), 3);
    assert_eq!(link_index_up_left(2, 0), 1);
    assert_eq!(link_index_up_right(1, 1), 3);
    assert_eq!(link_index_down_right(3, 2), 5);
    assert_eq!(link_index_down_left(3, 2), 1);
    assert_eq!(link_index_down_left(7, 3), 3);
    assert!(can_have_link_index_at(0, 3));
    assert!(can_have_link_index_at(4, 1));
    assert!(!can_have_link_index_at(4, 2));
    assert!(can_have_link_index_at(6, 0));
    assert!(!can_have_link_index_at(5, 0));
    let mut skeleton = SpacedListSkeleton::<i64>::default();
    skeleton.grow();
    skeleton.grow();
    skeleton.grow();
    assert!(skeleton.has_link_index_at(0, 2));
    assert!(skeleton.has_link_index_at(2, 0));
    assert!(!skeleton.has_link_index_at(2, 1));
    assert!(!skeleton.has_link_index_at(4, 0));
}
