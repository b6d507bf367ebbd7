use spaced_list::{HollowSpacedList, SpacedList, Traversal};

fn at(found: Option<Traversal<i64>>) -> Option<i64> {
    found.map(|cursor| cursor.position)
}

/// The answers that a sorted vector of all node positions gives.
fn expected(nodes: &[i64], position: i64) -> [Option<i64>; 5] {
    let before = nodes.iter().copied().filter(|&q| q < position).max();
    let at_or_before = nodes.iter().copied().filter(|&q| q <= position).max();
    let at = nodes.iter().copied().find(|&q| q == position);
    let at_or_after = nodes.iter().copied().filter(|&q| q >= position).min();
    let after = nodes.iter().copied().filter(|&q| q > position).min();
    [before, at_or_before, at, at_or_after, after]
}

fn answers(list: &HollowSpacedList<i64>, position: i64) -> [Option<i64>; 5] {
    [
        at(list.node_before(position)),
        at(list.node_at_or_before(position)),
        at(list.node_at(position)),
        at(list.node_at_or_after(position)),
        at(list.node_after(position)),
    ]
}

#[test]
fn empty_list_has_only_the_root() {
    let list = HollowSpacedList::<i64>::new();
    assert_eq!(list.length(), 0);
    assert_eq!(list.size(), 0);
    assert_eq!(list.capacity(), 0);
    assert!(list.is_empty());
    assert!(list.is_full());
    assert_eq!(answers(&list, 0), [None, Some(0), Some(0), Some(0), None]);
    assert_eq!(answers(&list, 1), [Some(0), Some(0), None, None, None]);
    assert_eq!(answers(&list, -1), [None, None, None, Some(0), Some(0)]);
    let root = list.node_at(0).unwrap();
    assert_eq!(root.node_index, 0);
    assert_eq!(root.degree, 0);
    assert_eq!(root.link_index, 0);
}

#[test]
fn queries_at_the_ends() {
    let mut list = HollowSpacedList::<i64>::new();
    list.append_node(10);
    assert_eq!(answers(&list, 10), [Some(0), Some(10), Some(10), Some(10), None]);
    assert_eq!(answers(&list, 11), [Some(10), Some(10), None, None, None]);
    assert_eq!(answers(&list, 0), [None, Some(0), Some(0), Some(0), Some(10)]);
    assert_eq!(answers(&list, -7), [None, None, None, Some(0), Some(0)]);
    let last = list.node_at_or_after(10).unwrap();
    assert_eq!(last.node_index, 1);
    assert_eq!(last.position, list.length());
}

#[test]
fn a_second_node_at_a_taken_position_lands_behind_the_first() {
    let mut list = HollowSpacedList::<i64>::new();
    list.insert_node(5);
    list.insert_node(9);
    list.insert_node(5);
    assert_eq!(list.size(), 2);
    assert_eq!(list.length(), 9);
    let nested = list.skeleton().get_sublist_at(1).as_ref().unwrap();
    assert_eq!(nested.size(), 1);
    assert_eq!(nested.length(), 0);
    let found = list.node_at(5).unwrap();
    assert_eq!(found.position, 5);
    assert_eq!(found.node_index, 1);
    assert_eq!(found.super_traversal.as_ref().unwrap().node_index, 1);
    assert_eq!(at(list.node_after(5)), Some(9));
    assert_eq!(at(list.node_before(5)), Some(0));

    let mut doubled = HollowSpacedList::<i64>::new();
    doubled.insert_node(0);
    doubled.insert_node(0);
    assert_eq!(doubled.size(), 2);
    assert_eq!(doubled.length(), 0);
    assert_eq!(doubled.node_at(0).unwrap().node_index, 2);
    assert_eq!(at(doubled.node_after(0)), None);
    assert_eq!(at(doubled.node_after(-1)), Some(0));
}

#[test]
fn nodes_nest_as_deep_as_they_are_inserted() {
    let mut list = HollowSpacedList::<i64>::new();
    list.append_node(1000);
    list.insert_node(500);
    list.insert_node(250);
    list.insert_node(125);
    list.insert_node(750);
    assert_eq!(list.size(), 1);
    let first = list.skeleton().get_sublist_at(0).as_ref().unwrap();
    assert_eq!(first.size(), 2);
    assert_eq!(first.length(), 750);
    let second = first.skeleton().get_sublist_at(0).as_ref().unwrap();
    assert_eq!(second.size(), 1);
    assert_eq!(second.length(), 250);
    let third = second.skeleton().get_sublist_at(0).as_ref().unwrap();
    assert_eq!(third.length(), 125);
    let found = list.node_at(125).unwrap();
    assert_eq!(found.node_index, 1);
    let mut levels = 0;
    let mut outer = &found.super_traversal;
    while let Some(cursor) = outer {
        assert_eq!(cursor.position, 0);
        assert_eq!(cursor.node_index, 0);
        levels += 1;
        outer = &cursor.super_traversal;
    }
    assert_eq!(levels, 3);
    let nodes = [0, 125, 250, 500, 750, 1000];
    for position in -2..1003 {
        assert_eq!(answers(&list, position), expected(&nodes, position));
    }
}

#[test]
fn queries_agree_with_a_sorted_vector() {
    let mut state: u64 = 0x2545F4914F6CDD1D;
    let mut next = move |bound: u64| {
        state ^= state << 13;
        state ^= state >> 7;
        state ^= state << 17;
        state % bound
    };
    for round in 0..60 {
        let span = [6, 40, 2000][round % 3];
        let count = 1 + next(70);
        let mut list = HollowSpacedList::<i64>::new();
        let mut nodes: Vec<i64> = vec![0];
        let mut put_in = 0;
        for _ in 0..count {
            if next(4) == 0 {
                let distance = next(5) as i64;
                list.append_node(distance);
                nodes.push(list.length());
            } else {
                let position = next(span) as i64;
                list.insert_node(position);
                nodes.push(position);
            }
            put_in += 1;
        }
        nodes.sort();
        assert_eq!(list.length(), *nodes.last().unwrap());
        assert_eq!(count_nodes(&list), put_in);
        for position in -3..(span as i64 + 8) {
            assert_eq!(answers(&list, position), expected(&nodes, position));
        }
    }
}

/// The number of nodes that were put into `list` and into the lists nested in it.
fn count_nodes(list: &HollowSpacedList<i64>) -> usize {
    let mut count = list.size();
    for index in 0..list.capacity() {
        if let Some(nested) = list.skeleton().get_sublist_at(index) {
            assert!(index < list.size());
            count += count_nodes(nested);
        }
    }
    count
}

#[test]
fn a_walk_visits_every_position_in_order() {
    let mut list = HollowSpacedList::<i64>::new();
    let positions = [0, 40, 12, 7, 33, 41, 90, 13, 64, 8, 2, 77];
    for position in positions {
        list.insert_node(position);
    }
    let mut sorted = positions.to_vec();
    sorted.sort();
    let mut visited = vec![];
    let mut current = list.node_at_or_after(0);
    while let Some(cursor) = current {
        visited.push(cursor.position);
        current = list.node_after(cursor.position);
    }
    assert_eq!(visited, sorted);
    assert_eq!(visited.len(), positions.len());
}

#[test]
fn the_length_is_the_greatest_position() {
    let mut list = HollowSpacedList::<i64>::new();
    assert_eq!(list.length(), 0);
    let mut greatest = 0;
    let mut appended = 0;
    for position in [5, 3, 9, 9, 1, 20, 7, 20, 21] {
        let behind = position >= list.length();
        list.insert_node(position);
        if behind {
            appended += 1;
        }
        greatest = greatest.max(position);
        assert_eq!(list.length(), greatest);
        assert_eq!(list.size(), appended);
    }
    assert_eq!(count_nodes(&list), 9);
}

#[test]
fn floor_and_successor_below_the_length() {
    let mut list = HollowSpacedList::<i64>::new();
    for position in [4, 9, 6, 15, 11, 5] {
        list.insert_node(position);
    }
    for position in 0..list.length() {
        let floor = list.node_at_or_before(position).unwrap();
        assert!(floor.position <= position);
        let successor = list.node_after(position).unwrap();
        assert!(successor.position > position);
    }
    assert_eq!(at(list.node_at_or_after(15)), Some(15));
    assert_eq!(at(list.node_at_or_after(16)), None);
    assert_eq!(at(list.node_after(15)), None);
    assert_eq!(at(list.node_after(14)), Some(15));
}

#[test]
fn the_capacity_doubles() {
    let mut list = HollowSpacedList::<i64>::new();
    let mut capacities = vec![];
    for _ in 0..17 {
        list.append_node(1);
        capacities.push(list.capacity());
    }
    assert_eq!(capacities, vec![1, 2, 4, 4, 8, 8, 8, 8, 16, 16, 16, 16, 16, 16, 16, 16, 32]);
    for exponent in 0..10 {
        let mut grown = HollowSpacedList::<i64>::new();
        for _ in 0..(1 << exponent) + 1 {
            grown.append_node(3);
        }
        assert_eq!(grown.capacity(), 1 << (exponent + 1));
        assert!(!grown.is_full() || exponent == 0);
    }
}

#[test]
fn unsigned_positions() {
    let mut list = HollowSpacedList::<u64>::new();
    assert_eq!(list.length(), 0);
    assert_eq!(list.traversal().position, 0);
    list.insert_node(30);
    list.insert_node(10);
    list.append_node(5);
    list.insert_node(u64::MAX);
    assert_eq!(list.length(), u64::MAX);
    assert_eq!(list.size(), 3);
    assert_eq!(list.node_at(10).map(|cursor| cursor.position), Some(10));
    assert_eq!(list.node_before(10).map(|cursor| cursor.position), Some(0));
    assert_eq!(list.node_after(35).map(|cursor| cursor.position), Some(u64::MAX));
    assert_eq!(list.node_at_or_before(u64::MAX - 1).map(|cursor| cursor.position), Some(35));
    assert!(list.node_after(u64::MAX).is_none());
}

#[test]
fn the_extremes_of_signed_positions() {
    let mut list = HollowSpacedList::<i64>::new();
    list.insert_node(i64::MAX);
    list.insert_node(i64::MAX - 1);
    assert_eq!(list.length(), i64::MAX);
    assert_eq!(at(list.node_before(i64::MAX)), Some(i64::MAX - 1));
    assert_eq!(at(list.node_at_or_after(i64::MIN)), Some(0));
    assert_eq!(at(list.node_at_or_before(i64::MIN)), None);
    assert_eq!(at(list.node_after(i64::MAX)), None);
    assert_eq!(at(list.node_at_or_before(i64::MAX)), Some(i64::MAX));
}

#[test]
fn the_trait_offers_the_same_operations() {
    let mut list = HollowSpacedList::<i64>::new();
    assert!(SpacedList::is_empty(&list));
    assert!(SpacedList::is_full(&list));
    SpacedList::append_node(&mut list, 8);
    SpacedList::insert_node(&mut list, 3);
    assert!(!SpacedList::is_empty(&list));
    assert_eq!(SpacedList::length(&list), 8);
    assert_eq!(SpacedList::size(&list), 1);
    assert_eq!(SpacedList::capacity(&list), 1);
    assert_eq!(at(SpacedList::node_at(&list, 3)), Some(3));
    assert_eq!(at(SpacedList::node_before(&list, 3)), Some(0));
    assert_eq!(at(SpacedList::node_at_or_before(&list, 7)), Some(3));
    assert_eq!(at(SpacedList::node_at_or_after(&list, 4)), Some(8));
    assert_eq!(at(SpacedList::node_after(&list, 8)), None);
}

#[test]
fn positions_of_every_width_start_at_zero() {
    assert_eq!(HollowSpacedList::<i8>::new().traversal().position, 0);
    assert_eq!(HollowSpacedList::<i16>::new().traversal().position, 0);
    assert_eq!(HollowSpacedList::<i32>::new().traversal().position, 0);
    assert_eq!(HollowSpacedList::<i64>::new().traversal().position, 0);
    assert_eq!(HollowSpacedList::<i128>::new().traversal().position, 0);
    assert_eq!(HollowSpacedList::<isize>::new().traversal().position, 0);
    assert_eq!(HollowSpacedList::<u8>::new().traversal().position, 0);
    assert_eq!(HollowSpacedList::<u16>::new().traversal().position, 0);
    assert_eq!(HollowSpacedList::<u32>::new().traversal().position, 0);
    assert_eq!(HollowSpacedList::<u64>::new().traversal().position, 0);
    assert_eq!(HollowSpacedList::<u128>::new().traversal().position, 0);
    assert_eq!(HollowSpacedList::<usize>::new().traversal().position, 0);
    let mut tiny = HollowSpacedList::<i8>::new();
    tiny.insert_node(i8::MAX);
    tiny.insert_node(5);
    tiny.grow();
    assert_eq!(tiny.skeleton().get_link_length_at(0), 127);
    assert_eq!(tiny.skeleton().get_link_length_at(1), 127);
    assert_eq!(tiny.node_before(127).map(|cursor| cursor.position), Some(5));
    let mut wide = HollowSpacedList::<u128>::new();
    wide.append_node(u128::MAX);
    wide.grow();
    assert_eq!(wide.skeleton().get_link_length_at(1), u128::MAX);
    assert_eq!(wide.node_after(0).map(|cursor| cursor.position), Some(u128::MAX));
    let mut short = HollowSpacedList::<u16>::new();
    short.append_node(9);
    short.grow();
    assert_eq!(short.skeleton().get_link_length_at(1), 9);
    let mut byte = HollowSpacedList::<u8>::new();
    byte.append_node(200);
    byte.grow();
    assert_eq!(byte.skeleton().get_link_length_at(1), 200);
    let mut word = HollowSpacedList::<i16>::new();
    word.append_node(300);
    word.grow();
    assert_eq!(word.skeleton().get_link_length_at(1), 300);
    let mut long = HollowSpacedList::<i128>::new();
    long.append_node(i128::MAX);
    long.grow();
    assert_eq!(long.skeleton().get_link_length_at(1), i128::MAX);
    let mut native = HollowSpacedList::<isize>::new();
    native.append_node(4);
    native.grow();
    assert_eq!(native.skeleton().get_link_length_at(1), 4);
}

#[test]
fn positions_of_other_widths() {
    let mut narrow = HollowSpacedList::<u32>::new();
    assert_eq!(narrow.length(), 0);
    assert_eq!(narrow.traversal().position, 0);
    narrow.insert_node(7);
    narrow.insert_node(u32::MAX);
    narrow.insert_node(3);
    assert_eq!(narrow.skeleton().get_link_length_at(0), 7);
    assert_eq!(narrow.node_after(7).map(|cursor| cursor.position), Some(u32::MAX));
    assert_eq!(narrow.node_before(7).map(|cursor| cursor.position), Some(3));

    let mut offsets = HollowSpacedList::<usize>::new();
    assert_eq!(offsets.length(), 0);
    assert_eq!(offsets.traversal().position, 0);
    offsets.append_node(12);
    offsets.grow();
    assert_eq!(offsets.skeleton().get_link_length_at(1), 12);
    offsets.insert_node(40);
    offsets.insert_node(20);
    assert_eq!(offsets.skeleton().get_link_length_at(1), 40);
    assert_eq!(offsets.node_at_or_before(39).map(|cursor| cursor.position), Some(20));
    assert_eq!(offsets.node_at(0).map(|cursor| cursor.position), Some(0));

    let mut signed = HollowSpacedList::<i32>::new();
    assert_eq!(signed.traversal().position, 0);
    signed.insert_node(i32::MAX);
    signed.insert_node(0);
    assert_eq!(signed.length(), i32::MAX);
    assert_eq!(signed.node_at_or_after(-5).map(|cursor| cursor.position), Some(0));
    assert_eq!(signed.node_after(0).map(|cursor| cursor.position), Some(i32::MAX));
}
