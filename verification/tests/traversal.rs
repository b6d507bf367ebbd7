use spaced_list::HollowSpacedList;

#[test]
fn advance_while() {
    let mut list = HollowSpacedList::<i64>::new();
    for n in 0..=1000000 {
        list.insert_node(n)
    }

    for n in 0..1000000 {
        list.node_at(n);
    }
}
