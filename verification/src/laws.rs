//! Laws that relate the operations of a spaced list to one another.
//!
//! Each law is stated over the spec functions that the contracts of the
//! operations use, so that it can be applied to what the operations return.

use crate::binary::lemma_pow2_double;
use crate::hollow::HollowSpacedList;
use crate::skeleton::{
    dyadic, inflated, lemma_dyadic_double, lemma_dyadic_one, levels, spans, SpacedListSkeleton,
};
use crate::spacing::Spacing;
use crate::traversal::Traversal;
use vstd::arithmetic::power2::{lemma2_to64, lemma_pow2_pos, lemma_pow2_strictly_increases, pow2};
use vstd::multiset::Multiset;
use vstd::prelude::*;

verus! {

impl<'a, S: Spacing> Traversal<'a, S> {
    /// The number of lists that the cursor has entered on its way: the
    /// number of cursors that it keeps.
    pub open spec fn nesting(self) -> nat
        decreases self,
    {
        match self.super_traversal {
            Some(outer) => outer.nesting() + 1,
            None => 0,
        }
    }

    /// The cursor itself or one of the cursors it keeps: the one that has
    /// entered `level` lists.
    pub open spec fn at_nesting(self, level: nat) -> Self
        decreases self,
    {
        match self.super_traversal {
            Some(outer) => if self.nesting() <= level {
                self
            } else {
                outer.at_nesting(level)
            },
            None => self,
        }
    }

    /// Whether the cursor stands on the finest level, at or before `limit`
    /// unless it stands at roots only, and what follows it lies behind
    /// `limit`.
    pub open spec fn floors(self, limit: int) -> bool {
        &&& self.degree == 0
        &&& self.at_node()
        &&& self.position.value() <= limit || self.at_roots()
        &&& self.has_successor() ==> self.successor_position() > limit
    }

    /// Whether the cursor and every cursor that it keeps floors `limit`.
    pub open spec fn floors_throughout(self, limit: int) -> bool
        decreases self,
    {
        &&& self.floors(limit)
        &&& match self.super_traversal {
            Some(outer) => outer.floors_throughout(limit),
            None => true,
        }
    }

    /// A cursor that floors a limit has come through cursors that floor it.
    pub proof fn lemma_floors_throughout(self, limit: int)
        requires
            self.wf(),
            self.floors(limit),
        ensures
            self.floors_throughout(limit),
        decreases self,
    {
        match self.super_traversal {
            Some(outer) => {
                assert(outer.wf());
                outer.lemma_next_is_behind();
                self.lemma_not_before_root();
                self.list.lemma_positions_ordered(self.node_index as nat, self.list.spec_size());
                assert(pow2(0) == 1) by {
                    lemma2_to64();
                }
                if self.node_index + 1 <= self.list.spec_size() {
                    self.list.lemma_positions_ordered(
                        (self.node_index + 1) as nat,
                        self.list.spec_size(),
                    );
                }
                outer.lemma_floors_throughout(limit);
            },
            None => {},
        }
    }

    /// Two cursors that have come the same way into the same list and floor
    /// the same limit are the same cursor.
    pub proof fn lemma_same_slot(self, other: Self, limit: int)
        requires
            self.wf(),
            other.wf(),
            self.list == other.list,
            self.super_traversal == other.super_traversal,
            self.floors(limit),
            other.floors(limit),
        ensures
            self == other,
    {
        assert(pow2(0) == 1) by {
            lemma2_to64();
        }
        if self.node_index < other.node_index {
            self.list.lemma_positions_ordered(
                (self.node_index + 1) as nat,
                other.node_index as nat,
            );
        } else if other.node_index < self.node_index {
            self.list.lemma_positions_ordered(
                (other.node_index + 1) as nat,
                self.node_index as nat,
            );
        }
        self.position.lemma_value_injective(other.position);
    }

    /// Two cursors for one list that have entered equally many lists and
    /// floor the same limit throughout are the same cursor.
    pub proof fn lemma_same_level(self, other: Self, limit: int)
        requires
            self.wf(),
            other.wf(),
            self.root_list() == other.root_list(),
            self.nesting() == other.nesting(),
            self.floors_throughout(limit),
            other.floors_throughout(limit),
        ensures
            self == other,
        decreases self,
    {
        match self.super_traversal {
            Some(outer) => {
                let beside: Self = *other.super_traversal.unwrap();
                assert(outer.wf());
                assert(beside.wf());
                outer.lemma_same_level(beside, limit);
                assert(*outer == beside);
                assert(*self.list == *other.list);
                assert(self.super_traversal == other.super_traversal);
            },
            None => {},
        }
        self.lemma_same_slot(other, limit);
    }

    /// What the cursor kept when it had entered `level` lists is a
    /// well-formed cursor for the same list, and floors what the cursor
    /// floors throughout. With one list more entered, it stood in the list
    /// nested below the node of that cursor.
    pub proof fn lemma_at_nesting(self, level: nat, limit: int)
        requires
            self.wf(),
            level <= self.nesting(),
        ensures
            self.at_nesting(level).wf(),
            self.at_nesting(level).nesting() == level,
            self.at_nesting(level).root_list() == self.root_list(),
            self.floors_throughout(limit) ==> self.at_nesting(level).floors_throughout(limit),
            level < self.nesting() ==> self.at_nesting(level).node_index < self.at_nesting(
                level,
            ).list.slot_count() && self.at_nesting(level).list.sublist_at(
                self.at_nesting(level).node_index as int,
            ) is Some,
        decreases self,
    {
        match self.super_traversal {
            Some(outer) => {
                assert(outer.wf());
                if level < self.nesting() {
                    outer.lemma_at_nesting(level, limit);
                }
            },
            None => {},
        }
    }
}

impl<'a, S: Spacing> Traversal<'a, S> {
    /// A cursor advances to one cursor only.
    pub proof fn lemma_advance_is_determined(self, first: Self, second: Self)
        requires
            self.advances_to(first),
            self.advances_to(second),
        ensures
            first == second,
        decreases self,
    {
        if self.node_index + self.step() <= self.list.spec_capacity() {
            first.position.lemma_value_injective(second.position);
        } else {
            match self.super_traversal {
                Some(outer) => {
                    outer.lemma_advance_is_determined(first, second);
                },
                None => {},
            }
        }
    }

    /// One cursor only stands at the node that follows a cursor.
    pub proof fn lemma_successor_is_determined(self, first: Self, second: Self)
        requires
            self.succeeds_to(first),
            self.succeeds_to(second),
        ensures
            first == second,
        decreases self,
    {
        if self.node_index + self.step() <= self.list.spec_size() {
            first.position.lemma_value_injective(second.position);
        } else {
            match self.super_traversal {
                Some(outer) => {
                    outer.lemma_successor_is_determined(first, second);
                },
                None => {},
            }
        }
    }
}

/// A limit has one floor: two cursors that both stand at the last node at or
/// before `limit`, as the queries return them, are the same cursor, with the
/// same node in the same list, reached the same way.
pub proof fn lemma_floor_is_unique<'a, S: Spacing>(
    list: &HollowSpacedList<S>,
    first: Traversal<'a, S>,
    second: Traversal<'a, S>,
    limit: int,
)
    requires
        list.is_floor(first, limit),
        list.is_floor(second, limit),
    ensures
        first == second,
{
    first.lemma_floors_throughout(limit);
    second.lemma_floors_throughout(limit);
    let shallow: Traversal<'a, S> = if first.nesting() <= second.nesting() {
        first
    } else {
        second
    };
    let deep: Traversal<'a, S> = if first.nesting() <= second.nesting() {
        second
    } else {
        first
    };
    let level: nat = shallow.nesting();
    deep.lemma_at_nesting(level, limit);
    shallow.lemma_same_level(deep.at_nesting(level), limit);
}

/// A limit has one cursor above its floor: two cursors that both stand at
/// the first node behind the last node at or before `limit`, as the queries
/// return them, are the same cursor.
pub proof fn lemma_above_floor_is_unique<'a, S: Spacing>(
    list: &HollowSpacedList<S>,
    first: Traversal<'a, S>,
    second: Traversal<'a, S>,
    limit: int,
)
    requires
        list.is_above_floor(first, limit),
        list.is_above_floor(second, limit),
    ensures
        first == second,
{
    let below_first: Traversal<'a, S> = choose|floor: Traversal<'a, S>| #[trigger]
        list.is_floor(floor, limit) && if floor.position.value() > limit {
            first == floor
        } else {
            floor.succeeds_to(first)
        };
    let below_second: Traversal<'a, S> = choose|floor: Traversal<'a, S>| #[trigger]
        list.is_floor(floor, limit) && if floor.position.value() > limit {
            second == floor
        } else {
            floor.succeeds_to(second)
        };
    lemma_floor_is_unique(list, below_first, below_second, limit);
    if below_first.position.value() <= limit {
        below_first.lemma_successor_is_determined(first, second);
    }
}

/// The position that a walk along the list has reached after `steps` steps:
/// it starts at the first node at or behind position 0, which is what
/// `node_at_or_after` finds there, and each step goes on to the first node
/// strictly behind the position reached, which is what `node_after` finds.
/// `None` once the walk has left the list.
pub open spec fn walk<S: Spacing>(list: &HollowSpacedList<S>, steps: nat) -> Option<int>
    decreases steps,
{
    if steps == 0 {
        list.first_from(0)
    } else {
        match walk(list, (steps - 1) as nat) {
            Some(position) => list.first_from(position + 1),
            None => None,
        }
    }
}

/// The last node at or before `limit`, found by counting down from `limit`.
pub open spec fn last_until<S: Spacing>(list: &HollowSpacedList<S>, limit: int) -> int
    decreases limit,
{
    if limit <= 0 || list.has_node(limit) {
        limit
    } else {
        last_until(list, limit - 1)
    }
}

/// Counting down from a limit that is not negative ends at the last node at
/// or before that limit.
pub proof fn lemma_last_until<S: Spacing>(list: &HollowSpacedList<S>, limit: int)
    requires
        limit >= 0,
    ensures
        list.last_at_most(last_until(list, limit), limit),
        last_until(list, limit) >= 0,
    decreases limit,
{
    if limit > 0 && !list.has_node(limit) {
        lemma_last_until(list, limit - 1);
    }
}

/// A walk starts at the root.
pub proof fn lemma_walk_starts_at_root<S: Spacing>(list: &HollowSpacedList<S>)
    requires
        list.wf(),
    ensures
        walk(list, 0) == Some(0int),
{
    assert forall|other: int| list.has_node(other) implies other >= 0 by {
        list.lemma_node_in_range(other);
    }
    list.lemma_first_from(0, 0);
}

/// Each step of a walk leads to a node that lies strictly behind the one
/// before, and skips no node.
pub proof fn lemma_walk_ascends<S: Spacing>(list: &HollowSpacedList<S>, steps: nat)
    requires
        list.wf(),
        walk(list, steps + 1) is Some,
    ensures
        walk(list, steps) is Some,
        walk(list, steps).unwrap() < walk(list, steps + 1).unwrap(),
        list.has_node(walk(list, steps + 1).unwrap()),
        forall|other: int|
            list.has_node(other) && other > walk(list, steps).unwrap() ==> other >= walk(
                list,
                steps + 1,
            ).unwrap(),
{
    let limit: int = walk(list, steps).unwrap() + 1;
    let chosen: int = choose|found: int| list.first_at_least(found, limit);
    assert(list.first_at_least(chosen, limit));
}

/// A walk comes to every node: to the node at `position` after at most
/// `position` steps.
pub proof fn lemma_walk_visits<S: Spacing>(list: &HollowSpacedList<S>, position: int)
    requires
        list.wf(),
        list.has_node(position),
    ensures
        exists|steps: nat| steps <= position && walk(list, steps) == Some(position),
    decreases position,
{
    list.lemma_node_in_range(position);
    if position == 0 {
        lemma_walk_starts_at_root(list);
    } else {
        let before: int = last_until(list, position - 1);
        lemma_last_until(list, position - 1);
        lemma_walk_visits(list, before);
        let steps: nat = choose|steps: nat| steps <= before && walk(list, steps) == Some(before);
        list.lemma_first_from(position, before + 1);
        assert(walk(list, steps + 1) == Some(position));
    }
}

/// The number of positions from 0 to `limit` at which a node lies. Nodes that
/// share a position count once.
pub open spec fn positions_until<S: Spacing>(list: &HollowSpacedList<S>, limit: int) -> nat
    decreases limit + 1,
{
    if limit < 0 {
        0
    } else if list.has_node(limit) {
        positions_until(list, limit - 1) + 1
    } else {
        positions_until(list, limit - 1)
    }
}

/// A stretch without nodes adds nothing to the count of positions.
pub proof fn lemma_no_position_between<S: Spacing>(
    list: &HollowSpacedList<S>,
    low: int,
    high: int,
)
    requires
        low <= high,
        forall|position: int| low < position <= high ==> !list.has_node(position),
    ensures
        positions_until(list, high) == positions_until(list, low),
    decreases high - low,
{
    if low < high {
        lemma_no_position_between(list, low, high - 1);
    }
}

/// A walk passes every position at which a node lies once: when it has come
/// to a position after `steps` steps, there are `steps + 1` positions with a
/// node from the root to there. So a walk through the whole list yields as
/// many nodes as there are positions with a node, the root's among them.
pub proof fn lemma_walk_counts<S: Spacing>(list: &HollowSpacedList<S>, steps: nat)
    requires
        list.wf(),
        walk(list, steps) is Some,
    ensures
        positions_until(list, walk(list, steps).unwrap()) == steps + 1,
    decreases steps,
{
    if steps == 0 {
        lemma_walk_starts_at_root(list);
        assert(positions_until(list, -1) == 0);
    } else {
        let before: nat = (steps - 1) as nat;
        lemma_walk_ascends(list, before);
        lemma_walk_counts(list, before);
        lemma_no_position_between(
            list,
            walk(list, before).unwrap(),
            walk(list, steps).unwrap() - 1,
        );
    }
}

/// How many of `nodes` lie at positions from 0 to `limit`; each counts as
/// often as it occurs.
pub open spec fn occurrences_until(nodes: Multiset<int>, limit: int) -> nat
    decreases limit + 1,
{
    if limit < 0 {
        0
    } else {
        occurrences_until(nodes, limit - 1) + nodes.count(limit)
    }
}

/// Taking one node away takes one occurrence away, if the node lies in the
/// stretch that is counted.
proof fn lemma_occurrences_remove(nodes: Multiset<int>, limit: int, taken: int)
    requires
        nodes.contains(taken),
    ensures
        occurrences_until(nodes, limit) == occurrences_until(nodes.remove(taken), limit) + if 0
            <= taken <= limit {
            1nat
        } else {
            0nat
        },
    decreases limit + 1,
{
    if limit >= 0 {
        lemma_occurrences_remove(nodes, limit - 1, taken);
    }
}

/// Nodes that all lie from 0 to `limit` occur there as often as there are
/// nodes.
pub proof fn lemma_occurrences_total(nodes: Multiset<int>, limit: int)
    requires
        forall|position: int| nodes.contains(position) ==> 0 <= position <= limit,
    ensures
        occurrences_until(nodes, limit) == nodes.len(),
    decreases nodes.len(),
{
    if nodes.len() == 0 {
        lemma_occurrences_none(nodes, limit);
    } else {
        let taken: int = nodes.choose();
        let rest: Multiset<int> = nodes.remove(taken);
        vstd::multiset::axiom_choose_count(nodes);
        assert(Multiset::singleton(taken).subset_of(nodes)) by {
            assert forall|other: int|
                Multiset::singleton(taken).count(other) <= nodes.count(other) by {
                if other != taken {
                    vstd::multiset::axiom_multiset_singleton_different(taken, other);
                }
            }
        }
        assert forall|position: int| rest.contains(position) implies nodes.contains(position) by {}
        lemma_occurrences_remove(nodes, limit, taken);
        lemma_occurrences_total(rest, limit);
    }
}

/// An empty multiset occurs nowhere.
proof fn lemma_occurrences_none(nodes: Multiset<int>, limit: int)
    requires
        nodes.len() == 0,
    ensures
        occurrences_until(nodes, limit) == 0,
    decreases limit + 1,
{
    if limit >= 0 {
        lemma_occurrences_none(nodes, limit - 1);
    }
}

/// Where no two nodes share a position, the positions with a node are as
/// many as the nodes that were put in, and one more for the root if no node
/// was put where the root is.
pub proof fn lemma_positions_counted<S: Spacing>(list: &HollowSpacedList<S>, limit: int)
    requires
        limit >= 0,
        forall|position: int| list.inserted().count(position) <= 1,
    ensures
        positions_until(list, limit) == occurrences_until(list.inserted(), limit)
            + if list.inserted().contains(0) {
            0nat
        } else {
            1nat
        },
    decreases limit,
{
    if limit > 0 {
        lemma_positions_counted(list, limit - 1);
    } else {
        assert(positions_until(list, -1) == 0);
        assert(occurrences_until(list.inserted(), -1) == 0);
    }
}

/// A walk through a list in which no two nodes share a position yields every
/// node that was put in, once: when it has come to the last node, it has
/// yielded as many nodes as were put in, and the root before them unless a
/// node was put where the root is.
pub proof fn lemma_walk_yields_every_node<S: Spacing>(list: &HollowSpacedList<S>, steps: nat)
    requires
        list.wf(),
        forall|position: int| list.inserted().count(position) <= 1,
        walk(list, steps) == Some(list.spec_length()),
    ensures
        steps + 1 == list.inserted().len() + if list.inserted().contains(0) {
            0nat
        } else {
            1nat
        },
{
    lemma_walk_counts(list, steps);
    lemma_length_is_last_position(list);
    lemma_positions_counted(list, list.spec_length());
    assert forall|position: int| list.inserted().contains(position) implies 0 <= position
        <= list.spec_length() by {
        list.lemma_node_in_range(position);
    }
    lemma_occurrences_total(list.inserted(), list.spec_length());
}

/// A walk ends behind the last node: no step leads on from the list's length.
pub proof fn lemma_walk_ends<S: Spacing>(list: &HollowSpacedList<S>, steps: nat)
    requires
        list.wf(),
        walk(list, steps) == Some(list.spec_length()),
    ensures
        walk(list, steps + 1) is None,
{
    assert forall|other: int| list.has_node(other) implies other <= list.spec_length() by {
        list.lemma_node_in_range(other);
    }
}

/// The length of a list is the position of a node, and no node lies behind
/// it or before the root. A list without nodes of its own has length zero.
pub proof fn lemma_length_is_last_position<S: Spacing>(list: &HollowSpacedList<S>)
    requires
        list.wf(),
    ensures
        list.has_node(list.spec_length()),
        forall|position: int| list.has_node(position) ==> 0 <= position <= list.spec_length(),
        list.spec_size() == 0 ==> list.spec_length() == 0,
        list.first_from(list.spec_length()) == Some(list.spec_length()),
        forall|position: int| position > list.spec_length() ==> list.first_from(position) is None,
{
    list.lemma_length_is_node();
    list.lemma_positions_ordered(0, 0);
    assert forall|position: int| list.has_node(position) implies 0 <= position
        <= list.spec_length() by {
        list.lemma_node_in_range(position);
    }
    list.lemma_first_from(list.spec_length(), list.spec_length());
}

/// Putting a node into a list adds one to the count of the nodes that were
/// put in, makes its position that of a node, and neither adds nor removes
/// another position.
pub proof fn lemma_one_more_node<S: Spacing>(
    before: &HollowSpacedList<S>,
    after: &HollowSpacedList<S>,
    position: int,
)
    requires
        after.inserted() == before.inserted().insert(position),
    ensures
        after.inserted().len() == before.inserted().len() + 1,
        after.inserted().count(position) == before.inserted().count(position) + 1,
        forall|other: int| after.has_node(other) <==> before.has_node(other) || other == position,
{
}

/// The capacity grows by doubling: a list that was only appended to and
/// inserted into, and to which `2^k + 1` nodes were appended, has capacity
/// `2^(k + 1)`.
pub proof fn lemma_capacity_doubles<S: Spacing>(list: &HollowSpacedList<S>, k: nat)
    requires
        dyadic(list.spec_capacity()),
        list.tight(),
        list.spec_size() == pow2(k) + 1,
    ensures
        list.spec_capacity() == pow2(k + 1),
{
    let exponent: nat = (levels(list.spec_capacity()) - 1) as nat;
    lemma_pow2_pos(k);
    lemma_pow2_double(k);
    lemma_pow2_double(k + 1);
    if exponent <= k {
        if exponent < k {
            lemma_pow2_strictly_increases(exponent, k);
        }
    } else if exponent > k + 1 {
        if exponent > k + 2 {
            lemma_pow2_strictly_increases(k + 2, exponent);
        }
    }
}

/// Whether `lists` is the course of one list that starts empty and has one
/// node appended in each step, at whatever distance.
pub open spec fn appended_in_turn<S: Spacing>(lists: Seq<HollowSpacedList<S>>) -> bool {
    &&& lists.len() > 0
    &&& lists[0].spec_size() == 0
    &&& lists[0].spec_capacity() == 0
    &&& forall|step: int|
        #![trigger lists[step]]
        0 <= step < lists.len() - 1 ==> exists|distance: int| #[trigger]
            lists[step].appends_to(&lists[step + 1], distance)
}

/// Appending keeps the capacity the least that the size allows, and zero or
/// a power of two.
pub proof fn lemma_append_keeps_tight<S: Spacing>(
    before: &HollowSpacedList<S>,
    after: &HollowSpacedList<S>,
    distance: int,
)
    requires
        before.appends_to(after, distance),
        before.tight(),
        dyadic(before.spec_capacity()),
    ensures
        after.tight(),
        dyadic(after.spec_capacity()),
        after.spec_size() == before.spec_size() + 1,
{
    if before.spec_capacity() > 0 {
        lemma_dyadic_double(before.spec_capacity());
    }
    lemma_dyadic_one();
}

/// After `count` appends to an empty list the size is `count`, and the
/// capacity is the least power of two that holds it.
pub proof fn lemma_appends_keep_tight<S: Spacing>(lists: Seq<HollowSpacedList<S>>, count: nat)
    requires
        appended_in_turn(lists),
        count < lists.len(),
    ensures
        lists[count as int].spec_size() == count,
        lists[count as int].tight(),
        dyadic(lists[count as int].spec_capacity()),
    decreases count,
{
    if count > 0 {
        let step: int = count - 1;
        lemma_appends_keep_tight(lists, step as nat);
        let before: HollowSpacedList<S> = lists[step];
        let distance: int = choose|distance: int| #[trigger]
            before.appends_to(&lists[step + 1], distance);
        lemma_append_keeps_tight(&before, &lists[step + 1], distance);
    }
}

/// After `2^k + 1` appends to an empty list, at whatever distances, the
/// capacity is `2^(k + 1)`.
pub proof fn lemma_capacity_after_appends<S: Spacing>(lists: Seq<HollowSpacedList<S>>, k: nat)
    requires
        appended_in_turn(lists),
        lists.len() == pow2(k) + 2,
    ensures
        lists.last().spec_size() == pow2(k) + 1,
        lists.last().spec_capacity() == pow2(k + 1),
{
    lemma_appends_keep_tight(lists, pow2(k) + 1);
    lemma_capacity_doubles(&lists.last(), k);
}

/// Deflating what was inflated is always admitted: it takes every link back
/// to a length that it had, so no link leaves the range of `S`. And it
/// restores the links.
pub proof fn lemma_deflate_after_inflate<S: Spacing>(
    before: &SpacedListSkeleton<S>,
    between: &SpacedListSkeleton<S>,
    slot: nat,
    amount: int,
)
    requires
        between.links() == inflated(before.links(), slot, amount),
    ensures
        between.spec_capacity() == before.spec_capacity(),
        forall|j: int|
            0 <= j < between.spec_capacity() && spans(j as nat, slot) ==> S::representable(
                #[trigger] between.links()[j] - amount,
            ),
        inflated(between.links(), slot, -amount) == before.links(),
{
    assert(before.links().len() == before.link_values().len());
    assert forall|j: int|
        0 <= j < between.spec_capacity() && spans(j as nat, slot) implies S::representable(
        #[trigger] between.links()[j] - amount,
    ) by {
        assert(before.links()[j] == before.link_values()[j].value());
        before.link_values()[j].lemma_value_representable();
    }
    lemma_deflate_undoes_inflate(before.links(), slot, amount);
}

/// Deflating a link by the amount by which it was inflated restores every
/// link length.
pub proof fn lemma_deflate_undoes_inflate(links: Seq<int>, slot: nat, amount: int)
    ensures
        inflated(inflated(links, slot, amount), slot, -amount) == links,
        inflated(inflated(links, slot, -amount), slot, amount) == links,
{
}

/// Skeletons whose links denote the same integers store the same links. So
/// a skeleton that was inflated and deflated again stores what it stored
/// before.
pub proof fn lemma_links_restored<S: Spacing>(
    before: &SpacedListSkeleton<S>,
    after: &SpacedListSkeleton<S>,
)
    requires
        after.links() == before.links(),
    ensures
        after.link_values() == before.link_values(),
{
    assert(after.links().len() == after.link_values().len());
    assert(before.links().len() == before.link_values().len());
    assert forall|j: int| 0 <= j < after.link_values().len() implies after.link_values()[j]
        == before.link_values()[j] by {
        assert(after.links()[j] == after.link_values()[j].value());
        assert(before.links()[j] == before.link_values()[j].value());
        after.link_values()[j].lemma_value_injective(before.link_values()[j]);
    }
    assert(after.link_values() =~= before.link_values());
}

/// Inserting at or behind the last node is appending at the distance from
/// the last node.
pub proof fn lemma_insert_behind_end_is_append<S: Spacing>(
    before: &HollowSpacedList<S>,
    after: &HollowSpacedList<S>,
    position: int,
)
    requires
        position >= before.spec_length(),
    ensures
        before.inserts_to(after, position) == before.appends_to(
            after,
            position - before.spec_length(),
        ),
{
}

/// Two lists that come from appending the same distance to one list have the
/// same links, the same nested lists and so the same nodes: no query tells
/// them apart.
pub proof fn lemma_append_is_determined<S: Spacing>(
    before: &HollowSpacedList<S>,
    first: &HollowSpacedList<S>,
    second: &HollowSpacedList<S>,
    distance: int,
)
    requires
        before.appends_to(first, distance),
        before.appends_to(second, distance),
    ensures
        first.links() == second.links(),
        first.spec_size() == second.spec_size(),
        first.slot_count() == second.slot_count(),
        forall|slot: int|
            0 <= slot < first.slot_count() ==> first.sublist_at(slot) == second.sublist_at(slot),
        first.inserted() == second.inserted(),
        forall|position: int| first.has_node(position) == second.has_node(position),
        first.wf() == second.wf(),
{
    assert forall|slot: int| 0 <= slot < first.slot_count() implies first.sublist_at(slot)
        == second.sublist_at(slot) by {
        assert(first.sublist_at(slot) == if slot < before.slot_count() {
            before.sublist_at(slot)
        } else {
            None
        });
        assert(second.sublist_at(slot) == if slot < before.slot_count() {
            before.sublist_at(slot)
        } else {
            None
        });
    }
    if first.spec_size() <= first.slot_count() {
        first.lemma_inserted_same(second, 0, first.spec_size());
    }
    first.lemma_same_shape(second);
}

} // verus!
