//! Finding nodes by position.
//!
//! Every query runs one search from the root of the list, through the lists
//! nested in it, to the last node at or before (or strictly before) the
//! position asked for, and then takes that node or the one that follows it.
//! On the way to the node that follows, the slots of a nested list that are
//! not in use are passed over.

use crate::hollow::HollowSpacedList;
use crate::spacing::Spacing;
use crate::traversal::{accepts, monotonic, rejects, Traversal};
use vstd::arithmetic::power2::{lemma2_to64, lemma_pow2_pos, pow2};
use vstd::prelude::*;

verus! {

/// A condition that holds exactly up to `limit` is monotonic, says yes only at
/// positions up to `limit`, and says no only behind it.
pub proof fn lemma_threshold<'a, S: Spacing, F: Fn(&Traversal<'a, S>) -> bool>(
    condition: F,
    limit: int,
)
    requires
        forall|cursor: Traversal<'a, S>| #[trigger] condition.requires((&cursor,)),
        forall|cursor: Traversal<'a, S>, answer: bool| #[trigger]
            condition.ensures((&cursor,), answer) ==> answer == (cursor.position.value() <= limit),
    ensures
        monotonic(condition),
        forall|position: int| #[trigger] accepts(condition, position) ==> position <= limit,
        forall|position: int| #[trigger] rejects(condition, position) ==> position > limit,
{
}

impl<'a, S: Spacing> Traversal<'a, S> {
    /// Whether the cursor is a well-formed cursor of the finest level that
    /// was made for `list` and stands at a node: in `list` or in a list
    /// nested in it.
    pub open spec fn points_into(self, list: &HollowSpacedList<S>) -> bool {
        &&& self.wf()
        &&& self.at_node()
        &&& self.degree == 0
        &&& self.root_list() == *list
    }

    /// A cursor that stands at roots only stands where the outermost root
    /// stands: at position 0.
    pub proof fn lemma_roots_at_zero(self)
        requires
            self.wf(),
            self.at_roots(),
        ensures
            self.position.value() == 0,
        decreases self,
    {
        self.list.lemma_positions_ordered(0, 0);
        match self.super_traversal {
            Some(outer) => {
                outer.lemma_roots_at_zero();
            },
            None => {},
        }
    }

    /// A cursor, the cursor that entered its list, and so on outwards: none
    /// of them lies before the root of the outermost list.
    pub proof fn lemma_not_before_root(self)
        requires
            self.wf(),
        ensures
            0 <= self.origin() <= self.position.value(),
        decreases self,
    {
        self.list.lemma_positions_ordered(self.node_index as nat, self.node_index as nat);
        match self.super_traversal {
            Some(outer) => {
                outer.lemma_not_before_root();
            },
            None => {},
        }
    }

    /// Where the node that follows a cursor of a nested list lies: behind the
    /// whole nested list.
    pub proof fn lemma_next_is_behind(self)
        requires
            self.wf(),
            self.degree == 0,
            self.node_index < self.list.slot_count(),
            self.list.sublist_at(self.node_index as int) is Some,
        ensures
            self.node_index < self.list.spec_size(),
            self.has_successor(),
            self.successor_position() > self.position.value() + self.list.sublist_at(
                self.node_index as int,
            ).unwrap().spec_length(),
    {
        self.list.lemma_sublist_fits(self.node_index as int);
        assert(pow2(0) == 1) by {
            lemma2_to64();
        }
    }

    /// A node of the cursor's list, or of a list nested in it, is a node of
    /// the outermost list.
    pub proof fn lemma_lifts(self, position: int)
        requires
            self.wf(),
            position == self.origin() || self.list.inserted_from(
                self.origin(),
                self.list.spec_size(),
            ).contains(position),
        ensures
            self.root_list().has_node(position),
        decreases self,
    {
        match self.super_traversal {
            Some(outer) => {
                assert(outer.wf());
                let slot: nat = outer.node_index as nat;
                outer.list.lemma_sublist_fits(slot as int);
                outer.list.lemma_positions_ordered(slot, slot);
                if position == self.origin() {
                    if slot > 0 {
                        outer.list.lemma_node_is_inserted(
                            outer.origin(),
                            slot,
                            outer.list.spec_size(),
                        );
                    }
                } else {
                    outer.list.lemma_nested_is_inserted(
                        outer.origin(),
                        slot,
                        outer.list.spec_size(),
                        position,
                    );
                }
                outer.lemma_lifts(position);
            },
            None => {},
        }
    }

    /// The cursor stands at a node of the outermost list.
    pub proof fn lemma_at_node(self)
        requires
            self.wf(),
            self.at_node(),
        ensures
            self.root_list().has_node(self.position.value()),
    {
        self.list.lemma_positions_ordered(self.node_index as nat, self.node_index as nat);
        if self.node_index > 0 {
            self.list.lemma_node_is_inserted(
                self.origin(),
                self.node_index as nat,
                self.list.spec_size(),
            );
        }
        self.lemma_lifts(self.position.value());
    }

    /// The node that follows the cursor is a node of the outermost list.
    pub proof fn lemma_next_at_node(self)
        requires
            self.wf(),
            self.has_successor(),
        ensures
            self.root_list().has_node(self.successor_position()),
        decreases self,
    {
        lemma_pow2_pos(self.degree as nat);
        if self.node_index + self.step() <= self.list.spec_size() {
            self.list.lemma_positions_ordered(self.node_index as nat, self.node_index as nat);
            self.list.lemma_node_is_inserted(
                self.origin(),
                (self.node_index + self.step()) as nat,
                self.list.spec_size(),
            );
            self.lemma_lifts(self.successor_position());
        } else {
            match self.super_traversal {
                Some(outer) => {
                    outer.lemma_next_at_node();
                },
                None => {},
            }
        }
    }

    /// Moves to the node that follows. Where the cursor stands at the last
    /// node of a nested list, the slots of that list that are not in use are
    /// passed over: the cursor that entered the list moves on instead.
    pub fn next_node(self) -> (next: Self)
        requires
            self.wf(),
            self.at_node(),
            self.degree == 0,
            self.has_successor(),
        ensures
            next.wf(),
            next.at_node(),
            next.degree == 0,
            self.succeeds_to(next),
            next.position.value() == self.successor_position(),
            next.root_list() == self.root_list(),
        decreases self,
    {
        proof {
            assert(pow2(0) == 1) by {
                lemma2_to64();
            }
        }
        if self.node_index < self.list.size() {
            self.advance()
        } else {
            match self.super_traversal {
                Some(outer) => {
                    proof {
                        outer.lemma_next_is_behind();
                    }
                    (*outer).next_node()
                },
                None => self,
            }
        }
    }

    /// Seen from a cursor on the finest level, a node that was put into the
    /// cursor's list lies at or before the cursor, or at or behind the node
    /// that follows it, or in the list nested below the cursor's node.
    pub proof fn lemma_splits_here(self, position: int)
        requires
            self.wf(),
            self.at_node(),
            self.degree == 0,
            self.list.inserted_from(self.origin(), self.list.spec_size()).contains(position),
        ensures
            self.splits(position),
    {
        assert(pow2(0) == 1) by {
            lemma2_to64();
        }
        self.list.lemma_inserted_split(
            self.origin(),
            self.node_index as nat,
            self.list.spec_size(),
            position,
        );
        self.list.lemma_positions_ordered(self.node_index as nat, self.node_index as nat);
    }

    /// `position` lies at or before the cursor, or at or behind the node that
    /// follows it, or is that of a node of the list nested below the cursor's
    /// node.
    pub open spec fn splits(self, position: int) -> bool {
        ||| position <= self.position.value()
        ||| self.has_successor() && position >= self.successor_position()
        ||| {
            &&& self.node_index < self.list.slot_count()
            &&& self.list.sublist_at(self.node_index as int) is Some
            &&& self.list.sublist_at(self.node_index as int).unwrap().inserted_from(
                self.position.value(),
                self.list.sublist_at(self.node_index as int).unwrap().spec_size(),
            ).contains(position)
        }
    }

    /// The same, for every node that was put into the outermost list.
    pub proof fn lemma_splits(self, position: int)
        requires
            self.wf(),
            self.at_node(),
            self.degree == 0,
            self.root_list().inserted().contains(position),
        ensures
            self.splits(position),
        decreases self,
    {
        match self.super_traversal {
            Some(outer) => {
                outer.lemma_next_is_behind();
                outer.lemma_splits(position);
                self.list.lemma_positions_ordered(
                    self.node_index as nat,
                    self.list.spec_size(),
                );
                assert(pow2(0) == 1) by {
                    lemma2_to64();
                }
                if position > outer.position.value() {
                    if outer.has_successor() && position >= outer.successor_position() {
                        if self.node_index + 1 <= self.list.spec_size() {
                            self.list.lemma_positions_ordered(
                                (self.node_index + 1) as nat,
                                self.list.spec_size(),
                            );
                        }
                    } else {
                        self.lemma_splits_here(position);
                    }
                }
            },
            None => {
                self.lemma_splits_here(position);
            },
        }
    }
}

impl<S: Spacing> HollowSpacedList<S> {
    /// Whether `found` is the position of the last node at or before `limit`.
    pub open spec fn last_at_most(&self, found: int, limit: int) -> bool {
        &&& self.has_node(found)
        &&& found <= limit
        &&& forall|other: int| self.has_node(other) && other <= limit ==> other <= found
    }

    /// Whether `found` is the position of the first node at or behind `limit`.
    pub open spec fn first_at_least(&self, found: int, limit: int) -> bool {
        &&& self.has_node(found)
        &&& found >= limit
        &&& forall|other: int| self.has_node(other) && other >= limit ==> other >= found
    }

    /// Whether `cursor` stands at the last node at or before `limit`, last in
    /// the order in which the nodes follow one another, or at the innermost
    /// root if no node lies at or before `limit`: it has nothing below it to
    /// descend to, and the node that follows it, if any, lies behind `limit`.
    pub open spec fn is_floor<'a>(&self, cursor: Traversal<'a, S>, limit: int) -> bool {
        &&& cursor.points_into(self)
        &&& cursor.at_leaf()
        &&& cursor.position.value() <= limit || cursor.at_roots()
        &&& cursor.has_successor() ==> cursor.successor_position() > limit
    }

    /// Whether `cursor` stands at the first node behind the last node at or
    /// before `limit`: the cursor that the floor of `limit` advances to, or
    /// that floor itself where even the root lies behind `limit`.
    pub open spec fn is_above_floor<'a>(&self, cursor: Traversal<'a, S>, limit: int) -> bool {
        exists|floor: Traversal<'a, S>| #[trigger]
            self.is_floor(floor, limit) && if floor.position.value() > limit {
                cursor == floor
            } else {
                floor.succeeds_to(cursor)
            }
    }

    /// The position of the first node at or behind `limit`, if there is one.
    pub open spec fn first_from(&self, limit: int) -> Option<int> {
        if exists|found: int| self.first_at_least(found, limit) {
            Some(choose|found: int| self.first_at_least(found, limit))
        } else {
            None
        }
    }

    /// There is at most one first node at or behind a limit.
    pub proof fn lemma_first_from(&self, found: int, limit: int)
        requires
            self.first_at_least(found, limit),
        ensures
            self.first_from(limit) == Some(found),
    {
        let chosen: int = choose|found: int| self.first_at_least(found, limit);
        assert(self.first_at_least(chosen, limit));
    }

    /// Every node lies between the root and the last node.
    pub proof fn lemma_node_in_range(&self, position: int)
        requires
            self.wf(),
            self.has_node(position),
        ensures
            0 <= position <= self.spec_length(),
    {
        self.lemma_positions_ordered(self.spec_size(), self.spec_size());
        if position != 0 {
            self.lemma_inserted_range(0, self.spec_size(), position);
        }
    }

    /// The last node lies at the list's length.
    pub proof fn lemma_length_is_node(&self)
        requires
            self.wf(),
        ensures
            self.has_node(self.spec_length()),
    {
        self.lemma_positions_ordered(self.spec_size(), self.spec_size());
        if self.spec_size() > 0 {
            self.lemma_node_is_inserted(0, self.spec_size(), self.spec_size());
        }
    }

    /// A cursor at the root of this list, on the coarsest level.
    pub fn traversal(&self) -> (cursor: Traversal<'_, S>)
        requires
            self.wf(),
        ensures
            cursor.wf(),
            cursor.on_top_level(),
            cursor.node_index == 0,
            cursor.position.value() == 0,
            cursor.list == self,
            cursor.super_traversal is None,
    {
        Traversal::new(self)
    }

    /// The cursor at the last node at or before `limit`, or, if every node
    /// lies behind `limit`, a cursor at the root's position.
    fn floor(&self, limit: S) -> (found: Traversal<'_, S>)
        requires
            self.wf(),
        ensures
            self.is_floor(found, limit.value()),
            self.has_node(found.position.value()),
            limit.value() >= 0 ==> self.last_at_most(found.position.value(), limit.value()),
            limit.value() < 0 ==> found.position.value() == 0,
            found.has_successor() ==> found.successor_position() > limit.value() && self.has_node(
                found.successor_position(),
            ),
            forall|other: int|
                self.has_node(other) && other > found.position.value() ==> found.has_successor()
                    && other >= found.successor_position(),
    {
        let condition = |cursor: &Traversal<S>| -> (answer: bool)
            ensures
                answer == (cursor.position.value() <= limit.value()),
            { cursor.position.at_most(limit) };
        proof {
            lemma_threshold(condition, limit.value());
        }
        let found = self.traversal().advance_while(condition);
        proof {
            found.lemma_at_node();
            found.lemma_not_before_root();
            if found.at_roots() {
                found.lemma_roots_at_zero();
            }
            if found.has_successor() {
                found.lemma_next_at_node();
            }
            assert forall|other: int|
                self.has_node(other) && other > found.position.value() implies found.has_successor()
                && other >= found.successor_position() by {
                found.lemma_splits(other);
            }
        }
        found
    }

    /// The last node strictly before `position`; `None` if there is none,
    /// which is so exactly if `position` is not positive.
    pub fn node_before(&self, position: S) -> (found: Option<Traversal<'_, S>>)
        requires
            self.wf(),
        ensures
            found is Some <==> position.value() > 0,
            found is Some ==> self.is_floor(found.unwrap(), position.value() - 1)
                && self.last_at_most(found.unwrap().position.value(), position.value() - 1),
    {
        let condition = |cursor: &Traversal<S>| -> (answer: bool)
            ensures
                answer == (cursor.position.value() < position.value()),
            { cursor.position.less_than(position) };
        proof {
            lemma_threshold(condition, position.value() - 1);
        }
        let found = self.traversal().advance_while(condition);
        proof {
            found.lemma_at_node();
            found.lemma_not_before_root();
            if found.at_roots() {
                found.lemma_roots_at_zero();
            }
            assert forall|other: int|
                self.has_node(other) && other > found.position.value() implies found.has_successor()
                && other >= found.successor_position() by {
                found.lemma_splits(other);
            }
        }
        if found.position.less_than(position) {
            Some(found)
        } else {
            None
        }
    }

    /// The last node at or before `position`; `None` if there is none, which
    /// is so exactly if `position` is negative.
    pub fn node_at_or_before(&self, position: S) -> (found: Option<Traversal<'_, S>>)
        requires
            self.wf(),
        ensures
            found is Some <==> position.value() >= 0,
            found is Some ==> self.is_floor(found.unwrap(), position.value())
                && self.last_at_most(found.unwrap().position.value(), position.value()),
    {
        let found = self.floor(position);
        if found.position.at_most(position) {
            Some(found)
        } else {
            None
        }
    }

    /// A node at `position`: the last one, if there are several; `None` if
    /// there is none.
    pub fn node_at(&self, position: S) -> (found: Option<Traversal<'_, S>>)
        requires
            self.wf(),
        ensures
            found is Some <==> self.has_node(position.value()),
            found is Some ==> self.is_floor(found.unwrap(), position.value())
                && found.unwrap().position.value() == position.value(),
    {
        let found = self.floor(position);
        proof {
            if self.has_node(position.value()) {
                self.lemma_node_in_range(position.value());
            }
        }
        if found.position.at_most(position) && position.at_most(found.position) {
            Some(found)
        } else {
            None
        }
    }

    /// The first node at or behind `position`; `None` if there is none, which
    /// is so exactly if `position` lies behind the list's last node.
    pub fn node_at_or_after(&self, position: S) -> (found: Option<Traversal<'_, S>>)
        requires
            self.wf(),
        ensures
            found is Some <==> position.value() <= self.spec_length(),
            found is Some ==> found.unwrap().points_into(self) && self.first_at_least(
                found.unwrap().position.value(),
                position.value(),
            ),
            found is Some ==> if self.has_node(position.value()) || position.value() < 0 {
                self.is_floor(found.unwrap(), position.value())
            } else {
                self.is_above_floor(found.unwrap(), position.value())
            },
            match found {
                Some(cursor) => self.first_from(position.value()) == Some(cursor.position.value()),
                None => self.first_from(position.value()) is None,
            },
    {
        if self.length().less_than(position) {
            proof {
                assert forall|other: int| self.has_node(other) implies other < position.value() by {
                    self.lemma_node_in_range(other);
                }
            }
            return None;
        }
        let found = self.floor(position);
        proof {
            self.lemma_length_is_node();
            assert forall|other: int| self.has_node(other) implies other >= 0 by {
                self.lemma_node_in_range(other);
            }
        }
        if position.at_most(found.position) {
            proof {
                self.lemma_first_from(found.position.value(), position.value());
            }
            Some(found)
        } else {
            let next = found.next_node();
            proof {
                self.lemma_first_from(next.position.value(), position.value());
            }
            Some(next)
        }
    }

    /// The first node strictly behind `position`; `None` if there is none,
    /// which is so exactly if `position` is not before the list's last node.
    pub fn node_after(&self, position: S) -> (found: Option<Traversal<'_, S>>)
        requires
            self.wf(),
        ensures
            found is Some <==> position.value() < self.spec_length(),
            found is Some ==> found.unwrap().points_into(self) && self.first_at_least(
                found.unwrap().position.value(),
                position.value() + 1,
            ),
            found is Some ==> self.is_above_floor(found.unwrap(), position.value()),
            match found {
                Some(cursor) => self.first_from(position.value() + 1) == Some(
                    cursor.position.value(),
                ),
                None => self.first_from(position.value() + 1) is None,
            },
    {
        if !position.less_than(self.length()) {
            proof {
                assert forall|other: int| self.has_node(other) implies other <= position.value() by {
                    self.lemma_node_in_range(other);
                }
            }
            return None;
        }
        let found = self.floor(position);
        proof {
            self.lemma_length_is_node();
            assert forall|other: int| self.has_node(other) implies other >= 0 by {
                self.lemma_node_in_range(other);
            }
        }
        if position.less_than(found.position) {
            proof {
                self.lemma_first_from(found.position.value(), position.value() + 1);
            }
            Some(found)
        } else {
            let next = found.next_node();
            proof {
                self.lemma_first_from(next.position.value(), position.value() + 1);
            }
            Some(next)
        }
    }
}

} // verus!
