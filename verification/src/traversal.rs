//! A cursor over a spaced list and the lists nested in it.
//!
//! A cursor stands at a node slot of one list, on one level of that list's
//! tree of links. On level `degree` it moves in steps of `2^degree` slots,
//! over the nodes of the list and on over the slots that are not in use yet,
//! which lie where the last node lies. When it enters a nested list it keeps
//! the cursor it came from, and hands over to it at the nested list's
//! capacity boundary.

use crate::binary::{
    has_bit, lemma_aligned_bit, lemma_double_fits, lemma_exponent_fits, lemma_multiple_below,
    lemma_multiple_of_double, lemma_pow2_double, lemma_pow2_injective, power_of_two,
};
use crate::hollow::HollowSpacedList;
use crate::navigation::{
    link_index_down_left, link_index_up_right, node_index_left, node_index_right,
};
use crate::skeleton::{lemma_distance_to_grown, lemma_distance_to_step, levels};
use crate::spacing::Spacing;
use vstd::arithmetic::div_mod::lemma_mod_add_multiples_vanish;
use vstd::arithmetic::power2::{lemma2_to64, lemma_pow2_pos, lemma_pow2_strictly_increases, pow2};
use vstd::prelude::*;

verus! {

/// Whether `condition` may say yes to a cursor at `position`.
pub open spec fn accepts<'a, S: Spacing, F: Fn(&Traversal<'a, S>) -> bool>(
    condition: F,
    position: int,
) -> bool {
    exists|cursor: Traversal<'a, S>| #[trigger]
        condition.ensures((&cursor,), true) && cursor.position.value() == position
}

/// Whether `condition` may say no to a cursor at `position`.
pub open spec fn rejects<'a, S: Spacing, F: Fn(&Traversal<'a, S>) -> bool>(
    condition: F,
    position: int,
) -> bool {
    exists|cursor: Traversal<'a, S>| #[trigger]
        condition.ensures((&cursor,), false) && cursor.position.value() == position
}

/// Whether `condition` can be asked about every cursor and goes by the
/// position alone, in one direction: once it has said no, it does not say yes
/// at that position or further on.
pub open spec fn monotonic<'a, S: Spacing, F: Fn(&Traversal<'a, S>) -> bool>(
    condition: F,
) -> bool {
    &&& forall|cursor: Traversal<'a, S>| #[trigger] condition.requires((&cursor,))
    &&& forall|low: int, high: int|
        low <= high && #[trigger] accepts(condition, high) ==> !#[trigger] rejects(condition, low)
}

/// A cursor: a node of a list, seen from one level of the list's link tree.
pub struct Traversal<'a, S: Spacing> {
    /// The level: 0 is the finest, and one step on level `degree` passes
    /// `2^degree` nodes.
    pub degree: usize,
    /// The position of the node, in the coordinates of the list that the
    /// outermost cursor belongs to.
    pub position: S,
    /// The index of the node in `list`.
    pub node_index: usize,
    /// The index of the link that leads from the node one step ahead on this
    /// level: `node_index + 2^degree - 1`.
    pub link_index: usize,
    /// The list that the cursor is in.
    pub list: &'a HollowSpacedList<S>,
    /// The cursor that entered `list`, if `list` is a nested list: it stands
    /// at the node that `list` hangs below.
    pub super_traversal: Option<Box<Traversal<'a, S>>>,
}

impl<'a, S: Spacing> Clone for Traversal<'a, S> {
    /// A copy of the cursor that has forgotten how it came into its list.
    fn clone(&self) -> (copy: Self)
        ensures
            copy.degree == self.degree,
            copy.position == self.position,
            copy.node_index == self.node_index,
            copy.link_index == self.link_index,
            copy.list == self.list,
            copy.super_traversal is None,
    {
        Traversal {
            degree: self.degree,
            position: self.position,
            node_index: self.node_index,
            link_index: self.link_index,
            list: self.list,
            super_traversal: None,
        }
    }
}

impl<'a, S: Spacing> Traversal<'a, S> {
    /// The number of nodes that one step on the cursor's level passes.
    pub open spec fn step(self) -> nat {
        pow2(self.degree as nat)
    }

    /// The cursor's indices fit its list: the level exists, the node index
    /// names a node slot, in use or not, and is a multiple of the step, and
    /// the link index is the one that belongs to node and level.
    pub open spec fn shaped(self) -> bool {
        &&& self.list.wf()
        &&& if self.list.spec_capacity() == 0 {
            self.degree == 0
        } else {
            self.step() <= self.list.spec_capacity()
        }
        &&& self.node_index <= self.list.spec_capacity()
        &&& self.node_index as nat % self.step() == 0
        &&& self.link_index == self.node_index + self.step() - 1
    }

    /// Whether the cursor stands at a node: at the root or at a node that
    /// was appended, not at a slot that is not in use yet.
    pub open spec fn at_node(self) -> bool {
        self.node_index <= self.list.spec_size()
    }

    /// Whether the cursor is on the coarsest level of its list: the level of
    /// the one link that spans the whole list.
    pub open spec fn on_top_level(self) -> bool {
        self.degree == if self.list.spec_capacity() == 0 {
            0
        } else {
            levels(self.list.spec_capacity()) - 1
        }
    }

    /// Where the root of the cursor's list lies, going by the cursor's own
    /// position.
    pub open spec fn offset(self) -> int {
        self.position.value() - self.list.node_position(self.node_index as nat)
    }

    /// Where the root of the cursor's list lies, going by the cursor that
    /// entered the list: at that cursor's node, or at 0 for an outermost list.
    pub open spec fn origin(self) -> int {
        match self.super_traversal {
            Some(outer) => outer.position.value(),
            None => 0,
        }
    }

    /// The invariant of a cursor. Its indices fit its list, its position is
    /// that of its node, and the cursor that entered its list, if any, is
    /// well-formed too and stands on the finest level at the node that the
    /// list hangs below.
    pub open spec fn wf(self) -> bool
        decreases self,
    {
        &&& self.shaped()
        &&& self.offset() == self.origin()
        &&& match self.super_traversal {
            Some(outer) => {
                &&& outer.wf()
                &&& outer.degree == 0
                &&& outer.node_index < outer.list.slot_count()
                &&& outer.list.sublist_at(outer.node_index as int) == Some(*self.list)
            },
            None => true,
        }
    }

    /// The outermost list: the one that the cursors were made for.
    pub open spec fn root_list(self) -> HollowSpacedList<S>
        decreases self,
    {
        match self.super_traversal {
            Some(outer) => outer.root_list(),
            None => *self.list,
        }
    }

    /// Whether the cursor stands at the root of its list, and the cursor that
    /// entered that list at the root of its own, and so on outwards.
    pub open spec fn at_roots(self) -> bool
        decreases self,
    {
        &&& self.node_index == 0
        &&& match self.super_traversal {
            Some(outer) => outer.at_roots(),
            None => true,
        }
    }

    /// Whether the cursor stands at a node of the finest level that has no
    /// nested list below it: there is nothing to descend to.
    pub open spec fn at_leaf(self) -> bool {
        &&& self.degree == 0
        &&& (self.node_index < self.list.slot_count() ==> self.list.sublist_at(
            self.node_index as int,
        ) is None)
    }

    /// Whether the cursor can advance: a node slot lies one step ahead in
    /// its list, or, at the capacity boundary of a nested list, the cursor
    /// that entered the list can advance.
    pub open spec fn has_next(self) -> bool
        decreases self,
    {
        self.node_index + self.step() <= self.list.spec_capacity() || match self.super_traversal {
            Some(outer) => outer.has_next(),
            None => false,
        }
    }

    /// The position of the node slot that the cursor advances to.
    pub open spec fn next_position(self) -> int
        decreases self,
    {
        if self.node_index + self.step() <= self.list.spec_capacity() {
            self.offset() + self.list.node_position((self.node_index + self.step()) as nat)
        } else {
            match self.super_traversal {
                Some(outer) => outer.next_position(),
                None => self.position.value(),
            }
        }
    }

    /// Whether `next` is the cursor that this one advances to: one step
    /// ahead in the same list on the same level, as long as the list's
    /// capacity holds that step; else what the cursor that entered the list
    /// advances to.
    pub open spec fn advances_to(self, next: Self) -> bool
        decreases self,
    {
        if self.node_index + self.step() <= self.list.spec_capacity() {
            &&& next.degree == self.degree
            &&& next.node_index == self.node_index + self.step()
            &&& next.link_index == self.link_index + self.step()
            &&& next.list == self.list
            &&& next.super_traversal == self.super_traversal
            &&& next.position.value() == self.next_position()
        } else {
            match self.super_traversal {
                Some(outer) => outer.advances_to(next),
                None => false,
            }
        }
    }

    /// Whether a node follows: one step ahead in the cursor's list, or,
    /// behind the last node of a nested list, behind the node that the list
    /// hangs below. Slots that are not in use do not count.
    pub open spec fn has_successor(self) -> bool
        decreases self,
    {
        self.node_index + self.step() <= self.list.spec_size() || match self.super_traversal {
            Some(outer) => outer.has_successor(),
            None => false,
        }
    }

    /// The position of the node that follows, if one does.
    pub open spec fn successor_position(self) -> int
        decreases self,
    {
        if self.node_index + self.step() <= self.list.spec_size() {
            self.offset() + self.list.node_position((self.node_index + self.step()) as nat)
        } else {
            match self.super_traversal {
                Some(outer) => outer.successor_position(),
                None => self.position.value(),
            }
        }
    }

    /// Whether `next` is the cursor at the node that follows: one step ahead
    /// on the same level, or, behind the last node of a nested list, the
    /// node that follows the cursor that entered the list.
    pub open spec fn succeeds_to(self, next: Self) -> bool
        decreases self,
    {
        if self.node_index + self.step() <= self.list.spec_size() {
            &&& next.degree == self.degree
            &&& next.node_index == self.node_index + self.step()
            &&& next.link_index == self.link_index + self.step()
            &&& next.list == self.list
            &&& next.super_traversal == self.super_traversal
            &&& next.position.value() == self.successor_position()
        } else {
            match self.super_traversal {
                Some(outer) => outer.succeeds_to(next),
                None => false,
            }
        }
    }

    /// Every node slot of a well-formed cursor's list lies at a position that
    /// `S` can represent.
    pub proof fn lemma_reach(self)
        requires
            self.wf(),
        ensures
            S::representable(self.origin()),
            S::representable(self.origin() + self.list.spec_length()),
            forall|n: nat|
                n <= self.list.spec_capacity() ==> S::representable(
                    self.origin() + #[trigger] self.list.node_position(n),
                ),
            self.list.spec_length() >= 0,
        decreases self,
    {
        let list = *self.list;
        lemma_distance_to_grown(list.links(), 0);
        assert(list.node_position(0) == 0);
        match self.super_traversal {
            Some(outer) => {
                assert(outer.wf());
                outer.lemma_reach();
                outer.position.lemma_value_representable();
                let slot: nat = outer.node_index as nat;
                assert(outer.list.node_position(slot + 1) <= outer.list.node_position(
                    outer.list.spec_capacity(),
                ));
                S::lemma_representable_between(
                    self.origin(),
                    self.origin() + list.spec_length(),
                    outer.origin() + outer.list.spec_length(),
                );
            },
            None => {
                S::lemma_zero_representable();
                if list.spec_capacity() > 0 {
                    list.spec_skeleton().link_lengths@[list.spec_capacity()
                        - 1].lemma_value_representable();
                }
            },
        }
        assert forall|n: nat| n <= list.spec_capacity() implies S::representable(
            self.origin() + #[trigger] list.node_position(n),
        ) by {
            S::lemma_representable_between(
                self.origin(),
                self.origin() + list.node_position(n),
                self.origin() + list.spec_length(),
            );
        }
    }

    /// A cursor at the root of `list`, on the coarsest level.
    pub fn new(list: &'a HollowSpacedList<S>) -> (cursor: Self)
        requires
            list.wf(),
        ensures
            cursor.wf(),
            cursor.on_top_level(),
            cursor.node_index == 0,
            cursor.position.value() == 0,
            cursor.list == list,
            cursor.super_traversal is None,
    {
        let depth: usize = list.skeleton.depth();
        let capacity: usize = list.skeleton.capacity();
        let link_index: usize = if capacity > 0 {
            list.skeleton.last_link_index()
        } else {
            0
        };
        proof {
            lemma_pow2_pos(0);
            if depth > 0 {
                lemma_pow2_pos((depth - 1) as nat);
            }
            assert(pow2(0) == 1) by {
                lemma2_to64();
            }
        }
        Traversal {
            degree: if depth > 0 {
                depth - 1
            } else {
                0
            },
            position: S::zero(),
            node_index: 0,
            link_index,
            list,
            super_traversal: None,
        }
    }

    /// Whether the cursor can go one level down: to a finer level of its
    /// list, or, from the finest, into a list nested below its node.
    pub fn can_descend(&self) -> (b: bool)
        requires
            self.shaped(),
        ensures
            b == !self.at_leaf(),
    {
        self.degree > 0 || (self.node_index < self.list.skeleton.capacity()
            && self.list.skeleton.get_sublist_at(self.node_index).is_some())
    }

    /// Steps over the link ahead. The link index stays behind: it is no
    /// longer the one that belongs to the node.
    pub fn advance_unchecked(&mut self)
        requires
            old(self).shaped(),
            old(self).node_index as nat % pow2((old(self).degree + 1) as nat) == 0,
            old(self).node_index + old(self).step() <= old(self).list.spec_capacity(),
            S::representable(
                old(self).position.value() + old(self).list.links()[old(self).link_index as int],
            ),
        ensures
            final(self).degree == old(self).degree,
            final(self).link_index == old(self).link_index,
            final(self).list == old(self).list,
            final(self).super_traversal == old(self).super_traversal,
            final(self).node_index == old(self).node_index + old(self).step(),
            final(self).position.value() == old(self).position.value() + old(self).list.links()[old(
                self,
            ).link_index as int],
            final(self).offset() == old(self).offset(),
    {
        proof {
            lemma_distance_to_step(self.list.links(), self.node_index as nat, self.degree as nat);
            self.list.lemma_capacity_fits();
        }
        let link: S = self.list.skeleton.get_link_length_at(self.link_index);
        self.position = self.position.plus(link);
        self.node_index = node_index_right(self.node_index, self.degree);
    }

    /// Goes one level down at the same node.
    pub fn descend_shallow(&mut self)
        requires
            old(self).shaped(),
            old(self).degree > 0,
        ensures
            final(self).shaped(),
            final(self).degree == old(self).degree - 1,
            final(self).link_index == old(self).link_index - final(self).step(),
            final(self).position == old(self).position,
            final(self).node_index == old(self).node_index,
            final(self).list == old(self).list,
            final(self).super_traversal == old(self).super_traversal,
    {
        proof {
            lemma_pow2_double((self.degree - 1) as nat);
            lemma_multiple_of_double(self.node_index as nat, pow2((self.degree - 1) as nat));
        }
        self.link_index = link_index_down_left(self.link_index, self.degree);
        self.degree = self.degree - 1;
    }

    /// Goes one level down and, there, one step ahead.
    pub fn descend_and_advance_shallow(&mut self)
        requires
            old(self).shaped(),
            old(self).degree > 0,
            old(self).node_index + pow2((old(self).degree - 1) as nat) <= old(
                self,
            ).list.spec_capacity(),
            S::representable(
                old(self).position.value() + old(self).list.links()[old(self).link_index - pow2(
                    (old(self).degree - 1) as nat,
                )],
            ),
        ensures
            final(self).shaped(),
            final(self).degree == old(self).degree - 1,
            final(self).node_index == old(self).node_index + final(self).step(),
            final(self).link_index == old(self).link_index,
            final(self).list == old(self).list,
            final(self).super_traversal == old(self).super_traversal,
            final(self).position.value() == old(self).position.value() + old(self).list.links()[old(
                self,
            ).link_index - final(self).step()],
            final(self).offset() == old(self).offset(),
    {
        proof {
            lemma_pow2_double((self.degree - 1) as nat);
            lemma_mod_add_multiples_vanish(
                self.node_index as int,
                pow2((self.degree - 1) as nat) as int,
            );
            lemma_multiple_of_double(self.node_index as nat, pow2((self.degree - 1) as nat));
        }
        self.descend_shallow();
        self.advance_unchecked();
        self.link_index = link_index_up_right(self.link_index, self.degree);
    }

    /// From the root of the list, goes to the list's last node, on the finest
    /// level.
    pub fn advance_to_end(&mut self)
        requires
            old(self).shaped(),
            old(self).node_index == 0,
            S::representable(old(self).position.value() + old(self).list.spec_length()),
        ensures
            final(self).shaped(),
            final(self).degree == 0,
            final(self).node_index == old(self).list.spec_size(),
            final(self).list == old(self).list,
            final(self).super_traversal == old(self).super_traversal,
            final(self).position.value() == old(self).position.value() + old(
                self,
            ).list.spec_length(),
            final(self).offset() == old(self).offset(),
            final(self).at_leaf(),
    {
        proof {
            assert(pow2(0) == 1) by {
                lemma2_to64();
            }
            assert(self.list.node_position(self.list.spec_capacity())
                == self.list.node_position(self.list.spec_size()));
        }
        let length: S = self.list.length();
        self.position = self.position.plus(length);
        self.node_index = self.list.size();
        self.degree = 0;
        self.link_index = self.node_index;
    }

    /// Goes one level down: to the next finer level of the list, or, from the
    /// finest level, into the list nested below the node. The cursor that
    /// enters a nested list stands at its root, on its coarsest level, and
    /// keeps the cursor it came from.
    pub fn descend(self) -> (lower: Self)
        requires
            self.shaped(),
            !self.at_leaf(),
        ensures
            lower.shaped(),
            lower.position == self.position,
            self.degree > 0 ==> {
                &&& lower.degree == self.degree - 1
                &&& lower.link_index == self.link_index - lower.step()
                &&& lower.node_index == self.node_index
                &&& lower.list == self.list
                &&& lower.super_traversal == self.super_traversal
            },
            self.degree == 0 ==> {
                &&& self.list.sublist_at(self.node_index as int) == Some(*lower.list)
                &&& lower.on_top_level()
                &&& lower.node_index == 0
                &&& lower.super_traversal == Some(Box::new(self))
            },
            self.wf() ==> lower.wf(),
    {
        if self.degree > 0 {
            let mut lower = self;
            lower.descend_shallow();
            lower
        } else {
            let list: &'a HollowSpacedList<S> = self.list;
            match list.skeleton.get_sublist_at(self.node_index) {
                Some(sublist) => {
                    let position: S = self.position;
                    let mut lower = Traversal::new(sublist);
                    lower.position = position;
                    lower.super_traversal = Some(Box::new(self));
                    lower
                },
                None => self,
            }
        }
    }

    /// Goes one level down and, there, one step ahead: what `descend`
    /// followed by `advance_unchecked` comes to. From the finest level that
    /// is: into the list nested below the node, and over that list's longest
    /// link to its capacity boundary, on its coarsest level. The link index
    /// follows the node.
    pub fn descend_and_advance(self) -> (lower: Self)
        requires
            self.shaped(),
            !self.at_leaf(),
            self.degree > 0 ==> {
                &&& self.node_index + pow2((self.degree - 1) as nat) <= self.list.spec_capacity()
                &&& S::representable(
                    self.position.value() + self.list.links()[self.link_index - pow2(
                        (self.degree - 1) as nat,
                    )],
                )
            },
            self.degree == 0 ==> {
                &&& self.list.sublist_at(self.node_index as int).unwrap().spec_capacity() > 0
                &&& S::representable(
                    self.position.value() + self.list.sublist_at(
                        self.node_index as int,
                    ).unwrap().spec_length(),
                )
            },
        ensures
            lower.shaped(),
            self.degree > 0 ==> {
                &&& lower.degree == self.degree - 1
                &&& lower.node_index == self.node_index + lower.step()
                &&& lower.link_index == self.link_index
                &&& lower.list == self.list
                &&& lower.super_traversal == self.super_traversal
                &&& lower.offset() == self.offset()
            },
            self.degree == 0 ==> {
                &&& self.list.sublist_at(self.node_index as int) == Some(*lower.list)
                &&& lower.on_top_level()
                &&& lower.node_index == lower.list.spec_capacity()
                &&& lower.super_traversal == Some(Box::new(self))
                &&& lower.position.value() == self.position.value() + lower.list.spec_length()
            },
            self.wf() ==> lower.wf(),
    {
        if self.degree > 0 {
            let mut lower = self;
            lower.descend_and_advance_shallow();
            lower
        } else {
            let mut lower = self.descend();
            proof {
                lemma_distance_to_grown(lower.list.links(), 0);
                lemma_pow2_pos(lower.degree as nat);
                lemma_pow2_pos((lower.degree + 1) as nat);
                lower.list.lemma_capacity_fits();
                lemma_double_fits(lower.degree as nat);
                lemma_mod_add_multiples_vanish(0, lower.step() as int);
                assert(0nat % pow2((lower.degree + 1) as nat) == 0) by (nonlinear_arith)
                    requires
                        pow2((lower.degree + 1) as nat) > 0,
                ;
            }
            lower.advance_unchecked();
            lower.link_index = link_index_up_right(lower.link_index, lower.degree);
            lower
        }
    }

    /// Moves one step ahead on the cursor's level, to the next node slot of
    /// the list. At the capacity boundary of a nested list it hands over to
    /// the cursor that entered the list, and that one advances.
    pub fn advance(self) -> (next: Self)
        requires
            self.wf(),
            self.has_next(),
        ensures
            next.wf(),
            self.advances_to(next),
            next.position.value() == self.next_position(),
            next.root_list() == self.root_list(),
        decreases self,
    {
        let mut cursor = self;
        let list: &'a HollowSpacedList<S> = cursor.list;
        let capacity: usize = list.capacity();
        proof {
            assert(pow2(0) == 1) by {
                lemma2_to64();
            }
            lemma_pow2_pos(cursor.degree as nat);
            if cursor.node_index < capacity {
                let top: nat = (list.spec_skeleton().spec_depth() - 1) as nat;
                if cursor.degree > top {
                    lemma_pow2_strictly_increases(top, cursor.degree as nat);
                }
                lemma_multiple_below(cursor.node_index as nat, cursor.degree as nat, top);
            }
        }
        if cursor.node_index == capacity {
            return match cursor.super_traversal {
                Some(outer) => (*outer).advance(),
                None => cursor,
            };
        }
        let step: usize = power_of_two(cursor.degree);
        let degree_before: usize = cursor.degree;
        let link_index_before: usize = cursor.link_index;
        let ghost target: nat = (cursor.node_index + step) as nat;
        proof {
            self.lemma_reach();
            lemma_double_fits((list.spec_skeleton().spec_depth() - 1) as nat);
        }
        while has_bit(cursor.node_index, cursor.degree)
            invariant
                self.wf(),
                cursor.list == self.list,
                list == self.list,
                cursor.super_traversal == self.super_traversal,
                cursor.link_index == link_index_before,
                link_index_before == target - 1,
                target <= list.spec_capacity(),
                cursor.node_index + pow2(cursor.degree as nat) == target,
                cursor.node_index as nat % pow2(cursor.degree as nat) == 0,
                pow2(cursor.degree as nat) <= list.spec_capacity(),
                capacity == list.spec_capacity(),
                cursor.offset() == self.offset(),
                forall|n: nat|
                    n <= list.spec_capacity() ==> S::representable(
                        self.origin() + #[trigger] list.node_position(n),
                    ),
            decreases cursor.node_index,
        {
            proof {
                lemma_aligned_bit(cursor.node_index as nat, cursor.degree as nat);
                lemma_pow2_double(cursor.degree as nat);
                lemma_pow2_pos(cursor.degree as nat);
                lemma_exponent_fits((cursor.degree + 1) as nat);
                lemma_distance_to_step(
                    list.links(),
                    (cursor.node_index - pow2(cursor.degree as nat)) as nat,
                    cursor.degree as nat,
                );
                assert(S::representable(
                    self.origin() + list.node_position(
                        (cursor.node_index - pow2(cursor.degree as nat)) as nat,
                    ),
                ));
            }
            let behind: S = list.skeleton.get_link_length_at(cursor.node_index - 1);
            cursor.position = cursor.position.minus(behind);
            cursor.node_index = node_index_left(cursor.node_index, cursor.degree);
            cursor.degree = cursor.degree + 1;
        }
        proof {
            lemma_aligned_bit(cursor.node_index as nat, cursor.degree as nat);
            lemma_distance_to_step(list.links(), cursor.node_index as nat, cursor.degree as nat);
            assert(S::representable(self.origin() + list.node_position(target)));
        }
        cursor.advance_unchecked();
        cursor.degree = degree_before;
        cursor.link_index = link_index_up_right(link_index_before, degree_before);
        proof {
            lemma_mod_add_multiples_vanish(self.node_index as int, step as int);
        }
        cursor
    }

    /// Whether a search in the cursor's list that starts here misses no
    /// node of that list at which `condition` could hold: the cursor stands
    /// at the root, on the coarsest level, so that the search sees the whole
    /// list; or `condition` is known not to hold one step ahead.
    pub open spec fn bounds_shallow_search<F: Fn(&Self) -> bool>(self, condition: F) -> bool {
        ||| self.node_index == 0 && self.on_top_level()
        ||| self.node_index + self.step() <= self.list.spec_size() ==> rejects(
            condition,
            self.offset() + self.list.node_position((self.node_index + self.step()) as nat),
        )
    }

    /// Whether a search that starts here misses no node at which `condition`
    /// could hold: the cursor is as `Traversal::new` makes it, at the root
    /// of an outermost list, on the coarsest level, so that the search sees
    /// everything; or `condition` is known not to hold at the node that
    /// follows the cursor on its level.
    pub open spec fn bounds_search<F: Fn(&Self) -> bool>(self, condition: F) -> bool {
        ||| self.node_index == 0 && self.on_top_level() && self.super_traversal is None
        ||| self.has_successor() ==> rejects(condition, self.successor_position())
    }

    /// Whether the cursor stands at the root of its list, on the coarsest
    /// level.
    fn at_start(&self) -> (b: bool)
        requires
            self.shaped(),
        ensures
            b == (self.node_index == 0 && self.on_top_level()),
    {
        proof {
            self.list.lemma_capacity_fits();
            if self.list.spec_capacity() > 0 {
                lemma_pow2_pos(self.degree as nat);
                if self.step() == self.list.spec_capacity() {
                    lemma_pow2_injective(
                        self.degree as nat,
                        (levels(self.list.spec_capacity()) - 1) as nat,
                    );
                }
            }
        }
        let capacity: usize = self.list.capacity();
        self.node_index == 0 && (capacity == 0 || power_of_two(self.degree) == capacity)
    }

    /// Searches the cursor's list, but no nested list, for the last node at
    /// which `condition` holds, and goes there. The search covers the nodes
    /// from the cursor's node up to, but not including, the node one step
    /// ahead on the cursor's level; from the root on the coarsest level it
    /// covers the whole list. If `condition` holds at none of them, the
    /// cursor stays at its node. It ends on the finest level.
    ///
    /// From the root the search looks at the list's far end first; then it
    /// halves the stretch in which the node must lie once per level.
    pub fn advance_while_shallow<F: Fn(&Self) -> bool>(&mut self, condition: F)
        requires
            old(self).wf(),
            monotonic(condition),
        ensures
            final(self).wf(),
            final(self).degree == 0,
            final(self).list == old(self).list,
            final(self).super_traversal == old(self).super_traversal,
            old(self).at_node() ==> final(self).at_node(),
            final(self).node_index == old(self).node_index || accepts(
                condition,
                final(self).position.value(),
            ),
            old(self).bounds_shallow_search(condition) && final(self).node_index < old(
                self,
            ).list.spec_size() ==> rejects(
                condition,
                final(self).offset() + final(self).list.node_position(
                    (final(self).node_index + 1) as nat,
                ),
            ),
    {
        let list: &'a HollowSpacedList<S> = self.list;
        let size: usize = list.size();
        proof {
            list.lemma_capacity_fits();
            self.lemma_reach();
            assert(pow2(0) == 1) by {
                lemma2_to64();
            }
        }
        if self.at_start() {
            let mut next: Self = self.clone();
            next.advance_to_end();
            if condition(&next) {
                self.degree = next.degree;
                self.position = next.position;
                self.node_index = next.node_index;
                self.link_index = next.link_index;
                return ;
            }
        }
        while self.degree > 0
            invariant
                self.wf(),
                old(self).at_node() ==> self.at_node(),
                self.list == old(self).list,
                list == self.list,
                size == list.spec_size(),
                list.spec_capacity() <= usize::MAX,
                self.super_traversal == old(self).super_traversal,
                monotonic(condition),
                self.node_index == old(self).node_index || accepts(
                    condition,
                    self.position.value(),
                ),
                old(self).bounds_shallow_search(condition) ==> (self.node_index + self.step()
                    <= size ==> rejects(
                    condition,
                    self.offset() + list.node_position((self.node_index + self.step()) as nat),
                )),
            decreases self.degree,
        {
            proof {
                self.lemma_reach();
                lemma_pow2_double((self.degree - 1) as nat);
                lemma_distance_to_step(
                    list.links(),
                    self.node_index as nat,
                    (self.degree - 1) as nat,
                );
            }
            let half: usize = power_of_two(self.degree - 1);
            if self.node_index <= size && size - self.node_index >= half {
                assert(S::representable(
                    self.origin() + list.node_position((self.node_index + half) as nat),
                ));
                let mut next: Self = self.clone();
                next.descend_and_advance_shallow();
                if condition(&next) {
                    self.degree = next.degree;
                    self.position = next.position;
                    self.node_index = next.node_index;
                    self.link_index = next.link_index;
                } else {
                    self.descend_shallow();
                }
            } else {
                self.descend_shallow();
            }
        }
    }

    /// Searches the cursor's list and the lists nested in it for the last
    /// node at which `condition` holds, and returns the cursor at that node.
    /// The search covers the nodes from the cursor's node up to, but not
    /// including, the node that follows on the cursor's level; from the root
    /// of an outermost list on the coarsest level, where `Traversal::new`
    /// puts a cursor, it covers everything. If `condition` holds at none of
    /// them, the result stands where the cursor stood: at its node, or at
    /// the innermost root of the lists nested below it. The result is on the
    /// finest level, at a node without a nested list.
    ///
    /// In each list that it enters at the root the search looks at the far
    /// end first; then it halves the stretch in which the node must lie once
    /// per level, and from the finest level goes on in the list nested below
    /// the node it has reached.
    pub fn advance_while<F: Fn(&Self) -> bool>(self, condition: F) -> (found: Self)
        requires
            self.wf(),
            monotonic(condition),
        ensures
            found.wf(),
            found.root_list() == self.root_list(),
            found.at_leaf(),
            self.at_node() ==> found.at_node(),
            found.position.value() == self.position.value() || accepts(
                condition,
                found.position.value(),
            ),
            self.at_roots() ==> found.at_roots() || accepts(condition, found.position.value()),
            self.bounds_search(condition) ==> (found.has_successor() ==> rejects(
                condition,
                found.successor_position(),
            )),
    {
        let ghost start: Self = self;
        let mut cursor: Self = self;
        proof {
            cursor.lemma_reach();
            assert(pow2(0) == 1) by {
                lemma2_to64();
            }
        }
        if cursor.at_start() {
            let mut next: Self = cursor.clone();
            next.advance_to_end();
            if condition(&next) {
                cursor.advance_to_end();
                proof {
                    lemma_pow2_pos(start.degree as nat);
                    assert(accepts(condition, cursor.position.value()));
                    if start.node_index + start.step() <= start.list.spec_size() {
                        assert(start.list.node_position(start.list.spec_capacity())
                            == start.list.node_position(start.list.spec_size()));
                        assert(start.successor_position() == cursor.position.value());
                    } else {
                        assert(cursor.has_successor() == start.has_successor());
                        assert(cursor.has_successor() ==> cursor.successor_position()
                            == start.successor_position());
                    }
                }
                return cursor;
            }
        }
        while cursor.can_descend()
            invariant
                cursor.wf(),
                self.at_node() ==> cursor.at_node(),
                cursor.root_list() == self.root_list(),
                monotonic(condition),
                cursor.position.value() == self.position.value() || accepts(
                    condition,
                    cursor.position.value(),
                ),
                self.at_roots() ==> cursor.at_roots() || accepts(
                    condition,
                    cursor.position.value(),
                ),
                self.bounds_search(condition) ==> (cursor.has_successor() ==> rejects(
                    condition,
                    cursor.successor_position(),
                )),
            decreases *cursor.list, cursor.degree,
        {
            let list: &'a HollowSpacedList<S> = cursor.list;
            let size: usize = list.size();
            proof {
                cursor.lemma_reach();
                list.lemma_capacity_fits();
            }
            if cursor.degree > 0 {
                proof {
                    lemma_pow2_double((cursor.degree - 1) as nat);
                    lemma_distance_to_step(
                        list.links(),
                        cursor.node_index as nat,
                        (cursor.degree - 1) as nat,
                    );
                }
                let half: usize = power_of_two(cursor.degree - 1);
                if cursor.node_index <= size && size - cursor.node_index >= half {
                    assert(S::representable(
                        cursor.origin() + list.node_position((cursor.node_index + half) as nat),
                    ));
                    let mut next: Self = cursor.clone();
                    next.descend_and_advance_shallow();
                    if condition(&next) {
                        cursor.degree = next.degree;
                        cursor.position = next.position;
                        cursor.node_index = next.node_index;
                        cursor.link_index = next.link_index;
                    } else {
                        cursor.descend_shallow();
                    }
                } else {
                    cursor.descend_shallow();
                }
            } else {
                proof {
                    let slot: int = cursor.node_index as int;
                    let sublist: HollowSpacedList<S> = list.sublist_at(slot).unwrap();
                    list.lemma_sublist_fits(slot);
                    assert(sublist.node_position(0) <= sublist.node_position(
                        sublist.spec_capacity(),
                    ));
                    assert(list.node_position(0) == 0);
                    assert(list.node_position((slot + 1) as nat) <= list.node_position(
                        list.spec_capacity(),
                    ));
                    S::lemma_representable_between(
                        cursor.origin(),
                        cursor.position.value() + sublist.spec_length(),
                        cursor.origin() + list.spec_length(),
                    );
                    list.lemma_sublist_decreases(slot);
                }
                let has_links: bool = match list.skeleton.get_sublist_at(cursor.node_index) {
                    Some(sublist) => sublist.capacity() > 0,
                    None => false,
                };
                let ghost outer: Self = cursor;
                let ghost mut peeked: int = 0;
                let beyond: bool = if has_links {
                    let next: Self = cursor.clone().descend_and_advance();
                    proof {
                        peeked = next.position.value();
                    }
                    condition(&next)
                } else {
                    false
                };
                cursor = cursor.descend();
                proof {
                    lemma_pow2_pos(cursor.degree as nat);
                    assert(cursor.list.node_position(cursor.list.spec_capacity())
                        == cursor.list.node_position(cursor.list.spec_size()));
                    if cursor.node_index + cursor.step() <= cursor.list.spec_size() {
                        assert(has_links);
                        assert(cursor.successor_position() == peeked);
                    } else {
                        assert(cursor.has_successor() == outer.has_successor());
                        assert(cursor.successor_position() == outer.successor_position());
                    }
                }
                if beyond {
                    cursor.advance_to_end();
                    proof {
                        assert(pow2(0) == 1) by {
                            lemma2_to64();
                        }
                        assert(cursor.position.value() == peeked);
                        assert(accepts(condition, cursor.position.value()));
                        assert(cursor.has_successor() == outer.has_successor());
                        assert(cursor.successor_position() == outer.successor_position());
                    }
                }
            }
        }
        cursor
    }
}

} // verus!
