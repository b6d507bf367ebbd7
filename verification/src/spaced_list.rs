//! What every spaced list offers, whatever it stores beside the positions.

use crate::crate_spaced_list::CrateSpacedList;
use crate::hollow::HollowSpacedList;
use crate::spacing::Spacing;
use crate::traversal::Traversal;
use vstd::prelude::*;

verus! {

/// A list of nodes along an axis: nodes are appended or inserted by position
/// and found again by position.
pub trait SpacedList<S: Spacing>: CrateSpacedList<S> {
    /// The position of the last node.
    fn length(&self) -> (length: S)
        requires
            self.hollow().wf(),
        ensures
            length.value() == self.hollow().spec_length(),
    ;

    /// The number of nodes that were appended to this list itself.
    fn size(&self) -> (size: usize)
        ensures
            size == self.hollow().spec_size(),
    ;

    /// The number of nodes that this list has room for before it grows.
    fn capacity(&self) -> (capacity: usize)
        ensures
            capacity == self.hollow().spec_capacity(),
    ;

    /// Whether no node was appended yet.
    fn is_empty(&self) -> (b: bool)
        ensures
            b == (self.hollow().spec_size() == 0),
    {
        self.size() == 0
    }

    /// Whether the next append has to grow the list.
    fn is_full(&self) -> (b: bool)
        ensures
            b == (self.hollow().spec_size() == self.hollow().spec_capacity()),
    {
        self.size() == self.capacity()
    }

    /// Appends a node `distance` behind the last node.
    fn append_node(&mut self, distance: S)
        requires
            old(self).hollow().wf(),
            distance.value() >= 0,
            S::representable(old(self).hollow().spec_length() + distance.value()),
        ensures
            final(self).hollow().wf(),
            old(self).hollow().appends_to(&final(self).hollow(), distance.value()),
            old(self).hollow().tight() ==> final(self).hollow().tight(),
            final(self).hollow().spec_length() == old(self).hollow().spec_length()
                + distance.value(),
            final(self).hollow().inserted() == old(self).hollow().inserted().insert(
                final(self).hollow().spec_length(),
            ),
    ;

    /// Puts a node at `position`.
    fn insert_node(&mut self, position: S)
        requires
            old(self).hollow().wf(),
            position.value() >= 0,
        ensures
            final(self).hollow().wf(),
            old(self).hollow().inserts_to(&final(self).hollow(), position.value()),
            old(self).hollow().tight() ==> final(self).hollow().tight(),
            final(self).hollow().inserted() == old(self).hollow().inserted().insert(
                position.value(),
            ),
            final(self).hollow().spec_length() == if position.value() >= old(
                self,
            ).hollow().spec_length() {
                position.value()
            } else {
                old(self).hollow().spec_length()
            },
    ;

    /// The last node strictly before `position`.
    fn node_before(&self, position: S) -> (found: Option<Traversal<'_, S>>)
        requires
            self.hollow().wf(),
        ensures
            found is Some <==> position.value() > 0,
            found is Some ==> self.hollow().is_floor(found.unwrap(), position.value() - 1)
                && self.hollow().last_at_most(
                found.unwrap().position.value(),
                position.value() - 1,
            ),
    ;

    /// The last node at or before `position`.
    fn node_at_or_before(&self, position: S) -> (found: Option<Traversal<'_, S>>)
        requires
            self.hollow().wf(),
        ensures
            found is Some <==> position.value() >= 0,
            found is Some ==> self.hollow().is_floor(found.unwrap(), position.value())
                && self.hollow().last_at_most(found.unwrap().position.value(), position.value()),
    ;

    /// A node at `position`: the last one, if there are several.
    fn node_at(&self, position: S) -> (found: Option<Traversal<'_, S>>)
        requires
            self.hollow().wf(),
        ensures
            found is Some <==> self.hollow().has_node(position.value()),
            found is Some ==> self.hollow().is_floor(found.unwrap(), position.value())
                && found.unwrap().position.value() == position.value(),
    ;

    /// The first node at or behind `position`.
    fn node_at_or_after(&self, position: S) -> (found: Option<Traversal<'_, S>>)
        requires
            self.hollow().wf(),
        ensures
            found is Some <==> position.value() <= self.hollow().spec_length(),
            found is Some ==> found.unwrap().points_into(&self.hollow())
                && self.hollow().first_at_least(
                found.unwrap().position.value(),
                position.value(),
            ),
            found is Some ==> if self.hollow().has_node(position.value()) || position.value()
                < 0 {
                self.hollow().is_floor(found.unwrap(), position.value())
            } else {
                self.hollow().is_above_floor(found.unwrap(), position.value())
            },
    ;

    /// The first node strictly behind `position`.
    fn node_after(&self, position: S) -> (found: Option<Traversal<'_, S>>)
        requires
            self.hollow().wf(),
        ensures
            found is Some <==> position.value() < self.hollow().spec_length(),
            found is Some ==> found.unwrap().points_into(&self.hollow())
                && self.hollow().first_at_least(
                found.unwrap().position.value(),
                position.value() + 1,
            ),
            found is Some ==> self.hollow().is_above_floor(found.unwrap(), position.value()),
    ;
}

impl<S: Spacing> SpacedList<S> for HollowSpacedList<S> {
    fn length(&self) -> (length: S) {
        HollowSpacedList::length(self)
    }

    fn size(&self) -> (size: usize) {
        self.size
    }

    fn capacity(&self) -> (capacity: usize) {
        HollowSpacedList::capacity(self)
    }

    fn append_node(&mut self, distance: S) {
        HollowSpacedList::append_node(self, distance)
    }

    fn insert_node(&mut self, position: S) {
        HollowSpacedList::insert_node(self, position)
    }

    fn node_before(&self, position: S) -> (found: Option<Traversal<'_, S>>) {
        HollowSpacedList::node_before(self, position)
    }

    fn node_at_or_before(&self, position: S) -> (found: Option<Traversal<'_, S>>) {
        HollowSpacedList::node_at_or_before(self, position)
    }

    fn node_at(&self, position: S) -> (found: Option<Traversal<'_, S>>) {
        HollowSpacedList::node_at(self, position)
    }

    fn node_at_or_after(&self, position: S) -> (found: Option<Traversal<'_, S>>) {
        HollowSpacedList::node_at_or_after(self, position)
    }

    fn node_after(&self, position: S) -> (found: Option<Traversal<'_, S>>) {
        HollowSpacedList::node_after(self, position)
    }
}

} // verus!
