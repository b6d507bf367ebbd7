//! The parts of a list that the operations on lists work on. Handing them
//! out lets the holder change a list in ways that break its invariant, so the
//! trait stays inside the crate.

use crate::hollow::HollowSpacedList;
use crate::skeleton::{grown, SpacedListSkeleton};
use crate::spacing::Spacing;
use crate::traversal::Traversal;
use vstd::prelude::*;

verus! {

/// The parts of a list that the operations of `SpacedList` work on.
pub trait CrateSpacedList<S: Spacing>: Sized {
    /// The skeleton and the size of this list, as a list without payload.
    spec fn hollow(&self) -> HollowSpacedList<S>;

    /// The skeleton of this list.
    fn skeleton(&self) -> (skeleton: &SpacedListSkeleton<S>)
        ensures
            *skeleton == self.hollow().spec_skeleton(),
    ;

    /// The skeleton of this list, to be changed in place. The size stays as
    /// it is.
    fn skeleton_mut(&mut self) -> (skeleton: &mut SpacedListSkeleton<S>)
        ensures
            *skeleton == old(self).hollow().spec_skeleton(),
            final(self).hollow().spec_skeleton() == *final(skeleton),
            final(self).hollow().spec_size() == old(self).hollow().spec_size(),
    ;

    /// The size of this list, to be changed in place. The skeleton stays as
    /// it is.
    fn size_mut(&mut self) -> (size: &mut usize)
        ensures
            *size == old(self).hollow().spec_size(),
            final(self).hollow().spec_size() == *final(size),
            final(self).hollow().spec_skeleton() == old(self).hollow().spec_skeleton(),
    ;

    /// A cursor at the root of this list, on the coarsest level.
    fn traversal(&self) -> (cursor: Traversal<'_, S>)
        requires
            self.hollow().wf(),
        ensures
            cursor.wf(),
            cursor.on_top_level(),
            cursor.node_index == 0,
            cursor.position.value() == 0,
            *cursor.list == self.hollow(),
            cursor.super_traversal is None,
    ;

    /// Doubles the capacity (or raises it to one). No node moves.
    fn grow(&mut self)
        requires
            old(self).hollow().wf(),
        ensures
            final(self).hollow().wf(),
            final(self).hollow().links() == grown(old(self).hollow().links()),
            final(self).hollow().spec_size() == old(self).hollow().spec_size(),
            final(self).hollow().spec_length() == old(self).hollow().spec_length(),
            final(self).hollow().inserted() == old(self).hollow().inserted(),
            final(self).hollow().slot_count() == final(self).hollow().spec_capacity(),
            forall|i: int|
                0 <= i < final(self).hollow().spec_capacity() ==> (
                #[trigger] final(self).hollow().sublist_at(i)) == if i < old(
                    self,
                ).hollow().spec_capacity() {
                    old(self).hollow().sublist_at(i)
                } else {
                    None
                },
    ;
}

impl<S: Spacing> CrateSpacedList<S> for HollowSpacedList<S> {
    open spec fn hollow(&self) -> HollowSpacedList<S> {
        *self
    }

    fn skeleton(&self) -> (skeleton: &SpacedListSkeleton<S>) {
        &self.skeleton
    }

    fn skeleton_mut(&mut self) -> (skeleton: &mut SpacedListSkeleton<S>) {
        &mut self.skeleton
    }

    fn size_mut(&mut self) -> (size: &mut usize) {
        &mut self.size
    }

    fn traversal(&self) -> (cursor: Traversal<'_, S>) {
        Traversal::new(self)
    }

    fn grow(&mut self) {
        HollowSpacedList::grow(self)
    }
}

} // verus!
