//! The skeleton of a spaced list: its link lengths, stored like a
//! binary-indexed tree, and one optional nested list per node slot.
//!
//! ```text
//!  0   1   2   3   4   5   6   7   8  (node indices)
//!  | 0 | 1 | 2 | 3 | 4 | 5 | 6 | 7 |  (link indices)
//!  ^ 0 ^ 1 ^ 0 ^ 2 ^ 0 ^ 1 ^ 0 ^ 3 ^  (link degrees)
//! ```
//!
//! The link at index `j` ends at node `j + 1` and spans `low_bit(j + 1)` nodes:
//! it holds the distance from node `j + 1 - low_bit(j + 1)` to node `j + 1`.

use crate::binary::{
    floor_to, has_bit, lemma_block_of_slot, lemma_floor_to, lemma_floor_to_next,
    lemma_low_bit_above_power, lemma_low_bit_divides, lemma_low_bit_not_between,
    lemma_low_bit_of_multiple, lemma_low_bit_of_power, lemma_low_bit_step, lemma_multiple_below,
    lemma_pow2_double, low_bit, power_of_two,
};
use crate::hollow::HollowSpacedList;
use crate::navigation::can_have_link_index_at;
use crate::spacing::Spacing;
use vstd::arithmetic::div_mod::lemma_mod_add_multiples_vanish;
use vstd::arithmetic::power2::{lemma2_to64, lemma_pow2_pos, lemma_pow2_strictly_increases, pow2};
use vstd::prelude::*;

verus! {

/// The number of tree levels over `capacity` links: the count of binary digits
/// of `capacity`.
pub open spec fn levels(capacity: nat) -> nat
    decreases capacity,
{
    if capacity == 0 {
        0
    } else {
        1 + levels(capacity / 2)
    }
}

/// Whether `capacity` is zero or a power of two.
pub open spec fn dyadic(capacity: nat) -> bool {
    capacity == 0 || capacity == pow2((levels(capacity) - 1) as nat)
}

/// The first node of the block that the link at index `link` spans.
pub open spec fn span_start(link: nat) -> nat {
    (link + 1 - low_bit(link + 1)) as nat
}

/// Whether the link at index `link` spans the slot between node `slot` and
/// node `slot + 1`.
pub open spec fn spans(link: nat, slot: nat) -> bool {
    span_start(link) <= slot <= link
}

/// The distance from node 0 to node `node` that the link lengths `links` encode.
pub open spec fn distance_to(links: Seq<int>, node: nat) -> int
    decreases node,
    via distance_to_decreases
{
    if node == 0 {
        0
    } else {
        distance_to(links, (node - low_bit(node)) as nat) + links[node - 1]
    }
}

#[via_fn]
proof fn distance_to_decreases(links: Seq<int>, node: nat) {
    if node > 0 {
        lemma_low_bit_divides(node);
    }
}

/// `links` with `amount` added to every link that spans `slot`.
pub open spec fn inflated(links: Seq<int>, slot: nat, amount: int) -> Seq<int> {
    Seq::new(
        links.len(),
        |j: int|
            if spans(j as nat, slot) {
                links[j] + amount
            } else {
                links[j]
            },
    )
}

/// `links` after one growth step: one zero link for an empty sequence;
/// otherwise the old links, then zeros, then the old total length.
pub open spec fn grown(links: Seq<int>) -> Seq<int> {
    if links.len() == 0 {
        seq![0int]
    } else {
        Seq::new(
            2 * links.len(),
            |j: int|
                if j < links.len() {
                    links[j]
                } else if j == 2 * links.len() - 1 {
                    links[links.len() - 1]
                } else {
                    0
                },
        )
    }
}

/// Doubling a dyadic capacity keeps it dyadic and adds one level.
pub proof fn lemma_dyadic_double(capacity: nat)
    requires
        dyadic(capacity),
        capacity > 0,
    ensures
        dyadic(2 * capacity),
        levels(2 * capacity) == levels(capacity) + 1,
{
    let k: nat = (levels(capacity) - 1) as nat;
    lemma_pow2_double(k);
}

/// One link makes one level.
pub proof fn lemma_dyadic_one()
    ensures
        dyadic(1),
        levels(1) == 1,
{
    assert(pow2(0) == 1) by {
        lemma2_to64();
    }
    assert(levels(1) == 1 + levels(0));
}

/// The distance to a node depends only on the links before it.
pub proof fn lemma_distance_to_prefix(first: Seq<int>, second: Seq<int>, node: nat)
    requires
        node <= first.len(),
        node <= second.len(),
        forall|j: int| 0 <= j < node ==> first[j] == second[j],
    ensures
        distance_to(first, node) == distance_to(second, node),
    decreases node,
{
    if node > 0 {
        lemma_low_bit_divides(node);
        lemma_distance_to_prefix(first, second, (node - low_bit(node)) as nat);
    }
}

/// From a node whose index is a multiple of `2^(degree + 1)`, the link of
/// that degree ahead of it leads to the node `2^degree` further on.
pub proof fn lemma_distance_to_step(links: Seq<int>, node: nat, degree: nat)
    requires
        node % pow2(degree + 1) == 0,
    ensures
        distance_to(links, node + pow2(degree)) == distance_to(links, node) + links[node + pow2(
            degree,
        ) - 1],
{
    lemma_low_bit_step(node, degree);
    lemma_pow2_pos(degree);
}

/// Inflating the link at `slot` moves every node behind that slot by `amount`
/// and leaves the others where they were.
pub proof fn lemma_distance_to_inflated(links: Seq<int>, slot: nat, amount: int, node: nat)
    requires
        node <= links.len(),
    ensures
        distance_to(inflated(links, slot, amount), node) == distance_to(links, node) + if slot
            < node {
            amount
        } else {
            0
        },
    decreases node,
{
    if node > 0 {
        lemma_low_bit_divides(node);
        lemma_distance_to_inflated(links, slot, amount, (node - low_bit(node)) as nat);
    }
}

/// Growing keeps every node where it was and puts the new nodes at the end of
/// the list.
pub proof fn lemma_distance_to_grown(links: Seq<int>, node: nat)
    requires
        dyadic(links.len()),
        node <= grown(links).len(),
    ensures
        distance_to(grown(links), node) == if node <= links.len() {
            distance_to(links, node)
        } else {
            distance_to(links, links.len())
        },
        links.len() > 0 ==> distance_to(links, links.len()) == links[links.len() - 1],
    decreases node,
{
    let capacity: nat = links.len();
    assert(distance_to(grown(links), 0) == 0);
    assert(distance_to(links, 0) == 0);
    if capacity > 0 {
        let k: nat = (levels(capacity) - 1) as nat;
        lemma_low_bit_of_power(k);
        lemma_low_bit_of_power(k + 1);
        lemma_pow2_double(k);
        if node <= capacity {
            lemma_distance_to_prefix(grown(links), links, node);
        } else if node == 2 * capacity {
            assert(distance_to(grown(links), node) == distance_to(grown(links), 0) + grown(
                links,
            )[node - 1]);
        } else {
            let m: nat = (node - capacity) as nat;
            lemma_low_bit_above_power(k, m);
            lemma_low_bit_divides(m);
            lemma_distance_to_grown(links, (node - low_bit(node)) as nat);
            if node - low_bit(node) == capacity {
                lemma_distance_to_prefix(grown(links), links, capacity);
            }
        }
    }
}

/// The link lengths of a list and the nested list of each node slot.
pub struct SpacedListSkeleton<S: Spacing> {
    pub(crate) link_lengths: Vec<S>,
    pub(crate) sublists: Vec<Option<HollowSpacedList<S>>>,
}

impl<S: Spacing> Default for SpacedListSkeleton<S> {
    /// A skeleton without links.
    fn default() -> (skeleton: Self)
        ensures
            skeleton.well_shaped(),
            skeleton.spec_capacity() == 0,
    {
        SpacedListSkeleton { link_lengths: Vec::new(), sublists: Vec::new() }
    }
}

impl<S: Spacing> SpacedListSkeleton<S> {
    /// The link lengths, as integers.
    pub open(crate) spec fn links(&self) -> Seq<int> {
        Seq::new(self.link_lengths@.len(), |j: int| self.link_lengths@[j].value())
    }

    /// The link lengths, as they are stored.
    pub open(crate) spec fn link_values(&self) -> Seq<S> {
        self.link_lengths@
    }

    /// The nested list of each node slot.
    pub open(crate) spec fn nested(&self) -> Seq<Option<HollowSpacedList<S>>> {
        self.sublists@
    }

    /// The number of link slots.
    pub open spec fn spec_capacity(&self) -> nat {
        self.links().len()
    }

    /// The number of tree levels.
    pub open spec fn spec_depth(&self) -> nat {
        levels(self.spec_capacity())
    }

    /// The total span: the distance from node 0 to the last node slot.
    pub open spec fn spec_length(&self) -> int {
        distance_to(self.links(), self.spec_capacity())
    }

    /// The capacity is zero or a power of two, and every node slot has a place
    /// for a nested list.
    pub open spec fn well_shaped(&self) -> bool {
        &&& dyadic(self.spec_capacity())
        &&& self.nested().len() == self.spec_capacity()
    }

    /// The number of nodes that fit in this list, not counting node 0: the
    /// number of link lengths.
    pub fn capacity(&self) -> (capacity: usize)
        ensures
            capacity == self.spec_capacity(),
    {
        self.link_lengths.len()
    }

    /// Whether `index` names a link slot.
    pub fn is_in_bounds(&self, index: usize) -> (b: bool)
        ensures
            b == (index < self.spec_capacity()),
    {
        index < self.capacity()
    }

    /// Whether `index` names a node slot that has a place for a nested list.
    pub fn is_slot(&self, index: usize) -> (b: bool)
        ensures
            b == (index < self.nested().len()),
    {
        index < self.sublists.len()
    }

    /// The number of tree levels: zero for an empty skeleton, else one more
    /// than the exponent of the capacity.
    pub fn depth(&self) -> (depth: usize)
        ensures
            depth == self.spec_depth(),
            self.well_shaped() && depth > 0 ==> self.spec_capacity() == pow2((depth - 1) as nat),
    {
        let capacity: usize = self.link_lengths.len();
        let mut depth: usize = 0;
        let mut rest: usize = capacity;
        while rest > 0
            invariant
                levels(capacity as nat) == depth + levels(rest as nat),
                depth + rest <= capacity,
            decreases rest,
        {
            rest = rest / 2;
            depth = depth + 1;
        }
        depth
    }

    /// The length of the link at `index`.
    pub fn get_link_length_at(&self, index: usize) -> (length: S)
        requires
            index < self.spec_capacity(),
        ensures
            length.value() == self.links()[index as int],
    {
        self.link_lengths[index]
    }

    /// The length of the link at `index`, to be changed in place.
    pub fn get_link_length_at_mut(&mut self, index: usize) -> (length: &mut S)
        requires
            index < old(self).spec_capacity(),
        ensures
            *length == old(self).link_values()[index as int],
            final(self).link_values() == old(self).link_values().update(
                index as int,
                *final(length),
            ),
            final(self).nested() == old(self).nested(),
    {
        &mut self.link_lengths[index]
    }

    /// The place of the nested list at node slot `index`, to be changed in
    /// place.
    pub fn get_sublist_at_mut(&mut self, index: usize) -> (sublist: &mut Option<
        HollowSpacedList<S>,
    >)
        requires
            index < old(self).nested().len(),
        ensures
            *sublist == old(self).nested()[index as int],
            final(self).nested() == old(self).nested().update(index as int, *final(sublist)),
            final(self).link_values() == old(self).link_values(),
    {
        &mut self.sublists[index]
    }

    /// The nested list at node slot `index`; an empty one is put there first
    /// if the slot has none.
    pub fn get_or_add_sublist_at_mut(&mut self, index: usize) -> (sublist: &mut HollowSpacedList<
        S,
    >)
        requires
            index < old(self).nested().len(),
        ensures
            match old(self).nested()[index as int] {
                Some(present) => *sublist == present,
                None => sublist.wf() && sublist.spec_size() == 0 && sublist.spec_capacity() == 0,
            },
            final(self).nested() == old(self).nested().update(
                index as int,
                Some(*final(sublist)),
            ),
            final(self).link_values() == old(self).link_values(),
    {
        let slot = &mut self.sublists[index];
        if slot.is_none() {
            *slot = Some(HollowSpacedList::new());
        }
        match slot {
            Some(sublist) => sublist,
            None => vstd::pervasive::unreached(),
        }
    }

    /// The nested list at node slot `index`; an empty one is put there first
    /// if the slot has none.
    pub fn get_or_add_sublist_at(&mut self, index: usize) -> (sublist: &HollowSpacedList<S>)
        requires
            index < old(self).nested().len(),
        ensures
            match old(self).nested()[index as int] {
                Some(present) => *sublist == present,
                None => sublist.wf() && sublist.spec_size() == 0 && sublist.spec_capacity() == 0,
            },
            final(self).nested() == old(self).nested().update(index as int, Some(*sublist)),
            final(self).link_values() == old(self).link_values(),
    {
        self.get_or_add_sublist_at_mut(index)
    }

    /// The index of the last link, the one that spans the whole list.
    pub fn last_link_index(&self) -> (index: usize)
        requires
            self.spec_capacity() > 0,
        ensures
            index == self.spec_capacity() - 1,
    {
        self.capacity() - 1
    }

    /// Whether there is a link ahead of `node_index` on level `degree`: the
    /// tree has one there, and the node is not the last node slot.
    pub fn has_link_index_at(&self, node_index: usize, degree: usize) -> (b: bool)
        requires
            pow2((degree + 1) as nat) <= usize::MAX,
        ensures
            b == (node_index as nat % pow2((degree + 1) as nat) == 0 && node_index
                < self.spec_capacity()),
    {
        can_have_link_index_at(node_index, degree) && self.is_in_bounds(node_index)
    }

    /// The nested list at node slot `index`, if there is one.
    pub fn get_sublist_at(&self, index: usize) -> (sublist: &Option<HollowSpacedList<S>>)
        requires
            index < self.nested().len(),
        ensures
            *sublist == self.nested()[index as int],
    {
        &self.sublists[index]
    }

    /// The total span: the last link length, or zero for an empty skeleton.
    pub fn length(&self) -> (length: S)
        requires
            self.well_shaped(),
        ensures
            length.value() == self.spec_length(),
            self.spec_capacity() > 0 ==> self.spec_length() == self.links()[self.spec_capacity()
                - 1],
            self.spec_capacity() == 0 ==> self.spec_length() == 0,
    {
        proof {
            lemma_distance_to_grown(self.links(), 0);
        }
        let capacity: usize = self.link_lengths.len();
        if capacity == 0 {
            S::zero()
        } else {
            self.link_lengths[capacity - 1]
        }
    }

    /// Doubles the capacity, or raises it to one if it is zero. The links that
    /// were there keep their lengths, the new ones are zero but for the last,
    /// which spans the whole list and gets the old total length. The new node
    /// slots have no nested list.
    pub fn grow(&mut self)
        requires
            old(self).well_shaped(),
        ensures
            final(self).well_shaped(),
            final(self).links() == grown(old(self).links()),
            final(self).nested() == old(self).nested() + Seq::new(
                (final(self).spec_capacity() - old(self).spec_capacity()) as nat,
                |j: int| None,
            ),
            final(self).spec_capacity() == if old(self).spec_capacity() == 0 {
                1
            } else {
                2 * old(self).spec_capacity()
            },
    {
        let capacity: usize = self.link_lengths.len();
        if capacity == 0 {
            self.link_lengths.push(S::zero());
            self.sublists.push(None);
            proof {
                lemma_dyadic_one();
            }
        } else {
            let length: S = self.length();
            let mut added: usize = 0;
            while added < capacity
                invariant
                    added <= capacity,
                    self.link_lengths == old(self).link_lengths,
                    self.sublists@ == old(self).sublists@ + Seq::new(added as nat, |j: int| None),
                decreases capacity - added,
            {
                self.sublists.push(None);
                added = added + 1;
                assert(self.sublists@ =~= old(self).sublists@ + Seq::new(
                    added as nat,
                    |j: int| None,
                ));
            }
            let mut filled: usize = 1;
            while filled < capacity
                invariant
                    1 <= filled <= capacity,
                    capacity == old(self).link_lengths@.len(),
                    self.sublists@ == old(self).sublists@ + Seq::new(
                        capacity as nat,
                        |j: int| None,
                    ),
                    self.link_lengths@.len() == capacity + filled - 1,
                    forall|j: int|
                        0 <= j < capacity ==> self.link_lengths@[j] == old(self).link_lengths@[j],
                    forall|j: int|
                        capacity <= j < capacity + filled - 1 ==> (
                        #[trigger] self.link_lengths@[j]).value() == 0,
                decreases capacity - filled,
            {
                self.link_lengths.push(S::zero());
                filled = filled + 1;
            }
            self.link_lengths.push(length);
            proof {
                lemma_dyadic_double(capacity as nat);
                assert(self.nested() =~= old(self).nested() + Seq::new(
                    (self.spec_capacity() - old(self).spec_capacity()) as nat,
                    |j: int| None,
                ));
            }
        }
    }

    /// Adds `amount` to every link that spans the slot `link_index`. Seen from
    /// the nodes: every node behind that slot moves by `amount`.
    pub fn inflate_at(&mut self, link_index: usize, amount: S)
        requires
            old(self).well_shaped(),
            link_index < old(self).spec_capacity(),
            forall|j: int|
                0 <= j < old(self).spec_capacity() && spans(j as nat, link_index as nat)
                    ==> S::representable(#[trigger] old(self).links()[j] + amount.value()),
        ensures
            final(self).links() == inflated(
                old(self).links(),
                link_index as nat,
                amount.value(),
            ),
            final(self).nested() == old(self).nested(),
            final(self).well_shaped(),
    {
        self.shift_at(link_index, amount, false)
    }

    /// The reverse of [`Self::inflate_at`]: takes `amount` from every link
    /// that spans the slot `link_index`.
    pub fn deflate_at(&mut self, link_index: usize, amount: S)
        requires
            old(self).well_shaped(),
            link_index < old(self).spec_capacity(),
            forall|j: int|
                0 <= j < old(self).spec_capacity() && spans(j as nat, link_index as nat)
                    ==> S::representable(#[trigger] old(self).links()[j] - amount.value()),
        ensures
            final(self).links() == inflated(
                old(self).links(),
                link_index as nat,
                -amount.value(),
            ),
            final(self).nested() == old(self).nested(),
            final(self).well_shaped(),
    {
        self.shift_at(link_index, amount, true)
    }

    /// Walks up from the link at `link_index`, one degree at a time, and
    /// changes each link that spans it: by `amount`, or by `-amount` if
    /// `backwards` is set.
    fn shift_at(&mut self, link_index: usize, amount: S, backwards: bool)
        requires
            old(self).well_shaped(),
            link_index < old(self).spec_capacity(),
            forall|j: int|
                0 <= j < old(self).spec_capacity() && spans(j as nat, link_index as nat)
                    ==> S::representable(
                    #[trigger] old(self).links()[j] + signed(amount.value(), backwards),
                ),
        ensures
            final(self).links() == inflated(
                old(self).links(),
                link_index as nat,
                signed(amount.value(), backwards),
            ),
            final(self).nested() == old(self).nested(),
            final(self).well_shaped(),
    {
        let depth: usize = self.depth();
        let capacity: usize = self.link_lengths.len();
        let ghost slot: nat = link_index as nat;
        let ghost change: int = signed(amount.value(), backwards);
        let ghost before: Seq<int> = self.links();
        let mut index: usize = link_index;
        let mut degree: usize = 0;
        proof {
            lemma_floor_to(slot, 0);
            assert(pow2(0) == 1) by {
                lemma2_to64();
            }
        }
        while degree < depth
            invariant
                degree <= depth,
                depth == levels(capacity as nat),
                capacity == pow2((depth - 1) as nat),
                capacity == before.len(),
                capacity == self.link_lengths@.len(),
                slot == link_index < capacity,
                change == signed(amount.value(), backwards),
                self.sublists == old(self).sublists,
                before == old(self).links(),
                degree < depth ==> index == floor_to(slot, degree as nat) + pow2(degree as nat) - 1,
                degree < depth ==> index < capacity,
                forall|j: int|
                    0 <= j < capacity && spans(j as nat, slot) ==> S::representable(
                        #[trigger] before[j] + change,
                    ),
                forall|j: int|
                    0 <= j < capacity ==> (#[trigger] self.link_lengths@[j]).value() == if spans(
                        j as nat,
                        slot,
                    ) && low_bit((j + 1) as nat) < pow2(degree as nat) {
                        before[j] + change
                    } else {
                        before[j]
                    },
            decreases depth - degree,
        {
            let ghost d: nat = degree as nat;
            proof {
                lemma_pow2_pos(d);
                if d < depth - 1 {
                    lemma_pow2_strictly_increases(d, (depth - 1) as nat);
                }
                lemma_floor_to(slot, d);
                lemma_floor_to_next(slot, d);
                lemma_pow2_double(d);
                lemma_floor_to(index as nat, d);
                assert(index as nat / pow2(d) == slot / pow2(d)) by {
                    let p: int = pow2(d) as int;
                    let q: int = (slot / pow2(d)) as int;
                    assert((q * p + (p - 1)) / p == q) by (nonlinear_arith)
                        requires
                            p > 0,
                    ;
                }
            }
            let clear: bool = !has_bit(index, degree);
            if clear {
                proof {
                    lemma_low_bit_step(floor_to(slot, d), d);
                }
                let current: S = self.link_lengths[index];
                let updated: S = if backwards {
                    current.minus(amount)
                } else {
                    current.plus(amount)
                };
                self.link_lengths[index] = updated;
            }
            proof {
                assert forall|j: int| 0 <= j < capacity implies (
                #[trigger] self.link_lengths@[j]).value() == if spans(j as nat, slot) && low_bit(
                    (j + 1) as nat,
                ) < pow2((degree + 1) as nat) {
                    before[j] + change
                } else {
                    before[j]
                } by {
                    let n: nat = (j + 1) as nat;
                    lemma_low_bit_divides(n);
                    if spans(j as nat, slot) && low_bit(n) == pow2(d) {
                        lemma_block_of_slot(n, slot, d);
                        if !clear {
                            lemma_mod_add_multiples_vanish(
                                floor_to(slot, d + 1) as int,
                                pow2(d + 1) as int,
                            );
                            lemma_low_bit_of_multiple(n, d + 1);
                        }
                    } else if spans(j as nat, slot) && low_bit(n) > pow2(d) {
                        lemma_low_bit_not_between(n, d);
                    }
                }
            }
            proof {
                if degree + 1 < depth {
                    lemma_floor_to(slot, d + 1);
                    lemma_multiple_below(floor_to(slot, d + 1), d + 1, (depth - 1) as nat);
                }
            }
            if clear && degree + 1 < depth {
                index = index + power_of_two(degree);
            }
            degree = degree + 1;
        }
        proof {
            assert forall|j: int| 0 <= j < capacity implies #[trigger] self.links()[j] == inflated(
                before,
                slot,
                change,
            )[j] by {
                lemma_low_bit_divides((j + 1) as nat);
                lemma_pow2_double((depth - 1) as nat);
            }
        }
    }
}

/// `amount`, or `-amount` if `backwards` is set.
pub open spec fn signed(amount: int, backwards: bool) -> int {
    if backwards {
        -amount
    } else {
        amount
    }
}

} // verus!
