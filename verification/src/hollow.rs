//! The payload-free spaced list: a skeleton and the count of its nodes.

use crate::binary::{lemma_low_bit_divides, low_bit};
use crate::skeleton::{
    distance_to, grown, inflated, lemma_distance_to_grown, lemma_distance_to_inflated, spans,
    SpacedListSkeleton,
};
use crate::lookup::lemma_threshold;
use crate::spacing::Spacing;
use crate::traversal::Traversal;
use vstd::multiset::Multiset;
use vstd::prelude::*;

verus! {

/// A spaced list that stores positions only.
///
/// Node 0 is the root, at position 0. The nodes `1..=size` have been appended;
/// the node slots behind them are not in use yet and lie at the end of the
/// list. A node slot may hold a nested list, whose nodes lie between that node
/// and the next one; their positions are relative to the node.
pub struct HollowSpacedList<S: Spacing> {
    pub(crate) skeleton: SpacedListSkeleton<S>,
    pub(crate) size: usize,
}

impl<S: Spacing> Default for HollowSpacedList<S> {
    /// An empty list: no links, no nodes but the root.
    fn default() -> (list: Self)
        ensures
            list.wf(),
            list.spec_size() == 0,
            list.spec_capacity() == 0,
            list.spec_length() == 0,
            list.inserted() == Multiset::<int>::empty(),
            list.tight(),
            list.slot_count() == 0,
    {
        HollowSpacedList { skeleton: SpacedListSkeleton::default(), size: 0 }
    }
}

impl<S: Spacing> HollowSpacedList<S> {
    /// The number of nodes that were appended to this list itself.
    pub open(crate) spec fn spec_size(&self) -> nat {
        self.size as nat
    }

    /// The skeleton of this list.
    pub open(crate) spec fn spec_skeleton(&self) -> SpacedListSkeleton<S> {
        self.skeleton
    }

    /// The number of node slots that have a place for a nested list.
    pub open(crate) spec fn slot_count(&self) -> nat {
        self.skeleton.sublists@.len()
    }

    /// The link lengths of this list, as integers.
    pub open(crate) spec fn links(&self) -> Seq<int> {
        self.skeleton.links()
    }

    /// The nested list at node slot `slot`, if there is one.
    pub open(crate) spec fn sublist_at(&self, slot: int) -> Option<Self> {
        self.skeleton.sublists@[slot]
    }

    /// The number of link slots.
    pub open spec fn spec_capacity(&self) -> nat {
        self.links().len()
    }

    /// The position of node `node`, relative to this list's root.
    pub open spec fn node_position(&self, node: nat) -> int {
        distance_to(self.links(), node)
    }

    /// The position of the last node, relative to this list's root.
    pub open spec fn spec_length(&self) -> int {
        self.node_position(self.spec_capacity())
    }

    /// The invariant of a list.
    ///
    /// The capacity is zero or a power of two and holds the size. Positions do
    /// not decrease along the node slots, and the slots that are not in use lie
    /// where the last node lies. A nested list hangs below a node that has a
    /// successor, is itself well-formed, and ends before that successor.
    pub open(crate) spec fn wf(&self) -> bool
        decreases self,
    {
        &&& self.skeleton.well_shaped()
        &&& self.size <= self.skeleton.link_lengths@.len()
        &&& forall|a: nat, b: nat|
            #![trigger self.node_position(a), self.node_position(b)]
            a <= b <= self.spec_capacity() ==> self.node_position(a) <= self.node_position(b)
        &&& forall|n: nat|
            self.size <= n <= self.spec_capacity() ==> #[trigger] self.node_position(n)
                == self.node_position(self.size as nat)
        &&& forall|i: int|
            0 <= i < self.skeleton.sublists@.len() ==> match #[trigger] self.skeleton.sublists@[i] {
                Some(sublist) => {
                    &&& i < self.size
                    &&& sublist.wf()
                    &&& sublist.spec_length() < self.node_position((i + 1) as nat)
                        - self.node_position(i as nat)
                },
                None => true,
            }
    }

    /// The positions of the nodes that were put into the first `slots` node
    /// slots of this list and into the lists nested below them, as they lie
    /// when this list's root lies at `origin`. The root itself is not among
    /// them.
    pub open(crate) spec fn inserted_from(&self, origin: int, slots: nat) -> Multiset<int>
        decreases self, slots,
    {
        if slots == 0 || slots > self.skeleton.sublists@.len() {
            Multiset::empty()
        } else {
            let before: Multiset<int> = self.inserted_from(origin, (slots - 1) as nat);
            let below: Multiset<int> = match self.skeleton.sublists@[slots - 1] {
                Some(sublist) => sublist.inserted_from(
                    origin + self.node_position((slots - 1) as nat),
                    sublist.size as nat,
                ),
                None => Multiset::empty(),
            };
            before.add(below).insert(origin + self.node_position(slots))
        }
    }

    /// The positions of all nodes that were put into this list, at any depth
    /// of nesting. The root is not among them.
    pub open spec fn inserted(&self) -> Multiset<int> {
        self.inserted_from(0, self.spec_size())
    }

    /// Whether a node lies at `position`: the root, or one that was put in.
    pub open spec fn has_node(&self, position: int) -> bool {
        position == 0 || self.inserted().contains(position)
    }

    /// Whether `after` is this list with one node appended `distance` behind
    /// the last node: grown first if it was full, then with every link that
    /// spans the first free slot made longer by `distance`.
    pub open spec fn appends_to(&self, after: &Self, distance: int) -> bool {
        &&& after.spec_size() == self.spec_size() + 1
        &&& after.links() == inflated(
            if self.spec_size() == self.spec_capacity() {
                grown(self.links())
            } else {
                self.links()
            },
            self.spec_size(),
            distance,
        )
        &&& after.slot_count() == after.spec_capacity()
        &&& forall|i: int|
            0 <= i < after.slot_count() ==> #[trigger] after.sublist_at(i) == if i
                < self.slot_count() {
                self.sublist_at(i)
            } else {
                None
            }
    }

    /// Whether `after` is this list with one node put in at `position`: an
    /// appended node, if `position` is not before the last node; else the
    /// same list but for the list nested below the last node at or before
    /// `position`, which has the node put in at its distance from that node.
    pub open(crate) spec fn inserts_to(&self, after: &Self, position: int) -> bool
        decreases self,
    {
        if position >= self.spec_length() {
            self.appends_to(after, position - self.spec_length())
        } else {
            &&& after.links() == self.links()
            &&& after.spec_size() == self.spec_size()
            &&& after.slot_count() == self.slot_count()
            &&& exists|slot: int|
                {
                    &&& 0 <= slot < self.spec_size()
                    &&& slot < self.skeleton.sublists@.len()
                    &&& self.node_position(slot as nat) <= position < self.node_position(
                        (slot + 1) as nat,
                    )
                    &&& forall|i: int|
                        0 <= i < self.slot_count() && i != slot ==> #[trigger] after.sublist_at(i)
                            == self.sublist_at(i)
                    &&& #[trigger] after.sublist_at(slot) is Some
                    &&& match self.skeleton.sublists@[slot] {
                        Some(sublist) => sublist.inserts_to(
                            &after.sublist_at(slot).unwrap(),
                            position - self.node_position(slot as nat),
                        ),
                        None => after.sublist_at(slot).unwrap().holds_one(
                            position - self.node_position(slot as nat),
                        ),
                    }
                }
        }
    }

    /// Whether this list holds one node, at `position`, and nothing else.
    pub open spec fn holds_one(&self, position: int) -> bool {
        &&& self.spec_size() == 1
        &&& self.links() == seq![position]
        &&& self.slot_count() == 1
        &&& self.sublist_at(0) is None
    }

    /// Whether the capacity is the least that the size allows: zero for no
    /// node, else the least power of two that holds the size.
    pub open spec fn tight(&self) -> bool {
        if self.spec_size() == 0 {
            self.spec_capacity() == 0
        } else {
            self.spec_capacity() < 2 * self.spec_size() <= 2 * self.spec_capacity()
        }
    }

    /// An empty list: no links, no nodes but the root.
    pub fn new() -> (list: Self)
        ensures
            list.wf(),
            list.spec_size() == 0,
            list.spec_capacity() == 0,
            list.spec_length() == 0,
            list.inserted() == Multiset::<int>::empty(),
            list.tight(),
            list.slot_count() == 0,
    {
        Self::default()
    }

    /// The skeleton of this list.
    pub fn skeleton(&self) -> (skeleton: &SpacedListSkeleton<S>)
        ensures
            *skeleton == self.spec_skeleton(),
    {
        &self.skeleton
    }

    /// The position of the last node.
    pub fn length(&self) -> (length: S)
        requires
            self.wf(),
        ensures
            length.value() == self.spec_length(),
    {
        self.skeleton.length()
    }

    /// The number of nodes that were appended to this list itself; nodes of
    /// nested lists do not count.
    pub fn size(&self) -> (size: usize)
        ensures
            size == self.spec_size(),
    {
        self.size
    }

    /// The number of nodes that this list has room for before it grows.
    pub fn capacity(&self) -> (capacity: usize)
        ensures
            capacity == self.spec_capacity(),
    {
        self.skeleton.capacity()
    }

    /// Whether no node was appended yet.
    pub fn is_empty(&self) -> (b: bool)
        ensures
            b == (self.spec_size() == 0),
    {
        self.size == 0
    }

    /// Whether the next append has to grow the list.
    pub fn is_full(&self) -> (b: bool)
        ensures
            b == (self.spec_size() == self.spec_capacity()),
    {
        self.size == self.skeleton.capacity()
    }

    /// Doubles the capacity (or raises it to one). No node moves.
    pub fn grow(&mut self)
        requires
            old(self).wf(),
        ensures
            final(self).wf(),
            final(self).links() == grown(old(self).links()),
            final(self).spec_size() == old(self).spec_size(),
            final(self).spec_length() == old(self).spec_length(),
            final(self).inserted() == old(self).inserted(),
            forall|origin: int| #[trigger]
                final(self).inserted_from(origin, final(self).spec_size()) == old(
                    self,
                ).inserted_from(origin, old(self).spec_size()),
            forall|n: nat|
                n <= old(self).spec_capacity() ==> #[trigger] final(self).node_position(n) == old(
                    self,
                ).node_position(n),
            final(self).slot_count() == final(self).spec_capacity(),
            forall|i: int|
                0 <= i < final(self).spec_capacity() ==> #[trigger] final(self).sublist_at(i)
                    == if i < old(self).spec_capacity() {
                    old(self).sublist_at(i)
                } else {
                    None
                },
    {
        self.skeleton.grow();
        proof {
            let before: Seq<int> = old(self).links();
            assert forall|n: nat| n <= self.spec_capacity() implies #[trigger] self.node_position(
                n,
            ) == old(self).node_position(
                if n <= before.len() {
                    n
                } else {
                    before.len()
                },
            ) by {
                lemma_distance_to_grown(before, n);
            }
            assert forall|a: nat, b: nat|
                #![trigger self.node_position(a), self.node_position(b)]
                a <= b <= self.spec_capacity() implies self.node_position(a) <= self.node_position(
                b,
            ) by {
                lemma_distance_to_grown(before, a);
                lemma_distance_to_grown(before, b);
            }
            assert forall|origin: int| #[trigger]
                self.inserted_from(origin, self.spec_size()) == old(self).inserted_from(
                    origin,
                    old(self).spec_size(),
                ) by {
                old(self).lemma_inserted_same(self, origin, self.spec_size());
            }
        }
    }

    /// Appends a node `distance` behind the last node. Grows the list first if
    /// it is full.
    ///
    /// A negative distance would put the node before the last one and is ruled
    /// out, as is a distance that would take the list's length out of the
    /// range of `S`.
    pub fn append_node(&mut self, distance: S)
        requires
            old(self).wf(),
            distance.value() >= 0,
            S::representable(old(self).spec_length() + distance.value()),
        ensures
            final(self).wf(),
            old(self).appends_to(final(self), distance.value()),
            old(self).tight() ==> final(self).tight(),
            final(self).spec_size() == old(self).spec_size() + 1,
            final(self).spec_length() == old(self).spec_length() + distance.value(),
            final(self).inserted() == old(self).inserted().insert(final(self).spec_length()),
            forall|origin: int| #[trigger]
                final(self).inserted_from(origin, final(self).spec_size()) == old(
                    self,
                ).inserted_from(origin, old(self).spec_size()).insert(
                    origin + final(self).spec_length(),
                ),
            final(self).spec_capacity() == if old(self).spec_size() < old(self).spec_capacity() {
                old(self).spec_capacity()
            } else if old(self).spec_capacity() == 0 {
                1
            } else {
                2 * old(self).spec_capacity()
            },
            forall|n: nat|
                n <= old(self).spec_size() ==> #[trigger] final(self).node_position(n) == old(
                    self,
                ).node_position(n),
            forall|i: int|
                0 <= i < old(self).spec_capacity() ==> #[trigger] final(self).sublist_at(i) == old(
                    self,
                ).sublist_at(i),
    {
        if self.is_full() {
            self.grow();
        }
        let ghost grown_list: Self = *self;
        let size: usize = self.size;
        proof {
            self.lemma_capacity_fits();
            assert forall|j: int|
                0 <= j < self.spec_capacity() && spans(
                    j as nat,
                    size as nat,
                ) implies S::representable(#[trigger] self.links()[j] + distance.value()) by {
                self.lemma_link_is_distance(j as nat);
                self.skeleton.link_lengths@[j].lemma_value_representable();
                assert(self.node_position((j + 1) as nat) <= self.node_position(
                    self.spec_capacity(),
                ));
                assert(self.node_position(0) <= self.node_position(
                    (j + 1 - low_bit((j + 1) as nat)) as nat,
                ));
                S::lemma_representable_between(
                    self.links()[j],
                    self.links()[j] + distance.value(),
                    self.spec_length() + distance.value(),
                );
            }
        }
        self.skeleton.inflate_at(size, distance);
        self.size = size + 1;
        proof {
            let before: Seq<int> = grown_list.links();
            assert forall|n: nat| n <= self.spec_capacity() implies #[trigger] self.node_position(
                n,
            ) == grown_list.node_position(n) + if size < n {
                distance.value()
            } else {
                0
            } by {
                lemma_distance_to_inflated(before, size as nat, distance.value(), n);
            }
            assert forall|a: nat, b: nat|
                #![trigger self.node_position(a), self.node_position(b)]
                a <= b <= self.spec_capacity() implies self.node_position(a) <= self.node_position(
                b,
            ) by {}
            assert forall|i: int| 0 <= i < self.skeleton.sublists@.len() implies match (
            #[trigger] self.skeleton.sublists@[i]) {
                Some(sublist) => {
                    &&& i < self.size
                    &&& sublist.wf()
                    &&& sublist.spec_length() < self.node_position((i + 1) as nat)
                        - self.node_position(i as nat)
                },
                None => true,
            } by {}
            assert forall|i: int| 0 <= i < old(self).spec_capacity() implies (
            #[trigger] self.sublist_at(i)) == old(self).sublist_at(i) by {
                assert(grown_list.sublist_at(i) == old(self).sublist_at(i));
            }
            assert forall|origin: int| #[trigger]
                self.inserted_from(origin, self.spec_size()) == old(self).inserted_from(
                    origin,
                    old(self).spec_size(),
                ).insert(origin + self.spec_length()) by {
                grown_list.lemma_inserted_same(self, origin, size as nat);
                assert(self.inserted_from(origin, (size + 1) as nat) == self.inserted_from(
                    origin,
                    size as nat,
                ).add(Multiset::empty()).insert(origin + self.node_position((size + 1) as nat)));
                assert(self.inserted_from(origin, size as nat).add(Multiset::empty())
                    =~= self.inserted_from(origin, size as nat));
            }
        }
    }

    /// Puts a node at `position`.
    ///
    /// At or behind the last node, the new node is appended. Before it, the
    /// new node goes into the list nested below the last node of this list
    /// that lies at or before `position`; that nested list is created if it
    /// is not there yet. No node that is in the list moves or changes its
    /// index. A second node at a position that is taken lands behind the
    /// first.
    ///
    /// A negative position would lie before the root and is ruled out.
    pub fn insert_node(&mut self, position: S)
        requires
            old(self).wf(),
            position.value() >= 0,
        ensures
            final(self).wf(),
            old(self).inserts_to(final(self), position.value()),
            old(self).tight() ==> final(self).tight(),
            final(self).inserted() == old(self).inserted().insert(position.value()),
            forall|origin: int| #[trigger]
                final(self).inserted_from(origin, final(self).spec_size()) == old(
                    self,
                ).inserted_from(origin, old(self).spec_size()).insert(origin + position.value()),
            final(self).spec_length() == if position.value() >= old(self).spec_length() {
                position.value()
            } else {
                old(self).spec_length()
            },
            final(self).spec_size() == if position.value() >= old(self).spec_length() {
                old(self).spec_size() + 1
            } else {
                old(self).spec_size()
            },
            position.value() < old(self).spec_length() ==> final(self).links() == old(
                self,
            ).links(),
            forall|n: nat|
                n <= old(self).spec_size() ==> #[trigger] final(self).node_position(n) == old(
                    self,
                ).node_position(n),
        decreases *old(self),
    {
        let length: S = self.length();
        if !position.less_than(length) || self.skeleton.capacity() == 0 {
            proof {
                self.lemma_positions_ordered(0, 0);
                position.lemma_value_representable();
                length.lemma_value_representable();
                S::lemma_zero_representable();
                S::lemma_representable_between(
                    0,
                    position.value() - length.value(),
                    position.value(),
                );
            }
            self.append_node(position.minus(length));
        } else {
            let mut cursor = Traversal::new(&*self);
            let condition = |other: &Traversal<S>| -> (answer: bool)
                ensures
                    answer == (other.position.value() <= position.value()),
                { other.position.at_most(position) };
            proof {
                lemma_threshold(condition, position.value());
            }
            cursor.advance_while_shallow(condition);
            let node_index: usize = cursor.node_index;
            proof {
                self.lemma_positions_ordered(node_index as nat, node_index as nat);
                position.lemma_value_representable();
                S::lemma_zero_representable();
                S::lemma_representable_between(
                    0,
                    position.value() - cursor.position.value(),
                    position.value(),
                );
            }
            let local: S = position.minus(cursor.position);
            let ghost below: int = self.node_position(node_index as nat);
            let slot = &mut self.skeleton.sublists[node_index];
            match slot.take() {
                Some(taken) => {
                    let mut sublist = taken;
                    proof {
                        old(self).lemma_sublist_fits(node_index as int);
                        old(self).lemma_sublist_decreases(node_index as int);
                    }
                    sublist.insert_node(local);
                    self.skeleton.sublists[node_index] = Some(sublist);
                },
                None => {
                    let mut sublist = HollowSpacedList::new();
                    proof {
                        local.lemma_value_representable();
                    }
                    sublist.append_node(local);
                    self.skeleton.sublists[node_index] = Some(sublist);
                },
            }
            proof {
                assert forall|n: nat| self.node_position(n) == old(self).node_position(n) by {}
                assert forall|a: nat, b: nat|
                    #![trigger self.node_position(a), self.node_position(b)]
                    a <= b <= self.spec_capacity() implies self.node_position(a)
                    <= self.node_position(b) by {}
                assert forall|n: nat|
                    self.size <= n <= self.spec_capacity() implies #[trigger] self.node_position(n)
                    == self.node_position(self.size as nat) by {
                    assert(old(self).node_position(n) == old(self).node_position(
                        old(self).size as nat,
                    ));
                }
                assert forall|i: int| 0 <= i < self.skeleton.sublists@.len() implies match (
                #[trigger] self.skeleton.sublists@[i]) {
                    Some(sublist) => {
                        &&& i < self.size
                        &&& sublist.wf()
                        &&& sublist.spec_length() < self.node_position((i + 1) as nat)
                            - self.node_position(i as nat)
                    },
                    None => true,
                } by {}
                let slot: int = node_index as int;
                let nested: Self = self.sublist_at(slot).unwrap();
                if old(self).sublist_at(slot) is None {
                    assert(nested.links() =~= seq![position.value() - below]);
                }
                assert forall|i: int| 0 <= i < old(self).slot_count() && i != slot implies (
                #[trigger] self.sublist_at(i)) == old(self).sublist_at(i) by {}
                assert forall|origin: int| #[trigger]
                    self.inserted_from(origin, self.spec_size()) == old(self).inserted_from(
                        origin,
                        old(self).spec_size(),
                    ).insert(origin + position.value()) by {
                    old(self).lemma_inserted_update(
                        self,
                        origin,
                        node_index as nat,
                        self.spec_size(),
                        origin + position.value(),
                    );
                }
            }
        }
    }

    /// Putting one more node into the list nested at `slot` puts one more
    /// node into the list that holds it.
    pub proof fn lemma_inserted_update(
        &self,
        other: &Self,
        origin: int,
        slot: nat,
        slots: nat,
        position: int,
    )
        requires
            slots <= self.slot_count() == other.slot_count(),
            slot < self.slot_count(),
            self.links() == other.links(),
            forall|i: int|
                0 <= i < self.slot_count() && i != slot ==> self.sublist_at(i) == other.sublist_at(
                    i,
                ),
            other.sublist_at(slot as int) is Some,
            other.sublist_at(slot as int).unwrap().inserted_from(
                origin + self.node_position(slot),
                other.sublist_at(slot as int).unwrap().spec_size(),
            ) == (match self.sublist_at(slot as int) {
                Some(sublist) => sublist.inserted_from(
                    origin + self.node_position(slot),
                    sublist.spec_size(),
                ),
                None => Multiset::empty(),
            }).insert(position),
        ensures
            other.inserted_from(origin, slots) == if slot < slots {
                self.inserted_from(origin, slots).insert(position)
            } else {
                self.inserted_from(origin, slots)
            },
        decreases slots,
    {
        if slots > 0 {
            let last: nat = (slots - 1) as nat;
            self.lemma_inserted_update(other, origin, slot, last, position);
            if last != slot {
                assert(self.sublist_at(last as int) == other.sublist_at(last as int));
            }
            assert(other.inserted_from(origin, slots) =~= if slot < slots {
                self.inserted_from(origin, slots).insert(position)
            } else {
                self.inserted_from(origin, slots)
            });
        }
    }

    /// The capacity is the length of a vector, so it fits in `usize`.
    pub proof fn lemma_capacity_fits(&self)
        ensures
            self.spec_capacity() <= usize::MAX,
    {
        vstd::std_specs::vec::axiom_spec_len(&self.skeleton.link_lengths);
    }

    /// A link holds the distance between the two ends of its span.
    pub proof fn lemma_link_is_distance(&self, link: nat)
        requires
            link < self.spec_capacity(),
        ensures
            self.links()[link as int] == self.node_position(link + 1) - self.node_position(
                (link + 1 - low_bit(link + 1)) as nat,
            ),
            1 <= low_bit(link + 1) <= link + 1,
    {
        lemma_low_bit_divides(link + 1);
    }

    /// Two lists that agree on the positions and on the nested lists of their
    /// first `slots` node slots hold the same inserted nodes there.
    pub proof fn lemma_inserted_same(&self, other: &Self, origin: int, slots: nat)
        requires
            slots <= self.slot_count(),
            slots <= other.slot_count(),
            forall|n: nat| n <= slots ==> self.node_position(n) == other.node_position(n),
            forall|i: int| 0 <= i < slots ==> self.sublist_at(i) == other.sublist_at(i),
        ensures
            self.inserted_from(origin, slots) == other.inserted_from(origin, slots),
        decreases slots,
    {
        if slots > 0 {
            self.lemma_inserted_same(other, origin, (slots - 1) as nat);
            assert(self.sublist_at(slots - 1) == other.sublist_at(slots - 1));
        }
    }

    /// Two lists with the same links, the same size and the same nested
    /// lists are both well-formed or both not.
    pub proof fn lemma_same_shape(&self, other: &Self)
        requires
            self.links() == other.links(),
            self.spec_size() == other.spec_size(),
            self.slot_count() == other.slot_count(),
            forall|slot: int|
                0 <= slot < self.slot_count() ==> self.sublist_at(slot) == other.sublist_at(slot),
        ensures
            self.wf() == other.wf(),
    {
        assert forall|n: nat| self.node_position(n) == other.node_position(n) by {}
        assert forall|slot: int| 0 <= slot < self.slot_count() implies (
        #[trigger] self.skeleton.sublists@[slot]) == other.skeleton.sublists@[slot] by {
            assert(self.sublist_at(slot) == other.sublist_at(slot));
        }
        assert forall|slot: int| 0 <= slot < self.slot_count() implies (
        #[trigger] other.skeleton.sublists@[slot]) == self.skeleton.sublists@[slot] by {}
        if self.wf() {
            assert forall|a: nat, b: nat|
                #![trigger other.node_position(a), other.node_position(b)]
                a <= b <= other.spec_capacity() implies other.node_position(a)
                <= other.node_position(b) by {}
        }
        if other.wf() {
            assert forall|a: nat, b: nat|
                #![trigger self.node_position(a), self.node_position(b)]
                a <= b <= self.spec_capacity() implies self.node_position(a) <= self.node_position(
                b,
            ) by {}
        }
    }

    /// A nested list is structurally smaller than the list that holds it.
    pub proof fn lemma_sublist_decreases(&self, slot: int)
        requires
            0 <= slot < self.slot_count(),
            self.sublist_at(slot) is Some,
        ensures
            decreases_to!(*self => self.sublist_at(slot).unwrap()),
    {
        vstd::std_specs::vec::axiom_vec_index_decreases(self.skeleton.sublists, slot);
    }

    /// What a well-formed list says of the nested list at `slot`.
    pub proof fn lemma_sublist_fits(&self, slot: int)
        requires
            self.wf(),
            0 <= slot < self.slot_count(),
            self.sublist_at(slot) is Some,
        ensures
            slot < self.spec_size(),
            self.sublist_at(slot).unwrap().wf(),
            0 <= self.sublist_at(slot).unwrap().spec_length() < self.node_position(
                (slot + 1) as nat,
            ) - self.node_position(slot as nat),
    {
        let sublist: Self = self.sublist_at(slot).unwrap();
        sublist.lemma_positions_ordered(0, sublist.spec_capacity());
    }

    /// Positions do not decrease along the node slots of a well-formed list,
    /// start at zero, and stay at the list's length from the last node on.
    pub proof fn lemma_positions_ordered(&self, first: nat, second: nat)
        requires
            self.wf(),
            first <= second <= self.spec_capacity(),
        ensures
            0 <= self.node_position(first) <= self.node_position(second) <= self.spec_length(),
            self.spec_size() <= first ==> self.node_position(first) == self.spec_length(),
            self.node_position(self.spec_size()) == self.spec_length(),
            self.node_position(0) == 0,
            self.spec_size() <= self.spec_capacity() == self.slot_count(),
    {
        assert(self.node_position(0) == 0);
    }

    /// Every node that was put into the first `slots` node slots lies between
    /// the root and the node at `slots`.
    pub proof fn lemma_inserted_range(&self, origin: int, slots: nat, position: int)
        requires
            self.wf(),
            slots <= self.spec_size(),
            self.inserted_from(origin, slots).contains(position),
        ensures
            origin <= position <= origin + self.node_position(slots),
        decreases *self, slots,
    {
        self.lemma_positions_ordered(slots, slots);
        if slots > 0 {
            let last: nat = (slots - 1) as nat;
            self.lemma_positions_ordered(last, slots);
            let before: Multiset<int> = self.inserted_from(origin, last);
            if before.contains(position) {
                self.lemma_inserted_range(origin, last, position);
            } else if position != origin + self.node_position(slots) {
                let sublist: Self = self.sublist_at(last as int).unwrap();
                self.lemma_sublist_fits(last as int);
                self.lemma_sublist_decreases(last as int);
                sublist.lemma_positions_ordered(sublist.spec_size(), sublist.spec_size());
                sublist.lemma_inserted_range(
                    origin + self.node_position(last),
                    sublist.spec_size(),
                    position,
                );
            }
        }
    }

    /// Seen from node `node`, every node that was put into the first `slots`
    /// node slots lies at or before that node, or at or behind the next one,
    /// or in the list nested below that node.
    pub proof fn lemma_inserted_split(&self, origin: int, node: nat, slots: nat, position: int)
        requires
            self.wf(),
            node <= self.spec_size(),
            slots <= self.spec_size(),
            self.inserted_from(origin, slots).contains(position),
        ensures
            position <= origin + self.node_position(node) || (node < self.spec_size() && position
                >= origin + self.node_position(node + 1)) || (node < slots && self.sublist_at(
                node as int,
            ) is Some && self.sublist_at(node as int).unwrap().inserted_from(
                origin + self.node_position(node),
                self.sublist_at(node as int).unwrap().spec_size(),
            ).contains(position)),
        decreases slots,
    {
        if slots > 0 {
            let last: nat = (slots - 1) as nat;
            self.lemma_positions_ordered(last, slots);
            let before: Multiset<int> = self.inserted_from(origin, last);
            if before.contains(position) {
                self.lemma_inserted_split(origin, node, last, position);
            } else if position == origin + self.node_position(slots) {
                if slots <= node {
                    self.lemma_positions_ordered(slots, node);
                } else {
                    self.lemma_positions_ordered(node + 1, slots);
                }
            } else {
                let sublist: Self = self.sublist_at(last as int).unwrap();
                self.lemma_sublist_fits(last as int);
                sublist.lemma_positions_ordered(sublist.spec_size(), sublist.spec_size());
                sublist.lemma_inserted_range(
                    origin + self.node_position(last),
                    sublist.spec_size(),
                    position,
                );
                if last < node {
                    self.lemma_positions_ordered(slots, node);
                } else if last > node {
                    self.lemma_positions_ordered(node + 1, last);
                }
            }
        }
    }

    /// Each of the nodes `1..=slots` is among the nodes that were put into
    /// the first `slots` node slots.
    pub proof fn lemma_node_is_inserted(&self, origin: int, node: nat, slots: nat)
        requires
            1 <= node <= slots <= self.slot_count(),
        ensures
            self.inserted_from(origin, slots).contains(origin + self.node_position(node)),
        decreases slots,
    {
        if node < slots {
            self.lemma_node_is_inserted(origin, node, (slots - 1) as nat);
        }
    }

    /// The nodes of the list nested at `slot` are among the nodes that were
    /// put into the first `slots` node slots, if `slot` is one of them.
    pub proof fn lemma_nested_is_inserted(&self, origin: int, slot: nat, slots: nat, position: int)
        requires
            slot < slots <= self.slot_count(),
            self.sublist_at(slot as int) is Some,
            self.sublist_at(slot as int).unwrap().inserted_from(
                origin + self.node_position(slot),
                self.sublist_at(slot as int).unwrap().spec_size(),
            ).contains(position),
        ensures
            self.inserted_from(origin, slots).contains(position),
        decreases slots,
    {
        if slot + 1 < slots {
            self.lemma_nested_is_inserted(origin, slot, (slots - 1) as nat, position);
        }
    }
}

} // verus!
