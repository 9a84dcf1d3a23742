//! The ring: an ordered mapping from positions to the nodes that own them.

use vstd::prelude::*;
use vstd::slice::slice_to_vec;
use crate::node::Node;
use crate::order::{
    compare, lemma_precedes_irreflexive, lemma_precedes_total, lemma_precedes_transitive, precedes,
    Placement,
};

verus! {

/// One point of the ring: a position and the name of the node that owns it.
pub struct Slot {
    pub position: Seq<u8>,
    pub owner: Seq<char>,
}

/// The positions rise strictly along the sequence, so none occurs twice.
pub open spec fn ascending(slots: Seq<Slot>) -> bool {
    forall|i: int, j: int|
        #![trigger slots[i], slots[j]]
        0 <= i < j < slots.len() ==> precedes(slots[i].position, slots[j].position)
}

/// Some slot sits at `position`.
pub open spec fn holds(slots: Seq<Slot>, position: Seq<u8>) -> bool {
    exists|i: int| #![trigger slots[i]] 0 <= i < slots.len() && slots[i].position == position
}

/// The index of the slot at `position`, where there is one.
pub open spec fn index_of(slots: Seq<Slot>, position: Seq<u8>) -> int {
    choose|i: int| #![trigger slots[i]] 0 <= i < slots.len() && slots[i].position == position
}

/// The ring as a mapping from each position to the name of its owner.
pub open spec fn as_map(slots: Seq<Slot>) -> Map<Seq<u8>, Seq<char>> {
    Map::new(|p: Seq<u8>| holds(slots, p), |p: Seq<u8>| slots[index_of(slots, p)].owner)
}

/// The number of leading slots whose position sorts before `position`.
/// On an ascending ring this is the index of the first slot at or after
/// `position`, or the ring's length if there is none.
pub open spec fn rank(slots: Seq<Slot>, position: Seq<u8>) -> int
    decreases slots.len(),
{
    if slots.len() > 0 && precedes(slots[0].position, position) {
        1 + rank(slots.drop_first(), position)
    } else {
        0
    }
}

/// Index `i` splits the slots into those before `position` and the rest.
pub open spec fn splits_at(slots: Seq<Slot>, position: Seq<u8>, i: int) -> bool {
    &&& 0 <= i <= slots.len()
    &&& forall|j: int| #![trigger slots[j]] 0 <= j < i ==> precedes(slots[j].position, position)
    &&& forall|j: int| #![trigger slots[j]] i <= j < slots.len() ==> !precedes(slots[j].position, position)
}

/// The index of the slot that serves `hash`: the first at or after it, or,
/// past the last position, the ring's first slot.
pub open spec fn successor(slots: Seq<Slot>, hash: Seq<u8>) -> int {
    if rank(slots, hash) < slots.len() {
        rank(slots, hash)
    } else {
        0
    }
}

/// An index that splits the slots around a position is that position's rank.
pub proof fn lemma_split_is_rank(slots: Seq<Slot>, position: Seq<u8>, i: int)
    requires
        splits_at(slots, position, i),
    ensures
        rank(slots, position) == i,
    decreases slots.len(),
{
    if slots.len() > 0 {
        if i == 0 {
            assert(!precedes(slots[0].position, position));
        } else {
            assert(precedes(slots[0].position, position));
            let rest = slots.drop_first();
            assert forall|j: int| 0 <= j < i - 1 implies precedes(
                (#[trigger] rest[j]).position,
                position,
            ) by {
                assert(rest[j] == slots[j + 1]);
            }
            assert forall|j: int| i - 1 <= j < rest.len() implies !precedes(
                (#[trigger] rest[j]).position,
                position,
            ) by {
                assert(rest[j] == slots[j + 1]);
            }
            lemma_split_is_rank(rest, position, i - 1);
        }
    }
}

/// On an ascending ring the rank of a position splits the slots around it.
pub proof fn lemma_rank_splits(slots: Seq<Slot>, position: Seq<u8>)
    requires
        ascending(slots),
    ensures
        splits_at(slots, position, rank(slots, position)),
    decreases slots.len(),
{
    if slots.len() > 0 {
        let rest = slots.drop_first();
        assert forall|i: int, j: int| 0 <= i < j < rest.len() implies precedes(
            (#[trigger] rest[i]).position,
            (#[trigger] rest[j]).position,
        ) by {
            assert(rest[i] == slots[i + 1]);
            assert(rest[j] == slots[j + 1]);
        }
        if precedes(slots[0].position, position) {
            lemma_rank_splits(rest, position);
            let r = rank(rest, position);
            assert forall|j: int| 0 <= j < r + 1 implies precedes(
                (#[trigger] slots[j]).position,
                position,
            ) by {
                if j > 0 {
                    assert(rest[j - 1] == slots[j]);
                }
            }
            assert forall|j: int| r + 1 <= j < slots.len() implies !precedes(
                (#[trigger] slots[j]).position,
                position,
            ) by {
                assert(rest[j - 1] == slots[j]);
            }
        } else {
            assert forall|j: int| 0 <= j < slots.len() implies !precedes(
                (#[trigger] slots[j]).position,
                position,
            ) by {
                if j > 0 && precedes(slots[j].position, position) {
                    assert(precedes(slots[0].position, slots[j].position));
                    lemma_precedes_transitive(slots[0].position, slots[j].position, position);
                }
            }
        }
    }
}

/// On an ascending ring each slot's index is the rank of its position.
pub proof fn lemma_rank_of_held(slots: Seq<Slot>, i: int)
    requires
        ascending(slots),
        0 <= i < slots.len(),
    ensures
        rank(slots, slots[i].position) == i,
        holds(slots, slots[i].position),
        index_of(slots, slots[i].position) == i,
{
    let p = slots[i].position;
    assert forall|j: int| i <= j < slots.len() implies !precedes(
        (#[trigger] slots[j]).position,
        p,
    ) by {
        lemma_precedes_irreflexive(p);
        if i < j && precedes(slots[j].position, p) {
            assert(precedes(slots[i].position, slots[j].position));
            lemma_precedes_transitive(p, slots[j].position, p);
        }
    }
    lemma_split_is_rank(slots, p, i);
    let k = index_of(slots, p);
    lemma_precedes_irreflexive(p);
    if k < i {
        assert(precedes(slots[k].position, slots[i].position));
    } else if i < k {
        assert(precedes(slots[i].position, slots[k].position));
    }
}

/// On an ascending ring a position is held exactly when the slot at its rank
/// carries it.
pub proof fn lemma_holds_at_rank(slots: Seq<Slot>, position: Seq<u8>)
    requires
        ascending(slots),
    ensures
        holds(slots, position) <==> (rank(slots, position) < slots.len() && slots[rank(
            slots,
            position,
        )].position == position),
        holds(slots, position) ==> index_of(slots, position) == rank(slots, position),
{
    lemma_rank_splits(slots, position);
    if holds(slots, position) {
        let k = index_of(slots, position);
        lemma_rank_of_held(slots, k);
    }
}

/// A ring with one more slot keeps its order when the slot goes in at the
/// rank of its position, and maps that position to the slot's owner.
proof fn lemma_insert_slot(slots: Seq<Slot>, slot: Slot)
    requires
        ascending(slots),
        !holds(slots, slot.position),
    ensures
        ascending(slots.insert(rank(slots, slot.position), slot)),
        as_map(slots.insert(rank(slots, slot.position), slot)) == as_map(slots).insert(
            slot.position,
            slot.owner,
        ),
{
    let p = slot.position;
    let r = rank(slots, p);
    let grown = slots.insert(r, slot);
    lemma_rank_splits(slots, p);
    assert forall|j: int| r <= j < slots.len() implies precedes(
        p,
        (#[trigger] slots[j]).position,
    ) by {
        lemma_precedes_total(p, slots[j].position);
    }
    assert forall|i: int, j: int| 0 <= i < j < grown.len() implies precedes(
        (#[trigger] grown[i]).position,
        (#[trigger] grown[j]).position,
    ) by {
        let a = if i < r { i } else { i - 1 };
        let b = if j < r { j } else { j - 1 };
        if i != r && j != r {
            assert(grown[i] == slots[a]);
            assert(grown[j] == slots[b]);
        } else if i == r {
            assert(grown[j] == slots[b]);
        } else {
            assert(grown[i] == slots[a]);
        }
    }
    assert forall|q: Seq<u8>| holds(grown, q) <==> (q == p || holds(slots, q)) by {
        if holds(grown, q) {
            let k = index_of(grown, q);
            if k != r {
                let a = if k < r { k } else { k - 1 };
                assert(grown[k] == slots[a]);
            }
        }
        if q == p {
            assert(grown[r].position == p);
        } else if holds(slots, q) {
            let k = index_of(slots, q);
            let b = if k < r { k } else { k + 1 };
            assert(grown[b] == slots[k]);
        }
    }
    assert forall|q: Seq<u8>| holds(grown, q) implies #[trigger] as_map(grown)[q] == as_map(
        slots,
    ).insert(p, slot.owner)[q] by {
        let k = index_of(grown, q);
        lemma_rank_of_held(grown, k);
        if q == p {
            assert(grown[r].position == p);
            lemma_rank_of_held(grown, r);
        } else {
            let a = if k < r { k } else { k - 1 };
            assert(grown[k] == slots[a]);
            lemma_rank_of_held(slots, a);
        }
    }
    assert(as_map(grown) =~= as_map(slots).insert(p, slot.owner));
}

/// Replacing the owner of a held position keeps the ring's order and maps
/// that position to the new owner.
proof fn lemma_replace_slot(slots: Seq<Slot>, slot: Slot)
    requires
        ascending(slots),
        holds(slots, slot.position),
    ensures
        ascending(slots.update(rank(slots, slot.position), slot)),
        as_map(slots.update(rank(slots, slot.position), slot)) == as_map(slots).insert(
            slot.position,
            slot.owner,
        ),
{
    let p = slot.position;
    let r = rank(slots, p);
    let changed = slots.update(r, slot);
    lemma_holds_at_rank(slots, p);
    assert forall|i: int, j: int| 0 <= i < j < changed.len() implies precedes(
        (#[trigger] changed[i]).position,
        (#[trigger] changed[j]).position,
    ) by {
        assert(changed[i].position == slots[i].position);
        assert(changed[j].position == slots[j].position);
    }
    assert forall|q: Seq<u8>| holds(changed, q) <==> (q == p || holds(slots, q)) by {
        if holds(changed, q) {
            let k = index_of(changed, q);
            assert(changed[k].position == slots[k].position);
        }
        if holds(slots, q) {
            let k = index_of(slots, q);
            assert(changed[k].position == slots[k].position);
        }
        if q == p {
            assert(changed[r].position == p);
        }
    }
    assert forall|q: Seq<u8>| holds(changed, q) implies #[trigger] as_map(changed)[q] == as_map(
        slots,
    ).insert(p, slot.owner)[q] by {
        let k = index_of(changed, q);
        lemma_rank_of_held(changed, k);
        assert(changed[k].position == slots[k].position);
        lemma_rank_of_held(slots, k);
    }
    assert(as_map(changed) =~= as_map(slots).insert(p, slot.owner));
}

/// Taking out the slot at a held position keeps the ring's order and drops
/// that position from the mapping.
proof fn lemma_remove_slot(slots: Seq<Slot>, position: Seq<u8>)
    requires
        ascending(slots),
        holds(slots, position),
    ensures
        ascending(slots.remove(rank(slots, position))),
        as_map(slots.remove(rank(slots, position))) == as_map(slots).remove(position),
{
    let r = rank(slots, position);
    lemma_holds_at_rank(slots, position);
    let shrunk = slots.remove(r);
    assert forall|i: int, j: int| 0 <= i < j < shrunk.len() implies precedes(
        (#[trigger] shrunk[i]).position,
        (#[trigger] shrunk[j]).position,
    ) by {
        let a = if i < r { i } else { i + 1 };
        let b = if j < r { j } else { j + 1 };
        assert(shrunk[i] == slots[a]);
        assert(shrunk[j] == slots[b]);
    }
    assert forall|q: Seq<u8>| holds(shrunk, q) <==> (q != position && holds(slots, q)) by {
        if holds(shrunk, q) {
            let k = index_of(shrunk, q);
            let a = if k < r { k } else { k + 1 };
            assert(shrunk[k] == slots[a]);
            lemma_rank_of_held(slots, a);
        }
        if q != position && holds(slots, q) {
            let k = index_of(slots, q);
            let b = if k < r { k } else { k - 1 };
            assert(shrunk[b] == slots[k]);
        }
    }
    assert forall|q: Seq<u8>| holds(shrunk, q) implies #[trigger] as_map(shrunk)[q] == as_map(
        slots,
    ).remove(position)[q] by {
        let k = index_of(shrunk, q);
        lemma_rank_of_held(shrunk, k);
        let a = if k < r { k } else { k + 1 };
        assert(shrunk[k] == slots[a]);
        lemma_rank_of_held(slots, a);
    }
    assert(as_map(shrunk) =~= as_map(slots).remove(position));
}

/// The ring after `slot` is put on it: at a held position the slot takes the
/// place of the one there, and otherwise it goes in at its rank.
pub open spec fn put(slots: Seq<Slot>, slot: Slot) -> Seq<Slot> {
    if holds(slots, slot.position) {
        slots.update(rank(slots, slot.position), slot)
    } else {
        slots.insert(rank(slots, slot.position), slot)
    }
}

/// The ring after `position` is taken off it; a ring that does not hold the
/// position stays as it is.
pub open spec fn take(slots: Seq<Slot>, position: Seq<u8>) -> Seq<Slot> {
    if holds(slots, position) {
        slots.remove(rank(slots, position))
    } else {
        slots
    }
}

/// Putting a slot keeps the ring ascending and is an insertion into its
/// mapping: the last write to a position wins.
pub proof fn lemma_put(slots: Seq<Slot>, slot: Slot)
    requires
        ascending(slots),
    ensures
        ascending(put(slots, slot)),
        as_map(put(slots, slot)) == as_map(slots).insert(slot.position, slot.owner),
        holds(slots, slot.position) ==> put(slots, slot).len() == slots.len(),
        !holds(slots, slot.position) ==> put(slots, slot).len() == slots.len() + 1,
{
    lemma_rank_splits(slots, slot.position);
    if holds(slots, slot.position) {
        lemma_holds_at_rank(slots, slot.position);
        lemma_replace_slot(slots, slot);
    } else {
        lemma_insert_slot(slots, slot);
    }
}

/// Taking a position keeps the ring ascending and removes the position from
/// its mapping.
pub proof fn lemma_take(slots: Seq<Slot>, position: Seq<u8>)
    requires
        ascending(slots),
    ensures
        ascending(take(slots, position)),
        as_map(take(slots, position)) == as_map(slots).remove(position),
        holds(slots, position) ==> take(slots, position).len() == slots.len() - 1,
        !holds(slots, position) ==> take(slots, position) == slots,
{
    if holds(slots, position) {
        lemma_holds_at_rank(slots, position);
        lemma_remove_slot(slots, position);
    } else {
        assert(as_map(slots) =~= as_map(slots).remove(position));
    }
}

/// An ascending ring is determined by its mapping: two ascending rings that
/// map the same positions to the same owners are the same sequence.
pub proof fn lemma_ascending_unique(a: Seq<Slot>, b: Seq<Slot>)
    requires
        ascending(a),
        ascending(b),
        as_map(a) == as_map(b),
    ensures
        a == b,
    decreases a.len(),
{
    if a.len() == 0 {
        if b.len() > 0 {
            lemma_rank_of_held(b, 0);
            assert(as_map(b).dom().contains(b[0].position));
            assert(as_map(a).dom().contains(b[0].position));
        }
        assert(a =~= b);
    } else {
        let top = a.last();
        lemma_rank_of_held(a, a.len() - 1);
        assert(as_map(a).dom().contains(top.position));
        assert(holds(b, top.position));
        let k = index_of(b, top.position);
        lemma_rank_of_held(b, k);
        if k < b.len() - 1 {
            let above = b.last();
            lemma_rank_of_held(b, b.len() - 1);
            assert(precedes(b[k].position, above.position));
            assert(as_map(b).dom().contains(above.position));
            assert(holds(a, above.position));
            let m = index_of(a, above.position);
            lemma_precedes_irreflexive(top.position);
            if m < a.len() - 1 {
                assert(precedes(a[m].position, a[a.len() - 1].position));
                lemma_precedes_transitive(top.position, above.position, top.position);
            }
        }
        assert(as_map(a)[top.position] == top.owner);
        assert(as_map(b)[top.position] == b[k].owner);
        assert(b.last() == top);
        lemma_take(a, top.position);
        lemma_take(b, top.position);
        assert(take(a, top.position) =~= a.drop_last());
        assert(take(b, top.position) =~= b.drop_last());
        lemma_ascending_unique(a.drop_last(), b.drop_last());
        assert(a =~= a.drop_last().push(top));
        assert(b =~= b.drop_last().push(top));
    }
}

/// A position together with the node that owns it.
struct Entry {
    position: Vec<u8>,
    node: Node,
}

impl View for Entry {
    type V = Slot;

    closed spec fn view(&self) -> Slot {
        Slot { position: self.position@, owner: self.node@ }
    }
}

/// The ring's positions in ascending order, each with its owner.
pub struct Ring {
    entries: Vec<Entry>,
}

impl View for Ring {
    type V = Seq<Slot>;

    /// The slots of the ring, in position order.
    closed spec fn view(&self) -> Seq<Slot> {
        self.entries@.map_values(|e: Entry| e@)
    }
}

impl Ring {
    /// The ring's positions rise strictly, so each occurs once.
    pub open spec fn wf(&self) -> bool {
        ascending(self@)
    }

    /// Creates a ring without positions.
    pub fn new() -> (ring: Ring)
        ensures
            ring.wf(),
            ring@ == Seq::<Slot>::empty(),
    {
        let ring = Ring { entries: Vec::new() };
        assert(ring@ =~= Seq::<Slot>::empty());
        ring
    }

    /// The number of positions on the ring.
    pub fn size(&self) -> (count: usize)
        ensures
            count == self@.len(),
    {
        self.entries.len()
    }

    /// Whether the ring has no position.
    pub fn is_empty(&self) -> (empty: bool)
        ensures
            empty <==> self@.len() == 0,
    {
        self.entries.len() == 0
    }

    /// Finds by binary search how many positions sort before `position`.
    pub fn rank_of(&self, position: &Vec<u8>) -> (index: usize)
        requires
            self.wf(),
        ensures
            index == rank(self@, position@),
            index <= self@.len(),
    {
        let mut low: usize = 0;
        let mut high: usize = self.entries.len();
        while low < high
            invariant
                self.wf(),
                0 <= low <= high <= self@.len(),
                self@.len() == self.entries.len(),
                forall|j: int|
                    #![trigger self@[j]]
                    0 <= j < low ==> precedes(self@[j].position, position@),
                forall|j: int|
                    #![trigger self@[j]]
                    high <= j < self@.len() ==> !precedes(self@[j].position, position@),
            decreases high - low,
        {
            let middle = low + (high - low) / 2;
            assert(self@[middle as int] == self.entries[middle as int]@);
            match compare(&self.entries[middle].position, position) {
                Placement::Before => {
                    assert forall|j: int| 0 <= j < middle + 1 implies precedes(
                        (#[trigger] self@[j]).position,
                        position@,
                    ) by {
                        if j < middle {
                            assert(precedes(self@[j].position, self@[middle as int].position));
                            lemma_precedes_transitive(
                                self@[j].position,
                                self@[middle as int].position,
                                position@,
                            );
                        }
                    }
                    low = middle + 1;
                },
                _ => {
                    assert forall|j: int| middle <= j < self@.len() implies !precedes(
                        (#[trigger] self@[j]).position,
                        position@,
                    ) by {
                        if middle < j && precedes(self@[j].position, position@) {
                            assert(precedes(self@[middle as int].position, self@[j].position));
                            lemma_precedes_transitive(
                                self@[middle as int].position,
                                self@[j].position,
                                position@,
                            );
                        }
                    }
                    high = middle;
                },
            }
        }
        proof {
            lemma_split_is_rank(self@, position@, low as int);
        }
        low
    }

    /// Whether some slot sits at `position`.
    pub fn contains(&self, position: &Vec<u8>) -> (held: bool)
        requires
            self.wf(),
        ensures
            held == holds(self@, position@),
    {
        let index = self.rank_of(position);
        proof {
            lemma_holds_at_rank(self@, position@);
        }
        if index < self.entries.len() {
            assert(self@[index as int] == self.entries[index as int]@);
            compare(&self.entries[index].position, position) == Placement::Same
        } else {
            false
        }
    }

    /// Puts `node` at `position`, in place of whichever node held it before.
    pub fn insert(&mut self, position: Vec<u8>, node: Node)
        requires
            old(self).wf(),
        ensures
            final(self).wf(),
            final(self)@ == put(old(self)@, Slot { position: position@, owner: node@ }),
            as_map(final(self)@) == as_map(old(self)@).insert(position@, node@),
    {
        let index = self.rank_of(&position);
        let held = self.contains(&position);
        let ghost slot = Slot { position: position@, owner: node@ };
        let entry = Entry { position, node };
        proof {
            lemma_put(self@, slot);
        }
        if held {
            proof {
                lemma_holds_at_rank(self@, slot.position);
            }
            self.entries.set(index, entry);
            assert(self@ =~= old(self)@.update(index as int, slot));
        } else {
            self.entries.insert(index, entry);
            assert(self@ =~= old(self)@.insert(index as int, slot));
        }
    }

    /// Takes `position` off the ring; a position that is not held is left alone.
    pub fn remove(&mut self, position: &Vec<u8>)
        requires
            old(self).wf(),
        ensures
            final(self).wf(),
            final(self)@ == take(old(self)@, position@),
            as_map(final(self)@) == as_map(old(self)@).remove(position@),
    {
        let index = self.rank_of(position);
        let held = self.contains(position);
        proof {
            lemma_take(self@, position@);
        }
        if held {
            proof {
                lemma_holds_at_rank(self@, position@);
            }
            self.entries.remove(index);
            assert(self@ =~= old(self)@.remove(index as int));
        }
    }

    /// The node that owns the slot at `index`.
    pub fn node_at(&self, index: usize) -> (node: &Node)
        requires
            index < self@.len(),
        ensures
            node@ == self@[index as int].owner,
    {
        assert(self@[index as int] == self.entries[index as int]@);
        &self.entries[index].node
    }

    /// The index of the slot that serves `hash`: the first at or after it,
    /// wrapping to the ring's first slot past the last position.
    pub fn successor_of(&self, hash: &Vec<u8>) -> (index: usize)
        requires
            self.wf(),
        ensures
            index == successor(self@, hash@),
            self@.len() > 0 ==> index < self@.len(),
    {
        let index = self.rank_of(hash);
        if index < self.entries.len() {
            index
        } else {
            0
        }
    }

    /// The node owning the smallest position at or after `hash`, or, when no
    /// position is that large, the node at the ring's smallest position.
    /// Only an empty ring has no such node.
    pub fn nearest(&self, hash: &Vec<u8>) -> (owner: Option<Node>)
        requires
            self.wf(),
        ensures
            owner is None <==> self@.len() == 0,
            owner matches Some(node) ==> node@ == self@[successor(self@, hash@)].owner,
    {
        if self.entries.len() == 0 {
            None
        } else {
            let index = self.successor_of(hash);
            Some(self.node_at(index).clone())
        }
    }

    /// The owners of all positions in position order, a node appearing once
    /// for each position it owns; `None` on an empty ring.
    pub fn list_nodes(&self) -> (listing: Option<Vec<Node>>)
        ensures
            listing is None <==> self@.len() == 0,
            listing matches Some(nodes) ==> {
                &&& nodes@.len() == self@.len()
                &&& forall|i: int| 0 <= i < nodes@.len() ==> (#[trigger] nodes@[i])@ == self@[i].owner
            },
    {
        if self.entries.len() == 0 {
            return None;
        }
        let mut nodes: Vec<Node> = Vec::new();
        let mut i: usize = 0;
        while i < self.entries.len()
            invariant
                0 <= i <= self.entries.len(),
                self@.len() == self.entries.len(),
                nodes@.len() == i,
                forall|k: int| 0 <= k < i ==> (#[trigger] nodes@[k])@ == self@[k].owner,
            decreases self.entries.len() - i,
        {
            nodes.push(self.node_at(i).clone());
            i += 1;
        }
        Some(nodes)
    }
}

impl Clone for Ring {
    /// A ring with the same slots.
    fn clone(&self) -> (copy: Ring)
        ensures
            copy@ == self@,
    {
        let mut entries: Vec<Entry> = Vec::new();
        let mut i: usize = 0;
        while i < self.entries.len()
            invariant
                0 <= i <= self.entries@.len(),
                entries@.len() == i,
                forall|k: int| 0 <= k < i ==> (#[trigger] entries@[k])@ == self.entries@[k]@,
            decreases self.entries@.len() - i,
        {
            let entry = &self.entries[i];
            entries.push(
                Entry {
                    position: slice_to_vec(entry.position.as_slice()),
                    node: entry.node.clone(),
                },
            );
            i += 1;
        }
        let copy = Ring { entries };
        assert(copy@ =~= self@);
        copy
    }
}

} // verus!
