//! The replica positions of a node, and what putting them on a ring or
//! taking them off does to it.

use vstd::prelude::*;
use crate::order::{precedes, lemma_precedes_total, lemma_precedes_transitive};
use crate::position::replica_position;
use crate::ring::{
    as_map, ascending, holds, lemma_holds_at_rank, lemma_put, lemma_rank_splits,
    lemma_split_is_rank, lemma_take, put, rank, successor, take, Slot,
};

verus! {

/// The slot of replica `replica` of the node called `name`.
pub open spec fn replica_slot(name: Seq<char>, replica: nat) -> Slot {
    Slot { position: replica_position(name, replica), owner: name }
}

/// `position` is where one of the first `count` replicas of `name` lands.
pub open spec fn is_replica_position(name: Seq<char>, count: nat, position: Seq<u8>) -> bool {
    exists|r: nat| r < count && #[trigger] replica_position(name, r) == position
}

/// The ring after replicas `0..count` of `name` are put on it, one by one.
pub open spec fn with_replicas(slots: Seq<Slot>, name: Seq<char>, count: nat) -> Seq<Slot>
    decreases count,
{
    if count == 0 {
        slots
    } else {
        put(with_replicas(slots, name, (count - 1) as nat), replica_slot(name, (count - 1) as nat))
    }
}

/// The ring after the positions of replicas `0..count` of `name` are taken
/// off it, one by one.
pub open spec fn without_replicas(slots: Seq<Slot>, name: Seq<char>, count: nat) -> Seq<Slot>
    decreases count,
{
    if count == 0 {
        slots
    } else {
        take(
            without_replicas(slots, name, (count - 1) as nat),
            replica_position(name, (count - 1) as nat),
        )
    }
}

/// A mapping with the first `count` replica positions of `name` written
/// over it, each owned by `name`.
pub open spec fn stamped(ring: Map<Seq<u8>, Seq<char>>, name: Seq<char>, count: nat) -> Map<
    Seq<u8>,
    Seq<char>,
> {
    Map::new(
        |p: Seq<u8>| ring.dom().contains(p) || is_replica_position(name, count, p),
        |p: Seq<u8>|
            if is_replica_position(name, count, p) {
                name
            } else {
                ring[p]
            },
    )
}

/// A mapping with the first `count` replica positions of `name` struck
/// from it, whoever owned them.
pub open spec fn erased(ring: Map<Seq<u8>, Seq<char>>, name: Seq<char>, count: nat) -> Map<
    Seq<u8>,
    Seq<char>,
> {
    Map::new(
        |p: Seq<u8>| ring.dom().contains(p) && !is_replica_position(name, count, p),
        |p: Seq<u8>| ring[p],
    )
}

/// None of the first `count` replica positions of `name` is on the ring.
pub open spec fn fresh(slots: Seq<Slot>, name: Seq<char>, count: nat) -> bool {
    forall|r: nat| r < count ==> !holds(slots, #[trigger] replica_position(name, r))
}

/// Each of the first `count` replica positions of `name` is on the ring.
pub open spec fn settled(slots: Seq<Slot>, name: Seq<char>, count: nat) -> bool {
    forall|r: nat| r < count ==> holds(slots, #[trigger] replica_position(name, r))
}

/// The first `count` replicas of `name` land on `count` different positions.
pub open spec fn spread(name: Seq<char>, count: nat) -> bool {
    forall|r: nat, t: nat|
        r < t < count ==> #[trigger] replica_position(name, r) != #[trigger] replica_position(
            name,
            t,
        )
}

/// One more replica adds its own position to those of the replicas before it.
proof fn lemma_replica_positions_step(name: Seq<char>, count: nat, position: Seq<u8>)
    requires
        count > 0,
    ensures
        is_replica_position(name, count, position) <==> (is_replica_position(
            name,
            (count - 1) as nat,
            position,
        ) || position == replica_position(name, (count - 1) as nat)),
{
    let last = (count - 1) as nat;
    if is_replica_position(name, count, position) {
        let r = choose|r: nat| r < count && #[trigger] replica_position(name, r) == position;
        if r < last {
            assert(is_replica_position(name, last, position));
        }
    }
    if is_replica_position(name, last, position) {
        let r = choose|r: nat| r < last && #[trigger] replica_position(name, r) == position;
        assert(r < count && replica_position(name, r) == position);
    }
    if position == replica_position(name, last) {
        assert(last < count && replica_position(name, last) == position);
    }
}

/// Putting a node's replicas on a ring keeps it ascending and writes the
/// node's name over exactly its replica positions; every other position
/// keeps its owner.
pub proof fn lemma_with_replicas(slots: Seq<Slot>, name: Seq<char>, count: nat)
    requires
        ascending(slots),
    ensures
        ascending(with_replicas(slots, name, count)),
        as_map(with_replicas(slots, name, count)) == stamped(as_map(slots), name, count),
        slots.len() <= with_replicas(slots, name, count).len() <= slots.len() + count,
    decreases count,
{
    if count == 0 {
        assert(as_map(slots) =~= stamped(as_map(slots), name, 0));
    } else {
        let last = (count - 1) as nat;
        let before = with_replicas(slots, name, last);
        lemma_with_replicas(slots, name, last);
        lemma_put(before, replica_slot(name, last));
        assert forall|p: Seq<u8>|
            is_replica_position(name, count, p) <==> (is_replica_position(name, last, p) || p
                == replica_position(name, last)) by {
            lemma_replica_positions_step(name, count, p);
        }
        assert(stamped(as_map(slots), name, last).insert(replica_position(name, last), name)
            =~= stamped(as_map(slots), name, count));
    }
}

/// Taking a node's replicas off a ring keeps it ascending and strikes
/// exactly the replica positions; every other position keeps its owner.
pub proof fn lemma_without_replicas(slots: Seq<Slot>, name: Seq<char>, count: nat)
    requires
        ascending(slots),
    ensures
        ascending(without_replicas(slots, name, count)),
        as_map(without_replicas(slots, name, count)) == erased(as_map(slots), name, count),
        slots.len() - count <= without_replicas(slots, name, count).len() <= slots.len(),
    decreases count,
{
    if count == 0 {
        assert(as_map(slots) =~= erased(as_map(slots), name, 0));
    } else {
        let last = (count - 1) as nat;
        let before = without_replicas(slots, name, last);
        lemma_without_replicas(slots, name, last);
        lemma_take(before, replica_position(name, last));
        assert forall|p: Seq<u8>|
            is_replica_position(name, count, p) <==> (is_replica_position(name, last, p) || p
                == replica_position(name, last)) by {
            lemma_replica_positions_step(name, count, p);
        }
        assert(erased(as_map(slots), name, last).remove(replica_position(name, last)) =~= erased(
            as_map(slots),
            name,
            count,
        ));
    }
}

/// Replicas that land on different positions, none of them on the ring yet,
/// add one position each.
pub proof fn lemma_with_replicas_size(slots: Seq<Slot>, name: Seq<char>, count: nat)
    requires
        ascending(slots),
        fresh(slots, name, count),
        spread(name, count),
    ensures
        with_replicas(slots, name, count).len() == slots.len() + count,
    decreases count,
{
    if count > 0 {
        let last = (count - 1) as nat;
        let before = with_replicas(slots, name, last);
        lemma_with_replicas_size(slots, name, last);
        lemma_with_replicas(slots, name, last);
        lemma_put(before, replica_slot(name, last));
        let p = replica_position(name, last);
        assert(!holds(slots, p));
        if is_replica_position(name, last, p) {
            let r = choose|r: nat| r < last && #[trigger] replica_position(name, r) == p;
            assert(replica_position(name, r) != replica_position(name, last));
        }
        assert(!as_map(before).dom().contains(p));
        assert(!holds(before, p));
    }
}

/// Replicas that sit on different positions, all of them on the ring, free
/// one position each when they are taken off.
pub proof fn lemma_without_replicas_size(slots: Seq<Slot>, name: Seq<char>, count: nat)
    requires
        ascending(slots),
        settled(slots, name, count),
        spread(name, count),
    ensures
        without_replicas(slots, name, count).len() == slots.len() - count,
    decreases count,
{
    if count > 0 {
        let last = (count - 1) as nat;
        let before = without_replicas(slots, name, last);
        lemma_without_replicas_size(slots, name, last);
        lemma_without_replicas(slots, name, last);
        lemma_take(before, replica_position(name, last));
        let p = replica_position(name, last);
        assert(holds(slots, p));
        if is_replica_position(name, last, p) {
            let r = choose|r: nat| r < last && #[trigger] replica_position(name, r) == p;
            assert(replica_position(name, r) != replica_position(name, last));
        }
        assert(as_map(slots).dom().contains(p));
        assert(as_map(before).dom().contains(p));
        assert(holds(before, p));
    }
}

/// Putting one slot on a non-empty ring changes the slot that serves a hash
/// only by making the new slot serve it.
pub proof fn lemma_put_moves_to_newcomer(slots: Seq<Slot>, slot: Slot, hash: Seq<u8>)
    requires
        ascending(slots),
        slots.len() > 0,
    ensures
        put(slots, slot)[successor(put(slots, slot), hash)] == slots[successor(slots, hash)]
            || put(slots, slot)[successor(put(slots, slot), hash)] == slot,
{
    let p = slot.position;
    let r = rank(slots, p);
    let i = rank(slots, hash);
    let grown = put(slots, slot);
    lemma_put(slots, slot);
    lemma_rank_splits(slots, p);
    lemma_rank_splits(slots, hash);
    if holds(slots, p) {
        lemma_holds_at_rank(slots, p);
        assert forall|j: int| 0 <= j < i implies precedes((#[trigger] grown[j]).position, hash) by {
            assert(grown[j].position == slots[j].position);
        }
        assert forall|j: int| i <= j < grown.len() implies !precedes(
            (#[trigger] grown[j]).position,
            hash,
        ) by {
            assert(grown[j].position == slots[j].position);
        }
        lemma_split_is_rank(grown, hash, i);
    } else {
        assert forall|j: int| r <= j < slots.len() implies precedes(
            p,
            (#[trigger] slots[j]).position,
        ) by {
            lemma_precedes_total(p, slots[j].position);
        }
        if precedes(p, hash) {
            if i < r {
                assert(precedes(slots[i].position, p));
                lemma_precedes_transitive(slots[i].position, p, hash);
            }
            assert(r <= i);
            assert forall|j: int| 0 <= j < i + 1 implies precedes(
                (#[trigger] grown[j]).position,
                hash,
            ) by {
                if j < r {
                    assert(grown[j] == slots[j]);
                } else if j > r {
                    assert(grown[j] == slots[j - 1]);
                }
            }
            assert forall|j: int| i + 1 <= j < grown.len() implies !precedes(
                (#[trigger] grown[j]).position,
                hash,
            ) by {
                assert(grown[j] == slots[j - 1]);
            }
            lemma_split_is_rank(grown, hash, i + 1);
            if i < slots.len() {
                assert(grown[i + 1] == slots[i]);
            } else if r > 0 {
                assert(grown[0] == slots[0]);
            }
        } else {
            if r < i {
                assert(precedes(p, slots[r].position));
                lemma_precedes_transitive(p, slots[r].position, hash);
            }
            assert(i <= r);
            assert forall|j: int| 0 <= j < i implies precedes(
                (#[trigger] grown[j]).position,
                hash,
            ) by {
                assert(grown[j] == slots[j]);
            }
            assert forall|j: int| i <= j < grown.len() implies !precedes(
                (#[trigger] grown[j]).position,
                hash,
            ) by {
                if j < r {
                    assert(grown[j] == slots[j]);
                } else if j > r {
                    assert(grown[j] == slots[j - 1]);
                }
            }
            lemma_split_is_rank(grown, hash, i);
            if i < r {
                assert(grown[i] == slots[i]);
            }
        }
    }
}

/// Putting a node's replicas on a non-empty ring moves a hash to that node
/// or leaves it with the owner it had: no key moves between the nodes that
/// were there before.
pub proof fn lemma_replicas_move_to_newcomer(
    slots: Seq<Slot>,
    name: Seq<char>,
    count: nat,
    hash: Seq<u8>,
)
    requires
        ascending(slots),
        slots.len() > 0,
    ensures
        with_replicas(slots, name, count)[successor(
            with_replicas(slots, name, count),
            hash,
        )].owner == name || with_replicas(slots, name, count)[successor(
            with_replicas(slots, name, count),
            hash,
        )].owner == slots[successor(slots, hash)].owner,
    decreases count,
{
    if count > 0 {
        let last = (count - 1) as nat;
        lemma_replicas_move_to_newcomer(slots, name, last, hash);
        lemma_with_replicas(slots, name, last);
        lemma_put_moves_to_newcomer(
            with_replicas(slots, name, last),
            replica_slot(name, last),
            hash,
        );
    }
}

} // verus!
