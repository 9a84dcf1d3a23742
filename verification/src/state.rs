//! The abstract state of a load-bounded ring and the transitions its
//! operations make.

use vstd::prelude::*;
use crate::replicas::{
    is_replica_position, lemma_with_replicas, lemma_without_replicas, stamped, with_replicas,
    without_replicas,
};
use crate::ring::{as_map, ascending, holds, index_of, lemma_rank_of_held, successor, Slot};
use crate::table::{
    distinct_names, entry_of, is_registered, lemma_entry_in_range, lemma_load_sum_split,
    lemma_table_push, lemma_table_remove, lemma_table_update, load_sum, record, Registration,
};

verus! {

/// Why a key could not be given a node.
#[derive(Clone, Copy, Debug, PartialEq, Eq, Structural)]
pub enum RingError {
    /// The ring has no position.
    EmptyRing,
    /// Every node on the ring is at the load ceiling.
    NoEligibleNode,
}

/// The quotient of `x` by `y`, rounded up.
pub open spec fn ceil_div(x: nat, y: nat) -> nat {
    if x % y == 0 {
        x / y
    } else {
        x / y + 1
    }
}

/// An index one lap past the end of a ring of `len` slots, brought back onto it.
pub open spec fn wrapped(index: int, len: int) -> int {
    if index < len {
        index
    } else {
        index - len
    }
}

/// The ring, the table of registered nodes, the total load, and the load
/// factor as a fraction.
pub struct State {
    pub slots: Seq<Slot>,
    pub table: Seq<Registration>,
    pub total_load: nat,
    pub numerator: nat,
    pub denominator: nat,
}

impl State {
    /// The slot belongs to a registered node and sits on one of its replica
    /// positions.
    pub open spec fn owned(self, slot: Slot) -> bool {
        &&& is_registered(self.table, slot.owner)
        &&& is_replica_position(
            slot.owner,
            record(self.table, slot.owner).replicas,
            slot.position,
        )
    }

    /// What holds of every state the operations produce: the ring is
    /// ascending, names are registered once, the total load is the sum of
    /// the nodes' loads, the load factor is a fraction, and every slot is
    /// owned.
    pub open spec fn wf(self) -> bool {
        &&& ascending(self.slots)
        &&& distinct_names(self.table)
        &&& self.total_load == load_sum(self.table)
        &&& self.denominator > 0
        &&& forall|s: int|
            #![trigger self.slots[s]]
            0 <= s < self.slots.len() ==> self.owned(self.slots[s])
    }

    /// The highest load a node may reach by the next assignment: the average
    /// load over the registered nodes, taken as 1 while nothing is assigned,
    /// times the load factor, rounded up.
    pub open spec fn ceiling(self) -> nat {
        if self.total_load == 0 {
            ceil_div(self.numerator, self.denominator)
        } else {
            ceil_div(self.total_load * self.numerator, self.table.len() * self.denominator)
        }
    }

    /// The node called `name` is registered and one more key keeps it at or
    /// under the ceiling.
    pub open spec fn eligible(self, name: Seq<char>) -> bool {
        &&& is_registered(self.table, name)
        &&& record(self.table, name).load + 1 <= self.ceiling()
    }

    /// The owner of the slot `step` slots clockwise of the slot at `start`.
    pub open spec fn candidate(self, start: int, step: int) -> Seq<char> {
        self.slots[wrapped(start + step, self.slots.len() as int)].owner
    }

    /// Walking clockwise from the slot at `start`, the first eligible owner
    /// is met after `step` steps, within one lap.
    pub open spec fn first_eligible(self, start: int, step: int) -> bool {
        &&& 0 <= step < self.slots.len()
        &&& self.eligible(self.candidate(start, step))
        &&& forall|j: int| 0 <= j < step ==> !self.eligible(#[trigger] self.candidate(start, j))
    }

    /// The outcome of routing `hash` without regard to load: the owner of
    /// the slot that serves it.
    pub open spec fn nearest(self, hash: Seq<u8>) -> Result<Seq<char>, RingError> {
        if self.slots.len() == 0 {
            Err(RingError::EmptyRing)
        } else {
            Ok(self.slots[successor(self.slots, hash)].owner)
        }
    }

    /// `outcome` is what routing `hash` under the load ceiling gives: the
    /// first eligible owner clockwise from the slot that serves `hash`, or
    /// the reason why there is none.
    pub open spec fn routes(self, hash: Seq<u8>, outcome: Result<Seq<char>, RingError>) -> bool {
        let start = successor(self.slots, hash);
        match outcome {
            Err(RingError::EmptyRing) => self.slots.len() == 0,
            Err(RingError::NoEligibleNode) => {
                &&& self.slots.len() > 0
                &&& forall|j: int|
                    0 <= j < self.slots.len() ==> !self.eligible(
                        #[trigger] self.candidate(start, j),
                    )
            },
            Ok(name) => exists|step: int|
                #![trigger self.candidate(start, step)]
                self.first_eligible(start, step) && self.candidate(start, step) == name,
        }
    }

    /// The state with no node and nothing assigned.
    pub open spec fn empty(numerator: nat, denominator: nat) -> State {
        State {
            slots: Seq::empty(),
            table: Seq::empty(),
            total_load: 0,
            numerator,
            denominator,
        }
    }

    /// The state after the node called `name` is registered with `replicas`
    /// replicas: its positions are put on the ring, and a name that is new
    /// to the table gets a row without load.
    pub open spec fn add_node(self, name: Seq<char>, replicas: nat) -> State {
        State {
            slots: with_replicas(self.slots, name, replicas),
            table: if is_registered(self.table, name) {
                self.table
            } else {
                self.table.push(Registration { name, replicas, load: 0 })
            },
            ..self
        }
    }

    /// The state after the node called `name` is removed: nothing changes on
    /// an empty ring or for an unknown name; otherwise the positions of the
    /// replicas it was registered with leave the ring, its row leaves the
    /// table and its load leaves the total.
    pub open spec fn remove_node(self, name: Seq<char>) -> State {
        if self.slots.len() == 0 || !is_registered(self.table, name) {
            self
        } else {
            State {
                slots: without_replicas(self.slots, name, record(self.table, name).replicas),
                table: self.table.remove(entry_of(self.table, name)),
                total_load: (self.total_load - record(self.table, name).load) as nat,
                ..self
            }
        }
    }

    /// The state after one key is assigned to the node called `name`.
    pub open spec fn assign(self, name: Seq<char>) -> State {
        State {
            table: self.table.update(
                entry_of(self.table, name),
                Registration {
                    load: record(self.table, name).load + 1,
                    ..record(self.table, name)
                },
            ),
            total_load: self.total_load + 1,
            ..self
        }
    }
}

/// The state without nodes is well formed under any load factor that is a fraction.
pub proof fn lemma_empty_wf(numerator: nat, denominator: nat)
    requires
        denominator > 0,
    ensures
        State::empty(numerator, denominator).wf(),
{
}

/// In a well-formed state the owner of every slot is registered.
pub proof fn lemma_owner_registered(state: State, index: int)
    requires
        state.wf(),
        0 <= index < state.slots.len(),
    ensures
        is_registered(state.table, state.slots[index].owner),
        state.table.len() > 0,
{
    assert(state.owned(state.slots[index]));
}

/// Registering a node keeps the state well formed, provided a name already
/// in the table comes with the replica count it was registered with.
pub proof fn lemma_add_node_wf(state: State, name: Seq<char>, replicas: nat)
    requires
        state.wf(),
        is_registered(state.table, name) ==> record(state.table, name).replicas == replicas,
    ensures
        state.add_node(name, replicas).wf(),
{
    let next = state.add_node(name, replicas);
    lemma_with_replicas(state.slots, name, replicas);
    if !is_registered(state.table, name) {
        lemma_table_push(state.table, Registration { name, replicas, load: 0 });
    }
    assert forall|s: int| 0 <= s < next.slots.len() implies next.owned(
        #[trigger] next.slots[s],
    ) by {
        let slot = next.slots[s];
        lemma_rank_of_held(next.slots, s);
        assert(as_map(next.slots)[slot.position] == slot.owner);
        assert(stamped(as_map(state.slots), name, replicas).dom().contains(
            slot.position,
        ));
        if is_replica_position(name, replicas, slot.position) {
            assert(slot.owner == name);
            assert(is_registered(next.table, name));
            assert(record(next.table, name).replicas == replicas);
        } else {
            assert(as_map(state.slots).dom().contains(slot.position));
            let k = index_of(state.slots, slot.position);
            assert(state.owned(state.slots[k]));
            assert(is_registered(next.table, slot.owner));
            assert(record(next.table, slot.owner) == record(state.table, slot.owner));
        }
    }
}

/// Removing a node keeps the state well formed.
pub proof fn lemma_remove_node_wf(state: State, name: Seq<char>)
    requires
        state.wf(),
    ensures
        state.remove_node(name).wf(),
{
    if state.slots.len() > 0 && is_registered(state.table, name) {
        let next = state.remove_node(name);
        let i = entry_of(state.table, name);
        let replicas = record(state.table, name).replicas;
        lemma_entry_in_range(state.table, name);
        lemma_without_replicas(state.slots, name, replicas);
        lemma_table_remove(state.table, i);
        lemma_load_sum_split(state.table, i);
        assert forall|s: int| 0 <= s < next.slots.len() implies next.owned(
            #[trigger] next.slots[s],
        ) by {
            let slot = next.slots[s];
            lemma_rank_of_held(next.slots, s);
            assert(as_map(next.slots)[slot.position] == slot.owner);
            assert(as_map(next.slots).dom().contains(slot.position));
            assert(as_map(state.slots).dom().contains(slot.position));
            let k = index_of(state.slots, slot.position);
            assert(state.owned(state.slots[k]));
            assert(slot.owner == state.slots[k].owner);
            assert(slot.owner != name);
            assert(is_registered(next.table, slot.owner));
            assert(record(next.table, slot.owner) == record(state.table, slot.owner));
        }
    }
}

/// Assigning a key to a registered node keeps the state well formed.
pub proof fn lemma_assign_wf(state: State, name: Seq<char>)
    requires
        state.wf(),
        is_registered(state.table, name),
    ensures
        state.assign(name).wf(),
        state.assign(name).slots == state.slots,
        state.assign(name).table.len() == state.table.len(),
{
    let next = state.assign(name);
    let i = entry_of(state.table, name);
    let row = Registration { load: record(state.table, name).load + 1, ..record(state.table, name) };
    lemma_entry_in_range(state.table, name);
    lemma_table_update(state.table, i, row);
    assert forall|s: int| 0 <= s < next.slots.len() implies next.owned(
        #[trigger] next.slots[s],
    ) by {
        let slot = next.slots[s];
        assert(state.owned(state.slots[s]));
        assert(is_registered(next.table, slot.owner));
        if slot.owner != name {
            assert(record(next.table, slot.owner) == record(state.table, slot.owner));
        }
    }
}

} // verus!
