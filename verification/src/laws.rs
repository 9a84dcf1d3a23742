//! Laws of the ring: what registering, removing, routing and assigning
//! guarantee beyond the contract of each operation.

use vstd::prelude::*;
use vstd::arithmetic::div_mod::lemma_fundamental_div_mod;
use crate::position::replica_position;
use crate::replicas::{
    erased, fresh, is_replica_position, lemma_replicas_move_to_newcomer, lemma_with_replicas,
    lemma_with_replicas_size, lemma_without_replicas, lemma_without_replicas_size, settled,
    spread, stamped,
};
use crate::ring::{as_map, ascending, holds, lemma_ascending_unique, successor, Slot};
use crate::state::{ceil_div, lemma_assign_wf, RingError, State};
use crate::table::{
    entry_of, is_registered, lemma_entry_in_range, lemma_entry_of, lemma_idle_iff_no_load,
    lemma_load_sum_at_least, lemma_table_push, lemma_table_update, record, Registration,
};

verus! {

/// The rounded-up quotient is the least multiple count that covers the dividend.
pub proof fn lemma_ceil_div_bounds(x: nat, y: nat)
    requires
        y > 0,
    ensures
        x <= ceil_div(x, y) * y,
        x > 0 ==> (ceil_div(x, y) - 1) * y < x,
        x == 0 ==> ceil_div(x, y) == 0,
{
    lemma_fundamental_div_mod(x as int, y as int);
    let q = x as int / y as int;
    let r = x as int % y as int;
    assert(x == y * q + r);
    assert(0 <= q) by (nonlinear_arith)
        requires
            x == y * q + r,
            0 <= r < y,
            0 <= x,
            0 < y,
    ;
    if r == 0 {
        assert(q * y == y * q) by (nonlinear_arith);
        assert((q - 1) * y == y * q - y) by (nonlinear_arith);
    } else {
        assert((q + 1) * y == y * q + y) by (nonlinear_arith);
        assert((q + 1 - 1) * y == y * q) by (nonlinear_arith);
    }
    if x == 0 {
        assert(q == 0) by (nonlinear_arith)
            requires
                0 == y * q + r,
                0 <= r < y,
                0 < y,
                0 <= q,
        ;
    }
}

/// Only the rounded-up quotient covers the dividend with nothing to spare.
pub proof fn lemma_ceil_div_unique(x: nat, y: nat, c: nat)
    requires
        y > 0,
        x > 0,
        x <= c * y,
        (c - 1) * y < x,
    ensures
        c == ceil_div(x, y),
{
    lemma_ceil_div_bounds(x, y);
    let d = ceil_div(x, y);
    assert(c == d) by (nonlinear_arith)
        requires
            y > 0,
            x <= c * y,
            (c - 1) * y < x,
            x <= d * y,
            (d - 1) * y < x,
    ;
}

/// A larger dividend never has a smaller rounded-up quotient.
pub proof fn lemma_ceil_div_monotonic(x: nat, z: nat, y: nat)
    requires
        y > 0,
        x <= z,
    ensures
        ceil_div(x, y) <= ceil_div(z, y),
{
    lemma_ceil_div_bounds(x, y);
    lemma_ceil_div_bounds(z, y);
    let c = ceil_div(x, y);
    let d = ceil_div(z, y);
    if x > 0 {
        assert(c <= d) by (nonlinear_arith)
            requires
                y > 0,
                (c - 1) * y < x,
                x <= z,
                z <= d * y,
        ;
    }
}

/// Scaling dividend and divisor alike leaves the rounded-up quotient as it is.
pub proof fn lemma_ceil_div_scaled(x: nat, y: nat, k: nat)
    requires
        y > 0,
        k > 0,
    ensures
        ceil_div(x * k, y * k) == ceil_div(x, y),
{
    lemma_ceil_div_bounds(x, y);
    let c = ceil_div(x, y);
    assert(y * k > 0) by (nonlinear_arith)
        requires
            y > 0,
            k > 0,
    ;
    if x == 0 {
        assert(x * k == 0) by (nonlinear_arith)
            requires
                x == 0,
        ;
        lemma_ceil_div_bounds(0, y * k);
    } else {
        assert(x * k > 0) by (nonlinear_arith)
            requires
                x > 0,
                k > 0,
        ;
        assert(x * k <= c * (y * k)) by (nonlinear_arith)
            requires
                x <= c * y,
                k > 0,
        ;
        assert((c - 1) * (y * k) < x * k) by (nonlinear_arith)
            requires
                (c - 1) * y < x,
                k > 0,
        ;
        lemma_ceil_div_unique(x * k, y * k, c);
    }
}

/// Where no replica position collides, registering a node adds exactly its
/// replica count to the size of the ring.
pub proof fn lemma_add_node_size(state: State, name: Seq<char>, replicas: nat)
    requires
        ascending(state.slots),
        fresh(state.slots, name, replicas),
        spread(name, replicas),
    ensures
        state.add_node(name, replicas).slots.len() == state.slots.len() + replicas,
{
    lemma_with_replicas_size(state.slots, name, replicas);
}

/// Registering a node adds at most its replica count to the size of the
/// ring, and takes no position off it.
pub proof fn lemma_add_node_size_bounds(state: State, name: Seq<char>, replicas: nat)
    requires
        ascending(state.slots),
    ensures
        state.slots.len() <= state.add_node(name, replicas).slots.len() <= state.slots.len()
            + replicas,
{
    lemma_with_replicas(state.slots, name, replicas);
}

/// The state after the nodes called `names` are registered in turn, each
/// with `replicas` replicas.
pub open spec fn register_all(state: State, names: Seq<Seq<char>>, replicas: nat) -> State
    decreases names.len(),
{
    if names.len() == 0 {
        state
    } else {
        register_all(state, names.drop_last(), replicas).add_node(names.last(), replicas)
    }
}

/// No two replicas of the nodes called `names` land on one position.
pub open spec fn collision_free(names: Seq<Seq<char>>, replicas: nat) -> bool {
    forall|i: int, r: nat, j: int, t: nat|
        #![trigger replica_position(names[i], r), replica_position(names[j], t)]
        0 <= i < names.len() && 0 <= j < names.len() && r < replicas && t < replicas && (i != j
            || r != t) ==> replica_position(names[i], r) != replica_position(names[j], t)
}

/// Every position on the ring is a replica position of one of `names`.
pub open spec fn drawn_from(slots: Seq<Slot>, names: Seq<Seq<char>>, replicas: nat) -> bool {
    forall|p: Seq<u8>|
        holds(slots, p) ==> exists|i: int|
            0 <= i < names.len() && #[trigger] is_replica_position(names[i], replicas, p)
}

/// Registering nodes with equal replica counts on an empty ring, none of
/// whose replicas collide, gives a ring whose size is the sum of the
/// replica counts.
pub proof fn lemma_size_is_sum_of_replicas(
    numerator: nat,
    denominator: nat,
    names: Seq<Seq<char>>,
    replicas: nat,
)
    requires
        collision_free(names, replicas),
    ensures
        register_all(State::empty(numerator, denominator), names, replicas).slots.len()
            == names.len() * replicas,
        ascending(register_all(State::empty(numerator, denominator), names, replicas).slots),
        drawn_from(
            register_all(State::empty(numerator, denominator), names, replicas).slots,
            names,
            replicas,
        ),
    decreases names.len(),
{
    let start = State::empty(numerator, denominator);
    if names.len() == 0 {
        assert(0 * replicas == 0) by (nonlinear_arith);
    } else {
        let rest = names.drop_last();
        let name = names.last();
        let last = names.len() - 1;
        assert forall|i: int, r: nat, j: int, t: nat|
            0 <= i < rest.len() && 0 <= j < rest.len() && r < replicas && t < replicas && (i != j
                || r != t) implies #[trigger] replica_position(rest[i], r)
            != #[trigger] replica_position(rest[j], t) by {
            assert(rest[i] == names[i] && rest[j] == names[j]);
            assert(replica_position(names[i], r) != replica_position(names[j], t));
        }
        lemma_size_is_sum_of_replicas(numerator, denominator, rest, replicas);
        let before = register_all(start, rest, replicas);
        assert forall|r: nat| r < replicas implies !holds(
            before.slots,
            #[trigger] replica_position(name, r),
        ) by {
            let p = replica_position(name, r);
            if holds(before.slots, p) {
                let i = choose|i: int|
                    0 <= i < rest.len() && #[trigger] is_replica_position(rest[i], replicas, p);
                let t = choose|t: nat| t < replicas && #[trigger] replica_position(rest[i], t) == p;
                assert(rest[i] == names[i]);
                assert(replica_position(names[i], t) != replica_position(names[last], r));
            }
        }
        assert forall|r: nat, t: nat| r < t < replicas implies #[trigger] replica_position(name, r)
            != #[trigger] replica_position(name, t) by {
            assert(replica_position(names[last], r) != replica_position(names[last], t));
        }
        lemma_with_replicas_size(before.slots, name, replicas);
        lemma_with_replicas(before.slots, name, replicas);
        let after = before.add_node(name, replicas);
        assert(names.len() * replicas == rest.len() * replicas + replicas) by (nonlinear_arith)
            requires
                names.len() == rest.len() + 1,
        ;
        assert forall|p: Seq<u8>| holds(after.slots, p) implies exists|i: int|
            0 <= i < names.len() && #[trigger] is_replica_position(names[i], replicas, p) by {
            assert(as_map(after.slots).dom().contains(p));
            assert(stamped(as_map(before.slots), name, replicas).dom().contains(p));
            if is_replica_position(name, replicas, p) {
                assert(is_replica_position(names[last], replicas, p));
            } else {
                assert(holds(before.slots, p));
                let i = choose|i: int|
                    0 <= i < rest.len() && #[trigger] is_replica_position(rest[i], replicas, p);
                assert(rest[i] == names[i]);
                assert(is_replica_position(names[i], replicas, p));
            }
        }
    }
}

/// Where the node's replicas sit on different positions, all of them on
/// the ring, removing it takes exactly its registered replica count from
/// the size of the ring.
pub proof fn lemma_remove_node_size(state: State, name: Seq<char>)
    requires
        state.wf(),
        state.slots.len() > 0,
        is_registered(state.table, name),
        settled(state.slots, name, record(state.table, name).replicas),
        spread(name, record(state.table, name).replicas),
    ensures
        state.remove_node(name).slots.len() == state.slots.len() - record(
            state.table,
            name,
        ).replicas,
{
    lemma_without_replicas_size(state.slots, name, record(state.table, name).replicas);
}

/// Removing a node takes at most its registered replica count from the size
/// of the ring, and puts no position on it.
pub proof fn lemma_remove_node_size_bounds(state: State, name: Seq<char>)
    requires
        state.wf(),
        is_registered(state.table, name),
    ensures
        state.slots.len() - record(state.table, name).replicas <= state.remove_node(
            name,
        ).slots.len() <= state.slots.len(),
{
    lemma_without_replicas(state.slots, name, record(state.table, name).replicas);
}

/// Removing a name that is not registered changes nothing.
pub proof fn lemma_remove_unknown_node(state: State, name: Seq<char>)
    requires
        !is_registered(state.table, name),
    ensures
        state.remove_node(name) == state,
{
}

/// Routing under the load ceiling has one outcome: the same state and the
/// same hash give the same node or the same error.
pub proof fn lemma_routing_deterministic(
    state: State,
    hash: Seq<u8>,
    first: Result<Seq<char>, RingError>,
    second: Result<Seq<char>, RingError>,
)
    requires
        state.routes(hash, first),
        state.routes(hash, second),
    ensures
        first == second,
{
    let start = successor(state.slots, hash);
    match (first, second) {
        (Ok(a), Ok(b)) => {
            let i = choose|step: int|
                #![trigger state.candidate(start, step)]
                state.first_eligible(start, step) && state.candidate(start, step) == a;
            let j = choose|step: int|
                #![trigger state.candidate(start, step)]
                state.first_eligible(start, step) && state.candidate(start, step) == b;
            if i < j {
                assert(!state.eligible(state.candidate(start, i)));
            } else if j < i {
                assert(!state.eligible(state.candidate(start, j)));
            }
        },
        (Ok(a), Err(e)) => {
            let i = choose|step: int|
                #![trigger state.candidate(start, step)]
                state.first_eligible(start, step) && state.candidate(start, step) == a;
            if e == RingError::NoEligibleNode {
                assert(!state.eligible(state.candidate(start, i)));
            }
        },
        (Err(e), Ok(b)) => {
            let j = choose|step: int|
                #![trigger state.candidate(start, step)]
                state.first_eligible(start, step) && state.candidate(start, step) == b;
            if e == RingError::NoEligibleNode {
                assert(!state.eligible(state.candidate(start, j)));
            }
        },
        (Err(_), Err(_)) => {},
    }
}

/// While every node may take a key, routing under the load ceiling gives
/// the owner of the slot that serves the hash.
pub proof fn lemma_routes_to_nearest_when_eligible(state: State, hash: Seq<u8>)
    requires
        state.slots.len() > 0,
        0 <= successor(state.slots, hash) < state.slots.len(),
        state.eligible(state.slots[successor(state.slots, hash)].owner),
    ensures
        state.routes(hash, state.nearest(hash)),
{
    let start = successor(state.slots, hash);
    assert(state.candidate(start, 0) == state.slots[start].owner);
    assert(state.first_eligible(start, 0));
}

/// Registering a node on a ring that is not empty moves a hash to that node
/// or leaves it with the owner it had: no key moves between the nodes that
/// were there before.
pub proof fn lemma_add_node_moves_to_newcomer(
    state: State,
    name: Seq<char>,
    replicas: nat,
    hash: Seq<u8>,
)
    requires
        ascending(state.slots),
        state.slots.len() > 0,
    ensures
        state.add_node(name, replicas).nearest(hash) == Ok::<Seq<char>, RingError>(name)
            || state.add_node(name, replicas).nearest(hash) == state.nearest(hash),
{
    lemma_replicas_move_to_newcomer(state.slots, name, replicas, hash);
    lemma_with_replicas(state.slots, name, replicas);
}

/// No node holds more than the average load over the registered nodes,
/// rounded up.
pub open spec fn within_average(state: State) -> bool {
    forall|i: int|
        #![trigger state.table[i]]
        0 <= i < state.table.len() ==> state.table[i].load <= ceil_div(
            state.total_load,
            state.table.len(),
        )
}

/// A state in which nothing is assigned holds every node within the average.
pub proof fn lemma_idle_within_average(state: State)
    requires
        state.wf(),
        state.total_load == 0,
    ensures
        within_average(state),
{
    lemma_idle_iff_no_load(state.table);
}

/// Under the load factor one, the node that a key is assigned to stays
/// within the rounded-up average of the loads after the assignment, and so
/// does every node that was within the average before.
pub proof fn lemma_assign_within_average(state: State, hash: Seq<u8>, name: Seq<char>)
    requires
        state.wf(),
        state.numerator == state.denominator,
        state.routes(hash, Ok(name)),
    ensures
        record(state.assign(name).table, name).load <= ceil_div(
            state.assign(name).total_load,
            state.table.len(),
        ),
        within_average(state) ==> within_average(state.assign(name)),
{
    let start = successor(state.slots, hash);
    let step = choose|step: int|
        #![trigger state.candidate(start, step)]
        state.first_eligible(start, step) && state.candidate(start, step) == name;
    assert(state.eligible(name));
    let i = entry_of(state.table, name);
    lemma_entry_in_range(state.table, name);
    let nodes = state.table.len();
    let next = state.assign(name);
    let row = Registration { load: record(state.table, name).load + 1, ..record(state.table, name) };
    lemma_table_update(state.table, i, row);
    lemma_assign_wf(state, name);
    assert(ceil_div(1, nodes) == 1) by {
        lemma_ceil_div_bounds(1, nodes);
        let c = ceil_div(1, nodes);
        assert(c == 1) by (nonlinear_arith)
            requires
                nodes > 0,
                1 <= c * nodes,
                (c - 1) * nodes < 1,
        ;
    }
    if state.total_load == 0 {
        lemma_ceil_div_scaled(1, 1, state.denominator);
        assert(1 * state.denominator == state.denominator);
        assert(ceil_div(1, 1) == 1);
        assert(state.ceiling() == 1);
    } else {
        assert(state.total_load * state.numerator == state.total_load * state.denominator);
        lemma_ceil_div_scaled(state.total_load, nodes, state.denominator);
        assert(state.ceiling() == ceil_div(state.total_load, nodes));
    }
    lemma_ceil_div_monotonic(state.total_load, state.total_load + 1, nodes);
    lemma_ceil_div_monotonic(1, state.total_load + 1, nodes);
    assert(record(next.table, name) == row);
    if within_average(state) {
        assert forall|k: int| 0 <= k < next.table.len() implies (#[trigger] next.table[k]).load
            <= ceil_div(next.total_load, next.table.len()) by {
            if k == i {
                assert(next.table[k] == row);
            } else {
                assert(next.table[k] == state.table[k]);
            }
        }
    }
}

/// Under a load factor of one or more, some registered node is at or under
/// the load ceiling: not every node can lie above the average.
pub proof fn lemma_some_node_within_ceiling(state: State)
    requires
        state.wf(),
        state.table.len() > 0,
        state.numerator >= state.denominator,
    ensures
        exists|i: int|
            #![trigger state.table[i]]
            0 <= i < state.table.len() && state.table[i].load <= state.ceiling(),
{
    let nodes = state.table.len();
    let ceiling = state.ceiling();
    if forall|i: int| #![trigger state.table[i]] 0 <= i < nodes ==> state.table[i].load > ceiling {
        lemma_load_sum_at_least(state.table, ceiling + 1);
        assert(nodes * (ceiling + 1) == nodes * ceiling + nodes) by (nonlinear_arith);
        assert(state.total_load > nodes * ceiling);
        assert(0 <= nodes * ceiling) by (nonlinear_arith)
            requires
                0 <= nodes,
                0 <= ceiling,
        ;
        let scaled = state.total_load * state.denominator;
        let divisor = nodes * state.denominator;
        assert(divisor > 0) by (nonlinear_arith)
            requires
                divisor == nodes * state.denominator,
                nodes > 0,
                state.denominator > 0,
        ;
        assert(scaled <= state.total_load * state.numerator) by (nonlinear_arith)
            requires
                scaled == state.total_load * state.denominator,
                state.denominator <= state.numerator,
                0 <= state.total_load,
        ;
        lemma_ceil_div_monotonic(scaled, state.total_load * state.numerator, divisor);
        lemma_ceil_div_scaled(state.total_load, nodes, state.denominator);
        lemma_ceil_div_bounds(state.total_load, nodes);
        assert(ceil_div(state.total_load, nodes) <= ceiling);
        assert(state.total_load <= ceiling * nodes) by (nonlinear_arith)
            requires
                state.total_load <= ceil_div(state.total_load, nodes) * nodes,
                ceil_div(state.total_load, nodes) <= ceiling,
                0 <= nodes,
        ;
        assert(ceiling * nodes == nodes * ceiling) by (nonlinear_arith);
    }
}

/// An empty ring routes no key: with or without regard to load the outcome
/// is that the ring is empty.
pub proof fn lemma_empty_ring_routes_nothing(
    state: State,
    hash: Seq<u8>,
    outcome: Result<Seq<char>, RingError>,
)
    requires
        state.slots.len() == 0,
    ensures
        state.nearest(hash) == Err::<Seq<char>, RingError>(RingError::EmptyRing),
        state.routes(hash, outcome) <==> outcome == Err::<Seq<char>, RingError>(
            RingError::EmptyRing,
        ),
{
    let start = successor(state.slots, hash);
    if state.routes(hash, outcome) {
        match outcome {
            Ok(name) => {
                let step = choose|step: int|
                    #![trigger state.candidate(start, step)]
                    state.first_eligible(start, step) && state.candidate(start, step) == name;
            },
            Err(_) => {},
        }
    }
}

/// Registering a new node none of whose replica positions is on the ring and
/// removing it at once gives back the ring as it was, slot for slot; and
/// unless the ring stayed empty, the whole state.
pub proof fn lemma_add_then_remove(state: State, name: Seq<char>, replicas: nat)
    requires
        state.wf(),
        !is_registered(state.table, name),
        fresh(state.slots, name, replicas),
    ensures
        state.add_node(name, replicas).remove_node(name).slots == state.slots,
        state.add_node(name, replicas).slots.len() > 0 ==> state.add_node(
            name,
            replicas,
        ).remove_node(name) == state,
{
    let added = state.add_node(name, replicas);
    let row = Registration { name, replicas, load: 0 };
    lemma_with_replicas(state.slots, name, replicas);
    lemma_table_push(state.table, row);
    if added.slots.len() == 0 {
        assert(added.slots =~= state.slots);
    } else {
        let removed = added.remove_node(name);
        assert(added.table[state.table.len() as int] == row);
        lemma_entry_of(added.table, state.table.len() as int);
        lemma_without_replicas(added.slots, name, replicas);
        assert(erased(stamped(as_map(state.slots), name, replicas), name, replicas) =~= as_map(
            state.slots,
        )) by {
            assert forall|p: Seq<u8>| is_replica_position(name, replicas, p) implies !as_map(
                state.slots,
            ).dom().contains(p) by {
                let r = choose|r: nat| r < replicas && #[trigger] replica_position(name, r) == p;
                assert(!holds(state.slots, replica_position(name, r)));
            }
        }
        lemma_ascending_unique(removed.slots, state.slots);
        assert(removed.table =~= state.table);
    }
}

} // verus!
