//! The load-bounded consistent-hashing ring.

use vstd::prelude::*;
use crate::node::Node;
use crate::position::{key_position, position_of_key, position_of_replica};
use crate::replicas::{with_replicas, without_replicas};
use crate::ring::{successor, Ring};
use crate::state::{
    lemma_add_node_wf, lemma_assign_wf, lemma_owner_registered, lemma_remove_node_wf, wrapped,
    RingError, State,
};
use crate::table::{
    entry_of, is_registered, lemma_entry_of, lemma_load_sum_split, record, Registration,
};

verus! {

/// A load factor: a non-negative fraction by which the average load is
/// scaled to give the load ceiling.  One is the strict average; larger
/// factors are looser.
#[derive(Clone, Copy, Debug, PartialEq, Eq, Structural)]
pub struct LoadFactor {
    numerator: u64,
    denominator: u64,
}

impl View for LoadFactor {
    type V = (nat, nat);

    /// The numerator and the denominator.
    closed spec fn view(&self) -> (nat, nat) {
        (self.numerator as nat, self.denominator as nat)
    }
}

impl LoadFactor {
    #[verifier::type_invariant]
    spec fn is_fraction(self) -> bool {
        self.denominator > 0
    }

    /// The factor `numerator / denominator`; there is none over zero.
    pub fn new(numerator: u64, denominator: u64) -> (factor: Option<LoadFactor>)
        ensures
            factor is Some <==> denominator > 0,
            factor matches Some(f) ==> f@ == (numerator as nat, denominator as nat),
    {
        if denominator == 0 {
            None
        } else {
            Some(LoadFactor { numerator, denominator })
        }
    }

    /// The factor one, which holds every node to the rounded-up average.
    pub fn one() -> (factor: LoadFactor)
        ensures
            factor@ == (1nat, 1nat),
    {
        LoadFactor { numerator: 1, denominator: 1 }
    }

    /// The numerator of the fraction.
    pub fn numerator(&self) -> (n: u64)
        ensures
            n == self@.0,
    {
        self.numerator
    }

    /// The denominator of the fraction, which is not zero.
    pub fn denominator(&self) -> (d: u64)
        ensures
            d == self@.1,
            d > 0,
    {
        proof {
            use_type_invariant(self);
        }
        self.denominator
    }
}

/// One row of the table of registered nodes.
struct Member {
    name: String,
    replicas: u32,
    load: u64,
}

impl View for Member {
    type V = Registration;

    closed spec fn view(&self) -> Registration {
        Registration { name: self.name@, replicas: self.replicas as nat, load: self.load as nat }
    }
}

/// The names that stand for the nodes of a routing outcome.
pub open spec fn named(outcome: Result<Node, RingError>) -> Result<Seq<char>, RingError> {
    match outcome {
        Ok(node) => Ok(node@),
        Err(error) => Err(error),
    }
}

/// A consistent-hashing ring that bounds how far the load of a node may rise
/// above the average.
pub struct ConsistentHash {
    ring: Ring,
    members: Vec<Member>,
    load_factor: LoadFactor,
    total_load: u64,
}

impl View for ConsistentHash {
    type V = State;

    closed spec fn view(&self) -> State {
        State {
            slots: self.ring@,
            table: self.members@.map_values(|m: Member| m@),
            total_load: self.total_load as nat,
            numerator: self.load_factor@.0,
            denominator: self.load_factor@.1,
        }
    }
}

impl ConsistentHash {
    /// The state is one that the operations produce.
    pub open spec fn wf(&self) -> bool {
        self@.wf()
    }

    /// Creates a ring without nodes whose load factor is one.
    pub fn new() -> (ring: ConsistentHash)
        ensures
            ring.wf(),
            ring@ == State::empty(1, 1),
    {
        ConsistentHash::with_load_factor(LoadFactor::one())
    }

    /// Creates a ring without nodes that scales the average by `load_factor`.
    pub fn with_load_factor(load_factor: LoadFactor) -> (ring: ConsistentHash)
        ensures
            ring.wf(),
            ring@ == State::empty(load_factor@.0, load_factor@.1),
    {
        proof {
            use_type_invariant(load_factor);
        }
        let ring = ConsistentHash {
            ring: Ring::new(),
            members: Vec::new(),
            load_factor,
            total_load: 0,
        };
        assert(ring@.table =~= Seq::<Registration>::empty());
        ring
    }

    /// The number of positions on the ring; a node counts once for each
    /// position it owns.
    pub fn size(&self) -> (count: usize)
        ensures
            count == self@.slots.len(),
    {
        self.ring.size()
    }

    /// The number of registered nodes.
    pub fn node_count(&self) -> (count: usize)
        ensures
            count == self@.table.len(),
    {
        self.members.len()
    }

    /// The number of keys assigned to the nodes now registered.
    pub fn total_load(&self) -> (total: u64)
        ensures
            total == self@.total_load,
    {
        self.total_load
    }

    /// The load factor this ring was created with.
    pub fn load_factor(&self) -> (factor: LoadFactor)
        ensures
            factor@ == (self@.numerator, self@.denominator),
    {
        self.load_factor
    }

    /// Finds the row of the table that carries `name`.
    fn find_member(&self, name: &String) -> (found: Option<usize>)
        requires
            self.wf(),
        ensures
            found is Some <==> is_registered(self@.table, name@),
            found matches Some(i) ==> i == entry_of(self@.table, name@) && i < self.members@.len()
                && self.members@[i as int]@ == record(self@.table, name@),
    {
        let mut i: usize = 0;
        while i < self.members.len()
            invariant
                self.wf(),
                0 <= i <= self.members@.len(),
                self@.table.len() == self.members@.len(),
                forall|j: int| 0 <= j < i ==> (#[trigger] self@.table[j]).name != name@,
            decreases self.members@.len() - i,
        {
            assert(self@.table[i as int] == self.members@[i as int]@);
            if self.members[i].name == *name {
                proof {
                    lemma_entry_of(self@.table, i as int);
                }
                return Some(i);
            }
            i += 1;
        }
        None
    }

    /// The replica count `name` is registered with, if it is registered.
    pub fn replica_count(&self, name: &String) -> (count: Option<u32>)
        requires
            self.wf(),
        ensures
            count is Some <==> is_registered(self@.table, name@),
            count matches Some(n) ==> n == record(self@.table, name@).replicas,
    {
        match self.find_member(name) {
            Some(i) => Some(self.members[i].replicas),
            None => None,
        }
    }

    /// The number of keys assigned to `name`, if it is registered.
    pub fn load_of(&self, name: &String) -> (load: Option<u64>)
        requires
            self.wf(),
        ensures
            load is Some <==> is_registered(self@.table, name@),
            load matches Some(n) ==> n == record(self@.table, name@).load,
    {
        match self.find_member(name) {
            Some(i) => Some(self.members[i].load),
            None => None,
        }
    }

    /// The owners of all positions in position order, a node appearing once
    /// for each position it owns; `None` on an empty ring.
    pub fn list_nodes(&self) -> (listing: Option<Vec<Node>>)
        ensures
            listing is None <==> self@.slots.len() == 0,
            listing matches Some(nodes) ==> {
                &&& nodes@.len() == self@.slots.len()
                &&& forall|i: int|
                    0 <= i < nodes@.len() ==> (#[trigger] nodes@[i])@ == self@.slots[i].owner
            },
    {
        self.ring.list_nodes()
    }

    /// Registers `node` with `num_replicas` replicas: replica 0 lands where
    /// the node's name hashes to and replica `r` where the name, a hyphen
    /// and `r` hash to.  A position already on the ring passes to `node`.
    /// A node that is registered must be removed before it is registered
    /// with another replica count.
    pub fn add_node(&mut self, node: &Node, num_replicas: u32)
        requires
            old(self).wf(),
            is_registered(old(self)@.table, node@) ==> record(old(self)@.table, node@).replicas
                == num_replicas,
        ensures
            final(self).wf(),
            final(self)@ == old(self)@.add_node(node@, num_replicas as nat),
    {
        let name = node.get_name();
        let ghost before = self@;
        if self.find_member(name).is_none() {
            self.members.push(Member { name: name.clone(), replicas: num_replicas, load: 0 });
        }
        let ghost target = before.add_node(node@, num_replicas as nat);
        assert(self@.table =~= target.table);
        let mut replica: u32 = 0;
        while replica < num_replicas
            invariant
                0 <= replica <= num_replicas,
                name@ == node@,
                before.wf(),
                self.ring.wf(),
                self@.slots == with_replicas(before.slots, node@, replica as nat),
                self@.table == target.table,
                self@.total_load == before.total_load,
                self@.numerator == before.numerator,
                self@.denominator == before.denominator,
            decreases num_replicas - replica,
        {
            let position = position_of_replica(name, replica);
            self.ring.insert(position, node.clone());
            replica += 1;
        }
        proof {
            lemma_add_node_wf(before, node@, num_replicas as nat);
        }
    }

    /// Removes the node called `name`: the positions of the replicas it was
    /// registered with leave the ring, and its load leaves the total.
    /// Nothing happens on an empty ring or for a name that is not registered.
    pub fn remove_node(&mut self, name: String)
        requires
            old(self).wf(),
        ensures
            final(self).wf(),
            final(self)@ == old(self)@.remove_node(name@),
    {
        if self.ring.is_empty() {
            return ;
        }
        let ghost before = self@;
        match self.find_member(&name) {
            None => {},
            Some(i) => {
                let replicas = self.members[i].replicas;
                let load = self.members[i].load;
                let mut replica: u32 = 0;
                while replica < replicas
                    invariant
                        0 <= replica <= replicas,
                        before.wf(),
                        self.ring.wf(),
                        self@.slots == without_replicas(before.slots, name@, replica as nat),
                        self@.table == before.table,
                        self.members@ == old(self).members@,
                        self@.total_load == before.total_load,
                        self@.numerator == before.numerator,
                        self@.denominator == before.denominator,
                    decreases replicas - replica,
                {
                    let position = position_of_replica(&name, replica);
                    self.ring.remove(&position);
                    replica += 1;
                }
                proof {
                    lemma_load_sum_split(before.table, i as int);
                    lemma_remove_node_wf(before, name@);
                }
                self.total_load = self.total_load - load;
                self.members.remove(i);
                assert(self@.table =~= before.table.remove(i as int));
            },
        }
    }

    /// Computes the load ceiling from the total load, the number of
    /// registered nodes and the load factor.
    fn ceiling_value(&self) -> (ceiling: u128)
        requires
            self.wf(),
            self@.table.len() > 0,
        ensures
            ceiling == self@.ceiling(),
    {
        let numerator = self.load_factor.numerator();
        let denominator = self.load_factor.denominator();
        let nodes = self.members.len();
        let total = self.total_load;
        let (x, y): (u128, u128) = if total == 0 {
            (numerator as u128, denominator as u128)
        } else {
            assert(total * numerator <= 0xffff_ffff_ffff_ffff * 0xffff_ffff_ffff_ffff)
                by (nonlinear_arith)
                requires
                    0 <= total <= 0xffff_ffff_ffff_ffff,
                    0 <= numerator <= 0xffff_ffff_ffff_ffff,
            ;
            assert(0 < nodes * denominator <= 0xffff_ffff_ffff_ffff * 0xffff_ffff_ffff_ffff)
                by (nonlinear_arith)
                requires
                    0 < nodes <= 0xffff_ffff_ffff_ffff,
                    0 < denominator <= 0xffff_ffff_ffff_ffff,
            ;
            ((total as u128) * (numerator as u128), (nodes as u128) * (denominator as u128))
        };
        assert(x / y <= x) by (nonlinear_arith)
            requires
                0 <= x,
                0 < y,
        ;
        if x % y == 0 {
            x / y
        } else {
            x / y + 1
        }
    }

    /// The load ceiling: the highest load a node may reach by the next
    /// assignment.  There is none while the ring is empty.
    pub fn ceiling(&self) -> (ceiling: Option<u128>)
        requires
            self.wf(),
        ensures
            ceiling is None <==> self@.slots.len() == 0,
            ceiling matches Some(c) ==> c == self@.ceiling(),
    {
        if self.ring.is_empty() {
            None
        } else {
            proof {
                lemma_owner_registered(self@, 0);
            }
            Some(self.ceiling_value())
        }
    }

    /// Whether the node called `name` may take one more key: the ring is not
    /// empty, the node is registered, and one more key keeps its load at or
    /// under the ceiling.
    pub fn check_load(&self, name: &String) -> (allowed: bool)
        requires
            self.wf(),
        ensures
            allowed == (self@.slots.len() > 0 && self@.eligible(name@)),
    {
        if self.ring.is_empty() {
            return false;
        }
        match self.find_member(name) {
            None => false,
            Some(i) => {
                let ceiling = self.ceiling_value();
                (self.members[i].load as u128) + 1 <= ceiling
            },
        }
    }

    /// The node that owns the slot serving `hash`, whatever its load.
    pub fn nearest(&self, hash: &Vec<u8>) -> (outcome: Result<Node, RingError>)
        requires
            self.wf(),
        ensures
            named(outcome) == self@.nearest(hash@),
    {
        match self.ring.nearest(hash) {
            Some(node) => Ok(node),
            None => Err(RingError::EmptyRing),
        }
    }

    /// The node that owns the slot serving `key`, whatever its load.
    pub fn lookup(&self, key: String) -> (outcome: Result<Node, RingError>)
        requires
            self.wf(),
        ensures
            named(outcome) == self@.nearest(key_position(key@)),
    {
        let hash = position_of_key(&key);
        self.nearest(&hash)
    }

    /// Walks the ring clockwise from the slot that serves `hash`, for one lap
    /// at most, and gives the first node that may take one more key.
    pub fn nearest_node_under_load(&self, hash: &Vec<u8>) -> (outcome: Result<Node, RingError>)
        requires
            self.wf(),
        ensures
            self@.routes(hash@, named(outcome)),
    {
        let size = self.ring.size();
        if size == 0 {
            return Err(RingError::EmptyRing);
        }
        let start = self.ring.successor_of(hash);
        let mut step: usize = 0;
        while step < size
            invariant
                self.wf(),
                size == self@.slots.len(),
                start == successor(self@.slots, hash@),
                start < size,
                0 <= step <= size,
                forall|j: int|
                    0 <= j < step ==> !self@.eligible(#[trigger] self@.candidate(start as int, j)),
            decreases size - step,
        {
            let index = if step < size - start {
                start + step
            } else {
                step - (size - start)
            };
            assert(index == wrapped(start + step, size as int));
            let node = self.ring.node_at(index);
            if self.check_load(node.get_name()) {
                assert(self@.candidate(start as int, step as int) == node@);
                assert(self@.first_eligible(start as int, step as int));
                return Ok(node.clone());
            }
            step += 1;
        }
        Err(RingError::NoEligibleNode)
    }

    /// The node that `key` is routed to under the load ceiling, if there is one.
    pub fn get_node(&self, key: String) -> (found: Option<Node>)
        requires
            self.wf(),
        ensures
            match found {
                Some(node) => self@.routes(key_position(key@), Ok(node@)),
                None => self@.routes(key_position(key@), Err(RingError::EmptyRing))
                    || self@.routes(key_position(key@), Err(RingError::NoEligibleNode)),
            },
    {
        let hash = position_of_key(&key);
        match self.nearest_node_under_load(&hash) {
            Ok(node) => Some(node),
            Err(_) => None,
        }
    }

    /// Routes `hash` under the load ceiling and counts one key more for the
    /// node found.  Without such a node nothing changes.
    pub fn assign_at(&mut self, hash: &Vec<u8>) -> (outcome: Result<Node, RingError>)
        requires
            old(self).wf(),
            old(self)@.total_load < u64::MAX,
        ensures
            final(self).wf(),
            old(self)@.routes(hash@, named(outcome)),
            final(self)@ == match outcome {
                Ok(node) => old(self)@.assign(node@),
                Err(_) => old(self)@,
            },
    {
        match self.nearest_node_under_load(hash) {
            Ok(node) => {
                let ghost before = self@;
                let found = self.find_member(node.get_name());
                assert(before.eligible(node@));
                let i = found.unwrap();
                proof {
                    lemma_load_sum_split(before.table, i as int);
                    lemma_assign_wf(before, node@);
                }
                let row = Member {
                    name: self.members[i].name.clone(),
                    replicas: self.members[i].replicas,
                    load: self.members[i].load + 1,
                };
                self.members.set(i, row);
                self.total_load = self.total_load + 1;
                assert(self@.table =~= before.assign(node@).table);
                Ok(node)
            },
            Err(error) => Err(error),
        }
    }

    /// Routes `key` under the load ceiling and counts one key more for the
    /// node found.  Without such a node nothing changes, and the error says
    /// whether the ring is empty or every node is at the ceiling.
    pub fn assign_key(&mut self, key: String) -> (outcome: Result<Node, RingError>)
        requires
            old(self).wf(),
            old(self)@.total_load < u64::MAX,
        ensures
            final(self).wf(),
            old(self)@.routes(key_position(key@), named(outcome)),
            final(self)@ == match outcome {
                Ok(node) => old(self)@.assign(node@),
                Err(_) => old(self)@,
            },
    {
        let hash = position_of_key(&key);
        self.assign_at(&hash)
    }
}

impl Clone for ConsistentHash {
    /// A ring in the same state, which from then on changes on its own.
    fn clone(&self) -> (copy: ConsistentHash)
        ensures
            copy@ == self@,
    {
        let mut members: Vec<Member> = Vec::new();
        let mut i: usize = 0;
        while i < self.members.len()
            invariant
                0 <= i <= self.members@.len(),
                members@.len() == i,
                forall|k: int| 0 <= k < i ==> (#[trigger] members@[k])@ == self.members@[k]@,
            decreases self.members@.len() - i,
        {
            let member = &self.members[i];
            members.push(
                Member {
                    name: member.name.clone(),
                    replicas: member.replicas,
                    load: member.load,
                },
            );
            i += 1;
        }
        let copy = ConsistentHash {
            ring: self.ring.clone(),
            members,
            load_factor: self.load_factor,
            total_load: self.total_load,
        };
        assert(copy@.table =~= self@.table);
        copy
    }
}

impl Default for ConsistentHash {
    fn default() -> (ring: ConsistentHash)
        ensures
            ring.wf(),
            ring@ == State::empty(1, 1),
    {
        ConsistentHash::new()
    }
}

} // verus!
