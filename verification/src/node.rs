//! Node identities.

use vstd::prelude::*;
use vstd::std_specs::cmp::PartialEqSpecImpl;

verus! {

/// A member of the cluster, identified by its name alone.
#[derive(Debug, Eq)]
pub struct Node {
    name: String,
}

impl View for Node {
    type V = Seq<char>;

    /// A node is modelled by the characters of its name.
    closed spec fn view(&self) -> Seq<char> {
        self.name@
    }
}

impl Node {
    /// Creates the node called `name`.
    pub fn new(name: String) -> (node: Node)
        ensures
            node@ == name@,
    {
        Node { name }
    }

    /// The name this node was created with.
    pub fn get_name(&self) -> (name: &String)
        ensures
            name@ == self@,
    {
        &self.name
    }
}

impl Clone for Node {
    fn clone(&self) -> (copy: Node)
        ensures
            copy == *self,
    {
        Node { name: self.name.clone() }
    }
}

impl PartialEq for Node {
    fn eq(&self, other: &Node) -> (same: bool) {
        self.name == other.name
    }
}

impl PartialEqSpecImpl for Node {
    open spec fn obeys_eq_spec() -> bool {
        true
    }

    open spec fn eq_spec(&self, other: &Node) -> bool {
        self@ == other@
    }
}

} // verus!
