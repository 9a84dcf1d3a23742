//! A consistent-hashing ring with bounded loads.
//!
//! Nodes are hashed onto a circular keyspace of byte-string positions, each
//! node contributing one position per replica.  A key is routed to the node
//! owning the clockwise-nearest position, skipping nodes whose load would
//! rise above a ceiling derived from the cluster average.

pub mod balancer;
pub mod laws;
pub mod node;
pub mod order;
pub mod position;
pub mod replicas;
pub mod ring;
pub mod state;
pub mod table;

pub use balancer::{ConsistentHash, LoadFactor};
pub use node::Node;
pub use state::RingError;
