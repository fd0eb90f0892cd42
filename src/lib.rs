//! A node of a Kademlia distributed hash table: identifiers under the XOR
//! metric, the wire codec, k-buckets and the routing table, the iterative
//! lookup state and the event-driven server logic.
pub mod base;
pub mod bytes;
pub mod closest;
pub mod messages;
pub mod query;
pub mod routing;
pub mod server;
