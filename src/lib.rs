//! Peer discovery and routing-table maintenance for a Kademlia-style overlay:
//! XOR distance over 64-bit identifiers, a bucketed routing table with bounded
//! buckets, an iterative closest-peers query, the decisions of the node's
//! event loop, and the node's command line.
pub mod distance;
pub mod routing;
pub mod query;
pub mod node;
pub mod cli;
