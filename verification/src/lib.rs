//! Decision logic of an iterative node lookup in a Kademlia-style overlay
//! network, and of the JSON-RPC handler that probes such a network.
//!
//! A lookup asks the peers closest to a target for peers that are closer still,
//! until enough of the closest peers have answered. [`findnodes`] holds the
//! query that drives it, [`model`] the states of a query and the steps between
//! them, [`effects`] what each step does to the peers, and [`laws`] what holds of
//! the states and steps as a whole.

pub mod effects;
pub mod findnodes;
pub mod jsonrpc;
pub mod key;
pub mod laws;
pub mod model;
pub mod peers;
pub mod query;
pub mod time;
