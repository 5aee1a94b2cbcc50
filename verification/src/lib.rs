//! A replicated key-value store on the Raft consensus algorithm.
//!
//! [`cluster`] is one node as a state machine from events to actions, built on
//! [`election`] and [`replication`]. [`conduct`] states what a node does about
//! each event, [`safety`] what holds of it at all times, [`durability`] what
//! holds of its disk and [`system`] what holds of all nodes together.
pub mod chaos;
pub mod client;
pub mod clock;
pub mod cluster;
pub mod codec;
pub mod conduct;
pub mod config;
pub mod durability;
pub mod election;
pub mod errors;
pub mod kv_store;
pub mod leader_tracking;
pub mod log;
pub mod messages;
pub mod metrics_api;
pub mod network;
pub mod replication;
pub mod safety;
pub mod snapshot;
pub mod state;
pub mod system;
pub mod text;
pub mod wal;
pub mod wire;
