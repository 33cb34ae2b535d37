//! The Raft protocol as a transition system that is driven one step at a time.
//!
//! A [`world::World`] holds a handful of Raft nodes and the network between
//! them. It lists the steps that can happen next and executes the one that is
//! chosen. Every operation is stated over a mathematical model of the node, the
//! network and the world, and the safety properties of the protocol are proved
//! over that model.

pub mod command;
pub mod command_laws;
pub mod format_laws;
pub mod laws;
pub mod ledger;
pub mod legible_laws;
pub mod lists;
pub mod message;
pub mod network;
pub mod node;
pub mod node_laws;
pub mod node_model;
pub mod order_laws;
pub mod quorum;
pub mod quorum_laws;
pub mod safety;
pub mod step;
pub mod text;
pub mod text_laws;
pub mod world;
pub mod world_laws;
pub mod world_model;
