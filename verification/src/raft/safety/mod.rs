//! Why a cluster is safe, whatever messages are lost, repeated or reordered and
//! whichever nodes crash.
//!
//! - [`protocol`] — what nodes do to each other, in small steps, with everything
//!   that ever happened on record
//! - [`consistency`] — what holds of the record and of every node
//! - [`steps`] — every step of the protocol keeps it
//! - [`cluster`] — nodes that run, and what may happen to them
//! - [`refinement`] and [`handlers`] — whatever a node does on an input is a
//!   sequence of steps of the protocol
//! - [`laws`] — what follows for every history of a cluster
//! - [`replicas`] — what follows for the state machines
//! - [`checker`] — the invariant checker agrees

pub mod checker;
pub mod cluster;
pub mod consistency;
pub mod handlers;
pub mod laws;
pub mod protocol;
pub mod refinement;
pub mod replicas;
pub mod steps;
