//! What the simulator feeds a node, and what a node owes it: the same contract
//! as with every other driver.

pub use crate::raft::driver::{Input, Output};
