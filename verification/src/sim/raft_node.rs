//! Deterministic-simulation adapter for the Raft state machine.

use vstd::prelude::*;

use crate::config::NodeId;
use crate::raft::driver::{Input, InputView, Output, OutputView};
use crate::raft::RaftNode;
use crate::sim::model::NodeModel;
use crate::sim::SimNode;

verus! {

/// Lets the simulation driver deliver its orchestration inputs to a Raft node.
impl SimNode for RaftNode {
    open spec fn model(&self) -> NodeModel {
        NodeModel::Raft(self@)
    }

    open spec fn id_of(model: NodeModel) -> NodeId {
        model->Raft_0.id
    }

    open spec fn next(model: NodeModel, input: InputView) -> (NodeModel, Seq<OutputView>) {
        let (node, outputs) = model->Raft_0.step(input);
        (NodeModel::Raft(node), outputs)
    }

    fn id(&self) -> (r: NodeId) {
        self.id
    }

    fn step(&mut self, input: Input) -> (r: Vec<Output>) {
        RaftNode::step(self, input)
    }

    fn raft(&self) -> (r: Option<&RaftNode>) {
        Some(self)
    }
}

} // verus!
