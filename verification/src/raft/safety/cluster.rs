//! A cluster of nodes that run [`NodeView::step`], over a network that may lose,
//! delay, repeat and reorder what is sent, with crashes and restarts in between.

use vstd::prelude::*;

use crate::config::NodeId;
use crate::raft::driver::{InputView, OutputView};
use crate::raft::log::{LogEntryView, RaftLogView};
use crate::raft::snapshot::SnapshotMeta;
use crate::raft::state::RaftState;
use crate::raft::storage::RecoveredView;
use crate::raft::{NodeView, RpcView};
use crate::rng::NodeRngView;

verus! {

/// A message on its way.
pub struct Envelope {
    pub from: NodeId,
    pub to: NodeId,
    pub rpc: RpcView,
}

/// The nodes, what they ever sent, and what they ever handed to their state
/// machines.
pub struct Cluster {
    pub members: Set<NodeId>,
    pub nodes: Map<NodeId, NodeView>,
    pub sent: Set<Envelope>,
    pub applied: Set<(NodeId, LogEntryView)>,
}

/// What may happen to a cluster.
pub enum Event {
    /// A node processes an input; a message among them was sent to it.
    Input { n: NodeId, input: InputView },
    /// A node restarts from what was durable.
    Restart { n: NodeId, rng: NodeRngView, recovered: RecoveredView },
}

impl NodeView {
    /// The node knows the members of its cluster.
    pub open spec fn knows(self, members: Set<NodeId>) -> bool {
        &&& self.others().no_duplicates()
        &&& forall|p: NodeId| #[trigger]
            self.others().contains(p) <==> members.contains(p) && p != self.id
    }

    /// The node has room for `count` more entries, and is not in the last term.
    pub open spec fn has_room(self, count: nat) -> bool {
        &&& self.log.last_index() + count < u64::MAX
        &&& self.current_term < u64::MAX
    }

    /// The snapshot's boundary is an entry of the log.
    pub open spec fn took(self, meta: SnapshotMeta) -> bool {
        self.may_compact_to(meta.last_included_index) ==> self.log.contains(
            meta.last_included_index,
            meta.last_included_term,
        )
    }

    /// A restart finds the vote and the term of the node, its last snapshot, and
    /// its log, from which the snapshot may already have been trimmed.
    pub open spec fn left_behind(self, recovered: RecoveredView) -> bool {
        &&& recovered.hard_state == self.hard_state()
        &&& recovered.snapshot == self.snapshot
        &&& match self.snapshot {
            Some(snapshot) => {
                let index = snapshot.meta.last_included_index;
                let term = snapshot.meta.last_included_term;
                &&& recovered.log.last_included_index() == index
                &&& recovered.log.last_included_term == term
                &&& recovered.log == self.log || (self.may_compact_to(index) && recovered.log
                    == self.log.compact(index, term))
            },
            None => recovered.log == self.log && recovered.log.start_index == 1,
        }
    }
}

impl Cluster {
    /// Whether the event may happen.
    pub open spec fn allows(self, event: Event) -> bool {
        match event {
            Event::Input { n, input } => self.members.contains(n) && match input {
                InputView::Tick => self.nodes[n].has_room(1),
                InputView::Message { from, rpc } => {
                    &&& self.sent.contains(Envelope { from, to: n, rpc })
                    &&& self.nodes[n].has_room(1)
                },
                InputView::ClientCommand(_) => self.nodes[n].has_room(1),
                InputView::ClientCommands(commands) => self.nodes[n].has_room(commands.len()),
                InputView::SnapshotTaken(snapshot) => self.nodes[n].took(snapshot.meta),
                InputView::SnapshotPersisted(meta) => self.nodes[n].took(meta),
            },
            Event::Restart { n, rng, recovered } => self.members.contains(n)
                && self.nodes[n].left_behind(recovered),
        }
    }

    /// The cluster after the event.
    pub open spec fn after(self, event: Event) -> Cluster {
        match event {
            Event::Input { n, input } => {
                let (node, outputs) = self.nodes[n].step(input);
                Cluster {
                    members: self.members,
                    nodes: self.nodes.insert(n, node),
                    sent: self.sent.union(sent_by(n, outputs)),
                    applied: self.applied.union(applied_by(n, outputs)),
                }
            },
            Event::Restart { n, rng, recovered } => Cluster {
                nodes: self.nodes.insert(
                    n,
                    NodeView::of_recovered(n, self.nodes[n].peers, rng, recovered),
                ),
                ..self
            },
        }
    }

    /// A cluster of fresh nodes.
    pub open spec fn is_initial(self) -> bool {
        &&& self.members.finite()
        &&& self.nodes.dom() == self.members
        &&& forall|n: NodeId| #[trigger]
            self.members.contains(n) ==> self.nodes[n].is_fresh(n) && self.nodes[n].knows(
                self.members,
            )
        &&& self.sent == Set::<Envelope>::empty()
        &&& self.applied == Set::<(NodeId, LogEntryView)>::empty()
    }
}

impl NodeView {
    /// The node `id` holds nothing yet.
    pub open spec fn is_fresh(self, id: NodeId) -> bool {
        &&& self.id == id
        &&& self.log == RaftLogView::empty()
        &&& self.current_term == 0
        &&& self.voted_for is None
        &&& self.state == RaftState::Follower
        &&& self.commit_index == 0
        &&& self.last_applied == 0
        &&& self.snapshot is None
        &&& self.pending_snapshot is None
    }
}

/// What a node sent.
pub open spec fn sent_by(n: NodeId, outputs: Seq<OutputView>) -> Set<Envelope> {
    Set::new(
        |e: Envelope| e.from == n && outputs.contains(OutputView::Send { to: e.to, rpc: e.rpc }),
    )
}

/// What a node handed to its state machine.
pub open spec fn applied_by(n: NodeId, outputs: Seq<OutputView>) -> Set<(NodeId, LogEntryView)> {
    Set::new(
        |a: (NodeId, LogEntryView)| a.0 == n && outputs.contains(OutputView::Apply(a.1)),
    )
}

/// What a cluster goes through: it starts fresh, and one allowed event follows
/// the other.
pub open spec fn is_history(states: Seq<Cluster>, events: Seq<Event>) -> bool {
    &&& states.len() == events.len() + 1
    &&& states[0].is_initial()
    &&& forall|i: int|
        0 <= i < events.len() ==> states[i].allows(#[trigger] events[i]) && states[i + 1]
            == states[i].after(events[i])
}

} // verus!
