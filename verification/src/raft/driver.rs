//! The driver contract: what a runtime feeds the Raft core, and what it owes
//! the outside world in return.
//!
//! [`RaftNode::step`] is the only way to advance consensus, and it is pure: it
//! mutates volatile state and *describes* the durable writes, messages, and
//! state-machine applies its caller must perform. Performing them is the
//! driver's job, and the two drivers — the deterministic simulator and the
//! runtime node — differ only in how they carry the work out, never in what
//! order they carry it out.
//!
//! These types live here rather than in the simulator because both drivers
//! depend on them. They are plain data: no clock, no I/O, no runtime.

use vstd::prelude::*;

use crate::config::NodeId;
use crate::raft::election::{actions_view, ActionView, ElectionAction};
use crate::raft::log::{copy_bytes, copy_entries, entries_view, LogEntry, LogEntryView};
use crate::raft::replication::commands_view;
use crate::raft::snapshot::{Snapshot, SnapshotMeta, SnapshotView};
use crate::raft::storage::HardState;
use crate::raft::{NodeView, RaftNode, RaftRpc, RpcView};

verus! {

/// Input delivered by a driver to a Raft node.
#[derive(Debug, PartialEq, Eq)]
pub enum Input {
    /// One tick of the driver's clock has elapsed.
    ///
    /// The core counts ticks and never reads a clock, so a logical tick in the
    /// simulator and a heartbeat-interval tick in the runtime are the same
    /// input.
    Tick,
    /// An RPC received from another node.
    ///
    /// Responses arrive this way too: the core never blocks waiting for a
    /// reply, so a driver that speaks request/response converts each reply
    /// back into one of these.
    Message { from: NodeId, rpc: RaftRpc },
    /// A serialized command submitted by a client.
    ClientCommand(Vec<u8>),
    /// Several client commands delivered in one step (opportunistic batch).
    ///
    /// The leader appends all entries, emits one `PersistLog`, and one
    /// AppendEntries broadcast — so the batch shares a single storage sync. An
    /// empty list is a no-op. Single commands still use [`Input::ClientCommand`].
    ClientCommands(Vec<Vec<u8>>),
    /// State-machine snapshot bytes produced after [`Output::RequestSnapshot`].
    SnapshotTaken(Snapshot),
    /// Driver finished draining [`Output::PersistSnapshot`]; log may now trim.
    SnapshotPersisted(SnapshotMeta),
}

/// What an [`Input`] holds.
pub enum InputView {
    Tick,
    Message { from: NodeId, rpc: RpcView },
    ClientCommand(Seq<u8>),
    ClientCommands(Seq<Seq<u8>>),
    SnapshotTaken(SnapshotView),
    SnapshotPersisted(SnapshotMeta),
}

impl View for Input {
    type V = InputView;

    open spec fn view(&self) -> InputView {
        match self {
            Input::Tick => InputView::Tick,
            Input::Message { from, rpc } => InputView::Message { from: *from, rpc: rpc@ },
            Input::ClientCommand(command) => InputView::ClientCommand(command@),
            Input::ClientCommands(commands) => InputView::ClientCommands(commands_view(commands@)),
            Input::SnapshotTaken(snapshot) => InputView::SnapshotTaken(snapshot@),
            Input::SnapshotPersisted(meta) => InputView::SnapshotPersisted(*meta),
        }
    }
}

impl Clone for Input {
    fn clone(&self) -> (r: Self)
        ensures
            r@ == self@,
    {
        match self {
            Input::Tick => Input::Tick,
            Input::Message { from, rpc } => Input::Message { from: *from, rpc: rpc.clone() },
            Input::ClientCommand(command) => Input::ClientCommand(copy_bytes(command)),
            Input::ClientCommands(commands) => Input::ClientCommands(copy_commands(commands)),
            Input::SnapshotTaken(snapshot) => Input::SnapshotTaken(snapshot.clone()),
            Input::SnapshotPersisted(meta) => Input::SnapshotPersisted(*meta),
        }
    }
}

/// Copies commands.
fn copy_commands(commands: &Vec<Vec<u8>>) -> (r: Vec<Vec<u8>>)
    ensures
        commands_view(r@) == commands_view(commands@),
{
    let mut r: Vec<Vec<u8>> = Vec::new();
    let mut i: usize = 0;
    while i < commands.len()
        invariant
            i <= commands@.len(),
            r@.len() == i,
            forall|j: int| 0 <= j < i ==> (#[trigger] r@[j])@ == commands@[j]@,
        decreases commands@.len() - i,
    {
        r.push(copy_bytes(&commands[i]));
        i += 1;
    }
    assert(commands_view(r@) =~= commands_view(commands@));
    r
}

/// Ordered work returned from a Raft node for its driver to drain.
///
/// Ordering contract:
/// - `Persist` (hard state) before a dependent `Send`
/// - `PersistLog` before a dependent `Send`: a follower's success reply, and
///   any AppendEntries carrying a leader's newly appended entry
/// - Durability boundary is the drained batch: every write output in a batch
///   is durable before the first `Send`, `Apply`, or `ApplySnapshot` after it
/// - One batch in flight per node: the driver finishes draining (and making
///   durable) a node's batch before stepping that node again. The leader
///   counts its own `last_index` toward a majority, which is safe only
///   because of this rule
/// - `PersistSnapshot` before the log prefix it replaces is discarded
/// - `PersistSnapshot` before a dependent InstallSnapshot reply `Send`
/// - `ApplySnapshot` installs state-machine bytes (including the dedup table)
///
/// Snapshot flow: `RequestSnapshot` → driver SM encode → `SnapshotTaken` →
/// `PersistSnapshot` → durable write → `SnapshotPersisted` → trim.
#[derive(Debug, PartialEq, Eq)]
pub enum Output {
    /// Evidence that an echoing fixture received a payload.
    Echo { payload: Vec<u8> },
    /// Deliver an RPC to `to`.
    Send { to: NodeId, rpc: RaftRpc },
    /// Apply a committed log entry to the application state machine.
    Apply(LogEntry),
    /// Make Raft election metadata durable.
    Persist(HardState),
    /// Make a log mutation durable: drop entries at or above `truncate_from`
    /// (if set), then append `entries`.
    PersistLog { truncate_from: Option<u64>, entries: Vec<LogEntry> },
    /// Ask the driver to snapshot the state machine at this log boundary.
    RequestSnapshot { last_included_index: u64, last_included_term: u64 },
    /// Make a snapshot durable before the replaced log prefix is discarded.
    PersistSnapshot(Snapshot),
    /// Install snapshot bytes into the application state machine.
    ApplySnapshot(Snapshot),
    /// This node cannot accept the command it was just given; `leader_hint` is
    /// the node it believes is leader, if any.
    ///
    /// Redirection is application-level routing, not Raft: the core names a
    /// [`NodeId`], and resolving that to a client-facing address belongs to the
    /// driver. A driver with no clients to answer — the simulator — ignores it.
    Redirect { leader_hint: Option<NodeId> },
}

/// What an [`Output`] holds.
pub enum OutputView {
    Echo { payload: Seq<u8> },
    Send { to: NodeId, rpc: RpcView },
    Apply(LogEntryView),
    Persist(HardState),
    PersistLog { truncate_from: Option<u64>, entries: Seq<LogEntryView> },
    RequestSnapshot { last_included_index: u64, last_included_term: u64 },
    PersistSnapshot(SnapshotView),
    ApplySnapshot(SnapshotView),
    Redirect { leader_hint: Option<NodeId> },
}

impl View for Output {
    type V = OutputView;

    open spec fn view(&self) -> OutputView {
        match self {
            Output::Echo { payload } => OutputView::Echo { payload: payload@ },
            Output::Send { to, rpc } => OutputView::Send { to: *to, rpc: rpc@ },
            Output::Apply(entry) => OutputView::Apply(entry@),
            Output::Persist(hard_state) => OutputView::Persist(*hard_state),
            Output::PersistLog { truncate_from, entries } => OutputView::PersistLog {
                truncate_from: *truncate_from,
                entries: entries_view(entries@),
            },
            Output::RequestSnapshot { last_included_index, last_included_term } => {
                OutputView::RequestSnapshot {
                    last_included_index: *last_included_index,
                    last_included_term: *last_included_term,
                }
            },
            Output::PersistSnapshot(snapshot) => OutputView::PersistSnapshot(snapshot@),
            Output::ApplySnapshot(snapshot) => OutputView::ApplySnapshot(snapshot@),
            Output::Redirect { leader_hint } => OutputView::Redirect { leader_hint: *leader_hint },
        }
    }
}

impl Clone for Output {
    fn clone(&self) -> (r: Self)
        ensures
            r@ == self@,
    {
        match self {
            Output::Echo { payload } => Output::Echo { payload: copy_bytes(payload) },
            Output::Send { to, rpc } => Output::Send { to: *to, rpc: rpc.clone() },
            Output::Apply(entry) => Output::Apply(entry.clone()),
            Output::Persist(hard_state) => Output::Persist(*hard_state),
            Output::PersistLog { truncate_from, entries } => {
                let copy = copy_entries(entries.as_slice(), 0);
                assert(entries_view(copy@) =~= entries_view(entries@));
                Output::PersistLog { truncate_from: *truncate_from, entries: copy }
            },
            Output::RequestSnapshot { last_included_index, last_included_term } => {
                Output::RequestSnapshot {
                    last_included_index: *last_included_index,
                    last_included_term: *last_included_term,
                }
            },
            Output::PersistSnapshot(snapshot) => Output::PersistSnapshot(snapshot.clone()),
            Output::ApplySnapshot(snapshot) => Output::ApplySnapshot(snapshot.clone()),
            Output::Redirect { leader_hint } => Output::Redirect { leader_hint: *leader_hint },
        }
    }
}

/// What a list of outputs holds, in order.
pub open spec fn outputs_view(outputs: Seq<Output>) -> Seq<OutputView> {
    Seq::new(outputs.len(), |i: int| outputs[i]@)
}

/// The driver's share of one effect. Role changes are already reflected in the
/// core's state; a driver reads them back through the node.
pub open spec fn output_of(action: ActionView) -> Option<OutputView> {
    match action {
        ActionView::Persist(hard_state) => Some(OutputView::Persist(hard_state)),
        ActionView::PersistLog { truncate_from, entries } => Some(
            OutputView::PersistLog { truncate_from, entries },
        ),
        ActionView::Send { to, rpc } => Some(OutputView::Send { to, rpc }),
        ActionView::PromoteLeader => None,
        ActionView::DemoteFollower => None,
        ActionView::RedirectLeader { leader_hint } => Some(OutputView::Redirect { leader_hint }),
        ActionView::ApplyCommittedEntries { entry } => Some(OutputView::Apply(entry)),
        ActionView::RequestSnapshot { last_included_index, last_included_term } => Some(
            OutputView::RequestSnapshot { last_included_index, last_included_term },
        ),
        ActionView::PersistSnapshot(snapshot) => Some(OutputView::PersistSnapshot(snapshot)),
        ActionView::ApplySnapshot(snapshot) => Some(OutputView::ApplySnapshot(snapshot)),
    }
}

/// The driver's share of a list of effects, in order.
pub open spec fn outputs_of(actions: Seq<ActionView>) -> Seq<OutputView>
    decreases actions.len(),
{
    if actions.len() == 0 {
        Seq::empty()
    } else {
        let rest = outputs_of(actions.drop_last());
        match output_of(actions.last()) {
            Some(output) => rest.push(output),
            None => rest,
        }
    }
}

impl NodeView {
    /// The node after `input`, and the effects it asks for.
    pub open spec fn act(self, input: InputView) -> (NodeView, Seq<ActionView>) {
        match input {
            InputView::Tick => self.tick(),
            InputView::Message { from, rpc } => self.receive(from, rpc),
            InputView::ClientCommand(command) => self.append_and_replicate(seq![command]),
            InputView::ClientCommands(commands) => self.propose(commands),
            InputView::SnapshotTaken(snapshot) => self.snapshot_taken(snapshot),
            InputView::SnapshotPersisted(meta) => (self.snapshot_persisted(meta), Seq::empty()),
        }
    }

    /// The node after `input`, and the work its driver owes.
    pub open spec fn step(self, input: InputView) -> (NodeView, Seq<OutputView>) {
        (self.act(input).0, outputs_of(self.act(input).1))
    }
}

impl RaftNode {
    /// Advances consensus by one input and returns the work its driver owes.
    ///
    /// Outputs must be drained in the returned order; see [`Output`] for the
    /// durability rules that order encodes. Nothing here performs I/O.
    pub fn step(&mut self, input: Input) -> (r: Vec<Output>)
        ensures
            (final(self)@, outputs_view(r@)) == old(self)@.step(input@),
    {
        let ghost n0 = self@;
        let actions = match input {
            Input::Tick => self.on_tick(),
            Input::Message { from, rpc } => self.handle_rpc(from, rpc),
            Input::ClientCommand(command) => self.handle_client_command(command),
            Input::ClientCommands(commands) => self.handle_client_commands(commands),
            Input::SnapshotTaken(snapshot) => self.handle_snapshot_taken(snapshot),
            Input::SnapshotPersisted(meta) => {
                let none = self.handle_snapshot_persisted(meta);
                assert(actions_view(none@) =~= Seq::empty());
                none
            },
        };
        actions_to_outputs(actions)
    }
}

/// Translates core effects into ordered driver outputs, preserving order.
pub fn actions_to_outputs(actions: Vec<ElectionAction>) -> (r: Vec<Output>)
    ensures
        outputs_view(r@) == outputs_of(actions_view(actions@)),
{
    let ghost all = actions_view(actions@);
    let mut outputs: Vec<Output> = Vec::new();
    assert(outputs_view(outputs@) =~= outputs_of(all.take(0)));
    for action in iter: actions
        invariant
            iter.seq() == actions@,
            all == actions_view(actions@),
            outputs_view(outputs@) == outputs_of(all.take(iter.index())),
    {
        let ghost held = outputs@;
        let ghost i = iter.index();
        let output: Option<Output> = match action {
            ElectionAction::Persist(hard_state) => Some(Output::Persist(hard_state)),
            ElectionAction::PersistLog { truncate_from, entries } => Some(
                Output::PersistLog { truncate_from, entries },
            ),
            ElectionAction::Send { to, rpc } => Some(Output::Send { to, rpc }),
            ElectionAction::PromoteLeader => None,
            ElectionAction::DemoteFollower => None,
            ElectionAction::RedirectLeader { leader_hint } => Some(
                Output::Redirect { leader_hint },
            ),
            ElectionAction::ApplyCommittedEntries { entry } => Some(Output::Apply(entry)),
            ElectionAction::RequestSnapshot { last_included_index, last_included_term } => Some(
                Output::RequestSnapshot { last_included_index, last_included_term },
            ),
            ElectionAction::PersistSnapshot(snapshot) => Some(Output::PersistSnapshot(snapshot)),
            ElectionAction::ApplySnapshot(snapshot) => Some(Output::ApplySnapshot(snapshot)),
        };
        proof {
            assert(all.take(i + 1).drop_last() =~= all.take(i));
            assert(all.take(i + 1).last() == action@);
        }
        match output {
            Some(output) => {
                outputs.push(output);
                assert(outputs_view(outputs@) =~= outputs_view(held).push(output@));
            },
            None => {},
        }
    }
    assert(all.take(actions@.len() as int) =~= all);
    outputs
}

} // verus!
