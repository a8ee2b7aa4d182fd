//! A simulation never finds a property of safety broken, whatever is crashed,
//! restarted, isolated or proposed, and whenever logs are compacted.

use vstd::bytes::lemma_auto_spec_u64_to_from_le_bytes;
use vstd::prelude::*;

use crate::config::NodeId;
use crate::maps::{keys_in_order, lemma_u64_lt_total, u64_lt};
use crate::raft::driver::{output_of, outputs_of, InputView, OutputView};
use crate::raft::election::ActionView;
use crate::raft::invariants::Violation;
use crate::raft::laws::{
    is_visible, is_write, law_membership_is_fixed, law_merge, law_writes_come_first,
    lemma_matching_prefix, lemma_output_from_action, writes_first,
};
use crate::raft::log::{max_u64, next_down, next_up, LogEntryView, RaftLogView};
use crate::raft::replication::told_commit;
use crate::raft::safety::checker::{
    happened, lemma_happened_stays, lemma_nothing_to_object, shown_of,
};
use crate::raft::safety::cluster::{sent_by, Cluster, Envelope, Event};
use crate::raft::safety::consistency::holds;
use crate::raft::safety::laws::{
    follows, lemma_event, lemma_follows_on, lemma_follows_same, lemma_started, started,
};
use crate::raft::safety::protocol::System;
use crate::raft::safety::refinement::{
    lemma_node_log, lemma_shows, mirrors, refines, rpc_ok, tracks,
};
use crate::raft::snapshot::{SnapshotMeta, SnapshotView};
use crate::raft::state::RaftState;
use crate::raft::storage::durability::{
    batch_of, covers_snapshot, durable, law_restart_finds_the_node, law_step_is_durable,
    lemma_compacted, stored_in, trimmed,
};
use crate::raft::storage::memory::{law_commit_then_recover, MemoryView};
use crate::raft::storage::record::{
    decode_from, law_records_round_trip, op_fits, op_records, ops_fit, LogOpView,
};
use crate::raft::storage::{entries_after, from_index, log_ops, BatchView, RecoveredView};
use crate::raft::{
    catch_up_all, AppendEntriesView, InstallSnapshotView, NodeView, RaftNode, RpcView,
};
use crate::rng::NodeRngView;
use crate::seqs::lemma_sorted_list;
use crate::sim::model::{
    deliver, handle, handle_all, models_by_id, rafts_among, sim_run, sim_start, sim_step, tick_nodes, tick_once,
    ClusterView, DrainView, NodeModel, SimView, FOLLOW_UP_DEPTH, MAX_DELIVERIES_PER_TICK,
};
use crate::sim::network::{InFlightView, NetworkView};
use crate::sim::trace::TraceEventKind;
use crate::sim::{node_seed, SimNode};

verus! {

// ── How far a simulation can get ────────────────────────────────────────────

/// The entry's record fits its frame.
pub open spec fn small(e: LogEntryView) -> bool {
    op_fits(LogOpView::Append(e))
}

/// The log's entries are consecutive and fit their frames, and none is beyond `b`.
pub open spec fn log_within(log: RaftLogView, b: nat) -> bool {
    &&& 1 <= log.start_index
    &&& log.start_index - 1 + log.entries.len() <= b
    &&& forall|i: int|
        0 <= i < log.entries.len() ==> (#[trigger] log.entries[i]).index == log.start_index + i
            && small(log.entries[i])
}

/// Neither the node's term nor its log is beyond `b`.
pub open spec fn node_within(v: NodeView, b: nat) -> bool {
    &&& v.current_term <= b
    &&& log_within(v.log, b)
}

/// Nothing in the message is beyond `b`.
pub open spec fn rpc_within(rpc: RpcView, b: nat) -> bool {
    match rpc {
        RpcView::RequestVote(m) => m.term <= b,
        RpcView::RequestVoteResponse(m) => m.term <= b,
        RpcView::AppendEntries(m) => {
            &&& m.term <= b
            &&& m.prev_log_index + m.entries.len() <= b
            &&& forall|j: int|
                0 <= j < m.entries.len() ==> (#[trigger] m.entries[j]).index == m.prev_log_index + j
                    + 1 && small(m.entries[j])
        },
        RpcView::AppendEntriesResponse(m) => m.term <= b,
        RpcView::InstallSnapshot(m) => m.term <= b && m.last_included_index <= b,
        RpcView::InstallSnapshotResponse(m) => m.term <= b,
    }
}

/// Nothing in the effect is beyond `b`.
spec fn action_within(action: ActionView, b: nat) -> bool {
    match action {
        ActionView::Send { to, rpc } => rpc_within(rpc, b),
        ActionView::PersistLog { truncate_from, entries } => forall|i: int|
            0 <= i < entries.len() ==> small(#[trigger] entries[i]),
        _ => true,
    }
}

spec fn actions_within(actions: Seq<ActionView>, b: nat) -> bool {
    forall|i: int| 0 <= i < actions.len() ==> action_within(#[trigger] actions[i], b)
}

/// The leader knows where each member's log goes on, and a snapshot covers no more
/// than the log.
spec fn knows_next(v: NodeView) -> bool {
    &&& v.state == RaftState::Leader ==> forall|p: NodeId|
        #[trigger] v.others().contains(p) ==> v.next_index.contains_key(p) && 1 <= v.next_index[p]
            <= v.log.start_index + v.log.entries.len()
    &&& v.snapshot is Some ==> v.snapshot->0.meta.last_included_index < v.log.start_index
        + v.log.entries.len()
}

/// How many commands an input brings.
pub open spec fn commands_in(input: InputView) -> nat {
    match input {
        InputView::ClientCommands(commands) => commands.len(),
        _ => 0,
    }
}

/// The command fits the record of an entry.
pub open spec fn small_command(command: Seq<u8>) -> bool {
    small(LogEntryView { index: 0, term: 0, command })
}

/// How much further an input can take a node.
pub open spec fn further(input: InputView) -> nat {
    match input {
        InputView::SnapshotTaken(_) => 0,
        InputView::SnapshotPersisted(_) => 0,
        _ => commands_in(input) + 2,
    }
}

/// What a simulated node is given: ticks, commands that fit, messages, and word of
/// the snapshot that it asked for or has.
pub open spec fn input_within(v: NodeView, input: InputView, b: nat) -> bool {
    match input {
        InputView::Tick => true,
        InputView::Message { from, rpc } => v.others().contains(from) && rpc_within(rpc, b),
        InputView::ClientCommand(command) => small_command(command),
        InputView::ClientCommands(commands) => forall|i: int|
            0 <= i < commands.len() ==> small_command(#[trigger] commands[i]),
        InputView::SnapshotTaken(snapshot) => v.took(snapshot.meta),
        InputView::SnapshotPersisted(meta) => v.took(meta) && (v.may_compact_to(
            meta.last_included_index,
        ) ==> v.snapshot is Some && v.snapshot->0.meta == meta),
    }
}

proof fn lemma_small_same(a: LogEntryView, b: LogEntryView)
    requires
        small(a),
        a.command == b.command,
    ensures
        small(b),
{
    lemma_auto_spec_u64_to_from_le_bytes();
}

proof fn lemma_within_more(actions: Seq<ActionView>, b: nat, c: nat)
    requires
        actions_within(actions, b),
        b <= c,
    ensures
        actions_within(actions, c),
{
    assert forall|i: int| 0 <= i < actions.len() implies action_within(#[trigger] actions[i], c) by {
        assert(action_within(actions[i], b));
    }
}

proof fn lemma_append_within(v: NodeView, p: NodeId, b: nat)
    requires
        node_within(v, b),
        v.next_index.contains_key(p),
        1 <= v.next_index[p] <= v.log.start_index + v.log.entries.len(),
        b < u64::MAX,
    ensures
        action_within(v.send_append_entries(p), b),
{
    let m = v.append_entries_to(p);
    let next = max_u64(v.next_index[p], v.log.start_index);
    assert(m.entries =~= v.log.entries.skip(next - v.log.start_index));
    assert forall|j: int| 0 <= j < m.entries.len() implies (#[trigger] m.entries[j]).index
        == m.prev_log_index + j + 1 && small(m.entries[j]) by {
        assert(m.entries[j] == v.log.entries[next - v.log.start_index + j]);
    }
}

proof fn lemma_broadcast_within(v: NodeView, b: nat)
    requires
        node_within(v, b),
        v.state == RaftState::Leader,
        knows_next(v),
        b < u64::MAX,
    ensures
        actions_within(v.broadcast(), b),
{
    assert forall|i: int| 0 <= i < v.broadcast().len() implies action_within(
        #[trigger] v.broadcast()[i],
        b,
    ) by {
        let p = v.others()[i];
        assert(v.others().contains(p));
        assert(v.next_index.contains_key(p) && 1 <= v.next_index[p]);
        lemma_append_within(v, p, b);
    }
}

proof fn lemma_catch_up_within(v: NodeView, peers: Seq<NodeId>, b: nat)
    requires
        node_within(v, b),
        v.state == RaftState::Leader,
        knows_next(v),
        b < u64::MAX,
        forall|i: int| 0 <= i < peers.len() ==> v.others().contains(#[trigger] peers[i]),
    ensures
        actions_within(catch_up_all(v, peers), b),
    decreases peers.len(),
{
    if peers.len() > 0 {
        let fewer = peers.drop_last();
        assert forall|i: int| 0 <= i < fewer.len() implies v.others().contains(
            #[trigger] fewer[i],
        ) by {
            assert(fewer[i] == peers[i]);
        }
        lemma_catch_up_within(v, fewer, b);
        let p = peers[peers.len() - 1];
        assert(v.others().contains(p));
        assert(v.next_index.contains_key(p) && 1 <= v.next_index[p]);
        lemma_append_within(v, p, b);
        let before = catch_up_all(v, fewer);
        let more = v.catch_up(p);
        assert forall|i: int| 0 <= i < catch_up_all(v, peers).len() implies action_within(
            #[trigger] catch_up_all(v, peers)[i],
            b,
        ) by {
            if i >= before.len() {
                assert(catch_up_all(v, peers)[i] == more[i - before.len()]);
            } else {
                assert(catch_up_all(v, peers)[i] == before[i]);
            }
        }
    }
}

proof fn lemma_applies_within(v: NodeView, b: nat)
    requires
        node_within(v, b),
    ensures
        node_within(v.apply_committed().0, b),
        actions_within(v.apply_committed().1, b),
        v.apply_committed().0.log == v.log,
        v.apply_committed().0.snapshot == v.snapshot,
    decreases u64::MAX - v.last_applied,
{
    let next = crate::raft::log::next_up(v.last_applied);
    if v.last_applied < v.commit_index && v.log.holds(next) {
        let w = NodeView { last_applied: next, ..v };
        lemma_applies_within(w, b);
        let all = v.apply_committed().1;
        assert forall|i: int| 0 <= i < all.len() implies action_within(#[trigger] all[i], b) by {
            if i > 0 {
                assert(all[i] == w.apply_committed().1[i - 1]);
            }
        }
    }
}

/// Taking over a leader's entries.
proof fn lemma_merge_within(log: RaftLogView, m: AppendEntriesView, b: nat)
    requires
        log_within(log, b),
        rpc_within(RpcView::AppendEntries(m), b),
        b + 2 < u64::MAX,
    ensures
        ({
            let (merged, outcome) = log.append_from_leader(m.entries);
            &&& merged.start_index == log.start_index
            &&& log_within(merged, b)
            &&& outcome is Ok ==> forall|i: int|
                0 <= i < outcome->Ok_0.appended.len() ==> small(
                    #[trigger] outcome->Ok_0.appended[i],
                )
        }),
{
    law_merge(log, m.entries);
    lemma_matching_prefix(log, m.entries);
    let (merged, result) = log.append_from_leader(m.entries);
    if result is Ok {
        let outcome = result->Ok_0;
        let held = log.matching_prefix(m.entries) as int;
        let kept = match outcome.truncated_from {
            Some(index) => log.truncate_from(index),
            None => log,
        };
        if outcome.appended.len() > 0 {
            assert(outcome.appended == m.entries.skip(held));
            assert forall|i: int| 0 <= i < outcome.appended.len() implies small(
                #[trigger] outcome.appended[i],
            ) by {
                assert(outcome.appended[i] == m.entries[held + i]);
            }
            let last = m.entries[m.entries.len() - 1];
            assert(outcome.appended.last() == last);
            assert(merged.entries[merged.entries.len() - 1] == last);
            assert(last.index <= b);
        }
        assert forall|i: int| 0 <= i < merged.entries.len() implies (
        #[trigger] merged.entries[i]).index == merged.start_index + i && small(
            merged.entries[i],
        ) by {
            if i < kept.entries.len() {
                assert(merged.entries[i] == log.entries[i]);
            } else {
                assert(merged.entries[i] == outcome.appended[i - kept.entries.len()]);
            }
        }
    }
}

proof fn lemma_small_empty(e: LogEntryView)
    requires
        e.command.len() == 0,
    ensures
        small(e),
{
    lemma_auto_spec_u64_to_from_le_bytes();
}

/// A candidate that takes the lead.
proof fn lemma_lead_within(v: NodeView, b: nat)
    requires
        node_within(v, b),
        knows_next(v.become_leader().0),
        b + 3 < u64::MAX,
    ensures
        node_within(v.become_leader().0, b + 1),
        actions_within(v.become_leader().1, b + 1),
{
    let (w, actions) = v.become_leader();
    lemma_small_empty(v.noop());
    assert(v.noop().index == v.log.start_index + v.log.entries.len());
    assert forall|i: int| 0 <= i < w.log.entries.len() implies (
    #[trigger] w.log.entries[i]).index == w.log.start_index + i && small(w.log.entries[i]) by {
        if i < v.log.entries.len() {
            assert(w.log.entries[i] == v.log.entries[i]);
        }
    }
    lemma_broadcast_within(w, b + 1);
    assert forall|i: int| 0 <= i < actions.len() implies action_within(#[trigger] actions[i], b
        + 1) by {
        if i >= 2 {
            assert(actions[i] == w.broadcast()[i - 2]);
        }
    }
}

proof fn lemma_tick_within(v: NodeView, b: nat)
    requires
        node_within(v, b),
        knows_next(v),
        knows_next(v.tick().0),
        b + 4 < u64::MAX,
    ensures
        node_within(v.tick().0, b + 2),
        actions_within(v.tick().1, b + 2),
{
    let (w, actions) = v.tick();
    if v.state != RaftState::Leader {
        let node = NodeView { election: v.election.ticked(), ..v };
        if node.election.ticks_remaining == 0 {
            let c = node.candidacy();
            let effects = seq![ActionView::Persist(c.hard_state())] + c.canvass();
            assert(node_within(c, b + 1));
            assert(actions_within(effects, b + 2)) by {
                assert forall|i: int| 0 <= i < effects.len() implies action_within(
                    #[trigger] effects[i],
                    b + 2,
                ) by {
                    if i >= 1 {
                        assert(effects[i] == c.canvass()[i - 1]);
                    }
                }
            }
            if c.has_won() {
                lemma_lead_within(c, b + 1);
                let promotion = c.become_leader().1;
                assert forall|i: int| 0 <= i < actions.len() implies action_within(
                    #[trigger] actions[i],
                    b + 2,
                ) by {
                    if i < effects.len() {
                        assert(actions[i] == effects[i]);
                    } else {
                        assert(actions[i] == promotion[i - effects.len()]);
                    }
                }
            }
        }
    } else {
        let ticked = NodeView { heartbeat_ticks: next_down(v.heartbeat_ticks), ..v };
        let due = v.snapshot_due();
        assert(w.others() == v.others());
        let rest = if ticked.heartbeat_ticks == 0 {
            w.broadcast()
        } else {
            catch_up_all(w, w.others())
        };
        assert(actions =~= due + rest);
        if ticked.heartbeat_ticks == 0 {
            lemma_broadcast_within(w, b);
        } else {
            assert forall|i: int| 0 <= i < w.others().len() implies w.others().contains(
                #[trigger] w.others()[i],
            ) by {}
            lemma_catch_up_within(w, w.others(), b);
        }
        assert forall|i: int| 0 <= i < actions.len() implies action_within(
            #[trigger] actions[i],
            b,
        ) by {
            if i >= due.len() {
                assert(actions[i] == rest[i - due.len()]);
            }
        }
        lemma_within_more(actions, b, b + 2);
    }
}

proof fn lemma_client_within(v: NodeView, commands: Seq<Seq<u8>>, b: nat)
    requires
        node_within(v, b),
        forall|i: int| 0 <= i < commands.len() ==> small_command(#[trigger] commands[i]),
        knows_next(v.append_and_replicate(commands).0),
        b + commands.len() + 2 < u64::MAX,
    ensures
        node_within(v.append_and_replicate(commands).0, b + commands.len()),
        actions_within(v.append_and_replicate(commands).1, b + commands.len()),
{
    let (w, actions) = v.append_and_replicate(commands);
    if v.state == RaftState::Leader {
        let entries = v.entries_for(commands);
        let c = b + commands.len();
        assert(v.log.next_index() == v.log.start_index + v.log.entries.len());
        assert forall|i: int| 0 <= i < entries.len() implies small(#[trigger] entries[i])
            && entries[i].index == v.log.start_index + v.log.entries.len() + i by {
            assert(small_command(commands[i]));
            lemma_small_same(LogEntryView { index: 0, term: 0, command: commands[i] }, entries[i]);
        }
        assert forall|i: int| 0 <= i < w.log.entries.len() implies (
        #[trigger] w.log.entries[i]).index == w.log.start_index + i && small(
            w.log.entries[i],
        ) by {
            if i < v.log.entries.len() {
                assert(w.log.entries[i] == v.log.entries[i]);
            } else {
                assert(w.log.entries[i] == entries[i - v.log.entries.len()]);
            }
        }
        lemma_broadcast_within(w, c);
        assert forall|i: int| 0 <= i < actions.len() implies action_within(
            #[trigger] actions[i],
            c,
        ) by {
            if i >= 1 {
                assert(actions[i] == w.broadcast()[i - 1]);
            }
        }
    }
}

proof fn lemma_entries_within(v: NodeView, from: NodeId, m: AppendEntriesView, b: nat)
    requires
        node_within(v, b),
        rpc_within(RpcView::AppendEntries(m), b),
        b + 3 < u64::MAX,
    ensures
        node_within(v.handle_append_entries_request(from, m).0, b),
        actions_within(v.handle_append_entries_request(from, m).1, b),
        v.handle_append_entries_request(from, m).0.log.start_index == v.log.start_index,
        v.handle_append_entries_request(from, m).0.snapshot == v.snapshot,
{
    let (w, actions) = v.handle_append_entries_request(from, m);
    let (adopted, adoption) = v.adopt_term(m.term);
    let follower = adopted.follow(m.leader_id);
    let effects = adoption + adopted.demotion();
    lemma_merge_within(v.log, m, b);
    let (log, merge) = follower.log.append_from_leader(m.entries);
    if m.term < adopted.current_term || !follower.log.contains(m.prev_log_index, m.prev_log_term)
        || merge is Err {
    } else {
        let merged = NodeView { log, ..follower };
        let committed = NodeView {
            commit_index: told_commit(merged.commit_index, m.leader_commit, merged.log.last_index()),
            ..merged
        };
        lemma_applies_within(committed, b);
        let applies = committed.apply_committed().1;
        let k = actions.len() - 1 - applies.len();
        assert forall|i: int| 0 <= i < actions.len() implies action_within(
            #[trigger] actions[i],
            b,
        ) by {
            if k <= i < actions.len() - 1 {
                assert(actions[i] == applies[i - k]);
            }
        }
    }
}

/// What a node is after an input, and what it asks for, is hardly further than
/// what it was.
proof fn lemma_act_within(v: NodeView, input: InputView, b: nat)
    requires
        node_within(v, b),
        input_within(v, input, b),
        knows_next(v),
        knows_next(v.act(input).0),
        b + commands_in(input) + 5 < u64::MAX,
    ensures
        node_within(v.act(input).0, b + further(input)),
        actions_within(v.act(input).1, b + further(input)),
{
    let (w, actions) = v.act(input);
    let c = b + further(input);
    match input {
        InputView::Tick => lemma_tick_within(v, b),
        InputView::ClientCommand(command) => {
            lemma_client_within(v, seq![command], b);
            lemma_within_more(actions, b + 1, c);
        },
        InputView::ClientCommands(commands) => {
            if commands.len() > 0 {
                lemma_client_within(v, commands, b);
                lemma_within_more(actions, b + commands.len(), c);
            }
        },
        InputView::Message { from, rpc } => match rpc {
            RpcView::RequestVote(m) => {},
            RpcView::RequestVoteResponse(m) => {
                let node = v.with_vote(from);
                if m.term <= v.current_term && v.state == RaftState::Candidate && m.term
                    == v.current_term && m.vote_granted && node.has_won() {
                    lemma_lead_within(node, b);
                    lemma_within_more(actions, b + 1, c);
                }
            },
            RpcView::AppendEntries(m) => {
                lemma_entries_within(v, from, m, b);
                lemma_within_more(actions, b, c);
            },
            RpcView::AppendEntriesResponse(m) => {
                if m.term <= v.current_term && v.state == RaftState::Leader && m.term
                    == v.current_term {
                    if m.success {
                        let acked = v.acknowledge(from, m.match_index);
                        let counted = NodeView { commit_index: acked.advanced_commit(), ..acked };
                        lemma_applies_within(counted, b);
                        lemma_within_more(actions, b, c);
                    } else {
                        assert(w.others() == v.others());
                        assert(w.others().contains(from));
                        lemma_append_within(w, from, b);
                        assert(actions =~= seq![w.send_append_entries(from)]);
                        lemma_within_more(actions, b, c);
                    }
                }
            },
            RpcView::InstallSnapshot(m) => {
                let follower = v.adopt_term(m.term).0.follow(m.leader_id);
                let meta = m.meta();
                assert(log_within(
                    follower.log.install_snapshot(meta.last_included_index, meta.last_included_term),
                    b,
                )) by {
                    lemma_compact_within(v.log, meta.last_included_index, meta.last_included_term, b);
                }
            },
            RpcView::InstallSnapshotResponse(m) => {},
        },
        InputView::SnapshotTaken(snapshot) => {},
        InputView::SnapshotPersisted(meta) => {
            lemma_compact_within(v.log, meta.last_included_index, meta.last_included_term, b);
        },
    }
}

/// A log without what a snapshot covers.
proof fn lemma_compact_within(log: RaftLogView, index: u64, term: u64, b: nat)
    requires
        log_within(log, b),
        log.start_index + log.entries.len() < u64::MAX,
    ensures
        log.holds(index) || index < log.start_index ==> log_within(log.compact(index, term), b),
{
    let short = log.compact(index, term);
    if log.holds(index) {
        assert forall|i: int| 0 <= i < short.entries.len() implies (
        #[trigger] short.entries[i]).index == short.start_index + i && small(short.entries[i]) by {
            assert(short.entries[i] == log.entries[index + 1 - log.start_index + i]);
        }
    }
}

// ── Snapshots that are asked for ────────────────────────────────────────────

/// The effect makes the driver tell of a snapshot.
spec fn asks(action: ActionView) -> bool {
    action is RequestSnapshot || action is PersistSnapshot
}

spec fn asking(actions: Seq<ActionView>) -> nat
    decreases actions.len(),
{
    if actions.len() == 0 {
        0
    } else {
        asking(actions.drop_last()) + if asks(actions.last()) {
            1nat
        } else {
            0nat
        }
    }
}

/// The output makes the driver tell of a snapshot.
spec fn output_asks(output: OutputView) -> bool {
    output is RequestSnapshot || output is PersistSnapshot
}

spec fn outputs_asking(outputs: Seq<OutputView>) -> nat
    decreases outputs.len(),
{
    if outputs.len() == 0 {
        0
    } else {
        outputs_asking(outputs.drop_last()) + if output_asks(outputs.last()) {
            1nat
        } else {
            0nat
        }
    }
}

proof fn lemma_outputs_asking(actions: Seq<ActionView>)
    ensures
        outputs_asking(outputs_of(actions)) == asking(actions),
    decreases actions.len(),
{
    if actions.len() > 0 {
        lemma_outputs_asking(actions.drop_last());
        if let Some(output) = output_of(actions.last()) {
            let before = outputs_of(actions.drop_last());
            assert(before.push(output).drop_last() =~= before);
        }
    }
}

proof fn lemma_none_asking(actions: Seq<ActionView>)
    requires
        forall|i: int| 0 <= i < actions.len() ==> !asks(#[trigger] actions[i]),
    ensures
        asking(actions) == 0,
    decreases actions.len(),
{
    if actions.len() > 0 {
        assert(!asks(actions[actions.len() - 1]));
        lemma_none_asking(actions.drop_last());
    }
}

proof fn lemma_asking_add(a: Seq<ActionView>, b: Seq<ActionView>)
    ensures
        asking(a + b) == asking(a) + asking(b),
    decreases b.len(),
{
    if b.len() == 0 {
        assert(a + b =~= a);
    } else {
        assert((a + b).drop_last() =~= a + b.drop_last());
        lemma_asking_add(a, b.drop_last());
    }
}

/// What the node asks for is of its own log.
spec fn asks_rightly(w: NodeView, action: ActionView) -> bool {
    match action {
        ActionView::RequestSnapshot { last_included_index, last_included_term } => {
            w.took(SnapshotMeta { last_included_index, last_included_term })
        },
        ActionView::PersistSnapshot(snapshot) => {
            &&& w.took(snapshot.meta)
            &&& w.snapshot == Some(snapshot)
        },
        _ => true,
    }
}

proof fn lemma_applies_ask_nothing(v: NodeView)
    ensures
        forall|i: int|
            0 <= i < v.apply_committed().1.len() ==> !asks(#[trigger] v.apply_committed().1[i]),
    decreases u64::MAX - v.last_applied,
{
    let next = next_up(v.last_applied);
    if v.last_applied < v.commit_index && v.log.holds(next) {
        let w = NodeView { last_applied: next, ..v };
        lemma_applies_ask_nothing(w);
        let all = v.apply_committed().1;
        assert forall|i: int| 0 <= i < all.len() implies !asks(#[trigger] all[i]) by {
            if i > 0 {
                assert(all[i] == w.apply_committed().1[i - 1]);
            }
        }
    }
}

/// A tick asks for a snapshot at most, and then for nothing to be written.
proof fn lemma_tick_asks(v: NodeView)
    ensures
        asking(v.tick().1) <= 1,
        forall|i: int|
            0 <= i < v.tick().1.len() ==> asks(#[trigger] v.tick().1[i]) ==> v.state
                == RaftState::Leader && v.tick().1[i] == v.request_snapshot(),
        v.state == RaftState::Leader ==> forall|i: int|
            0 <= i < v.tick().1.len() ==> (#[trigger] v.tick().1[i]) is Send || v.tick().1[i] is
                RequestSnapshot,
{
    let (w, actions) = v.tick();
    let ticked = NodeView { heartbeat_ticks: next_down(v.heartbeat_ticks), ..v };
    if v.state == RaftState::Leader {
        let due = v.snapshot_due();
        let rest = if ticked.heartbeat_ticks == 0 {
            w.broadcast()
        } else {
            catch_up_all(w, w.others())
        };
        assert(actions =~= due + rest);
        lemma_catch_up_only_sends(w, w.others());
        assert forall|i: int| 0 <= i < rest.len() implies (#[trigger] rest[i]) is Send by {}
        lemma_none_asking(rest);
        lemma_asking_add(due, rest);
        assert(asking(due) <= 1) by {
            if v.should_snapshot() {
                assert(due.drop_last() =~= Seq::<ActionView>::empty());
                assert(asking(due.drop_last()) == 0);
            }
        }
        assert forall|i: int| 0 <= i < actions.len() implies ((#[trigger] actions[i]) is Send
            || actions[i] is RequestSnapshot) && (asks(actions[i]) ==> actions[i]
            == v.request_snapshot()) by {
            if i >= due.len() {
                assert(actions[i] == rest[i - due.len()]);
            }
        }
    } else {
        lemma_none_asking(actions);
    }
}

proof fn lemma_catch_up_only_sends(v: NodeView, peers: Seq<NodeId>)
    ensures
        forall|i: int|
            0 <= i < catch_up_all(v, peers).len() ==> (#[trigger] catch_up_all(v, peers)[i]) is Send,
    decreases peers.len(),
{
    if peers.len() > 0 {
        let before = catch_up_all(v, peers.drop_last());
        let more = v.catch_up(peers.last());
        lemma_catch_up_only_sends(v, peers.drop_last());
        assert forall|i: int| 0 <= i < catch_up_all(v, peers).len() implies (
        #[trigger] catch_up_all(v, peers)[i]) is Send by {
            if i < before.len() {
                assert(catch_up_all(v, peers)[i] == before[i]);
            } else {
                assert(catch_up_all(v, peers)[i] == more[i - before.len()]);
            }
        }
    }
}

/// An input makes the driver tell of one snapshot at most, and of one of the
/// node's own log. Where a snapshot is requested, nothing is to be written.
proof fn lemma_asks(v: NodeView, input: InputView, b: nat)
    requires
        node_within(v, b),
        input_within(v, input, b),
        v.last_applied < v.log.start_index + v.log.entries.len(),
        b + commands_in(input) + 5 < u64::MAX,
    ensures
        asking(v.act(input).1) <= 1,
        forall|i: int|
            0 <= i < v.act(input).1.len() ==> asks_rightly(
                v.act(input).0,
                #[trigger] v.act(input).1[i],
            ),
        forall|i: int, j: int|
            0 <= i < v.act(input).1.len() && 0 <= j < v.act(input).1.len() && (
            #[trigger] v.act(input).1[i]) is RequestSnapshot ==> {
                let other = #[trigger] v.act(input).1[j];
                !(other is Persist) && !(other is PersistLog) && !(other is PersistSnapshot)
            },
{
    let (w, actions) = v.act(input);
    match input {
        InputView::Tick => {
            lemma_tick_asks(v);
            assert forall|i: int| 0 <= i < actions.len() implies asks_rightly(
                w,
                #[trigger] actions[i],
            ) by {
                if asks(actions[i]) {
                    assert(w.log == v.log && w.last_applied == v.last_applied);
                }
            }
        },
        InputView::ClientCommand(command) => {
            lemma_client_asks_nothing(v, seq![command]);
            lemma_none_asking(actions);
        },
        InputView::ClientCommands(commands) => {
            lemma_client_asks_nothing(v, commands);
            lemma_none_asking(actions);
        },
        InputView::Message { from, rpc } => match rpc {
            RpcView::InstallSnapshot(m) => lemma_install_asks(v, from, m, b),
            _ => {
                lemma_message_asks_nothing(v, from, rpc);
                lemma_none_asking(actions);
            },
        },
        InputView::SnapshotTaken(snapshot) => {
            if v.may_compact_to(snapshot.meta.last_included_index) {
                assert(actions.drop_last() =~= Seq::<ActionView>::empty());
                assert(asking(actions.drop_last()) == 0);
            }
        },
        InputView::SnapshotPersisted(meta) => {},
    }
}

proof fn lemma_client_asks_nothing(v: NodeView, commands: Seq<Seq<u8>>)
    ensures
        forall|i: int|
            0 <= i < v.append_and_replicate(commands).1.len() ==> !asks(
                #[trigger] v.append_and_replicate(commands).1[i],
            ),
{
    let (w, actions) = v.append_and_replicate(commands);
    if v.state == RaftState::Leader {
        assert forall|i: int| 0 <= i < actions.len() implies !asks(#[trigger] actions[i]) by {
            if i >= 1 {
                assert(actions[i] == w.broadcast()[i - 1]);
            }
        }
    }
}

proof fn lemma_message_asks_nothing(v: NodeView, from: NodeId, rpc: RpcView)
    requires
        !(rpc is InstallSnapshot),
    ensures
        forall|i: int|
            0 <= i < v.receive(from, rpc).1.len() ==> !asks(#[trigger] v.receive(from, rpc).1[i]),
{
    match rpc {
        RpcView::AppendEntries(m) => {
            let follower = v.adopt_term(m.term).0.follow(m.leader_id);
            let log = follower.log.append_from_leader(m.entries).0;
            let merged = NodeView { log, ..follower };
            let committed = NodeView {
                commit_index: told_commit(
                    merged.commit_index,
                    m.leader_commit,
                    merged.log.last_index(),
                ),
                ..merged
            };
            lemma_applies_ask_nothing(committed);
        },
        RpcView::AppendEntriesResponse(m) => {
            let acked = v.acknowledge(from, m.match_index);
            lemma_applies_ask_nothing(
                NodeView { commit_index: acked.advanced_commit(), ..acked },
            );
        },
        _ => {},
    }
}

/// A leader's snapshot is to be written once.
proof fn lemma_install_asks(v: NodeView, from: NodeId, m: InstallSnapshotView, b: nat)
    requires
        m.last_included_index <= b,
        b + 2 < u64::MAX,
    ensures
        ({
            let (w, actions) = v.handle_install_snapshot_request(from, m);
            &&& asking(actions) <= 1
            &&& forall|i: int|
                0 <= i < actions.len() ==> asks_rightly(w, #[trigger] actions[i])
                    && !(actions[i] is RequestSnapshot)
        }),
{
    let (w, actions) = v.handle_install_snapshot_request(from, m);
    let (adopted, adoption) = v.adopt_term(m.term);
    let follower = adopted.follow(m.leader_id);
    let effects = adoption + adopted.demotion();
    if m.term < adopted.current_term || (m.last_included_index
        <= follower.log.last_included_index() && m.done) || follower.with_chunk(m) is None
        || !m.done {
        lemma_none_asking(actions);
    } else {
        let snapshot = SnapshotView { meta: m.meta(), data: follower.with_chunk(m)->0.data };
        let owed = follower.install_effects(snapshot);
        let persist = seq![ActionView::PersistSnapshot(snapshot)];
        let rest = owed.skip(1);
        let reply = actions.last();
        assert(owed =~= persist + rest);
        assert(actions =~= effects + owed + seq![reply]);
        lemma_none_asking(effects);
        lemma_none_asking(rest);
        lemma_none_asking(seq![reply]);
        assert(asking(persist) == 1) by {
            assert(persist.drop_last() =~= Seq::<ActionView>::empty());
            assert(asking(persist.drop_last()) == 0);
        }
        lemma_asking_add(persist, rest);
        lemma_asking_add(effects, owed);
        lemma_asking_add(effects + owed, seq![reply]);
    }
}

// ── Draining ────────────────────────────────────────────────────────────────

/// Where a snapshot is requested, nothing is to be written.
spec fn requests_alone(outputs: Seq<OutputView>) -> bool {
    forall|i: int, j: int|
        0 <= i < outputs.len() && 0 <= j < outputs.len() && (#[trigger] outputs[i]) is
            RequestSnapshot ==> !is_write(#[trigger] outputs[j])
}

/// The input tells of a snapshot that an output asked for.
spec fn answers(input: InputView, outputs: Seq<OutputView>) -> bool {
    match input {
        InputView::SnapshotTaken(snapshot) => outputs.contains(
            OutputView::RequestSnapshot {
                last_included_index: snapshot.meta.last_included_index,
                last_included_term: snapshot.meta.last_included_term,
            },
        ),
        InputView::SnapshotPersisted(meta) => exists|snapshot: SnapshotView|
            snapshot.meta == meta && #[trigger] outputs.contains(
                OutputView::PersistSnapshot(snapshot),
            ),
        _ => false,
    }
}

proof fn lemma_nothing_written(outputs: Seq<OutputView>, k: int)
    requires
        0 <= k <= outputs.len(),
        forall|i: int| 0 <= i < outputs.len() ==> !is_write(#[trigger] outputs[i]),
    ensures
        batch_of(outputs.take(k)) == BatchView::empty(),
    decreases k,
{
    if k == 0 {
        assert(outputs.take(0) =~= Seq::<OutputView>::empty());
    } else {
        lemma_nothing_written(outputs, k - 1);
        assert(outputs.take(k).drop_last() =~= outputs.take(k - 1));
        assert(!is_write(outputs[k - 1]));
    }
}

/// Some output so far could be seen.
spec fn seen_by(outputs: Seq<OutputView>, k: int) -> bool {
    exists|i: int| 0 <= i < k && is_visible(#[trigger] outputs[i])
}

/// After something that can be seen, nothing more is written.
proof fn lemma_all_written(outputs: Seq<OutputView>, k: int)
    requires
        writes_first(outputs),
        0 <= k <= outputs.len(),
        seen_by(outputs, k),
    ensures
        batch_of(outputs.take(k)) == batch_of(outputs),
    decreases outputs.len() - k,
{
    if k == outputs.len() {
        assert(outputs.take(k) =~= outputs);
    } else {
        let i = choose|i: int| 0 <= i < k && is_visible(#[trigger] outputs[i]);
        assert(!is_write(outputs[k]));
        assert(outputs.take(k + 1).drop_last() =~= outputs.take(k));
        assert(outputs.take(k + 1).last() == outputs[k]);
        assert(is_visible(outputs[i]));
        assert(seen_by(outputs, k + 1));
        lemma_all_written(outputs, k + 1);
    }
}

/// What is left of the cluster while outputs are drained.
spec fn drained(
    cl: ClusterView,
    dv: DrainView,
    id: NodeId,
    outputs: Seq<OutputView>,
    k: int,
) -> bool {
    let batch = batch_of(outputs.take(k));
    &&& !dv.stopped
    &&& dv.follow_ups.len() <= outputs_asking(outputs.take(k))
    &&& forall|i: int| 0 <= i < dv.follow_ups.len() ==> answers(#[trigger] dv.follow_ups[i], outputs)
    &&& dv.cluster.nodes == cl.nodes
    &&& dv.cluster.history == cl.history
    &&& dv.cluster.violation == cl.violation
    &&& forall|i: int|
        0 <= i < dv.cluster.network.queue.len() ==> queued(
            cl,
            id,
            outputs,
            #[trigger] dv.cluster.network.queue[i],
        )
    &&& forall|n: NodeId| n != id ==> #[trigger] dv.cluster.storage(n) == cl.storage(n)
    &&& (dv.batch == batch && dv.cluster.storage(id) == cl.storage(id)) || (dv.batch
        == BatchView::empty() && dv.cluster.storage(id) == cl.storage(id).commit(batch).0
        && seen_by(outputs, k))
}

/// The message was on its way, or is one of the outputs.
spec fn queued(
    cl: ClusterView,
    id: NodeId,
    outputs: Seq<OutputView>,
    m: InFlightView,
) -> bool {
    cl.network.queue.contains(m) || (m.from == id && outputs.contains(
        OutputView::Send { to: m.to, rpc: m.rpc },
    ))
}

/// Making the writes so far durable.
proof fn lemma_flushed(
    cl: ClusterView,
    dv: DrainView,
    id: NodeId,
    outputs: Seq<OutputView>,
    k: int,
)
    requires
        drained(cl, dv, id, outputs, k),
        cl.storage(id).commit(batch_of(outputs.take(k))).1 is Ok,
    ensures
        ({
            let after = dv.flush(id);
            &&& !after.stopped
            &&& after.follow_ups == dv.follow_ups
            &&& after.cluster.nodes == cl.nodes
            &&& after.cluster.history == cl.history
            &&& after.cluster.violation == cl.violation
            &&& after.cluster.network == dv.cluster.network
            &&& after.batch == BatchView::empty()
            &&& forall|n: NodeId| n != id ==> #[trigger] after.cluster.storage(n) == cl.storage(n)
            &&& after.cluster.storage(id) == cl.storage(id).commit(
                batch_of(outputs.take(k)),
            ).0
        }),
{
    let after = dv.flush(id);
    if dv.batch.is_empty() {
        assert(dv.batch =~= BatchView::empty());
    } else {
        assert forall|n: NodeId| n != id implies #[trigger] after.cluster.storage(n)
            == cl.storage(n) by {
            assert(dv.cluster.storage(n) == cl.storage(n));
        }
    }
}

proof fn lemma_drained(
    cl: ClusterView,
    tick: u64,
    id: NodeId,
    outputs: Seq<OutputView>,
    k: int,
)
    requires
        writes_first(outputs),
        requests_alone(outputs),
        forall|i: int| 0 <= i < outputs.len() ==> !((#[trigger] outputs[i]) is Echo),
        cl.storage(id).commit(batch_of(outputs)).1 is Ok,
        0 <= k <= outputs.len(),
    ensures
        drained(cl, DrainView::start(cl).drain_all(tick, id, outputs.take(k)), id, outputs, k),
    decreases k,
{
    let start = DrainView::start(cl);
    if k == 0 {
        assert(outputs.take(0) =~= Seq::empty());
        assert forall|i: int| 0 <= i < cl.network.queue.len() implies queued(
            cl,
            id,
            outputs,
            #[trigger] cl.network.queue[i],
        ) by {}
    } else {
        lemma_drained(cl, tick, id, outputs, k - 1);
        let shorter = outputs.take(k - 1);
        let output = outputs[k - 1];
        assert(outputs.take(k).drop_last() =~= shorter);
        assert(outputs.take(k).last() == output);
        let before = start.drain_all(tick, id, shorter);
        let after = start.drain_all(tick, id, outputs.take(k));
        assert(after == before.drain(tick, id, output));
        assert(!(output is Echo));
        assert(outputs.contains(output));
        assert forall|i: int| 0 <= i < after.follow_ups.len() implies answers(
            #[trigger] after.follow_ups[i],
            outputs,
        ) by {
            if i < before.follow_ups.len() {
                assert(after.follow_ups[i] == before.follow_ups[i]);
            }
        }
        if output is RequestSnapshot {
            assert forall|i: int| 0 <= i < outputs.len() implies !is_write(
                #[trigger] outputs[i],
            ) by {
                assert(outputs[k - 1] is RequestSnapshot);
            }
            lemma_nothing_written(outputs, k - 1);
            lemma_nothing_written(outputs, k);
            assert(before.batch =~= BatchView::empty());
            assert(before.flush(id) == before);
        }
        if seen_by(outputs, k - 1) {
            let i = choose|i: int| 0 <= i < k - 1 && is_visible(#[trigger] outputs[i]);
            assert(!is_write(outputs[k - 1]));
            assert(is_visible(outputs[i]));
            assert(seen_by(outputs, k));
        }
        if is_visible(output) {
            assert(seen_by(outputs, k));
            lemma_all_written(outputs, k);
            lemma_flushed(cl, before, id, outputs, k - 1);
            assert(outputs.contains(output));
            let queue = after.cluster.network.queue;
            assert forall|i: int| 0 <= i < queue.len() implies queued(
                cl,
                id,
                outputs,
                #[trigger] queue[i],
            ) by {
                if i < before.cluster.network.queue.len() {
                    assert(queue[i] == before.cluster.network.queue[i]);
                }
            }
            assert forall|n: NodeId| n != id implies #[trigger] after.cluster.storage(n)
                == cl.storage(n) by {
                assert(before.flush(id).cluster.storage(n) == cl.storage(n));
            }
            assert(before.flush(id).cluster.storage(id) == after.cluster.storage(id));
        } else {
            let queue = after.cluster.network.queue;
            assert forall|i: int| 0 <= i < queue.len() implies queued(
                cl,
                id,
                outputs,
                #[trigger] queue[i],
            ) by {
                assert(queue[i] == before.cluster.network.queue[i]);
            }
            assert forall|n: NodeId| n != id implies #[trigger] after.cluster.storage(n)
                == cl.storage(n) by {
                assert(before.cluster.storage(n) == cl.storage(n));
            }
            assert(after.cluster.storage(id) == before.cluster.storage(id));
        }
    }
}

// ── A simulation is a history of a cluster ──────────────────────────────────

/// The store is sound and holds the node.
pub open spec fn keeps_node(store: MemoryView, v: NodeView) -> bool {
    &&& decode_from(store.log_bytes, 0) is Ok
    &&& store.fail_commits == 0
    &&& durable(v, stored_in(store))
}

/// The simulated cluster is one that the protocol knows, and neither a term nor
/// a log in it is beyond `b`.
pub open spec fn goes_with(cl: ClusterView, c: Cluster, s: System, b: nat) -> bool {
    &&& holds(s)
    &&& refines(c, s)
    &&& forall|n: NodeId| #[trigger]
        cl.nodes.contains_key(n) ==> c.members.contains(n) && cl.nodes[n] == NodeModel::Raft(
            c.nodes[n],
        )
    &&& cl.nodes.dom().finite()
    &&& forall|i: int|
        0 <= i < cl.network.queue.len() ==> c.sent.contains(
            envelope(#[trigger] cl.network.queue[i]),
        )
    &&& forall|n: NodeId| #[trigger]
        c.members.contains(n) ==> node_within(c.nodes[n], b) && keeps_node(
            cl.storage(n),
            c.nodes[n],
        )
    &&& forall|e: Envelope| #[trigger] c.sent.contains(e) ==> rpc_within(e.rpc, b)
    &&& happened(cl.history, s)
    &&& cl.violation is None || cl.violation->0 is CascadeExceeded
}

pub open spec fn envelope(m: InFlightView) -> Envelope {
    Envelope { from: m.from, to: m.to, rpc: m.rpc }
}

proof fn lemma_rpc_within_more(rpc: RpcView, b: nat, c: nat)
    requires
        rpc_within(rpc, b),
        b <= c,
    ensures
        rpc_within(rpc, c),
{
}

/// The bound may be wider.
pub proof fn lemma_wider(cl: ClusterView, c: Cluster, s: System, b: nat, more: nat)
    requires
        goes_with(cl, c, s, b),
        b <= more,
    ensures
        goes_with(cl, c, s, more),
{
    assert forall|e: Envelope| #[trigger] c.sent.contains(e) implies rpc_within(e.rpc, more) by {
        lemma_rpc_within_more(e.rpc, b, more);
    }
    assert forall|n: NodeId| #[trigger] c.members.contains(n) implies node_within(
        c.nodes[n],
        more,
    ) && keeps_node(cl.storage(n), c.nodes[n]) by {
        assert(node_within(c.nodes[n], b));
    }
}

/// A node of the cluster knows where the members' logs go on.
proof fn lemma_node_knows_next(s: System, n: NodeId, v: NodeView)
    requires
        s.members.contains(n),
        mirrors(s.members, n, s.nodes[n], v),
    ensures
        knows_next(v),
{
    let c = s.nodes[n];
    if v.state == RaftState::Leader {
        assert(v.log.start_index - 1 + v.log.entries.len() == c.log.len());
        assert forall|p: NodeId| #[trigger] v.others().contains(p) implies v.next_index.contains_key(
            p,
        ) && 1 <= v.next_index[p] <= v.log.start_index + v.log.entries.len() by {
            assert(tracks(c, v, p));
        }
    }
}

/// What is written fits.
proof fn lemma_batch_fits(outputs: Seq<OutputView>)
    requires
        forall|i: int|
            0 <= i < outputs.len() ==> match (#[trigger] outputs[i]) {
                OutputView::PersistLog { truncate_from, entries } => forall|j: int|
                    0 <= j < entries.len() ==> small(#[trigger] entries[j]),
                _ => true,
            },
    ensures
        ops_fit(batch_of(outputs).log),
    decreases outputs.len(),
{
    if outputs.len() > 0 {
        let before = outputs.drop_last();
        assert forall|i: int| 0 <= i < before.len() implies match (#[trigger] before[i]) {
            OutputView::PersistLog { truncate_from, entries } => forall|j: int|
                0 <= j < entries.len() ==> small(#[trigger] entries[j]),
            _ => true,
        } by {
            assert(before[i] == outputs[i]);
        }
        lemma_batch_fits(before);
        let last = outputs[outputs.len() - 1];
        if let OutputView::PersistLog { truncate_from, entries } = last {
            let ops = log_ops(truncate_from, entries);
            let all = batch_of(before).log + ops;
            assert forall|i: int| 0 <= i < ops.len() implies op_fits(#[trigger] ops[i]) by {
                let k = if truncate_from is Some {
                    1int
                } else {
                    0int
                };
                if i >= k {
                    assert(ops[i] == LogOpView::Append(entries[i - k]));
                    assert(small(entries[i - k]));
                }
            }
            assert forall|i: int| 0 <= i < all.len() implies op_fits(#[trigger] all[i]) by {
                if i < batch_of(before).log.len() {
                    assert(all[i] == batch_of(before).log[i]);
                } else {
                    assert(all[i] == ops[i - batch_of(before).log.len()]);
                }
            }
        }
    }
}

/// A store that took a batch keeps the node that asked for it.
proof fn lemma_store_keeps(store: MemoryView, v: NodeView, w: NodeView, batch: BatchView)
    requires
        keeps_node(store, v),
        ops_fit(batch.log),
        durable(w, stored_in(store).after(batch)),
    ensures
        store.commit(batch).1 is Ok,
        keeps_node(store.commit(batch).0, w),
{
    law_commit_then_recover(store, batch);
    let after = store.commit(batch).0;
    assert(stored_in(after) == stored_in(store).after(batch)) by {
        assert(stored_in(after).ops == stored_in(store).ops + batch.log);
    }
}

/// The nodes that the checker is shown are those of the cluster.
proof fn lemma_rafts_shown(ids: Seq<NodeId>, nodes: Map<NodeId, NodeModel>, c: Cluster, s: System)
    requires
        refines(c, s),
        forall|i: int| 0 <= i < ids.len() ==> nodes.contains_key(#[trigger] ids[i]),
        forall|n: NodeId| #[trigger]
            nodes.contains_key(n) ==> c.members.contains(n) && nodes[n] == NodeModel::Raft(
                c.nodes[n],
            ),
    ensures
        shown_of(c, rafts_among(ids, nodes)),
    decreases ids.len(),
{
    if ids.len() > 0 {
        let fewer = ids.drop_last();
        assert forall|i: int| 0 <= i < fewer.len() implies nodes.contains_key(
            #[trigger] fewer[i],
        ) by {
            assert(fewer[i] == ids[i]);
        }
        lemma_rafts_shown(fewer, nodes, c, s);
        let n = ids[ids.len() - 1];
        assert(nodes.contains_key(n));
        assert(mirrors(s.members, n, s.nodes[n], c.nodes[n]));
        let before = rafts_among(fewer, nodes);
        let all = rafts_among(ids, nodes);
        assert(all == before.push(c.nodes[n]));
        assert forall|i: int| 0 <= i < all.len() implies c.members.contains(
            (#[trigger] all[i]).id,
        ) && c.nodes[all[i].id] == all[i] by {
            if i < before.len() {
                assert(all[i] == before[i]);
            }
        }
    }
}

/// The checker finds nothing in a cluster that the protocol knows.
proof fn lemma_check_passes(cl: ClusterView, c: Cluster, s: System)
    requires
        holds(s),
        refines(c, s),
        forall|n: NodeId| #[trigger]
            cl.nodes.contains_key(n) ==> c.members.contains(n) && cl.nodes[n] == NodeModel::Raft(
                c.nodes[n],
            ),
        cl.nodes.dom().finite(),
        happened(cl.history, s),
    ensures
        cl.check().violation is None,
        happened(cl.check().history, s),
{
    let ids = keys_in_order(cl.nodes);
    lemma_u64_lt_total();
    lemma_sorted_list(cl.nodes.dom(), u64_lt());
    assert forall|i: int| 0 <= i < ids.len() implies cl.nodes.contains_key(#[trigger] ids[i]) by {
        assert(ids.contains(ids[i]));
        assert(cl.nodes.dom().contains(ids[i]));
    }
    lemma_rafts_shown(ids, cl.nodes, c, s);
    lemma_nothing_to_object(cl.history, s, c, rafts_among(ids, cl.nodes));
}

/// An input that a simulated node may get.
pub open spec fn may_get(c: Cluster, id: NodeId, input: InputView, b: nat) -> bool {
    match input {
        InputView::Message { from, rpc } => c.sent.contains(Envelope { from, to: id, rpc }),
        _ => input_within(c.nodes[id], input, b),
    }
}

/// A log that mirrors the protocol's and starts no later than the snapshot ends
/// goes with the snapshot.
proof fn lemma_covers(s: System, n: NodeId, v: NodeView)
    requires
        holds(s),
        s.members.contains(n),
        mirrors(s.members, n, s.nodes[n], v),
        v.snapshot is Some ==> v.snapshot->0.meta.last_included_index >= v.log.start_index - 1,
    ensures
        covers_snapshot(v),
{
    let full = s.nodes[n].log;
    lemma_node_log(s, n);
    if let Some(snapshot) = v.snapshot {
        let index = snapshot.meta.last_included_index;
        if index >= v.log.start_index {
            assert(v.log.entries[index - v.log.start_index] == full[index - 1]);
        }
    }
}

/// What is written of an input keeps the node.
proof fn lemma_input_durable(
    store: MemoryView,
    s: System,
    s2: System,
    id: NodeId,
    v: NodeView,
    input: InputView,
    b: nat,
)
    requires
        holds(s),
        holds(s2),
        s.members.contains(id),
        s2.members == s.members,
        mirrors(s.members, id, s.nodes[id], v),
        mirrors(s2.members, id, s2.nodes[id], v.step(input).0),
        node_within(v, b),
        node_within(v.step(input).0, b + further(input)),
        actions_within(v.act(input).1, b + further(input)),
        input_within(v, input, b),
        keeps_node(store, v),
        b + commands_in(input) + 6 < u64::MAX,
    ensures
        store.commit(batch_of(v.step(input).1)).1 is Ok,
        keeps_node(store.commit(batch_of(v.step(input).1)).0, v.step(input).0),
{
    let (w, outputs) = v.step(input);
    let actions = v.act(input).1;
    let more = b + further(input);
    assert forall|i: int| 0 <= i < outputs.len() implies match (#[trigger] outputs[i]) {
        OutputView::PersistLog { truncate_from, entries } => forall|j: int|
            0 <= j < entries.len() ==> small(#[trigger] entries[j]),
        _ => true,
    } by {
        let j = lemma_output_from_action(actions, outputs[i]);
        assert(action_within(actions[j], more));
    }
    lemma_batch_fits(outputs);
    assert(w.log.proper());
    if let InputView::Message { from, rpc } = input {
        if let RpcView::AppendEntries(m) = rpc {
            lemma_entries_within(v, from, m, b);
            lemma_covers(s2, id, w);
        }
    }
    law_step_is_durable(v, stored_in(store), input);
    lemma_store_keeps(store, v, w, batch_of(outputs));
}

/// One input handled, up to what the driver has to tell the node next.
#[verifier::rlimit(60)]
proof fn lemma_input(
    cl: ClusterView,
    c: Cluster,
    s: System,
    b: nat,
    tick: u64,
    id: NodeId,
    input: InputView,
) -> (after: (Cluster, System))
    requires
        goes_with(cl, c, s, b),
        cl.violation is None,
        cl.nodes.contains_key(id),
        may_get(c, id, input, b),
        b + commands_in(input) + 6 < u64::MAX,
    ensures
        ({
            let (model, outputs) = RaftNode::next(cl.nodes[id], input);
            let stepped = ClusterView { nodes: cl.nodes.insert(id, model), ..cl }.check();
            let done = DrainView::start(stepped).drain_all(tick, id, outputs).flush(id);
            &&& stepped.violation is None
            &&& !done.stopped
            &&& goes_with(done.cluster, after.0, after.1, b + further(input))
            &&& done.cluster.violation is None
            &&& done.cluster.nodes.dom() == cl.nodes.dom()
            &&& done.follow_ups.len() <= 1
            &&& done.follow_ups.len() == 1 ==> may_get(
                after.0,
                id,
                done.follow_ups[0],
                b + further(input),
            ) && further(done.follow_ups[0]) == 0 && commands_in(done.follow_ups[0]) == 0
        }),
        same_people(c, after.0),
        follows(s, after.1),
{
    let more = b + further(input);
    assert(c.members.contains(id));
    let v = c.nodes[id];
    assert(node_within(v, b) && keeps_node(cl.storage(id), v));
    assert(mirrors(s.members, id, s.nodes[id], v));
    if let InputView::Message { from, rpc } = input {
        let e = Envelope { from, to: id, rpc };
        assert(c.sent.contains(e));
        assert(rpc_within(e.rpc, b));
        assert(rpc_ok(s, e.from, e.to, e.rpc));
    }
    assert(input_within(v, input, b));
    lemma_node_log(s, id);
    lemma_shows(s.nodes[id].log, v.log);
    let event = Event::Input { n: id, input };
    assert(c.allows(event));
    let s2 = lemma_event(c, s, event);
    let c2 = c.after(event);
    let (w, outputs) = v.step(input);
    let actions = v.act(input).1;
    assert(c2.nodes[id] == w);
    assert(mirrors(s2.members, id, s2.nodes[id], c2.nodes[id]));
    lemma_node_knows_next(s, id, v);
    lemma_node_knows_next(s2, id, w);
    lemma_act_within(v, input, b);
    lemma_asks(v, input, b);
    law_membership_is_fixed(v, input);
    // The check.
    let stepped = ClusterView { nodes: cl.nodes.insert(id, NodeModel::Raft(w)), ..cl };
    assert(RaftNode::next(cl.nodes[id], input) == (NodeModel::Raft(w), outputs));
    lemma_happened_stays(cl.history, s, s2);
    assert forall|n: NodeId| #[trigger] stepped.nodes.contains_key(n) implies c2.members.contains(n)
        && stepped.nodes[n] == NodeModel::Raft(c2.nodes[n]) by {
        if n != id {
            assert(cl.nodes.contains_key(n));
        }
    }
    assert(stepped.nodes.dom() =~= cl.nodes.dom());
    lemma_check_passes(stepped, c2, s2);
    let checked = stepped.check();
    // The outputs.
    law_writes_come_first(v, input);
    assert forall|i: int| 0 <= i < outputs.len() implies !((#[trigger] outputs[i]) is Echo) by {
        let j = lemma_output_from_action(actions, outputs[i]);
    }
    assert(requests_alone(outputs)) by {
        assert forall|i: int, j: int|
            0 <= i < outputs.len() && 0 <= j < outputs.len() && (#[trigger] outputs[i]) is
                RequestSnapshot implies !is_write(#[trigger] outputs[j]) by {
            let k = lemma_output_from_action(actions, outputs[i]);
            let l = lemma_output_from_action(actions, outputs[j]);
            assert(actions[k] is RequestSnapshot);
            assert(!(actions[l] is Persist));
        }
    }
    lemma_outputs_asking(actions);
    lemma_input_durable(cl.storage(id), s, s2, id, v, input, b);
    assert(checked.storage(id) == cl.storage(id));
    lemma_drained(checked, tick, id, outputs, outputs.len() as int);
    assert(outputs.take(outputs.len() as int) =~= outputs);
    let dv = DrainView::start(checked).drain_all(tick, id, outputs);
    lemma_flushed(checked, dv, id, outputs, outputs.len() as int);
    let done = dv.flush(id);
    let cl2 = done.cluster;
    if done.follow_ups.len() == 1 {
        let next = done.follow_ups[0];
        assert(answers(dv.follow_ups[0], outputs));
        match next {
            InputView::SnapshotTaken(snapshot) => {
                let asked = OutputView::RequestSnapshot {
                    last_included_index: snapshot.meta.last_included_index,
                    last_included_term: snapshot.meta.last_included_term,
                };
                let j = lemma_output_from_action(actions, asked);
                assert(asks_rightly(w, actions[j]));
            },
            InputView::SnapshotPersisted(meta) => {
                let snapshot = choose|snapshot: SnapshotView|
                    snapshot.meta == meta && #[trigger] outputs.contains(
                        OutputView::PersistSnapshot(snapshot),
                    );
                let j = lemma_output_from_action(actions, OutputView::PersistSnapshot(snapshot));
                assert(asks_rightly(w, actions[j]));
            },
            _ => {},
        }
    }
    assert forall|i: int| 0 <= i < cl2.network.queue.len() implies c2.sent.contains(
        envelope(#[trigger] cl2.network.queue[i]),
    ) by {
        let m = cl2.network.queue[i];
        assert(queued(checked, id, outputs, dv.cluster.network.queue[i]));
        if checked.network.queue.contains(m) {
            let j = choose|j: int| 0 <= j < cl.network.queue.len() && cl.network.queue[j] == m;
            assert(c.sent.contains(envelope(cl.network.queue[j])));
        } else {
            assert(sent_by(id, outputs).contains(envelope(m)));
        }
    }
    assert forall|n: NodeId| #[trigger] c2.members.contains(n) implies node_within(c2.nodes[n], more)
        && keeps_node(cl2.storage(n), c2.nodes[n]) by {
        if n != id {
            assert(node_within(c.nodes[n], b) && keeps_node(cl.storage(n), c.nodes[n]));
            assert(done.cluster.storage(n) == checked.storage(n));
            assert(checked.storage(n) == cl.storage(n));
        }
    }
    assert forall|e: Envelope| #[trigger] c2.sent.contains(e) implies rpc_within(e.rpc, more) by {
        if c.sent.contains(e) {
            lemma_rpc_within_more(e.rpc, b, more);
        } else {
            let j = lemma_output_from_action(actions, OutputView::Send { to: e.to, rpc: e.rpc });
            assert(action_within(actions[j], more));
        }
    }
    assert forall|n: NodeId| #[trigger] cl2.nodes.contains_key(n) implies c2.members.contains(n)
        && cl2.nodes[n] == NodeModel::Raft(c2.nodes[n]) by {
        assert(stepped.nodes.contains_key(n));
    }
    (c2, s2)
}

/// One input handled.
proof fn lemma_handle(
    cl: ClusterView,
    c: Cluster,
    s: System,
    b: nat,
    tick: u64,
    id: NodeId,
    input: InputView,
    depth: nat,
) -> (after: (Cluster, System))
    requires
        goes_with(cl, c, s, b),
        cl.violation is None,
        cl.nodes.contains_key(id) ==> may_get(c, id, input, b),
        b + further(input) + 6 < u64::MAX,
    ensures
        goes_with(
            handle::<RaftNode>(cl, tick, id, input, depth),
            after.0,
            after.1,
            b + further(input),
        ),
        handle::<RaftNode>(cl, tick, id, input, depth).violation is None,
        same_people(c, after.0),
        follows(s, after.1),
        handle::<RaftNode>(cl, tick, id, input, depth).nodes.dom() == cl.nodes.dom(),
    decreases depth,
{
    let more = b + further(input);
    if !cl.nodes.contains_key(id) {
        lemma_wider(cl, c, s, b, more);
        lemma_follows_same(s);
        (c, s)
    } else {
        let (c1, s1) = lemma_input(cl, c, s, b, tick, id, input);
        let (model, outputs) = RaftNode::next(cl.nodes[id], input);
        let stepped = ClusterView { nodes: cl.nodes.insert(id, model), ..cl }.check();
        let done = DrainView::start(stepped).drain_all(tick, id, outputs).flush(id);
        let next = done.follow_ups;
        let handled = handle::<RaftNode>(cl, tick, id, input, depth);
        assert(handled == handle_all::<RaftNode>(done.cluster, tick, id, next, depth));
        if depth == 0 || next.len() == 0 {
            assert(handled == done.cluster);
            (c1, s1)
        } else {
            let fewer = (depth - 1) as nat;
            assert(cl.nodes.dom().contains(id));
            assert(done.cluster.nodes.contains_key(id));
            let after = lemma_handle(done.cluster, c1, s1, more, tick, id, next[0], fewer);
            let told = handle::<RaftNode>(done.cluster, tick, id, next[0], fewer);
            assert(next.skip(1) =~= Seq::<InputView>::empty());
            assert(handle_all::<RaftNode>(told, tick, id, next.skip(1), depth) == told);
            assert(handled == told);
            lemma_follows_on(s, s1, after.1);
            after
        }
    }
}

/// The trace is no matter of safety, and fewer messages are none either.
pub proof fn lemma_same_but_trace(a: ClusterView, d: ClusterView, c: Cluster, s: System, b: nat)
    requires
        goes_with(a, c, s, b),
        d.nodes == a.nodes,
        d.storages == a.storages,
        d.history == a.history,
        d.violation is None || d.violation->0 is CascadeExceeded,
        forall|i: int|
            0 <= i < d.network.queue.len() ==> a.network.queue.contains(
                #[trigger] d.network.queue[i],
            ),
    ensures
        goes_with(d, c, s, b),
{
    assert forall|i: int| 0 <= i < d.network.queue.len() implies c.sent.contains(
        envelope(#[trigger] d.network.queue[i]),
    ) by {
        let m = d.network.queue[i];
        let j = choose|j: int| 0 <= j < a.network.queue.len() && a.network.queue[j] == m;
        assert(c.sent.contains(envelope(a.network.queue[j])));
    }
    assert forall|n: NodeId| #[trigger] c.members.contains(n) implies node_within(c.nodes[n], b)
        && keeps_node(d.storage(n), c.nodes[n]) by {
        assert(d.storage(n) == a.storage(n));
    }
}

/// Whom a cluster is made of, and whom each node knows, stays.
pub open spec fn same_people(c: Cluster, d: Cluster) -> bool {
    &&& d.members == c.members
    &&& forall|n: NodeId| #[trigger]
        c.members.contains(n) ==> d.nodes[n].peers == c.nodes[n].peers
}

/// Messages delivered.
proof fn lemma_deliver(cl: ClusterView, c: Cluster, s: System, b: nat, tick: u64, fuel: nat) -> (
    after: (Cluster, System))
    requires
        goes_with(cl, c, s, b),
        b + 2 * fuel + 6 < u64::MAX,
    ensures
        goes_with(deliver::<RaftNode>(cl, tick, fuel), after.0, after.1, b + 2 * fuel),
        same_people(c, after.0),
        follows(s, after.1),
        deliver::<RaftNode>(cl, tick, fuel).nodes.dom() == cl.nodes.dom(),
    decreases fuel,
{
    if cl.violation is Some || cl.network.queue.len() == 0 {
        lemma_wider(cl, c, s, b, b + 2 * fuel);
        lemma_follows_same(s);
        (c, s)
    } else {
        let m = cl.network.queue[0];
        assert(c.sent.contains(envelope(cl.network.queue[0])));
        let popped = ClusterView {
            network: NetworkView { queue: cl.network.queue.skip(1), ..cl.network },
            ..cl
        };
        if fuel == 0 {
            let broken = ClusterView {
                violation: Some(Violation::CascadeExceeded { limit: MAX_DELIVERIES_PER_TICK }),
                ..popped
            };
            lemma_same_but_trace(cl, broken, c, s, b);
            lemma_follows_same(s);
            (c, s)
        } else if !popped.nodes.contains_key(m.to) {
            let noted = popped.record(tick, TraceEventKind::Drop, Some(m.from), None);
            lemma_same_but_trace(cl, noted, c, s, b);
            let after = lemma_deliver(noted, c, s, b, tick, (fuel - 1) as nat);
            let done = deliver::<RaftNode>(noted, tick, (fuel - 1) as nat);
            lemma_wider(done, after.0, after.1, b + 2 * (fuel - 1) as nat, b + 2 * fuel);
            after
        } else {
            let noted = popped.record(tick, TraceEventKind::Deliver, Some(m.to), None);
            lemma_same_but_trace(cl, noted, c, s, b);
            let input = InputView::Message { from: m.from, rpc: m.rpc };
            let depth = FOLLOW_UP_DEPTH as nat;
            let (c1, s1) = lemma_handle(noted, c, s, b, tick, m.to, input, depth);
            let handled = handle::<RaftNode>(noted, tick, m.to, input, depth);
            let after = lemma_deliver(handled, c1, s1, b + 2, tick, (fuel - 1) as nat);
            assert(b + 2 + 2 * (fuel - 1) == b + 2 * fuel);
            lemma_follows_on(s, s1, after.1);
            after
        }
    }
}

/// The clock's tick handed to nodes.
proof fn lemma_tick_nodes(
    cl: ClusterView,
    c: Cluster,
    s: System,
    b: nat,
    tick: u64,
    ids: Seq<NodeId>,
) -> (after: (Cluster, System))
    requires
        goes_with(cl, c, s, b),
        b + 2 * ids.len() + 6 < u64::MAX,
        cl.violation is None,
    ensures
        goes_with(tick_nodes::<RaftNode>(cl, tick, ids), after.0, after.1, b + 2 * ids.len()),
        same_people(c, after.0),
        follows(s, after.1),
        tick_nodes::<RaftNode>(cl, tick, ids).nodes.dom() == cl.nodes.dom(),
        tick_nodes::<RaftNode>(cl, tick, ids).violation is None,
    decreases ids.len(),
{
    if ids.len() == 0 {
        lemma_follows_same(s);
        (c, s)
    } else {
        let fewer = ids.drop_last();
        let (c1, s1) = lemma_tick_nodes(cl, c, s, b, tick, fewer);
        let before = tick_nodes::<RaftNode>(cl, tick, fewer);
        let b1 = b + 2 * fewer.len();
        let noted = before.record(tick, TraceEventKind::NodeStep, Some(ids.last()), None);
        lemma_same_but_trace(before, noted, c1, s1, b1);
        let after = lemma_handle(
            noted,
            c1,
            s1,
            b1,
            tick,
            ids.last(),
            InputView::Tick,
            FOLLOW_UP_DEPTH as nat,
        );
        lemma_follows_on(s, s1, after.1);
        after
    }
}

/// How much further one tick can take a cluster of so many nodes.
pub open spec fn tick_reach(nodes: nat) -> nat {
    2 * nodes + 2 * MAX_DELIVERIES_PER_TICK as nat
}

/// One tick of the whole cluster.
proof fn lemma_tick_once(cl: ClusterView, c: Cluster, s: System, b: nat, tick: u64) -> (after: (
    Cluster,
    System,
))
    requires
        goes_with(cl, c, s, b),
        cl.violation is None,
        b + tick_reach(cl.nodes.dom().len()) + 6 < u64::MAX,
    ensures
        goes_with(
            tick_once::<RaftNode>(cl, tick),
            after.0,
            after.1,
            b + tick_reach(cl.nodes.dom().len()),
        ),
        same_people(c, after.0),
        follows(s, after.1),
        tick_once::<RaftNode>(cl, tick).nodes.dom() == cl.nodes.dom(),
{
    reveal(tick_once);
    let started = cl.record(tick, TraceEventKind::TickStart, None, None);
    lemma_same_but_trace(cl, started, c, s, b);
    let ids = keys_in_order(started.nodes);
    lemma_key_count(cl.nodes);
    let (c1, s1) = lemma_tick_nodes(started, c, s, b, tick, ids);
    let stepped = tick_nodes::<RaftNode>(started, tick, ids);
    let b1 = b + 2 * ids.len();
    let fuel = MAX_DELIVERIES_PER_TICK as nat;
    let (c2, s2) = lemma_deliver(stepped, c1, s1, b1, tick, fuel);
    let delivered = deliver::<RaftNode>(stepped, tick, fuel);
    let ended = delivered.record(tick, TraceEventKind::TickEnd, None, None);
    lemma_same_but_trace(delivered, ended, c2, s2, b1 + 2 * fuel);
    lemma_follows_on(s, s1, s2);
    (c2, s2)
}

proof fn lemma_key_count(nodes: Map<NodeId, NodeModel>)
    requires
        nodes.dom().finite(),
    ensures
        keys_in_order(nodes).len() == nodes.dom().len(),
{
    let ids = keys_in_order(nodes);
    lemma_u64_lt_total();
    lemma_sorted_list(nodes.dom(), u64_lt());
    assert(ids.no_duplicates()) by {
        assert forall|i: int, j: int| 0 <= i < j < ids.len() implies ids[i] != ids[j] by {
            assert(u64_lt()(ids[i], ids[j]));
        }
    }
    ids.unique_seq_to_set();
    assert(ids.to_set() =~= nodes.dom()) by {
        assert forall|n: NodeId| ids.to_set().contains(n) <==> nodes.dom().contains(n) by {
            assert(nodes.dom().contains(n) == ids.contains(n));
        }
    }
}

// ── Laws ────────────────────────────────────────────────────────────────────

/// The simulation is a history of a cluster whose terms and logs are not beyond
/// `b`, and it remembers the peers of the nodes that are down.
pub open spec fn is_sound_with(sim: SimView, c: Cluster, s: System, b: nat) -> bool {
    &&& goes_with(sim.cluster, c, s, b)
    &&& forall|n: NodeId| #[trigger]
        sim.down.contains_key(n) ==> c.members.contains(n) && sim.down[n] == c.nodes[n].peers
}

/// The simulation is a history of a cluster, and neither a term nor a log in it
/// is beyond `b`.
#[verifier::opaque]
pub open spec fn is_sound(sim: SimView, b: nat) -> bool {
    exists|c: Cluster, s: System| #[trigger] is_sound_with(sim, c, s, b)
}

/// A sound simulation has found nothing broken. At most a tick in which messages
/// never ended stopped it.
pub proof fn law_sound_simulations_find_nothing(sim: SimView, b: nat)
    requires
        is_sound(sim, b),
    ensures
        sim.cluster.violation is None || sim.cluster.violation->0 is CascadeExceeded,
{
    reveal(is_sound);
}

/// The nodes are fresh and know each other.
pub open spec fn are_fresh(nodes: Map<NodeId, NodeModel>) -> bool {
    &&& nodes.dom().finite()
    &&& forall|n: NodeId| #[trigger]
        nodes.contains_key(n) ==> {
            &&& nodes[n] is Raft
            &&& nodes[n]->Raft_0.is_fresh(n)
            &&& nodes[n]->Raft_0.knows(nodes.dom())
        }
}

/// The cluster behind a simulation of fresh nodes.
pub proof fn lemma_start(seed: u64, models: Seq<NodeModel>) -> (start: (Cluster, System))
    requires
        are_fresh(models_by_id::<RaftNode>(models)),
    ensures
        is_sound_with(sim_start::<RaftNode>(seed, models), start.0, start.1, 0),
        start.0.members == models_by_id::<RaftNode>(models).dom(),
{
    let nodes = models_by_id::<RaftNode>(models);
    let sim = sim_start::<RaftNode>(seed, models);
    let c = Cluster {
        members: nodes.dom(),
        nodes: nodes.map_values(|m: NodeModel| m->Raft_0),
        sent: Set::empty(),
        applied: Set::empty(),
    };
    assert(c.nodes.dom() =~= c.members);
    assert(c.is_initial());
    let s = started(c);
    lemma_started(c);
    assert forall|n: NodeId| #[trigger] c.members.contains(n) implies node_within(c.nodes[n], 0)
        && keeps_node(sim.cluster.storage(n), c.nodes[n]) by {
        assert(nodes.contains_key(n));
        let v = c.nodes[n];
        let store = MemoryView::empty();
        assert(sim.cluster.storage(n) == store);
        law_records_round_trip(Seq::empty());
        assert(op_records(Seq::<LogOpView>::empty()) =~= Seq::<u8>::empty());
        let d = stored_in(store);
        assert(d.ops == Seq::<LogOpView>::empty());
        assert(entries_after(d.ops) =~= Seq::<LogEntryView>::empty());
        reveal(Seq::filter);
        assert(from_index(entries_after(d.ops), 1) =~= v.log.entries);
    }
    assert(is_sound_with(sim, c, s, 0));
    (c, s)
}

/// A simulation of fresh nodes is sound.
pub proof fn law_simulation_starts_sound(seed: u64, models: Seq<NodeModel>)
    requires
        are_fresh(models_by_id::<RaftNode>(models)),
    ensures
        is_sound(sim_start::<RaftNode>(seed, models), 0),
{
    reveal(is_sound);
    let (c, s) = lemma_start(seed, models);
}

/// A sound simulation after some ticks.
pub proof fn lemma_run(sim: SimView, c: Cluster, s: System, b: nat, ticks: nat) -> (after: (
    Cluster,
    System,
))
    requires
        is_sound_with(sim, c, s, b),
        b + ticks * tick_reach(sim.cluster.nodes.dom().len()) + 6 < u64::MAX,
    ensures
        is_sound_with(
            sim_run::<RaftNode>(sim, ticks),
            after.0,
            after.1,
            b + ticks * tick_reach(sim.cluster.nodes.dom().len()),
        ),
        same_people(c, after.0),
        follows(s, after.1),
        sim_run::<RaftNode>(sim, ticks).cluster.nodes.dom() == sim.cluster.nodes.dom(),
        sim_run::<RaftNode>(sim, ticks).down == sim.down,
    decreases ticks,
{
    reveal(sim_run);
    let reach = tick_reach(sim.cluster.nodes.dom().len());
    if ticks > 0 {
        let fewer = (ticks - 1) as nat;
        assert(fewer * reach + reach == ticks * reach) by (nonlinear_arith)
            requires
                fewer + 1 == ticks,
        ;
        let (c1, s1) = lemma_run(sim, c, s, b, fewer);
        let before = sim_run::<RaftNode>(sim, fewer);
        let b1 = b + fewer * reach;
        let after = sim_run::<RaftNode>(sim, ticks);
        if before.cluster.violation is Some {
            lemma_wider(before.cluster, c1, s1, b1, b1 + reach);
            (c1, s1)
        } else {
            let (c2, s2) = lemma_tick_once(before.cluster, c1, s1, b1, before.tick);
            lemma_follows_on(s, s1, s2);
            assert forall|n: NodeId| #[trigger] after.down.contains_key(n) implies
                c2.members.contains(n) && after.down[n] == c2.nodes[n].peers by {
                assert(before.down.contains_key(n));
                assert(c1.members.contains(n));
            }
            (c2, s2)
        }
    } else {
        assert(0 * reach == 0) by (nonlinear_arith);
        lemma_follows_same(s);
        (c, s)
    }
}

/// Running a sound simulation keeps it sound, as far as numbers reach.
pub proof fn law_running_stays_sound(sim: SimView, b: nat, ticks: nat)
    requires
        is_sound(sim, b),
        b + ticks * tick_reach(sim.cluster.nodes.dom().len()) + 6 < u64::MAX,
    ensures
        is_sound(
            sim_run::<RaftNode>(sim, ticks),
            b + ticks * tick_reach(sim.cluster.nodes.dom().len()),
        ),
{
    reveal(is_sound);
    let (c, s) = choose|c: Cluster, s: System| #[trigger] is_sound_with(sim, c, s, b);
    let (c2, s2) = lemma_run(sim, c, s, b, ticks);
}

/// What may be handed to a node of a simulation from outside.
pub open spec fn may_hand(input: InputView) -> bool {
    match input {
        InputView::Tick => true,
        InputView::ClientCommand(command) => small_command(command),
        InputView::ClientCommands(commands) => forall|i: int|
            0 <= i < commands.len() ==> small_command(#[trigger] commands[i]),
        _ => false,
    }
}

/// How much further an input can take a simulation.
pub open spec fn step_reach(input: InputView) -> nat {
    commands_in(input) + 2 + 2 * MAX_DELIVERIES_PER_TICK as nat
}

/// A sound simulation after an input from outside.
pub proof fn lemma_sim_step(
    sim: SimView,
    c: Cluster,
    s: System,
    b: nat,
    id: NodeId,
    input: InputView,
) -> (after: (Cluster, System))
    requires
        is_sound_with(sim, c, s, b),
        may_hand(input),
        b + step_reach(input) + 6 < u64::MAX,
    ensures
        is_sound_with(
            sim_step::<RaftNode>(sim, id, input),
            after.0,
            after.1,
            b + step_reach(input),
        ),
        same_people(c, after.0),
        follows(s, after.1),
        sim_step::<RaftNode>(sim, id, input).cluster.nodes.dom() == sim.cluster.nodes.dom(),
        sim_step::<RaftNode>(sim, id, input).down == sim.down,
{
    reveal(sim_step);
    let fuel = MAX_DELIVERIES_PER_TICK as nat;
    let b1 = b + commands_in(input) + 2;
    let after = sim_step::<RaftNode>(sim, id, input);
    if sim.cluster.violation is Some || !sim.cluster.nodes.contains_key(id) {
        lemma_wider(sim.cluster, c, s, b, b1 + 2 * fuel);
        lemma_follows_same(s);
        (c, s)
    } else {
        let depth = FOLLOW_UP_DEPTH as nat;
        let (c1, s1) = lemma_handle(sim.cluster, c, s, b, sim.tick, id, input, depth);
        let handled = handle::<RaftNode>(sim.cluster, sim.tick, id, input, depth);
        let (c2, s2) = lemma_deliver(handled, c1, s1, b1, sim.tick, fuel);
        lemma_follows_on(s, s1, s2);
        assert forall|n: NodeId| #[trigger] after.down.contains_key(n) implies
            c2.members.contains(n) && after.down[n] == c2.nodes[n].peers by {
            assert(sim.down.contains_key(n));
            assert(c.members.contains(n));
            assert(c1.members.contains(n));
        }
        (c2, s2)
    }
}

/// Handing a tick or commands to a node of a sound simulation keeps it sound.
pub proof fn law_stepping_stays_sound(sim: SimView, b: nat, id: NodeId, input: InputView)
    requires
        is_sound(sim, b),
        may_hand(input),
        b + step_reach(input) + 6 < u64::MAX,
    ensures
        is_sound(sim_step::<RaftNode>(sim, id, input), b + step_reach(input)),
{
    reveal(is_sound);
    let (c, s) = choose|c: Cluster, s: System| #[trigger] is_sound_with(sim, c, s, b);
    let (c2, s2) = lemma_sim_step(sim, c, s, b, id, input);
}

/// A sound simulation after a crash.
pub proof fn lemma_crash(sim: SimView, c: Cluster, s: System, b: nat, id: NodeId)
    requires
        is_sound_with(sim, c, s, b),
    ensures
        is_sound_with(sim.crash(id), c, s, b),
        sim.cluster.nodes.contains_key(id) ==> sim.crash(id).cluster.nodes.dom()
            == sim.cluster.nodes.dom().remove(id) && sim.crash(id).down.dom()
            == sim.down.dom().insert(id),
{
    reveal(SimView::crash);
    let after = sim.crash(id);
    if sim.cluster.nodes.contains_key(id) {
        assert(c.members.contains(id));
        assert forall|n: NodeId| #[trigger] c.members.contains(n) implies node_within(
            c.nodes[n],
            b,
        ) && keeps_node(after.cluster.storage(n), c.nodes[n]) by {
            assert(after.cluster.storage(n) == sim.cluster.storage(n));
        }
        assert forall|n: NodeId| #[trigger] after.cluster.nodes.contains_key(n) implies
            c.members.contains(n) && after.cluster.nodes[n] == NodeModel::Raft(c.nodes[n]) by {
            assert(sim.cluster.nodes.contains_key(n));
        }
        assert(after.cluster.nodes.dom() =~= sim.cluster.nodes.dom().remove(id));
        assert(after.down.dom() =~= sim.down.dom().insert(id));
    }
}

/// A crash keeps a simulation sound.
pub proof fn law_crashing_stays_sound(sim: SimView, b: nat, id: NodeId)
    requires
        is_sound(sim, b),
    ensures
        is_sound(sim.crash(id), b),
{
    reveal(is_sound);
    let (c, s) = choose|c: Cluster, s: System| #[trigger] is_sound_with(sim, c, s, b);
    lemma_crash(sim, c, s, b, id);
}

/// What a restart of a node would find is what the node goes by, with its log
/// trimmed to its snapshot.
pub proof fn lemma_recovered(sim: SimView, c: Cluster, s: System, b: nat, id: NodeId)
    requires
        is_sound_with(sim, c, s, b),
        c.members.contains(id),
    ensures
        sim.recovered(id) is Some ==> sim.recovered(id)->0 == (RecoveredView {
            hard_state: c.nodes[id].hard_state(),
            log: trimmed(c.nodes[id].log, c.nodes[id].snapshot),
            snapshot: c.nodes[id].snapshot,
        }),
        sim.cluster.storages.contains_key(id) ==> sim.recovered(id) is Some,
{
    let v = c.nodes[id];
    let store = sim.cluster.storage(id);
    assert(node_within(v, b) && keeps_node(store, v));
    law_restart_finds_the_node(v, stored_in(store));
}

/// A node that came back with its log trimmed to its snapshot is kept by its store.
proof fn lemma_trimmed(v: NodeView, store: MemoryView, b: nat)
    requires
        node_within(v, b),
        keeps_node(store, v),
    ensures
        log_within(trimmed(v.log, v.snapshot), b),
        forall|w: NodeView|
            w.log == trimmed(v.log, v.snapshot) && w.snapshot == v.snapshot && w.hard_state()
                == v.hard_state() ==> #[trigger] keeps_node(store, w),
{
    let d = stored_in(store);
    if let Some(snapshot) = v.snapshot {
        let index = snapshot.meta.last_included_index;
        let term = snapshot.meta.last_included_term;
        if v.log.holds(index) {
            lemma_compact_within(v.log, index, term, b);
            lemma_compacted(v.log, entries_after(d.ops), index, term);
        }
    }
}

/// A sound simulation after a restart.
#[verifier::rlimit(40)]
pub proof fn lemma_restart(sim: SimView, c: Cluster, s: System, b: nat, id: NodeId) -> (after: (
    Cluster,
    System,
))
    requires
        is_sound_with(sim, c, s, b),
    ensures
        is_sound_with(sim.restart(id), after.0, after.1, b),
        same_people(c, after.0),
        follows(s, after.1),
        sim.can_restart(id) ==> sim.restart(id).cluster.nodes.dom()
            == sim.cluster.nodes.dom().insert(id) && sim.restart(id).down.dom()
            == sim.down.dom().remove(id),
        !sim.can_restart(id) ==> sim.restart(id) == sim,
{
    reveal(SimView::restart);
    let after = sim.restart(id);
    if !sim.can_restart(id) {
        lemma_follows_same(s);
        (c, s)
    } else {
        assert(c.members.contains(id));
        let v = c.nodes[id];
        lemma_recovered(sim, c, s, b, id);
        assert(node_within(v, b) && keeps_node(sim.cluster.storage(id), v));
        law_restart_finds_the_node(v, stored_in(sim.cluster.storage(id)));
        let recovered = sim.recovered(id)->0;
        let rng = NodeRngView::of_seed(node_seed(sim.seed ^ next_up(sim.boots), id));
        let event = Event::Restart { n: id, rng, recovered };
        assert(c.allows(event));
        let s2 = lemma_event(c, s, event);
        let c2 = c.after(event);
        lemma_happened_stays(sim.cluster.history, s, s2);
        lemma_trimmed(v, sim.cluster.storage(id), b);
        let cl2 = after.cluster;
        assert(cl2.nodes.dom() =~= sim.cluster.nodes.dom().insert(id));
        assert(after.down.dom() =~= sim.down.dom().remove(id));
        assert forall|n: NodeId| #[trigger] cl2.nodes.contains_key(n) implies c2.members.contains(n)
            && cl2.nodes[n] == NodeModel::Raft(c2.nodes[n]) by {
            if n != id {
                assert(sim.cluster.nodes.contains_key(n));
            }
        }
        assert forall|n: NodeId| #[trigger] c2.members.contains(n) implies node_within(
            c2.nodes[n],
            b,
        ) && keeps_node(cl2.storage(n), c2.nodes[n]) by {
            assert(c.members.contains(n));
            assert(cl2.storage(n) == sim.cluster.storage(n));
            if n == id {
                assert(node_within(c2.nodes[id], b));
                assert(keeps_node(sim.cluster.storage(id), c2.nodes[id]));
            } else {
                assert(c2.nodes[n] == c.nodes[n]);
            }
        }
        assert forall|n: NodeId| #[trigger] after.down.contains_key(n) implies c2.members.contains(
            n,
        ) && after.down[n] == c2.nodes[n].peers by {
            assert(sim.down.contains_key(n));
        }
        (c2, s2)
    }
}

/// A restart keeps a simulation sound: the node comes back with the term, the
/// vote and the log it had.
pub proof fn law_restarting_stays_sound(sim: SimView, b: nat, id: NodeId)
    requires
        is_sound(sim, b),
    ensures
        is_sound(sim.restart(id), b),
{
    reveal(is_sound);
    let (c, s) = choose|c: Cluster, s: System| #[trigger] is_sound_with(sim, c, s, b);
    let (c2, s2) = lemma_restart(sim, c, s, b, id);
}

/// Isolating nodes and connecting them again keeps a simulation sound: the
/// network may drop whatever it likes.
pub proof fn law_isolating_stays_sound(sim: SimView, b: nat, isolated: Set<NodeId>)
    requires
        is_sound(sim, b),
    ensures
        is_sound(
            SimView {
                cluster: ClusterView {
                    network: NetworkView { isolated, ..sim.cluster.network },
                    ..sim.cluster
                },
                ..sim
            },
            b,
        ),
{
    reveal(is_sound);
    let (c, s) = choose|c: Cluster, s: System| #[trigger] is_sound_with(sim, c, s, b);
    let after = SimView {
        cluster: ClusterView {
            network: NetworkView { isolated, ..sim.cluster.network },
            ..sim.cluster
        },
        ..sim
    };
    lemma_same_but_trace(sim.cluster, after.cluster, c, s, b);
    assert(is_sound_with(after, c, s, b));
}

} // verus!
