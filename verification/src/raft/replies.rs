//! How leaders serve members and clients, and how followers answer.

use vstd::prelude::*;

use crate::config::NodeId;
use crate::raft::driver::{output_of, outputs_of, InputView, OutputView};
use crate::raft::duties::{
    lemma_members, lemma_output_present, lemma_outputs_map, lemma_tail, lists_once, members,
    tail_index,
};
use crate::raft::election::ActionView;
use crate::raft::laws::{lemma_applied_node, lemma_output_from_action};
use crate::raft::log::{LogEntryView, RaftLogView};
use crate::raft::replication::told_commit;
use crate::raft::state::RaftState;
use crate::raft::{catch_up_all, AppendEntriesView, InstallSnapshotView, NodeView, RpcView};

verus! {

// ── What a leader sends ─────────────────────────────────────────────────────

/// The term at `index`, where the log knows it: nothing stands at zero, a snapshot
/// leaves the term at its boundary, and entries have theirs.
pub open spec fn known_term(log: RaftLogView, index: int) -> Option<u64> {
    if index == 0 {
        Some(0)
    } else if index == log.start_index - 1 {
        Some(log.last_included_term)
    } else if log.start_index <= index <= tail_index(log) {
        Some(log.entries[index - log.start_index].term)
    } else {
        None
    }
}

/// The message that brings up to date a member that needs `next` next: all entries
/// from there on, behind the one before, or else the snapshot that covers it.
pub open spec fn update_from(v: NodeView, next: u64) -> RpcView {
    if next >= v.log.start_index {
        RpcView::AppendEntries(
            AppendEntriesView {
                term: v.current_term,
                leader_id: v.id,
                prev_log_index: (next - 1) as u64,
                prev_log_term: known_term(v.log, next - 1)->0,
                entries: v.log.entries.skip(next - v.log.start_index),
                leader_commit: v.commit_index,
            },
        )
    } else {
        let snapshot = v.snapshot->0;
        RpcView::InstallSnapshot(
            InstallSnapshotView {
                term: v.current_term,
                leader_id: v.id,
                last_included_index: snapshot.meta.last_included_index,
                last_included_term: snapshot.meta.last_included_term,
                offset: 0,
                data: snapshot.data,
                done: true,
            },
        )
    }
}

/// A leader that knows what each member needs next, and has a snapshot of what its
/// log does not reach back to.
pub open spec fn leads_well(v: NodeView) -> bool {
    &&& v.state == RaftState::Leader
    &&& lists_once(v)
    &&& v.log.proper()
    &&& forall|p: NodeId|
        p != v.id && #[trigger] members(v).contains(p) ==> v.next_index.contains_key(p) && 1
            <= v.next_index[p] <= tail_index(v.log) + 1
    &&& v.log.start_index > 1 ==> v.snapshot is Some
}

pub proof fn lemma_term_known(log: RaftLogView, index: u64)
    requires
        log.proper(),
    ensures
        log.term_at(index) == match known_term(log, index as int) {
            Some(term) => Ok::<u64, crate::raft::log::LogLookupError>(term),
            None => Err(log.missing(index)),
        },
{
}

/// What goes to a member on every broadcast.
proof fn lemma_update(v: NodeView, p: NodeId)
    requires
        leads_well(v),
        p != v.id,
        members(v).contains(p),
    ensures
        v.send_update(p) == (ActionView::Send { to: p, rpc: update_from(v, v.next_index[p]) }),
{
    let next = v.next_index[p];
    lemma_tail(v.log);
    if next >= v.log.start_index {
        lemma_term_known(v.log, (next - 1) as u64);
        assert(v.log.entries_from(next) =~= v.log.entries.skip(next - v.log.start_index));
        let m = v.append_entries_to(p);
        assert(m.prev_log_index == next - 1);
        assert(m.prev_log_term == known_term(v.log, next - 1)->0);
    }
}

/// The member at its place among the others.
proof fn lemma_place(v: NodeView, p: NodeId) -> (j: int)
    requires
        lists_once(v),
        p != v.id,
        members(v).contains(p),
    ensures
        0 <= j < v.others().len(),
        v.others()[j] == p,
{
    lemma_members(v);
    assert(v.others().to_set().contains(p));
    choose|j: int| 0 <= j < v.others().len() && v.others()[j] == p
}

/// A heartbeat goes to every other member when it is due, and it carries what the
/// member lacks. Until then the leader counts down.
pub proof fn law_heartbeats_reach_every_member(v: NodeView)
    requires
        leads_well(v),
    ensures
        ({
            let (w, outputs) = v.step(InputView::Tick);
            &&& w.log == v.log
            &&& w.current_term == v.current_term
            &&& w.state == RaftState::Leader
            &&& v.heartbeat_ticks <= 1 ==> {
                &&& w.heartbeat_ticks == v.heartbeat_interval_ticks
                &&& forall|p: NodeId|
                    p != v.id && #[trigger] members(v).contains(p) ==> outputs.contains(
                        OutputView::Send { to: p, rpc: update_from(v, v.next_index[p]) },
                    )
            }
            &&& v.heartbeat_ticks > 1 ==> w.heartbeat_ticks == v.heartbeat_ticks - 1
        }),
{
    let (w, actions) = v.act(InputView::Tick);
    if v.heartbeat_ticks <= 1 {
        assert(members(w) == members(v));
        assert(leads_well(w));
        assert(w.others() == v.others());
        assert forall|p: NodeId| p != v.id && #[trigger] members(v).contains(p) implies outputs_of(
            actions,
        ).contains(OutputView::Send { to: p, rpc: update_from(v, v.next_index[p]) }) by {
            let j = lemma_place(v, p);
            lemma_update(w, p);
            assert(update_from(w, w.next_index[p]) == update_from(v, v.next_index[p]));
            let k = v.snapshot_due().len() + j;
            assert(actions[k] == w.broadcast()[j]);
            lemma_output_present(actions, k);
        }
    }
}

proof fn lemma_catch_up_has(v: NodeView, peers: Seq<NodeId>, j: int) -> (k: int)
    requires
        0 <= j < peers.len(),
        v.catch_up(peers[j]).len() == 1,
    ensures
        0 <= k < catch_up_all(v, peers).len(),
        catch_up_all(v, peers)[k] == v.catch_up(peers[j])[0],
    decreases peers.len(),
{
    let before = catch_up_all(v, peers.drop_last());
    if j == peers.len() - 1 {
        before.len() as int
    } else {
        lemma_catch_up_has(v, peers.drop_last(), j)
    }
}

proof fn lemma_catch_up_from(v: NodeView, peers: Seq<NodeId>, k: int) -> (j: int)
    requires
        0 <= k < catch_up_all(v, peers).len(),
    ensures
        0 <= j < peers.len(),
        v.catch_up(peers[j]).contains(catch_up_all(v, peers)[k]),
    decreases peers.len(),
{
    let before = catch_up_all(v, peers.drop_last());
    let more = v.catch_up(peers.last());
    if k < before.len() {
        let j = lemma_catch_up_from(v, peers.drop_last(), k);
        assert(peers.drop_last()[j] == peers[j]);
        j
    } else {
        assert(catch_up_all(v, peers)[k] == more[k - before.len()]);
        assert(more.contains(more[k - before.len()]));
        peers.len() - 1
    }
}

/// Between heartbeats a leader sends to the members that lack something what they
/// lack, and nothing to the others.
pub proof fn law_lagging_members_are_served(v: NodeView, p: NodeId)
    requires
        leads_well(v),
        v.heartbeat_ticks > 1,
        p != v.id,
        members(v).contains(p),
    ensures
        ({
            let outputs = v.step(InputView::Tick).1;
            &&& v.next_index[p] <= tail_index(v.log) ==> outputs.contains(
                OutputView::Send { to: p, rpc: update_from(v, v.next_index[p]) },
            )
            &&& v.next_index[p] > tail_index(v.log) ==> forall|rpc: RpcView|
                !#[trigger] outputs.contains(OutputView::Send { to: p, rpc })
        }),
{
    let (w, actions) = v.act(InputView::Tick);
    assert(members(w) == members(v));
    assert(leads_well(w));
    assert(w.others() == v.others());
    lemma_tail(v.log);
    let due = v.snapshot_due();
    let rest = catch_up_all(w, w.others());
    assert(actions =~= due + rest);
    let j = lemma_place(v, p);
    if v.next_index[p] <= tail_index(v.log) {
        lemma_update(w, p);
        assert(update_from(w, w.next_index[p]) == update_from(v, v.next_index[p]));
        assert(w.catch_up(p).len() == 1);
        assert(w.catch_up(p)[0] == w.send_update(p));
        let k = lemma_catch_up_has(w, w.others(), j);
        assert(actions[due.len() + k] == rest[k]);
        lemma_output_present(actions, due.len() + k);
    } else {
        assert forall|rpc: RpcView| !#[trigger] outputs_of(
            actions,
        ).contains(OutputView::Send { to: p, rpc }) by {
            if outputs_of(actions).contains(OutputView::Send { to: p, rpc }) {
                let i = lemma_output_from_action(actions, OutputView::Send { to: p, rpc });
                assert(i >= due.len());
                assert(actions[i] == rest[i - due.len()]);
                let l = lemma_catch_up_from(w, w.others(), i - due.len());
                let q = w.others()[l];
                let n = choose|n: int|
                    0 <= n < w.catch_up(q).len() && w.catch_up(q)[n] == rest[i - due.len()];
                assert(w.catch_up(q)[n] == (ActionView::Send { to: p, rpc }));
                assert(q == p);
            }
        }
    }
}

/// A leader asks for a snapshot exactly when as many entries as the threshold were
/// applied since the last one, and for the state as of the last applied entry.
pub proof fn law_snapshot_is_asked_for_when_due(v: NodeView)
    requires
        v.state == RaftState::Leader,
        v.log.proper(),
        v.log.start_index - 1 <= v.last_applied <= tail_index(v.log),
    ensures
        ({
            let outputs = v.step(InputView::Tick).1;
            let due = v.compaction_threshold > 0 && v.last_applied - (v.log.start_index - 1)
                >= v.compaction_threshold;
            &&& due ==> outputs.contains(
                OutputView::RequestSnapshot {
                    last_included_index: v.last_applied,
                    last_included_term: known_term(v.log, v.last_applied as int)->0,
                },
            )
            &&& !due ==> forall|index: u64, term: u64|
                !#[trigger] outputs.contains(
                    OutputView::RequestSnapshot {
                        last_included_index: index,
                        last_included_term: term,
                    },
                )
        }),
{
    let (w, actions) = v.act(InputView::Tick);
    lemma_term_known(v.log, v.last_applied);
    if v.should_snapshot() {
        assert(actions[0] == v.request_snapshot());
        lemma_output_present(actions, 0);
    } else {
        assert forall|index: u64, term: u64| !#[trigger] outputs_of(
            actions,
        ).contains(
            OutputView::RequestSnapshot {
                last_included_index: index,
                last_included_term: term,
            },
        ) by {
            let asked = OutputView::RequestSnapshot {
                last_included_index: index,
                last_included_term: term,
            };
            if outputs_of(actions).contains(asked) {
                let i = lemma_output_from_action(actions, asked);
                let ticked = NodeView {
                    heartbeat_ticks: crate::raft::log::next_down(v.heartbeat_ticks),
                    ..v
                };
                if ticked.heartbeat_ticks == 0 {
                    assert(actions =~= w.broadcast());
                } else {
                    assert(actions =~= catch_up_all(w, w.others()));
                    let l = lemma_catch_up_from(w, w.others(), i);
                }
            }
        }
    }
}

// ── Clients ─────────────────────────────────────────────────────────────────

/// The entries that commands become behind the log of a leader of `term`.
pub open spec fn entries_behind(log: RaftLogView, term: u64, commands: Seq<Seq<u8>>) -> Seq<
    LogEntryView,
> {
    Seq::new(
        commands.len(),
        |i: int| LogEntryView {
            index: (tail_index(log) + 1 + i) as u64,
            term,
            command: commands[i],
        },
    )
}

/// A leader takes commands: it puts them behind its log in order, in its own term,
/// makes them durable, and then sends every other member what it lacks.
pub proof fn law_leader_takes_commands(v: NodeView, commands: Seq<Seq<u8>>)
    requires
        leads_well(v),
        commands.len() > 0,
        tail_index(v.log) + commands.len() + 2 < u64::MAX,
    ensures
        ({
            let (w, outputs) = v.step(InputView::ClientCommands(commands));
            let entries = entries_behind(v.log, v.current_term, commands);
            &&& w == (NodeView { log: w.log, ..v })
            &&& w.log.start_index == v.log.start_index
            &&& w.log.last_included_term == v.log.last_included_term
            &&& w.log.entries == v.log.entries + entries
            &&& outputs.len() == members(v).len()
            &&& outputs[0] == (OutputView::PersistLog { truncate_from: None, entries })
            &&& forall|p: NodeId|
                p != v.id && #[trigger] members(v).contains(p) ==> outputs.contains(
                    OutputView::Send { to: p, rpc: update_from(w, v.next_index[p]) },
                )
        }),
        commands.len() == 1 ==> v.step(InputView::ClientCommand(commands[0])) == v.step(
            InputView::ClientCommands(commands),
        ),
{
    let (w, actions) = v.act(InputView::ClientCommands(commands));
    let entries = entries_behind(v.log, v.current_term, commands);
    lemma_tail(v.log);
    lemma_members(v);
    assert(v.entries_for(commands) =~= entries);
    if commands.len() == 1 {
        assert(seq![commands[0]] =~= commands);
    }
    assert(members(w) == members(v));
    assert(w.log.proper()) by {
        assert forall|i: int| 0 <= i < w.log.entries.len() implies (
        #[trigger] w.log.entries[i]).index == w.log.start_index + i by {
            if i >= v.log.entries.len() {
                assert(w.log.entries[i] == entries[i - v.log.entries.len()]);
            } else {
                assert(w.log.entries[i] == v.log.entries[i]);
            }
        }
    }
    assert(leads_well(w));
    assert(w.others() == v.others());
    assert forall|i: int| 0 <= i < actions.len() implies output_of(#[trigger] actions[i]) is Some by {
        if i > 0 {
            assert(actions[i] == w.broadcast()[i - 1]);
            assert(w.broadcast()[i - 1] == w.send_update(w.others()[i - 1]));
        }
    }
    lemma_outputs_map(actions);
    assert(output_of(actions[0]) == Some(outputs_of(actions)[0]));
    assert forall|p: NodeId| p != v.id && #[trigger] members(v).contains(p) implies outputs_of(
        actions,
    ).contains(OutputView::Send { to: p, rpc: update_from(w, v.next_index[p]) }) by {
        let j = lemma_place(v, p);
        lemma_update(w, p);
        assert(actions[1 + j] == w.broadcast()[j]);
        lemma_output_present(actions, 1 + j);
    }
}

/// Nobody but a leader takes commands: any other node changes nothing and answers
/// with the leader it knows, and with nothing else.
pub proof fn law_others_redirect(v: NodeView, commands: Seq<Seq<u8>>)
    requires
        v.state != RaftState::Leader,
        commands.len() > 0,
    ensures
        v.step(InputView::ClientCommands(commands)) == (
            v,
            seq![OutputView::Redirect { leader_hint: v.leader_id }],
        ),
        v.step(InputView::ClientCommand(commands[0])) == (
            v,
            seq![OutputView::Redirect { leader_hint: v.leader_id }],
        ),
{
    let actions = seq![ActionView::RedirectLeader { leader_hint: v.leader_id }];
    lemma_outputs_map(actions);
    assert(output_of(actions[0]) == Some(outputs_of(actions)[0]));
    assert(outputs_of(actions) =~= seq![OutputView::Redirect { leader_hint: v.leader_id }]);
}

/// The node after inputs, one after another.
pub open spec fn after_inputs(v: NodeView, inputs: Seq<InputView>) -> NodeView
    decreases inputs.len(),
{
    if inputs.len() == 0 {
        v
    } else {
        after_inputs(v, inputs.drop_last()).step(inputs.last()).0
    }
}

/// The input is no message of another leader of `term`.
pub open spec fn names_no_other(input: InputView, term: u64, leader: NodeId) -> bool {
    match input {
        InputView::Message { from, rpc } => match rpc {
            RpcView::AppendEntries(m) => m.term == term ==> m.leader_id == leader,
            RpcView::InstallSnapshot(m) => m.term == term ==> m.leader_id == leader,
            _ => true,
        },
        _ => true,
    }
}

/// The leader's own message: AppendEntries or a part of a snapshot.
pub open spec fn leads_with(rpc: RpcView, term: u64, leader: NodeId) -> bool {
    match rpc {
        RpcView::AppendEntries(m) => m.term == term && m.leader_id == leader,
        RpcView::InstallSnapshot(m) => m.term == term && m.leader_id == leader,
        _ => false,
    }
}

proof fn lemma_keeps_leader(v: NodeView, input: InputView, term: u64, leader: NodeId)
    requires
        v.state == RaftState::Follower,
        v.leader_id == Some(leader),
        v.current_term == term < u64::MAX,
        names_no_other(input, term, leader),
        v.step(input).0.current_term == term,
    ensures
        v.step(input).0.state == RaftState::Follower,
        v.step(input).0.leader_id == Some(leader),
{
    if let InputView::Message { from, rpc } = input {
        if let RpcView::AppendEntries(m) = rpc {
            if m.term >= term {
                lemma_follows(v, from, m);
            }
        }
    }
}

/// What an AppendEntries of no earlier term makes of a node, but for its log.
proof fn lemma_follows(v: NodeView, from: NodeId, m: AppendEntriesView)
    requires
        m.term >= v.current_term,
    ensures
        ({
            let w = v.handle_append_entries_request(from, m).0;
            &&& w.state == RaftState::Follower
            &&& w.leader_id == Some(m.leader_id)
            &&& w.current_term == m.term
            &&& w.election.ticks_remaining == v.election.election_timeout_ticks
            &&& w.election.election_timeout_ticks == v.election.election_timeout_ticks
        }),
{
    let follower = v.adopt_term(m.term).0.follow(m.leader_id);
    let log = follower.log.append_from_leader(m.entries).0;
    let merged = NodeView { log, ..follower };
    let committed = NodeView {
        commit_index: told_commit(merged.commit_index, m.leader_commit, merged.log.last_index()),
        ..merged
    };
    lemma_applied_node(committed);
}

proof fn lemma_keeps_leader_all(v: NodeView, inputs: Seq<InputView>, term: u64, leader: NodeId)
    requires
        v.state == RaftState::Follower,
        v.leader_id == Some(leader),
        v.current_term == term < u64::MAX,
        forall|i: int|
            0 <= i < inputs.len() ==> names_no_other(#[trigger] inputs[i], term, leader),
        after_inputs(v, inputs).current_term == term,
    ensures
        after_inputs(v, inputs).state == RaftState::Follower,
        after_inputs(v, inputs).leader_id == Some(leader),
    decreases inputs.len(),
{
    if inputs.len() > 0 {
        let fewer = inputs.drop_last();
        let before = after_inputs(v, fewer);
        let last = inputs[inputs.len() - 1];
        crate::raft::laws::law_term_never_falls(before, last);
        lemma_terms_rise(v, fewer);
        assert forall|i: int| 0 <= i < fewer.len() implies names_no_other(
            #[trigger] fewer[i],
            term,
            leader,
        ) by {
            assert(fewer[i] == inputs[i]);
        }
        lemma_keeps_leader_all(v, fewer, term, leader);
        assert(names_no_other(last, term, leader));
        lemma_keeps_leader(before, last, term, leader);
    }
}

proof fn lemma_terms_rise(v: NodeView, inputs: Seq<InputView>)
    ensures
        after_inputs(v, inputs).current_term >= v.current_term,
    decreases inputs.len(),
{
    if inputs.len() > 0 {
        lemma_terms_rise(v, inputs.drop_last());
        crate::raft::laws::law_term_never_falls(
            after_inputs(v, inputs.drop_last()),
            inputs.last(),
        );
    }
}

/// Clients are sent to the leader: from the first AppendEntries or snapshot chunk
/// of a leader on, whatever else comes in, and until its term changes — by a later
/// term or by an election of its own — a node answers every client command with
/// exactly one output, which names that leader.
pub proof fn law_clients_are_sent_to_the_leader(
    v: NodeView,
    from: NodeId,
    rpc: RpcView,
    term: u64,
    leader: NodeId,
    inputs: Seq<InputView>,
    commands: Seq<Seq<u8>>,
)
    requires
        commands.len() > 0,
        v.current_term <= term < u64::MAX,
        leads_with(rpc, term, leader),
        forall|i: int|
            0 <= i < inputs.len() ==> names_no_other(#[trigger] inputs[i], term, leader),
        after_inputs(v.step(InputView::Message { from, rpc }).0, inputs).current_term == term,
    ensures
        ({
            let w = after_inputs(v.step(InputView::Message { from, rpc }).0, inputs);
            let redirected = (w, seq![OutputView::Redirect { leader_hint: Some(leader) }]);
            &&& w.step(InputView::ClientCommand(commands[0])) == redirected
            &&& w.step(InputView::ClientCommands(commands)) == redirected
        }),
{
    let follower = v.step(InputView::Message { from, rpc }).0;
    if let RpcView::AppendEntries(m) = rpc {
        lemma_follows(v, from, m);
    }
    assert(follower.state == RaftState::Follower);
    assert(follower.leader_id == Some(leader));
    assert(follower.current_term == term);
    lemma_keeps_leader_all(follower, inputs, term, leader);
    let w = after_inputs(follower, inputs);
    law_others_redirect(w, commands);
}

} // verus!
