//! The state machines of a cluster: whoever applied the same number of entries
//! holds the same keys and sessions, whether it applied the entries itself or
//! started from a snapshot.

use vstd::prelude::*;

use crate::config::NodeId;
use crate::kv::laws::{apply_all, kv_fits, law_snapshot_restores};
use crate::kv::{kv_bytes, kv_of, KvView};
use crate::raft::driver::{InputView, OutputView};
use crate::raft::election::ActionView;
use crate::raft::laws::{
    applied_of, entries_between, installs, law_applies_in_order, lemma_output_from_action,
    lemma_output_of_action,
};
use crate::raft::log::LogEntryView;
use crate::raft::replication::told_commit;
use crate::raft::safety::cluster::{is_history, Cluster, Envelope, Event};
use crate::raft::safety::consistency::{
    commit_ok, committed, holds, law_leader_completeness, lemma_agree_less, lemma_agree_trans,
    lemma_commit_ok_grows, node_ok, note_ok, record_ok,
};
use crate::raft::safety::handlers::lemma_others_are_peers;
use crate::raft::safety::laws::{
    follows, lemma_event, lemma_follows_on, lemma_follows_same, lemma_started, started,
};
use crate::raft::safety::protocol::{agree, Core, Record, System};
use crate::raft::safety::refinement::{
    keeps, lemma_node_log, lemma_shows, mirrors, refines, rpc_ok, whole,
};
use crate::raft::snapshot::SnapshotView;
use crate::raft::state::RaftState;
use crate::raft::{catch_up_all, InstallSnapshotView, NodeView, RpcView};

verus! {

/// The store after applying the entries one after another.
pub open spec fn kv_after(entries: Seq<LogEntryView>) -> KvView {
    apply_all(KvView::empty(), entries)
}

/// The store after what a driver feeds it of one output.
pub open spec fn fed_one(kv: KvView, output: OutputView) -> KvView {
    match output {
        OutputView::Apply(entry) => kv.apply(entry).0,
        OutputView::ApplySnapshot(snapshot) => match kv_of(snapshot.data) {
            Ok(restored) => restored,
            Err(_) => kv,
        },
        _ => kv,
    }
}

/// The store after what a driver feeds it of the outputs, in order.
pub open spec fn fed(kv: KvView, outputs: Seq<OutputView>) -> KvView
    decreases outputs.len(),
{
    if outputs.len() == 0 {
        kv
    } else {
        fed_one(fed(kv, outputs.drop_last()), outputs.last())
    }
}

/// The store of a node that restarts: what its snapshot holds.
pub open spec fn restored(snapshot: Option<SnapshotView>) -> KvView {
    match snapshot {
        Some(s) => match kv_of(s.data) {
            Ok(kv) => kv,
            Err(_) => KvView::empty(),
        },
        None => KvView::empty(),
    }
}

/// A snapshot that is taken holds the store as it is, up to the last applied
/// entry, and one that is installed covers everything that was applied.
pub open spec fn feeds(cl: Cluster, stores: Map<NodeId, KvView>, event: Event) -> bool {
    match event {
        Event::Input { n, input } => match input {
            InputView::SnapshotTaken(snapshot) => cl.nodes[n].may_compact_to(
                snapshot.meta.last_included_index,
            ) ==> {
                &&& snapshot.meta.last_included_index == cl.nodes[n].last_applied
                &&& snapshot.data == kv_bytes(stores[n])
                &&& kv_fits(stores[n])
            },
            InputView::Message { from, rpc } => match rpc {
                RpcView::InstallSnapshot(m) => m.last_included_index >= cl.nodes[n].last_applied
                    || m.last_included_index <= cl.nodes[n].log.last_included_index(),
                _ => true,
            },
            _ => true,
        },
        Event::Restart { .. } => true,
    }
}

/// The stores after the event.
pub open spec fn stores_after(
    cl: Cluster,
    stores: Map<NodeId, KvView>,
    event: Event,
) -> Map<NodeId, KvView> {
    match event {
        Event::Input { n, input } => stores.insert(
            n,
            fed(stores[n], cl.nodes[n].step(input).1),
        ),
        Event::Restart { n, rng, recovered } => stores.insert(n, restored(recovered.snapshot)),
    }
}

/// A history in which every node has a store that its driver feeds.
pub open spec fn is_fed_history(
    states: Seq<Cluster>,
    stores: Seq<Map<NodeId, KvView>>,
    events: Seq<Event>,
) -> bool {
    &&& is_history(states, events)
    &&& stores.len() == states.len()
    &&& forall|n: NodeId| #[trigger]
        states[0].members.contains(n) ==> stores[0][n] == KvView::empty()
    &&& forall|i: int|
        0 <= i < events.len() ==> feeds(states[i], stores[i], #[trigger] events[i]) && stores[i + 1]
            == stores_after(states[i], stores[i], events[i])
}

// ── Committed entries agree ─────────────────────────────────────────────────

/// Whoever knows entries to be committed knows the same ones.
pub proof fn lemma_committed_agree(
    r: Record,
    members: Set<NodeId>,
    a: Seq<LogEntryView>,
    j: nat,
    t: u64,
    b: Seq<LogEntryView>,
    k: nat,
    u: u64,
    i: nat,
)
    requires
        members.finite(),
        record_ok(r, members),
        commit_ok(r, members, a, j, t),
        commit_ok(r, members, b, k, u),
        i <= j,
        i <= k,
    ensures
        agree(a, b, i),
{
    if i == 0 {
        assert(a.take(0) =~= b.take(0));
    } else {
        let (t1, x) = choose|t1: u64, x: nat| #[trigger]
            committed(r, members, t1, x) && j <= x && t1 <= t && agree(a, r.leader_logs[t1], j);
        let (t2, y) = choose|t2: u64, y: nat| #[trigger]
            committed(r, members, t2, y) && k <= y && t2 <= u && agree(b, r.leader_logs[t2], k);
        let la = r.leader_logs[t1];
        let lb = r.leader_logs[t2];
        if t1 < t2 {
            law_leader_completeness(r, members, t1, x, t2);
            lemma_agree_less(lb, la, x, i);
            lemma_agree_trans(lb, la, la, i, i);
        } else if t2 < t1 {
            law_leader_completeness(r, members, t2, y, t1);
            lemma_agree_less(la, lb, y, i);
        }
        assert(agree(la, lb, i));
        lemma_agree_less(a, la, j, i);
        lemma_agree_less(b, lb, k, i);
        lemma_agree_trans(b, lb, lb, i, i);
        lemma_agree_trans(a, la, lb, i, i);
        lemma_agree_trans(a, lb, b, i, i);
    }
}

// ── Feeding ─────────────────────────────────────────────────────────────────

proof fn lemma_fed_entries(kv: KvView, outputs: Seq<OutputView>)
    requires
        !installs(outputs),
    ensures
        fed(kv, outputs) == apply_all(kv, applied_of(outputs)),
    decreases outputs.len(),
{
    if outputs.len() > 0 {
        let before = outputs.drop_last();
        assert(!installs(before)) by {
            if installs(before) {
                let i = choose|i: int|
                    0 <= i < before.len() && (#[trigger] before[i]) is ApplySnapshot;
                assert(outputs[i] is ApplySnapshot);
            }
        }
        assert(!(outputs[outputs.len() - 1] is ApplySnapshot));
        lemma_fed_entries(kv, before);
        if let OutputView::Apply(entry) = outputs.last() {
            assert(applied_of(before).push(entry).drop_last() =~= applied_of(before));
        }
    }
}

proof fn lemma_fold_continues(log: Seq<LogEntryView>, from: nat, to: nat)
    requires
        from <= to <= log.len(),
    ensures
        apply_all(kv_after(log.take(from as int)), log.subrange(from as int, to as int)) == kv_after(
            log.take(to as int),
        ),
    decreases to - from,
{
    let more = log.subrange(from as int, to as int);
    if from < to {
        lemma_fold_continues(log, from, (to - 1) as nat);
        assert(more.drop_last() =~= log.subrange(from as int, to - 1));
        assert(log.take(to as int).drop_last() =~= log.take(to - 1));
    }
}

/// Where the only thing fed is a snapshot, the store is what it holds.
proof fn lemma_fed_snapshot(kv: KvView, outputs: Seq<OutputView>, data: Seq<u8>)
    requires
        kv_of(data) is Ok,
        forall|j: int| 0 <= j < outputs.len() ==> only_snapshot(#[trigger] outputs[j], data),
    ensures
        installs(outputs) ==> fed(kv, outputs) == kv_of(data)->Ok_0,
        !installs(outputs) ==> fed(kv, outputs) == kv,
    decreases outputs.len(),
{
    if outputs.len() > 0 {
        let before = outputs.drop_last();
        assert forall|j: int| 0 <= j < before.len() implies only_snapshot(
            #[trigger] before[j],
            data,
        ) by {
            assert(before[j] == outputs[j]);
        }
        lemma_fed_snapshot(kv, before, data);
        assert(only_snapshot(outputs[outputs.len() - 1], data));
        if installs(before) {
            let i = choose|i: int|
                0 <= i < before.len() && (#[trigger] before[i]) is ApplySnapshot;
            assert(outputs[i] is ApplySnapshot);
        }
        if installs(outputs) && !(outputs.last() is ApplySnapshot) {
            let i = choose|i: int|
                0 <= i < outputs.len() && (#[trigger] outputs[i]) is ApplySnapshot;
            assert(before[i] is ApplySnapshot);
        }
    }
}

/// The output feeds nothing, or the snapshot.
spec fn only_snapshot(output: OutputView, data: Seq<u8>) -> bool {
    match output {
        OutputView::Apply(_) => false,
        OutputView::ApplySnapshot(snapshot) => snapshot.data == data,
        _ => true,
    }
}

// ── What nodes do with snapshots ────────────────────────────────────────────

/// The effect neither installs nor sends a snapshot.
spec fn plain(action: ActionView) -> bool {
    match action {
        ActionView::ApplySnapshot(_) => false,
        ActionView::Send { to, rpc } => !(rpc is InstallSnapshot),
        _ => true,
    }
}

spec fn all_plain(actions: Seq<ActionView>) -> bool {
    forall|i: int| 0 <= i < actions.len() ==> plain(#[trigger] actions[i])
}

/// The effect sends at most the node's own snapshot.
spec fn sends_own(v: NodeView, action: ActionView) -> bool {
    match action {
        ActionView::ApplySnapshot(_) => false,
        ActionView::Send { to, rpc } => match rpc {
            RpcView::InstallSnapshot(m) => {
                &&& v.state == RaftState::Leader
                &&& v.snapshot is Some
                &&& m.term == v.current_term
                &&& m.last_included_index == v.snapshot->0.meta.last_included_index
                &&& m.data == v.snapshot->0.data
            },
            _ => true,
        },
        _ => true,
    }
}

proof fn lemma_catch_up_sends(v: NodeView, peers: Seq<NodeId>)
    requires
        v.state == RaftState::Leader,
    ensures
        forall|i: int|
            0 <= i < catch_up_all(v, peers).len() ==> sends_own(
                v,
                #[trigger] catch_up_all(v, peers)[i],
            ),
    decreases peers.len(),
{
    if peers.len() > 0 {
        let before = catch_up_all(v, peers.drop_last());
        let more = v.catch_up(peers.last());
        lemma_catch_up_sends(v, peers.drop_last());
        assert forall|i: int| 0 <= i < catch_up_all(v, peers).len() implies sends_own(
            v,
            #[trigger] catch_up_all(v, peers)[i],
        ) by {
            if i < before.len() {
                assert(catch_up_all(v, peers)[i] == before[i]);
            } else {
                assert(catch_up_all(v, peers)[i] == more[i - before.len()]);
            }
        }
    }
}

proof fn lemma_applies_plain(v: NodeView)
    ensures
        all_plain(v.apply_committed().1),
        v.apply_committed().0.snapshot == v.snapshot,
    decreases u64::MAX - v.last_applied,
{
    let next = crate::raft::log::next_up(v.last_applied);
    if v.last_applied < v.commit_index && v.log.holds(next) {
        lemma_applies_plain(NodeView { last_applied: next, ..v });
    }
}

/// A new leader takes every member to be up to date, so it sends no snapshot.
proof fn lemma_promotion_plain(v: NodeView)
    requires
        v.log.last_included_index() < v.log.next_index(),
    ensures
        all_plain(v.become_leader().1),
{
    let leader = v.become_leader().0;
    let actions = v.become_leader().1;
    assert forall|i: int| 0 <= i < actions.len() implies plain(#[trigger] actions[i]) by {
        if i >= 2 {
            let p = leader.others()[i - 2];
            assert(leader.others().contains(p));
            lemma_others_are_peers(leader, p);
            assert(actions[i] == leader.send_update(p));
            assert(leader.next_for(p) == v.log.next_index());
        }
    }
}

/// A leader that tells all members sends its own snapshot at most.
proof fn lemma_broadcast_sends(v: NodeView)
    requires
        v.state == RaftState::Leader,
    ensures
        forall|i: int| 0 <= i < v.broadcast().len() ==> sends_own(v, #[trigger] v.broadcast()[i]),
{
    assert forall|i: int| 0 <= i < v.broadcast().len() implies sends_own(
        v,
        #[trigger] v.broadcast()[i],
    ) by {
        assert(v.broadcast()[i] == v.send_update(v.others()[i]));
    }
}

/// What commands from a client do with snapshots.
proof fn lemma_commands_send(v: NodeView, commands: Seq<Seq<u8>>)
    ensures
        forall|i: int|
            0 <= i < v.append_and_replicate(commands).1.len() ==> sends_own(
                v,
                #[trigger] v.append_and_replicate(commands).1[i],
            ),
{
    let (w, actions) = v.append_and_replicate(commands);
    if v.state == RaftState::Leader {
        lemma_broadcast_sends(w);
        assert forall|i: int| 0 <= i < actions.len() implies sends_own(v, #[trigger] actions[i]) by {
            if i >= 1 {
                assert(actions[i] == w.broadcast()[i - 1]);
                assert(sends_own(w, w.broadcast()[i - 1]));
            }
        }
    }
}

/// What an input other than a snapshot does with snapshots: at most a leader
/// sends its own.
proof fn lemma_plain_input(v: NodeView, input: InputView)
    requires
        v.log.last_included_index() < v.log.next_index(),
        match input {
            InputView::Message { from, rpc } => !(rpc is InstallSnapshot),
            _ => true,
        },
    ensures
        forall|i: int|
            0 <= i < v.act(input).1.len() ==> sends_own(v, #[trigger] v.act(input).1[i]),
        !(input is SnapshotTaken) ==> v.act(input).0.snapshot == v.snapshot,
        (exists|i: int| 0 <= i < v.act(input).1.len() && !plain(#[trigger] v.act(input).1[i]))
            ==> v.act(input).0.state == v.state && v.act(input).0.current_term == v.current_term,
{
    match input {
        InputView::Tick => {
            if v.state == RaftState::Leader {
                let ticked = NodeView {
                    heartbeat_ticks: crate::raft::log::next_down(v.heartbeat_ticks),
                    ..v
                };
                lemma_catch_up_sends(ticked, ticked.others());
                let rest = catch_up_all(ticked, ticked.others());
                let due = v.snapshot_due();
                if ticked.heartbeat_ticks == 0 {
                    let beaten = NodeView { heartbeat_ticks: v.heartbeat_interval_ticks, ..v };
                    lemma_broadcast_sends(beaten);
                    assert forall|i: int| 0 <= i < v.act(input).1.len() implies sends_own(
                        v,
                        #[trigger] v.act(input).1[i],
                    ) by {
                        if i >= due.len() {
                            assert(v.act(input).1[i] == beaten.broadcast()[i - due.len()]);
                            assert(sends_own(beaten, beaten.broadcast()[i - due.len()]));
                        }
                    }
                } else {
                    assert forall|i: int| 0 <= i < v.act(input).1.len() implies sends_own(
                        v,
                        #[trigger] v.act(input).1[i],
                    ) by {
                        if i >= due.len() {
                            assert(v.act(input).1[i] == rest[i - due.len()]);
                            assert(sends_own(ticked, rest[i - due.len()]));
                        }
                    }
                }
            } else {
                let candidate = NodeView { election: v.election.ticked(), ..v }.candidacy();
                lemma_promotion_plain(candidate);
                let effects = seq![ActionView::Persist(candidate.hard_state())]
                    + candidate.canvass();
                let promotion = candidate.become_leader().1;
                assert forall|i: int| 0 <= i < v.act(input).1.len() implies plain(
                    #[trigger] v.act(input).1[i],
                ) by {
                    if i >= effects.len() {
                        assert(v.act(input).1[i] == promotion[i - effects.len()]);
                    }
                }
            }
        },
        InputView::Message { from, rpc } => {
            match rpc {
                RpcView::RequestVoteResponse(m) => {
                    lemma_promotion_plain(v.with_vote(from));
                },
                RpcView::AppendEntries(m) => {
                    let follower = v.adopt_term(m.term).0.follow(m.leader_id);
                    let log = follower.log.append_from_leader(m.entries).0;
                    let merged = NodeView { log, ..follower };
                    let committed = NodeView {
                        commit_index: told_commit(merged.commit_index, m.leader_commit, merged.log.last_index()),
                        ..merged
                    };
                    lemma_applies_plain(committed);
                },
                RpcView::AppendEntriesResponse(m) => {
                    let acked = v.acknowledge(from, m.match_index);
                    lemma_applies_plain(NodeView { commit_index: acked.advanced_commit(), ..acked });
                },
                _ => {},
            }
            assert(all_plain(v.act(input).1));
        },
        InputView::ClientCommand(command) => lemma_commands_send(v, seq![command]),
        InputView::ClientCommands(commands) => lemma_commands_send(v, commands),
        _ => {
            assert(all_plain(v.act(input).1));
        },
    }
}

/// What a whole snapshot from a leader does.
proof fn lemma_snapshot_input(v: NodeView, from: NodeId, m: InstallSnapshotView)
    requires
        v.pending_snapshot is None,
        m.offset == 0,
        m.done,
    ensures
        ({
            let (w, outputs) = v.step(
                InputView::Message { from, rpc: RpcView::InstallSnapshot(m) },
            );
            &&& forall|j: int| 0 <= j < outputs.len() ==> only_snapshot(#[trigger] outputs[j], m.data)
            &&& forall|j: int|
                0 <= j < outputs.len() ==> match (#[trigger] outputs[j]) {
                    OutputView::Send { to, rpc } => !(rpc is InstallSnapshot),
                    _ => true,
                }
            &&& installs(outputs) ==> {
                &&& m.last_included_index > v.log.last_included_index()
                &&& w.snapshot == Some(SnapshotView { meta: m.meta(), data: m.data })
                &&& w.last_applied == if v.last_applied >= m.last_included_index {
                    v.last_applied
                } else {
                    m.last_included_index
                }
                &&& w.commit_index >= m.last_included_index
            }
            &&& !installs(outputs) ==> w.snapshot == v.snapshot && w.last_applied == v.last_applied
        }),
{
    let input = InputView::Message { from, rpc: RpcView::InstallSnapshot(m) };
    let (w, outputs) = v.step(input);
    let actions = v.act(input).1;
    let (adopted, adoption) = v.adopt_term(m.term);
    let follower = adopted.follow(m.leader_id);
    assert forall|j: int| 0 <= j < outputs.len() implies only_snapshot(#[trigger] outputs[j], m.data)
        && match outputs[j] {
        OutputView::Send { to, rpc } => !(rpc is InstallSnapshot),
        _ => true,
    } by {
        let i = lemma_output_from_action(actions, outputs[j]);
        assert(actions[i] == actions[i]);
    }
    if m.term < adopted.current_term || m.last_included_index
        <= follower.log.last_included_index() {
        if installs(outputs) {
            let j = choose|j: int|
                0 <= j < outputs.len() && (#[trigger] outputs[j]) is ApplySnapshot;
            let i = lemma_output_from_action(actions, outputs[j]);
            assert(actions[i] is ApplySnapshot);
        }
    } else {
        let snapshot = SnapshotView { meta: m.meta(), data: m.data };
        assert(follower.with_chunk(m)->0.data == m.data);
        assert(actions[actions.len() - 2] == ActionView::ApplySnapshot(snapshot));
        lemma_output_of_action(actions, actions.len() - 2);
        let j = choose|j: int|
            0 <= j < outputs.len() && outputs[j] == OutputView::ApplySnapshot(snapshot);
        assert(outputs[j] is ApplySnapshot);
    }
}

// ── Stores and logs ─────────────────────────────────────────────────────────

/// The node's store is what its log makes of it up to the last applied entry,
/// and so is its snapshot up to its boundary.
spec fn store_ok(c: Core, v: NodeView, kv: KvView) -> bool {
    &&& kv == kv_after(c.log.take(v.last_applied as int))
    &&& match v.snapshot {
        Some(snapshot) => holds_store(
            snapshot.data,
            c.log.take(snapshot.meta.last_included_index as int),
        ),
        None => true,
    }
}

/// The bytes hold what the entries make of a store.
spec fn holds_store(data: Seq<u8>, entries: Seq<LogEntryView>) -> bool {
    data == kv_bytes(kv_after(entries)) && kv_fits(kv_after(entries))
}

/// A snapshot on its way holds what the offered entries make of a store.
spec fn snapshot_sent(s: System, e: Envelope) -> bool {
    match e.rpc {
        RpcView::InstallSnapshot(m) => exists|entries: Seq<LogEntryView>|
            entries.len() == m.last_included_index && holds_store(m.data, entries)
                && #[trigger] s.notes.contains(whole(e.from, m.term, entries)),
        _ => true,
    }
}

spec fn stores_ok(cl: Cluster, stores: Map<NodeId, KvView>, s: System) -> bool {
    &&& forall|n: NodeId| #[trigger]
        s.members.contains(n) ==> store_ok(s.nodes[n], cl.nodes[n], stores[n])
    &&& forall|e: Envelope| #[trigger] cl.sent.contains(e) ==> snapshot_sent(s, e)
}

proof fn lemma_take_agrees(a: Seq<LogEntryView>, b: Seq<LogEntryView>, i: nat, k: nat)
    requires
        agree(a, b, i),
        k <= i,
    ensures
        a.take(k as int) == b.take(k as int),
{
    lemma_agree_less(a, b, i, k);
}

proof fn lemma_holds_store_decodes(data: Seq<u8>, entries: Seq<LogEntryView>)
    requires
        holds_store(data, entries),
    ensures
        kv_of(data) is Ok,
        kv_of(data)->Ok_0 == kv_after(entries),
{
    law_snapshot_restores(kv_after(entries), Seq::empty());
    assert(data + Seq::<u8>::empty() =~= data);
}

/// A node's store after an input that brings no snapshot.
proof fn lemma_store_plain(s: System, s2: System, n: NodeId, v: NodeView, kv: KvView, input: InputView)
    requires
        holds(s),
        holds(s2),
        s.members.contains(n),
        s2.members == s.members,
        keeps(s, s2, n),
        mirrors(s.members, n, s.nodes[n], v),
        mirrors(s.members, n, s2.nodes[n], v.step(input).0),
        store_ok(s.nodes[n], v, kv),
        match input {
            InputView::Message { from, rpc } => !(rpc is InstallSnapshot),
            InputView::SnapshotTaken(snapshot) => v.may_compact_to(
                snapshot.meta.last_included_index,
            ) ==> {
                &&& snapshot.meta.last_included_index == v.last_applied
                &&& snapshot.data == kv_bytes(kv)
                &&& kv_fits(kv)
            },
            _ => true,
        },
    ensures
        store_ok(s2.nodes[n], v.step(input).0, fed(kv, v.step(input).1)),
{
    let c = s.nodes[n];
    let d = s2.nodes[n];
    let (w, outputs) = v.step(input);
    let actions = v.act(input).1;
    lemma_plain_input(v, input);
    assert(!installs(outputs)) by {
        if installs(outputs) {
            let j = choose|j: int|
                0 <= j < outputs.len() && (#[trigger] outputs[j]) is ApplySnapshot;
            let i = lemma_output_from_action(actions, outputs[j]);
            assert(sends_own(v, actions[i]));
        }
    }
    law_applies_in_order(v, input);
    lemma_fed_entries(kv, outputs);
    lemma_node_log(s, n);
    lemma_node_log(s2, n);
    lemma_shows(d.log, w.log);
    assert(agree(c.log, d.log, c.commit));
    lemma_take_agrees(c.log, d.log, c.commit, v.last_applied as nat);
    crate::raft::laws::law_applied_never_falls(v, input);
    let more = d.log.subrange(v.last_applied as int, w.last_applied as int);
    assert(entries_between(w.log, v.last_applied, w.last_applied) =~= more) by {
        assert forall|i: int| 0 <= i < more.len() implies entries_between(
            w.log,
            v.last_applied,
            w.last_applied,
        )[i] == #[trigger] more[i] by {
            let k = (v.last_applied + 1 + i) as u64;
            assert(w.log.holds(k));
        }
    }
    lemma_fold_continues(d.log, v.last_applied as nat, w.last_applied as nat);
    if let Some(snapshot) = v.snapshot {
        lemma_take_agrees(c.log, d.log, c.commit, snapshot.meta.last_included_index as nat);
    }
}

/// A node's store after a snapshot from a leader.
proof fn lemma_store_snapshot(
    s: System,
    s2: System,
    n: NodeId,
    v: NodeView,
    kv: KvView,
    from: NodeId,
    m: InstallSnapshotView,
)
    requires
        holds(s),
        holds(s2),
        s.members.contains(n),
        s2.members == s.members,
        s.notes.subset_of(s2.notes),
        keeps(s, s2, n),
        mirrors(s.members, n, s.nodes[n], v),
        mirrors(
            s.members,
            n,
            s2.nodes[n],
            v.step(InputView::Message { from, rpc: RpcView::InstallSnapshot(m) }).0,
        ),
        store_ok(s.nodes[n], v, kv),
        rpc_ok(s, from, n, RpcView::InstallSnapshot(m)),
        snapshot_sent(s, (Envelope { from, to: n, rpc: RpcView::InstallSnapshot(m) })),
        m.last_included_index >= v.last_applied || m.last_included_index
            <= v.log.last_included_index(),
    ensures
        store_ok(
            s2.nodes[n],
            v.step(InputView::Message { from, rpc: RpcView::InstallSnapshot(m) }).0,
            fed(kv, v.step(InputView::Message { from, rpc: RpcView::InstallSnapshot(m) }).1),
        ),
{
    let (w, outputs) = v.step(InputView::Message { from, rpc: RpcView::InstallSnapshot(m) });
    let c = s.nodes[n];
    let d = s2.nodes[n];
    let e = Envelope { from, to: n, rpc: RpcView::InstallSnapshot(m) };
    let entries = choose|entries: Seq<LogEntryView>|
        entries.len() == m.last_included_index && holds_store(m.data, entries)
            && #[trigger] s.notes.contains(whole(e.from, m.term, entries));
    let note = whole(from, m.term, entries);
    lemma_holds_store_decodes(m.data, entries);
    lemma_snapshot_input(v, from, m);
    lemma_fed_snapshot(kv, outputs, m.data);
    lemma_node_log(s, n);
    lemma_node_log(s2, n);
    assert(agree(c.log, d.log, c.commit));
    lemma_take_agrees(c.log, d.log, c.commit, v.last_applied as nat);
    if let Some(snapshot) = v.snapshot {
        lemma_take_agrees(c.log, d.log, c.commit, snapshot.meta.last_included_index as nat);
    }
    if installs(outputs) {
        assert(s2.notes.contains(note));
        assert(note_ok(s2.record, s2.members, note));
        let leader = s2.record.leader_logs[m.term];
        let index = m.last_included_index as nat;
        lemma_committed_agree(
            s2.record,
            s2.members,
            leader,
            index,
            m.term,
            d.log,
            d.commit,
            d.term,
            index,
        );
        assert(leader.take(index as int) =~= entries);
        assert(d.log.take(index as int) == entries);
    }
}

/// Whatever happens, stores go with logs.
proof fn lemma_stores_step(
    cl: Cluster,
    stores: Map<NodeId, KvView>,
    s: System,
    event: Event,
) -> (s2: System)
    requires
        refines(cl, s),
        holds(s),
        stores_ok(cl, stores, s),
        cl.allows(event),
        feeds(cl, stores, event),
    ensures
        follows(s, s2),
        refines(cl.after(event), s2),
        stores_ok(cl.after(event), stores_after(cl, stores, event), s2),
{
    let s2 = lemma_event(cl, s, event);
    let cl2 = cl.after(event);
    let after = stores_after(cl, stores, event);
    match event {
        Event::Input { n, input } => {
            let v = cl.nodes[n];
            let (w, outputs) = v.step(input);
            let kv = stores[n];
            assert(mirrors(s.members, n, s.nodes[n], v));
            assert(mirrors(s2.members, n, s2.nodes[n], cl2.nodes[n]));
            assert(store_ok(s.nodes[n], v, kv));
            assert(keeps(s, s2, n));
            let brings = match input {
                InputView::Message { from, rpc } => rpc is InstallSnapshot,
                _ => false,
            };
            if brings {
                let from = input->from;
                let m = input->rpc->InstallSnapshot_0;
                let e = Envelope { from, to: n, rpc: input->rpc };
                assert(cl.sent.contains(e));
                assert(rpc_ok(s, e.from, e.to, e.rpc));
                assert(snapshot_sent(s, e));
                lemma_store_snapshot(s, s2, n, v, kv, from, m);
                lemma_snapshot_input(v, from, m);
            } else {
                lemma_store_plain(s, s2, n, v, kv, input);
                lemma_plain_input(v, input);
            }
            assert forall|p: NodeId| #[trigger] s2.members.contains(p) implies store_ok(
                s2.nodes[p],
                cl2.nodes[p],
                after[p],
            ) by {
                if p != n {
                    assert(store_ok(s.nodes[p], cl.nodes[p], stores[p]));
                    assert(s2.nodes[p] == s.nodes[p]);
                }
            }
            assert forall|e: Envelope| #[trigger] cl2.sent.contains(e) implies snapshot_sent(
                s2,
                e,
            ) by {
                if cl.sent.contains(e) {
                    lemma_sent_stays(s, s2, e);
                } else if let RpcView::InstallSnapshot(m) = e.rpc {
                    let output = OutputView::Send { to: e.to, rpc: e.rpc };
                    assert(outputs.contains(output));
                    let j = choose|j: int| 0 <= j < outputs.len() && outputs[j] == output;
                    let i = lemma_output_from_action(v.act(input).1, output);
                    assert(!brings) by {
                        if brings {
                            assert(outputs[j] is Send);
                        }
                    }
                    assert(sends_own(v, v.act(input).1[i]));
                    assert(!plain(v.act(input).1[i]));
                    assert(rpc_ok(s2, e.from, e.to, e.rpc));
                    lemma_new_snapshot_sent(s2, n, cl2.nodes[n], after[n], e.to, m);
                }
            }
            s2
        },
        Event::Restart { n, rng, recovered } => {
            let v = cl.nodes[n];
            let c = s.nodes[n];
            let d = s2.nodes[n];
            let w = cl2.nodes[n];
            assert(mirrors(s.members, n, c, v));
            assert(mirrors(s2.members, n, d, w));
            assert(store_ok(c, v, stores[n]));
            assert(keeps(s, s2, n));
            lemma_node_log(s, n);
            assert(agree(c.log, d.log, c.commit));
            match v.snapshot {
                Some(snapshot) => {
                    let index = snapshot.meta.last_included_index as nat;
                    lemma_take_agrees(c.log, d.log, c.commit, index);
                    lemma_holds_store_decodes(snapshot.data, c.log.take(index as int));
                    assert(w.last_applied == index);
                },
                None => {
                    assert(w.last_applied == 0);
                    assert(d.log.take(0) =~= Seq::empty());
                },
            }
            assert forall|p: NodeId| #[trigger] s2.members.contains(p) implies store_ok(
                s2.nodes[p],
                cl2.nodes[p],
                after[p],
            ) by {
                if p != n {
                    assert(store_ok(s.nodes[p], cl.nodes[p], stores[p]));
                    assert(s2.nodes[p] == s.nodes[p]);
                }
            }
            assert forall|e: Envelope| #[trigger] cl2.sent.contains(e) implies snapshot_sent(
                s2,
                e,
            ) by {
                lemma_sent_stays(s, s2, e);
            }
            s2
        },
    }
}

proof fn lemma_sent_stays(s: System, s2: System, e: Envelope)
    requires
        snapshot_sent(s, e),
        s.notes.subset_of(s2.notes),
    ensures
        snapshot_sent(s2, e),
{
    if let RpcView::InstallSnapshot(m) = e.rpc {
        let entries = choose|entries: Seq<LogEntryView>|
            entries.len() == m.last_included_index && holds_store(m.data, entries)
                && #[trigger] s.notes.contains(whole(e.from, m.term, entries));
        assert(s2.notes.contains(whole(e.from, m.term, entries)));
    }
}

/// A leader's snapshot, when it is sent, goes with the entries it stands for.
proof fn lemma_new_snapshot_sent(
    s: System,
    n: NodeId,
    w: NodeView,
    kv: KvView,
    to: NodeId,
    m: InstallSnapshotView,
)
    requires
        holds(s),
        s.members.contains(n),
        mirrors(s.members, n, s.nodes[n], w),
        store_ok(s.nodes[n], w, kv),
        rpc_ok(s, n, to, RpcView::InstallSnapshot(m)),
        w.state == RaftState::Leader,
        w.current_term == m.term,
        w.snapshot is Some,
        w.snapshot->0.meta.last_included_index == m.last_included_index,
        w.snapshot->0.data == m.data,
    ensures
        snapshot_sent(s, (Envelope { from: n, to, rpc: RpcView::InstallSnapshot(m) })),
{
    let c = s.nodes[n];
    let entries = choose|entries: Seq<LogEntryView>|
        entries.len() == m.last_included_index && entries.last().term == m.last_included_term
            && #[trigger] s.notes.contains(whole(n, m.term, entries));
    let note = whole(n, m.term, entries);
    assert(note_ok(s.record, s.members, note));
    assert(node_ok(s.record, s.members, n, c));
    assert(c.log == s.record.leader_logs[m.term]);
    assert(entries =~= c.log.take(m.last_included_index as int));
}

// ── Law ─────────────────────────────────────────────────────────────────────

spec fn fed_with(
    states: Seq<Cluster>,
    stores: Seq<Map<NodeId, KvView>>,
    systems: Seq<System>,
) -> bool {
    &&& systems.len() == states.len()
    &&& forall|i: int|
        0 <= i < states.len() ==> holds(#[trigger] systems[i]) && refines(states[i], systems[i])
            && stores_ok(states[i], stores[i], systems[i])
    &&& forall|i: int, j: int|
        0 <= i <= j < states.len() ==> #[trigger] follows(systems[i], systems[j])
}

proof fn lemma_fed_history(
    states: Seq<Cluster>,
    stores: Seq<Map<NodeId, KvView>>,
    events: Seq<Event>,
) -> (systems: Seq<System>)
    requires
        is_fed_history(states, stores, events),
    ensures
        fed_with(states, stores, systems),
    decreases events.len(),
{
    if events.len() == 0 {
        let s = started(states[0]);
        lemma_started(states[0]);
        lemma_follows_same(s);
        assert(stores_ok(states[0], stores[0], s)) by {
            assert forall|n: NodeId| #[trigger] s.members.contains(n) implies store_ok(
                s.nodes[n],
                states[0].nodes[n],
                stores[0][n],
            ) by {
                assert(states[0].members.contains(n));
                assert(states[0].nodes[n].is_fresh(n));
                assert(s.nodes[n].log.take(0) =~= Seq::empty());
            }
        }
        seq![s]
    } else {
        let k = events.len() - 1;
        let before = states.drop_last();
        let fewer = events.drop_last();
        assert(is_fed_history(before, stores.drop_last(), fewer)) by {
            assert forall|i: int| 0 <= i < fewer.len() implies before[i].allows(#[trigger] fewer[i])
                && before[i + 1] == before[i].after(fewer[i]) by {
                assert(fewer[i] == events[i]);
            }
            assert forall|i: int| 0 <= i < fewer.len() implies feeds(
                before[i],
                stores.drop_last()[i],
                #[trigger] fewer[i],
            ) && stores.drop_last()[i + 1] == stores_after(
                before[i],
                stores.drop_last()[i],
                fewer[i],
            ) by {
                assert(fewer[i] == events[i]);
            }
        }
        let old = lemma_fed_history(before, stores.drop_last(), fewer);
        assert(holds(old[k]) && refines(before[k], old[k]));
        assert(states[k].allows(events[k]));
        assert(feeds(states[k], stores[k], events[k]));
        let s2 = lemma_stores_step(states[k], stores[k], old[k], events[k]);
        let systems = old.push(s2);
        lemma_follows_same(s2);
        assert forall|i: int, j: int| 0 <= i <= j < states.len() implies #[trigger] follows(
            systems[i],
            systems[j],
        ) by {
            if j == k + 1 {
                if i <= k {
                    assert(follows(old[i], old[k]));
                    lemma_follows_on(old[i], old[k], s2);
                }
            } else {
                assert(follows(old[i], old[j]));
            }
        }
        assert forall|i: int| 0 <= i < states.len() implies holds(#[trigger] systems[i])
            && refines(states[i], systems[i]) && stores_ok(states[i], stores[i], systems[i]) by {
            if i <= k {
                assert(holds(old[i]));
                assert(before[i] == states[i]);
                assert(stores.drop_last()[i] == stores[i]);
            }
        }
        systems
    }
}

/// Replicas agree: whenever any two nodes have applied up to the same index,
/// their stores are the same. An installed snapshot takes the store's place, so
/// this is about histories in which none covers less than was applied.
pub proof fn law_replicas_agree(
    states: Seq<Cluster>,
    stores: Seq<Map<NodeId, KvView>>,
    events: Seq<Event>,
    i: int,
    n: NodeId,
    j: int,
    m: NodeId,
)
    requires
        is_fed_history(states, stores, events),
        0 <= i < states.len(),
        0 <= j < states.len(),
        states[i].members.contains(n),
        states[j].members.contains(m),
        states[i].nodes[n].last_applied == states[j].nodes[m].last_applied,
    ensures
        stores[i][n] == stores[j][m],
{
    let systems = lemma_fed_history(states, stores, events);
    let a = systems[i];
    let b = systems[j];
    assert(refines(states[i], a) && refines(states[j], b));
    assert(stores_ok(states[i], stores[i], a) && stores_ok(states[j], stores[j], b));
    let late = if i <= j {
        b
    } else {
        a
    };
    assert(follows(a, late) && follows(b, late)) by {
        assert(follows(a, a) && follows(b, b));
        if i <= j {
            assert(follows(a, b));
        } else {
            assert(follows(b, a));
        }
    }
    assert(mirrors(a.members, n, a.nodes[n], states[i].nodes[n]));
    assert(mirrors(b.members, m, b.nodes[m], states[j].nodes[m]));
    assert(store_ok(a.nodes[n], states[i].nodes[n], stores[i][n]));
    assert(store_ok(b.nodes[m], states[j].nodes[m], stores[j][m]));
    lemma_node_log(a, n);
    lemma_node_log(b, m);
    let c = a.nodes[n];
    let d = b.nodes[m];
    let r = late.record;
    lemma_commit_ok_grows(a.record, r, a.members, c.log, c.commit, c.term, c.term);
    lemma_commit_ok_grows(b.record, r, b.members, d.log, d.commit, d.term, d.term);
    let k = states[i].nodes[n].last_applied as nat;
    lemma_committed_agree(
        r,
        a.members,
        c.log,
        c.commit,
        c.term,
        d.log,
        d.commit,
        d.term,
        k,
    );
}

} // verus!
