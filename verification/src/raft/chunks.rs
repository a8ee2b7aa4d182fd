//! A snapshot that comes in chunks: whatever comes twice or at the wrong place,
//! what is installed is what was sent.

use vstd::prelude::*;

use crate::config::NodeId;
use crate::raft::election::ActionView;
use crate::raft::log::max_u64;
use crate::raft::snapshot::{PendingSnapshotView, SnapshotMeta, SnapshotView};
use crate::raft::{InstallSnapshotView, NodeView};

verus! {

/// The chunks, one behind the other.
pub open spec fn joined(chunks: Seq<Seq<u8>>) -> Seq<u8>
    decreases chunks.len(),
{
    if chunks.len() == 0 {
        Seq::empty()
    } else {
        joined(chunks.drop_last()) + chunks.last()
    }
}

/// A snapshot that a leader of `term` sends in chunks.
pub struct Transfer {
    pub term: u64,
    pub meta: SnapshotMeta,
    pub chunks: Seq<Seq<u8>>,
}

impl Transfer {
    /// Where the chunk at `k` starts.
    pub open spec fn offset(self, k: nat) -> nat {
        joined(self.chunks.take(k as int)).len()
    }

    /// The message is one of this snapshot.
    pub open spec fn is_of(self, m: InstallSnapshotView) -> bool {
        m.term == self.term && m.meta() == self.meta
    }

    /// The message carries the chunk at `k`. The last one is marked as such.
    pub open spec fn is_chunk(self, k: nat, m: InstallSnapshotView) -> bool {
        &&& k < self.chunks.len()
        &&& self.is_of(m)
        &&& m.offset == self.offset(k)
        &&& m.data == self.chunks[k as int]
        &&& m.done == (k == self.chunks.len() - 1)
    }

    /// How many chunks have come in their turn.
    pub open spec fn progress(self, messages: Seq<InstallSnapshotView>) -> nat
        decreases messages.len(),
    {
        if messages.len() == 0 {
            0
        } else {
            let k = self.progress(messages.drop_last());
            if self.is_chunk(k, messages.last()) {
                k + 1
            } else {
                k
            }
        }
    }

    /// What may come after `k` chunks: the next one, the last one again, or, until
    /// all have come, anything of the snapshot at another place.
    pub open spec fn may_come(self, k: nat, m: InstallSnapshotView) -> bool {
        ||| self.is_chunk(k, m)
        ||| k > 0 && self.is_chunk((k - 1) as nat, m)
        ||| k < self.chunks.len() && self.is_of(m) && m.offset != self.offset(k)
    }

    /// Messages of the snapshot, with repetitions and strays in between.
    pub open spec fn is_run(self, messages: Seq<InstallSnapshotView>) -> bool {
        forall|i: int|
            0 <= i < messages.len() ==> self.may_come(
                self.progress(messages.take(i)),
                #[trigger] messages[i],
            )
    }

    /// The snapshot as it was sent.
    pub open spec fn whole(self) -> SnapshotView {
        SnapshotView { meta: self.meta, data: joined(self.chunks) }
    }

    /// What a follower has put together after `k` chunks.
    pub open spec fn assembled(self, k: nat) -> Option<PendingSnapshotView> {
        if k == 0 || k == self.chunks.len() {
            None
        } else {
            Some(
                PendingSnapshotView {
                    meta: self.meta,
                    next_offset: self.offset(k) as u64,
                    data: joined(self.chunks.take(k as int)),
                },
            )
        }
    }
}

/// The node after the messages, one after another.
pub open spec fn after_messages(
    v: NodeView,
    from: NodeId,
    messages: Seq<InstallSnapshotView>,
) -> NodeView
    decreases messages.len(),
{
    if messages.len() == 0 {
        v
    } else {
        after_messages(v, from, messages.drop_last()).handle_install_snapshot_request(
            from,
            messages.last(),
        ).0
    }
}

/// The snapshots among the effects that are to be made durable.
pub open spec fn persisted_in(actions: Seq<ActionView>) -> Seq<SnapshotView>
    decreases actions.len(),
{
    if actions.len() == 0 {
        Seq::empty()
    } else {
        let rest = persisted_in(actions.drop_last());
        match actions.last() {
            ActionView::PersistSnapshot(snapshot) => rest.push(snapshot),
            _ => rest,
        }
    }
}

/// The snapshots among the effects that are handed to the state machine.
pub open spec fn installed_in(actions: Seq<ActionView>) -> Seq<SnapshotView>
    decreases actions.len(),
{
    if actions.len() == 0 {
        Seq::empty()
    } else {
        let rest = installed_in(actions.drop_last());
        match actions.last() {
            ActionView::ApplySnapshot(snapshot) => rest.push(snapshot),
            _ => rest,
        }
    }
}

/// The effects of the messages, one after another.
pub open spec fn effects_of(
    v: NodeView,
    from: NodeId,
    messages: Seq<InstallSnapshotView>,
) -> Seq<ActionView>
    decreases messages.len(),
{
    if messages.len() == 0 {
        Seq::empty()
    } else {
        let before = messages.drop_last();
        effects_of(v, from, before) + after_messages(
            v,
            from,
            before,
        ).handle_install_snapshot_request(from, messages.last()).1
    }
}

proof fn lemma_effects_add(a: Seq<ActionView>, b: Seq<ActionView>)
    ensures
        persisted_in(a + b) == persisted_in(a) + persisted_in(b),
        installed_in(a + b) == installed_in(a) + installed_in(b),
    decreases b.len(),
{
    if b.len() == 0 {
        assert(a + b =~= a);
        assert(persisted_in(a) + persisted_in(b) =~= persisted_in(a));
        assert(installed_in(a) + installed_in(b) =~= installed_in(a));
    } else {
        let fewer = b.drop_last();
        assert((a + b).drop_last() =~= a + fewer);
        lemma_effects_add(a, fewer);
        assert(persisted_in(a + b) =~= persisted_in(a) + persisted_in(b));
        assert(installed_in(a + b) =~= installed_in(a) + installed_in(b));
    }
}

/// Effects that are about no snapshot.
proof fn lemma_no_snapshot(actions: Seq<ActionView>)
    requires
        forall|i: int|
            0 <= i < actions.len() ==> !((#[trigger] actions[i]) is PersistSnapshot)
                && !(actions[i] is ApplySnapshot),
    ensures
        persisted_in(actions).len() == 0,
        installed_in(actions).len() == 0,
    decreases actions.len(),
{
    if actions.len() > 0 {
        lemma_no_snapshot(actions.drop_last());
        assert(!(actions[actions.len() - 1] is PersistSnapshot));
    }
}

proof fn lemma_one(action: ActionView)
    ensures
        persisted_in(seq![action]) == match action {
            ActionView::PersistSnapshot(snapshot) => seq![snapshot],
            _ => Seq::empty(),
        },
        installed_in(seq![action]) == match action {
            ActionView::ApplySnapshot(snapshot) => seq![snapshot],
            _ => Seq::empty(),
        },
{
    let none = Seq::<ActionView>::empty();
    assert(seq![action].drop_last() =~= none);
    assert(persisted_in(none) == Seq::<SnapshotView>::empty());
    assert(installed_in(none) == Seq::<SnapshotView>::empty());
    assert(seq![action].last() == action);
    match action {
        ActionView::PersistSnapshot(snapshot) => {
            assert(persisted_in(seq![action]) =~= seq![snapshot]);
        },
        ActionView::ApplySnapshot(snapshot) => {
            assert(installed_in(seq![action]) =~= seq![snapshot]);
        },
        _ => {},
    }
}

/// The effects of a snapshot that is installed hold it once.
proof fn lemma_install_effects(v: NodeView, snapshot: SnapshotView)
    ensures
        persisted_in(v.install_effects(snapshot)) == seq![snapshot],
        installed_in(v.install_effects(snapshot)) == seq![snapshot],
{
    let persist = ActionView::PersistSnapshot(snapshot);
    let apply = ActionView::ApplySnapshot(snapshot);
    let discard = if v.install_discards(snapshot.meta) {
        seq![
            ActionView::PersistLog {
                truncate_from: Some(snapshot.meta.last_included_index),
                entries: Seq::empty(),
            },
        ]
    } else {
        Seq::empty()
    };
    lemma_no_snapshot(discard);
    lemma_one(persist);
    lemma_one(apply);
    lemma_effects_add(seq![persist], discard);
    lemma_effects_add(seq![persist] + discard, seq![apply]);
    assert(v.install_effects(snapshot) == seq![persist] + discard + seq![apply]);
    assert(persisted_in(v.install_effects(snapshot)) =~= seq![snapshot]);
    assert(installed_in(v.install_effects(snapshot)) =~= seq![snapshot]);
}

/// Where the chunks start ascends.
proof fn lemma_offsets(t: Transfer, k: nat)
    requires
        k < t.chunks.len(),
    ensures
        joined(t.chunks.take((k + 1) as int)) == joined(t.chunks.take(k as int)) + t.chunks[k as int],
        t.offset(k + 1) == t.offset(k) + t.chunks[k as int].len(),
        t.offset(k + 1) <= joined(t.chunks).len(),
    decreases t.chunks.len() - k,
{
    assert(t.chunks.take((k + 1) as int).drop_last() =~= t.chunks.take(k as int));
    if k + 1 < t.chunks.len() {
        lemma_offsets(t, k + 1);
    } else {
        assert(t.chunks.take((k + 1) as int) =~= t.chunks);
    }
}

/// Where a follower stands after `k` chunks.
pub open spec fn has_come_to(t: Transfer, v: NodeView, w: NodeView, k: nat) -> bool {
    let index = t.meta.last_included_index;
    &&& w.current_term == v.current_term
    &&& w.pending_snapshot == t.assembled(k)
    &&& if k < t.chunks.len() {
        &&& w.log == v.log
        &&& w.commit_index == v.commit_index
        &&& w.last_applied == v.last_applied
        &&& w.snapshot == v.snapshot
    } else {
        &&& w.log == v.log.install_snapshot(index, t.meta.last_included_term)
        &&& w.commit_index == max_u64(v.commit_index, index)
        &&& w.last_applied == max_u64(v.last_applied, index)
        &&& w.snapshot == Some(t.whole())
    }
}

/// The follower may take the snapshot: it is in the leader's term, nothing is half
/// assembled, and the snapshot reaches beyond what its log starts from.
pub open spec fn awaits(t: Transfer, v: NodeView) -> bool {
    &&& t.chunks.len() > 0
    &&& joined(t.chunks).len() <= u64::MAX
    &&& t.meta.last_included_index < u64::MAX
    &&& v.current_term == t.term
    &&& v.pending_snapshot is None
    &&& v.log.start_index >= 1
    &&& t.meta.last_included_index > v.log.last_included_index()
}

/// One more message.
proof fn lemma_message(
    t: Transfer,
    v: NodeView,
    w: NodeView,
    k: nat,
    from: NodeId,
    m: InstallSnapshotView,
)
    requires
        awaits(t, v),
        k <= t.chunks.len(),
        has_come_to(t, v, w, k),
        t.may_come(k, m),
    ensures
        ({
            let (next, actions) = w.handle_install_snapshot_request(from, m);
            let after: nat = if t.is_chunk(k, m) {
                k + 1
            } else {
                k
            };
            let now: Seq<SnapshotView> = if k < t.chunks.len() && after == t.chunks.len() {
                seq![t.whole()]
            } else {
                Seq::empty()
            };
            &&& has_come_to(t, v, next, after)
            &&& persisted_in(actions) == now
            &&& installed_in(actions) == now
        }),
{
    let (next, actions) = w.handle_install_snapshot_request(from, m);
    let (adopted, adoption) = w.adopt_term(m.term);
    let follower = adopted.follow(m.leader_id);
    let effects = adoption + adopted.demotion();
    let index = t.meta.last_included_index;
    lemma_no_snapshot(effects);
    assert(persisted_in(effects) =~= Seq::empty());
    assert(installed_in(effects) =~= Seq::empty());
    let n = t.chunks.len();
    if k > 0 {
        lemma_offsets(t, (k - 1) as nat);
    }
    if k == n {
        assert(follower.log.last_included_index() == index);
        lemma_no_snapshot(actions);
        assert(persisted_in(actions) =~= Seq::empty());
        assert(installed_in(actions) =~= Seq::empty());
    } else {
        lemma_offsets(t, k);
        assert(t.chunks.take(0) =~= Seq::empty());
        if t.is_chunk(k, m) {
            let pending = follower.with_chunk(m)->0;
            assert(follower.with_chunk(m) is Some);
            assert(pending.data =~= joined(t.chunks.take((k + 1) as int)));
            if m.done {
                assert(t.chunks.take((k + 1) as int) =~= t.chunks);
                let snapshot = t.whole();
                let reply = crate::raft::snapshot::install_reply(from, adopted.current_term);
                lemma_install_effects(follower, snapshot);
                lemma_effects_add(effects, follower.install_effects(snapshot));
                lemma_one(reply);
                lemma_effects_add(effects + follower.install_effects(snapshot), seq![reply]);
                assert(actions =~= effects + follower.install_effects(snapshot) + seq![reply]);
                assert(persisted_in(actions) =~= seq![snapshot]);
                assert(installed_in(actions) =~= seq![snapshot]);
            }
        } else if m.offset == t.offset(k) {
            // An empty chunk that comes again adds nothing.
            let pending = follower.with_chunk(m)->0;
            assert(t.chunks[k - 1].len() == 0);
            assert(pending.data =~= joined(t.chunks.take(k as int)));
        }
    }
}

/// Whatever comes twice or at the wrong place, a snapshot in chunks is put
/// together as it was sent. Until its last chunk has come in its turn nothing
/// else of the follower changes. Then the snapshot is made durable and handed to
/// the state machine, once each, with exactly the bytes that were sent.
pub proof fn law_chunks_install_what_was_sent(
    t: Transfer,
    v: NodeView,
    from: NodeId,
    messages: Seq<InstallSnapshotView>,
)
    requires
        awaits(t, v),
        t.is_run(messages),
    ensures
        t.progress(messages) <= t.chunks.len(),
        has_come_to(t, v, after_messages(v, from, messages), t.progress(messages)),
        ({
            let all: Seq<SnapshotView> = if t.progress(messages) == t.chunks.len() {
                seq![t.whole()]
            } else {
                Seq::empty()
            };
            &&& persisted_in(effects_of(v, from, messages)) == all
            &&& installed_in(effects_of(v, from, messages)) == all
        }),
    decreases messages.len(),
{
    if messages.len() > 0 {
        let before = messages.drop_last();
        let m = messages[messages.len() - 1];
        assert(t.is_run(before)) by {
            assert forall|i: int| 0 <= i < before.len() implies t.may_come(
                t.progress(before.take(i)),
                #[trigger] before[i],
            ) by {
                assert(before.take(i) =~= messages.take(i));
                assert(before[i] == messages[i]);
            }
        }
        law_chunks_install_what_was_sent(t, v, from, before);
        assert(messages.take(messages.len() - 1) =~= before);
        let k = t.progress(before);
        let w = after_messages(v, from, before);
        lemma_message(t, v, w, k, from, m);
        let earlier = effects_of(v, from, before);
        let now = w.handle_install_snapshot_request(from, m).1;
        lemma_effects_add(earlier, now);
        assert(effects_of(v, from, messages) == earlier + now);
        assert(persisted_in(earlier) + persisted_in(now) =~= persisted_in(earlier + now));
        if k == t.chunks.len() {
            assert(seq![t.whole()] + Seq::<SnapshotView>::empty() =~= seq![t.whole()]);
        } else {
            assert(Seq::<SnapshotView>::empty() + seq![t.whole()] =~= seq![t.whole()]);
            assert(Seq::<SnapshotView>::empty() + Seq::<SnapshotView>::empty() =~= Seq::<
                SnapshotView,
            >::empty());
        }
    }
}

} // verus!
