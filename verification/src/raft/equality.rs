//! When two nodes count as the same: everything that consensus goes by, and
//! nothing of where its randomness or its snapshots come from.

use std::collections::{BTreeSet, HashMap};

use vstd::prelude::*;
use vstd::std_specs::cmp::PartialEqSpecImpl;
use vstd::std_specs::iter::IteratorSpec;

use crate::config::NodeId;
use crate::raft::election::ElectionState;
use crate::raft::{NodeView, RaftNode};

verus! {

broadcast use {
    vstd::std_specs::btree::group_btree_axioms,
    vstd::std_specs::hash::group_hash_axioms,
};

impl NodeView {
    /// The nodes hold the same consensus state.
    pub open spec fn same_as(self, other: NodeView) -> bool {
        &&& self.id == other.id
        &&& self.peers == other.peers
        &&& self.log == other.log
        &&& self.current_term == other.current_term
        &&& self.voted_for == other.voted_for
        &&& self.state == other.state
        &&& self.leader_id == other.leader_id
        &&& self.commit_index == other.commit_index
        &&& self.last_applied == other.last_applied
        &&& self.next_index == other.next_index
        &&& self.match_index == other.match_index
        &&& self.election == other.election
        &&& self.heartbeat_ticks == other.heartbeat_ticks
        &&& self.election_timeout_min_ticks == other.election_timeout_min_ticks
        &&& self.election_timeout_max_ticks == other.election_timeout_max_ticks
        &&& self.heartbeat_interval_ticks == other.heartbeat_interval_ticks
    }
}

impl PartialEq for RaftNode {
    fn eq(&self, other: &Self) -> (r: bool) {
        same_numbers(self, other) && same_ids(&self.peers, &other.peers) && self.log.same_as(
            &other.log,
        ) && same_indices(&self.next_index, &other.next_index) && same_indices(
            &self.match_index,
            &other.match_index,
        ) && same_election(&self.election, &other.election)
    }
}

impl PartialEqSpecImpl for RaftNode {
    open spec fn obeys_eq_spec() -> bool {
        true
    }

    open spec fn eq_spec(&self, other: &Self) -> bool {
        self@.same_as(other@)
    }
}

/// Compares what a node holds in plain numbers.
fn same_numbers(a: &RaftNode, b: &RaftNode) -> (r: bool)
    ensures
        r == {
            &&& a.id == b.id
            &&& a.current_term == b.current_term
            &&& a.voted_for == b.voted_for
            &&& a.state == b.state
            &&& a.leader_id == b.leader_id
            &&& a.commit_index == b.commit_index
            &&& a.last_applied == b.last_applied
            &&& a.heartbeat_ticks == b.heartbeat_ticks
            &&& a.election_timeout_min_ticks == b.election_timeout_min_ticks
            &&& a.election_timeout_max_ticks == b.election_timeout_max_ticks
            &&& a.heartbeat_interval_ticks == b.heartbeat_interval_ticks
        },
{
    a.id == b.id && a.current_term == b.current_term && a.voted_for == b.voted_for && a.state
        == b.state && a.leader_id == b.leader_id && a.commit_index == b.commit_index
        && a.last_applied == b.last_applied && a.heartbeat_ticks == b.heartbeat_ticks
        && a.election_timeout_min_ticks == b.election_timeout_min_ticks
        && a.election_timeout_max_ticks == b.election_timeout_max_ticks
        && a.heartbeat_interval_ticks == b.heartbeat_interval_ticks
}

/// Compares lists of ids.
fn same_ids(a: &Vec<NodeId>, b: &Vec<NodeId>) -> (r: bool)
    ensures
        r == (a@ == b@),
{
    if a.len() != b.len() {
        return false;
    }
    let mut i: usize = 0;
    while i < a.len()
        invariant
            i <= a@.len() == b@.len(),
            forall|j: int| 0 <= j < i ==> a@[j] == b@[j],
        decreases a@.len() - i,
    {
        if a[i] != b[i] {
            return false;
        }
        i += 1;
    }
    assert(a@ =~= b@);
    true
}

/// Compares what a leader knows of its peers.
fn same_indices(a: &HashMap<NodeId, u64>, b: &HashMap<NodeId, u64>) -> (r: bool)
    ensures
        r == (a@ == b@),
{
    if a.len() != b.len() {
        return false;
    }
    let ghost keys = a.keys().remaining();
    for id in iter: a.keys()
        invariant
            iter.seq() == keys,
            keys == a.keys().remaining(),
            forall|j: int|
                0 <= j < iter.index() ==> b@.contains_key(*#[trigger] keys[j]) && b@[*keys[j]]
                    == a@[*keys[j]],
    {
        let same = match (a.get(id), b.get(id)) {
            (Some(x), Some(y)) => *x == *y,
            _ => false,
        };
        if !same {
            assert(a@.contains_key(*id)) by {
                assert(keys.unref().to_set().contains(*id)) by {
                    assert(keys.unref()[iter.index()] == *id);
                }
            }
            return false;
        }
    }
    proof {
        assert forall|id: NodeId| a@.contains_key(id) implies b@.contains_key(id) && b@[id]
            == a@[id] by {
            assert(keys.unref().to_set().contains(id));
            let j = choose|j: int| 0 <= j < keys.unref().len() && keys.unref()[j] == id;
            assert(*keys[j] == id);
        }
        vstd::set_lib::lemma_subset_equality(a@.dom(), b@.dom());
        assert(a@ =~= b@);
    }
    true
}

/// Compares sets of ids.
fn same_voters(a: &BTreeSet<NodeId>, b: &BTreeSet<NodeId>) -> (r: bool)
    ensures
        r == (a@ == b@),
{
    if a.len() != b.len() {
        return false;
    }
    let ghost ids = a.iter().remaining();
    for id in iter: a.iter()
        invariant
            iter.seq() == ids,
            ids == a.iter().remaining(),
            forall|j: int| 0 <= j < iter.index() ==> b@.contains(*#[trigger] ids[j]),
    {
        if !b.contains(id) {
            assert(a@.contains(*id)) by {
                assert(ids.unref()[iter.index()] == *id);
            }
            return false;
        }
    }
    proof {
        assert forall|id: NodeId| a@.contains(id) implies b@.contains(id) by {
            assert(ids.unref().to_set().contains(id));
            let j = choose|j: int| 0 <= j < ids.unref().len() && ids.unref()[j] == id;
            assert(*ids[j] == id);
        }
        let theirs = b.iter().remaining().unref();
        vstd::seq_lib::seq_to_set_is_finite(ids.unref());
        vstd::seq_lib::seq_to_set_is_finite(theirs);
        assert(b@ == theirs.to_set());
        vstd::set_lib::lemma_subset_equality(a@, b@);
    }
    true
}

/// Compares election states.
fn same_election(a: &ElectionState, b: &ElectionState) -> (r: bool)
    ensures
        r == (a@ == b@),
{
    a.ticks_remaining == b.ticks_remaining && a.election_timeout_ticks == b.election_timeout_ticks
        && same_voters(&a.votes_granted, &b.votes_granted)
}

} // verus!
