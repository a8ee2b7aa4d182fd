//! Runtime checks for Raft safety properties.

use std::collections::BTreeMap;

use vstd::prelude::*;

use crate::config::NodeId;
use crate::raft::log::{min_u64, same_entry, RaftLog, RaftLogView};
use crate::raft::state::RaftState;
use crate::raft::{NodeView, RaftNode};
use crate::text::{decimal, push_str, push_u64};

verus! {

broadcast use vstd::std_specs::btree::group_btree_axioms;

/// A safety property that does not hold, and where.
#[derive(Debug, Clone, Copy, PartialEq, Eq, Structural)]
pub enum Violation {
    /// Two logs agree at `witness` and differ at `index` below it.
    LogMatching { index: u64, witness: u64 },
    /// A node's term went down.
    TermMonotonicity { id: NodeId, previous: u64, term: u64 },
    /// Two nodes led one term.
    ElectionSafety { first: NodeId, second: NodeId, term: u64 },
    /// A node voted twice in one term.
    VoteOnce { id: NodeId, first: NodeId, second: NodeId, term: u64 },
    /// More is committed than the log holds.
    CommitBeyondLog { id: NodeId, commit_index: u64, last_index: u64 },
    /// Messages kept causing messages within one tick.
    CascadeExceeded { limit: u64 },
}

impl Violation {
    /// How the violation is reported.
    pub open spec fn text(self) -> Seq<char> {
        match self {
            Violation::LogMatching { index, witness } => "log matching violated at index "@
                + decimal(index as nat) + " (witness index "@ + decimal(witness as nat) + ")"@,
            Violation::TermMonotonicity { id, previous, term } =>
                "term monotonicity violated: node "@ + decimal(id as nat) + " went from term "@
                + decimal(previous as nat) + " to "@ + decimal(term as nat),
            Violation::ElectionSafety { first, second, term } =>
                "election safety violated: nodes "@ + decimal(first as nat) + " and "@ + decimal(
                second as nat,
            ) + " both led term "@ + decimal(term as nat),
            Violation::VoteOnce { id, first, second, term } => "vote once violated: node "@
                + decimal(id as nat) + " voted for "@ + decimal(first as nat) + " and then "@
                + decimal(second as nat) + " in term "@ + decimal(term as nat),
            Violation::CommitBeyondLog { id, commit_index, last_index } => "commit index "@
                + decimal(commit_index as nat) + " exceeds last log index "@ + decimal(
                last_index as nat,
            ) + " on node "@ + decimal(id as nat),
            Violation::CascadeExceeded { limit } => "message cascade exceeded "@ + decimal(
                limit as nat,
            ) + " deliveries in one tick"@,
        }
    }

    /// Renders the violation for a person.
    pub fn message(&self) -> (r: String)
        ensures
            r@ == self.text(),
    {
        let mut out: String = String::new();
        match self {
            Violation::LogMatching { index, witness } => {
                push_str(&mut out, "log matching violated at index ");
                push_u64(&mut out, *index);
                push_str(&mut out, " (witness index ");
                push_u64(&mut out, *witness);
                push_str(&mut out, ")");
            },
            Violation::TermMonotonicity { id, previous, term } => {
                push_str(&mut out, "term monotonicity violated: node ");
                push_u64(&mut out, *id);
                push_str(&mut out, " went from term ");
                push_u64(&mut out, *previous);
                push_str(&mut out, " to ");
                push_u64(&mut out, *term);
            },
            Violation::ElectionSafety { first, second, term } => {
                push_str(&mut out, "election safety violated: nodes ");
                push_u64(&mut out, *first);
                push_str(&mut out, " and ");
                push_u64(&mut out, *second);
                push_str(&mut out, " both led term ");
                push_u64(&mut out, *term);
            },
            Violation::VoteOnce { id, first, second, term } => {
                push_str(&mut out, "vote once violated: node ");
                push_u64(&mut out, *id);
                push_str(&mut out, " voted for ");
                push_u64(&mut out, *first);
                push_str(&mut out, " and then ");
                push_u64(&mut out, *second);
                push_str(&mut out, " in term ");
                push_u64(&mut out, *term);
            },
            Violation::CommitBeyondLog { id, commit_index, last_index } => {
                push_str(&mut out, "commit index ");
                push_u64(&mut out, *commit_index);
                push_str(&mut out, " exceeds last log index ");
                push_u64(&mut out, *last_index);
                push_str(&mut out, " on node ");
                push_u64(&mut out, *id);
            },
            Violation::CascadeExceeded { limit } => {
                push_str(&mut out, "message cascade exceeded ");
                push_u64(&mut out, *limit);
                push_str(&mut out, " deliveries in one tick");
            },
        }
        assert(out@ =~= self.text());
        out
    }
}

// ── Log matching ────────────────────────────────────────────────────────────

/// Whether two logs know the same term at `index`.
pub open spec fn agree_at(a: RaftLogView, b: RaftLogView, index: u64) -> bool {
    match (a.term_at(index), b.term_at(index)) {
        (Ok(x), Ok(y)) => x == y,
        _ => false,
    }
}

/// Whether two logs hold different entries at `index`.
pub open spec fn differ_at(a: RaftLogView, b: RaftLogView, index: u64) -> bool {
    a.holds(index) && b.holds(index) && a.entry(index) != b.entry(index)
}

/// The last index that both logs can know.
pub open spec fn common_last(a: RaftLogView, b: RaftLogView) -> u64 {
    min_u64(a.last_index(), b.last_index())
}

/// Log Matching (§5.3): equal (index, term) implies identical prefixes.
pub open spec fn log_matching(a: RaftLogView, b: RaftLogView) -> bool {
    forall|witness: u64, index: u64|
        1 <= index <= witness <= common_last(a, b) && #[trigger] agree_at(a, b, witness)
            ==> !#[trigger] differ_at(a, b, index)
}

/// The highest index up to `last` at which two logs agree.
pub open spec fn highest_agreement(a: RaftLogView, b: RaftLogView, last: u64) -> Option<u64>
    decreases last,
{
    if last == 0 {
        None
    } else if agree_at(a, b, last) {
        Some(last)
    } else {
        highest_agreement(a, b, (last - 1) as u64)
    }
}

/// The lowest index from `from` to `to` at which two logs differ.
pub open spec fn lowest_difference(a: RaftLogView, b: RaftLogView, from: int, to: u64) -> Option<
    u64,
>
    decreases to - from + 1,
{
    if from > to {
        None
    } else if differ_at(a, b, from as u64) {
        Some(from as u64)
    } else {
        lowest_difference(a, b, from + 1, to)
    }
}

/// Where two logs break Log Matching.
pub open spec fn pair_violation(a: RaftLogView, b: RaftLogView) -> Option<Violation> {
    match highest_agreement(a, b, common_last(a, b)) {
        None => None,
        Some(witness) => match lowest_difference(a, b, 1, witness) {
            None => None,
            Some(index) => Some(Violation::LogMatching { index, witness }),
        },
    }
}

/// Where the log at `i` breaks Log Matching with one from `j` on.
pub open spec fn row_violation(logs: Seq<RaftLogView>, i: int, j: int) -> Option<Violation>
    decreases logs.len() - j,
{
    if j >= logs.len() {
        None
    } else {
        match pair_violation(logs[i], logs[j]) {
            Some(v) => Some(v),
            None => row_violation(logs, i, j + 1),
        }
    }
}

/// Where two logs from `i` on break Log Matching.
pub open spec fn logs_violation(logs: Seq<RaftLogView>, i: int) -> Option<Violation>
    decreases logs.len() - i,
{
    if i >= logs.len() {
        None
    } else {
        match row_violation(logs, i, i + 1) {
            Some(v) => Some(v),
            None => logs_violation(logs, i + 1),
        }
    }
}

proof fn lemma_highest_agreement(a: RaftLogView, b: RaftLogView, last: u64)
    ensures
        match highest_agreement(a, b, last) {
            Some(w) => 1 <= w <= last && agree_at(a, b, w) && forall|i: u64|
                w < i <= last ==> !#[trigger] agree_at(a, b, i),
            None => forall|i: u64| 1 <= i <= last ==> !#[trigger] agree_at(a, b, i),
        },
    decreases last,
{
    if last > 0 && !agree_at(a, b, last) {
        lemma_highest_agreement(a, b, (last - 1) as u64);
    }
}

proof fn lemma_lowest_difference(a: RaftLogView, b: RaftLogView, from: int, to: u64)
    requires
        1 <= from,
    ensures
        match lowest_difference(a, b, from, to) {
            Some(i) => from <= i <= to && differ_at(a, b, i),
            None => forall|i: u64| from <= i <= to ==> !#[trigger] differ_at(a, b, i),
        },
    decreases to - from + 1,
{
    if from <= to && !differ_at(a, b, from as u64) {
        lemma_lowest_difference(a, b, from + 1, to);
    }
}

/// The check of two logs finds nothing exactly when they match.
pub proof fn law_pair_check_decides_log_matching(a: RaftLogView, b: RaftLogView)
    ensures
        pair_violation(a, b) is None <==> log_matching(a, b),
{
    let last = common_last(a, b);
    lemma_highest_agreement(a, b, last);
    if let Some(w) = highest_agreement(a, b, last) {
        lemma_lowest_difference(a, b, 1, w);
        if let Some(i) = lowest_difference(a, b, 1, w) {
            assert(agree_at(a, b, w) && differ_at(a, b, i));
        }
    }
}

proof fn lemma_row(logs: Seq<RaftLogView>, i: int, j: int)
    requires
        0 <= i < j,
    ensures
        row_violation(logs, i, j) is None <==> forall|k: int|
            j <= k < logs.len() ==> #[trigger] pair_violation(logs[i], logs[k]) is None,
    decreases logs.len() - j,
{
    if j < logs.len() && pair_violation(logs[i], logs[j]) is None {
        lemma_row(logs, i, j + 1);
    }
}

proof fn lemma_rows(logs: Seq<RaftLogView>, i: int)
    requires
        0 <= i,
    ensures
        logs_violation(logs, i) is None <==> forall|m: int, k: int|
            i <= m < k < logs.len() ==> #[trigger] pair_violation(logs[m], logs[k]) is None,
    decreases logs.len() - i,
{
    if i < logs.len() {
        lemma_row(logs, i, i + 1);
        if row_violation(logs, i, i + 1) is None {
            lemma_rows(logs, i + 1);
        }
    }
}

/// The check of a set of logs finds nothing exactly when any two of them match.
pub proof fn law_check_decides_log_matching(logs: Seq<RaftLogView>)
    ensures
        logs_violation(logs, 0) is None <==> forall|i: int, j: int|
            0 <= i < j < logs.len() ==> #[trigger] log_matching(logs[i], logs[j]),
{
    lemma_rows(logs, 0);
    assert forall|i: int, j: int| 0 <= i < j < logs.len() implies (pair_violation(
        logs[i],
        logs[j],
    ) is None) == #[trigger] log_matching(logs[i], logs[j]) by {
        law_pair_check_decides_log_matching(logs[i], logs[j]);
    }
    if forall|i: int, j: int|
        0 <= i < j < logs.len() ==> #[trigger] log_matching(logs[i], logs[j]) {
        assert forall|m: int, k: int| 0 <= m < k < logs.len() implies #[trigger] pair_violation(
            logs[m],
            logs[k],
        ) is None by {
            assert(log_matching(logs[m], logs[k]));
        }
    }
}

/// What a list of logs holds, in order.
pub open spec fn logs_view(logs: Seq<&RaftLog>) -> Seq<RaftLogView> {
    Seq::new(logs.len(), |i: int| logs[i]@)
}

/// Checks every pair of logs pairwise through their common length, and reports
/// the first pair that does not match.
pub fn assert_log_matching(logs: &[&RaftLog]) -> (r: Result<(), Violation>)
    ensures
        match r {
            Ok(_) => logs_violation(logs_view(logs@), 0) is None,
            Err(v) => logs_violation(logs_view(logs@), 0) == Some(v),
        },
{
    let ghost all = logs_view(logs@);
    let mut i: usize = 0;
    while i < logs.len()
        invariant
            i <= logs@.len(),
            all == logs_view(logs@),
            logs_violation(all, 0) == logs_violation(all, i as int),
        decreases logs@.len() - i,
    {
        let mut j: usize = i + 1;
        while j < logs.len()
            invariant
                i < j <= logs@.len(),
                all == logs_view(logs@),
                logs_violation(all, 0) == logs_violation(all, i as int),
                row_violation(all, i as int, i + 1) == row_violation(all, i as int, j as int),
            decreases logs@.len() - j,
        {
            match assert_log_matching_pair(logs[i], logs[j]) {
                Ok(_) => {},
                Err(v) => {
                    return Err(v);
                },
            }
            j += 1;
        }
        i += 1;
    }
    Ok(())
}

/// Checks one pair of logs.
///
/// The highest index whose terms agree witnesses the longest prefix that must
/// match; every lower witness is covered by it, so one scan suffices.
fn assert_log_matching_pair(a: &RaftLog, b: &RaftLog) -> (r: Result<(), Violation>)
    ensures
        match r {
            Ok(_) => pair_violation(a@, b@) is None,
            Err(v) => pair_violation(a@, b@) == Some(v),
        },
{
    let a_last: u64 = a.last_index();
    let b_last: u64 = b.last_index();
    let last: u64 = if a_last <= b_last {
        a_last
    } else {
        b_last
    };
    let mut witness: u64 = last;
    while witness > 0
        invariant
            highest_agreement(a@, b@, last) == highest_agreement(a@, b@, witness),
        ensures
            witness > 0 ==> agree_at(a@, b@, witness),
            highest_agreement(a@, b@, last) == highest_agreement(a@, b@, witness),
        decreases witness,
    {
        let agree: bool = match (a.term_at(witness), b.term_at(witness)) {
            (Ok(x), Ok(y)) => x == y,
            _ => false,
        };
        if agree {
            break ;
        }
        witness -= 1;
    }
    if witness == 0 {
        return Ok(());
    }
    let mut prefix: u64 = 1;
    loop
        invariant
            1 <= prefix <= witness,
            witness > 0,
            last == common_last(a@, b@),
            highest_agreement(a@, b@, last) == Some(witness),
            lowest_difference(a@, b@, 1, witness) == lowest_difference(
                a@,
                b@,
                prefix as int,
                witness,
            ),
        decreases witness - prefix,
    {
        match (a.entry(prefix), b.entry(prefix)) {
            (Ok(ea), Ok(eb)) => {
                if !same_entry(ea, eb) {
                    return Err(Violation::LogMatching { index: prefix, witness });
                }
            },
            _ => {},
        }
        if prefix == witness {
            assert(lowest_difference(a@, b@, witness + 1, witness) is None);
            return Ok(());
        }
        prefix += 1;
    }
}

// ── History ─────────────────────────────────────────────────────────────────

/// Cluster-wide safety checker that remembers history across observations.
///
/// Election Safety, Term Monotonicity, and Vote Once are properties of a
/// node's history, not of a single snapshot, so the checker records the
/// leader of each term, each node's last term, and each node's vote per term.
#[derive(Debug)]
pub struct InvariantChecker {
    leader_by_term: BTreeMap<u64, NodeId>,
    last_term: BTreeMap<NodeId, u64>,
    vote_by_term: BTreeMap<(NodeId, u64), NodeId>,
}

/// What an [`InvariantChecker`] remembers.
#[verifier::ext_equal]
pub struct HistoryView {
    pub leader_by_term: Map<u64, NodeId>,
    pub last_term: Map<NodeId, u64>,
    pub vote_by_term: Map<(NodeId, u64), NodeId>,
}

impl View for InvariantChecker {
    type V = HistoryView;

    closed spec fn view(&self) -> HistoryView {
        HistoryView {
            leader_by_term: self.leader_by_term@,
            last_term: self.last_term@,
            vote_by_term: self.vote_by_term@,
        }
    }
}

impl HistoryView {
    /// Nothing was observed yet.
    pub open spec fn empty() -> HistoryView {
        HistoryView {
            leader_by_term: Map::empty(),
            last_term: Map::empty(),
            vote_by_term: Map::empty(),
        }
    }

    /// What the node's state breaks, given the history.
    pub open spec fn violation(self, node: NodeView) -> Option<Violation> {
        let id = node.id;
        let term = node.current_term;
        if self.last_term.contains_key(id) && term < self.last_term[id] {
            Some(Violation::TermMonotonicity { id, previous: self.last_term[id], term })
        } else if node.state == RaftState::Leader && self.leader_by_term.contains_key(term)
            && self.leader_by_term[term] != id {
            Some(
                Violation::ElectionSafety { first: self.leader_by_term[term], second: id, term },
            )
        } else if node.voted_for is Some && self.vote_by_term.contains_key((id, term))
            && self.vote_by_term[(id, term)] != node.voted_for->0 {
            Some(
                Violation::VoteOnce {
                    id,
                    first: self.vote_by_term[(id, term)],
                    second: node.voted_for->0,
                    term,
                },
            )
        } else if node.commit_index > node.log.last_index() {
            Some(
                Violation::CommitBeyondLog {
                    id,
                    commit_index: node.commit_index,
                    last_index: node.log.last_index(),
                },
            )
        } else {
            None
        }
    }

    /// The history with the node's state.
    pub open spec fn with(self, node: NodeView) -> HistoryView {
        HistoryView {
            leader_by_term: if node.state == RaftState::Leader {
                self.leader_by_term.insert(node.current_term, node.id)
            } else {
                self.leader_by_term
            },
            last_term: self.last_term.insert(node.id, node.current_term),
            vote_by_term: match node.voted_for {
                Some(candidate) => self.vote_by_term.insert(
                    (node.id, node.current_term),
                    candidate,
                ),
                None => self.vote_by_term,
            },
        }
    }

    /// The history with the states of nodes, one after another, up to the first
    /// that breaks a property.
    pub open spec fn with_nodes(self, nodes: Seq<NodeView>) -> (HistoryView, Option<Violation>)
        decreases nodes.len(),
    {
        if nodes.len() == 0 {
            (self, None)
        } else {
            let (before, broken) = self.with_nodes(nodes.drop_last());
            if broken is Some {
                (before, broken)
            } else {
                match before.violation(nodes.last()) {
                    Some(v) => (before, Some(v)),
                    None => (before.with(nodes.last()), None),
                }
            }
        }
    }

    /// The history after an observation of the whole cluster, and what broke.
    pub open spec fn observe(self, nodes: Seq<NodeView>) -> (HistoryView, Option<Violation>) {
        let (after, broken) = self.with_nodes(nodes);
        if broken is Some {
            (after, broken)
        } else {
            (after, logs_violation(logs_of(nodes), 0))
        }
    }
}

/// The logs of nodes, in order.
pub open spec fn logs_of(nodes: Seq<NodeView>) -> Seq<RaftLogView> {
    Seq::new(nodes.len(), |i: int| nodes[i].log)
}

/// What nodes hold, in order.
pub open spec fn node_list_view(nodes: Seq<&RaftNode>) -> Seq<NodeView> {
    Seq::new(nodes.len(), |i: int| nodes[i]@)
}

proof fn lemma_broken_prefix(history: HistoryView, nodes: Seq<NodeView>, n: int)
    requires
        0 <= n <= nodes.len(),
        history.with_nodes(nodes.take(n)).1 is Some,
    ensures
        history.with_nodes(nodes) == history.with_nodes(nodes.take(n)),
    decreases nodes.len() - n,
{
    if n == nodes.len() {
        assert(nodes.take(n) =~= nodes);
    } else {
        assert(nodes.take(n + 1).drop_last() =~= nodes.take(n));
        lemma_broken_prefix(history, nodes, n + 1);
    }
}

impl Default for InvariantChecker {
    fn default() -> (r: Self)
        ensures
            r@ == HistoryView::empty(),
    {
        InvariantChecker {
            leader_by_term: BTreeMap::new(),
            last_term: BTreeMap::new(),
            vote_by_term: BTreeMap::new(),
        }
    }
}

impl InvariantChecker {
    pub fn new() -> (r: Self)
        ensures
            r@ == HistoryView::empty(),
    {
        Self::default()
    }

    /// Checks every safety invariant over the current state of `nodes`.
    pub fn observe(&mut self, nodes: &[&RaftNode]) -> (r: Result<(), Violation>)
        ensures
            final(self)@ == old(self)@.observe(node_list_view(nodes@)).0,
            match r {
                Ok(_) => old(self)@.observe(node_list_view(nodes@)).1 is None,
                Err(v) => old(self)@.observe(node_list_view(nodes@)).1 == Some(v),
            },
    {
        let ghost before = self@;
        let ghost all = node_list_view(nodes@);
        let mut logs: Vec<&RaftLog> = Vec::new();
        let mut i: usize = 0;
        while i < nodes.len()
            invariant
                i <= nodes@.len(),
                before == old(self)@,
                all == node_list_view(nodes@),
                before.with_nodes(all.take(i as int)) == (self@, None::<Violation>),
                logs_view(logs@) =~= logs_of(all).take(i as int),
            decreases nodes@.len() - i,
        {
            proof {
                assert(all.take(i + 1).drop_last() =~= all.take(i as int));
                assert(all.take(i + 1).last() == nodes@[i as int]@);
            }
            match self.observe_node(nodes[i]) {
                Ok(_) => {},
                Err(v) => {
                    proof {
                        lemma_broken_prefix(before, all, i + 1);
                    }
                    return Err(v);
                },
            }
            let ghost held = logs@;
            logs.push(&nodes[i].log);
            i += 1;
            assert(logs_view(logs@) =~= logs_view(held).push(all[i - 1].log));
        }
        assert(all.take(i as int) =~= all);
        assert(logs_view(logs@) =~= logs_of(all));
        assert_log_matching(logs.as_slice())
    }

    /// Checks one node against the history, and adds its state.
    fn observe_node(&mut self, node: &RaftNode) -> (r: Result<(), Violation>)
        ensures
            match r {
                Ok(_) => old(self)@.violation(node@) is None && final(self)@ == old(self)@.with(
                    node@,
                ),
                Err(v) => old(self)@.violation(node@) == Some(v) && final(self)@ == old(self)@,
            },
    {
        broadcast use vstd::laws_cmp::group_laws_cmp;

        let ghost before = self@;
        let id: NodeId = node.id;
        let term: u64 = node.current_term;
        match self.last_term.get(&id) {
            Some(previous) => {
                if term < *previous {
                    return Err(
                        Violation::TermMonotonicity { id, previous: *previous, term },
                    );
                }
            },
            None => {},
        }
        let leads: bool = node.state == RaftState::Leader;
        if leads {
            match self.leader_by_term.get(&term) {
                Some(leader) => {
                    if *leader != id {
                        return Err(
                            Violation::ElectionSafety { first: *leader, second: id, term },
                        );
                    }
                },
                None => {},
            }
        }
        match node.voted_for {
            Some(candidate) => {
                match self.vote_by_term.get(&(id, term)) {
                    Some(vote) => {
                        if *vote != candidate {
                            return Err(
                                Violation::VoteOnce { id, first: *vote, second: candidate, term },
                            );
                        }
                    },
                    None => {},
                }
            },
            None => {},
        }
        let last_index: u64 = node.log.last_index();
        if node.commit_index > last_index {
            return Err(
                Violation::CommitBeyondLog { id, commit_index: node.commit_index, last_index },
            );
        }
        self.last_term.insert(id, term);
        if leads {
            self.leader_by_term.insert(term, id);
        }
        match node.voted_for {
            Some(candidate) => {
                self.vote_by_term.insert((id, term), candidate);
            },
            None => {},
        }
        assert(self@ =~= before.with(node@));
        Ok(())
    }
}

} // verus!
