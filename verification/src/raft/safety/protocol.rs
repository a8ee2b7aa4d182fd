//! The protocol in small steps: what a node may do, given what it holds and what
//! was ever sent. A message that was sent stays on record, so it may arrive late,
//! twice or never.

use vstd::prelude::*;

use crate::config::NodeId;
use crate::raft::log::LogEntryView;
use crate::raft::state::RaftState;

verus! {

/// What matters of a node for safety.
pub struct Core {
    pub term: u64,
    pub vote: Option<NodeId>,
    pub role: RaftState,
    pub log: Seq<LogEntryView>,
    pub commit: nat,
    /// Who voted for this node, while it is a candidate.
    pub granted: Set<NodeId>,
    /// What each member is known to hold, while this node leads.
    pub matched: Map<NodeId, nat>,
}

/// A message, reduced to what it says.
pub enum Note {
    /// `from` asks for votes in `term`; its log has `last_index` entries, the
    /// last of `last_term`.
    Ask { from: NodeId, term: u64, last_index: nat, last_term: u64 },
    /// `from` votes for `to` in `term`.
    Grant { from: NodeId, to: NodeId, term: u64 },
    /// `from`, leader of `term`, offers the entries behind its first `prev` ones.
    Offer {
        from: NodeId,
        term: u64,
        prev: nat,
        prev_term: u64,
        entries: Seq<LogEntryView>,
        commit: nat,
    },
    /// `from` holds the first `upto` entries of `to`, the leader of `term`.
    Ack { from: NodeId, to: NodeId, term: u64, upto: nat },
}

/// A vote: for whom, and the voter's log when it was given.
pub struct Ballot {
    pub candidate: NodeId,
    pub log: Seq<LogEntryView>,
}

/// An election: who won, with which log, by whose votes.
pub struct Election {
    pub leader: NodeId,
    pub base: Seq<LogEntryView>,
    pub voters: Set<NodeId>,
}

/// Everything that ever happened.
pub struct Record {
    /// The vote of each voter in each term.
    pub ballots: Map<(NodeId, u64), Ballot>,
    /// The log with which each candidate entered each term.
    pub candidacies: Map<(NodeId, u64), Seq<LogEntryView>>,
    /// The election of each term.
    pub elections: Map<u64, Election>,
    /// The log of each term's leader, as far as it got.
    pub leader_logs: Map<u64, Seq<LogEntryView>>,
    /// How much of the log of each term's leader each member acknowledged.
    pub acks: Map<(NodeId, u64), nat>,
    /// The entries that were handed to a state machine.
    pub applied: Set<LogEntryView>,
}

/// The whole cluster.
pub struct System {
    pub members: Set<NodeId>,
    pub nodes: Map<NodeId, Core>,
    pub notes: Set<Note>,
    pub record: Record,
}

/// What a node may do.
pub enum Step {
    /// Enter a higher term.
    Adopt { n: NodeId, term: u64 },
    /// Give up a candidacy or the lead.
    StepDown { n: NodeId },
    /// Enter the next term as a candidate.
    Stand { n: NodeId },
    /// Vote for the sender of an `Ask`.
    Vote { n: NodeId, ask: Note },
    /// Count a vote.
    Count { n: NodeId, from: NodeId },
    /// Take the lead with a majority of votes.
    Lead { n: NodeId },
    /// Append an entry as the leader.
    Append { n: NodeId, command: Seq<u8> },
    /// Offer `count` entries behind the first `prev` ones as the leader, and tell
    /// that `commit` entries are committed.
    Offer { n: NodeId, prev: nat, count: nat, commit: nat },
    /// Take over a leader's entries.
    Accept { n: NodeId, offer: Note },
    /// Count an acknowledgement.
    CountAck { n: NodeId, ack: Note },
    /// Presume that a member holds entries that are committed anyway.
    Presume { n: NodeId, p: NodeId, upto: nat },
    /// Commit as the leader what a majority holds.
    Commit { n: NodeId, index: nat },
    /// Hand a committed entry to the state machine.
    Apply { n: NodeId, index: nat },
    /// Lose everything that is not durable. The node still knows that its first
    /// `commit` entries are committed.
    Restart { n: NodeId, commit: nat },
}

/// The term of the last entry.
pub open spec fn last_term_of(log: Seq<LogEntryView>) -> u64 {
    if log.len() == 0 {
        0
    } else {
        log.last().term
    }
}

/// The candidate's log is no older than the voter's.
pub open spec fn up_to_date(candidate: Seq<LogEntryView>, voter: Seq<LogEntryView>) -> bool {
    last_term_of(candidate) > last_term_of(voter) || (last_term_of(candidate) == last_term_of(voter)
        && candidate.len() >= voter.len())
}

/// Two logs hold the same first `i` entries.
pub open spec fn agree(a: Seq<LogEntryView>, b: Seq<LogEntryView>, i: nat) -> bool {
    &&& i <= a.len()
    &&& i <= b.len()
    &&& a.take(i as int) == b.take(i as int)
}

/// The log holds an entry of `term` at `prev`, or `prev` is its beginning.
pub open spec fn fits(log: Seq<LogEntryView>, prev: nat, prev_term: u64) -> bool {
    if prev == 0 {
        prev_term == 0
    } else {
        prev <= log.len() && log[prev - 1].term == prev_term
    }
}

/// How many of `entries` the log holds behind its first `prev` ones, by term.
pub open spec fn held(log: Seq<LogEntryView>, prev: nat, entries: Seq<LogEntryView>) -> nat
    decreases entries.len(),
{
    if entries.len() == 0 || prev >= log.len() || log[prev as int].term != entries[0].term {
        0
    } else {
        1 + held(log, prev + 1, entries.skip(1))
    }
}

/// The log with a leader's entries taken over: what it holds stays, and the
/// first entry that differs is replaced with all behind it.
pub open spec fn merged(log: Seq<LogEntryView>, prev: nat, entries: Seq<LogEntryView>) -> Seq<
    LogEntryView,
> {
    let k = held(log, prev, entries);
    if k == entries.len() {
        log
    } else {
        log.take((prev + k) as int) + entries.skip(k as int)
    }
}

/// A majority of the members.
pub open spec fn is_quorum(members: Set<NodeId>, some: Set<NodeId>) -> bool {
    &&& some.subset_of(members)
    &&& 2 * some.len() > members.len()
}

impl Core {
    /// What the node knows of a member's log.
    pub open spec fn matched_by(self, p: NodeId) -> nat {
        if self.matched.contains_key(p) {
            self.matched[p]
        } else {
            0
        }
    }

    /// The leader, once it knows that a member holds the first `upto` entries.
    pub open spec fn with_match(self, p: NodeId, upto: nat) -> Core {
        if upto > self.matched_by(p) {
            Core { matched: self.matched.insert(p, upto), ..self }
        } else {
            self
        }
    }

    /// The members that hold the first `index` entries, as far as the leader
    /// knows.
    pub open spec fn holders(self, n: NodeId, members: Set<NodeId>, index: nat) -> Set<NodeId> {
        members.filter(|p: NodeId| p == n || self.matched_by(p) >= index)
    }
}

impl System {
    /// The offer of `count` entries behind the first `prev` ones.
    pub open spec fn offer_of(self, n: NodeId, prev: nat, count: nat, commit: nat) -> Note {
        let core = self.nodes[n];
        Note::Offer {
            from: n,
            term: core.term,
            prev,
            prev_term: if prev == 0 {
                0
            } else {
                core.log[prev - 1].term
            },
            entries: core.log.subrange(prev as int, (prev + count) as int),
            commit,
        }
    }

    /// Whether a node may do what the step says.
    pub open spec fn allows(self, step: Step) -> bool {
        match step {
            Step::Adopt { n, term } => self.members.contains(n) && term > self.nodes[n].term,
            Step::StepDown { n } => self.members.contains(n),
            Step::Stand { n } => self.members.contains(n) && self.nodes[n].term < u64::MAX,
            Step::Vote { n, ask } => {
                &&& self.members.contains(n)
                &&& self.notes.contains(ask)
                &&& ask is Ask
                &&& ask->Ask_term == self.nodes[n].term
                &&& self.nodes[n].vote is None || self.nodes[n].vote == Some(ask->Ask_from)
                &&& ask->last_term > last_term_of(self.nodes[n].log) || (ask->last_term
                    == last_term_of(self.nodes[n].log) && ask->last_index
                    >= self.nodes[n].log.len())
            },
            Step::Count { n, from } => {
                &&& self.members.contains(n)
                &&& self.nodes[n].role == RaftState::Candidate
                &&& self.notes.contains(
                    Note::Grant { from, to: n, term: self.nodes[n].term },
                )
            },
            Step::Lead { n } => {
                &&& self.members.contains(n)
                &&& self.nodes[n].role == RaftState::Candidate
                &&& 2 * self.nodes[n].granted.len() > self.members.len()
            },
            Step::Append { n, command } => {
                &&& self.members.contains(n)
                &&& self.nodes[n].role == RaftState::Leader
                &&& self.nodes[n].log.len() + 1 < u64::MAX
            },
            Step::Offer { n, prev, count, commit } => {
                &&& self.members.contains(n)
                &&& self.nodes[n].role == RaftState::Leader
                &&& prev + count <= self.nodes[n].log.len()
                &&& commit <= self.nodes[n].commit
                &&& commit <= prev + count
            },
            Step::Accept { n, offer } => {
                &&& self.members.contains(n)
                &&& self.notes.contains(offer)
                &&& offer is Offer
                &&& offer->Offer_term == self.nodes[n].term
                &&& self.nodes[n].role == RaftState::Follower
                &&& fits(self.nodes[n].log, offer->prev, offer->prev_term)
            },
            Step::CountAck { n, ack } => {
                &&& self.members.contains(n)
                &&& self.notes.contains(ack)
                &&& ack is Ack
                &&& ack->Ack_to == n
                &&& ack->Ack_term == self.nodes[n].term
                &&& self.nodes[n].role == RaftState::Leader
            },
            Step::Presume { n, p, upto } => {
                &&& self.members.contains(n)
                &&& self.nodes[n].role == RaftState::Leader
                &&& upto <= self.nodes[n].commit
            },
            Step::Commit { n, index } => {
                let core = self.nodes[n];
                &&& self.members.contains(n)
                &&& core.role == RaftState::Leader
                &&& core.commit < index <= core.log.len()
                &&& core.log[index - 1].term == core.term
                &&& 2 * core.holders(n, self.members, index).len() > self.members.len()
            },
            Step::Apply { n, index } => {
                &&& self.members.contains(n)
                &&& 1 <= index <= self.nodes[n].commit
            },
            Step::Restart { n, commit } => self.members.contains(n) && commit
                <= self.nodes[n].commit,
        }
    }

    /// The cluster with the node replaced.
    pub open spec fn with_node(self, n: NodeId, core: Core) -> System {
        System { nodes: self.nodes.insert(n, core), ..self }
    }

    /// The cluster after a step.
    pub open spec fn after(self, step: Step) -> System {
        match step {
            Step::Adopt { n, term } => self.with_node(
                n,
                Core { term, vote: None, role: RaftState::Follower, ..self.nodes[n] },
            ),
            Step::StepDown { n } => self.with_node(
                n,
                Core { role: RaftState::Follower, ..self.nodes[n] },
            ),
            Step::Stand { n } => {
                let core = self.nodes[n];
                let term = (core.term + 1) as u64;
                System {
                    notes: self.notes.insert(
                        Note::Ask {
                            from: n,
                            term,
                            last_index: core.log.len(),
                            last_term: last_term_of(core.log),
                        },
                    ),
                    record: Record {
                        ballots: self.record.ballots.insert(
                            (n, term),
                            Ballot { candidate: n, log: core.log },
                        ),
                        candidacies: self.record.candidacies.insert((n, term), core.log),
                        ..self.record
                    },
                    ..self.with_node(
                        n,
                        Core {
                            term,
                            vote: Some(n),
                            role: RaftState::Candidate,
                            granted: Set::empty().insert(n),
                            ..core
                        },
                    )
                }
            },
            Step::Vote { n, ask } => {
                let core = self.nodes[n];
                System {
                    notes: self.notes.insert(
                        Note::Grant { from: n, to: ask->Ask_from, term: core.term },
                    ),
                    record: Record {
                        ballots: if self.record.ballots.contains_key((n, core.term)) {
                            self.record.ballots
                        } else {
                            self.record.ballots.insert(
                                (n, core.term),
                                Ballot { candidate: ask->Ask_from, log: core.log },
                            )
                        },
                        ..self.record
                    },
                    ..self.with_node(n, Core { vote: Some(ask->Ask_from), ..core })
                }
            },
            Step::Count { n, from } => {
                let core = self.nodes[n];
                self.with_node(n, Core { granted: core.granted.insert(from), ..core })
            },
            Step::Lead { n } => {
                let core = self.nodes[n];
                System {
                    record: Record {
                        elections: self.record.elections.insert(
                            core.term,
                            Election { leader: n, base: core.log, voters: core.granted },
                        ),
                        leader_logs: self.record.leader_logs.insert(core.term, core.log),
                        acks: self.record.acks.insert((n, core.term), core.log.len()),
                        ..self.record
                    },
                    ..self.with_node(
                        n,
                        Core { role: RaftState::Leader, matched: Map::empty(), ..core },
                    )
                }
            },
            Step::Append { n, command } => {
                let core = self.nodes[n];
                let log = core.log.push(
                    LogEntryView {
                        index: (core.log.len() + 1) as u64,
                        term: core.term,
                        command,
                    },
                );
                System {
                    record: Record {
                        leader_logs: self.record.leader_logs.insert(core.term, log),
                        acks: self.record.acks.insert((n, core.term), log.len()),
                        ..self.record
                    },
                    ..self.with_node(n, Core { log, ..core })
                }
            },
            Step::Offer { n, prev, count, commit } => System {
                notes: self.notes.insert(self.offer_of(n, prev, count, commit)),
                ..self
            },
            Step::Accept { n, offer } => {
                let core = self.nodes[n];
                let log = merged(core.log, offer->prev, offer->entries);
                let upto = offer->prev + offer->entries.len();
                let key = (n, core.term);
                System {
                    notes: self.notes.insert(
                        Note::Ack { from: n, to: offer->Offer_from, term: core.term, upto },
                    ),
                    record: Record {
                        acks: if self.record.acks.contains_key(key) && self.record.acks[key]
                            >= upto {
                            self.record.acks
                        } else {
                            self.record.acks.insert(key, upto)
                        },
                        ..self.record
                    },
                    ..self.with_node(
                        n,
                        Core {
                            log,
                            commit: if offer->commit <= core.commit {
                                core.commit
                            } else if offer->commit <= log.len() {
                                offer->commit
                            } else {
                                log.len()
                            },
                            ..core
                        },
                    )
                }
            },
            Step::CountAck { n, ack } => self.with_node(
                n,
                self.nodes[n].with_match(ack->Ack_from, ack->upto),
            ),
            Step::Presume { n, p, upto } => self.with_node(n, self.nodes[n].with_match(p, upto)),
            Step::Commit { n, index } => self.with_node(
                n,
                Core { commit: index, ..self.nodes[n] },
            ),
            Step::Apply { n, index } => System {
                record: Record {
                    applied: self.record.applied.insert(self.nodes[n].log[index - 1]),
                    ..self.record
                },
                ..self
            },
            Step::Restart { n, commit } => self.with_node(
                n,
                Core {
                    role: RaftState::Follower,
                    commit,
                    granted: Set::empty(),
                    matched: Map::empty(),
                    ..self.nodes[n]
                },
            ),
        }
    }

    /// A cluster in which nothing happened yet.
    pub open spec fn is_initial(self) -> bool {
        &&& self.members.finite()
        &&& self.nodes.dom() == self.members
        &&& forall|n: NodeId| #[trigger]
            self.members.contains(n) ==> {
                let core = self.nodes[n];
                &&& core.term == 0
                &&& core.vote is None
                &&& core.role == RaftState::Follower
                &&& core.log.len() == 0
                &&& core.commit == 0
            }
        &&& self.notes == Set::<Note>::empty()
        &&& self.record.ballots == Map::<(NodeId, u64), Ballot>::empty()
        &&& self.record.candidacies == Map::<(NodeId, u64), Seq<LogEntryView>>::empty()
        &&& self.record.elections == Map::<u64, Election>::empty()
        &&& self.record.leader_logs == Map::<u64, Seq<LogEntryView>>::empty()
        &&& self.record.acks == Map::<(NodeId, u64), nat>::empty()
        &&& self.record.applied == Set::<LogEntryView>::empty()
    }
}

} // verus!
