//! Simulated network behavior.
//!
//! Same-tick, reliable, ordered delivery. Partition/loss/delay can layer on
//! later without changing the driver contract.

use std::collections::{BTreeSet, VecDeque};

use vstd::prelude::*;

use crate::config::NodeId;
use crate::raft::{RaftRpc, RpcView};

verus! {

broadcast use vstd::std_specs::btree::group_btree_axioms;

/// One in-flight RPC waiting for delivery.
#[derive(Debug, PartialEq, Eq)]
pub struct InFlight {
    pub from: NodeId,
    pub to: NodeId,
    pub rpc: RaftRpc,
}

/// What an [`InFlight`] holds.
pub struct InFlightView {
    pub from: NodeId,
    pub to: NodeId,
    pub rpc: RpcView,
}

impl View for InFlight {
    type V = InFlightView;

    open spec fn view(&self) -> InFlightView {
        InFlightView { from: self.from, to: self.to, rpc: self.rpc@ }
    }
}

impl Clone for InFlight {
    fn clone(&self) -> (r: Self)
        ensures
            r@ == self@,
    {
        InFlight { from: self.from, to: self.to, rpc: self.rpc.clone() }
    }
}

/// What queued messages hold, in order.
pub open spec fn queue_view(queue: Seq<InFlight>) -> Seq<InFlightView> {
    Seq::new(queue.len(), |i: int| queue[i]@)
}

/// Deterministic mailbox for RPCs between simulated nodes.
#[derive(Debug)]
pub struct Network {
    queue: VecDeque<InFlight>,
    /// Nodes whose inbound and outbound messages are silently dropped.
    isolated: BTreeSet<NodeId>,
}

/// What a [`Network`] holds.
#[verifier::ext_equal]
pub struct NetworkView {
    pub queue: Seq<InFlightView>,
    pub isolated: Set<NodeId>,
}

impl View for Network {
    type V = NetworkView;

    closed spec fn view(&self) -> NetworkView {
        NetworkView { queue: queue_view(self.queue@), isolated: self.isolated@ }
    }
}

impl NetworkView {
    /// A network without messages, with every node connected.
    pub open spec fn empty() -> NetworkView {
        NetworkView { queue: Seq::empty(), isolated: Set::empty() }
    }

    /// The network after a message was sent: it waits behind the others, unless
    /// either end is isolated.
    pub open spec fn enqueue(self, from: NodeId, to: NodeId, rpc: RpcView) -> NetworkView {
        if self.isolated.contains(from) || self.isolated.contains(to) {
            self
        } else {
            NetworkView { queue: self.queue.push(InFlightView { from, to, rpc }), ..self }
        }
    }
}

impl Default for Network {
    fn default() -> (r: Self)
        ensures
            r@ == NetworkView::empty(),
    {
        let r = Network { queue: VecDeque::new(), isolated: BTreeSet::new() };
        assert(r@ =~= NetworkView::empty());
        r
    }
}

impl Network {
    /// Creates an empty network.
    pub fn new() -> (r: Self)
        ensures
            r@ == NetworkView::empty(),
    {
        Self::default()
    }

    /// Drops all messages to or from `node_id` until [`Network::connect`] is called.
    pub fn isolate(&mut self, node_id: NodeId)
        ensures
            final(self)@ == (NetworkView {
                isolated: old(self)@.isolated.insert(node_id),
                ..old(self)@
            }),
    {
        self.isolated.insert(node_id);
    }

    /// Restores delivery for `node_id`.
    pub fn connect(&mut self, node_id: NodeId)
        ensures
            final(self)@ == (NetworkView {
                isolated: old(self)@.isolated.remove(node_id),
                ..old(self)@
            }),
    {
        self.isolated.remove(&node_id);
    }

    /// Enqueues an RPC for later delivery (FIFO).
    ///
    /// Silently drops the message if either endpoint is currently isolated.
    pub fn enqueue(&mut self, from: NodeId, to: NodeId, rpc: RaftRpc)
        ensures
            final(self)@ == old(self)@.enqueue(from, to, rpc@),
    {
        let ghost before = self@;
        let ghost sent = rpc@;
        if self.isolated.contains(&from) || self.isolated.contains(&to) {
            return;
        }
        self.queue.push_back(InFlight { from, to, rpc });
        assert(self@ =~= before.enqueue(from, to, sent));
    }

    /// Pops the next in-flight RPC, if any.
    pub fn pop_front(&mut self) -> (r: Option<InFlight>)
        ensures
            match r {
                Some(message) => old(self)@.queue.len() > 0 && message@ == old(self)@.queue[0]
                    && final(self)@ == (NetworkView {
                    queue: old(self)@.queue.skip(1),
                    ..old(self)@
                }),
                None => old(self)@.queue.len() == 0 && final(self)@ == old(self)@,
            },
    {
        let ghost before = self@;
        let r = self.queue.pop_front();
        proof {
            if r is Some {
                assert(self@.queue =~= before.queue.skip(1));
            } else {
                assert(self@ =~= before);
            }
        }
        r
    }

    /// Returns whether the mailbox is empty.
    pub fn is_empty(&self) -> (r: bool)
        ensures
            r == (self@.queue.len() == 0),
    {
        self.queue.len() == 0
    }

    /// Returns the number of queued RPCs.
    pub fn len(&self) -> (r: usize)
        ensures
            r == self@.queue.len(),
    {
        self.queue.len()
    }
}

/// While a node is isolated, nothing is queued to it or from it.
pub proof fn law_isolated_node_hears_nothing(
    network: NetworkView,
    from: NodeId,
    to: NodeId,
    rpc: RpcView,
)
    requires
        network.isolated.contains(from) || network.isolated.contains(to),
    ensures
        network.enqueue(from, to, rpc) == network,
{
}

/// Messages are delivered in the order in which they were sent.
pub proof fn law_delivery_is_first_in_first_out(
    network: NetworkView,
    from: NodeId,
    to: NodeId,
    rpc: RpcView,
)
    requires
        !network.isolated.contains(from),
        !network.isolated.contains(to),
        network.queue.len() > 0,
    ensures
        network.enqueue(from, to, rpc).queue[0] == network.queue[0],
        network.enqueue(from, to, rpc).queue.skip(1) == network.queue.skip(1).push(
            InFlightView { from, to, rpc },
        ),
{
    assert(network.enqueue(from, to, rpc).queue.skip(1) =~= network.queue.skip(1).push(
        InFlightView { from, to, rpc },
    ));
}

} // verus!
