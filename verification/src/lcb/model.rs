//! The delivered state as mathematical values, and the delivery rules
//! stated over them.

use crate::lcb::payload::{PayloadKind, PayloadView};
use vstd::prelude::*;

verus! {

/// The key under which everything about one packet of one owner is kept:
/// the owner in the upper half, the packet number in the lower half.
pub open spec fn pair_key(owner: u32, uid: u32) -> u64 {
    (owner as u64 * 0x1_0000_0000 + uid as u64) as u64
}

/// The key of a payload.
pub open spec fn key_of(p: PayloadView) -> u64 {
    pair_key(p.owner, p.uid)
}

/// The number of acknowledging nodes that makes a payload uniformly
/// deliverable.
pub open spec fn majority(total_nodes: nat) -> nat {
    total_nodes / 2 + 1
}

/// How many payloads of ordered kinds `log` holds from `owner`.
pub open spec fn ordered_count(log: Seq<PayloadView>, owner: u32) -> nat
    decreases log.len(),
{
    if log.len() == 0 {
        0
    } else {
        ordered_count(log.drop_last(), owner) + if log.last().owner == owner
            && log.last().kind.ordered() {
            1nat
        } else {
            0nat
        }
    }
}

/// How many causal payloads `log` holds from `owner`.
pub open spec fn causal_count(log: Seq<PayloadView>, owner: u32) -> nat
    decreases log.len(),
{
    if log.len() == 0 {
        0
    } else {
        causal_count(log.drop_last(), owner) + if log.last().owner == owner && log.last().kind
            == PayloadKind::Lcb {
            1nat
        } else {
            0nat
        }
    }
}

/// The nodes and the causal dependencies among them.
pub struct Topology {
    pub total_nodes: nat,
    /// For each owner, the owners whose payloads it waits for.
    pub depends_on: Map<u32, Seq<u32>>,
    /// For each owner, the owners that wait for its payloads.
    pub affects: Map<u32, Seq<u32>>,
}

impl Topology {
    /// The owners that `owner` waits for.
    pub open spec fn dependencies(self, owner: u32) -> Seq<u32> {
        if self.depends_on.contains_key(owner) {
            self.depends_on[owner]
        } else {
            Seq::empty()
        }
    }

    /// The owners that wait for `owner`.
    pub open spec fn dependents(self, owner: u32) -> Seq<u32> {
        if self.affects.contains_key(owner) {
            self.affects[owner]
        } else {
            Seq::empty()
        }
    }
}

/// Everything one node has recorded about acknowledgements and deliveries.
pub struct DeliveredState {
    /// For each packet, the senders that acknowledged it.
    pub acked: Map<u64, Set<u32>>,
    /// For each packet, the number of senders that acknowledged it.
    pub acked_counter: Map<u64, u64>,
    /// For each owner, the next packet number expected in order.
    pub received_up_to: Map<u32, u32>,
    /// Payloads received and not yet delivered.
    pub undelivered: Map<u64, PayloadView>,
    /// Packets delivered.
    pub set: Set<u64>,
    /// For each node, the number of causal payloads delivered from it.
    pub vector_clock: Seq<u32>,
    /// Every payload delivered so far, in the order of delivery.
    pub log: Seq<PayloadView>,
}

impl DeliveredState {
    /// The state of a node that has seen nothing.
    pub open spec fn initial(total_nodes: nat) -> DeliveredState {
        DeliveredState {
            acked: Map::empty(),
            acked_counter: Map::empty(),
            received_up_to: Map::empty(),
            undelivered: Map::empty(),
            set: Set::empty(),
            vector_clock: Seq::new(total_nodes + 1, |i: int| 0u32),
            log: Seq::empty(),
        }
    }

    /// The senders that acknowledged a packet.
    pub open spec fn ackers(self, key: u64) -> Set<u32> {
        if self.acked.contains_key(key) {
            self.acked[key]
        } else {
            Set::empty()
        }
    }

    /// Whether `sender` acknowledged packet `uid` of `owner`.
    pub open spec fn acked_by(self, sender: u32, owner: u32, uid: u32) -> bool {
        self.ackers(pair_key(owner, uid)).contains(sender)
    }

    /// The recorded number of acknowledgements of a packet.
    pub open spec fn ack_count(self, key: u64) -> nat {
        if self.acked_counter.contains_key(key) {
            self.acked_counter[key] as nat
        } else {
            0
        }
    }

    /// The next packet number expected in order from `owner`.
    pub open spec fn next_expected(self, owner: u32) -> u32 {
        if self.received_up_to.contains_key(owner) {
            self.received_up_to[owner]
        } else {
            1
        }
    }

    /// Whether packet `uid` of `owner` has been delivered.
    pub open spec fn delivered(self, owner: u32, uid: u32) -> bool {
        self.set.contains(pair_key(owner, uid))
    }

    /// Whether a majority of the nodes acknowledged the payload.
    pub open spec fn can_urb_deliver(self, topo: Topology, p: PayloadView) -> bool {
        self.ack_count(key_of(p)) >= majority(topo.total_nodes)
    }

    /// Uniformly deliverable and next in its owner's order.
    pub open spec fn can_fifob_deliver(self, topo: Topology, p: PayloadView) -> bool {
        self.can_urb_deliver(topo, p) && p.uid == self.next_expected(p.owner)
    }

    /// Whether this node has delivered, from each owner that the payload's
    /// owner depends on, as many causal payloads as the payload's clock asks.
    pub open spec fn dependencies_met(self, topo: Topology, p: PayloadView) -> bool {
        let deps = topo.dependencies(p.owner);
        forall|i: int|
            0 <= i < deps.len() ==> self.vector_clock[#[trigger] deps[i] as int]
                >= p.vector_clock[deps[i] as int]
    }

    /// In order, and with its dependencies met.
    pub open spec fn can_lcb_deliver(self, topo: Topology, p: PayloadView) -> bool {
        self.can_fifob_deliver(topo, p) && self.dependencies_met(topo, p)
    }

    /// The delivery rule of each kind.
    pub open spec fn can_deliver(self, topo: Topology, p: PayloadView) -> bool {
        match p.kind {
            PayloadKind::Tcp => true,
            PayloadKind::Beb => true,
            PayloadKind::Rb => true,
            PayloadKind::Urb => self.can_urb_deliver(topo, p),
            PayloadKind::Fifob => self.can_fifob_deliver(topo, p),
            PayloadKind::Lcb => self.can_lcb_deliver(topo, p),
        }
    }

    /// A payload on which no step of delivery leaves the machine's numbers:
    /// an ordered one has a successor number, and a causal one finds its
    /// owner and its dependencies in both clocks.
    pub open spec fn fits(self, topo: Topology, p: PayloadView) -> bool {
        &&& p.kind.ordered() ==> p.uid < u32::MAX
        &&& p.kind == PayloadKind::Lcb ==> {
            &&& p.owner < self.vector_clock.len()
            &&& forall|i: int|
                0 <= i < topo.dependencies(p.owner).len() ==> {
                    &&& (#[trigger] topo.dependencies(p.owner)[i]) < self.vector_clock.len()
                    &&& topo.dependencies(p.owner)[i] < p.vector_clock.len()
                }
        }
    }

    /// The state after `sender` is recorded as having acknowledged `p`.
    pub open spec fn record_ack(self, sender: u32, p: PayloadView) -> DeliveredState {
        let key = key_of(p);
        DeliveredState {
            acked: self.acked.insert(key, self.ackers(key).insert(sender)),
            acked_counter: if self.ackers(key).contains(sender) {
                self.acked_counter
            } else {
                self.acked_counter.insert(key, (self.ack_count(key) + 1) as u64)
            },
            ..self
        }
    }

    /// The state after `p` is put among the undelivered payloads.
    pub open spec fn stash(self, p: PayloadView) -> DeliveredState {
        DeliveredState { undelivered: self.undelivered.insert(key_of(p), p), ..self }
    }

    /// The state after the payload under `key` has left the undelivered
    /// payloads.
    pub open spec fn unstash(self, key: u64) -> DeliveredState {
        DeliveredState { undelivered: self.undelivered.remove(key), ..self }
    }

    /// The state after `p` is delivered: it joins the delivered set and the
    /// log, and, by its kind, moves its owner's expected number and clock
    /// entry.
    pub open spec fn deliver(self, p: PayloadView) -> DeliveredState {
        let key = key_of(p);
        DeliveredState {
            set: self.set.insert(key),
            log: self.log.push(p),
            received_up_to: if p.kind.ordered() {
                self.received_up_to.insert(p.owner, (p.uid + 1) as u32)
            } else {
                self.received_up_to
            },
            vector_clock: if p.kind == PayloadKind::Lcb {
                self.vector_clock.update(
                    p.owner as int,
                    (self.vector_clock[p.owner as int] + 1) as u32,
                )
            } else {
                self.vector_clock
            },
            ..self
        }
    }

    /// The packets to try after `p` has been delivered into this state: for
    /// an ordered kind its owner's next packet, and for a causal payload
    /// also the expected packet of each owner that waits for its owner.
    pub open spec fn follow_ups(self, topo: Topology, p: PayloadView) -> Seq<(u32, u32)> {
        if p.kind == PayloadKind::Fifob {
            seq![(p.owner, (p.uid + 1) as u32)]
        } else if p.kind == PayloadKind::Lcb {
            seq![(p.owner, (p.uid + 1) as u32)] + topo.dependents(p.owner).map_values(
                |a: u32| (a, self.next_expected(a)),
            )
        } else {
            Seq::empty()
        }
    }

    /// The state after the packets of `work` have been tried, last first. A
    /// packet that is not among the undelivered is passed over; one that
    /// cannot be delivered ends the run; one that can leaves the undelivered
    /// payloads, is delivered, and its follow-ups are tried next.
    pub open spec fn try_deliver(self, topo: Topology, work: Seq<(u32, u32)>) -> DeliveredState
        decreases self.undelivered.dom().len(), work.len(),
        when self.undelivered.dom().finite()
    {
        if work.len() == 0 {
            self
        } else {
            let key = pair_key(work.last().0, work.last().1);
            if !self.undelivered.contains_key(key) {
                self.try_deliver(topo, work.drop_last())
            } else {
                let p = self.undelivered[key];
                if !self.can_deliver(topo, p) {
                    self
                } else {
                    let next = self.unstash(key).deliver(p);
                    proof {
                        assert(next.undelivered.dom() =~= self.undelivered.dom().remove(key));
                    }
                    next.try_deliver(topo, work.drop_last() + next.follow_ups(topo, p))
                }
            }
        }
    }

    /// The state after `p` has arrived from `sender`: the acknowledgement is
    /// recorded, and unless the packet was delivered before, the payload is
    /// stashed and tried.
    pub open spec fn insert(self, topo: Topology, sender: u32, p: PayloadView) -> DeliveredState {
        let acked = self.record_ack(sender, p);
        if acked.set.contains(key_of(p)) {
            acked
        } else {
            acked.stash(p).try_deliver(topo, seq![(p.owner, p.uid)])
        }
    }
}

} // verus!
