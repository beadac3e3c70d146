//! The delivered state of one node: which senders acknowledged which
//! packets, what waits to be delivered, and what has been delivered.

use crate::lcb::invariants::{
    lemma_causal_le_ordered, lemma_deliver_inv, lemma_initial_inv, lemma_record_ack_inv,
    lemma_stash_inv,
};
use crate::lcb::model::{causal_count, ordered_count, pair_key, DeliveredState, Topology};
use crate::lcb::payload::{OwnerID, PacketID, Payload, PayloadKind, PayloadView, SenderID, VectorClock};
use std::collections::{HashMap, HashSet};
use vstd::prelude::*;

verus! {

broadcast use vstd::std_specs::hash::group_hash_axioms;

/// The contents of a list of payloads.
pub open spec fn payload_views(payloads: Seq<Payload>) -> Seq<PayloadView> {
    payloads.map_values(|p: Payload| p@)
}

/// The key of packet `uid` of `owner`.
pub fn packet_key(owner: u32, uid: u32) -> (key: u64)
    ensures
        key == pair_key(owner, uid),
{
    (owner as u64) * 0x1_0000_0000u64 + (uid as u64)
}

/// The tables of one node.
pub struct DeliveredSet {
    acked: HashMap<u64, HashSet<u32>>,
    acked_counter: HashMap<u64, u64>,
    received_up_to: HashMap<u32, u32>,
    undelivered: HashMap<u64, Payload>,
    set: HashSet<u64>,
    vector_clock: VectorClock,
    log: Ghost<Seq<PayloadView>>,
}

impl View for DeliveredSet {
    type V = DeliveredState;

    closed spec fn view(&self) -> DeliveredState {
        DeliveredState {
            acked: self.acked@.map_values(|s: HashSet<u32>| s@),
            acked_counter: self.acked_counter@,
            received_up_to: self.received_up_to@,
            undelivered: self.undelivered@.map_values(|p: Payload| p@),
            set: self.set@,
            vector_clock: self.vector_clock@,
            log: self.log@,
        }
    }
}

impl DeliveredSet {
    /// The tables of a node that has seen nothing, among `total_nodes`
    /// nodes numbered from 1.
    pub fn new(total_nodes: usize) -> (r: Self)
        requires
            total_nodes < usize::MAX,
        ensures
            r@ == DeliveredState::initial(total_nodes as nat),
    {
        let mut vector_clock: Vec<u32> = Vec::new();
        let mut i: usize = 0;
        while i < total_nodes + 1
            invariant
                i <= total_nodes + 1,
                total_nodes < usize::MAX,
                vector_clock@ == Seq::new(i as nat, |j: int| 0u32),
            decreases total_nodes + 1 - i,
        {
            vector_clock.push(0);
            i = i + 1;
            assert(vector_clock@ =~= Seq::new(i as nat, |j: int| 0u32));
        }
        let r = DeliveredSet {
            acked: HashMap::with_capacity(total_nodes),
            acked_counter: HashMap::with_capacity(total_nodes),
            received_up_to: HashMap::with_capacity(total_nodes),
            undelivered: HashMap::with_capacity(total_nodes),
            set: HashSet::with_capacity(total_nodes),
            vector_clock,
            log: Ghost(Seq::empty()),
        };
        assert(r@.acked =~= Map::empty());
        assert(r@.undelivered =~= Map::empty());
        r
    }

    /// Whether `sender` acknowledged the packet under `key`.
    fn has_ack(&self, sender: u32, key: u64) -> (r: bool)
        ensures
            r == self@.ackers(key).contains(sender),
    {
        match self.acked.get(&key) {
            Some(senders) => senders.contains(&sender),
            None => false,
        }
    }

    /// The recorded number of acknowledgements of the packet under `key`.
    fn ack_count(&self, key: u64) -> (r: u64)
        ensures
            r == self@.ack_count(key),
    {
        match self.acked_counter.get(&key) {
            Some(count) => *count,
            None => 0,
        }
    }

    /// The next packet number expected in order from `owner`.
    fn next_expected(&self, owner: u32) -> (r: u32)
        ensures
            r == self@.next_expected(owner),
    {
        match self.received_up_to.get(&owner) {
            Some(uid) => *uid,
            None => 1,
        }
    }

    /// Records that `sender` acknowledged `payload`.
    fn record_ack(&mut self, sender: u32, payload: &Payload, Ghost(topo): Ghost<Topology>)
        requires
            old(self)@.inv(topo),
        ensures
            final(self)@ == old(self)@.record_ack(sender, payload@),
            final(self)@.inv(topo),
    {
        let key = packet_key(payload.owner_id.0, payload.packet_uid.0);
        let ghost before = self@;
        proof {
            lemma_record_ack_inv(before, topo, sender, payload@);
            assert(before.ackers(key).finite());
            assert(before.ack_count(key) == before.ackers(key).len());
        }
        let mut senders = match self.acked.remove(&key) {
            Some(senders) => senders,
            None => HashSet::new(),
        };
        assert(senders@ == before.ackers(key));
        let fresh = senders.insert(sender);
        let count = self.ack_count(key);
        proof {
            assert(vstd::std_specs::hash::spec_hash_set_len(&senders) == senders@.len());
        }
        self.acked.insert(key, senders);
        if fresh {
            self.acked_counter.insert(key, count + 1);
        }
        assert(self@.acked =~= before.record_ack(sender, payload@).acked);
        assert(self@.undelivered =~= before.undelivered);
    }

    /// Puts `payload` among the undelivered payloads.
    fn stash(&mut self, payload: &Payload)
        ensures
            final(self)@ == old(self)@.stash(payload@),
    {
        let key = packet_key(payload.owner_id.0, payload.packet_uid.0);
        let ghost before = self@;
        self.undelivered.insert(key, payload.duplicate());
        assert(self@.undelivered =~= before.undelivered.insert(key, payload@));
        assert(self@.acked =~= before.acked);
    }

    /// A copy of the undelivered payload under `key`, if there is one.
    fn pending(&self, key: u64) -> (r: Option<Payload>)
        ensures
            match r {
                Some(p) => self@.undelivered.contains_key(key) && self@.undelivered[key] == p@,
                None => !self@.undelivered.contains_key(key),
            },
    {
        match self.undelivered.get(&key) {
            Some(p) => Some(p.duplicate()),
            None => None,
        }
    }

    /// Takes the payload under `key` out of the undelivered payloads.
    fn unstash(&mut self, key: u64)
        ensures
            final(self)@ == old(self)@.unstash(key),
    {
        let ghost before = self@;
        self.undelivered.remove(&key);
        assert(self@.undelivered =~= before.undelivered.remove(key));
        assert(self@.acked =~= before.acked);
    }

    /// Delivers `payload`.
    fn deliver(&mut self, payload: &Payload)
        requires
            payload@.kind.ordered() ==> payload@.uid < u32::MAX,
            payload@.kind == PayloadKind::Lcb ==> payload@.owner < old(self)@.vector_clock.len()
                && old(self)@.vector_clock[payload@.owner as int] < u32::MAX,
        ensures
            final(self)@ == old(self)@.deliver(payload@),
    {
        let key = packet_key(payload.owner_id.0, payload.packet_uid.0);
        let ghost before = self@;
        self.set.insert(key);
        self.log = Ghost(self.log@.push(payload@));
        match payload.kind {
            PayloadKind::Fifob => {
                self.received_up_to.insert(payload.owner_id.0, payload.packet_uid.0 + 1);
            },
            PayloadKind::Lcb => {
                self.received_up_to.insert(payload.owner_id.0, payload.packet_uid.0 + 1);
                let owner = payload.owner_id.0 as usize;
                let count = self.vector_clock[owner];
                self.vector_clock.set(owner, count + 1);
            },
            _ => {},
        }
        assert(self@.undelivered =~= before.undelivered);
        assert(self@.acked =~= before.acked);
    }
}

/// The topology that the two dependency tables describe.
pub open spec fn topology_of(
    total_nodes: usize,
    causality_map: HashMap<u32, Vec<u32>>,
    inverted_causality_map: HashMap<u32, Vec<u32>>,
) -> Topology {
    Topology {
        total_nodes: total_nodes as nat,
        depends_on: causality_map@.map_values(|v: Vec<u32>| v@),
        affects: inverted_causality_map@.map_values(|v: Vec<u32>| v@),
    }
}

/// The tables of one node together with the topology that its delivery
/// rules read, with their invariant stated apart.
struct Tables {
    delivered: DeliveredSet,
    causality_map: HashMap<u32, Vec<u32>>,
    inverted_causality_map: HashMap<u32, Vec<u32>>,
    total_nodes: usize,
    current_node_id: u32,
}

impl Tables {
    /// The nodes and dependencies that the rules read.
    spec fn topology(&self) -> Topology {
        Topology {
            total_nodes: self.total_nodes as nat,
            depends_on: self.causality_map@.map_values(|v: Vec<u32>| v@),
            affects: self.inverted_causality_map@.map_values(|v: Vec<u32>| v@),
        }
    }

    /// The tables.
    spec fn state(&self) -> DeliveredState {
        self.delivered@
    }

    /// The id of the node that owns this state.
    spec fn node_id(&self) -> u32 {
        self.current_node_id
    }

    /// The tables have the invariant of the delivery rules.
    spec fn wf(&self) -> bool {
        self.state().inv(self.topology())
    }

    /// Tables of no node, to stand in while the real ones are worked on.
    fn blank() -> (r: Self)
        ensures
            r.wf(),
    {
        Tables::new(DeliveredSet::new(0), 0, 0, HashMap::new(), HashMap::new())
    }

    /// Joins fresh tables with the topology.
    fn new(
        delivered: DeliveredSet,
        total_nodes: usize,
        current_node_id: u32,
        causality_map: HashMap<u32, Vec<u32>>,
        inverted_causality_map: HashMap<u32, Vec<u32>>,
    ) -> (r: Self)
        requires
            delivered@ == DeliveredState::initial(total_nodes as nat),
        ensures
            r.wf(),
            r.state() == DeliveredState::initial(total_nodes as nat),
            r.topology() == topology_of(total_nodes, causality_map, inverted_causality_map),
            r.node_id() == current_node_id,
    {
        let r = Tables {
            delivered,
            causality_map,
            inverted_causality_map,
            total_nodes,
            current_node_id,
        };
        proof {
            lemma_initial_inv(r.topology());
        }
        r
    }

    /// A copy of the node's vector clock.
    fn clone_vector_clock(&self) -> (r: VectorClock)
        ensures
            r@ == self.state().vector_clock,
    {
        let r = self.delivered.vector_clock.clone();
        assert(r@ =~= self.delivered.vector_clock@);
        r
    }

    /// Whether `sender_id` acknowledged packet `packet_uid` of `owner_id`.
    fn contains(&self, sender_id: SenderID, owner_id: OwnerID, packet_uid: PacketID) -> (r: bool)
        ensures
            r == self.state().acked_by(sender_id.0, owner_id.0, packet_uid.0),
    {
        self.delivered.has_ack(sender_id.0, packet_key(owner_id.0, packet_uid.0))
    }

    /// Whether this node itself acknowledged `payload`.
    fn was_seen(&self, payload: &Payload) -> (r: bool)
        ensures
            r == self.state().acked_by(self.node_id(), payload@.owner, payload@.uid),
    {
        self.contains(SenderID(self.current_node_id), payload.owner_id, payload.packet_uid)
    }

    /// Whether packet `packet_uid` of `owner_id` has been delivered.
    fn is_delivered(&self, owner_id: OwnerID, packet_uid: PacketID) -> (r: bool)
        ensures
            r == self.state().delivered(owner_id.0, packet_uid.0),
    {
        let key = packet_key(owner_id.0, packet_uid.0);
        self.delivered.set.contains(&key)
    }

    /// Whether `payload` fits, so that `insert` may take it.
    fn accepts(&self, payload: &Payload) -> (r: bool)
        requires
            self.wf(),
        ensures
            r == self.state().fits(self.topology(), payload@),
    {
        if payload.kind.is_ordered() && payload.packet_uid.0 == u32::MAX {
            return false;
        }
        match payload.kind {
            PayloadKind::Lcb => {},
            _ => {
                return true;
            },
        }
        let clock_len = self.delivered.vector_clock.len();
        if payload.owner_id.0 as usize >= clock_len {
            return false;
        }
        let ghost deps = self.topology().dependencies(payload@.owner);
        match self.causality_map.get(&payload.owner_id.0) {
            None => {
                assert(deps.len() == 0);
                true
            },
            Some(dependencies) => {
                assert(dependencies@ == deps);
                let mut i: usize = 0;
                while i < dependencies.len()
                    invariant
                        i <= dependencies.len(),
                        dependencies@ == deps,
                        deps == self.topology().dependencies(payload@.owner),
                        payload@.kind == PayloadKind::Lcb,
                        payload@.uid < u32::MAX,
                        payload@.owner < clock_len,
                        clock_len == self.state().vector_clock.len(),
                        forall|j: int|
                            0 <= j < i ==> (#[trigger] deps[j]) < clock_len && deps[j]
                                < payload@.vector_clock.len(),
                    decreases dependencies.len() - i,
                {
                    let dep = dependencies[i] as usize;
                    if dep >= clock_len || dep >= payload.vector_clock.len() {
                        assert(!(deps[i as int] < clock_len && deps[i as int]
                            < payload@.vector_clock.len()));
                        return false;
                    }
                    i = i + 1;
                }
                true
            },
        }
    }

    fn can_urb_deliver(&self, payload: &Payload) -> (r: bool)
        ensures
            r == self.state().can_urb_deliver(self.topology(), payload@),
    {
        let count = self.delivered.ack_count(
            packet_key(payload.owner_id.0, payload.packet_uid.0),
        );
        count >= (self.total_nodes / 2) as u64 + 1
    }

    fn can_fifob_deliver(&self, payload: &Payload) -> (r: bool)
        ensures
            r == self.state().can_fifob_deliver(self.topology(), payload@),
    {
        let urb_happy = self.can_urb_deliver(payload);
        let order_happy = payload.packet_uid.0 == self.delivered.next_expected(payload.owner_id.0);
        urb_happy && order_happy
    }

    fn can_lcb_deliver(&self, payload: &Payload) -> (r: bool)
        requires
            self.state().fits(self.topology(), payload@),
            payload@.kind == PayloadKind::Lcb,
        ensures
            r == self.state().can_lcb_deliver(self.topology(), payload@),
    {
        let fifob_happy = self.can_fifob_deliver(payload);
        let ghost deps = self.topology().dependencies(payload@.owner);
        let lcb_happy = match self.causality_map.get(&payload.owner_id.0) {
            None => {
                assert(deps.len() == 0);
                true
            },
            Some(dependencies) => {
                assert(dependencies@ == deps);
                let mut happy = true;
                let mut i: usize = 0;
                while i < dependencies.len()
                    invariant
                        i <= dependencies.len(),
                        dependencies@ == deps,
                        self.state().fits(self.topology(), payload@),
                        payload@.kind == PayloadKind::Lcb,
                        deps == self.topology().dependencies(payload@.owner),
                        happy == forall|j: int|
                            0 <= j < i ==> self.state().vector_clock[#[trigger] deps[j] as int]
                                >= payload@.vector_clock[deps[j] as int],
                    decreases dependencies.len() - i,
                {
                    let dep = dependencies[i] as usize;
                    assert(deps[i as int] < self.state().vector_clock.len());
                    if self.delivered.vector_clock[dep] < payload.vector_clock[dep] {
                        happy = false;
                    }
                    i = i + 1;
                }
                happy
            },
        };
        lcb_happy && fifob_happy
    }

    fn can_deliver(&self, payload: &Payload) -> (r: bool)
        requires
            self.state().fits(self.topology(), payload@),
        ensures
            r == self.state().can_deliver(self.topology(), payload@),
    {
        match payload.kind {
            PayloadKind::Tcp => true,
            PayloadKind::Beb => true,
            PayloadKind::Rb => true,
            PayloadKind::Urb => self.can_urb_deliver(payload),
            PayloadKind::Fifob => self.can_fifob_deliver(payload),
            PayloadKind::Lcb => self.can_lcb_deliver(payload),
        }
    }

    /// Puts on `work` the packets to try after `payload` has been delivered.
    fn push_follow_ups(&self, payload: &Payload, work: &mut Vec<(u32, u32)>)
        requires
            payload@.kind.ordered() ==> payload@.uid < u32::MAX,
        ensures
            final(work)@ == old(work)@ + self.state().follow_ups(self.topology(), payload@),
    {
        let ghost base = work@;
        let ghost state = self.state();
        match payload.kind {
            PayloadKind::Fifob => {
                work.push((payload.owner_id.0, payload.packet_uid.0 + 1));
                assert(work@ =~= base + state.follow_ups(self.topology(), payload@));
            },
            PayloadKind::Lcb => {
                work.push((payload.owner_id.0, payload.packet_uid.0 + 1));
                let ghost first = seq![(payload@.owner, (payload@.uid + 1) as u32)];
                let ghost affected = self.topology().dependents(payload@.owner);
                match self.inverted_causality_map.get(&payload.owner_id.0) {
                    None => {
                        assert(affected.len() == 0);
                        assert(work@ =~= base + state.follow_ups(self.topology(), payload@));
                    },
                    Some(affected_nodes) => {
                        assert(affected_nodes@ == affected);
                        let mut i: usize = 0;
                        while i < affected_nodes.len()
                            invariant
                                i <= affected_nodes.len(),
                                affected_nodes@ == affected,
                                state == self.state(),
                                work@ == base + first + affected.take(i as int).map_values(
                                    |a: u32| (a, state.next_expected(a)),
                                ),
                            decreases affected_nodes.len() - i,
                        {
                            let node = affected_nodes[i];
                            work.push((node, self.delivered.next_expected(node)));
                            i = i + 1;
                            assert(work@ =~= base + first + affected.take(i as int).map_values(
                                |a: u32| (a, state.next_expected(a)),
                            ));
                        }
                        assert(affected.take(i as int) =~= affected);
                        assert(work@ =~= base + state.follow_ups(self.topology(), payload@));
                    },
                }
            },
            _ => {
                assert(work@ =~= base + state.follow_ups(self.topology(), payload@));
            },
        }
    }

    /// Tries the packets of `work`, last first, and returns the payloads
    /// delivered, in the order of delivery.
    fn try_delivering(&mut self, work: &mut Vec<(u32, u32)>) -> (out: Vec<Payload>)
        requires
            old(self).wf(),
        ensures
            final(self).wf(),
            final(self).topology() == old(self).topology(),
            final(self).node_id() == old(self).node_id(),
            final(self).state() == old(self).state().try_deliver(
                old(self).topology(),
                old(work)@,
            ),
            final(self).state().log == old(self).state().log + payload_views(out@),
    {
        let mut out: Vec<Payload> = Vec::new();
        let ghost topo = self.topology();
        let ghost start = self.state();
        let ghost target = self.state().try_deliver(topo, work@);
        assert(start.log =~= start.log + payload_views(out@));
        while work.len() > 0
            invariant
                self.wf(),
                topo == old(self).topology(),
                start == old(self).state(),
                target == start.try_deliver(topo, old(work)@),
                self.topology() == topo,
                self.node_id() == old(self).node_id(),
                self.state().try_deliver(topo, work@) == target,
                self.state().log == start.log + payload_views(out@),
            decreases self.state().undelivered.dom().len(), work.len(),
        {
            let ghost before = self.state();
            let ghost full = work@;
            let (owner, uid) = work.pop().unwrap();
            assert(work@ =~= full.drop_last());
            assert(full.last() == (owner, uid));
            let key = packet_key(owner, uid);
            match self.delivered.pending(key) {
                None => {},
                Some(payload) => {
                    assert(before.fits(topo, payload@));
                    if !self.can_deliver(&payload) {
                        return out;
                    }
                    proof {
                        lemma_deliver_inv(before, topo, key);
                        lemma_causal_le_ordered(before.log, payload@.owner);
                        assert(before.next_expected(payload@.owner) == ordered_count(
                            before.log,
                            payload@.owner,
                        ) + 1);
                        assert(causal_count(before.log, payload@.owner) == if payload@.owner
                            < before.vector_clock.len() {
                            before.vector_clock[payload@.owner as int] as nat
                        } else {
                            0
                        });
                    }
                    self.delivered.unstash(key);
                    self.delivered.deliver(&payload);
                    self.push_follow_ups(&payload, work);
                    let ghost shown = payload_views(out@);
                    out.push(payload);
                    assert(payload_views(out@) =~= shown.push(payload@));
                    assert(self.state().log =~= start.log + payload_views(out@));
                },
            }
        }
        out
    }

    /// Takes in `payload` as it arrived from `sender_id`, and returns the
    /// payloads that this makes deliverable, in the order of delivery.
    fn insert(&mut self, sender_id: SenderID, payload: &Payload) -> (out: Vec<Payload>)
        requires
            old(self).wf(),
            old(self).state().fits(old(self).topology(), payload@),
        ensures
            final(self).wf(),
            final(self).topology() == old(self).topology(),
            final(self).node_id() == old(self).node_id(),
            final(self).state() == old(self).state().insert(
                old(self).topology(),
                sender_id.0,
                payload@,
            ),
            final(self).state().log == old(self).state().log + payload_views(out@),
    {
        let ghost topo = self.topology();
        self.delivered.record_ack(sender_id.0, payload, Ghost(topo));
        let key = packet_key(payload.owner_id.0, payload.packet_uid.0);
        let already_delivered = self.delivered.set.contains(&key);
        if !already_delivered {
            proof {
                lemma_stash_inv(self.state(), topo, payload@);
            }
            self.delivered.stash(payload);
            let mut work: Vec<(u32, u32)> = Vec::new();
            work.push((payload.owner_id.0, payload.packet_uid.0));
            assert(work@ =~= seq![(payload@.owner, payload@.uid)]);
            self.try_delivering(&mut work)
        } else {
            let out: Vec<Payload> = Vec::new();
            assert(self.state().log =~= self.state().log + payload_views(out@));
            out
        }
    }

    /// Records that this node itself has seen `payload`, which counts as its
    /// own acknowledgement.
    fn mark_as_seen(&mut self, payload: &Payload) -> (out: Vec<Payload>)
        requires
            old(self).wf(),
            old(self).state().fits(old(self).topology(), payload@),
        ensures
            final(self).wf(),
            final(self).topology() == old(self).topology(),
            final(self).node_id() == old(self).node_id(),
            final(self).state() == old(self).state().insert(
                old(self).topology(),
                old(self).node_id(),
                payload@,
            ),
            final(self).state().log == old(self).state().log + payload_views(out@),
    {
        self.insert(SenderID(self.current_node_id), payload)
    }
}

/// The delivered state of one node together with the topology that its
/// delivery rules read. The invariant of the delivery rules holds of it from
/// `new` on, whatever is called.
pub struct AccessDeliveredSet {
    inner: Tables,
}

impl AccessDeliveredSet {
    /// What is kept of every value of this type.
    #[verifier::type_invariant]
    pub closed spec fn sound(self) -> bool {
        self.inner.wf()
    }

    /// What is kept of every value of this type is the invariant of the
    /// delivery rules.
    pub proof fn law_sound(&self)
        requires
            self.sound(),
        ensures
            self.wf(),
    {
    }

    /// The nodes and dependencies that the rules read.
    pub closed spec fn topology(&self) -> Topology {
        self.inner.topology()
    }

    /// The tables.
    pub closed spec fn state(&self) -> DeliveredState {
        self.inner.state()
    }

    /// The id of the node that owns this state.
    pub closed spec fn node_id(&self) -> u32 {
        self.inner.node_id()
    }

    /// The tables have the invariant of the delivery rules.
    pub open spec fn wf(&self) -> bool {
        self.state().inv(self.topology())
    }

    /// Joins fresh tables with the topology.
    pub fn new(
        delivered: DeliveredSet,
        total_nodes: usize,
        current_node_id: u32,
        causality_map: HashMap<u32, Vec<u32>>,
        inverted_causality_map: HashMap<u32, Vec<u32>>,
    ) -> (r: Self)
        requires
            delivered@ == DeliveredState::initial(total_nodes as nat),
        ensures
            r.wf(),
            r.state() == DeliveredState::initial(total_nodes as nat),
            r.topology() == topology_of(total_nodes, causality_map, inverted_causality_map),
            r.node_id() == current_node_id,
    {
        AccessDeliveredSet {
            inner: Tables::new(
                delivered,
                total_nodes,
                current_node_id,
                causality_map,
                inverted_causality_map,
            ),
        }
    }

    /// A copy of the node's vector clock.
    pub fn clone_vector_clock(&self) -> (r: VectorClock)
        ensures
            self.wf(),
            r@ == self.state().vector_clock,
    {
        proof {
            use_type_invariant(self);
        }
        self.inner.clone_vector_clock()
    }

    /// Whether `sender_id` acknowledged packet `packet_uid` of `owner_id`.
    pub fn contains(&self, sender_id: SenderID, owner_id: OwnerID, packet_uid: PacketID) -> (r: bool)
        ensures
            self.wf(),
            r == self.state().acked_by(sender_id.0, owner_id.0, packet_uid.0),
    {
        proof {
            use_type_invariant(self);
        }
        self.inner.contains(sender_id, owner_id, packet_uid)
    }

    /// Whether this node itself acknowledged `payload`.
    pub fn was_seen(&self, payload: &Payload) -> (r: bool)
        ensures
            self.wf(),
            r == self.state().acked_by(self.node_id(), payload@.owner, payload@.uid),
    {
        proof {
            use_type_invariant(self);
        }
        self.inner.was_seen(payload)
    }

    /// Whether packet `packet_uid` of `owner_id` has been delivered.
    pub fn is_delivered(&self, owner_id: OwnerID, packet_uid: PacketID) -> (r: bool)
        ensures
            self.wf(),
            r == self.state().delivered(owner_id.0, packet_uid.0),
    {
        proof {
            use_type_invariant(self);
        }
        self.inner.is_delivered(owner_id, packet_uid)
    }

    /// Whether `payload` fits, so that `insert` may take it.
    pub fn accepts(&self, payload: &Payload) -> (r: bool)
        ensures
            self.wf(),
            r == self.state().fits(self.topology(), payload@),
    {
        proof {
            use_type_invariant(self);
        }
        self.inner.accepts(payload)
    }

    /// Takes in `payload` as it arrived from `sender_id`, and returns the
    /// payloads that this makes deliverable, in the order of delivery.
    pub fn insert(&mut self, sender_id: SenderID, payload: &Payload) -> (out: Vec<Payload>)
        requires
            old(self).state().fits(old(self).topology(), payload@),
        ensures
            old(self).wf(),
            final(self).wf(),
            final(self).topology() == old(self).topology(),
            final(self).node_id() == old(self).node_id(),
            final(self).state() == old(self).state().insert(
                old(self).topology(),
                sender_id.0,
                payload@,
            ),
            final(self).state().log == old(self).state().log + payload_views(out@),
    {
        proof {
            use_type_invariant(&*self);
        }
        let mut inner = Tables::blank();
        std::mem::swap(&mut inner, &mut self.inner);
        let out = inner.insert(sender_id, payload);
        self.inner = inner;
        out
    }

    /// Records that this node itself has seen `payload`, which counts as its
    /// own acknowledgement.
    pub fn mark_as_seen(&mut self, payload: &Payload) -> (out: Vec<Payload>)
        requires
            old(self).state().fits(old(self).topology(), payload@),
        ensures
            old(self).wf(),
            final(self).wf(),
            final(self).topology() == old(self).topology(),
            final(self).node_id() == old(self).node_id(),
            final(self).state() == old(self).state().insert(
                old(self).topology(),
                old(self).node_id(),
                payload@,
            ),
            final(self).state().log == old(self).state().log + payload_views(out@),
    {
        proof {
            use_type_invariant(&*self);
        }
        let mut inner = Tables::blank();
        std::mem::swap(&mut inner, &mut self.inner);
        let out = inner.mark_as_seen(payload);
        self.inner = inner;
        out
    }
}

} // verus!
