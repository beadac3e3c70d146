//! The reliable link: what the sender, the receiver and the retransmitter
//! decide. Sockets, queues and clocks are the caller's.

use crate::lcb::broadcast::{beb_messages, reliable_broadcast};
use crate::lcb::delivered::{payload_views, AccessDeliveredSet};
use crate::lcb::hosts::{Node, NodeView, Nodes};
use crate::lcb::invariants::{lemma_insert_acks, lemma_insert_inv};
use crate::lcb::laws::law_repeated_arrival;
use crate::lcb::model::DeliveredState;
use crate::lcb::network_error::NetworkError;
use crate::lcb::payload::{Payload, PayloadKind, PayloadView, SenderID};
use vstd::prelude::*;

verus! {

/// What every task of a node knows: the nodes, its own id, and the
/// delivered state.
pub struct TcpHandler {
    pub nodes: Nodes,
    pub current_node_id: u32,
    pub delivered: AccessDeliveredSet,
}

impl TcpHandler {
    /// The delivered state has its invariant.
    pub open spec fn wf(&self) -> bool {
        self.delivered.wf()
    }

    /// Whether `next` has the nodes, the id and the topology of `self`.
    pub open spec fn same_setting(&self, next: &TcpHandler) -> bool {
        &&& next.nodes@ == self.nodes@
        &&& next.current_node_id == self.current_node_id
        &&& next.delivered.node_id() == self.delivered.node_id()
        &&& next.delivered.topology() == self.delivered.topology()
    }
}

/// A payload on its way to a node.
#[derive(Debug)]
pub struct Message {
    pub payload: Payload,
    pub destination: Node,
}

/// A message as mathematical values.
pub struct MessageView {
    pub payload: PayloadView,
    pub destination: NodeView,
}

impl View for Message {
    type V = MessageView;

    open spec fn view(&self) -> MessageView {
        MessageView { payload: self.payload@, destination: self.destination@ }
    }
}

/// The contents of a list of messages.
pub open spec fn message_views(messages: Seq<Message>) -> Seq<MessageView> {
    messages.map_values(|m: Message| m@)
}

impl Message {
    /// `payload` on its way to `destination`.
    pub fn new(payload: Payload, destination: Node) -> (r: Self)
        ensures
            r.payload == payload,
            r.destination == destination,
    {
        Message { payload, destination }
    }

    /// Whether the message is sent again until it is acknowledged:
    /// acknowledgements are not.
    pub fn should_retransmit(&self) -> (r: bool)
        ensures
            r == !self@.payload.is_ack,
    {
        !self.payload.is_ack
    }

    /// Whether a message sent `elapsed_ms` ago is due for another try, with
    /// `offset_ms` between tries.
    pub fn ready_for_retransmission(elapsed_ms: u64, offset_ms: u64) -> (r: bool)
        ensures
            r == (elapsed_ms >= offset_ms),
    {
        elapsed_ms >= offset_ms
    }
}

/// The time between two looks at the clock while a message waits for its
/// next try: a tenth of the time between tries.
pub fn polling_interval(offset_ms: u64) -> (r: u64)
    ensures
        r == offset_ms / 10,
{
    offset_ms / 10
}

/// The sender's step: the message as it goes on the wire, with this node as
/// its sender.
pub fn stamp_for_sending(handler: &TcpHandler, message: Message) -> (r: Message)
    ensures
        r@.destination == message@.destination,
        r@.payload == (PayloadView { sender: handler.current_node_id, ..message@.payload }),
{
    let mut message = message;
    message.payload.sender_id = SenderID(handler.current_node_id);
    message
}

/// The retransmitter's step: whether a message that is due goes back to the
/// sender. It does unless its destination has acknowledged the packet.
pub fn needs_retransmission(handler: &TcpHandler, message: &Message) -> (r: bool)
    ensures
        r == !handler.delivered.state().acked_by(
            message@.destination.id,
            message@.payload.owner,
            message@.payload.uid,
        ),
{
    !handler.delivered.contains(
        SenderID(message.destination.id),
        message.payload.owner_id,
        message.payload.packet_uid,
    )
}

/// What the receiver does with a payload.
pub struct Received {
    /// The acknowledgement to send to the payload's sender.
    pub ack: Option<Message>,
    /// The messages by which the payload is broadcast on.
    pub forwarded: Vec<Message>,
    /// The payloads delivered, in the order of delivery.
    pub delivered: Vec<Payload>,
}

/// Whether payloads of this kind are broadcast on by a node that receives
/// them.
pub open spec fn forwards(kind: PayloadKind) -> bool {
    kind != PayloadKind::Tcp && kind != PayloadKind::Beb
}

/// The delivered state after a node has received `p`: the payload is
/// inserted for its sender, and where its kind is broadcast on and this
/// node had not seen it, also for this node itself.
pub open spec fn state_after_receive(
    st: DeliveredState,
    handler: &TcpHandler,
    p: PayloadView,
) -> DeliveredState {
    let topo = handler.delivered.topology();
    let taken = st.insert(topo, p.sender, p);
    if forwards(p.kind) && !taken.acked_by(handler.delivered.node_id(), p.owner, p.uid) {
        taken.insert(topo, handler.delivered.node_id(), p)
    } else {
        taken
    }
}

/// The messages by which a node that has received `p` broadcasts it on.
pub open spec fn messages_after_receive(
    st: DeliveredState,
    handler: &TcpHandler,
    p: PayloadView,
) -> Seq<MessageView> {
    let taken = st.insert(handler.delivered.topology(), p.sender, p);
    if forwards(p.kind) && !taken.acked_by(handler.delivered.node_id(), p.owner, p.uid) {
        beb_messages(handler.nodes@, handler.current_node_id, p)
    } else {
        Seq::empty()
    }
}

/// A node that has received a payload of a kind that is broadcast on has
/// acknowledged it itself, so that it never broadcasts it on twice.
pub proof fn law_received_is_seen(st: DeliveredState, handler: &TcpHandler, p: PayloadView)
    requires
        st.inv(handler.delivered.topology()),
        st.fits(handler.delivered.topology(), p),
        forwards(p.kind),
    ensures
        state_after_receive(st, handler, p).acked_by(handler.delivered.node_id(), p.owner, p.uid),
        messages_after_receive(state_after_receive(st, handler, p), handler, p).len() == 0,
{
    let topo = handler.delivered.topology();
    let me = handler.delivered.node_id();
    let taken = st.insert(topo, p.sender, p);
    lemma_insert_inv(st, topo, p.sender, p);
    lemma_insert_acks(st, topo, p.sender, p);
    let after = state_after_receive(st, handler, p);
    if !taken.acked_by(me, p.owner, p.uid) {
        assert(taken.vector_clock.len() == st.vector_clock.len());
        lemma_insert_acks(taken, topo, me, p);
    }
    assert(after.acked_by(me, p.owner, p.uid));
    lemma_insert_inv(taken, topo, me, p);
    lemma_insert_acks(after, topo, p.sender, p);
}

/// A datagram that arrives twice is taken once: the second arrival of a
/// payload leaves the delivered state as the first left it, and nothing is
/// broadcast on for it.
pub proof fn law_duplicate_datagram(st: DeliveredState, handler: &TcpHandler, p: PayloadView)
    requires
        st.inv(handler.delivered.topology()),
        st.fits(handler.delivered.topology(), p),
    ensures
        state_after_receive(state_after_receive(st, handler, p), handler, p) == state_after_receive(
            st,
            handler,
            p,
        ),
        messages_after_receive(state_after_receive(st, handler, p), handler, p).len() == 0,
{
    let topo = handler.delivered.topology();
    let me = handler.delivered.node_id();
    let taken = st.insert(topo, p.sender, p);
    let after = state_after_receive(st, handler, p);
    lemma_insert_inv(st, topo, p.sender, p);
    lemma_insert_acks(st, topo, p.sender, p);
    if forwards(p.kind) && !taken.acked_by(me, p.owner, p.uid) {
        lemma_insert_inv(taken, topo, me, p);
        lemma_insert_acks(taken, topo, me, p);
        law_repeated_arrival(taken, topo, me, p.sender, p);
    } else {
        law_repeated_arrival(st, topo, p.sender, p.sender, p);
    }
}

/// The receiver's step. A payload that is no acknowledgement is
/// acknowledged to its sender, who must be among the nodes. Then the
/// payload is taken into the delivered state, and by its kind broadcast on.
pub fn receive(handler: &mut TcpHandler, payload: &Payload) -> (r: Result<Received, NetworkError>)
    requires
        old(handler).delivered.state().fits(old(handler).delivered.topology(), payload@),
    ensures
        final(handler).wf(),
        old(handler).same_setting(final(handler)),
        match r {
            Err(e) => {
                &&& !payload@.is_ack
                &&& !old(handler).nodes.has(payload@.sender)
                &&& e == NetworkError::UndefinedNodeID(payload@.sender)
                &&& final(handler).delivered.state() == old(handler).delivered.state()
            },
            Ok(received) => {
                &&& payload@.is_ack || old(handler).nodes.has(payload@.sender)
                &&& match received.ack {
                    None => payload@.is_ack,
                    Some(ack) => {
                        &&& !payload@.is_ack
                        &&& ack@.payload == (PayloadView { is_ack: true, ..payload@ })
                        &&& ack@.destination.id == payload@.sender
                        &&& exists|i: int|
                            0 <= i < old(handler).nodes@.len() && old(handler).nodes@[i]
                                == ack@.destination
                    },
                }
                &&& final(handler).delivered.state() == state_after_receive(
                    old(handler).delivered.state(),
                    old(handler),
                    payload@,
                )
                &&& message_views(received.forwarded@) == messages_after_receive(
                    old(handler).delivered.state(),
                    old(handler),
                    payload@,
                )
                &&& final(handler).delivered.state().log == old(handler).delivered.state().log
                    + payload_views(received.delivered@)
            },
        },
{
    proof {
        use_type_invariant(&handler.delivered);
        handler.delivered.law_sound();
    }
    let ack = if !payload.is_ack {
        match handler.nodes.get(payload.sender_id.0) {
            None => {
                return Err(NetworkError::UndefinedNodeID(payload.sender_id.0));
            },
            Some(destination) => Some(Message::new(payload.acknowledgement(), destination.duplicate())),
        }
    } else {
        None
    };
    let ghost start = handler.delivered.state();
    let mut delivered = handler.delivered.insert(payload.sender_id, payload);
    let ghost taken = handler.delivered.state();
    let forwarded = match payload.kind {
        PayloadKind::Tcp => Vec::new(),
        PayloadKind::Beb => Vec::new(),
        _ => {
            let mut onward = reliable_broadcast(handler, payload);
            let ghost first = payload_views(delivered@);
            let ghost second = payload_views(onward.delivered@);
            delivered.append(&mut onward.delivered);
            assert(payload_views(delivered@) =~= first + second);
            assert(handler.delivered.state().log =~= start.log + payload_views(delivered@));
            onward.messages
        },
    };
    Ok(Received { ack, forwarded, delivered })
}

} // verus!
