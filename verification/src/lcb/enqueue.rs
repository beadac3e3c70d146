//! The messages that a node sends of its own accord.

use crate::lcb::broadcast::{beb_messages, best_effort_broadcast, reliable_broadcast};
use crate::lcb::config::Config;
use crate::lcb::delivered::payload_views;
use crate::lcb::hosts::NodeView;
use crate::lcb::link::{message_views, Message, MessageView, TcpHandler};
use crate::lcb::model::{DeliveredState, Topology};
use crate::lcb::network_error::NetworkError;
use crate::lcb::output::{
    decimal, decimal_bytes, delivery_views, dispatch_event, event_views, push_deliveries, LogEvent,
    LogEventView,
};
use crate::lcb::payload::{OwnerID, PacketID, Payload, PayloadKind, PayloadView, SenderID};
use vstd::prelude::*;

verus! {

/// What a node is to send and to write.
pub struct Enqueued {
    /// The messages for the sender, in their order.
    pub messages: Vec<Message>,
    /// The events for the output file, in their order.
    pub events: Vec<LogEvent>,
}

/// The payload number `uid` that node `owner` sends of its own accord: its
/// contents are the digits of the number.
pub open spec fn own_payload(owner: u32, uid: u32, kind: PayloadKind, clock: Seq<u32>) -> PayloadView {
    PayloadView {
        owner,
        sender: owner,
        uid,
        kind,
        is_ack: false,
        vector_clock: clock,
        buffer: decimal_bytes(uid as nat),
    }
}

/// Message number `uid` of a run over the link alone.
pub open spec fn tcp_message(owner: u32, uid: u32, destination: NodeView) -> MessageView {
    MessageView { payload: own_payload(owner, uid, PayloadKind::Tcp, seq![0u32]), destination }
}

/// The event that reports message number `uid` of a run over the link
/// alone.
pub open spec fn tcp_dispatch(uid: u32, destination: NodeView) -> LogEventView {
    LogEventView::Dispatch {
        recipient: Some(destination),
        kind: PayloadKind::Tcp,
        contents: decimal_bytes(uid as nat),
    }
}

/// The messages of a run over the link alone: the numbers from 1 to the
/// count, each to the receiver, unless this node is the receiver itself.
pub fn enqueue_tcp_messages(handler: &TcpHandler, config: &Config) -> (r: Result<
    Enqueued,
    NetworkError,
>)
    requires
        config.messages_count < u32::MAX,
    ensures
        match r {
            Err(e) => !handler.nodes.has(config.receiver_id) && e == NetworkError::UndefinedNodeID(
                config.receiver_id,
            ),
            Ok(queued) => {
                &&& handler.nodes.has(config.receiver_id)
                &&& queued.messages@.len() == queued.events@.len()
                &&& queued.messages@.len() == if handler.current_node_id == config.receiver_id {
                    0
                } else {
                    config.messages_count as int
                }
                &&& exists|place: int|
                    {
                        &&& 0 <= place < handler.nodes@.len()
                        &&& handler.nodes@[place].id == config.receiver_id
                        &&& forall|i: int|
                            0 <= i < queued.messages@.len() ==> {
                                &&& (#[trigger] queued.messages@[i])@ == tcp_message(
                                    handler.current_node_id,
                                    (i + 1) as u32,
                                    handler.nodes@[place],
                                )
                                &&& queued.events@[i]@ == tcp_dispatch(
                                    (i + 1) as u32,
                                    handler.nodes@[place],
                                )
                            }
                    }
            },
        },
{
    let destination = match handler.nodes.get(config.receiver_id) {
        Some(node) => node,
        None => {
            return Err(NetworkError::UndefinedNodeID(config.receiver_id));
        },
    };
    let ghost place = choose|i: int| 0 <= i < handler.nodes@.len() && handler.nodes@[i] == destination@;
    let mut messages: Vec<Message> = Vec::new();
    let mut events: Vec<LogEvent> = Vec::new();
    if handler.current_node_id == config.receiver_id {
        return Ok(Enqueued { messages, events });
    }
    let mut i: u32 = 1;
    while i < config.messages_count + 1
        invariant
            1 <= i <= config.messages_count + 1,
            config.messages_count < u32::MAX,
            0 <= place < handler.nodes@.len(),
            handler.nodes@[place] == destination@,
            messages@.len() == i - 1,
            events@.len() == i - 1,
            forall|j: int|
                0 <= j < messages@.len() ==> {
                    &&& (#[trigger] messages@[j])@ == tcp_message(
                        handler.current_node_id,
                        (j + 1) as u32,
                        handler.nodes@[place],
                    )
                    &&& events@[j]@ == tcp_dispatch((j + 1) as u32, handler.nodes@[place])
                },
        decreases config.messages_count + 1 - i,
    {
        let contents = decimal(i);
        let kind = PayloadKind::Tcp;
        let mut clock: Vec<u32> = Vec::new();
        clock.push(0);
        assert(clock@ =~= seq![0u32]);
        let payload = Payload {
            owner_id: OwnerID(handler.current_node_id),
            sender_id: SenderID(handler.current_node_id),
            packet_uid: PacketID(i),
            kind,
            is_ack: false,
            vector_clock: clock,
            buffer: contents.clone(),
        };
        messages.push(Message::new(payload, destination.duplicate()));
        events.push(dispatch_event(Some(destination.duplicate()), kind, contents));
        i = i + 1;
    }
    Ok(Enqueued { messages, events })
}

/// What `count` broadcasts of a node's own payloads bring about.
pub struct Broadcasts {
    pub state: DeliveredState,
    pub messages: Seq<MessageView>,
    pub events: Seq<LogEventView>,
}

/// The event that reports broadcast number `uid`.
pub open spec fn broadcast_dispatch(kind: PayloadKind, uid: u32) -> LogEventView {
    LogEventView::Dispatch { recipient: None, kind, contents: decimal_bytes(uid as nat) }
}

/// What the broadcasts numbered 1 to `count` bring about, one after the
/// other. Each payload carries the node's clock as it stands when its turn
/// comes. Each is reported, then broadcast: to every other node, and into
/// the node's own delivered state, unless the kind is a reliable one and
/// the node has seen the packet. The deliveries that this causes are
/// reported after it.
pub open spec fn after_broadcasts(
    st: DeliveredState,
    topo: Topology,
    nodes: Seq<NodeView>,
    owner: u32,
    seer: u32,
    kind: PayloadKind,
    count: nat,
) -> Broadcasts
    decreases count,
{
    if count == 0 {
        Broadcasts { state: st, messages: Seq::empty(), events: Seq::empty() }
    } else {
        let before = after_broadcasts(st, topo, nodes, owner, seer, kind, (count - 1) as nat);
        let p = own_payload(owner, count as u32, kind, before.state.vector_clock);
        let reported = before.events.push(broadcast_dispatch(kind, count as u32));
        if kind != PayloadKind::Beb && before.state.acked_by(seer, owner, count as u32) {
            Broadcasts { state: before.state, messages: before.messages, events: reported }
        } else {
            let next = before.state.insert(topo, seer, p);
            Broadcasts {
                state: next,
                messages: before.messages + beb_messages(nodes, owner, p),
                events: reported + delivery_views(next.log.skip(before.state.log.len() as int)),
            }
        }
    }
}

/// Whether the node's own payloads of `kind` fit its delivered state: a
/// causal payload needs the node and what it depends on within the clock.
pub open spec fn can_broadcast(handler: &TcpHandler, kind: PayloadKind) -> bool {
    let topo = handler.delivered.topology();
    let owner = handler.current_node_id;
    kind == PayloadKind::Lcb ==> {
        &&& owner <= topo.total_nodes
        &&& forall|i: int|
            0 <= i < topo.dependencies(owner).len() ==> (#[trigger] topo.dependencies(owner)[i])
                <= topo.total_nodes
    }
}

/// Broadcasts the node's own payloads numbered 1 to `messages_count` under
/// `kind`, which is one of the broadcast kinds.
pub fn enqueue_broadcast_messages(
    handler: &mut TcpHandler,
    messages_count: u32,
    kind: PayloadKind,
) -> (r: Enqueued)
    requires
        kind != PayloadKind::Tcp,
        messages_count < u32::MAX,
        can_broadcast(old(handler), kind),
    ensures
        final(handler).wf(),
        old(handler).same_setting(final(handler)),
        ({
            let all = after_broadcasts(
                old(handler).delivered.state(),
                old(handler).delivered.topology(),
                old(handler).nodes@,
                old(handler).current_node_id,
                old(handler).delivered.node_id(),
                kind,
                messages_count as nat,
            );
            &&& final(handler).delivered.state() == all.state
            &&& message_views(r.messages@) == all.messages
            &&& event_views(r.events@) == all.events
        }),
{
    proof {
        use_type_invariant(&handler.delivered);
        handler.delivered.law_sound();
    }
    let mut messages: Vec<Message> = Vec::new();
    let mut events: Vec<LogEvent> = Vec::new();
    let ghost start = handler.delivered.state();
    let ghost topo = handler.delivered.topology();
    let ghost nodes = handler.nodes@;
    let ghost owner = handler.current_node_id;
    let ghost seer = handler.delivered.node_id();
    let mut i: u32 = 1;
    assert(message_views(messages@) =~= Seq::<MessageView>::empty());
    assert(event_views(events@) =~= Seq::<LogEventView>::empty());
    while i < messages_count + 1
        invariant
            1 <= i <= messages_count + 1,
            messages_count < u32::MAX,
            kind != PayloadKind::Tcp,
            handler.wf(),
            old(handler).same_setting(handler),
            start == old(handler).delivered.state(),
            topo == handler.delivered.topology(),
            nodes == handler.nodes@,
            owner == handler.current_node_id,
            seer == handler.delivered.node_id(),
            can_broadcast(handler, kind),
            handler.delivered.state() == after_broadcasts(
                start,
                topo,
                nodes,
                owner,
                seer,
                kind,
                (i - 1) as nat,
            ).state,
            message_views(messages@) == after_broadcasts(
                start,
                topo,
                nodes,
                owner,
                seer,
                kind,
                (i - 1) as nat,
            ).messages,
            event_views(events@) == after_broadcasts(
                start,
                topo,
                nodes,
                owner,
                seer,
                kind,
                (i - 1) as nat,
            ).events,
        decreases messages_count + 1 - i,
    {
        let ghost before = after_broadcasts(start, topo, nodes, owner, seer, kind, (i - 1) as nat);
        let contents = decimal(i);
        let payload = Payload {
            owner_id: OwnerID(handler.current_node_id),
            sender_id: SenderID(handler.current_node_id),
            packet_uid: PacketID(i),
            kind,
            is_ack: false,
            vector_clock: handler.delivered.clone_vector_clock(),
            buffer: contents.clone(),
        };
        assert(payload@ == own_payload(owner, i, kind, before.state.vector_clock));
        let ghost shown = event_views(events@);
        events.push(dispatch_event(None, kind, contents));
        assert(event_views(events@) =~= shown.push(broadcast_dispatch(kind, i)));
        let ghost sent = message_views(messages@);
        let mut outcome = match kind {
            PayloadKind::Beb => best_effort_broadcast(handler, &payload),
            _ => reliable_broadcast(handler, &payload),
        };
        let ghost fresh = message_views(outcome.messages@);
        messages.append(&mut outcome.messages);
        assert(message_views(messages@) =~= sent + fresh);
        push_deliveries(&mut events, &outcome.delivered);
        proof {
            let next = handler.delivered.state();
            assert(payload_views(outcome.delivered@) =~= next.log.skip(
                before.state.log.len() as int,
            ));
            assert(outcome.delivered@.map_values(|p: Payload| p@) == payload_views(
                outcome.delivered@,
            ));
            if kind != PayloadKind::Beb && before.state.acked_by(seer, owner, i) {
                assert(delivery_views(payload_views(outcome.delivered@)) =~= Seq::<
                    LogEventView,
                >::empty());
                assert(event_views(events@) =~= shown.push(broadcast_dispatch(kind, i)));
                assert(message_views(messages@) =~= sent);
            }
        }
        i = i + 1;
    }
    Enqueued { messages, events }
}

/// Broadcasts the node's own payloads numbered 1 to `messages_count` in
/// FIFO order.
pub fn enqueue_messages(handler: &mut TcpHandler, messages_count: u32) -> (r: Enqueued)
    requires
        messages_count < u32::MAX,
    ensures
        final(handler).wf(),
        old(handler).same_setting(final(handler)),
        ({
            let all = after_broadcasts(
                old(handler).delivered.state(),
                old(handler).delivered.topology(),
                old(handler).nodes@,
                old(handler).current_node_id,
                old(handler).delivered.node_id(),
                PayloadKind::Fifob,
                messages_count as nat,
            );
            &&& final(handler).delivered.state() == all.state
            &&& message_views(r.messages@) == all.messages
            &&& event_views(r.events@) == all.events
        }),
{
    enqueue_broadcast_messages(handler, messages_count, PayloadKind::Fifob)
}

} // verus!
