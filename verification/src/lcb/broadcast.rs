//! The broadcast ladder: best effort, reliable, uniform reliable, FIFO and
//! localized causal broadcast. Each hands back the messages to send; the
//! order and the agreement of the stronger kinds come from the delivery
//! rules.

use crate::lcb::delivered::payload_views;
use crate::lcb::hosts::NodeView;
use crate::lcb::invariants::lemma_insert_acks;
use crate::lcb::link::{message_views, Message, MessageView, TcpHandler};
use crate::lcb::payload::{Payload, PayloadView};
use vstd::prelude::*;

verus! {

/// What a broadcast asks of the caller and what it brought about.
pub struct Broadcast {
    /// The messages to send, one for each other node.
    pub messages: Vec<Message>,
    /// The payloads delivered at this node, in the order of delivery.
    pub delivered: Vec<Payload>,
}

/// `p` on its way to every node of `nodes` but `me`, in their order.
pub open spec fn beb_messages(nodes: Seq<NodeView>, me: u32, p: PayloadView) -> Seq<MessageView>
    decreases nodes.len(),
{
    if nodes.len() == 0 {
        Seq::empty()
    } else {
        let before = beb_messages(nodes.drop_last(), me, p);
        if nodes.last().id == me {
            before
        } else {
            before.push(MessageView { payload: p, destination: nodes.last() })
        }
    }
}

/// A broadcast among nodes with ids of their own, this node among them,
/// makes one message less than there are nodes: one for each node but this
/// one, each with the payload, none to this node itself.
pub proof fn law_one_message_for_each_other_node(nodes: Seq<NodeView>, me: u32, p: PayloadView)
    requires
        forall|i: int, j: int|
            0 <= i < j < nodes.len() ==> (#[trigger] nodes[i]).id != (#[trigger] nodes[j]).id,
    ensures
        beb_messages(nodes, me, p).len() == nodes.len() - if exists|i: int|
            0 <= i < nodes.len() && (#[trigger] nodes[i]).id == me {
            1int
        } else {
            0int
        },
        forall|k: int|
            0 <= k < beb_messages(nodes, me, p).len() ==> {
                &&& (#[trigger] beb_messages(nodes, me, p)[k]).payload == p
                &&& beb_messages(nodes, me, p)[k].destination.id != me
                &&& nodes.contains(beb_messages(nodes, me, p)[k].destination)
            },
        forall|i: int|
            0 <= i < nodes.len() && (#[trigger] nodes[i]).id != me ==> exists|k: int|
                0 <= k < beb_messages(nodes, me, p).len() && (#[trigger] beb_messages(
                    nodes,
                    me,
                    p,
                )[k]).destination == nodes[i],
    decreases nodes.len(),
{
    if nodes.len() > 0 {
        let front = nodes.drop_last();
        let last = nodes.last();
        let sent = beb_messages(nodes, me, p);
        let before = beb_messages(front, me, p);
        assert forall|i: int, j: int| 0 <= i < j < front.len() implies (#[trigger] front[i]).id != (
        #[trigger] front[j]).id by {
            assert(nodes[i].id != nodes[j].id);
        }
        law_one_message_for_each_other_node(front, me, p);
        if last.id == me {
            if exists|i: int| 0 <= i < front.len() && (#[trigger] front[i]).id == me {
                let i = choose|i: int| 0 <= i < front.len() && (#[trigger] front[i]).id == me;
                assert(nodes[i].id != nodes[nodes.len() - 1].id);
            }
            assert(nodes[nodes.len() - 1].id == me);
        } else {
            if exists|i: int| 0 <= i < nodes.len() && (#[trigger] nodes[i]).id == me {
                let i = choose|i: int| 0 <= i < nodes.len() && (#[trigger] nodes[i]).id == me;
                assert(front[i].id == me);
            }
            if exists|i: int| 0 <= i < front.len() && (#[trigger] front[i]).id == me {
                let i = choose|i: int| 0 <= i < front.len() && (#[trigger] front[i]).id == me;
                assert(nodes[i].id == me);
            }
        }
        assert forall|k: int| 0 <= k < sent.len() implies {
            &&& (#[trigger] sent[k]).payload == p
            &&& sent[k].destination.id != me
            &&& nodes.contains(sent[k].destination)
        } by {
            if k < before.len() {
                assert(sent[k] == before[k]);
                let i = choose|i: int| 0 <= i < front.len() && front[i] == before[k].destination;
                assert(nodes[i] == before[k].destination);
            } else {
                assert(nodes[nodes.len() - 1] == sent[k].destination);
            }
        }
        assert forall|i: int| 0 <= i < nodes.len() && (#[trigger] nodes[i]).id != me implies exists|
            k: int,
        | 0 <= k < sent.len() && (#[trigger] sent[k]).destination == nodes[i] by {
            if i < front.len() {
                assert(front[i].id != me);
                let k = choose|k: int|
                    0 <= k < before.len() && (#[trigger] before[k]).destination == front[i];
                assert(sent[k].destination == nodes[i]);
            } else {
                assert(sent[sent.len() - 1].destination == nodes[i]);
            }
        }
    }
}

/// Best-effort broadcast: `payload` goes to every other node, and this node
/// marks it as seen, which counts as its own acknowledgement.
pub fn best_effort_broadcast(handler: &mut TcpHandler, payload: &Payload) -> (r: Broadcast)
    requires
        old(handler).delivered.state().fits(old(handler).delivered.topology(), payload@),
    ensures
        final(handler).wf(),
        old(handler).same_setting(final(handler)),
        message_views(r.messages@) == beb_messages(
            old(handler).nodes@,
            old(handler).current_node_id,
            payload@,
        ),
        final(handler).delivered.state() == old(handler).delivered.state().insert(
            old(handler).delivered.topology(),
            old(handler).delivered.node_id(),
            payload@,
        ),
        final(handler).delivered.state().log == old(handler).delivered.state().log + payload_views(
            r.delivered@,
        ),
        final(handler).delivered.state().acked_by(
            old(handler).delivered.node_id(),
            payload@.owner,
            payload@.uid,
        ),
{
    let mut messages: Vec<Message> = Vec::new();
    let ghost nodes = handler.nodes@;
    let ghost me = handler.current_node_id;
    let mut i: usize = 0;
    assert(message_views(messages@) =~= beb_messages(nodes.take(0), me, payload@));
    while i < handler.nodes.len()
        invariant
            i <= handler.nodes@.len(),
            *handler == *old(handler),
            nodes == handler.nodes@,
            me == handler.current_node_id,
            message_views(messages@) == beb_messages(nodes.take(i as int), me, payload@),
        decreases handler.nodes@.len() - i,
    {
        let node = handler.nodes.at(i);
        let ghost sent = message_views(messages@);
        assert(nodes.take(i + 1).drop_last() =~= nodes.take(i as int));
        if node.id != handler.current_node_id {
            messages.push(Message::new(payload.duplicate(), node.duplicate()));
            assert(message_views(messages@) =~= sent.push(
                MessageView { payload: payload@, destination: nodes[i as int] },
            ));
        }
        i = i + 1;
    }
    assert(nodes.take(i as int) =~= nodes);
    let ghost before = handler.delivered.state();
    let delivered = handler.delivered.mark_as_seen(payload);
    proof {
        lemma_insert_acks(
            before,
            handler.delivered.topology(),
            handler.delivered.node_id(),
            payload@,
        );
    }
    Broadcast { messages, delivered }
}

/// Reliable broadcast: a best-effort broadcast of a payload that this node
/// has not seen, and nothing for one that it has.
pub fn reliable_broadcast(handler: &mut TcpHandler, payload: &Payload) -> (r: Broadcast)
    requires
        old(handler).delivered.state().fits(old(handler).delivered.topology(), payload@),
    ensures
        final(handler).wf(),
        old(handler).same_setting(final(handler)),
        final(handler).delivered.state().log == old(handler).delivered.state().log + payload_views(
            r.delivered@,
        ),
        final(handler).delivered.state().acked_by(
            old(handler).delivered.node_id(),
            payload@.owner,
            payload@.uid,
        ),
        if old(handler).delivered.state().acked_by(
            old(handler).delivered.node_id(),
            payload@.owner,
            payload@.uid,
        ) {
            &&& r.messages@.len() == 0
            &&& r.delivered@.len() == 0
            &&& final(handler).delivered.state() == old(handler).delivered.state()
        } else {
            &&& message_views(r.messages@) == beb_messages(
                old(handler).nodes@,
                old(handler).current_node_id,
                payload@,
            )
            &&& final(handler).delivered.state() == old(handler).delivered.state().insert(
                old(handler).delivered.topology(),
                old(handler).delivered.node_id(),
                payload@,
            )
        },
{
    if !handler.delivered.was_seen(payload) {
        best_effort_broadcast(handler, payload)
    } else {
        let r = Broadcast { messages: Vec::new(), delivered: Vec::new() };
        assert(handler.delivered.state().log =~= handler.delivered.state().log + payload_views(
            r.delivered@,
        ));
        r
    }
}

/// Uniform reliable broadcast sends as reliable broadcast does; a payload
/// of this kind is delivered once a majority has acknowledged it.
pub fn uniform_reliable_broadcast(handler: &mut TcpHandler, payload: &Payload) -> (r: Broadcast)
    requires
        old(handler).delivered.state().fits(old(handler).delivered.topology(), payload@),
    ensures
        final(handler).wf(),
        old(handler).same_setting(final(handler)),
        final(handler).delivered.state().log == old(handler).delivered.state().log + payload_views(
            r.delivered@,
        ),
        final(handler).delivered.state().acked_by(
            old(handler).delivered.node_id(),
            payload@.owner,
            payload@.uid,
        ),
        if old(handler).delivered.state().acked_by(
            old(handler).delivered.node_id(),
            payload@.owner,
            payload@.uid,
        ) {
            &&& r.messages@.len() == 0
            &&& r.delivered@.len() == 0
            &&& final(handler).delivered.state() == old(handler).delivered.state()
        } else {
            &&& message_views(r.messages@) == beb_messages(
                old(handler).nodes@,
                old(handler).current_node_id,
                payload@,
            )
            &&& final(handler).delivered.state() == old(handler).delivered.state().insert(
                old(handler).delivered.topology(),
                old(handler).delivered.node_id(),
                payload@,
            )
        },
{
    reliable_broadcast(handler, payload)
}

/// FIFO broadcast sends as uniform reliable broadcast does; a payload of
/// this kind is delivered in the order of its owner's packet numbers.
pub fn fifo_broadcast(handler: &mut TcpHandler, payload: &Payload) -> (r: Broadcast)
    requires
        old(handler).delivered.state().fits(old(handler).delivered.topology(), payload@),
    ensures
        final(handler).wf(),
        old(handler).same_setting(final(handler)),
        final(handler).delivered.state().log == old(handler).delivered.state().log + payload_views(
            r.delivered@,
        ),
        final(handler).delivered.state().acked_by(
            old(handler).delivered.node_id(),
            payload@.owner,
            payload@.uid,
        ),
        if old(handler).delivered.state().acked_by(
            old(handler).delivered.node_id(),
            payload@.owner,
            payload@.uid,
        ) {
            &&& r.messages@.len() == 0
            &&& r.delivered@.len() == 0
            &&& final(handler).delivered.state() == old(handler).delivered.state()
        } else {
            &&& message_views(r.messages@) == beb_messages(
                old(handler).nodes@,
                old(handler).current_node_id,
                payload@,
            )
            &&& final(handler).delivered.state() == old(handler).delivered.state().insert(
                old(handler).delivered.topology(),
                old(handler).delivered.node_id(),
                payload@,
            )
        },
{
    uniform_reliable_broadcast(handler, payload)
}

/// Localized causal broadcast sends as FIFO broadcast does; a payload of
/// this kind is delivered after the payloads that its clock names.
pub fn localized_causal_broadcast(handler: &mut TcpHandler, payload: &Payload) -> (r: Broadcast)
    requires
        old(handler).delivered.state().fits(old(handler).delivered.topology(), payload@),
    ensures
        final(handler).wf(),
        old(handler).same_setting(final(handler)),
        final(handler).delivered.state().log == old(handler).delivered.state().log + payload_views(
            r.delivered@,
        ),
        final(handler).delivered.state().acked_by(
            old(handler).delivered.node_id(),
            payload@.owner,
            payload@.uid,
        ),
        if old(handler).delivered.state().acked_by(
            old(handler).delivered.node_id(),
            payload@.owner,
            payload@.uid,
        ) {
            &&& r.messages@.len() == 0
            &&& r.delivered@.len() == 0
            &&& final(handler).delivered.state() == old(handler).delivered.state()
        } else {
            &&& message_views(r.messages@) == beb_messages(
                old(handler).nodes@,
                old(handler).current_node_id,
                payload@,
            )
            &&& final(handler).delivered.state() == old(handler).delivered.state().insert(
                old(handler).delivered.topology(),
                old(handler).delivered.node_id(),
                payload@,
            )
        },
{
    fifo_broadcast(handler, payload)
}

} // verus!
