use kvs_broadcast::lcb::config::Config;
use kvs_broadcast::lcb::delivered::{AccessDeliveredSet, DeliveredSet};
use kvs_broadcast::lcb::enqueue::{enqueue_broadcast_messages, enqueue_messages, enqueue_tcp_messages};
use kvs_broadcast::lcb::hosts::{Node, Nodes};
use kvs_broadcast::lcb::link::TcpHandler;
use kvs_broadcast::lcb::network_error::NetworkError;
use kvs_broadcast::lcb::output::{decimal, delivery_event, dispatch_event, render_event, LogEvent};
use kvs_broadcast::lcb::payload::{OwnerID, PacketID, Payload, PayloadKind, SenderID};
use std::collections::HashMap;

fn handler(id: u32, total: u32) -> TcpHandler {
    let mut nodes = Nodes::new();
    for other in 1..=total {
        nodes.insert(Node { id: other, ip: "127.0.0.1".to_string(), port: 11000 + other });
    }
    let total = total as usize;
    TcpHandler {
        nodes,
        current_node_id: id,
        delivered: AccessDeliveredSet::new(
            DeliveredSet::new(total),
            total,
            id,
            HashMap::new(),
            HashMap::new(),
        ),
    }
}

fn line(event: &LogEvent, short: bool) -> String {
    String::from_utf8(render_event(event, short)).unwrap()
}

#[test]
fn dispatch_lines() {
    let e = dispatch_event(None, PayloadKind::Fifob, b"17".to_vec());
    assert_eq!(line(&e, true), "b 17");
    assert_eq!(line(&e, false), "sent Fifob: 17");
}

#[test]
fn delivery_lines() {
    let p = Payload {
        owner_id: OwnerID(4021),
        sender_id: SenderID(1),
        packet_uid: PacketID(3),
        kind: PayloadKind::Lcb,
        is_ack: false,
        vector_clock: vec![],
        buffer: b"hello".to_vec(),
    };
    let e = delivery_event(&p);
    assert_eq!(line(&e, true), "d 4021 hello");
    assert_eq!(line(&e, false), "delivered Lcb from OwnerID(4021): hello");
}

#[test]
fn every_kind_has_its_name_in_a_line() {
    let names = [
        (PayloadKind::Tcp, "Tcp"),
        (PayloadKind::Beb, "Beb"),
        (PayloadKind::Rb, "Rb"),
        (PayloadKind::Urb, "Urb"),
        (PayloadKind::Fifob, "Fifob"),
        (PayloadKind::Lcb, "Lcb"),
    ];
    for (kind, name) in names {
        let e = dispatch_event(None, kind, b"x".to_vec());
        assert_eq!(line(&e, false), format!("sent {}: x", name));
    }
}

#[test]
fn decimal_digits() {
    assert_eq!(decimal(0), b"0".to_vec());
    assert_eq!(decimal(7), b"7".to_vec());
    assert_eq!(decimal(10), b"10".to_vec());
    assert_eq!(decimal(4294967295), b"4294967295".to_vec());
}

#[test]
fn link_messages_are_numbered_from_one() {
    let h = handler(1, 3);
    let queued = enqueue_tcp_messages(&h, &Config { messages_count: 3, receiver_id: 2 }).unwrap();
    assert_eq!(queued.messages.len(), 3);
    assert_eq!(queued.events.len(), 3);
    for (i, m) in queued.messages.iter().enumerate() {
        assert_eq!(m.destination.id, 2);
        assert_eq!(m.payload.packet_uid, PacketID(i as u32 + 1));
        assert_eq!(m.payload.owner_id, OwnerID(1));
        assert_eq!(m.payload.vector_clock, vec![0]);
        assert_eq!(m.payload.buffer, (i + 1).to_string().into_bytes());
        assert!(matches!(m.payload.kind, PayloadKind::Tcp));
    }
    assert_eq!(line(&queued.events[2], true), "b 3");
    assert_eq!(line(&queued.events[2], false), "sent Tcp: 3");
}

#[test]
fn the_receiver_sends_itself_nothing() {
    let h = handler(2, 3);
    let queued = enqueue_tcp_messages(&h, &Config { messages_count: 3, receiver_id: 2 }).unwrap();
    assert!(queued.messages.is_empty());
    assert!(queued.events.is_empty());
}

#[test]
fn an_unknown_receiver_is_an_error() {
    let h = handler(1, 3);
    match enqueue_tcp_messages(&h, &Config { messages_count: 3, receiver_id: 8 }) {
        Err(NetworkError::UndefinedNodeID(8)) => {}
        _ => panic!("expected an undefined node"),
    }
}

#[test]
fn a_lone_node_delivers_its_own_broadcasts_in_order() {
    let mut h = handler(1, 1);
    let queued = enqueue_messages(&mut h, 3);
    assert!(queued.messages.is_empty());
    let lines: Vec<String> = queued.events.iter().map(|e| line(e, true)).collect();
    assert_eq!(lines, vec!["b 1", "d 1 1", "b 2", "d 1 2", "b 3", "d 1 3"]);
}

#[test]
fn broadcasts_carry_the_clock_of_their_moment() {
    let mut h = handler(1, 1);
    let queued = enqueue_broadcast_messages(&mut h, 2, PayloadKind::Lcb);
    let lines: Vec<String> = queued.events.iter().map(|e| line(e, false)).collect();
    assert_eq!(
        lines,
        vec![
            "sent Lcb: 1",
            "delivered Lcb from OwnerID(1): 1",
            "sent Lcb: 2",
            "delivered Lcb from OwnerID(1): 2"
        ]
    );
    assert_eq!(h.delivered.clone_vector_clock(), vec![0, 2]);

    let mut h = handler(2, 3);
    let queued = enqueue_broadcast_messages(&mut h, 2, PayloadKind::Urb);
    assert_eq!(queued.messages.len(), 4);
    assert_eq!(queued.events.len(), 2);
    assert_eq!(queued.messages[3].destination.id, 3);
    assert_eq!(queued.messages[3].payload.packet_uid, PacketID(2));
    assert_eq!(queued.messages[3].payload.vector_clock, vec![0, 0, 0, 0]);
}
