use kvs_broadcast::lcb::broadcast::{
    best_effort_broadcast, fifo_broadcast, localized_causal_broadcast, reliable_broadcast,
    uniform_reliable_broadcast, Broadcast,
};
use kvs_broadcast::lcb::delivered::{AccessDeliveredSet, DeliveredSet};
use kvs_broadcast::lcb::hosts::{Node, Nodes};
use kvs_broadcast::lcb::link::{
    needs_retransmission, polling_interval, receive, stamp_for_sending, Message, TcpHandler,
};
use kvs_broadcast::lcb::network_error::NetworkError;
use kvs_broadcast::lcb::payload::{OwnerID, PacketID, Payload, PayloadKind, SenderID};
use kvs_broadcast::lcb::wire::{decode_payload, encode_payload};
use std::collections::{HashMap, VecDeque};

fn handler(id: u32, total: u32, deps: &[(u32, Vec<u32>)]) -> TcpHandler {
    let mut nodes = Nodes::new();
    for other in 1..=total {
        nodes.insert(Node { id: other, ip: "127.0.0.1".to_string(), port: 11000 + other });
    }
    let mut causality = HashMap::new();
    let mut inverted: HashMap<u32, Vec<u32>> = HashMap::new();
    for (owner, list) in deps {
        for dep in list {
            inverted.entry(*dep).or_default().push(*owner);
        }
        causality.insert(*owner, list.clone());
    }
    let total = total as usize;
    TcpHandler {
        nodes,
        current_node_id: id,
        delivered: AccessDeliveredSet::new(DeliveredSet::new(total), total, id, causality, inverted),
    }
}

fn payload(owner: u32, uid: u32, kind: PayloadKind, clock: Vec<u32>, text: &str) -> Payload {
    Payload {
        owner_id: OwnerID(owner),
        sender_id: SenderID(owner),
        packet_uid: PacketID(uid),
        kind,
        is_ack: false,
        vector_clock: clock,
        buffer: text.as_bytes().to_vec(),
    }
}

struct Network {
    handlers: Vec<TcpHandler>,
    queue: VecDeque<(u32, Message)>,
    delivered: Vec<Vec<String>>,
    duplicate: bool,
    silent: Option<(u32, usize)>,
}

impl Network {
    fn new(total: u32, deps: &[(u32, Vec<u32>)]) -> Network {
        Network {
            handlers: (1..=total).map(|id| handler(id, total, deps)).collect(),
            queue: VecDeque::new(),
            delivered: (0..total).map(|_| Vec::new()).collect(),
            duplicate: false,
            silent: None,
        }
    }

    fn record(&mut self, at: u32, payloads: &[Payload]) {
        for p in payloads {
            self.delivered[at as usize - 1].push(String::from_utf8(p.buffer.clone()).unwrap());
        }
    }

    fn broadcast(&mut self, from: u32, p: &Payload) {
        let at = from as usize - 1;
        assert!(self.handlers[at].delivered.accepts(p));
        let Broadcast { messages, delivered } = match p.kind {
            PayloadKind::Beb => best_effort_broadcast(&mut self.handlers[at], p),
            PayloadKind::Rb => reliable_broadcast(&mut self.handlers[at], p),
            PayloadKind::Urb => uniform_reliable_broadcast(&mut self.handlers[at], p),
            PayloadKind::Fifob => fifo_broadcast(&mut self.handlers[at], p),
            PayloadKind::Lcb => localized_causal_broadcast(&mut self.handlers[at], p),
            PayloadKind::Tcp => panic!("no broadcast kind"),
        };
        self.record(from, &delivered);
        for m in messages {
            self.queue.push_back((from, m));
        }
    }

    fn run(&mut self) {
        while let Some((from, message)) = self.queue.pop_front() {
            let message = stamp_for_sending(&self.handlers[from as usize - 1], message);
            if let Some((node, left)) = self.silent {
                if node == from {
                    if left == 0 {
                        continue;
                    }
                    self.silent = Some((node, left - 1));
                }
            }
            let datagram = encode_payload(&message.payload).unwrap();
            let to = message.destination.id;
            let times = if self.duplicate { 2 } else { 1 };
            for _ in 0..times {
                let arrived = decode_payload(&datagram).unwrap();
                assert_eq!(arrived.sender_id, SenderID(from));
                let at = to as usize - 1;
                assert!(self.handlers[at].delivered.accepts(&arrived));
                let received = receive(&mut self.handlers[at], &arrived).unwrap();
                self.record(to, &received.delivered);
                if let Some(ack) = received.ack {
                    assert!(ack.payload.is_ack);
                    assert_eq!(ack.destination.id, from);
                    self.queue.push_back((to, ack));
                }
                for m in received.forwarded {
                    self.queue.push_back((to, m));
                }
            }
        }
    }
}

fn place(list: &[String], text: &str) -> usize {
    list.iter().position(|t| t == text).unwrap()
}

#[test]
fn three_nodes_deliver_a_cause_before_its_effects() {
    let deps = [(1, vec![]), (2, vec![1]), (3, vec![1])];
    let mut net = Network::new(3, &deps);
    let m2 = payload(2, 1, PayloadKind::Lcb, vec![0, 1, 0, 0], "m2");
    let m3 = payload(3, 1, PayloadKind::Lcb, vec![0, 1, 0, 0], "m3");
    let m1 = payload(1, 1, PayloadKind::Lcb, vec![0, 0, 0, 0], "m1");
    net.broadcast(2, &m2);
    net.broadcast(3, &m3);
    net.run();
    for list in &net.delivered {
        assert!(list.is_empty());
    }
    net.broadcast(1, &m1);
    net.run();
    for list in &net.delivered {
        let mut sorted = list.clone();
        sorted.sort();
        assert_eq!(sorted, vec!["m1", "m2", "m3"]);
        assert!(place(list, "m1") < place(list, "m2"));
        assert!(place(list, "m1") < place(list, "m3"));
    }
    for h in &net.handlers {
        assert_eq!(h.delivered.clone_vector_clock(), vec![0, 1, 1, 1]);
    }
}

#[test]
fn duplicated_datagrams_are_delivered_once() {
    let mut net = Network::new(2, &[]);
    net.duplicate = true;
    for uid in 1..=3 {
        let text = uid.to_string();
        net.broadcast(1, &payload(1, uid, PayloadKind::Fifob, vec![0, 0, 0], &text));
        net.broadcast(2, &payload(2, uid, PayloadKind::Urb, vec![0, 0, 0], &format!("u{}", uid)));
    }
    net.run();
    for list in &net.delivered {
        let mut sorted = list.clone();
        sorted.sort();
        assert_eq!(sorted, vec!["1", "2", "3", "u1", "u2", "u3"]);
        assert!(place(list, "1") < place(list, "2"));
        assert!(place(list, "2") < place(list, "3"));
    }
}

#[test]
fn a_node_that_falls_silent_does_not_stop_uniform_agreement() {
    let mut net = Network::new(3, &[]);
    net.silent = Some((3, 1));
    net.broadcast(3, &payload(3, 1, PayloadKind::Urb, vec![0, 0, 0, 0], "last words"));
    net.run();
    assert_eq!(net.delivered[0], vec!["last words"]);
    assert_eq!(net.delivered[1], vec!["last words"]);
}

#[test]
fn best_effort_goes_to_every_other_node_in_order() {
    let mut h = handler(2, 4, &[]);
    let p = payload(2, 1, PayloadKind::Beb, vec![0], "x");
    let sent = best_effort_broadcast(&mut h, &p);
    let to: Vec<u32> = sent.messages.iter().map(|m| m.destination.id).collect();
    assert_eq!(to, vec![1, 3, 4]);
    assert_eq!(sent.messages[0].destination.port, 11001);
    assert_eq!(sent.messages[0].payload.buffer, b"x".to_vec());
    assert_eq!(sent.delivered.len(), 1);
    assert!(h.delivered.was_seen(&p));
}

#[test]
fn reliable_broadcast_sends_a_payload_once() {
    let mut h = handler(1, 3, &[]);
    let p = payload(2, 7, PayloadKind::Rb, vec![0], "r");
    let first = reliable_broadcast(&mut h, &p);
    assert_eq!(first.messages.len(), 2);
    assert_eq!(first.delivered.len(), 1);
    let again = reliable_broadcast(&mut h, &p);
    assert_eq!(again.messages.len(), 0);
    assert_eq!(again.delivered.len(), 0);
}

#[test]
fn receiver_acknowledges_and_forwards() {
    let mut h = handler(1, 3, &[]);
    let mut p = payload(2, 1, PayloadKind::Urb, vec![0, 0, 0, 0], "u");
    p.sender_id = SenderID(3);
    let got = receive(&mut h, &p).unwrap();
    let ack = got.ack.unwrap();
    assert!(ack.payload.is_ack);
    assert_eq!(ack.destination.id, 3);
    assert_eq!(ack.payload.owner_id, OwnerID(2));
    assert_eq!(ack.payload.packet_uid, PacketID(1));
    let to: Vec<u32> = got.forwarded.iter().map(|m| m.destination.id).collect();
    assert_eq!(to, vec![2, 3]);
    assert_eq!(got.delivered.len(), 1);
    assert!(h.delivered.contains(SenderID(3), OwnerID(2), PacketID(1)));
    assert!(h.delivered.contains(SenderID(1), OwnerID(2), PacketID(1)));

    let plain = payload(2, 1, PayloadKind::Tcp, vec![0], "t");
    let got = receive(&mut h, &plain).unwrap();
    assert!(got.forwarded.is_empty());
}

#[test]
fn receiver_refuses_a_sender_it_does_not_know() {
    let mut h = handler(1, 3, &[]);
    let mut p = payload(2, 1, PayloadKind::Beb, vec![0], "b");
    p.sender_id = SenderID(9);
    match receive(&mut h, &p) {
        Err(NetworkError::UndefinedNodeID(9)) => {}
        _ => panic!("expected an undefined node"),
    }
    assert!(!h.delivered.is_delivered(OwnerID(2), PacketID(1)));
}

#[test]
fn acknowledgements_are_not_acknowledged() {
    let mut h = handler(1, 3, &[]);
    let mut p = payload(1, 1, PayloadKind::Tcp, vec![0], "t");
    p.is_ack = true;
    p.sender_id = SenderID(2);
    let got = receive(&mut h, &p).unwrap();
    assert!(got.ack.is_none());
    assert!(h.delivered.contains(SenderID(2), OwnerID(1), PacketID(1)));
}

#[test]
fn sender_stamps_its_own_id() {
    let h = handler(3, 3, &[]);
    let p = payload(1, 5, PayloadKind::Rb, vec![0], "r");
    let m = Message::new(p, Node { id: 2, ip: "10.0.0.2".to_string(), port: 9 });
    let stamped = stamp_for_sending(&h, m);
    assert_eq!(stamped.payload.sender_id, SenderID(3));
    assert_eq!(stamped.payload.owner_id, OwnerID(1));
    assert_eq!(stamped.destination.id, 2);
    assert!(stamped.should_retransmit());
    let ack = Message::new(stamped.payload.acknowledgement(), stamped.destination.duplicate());
    assert!(!ack.should_retransmit());
}

#[test]
fn retransmission_stops_with_the_acknowledgement() {
    let mut h = handler(1, 2, &[]);
    let p = payload(1, 1, PayloadKind::Tcp, vec![0], "t");
    let m = Message::new(p.duplicate(), Node { id: 2, ip: "10.0.0.2".to_string(), port: 9 });
    assert!(needs_retransmission(&h, &m));
    let mut ack = p.acknowledgement();
    ack.sender_id = SenderID(2);
    receive(&mut h, &ack).unwrap();
    assert!(!needs_retransmission(&h, &m));
    assert!(!Message::ready_for_retransmission(99, 100));
    assert!(Message::ready_for_retransmission(100, 100));
    assert_eq!(polling_interval(100), 10);
}

#[test]
fn a_broadcast_makes_one_message_for_each_other_node_and_is_seen() {
    for total in 1..=5u32 {
        for me in 1..=total {
            let mut h = handler(me, total, &[]);
            let p = payload(me, 1, PayloadKind::Urb, vec![0; total as usize + 1], "u");
            assert!(!h.delivered.was_seen(&p));
            let sent = reliable_broadcast(&mut h, &p);
            assert_eq!(sent.messages.len(), total as usize - 1);
            assert!(sent.messages.iter().all(|m| m.destination.id != me));
            assert!(sent.messages.iter().all(|m| m.payload.buffer == p.buffer));
            assert!(h.delivered.was_seen(&p));
        }
    }
}
