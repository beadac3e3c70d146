use kvs_broadcast::lcb::delivered::{AccessDeliveredSet, DeliveredSet};
use kvs_broadcast::lcb::payload::{OwnerID, PacketID, Payload, PayloadKind, SenderID};
use std::collections::HashMap;

fn payload(owner: u32, uid: u32, kind: PayloadKind, clock: Vec<u32>) -> Payload {
    Payload {
        owner_id: OwnerID(owner),
        sender_id: SenderID(owner),
        packet_uid: PacketID(uid),
        kind,
        is_ack: false,
        vector_clock: clock,
        buffer: format!("m{}-{}", owner, uid).into_bytes(),
    }
}

fn node(id: u32, total: usize, deps: &[(u32, Vec<u32>)]) -> AccessDeliveredSet {
    let mut causality = HashMap::new();
    let mut inverted: HashMap<u32, Vec<u32>> = HashMap::new();
    for (owner, list) in deps {
        for dep in list {
            inverted.entry(*dep).or_default().push(*owner);
        }
        causality.insert(*owner, list.clone());
    }
    AccessDeliveredSet::new(DeliveredSet::new(total), total, id, causality, inverted)
}

fn ids(delivered: &[Payload]) -> Vec<(u32, u32)> {
    delivered.iter().map(|p| (p.owner_id.0, p.packet_uid.0)).collect()
}

#[test]
fn best_effort_is_delivered_on_arrival_and_only_once() {
    let mut state = node(1, 3, &[]);
    let p = payload(2, 1, PayloadKind::Beb, vec![0]);
    assert!(state.accepts(&p));
    assert_eq!(ids(&state.insert(SenderID(2), &p)), vec![(2, 1)]);
    assert!(state.is_delivered(OwnerID(2), PacketID(1)));
    assert_eq!(ids(&state.insert(SenderID(2), &p)), vec![]);
    assert_eq!(ids(&state.insert(SenderID(3), &p)), vec![]);
}

#[test]
fn uniform_waits_for_a_majority() {
    let mut state = node(1, 3, &[]);
    let p = payload(2, 1, PayloadKind::Urb, vec![0, 0, 0, 0]);
    assert_eq!(ids(&state.insert(SenderID(2), &p)), vec![]);
    assert!(state.contains(SenderID(2), OwnerID(2), PacketID(1)));
    assert!(!state.contains(SenderID(1), OwnerID(2), PacketID(1)));
    assert_eq!(ids(&state.insert(SenderID(2), &p)), vec![]);
    assert!(!state.was_seen(&p));
    assert_eq!(ids(&state.mark_as_seen(&p)), vec![(2, 1)]);
    assert!(state.was_seen(&p));
}

#[test]
fn fifo_delivers_in_order_of_numbers() {
    let mut state = node(1, 1, &[]);
    let second = payload(1, 2, PayloadKind::Fifob, vec![0, 0]);
    let third = payload(1, 3, PayloadKind::Fifob, vec![0, 0]);
    let first = payload(1, 1, PayloadKind::Fifob, vec![0, 0]);
    assert_eq!(ids(&state.insert(SenderID(1), &third)), vec![]);
    assert_eq!(ids(&state.insert(SenderID(1), &second)), vec![]);
    assert_eq!(ids(&state.insert(SenderID(1), &first)), vec![(1, 1), (1, 2), (1, 3)]);
}

#[test]
fn causal_payload_waits_for_its_dependency() {
    let deps = [(1, vec![]), (2, vec![1]), (3, vec![1])];
    let mut state = node(3, 3, &deps);
    let m1 = payload(1, 1, PayloadKind::Lcb, vec![0, 0, 0, 0]);
    let m2 = payload(2, 1, PayloadKind::Lcb, vec![0, 1, 0, 0]);
    let m3 = payload(3, 1, PayloadKind::Lcb, vec![0, 1, 0, 0]);
    for sender in [1, 2] {
        assert_eq!(ids(&state.insert(SenderID(sender), &m2)), vec![]);
        assert_eq!(ids(&state.insert(SenderID(sender), &m3)), vec![]);
    }
    assert_eq!(ids(&state.insert(SenderID(1), &m1)), vec![]);
    assert_eq!(ids(&state.insert(SenderID(2), &m1)), vec![(1, 1), (3, 1), (2, 1)]);
    assert_eq!(state.clone_vector_clock(), vec![0, 1, 1, 1]);
}

#[test]
fn payloads_that_do_not_fit_are_told_apart() {
    let deps = [(2, vec![1, 3])];
    let state = node(1, 3, &deps);
    assert!(state.accepts(&payload(2, 1, PayloadKind::Lcb, vec![0, 0, 0, 0])));
    assert!(!state.accepts(&payload(2, 1, PayloadKind::Lcb, vec![0, 0, 0])));
    assert!(!state.accepts(&payload(4, 1, PayloadKind::Lcb, vec![0, 0, 0, 0])));
    assert!(state.accepts(&payload(3, 1, PayloadKind::Lcb, vec![])));
    assert!(!state.accepts(&payload(1, u32::MAX, PayloadKind::Fifob, vec![])));
    assert!(state.accepts(&payload(1, u32::MAX, PayloadKind::Urb, vec![])));
    assert!(state.accepts(&payload(9, 1, PayloadKind::Fifob, vec![])));
}

#[test]
fn majority_is_half_the_nodes_and_one() {
    for (total, needed) in [(1u32, 1u32), (2, 2), (3, 2), (4, 3), (5, 3)] {
        let mut state = node(1, total as usize, &[]);
        let p = payload(1, 1, PayloadKind::Urb, vec![]);
        for sender in 1..=total {
            let delivered = state.insert(SenderID(sender), &p);
            if sender < needed {
                assert!(delivered.is_empty(), "{} of {}", sender, total);
            } else if sender == needed {
                assert_eq!(delivered.len(), 1, "{} of {}", sender, total);
            } else {
                assert!(delivered.is_empty());
            }
        }
    }
}

#[test]
fn a_packet_that_cannot_be_delivered_ends_the_run() {
    let deps = [(1, vec![]), (2, vec![1]), (3, vec![1])];
    let mut state = node(1, 3, &deps);
    let blocked = payload(3, 1, PayloadKind::Lcb, vec![0, 2, 0, 0]);
    let ready = payload(2, 1, PayloadKind::Lcb, vec![0, 1, 0, 0]);
    for sender in [1, 2] {
        assert!(state.insert(SenderID(sender), &blocked).is_empty());
        assert!(state.insert(SenderID(sender), &ready).is_empty());
    }
    let m1 = payload(1, 1, PayloadKind::Lcb, vec![0, 0, 0, 0]);
    assert!(state.insert(SenderID(1), &m1).is_empty());
    assert_eq!(ids(&state.insert(SenderID(2), &m1)), vec![(1, 1)]);
    assert!(!state.is_delivered(OwnerID(2), PacketID(1)));
    assert_eq!(ids(&state.insert(SenderID(3), &ready)), vec![(2, 1)]);
}

#[test]
fn a_packet_that_is_not_there_is_passed_over() {
    let deps = [(1, vec![]), (2, vec![1]), (3, vec![1])];
    let mut state = node(1, 3, &deps);
    let ready = payload(2, 1, PayloadKind::Lcb, vec![0, 1, 0, 0]);
    for sender in [1, 2] {
        assert!(state.insert(SenderID(sender), &ready).is_empty());
    }
    let m1 = payload(1, 1, PayloadKind::Lcb, vec![0, 0, 0, 0]);
    assert!(state.insert(SenderID(1), &m1).is_empty());
    assert_eq!(ids(&state.insert(SenderID(2), &m1)), vec![(1, 1), (2, 1)]);
}

#[test]
fn kinds_from_one_owner_share_the_delivered_set() {
    let mut state = node(1, 1, &[]);
    let first = payload(1, 1, PayloadKind::Beb, vec![]);
    let same_number = payload(1, 1, PayloadKind::Fifob, vec![]);
    assert_eq!(state.insert(SenderID(1), &first).len(), 1);
    assert!(state.insert(SenderID(1), &same_number).is_empty());
    let second = payload(1, 2, PayloadKind::Fifob, vec![]);
    assert!(state.insert(SenderID(1), &second).is_empty());
}
