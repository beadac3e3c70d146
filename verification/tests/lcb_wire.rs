use kvs_broadcast::lcb::network_error::NetworkError;
use kvs_broadcast::lcb::payload::{OwnerID, PacketID, Payload, PayloadKind, SenderID};
use kvs_broadcast::lcb::wire::{decode_payload, encode_payload, kind_from_index, kind_index};

fn sample() -> Payload {
    Payload {
        owner_id: OwnerID(1),
        sender_id: SenderID(2),
        packet_uid: PacketID(0x0102_0304),
        kind: PayloadKind::Lcb,
        is_ack: true,
        vector_clock: vec![7, 256],
        buffer: b"hi".to_vec(),
    }
}

#[test]
fn payload_bytes_are_little_endian_fields() {
    let bytes = encode_payload(&sample()).unwrap();
    let expected: Vec<u8> = vec![
        1, 0, 0, 0, // owner
        2, 0, 0, 0, // sender
        4, 3, 2, 1, // number
        5, 0, 0, 0, // kind
        1, // acknowledgement
        2, 0, 0, 0, 0, 0, 0, 0, // clock length
        7, 0, 0, 0, 0, 1, 0, 0, // clock
        2, 0, 0, 0, 0, 0, 0, 0, // buffer length
        104, 105,
    ];
    assert_eq!(bytes, expected);
}

#[test]
fn payload_survives_the_wire() {
    let p = sample();
    let back = decode_payload(&encode_payload(&p).unwrap()).unwrap();
    assert_eq!(back.owner_id, p.owner_id);
    assert_eq!(back.sender_id, p.sender_id);
    assert_eq!(back.packet_uid, p.packet_uid);
    assert_eq!(back.kind, p.kind);
    assert_eq!(back.is_ack, p.is_ack);
    assert_eq!(back.vector_clock, p.vector_clock);
    assert_eq!(back.buffer, p.buffer);
}

#[test]
fn bytes_behind_the_payload_are_passed_over() {
    let mut bytes = encode_payload(&sample()).unwrap();
    bytes.extend_from_slice(&[9, 9, 9]);
    assert_eq!(decode_payload(&bytes).unwrap().buffer, b"hi".to_vec());
}

#[test]
fn short_or_malformed_datagrams_are_refused() {
    let bytes = encode_payload(&sample()).unwrap();
    for cut in [0, 3, 16, 24, 30, bytes.len() - 1] {
        assert!(matches!(
            decode_payload(&bytes[..cut]),
            Err(NetworkError::SerializationError(_))
        ));
    }
    let mut bad_mark = bytes.clone();
    bad_mark[16] = 2;
    assert!(matches!(decode_payload(&bad_mark), Err(NetworkError::SerializationError(_))));
    let mut bad_kind = bytes.clone();
    bad_kind[12] = 6;
    assert!(matches!(decode_payload(&bad_kind), Err(NetworkError::SerializationError(_))));
}

#[test]
fn a_payload_larger_than_a_datagram_is_refused() {
    let mut p = sample();
    p.buffer = vec![0; 65535];
    assert!(matches!(encode_payload(&p), Err(NetworkError::SerializationError(_))));
    p.buffer = vec![0; 65535 - 41];
    assert_eq!(encode_payload(&p).unwrap().len(), 65535);
}

#[test]
fn kinds_have_the_numbers_of_their_order() {
    let kinds = [
        PayloadKind::Tcp,
        PayloadKind::Beb,
        PayloadKind::Rb,
        PayloadKind::Urb,
        PayloadKind::Fifob,
        PayloadKind::Lcb,
    ];
    for (i, kind) in kinds.iter().enumerate() {
        assert_eq!(kind_index(*kind), i as u32);
        assert_eq!(kind_from_index(i as u32), Some(*kind));
    }
    assert_eq!(kind_from_index(6), None);
    assert!(PayloadKind::Fifob.is_ordered());
    assert!(PayloadKind::Lcb.is_ordered());
    assert!(!PayloadKind::Urb.is_ordered());
}

#[test]
fn network_error_texts() {
    assert_eq!(NetworkError::Io("refused".to_string()).message(), "refused");
    assert_eq!(NetworkError::UndefinedNodeID(70).message(), "Undefined node ID: 70");
    assert_eq!(NetworkError::EncodingError("bad".to_string()).message(), "bad");
    assert_eq!(NetworkError::SerializationError("short".to_string()).message(), "short");
    assert_eq!(NetworkError::ChannelError.message(), "Channel error");
}

/// What the front of `bytes` holds, worked out by hand.
fn read_by_hand(bytes: &[u8]) -> Option<(u32, u32, u32, u32, bool, Vec<u32>, Vec<u8>)> {
    let word = |at: usize| u32::from_le_bytes([bytes[at], bytes[at + 1], bytes[at + 2], bytes[at + 3]]);
    let long = |at: usize| {
        let mut eight = [0u8; 8];
        eight.copy_from_slice(&bytes[at..at + 8]);
        u64::from_le_bytes(eight)
    };
    if bytes.len() < 25 || bytes[16] > 1 {
        return None;
    }
    let count = long(17) as u128;
    let after_clock = 25 + 4 * count;
    if (bytes.len() as u128) < after_clock + 8 {
        return None;
    }
    let after_clock = after_clock as usize;
    let size = long(after_clock) as u128;
    if (bytes.len() as u128) < after_clock as u128 + 8 + size {
        return None;
    }
    let clock = (0..count as usize).map(|i| word(25 + 4 * i)).collect();
    let buffer = bytes[after_clock + 8..after_clock + 8 + size as usize].to_vec();
    Some((word(0), word(4), word(8), word(12), bytes[16] == 1, clock, buffer))
}

#[test]
fn reading_agrees_with_the_layout_on_damaged_datagrams() {
    let good = encode_payload(&sample()).unwrap();
    let mut seed: u32 = 7;
    let mut next = move || {
        seed = seed.wrapping_mul(1103515245).wrapping_add(12345);
        (seed >> 8) as usize
    };
    for round in 0..4000 {
        let mut bytes = good.clone();
        if round % 3 != 0 {
            let cut = next() % (bytes.len() + 1);
            bytes.truncate(cut);
        }
        for _ in 0..(round % 4) {
            if !bytes.is_empty() {
                let at = next() % bytes.len();
                bytes[at] = (next() % 7) as u8;
            }
        }
        if round % 5 == 0 {
            bytes.extend_from_slice(&[1, 2, 3]);
        }
        let ours = decode_payload(&bytes);
        match read_by_hand(&bytes) {
            None => assert!(ours.is_err(), "{:?}", bytes),
            Some((owner, sender, uid, kind, is_ack, clock, buffer)) => match kind_from_index(kind) {
                None => assert!(ours.is_err(), "{:?}", bytes),
                Some(kind) => {
                    let p = ours.unwrap();
                    assert_eq!(
                        (p.owner_id.0, p.sender_id.0, p.packet_uid.0, p.kind, p.is_ack),
                        (owner, sender, uid, kind, is_ack)
                    );
                    assert_eq!(p.vector_clock, clock);
                    assert_eq!(p.buffer, buffer);
                }
            },
        }
    }
}
