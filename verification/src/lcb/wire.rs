//! Payloads as datagrams, written and read by `bincode`: every number in
//! little-endian bytes of fixed width, every list behind its length in
//! eight bytes.

use crate::lcb::network_error::NetworkError;
use crate::lcb::payload::{OwnerID, PacketID, Payload, PayloadKind, PayloadView, SenderID};
use vstd::bytes::{
    lemma_auto_spec_u32_to_from_le_bytes, lemma_auto_spec_u64_to_from_le_bytes,
    spec_u32_from_le_bytes, spec_u32_to_le_bytes, spec_u64_from_le_bytes, spec_u64_to_le_bytes,
};
use vstd::prelude::*;

verus! {

/// The most bytes that one datagram holds.
pub const MAX_UDP_PAYLOAD_SIZE: usize = 65535;

/// The number that stands for a kind on the wire.
pub open spec fn kind_number(kind: PayloadKind) -> u32 {
    match kind {
        PayloadKind::Tcp => 0,
        PayloadKind::Beb => 1,
        PayloadKind::Rb => 2,
        PayloadKind::Urb => 3,
        PayloadKind::Fifob => 4,
        PayloadKind::Lcb => 5,
    }
}

/// The number that stands for a kind on the wire.
pub fn kind_index(kind: PayloadKind) -> (r: u32)
    ensures
        r == kind_number(kind),
{
    match kind {
        PayloadKind::Tcp => 0,
        PayloadKind::Beb => 1,
        PayloadKind::Rb => 2,
        PayloadKind::Urb => 3,
        PayloadKind::Fifob => 4,
        PayloadKind::Lcb => 5,
    }
}

/// The kind that a number on the wire stands for, if it stands for one.
pub fn kind_from_index(index: u32) -> (r: Option<PayloadKind>)
    ensures
        match r {
            Some(kind) => kind_number(kind) == index,
            None => index >= 6,
        },
{
    if index == 0 {
        Some(PayloadKind::Tcp)
    } else if index == 1 {
        Some(PayloadKind::Beb)
    } else if index == 2 {
        Some(PayloadKind::Rb)
    } else if index == 3 {
        Some(PayloadKind::Urb)
    } else if index == 4 {
        Some(PayloadKind::Fifob)
    } else if index == 5 {
        Some(PayloadKind::Lcb)
    } else {
        None
    }
}

/// The fields of a payload as they stand on the wire.
pub struct WireFields {
    pub owner: u32,
    pub sender: u32,
    pub uid: u32,
    pub kind: u32,
    pub is_ack: bool,
    pub clock: Seq<u32>,
    pub buffer: Seq<u8>,
}

/// The fields of a payload.
pub open spec fn fields_of(p: PayloadView) -> WireFields {
    WireFields {
        owner: p.owner,
        sender: p.sender,
        uid: p.uid,
        kind: kind_number(p.kind),
        is_ack: p.is_ack,
        clock: p.vector_clock,
        buffer: p.buffer,
    }
}

/// The bytes of the numbers of a clock, one after the other.
pub open spec fn clock_bytes(clock: Seq<u32>) -> Seq<u8>
    decreases clock.len(),
{
    if clock.len() == 0 {
        Seq::empty()
    } else {
        clock_bytes(clock.drop_last()) + spec_u32_to_le_bytes(clock.last())
    }
}

/// The bytes of the fields: four numbers, one byte for the mark of an
/// acknowledgement, the clock behind its length, the buffer behind its
/// length.
pub open spec fn wire_bytes(f: WireFields) -> Seq<u8> {
    spec_u32_to_le_bytes(f.owner) + spec_u32_to_le_bytes(f.sender) + spec_u32_to_le_bytes(f.uid)
        + spec_u32_to_le_bytes(f.kind) + seq![if f.is_ack { 1u8 } else { 0u8 }]
        + spec_u64_to_le_bytes(f.clock.len() as u64) + clock_bytes(f.clock) + spec_u64_to_le_bytes(
        f.buffer.len() as u64,
    ) + f.buffer
}

/// The number in the four bytes at `at`.
pub open spec fn u32_at(bytes: Seq<u8>, at: int) -> u32 {
    spec_u32_from_le_bytes(bytes.subrange(at, at + 4))
}

/// The number in the eight bytes at `at`.
pub open spec fn u64_at(bytes: Seq<u8>, at: int) -> u64 {
    spec_u64_from_le_bytes(bytes.subrange(at, at + 8))
}

/// The fields that the front of `bytes` holds, or `None` where the bytes
/// end too early or the mark of an acknowledgement is neither 0 nor 1.
/// Bytes behind the fields are passed over.
pub open spec fn wire_read(bytes: Seq<u8>) -> Option<WireFields> {
    if bytes.len() < 25 || bytes[16] > 1 {
        None
    } else {
        let count = u64_at(bytes, 17) as int;
        let after_clock = 25 + 4 * count;
        if count > usize::MAX || bytes.len() < after_clock + 8 {
            None
        } else {
            let size = u64_at(bytes, after_clock) as int;
            if size > usize::MAX || bytes.len() < after_clock + 8 + size {
                None
            } else {
                Some(
                    WireFields {
                        owner: u32_at(bytes, 0),
                        sender: u32_at(bytes, 4),
                        uid: u32_at(bytes, 8),
                        kind: u32_at(bytes, 12),
                        is_ack: bytes[16] == 1,
                        clock: Seq::new(count as nat, |i: int| u32_at(bytes, 25 + 4 * i)),
                        buffer: bytes.subrange(after_clock + 8, after_clock + 8 + size),
                    },
                )
            }
        }
    }
}

/// The bytes of a clock are four for each of its numbers, in their order.
proof fn lemma_clock_bytes(clock: Seq<u32>)
    ensures
        clock_bytes(clock).len() == 4 * clock.len(),
        forall|i: int|
            0 <= i < clock.len() ==> #[trigger] clock_bytes(clock).subrange(4 * i, 4 * i + 4)
                == spec_u32_to_le_bytes(clock[i]),
    decreases clock.len(),
{
    lemma_auto_spec_u32_to_from_le_bytes();
    if clock.len() > 0 {
        let front = clock.drop_last();
        lemma_clock_bytes(front);
        let all = clock_bytes(clock);
        assert forall|i: int| 0 <= i < clock.len() implies #[trigger] all.subrange(4 * i, 4 * i + 4)
            == spec_u32_to_le_bytes(clock[i]) by {
            if i < front.len() {
                assert(all.subrange(4 * i, 4 * i + 4) =~= clock_bytes(front).subrange(
                    4 * i,
                    4 * i + 4,
                ));
                assert(front[i] == clock[i]);
            } else {
                assert(all.subrange(4 * i, 4 * i + 4) =~= spec_u32_to_le_bytes(clock.last()));
            }
        }
    }
}

/// What is written is read back: the bytes of the fields, whatever follows
/// them, read as the same fields.
pub proof fn law_wire_round_trip(f: WireFields, rest: Seq<u8>)
    requires
        f.clock.len() <= usize::MAX,
        f.buffer.len() <= usize::MAX,
    ensures
        wire_read(wire_bytes(f) + rest) == Some(f),
{
    lemma_auto_spec_u32_to_from_le_bytes();
    lemma_auto_spec_u64_to_from_le_bytes();
    lemma_clock_bytes(f.clock);
    let bytes = wire_bytes(f) + rest;
    let count = f.clock.len() as int;
    let size = f.buffer.len() as int;
    let after_clock = 25 + 4 * count;
    assert(bytes.subrange(0, 4) =~= spec_u32_to_le_bytes(f.owner));
    assert(bytes.subrange(4, 8) =~= spec_u32_to_le_bytes(f.sender));
    assert(bytes.subrange(8, 12) =~= spec_u32_to_le_bytes(f.uid));
    assert(bytes.subrange(12, 16) =~= spec_u32_to_le_bytes(f.kind));
    assert(bytes[16] == if f.is_ack { 1u8 } else { 0u8 });
    assert(bytes.subrange(17, 25) =~= spec_u64_to_le_bytes(f.clock.len() as u64));
    assert(bytes.subrange(after_clock, after_clock + 8) =~= spec_u64_to_le_bytes(
        f.buffer.len() as u64,
    ));
    assert(bytes.subrange(after_clock + 8, after_clock + 8 + size) =~= f.buffer);
    assert forall|i: int| 0 <= i < count implies u32_at(bytes, 25 + 4 * i) == f.clock[i] by {
        assert(bytes.subrange(25 + 4 * i, 25 + 4 * i + 4) =~= clock_bytes(f.clock).subrange(
            4 * i,
            4 * i + 4,
        ));
    }
    assert(Seq::new(count as nat, |i: int| u32_at(bytes, 25 + 4 * i)) =~= f.clock);
}

/// A payload that is written and read comes back as it was: its datagram
/// reads as its own fields, and no other payload has those fields.
pub proof fn law_payload_survives(p: PayloadView, q: PayloadView, rest: Seq<u8>)
    requires
        p.vector_clock.len() <= usize::MAX,
        p.buffer.len() <= usize::MAX,
    ensures
        wire_read(wire_bytes(fields_of(p)) + rest) == Some(fields_of(p)),
        fields_of(p).kind < 6,
        fields_of(q) == fields_of(p) ==> q == p,
{
    law_wire_round_trip(fields_of(p), rest);
}

/// Calls `bincode::serialize` on the fields of a payload, in their order.
/// Believed, not proved: it succeeds, since the writer is a byte vector
/// and no size limit is set; and what comes back is the fields in
/// `bincode`'s default layout, which `wire_bytes` states.
#[verifier::external_body]
fn bincode_write(
    owner: u32,
    sender: u32,
    uid: u32,
    kind: u32,
    is_ack: bool,
    clock: &Vec<u32>,
    buffer: &Vec<u8>,
) -> (r: Result<Vec<u8>, String>)
    ensures
        r is Ok,
        r matches Ok(bytes) ==> bytes@ == wire_bytes(
            WireFields { owner, sender, uid, kind, is_ack, clock: clock@, buffer: buffer@ },
        ),
{
    match bincode::serialize(&(owner, sender, uid, kind, is_ack, clock, buffer)) {
        Ok(bytes) => Ok(bytes),
        Err(e) => Err(e.to_string()),
    }
}

/// Calls `bincode::deserialize` for the fields of a payload, in their
/// order. Believed, not proved: it succeeds exactly where `wire_read` finds
/// fields, and gives those. An error comes back as its message.
#[verifier::external_body]
fn bincode_read(bytes: &[u8]) -> (r: Result<(u32, u32, u32, u32, bool, Vec<u32>, Vec<u8>), String>)
    ensures
        match r {
            Ok(f) => wire_read(bytes@) == Some(
                WireFields {
                    owner: f.0,
                    sender: f.1,
                    uid: f.2,
                    kind: f.3,
                    is_ack: f.4,
                    clock: f.5@,
                    buffer: f.6@,
                },
            ),
            Err(_) => wire_read(bytes@) is None,
        },
{
    match bincode::deserialize::<(u32, u32, u32, u32, bool, Vec<u32>, Vec<u8>)>(bytes) {
        Ok(fields) => Ok(fields),
        Err(e) => Err(e.to_string()),
    }
}

/// The datagram made of the outcome of writing a payload: the bytes, unless
/// there are more of them than a datagram holds.
pub fn frame_datagram(written: Result<Vec<u8>, String>) -> (r: Result<Vec<u8>, NetworkError>)
    ensures
        match written {
            Ok(bytes) => if bytes@.len() <= MAX_UDP_PAYLOAD_SIZE {
                r == Ok::<Vec<u8>, NetworkError>(bytes)
            } else {
                r matches Err(NetworkError::SerializationError(_))
            },
            Err(why) => r == Err::<Vec<u8>, NetworkError>(NetworkError::SerializationError(why)),
        },
{
    match written {
        Ok(bytes) => {
            if bytes.len() <= MAX_UDP_PAYLOAD_SIZE {
                Ok(bytes)
            } else {
                Err(NetworkError::SerializationError("the size limit has been reached".to_owned()))
            }
        },
        Err(why) => Err(NetworkError::SerializationError(why)),
    }
}

/// The datagram that carries `payload`: its fields in their layout, where
/// they fit in one datagram, and an error where they do not.
pub fn encode_payload(payload: &Payload) -> (r: Result<Vec<u8>, NetworkError>)
    ensures
        r is Ok <==> wire_bytes(fields_of(payload@)).len() <= MAX_UDP_PAYLOAD_SIZE,
        match r {
            Ok(bytes) => bytes@ == wire_bytes(fields_of(payload@)),
            Err(e) => e is SerializationError,
        },
{
    frame_datagram(
        bincode_write(
            payload.owner_id.0,
            payload.sender_id.0,
            payload.packet_uid.0,
            kind_index(payload.kind),
            payload.is_ack,
            &payload.vector_clock,
            &payload.buffer,
        ),
    )
}

/// The payload that a datagram carries: the fields at its front, where
/// they are there and name a kind.
pub fn decode_payload(bytes: &[u8]) -> (r: Result<Payload, NetworkError>)
    ensures
        match r {
            Ok(payload) => wire_read(bytes@) == Some(fields_of(payload@)),
            Err(e) => e is SerializationError && match wire_read(bytes@) {
                Some(fields) => fields.kind >= 6,
                None => true,
            },
        },
{
    match bincode_read(bytes) {
        Err(why) => Err(NetworkError::SerializationError(why)),
        Ok((owner, sender, uid, kind, is_ack, vector_clock, buffer)) => {
            match kind_from_index(kind) {
                None => Err(
                    NetworkError::SerializationError("invalid value: unknown kind".to_owned()),
                ),
                Some(kind) => Ok(
                    Payload {
                        owner_id: OwnerID(owner),
                        sender_id: SenderID(sender),
                        packet_uid: PacketID(uid),
                        kind,
                        is_ack,
                        vector_clock,
                        buffer,
                    },
                ),
            }
        },
    }
}

} // verus!
