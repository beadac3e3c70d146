//! Identifiers and the payload that travels between nodes.

use vstd::prelude::*;

verus! {

/// The node that first broadcast a payload.
#[derive(Debug, Clone, Copy, PartialEq, Eq, Hash, Structural)]
pub struct OwnerID(pub u32);

/// The node that put a payload on the wire for the current hop.
#[derive(Debug, Clone, Copy, PartialEq, Eq, Hash, Structural)]
pub struct SenderID(pub u32);

/// The number of a payload among those of one owner.
#[derive(Debug, Clone, Copy, PartialEq, Eq, Hash, Structural)]
pub struct PacketID(pub u32);

/// Counts of delivered payloads, indexed by node id.
pub type VectorClock = Vec<u32>;

/// The broadcast abstraction that a payload travels under.
#[derive(Debug, Clone, Copy, PartialEq, Eq, Structural)]
pub enum PayloadKind {
    Tcp,
    Beb,
    Rb,
    Urb,
    Fifob,
    Lcb,
}

impl PayloadKind {
    /// Kinds that are delivered in the order of their packet numbers.
    pub open spec fn ordered(self) -> bool {
        self == PayloadKind::Fifob || self == PayloadKind::Lcb
    }

    /// Whether payloads of this kind are delivered in the order of their
    /// packet numbers.
    pub fn is_ordered(self) -> (r: bool)
        ensures
            r == self.ordered(),
    {
        match self {
            PayloadKind::Fifob => true,
            PayloadKind::Lcb => true,
            _ => false,
        }
    }
}

/// One message on the wire.
#[derive(Debug, Clone)]
pub struct Payload {
    pub owner_id: OwnerID,
    pub sender_id: SenderID,
    pub packet_uid: PacketID,
    pub kind: PayloadKind,
    pub is_ack: bool,
    pub vector_clock: VectorClock,
    pub buffer: Vec<u8>,
}

/// What a payload holds, as mathematical values.
pub struct PayloadView {
    pub owner: u32,
    pub sender: u32,
    pub uid: u32,
    pub kind: PayloadKind,
    pub is_ack: bool,
    pub vector_clock: Seq<u32>,
    pub buffer: Seq<u8>,
}

impl View for Payload {
    type V = PayloadView;

    open spec fn view(&self) -> PayloadView {
        PayloadView {
            owner: self.owner_id.0,
            sender: self.sender_id.0,
            uid: self.packet_uid.0,
            kind: self.kind,
            is_ack: self.is_ack,
            vector_clock: self.vector_clock@,
            buffer: self.buffer@,
        }
    }
}

impl Payload {
    /// A copy with the same contents.
    pub fn duplicate(&self) -> (r: Payload)
        ensures
            r@ == self@,
    {
        Payload {
            owner_id: self.owner_id,
            sender_id: self.sender_id,
            packet_uid: self.packet_uid,
            kind: self.kind,
            is_ack: self.is_ack,
            vector_clock: self.vector_clock.clone(),
            buffer: self.buffer.clone(),
        }
    }

    /// The same payload marked as an acknowledgement.
    pub fn acknowledgement(&self) -> (r: Payload)
        ensures
            r@ == (PayloadView { is_ack: true, ..self@ }),
    {
        let mut ack = self.duplicate();
        ack.is_ack = true;
        ack
    }
}

} // verus!
