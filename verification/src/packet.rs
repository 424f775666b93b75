//! Packets after deserialization: the parts of a transaction that buffering and ranking read.

use std::sync::Arc;

use vstd::prelude::*;

use crate::keys::{MessageHash, Pubkey};

verus! {

/// What orders and identifies a packet in a priority queue: its compute-unit price, then the two
/// halves of its message hash.
pub type PacketKey = (u64, u128, u128);

/// An instruction of a message. Accounts are given by their position in the message's key list.
#[derive(Debug)]
pub struct CompiledInstruction {
    pub program_id_index: u8,
    pub accounts: Vec<u8>,
    pub data: Vec<u8>,
}

/// The account keys that a message names itself, and its instructions.
#[derive(Debug)]
pub struct Message {
    pub account_keys: Vec<Pubkey>,
    pub instructions: Vec<CompiledInstruction>,
}

impl Message {
    /// Every instruction names its program by a position inside the key list.
    pub open spec fn wf(&self) -> bool {
        forall|i: int|
            0 <= i < self.instructions@.len() ==> (#[trigger] self.instructions@[i]).program_id_index
                < self.account_keys@.len()
    }
}

/// What a vote transaction votes for, read from its single vote instruction.
#[derive(Clone, Copy, Debug)]
pub struct VoteDetails {
    pub vote_pubkey: Pubkey,
    pub slot: u64,
    pub timestamp: Option<i64>,
    /// The instruction is one of the legacy kinds.
    pub is_legacy: bool,
}

/// A packet whose transaction was parsed once and does not change any more.
#[derive(Debug)]
pub struct ImmutableDeserializedPacket {
    pub message_hash: MessageHash,
    pub compute_unit_price: u64,
    pub message: Message,
    /// Present where the packet is a simple vote.
    pub vote: Option<VoteDetails>,
}

impl ImmutableDeserializedPacket {
    pub open spec fn spec_key(&self) -> PacketKey {
        (self.compute_unit_price, self.message_hash.hi, self.message_hash.lo)
    }

    /// The packet's place in a priority queue.
    pub fn key(&self) -> (key: PacketKey)
        ensures
            key == self.spec_key(),
    {
        (self.compute_unit_price, self.message_hash.hi, self.message_hash.lo)
    }
}

/// A packet that several parts of a stage look at.
pub type SharedPacket = Arc<ImmutableDeserializedPacket>;

/// The message hash inside a queue key.
pub open spec fn spec_hash_of(key: PacketKey) -> MessageHash {
    MessageHash { hi: key.1, lo: key.2 }
}

/// The message hash inside a queue key.
pub fn hash_of(key: PacketKey) -> (hash: MessageHash)
    ensures
        hash == spec_hash_of(key),
{
    MessageHash { hi: key.1, lo: key.2 }
}

/// A buffered packet, with whether it was already forwarded to another leader.
#[derive(Debug)]
pub struct DeserializedPacket {
    pub immutable_section: SharedPacket,
    pub forwarded: bool,
}

impl DeserializedPacket {
    pub open spec fn hash(&self) -> MessageHash {
        self.immutable_section.message_hash
    }

    pub open spec fn spec_key(&self) -> PacketKey {
        self.immutable_section.spec_key()
    }

    /// The same packet with the flag set as given.
    pub open spec fn with_forwarded(&self, forwarded: bool) -> DeserializedPacket {
        DeserializedPacket { immutable_section: self.immutable_section, forwarded }
    }

    /// A packet that was not forwarded yet.
    pub fn from_immutable_section(immutable_section: ImmutableDeserializedPacket) -> (packet: Self)
        ensures
            *packet.immutable_section == immutable_section,
            !packet.forwarded,
    {
        DeserializedPacket { immutable_section: Arc::new(immutable_section), forwarded: false }
    }
}

} // verus!
