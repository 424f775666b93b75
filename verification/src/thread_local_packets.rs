//! The packets that one banking thread keeps for itself.

use vstd::multiset::Multiset;
use vstd::prelude::*;

use crate::keys::MessageHash;
use crate::metrics::PacketBatchInsertionMetrics;
use crate::packet::{DeserializedPacket, ImmutableDeserializedPacket, PacketKey};
use crate::packet_queue::{descending, heap_drain_desc, heap_len};
use crate::unprocessed_packet_batches::{
    drop_count, greatest_price, law_room_for_all, least_price, push_run, push_step, Stored,
    UnprocessedPacketBatches,
};

verus! {

/// Where votes come from.
#[derive(Clone, Copy, Debug, PartialEq, Eq, Structural)]
pub enum VoteSource {
    Gossip,
    Tpu,
}

/// What a banking thread works on.
#[derive(Clone, Copy, Debug, PartialEq, Eq, Structural)]
pub enum ThreadType {
    Voting(VoteSource),
    Transactions,
    Bundles,
}

/// What a storage passes on to other leaders.
#[derive(Clone, Copy, Debug, PartialEq, Eq, Structural)]
pub enum ForwardOption {
    NotForward,
    ForwardTpuVote,
    ForwardTransaction,
}

/// The packets of one banking thread.
#[derive(Debug)]
pub struct ThreadLocalUnprocessedPackets {
    pub unprocessed_packet_batches: UnprocessedPacketBatches,
    pub thread_type: ThreadType,
}

/// The packets are offered as they come in: none of them was forwarded.
pub open spec fn fresh(
    packets: Seq<ImmutableDeserializedPacket>,
    offered: Seq<DeserializedPacket>,
) -> bool {
    &&& offered.len() == packets.len()
    &&& forall|i: int|
        0 <= i < offered.len() ==> *(#[trigger] offered[i]).immutable_section == packets[i]
            && !offered[i].forwarded
}

impl ThreadLocalUnprocessedPackets {
    pub open spec fn wf(&self) -> bool {
        self.unprocessed_packet_batches.wf()
    }

    pub open spec fn stored(&self) -> Stored {
        self.unprocessed_packet_batches.stored()
    }

    pub open spec fn limit(&self) -> usize {
        self.unprocessed_packet_batches.batch_limit
    }

    /// Everything but the packets is as in the other.
    pub open spec fn same_rules(&self, other: &ThreadLocalUnprocessedPackets) -> bool {
        &&& self.limit() == other.limit()
        &&& self.thread_type == other.thread_type
    }

    /// Offering the packets in order leads to the other state.
    pub open spec fn inserts(
        &self,
        packets: Seq<ImmutableDeserializedPacket>,
        after: &ThreadLocalUnprocessedPackets,
        metrics: PacketBatchInsertionMetrics,
    ) -> bool {
        &&& after.same_rules(self)
        &&& exists|
            offered: Seq<DeserializedPacket>,
            states: Seq<Stored>,
            dropped: Seq<Option<DeserializedPacket>>,
        |
            {
                &&& fresh(packets, offered)
                &&& #[trigger] push_run(offered, self.limit() as int, states, dropped)
                &&& states.first() == self.stored()
                &&& states.last() == after.stored()
                &&& metrics.num_dropped_packets == drop_count(dropped)
            }
    }

    /// Whether no packet waits.
    pub fn is_empty(&self) -> (empty: bool)
        requires
            self.wf(),
        ensures
            empty == (self.stored().len() == 0),
    {
        self.unprocessed_packet_batches.is_empty()
    }

    /// What the thread works on.
    pub fn thread_type(&self) -> (thread_type: ThreadType)
        ensures
            thread_type == self.thread_type,
    {
        self.thread_type
    }

    /// How many packets wait.
    pub fn len(&self) -> (len: usize)
        requires
            self.wf(),
        ensures
            len == self.stored().len(),
    {
        self.unprocessed_packet_batches.len()
    }

    /// The least compute-unit price of a waiting packet.
    pub fn get_min_compute_unit_price(&self) -> (price: Option<u64>)
        requires
            self.wf(),
        ensures
            least_price(self.stored(), price),
    {
        self.unprocessed_packet_batches.get_min_compute_unit_price()
    }

    /// The greatest compute-unit price of a waiting packet.
    pub fn get_max_compute_unit_price(&self) -> (price: Option<u64>)
        requires
            self.wf(),
        ensures
            greatest_price(self.stored(), price),
    {
        self.unprocessed_packet_batches.get_max_compute_unit_price()
    }

    /// For how many packets there is room.
    pub fn max_receive_size(&self) -> (room: usize)
        requires
            self.wf(),
        ensures
            room == self.limit() - self.stored().len(),
    {
        self.unprocessed_packet_batches.capacity() - self.unprocessed_packet_batches.len()
    }

    /// The waiting packets, in no particular order.
    pub fn iter(&self) -> (packets: &Vec<DeserializedPacket>)
        requires
            self.wf(),
        ensures
            packets@.len() == self.stored().len(),
            forall|i: int|
                0 <= i < packets@.len() ==> {
                    let hash = (#[trigger] packets@[i]).hash();
                    self.stored().contains_key(hash) && self.stored()[hash] == packets@[i]
                },
            forall|hash: MessageHash| #[trigger]
                self.stored().contains_key(hash) ==> packets@.contains(self.stored()[hash]),
            packets@ == self.unprocessed_packet_batches.message_hash_to_transaction.entries(),
    {
        proof {
            self.unprocessed_packet_batches.message_hash_to_transaction.lemma_entries();
        }
        self.unprocessed_packet_batches.message_hash_to_transaction.iter()
    }

    /// The forwarded flag of the packet at a place of `iter`, for changing it; the rest of a packet
    /// does not change. There is none behind the last packet.
    pub fn iter_mut(&mut self, index: usize) -> (flag: Option<&mut bool>)
        requires
            old(self).wf(),
        ensures
            final(self).wf(),
            final(self).same_rules(old(self)),
            match flag {
                Some(flag) => {
                    let packet =
                        old(self).unprocessed_packet_batches.message_hash_to_transaction.entries()[index as int];
                    &&& index < old(self).stored().len()
                    &&& *flag == packet.forwarded
                    &&& final(self).stored() == old(self).stored().insert(
                        packet.hash(),
                        packet.with_forwarded(*final(flag)),
                    )
                },
                None => index >= old(self).stored().len() && *final(self) == *old(self),
            },
    {
        self.unprocessed_packet_batches.iter_mut(index)
    }

    /// What of the thread's packets is passed on.
    pub fn forward_option(&self) -> (option: ForwardOption)
        ensures
            option == (match self.thread_type {
                ThreadType::Transactions => ForwardOption::ForwardTransaction,
                ThreadType::Voting(VoteSource::Tpu) => ForwardOption::ForwardTpuVote,
                ThreadType::Voting(VoteSource::Gossip) => ForwardOption::NotForward,
                ThreadType::Bundles => ForwardOption::NotForward,
            }),
    {
        match self.thread_type {
            ThreadType::Transactions => ForwardOption::ForwardTransaction,
            ThreadType::Voting(VoteSource::Tpu) => ForwardOption::ForwardTpuVote,
            ThreadType::Voting(VoteSource::Gossip) => ForwardOption::NotForward,
            ThreadType::Bundles => ForwardOption::NotForward,
        }
    }

    /// Takes every key out of the priority queue, the greatest first. The packets stay.
    pub fn take_priority_queue(&mut self) -> (keys: Vec<PacketKey>)
        ensures
            keys@.to_multiset() == old(self).unprocessed_packet_batches.queued(),
            descending(keys@),
            final(self).unprocessed_packet_batches.queued() == Multiset::<PacketKey>::empty(),
            final(self).unprocessed_packet_batches.message_hash_to_transaction == old(
                self,
            ).unprocessed_packet_batches.message_hash_to_transaction,
            final(self).same_rules(old(self)),
    {
        heap_drain_desc(&mut self.unprocessed_packet_batches.packet_priority_queue)
    }

    /// Whether the buffer still makes room for as many packets as it did, and the priority queue
    /// ranks as many packets as are held. Both are so after any operation, where the capacity is
    /// the one before it.
    pub fn verify_priority_queue(&self, original_capacity: usize) -> (consistent: bool)
        requires
            self.unprocessed_packet_batches.message_hash_to_transaction.wf(),
        ensures
            consistent == (self.limit() == original_capacity
                && self.unprocessed_packet_batches.queued().len() == self.stored().len()),
            self.wf() && self.limit() == original_capacity ==> consistent,
    {
        proof {
            if self.wf() {
                self.unprocessed_packet_batches.lemma_wf();
            }
        }
        self.unprocessed_packet_batches.capacity() == original_capacity && heap_len(
            &self.unprocessed_packet_batches.packet_priority_queue,
        ) == self.unprocessed_packet_batches.message_hash_to_transaction.len()
    }

    /// Drops every packet.
    pub fn clear(&mut self)
        ensures
            final(self).wf(),
            final(self).stored() == Stored::empty(),
            final(self).same_rules(old(self)),
    {
        self.unprocessed_packet_batches.clear();
    }

    /// Offers packets in order, none of them forwarded yet; the result says how many packets had
    /// to leave.
    pub fn insert_batch(&mut self, deserialized_packets: Vec<ImmutableDeserializedPacket>) -> (metrics:
        PacketBatchInsertionMetrics)
        requires
            old(self).wf(),
        ensures
            final(self).wf(),
            old(self).inserts(deserialized_packets@, final(self), metrics),
    {
        let ghost all = deserialized_packets@;
        let mut packets: Vec<DeserializedPacket> = Vec::new();
        for packet in iter: deserialized_packets
            invariant
                iter.seq() == all,
                fresh(all.take(iter.index() as int), packets@),
        {
            let ghost before = packets@;
            packets.push(DeserializedPacket::from_immutable_section(packet));
            assert forall|i: int| 0 <= i < packets@.len() implies *(
            #[trigger] packets@[i]).immutable_section == all.take(iter.index() + 1)[i]
                && !packets@[i].forwarded by {
                if i < before.len() {
                    assert(packets@[i] == before[i]);
                    assert(*before[i].immutable_section == all.take(iter.index() as int)[i]);
                }
            }
        }
        assert(all.take(all.len() as int) =~= all);
        self.unprocessed_packet_batches.insert_batch(packets)
    }
}

/// Into a storage with room for them all, every packet goes, and nothing is dropped: the message of
/// each is held afterwards, what was held stays as it was, and what is new was not forwarded. Of several
/// packets with one message the first is the one that is held.
pub proof fn law_packets_with_room_are_held(
    storage: ThreadLocalUnprocessedPackets,
    packets: Seq<ImmutableDeserializedPacket>,
    after: ThreadLocalUnprocessedPackets,
    metrics: PacketBatchInsertionMetrics,
)
    requires
        storage.wf(),
        storage.inserts(packets, &after, metrics),
        storage.stored().len() + packets.len()
            <= storage.unprocessed_packet_batches.batch_limit,
    ensures
        metrics.num_dropped_packets == 0,
        forall|i: int|
            0 <= i < packets.len() ==> after.stored().contains_key(
                (#[trigger] packets[i]).message_hash,
            ),
        forall|hash: MessageHash| #[trigger]
            storage.stored().contains_key(hash) ==> after.stored().contains_key(hash)
                && after.stored()[hash] == storage.stored()[hash],
        forall|hash: MessageHash| #[trigger]
            after.stored().contains_key(hash) && !storage.stored().contains_key(hash) ==> !after.stored()[hash].forwarded
                && packets.contains(*after.stored()[hash].immutable_section),
        forall|i: int|
            0 <= i < packets.len() && !storage.stored().contains_key(
                (#[trigger] packets[i]).message_hash,
            ) && (forall|k: int|
                0 <= k < i ==> (#[trigger] packets[k]).message_hash != packets[i].message_hash)
                ==> *after.stored()[packets[i].message_hash].immutable_section == packets[i],
{
    let (offered, states, dropped) = choose|
        offered: Seq<DeserializedPacket>,
        states: Seq<Stored>,
        dropped: Seq<Option<DeserializedPacket>>,
    |
        {
            &&& fresh(packets, offered)
            &&& #[trigger] push_run(offered, storage.limit() as int, states, dropped)
            &&& states.first() == storage.stored()
            &&& states.last() == after.stored()
            &&& metrics.num_dropped_packets == drop_count(dropped)
        };
    let n = packets.len() as int;
    let limit = storage.limit() as int;
    storage.unprocessed_packet_batches.lemma_wf();
    law_room_for_all(offered, limit, states, dropped, n);
    lemma_no_drop_counted(dropped);
    assert forall|i: int| 0 <= i < packets.len() implies after.stored().contains_key(
        (#[trigger] packets[i]).message_hash,
    ) by {
        assert(*offered[i].immutable_section == packets[i]);
        assert(states[n].contains_key(offered[i].hash()));
    }
    lemma_new_packets(packets, offered, limit, states, dropped, n);
    assert forall|i: int|
        0 <= i < packets.len() && !storage.stored().contains_key(
            (#[trigger] packets[i]).message_hash,
        ) && (forall|k: int|
            0 <= k < i ==> (#[trigger] packets[k]).message_hash
                != packets[i].message_hash) implies *after.stored()[packets[i].message_hash].immutable_section
        == packets[i] by {
        lemma_first_packet_stays(packets, offered, limit, states, dropped, i, n);
    }
}

/// The first packet with a message is the one that is held.
proof fn lemma_first_packet_stays(
    packets: Seq<ImmutableDeserializedPacket>,
    offered: Seq<DeserializedPacket>,
    limit: int,
    states: Seq<Stored>,
    dropped: Seq<Option<DeserializedPacket>>,
    i: int,
    n: int,
)
    requires
        fresh(packets, offered),
        push_run(offered, limit, states, dropped),
        forall|k: int| 0 <= k < dropped.len() ==> (#[trigger] dropped[k]) is None,
        0 <= i < packets.len(),
        !states.first().contains_key(packets[i].message_hash),
        forall|k: int|
            0 <= k < i ==> (#[trigger] packets[k]).message_hash != packets[i].message_hash,
        0 <= n <= packets.len(),
    ensures
        n <= i ==> !states[n].contains_key(packets[i].message_hash),
        n > i ==> states[n].contains_key(packets[i].message_hash)
            && *states[n][packets[i].message_hash].immutable_section == packets[i],
    decreases n,
{
    if n > 0 {
        lemma_first_packet_stays(packets, offered, limit, states, dropped, i, n - 1);
        assert(push_step(states[n - 1], limit, offered[n - 1], states[n], dropped[n - 1]));
        assert(*offered[n - 1].immutable_section == packets[n - 1]);
        assert(dropped[n - 1] is None);
        if n - 1 < i {
            assert(packets[n - 1].message_hash != packets[i].message_hash);
        }
    }
}

/// What is held and was not held before was offered.
proof fn lemma_new_packets(
    packets: Seq<ImmutableDeserializedPacket>,
    offered: Seq<DeserializedPacket>,
    limit: int,
    states: Seq<Stored>,
    dropped: Seq<Option<DeserializedPacket>>,
    n: int,
)
    requires
        fresh(packets, offered),
        push_run(offered, limit, states, dropped),
        0 <= n <= packets.len(),
    ensures
        forall|hash: MessageHash| #[trigger]
            states[n].contains_key(hash) && !states.first().contains_key(hash)
                ==> !states[n][hash].forwarded && packets.contains(
                *states[n][hash].immutable_section,
            ),
    decreases n,
{
    if n > 0 {
        lemma_new_packets(packets, offered, limit, states, dropped, n - 1);
        assert(push_step(states[n - 1], limit, offered[n - 1], states[n], dropped[n - 1]));
        assert(*offered[n - 1].immutable_section == packets[n - 1]);
        assert(packets.contains(packets[n - 1]));
    }
}

/// Where nothing was dropped nothing is counted.
proof fn lemma_no_drop_counted(dropped: Seq<Option<DeserializedPacket>>)
    requires
        forall|i: int| 0 <= i < dropped.len() ==> (#[trigger] dropped[i]) is None,
    ensures
        drop_count(dropped) == 0,
    decreases dropped.len(),
{
    if dropped.len() > 0 {
        let front = dropped.drop_last();
        assert forall|i: int| 0 <= i < front.len() implies (#[trigger] front[i]) is None by {
            assert(dropped[i] is None);
        }
        lemma_no_drop_counted(front);
        assert(dropped[dropped.len() - 1] is None);
    }
}

} // verus!
