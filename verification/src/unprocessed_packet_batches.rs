//! The buffer of packets that wait for processing: a priority queue and a map of the packets that
//! it ranks.

use std::sync::Arc;

use min_max_heap::MinMaxHeap;
use vstd::multiset::Multiset;
use vstd::prelude::*;

use crate::keys::MessageHash;
use crate::metrics::PacketBatchInsertionMetrics;
use crate::packet::{hash_of, spec_hash_of, DeserializedPacket, PacketKey, SharedPacket};
use crate::packet_map::PacketMap;
use crate::packet_queue::{
    fits_in_memory, heap_clear, heap_contents, heap_extend, heap_len, heap_peek_max, heap_peek_min,
    heap_push, heap_push_pop_min, heap_with_capacity, key_le,
};
use crate::retention::pick;

verus! {

/// The packets that are held, by the hash of their message.
pub type Stored = Map<MessageHash, DeserializedPacket>;

/// The packet that the key leads to is held and has this very key.
pub open spec fn is_stored(stored: Stored, key: PacketKey) -> bool {
    stored.contains_key(spec_hash_of(key)) && stored[spec_hash_of(key)].spec_key() == key
}

/// The packets that keys lead to.
pub open spec fn packets_of(stored: Stored, keys: Seq<PacketKey>) -> Seq<SharedPacket> {
    Seq::new(keys.len(), |i: int| stored[spec_hash_of(keys[i])].immutable_section)
}

/// Every key leads to a packet that is held.
pub open spec fn all_held(stored: Stored, keys: Seq<PacketKey>) -> bool {
    forall|i: int|
        0 <= i < keys.len() ==> stored.contains_key(spec_hash_of(#[trigger] keys[i]))
}

/// The queue holds the key of every stored packet once, and nothing else.
pub open spec fn queue_matches(queue: Multiset<PacketKey>, stored: Stored) -> bool {
    forall|key: PacketKey| #[trigger]
        queue.count(key) == (if is_stored(stored, key) {
            1nat
        } else {
            0nat
        })
}

/// Every packet stands under its own hash.
pub open spec fn well_keyed(stored: Stored) -> bool {
    &&& stored.dom().finite()
    &&& forall|hash: MessageHash| #[trigger]
        stored.contains_key(hash) ==> stored[hash].hash() == hash
}

/// A queue that matches a map has as many keys as the map has packets.
pub proof fn lemma_queue_len(queue: Multiset<PacketKey>, stored: Stored)
    requires
        queue_matches(queue, stored),
        well_keyed(stored),
    ensures
        queue.len() == stored.len(),
    decreases stored.len(),
{
    if stored.len() == 0 {
        assert(stored.dom() =~= Set::empty());
        assert forall|key: PacketKey| #[trigger] queue.count(key) == 0 by {
            assert(!stored.dom().contains(spec_hash_of(key)));
        }
        assert(queue =~= Multiset::empty());
    } else {
        let hash = stored.dom().choose();
        assert(stored.contains_key(hash));
        let key = stored[hash].spec_key();
        assert(spec_hash_of(key) == hash);
        assert(is_stored(stored, key));
        let smaller = queue.remove(key);
        let rest = stored.remove(hash);
        assert forall|k: PacketKey| #[trigger] smaller.count(k) == (if is_stored(rest, k) {
            1nat
        } else {
            0nat
        }) by {
            assert(queue.count(k) == (if is_stored(stored, k) {
                1nat
            } else {
                0nat
            }));
            if spec_hash_of(k) == hash && is_stored(stored, k) {
                assert(k == key);
            }
        }
        assert(queue.count(key) == 1);
        lemma_queue_len(smaller, rest);
    }
}

/// The queue of a map with one packet more.
proof fn lemma_insert(queue: Multiset<PacketKey>, stored: Stored, packet: DeserializedPacket)
    requires
        queue_matches(queue, stored),
        well_keyed(stored),
        !stored.contains_key(packet.hash()),
    ensures
        queue_matches(queue.insert(packet.spec_key()), stored.insert(packet.hash(), packet)),
        well_keyed(stored.insert(packet.hash(), packet)),
{
    let after = stored.insert(packet.hash(), packet);
    assert forall|key: PacketKey| #[trigger]
        queue.insert(packet.spec_key()).count(key) == (if is_stored(after, key) {
            1nat
        } else {
            0nat
        }) by {
        assert(queue.count(key) == (if is_stored(stored, key) {
            1nat
        } else {
            0nat
        }));
        assert(spec_hash_of(packet.spec_key()) == packet.hash());
    }
}

/// The queue of a map with one packet less.
proof fn lemma_remove(queue: Multiset<PacketKey>, stored: Stored, key: PacketKey)
    requires
        queue_matches(queue, stored),
        well_keyed(stored),
        queue.contains(key),
    ensures
        is_stored(stored, key),
        queue_matches(queue.remove(key), stored.remove(spec_hash_of(key))),
        well_keyed(stored.remove(spec_hash_of(key))),
{
    assert(queue.count(key) > 0);
    let after = stored.remove(spec_hash_of(key));
    assert forall|k: PacketKey| #[trigger]
        queue.remove(key).count(k) == (if is_stored(after, k) {
            1nat
        } else {
            0nat
        }) by {
        assert(queue.count(k) == (if is_stored(stored, k) {
            1nat
        } else {
            0nat
        }));
        if spec_hash_of(k) == spec_hash_of(key) && is_stored(stored, k) {
            assert(k == key);
        }
    }
}

/// One packet is offered to a buffer with room for `limit`: a packet whose message is held already
/// is ignored; where there is room it is kept; otherwise the packet with the least key leaves,
/// which may be the one offered.
pub open spec fn push_step(
    before: Stored,
    limit: int,
    packet: DeserializedPacket,
    after: Stored,
    dropped: Option<DeserializedPacket>,
) -> bool {
    let all = before.insert(packet.hash(), packet);
    if before.contains_key(packet.hash()) {
        dropped is None && after == before
    } else if before.len() != limit {
        dropped is None && after == all
    } else {
        &&& dropped matches Some(least)
        &&& all.contains_key(least.hash()) && all[least.hash()] == least
        &&& forall|hash: MessageHash| #[trigger]
            all.contains_key(hash) ==> key_le(least.spec_key(), all[hash].spec_key())
        &&& after == all.remove(least.hash())
    }
}

/// How many of the offers made something leave.
pub open spec fn drop_count(dropped: Seq<Option<DeserializedPacket>>) -> nat
    decreases dropped.len(),
{
    if dropped.len() == 0 {
        0
    } else {
        drop_count(dropped.drop_last()) + if dropped.last() is Some {
            1nat
        } else {
            0nat
        }
    }
}

/// The packets are offered one after the other: `states` are the maps before the first and after
/// each of them, `dropped` is what each of them made leave.
pub open spec fn push_run(
    packets: Seq<DeserializedPacket>,
    limit: int,
    states: Seq<Stored>,
    dropped: Seq<Option<DeserializedPacket>>,
) -> bool {
    &&& states.len() == packets.len() + 1
    &&& dropped.len() == packets.len()
    &&& forall|i: int|
        0 <= i < packets.len() ==> push_step(
            #[trigger] states[i],
            limit,
            packets[i],
            states[i + 1],
            dropped[i],
        )
}

/// The buffer never holds more than it has room for, each packet under its own hash.
pub proof fn law_room_is_kept(
    packets: Seq<DeserializedPacket>,
    limit: int,
    states: Seq<Stored>,
    dropped: Seq<Option<DeserializedPacket>>,
    i: int,
)
    requires
        push_run(packets, limit, states, dropped),
        well_keyed(states.first()),
        states.first().len() <= limit,
        0 <= i < states.len(),
    ensures
        well_keyed(states[i]),
        states[i].len() <= limit,
    decreases i,
{
    if i > 0 {
        law_room_is_kept(packets, limit, states, dropped, i - 1);
        assert(push_step(states[i - 1], limit, packets[i - 1], states[i], dropped[i - 1]));
    }
}

/// A buffer from which a packet has to leave is full, and is full from then on, and every packet
/// that is held then ranks no lower than the one that left.
proof fn lemma_dropped_ranks_lowest(
    packets: Seq<DeserializedPacket>,
    limit: int,
    states: Seq<Stored>,
    dropped: Seq<Option<DeserializedPacket>>,
    i: int,
    j: int,
)
    requires
        push_run(packets, limit, states, dropped),
        well_keyed(states.first()),
        states.first().len() <= limit,
        0 <= i < j < states.len(),
        dropped[i] is Some,
    ensures
        states[j].len() == limit,
        forall|hash: MessageHash| #[trigger]
            states[j].contains_key(hash) ==> key_le(
                dropped[i]->0.spec_key(),
                states[j][hash].spec_key(),
            ),
    decreases j,
{
    let packet = packets[j - 1];
    let before = states[j - 1];
    let all = before.insert(packet.hash(), packet);
    law_room_is_kept(packets, limit, states, dropped, j - 1);
    assert(push_step(states[j - 1], limit, packet, states[j], dropped[j - 1]));
    if i < j - 1 {
        lemma_dropped_ranks_lowest(packets, limit, states, dropped, i, j - 1);
        if !before.contains_key(packet.hash()) {
            let least = dropped[j - 1]->0;
            assert(all.contains_key(packet.hash()));
            assert forall|hash: MessageHash| #[trigger] states[j].contains_key(hash) implies key_le(
                dropped[i]->0.spec_key(),
                states[j][hash].spec_key(),
            ) by {
                assert(all.contains_key(hash));
                if hash == packet.hash() {
                    assert(least.hash() != packet.hash());
                    assert(before.contains_key(least.hash()));
                } else {
                    assert(before.contains_key(hash));
                }
            }
        }
    }
}

/// When packets have to leave, the ones that rank lowest do: no packet that is held in the end
/// ranks below one that had to leave.
pub proof fn law_dropped_ranks_lowest(
    packets: Seq<DeserializedPacket>,
    limit: int,
    states: Seq<Stored>,
    dropped: Seq<Option<DeserializedPacket>>,
    i: int,
    hash: MessageHash,
)
    requires
        push_run(packets, limit, states, dropped),
        well_keyed(states.first()),
        states.first().len() <= limit,
        0 <= i < dropped.len(),
        dropped[i] is Some,
        states.last().contains_key(hash),
    ensures
        key_le(dropped[i]->0.spec_key(), states.last()[hash].spec_key()),
{
    lemma_dropped_ranks_lowest(packets, limit, states, dropped, i, states.len() - 1);
}

/// Nothing leaves a buffer that has room for what it holds and for what is offered, and every
/// message offered is held in the end.
pub proof fn law_room_for_all(
    packets: Seq<DeserializedPacket>,
    limit: int,
    states: Seq<Stored>,
    dropped: Seq<Option<DeserializedPacket>>,
    n: int,
)
    requires
        push_run(packets, limit, states, dropped),
        well_keyed(states.first()),
        states.first().len() + packets.len() <= limit,
        0 <= n <= packets.len(),
    ensures
        forall|i: int| 0 <= i < n ==> #[trigger] dropped[i] is None,
        forall|i: int| 0 <= i < n ==> states[n].contains_key(#[trigger] packets[i].hash()),
        forall|hash: MessageHash| #[trigger]
            states.first().contains_key(hash) ==> states[n].contains_key(hash)
                && states[n][hash] == states.first()[hash],
        states[n].len() <= states.first().len() + n,
        well_keyed(states[n]),
    decreases n,
{
    if n > 0 {
        law_room_for_all(packets, limit, states, dropped, n - 1);
        assert(push_step(states[n - 1], limit, packets[n - 1], states[n], dropped[n - 1]));
    }
}

/// What offering a packet does. One whose message is held is ignored. Where there is room it is kept,
/// next to everything else. In a full buffer just one packet leaves, which may be the one offered, and
/// everything else is kept; no packet that is kept has a lower price than the one that leaves, and at
/// the same price none has a lesser hash.
pub proof fn law_offered_packet_is_kept_or_outranked(
    before: Stored,
    limit: int,
    packet: DeserializedPacket,
    after: Stored,
    dropped: Option<DeserializedPacket>,
)
    requires
        push_step(before, limit, packet, after, dropped),
        well_keyed(before),
        before.len() <= limit,
    ensures
        dropped is Some <==> before.len() == limit && !before.contains_key(
            packet.immutable_section.message_hash,
        ),
        before.contains_key(packet.immutable_section.message_hash) ==> after == before,
        forall|hash: MessageHash| #[trigger]
            before.contains_key(hash) ==> {
                ||| after.contains_key(hash) && after[hash] == before[hash]
                ||| dropped == Some(before[hash])
            },
        !before.contains_key(packet.immutable_section.message_hash) ==> {
            let hash = packet.immutable_section.message_hash;
            ||| after.contains_key(hash) && after[hash] == packet
            ||| dropped == Some(packet)
        },
        forall|hash: MessageHash| #[trigger]
            after.contains_key(hash) ==> before.contains_key(hash) || hash
                == packet.immutable_section.message_hash,
        dropped matches Some(least) ==> !after.contains_key(least.immutable_section.message_hash)
            && forall|hash: MessageHash| #[trigger]
            after.contains_key(hash) ==> {
                let kept = after[hash].immutable_section;
                let gone = least.immutable_section;
                ||| gone.compute_unit_price < kept.compute_unit_price
                ||| gone.compute_unit_price == kept.compute_unit_price && (gone.message_hash.hi
                    < kept.message_hash.hi || (gone.message_hash.hi == kept.message_hash.hi
                    && gone.message_hash.lo < kept.message_hash.lo))
            },
        after.len() == before.len() + if before.contains_key(packet.immutable_section.message_hash)
            || dropped is Some {
            0int
        } else {
            1
        },
{
    let all = before.insert(packet.hash(), packet);
    if dropped is Some {
        let least = dropped->0;
        assert forall|hash: MessageHash| #[trigger] after.contains_key(hash) implies {
            let kept = after[hash].immutable_section;
            let gone = least.immutable_section;
            ||| gone.compute_unit_price < kept.compute_unit_price
            ||| gone.compute_unit_price == kept.compute_unit_price && (gone.message_hash.hi
                < kept.message_hash.hi || (gone.message_hash.hi == kept.message_hash.hi
                && gone.message_hash.lo < kept.message_hash.lo))
        } by {
            assert(all.contains_key(hash));
            assert(key_le(least.spec_key(), all[hash].spec_key()));
            assert(all[hash].hash() == hash);
            assert(hash != least.hash());
        }
        assert forall|hash: MessageHash| #[trigger] before.contains_key(hash) implies {
            ||| after.contains_key(hash) && after[hash] == before[hash]
            ||| dropped == Some(before[hash])
        } by {
            assert(all.contains_key(hash));
        }
    }
}

/// Drops add up over the offers.
pub proof fn law_drops_add_up(
    a: Seq<Option<DeserializedPacket>>,
    b: Seq<Option<DeserializedPacket>>,
    one: Option<DeserializedPacket>,
)
    ensures
        drop_count(a + b) == drop_count(a) + drop_count(b),
        drop_count(seq![one]) == if one is Some {
            1nat
        } else {
            0nat
        },
        drop_count(Seq::empty()) == 0,
    decreases b.len(),
{
    reveal_with_fuel(drop_count, 2);
    assert(seq![one].drop_last() =~= Seq::empty());
    assert(seq![one].last() == one);
    if b.len() == 0 {
        assert(a + b =~= a);
    } else {
        law_drops_add_up(a, b.drop_last(), one);
        assert((a + b).drop_last() =~= a + b.drop_last());
    }
}

/// Nothing leaves uncounted: after some offers as many packets are held and were counted as dropped as
/// were held before and came new.
pub proof fn law_offers_are_accounted_for(
    packets: Seq<DeserializedPacket>,
    limit: int,
    states: Seq<Stored>,
    dropped: Seq<Option<DeserializedPacket>>,
    n: int,
)
    requires
        push_run(packets, limit, states, dropped),
        well_keyed(states.first()),
        states.first().len() <= limit,
        0 <= n <= packets.len(),
    ensures
        states[n].len() + drop_count(dropped.take(n)) <= states.first().len() + n,
        (forall|i: int| 0 <= i < n ==> !states[i].contains_key(#[trigger] packets[i].hash()))
            ==> states[n].len() + drop_count(dropped.take(n)) == states.first().len() + n,
    decreases n,
{
    if n > 0 {
        law_offers_are_accounted_for(packets, limit, states, dropped, n - 1);
        law_room_is_kept(packets, limit, states, dropped, n - 1);
        assert(push_step(states[n - 1], limit, packets[n - 1], states[n], dropped[n - 1]));
        law_offered_packet_is_kept_or_outranked(
            states[n - 1],
            limit,
            packets[n - 1],
            states[n],
            dropped[n - 1],
        );
        assert(dropped.take(n).drop_last() =~= dropped.take(n - 1));
        assert(dropped.take(n).last() == dropped[n - 1]);
        if !states[n - 1].contains_key(packets[n - 1].hash()) {
            assert(packets[n - 1].hash() == packets[n - 1].immutable_section.message_hash);
        }
    } else {
        assert(dropped.take(0) =~= Seq::empty());
    }
}

/// The map with the packets of the given keys marked as forwarded.
pub open spec fn marked(stored: Stored, keys: Seq<PacketKey>) -> Stored {
    Map::new(
        |hash: MessageHash| stored.contains_key(hash),
        |hash: MessageHash|
            if has_hash(keys, hash) {
                stored[hash].with_forwarded(true)
            } else {
                stored[hash]
            },
    )
}

/// One of the keys has the hash.
pub open spec fn has_hash(keys: Seq<PacketKey>, hash: MessageHash) -> bool {
    exists|i: int| 0 <= i < keys.len() && spec_hash_of(#[trigger] keys[i]) == hash
}

/// Packets that wait for processing.
#[derive(Debug)]
pub struct UnprocessedPacketBatches {
    pub packet_priority_queue: MinMaxHeap<PacketKey>,
    pub message_hash_to_transaction: PacketMap,
    pub batch_limit: usize,
}

impl UnprocessedPacketBatches {
    /// The keys that the priority queue holds.
    pub open spec fn queued(&self) -> Multiset<PacketKey> {
        heap_contents(self.packet_priority_queue)
    }

    /// The packets, by the hash of their message.
    pub open spec fn stored(&self) -> Stored {
        self.message_hash_to_transaction@
    }

    /// Queue and map speak of the same packets, and there are no more than the limit.
    pub open spec fn wf(&self) -> bool {
        &&& self.message_hash_to_transaction.wf()
        &&& queue_matches(self.queued(), self.stored())
        &&& self.stored().len() <= self.batch_limit
    }

    /// What the parts of a well-formed buffer give.
    pub proof fn lemma_wf(&self)
        requires
            self.wf(),
        ensures
            well_keyed(self.stored()),
            self.queued().len() == self.stored().len(),
    {
        self.message_hash_to_transaction.lemma_entries();
        lemma_queue_len(self.queued(), self.stored());
    }

    /// An empty buffer with room for `capacity` packets.
    pub fn with_capacity(capacity: usize) -> (batches: Self)
        requires
            fits_in_memory(capacity),
        ensures
            batches.wf(),
            batches.stored() == Map::<MessageHash, DeserializedPacket>::empty(),
            batches.batch_limit == capacity,
    {
        UnprocessedPacketBatches {
            packet_priority_queue: heap_with_capacity(capacity),
            message_hash_to_transaction: PacketMap::new(),
            batch_limit: capacity,
        }
    }

    /// A buffer with room for `capacity` packets, to which the given ones were offered in order.
    pub fn from_iter(packets: Vec<DeserializedPacket>, capacity: usize) -> (batches: Self)
        requires
            fits_in_memory(capacity),
        ensures
            batches.wf(),
            batches.batch_limit == capacity,
            exists|states: Seq<Stored>, dropped: Seq<Option<DeserializedPacket>>|
                #[trigger] push_run(packets@, capacity as int, states, dropped)
                    && states.first() == Map::<MessageHash, DeserializedPacket>::empty()
                    && states.last() == batches.stored(),
    {
        let mut batches = Self::with_capacity(capacity);
        let _metrics = batches.insert_batch(packets);
        batches
    }

    /// Whether no packet waits.
    pub fn is_empty(&self) -> (empty: bool)
        requires
            self.wf(),
        ensures
            empty == (self.stored().len() == 0),
    {
        proof {
            self.lemma_wf();
        }
        heap_len(&self.packet_priority_queue) == 0
    }

    /// How many packets wait.
    pub fn len(&self) -> (len: usize)
        requires
            self.wf(),
        ensures
            len == self.stored().len(),
    {
        proof {
            self.lemma_wf();
        }
        heap_len(&self.packet_priority_queue)
    }

    /// How many packets there is room for in all.
    pub fn capacity(&self) -> (capacity: usize)
        ensures
            capacity == self.batch_limit,
    {
        self.batch_limit
    }

    /// Drops every packet.
    pub fn clear(&mut self)
        ensures
            final(self).wf(),
            final(self).stored() == Map::<MessageHash, DeserializedPacket>::empty(),
            final(self).batch_limit == old(self).batch_limit,
    {
        heap_clear(&mut self.packet_priority_queue);
        self.message_hash_to_transaction.clear();
    }

    /// Offers a packet, and gives back the one that had to leave for it.
    pub fn push(&mut self, packet: DeserializedPacket) -> (dropped: Option<DeserializedPacket>)
        requires
            old(self).wf(),
        ensures
            final(self).wf(),
            final(self).batch_limit == old(self).batch_limit,
            push_step(
                old(self).stored(),
                old(self).batch_limit as int,
                packet,
                final(self).stored(),
                dropped,
            ),
    {
        proof {
            self.lemma_wf();
        }
        let hash = packet.immutable_section.message_hash;
        if self.message_hash_to_transaction.contains(hash) {
            return None;
        }
        let key = packet.immutable_section.key();
        let full = self.len() == self.batch_limit;
        proof {
            lemma_insert(self.queued(), self.stored(), packet);
        }
        let ghost all = self.stored().insert(hash, packet);
        let ghost queue = self.queued().insert(key);
        self.message_hash_to_transaction.insert(packet);
        if full {
            let least = heap_push_pop_min(&mut self.packet_priority_queue, key);
            proof {
                lemma_remove(queue, all, least);
            }
            let dropped = self.message_hash_to_transaction.remove(hash_of(least));
            proof {
                assert forall|h: MessageHash| #[trigger] all.contains_key(h) implies key_le(
                    least,
                    all[h].spec_key(),
                ) by {
                    let k = all[h].spec_key();
                    assert(all[h].hash() == h);
                    assert(is_stored(all, k));
                    assert(queue.count(k) == 1);
                    assert(queue.contains(k));
                }
            }
            dropped
        } else {
            heap_push(&mut self.packet_priority_queue, key);
            None
        }
    }

    /// Offers packets in order; the result says how many packets had to leave.
    pub fn insert_batch(&mut self, packets: Vec<DeserializedPacket>) -> (metrics:
        PacketBatchInsertionMetrics)
        requires
            old(self).wf(),
        ensures
            final(self).wf(),
            final(self).batch_limit == old(self).batch_limit,
            exists|states: Seq<Stored>, dropped: Seq<Option<DeserializedPacket>>|
                #[trigger] push_run(packets@, old(self).batch_limit as int, states, dropped)
                    && states.first() == old(self).stored() && states.last()
                    == final(self).stored() && metrics.num_dropped_packets == drop_count(dropped),
    {
        let ghost limit = self.batch_limit as int;
        let ghost mut states: Seq<Stored> = seq![self.stored()];
        let ghost mut dropped: Seq<Option<DeserializedPacket>> = Seq::empty();
        let mut num_dropped_packets: usize = 0;
        let total: usize = packets.len();
        let ghost all = packets@;
        let ghost mut k: int = 0;
        for packet in iter: packets
            invariant
                self.wf(),
                self.batch_limit == old(self).batch_limit,
                limit == self.batch_limit,
                iter.seq() == all,
                iter.index() == k,
                all.len() == total,
                push_run(all.take(k), limit, states, dropped),
                states.first() == old(self).stored(),
                states.last() == self.stored(),
                num_dropped_packets == drop_count(dropped),
                num_dropped_packets <= k,
        {
            assert(packet == all[k]);
            let out = self.push(packet);
            if out.is_some() {
                num_dropped_packets += 1;
            }
            proof {
                let before_states = states;
                let before_dropped = dropped;
                states = states.push(self.stored());
                dropped = dropped.push(out);
                assert(dropped.drop_last() =~= before_dropped);
                assert forall|i: int| 0 <= i < k + 1 implies push_step(
                    #[trigger] states[i],
                    limit,
                    all.take(k + 1)[i],
                    states[i + 1],
                    dropped[i],
                ) by {
                    if i < k {
                        assert(states[i] == before_states[i]);
                        assert(all.take(k + 1)[i] == all.take(k)[i]);
                    } else {
                        assert(states[i] == before_states.last());
                    }
                }
                k = k + 1;
            }
        }
        proof {
            assert(all.take(k) =~= packets@);
        }
        PacketBatchInsertionMetrics { num_dropped_packets }
    }

    /// The least compute-unit price of a waiting packet.
    pub fn get_min_compute_unit_price(&self) -> (price: Option<u64>)
        requires
            self.wf(),
        ensures
            least_price(self.stored(), price),
    {
        proof {
            self.lemma_wf();
            self.lemma_membership();
        }
        match heap_peek_min(&self.packet_priority_queue) {
            Some(key) => {
                proof {
                    assert(self.stored().contains_key(spec_hash_of(key)));
                }
                Some(key.0)
            },
            None => None,
        }
    }

    /// The greatest compute-unit price of a waiting packet.
    pub fn get_max_compute_unit_price(&self) -> (price: Option<u64>)
        requires
            self.wf(),
        ensures
            greatest_price(self.stored(), price),
    {
        proof {
            self.lemma_wf();
            self.lemma_membership();
        }
        match heap_peek_max(&self.packet_priority_queue) {
            Some(key) => {
                proof {
                    assert(self.stored().contains_key(spec_hash_of(key)));
                }
                Some(key.0)
            },
            None => None,
        }
    }

    /// A key is in the queue just when its packet is held.
    pub proof fn lemma_membership(&self)
        requires
            self.wf(),
        ensures
            forall|key: PacketKey| #[trigger]
                self.queued().contains(key) <==> is_stored(self.stored(), key),
            forall|hash: MessageHash| #[trigger]
                self.stored().contains_key(hash) ==> self.queued().contains(
                    self.stored()[hash].spec_key(),
                ),
    {
        self.lemma_wf();
        assert forall|key: PacketKey| #[trigger] self.queued().contains(key) <==> is_stored(
            self.stored(),
            key,
        ) by {
            assert(self.queued().count(key) == (if is_stored(self.stored(), key) {
                1nat
            } else {
                0nat
            }));
        }
        assert forall|hash: MessageHash| #[trigger] self.stored().contains_key(
            hash,
        ) implies self.queued().contains(self.stored()[hash].spec_key()) by {
            assert(self.stored()[hash].hash() == hash);
            assert(is_stored(self.stored(), self.stored()[hash].spec_key()));
        }
    }

    /// Whether the packet was forwarded; one that is not held counts as forwarded.
    pub fn is_forwarded(&self, key: PacketKey) -> (forwarded: bool)
        requires
            self.message_hash_to_transaction.wf(),
        ensures
            forwarded == was_forwarded(self.stored(), key),
    {
        match self.message_hash_to_transaction.get(hash_of(key)) {
            Some(packet) => packet.forwarded,
            None => true,
        }
    }

    /// Marks the accepted ones of the packets as forwarded.
    pub fn mark_accepted_packets_as_forwarded(
        &mut self,
        packets_to_process: &Vec<PacketKey>,
        accepted_packet_indexes: &Vec<usize>,
    )
        requires
            old(self).message_hash_to_transaction.wf(),
            forall|i: int|
                0 <= i < accepted_packet_indexes@.len() ==> #[trigger] accepted_packet_indexes@[i]
                    < packets_to_process@.len(),
        ensures
            final(self).message_hash_to_transaction.wf(),
            final(self).packet_priority_queue == old(self).packet_priority_queue,
            final(self).batch_limit == old(self).batch_limit,
            final(self).stored() == marked(
                old(self).stored(),
                pick(packets_to_process@, accepted_packet_indexes@),
            ),
    {
        let ghost keys = pick(packets_to_process@, accepted_packet_indexes@);
        let ghost before = self.stored();
        let mut i: usize = 0;
        assert(marked(before, keys.take(0)) =~= before);
        while i < accepted_packet_indexes.len()
            invariant
                i <= accepted_packet_indexes@.len(),
                keys == pick(packets_to_process@, accepted_packet_indexes@),
                forall|k: int|
                    0 <= k < accepted_packet_indexes@.len()
                        ==> #[trigger] accepted_packet_indexes@[k] < packets_to_process@.len(),
                self.message_hash_to_transaction.wf(),
                self.packet_priority_queue == old(self).packet_priority_queue,
                self.batch_limit == old(self).batch_limit,
                self.stored() == marked(before, keys.take(i as int)),
            decreases accepted_packet_indexes.len() - i,
        {
            let key = packets_to_process[accepted_packet_indexes[i]];
            let ghost now = self.stored();
            self.message_hash_to_transaction.mark_forwarded(hash_of(key));
            proof {
                assert(keys[i as int] == key);
                let next = keys.take(i + 1);
                assert forall|hash: MessageHash| has_hash(next, hash) <==> has_hash(
                    keys.take(i as int),
                    hash,
                ) || hash == spec_hash_of(key) by {
                    if has_hash(keys.take(i as int), hash) {
                        let j = choose|j: int|
                            0 <= j < i && spec_hash_of(#[trigger] keys.take(i as int)[j]) == hash;
                        assert(next[j] == keys.take(i as int)[j]);
                    }
                    assert(next[i as int] == key);
                    if has_hash(next, hash) {
                        let j = choose|j: int|
                            0 <= j < next.len() && spec_hash_of(#[trigger] next[j]) == hash;
                        if j < i {
                            assert(keys.take(i as int)[j] == next[j]);
                        }
                    }
                }
                assert(self.stored() =~= marked(before, next));
            }
            i += 1;
        }
        assert(keys.take(i as int) =~= keys);
    }

    /// The forwarded flag of the packet at a place of the map, for changing it; the rest of a
    /// packet does not change. There is none behind the last packet.
    pub fn iter_mut(&mut self, index: usize) -> (flag: Option<&mut bool>)
        requires
            old(self).wf(),
        ensures
            final(self).wf(),
            final(self).batch_limit == old(self).batch_limit,
            match flag {
                Some(flag) => {
                    let packet =
                        old(self).message_hash_to_transaction.entries()[index as int];
                    &&& index < old(self).stored().len()
                    &&& *flag == packet.forwarded
                    &&& final(self).stored() == old(self).stored().insert(
                        packet.hash(),
                        packet.with_forwarded(*final(flag)),
                    )
                },
                None => index >= old(self).stored().len() && *final(self) == *old(self),
            },
    {
        proof {
            self.lemma_wf();
            self.message_hash_to_transaction.lemma_entries();
        }
        if index < self.message_hash_to_transaction.len() {
            proof {
                let packet = self.message_hash_to_transaction.entries()[index as int];
                let stored = self.stored();
                assert forall|forwarded: bool|
                    #![trigger packet.with_forwarded(forwarded)]
                    {
                        let after = stored.insert(packet.hash(), packet.with_forwarded(forwarded));
                        queue_matches(self.queued(), after) && after.len() == stored.len()
                    } by {
                    let after = stored.insert(packet.hash(), packet.with_forwarded(forwarded));
                    assert forall|key: PacketKey| #[trigger]
                        self.queued().count(key) == (if is_stored(after, key) {
                            1nat
                        } else {
                            0nat
                        }) by {
                        assert(is_stored(after, key) == is_stored(stored, key));
                    }
                    assert(after.dom() =~= stored.dom());
                }
            }
            Some(self.message_hash_to_transaction.flag_at(index))
        } else {
            None
        }
    }

    /// The packets that keys lead to.
    pub fn packets(&self, keys: &Vec<PacketKey>) -> (packets: Vec<SharedPacket>)
        requires
            self.message_hash_to_transaction.wf(),
            all_held(self.stored(), keys@),
        ensures
            packets@ == packets_of(self.stored(), keys@),
    {
        let mut packets: Vec<SharedPacket> = Vec::new();
        let mut i: usize = 0;
        while i < keys.len()
            invariant
                i <= keys@.len(),
                self.message_hash_to_transaction.wf(),
                all_held(self.stored(), keys@),
                packets@ == packets_of(self.stored(), keys@.take(i as int)),
            decreases keys.len() - i,
        {
            packets.push(self.packet(keys[i]));
            i += 1;
            assert(packets@ =~= packets_of(self.stored(), keys@.take(i as int)));
        }
        assert(keys@.take(i as int) =~= keys@);
        packets
    }

    /// The packet that a key leads to.
    pub fn packet(&self, key: PacketKey) -> (packet: SharedPacket)
        requires
            self.message_hash_to_transaction.wf(),
            self.stored().contains_key(spec_hash_of(key)),
        ensures
            packet == self.stored()[spec_hash_of(key)].immutable_section,
    {
        match self.message_hash_to_transaction.get(hash_of(key)) {
            Some(packet) => Arc::clone(&packet.immutable_section),
            None => vstd::pervasive::unreached(),
        }
    }

    /// Puts keys into the priority queue.
    pub fn extend_priority_queue(&mut self, keys: Vec<PacketKey>)
        ensures
            final(self).queued() == old(self).queued().add(keys@.to_multiset()),
            final(self).message_hash_to_transaction == old(self).message_hash_to_transaction,
            final(self).batch_limit == old(self).batch_limit,
    {
        heap_extend(&mut self.packet_priority_queue, keys)
    }
}

/// The packet was forwarded, or is not held.
pub open spec fn was_forwarded(stored: Stored, key: PacketKey) -> bool {
    !stored.contains_key(spec_hash_of(key)) || stored[spec_hash_of(key)].forwarded
}

/// The price is the least of all packets; there is none just when there is no packet.
pub open spec fn least_price(stored: Stored, price: Option<u64>) -> bool {
    match price {
        Some(least) => {
            &&& exists|hash: MessageHash| #[trigger]
                stored.contains_key(hash) && stored[hash].immutable_section.compute_unit_price
                    == least
            &&& forall|hash: MessageHash| #[trigger]
                stored.contains_key(hash) ==> least
                    <= stored[hash].immutable_section.compute_unit_price
        },
        None => stored.len() == 0,
    }
}

/// The price is the greatest of all packets; there is none just when there is no packet.
pub open spec fn greatest_price(stored: Stored, price: Option<u64>) -> bool {
    match price {
        Some(greatest) => {
            &&& exists|hash: MessageHash| #[trigger]
                stored.contains_key(hash) && stored[hash].immutable_section.compute_unit_price
                    == greatest
            &&& forall|hash: MessageHash| #[trigger]
                stored.contains_key(hash) ==> stored[hash].immutable_section.compute_unit_price
                    <= greatest
        },
        None => stored.len() == 0,
    }
}

/// Marking sets the flag of just the packets that the keys lead to, and changes nothing else.
pub proof fn law_marking_sets_flags_only(stored: Stored, keys: Seq<PacketKey>, hash: MessageHash)
    ensures
        marked(stored, keys).contains_key(hash) <==> stored.contains_key(hash),
        stored.contains_key(hash) ==> marked(stored, keys)[hash].immutable_section
            == stored[hash].immutable_section,
        stored.contains_key(hash) ==> (marked(stored, keys)[hash].forwarded
            <==> stored[hash].forwarded || exists|i: int|
            0 <= i < keys.len() && (#[trigger] keys[i]).1 == hash.hi && keys[i].2 == hash.lo),
{
    if has_hash(keys, hash) {
        let i = choose|i: int| 0 <= i < keys.len() && spec_hash_of(#[trigger] keys[i]) == hash;
        assert(keys[i].1 == hash.hi && keys[i].2 == hash.lo);
    }
    if exists|i: int|
        0 <= i < keys.len() && (#[trigger] keys[i]).1 == hash.hi && keys[i].2 == hash.lo {
        let i = choose|i: int|
            0 <= i < keys.len() && (#[trigger] keys[i]).1 == hash.hi && keys[i].2 == hash.lo;
        assert(spec_hash_of(keys[i]) == hash);
    }
}

/// The least and the greatest price bound the price of every packet, are prices of packets, and are
/// there just where a packet is.
pub proof fn law_prices_bound_every_packet(
    stored: Stored,
    least: Option<u64>,
    greatest: Option<u64>,
    hash: MessageHash,
)
    requires
        stored.dom().finite(),
        least_price(stored, least),
        greatest_price(stored, greatest),
    ensures
        stored.contains_key(hash) ==> (least matches Some(low) && greatest matches Some(high) && low
            <= stored[hash].immutable_section.compute_unit_price <= high),
        least matches Some(low) ==> exists|h: MessageHash| #[trigger]
            stored.contains_key(h) && stored[h].immutable_section.compute_unit_price == low,
        greatest matches Some(high) ==> exists|h: MessageHash| #[trigger]
            stored.contains_key(h) && stored[h].immutable_section.compute_unit_price == high,
        stored.len() == 0 ==> least is None && greatest is None,
{
    if stored.contains_key(hash) {
        if stored.len() == 0 {
            assert(stored.dom() =~= Set::empty());
        }
        assert(stored.dom().contains(hash));
    }
    if stored.len() == 0 {
        assert(stored.dom() =~= Set::empty());
        assert forall|h: MessageHash| !(#[trigger] stored.contains_key(h)) by {
            assert(!stored.dom().contains(h));
        }
    }
}

} // verus!
