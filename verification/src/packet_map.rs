//! Buffered packets, found by the hash of their message.

use vstd::prelude::*;

use crate::keys::MessageHash;
use crate::packet::DeserializedPacket;

verus! {

/// Some packet of `entries` has the hash.
pub open spec fn holds(entries: Seq<DeserializedPacket>, hash: MessageHash) -> bool {
    exists|i: int| 0 <= i < entries.len() && (#[trigger] entries[i]).hash() == hash
}

/// No two packets of `entries` share a hash.
pub open spec fn distinct(entries: Seq<DeserializedPacket>) -> bool {
    forall|i: int, j: int|
        0 <= i < j < entries.len() ==> (#[trigger] entries[i]).hash() != (#[trigger] entries[j]).hash()
}

/// The packets of `entries` by their hash.
pub open spec fn by_hash(entries: Seq<DeserializedPacket>) -> Map<MessageHash, DeserializedPacket> {
    Map::new(
        |hash: MessageHash| holds(entries, hash),
        |hash: MessageHash|
            entries[choose|i: int| 0 <= i < entries.len() && (#[trigger] entries[i]).hash() == hash],
    )
}

/// A map from message hashes to packets.
#[derive(Debug)]
pub struct PacketMap {
    entries: Vec<DeserializedPacket>,
}

impl View for PacketMap {
    type V = Map<MessageHash, DeserializedPacket>;

    open spec fn view(&self) -> Map<MessageHash, DeserializedPacket> {
        by_hash(self.entries())
    }
}

/// An entry is what its hash leads to.
proof fn lemma_entry(entries: Seq<DeserializedPacket>, i: int)
    requires
        distinct(entries),
        0 <= i < entries.len(),
    ensures
        by_hash(entries).contains_key(entries[i].hash()),
        by_hash(entries)[entries[i].hash()] == entries[i],
{
    let hash = entries[i].hash();
    assert(holds(entries, hash));
    let k = choose|k: int| 0 <= k < entries.len() && (#[trigger] entries[k]).hash() == hash;
    if k < i {
        assert(entries[k].hash() != entries[i].hash());
    } else if i < k {
        assert(entries[i].hash() != entries[k].hash());
    }
}

/// Every hash of the map stands at some entry.
proof fn lemma_found(entries: Seq<DeserializedPacket>, hash: MessageHash) -> (i: int)
    requires
        by_hash(entries).contains_key(hash),
    ensures
        0 <= i < entries.len(),
        entries[i].hash() == hash,
        by_hash(entries)[hash] == entries[i],
{
    choose|i: int| 0 <= i < entries.len() && (#[trigger] entries[i]).hash() == hash
}

/// The map has as many hashes as there are entries.
proof fn lemma_size(entries: Seq<DeserializedPacket>)
    requires
        distinct(entries),
    ensures
        by_hash(entries).dom().finite(),
        by_hash(entries).len() == entries.len(),
{
    let hashes = entries.map_values(|packet: DeserializedPacket| packet.hash());
    assert(hashes.no_duplicates()) by {
        assert forall|i: int, j: int| 0 <= i < hashes.len() && 0 <= j < hashes.len() && i
            != j implies hashes[i] != hashes[j] by {
            if i < j {
                assert(entries[i].hash() != entries[j].hash());
            } else {
                assert(entries[j].hash() != entries[i].hash());
            }
        }
    }
    hashes.unique_seq_to_set();
    assert(by_hash(entries).dom() =~= hashes.to_set()) by {
        assert forall|hash: MessageHash| by_hash(entries).dom().contains(hash)
            == hashes.to_set().contains(hash) by {
            if by_hash(entries).contains_key(hash) {
                let i = lemma_found(entries, hash);
                assert(hashes[i] == hash);
            }
            if hashes.contains(hash) {
                let i = choose|i: int| 0 <= i < hashes.len() && hashes[i] == hash;
                assert(entries[i].hash() == hash);
            }
        }
    }
}

/// A packet that takes the place of one with the same hash.
proof fn lemma_update(entries: Seq<DeserializedPacket>, i: int, packet: DeserializedPacket)
    requires
        distinct(entries),
        0 <= i < entries.len(),
        packet.hash() == entries[i].hash(),
    ensures
        distinct(entries.update(i, packet)),
        by_hash(entries.update(i, packet)) == by_hash(entries).insert(packet.hash(), packet),
{
    let after = entries.update(i, packet);
    assert forall|j: int, k: int| 0 <= j < k < after.len() implies (#[trigger] after[j]).hash() != (
    #[trigger] after[k]).hash() by {
        assert(entries[j].hash() != entries[k].hash());
    }
    assert forall|hash: MessageHash| by_hash(after).contains_key(hash) <==> by_hash(
        entries,
    ).insert(packet.hash(), packet).contains_key(hash) by {
        if by_hash(after).contains_key(hash) {
            let k = lemma_found(after, hash);
            assert(entries[k].hash() == hash);
        }
        if by_hash(entries).contains_key(hash) {
            let k = lemma_found(entries, hash);
            assert(after[k].hash() == hash);
        }
        lemma_entry(after, i);
    }
    assert forall|hash: MessageHash| #[trigger] by_hash(after).contains_key(hash) implies by_hash(
        after,
    )[hash] == by_hash(entries).insert(packet.hash(), packet)[hash] by {
        let k = lemma_found(after, hash);
        lemma_entry(entries, k);
        lemma_entry(after, i);
    }
    assert(by_hash(after) =~= by_hash(entries).insert(packet.hash(), packet));
}

impl PacketMap {
    /// The packets in the order in which they are kept.
    pub closed spec fn entries(&self) -> Seq<DeserializedPacket> {
        self.entries@
    }

    /// No hash occurs twice.
    pub open spec fn wf(&self) -> bool {
        distinct(self.entries())
    }

    /// The packets of a well-formed map are its entries, one for each hash.
    pub proof fn lemma_entries(&self)
        requires
            self.wf(),
        ensures
            self@.dom().finite(),
            self@.len() == self.entries().len(),
            forall|i: int|
                0 <= i < self.entries().len() ==> {
                    let hash = (#[trigger] self.entries()[i]).hash();
                    self@.contains_key(hash) && self@[hash] == self.entries()[i]
                },
            forall|hash: MessageHash| #[trigger]
                self@.contains_key(hash) ==> self@[hash].hash() == hash && self.entries().contains(
                    self@[hash],
                ),
    {
        lemma_size(self.entries());
        assert forall|i: int| 0 <= i < self.entries().len() implies {
            let hash = (#[trigger] self.entries()[i]).hash();
            self@.contains_key(hash) && self@[hash] == self.entries()[i]
        } by {
            lemma_entry(self.entries(), i);
        }
        assert forall|hash: MessageHash| #[trigger] self@.contains_key(hash) implies self@[hash].hash()
            == hash && self.entries().contains(self@[hash]) by {
            let i = lemma_found(self.entries(), hash);
        }
    }

    /// A map without packets.
    pub fn new() -> (map: Self)
        ensures
            map.wf(),
            map@ == Map::<MessageHash, DeserializedPacket>::empty(),
    {
        let map = PacketMap { entries: Vec::new() };
        assert(map@ =~= Map::<MessageHash, DeserializedPacket>::empty());
        map
    }

    /// How many packets the map holds.
    pub fn len(&self) -> (len: usize)
        requires
            self.wf(),
        ensures
            len == self@.len(),
            len == self.entries().len(),
    {
        proof {
            lemma_size(self.entries());
        }
        self.entries.len()
    }

    /// The place of the packet with the given hash, where there is one.
    fn position(&self, hash: MessageHash) -> (place: Option<usize>)
        ensures
            match place {
                Some(i) => i < self.entries().len() && self.entries()[i as int].hash() == hash,
                None => !self@.contains_key(hash),
            },
    {
        let mut i: usize = 0;
        while i < self.entries.len()
            invariant
                i <= self.entries.len(),
                forall|j: int| 0 <= j < i ==> (#[trigger] self.entries@[j]).hash() != hash,
            decreases self.entries.len() - i,
        {
            if self.entries[i].immutable_section.message_hash == hash {
                return Some(i);
            }
            i += 1;
        }
        None
    }

    /// Whether a packet with the given hash is held.
    pub fn contains(&self, hash: MessageHash) -> (found: bool)
        requires
            self.wf(),
        ensures
            found == self@.contains_key(hash),
    {
        match self.position(hash) {
            Some(i) => {
                proof {
                    lemma_entry(self.entries(), i as int);
                }
                true
            },
            None => false,
        }
    }

    /// The packet with the given hash, where there is one.
    pub fn get(&self, hash: MessageHash) -> (packet: Option<&DeserializedPacket>)
        requires
            self.wf(),
        ensures
            match packet {
                Some(packet) => self@.contains_key(hash) && *packet == self@[hash],
                None => !self@.contains_key(hash),
            },
    {
        match self.position(hash) {
            Some(i) => {
                proof {
                    lemma_entry(self.entries(), i as int);
                }
                Some(&self.entries[i])
            },
            None => None,
        }
    }

    /// Adds a packet whose hash is not held yet.
    pub fn insert(&mut self, packet: DeserializedPacket)
        requires
            old(self).wf(),
            !old(self)@.contains_key(packet.hash()),
        ensures
            final(self).wf(),
            final(self)@ == old(self)@.insert(packet.hash(), packet),
    {
        let ghost before = self.entries@;
        self.entries.push(packet);
        proof {
            let after = self.entries@;
            assert forall|i: int, j: int| 0 <= i < j < after.len() implies (#[trigger] after[i]).hash()
                != (#[trigger] after[j]).hash() by {
                if j < before.len() {
                    assert(before[i].hash() != before[j].hash());
                } else {
                    assert(before[i] == after[i]);
                    if before[i].hash() == packet.hash() {
                        assert(holds(before, packet.hash()));
                    }
                }
            }
            assert forall|hash: MessageHash| by_hash(after).contains_key(hash) <==> by_hash(
                before,
            ).insert(packet.hash(), packet).contains_key(hash) by {
                if by_hash(after).contains_key(hash) {
                    let i = lemma_found(after, hash);
                    if i < before.len() {
                        assert(before[i].hash() == hash);
                    }
                }
                if by_hash(before).contains_key(hash) {
                    let i = lemma_found(before, hash);
                    assert(after[i].hash() == hash);
                }
                assert(after[before.len() as int] == packet);
            }
            assert forall|hash: MessageHash| #[trigger] by_hash(after).contains_key(
                hash,
            ) implies by_hash(after)[hash] == by_hash(before).insert(packet.hash(), packet)[hash] by {
                let i = lemma_found(after, hash);
                if i < before.len() {
                    assert(before[i] == after[i]);
                    lemma_entry(before, i);
                }
            }
            assert(by_hash(after) =~= by_hash(before).insert(packet.hash(), packet));
        }
    }

    /// Takes the packet with the given hash out, where there is one.
    pub fn remove(&mut self, hash: MessageHash) -> (packet: Option<DeserializedPacket>)
        requires
            old(self).wf(),
        ensures
            final(self).wf(),
            final(self)@ == old(self)@.remove(hash),
            match packet {
                Some(packet) => old(self)@.contains_key(hash) && packet == old(self)@[hash],
                None => !old(self)@.contains_key(hash),
            },
    {
        let ghost before = self.entries@;
        match self.position(hash) {
            Some(i) => {
                let packet = self.entries.swap_remove(i);
                proof {
                    let after = self.entries@;
                    let last = before.len() - 1;
                    let from = |k: int| if k == i { last } else { k };
                    assert(forall|k: int|
                        0 <= k < after.len() ==> #[trigger] after[k] == before[from(k)]);
                    assert forall|j: int, k: int| 0 <= j < k < after.len() implies (
                    #[trigger] after[j]).hash() != (#[trigger] after[k]).hash() by {
                        assert(before[from(j)].hash() != before[from(k)].hash());
                    }
                    lemma_entry(before, i as int);
                    assert forall|h: MessageHash| by_hash(after).contains_key(h) <==> by_hash(
                        before,
                    ).remove(hash).contains_key(h) by {
                        if by_hash(after).contains_key(h) {
                            let k = lemma_found(after, h);
                            assert(before[from(k)].hash() == h);
                            if h == hash {
                                assert(before[from(k)].hash() == before[i as int].hash());
                            }
                        }
                        if by_hash(before).remove(hash).contains_key(h) {
                            let k = lemma_found(before, h);
                            if k == last {
                                assert(after[i as int] == before[k]);
                            } else {
                                assert(after[k] == before[k]);
                            }
                        }
                    }
                    assert forall|h: MessageHash| #[trigger] by_hash(after).contains_key(
                        h,
                    ) implies by_hash(after)[h] == by_hash(before).remove(hash)[h] by {
                        let k = lemma_found(after, h);
                        lemma_entry(before, from(k));
                    }
                    assert(by_hash(after) =~= by_hash(before).remove(hash));
                }
                Some(packet)
            },
            None => {
                assert(self@ =~= old(self)@.remove(hash));
                None
            },
        }
    }

    /// Marks the packet with the given hash as forwarded, where there is one.
    pub fn mark_forwarded(&mut self, hash: MessageHash)
        requires
            old(self).wf(),
        ensures
            final(self).wf(),
            final(self)@ == (if old(self)@.contains_key(hash) {
                old(self)@.insert(
                    hash,
                    old(self)@[hash].with_forwarded(true),
                )
            } else {
                old(self)@
            }),
    {
        if let Some(i) = self.position(hash) {
            proof {
                lemma_entry(self.entries(), i as int);
            }
            let flag = self.flag_at(i);
            *flag = true;
        }
    }

    /// The forwarded flag of the `index`-th packet.
    pub fn flag_at(&mut self, index: usize) -> (flag: &mut bool)
        requires
            old(self).wf(),
            index < old(self).entries().len(),
        ensures
            *flag == old(self).entries()[index as int].forwarded,
            final(self).entries() == old(self).entries().update(
                index as int,
                old(self).entries()[index as int].with_forwarded(*final(flag)),
            ),
            final(self).wf(),
            final(self)@ == old(self)@.insert(
                old(self).entries()[index as int].hash(),
                old(self).entries()[index as int].with_forwarded(*final(flag)),
            ),
    {
        proof {
            let entries = self.entries@;
            assert forall|forwarded: bool|
                #![trigger entries[index as int].with_forwarded(forwarded)]
                {
                    let packet = entries[index as int].with_forwarded(forwarded);
                    let after = entries.update(index as int, packet);
                    distinct(after) && by_hash(after) == by_hash(entries).insert(
                        packet.hash(),
                        packet,
                    )
                } by {
                lemma_update(
                    entries,
                    index as int,
                    entries[index as int].with_forwarded(forwarded),
                );
            }
        }
        &mut self.entries[index].forwarded
    }

    /// The packets in the order in which they are kept.
    pub fn iter(&self) -> (packets: &Vec<DeserializedPacket>)
        ensures
            packets@ == self.entries(),
    {
        &self.entries
    }

    /// Takes every packet out.
    pub fn clear(&mut self)
        ensures
            final(self).wf(),
            final(self)@ == Map::<MessageHash, DeserializedPacket>::empty(),
    {
        self.entries.clear();
        assert(self@ =~= Map::<MessageHash, DeserializedPacket>::empty());
    }
}

} // verus!
