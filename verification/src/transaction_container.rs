//! The transactions that the scheduler knows: some wait in a priority queue, the others are with
//! the worker threads.

use min_max_heap::MinMaxHeap;
use vstd::multiset::Multiset;
use vstd::prelude::*;

use crate::packet::PacketKey;
use crate::packet_queue::{
    fits_in_memory, heap_contents, heap_peek_max, heap_peek_min, heap_pop_max, heap_push,
    heap_with_capacity, key_le,
};

verus! {

/// A transaction in the queue: its priority decides, then its number.
#[derive(Clone, Copy, Debug, PartialEq, Eq, Structural)]
pub struct TransactionPriorityId {
    pub priority: u64,
    pub id: usize,
}

/// The key under which the transaction stands in the queue.
pub open spec fn key_of(entry: TransactionPriorityId) -> PacketKey {
    (entry.priority, entry.id as u128, 0)
}

/// The transaction that stands under the key.
pub open spec fn entry_of(key: PacketKey) -> TransactionPriorityId {
    TransactionPriorityId { priority: key.0, id: key.1 as usize }
}

/// The entry ranks no higher than the other.
pub open spec fn entry_le(a: TransactionPriorityId, b: TransactionPriorityId) -> bool {
    a.priority < b.priority || (a.priority == b.priority && a.id <= b.id)
}

/// The least and the greatest of some priorities.
#[derive(Clone, Copy, Debug, PartialEq, Eq, Structural)]
pub enum PriorityRange {
    NoElements,
    OneElement(u64),
    MinMax(u64, u64),
}

/// The transactions, by their numbers, and the queue of those that wait.
#[derive(Debug)]
pub struct TransactionStateContainer {
    priority_queue: MinMaxHeap<PacketKey>,
    known: Vec<usize>,
}

impl TransactionStateContainer {
    /// The keys in the queue.
    closed spec fn keys(&self) -> Multiset<PacketKey> {
        heap_contents(self.priority_queue)
    }

    /// The transaction waits in the queue.
    pub closed spec fn waits(&self, entry: TransactionPriorityId) -> bool {
        self.keys().contains(key_of(entry))
    }

    /// The numbers of all transactions, waiting or not.
    pub closed spec fn known(&self) -> Set<usize> {
        self.known@.to_set()
    }

    /// How many transactions wait.
    pub closed spec fn waiting_count(&self) -> nat {
        self.keys().len()
    }

    /// Every transaction that waits is known, and waits once.
    pub closed spec fn wf(&self) -> bool {
        &&& self.known@.no_duplicates()
        &&& forall|key: PacketKey| #[trigger]
            self.keys().contains(key) ==> {
                &&& key == key_of(entry_of(key))
                &&& self.known@.contains(entry_of(key).id)
                &&& self.keys().count(key) == 1
            }
        &&& forall|a: PacketKey, b: PacketKey| #[trigger]
            self.keys().contains(a) && #[trigger] self.keys().contains(b) && a.1 == b.1 ==> a == b
    }

    /// What a well-formed container tells of the transactions that wait.
    pub proof fn lemma_wf(&self)
        requires
            self.wf(),
        ensures
            self.known().finite(),
            self.waiting_count() == 0 ==> forall|entry: TransactionPriorityId|
                !(#[trigger] self.waits(entry)),
            forall|entry: TransactionPriorityId| #[trigger]
                self.waits(entry) ==> self.known().contains(entry.id),
            forall|a: TransactionPriorityId, b: TransactionPriorityId| #[trigger]
                self.waits(a) && #[trigger] self.waits(b) && a.id == b.id ==> a == b,
    {
        assert forall|entry: TransactionPriorityId| #[trigger]
            self.waits(entry) implies self.known().contains(entry.id) by {
            assert(self.keys().contains(key_of(entry)));
            assert(entry_of(key_of(entry)).id == entry.id);
        }
        assert forall|a: TransactionPriorityId, b: TransactionPriorityId| #[trigger]
            self.waits(a) && #[trigger] self.waits(b) && a.id == b.id implies a == b by {
            assert(key_of(a) == key_of(b));
        }
    }

    /// A container without transactions.
    pub fn with_capacity(capacity: usize) -> (container: Self)
        requires
            fits_in_memory(capacity),
        ensures
            container.wf(),
            container.known() == Set::<usize>::empty(),
            container.waiting_count() == 0,
            forall|entry: TransactionPriorityId| !(#[trigger] container.waits(entry)),
    {
        let container = TransactionStateContainer {
            priority_queue: heap_with_capacity(capacity),
            known: Vec::new(),
        };
        assert(container.known() =~= Set::<usize>::empty());
        container
    }

    /// Takes a new transaction in, which waits.
    pub fn insert_new(&mut self, entry: TransactionPriorityId)
        requires
            old(self).wf(),
            !old(self).known().contains(entry.id),
        ensures
            final(self).wf(),
            final(self).known() == old(self).known().insert(entry.id),
            final(self).waiting_count() == old(self).waiting_count() + 1,
            forall|other: TransactionPriorityId| #[trigger]
                final(self).waits(other) <==> old(self).waits(other) || other == entry,
    {
        let ghost before = self.known@;
        self.known.push(entry.id);
        proof {
            assert(self.known@ =~= before + seq![entry.id]);
            crate::key_lists::lemma_concat(before, seq![entry.id]);
            assert(seq![entry.id][0] == entry.id);
            assert(self.known() =~= old(self).known().insert(entry.id));
            assert(self.keys() == old(self).keys());
            assert forall|other: TransactionPriorityId| #[trigger]
                self.waits(other) implies other.id != entry.id by {
                assert(old(self).keys().contains(key_of(other)));
                assert(entry_of(key_of(other)) == other);
            }
            assert forall|k: PacketKey| #[trigger] self.keys().contains(k) implies self.known@.contains(
                entry_of(k).id,
            ) by {
                assert(old(self).keys().contains(k));
                assert(before.contains(entry_of(k).id));
            }
        }
        self.push(entry);
    }

    /// Puts a known transaction into the queue, in which it does not wait.
    fn push(&mut self, entry: TransactionPriorityId)
        requires
            old(self).wf(),
            old(self).known().contains(entry.id),
            forall|other: TransactionPriorityId| #[trigger]
                old(self).waits(other) ==> other.id != entry.id,
        ensures
            final(self).wf(),
            final(self).known() == old(self).known(),
            final(self).waiting_count() == old(self).waiting_count() + 1,
            forall|other: TransactionPriorityId| #[trigger]
                final(self).waits(other) <==> old(self).waits(other) || other == entry,
    {
        let key: PacketKey = (entry.priority, entry.id as u128, 0);
        let ghost before = self.keys();
        proof {
            assert forall|k: PacketKey| #[trigger] before.contains(k) implies k.1 != key.1 by {
                assert(self.waits(entry_of(k)));
            }
        }
        heap_push(&mut self.priority_queue, key);
        proof {
            let after = self.keys();
            assert forall|k: PacketKey| #[trigger] after.contains(k) <==> before.contains(k) || k
                == key by {
                assert(after.count(k) == before.count(k) + (if k == key {
                    1nat
                } else {
                    0nat
                }));
            }
            assert forall|k: PacketKey| #[trigger] after.contains(k) implies after.count(k) == 1 by {
                if k == key {
                    assert(!before.contains(key));
                }
            }
            assert(entry_of(key) == entry);
            assert forall|other: TransactionPriorityId| #[trigger]
                self.waits(other) <==> old(self).waits(other) || other == entry by {
                assert(after.contains(key_of(other)) <==> before.contains(key_of(other))
                    || key_of(other) == key);
                if key_of(other) == key {
                    assert(other == entry);
                }
            }
        }
    }

    /// The least and the greatest priority of the transactions that wait.
    pub fn get_min_max_priority(&self) -> (range: PriorityRange)
        requires
            self.wf(),
        ensures
            match range {
                PriorityRange::NoElements => self.waiting_count() == 0,
                PriorityRange::OneElement(_) => false,
                PriorityRange::MinMax(least, greatest) => {
                    &&& exists|entry: TransactionPriorityId| #[trigger]
                        self.waits(entry) && entry.priority == least
                    &&& exists|entry: TransactionPriorityId| #[trigger]
                        self.waits(entry) && entry.priority == greatest
                    &&& forall|entry: TransactionPriorityId| #[trigger]
                        self.waits(entry) ==> least <= entry.priority <= greatest
                },
            },
    {
        match heap_peek_min(&self.priority_queue) {
            Some(least) => match heap_peek_max(&self.priority_queue) {
                Some(greatest) => {
                    proof {
                        assert(self.waits(entry_of(least)));
                        assert(self.waits(entry_of(greatest)));
                        assert forall|entry: TransactionPriorityId| #[trigger]
                            self.waits(entry) implies least.0 <= entry.priority <= greatest.0 by {
                            assert(self.keys().contains(key_of(entry)));
                        }
                    }
                    PriorityRange::MinMax(least.0, greatest.0)
                },
                None => PriorityRange::OneElement(least.0),
            },
            None => PriorityRange::NoElements,
        }
    }

    /// Takes the transaction of the highest rank out of the queue; it stays known.
    pub fn pop(&mut self) -> (popped: Option<TransactionPriorityId>)
        requires
            old(self).wf(),
        ensures
            final(self).wf(),
            final(self).known() == old(self).known(),
            match popped {
                Some(entry) => {
                    &&& old(self).waits(entry)
                    &&& forall|other: TransactionPriorityId| #[trigger]
                        old(self).waits(other) ==> entry_le(other, entry)
                    &&& forall|other: TransactionPriorityId| #[trigger]
                        final(self).waits(other) <==> old(self).waits(other) && other != entry
                    &&& final(self).waiting_count() == old(self).waiting_count() - 1
                },
                None => {
                    &&& final(self).waiting_count() == 0
                    &&& forall|other: TransactionPriorityId| #[trigger]
                        final(self).waits(other) <==> old(self).waits(other)
                },
            },
            popped is None <==> old(self).waiting_count() == 0,
    {
        let ghost before = self.keys();
        match heap_pop_max(&mut self.priority_queue) {
            Some(key) => {
                let entry = TransactionPriorityId { priority: key.0, id: key.1 as usize };
                proof {
                    let after = self.keys();
                    assert(before == old(self).keys());
                    assert(before.contains(key));
                    assert(before.count(key) == 1);
                    assert(key == key_of(entry));
                    assert(old(self).waits(entry));
                    assert(after.len() == before.len() - 1);
                    assert forall|k: PacketKey| #[trigger]
                        after.contains(k) <==> before.contains(k) && k != key by {
                        assert(after.count(k) == (if k == key {
                            (before.count(k) - 1) as nat
                        } else {
                            before.count(k)
                        }));
                    }
                    assert forall|k: PacketKey| #[trigger] after.contains(k) implies after.count(k)
                        == 1 by {
                        assert(before.contains(k));
                    }
                    assert forall|other: TransactionPriorityId| #[trigger]
                        self.waits(other) <==> old(self).waits(other) && other != entry by {
                        assert(after.contains(key_of(other)) <==> before.contains(key_of(other))
                            && key_of(other) != key);
                        if key_of(other) == key {
                            assert(other == entry);
                        }
                    }
                    assert forall|other: TransactionPriorityId| #[trigger]
                        old(self).waits(other) implies entry_le(other, entry) by {
                        assert(before.contains(key_of(other)));
                        assert(key_le(key_of(other), key));
                    }
                }
                Some(entry)
            },
            None => {
                assert(self.keys() == old(self).keys());
                None
            },
        }
    }

    /// Forgets a transaction that does not wait.
    pub fn remove_by_id(&mut self, id: usize)
        requires
            old(self).wf(),
            old(self).known().contains(id),
            forall|entry: TransactionPriorityId| #[trigger]
                old(self).waits(entry) ==> entry.id != id,
        ensures
            final(self).wf(),
            final(self).known() == old(self).known().remove(id),
            final(self).waiting_count() == old(self).waiting_count(),
            forall|entry: TransactionPriorityId| #[trigger]
                final(self).waits(entry) <==> old(self).waits(entry),
    {
        let ghost before = self.known@;
        let total: usize = self.known.len();
        let mut place: usize = 0;
        while self.known[place] != id
            invariant
                self.known@ == before,
                before.len() == total,
                place < before.len(),
                before.contains(id),
                forall|i: int| 0 <= i < place ==> before[i] != id,
            decreases before.len() - place,
        {
            proof {
                let i = choose|i: int| 0 <= i < before.len() && before[i] == id;
                assert(i > place);
            }
            place += 1;
        }
        let _removed = self.known.swap_remove(place);
        proof {
            let after = self.known@;
            let last = before.len() - 1;
            let from = |k: int| if k == place { last } else { k };
            assert(forall|k: int| 0 <= k < after.len() ==> #[trigger] after[k] == before[from(k)]);
            assert forall|i: int, j: int| 0 <= i < after.len() && 0 <= j < after.len() && i
                != j implies after[i] != after[j] by {
                assert(before[from(i)] != before[from(j)]);
            }
            assert forall|x: usize| after.contains(x) <==> before.contains(x) && x != id by {
                if after.contains(x) {
                    let k = choose|k: int| 0 <= k < after.len() && after[k] == x;
                    assert(before[from(k)] == x);
                    assert(before[from(k)] != before[place as int]);
                }
                if before.contains(x) && x != id {
                    let k = choose|k: int| 0 <= k < before.len() && before[k] == x;
                    if k == last {
                        assert(after[place as int] == x);
                    } else {
                        assert(after[k] == x);
                    }
                }
            }
            assert(self.known() =~= old(self).known().remove(id));
            assert(self.keys() == old(self).keys());
            assert forall|key: PacketKey| #[trigger] self.keys().contains(key) implies after.contains(
                entry_of(key).id,
            ) by {
                assert(old(self).keys().contains(key));
                assert(old(self).waits(entry_of(key)));
            }
        }
    }

    /// Puts known transactions into the queue, none of which waits.
    pub fn push_ids_into_queue(&mut self, entries: &Vec<TransactionPriorityId>)
        requires
            old(self).wf(),
            forall|i: int|
                0 <= i < entries@.len() ==> old(self).known().contains(
                    (#[trigger] entries@[i]).id,
                ),
            forall|i: int, entry: TransactionPriorityId|
                0 <= i < entries@.len() && #[trigger] old(self).waits(entry) ==> entry.id != (
                #[trigger] entries@[i]).id,
            forall|i: int, j: int|
                0 <= i < j < entries@.len() ==> (#[trigger] entries@[i]).id != (
                #[trigger] entries@[j]).id,
        ensures
            final(self).wf(),
            final(self).known() == old(self).known(),
            final(self).waiting_count() == old(self).waiting_count() + entries@.len(),
            forall|entry: TransactionPriorityId| #[trigger]
                final(self).waits(entry) <==> old(self).waits(entry) || entries@.contains(entry),
    {
        let mut i: usize = 0;
        while i < entries.len()
            invariant
                i <= entries@.len(),
                self.wf(),
                self.known() == old(self).known(),
                self.waiting_count() == old(self).waiting_count() + i,
                forall|k: int|
                    0 <= k < entries@.len() ==> old(self).known().contains(
                        (#[trigger] entries@[k]).id,
                    ),
                forall|k: int, entry: TransactionPriorityId|
                    0 <= k < entries@.len() && #[trigger] old(self).waits(entry) ==> entry.id != (
                    #[trigger] entries@[k]).id,
                forall|a: int, b: int|
                    0 <= a < b < entries@.len() ==> (#[trigger] entries@[a]).id != (
                    #[trigger] entries@[b]).id,
                forall|entry: TransactionPriorityId| #[trigger]
                    self.waits(entry) <==> old(self).waits(entry) || entries@.take(
                        i as int,
                    ).contains(entry),
            decreases entries.len() - i,
        {
            let ghost seen = entries@.take(i as int);
            proof {
                assert forall|other: TransactionPriorityId| #[trigger]
                    self.waits(other) implies other.id != entries@[i as int].id by {
                    if seen.contains(other) {
                        let k = choose|k: int| 0 <= k < seen.len() && seen[k] == other;
                        assert(entries@[k].id != entries@[i as int].id);
                    }
                }
            }
            let ghost before = *self;
            self.push(entries[i]);
            proof {
                let next = entries@.take(i + 1);
                assert forall|entry: TransactionPriorityId| #[trigger]
                    self.waits(entry) <==> old(self).waits(entry) || next.contains(entry) by {
                    assert(before.waits(entry) <==> old(self).waits(entry) || seen.contains(entry));
                    if seen.contains(entry) {
                        let k = choose|k: int| 0 <= k < seen.len() && seen[k] == entry;
                        assert(next[k] == entry);
                    }
                    assert(next[i as int] == entries@[i as int]);
                    if next.contains(entry) {
                        let k = choose|k: int| 0 <= k < next.len() && next[k] == entry;
                        if k < i {
                            assert(seen[k] == entry);
                        }
                    }
                }
            }
            i += 1;
        }
        assert(entries@.take(i as int) =~= entries@);
    }
}

} // verus!
