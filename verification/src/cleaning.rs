//! Cleaning the scheduler's queue of transactions that cannot be processed any more.

use vstd::prelude::*;

use crate::ages::processing_age;
use crate::transaction_container::{entry_le, TransactionPriorityId, TransactionStateContainer};

verus! {

/// How many transactions are looked at in one go.
pub const MAX_TRANSACTION_CHECKS: usize = 10_000;

/// How many transactions are checked together.
pub const CHUNK_SIZE: usize = 128;

/// The entries have different numbers.
pub open spec fn distinct_ids(entries: Seq<TransactionPriorityId>) -> bool {
    forall|i: int, j: int|
        0 <= i < j < entries.len() ==> (#[trigger] entries[i]).id != (#[trigger] entries[j]).id
}

/// The entries stand in the order in which they leave the queue.
pub open spec fn in_pop_order(entries: Seq<TransactionPriorityId>) -> bool {
    forall|i: int, j: int|
        0 <= i < j < entries.len() ==> entry_le(#[trigger] entries[j], #[trigger] entries[i])
}

/// The entries are the highest ranked of those that wait, as many as may be looked at, in the
/// order of their rank.
pub open spec fn highest_ranked(
    container: TransactionStateContainer,
    entries: Seq<TransactionPriorityId>,
) -> bool {
    &&& entries.len() == (if container.waiting_count() < MAX_TRANSACTION_CHECKS {
        container.waiting_count() as int
    } else {
        MAX_TRANSACTION_CHECKS as int
    })
    &&& distinct_ids(entries)
    &&& in_pop_order(entries)
    &&& forall|i: int| 0 <= i < entries.len() ==> container.waits(#[trigger] entries[i])
    &&& forall|i: int, other: TransactionPriorityId|
        0 <= i < entries.len() && #[trigger] container.waits(other) && !entries.contains(other)
            ==> entry_le(other, #[trigger] entries[i])
}

/// The entry with the number was found not to be processable.
pub open spec fn is_dropped(
    entries: Seq<TransactionPriorityId>,
    verdicts: Seq<Option<bool>>,
    id: usize,
) -> bool {
    exists|i: int|
        0 <= i < entries.len() && (#[trigger] entries[i]).id == id && verdicts[i] == Some(false)
}

/// The entry was found to be processable.
pub open spec fn is_kept(
    entries: Seq<TransactionPriorityId>,
    verdicts: Seq<Option<bool>>,
    entry: TransactionPriorityId,
) -> bool {
    exists|i: int|
        0 <= i < entries.len() && #[trigger] entries[i] == entry && verdicts[i] == Some(true)
}

/// How many entries were found not to be processable.
pub open spec fn dropped_total(verdicts: Seq<Option<bool>>) -> nat
    decreases verdicts.len(),
{
    if verdicts.len() == 0 {
        0
    } else {
        dropped_total(verdicts.drop_last()) + if verdicts.last() == Some(false) {
            1nat
        } else {
            0nat
        }
    }
}

/// Counts add up.
pub proof fn lemma_dropped_total(a: Seq<Option<bool>>, b: Seq<Option<bool>>)
    ensures
        dropped_total(a + b) == dropped_total(a) + dropped_total(b),
        dropped_total(a) <= a.len(),
    decreases a.len() + b.len(),
{
    if b.len() == 0 {
        assert(a + b =~= a);
        if a.len() > 0 {
            lemma_dropped_total(a.drop_last(), b);
        }
    } else {
        assert((a + b).drop_last() =~= a + b.drop_last());
        lemma_dropped_total(a, b.drop_last());
    }
}

/// What is said of each of `n` entries; nothing where the answer is too short.
pub open spec fn verdicts_of(answer: Seq<bool>, n: nat) -> Seq<Option<bool>> {
    Seq::new(
        n,
        |i: int|
            if i < answer.len() {
                Some(answer[i])
            } else {
                None
            },
    )
}

/// The numbers of entries.
pub open spec fn ids_of(entries: Seq<TransactionPriorityId>) -> Seq<usize> {
    Seq::new(entries.len(), |i: int| entries[i].id)
}

/// The container after verdicts on entries that do not wait in it: those that can be processed
/// wait again, and those that cannot are forgotten. Entries without a verdict stay as they are.
pub open spec fn judged(
    before: TransactionStateContainer,
    entries: Seq<TransactionPriorityId>,
    verdicts: Seq<Option<bool>>,
    after: TransactionStateContainer,
) -> bool {
    &&& forall|id: usize| #[trigger]
        after.known().contains(id) <==> before.known().contains(id) && !is_dropped(
            entries,
            verdicts,
            id,
        )
    &&& forall|entry: TransactionPriorityId| #[trigger]
        after.waits(entry) <==> before.waits(entry) || is_kept(entries, verdicts, entry)
}

/// The entries are known and do not wait.
pub open spec fn set_aside(
    container: TransactionStateContainer,
    entries: Seq<TransactionPriorityId>,
) -> bool {
    &&& distinct_ids(entries)
    &&& forall|i: int|
        0 <= i < entries.len() ==> container.known().contains((#[trigger] entries[i]).id)
    &&& forall|i: int, other: TransactionPriorityId|
        0 <= i < entries.len() && #[trigger] container.waits(other) ==> other.id != (
        #[trigger] entries[i]).id
}

/// The entries are asked about in chunks, each once, and this is what was said of them.
pub open spec fn judged_by<C: FnMut(&Vec<usize>, usize) -> Vec<bool>>(
    check: C,
    entries: Seq<TransactionPriorityId>,
    verdicts: Seq<Option<bool>>,
    calls: Seq<(Seq<usize>, usize, Seq<bool>)>,
) -> bool
    decreases entries.len(),
{
    if entries.len() == 0 {
        verdicts.len() == 0 && calls.len() == 0
    } else {
        let start = ((entries.len() - 1) / CHUNK_SIZE as int) * CHUNK_SIZE;
        &&& verdicts.len() == entries.len()
        &&& 0 <= start < entries.len()
        &&& calls.len() > 0
        &&& judged_by(check, entries.take(start), verdicts.take(start), calls.drop_last())
        &&& chunk_judged_by(check, entries.skip(start), verdicts.skip(start), calls.last())
    }
}

/// The entries are asked about together, and this is what was said of them.
pub open spec fn chunk_judged_by<C: FnMut(&Vec<usize>, usize) -> Vec<bool>>(
    check: C,
    entries: Seq<TransactionPriorityId>,
    verdicts: Seq<Option<bool>>,
    call: (Seq<usize>, usize, Seq<bool>),
) -> bool {
    &&& call.0 == ids_of(entries)
    &&& call.1 == processing_age()
    &&& verdicts == verdicts_of(call.2, entries.len())
    &&& exists|asked: Vec<usize>, answer: Vec<bool>|
        #[trigger] call_ensures(check, (&asked, processing_age()), answer) && asked@ == call.0
            && answer@ == call.2
}

/// What was said of two lists, one behind the other.
pub proof fn lemma_judged(
    a: Seq<TransactionPriorityId>,
    va: Seq<Option<bool>>,
    b: Seq<TransactionPriorityId>,
    vb: Seq<Option<bool>>,
)
    requires
        a.len() == va.len(),
        b.len() == vb.len(),
    ensures
        forall|id: usize| #[trigger]
            is_dropped(a + b, va + vb, id) <==> is_dropped(a, va, id) || is_dropped(b, vb, id),
        forall|entry: TransactionPriorityId| #[trigger]
            is_kept(a + b, va + vb, entry) <==> is_kept(a, va, entry) || is_kept(b, vb, entry),
{
    let c = a + b;
    let vc = va + vb;
    assert forall|id: usize| #[trigger] is_dropped(c, vc, id) <==> is_dropped(a, va, id)
        || is_dropped(b, vb, id) by {
        if is_dropped(a, va, id) {
            let i = choose|i: int|
                0 <= i < a.len() && (#[trigger] a[i]).id == id && va[i] == Some(false);
            assert(c[i].id == id && vc[i] == Some(false));
        }
        if is_dropped(b, vb, id) {
            let i = choose|i: int|
                0 <= i < b.len() && (#[trigger] b[i]).id == id && vb[i] == Some(false);
            assert(c[i + a.len()].id == id && vc[i + a.len()] == Some(false));
        }
        if is_dropped(c, vc, id) {
            let i = choose|i: int|
                0 <= i < c.len() && (#[trigger] c[i]).id == id && vc[i] == Some(false);
            if i < a.len() {
                assert(a[i].id == id && va[i] == Some(false));
            } else {
                assert(b[i - a.len()].id == id && vb[i - a.len()] == Some(false));
            }
        }
    }
    assert forall|entry: TransactionPriorityId| #[trigger] is_kept(c, vc, entry) <==> is_kept(
        a,
        va,
        entry,
    ) || is_kept(b, vb, entry) by {
        if is_kept(a, va, entry) {
            let i = choose|i: int|
                0 <= i < a.len() && #[trigger] a[i] == entry && va[i] == Some(true);
            assert(c[i] == entry && vc[i] == Some(true));
        }
        if is_kept(b, vb, entry) {
            let i = choose|i: int|
                0 <= i < b.len() && #[trigger] b[i] == entry && vb[i] == Some(true);
            assert(c[i + a.len()] == entry && vc[i + a.len()] == Some(true));
        }
        if is_kept(c, vc, entry) {
            let i = choose|i: int|
                0 <= i < c.len() && #[trigger] c[i] == entry && vc[i] == Some(true);
            if i < a.len() {
                assert(a[i] == entry && va[i] == Some(true));
            } else {
                assert(b[i - a.len()] == entry && vb[i - a.len()] == Some(true));
            }
        }
    }
}

impl TransactionStateContainer {
    /// Takes the highest ranked transactions out of the queue, as many as may be looked at.
    pub fn pop_for_cleaning(&mut self) -> (entries: Vec<TransactionPriorityId>)
        requires
            old(self).wf(),
        ensures
            final(self).wf(),
            highest_ranked(*old(self), entries@),
            final(self).known() == old(self).known(),
            final(self).waiting_count() == old(self).waiting_count() - entries@.len(),
            forall|entry: TransactionPriorityId| #[trigger]
                final(self).waits(entry) <==> old(self).waits(entry) && !entries@.contains(entry),
            set_aside(*final(self), entries@),
    {
        let ghost start = *self;
        let mut entries: Vec<TransactionPriorityId> = Vec::new();
        let mut done = false;
        while entries.len() < MAX_TRANSACTION_CHECKS && !done
            invariant
                self.wf(),
                start.wf(),
                entries@.len() <= MAX_TRANSACTION_CHECKS,
                self.known() == start.known(),
                self.waiting_count() == start.waiting_count() - entries@.len(),
                done ==> self.waiting_count() == 0,
                distinct_ids(entries@),
                in_pop_order(entries@),
                forall|i: int| 0 <= i < entries@.len() ==> start.waits(#[trigger] entries@[i]),
                forall|i: int, other: TransactionPriorityId|
                    0 <= i < entries@.len() && #[trigger] self.waits(other) ==> entry_le(
                        other,
                        #[trigger] entries@[i],
                    ),
                forall|entry: TransactionPriorityId| #[trigger]
                    self.waits(entry) <==> start.waits(entry) && !entries@.contains(entry),
            decreases
                MAX_TRANSACTION_CHECKS - entries.len(),
                if done {
                    0int
                } else {
                    1int
                },
        {
            let ghost before = *self;
            let ghost seen = entries@;
            match self.pop() {
                Some(entry) => {
                    proof {
                        start.lemma_wf();
                        assert(before.waits(entry));
                        assert forall|i: int| 0 <= i < seen.len() implies (#[trigger] seen[i]).id
                            != entry.id by {
                            assert(start.waits(seen[i]));
                            assert(start.waits(entry));
                            assert(seen.contains(seen[i]));
                        }
                    }
                    entries.push(entry);
                    proof {
                        let after = entries@;
                        assert forall|i: int, j: int| 0 <= i < j < after.len() implies entry_le(
                            #[trigger] after[j],
                            #[trigger] after[i],
                        ) by {
                            assert(after[i] == seen[i]);
                            if j < seen.len() {
                                assert(after[j] == seen[j]);
                            } else {
                                assert(before.waits(after[j]));
                            }
                        }
                        assert forall|i: int, other: TransactionPriorityId|
                            0 <= i < after.len() && #[trigger] self.waits(other) implies entry_le(
                            other,
                            #[trigger] after[i],
                        ) by {
                            assert(before.waits(other));
                            if i < seen.len() {
                                assert(after[i] == seen[i]);
                            }
                        }
                        assert forall|other: TransactionPriorityId| #[trigger]
                            self.waits(other) <==> start.waits(other) && !after.contains(other) by {
                            assert(before.waits(other) <==> start.waits(other) && !seen.contains(
                                other,
                            ));
                            if seen.contains(other) {
                                let i = choose|i: int| 0 <= i < seen.len() && seen[i] == other;
                                assert(after[i] == other);
                            }
                            assert(after[seen.len() as int] == entry);
                            if after.contains(other) {
                                let i = choose|i: int| 0 <= i < after.len() && after[i] == other;
                                if i < seen.len() {
                                    assert(seen[i] == other);
                                }
                            }
                        }
                    }
                },
                None => {
                    done = true;
                },
            }
        }
        proof {
            start.lemma_wf();
            assert forall|i: int, other: TransactionPriorityId|
                0 <= i < entries@.len() && #[trigger] self.waits(other) implies other.id != (
            #[trigger] entries@[i]).id by {
                assert(start.waits(other));
                assert(start.waits(entries@[i]));
                assert(entries@.contains(entries@[i]));
            }
            assert forall|i: int, other: TransactionPriorityId|
                0 <= i < entries@.len() && #[trigger] start.waits(other) && !entries@.contains(
                    other,
                ) implies entry_le(other, #[trigger] entries@[i]) by {
                assert(self.waits(other));
            }
        }
        entries
    }

    /// Forgets the entries that cannot be processed, and puts those that can be processed back
    /// into the queue. Entries behind the end of the answer are left alone. Gives how many were
    /// forgotten.
    pub fn apply_verdicts(
        &mut self,
        entries: &Vec<TransactionPriorityId>,
        answer: &Vec<bool>,
    ) -> (dropped: usize)
        requires
            old(self).wf(),
            set_aside(*old(self), entries@),
        ensures
            final(self).wf(),
            judged(*old(self), entries@, verdicts_of(answer@, entries@.len()), *final(self)),
            dropped == dropped_total(verdicts_of(answer@, entries@.len())),
    {
        let ghost start = *self;
        let ghost verdicts = verdicts_of(answer@, entries@.len());
        let mut kept: Vec<TransactionPriorityId> = Vec::new();
        let mut dropped: usize = 0;
        let mut i: usize = 0;
        while i < entries.len() && i < answer.len()
            invariant
                i <= entries@.len(),
                i <= answer@.len(),
                verdicts == verdicts_of(answer@, entries@.len()),
                self.wf(),
                set_aside(start, entries@),
                dropped <= i,
                dropped == dropped_total(verdicts.take(i as int)),
                forall|id: usize| #[trigger]
                    self.known().contains(id) <==> start.known().contains(id) && !is_dropped(
                        entries@.take(i as int),
                        verdicts.take(i as int),
                        id,
                    ),
                forall|entry: TransactionPriorityId| #[trigger]
                    self.waits(entry) <==> start.waits(entry),
                forall|entry: TransactionPriorityId| #[trigger]
                    kept@.contains(entry) <==> is_kept(
                        entries@.take(i as int),
                        verdicts.take(i as int),
                        entry,
                    ),
                distinct_ids(kept@),
            decreases entries.len() - i,
        {
            let ghost before = *self;
            let ghost n = i as int;
            let ghost kept_before = kept@;
            proof {
                let seen = entries@.take(n);
                let one = seq![entries@[n]];
                let verdict = seq![verdicts[n]];
                assert(entries@.take(n + 1) =~= seen + one);
                assert(verdicts.take(n + 1) =~= verdicts.take(n) + verdict);
                assert(verdicts.take(n + 1).drop_last() =~= verdicts.take(n));
                lemma_judged(seen, verdicts.take(n), one, verdict);
                assert forall|id: usize| #[trigger] is_dropped(one, verdict, id) <==> id
                    == entries@[n].id && !answer@[n] by {
                    assert(one[0] == entries@[n]);
                }
                assert forall|entry: TransactionPriorityId| #[trigger]
                    is_kept(one, verdict, entry) <==> entry == entries@[n] && answer@[n] by {
                    assert(one[0] == entries@[n]);
                }
                assert(!is_dropped(seen, verdicts.take(n), entries@[n].id)) by {
                    if is_dropped(seen, verdicts.take(n), entries@[n].id) {
                        let k = choose|k: int|
                            0 <= k < seen.len() && (#[trigger] seen[k]).id == entries@[n].id
                                && verdicts.take(n)[k] == Some(false);
                        assert(entries@[k].id != entries@[n].id);
                    }
                }
                assert forall|entry: TransactionPriorityId| #[trigger]
                    before.waits(entry) implies entry.id != entries@[n].id by {
                    assert(start.waits(entry));
                }
            }
            if answer[i] {
                proof {
                    assert forall|k: int| 0 <= k < kept_before.len() implies (
                    #[trigger] kept_before[k]).id != entries@[n].id by {
                        assert(kept_before.contains(kept_before[k]));
                        let seen = entries@.take(n);
                        let m = choose|m: int|
                            0 <= m < seen.len() && #[trigger] seen[m] == kept_before[k]
                                && verdicts.take(n)[m] == Some(true);
                        assert(entries@[m].id != entries@[n].id);
                    }
                }
                kept.push(entries[i]);
                proof {
                    crate::key_lists::lemma_concat(kept_before, seq![entries@[n]]);
                    assert(kept@ =~= kept_before + seq![entries@[n]]);
                    assert(seq![entries@[n]][0] == entries@[n]);
                }
            } else {
                dropped += 1;
                self.remove_by_id(entries[i].id);
            }
            i += 1;
        }
        proof {
            let n = i as int;
            // Behind the end of the answer nothing is said.
            let rest = entries@.skip(n);
            let silence = verdicts.skip(n);
            assert(entries@ =~= entries@.take(n) + rest);
            assert(verdicts =~= verdicts.take(n) + silence);
            lemma_judged(entries@.take(n), verdicts.take(n), rest, silence);
            assert forall|k: int| 0 <= k < silence.len() implies #[trigger] silence[k] is None by {
                assert(silence[k] == verdicts[k + n]);
            }
            lemma_silence(silence);
            lemma_dropped_total(verdicts.take(n), silence);
            assert forall|k: int| 0 <= k < kept@.len() implies self.known().contains(
                (#[trigger] kept@[k]).id,
            ) && (forall|entry: TransactionPriorityId| #[trigger]
                self.waits(entry) ==> entry.id != kept@[k].id) by {
                assert(kept@.contains(kept@[k]));
                let seen = entries@.take(n);
                let m = choose|m: int|
                    0 <= m < seen.len() && #[trigger] seen[m] == kept@[k] && verdicts.take(n)[m]
                        == Some(true);
                assert(entries@[m] == kept@[k]);
                if is_dropped(seen, verdicts.take(n), kept@[k].id) {
                    let d = choose|d: int|
                        0 <= d < seen.len() && (#[trigger] seen[d]).id == kept@[k].id
                            && verdicts.take(n)[d] == Some(false);
                    assert(entries@[d] == seen[d]);
                    if d < m {
                        assert(entries@[d].id != entries@[m].id);
                    } else if m < d {
                        assert(entries@[m].id != entries@[d].id);
                    }
                }
            }
        }
        let ghost cleaned = *self;
        self.push_ids_into_queue(&kept);
        assert(self.known() == cleaned.known());
        dropped
    }
}

/// Where nothing is said, nothing is dropped.
proof fn lemma_silence(verdicts: Seq<Option<bool>>)
    requires
        forall|i: int| 0 <= i < verdicts.len() ==> #[trigger] verdicts[i] is None,
    ensures
        dropped_total(verdicts) == 0,
    decreases verdicts.len(),
{
    if verdicts.len() > 0 {
        assert forall|i: int| 0 <= i < verdicts.drop_last().len() implies #[trigger] verdicts.drop_last()[i] is None by {
            assert(verdicts[i] is None);
        }
        lemma_silence(verdicts.drop_last());
    }
}

} // verus!
