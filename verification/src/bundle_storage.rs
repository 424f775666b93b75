//! Bundles that wait for execution.

use std::collections::VecDeque;

use vstd::prelude::*;

use crate::bundle::{
    BundleExecutionError, ImmutableDeserializedBundle, LoadAndExecuteBundleError, SanitizedBundle,
};
use crate::bundle_ranking::{
    bundle_priority, distinct_sequences, in_priority_order, is_arrangement, rearranged,
    sort_by_priority, sorted_by_priority, sums_fit, tips_fit, BundlePriorityKey,
};
use crate::keys::Pubkey;
use crate::metrics::{
    BundleSanitizeMetrics, InsertPacketBatchSummary, InsertPacketBundlesSummary,
    PacketBatchInsertionMetrics,
};
use crate::services::{Inquiry, PairInquiry};
use crate::thread_local_packets::ForwardOption;
use crate::timing::{clock_reading, elapsed_us};

verus! {

/// For how many bundles a receive call leaves room.
pub const MAX_BUFFERED_BUNDLES: usize = 256;

/// How many packets the bundles have together.
pub open spec fn packet_count(bundles: Seq<ImmutableDeserializedBundle>) -> int
    decreases bundles.len(),
{
    if bundles.len() == 0 {
        0
    } else {
        packet_count(bundles.drop_last()) + bundles.last().packets@.len()
    }
}

/// Packets only add up.
proof fn lemma_packet_count(bundles: Seq<ImmutableDeserializedBundle>, n: int)
    requires
        0 <= n <= bundles.len(),
    ensures
        0 <= packet_count(bundles.take(n)) <= packet_count(bundles),
        packet_count(bundles.take(n)) + packet_count(bundles.skip(n)) == packet_count(bundles),
    decreases bundles.len(),
{
    if n < bundles.len() {
        lemma_packet_count(bundles.drop_last(), n);
        assert(bundles.drop_last().take(n) =~= bundles.take(n));
        assert(bundles.skip(n).drop_last() =~= bundles.drop_last().skip(n));
    } else {
        assert(bundles.take(n) =~= bundles);
        assert(bundles.skip(n) =~= Seq::empty());
        if n > 0 {
            lemma_packet_count(bundles.drop_last(), n - 1);
            assert(bundles.drop_last().take(n - 1) =~= bundles.drop_last());
        }
    }
}

/// How many of the bundles fit next to those that are there.
pub open spec fn fitting(present: int, offered: int) -> int {
    let room = BundleStorage::BUNDLE_STORAGE_CAPACITY - present;
    if offered < room {
        offered
    } else {
        room
    }
}

/// The deque after bundles were put in: the first ones that fit, behind the others in order, or
/// one after the other in front of them.
pub open spec fn with_inserted(
    deque: Seq<ImmutableDeserializedBundle>,
    bundles: Seq<ImmutableDeserializedBundle>,
    push_back: bool,
) -> Seq<ImmutableDeserializedBundle> {
    let inserted = bundles.take(fitting(deque.len() as int, bundles.len() as int));
    if push_back {
        deque + inserted
    } else {
        inserted.reverse() + deque
    }
}

/// What is said of bundles that were put in.
pub open spec fn insertion_summary(
    deque: Seq<ImmutableDeserializedBundle>,
    bundles: Seq<ImmutableDeserializedBundle>,
    summary: InsertPacketBundlesSummary,
) -> bool {
    let inserted = fitting(deque.len() as int, bundles.len() as int);
    &&& summary.num_bundles_inserted == inserted
    &&& summary.num_bundles_dropped == bundles.len() - inserted
    &&& summary.num_packets_inserted == packet_count(bundles.take(inserted))
    &&& summary.insert_packets_summary matches InsertPacketBatchSummary::PacketBatchInsertionMetrics(
        metrics,
    )
    &&& metrics.num_dropped_packets == packet_count(bundles.skip(inserted))
}

/// The bundles that sanitize, with what they gave.
pub open spec fn pairs(
    bundles: Seq<ImmutableDeserializedBundle>,
    answers: Seq<Option<SanitizedBundle>>,
) -> Seq<(ImmutableDeserializedBundle, SanitizedBundle)>
    decreases bundles.len(),
{
    if bundles.len() == 0 {
        Seq::empty()
    } else {
        let before = pairs(bundles.drop_last(), answers.drop_last());
        match answers.last() {
            Some(sanitized) => before.push((bundles.last(), sanitized)),
            None => before,
        }
    }
}

/// Each bundle was given to `sanitize` together with the accounts that it may not use, and the
/// sanitized bundle came back, or nothing.
pub open spec fn bundles_sanitized_by<
    S: FnMut(&ImmutableDeserializedBundle, &Vec<Pubkey>) -> Option<SanitizedBundle>,
>(
    sanitize: S,
    blacklisted_accounts: Vec<Pubkey>,
    bundles: Seq<ImmutableDeserializedBundle>,
    answers: Seq<Option<SanitizedBundle>>,
) -> bool {
    &&& answers.len() == bundles.len()
    &&& forall|i: int|
        0 <= i < bundles.len() ==> call_ensures(
            sanitize,
            (&bundles[i], &blacklisted_accounts),
            #[trigger] answers[i],
        )
}

/// Each bundle is sanitized once.
pub open spec fn bundle_sanitizings(
    blacklisted_accounts: Vec<Pubkey>,
    bundles: Seq<ImmutableDeserializedBundle>,
    answers: Seq<Option<SanitizedBundle>>,
) -> Seq<(ImmutableDeserializedBundle, Vec<Pubkey>, Option<SanitizedBundle>)> {
    Seq::new(bundles.len(), |i: int| (bundles[i], blacklisted_accounts, answers[i]))
}

/// Every call of the two services that bundles are processed with, in order.
pub struct BundleCalls {
    /// Each bundle that was to be sanitized, the accounts that it may not use, and what came of it.
    pub sanitized: Seq<(ImmutableDeserializedBundle, Vec<Pubkey>, Option<SanitizedBundle>)>,
    /// Each list of bundles that was to be executed, and the results.
    pub executed: Seq<
        (
            Vec<(ImmutableDeserializedBundle, SanitizedBundle)>,
            Vec<Result<(), BundleExecutionError>>,
        ),
    >,
}

/// The calls that the two services record.
pub open spec fn bundle_calls<
    S: FnMut(&ImmutableDeserializedBundle, &Vec<Pubkey>) -> Option<SanitizedBundle>,
    F: FnMut(&Vec<(ImmutableDeserializedBundle, SanitizedBundle)>) -> Vec<
        Result<(), BundleExecutionError>,
    >,
>(
    sanitize: &PairInquiry<ImmutableDeserializedBundle, Vec<Pubkey>, Option<SanitizedBundle>, S>,
    processing_function: &Inquiry<
        Vec<(ImmutableDeserializedBundle, SanitizedBundle)>,
        Vec<Result<(), BundleExecutionError>>,
        F,
    >,
) -> BundleCalls {
    BundleCalls { sanitized: sanitize.log(), executed: processing_function.log() }
}

/// The places of sanitized bundles in the order of execution: their priority, and the order in
/// which they came.
pub open spec fn priority_keys(
    bundles: Seq<(ImmutableDeserializedBundle, SanitizedBundle)>,
    tip_accounts: Seq<Pubkey>,
) -> Seq<BundlePriorityKey> {
    Seq::new(
        bundles.len(),
        |i: int|
            BundlePriorityKey {
                priority: bundle_priority(bundles[i].0, bundles[i].1, tip_accounts) as u64,
                sequence: (i + 1) as u64,
            },
    )
}

/// The bundle is to be tried again in the next slot, before any other.
pub open spec fn is_retried_first(result: Result<(), BundleExecutionError>) -> bool {
    ||| result == Err::<(), BundleExecutionError>(BundleExecutionError::PohRecordError)
    ||| result == Err::<(), BundleExecutionError>(
        BundleExecutionError::BankProcessingTimeLimitReached,
    )
}

/// The bundle did not fit into this block and is kept for the next slot.
pub open spec fn is_kept_for_next_slot(result: Result<(), BundleExecutionError>) -> bool {
    ||| result == Err::<(), BundleExecutionError>(BundleExecutionError::ExceedsCostModel)
    ||| result == Err::<(), BundleExecutionError>(
        BundleExecutionError::TransactionFailure(LoadAndExecuteBundleError::ProcessingTimeExceeded),
    )
}

/// The bundles among the first `n` whose results are of a kind.
pub open spec fn bundles_where(
    bundles: Seq<(ImmutableDeserializedBundle, SanitizedBundle)>,
    results: Seq<Result<(), BundleExecutionError>>,
    kind: spec_fn(Result<(), BundleExecutionError>) -> bool,
    n: int,
) -> Seq<ImmutableDeserializedBundle>
    decreases n,
{
    if n <= 0 {
        Seq::empty()
    } else {
        let before = bundles_where(bundles, results, kind, n - 1);
        if kind(results[n - 1]) {
            before.push(bundles[n - 1].0)
        } else {
            before
        }
    }
}

/// How many bundles have a result.
pub open spec fn answered(
    bundles: Seq<(ImmutableDeserializedBundle, SanitizedBundle)>,
    results: Seq<Result<(), BundleExecutionError>>,
) -> int {
    if results.len() < bundles.len() {
        results.len() as int
    } else {
        bundles.len() as int
    }
}

/// The bundles that are to be tried again first, in the order of execution.
pub open spec fn retried_first(
    bundles: Seq<(ImmutableDeserializedBundle, SanitizedBundle)>,
    results: Seq<Result<(), BundleExecutionError>>,
) -> Seq<ImmutableDeserializedBundle> {
    bundles_where(
        bundles,
        results,
        |result: Result<(), BundleExecutionError>| is_retried_first(result),
        answered(bundles, results),
    )
}

/// The bundles that are kept for the next slot, in the order of execution.
pub open spec fn kept_for_next_slot(
    bundles: Seq<(ImmutableDeserializedBundle, SanitizedBundle)>,
    results: Seq<Result<(), BundleExecutionError>>,
) -> Seq<ImmutableDeserializedBundle> {
    bundles_where(
        bundles,
        results,
        |result: Result<(), BundleExecutionError>| is_kept_for_next_slot(result),
        answered(bundles, results),
    )
}

/// The last bundles for which there is room next to those that are there.
pub open spec fn last_fitting(
    present: int,
    bundles: Seq<ImmutableDeserializedBundle>,
) -> Seq<ImmutableDeserializedBundle> {
    bundles.skip(bundles.len() - fitting(present, bundles.len() as int))
}

/// Bundles in two deques: those that wait, and those that exceeded the cost model and are tried
/// again in the next slot.
#[derive(Debug)]
pub struct BundleStorage {
    pub last_update_slot: u64,
    pub unprocessed_bundle_storage: VecDeque<ImmutableDeserializedBundle>,
    pub cost_model_buffered_bundle_storage: VecDeque<ImmutableDeserializedBundle>,
}

impl BundleStorage {
    /// How many bundles either deque holds at most.
    pub const BUNDLE_STORAGE_CAPACITY: usize = 1000;

    pub open spec fn unprocessed(&self) -> Seq<ImmutableDeserializedBundle> {
        self.unprocessed_bundle_storage@
    }

    pub open spec fn buffered(&self) -> Seq<ImmutableDeserializedBundle> {
        self.cost_model_buffered_bundle_storage@
    }

    /// Neither deque holds more than it may.
    pub open spec fn wf(&self) -> bool {
        &&& self.unprocessed().len() <= Self::BUNDLE_STORAGE_CAPACITY
        &&& self.buffered().len() <= Self::BUNDLE_STORAGE_CAPACITY
    }

    /// The bundles that are tried in a slot: on a new slot those of the last one first.
    pub open spec fn candidates(&self, slot: u64) -> Seq<ImmutableDeserializedBundle> {
        if slot != self.last_update_slot {
            self.buffered() + self.unprocessed()
        } else {
            self.unprocessed()
        }
    }

    /// Processing the bundles of a slot leads to the other state.
    pub open spec fn processes<
        S: FnMut(&ImmutableDeserializedBundle, &Vec<Pubkey>) -> Option<SanitizedBundle>,
        F: FnMut(&Vec<(ImmutableDeserializedBundle, SanitizedBundle)>) -> Vec<
            Result<(), BundleExecutionError>,
        >,
    >(
        &self,
        slot: u64,
        sanitize: S,
        blacklisted_accounts: Vec<Pubkey>,
        tip_accounts: Seq<Pubkey>,
        processing_function: F,
        calls: BundleCalls,
        metrics: BundleSanitizeMetrics,
        after: &BundleStorage,
        is_slot_over: bool,
        calls_after: BundleCalls,
        metrics_after: BundleSanitizeMetrics,
    ) -> bool {
        &&& after.last_update_slot == slot
        &&& exists|
            answers: Seq<Option<SanitizedBundle>>,
            bundles: Vec<(ImmutableDeserializedBundle, SanitizedBundle)>,
            results: Vec<Result<(), BundleExecutionError>>,
        |
            {
                let sanitized = pairs(self.candidates(slot), answers);
                &&& #[trigger] bundles_sanitized_by(
                    sanitize,
                    blacklisted_accounts,
                    self.candidates(slot),
                    answers,
                )
                &&& sorted_by_priority(
                    priority_keys(sanitized, tip_accounts),
                    sanitized,
                    bundles@,
                )
                &&& #[trigger] call_ensures(processing_function, (&bundles,), results)
                &&& after.unprocessed() == last_fitting(0, retried_first(bundles@, results@))
                &&& after.buffered() == with_inserted(
                    self.buffered_after_drain(slot),
                    kept_for_next_slot(bundles@, results@),
                    true,
                )
                &&& is_slot_over == (retried_first(bundles@, results@).len() > 0)
                &&& calls_after == (BundleCalls {
                    sanitized: calls.sanitized + bundle_sanitizings(
                        blacklisted_accounts,
                        self.candidates(slot),
                        answers,
                    ),
                    executed: calls.executed.push((bundles, results)),
                })
                &&& metrics_after.counted(
                    metrics,
                    self.candidates(slot).len() as int,
                    sanitized.len() as int,
                )
            }
    }

    /// A storage without bundles.
    pub fn new() -> (storage: Self)
        ensures
            storage.wf(),
            storage.last_update_slot == 0,
            storage.unprocessed() == Seq::<ImmutableDeserializedBundle>::empty(),
            storage.buffered() == Seq::<ImmutableDeserializedBundle>::empty(),
    {
        BundleStorage {
            last_update_slot: 0,
            unprocessed_bundle_storage: VecDeque::with_capacity(Self::BUNDLE_STORAGE_CAPACITY),
            cost_model_buffered_bundle_storage: VecDeque::with_capacity(
                Self::BUNDLE_STORAGE_CAPACITY,
            ),
        }
    }

    /// Whether no bundle waits; those that are kept for the next slot do not count.
    pub fn is_empty(&self) -> (empty: bool)
        ensures
            empty == (self.unprocessed().len() == 0),
    {
        self.unprocessed_bundle_storage.len() == 0
    }

    /// How many bundles wait.
    pub fn unprocessed_bundles_len(&self) -> (len: usize)
        ensures
            len == self.unprocessed().len(),
    {
        self.unprocessed_bundle_storage.len()
    }

    /// How many packets the bundles have that wait.
    pub fn unprocessed_packets_len(&self) -> (len: usize)
        requires
            packet_count(self.unprocessed()) <= usize::MAX,
        ensures
            len == packet_count(self.unprocessed()),
    {
        Self::count_packets(&self.unprocessed_bundle_storage)
    }

    /// How many bundles are kept for the next slot.
    pub fn cost_model_buffered_bundles_len(&self) -> (len: usize)
        ensures
            len == self.buffered().len(),
    {
        self.cost_model_buffered_bundle_storage.len()
    }

    /// How many packets the bundles have that are kept for the next slot.
    pub fn cost_model_buffered_packets_len(&self) -> (len: usize)
        requires
            packet_count(self.buffered()) <= usize::MAX,
        ensures
            len == packet_count(self.buffered()),
    {
        Self::count_packets(&self.cost_model_buffered_bundle_storage)
    }

    /// How many packets the bundles have together.
    fn count_packets(bundles: &VecDeque<ImmutableDeserializedBundle>) -> (count: usize)
        requires
            packet_count(bundles@) <= usize::MAX,
        ensures
            count == packet_count(bundles@),
    {
        let mut count: usize = 0;
        let mut i: usize = 0;
        while i < bundles.len()
            invariant
                i <= bundles@.len(),
                packet_count(bundles@) <= usize::MAX,
                count == packet_count(bundles@.take(i as int)),
            decreases bundles@.len() - i,
        {
            proof {
                lemma_packet_count(bundles@, i + 1);
                assert(bundles@.take(i + 1).drop_last() =~= bundles@.take(i as int));
            }
            count = count + bundles[i].len();
            i += 1;
        }
        assert(bundles@.take(i as int) =~= bundles@);
        count
    }

    /// For how many bundles a receive call has room.
    pub fn max_receive_size(&self) -> (room: usize)
        requires
            self.unprocessed().len() <= MAX_BUFFERED_BUNDLES,
        ensures
            room == MAX_BUFFERED_BUNDLES - self.unprocessed().len(),
    {
        MAX_BUFFERED_BUNDLES - self.unprocessed_bundle_storage.len()
    }

    /// Bundles are not passed on.
    pub fn forward_option(&self) -> (option: ForwardOption)
        ensures
            option == ForwardOption::NotForward,
    {
        ForwardOption::NotForward
    }

    /// Drops every bundle. Gives how many waited and how many were kept for the next slot.
    pub fn reset(&mut self) -> (dropped: (usize, usize))
        ensures
            dropped.0 == old(self).unprocessed().len(),
            dropped.1 == old(self).buffered().len(),
            final(self).unprocessed() == Seq::<ImmutableDeserializedBundle>::empty(),
            final(self).buffered() == Seq::<ImmutableDeserializedBundle>::empty(),
            final(self).last_update_slot == old(self).last_update_slot,
            final(self).wf(),
    {
        let num_unprocessed_bundles: usize = self.unprocessed_bundle_storage.len();
        let num_cost_model_buffered_bundles: usize = self.cost_model_buffered_bundle_storage.len();
        self.unprocessed_bundle_storage.clear();
        self.cost_model_buffered_bundle_storage.clear();
        (num_unprocessed_bundles, num_cost_model_buffered_bundles)
    }

    /// Puts the first bundles in for which there is room: in order behind the others, or one after
    /// the other in front of them.
    fn insert_bundles(
        deque: &mut VecDeque<ImmutableDeserializedBundle>,
        deserialized_bundles: Vec<ImmutableDeserializedBundle>,
        push_back: bool,
    ) -> (summary: InsertPacketBundlesSummary)
        requires
            old(deque)@.len() <= Self::BUNDLE_STORAGE_CAPACITY,
            packet_count(deserialized_bundles@) <= usize::MAX,
        ensures
            final(deque)@ == with_inserted(old(deque)@, deserialized_bundles@, push_back),
            final(deque)@.len() <= Self::BUNDLE_STORAGE_CAPACITY,
            insertion_summary(old(deque)@, deserialized_bundles@, summary),
    {
        let ghost all = deserialized_bundles@;
        let ghost before = deque@;
        let total: usize = deserialized_bundles.len();
        let deque_free_space: usize = Self::BUNDLE_STORAGE_CAPACITY - deque.len();
        let bundles_to_insert_count: usize = if deque_free_space < total {
            deque_free_space
        } else {
            total
        };
        let num_bundles_dropped: usize = total - bundles_to_insert_count;
        let ghost count = bundles_to_insert_count as int;
        let mut num_packets_inserted: usize = 0;
        let mut num_packets_dropped: usize = 0;
        let mut i: usize = 0;
        proof {
            lemma_packet_count(all, count);
            assert(all.take(0) =~= Seq::empty());
            assert(before + all.take(0) =~= before);
            assert(all.take(0).reverse() + before =~= before);
        }
        for bundle in iter: deserialized_bundles
            invariant
                iter.seq() == all,
                iter.index() == i,
                all.len() == total,
                count == bundles_to_insert_count,
                count <= total,
                packet_count(all) <= usize::MAX,
                packet_count(all.take(count)) + packet_count(all.skip(count)) == packet_count(all),
                deque@ == (if push_back {
                    before + all.take(if i < count {
                        i as int
                    } else {
                        count
                    })
                } else {
                    all.take(if i < count {
                        i as int
                    } else {
                        count
                    }).reverse() + before
                }),
                num_packets_inserted == packet_count(all.take(if i < count {
                    i as int
                } else {
                    count
                })),
                num_packets_inserted + num_packets_dropped == packet_count(all.take(i as int)),
        {
            proof {
                lemma_packet_count(all, i + 1);
                assert(all.take(i + 1).drop_last() =~= all.take(i as int));
            }
            if i < bundles_to_insert_count {
                num_packets_inserted = num_packets_inserted + bundle.len();
                proof {
                    assert(before + all.take(i + 1) =~= (before + all.take(i as int)).push(bundle));
                    assert(all.take(i + 1).reverse() + before =~= seq![bundle] + (all.take(
                        i as int,
                    ).reverse() + before));
                }
                if push_back {
                    deque.push_back(bundle);
                } else {
                    deque.push_front(bundle);
                }
            } else {
                num_packets_dropped = num_packets_dropped + bundle.len();
            }
            i += 1;
        }
        assert(all.take(i as int) =~= all);
        InsertPacketBundlesSummary {
            insert_packets_summary: InsertPacketBatchSummary::from(
                PacketBatchInsertionMetrics { num_dropped_packets: num_packets_dropped },
            ),
            num_bundles_inserted: bundles_to_insert_count,
            num_packets_inserted,
            num_bundles_dropped,
        }
    }

    /// Puts bundles in front of those that wait, one after the other.
    pub fn push_front_unprocessed_bundles(
        &mut self,
        deserialized_bundles: Vec<ImmutableDeserializedBundle>,
    ) -> (summary: InsertPacketBundlesSummary)
        requires
            old(self).wf(),
            packet_count(deserialized_bundles@) <= usize::MAX,
        ensures
            final(self).wf(),
            final(self).unprocessed() == with_inserted(
                old(self).unprocessed(),
                deserialized_bundles@,
                false,
            ),
            final(self).buffered() == old(self).buffered(),
            final(self).last_update_slot == old(self).last_update_slot,
            insertion_summary(old(self).unprocessed(), deserialized_bundles@, summary),
    {
        Self::insert_bundles(&mut self.unprocessed_bundle_storage, deserialized_bundles, false)
    }

    /// Keeps bundles for the next slot, behind those that are kept already.
    pub fn push_back_cost_model_buffered_bundles(
        &mut self,
        deserialized_bundles: Vec<ImmutableDeserializedBundle>,
    ) -> (summary: InsertPacketBundlesSummary)
        requires
            old(self).wf(),
            packet_count(deserialized_bundles@) <= usize::MAX,
        ensures
            final(self).wf(),
            final(self).buffered() == with_inserted(
                old(self).buffered(),
                deserialized_bundles@,
                true,
            ),
            final(self).unprocessed() == old(self).unprocessed(),
            final(self).last_update_slot == old(self).last_update_slot,
            insertion_summary(old(self).buffered(), deserialized_bundles@, summary),
    {
        Self::insert_bundles(
            &mut self.cost_model_buffered_bundle_storage,
            deserialized_bundles,
            true,
        )
    }

    /// Puts bundles behind those that wait, or one after the other in front of them.
    pub fn insert_unprocessed_bundles(
        &mut self,
        deserialized_bundles: Vec<ImmutableDeserializedBundle>,
        push_back: bool,
    ) -> (summary: InsertPacketBundlesSummary)
        requires
            old(self).wf(),
            packet_count(deserialized_bundles@) <= usize::MAX,
        ensures
            final(self).wf(),
            final(self).unprocessed() == with_inserted(
                old(self).unprocessed(),
                deserialized_bundles@,
                push_back,
            ),
            final(self).buffered() == old(self).buffered(),
            final(self).last_update_slot == old(self).last_update_slot,
            insertion_summary(old(self).unprocessed(), deserialized_bundles@, summary),
    {
        Self::insert_bundles(
            &mut self.unprocessed_bundle_storage,
            deserialized_bundles,
            push_back,
        )
    }

    /// Takes the bundles of a slot out, sanitizes them, gives them to the processing function in
    /// the order of their priority, once, and keeps those that are worth another try. Says whether
    /// the slot is over.
    pub fn process_bundles<
        S: FnMut(&ImmutableDeserializedBundle, &Vec<Pubkey>) -> Option<SanitizedBundle>,
        F: FnMut(&Vec<(ImmutableDeserializedBundle, SanitizedBundle)>) -> Vec<
            Result<(), BundleExecutionError>,
        >,
    >(
        &mut self,
        slot: u64,
        sanitize: &mut PairInquiry<
            ImmutableDeserializedBundle,
            Vec<Pubkey>,
            Option<SanitizedBundle>,
            S,
        >,
        blacklisted_accounts: &Vec<Pubkey>,
        tip_accounts: &Vec<Pubkey>,
        processing_function: &mut Inquiry<
            Vec<(ImmutableDeserializedBundle, SanitizedBundle)>,
            Vec<Result<(), BundleExecutionError>>,
            F,
        >,
        metrics: &mut BundleSanitizeMetrics,
    ) -> (is_slot_over: bool)
        requires
            old(self).wf(),
            old(self).priorities_fit(
                slot,
                old(sanitize).function(),
                *blacklisted_accounts,
                tip_accounts@,
            ),
            forall|bundle: &ImmutableDeserializedBundle|
                call_requires(old(sanitize).function(), (bundle, blacklisted_accounts)),
            old(processing_function).takes_all(),
        ensures
            final(sanitize).function() == old(sanitize).function(),
            final(processing_function).function() == old(processing_function).function(),
            final(self).wf(),
            old(self).processes(
                slot,
                old(sanitize).function(),
                *blacklisted_accounts,
                tip_accounts@,
                old(processing_function).function(),
                bundle_calls(old(sanitize), old(processing_function)),
                *old(metrics),
                final(self),
                is_slot_over,
                bundle_calls(final(sanitize), final(processing_function)),
                *final(metrics),
            ),
    {
        let sanitized_bundles = self.drain_and_sanitize_bundles(
            slot,
            sanitize,
            blacklisted_accounts,
            tip_accounts,
            metrics,
        );
        let bundle_execution_results = processing_function.ask(&sanitized_bundles);
        self.rebuffer_bundles(sanitized_bundles, &bundle_execution_results)
    }

    /// Where a bundle that is tried in the slot sanitizes, its costs, its rewards and its tips fit
    /// the numbers that they are counted in.
    pub open spec fn priorities_fit<
        S: FnMut(&ImmutableDeserializedBundle, &Vec<Pubkey>) -> Option<SanitizedBundle>,
    >(
        &self,
        slot: u64,
        sanitize: S,
        blacklisted_accounts: Vec<Pubkey>,
        tip_accounts: Seq<Pubkey>,
    ) -> bool {
        forall|i: int, sanitized: SanitizedBundle|
            0 <= i < self.candidates(slot).len() && #[trigger] call_ensures(
                sanitize,
                (&self.candidates(slot)[i], &blacklisted_accounts),
                Some(sanitized),
            ) ==> {
                &&& sums_fit(sanitized.transactions@)
                &&& tips_fit(self.candidates(slot)[i].packets@, tip_accounts)
            }
    }

    /// What is kept for the next slot once the bundles of a slot were taken out.
    pub open spec fn buffered_after_drain(&self, slot: u64) -> Seq<ImmutableDeserializedBundle> {
        if slot != self.last_update_slot {
            Seq::empty()
        } else {
            self.buffered()
        }
    }

    /// Keeps the bundles that are worth another try, going by their results: those that the end of
    /// the slot prevented, in front of all others, and those that did not fit into the block, for
    /// the next slot. Bundles without a result are dropped. Says whether the slot is over.
    pub fn rebuffer_bundles(
        &mut self,
        sanitized_bundles: Vec<(ImmutableDeserializedBundle, SanitizedBundle)>,
        bundle_execution_results: &Vec<Result<(), BundleExecutionError>>,
    ) -> (is_slot_over: bool)
        requires
            old(self).wf(),
        ensures
            final(self).wf(),
            final(self).last_update_slot == old(self).last_update_slot,
            final(self).unprocessed() == last_fitting(
                old(self).unprocessed().len() as int,
                retried_first(sanitized_bundles@, bundle_execution_results@),
            ) + old(self).unprocessed(),
            final(self).buffered() == with_inserted(
                old(self).buffered(),
                kept_for_next_slot(sanitized_bundles@, bundle_execution_results@),
                true,
            ),
            is_slot_over == (retried_first(
                sanitized_bundles@,
                bundle_execution_results@,
            ).len() > 0),
    {
        let ghost all = sanitized_bundles@;
        let ghost results = bundle_execution_results@;
        let ghost first = |result: Result<(), BundleExecutionError>| is_retried_first(result);
        let ghost kept = |result: Result<(), BundleExecutionError>| is_kept_for_next_slot(result);
        let ghost buffered = self.buffered();
        let ghost waiting = self.unprocessed();
        let mut is_slot_over = false;
        let mut rebuffered_bundles: Vec<ImmutableDeserializedBundle> = Vec::new();
        let mut i: usize = 0;
        assert(buffered + Seq::<ImmutableDeserializedBundle>::empty().take(0) =~= buffered);
        for pair in iter: sanitized_bundles
            invariant
                iter.seq() == all,
                results == bundle_execution_results@,
                i == (if iter.index() < results.len() {
                    iter.index() as int
                } else {
                    results.len() as int
                }),
                first == (|result: Result<(), BundleExecutionError>| is_retried_first(result)),
                kept == (|result: Result<(), BundleExecutionError>| is_kept_for_next_slot(result)),
                self.wf(),
                self.last_update_slot == old(self).last_update_slot,
                self.unprocessed() == waiting,
                self.buffered() == with_inserted(
                    buffered,
                    bundles_where(all, results, kept, i as int),
                    true,
                ),
                rebuffered_bundles@ == bundles_where(all, results, first, i as int),
                is_slot_over == (rebuffered_bundles@.len() > 0),
                buffered.len() <= Self::BUNDLE_STORAGE_CAPACITY,
        {
            let (deserialized_bundle, _sanitized_bundle) = pair;
            if i < bundle_execution_results.len() {
                let ghost so_far = bundles_where(all, results, kept, i as int);
                match bundle_execution_results[i] {
                    Ok(_) => {},
                    Err(BundleExecutionError::PohRecordError) => {
                        // Tried again in the next slot, in front of the others.
                        rebuffered_bundles.push(deserialized_bundle);
                        is_slot_over = true;
                    },
                    Err(BundleExecutionError::BankProcessingTimeLimitReached) => {
                        rebuffered_bundles.push(deserialized_bundle);
                        is_slot_over = true;
                    },
                    Err(BundleExecutionError::ExceedsCostModel) => {
                        proof {
                            lemma_insert_one(buffered, so_far, deserialized_bundle);
                        }
                        let _summary = self.keep_for_next_slot(deserialized_bundle);
                    },
                    Err(
                        BundleExecutionError::TransactionFailure(
                            LoadAndExecuteBundleError::ProcessingTimeExceeded,
                        ),
                    ) => {
                        // Treated like a bundle that exceeds the cost model.
                        proof {
                            lemma_insert_one(buffered, so_far, deserialized_bundle);
                        }
                        let _summary = self.keep_for_next_slot(deserialized_bundle);
                    },
                    // A failed transaction stays failed.
                    Err(BundleExecutionError::TransactionFailure(_)) => {},
                    // Tip errors come from a wrong configuration; keeping such bundles would only
                    // fill the storage.
                    Err(BundleExecutionError::TipError) => {},
                    // Malformed transactions do not get better.
                    Err(BundleExecutionError::LockError) => {},
                    Err(BundleExecutionError::FrontRun) => {},
                }
                i += 1;
            }
        }
        // The last one goes in first, so that the first one stands in front.
        let ghost rebuffered = rebuffered_bundles@;
        let mut n: usize = rebuffered_bundles.len();
        proof {
            assert(rebuffered == retried_first(all, results));
            assert(last_fitting(waiting.len() as int, rebuffered.skip(n as int)) + waiting
                =~= waiting);
        }
        while n > 0
            invariant
                rebuffered_bundles@ == rebuffered.take(n as int),
                n <= rebuffered.len(),
                self.wf(),
                self.last_update_slot == old(self).last_update_slot,
                self.unprocessed() == last_fitting(
                    waiting.len() as int,
                    rebuffered.skip(n as int),
                ) + waiting,
                self.buffered() == with_inserted(
                    buffered,
                    kept_for_next_slot(all, results),
                    true,
                ),
                waiting.len() <= Self::BUNDLE_STORAGE_CAPACITY,
            decreases n,
        {
            proof {
                lemma_insert_front(waiting, rebuffered, n as int);
            }
            let bundle = rebuffered_bundles.pop().unwrap();
            n = n - 1;
            let _summary = self.put_in_front(bundle);
        }
        assert(rebuffered.skip(0) =~= rebuffered);
        is_slot_over
    }

    /// Keeps one bundle for the next slot.
    fn keep_for_next_slot(&mut self, bundle: ImmutableDeserializedBundle) -> (summary:
        InsertPacketBundlesSummary)
        requires
            old(self).wf(),
        ensures
            final(self).wf(),
            final(self).buffered() == with_inserted(old(self).buffered(), seq![bundle], true),
            final(self).unprocessed() == old(self).unprocessed(),
            final(self).last_update_slot == old(self).last_update_slot,
    {
        proof {
            lemma_single(bundle);
        }
        let len: usize = bundle.packets.len();
        assert(bundle.packets@.len() == len);
        let bundles = vec![bundle];
        assert(bundles@ =~= seq![bundle]);
        self.push_back_cost_model_buffered_bundles(bundles)
    }

    /// Puts one bundle in front of those that wait.
    fn put_in_front(&mut self, bundle: ImmutableDeserializedBundle) -> (summary:
        InsertPacketBundlesSummary)
        requires
            old(self).wf(),
        ensures
            final(self).wf(),
            final(self).unprocessed() == with_inserted(
                old(self).unprocessed(),
                seq![bundle],
                false,
            ),
            final(self).buffered() == old(self).buffered(),
            final(self).last_update_slot == old(self).last_update_slot,
    {
        proof {
            lemma_single(bundle);
        }
        let len: usize = bundle.packets.len();
        assert(bundle.packets@.len() == len);
        let bundles = vec![bundle];
        assert(bundles@ =~= seq![bundle]);
        self.push_front_unprocessed_bundles(bundles)
    }

    /// Takes the bundles of a slot out, on a new slot those that were kept for it first, and gives
    /// the ones that sanitize in the order of their priority. A bundle is sanitized with regard to
    /// the accounts that it may not use, and counted by whether it sanitizes.
    pub fn drain_and_sanitize_bundles<
        S: FnMut(&ImmutableDeserializedBundle, &Vec<Pubkey>) -> Option<SanitizedBundle>,
    >(
        &mut self,
        slot: u64,
        sanitize: &mut PairInquiry<
            ImmutableDeserializedBundle,
            Vec<Pubkey>,
            Option<SanitizedBundle>,
            S,
        >,
        blacklisted_accounts: &Vec<Pubkey>,
        tip_accounts: &Vec<Pubkey>,
        metrics: &mut BundleSanitizeMetrics,
    ) -> (bundles: Vec<(ImmutableDeserializedBundle, SanitizedBundle)>)
        requires
            old(self).wf(),
            old(self).priorities_fit(
                slot,
                old(sanitize).function(),
                *blacklisted_accounts,
                tip_accounts@,
            ),
            forall|bundle: &ImmutableDeserializedBundle|
                call_requires(old(sanitize).function(), (bundle, blacklisted_accounts)),
        ensures
            final(sanitize).function() == old(sanitize).function(),
            final(metrics).counted(
                *old(metrics),
                old(self).candidates(slot).len() as int,
                bundles@.len() as int,
            ),
            final(self).wf(),
            final(self).last_update_slot == slot,
            final(self).unprocessed() == Seq::<ImmutableDeserializedBundle>::empty(),
            final(self).buffered() == old(self).buffered_after_drain(slot),
            exists|answers: Seq<Option<SanitizedBundle>>|
                #[trigger] bundles_sanitized_by(
                    old(sanitize).function(),
                    *blacklisted_accounts,
                    old(self).candidates(slot),
                    answers,
                ) && {
                    let sanitized = pairs(old(self).candidates(slot), answers);
                    &&& sorted_by_priority(
                        priority_keys(sanitized, tip_accounts@),
                        sanitized,
                        bundles@,
                    )
                    &&& final(sanitize).log() == old(sanitize).log() + bundle_sanitizings(
                        *blacklisted_accounts,
                        old(self).candidates(slot),
                        answers,
                    )
                },
    {
        let start = clock_reading();
        let ghost candidates = self.candidates(slot);
        let ghost sanitize0 = sanitize.function();
        let ghost log = sanitize.log();
        let ghost counts = *metrics;
        let mut to_sanitize: VecDeque<ImmutableDeserializedBundle> = VecDeque::new();
        if slot != self.last_update_slot {
            to_sanitize.append(&mut self.cost_model_buffered_bundle_storage);
            self.last_update_slot = slot;
        }
        to_sanitize.append(&mut self.unprocessed_bundle_storage);
        assert(to_sanitize@ =~= candidates);
        let mut sanitized_bundles: Vec<(ImmutableDeserializedBundle, SanitizedBundle)> = Vec::new();
        let mut keys: Vec<BundlePriorityKey> = Vec::new();
        let mut priority_counter: u64 = 0;
        let ghost mut answers: Seq<Option<SanitizedBundle>> = Seq::empty();
        let ghost mut n: int = 0;
        while to_sanitize.len() > 0
            invariant
                0 <= n <= candidates.len(),
                to_sanitize@ == candidates.skip(n),
                answers.len() == n,
                sanitize.function() == sanitize0,
                sanitize.log() == log + bundle_sanitizings(
                    *blacklisted_accounts,
                    candidates.take(n),
                    answers,
                ),
                metrics.counts(counts, n, sanitized_bundles@.len() as int),
                forall|bundle: &ImmutableDeserializedBundle|
                    call_requires(sanitize0, (bundle, blacklisted_accounts)),
                candidates == old(self).candidates(slot),
                old(self).priorities_fit(slot, sanitize0, *blacklisted_accounts, tip_accounts@),
                bundles_sanitized_by(
                    sanitize0,
                    *blacklisted_accounts,
                    candidates.take(n),
                    answers,
                ),
                sanitized_bundles@ == pairs(candidates.take(n), answers),
                keys@ == priority_keys(sanitized_bundles@, tip_accounts@),
                priority_counter == sanitized_bundles@.len(),
                sanitized_bundles@.len() <= n,
                candidates.len() <= 2 * Self::BUNDLE_STORAGE_CAPACITY,
            decreases to_sanitize@.len(),
        {
            let packet_bundle = to_sanitize.pop_front().unwrap();
            let answer = sanitize.ask(&packet_bundle, blacklisted_accounts);
            metrics.increment_sanitize_transaction_result(answer.is_some());
            proof {
                let before = answers;
                assert(packet_bundle == candidates[n]);
                answers = answers.push(answer);
                assert(sanitize.log() =~= log + bundle_sanitizings(
                    *blacklisted_accounts,
                    candidates.take(n + 1),
                    answers,
                ));
                assert(candidates.take(n + 1).drop_last() =~= candidates.take(n));
                assert(answers.drop_last() =~= before);
                assert forall|i: int| 0 <= i < n + 1 implies call_ensures(
                    sanitize0,
                    (&candidates.take(n + 1)[i], blacklisted_accounts),
                    #[trigger] answers[i],
                ) by {
                    if i < n {
                        assert(answers[i] == before[i]);
                        assert(candidates.take(n + 1)[i] == candidates.take(n)[i]);
                    }
                }
                assert(candidates.skip(n).subrange(1, candidates.skip(n).len() as int)
                    =~= candidates.skip(n + 1));
                n = n + 1;
            }
            if let Some(sanitized_bundle) = answer {
                // Each key is worked out once, in the order in which the bundles came.
                let key = Self::calculate_bundle_priority(
                    &packet_bundle,
                    &sanitized_bundle,
                    &mut priority_counter,
                    tip_accounts,
                );
                keys.push(key);
                sanitized_bundles.push((packet_bundle, sanitized_bundle));
                assert(keys@ =~= priority_keys(sanitized_bundles@, tip_accounts@));
            }
        }
        proof {
            assert(candidates.take(n) =~= candidates);
            assert(distinct_sequences(keys@));
            assert(bundles_sanitized_by(
                sanitize0,
                *blacklisted_accounts,
                candidates,
                answers,
            ));
        }
        let bundles = sort_by_priority(&keys, sanitized_bundles);
        metrics.increment_sanitize_bundle_elapsed_us(elapsed_us(&start));
        bundles
    }
}

/// A single bundle has its own packets.
proof fn lemma_single(bundle: ImmutableDeserializedBundle)
    ensures
        packet_count(seq![bundle]) == bundle.packets@.len(),
{
    assert(seq![bundle].drop_last() =~= Seq::<ImmutableDeserializedBundle>::empty());
    assert(packet_count(seq![bundle].drop_last()) == 0);
}

/// Bundles that are put in one after the other end up as if they were put in together.
proof fn lemma_insert_one(
    deque: Seq<ImmutableDeserializedBundle>,
    bundles: Seq<ImmutableDeserializedBundle>,
    bundle: ImmutableDeserializedBundle,
)
    requires
        deque.len() <= BundleStorage::BUNDLE_STORAGE_CAPACITY,
    ensures
        with_inserted(with_inserted(deque, bundles, true), seq![bundle], true) == with_inserted(
            deque,
            bundles.push(bundle),
            true,
        ),
{
    let once = with_inserted(deque, bundles, true);
    assert(with_inserted(once, seq![bundle], true) =~= with_inserted(
        deque,
        bundles.push(bundle),
        true,
    ));
}

/// Bundles that are put in front one after the other, the last one first, end up in order.
proof fn lemma_insert_front(
    deque: Seq<ImmutableDeserializedBundle>,
    bundles: Seq<ImmutableDeserializedBundle>,
    n: int,
)
    requires
        deque.len() <= BundleStorage::BUNDLE_STORAGE_CAPACITY,
        0 < n <= bundles.len(),
    ensures
        with_inserted(
            last_fitting(deque.len() as int, bundles.skip(n)) + deque,
            seq![bundles[n - 1]],
            false,
        ) == last_fitting(deque.len() as int, bundles.skip(n - 1)) + deque,
{
    let before = last_fitting(deque.len() as int, bundles.skip(n)) + deque;
    let one = seq![bundles[n - 1]];
    assert(with_inserted(before, one, false) =~= last_fitting(
        deque.len() as int,
        bundles.skip(n - 1),
    ) + deque);
}

/// Bundles that the end of the slot prevented come back in the order in which they were to be
/// executed, as long as there is room for them.
pub proof fn law_retried_bundles_keep_their_order(bundles: Seq<ImmutableDeserializedBundle>)
    requires
        bundles.len() <= BundleStorage::BUNDLE_STORAGE_CAPACITY,
    ensures
        last_fitting(0, bundles) == bundles,
{
    assert(last_fitting(0, bundles) =~= bundles);
}

/// No result sends a bundle to both deques, and a bundle that was executed goes to neither.
pub proof fn law_bundle_is_kept_once(result: Result<(), BundleExecutionError>)
    ensures
        !(is_retried_first(result) && is_kept_for_next_slot(result)),
        result is Ok ==> !is_retried_first(result) && !is_kept_for_next_slot(result),
{
}

/// Processing keeps only bundles that were there before.
pub proof fn law_processing_invents_no_bundle<
    S: FnMut(&ImmutableDeserializedBundle, &Vec<Pubkey>) -> Option<SanitizedBundle>,
    F: FnMut(&Vec<(ImmutableDeserializedBundle, SanitizedBundle)>) -> Vec<
        Result<(), BundleExecutionError>,
    >,
>(
    before: BundleStorage,
    slot: u64,
    sanitize: S,
    blacklisted_accounts: Vec<Pubkey>,
    tip_accounts: Seq<Pubkey>,
    processing_function: F,
    calls: BundleCalls,
    metrics: BundleSanitizeMetrics,
    after: BundleStorage,
    is_slot_over: bool,
    calls_after: BundleCalls,
    metrics_after: BundleSanitizeMetrics,
    bundle: ImmutableDeserializedBundle,
)
    requires
        before.wf(),
        before.processes(
            slot,
            sanitize,
            blacklisted_accounts,
            tip_accounts,
            processing_function,
            calls,
            metrics,
            &after,
            is_slot_over,
            calls_after,
            metrics_after,
        ),
        after.unprocessed().contains(bundle) || after.buffered().contains(bundle),
    ensures
        before.unprocessed().contains(bundle) || before.buffered().contains(bundle),
{
    let candidates = before.candidates(slot);
    let (answers, bundles, results) = choose|
        answers: Seq<Option<SanitizedBundle>>,
        bundles: Vec<(ImmutableDeserializedBundle, SanitizedBundle)>,
        results: Vec<Result<(), BundleExecutionError>>,
    |
        {
            let sanitized = pairs(candidates, answers);
            &&& #[trigger] bundles_sanitized_by(
                sanitize,
                blacklisted_accounts,
                candidates,
                answers,
            )
            &&& sorted_by_priority(priority_keys(sanitized, tip_accounts), sanitized, bundles@)
            &&& #[trigger] call_ensures(processing_function, (&bundles,), results)
            &&& after.unprocessed() == last_fitting(0, retried_first(bundles@, results@))
            &&& after.buffered() == with_inserted(
                before.buffered_after_drain(slot),
                kept_for_next_slot(bundles@, results@),
                true,
            )
        };
    let sanitized = pairs(candidates, answers);
    let first = retried_first(bundles@, results@);
    let kept = kept_for_next_slot(bundles@, results@);
    if !before.buffered().contains(bundle) {
        assert(first.contains(bundle) || kept.contains(bundle)) by {
            if after.unprocessed().contains(bundle) {
                let i = choose|i: int|
                    0 <= i < after.unprocessed().len() && after.unprocessed()[i] == bundle;
                assert(first[i + (first.len() - fitting(0, first.len() as int))] == bundle);
            } else {
                let old_buffered = before.buffered_after_drain(slot);
                let i = choose|i: int|
                    0 <= i < after.buffered().len() && after.buffered()[i] == bundle;
                if i < old_buffered.len() {
                    assert(old_buffered[i] == bundle);
                } else {
                    assert(kept[i - old_buffered.len()] == bundle);
                }
            }
        }
        let n = answered(bundles@, results@);
        lemma_bundles_where(
            bundles@,
            results@,
            |result: Result<(), BundleExecutionError>| is_retried_first(result),
            n,
        );
        lemma_bundles_where(
            bundles@,
            results@,
            |result: Result<(), BundleExecutionError>| is_kept_for_next_slot(result),
            n,
        );
        let k = choose|k: int| 0 <= k < n && (#[trigger] bundles@[k]).0 == bundle;
        let order = choose|order: Seq<int>|
            #[trigger] is_arrangement(order, sanitized.len()) && in_priority_order(
                rearranged(priority_keys(sanitized, tip_accounts), order),
            ) && bundles@ == rearranged(sanitized, order);
        assert(bundles@[k] == sanitized[order[k]]);
        lemma_pairs(candidates, answers);
        assert(candidates.contains(sanitized[order[k]].0));
        let i = choose|i: int| 0 <= i < candidates.len() && candidates[i] == bundle;
        if slot != before.last_update_slot {
            if i < before.buffered().len() {
                assert(before.buffered()[i] == bundle);
            } else {
                assert(before.unprocessed()[i - before.buffered().len()] == bundle);
            }
        }
    }
}

/// The bundles that sanitize are among the bundles.
proof fn lemma_pairs(
    bundles: Seq<ImmutableDeserializedBundle>,
    answers: Seq<Option<SanitizedBundle>>,
)
    requires
        answers.len() == bundles.len(),
    ensures
        forall|i: int|
            0 <= i < pairs(bundles, answers).len() ==> bundles.contains(
                (#[trigger] pairs(bundles, answers)[i]).0,
            ),
    decreases bundles.len(),
{
    if bundles.len() > 0 {
        let shorter = bundles.drop_last();
        lemma_pairs(shorter, answers.drop_last());
        let before = pairs(shorter, answers.drop_last());
        let all = pairs(bundles, answers);
        assert forall|i: int| 0 <= i < all.len() implies bundles.contains((#[trigger] all[i]).0) by {
            if i < before.len() {
                assert(shorter.contains(before[i].0));
                let k = choose|k: int| 0 <= k < shorter.len() && shorter[k] == before[i].0;
                assert(bundles[k] == all[i].0);
            } else {
                assert(bundles[bundles.len() - 1] == all[i].0);
            }
        }
    }
}

/// The bundles of a kind are among the first ones.
proof fn lemma_bundles_where(
    bundles: Seq<(ImmutableDeserializedBundle, SanitizedBundle)>,
    results: Seq<Result<(), BundleExecutionError>>,
    kind: spec_fn(Result<(), BundleExecutionError>) -> bool,
    n: int,
)
    requires
        n <= bundles.len(),
    ensures
        forall|bundle: ImmutableDeserializedBundle| #[trigger]
            bundles_where(bundles, results, kind, n).contains(bundle) ==> exists|k: int|
                0 <= k < n && (#[trigger] bundles[k]).0 == bundle,
    decreases n,
{
    if n > 0 {
        lemma_bundles_where(bundles, results, kind, n - 1);
        let before = bundles_where(bundles, results, kind, n - 1);
        let all = bundles_where(bundles, results, kind, n);
        assert forall|bundle: ImmutableDeserializedBundle| #[trigger]
            all.contains(bundle) implies exists|k: int|
            0 <= k < n && (#[trigger] bundles[k]).0 == bundle by {
            let i = choose|i: int| 0 <= i < all.len() && all[i] == bundle;
            if i < before.len() {
                assert(before[i] == bundle);
                assert(before.contains(bundle));
                let k = choose|k: int| 0 <= k < n - 1 && (#[trigger] bundles[k]).0 == bundle;
                assert(bundles[k].0 == bundle);
            } else {
                assert(bundles[n - 1].0 == bundle);
            }
        }
    }
}

/// Every bundle and every packet that is offered is either put in or counted as dropped.
pub proof fn law_insertion_accounts_for_all(
    deque: Seq<ImmutableDeserializedBundle>,
    bundles: Seq<ImmutableDeserializedBundle>,
    summary: InsertPacketBundlesSummary,
    push_back: bool,
)
    requires
        deque.len() <= BundleStorage::BUNDLE_STORAGE_CAPACITY,
        insertion_summary(deque, bundles, summary),
    ensures
        summary.num_bundles_inserted + summary.num_bundles_dropped == bundles.len(),
        summary.num_packets_inserted + summary.insert_packets_summary.dropped() == packet_count(
            bundles,
        ),
        with_inserted(deque, bundles, push_back).len() == deque.len()
            + summary.num_bundles_inserted,
{
    lemma_packet_count(bundles, fitting(deque.len() as int, bundles.len() as int));
}

} // verus!
