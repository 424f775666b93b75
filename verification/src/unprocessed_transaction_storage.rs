//! What a thread of the banking stage or of the bundle stage keeps for processing.

use vstd::prelude::*;

use crate::account_locks::SanitizedTransaction;
use crate::ages::forwarding_offset;
use crate::bundle::{BundleExecutionError, ImmutableDeserializedBundle, SanitizedBundle};
use crate::bundle_storage::{
    bundle_calls, insertion_summary, packet_count, with_inserted, BundleStorage, MAX_BUFFERED_BUNDLES,
};
use crate::consume::{calls_of_consume, proper_places, ConsumeLimits, ConsumeScannerPayload};
use crate::forwarding::forward_calls;
use crate::keys::{MessageHash, Pubkey};
use crate::metrics::{
    BundleSanitizeMetrics, FilterForwardingResults, InsertPacketBatchSummary,
    InsertPacketBundlesSummary, SlotMetrics,
};
use crate::packet::{DeserializedPacket, ImmutableDeserializedPacket, SharedPacket};
use crate::services::{BatchCheck, BatchProcessing, Inquiry, PairInquiry};
use crate::thread_local_packets::{
    ForwardOption, ThreadLocalUnprocessedPackets, ThreadType, VoteSource,
};
use crate::unprocessed_packet_batches::{
    greatest_price, least_price, Stored, UnprocessedPacketBatches,
};
use crate::vote_storage::{places_in_batch, VoteStorage, MAX_NUM_VOTES_RECEIVE};
use crate::votes::{present_count, vote_calls, without_forwarded, LatestUnprocessedVotes};

verus! {

/// The storage of a thread: of votes, of other packets, or of bundles.
#[derive(Debug)]
pub enum UnprocessedTransactionStorage {
    VoteStorage(VoteStorage),
    LocalTransactionStorage(ThreadLocalUnprocessedPackets),
    BundleStorage(BundleStorage),
}

impl UnprocessedTransactionStorage {
    pub open spec fn wf(&self) -> bool {
        match self {
            Self::VoteStorage(storage) => storage.wf(),
            Self::LocalTransactionStorage(storage) => storage.wf(),
            Self::BundleStorage(storage) => storage.wf(),
        }
    }

    /// How many votes, packets or bundles are kept.
    pub open spec fn size(&self) -> int {
        match self {
            Self::VoteStorage(storage) => present_count(storage.votes()) as int,
            Self::LocalTransactionStorage(storage) => storage.stored().len() as int,
            Self::BundleStorage(storage) => (storage.unprocessed().len()
                + storage.buffered().len()) as int,
        }
    }

    /// Nothing waits; bundles that are kept for the next slot do not count.
    pub open spec fn nothing_waits(&self) -> bool {
        match self {
            Self::VoteStorage(storage) => present_count(storage.votes()) == 0,
            Self::LocalTransactionStorage(storage) => storage.stored().len() == 0,
            Self::BundleStorage(storage) => storage.unprocessed().len() == 0,
        }
    }

    /// A storage of packets.
    pub fn new_transaction_storage(
        unprocessed_packet_batches: UnprocessedPacketBatches,
        thread_type: ThreadType,
    ) -> (storage: Self)
        ensures
            storage == Self::LocalTransactionStorage(
                ThreadLocalUnprocessedPackets { unprocessed_packet_batches, thread_type },
            ),
    {
        Self::LocalTransactionStorage(
            ThreadLocalUnprocessedPackets { unprocessed_packet_batches, thread_type },
        )
    }

    /// A storage of votes.
    pub fn new_vote_storage(
        latest_unprocessed_votes: LatestUnprocessedVotes,
        vote_source: VoteSource,
    ) -> (storage: Self)
        ensures
            storage == Self::VoteStorage(VoteStorage { latest_unprocessed_votes, vote_source }),
    {
        Self::VoteStorage(VoteStorage { latest_unprocessed_votes, vote_source })
    }

    /// A storage of bundles, without any.
    pub fn new_bundle_storage() -> (storage: Self)
        ensures
            storage.wf(),
            storage matches Self::BundleStorage(bundles) && bundles.last_update_slot == 0
                && bundles.unprocessed() == Seq::<ImmutableDeserializedBundle>::empty()
                && bundles.buffered() == Seq::<ImmutableDeserializedBundle>::empty(),
    {
        Self::BundleStorage(BundleStorage::new())
    }

    /// Whether nothing waits; bundles that are kept for the next slot do not count.
    pub fn is_empty(&self) -> (empty: bool)
        requires
            self.wf(),
        ensures
            empty == self.nothing_waits(),
    {
        match self {
            Self::VoteStorage(storage) => storage.is_empty(),
            Self::LocalTransactionStorage(storage) => storage.is_empty(),
            Self::BundleStorage(storage) => storage.is_empty(),
        }
    }

    /// How many votes, packets or bundles are kept.
    pub fn len(&self) -> (len: usize)
        requires
            self.wf(),
        ensures
            len == self.size(),
    {
        match self {
            Self::VoteStorage(storage) => storage.len(),
            Self::LocalTransactionStorage(storage) => storage.len(),
            Self::BundleStorage(storage) => storage.unprocessed_bundles_len()
                + storage.cost_model_buffered_bundles_len(),
        }
    }

    /// The least compute-unit price of a packet; votes and bundles have none.
    pub fn get_min_priority(&self) -> (priority: Option<u64>)
        requires
            self.wf(),
        ensures
            match self {
                Self::LocalTransactionStorage(storage) => least_price(storage.stored(), priority),
                _ => priority is None,
            },
    {
        match self {
            Self::LocalTransactionStorage(storage) => storage.get_min_compute_unit_price(),
            _ => None,
        }
    }

    /// The greatest compute-unit price of a packet; votes and bundles have none.
    pub fn get_max_priority(&self) -> (priority: Option<u64>)
        requires
            self.wf(),
        ensures
            match self {
                Self::LocalTransactionStorage(storage) => greatest_price(
                    storage.stored(),
                    priority,
                ),
                _ => priority is None,
            },
    {
        match self {
            Self::LocalTransactionStorage(storage) => storage.get_max_compute_unit_price(),
            _ => None,
        }
    }

    /// How many packets a receive call takes at most.
    pub fn max_receive_size(&self) -> (size: usize)
        requires
            self.wf(),
            self matches Self::BundleStorage(storage) ==> storage.unprocessed().len()
                <= MAX_BUFFERED_BUNDLES,
        ensures
            size == (match self {
                Self::VoteStorage(_) => MAX_NUM_VOTES_RECEIVE as int,
                Self::LocalTransactionStorage(storage) => storage.limit() - storage.stored().len(),
                Self::BundleStorage(storage) => MAX_BUFFERED_BUNDLES - storage.unprocessed().len(),
            }),
    {
        match self {
            Self::VoteStorage(storage) => storage.max_receive_size(),
            Self::LocalTransactionStorage(storage) => storage.max_receive_size(),
            Self::BundleStorage(storage) => storage.max_receive_size(),
        }
    }

    /// Whether the thread leaves processing to another one: the thread of gossip votes does, and
    /// the thread of the transaction port handles them.
    pub fn should_not_process(&self) -> (leave: bool)
        ensures
            leave == (self matches Self::VoteStorage(storage) && storage.vote_source
                == VoteSource::Gossip),
    {
        match self {
            Self::VoteStorage(storage) => storage.vote_source == VoteSource::Gossip,
            _ => false,
        }
    }

    /// The packets of a packet storage, in no particular order.
    pub fn iter(&self) -> (packets: &Vec<DeserializedPacket>)
        requires
            self.wf(),
            self is LocalTransactionStorage,
        ensures
            packets@.len() == self.size(),
            self matches Self::LocalTransactionStorage(storage) && forall|i: int|
                0 <= i < packets@.len() ==> {
                    let hash = (#[trigger] packets@[i]).hash();
                    storage.stored().contains_key(hash) && storage.stored()[hash] == packets@[i]
                },
            self matches Self::LocalTransactionStorage(storage) && forall|hash: MessageHash|
                #[trigger] storage.stored().contains_key(hash) ==> packets@.contains(
                    storage.stored()[hash],
                ),
            self matches Self::LocalTransactionStorage(storage) && packets@
                == storage.unprocessed_packet_batches.message_hash_to_transaction.entries(),
    {
        match self {
            Self::LocalTransactionStorage(storage) => storage.iter(),
            Self::VoteStorage(_) => vstd::pervasive::unreached(),
            Self::BundleStorage(_) => vstd::pervasive::unreached(),
        }
    }

    /// What of the storage is passed on to other leaders.
    pub fn forward_option(&self) -> (option: ForwardOption)
        ensures
            option == (match self {
                Self::VoteStorage(storage) => match storage.vote_source {
                    VoteSource::Tpu => ForwardOption::ForwardTpuVote,
                    VoteSource::Gossip => ForwardOption::NotForward,
                },
                Self::LocalTransactionStorage(storage) => match storage.thread_type {
                    ThreadType::Transactions => ForwardOption::ForwardTransaction,
                    ThreadType::Voting(VoteSource::Tpu) => ForwardOption::ForwardTpuVote,
                    ThreadType::Voting(VoteSource::Gossip) => ForwardOption::NotForward,
                    ThreadType::Bundles => ForwardOption::NotForward,
                },
                Self::BundleStorage(_) => ForwardOption::NotForward,
            }),
    {
        match self {
            Self::VoteStorage(storage) => storage.forward_option(),
            Self::LocalTransactionStorage(storage) => storage.forward_option(),
            Self::BundleStorage(storage) => storage.forward_option(),
        }
    }

    /// Drops what was forwarded: all packets, since all of them were; the votes that need not be
    /// forwarded; and all bundles.
    pub fn clear_forwarded_packets(&mut self)
        requires
            old(self).wf(),
        ensures
            final(self).wf(),
            match *old(self) {
                Self::LocalTransactionStorage(before) => *final(self) matches Self::LocalTransactionStorage(after) && after.same_rules(&before)
                    && after.stored() == Stored::empty(),
                Self::VoteStorage(before) => *final(self) matches Self::VoteStorage(after)
                    && after.same_rules(&before) && after.votes() == without_forwarded(
                    before.votes(),
                ),
                Self::BundleStorage(before) => *final(self) matches Self::BundleStorage(after)
                    && after.last_update_slot == before.last_update_slot && after.unprocessed()
                    == Seq::<ImmutableDeserializedBundle>::empty() && after.buffered() == Seq::<
                    ImmutableDeserializedBundle,
                >::empty(),
            },
    {
        match self {
            Self::LocalTransactionStorage(storage) => storage.clear(),
            Self::VoteStorage(storage) => storage.clear_forwarded_packets(),
            Self::BundleStorage(storage) => {
                let _dropped = storage.reset();
            },
        }
    }

    /// The bundles, where the storage holds bundles.
    pub fn bundle_storage(&mut self) -> (storage: Option<&mut BundleStorage>)
        ensures
            match storage {
                Some(storage) => *old(self) == Self::BundleStorage(*storage) && *final(self)
                    == Self::BundleStorage(*final(storage)),
                None => !(*old(self) is BundleStorage) && *final(self) == *old(self),
            },
    {
        match self {
            Self::BundleStorage(storage) => Some(storage),
            _ => None,
        }
    }

    /// Puts packets in. Bundles go in by `insert_bundles`.
    pub fn insert_batch(&mut self, deserialized_packets: Vec<ImmutableDeserializedPacket>) -> (summary:
        InsertPacketBatchSummary)
        requires
            old(self).wf(),
            !(*old(self) is BundleStorage),
        ensures
            final(self).wf(),
            match *old(self) {
                Self::VoteStorage(before) => *final(self) matches Self::VoteStorage(after)
                    && summary matches InsertPacketBatchSummary::VoteBatchInsertionMetrics(metrics)
                    && before.inserts(deserialized_packets@, &after, metrics),
                Self::LocalTransactionStorage(before) => *final(self) matches Self::LocalTransactionStorage(after)
                    && summary matches InsertPacketBatchSummary::PacketBatchInsertionMetrics(metrics)
                    && before.inserts(deserialized_packets@, &after, metrics),
                Self::BundleStorage(_) => false,
            },
            summary.dropped() <= usize::MAX,
    {
        let total: usize = deserialized_packets.len();
        assert(deserialized_packets@.len() == total);
        match self {
            Self::VoteStorage(storage) => InsertPacketBatchSummary::from(
                storage.insert_batch(deserialized_packets),
            ),
            Self::LocalTransactionStorage(storage) => InsertPacketBatchSummary::from(
                storage.insert_batch(deserialized_packets),
            ),
            Self::BundleStorage(_) => vstd::pervasive::unreached(),
        }
    }

    /// Offers what was not forwarded yet to the forward buffer. Bundles are not passed on between
    /// leaders. Votes are offered in the given order of their validators.
    pub fn filter_forwardable_packets_and_add_batches<
        T,
        S: FnMut(&SharedPacket) -> Option<T>,
        C: FnMut(&Vec<T>, u64) -> Vec<bool>,
        A: FnMut(&T, &SharedPacket) -> bool,
    >(
        &mut self,
        vote_order: &Vec<Pubkey>,
        sanitize: &mut Inquiry<SharedPacket, Option<T>, S>,
        check: &mut BatchCheck<T, u64, C>,
        try_add: &mut PairInquiry<T, SharedPacket, bool, A>,
    ) -> (results: FilterForwardingResults)
        requires
            old(self).wf(),
            !(*old(self) is BundleStorage),
            old(sanitize).takes_all(),
            forall|txs: &Vec<T>| call_requires(old(check).function(), (txs, forwarding_offset())),
            forall|txs: &Vec<T>, valid: Vec<bool>|
                call_ensures(old(check).function(), (txs, forwarding_offset()), valid)
                    ==> valid@.len() <= txs@.len(),
            old(try_add).takes_all(),
        ensures
            final(sanitize).function() == old(sanitize).function(),
            final(check).function() == old(check).function(),
            final(try_add).function() == old(try_add).function(),
            final(self).wf(),
            match *old(self) {
                Self::LocalTransactionStorage(before) => *final(self) matches Self::LocalTransactionStorage(after) && before.forwards(
                    old(sanitize).function(),
                    old(check).function(),
                    old(try_add).function(),
                    forward_calls(old(sanitize), old(check), old(try_add)),
                    &after,
                    results,
                    forward_calls(final(sanitize), final(check), final(try_add)),
                ),
                Self::VoteStorage(before) => *final(self) matches Self::VoteStorage(after)
                    && before.forwards(
                    vote_order@,
                    old(sanitize).function(),
                    old(try_add).function(),
                    vote_calls(old(sanitize), old(try_add)),
                    &after,
                    results,
                    vote_calls(final(sanitize), final(try_add)),
                ) && final(check).log() == old(check).log(),
                Self::BundleStorage(_) => false,
            },
    {
        match self {
            Self::LocalTransactionStorage(
                storage,
            ) => storage.filter_forwardable_packets_and_add_batches(sanitize, check, try_add),
            Self::VoteStorage(storage) => storage.filter_forwardable_packets_and_add_batches(
                vote_order,
                sanitize,
                try_add,
            ),
            Self::BundleStorage(_) => vstd::pervasive::unreached(),
        }
    }

    /// Gives batches of packets to the processing function, which gives back the places of the
    /// packets that are eligible for a retry; giving back none at all means that all of them are
    /// unprocessed and eligible. Votes are processed in the given order of their validators. The
    /// time that sanitizing takes is counted.
    #[must_use]
    pub fn process_packets<
        S: FnMut(&SharedPacket) -> Option<SanitizedTransaction>,
        P: FnMut(&SanitizedTransaction) -> bool,
        F: FnMut(&Vec<SharedPacket>, ConsumeScannerPayload) -> (
            Option<Vec<usize>>,
            ConsumeScannerPayload,
        ),
    >(
        &mut self,
        vote_order: &Vec<Pubkey>,
        sanitize: &mut Inquiry<SharedPacket, Option<SanitizedTransaction>, S>,
        check_fee_payer: &mut Inquiry<SanitizedTransaction, bool, P>,
        processing_function: &mut BatchProcessing<F>,
        limits: &ConsumeLimits,
        slot_metrics: &mut SlotMetrics,
    ) -> (reached_end_of_slot: bool)
        requires
            old(self).wf(),
            !(*old(self) is BundleStorage),
            *old(self) matches Self::VoteStorage(storage) ==> storage.vote_source
                == VoteSource::Tpu,
            old(sanitize).takes_all(),
            old(check_fee_payer).takes_all(),
            old(processing_function).takes_all(),
            *old(self) is LocalTransactionStorage ==> forall|
                batch: &Vec<SharedPacket>,
                payload: ConsumeScannerPayload,
                answer: (Option<Vec<usize>>, ConsumeScannerPayload),
            |
                call_ensures(old(processing_function).function(), (batch, payload), answer)
                    ==> proper_places(batch@.len(), answer.0),
            *old(self) matches Self::LocalTransactionStorage(storage) ==> storage.leaves_nothing(
                old(sanitize).function(),
                old(check_fee_payer).function(),
                old(processing_function).function(),
                *limits,
            ),
            *old(self) is VoteStorage ==> forall|
                batch: &Vec<SharedPacket>,
                payload: ConsumeScannerPayload,
                answer: (Option<Vec<usize>>, ConsumeScannerPayload),
            |
                call_ensures(old(processing_function).function(), (batch, payload), answer)
                    ==> places_in_batch(batch@.len(), answer.0),
        ensures
            final(sanitize).function() == old(sanitize).function(),
            final(check_fee_payer).function() == old(check_fee_payer).function(),
            final(processing_function).function() == old(processing_function).function(),
            final(self).wf(),
            match *old(self) {
                Self::LocalTransactionStorage(before) => *final(self) matches Self::LocalTransactionStorage(after) && before.processes(
                    old(sanitize).function(),
                    old(check_fee_payer).function(),
                    old(processing_function).function(),
                    *limits,
                    *old(slot_metrics),
                    calls_of_consume(
                        old(sanitize),
                        old(check_fee_payer),
                        old(processing_function),
                    ),
                    &after,
                    reached_end_of_slot,
                    *final(slot_metrics),
                    calls_of_consume(
                        final(sanitize),
                        final(check_fee_payer),
                        final(processing_function),
                    ),
                ),
                Self::VoteStorage(before) => *final(self) matches Self::VoteStorage(after)
                    && before.processes(
                    vote_order@,
                    old(sanitize).function(),
                    old(check_fee_payer).function(),
                    old(processing_function).function(),
                    *limits,
                    *old(slot_metrics),
                    calls_of_consume(
                        old(sanitize),
                        old(check_fee_payer),
                        old(processing_function),
                    ),
                    &after,
                    reached_end_of_slot,
                    *final(slot_metrics),
                    calls_of_consume(
                        final(sanitize),
                        final(check_fee_payer),
                        final(processing_function),
                    ),
                ),
                Self::BundleStorage(_) => false,
            },
    {
        match self {
            Self::LocalTransactionStorage(storage) => storage.process_packets(
                sanitize,
                check_fee_payer,
                processing_function,
                limits,
                slot_metrics,
            ),
            Self::VoteStorage(storage) => storage.process_packets(
                vote_order,
                sanitize,
                check_fee_payer,
                processing_function,
                limits,
                slot_metrics,
            ),
            Self::BundleStorage(_) => vstd::pervasive::unreached(),
        }
    }

    /// Processes the bundles of a slot. Only a storage of bundles can.
    #[must_use]
    pub fn process_bundles<
        S: FnMut(&ImmutableDeserializedBundle, &Vec<Pubkey>) -> Option<SanitizedBundle>,
        F: FnMut(&Vec<(ImmutableDeserializedBundle, SanitizedBundle)>) -> Vec<
            Result<(), BundleExecutionError>,
        >,
    >(
        &mut self,
        slot: u64,
        sanitize: &mut PairInquiry<
            ImmutableDeserializedBundle,
            Vec<Pubkey>,
            Option<SanitizedBundle>,
            S,
        >,
        blacklisted_accounts: &Vec<Pubkey>,
        tip_accounts: &Vec<Pubkey>,
        processing_function: &mut Inquiry<
            Vec<(ImmutableDeserializedBundle, SanitizedBundle)>,
            Vec<Result<(), BundleExecutionError>>,
            F,
        >,
        metrics: &mut BundleSanitizeMetrics,
    ) -> (is_slot_over: bool)
        requires
            old(self).wf(),
            *old(self) matches Self::BundleStorage(storage) && storage.priorities_fit(
                slot,
                old(sanitize).function(),
                *blacklisted_accounts,
                tip_accounts@,
            ),
            forall|bundle: &ImmutableDeserializedBundle|
                call_requires(old(sanitize).function(), (bundle, blacklisted_accounts)),
            old(processing_function).takes_all(),
        ensures
            final(sanitize).function() == old(sanitize).function(),
            final(processing_function).function() == old(processing_function).function(),
            final(self).wf(),
            *old(self) matches Self::BundleStorage(before) && *final(self) matches Self::BundleStorage(after) && before.processes(
                slot,
                old(sanitize).function(),
                *blacklisted_accounts,
                tip_accounts@,
                old(processing_function).function(),
                bundle_calls(old(sanitize), old(processing_function)),
                *old(metrics),
                &after,
                is_slot_over,
                bundle_calls(final(sanitize), final(processing_function)),
                *final(metrics),
            ),
    {
        match self {
            Self::BundleStorage(storage) => storage.process_bundles(
                slot,
                sanitize,
                blacklisted_accounts,
                tip_accounts,
                processing_function,
                metrics,
            ),
            Self::VoteStorage(_) => vstd::pervasive::unreached(),
            Self::LocalTransactionStorage(_) => vstd::pervasive::unreached(),
        }
    }

    /// Puts bundles behind those that wait. Only a storage of bundles can.
    pub fn insert_bundles(&mut self, deserialized_bundles: Vec<ImmutableDeserializedBundle>) -> (summary:
        InsertPacketBundlesSummary)
        requires
            old(self).wf(),
            *old(self) is BundleStorage,
            packet_count(deserialized_bundles@) <= usize::MAX,
        ensures
            final(self).wf(),
            *old(self) matches Self::BundleStorage(before) && *final(self) matches Self::BundleStorage(after) && {
                &&& after.unprocessed() == with_inserted(
                    before.unprocessed(),
                    deserialized_bundles@,
                    true,
                )
                &&& after.buffered() == before.buffered()
                &&& after.last_update_slot == before.last_update_slot
                &&& insertion_summary(before.unprocessed(), deserialized_bundles@, summary)
            },
    {
        match self {
            Self::BundleStorage(storage) => storage.insert_unprocessed_bundles(
                deserialized_bundles,
                true,
            ),
            Self::VoteStorage(_) => vstd::pervasive::unreached(),
            Self::LocalTransactionStorage(_) => vstd::pervasive::unreached(),
        }
    }

    /// Takes over the stakes of a new epoch; only votes depend on them.
    pub fn cache_epoch_boundary_info(
        &mut self,
        epoch: u64,
        staked: Vec<Pubkey>,
        deprecate_legacy_vote_ixs: bool,
    )
        requires
            old(self).wf(),
            *old(self) matches Self::VoteStorage(storage) ==> storage.vote_source
                == VoteSource::Tpu,
        ensures
            final(self).wf(),
            match *old(self) {
                Self::VoteStorage(before) => *final(self) matches Self::VoteStorage(after)
                    && before.caches(epoch, staked, deprecate_legacy_vote_ixs, &after),
                _ => *final(self) == *old(self),
            },
    {
        match self {
            Self::LocalTransactionStorage(_) => {},
            Self::VoteStorage(storage) => storage.cache_epoch_boundary_info(
                epoch,
                staked,
                deprecate_legacy_vote_ixs,
            ),
            Self::BundleStorage(_) => {},
        }
    }
}

/// A storage is empty just when nothing is kept in it, unless bundles are kept for the next slot
/// only.
pub proof fn law_empty_means_nothing_kept(storage: UnprocessedTransactionStorage)
    requires
        storage matches UnprocessedTransactionStorage::BundleStorage(bundles)
            ==> bundles.unprocessed().len() > 0 || bundles.buffered().len() == 0,
    ensures
        storage.nothing_waits() <==> storage.size() == 0,
{
}

/// No vote waits just where none is counted.
proof fn lemma_no_vote_waits(votes: Seq<crate::votes::LatestValidatorVotePacket>)
    ensures
        present_count(votes) == 0 <==> forall|j: int|
            0 <= j < votes.len() ==> (#[trigger] votes[j]).vote is None,
    decreases votes.len(),
{
    if votes.len() > 0 {
        let front = votes.drop_last();
        let last = votes.len() - 1;
        lemma_no_vote_waits(front);
        if forall|j: int| 0 <= j < votes.len() ==> (#[trigger] votes[j]).vote is None {
            assert forall|j: int| 0 <= j < front.len() implies (#[trigger] front[j]).vote is None by {
                assert(votes[j].vote is None);
            }
            assert(votes[last].vote is None);
        }
        if present_count(votes) == 0 {
            assert forall|j: int| 0 <= j < votes.len() implies (#[trigger] votes[j]).vote is None by {
                if j < last {
                    assert(front[j].vote is None);
                }
            }
        }
    }
}

/// When nothing waits: no vote has its packet, no packet is held, no bundle is in line. Bundles that are
/// kept for the next slot do not wait, but they count.
pub proof fn law_nothing_waits_means_what_it_says(storage: UnprocessedTransactionStorage)
    requires
        storage.wf(),
    ensures
        match storage {
            UnprocessedTransactionStorage::VoteStorage(votes) => storage.nothing_waits()
                <==> forall|j: int|
                0 <= j < votes.latest_unprocessed_votes.latest_votes@.len()
                    ==> (#[trigger] votes.latest_unprocessed_votes.latest_votes@[j]).vote is None,
            UnprocessedTransactionStorage::LocalTransactionStorage(packets) =>
                storage.nothing_waits() <==> forall|hash: MessageHash|
                    !(#[trigger] packets.stored().contains_key(hash)),
            UnprocessedTransactionStorage::BundleStorage(bundles) => {
                &&& storage.nothing_waits() <==> bundles.unprocessed_bundle_storage@.len() == 0
                &&& storage.size() == bundles.unprocessed_bundle_storage@.len()
                    + bundles.cost_model_buffered_bundle_storage@.len()
            },
        },
        !(storage is BundleStorage) ==> (storage.nothing_waits() <==> storage.size() == 0),
{
    match storage {
        UnprocessedTransactionStorage::VoteStorage(votes) => {
            lemma_no_vote_waits(votes.votes());
        },
        UnprocessedTransactionStorage::LocalTransactionStorage(packets) => {
            packets.unprocessed_packet_batches.lemma_wf();
            if packets.stored().len() == 0 {
                assert(packets.stored().dom() =~= Set::empty());
                assert forall|hash: MessageHash| !(#[trigger] packets.stored().contains_key(hash)) by {
                    assert(!packets.stored().dom().contains(hash));
                }
            }
            if forall|hash: MessageHash| !(#[trigger] packets.stored().contains_key(hash)) {
                assert(packets.stored().dom() =~= Set::empty());
            }
        },
        UnprocessedTransactionStorage::BundleStorage(bundles) => {},
    }
}

} // verus!
