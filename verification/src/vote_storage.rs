//! The storage of a vote thread.

use std::sync::Arc;

use vstd::prelude::*;

use crate::account_locks::SanitizedTransaction;
use crate::consume::{
    batch_processed_by, calls_of_consume, consume_scan_should_process_packet,
    create_consume_multi_iterator, examine_step, index_view, no_payload, ConsumeCalls,
    ConsumeLimits, ConsumeScannerPayload, Payload,
};
use crate::forwarding::UNPROCESSED_BUFFER_STEP_SIZE;
use crate::keys::Pubkey;
use crate::metrics::{FilterForwardingResults, SlotMetrics, VoteBatchInsertionMetrics};
use crate::packet::{ImmutableDeserializedPacket, SharedPacket};
use crate::packet_map::PacketMap;
use crate::retention::{pick, present_values};
use crate::scanner::{
    lemma_decided, lemma_next_batch, lemma_next_unhandled, unhandled_count, ProcessingDecision,
    Scan, ScanAction,
};
use crate::services::{BatchCall, BatchProcessing, Inquiry, PairInquiry};
use crate::thread_local_packets::{ForwardOption, VoteSource};
use crate::unprocessed_packet_batches::Stored;
use crate::votes::{
    drained, of_staked, present_count, vote_calls, vote_forward_run, vote_forward_start, vote_in,
    without_forwarded, Insertion, LatestUnprocessedVotes, LatestValidatorVotePacket, VoteCalls,
    VoteForwarding,
};

verus! {

/// How many votes a single receive call takes at most.
pub const MAX_NUM_VOTES_RECEIVE: usize = 10_000;

/// The votes in a list of packets.
pub open spec fn votes_in(
    packets: Seq<SharedPacket>,
    vote_source: VoteSource,
    deprecate_legacy_vote_ixs: bool,
) -> Seq<LatestValidatorVotePacket> {
    present_values(
        Seq::new(
            packets.len(),
            |i: int| vote_in(packets[i], vote_source, deprecate_legacy_vote_ixs),
        ),
    )
}

/// The votes in a list of packets.
fn collect_votes(
    packets: Vec<SharedPacket>,
    vote_source: VoteSource,
    deprecate_legacy_vote_ixs: bool,
) -> (votes: Vec<LatestValidatorVotePacket>)
    ensures
        votes@ == votes_in(packets@, vote_source, deprecate_legacy_vote_ixs),
{
    let ghost all = packets@;
    let mut votes: Vec<LatestValidatorVotePacket> = Vec::new();
    for packet in iter: packets
        invariant
            iter.seq() == all,
            votes@ == votes_in(
                all.take(iter.index() as int),
                vote_source,
                deprecate_legacy_vote_ixs,
            ),
    {
        proof {
            let seen = all.take(iter.index() as int);
            let next = all.take(iter.index() + 1);
            assert(Seq::new(
                next.len(),
                |i: int| vote_in(next[i], vote_source, deprecate_legacy_vote_ixs),
            ).drop_last() =~= Seq::new(
                seen.len(),
                |i: int| vote_in(seen[i], vote_source, deprecate_legacy_vote_ixs),
            ));
        }
        if let Ok(vote) = LatestValidatorVotePacket::new_from_immutable(
            packet,
            vote_source,
            deprecate_legacy_vote_ixs,
        ) {
            votes.push(vote);
        }
    }
    assert(all.take(all.len() as int) =~= all);
    votes
}

/// Where the processing of votes stands.
pub struct VoteProcessState {
    pub scan: Scan,
    pub payload: Payload,
    pub votes: Seq<LatestValidatorVotePacket>,
    pub calls: ConsumeCalls,
}

/// The packets of a batch that are to be retried; without an answer all of them.
pub open spec fn to_retry(
    batch: Seq<SharedPacket>,
    retryable: Option<Seq<usize>>,
) -> Seq<SharedPacket> {
    match retryable {
        Some(places) => pick(batch, places),
        None => batch,
    }
}

/// One step of the processing of votes: a packet is looked at, or a batch is processed, after
/// which the votes to retry are put back in, unless their validators sent a later one. A packet is
/// sanitized once, and a batch is given to the processing function once.
pub open spec fn vote_process_step<
    S: FnMut(&SharedPacket) -> Option<SanitizedTransaction>,
    P: FnMut(&SanitizedTransaction) -> bool,
    F: FnMut(&Vec<SharedPacket>, ConsumeScannerPayload) -> (Option<Vec<usize>>, ConsumeScannerPayload),
>(
    sanitize: S,
    check_fee_payer: P,
    processing_function: F,
    limits: ConsumeLimits,
    staked: Seq<Pubkey>,
    deprecate_legacy_vote_ixs: bool,
    packets: Seq<SharedPacket>,
    before: VoteProcessState,
    after: VoteProcessState,
) -> bool {
    match before.scan.action() {
        ScanAction::Examine(place) => exists|decision: ProcessingDecision|
            {
                &&& #[trigger] examine_step(
                    sanitize,
                    check_fee_payer,
                    limits,
                    packets[place as int],
                    (before.payload, Stored::empty(), before.calls.scan),
                    decision,
                    (after.payload, Stored::empty(), after.calls.scan),
                )
                &&& after.scan == before.scan.decided(decision)
                &&& after.votes == before.votes
                &&& after.calls.batches == before.calls.batches
            },
        ScanAction::Process => exists|retryable: Option<Seq<usize>>, returned: Payload|
            {
                &&& #[trigger] batch_processed_by(
                    processing_function,
                    pick(packets, before.scan.batch()),
                    before.payload,
                    retryable,
                    returned,
                )
                &&& after == (VoteProcessState {
                    scan: before.scan.next_batch(),
                    payload: returned,
                    votes: Insertion::start(before.votes).insert_all(
                        staked,
                        votes_in(
                            to_retry(pick(packets, before.scan.batch()), retryable),
                            VoteSource::Tpu,
                            deprecate_legacy_vote_ixs,
                        ),
                        true,
                    ).votes,
                    calls: ConsumeCalls {
                        batches: before.calls.batches.push(
                            BatchCall {
                                batch: pick(packets, before.scan.batch()),
                                given: before.payload,
                                retryable,
                                returned,
                            },
                        ),
                        ..before.calls
                    },
                })
            },
        ScanAction::Finish => false,
    }
}

/// Steps of the processing of votes, one after the other.
pub open spec fn vote_process_run<
    S: FnMut(&SharedPacket) -> Option<SanitizedTransaction>,
    P: FnMut(&SanitizedTransaction) -> bool,
    F: FnMut(&Vec<SharedPacket>, ConsumeScannerPayload) -> (Option<Vec<usize>>, ConsumeScannerPayload),
>(
    sanitize: S,
    check_fee_payer: P,
    processing_function: F,
    limits: ConsumeLimits,
    staked: Seq<Pubkey>,
    deprecate_legacy_vote_ixs: bool,
    packets: Seq<SharedPacket>,
    states: Seq<VoteProcessState>,
) -> bool {
    &&& states.len() > 0
    &&& forall|i: int|
        0 <= i < states.len() - 1 ==> vote_process_step(
            sanitize,
            check_fee_payer,
            processing_function,
            limits,
            staked,
            deprecate_legacy_vote_ixs,
            packets,
            #[trigger] states[i],
            states[i + 1],
        )
}

/// The places that are named lie in a batch of the given length.
pub open spec fn places_in_batch(len: nat, retryable: Option<Vec<usize>>) -> bool {
    retryable matches Some(places) ==> forall|i: int|
        0 <= i < places@.len() ==> #[trigger] places@[i] < len
}

/// The votes of a vote thread.
#[derive(Debug)]
pub struct VoteStorage {
    pub latest_unprocessed_votes: LatestUnprocessedVotes,
    pub vote_source: VoteSource,
}

impl VoteStorage {
    pub open spec fn wf(&self) -> bool {
        self.latest_unprocessed_votes.wf()
    }

    pub open spec fn votes(&self) -> Seq<LatestValidatorVotePacket> {
        self.latest_unprocessed_votes.votes()
    }

    /// Everything but the votes is as in the other.
    pub open spec fn same_rules(&self, other: &VoteStorage) -> bool {
        &&& self.vote_source == other.vote_source
        &&& self.latest_unprocessed_votes.same_rules(&other.latest_unprocessed_votes)
    }

    /// Putting the votes among the packets in leads to the other state.
    pub open spec fn inserts(
        &self,
        packets: Seq<ImmutableDeserializedPacket>,
        after: &VoteStorage,
        metrics: VoteBatchInsertionMetrics,
    ) -> bool {
        &&& after.same_rules(self)
        &&& exists|shared: Seq<SharedPacket>|
            #[trigger] shares(shared, packets) && Insertion::start(self.votes()).insert_all(
                self.latest_unprocessed_votes.staked@,
                votes_in(
                    shared,
                    self.vote_source,
                    self.latest_unprocessed_votes.deprecate_legacy_vote_ixs,
                ),
                false,
            ) == (Insertion {
                votes: after.votes(),
                dropped_gossip: metrics.num_dropped_gossip as nat,
                dropped_tpu: metrics.num_dropped_tpu as nat,
            })
    }

    /// A forwarding pass over the votes leads to the other state.
    pub open spec fn forwards<
        T,
        S: FnMut(&SharedPacket) -> Option<T>,
        A: FnMut(&T, &SharedPacket) -> bool,
    >(
        &self,
        order: Seq<Pubkey>,
        sanitize: S,
        try_add: A,
        calls: VoteCalls<T>,
        after: &VoteStorage,
        results: FilterForwardingResults,
        calls_after: VoteCalls<T>,
    ) -> bool {
        &&& after.same_rules(self)
        &&& results == (FilterForwardingResults {
            total_forwardable_packets: results.total_forwardable_packets,
            total_dropped_packets: 0,
            total_packet_conversion_us: 0,
            total_filter_packets_us: 0,
        })
        &&& match self.vote_source {
            VoteSource::Tpu => exists|states: Seq<VoteForwarding<T>>|
                {
                    &&& #[trigger] vote_forward_run(sanitize, try_add, order, states)
                    &&& states.first() == vote_forward_start(self.votes(), calls)
                    &&& states.last().full || states.len() == order.len() + 1
                    &&& states.last().votes == after.votes()
                    &&& states.last().taken == results.total_forwardable_packets
                    &&& states.last().calls == calls_after
                },
            VoteSource::Gossip => after.votes() == self.votes()
                && results.total_forwardable_packets == 0 && calls_after == calls,
        }
    }

    /// Processing the waiting votes leads to the other state.
    pub open spec fn processes<
        S: FnMut(&SharedPacket) -> Option<SanitizedTransaction>,
        P: FnMut(&SanitizedTransaction) -> bool,
        F: FnMut(&Vec<SharedPacket>, ConsumeScannerPayload) -> (
            Option<Vec<usize>>,
            ConsumeScannerPayload,
        ),
    >(
        &self,
        order: Seq<Pubkey>,
        sanitize: S,
        check_fee_payer: P,
        processing_function: F,
        limits: ConsumeLimits,
        slot_metrics: SlotMetrics,
        calls: ConsumeCalls,
        after: &VoteStorage,
        reached_end_of_slot: bool,
        slot_metrics_after: SlotMetrics,
        calls_after: ConsumeCalls,
    ) -> bool {
        let (votes, packets) = drained(self.votes(), order);
        &&& after.same_rules(self)
        &&& exists|states: Seq<VoteProcessState>|
            {
                &&& #[trigger] vote_process_run(
                    sanitize,
                    check_fee_payer,
                    processing_function,
                    limits,
                    self.latest_unprocessed_votes.staked@,
                    self.latest_unprocessed_votes.deprecate_legacy_vote_ixs,
                    packets,
                    states,
                )
                &&& states.first() == vote_process_start(
                    packets.len(),
                    votes,
                    slot_metrics,
                    calls,
                )
                &&& states.last().scan.action() is Finish
                &&& states.last().votes == after.votes()
                &&& states.last().payload.reached_end_of_slot == reached_end_of_slot
                &&& states.last().payload.slot_metrics == slot_metrics_after
                &&& states.last().calls == calls_after
            }
    }

    /// Taking over the stakes of an epoch leads to the other state.
    pub open spec fn caches(
        &self,
        epoch: u64,
        staked: Vec<Pubkey>,
        deprecate_legacy_vote_ixs: bool,
        after: &VoteStorage,
    ) -> bool {
        let votes = after.latest_unprocessed_votes;
        &&& after.vote_source == self.vote_source
        &&& if epoch <= self.latest_unprocessed_votes.current_epoch {
            votes == self.latest_unprocessed_votes
        } else {
            &&& votes.current_epoch == epoch
            &&& votes.staked == staked
            &&& votes.deprecate_legacy_vote_ixs == deprecate_legacy_vote_ixs
            &&& votes.votes() == of_staked(self.votes(), staked@)
        }
    }

    /// Whether no vote waits for processing.
    pub fn is_empty(&self) -> (empty: bool)
        ensures
            empty == (present_count(self.votes()) == 0),
    {
        self.latest_unprocessed_votes.is_empty()
    }

    /// How many votes wait for processing.
    pub fn len(&self) -> (len: usize)
        ensures
            len == present_count(self.votes()),
    {
        self.latest_unprocessed_votes.len()
    }

    /// How many votes a receive call takes at most.
    pub fn max_receive_size(&self) -> (size: usize)
        ensures
            size == MAX_NUM_VOTES_RECEIVE,
    {
        MAX_NUM_VOTES_RECEIVE
    }

    /// Votes from the transaction port are passed on, those from gossip are not.
    pub fn forward_option(&self) -> (option: ForwardOption)
        ensures
            option == (match self.vote_source {
                VoteSource::Tpu => ForwardOption::ForwardTpuVote,
                VoteSource::Gossip => ForwardOption::NotForward,
            }),
    {
        match self.vote_source {
            VoteSource::Tpu => ForwardOption::ForwardTpuVote,
            VoteSource::Gossip => ForwardOption::NotForward,
        }
    }

    /// Drops the votes that need not be forwarded.
    pub fn clear_forwarded_packets(&mut self)
        requires
            old(self).wf(),
        ensures
            final(self).wf(),
            final(self).same_rules(old(self)),
            final(self).votes() == without_forwarded(old(self).votes()),
    {
        self.latest_unprocessed_votes.clear_forwarded_packets();
    }

    /// Puts the votes among the packets in; other packets are ignored.
    pub fn insert_batch(&mut self, deserialized_packets: Vec<ImmutableDeserializedPacket>) -> (metrics:
        VoteBatchInsertionMetrics)
        requires
            old(self).wf(),
        ensures
            final(self).wf(),
            old(self).inserts(deserialized_packets@, final(self), metrics),
            metrics.num_dropped_gossip + metrics.num_dropped_tpu <= deserialized_packets@.len(),
    {
        let ghost all = deserialized_packets@;
        let mut packets: Vec<SharedPacket> = Vec::new();
        for packet in iter: deserialized_packets
            invariant
                iter.seq() == all,
                shares(packets@, all.take(iter.index() as int)),
        {
            let ghost before = packets@;
            packets.push(Arc::new(packet));
            assert forall|i: int| 0 <= i < packets@.len() implies *(#[trigger] packets@[i])
                == all.take(iter.index() + 1)[i] by {
                if i < before.len() {
                    assert(packets@[i] == before[i]);
                    assert(*before[i] == all.take(iter.index() as int)[i]);
                }
            }
        }
        proof {
            assert(all.take(all.len() as int) =~= all);
            lemma_votes_in_len(
                packets@,
                self.vote_source,
                self.latest_unprocessed_votes.deprecate_legacy_vote_ixs,
            );
        }
        let votes = collect_votes(
            packets,
            self.vote_source,
            self.latest_unprocessed_votes.should_deprecate_legacy_vote_ixs(),
        );
        self.latest_unprocessed_votes.insert_batch(votes, false)
    }

    /// Offers the votes of the transaction port to the forward buffer, in the given order of their
    /// validators. Votes from gossip are not passed on.
    pub fn filter_forwardable_packets_and_add_batches<
        T,
        S: FnMut(&SharedPacket) -> Option<T>,
        A: FnMut(&T, &SharedPacket) -> bool,
    >(
        &mut self,
        order: &Vec<Pubkey>,
        sanitize: &mut Inquiry<SharedPacket, Option<T>, S>,
        try_add: &mut PairInquiry<T, SharedPacket, bool, A>,
    ) -> (results: FilterForwardingResults)
        requires
            old(self).wf(),
            old(sanitize).takes_all(),
            old(try_add).takes_all(),
        ensures
            final(sanitize).function() == old(sanitize).function(),
            final(try_add).function() == old(try_add).function(),
            final(self).wf(),
            old(self).forwards(
                order@,
                old(sanitize).function(),
                old(try_add).function(),
                vote_calls(old(sanitize), old(try_add)),
                final(self),
                results,
                vote_calls(final(sanitize), final(try_add)),
            ),
    {
        let mut results = FilterForwardingResults::default();
        if self.vote_source == VoteSource::Tpu {
            results.total_forwardable_packets =
            self.latest_unprocessed_votes.get_and_insert_forwardable_packets(
                order,
                sanitize,
                try_add,
            );
        }
        results
    }

    /// Takes the waiting votes in the given order of their validators, forms batches of them and
    /// gives them to the processing function; the votes that it names for a retry are put back in,
    /// or all of the batch where it names nothing. The result says whether the end of the slot was
    /// reached. The time that sanitizing takes is counted. Only the thread of the transaction port
    /// processes votes.
    pub fn process_packets<
        S: FnMut(&SharedPacket) -> Option<SanitizedTransaction>,
        P: FnMut(&SanitizedTransaction) -> bool,
        F: FnMut(&Vec<SharedPacket>, ConsumeScannerPayload) -> (
            Option<Vec<usize>>,
            ConsumeScannerPayload,
        ),
    >(
        &mut self,
        order: &Vec<Pubkey>,
        sanitize: &mut Inquiry<SharedPacket, Option<SanitizedTransaction>, S>,
        check_fee_payer: &mut Inquiry<SanitizedTransaction, bool, P>,
        processing_function: &mut BatchProcessing<F>,
        limits: &ConsumeLimits,
        slot_metrics: &mut SlotMetrics,
    ) -> (reached_end_of_slot: bool)
        requires
            old(self).wf(),
            old(self).vote_source == VoteSource::Tpu,
            old(sanitize).takes_all(),
            old(check_fee_payer).takes_all(),
            old(processing_function).takes_all(),
            forall|
                batch: &Vec<SharedPacket>,
                payload: ConsumeScannerPayload,
                answer: (Option<Vec<usize>>, ConsumeScannerPayload),
            |
                call_ensures(old(processing_function).function(), (batch, payload), answer)
                    ==> places_in_batch(batch@.len(), answer.0),
        ensures
            final(sanitize).function() == old(sanitize).function(),
            final(check_fee_payer).function() == old(check_fee_payer).function(),
            final(processing_function).function() == old(processing_function).function(),
            final(self).wf(),
            old(self).processes(
                order@,
                old(sanitize).function(),
                old(check_fee_payer).function(),
                old(processing_function).function(),
                *limits,
                *old(slot_metrics),
                calls_of_consume(old(sanitize), old(check_fee_payer), old(processing_function)),
                final(self),
                reached_end_of_slot,
                *final(slot_metrics),
                calls_of_consume(
                    final(sanitize),
                    final(check_fee_payer),
                    final(processing_function),
                ),
            ),
    {
        let ghost sanitize0 = sanitize.function();
        let ghost check0 = check_fee_payer.function();
        let ghost function0 = processing_function.function();
        let ghost calls = calls_of_consume(sanitize, check_fee_payer, processing_function);
        let ghost staked = self.latest_unprocessed_votes.staked@;
        let deprecate_legacy_vote_ixs =
            self.latest_unprocessed_votes.should_deprecate_legacy_vote_ixs();
        let all_vote_packets = self.latest_unprocessed_votes.drain_unprocessed(order);
        let total: usize = all_vote_packets.len();
        let ghost packets = all_vote_packets@;
        let (mut scanner, mut payload) = create_consume_multi_iterator(total, *slot_metrics);
        // Votes are not held in a map from which a dropped one would have to leave.
        let mut no_packets = PacketMap::new();
        let ghost start = vote_process_start(
            packets.len(),
            self.votes(),
            *slot_metrics,
            calls,
        );
        let ghost mut states: Seq<VoteProcessState> = seq![start];
        let mut action = scanner.action();
        while action != ScanAction::Finish
            invariant
                packets == all_vote_packets@,
                packets.len() == total,
                sanitize.function() == sanitize0,
                check_fee_payer.function() == check0,
                processing_function.function() == function0,
                sanitize.takes_all(),
                check_fee_payer.takes_all(),
                processing_function.takes_all(),
                forall|
                    batch: &Vec<SharedPacket>,
                    payload: ConsumeScannerPayload,
                    answer: (Option<Vec<usize>>, ConsumeScannerPayload),
                |
                    call_ensures(function0, (batch, payload), answer) ==> places_in_batch(
                        batch@.len(),
                        answer.0,
                    ),
                self.wf(),
                self.vote_source == VoteSource::Tpu,
                self.same_rules(old(self)),
                staked == self.latest_unprocessed_votes.staked@,
                deprecate_legacy_vote_ixs
                    == self.latest_unprocessed_votes.deprecate_legacy_vote_ixs,
                no_packets.wf(),
                no_packets@ == Stored::empty(),
                scanner@.wf(),
                scanner@.handled.len() == packets.len(),
                vote_process_run(
                    sanitize0,
                    check0,
                    function0,
                    *limits,
                    staked,
                    deprecate_legacy_vote_ixs,
                    packets,
                    states,
                ),
                states.first() == start,
                states.last() == (VoteProcessState {
                    scan: scanner@,
                    payload: payload@,
                    votes: self.votes(),
                    calls: calls_of_consume(sanitize, check_fee_payer, processing_function),
                }),
                action == scanner@.action(),
            decreases
                unhandled_count(scanner@.handled),
                scanner@.iterator,
                scanner@.handled.len() - scanner@.cursor,
        {
            let ghost before = states.last();
            match action {
                ScanAction::Examine(place) => {
                    proof {
                        lemma_next_unhandled(scanner@.handled, scanner@.cursor as int);
                    }
                    let decision = consume_scan_should_process_packet(
                        sanitize,
                        check_fee_payer,
                        &all_vote_packets[place],
                        &mut payload,
                        &mut no_packets,
                        limits,
                    );
                    proof {
                        assert(no_packets@ =~= Stored::empty());
                        lemma_decided(scanner@, decision);
                    }
                    scanner.decide(place, decision);
                },
                _ => {
                    let places = scanner.batch();
                    let vote_packets = Self::packets_at(&all_vote_packets, &places);
                    proof {
                        lemma_next_batch(scanner@);
                    }
                    let (retryable, returned) = processing_function.process(
                        &vote_packets,
                        payload,
                    );
                    payload = returned;
                    assert(batch_processed_by(
                        function0,
                        pick(packets, before.scan.batch()),
                        before.payload,
                        index_view(retryable),
                        payload@,
                    ));
                    let to_retry = match retryable {
                        Some(retryable_vote_indices) => Self::packets_at(
                            &vote_packets,
                            &retryable_vote_indices,
                        ),
                        None => vote_packets,
                    };
                    let votes = collect_votes(
                        to_retry,
                        self.vote_source,
                        deprecate_legacy_vote_ixs,
                    );
                    let _metrics = self.latest_unprocessed_votes.insert_batch(votes, true);
                    scanner.next_batch();
                },
            }
            proof {
                let after = VoteProcessState {
                    scan: scanner@,
                    payload: payload@,
                    votes: self.votes(),
                    calls: calls_of_consume(sanitize, check_fee_payer, processing_function),
                };
                assert(vote_process_step(
                    sanitize0,
                    check0,
                    function0,
                    *limits,
                    staked,
                    deprecate_legacy_vote_ixs,
                    packets,
                    before,
                    after,
                ));
                let previous = states;
                states = states.push(after);
                assert forall|i: int| 0 <= i < states.len() - 1 implies vote_process_step(
                    sanitize0,
                    check0,
                    function0,
                    *limits,
                    staked,
                    deprecate_legacy_vote_ixs,
                    packets,
                    #[trigger] states[i],
                    states[i + 1],
                ) by {
                    assert(states[i] == previous[i]);
                    if i < previous.len() - 1 {
                        assert(states[i + 1] == previous[i + 1]);
                    }
                }
            }
            action = scanner.action();
        }
        assert(vote_process_run(
            sanitize0,
            check0,
            function0,
            *limits,
            old(self).latest_unprocessed_votes.staked@,
            old(self).latest_unprocessed_votes.deprecate_legacy_vote_ixs,
            drained(old(self).votes(), order@).1,
            states,
        ));
        *slot_metrics = payload.slot_metrics;
        payload.reached_end_of_slot
    }

    /// The packets at the given places.
    fn packets_at(packets: &Vec<SharedPacket>, places: &Vec<usize>) -> (picked:
        Vec<SharedPacket>)
        requires
            forall|i: int| 0 <= i < places@.len() ==> #[trigger] places@[i] < packets@.len(),
        ensures
            picked@ == pick(packets@, places@),
    {
        let mut picked: Vec<SharedPacket> = Vec::new();
        let mut i: usize = 0;
        while i < places.len()
            invariant
                i <= places@.len(),
                forall|k: int| 0 <= k < places@.len() ==> #[trigger] places@[k] < packets@.len(),
                picked@ == pick(packets@, places@.take(i as int)),
            decreases places.len() - i,
        {
            picked.push(Arc::clone(&packets[places[i]]));
            i += 1;
            assert(picked@ =~= pick(packets@, places@.take(i as int)));
        }
        assert(places@.take(i as int) =~= places@);
        picked
    }

    /// Takes over the stakes of a new epoch. Only the thread of the transaction port does so.
    pub fn cache_epoch_boundary_info(
        &mut self,
        epoch: u64,
        staked: Vec<Pubkey>,
        deprecate_legacy_vote_ixs: bool,
    )
        requires
            old(self).wf(),
            old(self).vote_source == VoteSource::Tpu,
        ensures
            final(self).wf(),
            old(self).caches(epoch, staked, deprecate_legacy_vote_ixs, final(self)),
    {
        self.latest_unprocessed_votes.cache_epoch_boundary_info(
            epoch,
            staked,
            deprecate_legacy_vote_ixs,
        );
    }
}

/// Where the processing of `len` votes starts.
pub open spec fn vote_process_start(
    len: nat,
    votes: Seq<LatestValidatorVotePacket>,
    slot_metrics: SlotMetrics,
    calls: ConsumeCalls,
) -> VoteProcessState {
    VoteProcessState {
        scan: Scan::start(len, UNPROCESSED_BUFFER_STEP_SIZE as nat),
        payload: no_payload(slot_metrics),
        votes,
        calls,
    }
}

/// The shared packets are the packets.
pub open spec fn shares(
    shared: Seq<SharedPacket>,
    packets: Seq<ImmutableDeserializedPacket>,
) -> bool {
    &&& shared.len() == packets.len()
    &&& forall|i: int| 0 <= i < shared.len() ==> *(#[trigger] shared[i]) == packets[i]
}

/// There are no more votes than packets.
proof fn lemma_votes_in_len(
    packets: Seq<SharedPacket>,
    vote_source: VoteSource,
    deprecate_legacy_vote_ixs: bool,
)
    ensures
        votes_in(packets, vote_source, deprecate_legacy_vote_ixs).len() <= packets.len(),
    decreases packets.len(),
{
    if packets.len() > 0 {
        let shorter = packets.drop_last();
        lemma_votes_in_len(shorter, vote_source, deprecate_legacy_vote_ixs);
        assert(Seq::new(
            packets.len(),
            |i: int| vote_in(packets[i], vote_source, deprecate_legacy_vote_ixs),
        ).drop_last() =~= Seq::new(
            shorter.len(),
            |i: int| vote_in(shorter[i], vote_source, deprecate_legacy_vote_ixs),
        ));
    }
}

} // verus!
