//! What holds of every packet that is looked at and of every batch that is processed.

use vstd::prelude::*;

use crate::account_locks::{names, SanitizedTransaction};
use crate::consume::{
    answers_of, batch_keys, batch_processed_by, consume_scan_should_process_packet,
    create_consume_multi_iterator, examine_step, lemma_finish, lemma_run_inv, process_inv,
    process_run, process_start, process_step, processed, proper_places, scan_calls, scan_decision,
    scan_payload, scan_stored, waiting, ConsumeCalls, ConsumeLimits, ConsumeScannerPayload, Payload,
    ProcessState, ScanAnswers, ScanCalls,
};
use crate::key_lists::{
    dropped_runs, hash_in_runs, lemma_dropped_runs, lemma_queue_to_list, list_matches,
};
use crate::keys::{MessageHash, Pubkey};
use crate::metrics::SlotMetrics;
use crate::packet::{spec_hash_of, PacketKey, SharedPacket};
use crate::packet_map::PacketMap;
use crate::packet_queue::descending;
use crate::retention::{in_gaps, pick};
use crate::scanner::{MultiIteratorScanner, ProcessingDecision, ScanAction};
use crate::services::{BatchCall, BatchProcessing, Inquiry};
use crate::thread_local_packets::ThreadLocalUnprocessedPackets;
use crate::unprocessed_packet_batches::{has_hash, is_stored, packets_of, Stored};

verus! {

/// The answers that a packet was decided on.
proof fn lemma_answers<
    S: FnMut(&SharedPacket) -> Option<SanitizedTransaction>,
    P: FnMut(&SanitizedTransaction) -> bool,
>(
    sanitize: S,
    check_fee_payer: P,
    limits: ConsumeLimits,
    packet: SharedPacket,
    before: (Payload, Stored, ScanCalls),
    decision: ProcessingDecision,
    after: (Payload, Stored, ScanCalls),
) -> (answers: ScanAnswers)
    requires
        examine_step(sanitize, check_fee_payer, limits, packet, before, decision, after),
    ensures
        answers_of(sanitize, check_fee_payer, limits, packet, before.0, answers),
        decision == scan_decision(limits, before.0, answers),
        after.0 == scan_payload(limits, before.0, answers, decision),
        after.1 == scan_stored(before.1, packet.spec_key(), decision),
        after.2 == scan_calls(before.2, limits, packet, before.0, answers),
{
    choose|answers: ScanAnswers|
        {
            &&& #[trigger] answers_of(
                sanitize,
                check_fee_payer,
                limits,
                packet,
                before.0,
                answers,
            )
            &&& decision == scan_decision(limits, before.0, answers)
            &&& after.0 == scan_payload(limits, before.0, answers, decision)
            &&& after.1 == scan_stored(before.1, packet.spec_key(), decision)
            &&& after.2 == scan_calls(before.2, limits, packet, before.0, answers)
        }
}

/// A transaction that joins a batch or waits for a later one names no blacklisted account at any
/// place, names no account twice, and names no more accounts than may be locked.
pub proof fn law_no_batch_names_a_blacklisted_account<
    S: FnMut(&SharedPacket) -> Option<SanitizedTransaction>,
    P: FnMut(&SanitizedTransaction) -> bool,
>(
    sanitize: S,
    check_fee_payer: P,
    limits: ConsumeLimits,
    packet: SharedPacket,
    before: (Payload, Stored, ScanCalls),
    decision: ProcessingDecision,
    after: (Payload, Stored, ScanCalls),
)
    requires
        examine_step(sanitize, check_fee_payer, limits, packet, before, decision, after),
        !before.0.reached_end_of_slot,
        decision == ProcessingDecision::Now || decision == ProcessingDecision::Later,
    ensures
        ({
            let answer = after.2.sanitized.last();
            &&& answer.0 == packet
            &&& call_ensures(sanitize, (&packet,), answer.1)
            &&& answer.1 matches Some(transaction) && {
                let accounts = transaction.accounts@;
                &&& accounts.len() <= limits.transaction_account_lock_limit
                &&& forall|i: int|
                    0 <= i < accounts.len() ==> !limits.blacklisted_accounts@.contains(
                        (#[trigger] accounts[i]).pubkey,
                    )
                &&& forall|i: int, j: int|
                    0 <= i < j < accounts.len() ==> (#[trigger] accounts[i]).pubkey != (
                    #[trigger] accounts[j]).pubkey
            }
        }),
{
    let answers = lemma_answers(
        sanitize,
        check_fee_payer,
        limits,
        packet,
        before,
        decision,
        after,
    );
    let accounts = answers.sanitized->0.accounts@;
    assert(!limits.rejects(accounts));
}

/// Before the end of the slot a packet is sanitized once, and its transaction decides. One that does
/// not sanitize, names too many accounts, one twice or a blacklisted one is dropped. One that needs an
/// account that is locked for writing, or writes one that is locked, waits. Of any other the fee payer
/// is asked about, once: it joins the batch where the fee payer can pay, and is dropped otherwise.
pub proof fn law_transaction_decides<
    S: FnMut(&SharedPacket) -> Option<SanitizedTransaction>,
    P: FnMut(&SanitizedTransaction) -> bool,
>(
    sanitize: S,
    check_fee_payer: P,
    limits: ConsumeLimits,
    packet: SharedPacket,
    before: (Payload, Stored, ScanCalls),
    decision: ProcessingDecision,
    after: (Payload, Stored, ScanCalls),
)
    requires
        examine_step(sanitize, check_fee_payer, limits, packet, before, decision, after),
        !before.0.reached_end_of_slot,
    ensures
        after.2.sanitized.len() == before.2.sanitized.len() + 1,
        after.2.sanitized.drop_last() == before.2.sanitized,
        after.2.sanitized.last().0 == packet,
        call_ensures(sanitize, (&packet,), after.2.sanitized.last().1),
        match after.2.sanitized.last().1 {
            None => decision == ProcessingDecision::Never && after.2.fee_payers
                == before.2.fee_payers,
            Some(transaction) => {
                let accounts = transaction.accounts@;
                let locks = before.0.locks;
                let is_refused = {
                    ||| accounts.len() > limits.transaction_account_lock_limit
                    ||| exists|i: int, j: int|
                        0 <= i < j < accounts.len() && (#[trigger] accounts[i]).pubkey == (
                        #[trigger] accounts[j]).pubkey
                    ||| exists|i: int|
                        0 <= i < accounts.len() && limits.blacklisted_accounts@.contains(
                            (#[trigger] accounts[i]).pubkey,
                        )
                };
                let is_held_up = exists|i: int|
                    0 <= i < accounts.len() && (locks.writes.contains(
                        (#[trigger] accounts[i]).pubkey,
                    ) || (accounts[i].is_writable && locks.reads.contains(accounts[i].pubkey)));
                if is_refused {
                    decision == ProcessingDecision::Never && after.2.fee_payers
                        == before.2.fee_payers
                } else if is_held_up {
                    decision == ProcessingDecision::Later && after.2.fee_payers
                        == before.2.fee_payers
                } else {
                    let answer = after.2.fee_payers.last();
                    &&& after.2.fee_payers.len() == before.2.fee_payers.len() + 1
                    &&& after.2.fee_payers.drop_last() == before.2.fee_payers
                    &&& answer.0 == transaction
                    &&& call_ensures(check_fee_payer, (&transaction,), answer.1)
                    &&& decision == if answer.1 {
                        ProcessingDecision::Now
                    } else {
                        ProcessingDecision::Never
                    }
                }
            },
        },
{
    let answers = lemma_answers(
        sanitize,
        check_fee_payer,
        limits,
        packet,
        before,
        decision,
        after,
    );
    assert(after.2.sanitized.drop_last() =~= before.2.sanitized);
    if answers.sanitized is Some {
        let accounts = answers.sanitized->0.accounts@;
        let locks = before.0.locks;
        if limits.rejects(accounts) {
        } else if locks.allows_all(accounts) {
            assert(after.2.fee_payers.drop_last() =~= before.2.fee_payers);
            assert forall|i: int| 0 <= i < accounts.len() implies !(locks.writes.contains(
                (#[trigger] accounts[i]).pubkey,
            ) || (accounts[i].is_writable && locks.reads.contains(accounts[i].pubkey))) by {
                assert(locks.allows(accounts[i]));
            }
        } else {
            let i = choose|i: int| 0 <= i < accounts.len() && !locks.allows(#[trigger] accounts[i]);
            assert(locks.writes.contains(accounts[i].pubkey) || (accounts[i].is_writable
                && locks.reads.contains(accounts[i].pubkey)));
        }
    }
}

/// A packet that is dropped leaves the map, and nothing else does; it takes no lock and joins no
/// batch. A fee payer that cannot pay is counted.
pub proof fn law_dropped_packet_leaves<
    S: FnMut(&SharedPacket) -> Option<SanitizedTransaction>,
    P: FnMut(&SanitizedTransaction) -> bool,
>(
    sanitize: S,
    check_fee_payer: P,
    limits: ConsumeLimits,
    packet: SharedPacket,
    before: (Payload, Stored, ScanCalls),
    decision: ProcessingDecision,
    after: (Payload, Stored, ScanCalls),
)
    requires
        examine_step(sanitize, check_fee_payer, limits, packet, before, decision, after),
        decision == ProcessingDecision::Never,
    ensures
        !after.1.contains_key(packet.message_hash),
        forall|hash: MessageHash|
            hash != packet.message_hash ==> (#[trigger] after.1.contains_key(hash)
                <==> before.1.contains_key(hash)),
        forall|hash: MessageHash| #[trigger]
            after.1.contains_key(hash) ==> after.1[hash] == before.1[hash],
        after.0.locks == before.0.locks,
        after.0.transactions == before.0.transactions,
        !after.0.reached_end_of_slot,
        before.0.error_counters.fee_payer < usize::MAX ==> after.0.error_counters.fee_payer
            == before.0.error_counters.fee_payer + (after.2.fee_payers.len()
            - before.2.fee_payers.len()),
        after.0.slot_metrics.transactions_from_packets_us
            >= before.0.slot_metrics.transactions_from_packets_us,
{
    let answers = lemma_answers(
        sanitize,
        check_fee_payer,
        limits,
        packet,
        before,
        decision,
        after,
    );
}

/// A transaction that is not dropped takes its locks, whether it joins the batch or waits: what it
/// writes is locked for writing and what it reads for reading, what was locked stays locked, and
/// nothing else is. The map stays as it is. The transaction is added to the batch just where it
/// joins it.
pub proof fn law_kept_transaction_takes_its_locks<
    S: FnMut(&SharedPacket) -> Option<SanitizedTransaction>,
    P: FnMut(&SanitizedTransaction) -> bool,
>(
    sanitize: S,
    check_fee_payer: P,
    limits: ConsumeLimits,
    packet: SharedPacket,
    before: (Payload, Stored, ScanCalls),
    decision: ProcessingDecision,
    after: (Payload, Stored, ScanCalls),
)
    requires
        examine_step(sanitize, check_fee_payer, limits, packet, before, decision, after),
        !before.0.reached_end_of_slot,
        decision != ProcessingDecision::Never,
    ensures
        after.1 == before.1,
        after.2.sanitized.last().1 matches Some(transaction) && {
            let accounts = transaction.accounts@;
            let locks = before.0.locks;
            let locks_after = after.0.locks;
            &&& forall|i: int|
                0 <= i < accounts.len() ==> if (#[trigger] accounts[i]).is_writable {
                    locks_after.writes.contains(accounts[i].pubkey)
                } else {
                    locks_after.reads.contains(accounts[i].pubkey)
                }
            &&& forall|key: Pubkey| #[trigger]
                locks.writes.contains(key) ==> locks_after.writes.contains(key)
            &&& forall|key: Pubkey| #[trigger]
                locks.reads.contains(key) ==> locks_after.reads.contains(key)
            &&& forall|key: Pubkey| #[trigger]
                locks_after.writes.contains(key) ==> locks.writes.contains(key) || exists|i: int|
                    0 <= i < accounts.len() && (#[trigger] accounts[i]).pubkey == key
                        && accounts[i].is_writable
            &&& forall|key: Pubkey| #[trigger]
                locks_after.reads.contains(key) ==> locks.reads.contains(key) || exists|i: int|
                    0 <= i < accounts.len() && (#[trigger] accounts[i]).pubkey == key
                        && !accounts[i].is_writable
            &&& after.0.transactions == if decision == ProcessingDecision::Now {
                before.0.transactions.push(transaction)
            } else {
                before.0.transactions
            }
        },
        !after.0.reached_end_of_slot,
        after.0.error_counters == before.0.error_counters,
        after.0.slot_metrics.transactions_from_packets_us
            >= before.0.slot_metrics.transactions_from_packets_us,
{
    let answers = lemma_answers(
        sanitize,
        check_fee_payer,
        limits,
        packet,
        before,
        decision,
        after,
    );
    let accounts = answers.sanitized->0.accounts@;
    assert forall|i: int| 0 <= i < accounts.len() implies if (#[trigger] accounts[i]).is_writable {
        after.0.locks.writes.contains(accounts[i].pubkey)
    } else {
        after.0.locks.reads.contains(accounts[i].pubkey)
    } by {
        assert(names(accounts, accounts[i].pubkey, accounts[i].is_writable));
    }
    assert forall|key: Pubkey| #[trigger] after.0.locks.writes.contains(
        key,
    ) implies before.0.locks.writes.contains(key) || exists|i: int|
        0 <= i < accounts.len() && (#[trigger] accounts[i]).pubkey == key
            && accounts[i].is_writable by {
        if !before.0.locks.writes.contains(key) {
            assert(names(accounts, key, true));
            let i = choose|i: int|
                0 <= i < accounts.len() && (#[trigger] accounts[i]).pubkey == key
                    && accounts[i].is_writable == true;
            assert(accounts[i].pubkey == key && accounts[i].is_writable);
        }
    }
    assert forall|key: Pubkey| #[trigger] after.0.locks.reads.contains(
        key,
    ) implies before.0.locks.reads.contains(key) || exists|i: int|
        0 <= i < accounts.len() && (#[trigger] accounts[i]).pubkey == key
            && !accounts[i].is_writable by {
        if !before.0.locks.reads.contains(key) {
            assert(names(accounts, key, false));
            let i = choose|i: int|
                0 <= i < accounts.len() && (#[trigger] accounts[i]).pubkey == key
                    && accounts[i].is_writable == false;
            assert(accounts[i].pubkey == key && !accounts[i].is_writable);
        }
    }
}

/// At the end of the slot every packet joins the batch, nothing is asked, and nothing changes.
pub proof fn law_end_of_slot_asks_nothing<
    S: FnMut(&SharedPacket) -> Option<SanitizedTransaction>,
    P: FnMut(&SanitizedTransaction) -> bool,
>(
    sanitize: S,
    check_fee_payer: P,
    limits: ConsumeLimits,
    packet: SharedPacket,
    before: (Payload, Stored, ScanCalls),
    decision: ProcessingDecision,
    after: (Payload, Stored, ScanCalls),
)
    requires
        examine_step(sanitize, check_fee_payer, limits, packet, before, decision, after),
        before.0.reached_end_of_slot,
    ensures
        decision == ProcessingDecision::Now,
        after == before,
{
    let answers = lemma_answers(
        sanitize,
        check_fee_payer,
        limits,
        packet,
        before,
        decision,
        after,
    );
}

/// A batch is given to the processing function once, with the payload as it is, and what comes back
/// replaces the payload. Of its packets those that are named to be retried stay in the map and the
/// others leave it; where nothing is named at all, all of them stay. No other packet is touched.
#[verifier::spinoff_prover]
pub proof fn law_only_named_packets_of_a_batch_stay<
    S: FnMut(&SharedPacket) -> Option<SanitizedTransaction>,
    P: FnMut(&SanitizedTransaction) -> bool,
    F: FnMut(&Vec<SharedPacket>, ConsumeScannerPayload) -> (Option<Vec<usize>>, ConsumeScannerPayload),
>(
    sanitize: S,
    check_fee_payer: P,
    processing_function: F,
    limits: ConsumeLimits,
    keys: Seq<PacketKey>,
    before: ProcessState,
    after: ProcessState,
)
    requires
        process_step(
            sanitize,
            check_fee_payer,
            processing_function,
            limits,
            keys,
            before,
            after,
        ),
        before.scan.action() is Process,
        before.scan.wf(),
        before.scan.handled.len() == keys.len(),
        forall|a: int, b: int|
            0 <= a < b < keys.len() ==> (#[trigger] keys[a]).1 != (#[trigger] keys[b]).1 || keys[a].2
                != keys[b].2,
        forall|
            batch: &Vec<SharedPacket>,
            payload: ConsumeScannerPayload,
            answer: (Option<Vec<usize>>, ConsumeScannerPayload),
        |
            call_ensures(processing_function, (batch, payload), answer) ==> proper_places(
                batch@.len(),
                answer.0,
            ),
    ensures
        ({
            let places = before.scan.positions.take(before.scan.iterator as int);
            let hash_at = |i: int|
                MessageHash { hi: keys[places[i] as int].1, lo: keys[places[i] as int].2 };
            let call = after.calls.batches.last();
            &&& after.calls.batches.len() == before.calls.batches.len() + 1
            &&& after.calls.batches.drop_last() == before.calls.batches
            &&& after.calls.scan == before.calls.scan
            &&& call.given == before.payload
            &&& call.returned == after.payload
            &&& call.batch.len() == places.len()
            &&& forall|i: int|
                0 <= i < places.len() ==> #[trigger] call.batch[i] == before.stored[hash_at(
                    i,
                )].immutable_section
            &&& forall|i: int|
                #![trigger hash_at(i)]
                0 <= i < places.len() && before.stored.contains_key(hash_at(i)) ==> (
                after.stored.contains_key(hash_at(i)) <==> call.retryable is None
                    || call.retryable->0.contains(i as usize))
            &&& forall|hash: MessageHash| #[trigger]
                before.stored.contains_key(hash) && (forall|i: int|
                    0 <= i < places.len() ==> #[trigger] hash_at(i) != hash)
                    ==> after.stored.contains_key(hash)
            &&& forall|hash: MessageHash| #[trigger]
                after.stored.contains_key(hash) ==> before.stored.contains_key(hash)
                    && after.stored[hash] == before.stored[hash]
        }),
        after.scan == before.scan.next_batch(),
{
    let batch = batch_keys(keys, before.scan);
    let (retryable, returned) = choose|retryable: Option<Seq<usize>>, returned: Payload|
        {
            &&& #[trigger] batch_processed_by(
                processing_function,
                packets_of(before.stored, batch),
                before.payload,
                retryable,
                returned,
            )
            &&& after == processed(before, batch, retryable, returned)
        };
    let places = before.scan.positions.take(before.scan.iterator as int);
    let hash_at = |i: int|
        MessageHash { hi: keys[places[i] as int].1, lo: keys[places[i] as int].2 };
    assert(after.calls.batches.drop_last() =~= before.calls.batches);
    assert forall|i: int| 0 <= i < places.len() implies #[trigger] places[i] < keys.len() by {
        assert(places[i] == before.scan.positions[i]);
    }
    assert forall|i: int, j: int| 0 <= i < j < places.len() implies #[trigger] places[i]
        < #[trigger] places[j] by {
        assert(places[i] == before.scan.positions[i]);
        assert(places[j] == before.scan.positions[j]);
    }
    if retryable is Some {
        let named = retryable->0;
        let (given_batch, given, answer) = choose|
            given_batch: Vec<SharedPacket>,
            given: ConsumeScannerPayload,
            answer: (Option<Vec<usize>>, ConsumeScannerPayload),
        |
            {
                &&& #[trigger] call_ensures(processing_function, (&given_batch, given), answer)
                &&& given_batch@ == packets_of(before.stored, batch)
                &&& given@ == before.payload
                &&& crate::consume::index_view(answer.0) == retryable
                &&& answer.1@ == returned
            };
        assert(proper_places(given_batch@.len(), answer.0));
        assert(given_batch.len() == batch.len());
        assert(answer.0->0@ == named);
        let runs = dropped_runs(batch, named);
        lemma_dropped_runs(batch, named);
        assert forall|i: int|
            #![trigger hash_at(i)]
            0 <= i < places.len() && before.stored.contains_key(hash_at(i)) implies (
        after.stored.contains_key(hash_at(i)) <==> named.contains(i as usize)) by {
            assert(batch[i] == keys[places[i] as int]);
            assert(in_gaps(runs, i) <==> !named.contains(i as usize));
            if hash_in_runs(batch, runs, hash_at(i)) {
                let k = choose|k: int|
                    0 <= k < batch.len() && in_gaps(runs, k) && crate::packet::spec_hash_of(
                        #[trigger] batch[k],
                    ) == hash_at(i);
                assert(batch[k] == keys[places[k] as int]);
                if k < i {
                    assert(places[k] < places[i]);
                } else if i < k {
                    assert(places[i] < places[k]);
                }
                assert(k == i);
            }
        }
        assert forall|hash: MessageHash| #[trigger]
            before.stored.contains_key(hash) && (forall|i: int|
                0 <= i < places.len() ==> #[trigger] hash_at(i)
                    != hash) implies after.stored.contains_key(hash) by {
            if hash_in_runs(batch, runs, hash) {
                let k = choose|k: int|
                    0 <= k < batch.len() && in_gaps(runs, k) && crate::packet::spec_hash_of(
                        #[trigger] batch[k],
                    ) == hash;
                assert(batch[k] == keys[places[k] as int]);
                assert(hash_at(k) == hash);
            }
        }
    }
}

/// The packet at a place of a batch was named to be retried, or nothing was named at all.
pub open spec fn is_named(call: BatchCall, place: int) -> bool {
    call.retryable is None || call.retryable->0.contains(place as usize)
}

/// Some batch from the given one on holds a packet with the hash that was named to be retried.
pub open spec fn is_named_in(batches: Seq<BatchCall>, from: int, hash: MessageHash) -> bool {
    exists|b: int, k: int|
        #![trigger batches[b].batch[k]]
        from <= b < batches.len() && 0 <= k < batches[b].batch.len() && is_named(batches[b], k)
            && batches[b].batch[k].message_hash == hash
}

/// What was given back are the packets that were named to be retried.
#[verifier::spinoff_prover]
#[verifier::rlimit(40)]
proof fn lemma_named_packets<
    S: FnMut(&SharedPacket) -> Option<SanitizedTransaction>,
    P: FnMut(&SanitizedTransaction) -> bool,
    F: FnMut(&Vec<SharedPacket>, ConsumeScannerPayload) -> (Option<Vec<usize>>, ConsumeScannerPayload),
>(
    sanitize: S,
    check_fee_payer: P,
    processing_function: F,
    limits: ConsumeLimits,
    keys: Seq<PacketKey>,
    stored: Stored,
    slot_metrics: SlotMetrics,
    calls: ConsumeCalls,
    states: Seq<ProcessState>,
    n: int,
)
    requires
        list_matches(keys, stored),
        keys.len() <= usize::MAX,
        forall|
            batch: &Vec<SharedPacket>,
            payload: ConsumeScannerPayload,
            answer: (Option<Vec<usize>>, ConsumeScannerPayload),
        |
            call_ensures(processing_function, (batch, payload), answer) ==> proper_places(
                batch@.len(),
                answer.0,
            ),
        process_run(sanitize, check_fee_payer, processing_function, limits, keys, states),
        states.first() == process_start(keys.len(), stored, slot_metrics, calls),
        0 <= n < states.len(),
    ensures
        calls.batches.len() <= states[n].calls.batches.len(),
        forall|hash: MessageHash| #[trigger]
            has_hash(states[n].requeued, hash) <==> is_named_in(
                states[n].calls.batches,
                calls.batches.len() as int,
                hash,
            ),
    decreases n,
{
    let from = calls.batches.len() as int;
    if n == 0 {
        assert(states[0].calls.batches.len() == from);
    } else {
        lemma_named_packets(
            sanitize,
            check_fee_payer,
            processing_function,
            limits,
            keys,
            stored,
            slot_metrics,
            calls,
            states,
            n - 1,
        );
        lemma_run_inv(
            sanitize,
            check_fee_payer,
            processing_function,
            limits,
            keys,
            stored,
            slot_metrics,
            calls,
            states,
            n - 1,
        );
        let before = states[n - 1];
        let after = states[n];
        assert(process_step(
            sanitize,
            check_fee_payer,
            processing_function,
            limits,
            keys,
            states[n - 1],
            states[n],
        ));
        if before.scan.action() is Process {
            lemma_named_in_step(
                sanitize,
                check_fee_payer,
                processing_function,
                limits,
                keys,
                before,
                after,
                from,
            );
        }
    }
}

/// One batch more.
proof fn lemma_named_in_step<
    S: FnMut(&SharedPacket) -> Option<SanitizedTransaction>,
    P: FnMut(&SanitizedTransaction) -> bool,
    F: FnMut(&Vec<SharedPacket>, ConsumeScannerPayload) -> (Option<Vec<usize>>, ConsumeScannerPayload),
>(
    sanitize: S,
    check_fee_payer: P,
    processing_function: F,
    limits: ConsumeLimits,
    keys: Seq<PacketKey>,
    before: ProcessState,
    after: ProcessState,
    from: int,
)
    requires
        process_step(
            sanitize,
            check_fee_payer,
            processing_function,
            limits,
            keys,
            before,
            after,
        ),
        before.scan.action() is Process,
        process_inv(keys, before),
        0 <= from <= before.calls.batches.len(),
        forall|
            batch: &Vec<SharedPacket>,
            payload: ConsumeScannerPayload,
            answer: (Option<Vec<usize>>, ConsumeScannerPayload),
        |
            call_ensures(processing_function, (batch, payload), answer) ==> proper_places(
                batch@.len(),
                answer.0,
            ),
        forall|hash: MessageHash| #[trigger]
            has_hash(before.requeued, hash) <==> is_named_in(before.calls.batches, from, hash),
    ensures
        from <= after.calls.batches.len(),
        forall|hash: MessageHash| #[trigger]
            has_hash(after.requeued, hash) <==> is_named_in(after.calls.batches, from, hash),
{
    let batch = batch_keys(keys, before.scan);
    let (retryable, returned) = choose|retryable: Option<Seq<usize>>, returned: Payload|
        {
            &&& #[trigger] batch_processed_by(
                processing_function,
                packets_of(before.stored, batch),
                before.payload,
                retryable,
                returned,
            )
            &&& after == processed(before, batch, retryable, returned)
        };
    let last = before.calls.batches.len() as int;
    let call = after.calls.batches[last];
    let given_back = match retryable {
        Some(places) => pick(batch, places),
        None => batch,
    };
    assert(after.requeued == before.requeued + given_back);
    let (given_batch, given, answer) = choose|
        given_batch: Vec<SharedPacket>,
        given: ConsumeScannerPayload,
        answer: (Option<Vec<usize>>, ConsumeScannerPayload),
    |
        {
            &&& #[trigger] call_ensures(processing_function, (&given_batch, given), answer)
            &&& given_batch@ == packets_of(before.stored, batch)
            &&& given@ == before.payload
            &&& crate::consume::index_view(answer.0) == retryable
            &&& answer.1@ == returned
        };
    assert(proper_places(given_batch@.len(), answer.0));
    assert(given_batch.len() == batch.len());
    // The packets of the batch have the hashes of their keys.
    let all = before.requeued + batch + waiting(keys, before.scan.handled);
    assert forall|k: int| 0 <= k < batch.len() implies (#[trigger] call.batch[k]).message_hash
        == spec_hash_of(batch[k]) by {
        assert(all[before.requeued.len() + k] == batch[k]);
        assert(all.contains(batch[k]));
        assert(is_stored(before.stored, batch[k]));
    }
    assert forall|hash: MessageHash| #[trigger] has_hash(after.requeued, hash) <==> is_named_in(
        after.calls.batches,
        from,
        hash,
    ) by {
        if has_hash(after.requeued, hash) {
            let r = choose|r: int|
                0 <= r < after.requeued.len() && spec_hash_of(#[trigger] after.requeued[r]) == hash;
            if r < before.requeued.len() {
                assert(before.requeued[r] == after.requeued[r]);
                assert(has_hash(before.requeued, hash));
                let (b, k) = choose|b: int, k: int|
                    #![trigger before.calls.batches[b].batch[k]]
                    from <= b < before.calls.batches.len() && 0 <= k
                        < before.calls.batches[b].batch.len() && is_named(
                        before.calls.batches[b],
                        k,
                    ) && before.calls.batches[b].batch[k].message_hash == hash;
                assert(after.calls.batches[b] == before.calls.batches[b]);
                assert(after.calls.batches[b].batch[k].message_hash == hash);
            } else {
                let i = r - before.requeued.len();
                assert(given_back[i] == after.requeued[r]);
                let k = match retryable {
                    Some(places) => places[i] as int,
                    None => i,
                };
                if retryable is Some {
                    assert(answer.0->0@ == retryable->0);
                    assert(retryable->0[i] < batch.len());
                    assert(retryable->0.contains(k as usize));
                }
                assert(batch[k] == after.requeued[r]);
                assert(call.batch[k].message_hash == hash);
                assert(is_named(call, k));
                assert(after.calls.batches[last].batch[k].message_hash == hash);
            }
        }
        if is_named_in(after.calls.batches, from, hash) {
            let (b, k) = choose|b: int, k: int|
                #![trigger after.calls.batches[b].batch[k]]
                from <= b < after.calls.batches.len() && 0 <= k < after.calls.batches[b].batch.len()
                    && is_named(after.calls.batches[b], k)
                    && after.calls.batches[b].batch[k].message_hash == hash;
            if b < last {
                assert(before.calls.batches[b] == after.calls.batches[b]);
                assert(before.calls.batches[b].batch[k].message_hash == hash);
                assert(is_named_in(before.calls.batches, from, hash));
                assert(has_hash(before.requeued, hash));
                let r = choose|r: int|
                    0 <= r < before.requeued.len() && spec_hash_of(#[trigger] before.requeued[r])
                        == hash;
                assert(after.requeued[r] == before.requeued[r]);
            } else {
                assert(call.batch[k].message_hash == spec_hash_of(batch[k]));
                let i = match retryable {
                    Some(places) => choose|i: int| 0 <= i < places.len() && places[i] == k as usize,
                    None => k,
                };
                assert(given_back[i] == batch[k]);
                assert(after.requeued[before.requeued.len() + i] == batch[k]);
            }
        }
    }
}

/// What is left after all packets were processed: a packet is held afterwards just where the processing
/// function was given it in a batch and named it to be retried, or named nothing for that batch. What is
/// held was held before, unchanged.
pub proof fn law_processed_packets_stay_where_named<
    S: FnMut(&SharedPacket) -> Option<SanitizedTransaction>,
    P: FnMut(&SanitizedTransaction) -> bool,
    F: FnMut(&Vec<SharedPacket>, ConsumeScannerPayload) -> (Option<Vec<usize>>, ConsumeScannerPayload),
>(
    storage: &mut ThreadLocalUnprocessedPackets,
    sanitize: &mut Inquiry<SharedPacket, Option<SanitizedTransaction>, S>,
    check_fee_payer: &mut Inquiry<SanitizedTransaction, bool, P>,
    processing_function: &mut BatchProcessing<F>,
    limits: &ConsumeLimits,
    slot_metrics: &mut SlotMetrics,
    reached_end_of_slot: bool,
    hash: MessageHash,
)
    requires
        call_ensures(
            ThreadLocalUnprocessedPackets::process_packets::<S, P, F>,
            (storage, sanitize, check_fee_payer, processing_function, limits, slot_metrics),
            reached_end_of_slot,
        ),
        old(storage).wf(),
        forall|
            batch: &Vec<SharedPacket>,
            payload: ConsumeScannerPayload,
            answer: (Option<Vec<usize>>, ConsumeScannerPayload),
        |
            call_ensures(old(processing_function).function(), (batch, payload), answer)
                ==> proper_places(batch@.len(), answer.0),
        old(storage).leaves_nothing(
            old(sanitize).function(),
            old(check_fee_payer).function(),
            old(processing_function).function(),
            *limits,
        ),
    ensures
        final(storage).stored().contains_key(hash) <==> exists|b: int, k: int|
            #![trigger final(processing_function).log()[b].batch[k]]
            {
                let call = final(processing_function).log()[b];
                &&& old(processing_function).log().len() <= b < final(processing_function).log().len()
                &&& 0 <= k < call.batch.len()
                &&& call.retryable is None || call.retryable->0.contains(k as usize)
                &&& call.batch[k].message_hash == hash
            },
        final(storage).stored().contains_key(hash) ==> old(storage).stored().contains_key(hash),
{
    let before = *old(storage);
    let after = *final(storage);
    let calls = crate::consume::calls_of_consume(
        old(sanitize),
        old(check_fee_payer),
        old(processing_function),
    );
    let (keys, states) = choose|keys: Seq<PacketKey>, states: Seq<ProcessState>|
        {
            &&& keys.to_multiset() == before.unprocessed_packet_batches.queued()
            &&& descending(keys)
            &&& #[trigger] process_run(
                old(sanitize).function(),
                old(check_fee_payer).function(),
                old(processing_function).function(),
                *limits,
                keys,
                states,
            )
            &&& states.first() == process_start(
                keys.len(),
                before.stored(),
                *old(slot_metrics),
                calls,
            )
            &&& states.last().scan.action() is Finish
            &&& states.last().stored == after.stored()
            &&& states.last().payload.reached_end_of_slot == reached_end_of_slot
            &&& states.last().payload.slot_metrics == *final(slot_metrics)
            &&& states.last().calls == crate::consume::calls_of_consume(
                final(sanitize),
                final(check_fee_payer),
                final(processing_function),
            )
        };
    let queue = before.unprocessed_packet_batches.queued();
    before.unprocessed_packet_batches.lemma_wf();
    after.unprocessed_packet_batches.lemma_wf();
    lemma_queue_to_list(keys, queue, before.stored());
    keys.to_multiset_ensures();
    let n = states.len() - 1;
    lemma_run_inv(
        old(sanitize).function(),
        old(check_fee_payer).function(),
        old(processing_function).function(),
        *limits,
        keys,
        before.stored(),
        *old(slot_metrics),
        calls,
        states,
        n,
    );
    lemma_named_packets(
        old(sanitize).function(),
        old(check_fee_payer).function(),
        old(processing_function).function(),
        *limits,
        keys,
        before.stored(),
        *old(slot_metrics),
        calls,
        states,
        n,
    );
    lemma_finish(keys, states.last());
    let end = states.last();
    let batches = end.calls.batches;
    let from = calls.batches.len() as int;
    assert(batches == final(processing_function).log());
    assert(from == old(processing_function).log().len());
    assert(end.stored.contains_key(hash) <==> has_hash(end.requeued, hash)) by {
        if end.stored.contains_key(hash) {
            let key = end.stored[hash].spec_key();
            assert(end.stored[hash].hash() == hash);
            assert(is_stored(end.stored, key));
            assert(end.requeued.contains(key));
            let r = choose|r: int| 0 <= r < end.requeued.len() && end.requeued[r] == key;
            assert(spec_hash_of(end.requeued[r]) == hash);
        }
        if has_hash(end.requeued, hash) {
            let r = choose|r: int|
                0 <= r < end.requeued.len() && spec_hash_of(#[trigger] end.requeued[r]) == hash;
            assert(end.requeued.contains(end.requeued[r]));
            assert(is_stored(end.stored, end.requeued[r]));
        }
    }
    if end.stored.contains_key(hash) {
        let (b, k) = choose|b: int, k: int|
            #![trigger batches[b].batch[k]]
            from <= b < batches.len() && 0 <= k < batches[b].batch.len() && is_named(batches[b], k)
                && batches[b].batch[k].message_hash == hash;
        assert(final(processing_function).log()[b].batch[k].message_hash == hash);
        assert(end.stored.dom().contains(hash));
    }
    if exists|b: int, k: int|
        #![trigger batches[b].batch[k]]
        from <= b < batches.len() && 0 <= k < batches[b].batch.len() && (
        batches[b].retryable is None || batches[b].retryable->0.contains(k as usize))
            && batches[b].batch[k].message_hash == hash {
        let (b, k) = choose|b: int, k: int|
            #![trigger batches[b].batch[k]]
            from <= b < batches.len() && 0 <= k < batches[b].batch.len() && (
            batches[b].retryable is None || batches[b].retryable->0.contains(k as usize))
                && batches[b].batch[k].message_hash == hash;
        assert(is_named(batches[b], k));
        assert(is_named_in(batches, from, hash));
    }
}

/// A call that decides to process a packet now or later, before the end of the slot, has had its
/// transaction from `sanitize`, and the transaction names no blacklisted account at any place, no account
/// twice, and no more than may be locked. One that is processed now joins the batch, and its fee payer was
/// asked about and can pay.
pub proof fn law_call_lets_no_blacklisted_account_through<
    S: FnMut(&SharedPacket) -> Option<SanitizedTransaction>,
    P: FnMut(&SanitizedTransaction) -> bool,
>(
    sanitize: &mut Inquiry<SharedPacket, Option<SanitizedTransaction>, S>,
    check_fee_payer: &mut Inquiry<SanitizedTransaction, bool, P>,
    packet: &SharedPacket,
    payload: &mut ConsumeScannerPayload,
    message_hash_to_transaction: &mut PacketMap,
    limits: &ConsumeLimits,
    decision: ProcessingDecision,
)
    requires
        call_ensures(
            consume_scan_should_process_packet::<S, P>,
            (
                sanitize,
                check_fee_payer,
                packet,
                payload,
                message_hash_to_transaction,
                limits,
            ),
            decision,
        ),
        !old(payload).reached_end_of_slot,
        decision != ProcessingDecision::Never,
    ensures
        final(sanitize).log().len() == old(sanitize).log().len() + 1,
        final(sanitize).log().last().0 == *packet,
        final(sanitize).log().last().1 matches Some(transaction) && {
            &&& transaction.accounts@.len() <= limits.transaction_account_lock_limit
            &&& forall|i: int|
                0 <= i < transaction.accounts@.len() ==> !limits.blacklisted_accounts@.contains(
                    (#[trigger] transaction.accounts@[i]).pubkey,
                )
            &&& forall|i: int, j: int|
                0 <= i < j < transaction.accounts@.len() ==> (
                #[trigger] transaction.accounts@[i]).pubkey != (
                #[trigger] transaction.accounts@[j]).pubkey
            &&& decision == ProcessingDecision::Now ==> {
                &&& final(payload).sanitized_transactions@
                    == old(payload).sanitized_transactions@.push(transaction)
                &&& final(check_fee_payer).log() == old(check_fee_payer).log().push(
                    (transaction, true),
                )
            }
            &&& decision == ProcessingDecision::Later ==> {
                &&& final(payload).sanitized_transactions@ == old(payload).sanitized_transactions@
                &&& final(check_fee_payer).log() == old(check_fee_payer).log()
            }
        },
        final(message_hash_to_transaction)@ == old(message_hash_to_transaction)@,
{
    let before = (
        old(payload)@,
        old(message_hash_to_transaction)@,
        crate::consume::calls_of_scan(old(sanitize), old(check_fee_payer)),
    );
    let after = (
        final(payload)@,
        final(message_hash_to_transaction)@,
        crate::consume::calls_of_scan(final(sanitize), final(check_fee_payer)),
    );
    law_no_batch_names_a_blacklisted_account(
        old(sanitize).function(),
        old(check_fee_payer).function(),
        *limits,
        *packet,
        before,
        decision,
        after,
    );
    law_transaction_decides(
        old(sanitize).function(),
        old(check_fee_payer).function(),
        *limits,
        *packet,
        before,
        decision,
        after,
    );
    law_kept_transaction_takes_its_locks(
        old(sanitize).function(),
        old(check_fee_payer).function(),
        *limits,
        *packet,
        before,
        decision,
        after,
    );
    if decision == ProcessingDecision::Now {
        let log = final(check_fee_payer).log();
        assert(log =~= log.drop_last().push(log.last()));
    }
}

/// Processing starts with nothing handled and up to sixty-four packets to a batch, without locks,
/// transactions or errors, in the middle of a slot of which so much is counted already.
pub proof fn law_processing_starts_afresh(
    len: usize,
    slot_metrics: SlotMetrics,
    scan: (MultiIteratorScanner, ConsumeScannerPayload),
    key: Pubkey,
)
    requires
        call_ensures(create_consume_multi_iterator, (len, slot_metrics), scan),
    ensures
        scan.0@.handled.len() == len,
        forall|q: int| 0 <= q < len ==> !(#[trigger] scan.0@.handled[q]),
        scan.0@.cursor == 0 && scan.0@.iterator == 0 && scan.0@.filling,
        scan.0@.max_iterators == 64,
        !scan.1.reached_end_of_slot,
        !scan.1.account_locks@.reads.contains(key) && !scan.1.account_locks@.writes.contains(key),
        scan.1.sanitized_transactions@.len() == 0,
        scan.1.error_counters.fee_payer == 0,
        scan.1.slot_metrics == slot_metrics,
{
    assert(scan.1@.transactions == scan.1.sanitized_transactions@);
    assert(scan.1@.locks == scan.1.account_locks@);
}

/// No batch of a run has more than sixty-four packets, and each batch stands in the order of the list,
/// every packet of it once.
pub proof fn law_batches_are_small_and_in_order<
    S: FnMut(&SharedPacket) -> Option<SanitizedTransaction>,
    P: FnMut(&SanitizedTransaction) -> bool,
    F: FnMut(&Vec<SharedPacket>, ConsumeScannerPayload) -> (Option<Vec<usize>>, ConsumeScannerPayload),
>(
    sanitize: S,
    check_fee_payer: P,
    processing_function: F,
    limits: ConsumeLimits,
    keys: Seq<PacketKey>,
    stored: Stored,
    slot_metrics: SlotMetrics,
    calls: ConsumeCalls,
    states: Seq<ProcessState>,
    n: int,
)
    requires
        list_matches(keys, stored),
        keys.len() <= usize::MAX,
        descending(keys),
        forall|
            batch: &Vec<SharedPacket>,
            payload: ConsumeScannerPayload,
            answer: (Option<Vec<usize>>, ConsumeScannerPayload),
        |
            call_ensures(processing_function, (batch, payload), answer) ==> proper_places(
                batch@.len(),
                answer.0,
            ),
        process_run(sanitize, check_fee_payer, processing_function, limits, keys, states),
        states.first() == process_start(keys.len(), stored, slot_metrics, calls),
        0 <= n < states.len(),
    ensures
        states[n].scan.positions.len() <= 64,
        ({
            let places = states[n].scan.positions.take(states[n].scan.iterator as int);
            &&& forall|i: int| 0 <= i < places.len() ==> #[trigger] places[i] < keys.len()
            &&& forall|i: int, j: int|
                0 <= i < j < places.len() ==> (#[trigger] places[i]) < (#[trigger] places[j])
                    && keys[places[i] as int].0 >= keys[places[j] as int].0
        }),
{
    lemma_run_inv(
        sanitize,
        check_fee_payer,
        processing_function,
        limits,
        keys,
        stored,
        slot_metrics,
        calls,
        states,
        n,
    );
    lemma_max_iterators(
        sanitize,
        check_fee_payer,
        processing_function,
        limits,
        keys,
        states,
        n,
    );
    let scan = states[n].scan;
    let places = scan.positions.take(scan.iterator as int);
    assert forall|i: int| 0 <= i < places.len() implies #[trigger] places[i] < keys.len() by {
        assert(places[i] == scan.positions[i]);
    }
    assert forall|i: int, j: int| 0 <= i < j < places.len() implies (#[trigger] places[i]) < (
    #[trigger] places[j]) && keys[places[i] as int].0 >= keys[places[j] as int].0 by {
        assert(places[i] == scan.positions[i]);
        assert(places[j] == scan.positions[j]);
        assert(places[j] < keys.len());
        assert(crate::packet_queue::key_le(keys[places[j] as int], keys[places[i] as int]));
    }
}

/// The number of iterators does not change.
proof fn lemma_max_iterators<
    S: FnMut(&SharedPacket) -> Option<SanitizedTransaction>,
    P: FnMut(&SanitizedTransaction) -> bool,
    F: FnMut(&Vec<SharedPacket>, ConsumeScannerPayload) -> (Option<Vec<usize>>, ConsumeScannerPayload),
>(
    sanitize: S,
    check_fee_payer: P,
    processing_function: F,
    limits: ConsumeLimits,
    keys: Seq<PacketKey>,
    states: Seq<ProcessState>,
    n: int,
)
    requires
        process_run(sanitize, check_fee_payer, processing_function, limits, keys, states),
        0 <= n < states.len(),
    ensures
        states[n].scan.max_iterators == states.first().scan.max_iterators,
    decreases n,
{
    if n > 0 {
        lemma_max_iterators(
            sanitize,
            check_fee_payer,
            processing_function,
            limits,
            keys,
            states,
            n - 1,
        );
        assert(process_step(
            sanitize,
            check_fee_payer,
            processing_function,
            limits,
            keys,
            states[n - 1],
            states[n],
        ));
    }
}

/// What was sanitized stays on record.
proof fn lemma_sanitizings_stay<
    S: FnMut(&SharedPacket) -> Option<SanitizedTransaction>,
    P: FnMut(&SanitizedTransaction) -> bool,
    F: FnMut(&Vec<SharedPacket>, ConsumeScannerPayload) -> (Option<Vec<usize>>, ConsumeScannerPayload),
>(
    sanitize: S,
    check_fee_payer: P,
    processing_function: F,
    limits: ConsumeLimits,
    keys: Seq<PacketKey>,
    states: Seq<ProcessState>,
    m: int,
    n: int,
)
    requires
        process_run(sanitize, check_fee_payer, processing_function, limits, keys, states),
        0 <= m <= n < states.len(),
    ensures
        states[m].calls.scan.sanitized.len() <= states[n].calls.scan.sanitized.len(),
        forall|i: int|
            0 <= i < states[m].calls.scan.sanitized.len()
                ==> #[trigger] states[n].calls.scan.sanitized[i]
                == states[m].calls.scan.sanitized[i],
    decreases n,
{
    if m < n {
        lemma_sanitizings_stay(
            sanitize,
            check_fee_payer,
            processing_function,
            limits,
            keys,
            states,
            m,
            n - 1,
        );
        let before = states[n - 1];
        let after = states[n];
        assert(process_step(
            sanitize,
            check_fee_payer,
            processing_function,
            limits,
            keys,
            states[n - 1],
            states[n],
        ));
        if let ScanAction::Examine(place) = before.scan.action() {
            let packet = before.stored[spec_hash_of(keys[place as int])].immutable_section;
            let decision = choose|decision: ProcessingDecision|
                {
                    &&& #[trigger] examine_step(
                        sanitize,
                        check_fee_payer,
                        limits,
                        packet,
                        (before.payload, before.stored, before.calls.scan),
                        decision,
                        (after.payload, after.stored, after.calls.scan),
                    )
                    &&& after.scan == before.scan.decided(decision)
                    &&& after.requeued == before.requeued
                    &&& after.calls.batches == before.calls.batches
                };
            let answers = lemma_answers(
                sanitize,
                check_fee_payer,
                limits,
                packet,
                (before.payload, before.stored, before.calls.scan),
                decision,
                (after.payload, after.stored, after.calls.scan),
            );
        }
    }
}

/// A call that processes packets looks at one with the highest price first.
pub proof fn law_call_processes_the_highest_price_first<
    S: FnMut(&SharedPacket) -> Option<SanitizedTransaction>,
    P: FnMut(&SanitizedTransaction) -> bool,
    F: FnMut(&Vec<SharedPacket>, ConsumeScannerPayload) -> (Option<Vec<usize>>, ConsumeScannerPayload),
>(
    storage: &mut ThreadLocalUnprocessedPackets,
    sanitize: &mut Inquiry<SharedPacket, Option<SanitizedTransaction>, S>,
    check_fee_payer: &mut Inquiry<SanitizedTransaction, bool, P>,
    processing_function: &mut BatchProcessing<F>,
    limits: &ConsumeLimits,
    slot_metrics: &mut SlotMetrics,
    reached_end_of_slot: bool,
    hash: MessageHash,
)
    requires
        call_ensures(
            ThreadLocalUnprocessedPackets::process_packets::<S, P, F>,
            (storage, sanitize, check_fee_payer, processing_function, limits, slot_metrics),
            reached_end_of_slot,
        ),
        old(storage).wf(),
        old(storage).stored().contains_key(hash),
    ensures
        final(sanitize).log().len() > old(sanitize).log().len(),
        final(sanitize).log()[old(sanitize).log().len() as int].0.compute_unit_price
            >= old(storage).stored()[hash].immutable_section.compute_unit_price,
{
    let before = *old(storage);
    let calls = crate::consume::calls_of_consume(
        old(sanitize),
        old(check_fee_payer),
        old(processing_function),
    );
    let sanitize0 = old(sanitize).function();
    let check0 = old(check_fee_payer).function();
    let function0 = old(processing_function).function();
    let (keys, states) = choose|keys: Seq<PacketKey>, states: Seq<ProcessState>|
        {
            &&& keys.to_multiset() == before.unprocessed_packet_batches.queued()
            &&& descending(keys)
            &&& #[trigger] process_run(
                sanitize0,
                check0,
                function0,
                *limits,
                keys,
                states,
            )
            &&& states.first() == process_start(
                keys.len(),
                before.stored(),
                *old(slot_metrics),
                calls,
            )
            &&& states.last().scan.action() is Finish
            &&& states.last().stored == final(storage).stored()
            &&& states.last().payload.reached_end_of_slot == reached_end_of_slot
            &&& states.last().payload.slot_metrics == *final(slot_metrics)
            &&& states.last().calls == crate::consume::calls_of_consume(
                final(sanitize),
                final(check_fee_payer),
                final(processing_function),
            )
        };
    before.unprocessed_packet_batches.lemma_wf();
    lemma_queue_to_list(keys, before.unprocessed_packet_batches.queued(), before.stored());
    keys.to_multiset_ensures();
    let key = before.stored()[hash].spec_key();
    assert(before.stored()[hash].hash() == hash);
    assert(is_stored(before.stored(), key));
    assert(keys.contains(key));
    let x = choose|x: int| 0 <= x < keys.len() && keys[x] == key;
    let first = states[0];
    let n = states.len() - 1;
    crate::scanner::lemma_next_unhandled(first.scan.handled, 0);
    assert(!first.scan.handled[0]);
    assert(crate::scanner::next_unhandled(first.scan.handled, 0) == 0);
    assert(first.scan.action() == ScanAction::Examine(0));
    assert(n > 0);
    let second = states[1];
    assert(process_step(sanitize0, check0, function0, *limits, keys, states[0], states[1]));
    let packet = first.stored[spec_hash_of(keys[0])].immutable_section;
    let decision = choose|decision: ProcessingDecision|
        {
            &&& #[trigger] examine_step(
                sanitize0,
                check0,
                *limits,
                packet,
                (first.payload, first.stored, first.calls.scan),
                decision,
                (second.payload, second.stored, second.calls.scan),
            )
            &&& second.scan == first.scan.decided(decision)
            &&& second.requeued == first.requeued
            &&& second.calls.batches == first.calls.batches
        };
    law_transaction_decides(
        sanitize0,
        check0,
        *limits,
        packet,
        (first.payload, first.stored, first.calls.scan),
        decision,
        (second.payload, second.stored, second.calls.scan),
    );
    lemma_sanitizings_stay(sanitize0, check0, function0, *limits, keys, states, 1, n);
    let at = old(sanitize).log().len() as int;
    assert(states[n].calls.scan.sanitized[at] == second.calls.scan.sanitized[at]);
    assert(second.calls.scan.sanitized[at] == second.calls.scan.sanitized.last());
    assert(keys.contains(keys[0]));
    assert(is_stored(before.stored(), keys[0]));
    if x > 0 {
        assert(crate::packet_queue::key_le(keys[x], keys[0]));
    }
    assert(states[n].calls.scan.sanitized == final(sanitize).log());
}

/// The time that sanitizing took is added, whatever is decided. At the end of the slot nothing is
/// sanitized, and no time is added.
pub proof fn law_sanitizing_is_timed(
    limits: ConsumeLimits,
    payload: Payload,
    answers: ScanAnswers,
    decision: ProcessingDecision,
)
    requires
        payload.slot_metrics.transactions_from_packets_us + answers.sanitize_us <= u64::MAX,
    ensures
        scan_payload(
            limits,
            payload,
            answers,
            decision,
        ).slot_metrics.transactions_from_packets_us
            == payload.slot_metrics.transactions_from_packets_us + (if payload.reached_end_of_slot {
            0
        } else {
            answers.sanitize_us as int
        }),
{
}

} // verus!
