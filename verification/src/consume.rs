//! Processing of the buffered packets: which of them join a batch, and what is left of them.

use vstd::multiset::Multiset;
use vstd::prelude::*;

use crate::account_locks::{
    distinct_accounts, law_taking_agrees_with_checking, validate_account_locks, AccountAccess,
    LockSets, ReadWriteAccountSet, SanitizedTransaction,
};
use crate::forwarding::UNPROCESSED_BUFFER_STEP_SIZE;
use crate::key_lists::{
    dropped_runs, lemma_concat, lemma_distinct_hashes, lemma_list_to_queue, lemma_queue_to_list, lemma_retain,
    list_matches, without_runs,
};
use crate::keys::{contains_key, Pubkey};
use crate::metrics::{capped_usize, SlotMetrics, TransactionErrorMetrics};
use crate::packet::{spec_hash_of, PacketKey, SharedPacket};
use crate::packet_map::PacketMap;
use crate::packet_queue::descending;
use crate::retention::{ascending, pick};
use crate::scanner::{
    lemma_next_unhandled, unhandled_count, MultiIteratorScanner, ProcessingDecision, Scan, ScanAction,
};
use crate::services::{BatchCall, BatchProcessing, Inquiry};
use crate::thread_local_packets::ThreadLocalUnprocessedPackets;
use crate::timing::{clock_reading, elapsed_us};
use crate::unprocessed_packet_batches::{all_held, is_stored, packets_of, Stored};

verus! {

/// What batch processing and the scan share.
#[derive(Debug)]
pub struct ConsumeScannerPayload {
    pub reached_end_of_slot: bool,
    pub account_locks: ReadWriteAccountSet,
    pub sanitized_transactions: Vec<SanitizedTransaction>,
    pub slot_metrics: SlotMetrics,
    pub error_counters: TransactionErrorMetrics,
}

/// What a payload holds.
pub struct Payload {
    pub reached_end_of_slot: bool,
    pub locks: LockSets,
    pub transactions: Seq<SanitizedTransaction>,
    pub slot_metrics: SlotMetrics,
    pub error_counters: TransactionErrorMetrics,
}

impl View for ConsumeScannerPayload {
    type V = Payload;

    open spec fn view(&self) -> Payload {
        Payload {
            reached_end_of_slot: self.reached_end_of_slot,
            locks: self.account_locks@,
            transactions: self.sanitized_transactions@,
            slot_metrics: self.slot_metrics,
            error_counters: self.error_counters,
        }
    }
}

/// What the scan of the packets depends on: the accounts that may not be used, and how many
/// accounts a transaction may lock.
#[derive(Debug)]
pub struct ConsumeLimits {
    pub blacklisted_accounts: Vec<Pubkey>,
    pub transaction_account_lock_limit: usize,
}

impl ConsumeLimits {
    /// A transaction over these accounts is not to be processed at all.
    pub open spec fn rejects(&self, accounts: Seq<AccountAccess>) -> bool {
        ||| accounts.len() > self.transaction_account_lock_limit
        ||| !distinct_accounts(accounts)
        ||| exists|i: int|
            0 <= i < accounts.len() && self.blacklisted_accounts@.contains(
                (#[trigger] accounts[i]).pubkey,
            )
    }
}

/// What comes back about a packet: its transaction, where it sanitizes; whether the fee payer can
/// pay; and how long the first took.
pub struct ScanAnswers {
    pub sanitized: Option<SanitizedTransaction>,
    pub fee_payer_valid: bool,
    pub sanitize_us: u64,
}

/// The fee payer is asked about: the transaction may be processed and its locks are free.
pub open spec fn asks_fee_payer(
    limits: ConsumeLimits,
    payload: Payload,
    sanitized: Option<SanitizedTransaction>,
) -> bool {
    sanitized matches Some(transaction) && !limits.rejects(transaction.accounts@)
        && payload.locks.allows_all(transaction.accounts@)
}

/// What is decided about a packet. Whether the fee payer can pay counts only where the locks are
/// free. At the end of the slot every packet joins the batch, so that the scan ends soon.
pub open spec fn scan_decision(
    limits: ConsumeLimits,
    payload: Payload,
    answers: ScanAnswers,
) -> ProcessingDecision {
    if payload.reached_end_of_slot {
        ProcessingDecision::Now
    } else {
        match answers.sanitized {
            None => ProcessingDecision::Never,
            Some(transaction) => {
                if limits.rejects(transaction.accounts@) {
                    ProcessingDecision::Never
                } else if payload.locks.allows_all(transaction.accounts@) {
                    if answers.fee_payer_valid {
                        ProcessingDecision::Now
                    } else {
                        ProcessingDecision::Never
                    }
                } else {
                    ProcessingDecision::Later
                }
            },
        }
    }
}

/// The payload after the decision. The time that sanitizing took and a fee payer that cannot pay are
/// counted. A transaction that is not dropped takes its locks even where they are not free, so that
/// no transaction of lower priority takes them.
pub open spec fn scan_payload(
    limits: ConsumeLimits,
    payload: Payload,
    answers: ScanAnswers,
    decision: ProcessingDecision,
) -> Payload {
    if payload.reached_end_of_slot {
        payload
    } else {
        let counted = Payload {
            slot_metrics: payload.slot_metrics.with_conversion(answers.sanitize_us),
            error_counters: TransactionErrorMetrics {
                fee_payer: if asks_fee_payer(limits, payload, answers.sanitized)
                    && !answers.fee_payer_valid {
                    capped_usize(payload.error_counters.fee_payer + 1)
                } else {
                    payload.error_counters.fee_payer
                },
            },
            ..payload
        };
        if decision == ProcessingDecision::Never {
            counted
        } else {
            Payload {
                locks: payload.locks.with(answers.sanitized->0.accounts@),
                transactions: if decision == ProcessingDecision::Now {
                    payload.transactions.push(answers.sanitized->0)
                } else {
                    payload.transactions
                },
                ..counted
            }
        }
    }
}

/// The map after the decision: a dropped packet leaves it.
pub open spec fn scan_stored(
    stored: Stored,
    key: PacketKey,
    decision: ProcessingDecision,
) -> Stored {
    if decision == ProcessingDecision::Never {
        stored.remove(spec_hash_of(key))
    } else {
        stored
    }
}

/// The answers are ones that the two services can give about the packet, as far as they are asked.
pub open spec fn answers_of<
    S: FnMut(&SharedPacket) -> Option<SanitizedTransaction>,
    P: FnMut(&SanitizedTransaction) -> bool,
>(
    sanitize: S,
    check_fee_payer: P,
    limits: ConsumeLimits,
    packet: SharedPacket,
    payload: Payload,
    answers: ScanAnswers,
) -> bool {
    payload.reached_end_of_slot || {
        &&& call_ensures(sanitize, (&packet,), answers.sanitized)
        &&& asks_fee_payer(limits, payload, answers.sanitized) ==> call_ensures(
            check_fee_payer,
            (&answers.sanitized->0,),
            answers.fee_payer_valid,
        )
    }
}

/// Every call of the services that packets are looked at with, in order.
pub struct ScanCalls {
    /// Each packet that was to be sanitized, and what came of it.
    pub sanitized: Seq<(SharedPacket, Option<SanitizedTransaction>)>,
    /// Each transaction whose fee payer was asked about, and whether it can pay.
    pub fee_payers: Seq<(SanitizedTransaction, bool)>,
}

/// The calls that the two services record.
pub open spec fn calls_of_scan<
    S: FnMut(&SharedPacket) -> Option<SanitizedTransaction>,
    P: FnMut(&SanitizedTransaction) -> bool,
>(
    sanitize: &Inquiry<SharedPacket, Option<SanitizedTransaction>, S>,
    check_fee_payer: &Inquiry<SanitizedTransaction, bool, P>,
) -> ScanCalls {
    ScanCalls { sanitized: sanitize.log(), fee_payers: check_fee_payer.log() }
}

/// Every call of the services that packets are processed with, in order.
pub struct ConsumeCalls {
    pub scan: ScanCalls,
    pub batches: Seq<BatchCall>,
}

/// The calls that the three services record.
pub open spec fn calls_of_consume<
    S: FnMut(&SharedPacket) -> Option<SanitizedTransaction>,
    P: FnMut(&SanitizedTransaction) -> bool,
    F: FnMut(&Vec<SharedPacket>, ConsumeScannerPayload) -> (Option<Vec<usize>>, ConsumeScannerPayload),
>(
    sanitize: &Inquiry<SharedPacket, Option<SanitizedTransaction>, S>,
    check_fee_payer: &Inquiry<SanitizedTransaction, bool, P>,
    processing_function: &BatchProcessing<F>,
) -> ConsumeCalls {
    ConsumeCalls {
        scan: calls_of_scan(sanitize, check_fee_payer),
        batches: processing_function.log(),
    }
}

/// The calls after a packet was looked at: it was sanitized once, and its fee payer was asked about
/// at most once. At the end of the slot nothing is asked.
pub open spec fn scan_calls(
    calls: ScanCalls,
    limits: ConsumeLimits,
    packet: SharedPacket,
    payload: Payload,
    answers: ScanAnswers,
) -> ScanCalls {
    if payload.reached_end_of_slot {
        calls
    } else {
        ScanCalls {
            sanitized: calls.sanitized.push((packet, answers.sanitized)),
            fee_payers: if asks_fee_payer(limits, payload, answers.sanitized) {
                calls.fee_payers.push((answers.sanitized->0, answers.fee_payer_valid))
            } else {
                calls.fee_payers
            },
        }
    }
}

/// One packet is looked at.
pub open spec fn examine_step<
    S: FnMut(&SharedPacket) -> Option<SanitizedTransaction>,
    P: FnMut(&SanitizedTransaction) -> bool,
>(
    sanitize: S,
    check_fee_payer: P,
    limits: ConsumeLimits,
    packet: SharedPacket,
    before: (Payload, Stored, ScanCalls),
    decision: ProcessingDecision,
    after: (Payload, Stored, ScanCalls),
) -> bool {
    exists|answers: ScanAnswers|
        {
            &&& #[trigger] answers_of(
                sanitize,
                check_fee_payer,
                limits,
                packet,
                before.0,
                answers,
            )
            &&& decision == scan_decision(limits, before.0, answers)
            &&& after.0 == scan_payload(limits, before.0, answers, decision)
            &&& after.1 == scan_stored(before.1, packet.spec_key(), decision)
            &&& after.2 == scan_calls(before.2, limits, packet, before.0, answers)
        }
}

/// Whether one of the accounts is blacklisted.
fn uses_blacklisted(accounts: &Vec<AccountAccess>, blacklisted_accounts: &Vec<Pubkey>) -> (found:
    bool)
    ensures
        found == (exists|i: int|
            0 <= i < accounts@.len() && blacklisted_accounts@.contains(
                (#[trigger] accounts@[i]).pubkey,
            )),
{
    let mut i: usize = 0;
    while i < accounts.len()
        invariant
            i <= accounts@.len(),
            forall|k: int|
                0 <= k < i ==> !blacklisted_accounts@.contains((#[trigger] accounts@[k]).pubkey),
        decreases accounts.len() - i,
    {
        if contains_key(blacklisted_accounts, &accounts[i].pubkey) {
            assert(blacklisted_accounts@.contains(accounts@[i as int].pubkey));
            return true;
        }
        i += 1;
    }
    false
}

/// Decides whether a packet joins the current batch. `sanitize` gives its transaction, and
/// `check_fee_payer` says whether the fee payer can pay.
pub fn consume_scan_should_process_packet<
    S: FnMut(&SharedPacket) -> Option<SanitizedTransaction>,
    P: FnMut(&SanitizedTransaction) -> bool,
>(
    sanitize: &mut Inquiry<SharedPacket, Option<SanitizedTransaction>, S>,
    check_fee_payer: &mut Inquiry<SanitizedTransaction, bool, P>,
    packet: &SharedPacket,
    payload: &mut ConsumeScannerPayload,
    message_hash_to_transaction: &mut PacketMap,
    limits: &ConsumeLimits,
) -> (decision: ProcessingDecision)
    requires
        old(message_hash_to_transaction).wf(),
        call_requires(old(sanitize).function(), (packet,)),
        old(check_fee_payer).takes_all(),
    ensures
        final(sanitize).function() == old(sanitize).function(),
        final(check_fee_payer).function() == old(check_fee_payer).function(),
        final(message_hash_to_transaction).wf(),
        examine_step(
            old(sanitize).function(),
            old(check_fee_payer).function(),
            *limits,
            *packet,
            (
                old(payload)@,
                old(message_hash_to_transaction)@,
                calls_of_scan(old(sanitize), old(check_fee_payer)),
            ),
            decision,
            (
                final(payload)@,
                final(message_hash_to_transaction)@,
                calls_of_scan(final(sanitize), final(check_fee_payer)),
            ),
        ),
{
    let ghost before = payload@;
    if payload.reached_end_of_slot {
        assert(answers_of(
            sanitize.function(),
            check_fee_payer.function(),
            *limits,
            *packet,
            before,
            ScanAnswers { sanitized: None, fee_payer_valid: true, sanitize_us: 0 },
        ));
        return ProcessingDecision::Now;
    }
    let start = clock_reading();
    let maybe_sanitized_transaction = sanitize.ask(packet);
    let sanitization_time_us = elapsed_us(&start);
    payload.slot_metrics.increment_transactions_from_packets_us(sanitization_time_us);
    let ghost mut answers = ScanAnswers {
        sanitized: maybe_sanitized_transaction,
        fee_payer_valid: true,
        sanitize_us: sanitization_time_us,
    };
    match maybe_sanitized_transaction {
        Some(sanitized_transaction) => {
            // Check the number of locks and whether there are duplicates.
            if validate_account_locks(
                &sanitized_transaction.accounts,
                limits.transaction_account_lock_limit,
            ).is_err() || uses_blacklisted(
                &sanitized_transaction.accounts,
                &limits.blacklisted_accounts,
            ) {
                assert(answers_of(
                    sanitize.function(),
                    check_fee_payer.function(),
                    *limits,
                    *packet,
                    before,
                    answers,
                ));
                message_hash_to_transaction.remove(packet.message_hash);
                return ProcessingDecision::Never;
            }
            let free = payload.account_locks.check_locks(&sanitized_transaction);
            if free {
                let valid = check_fee_payer.ask(&sanitized_transaction);
                proof {
                    answers = ScanAnswers { fee_payer_valid: valid, ..answers };
                }
                if !valid {
                    payload.error_counters.fee_payer =
                    payload.error_counters.fee_payer.saturating_add(1);
                    assert(answers_of(
                        sanitize.function(),
                        check_fee_payer.function(),
                        *limits,
                        *packet,
                        before,
                        answers,
                    ));
                    message_hash_to_transaction.remove(packet.message_hash);
                    return ProcessingDecision::Never;
                }
            }
            assert(answers_of(
                sanitize.function(),
                check_fee_payer.function(),
                *limits,
                *packet,
                before,
                answers,
            ));
            proof {
                law_taking_agrees_with_checking(
                    payload.account_locks@,
                    sanitized_transaction.accounts@,
                );
            }
            // Locks are taken last, by every transaction that is not dropped. Otherwise one could
            // be held back by another that takes no part in the batch.
            if !payload.account_locks.take_locks(&sanitized_transaction) {
                return ProcessingDecision::Later;
            }
            payload.sanitized_transactions.push(sanitized_transaction);
            ProcessingDecision::Now
        },
        None => {
            assert(answers_of(
                sanitize.function(),
                check_fee_payer.function(),
                *limits,
                *packet,
                before,
                answers,
            ));
            message_hash_to_transaction.remove(packet.message_hash);
            ProcessingDecision::Never
        },
    }
}

/// A scan of so many packets, with what it and batch processing share, at their start.
pub fn create_consume_multi_iterator(len: usize, slot_metrics: SlotMetrics) -> (scan: (
    MultiIteratorScanner,
    ConsumeScannerPayload,
))
    ensures
        scan.0@ == Scan::start(len as nat, UNPROCESSED_BUFFER_STEP_SIZE as nat),
        scan.0@.wf(),
        scan.1@ == no_payload(slot_metrics),
{
    let payload = ConsumeScannerPayload {
        reached_end_of_slot: false,
        account_locks: ReadWriteAccountSet::default(),
        sanitized_transactions: Vec::with_capacity(UNPROCESSED_BUFFER_STEP_SIZE),
        slot_metrics,
        error_counters: TransactionErrorMetrics::default(),
    };
    (MultiIteratorScanner::new(len, UNPROCESSED_BUFFER_STEP_SIZE), payload)
}

/// What a payload holds at the start: no locks, no transactions and no errors, in the middle of a
/// slot of which so much is counted already.
pub open spec fn no_payload(slot_metrics: SlotMetrics) -> Payload {
    Payload {
        reached_end_of_slot: false,
        locks: LockSets::none(),
        transactions: Seq::empty(),
        slot_metrics,
        error_counters: TransactionErrorMetrics { fee_payer: 0 },
    }
}

/// Where the processing of the packets stands.
pub struct ProcessState {
    pub scan: Scan,
    pub payload: Payload,
    pub stored: Stored,
    /// The packets that were given back for another try.
    pub requeued: Seq<PacketKey>,
    pub calls: ConsumeCalls,
}

/// Where the processing of `len` packets starts.
pub open spec fn process_start(
    len: nat,
    stored: Stored,
    slot_metrics: SlotMetrics,
    calls: ConsumeCalls,
) -> ProcessState {
    ProcessState {
        scan: Scan::start(len, UNPROCESSED_BUFFER_STEP_SIZE as nat),
        payload: no_payload(slot_metrics),
        stored,
        requeued: Seq::empty(),
        calls,
    }
}

/// The packets of the batch that is ready, or as far as it has come.
pub open spec fn batch_keys(keys: Seq<PacketKey>, scan: Scan) -> Seq<PacketKey> {
    pick(keys, scan.batch())
}

/// After a batch was processed: the packets to retry stay, the others leave the map. Where nothing
/// was processed, all of them stay. The batch was given to the processing function once.
pub open spec fn processed(
    before: ProcessState,
    batch: Seq<PacketKey>,
    retryable: Option<Seq<usize>>,
    payload: Payload,
) -> ProcessState {
    ProcessState {
        scan: before.scan.next_batch(),
        payload,
        stored: match retryable {
            Some(places) => without_runs(before.stored, batch, dropped_runs(batch, places)),
            None => before.stored,
        },
        requeued: before.requeued + match retryable {
            Some(places) => pick(batch, places),
            None => batch,
        },
        calls: ConsumeCalls {
            batches: before.calls.batches.push(
                BatchCall {
                    batch: packets_of(before.stored, batch),
                    given: before.payload,
                    retryable,
                    returned: payload,
                },
            ),
            ..before.calls
        },
    }
}

/// The places of a list of indexes, where there is one.
pub open spec fn index_view(indexes: Option<Vec<usize>>) -> Option<Seq<usize>> {
    match indexes {
        Some(indexes) => Some(indexes@),
        None => None,
    }
}

/// The batch and the payload were given to the processing function, and this came back.
pub open spec fn batch_processed_by<
    F: FnMut(&Vec<SharedPacket>, ConsumeScannerPayload) -> (Option<Vec<usize>>, ConsumeScannerPayload),
>(
    processing_function: F,
    batch: Seq<SharedPacket>,
    payload: Payload,
    retryable: Option<Seq<usize>>,
    returned: Payload,
) -> bool {
    exists|
        given_batch: Vec<SharedPacket>,
        given: ConsumeScannerPayload,
        answer: (Option<Vec<usize>>, ConsumeScannerPayload),
    |
        {
            &&& #[trigger] call_ensures(processing_function, (&given_batch, given), answer)
            &&& given_batch@ == batch
            &&& given@ == payload
            &&& index_view(answer.0) == retryable
            &&& answer.1@ == returned
        }
}

/// One step of the processing: a packet is looked at, or a batch is processed.
pub open spec fn process_step<
    S: FnMut(&SharedPacket) -> Option<SanitizedTransaction>,
    P: FnMut(&SanitizedTransaction) -> bool,
    F: FnMut(&Vec<SharedPacket>, ConsumeScannerPayload) -> (Option<Vec<usize>>, ConsumeScannerPayload),
>(
    sanitize: S,
    check_fee_payer: P,
    processing_function: F,
    limits: ConsumeLimits,
    keys: Seq<PacketKey>,
    before: ProcessState,
    after: ProcessState,
) -> bool {
    match before.scan.action() {
        ScanAction::Examine(place) => exists|decision: ProcessingDecision|
            {
                &&& #[trigger] examine_step(
                    sanitize,
                    check_fee_payer,
                    limits,
                    before.stored[spec_hash_of(keys[place as int])].immutable_section,
                    (before.payload, before.stored, before.calls.scan),
                    decision,
                    (after.payload, after.stored, after.calls.scan),
                )
                &&& after.scan == before.scan.decided(decision)
                &&& after.requeued == before.requeued
                &&& after.calls.batches == before.calls.batches
            },
        ScanAction::Process => exists|retryable: Option<Seq<usize>>, returned: Payload|
            {
                &&& #[trigger] batch_processed_by(
                    processing_function,
                    packets_of(before.stored, batch_keys(keys, before.scan)),
                    before.payload,
                    retryable,
                    returned,
                )
                &&& after == processed(before, batch_keys(keys, before.scan), retryable, returned)
            },
        ScanAction::Finish => false,
    }
}

/// Steps of the processing, one after the other.
pub open spec fn process_run<
    S: FnMut(&SharedPacket) -> Option<SanitizedTransaction>,
    P: FnMut(&SanitizedTransaction) -> bool,
    F: FnMut(&Vec<SharedPacket>, ConsumeScannerPayload) -> (Option<Vec<usize>>, ConsumeScannerPayload),
>(
    sanitize: S,
    check_fee_payer: P,
    processing_function: F,
    limits: ConsumeLimits,
    keys: Seq<PacketKey>,
    states: Seq<ProcessState>,
) -> bool {
    &&& states.len() > 0
    &&& forall|i: int|
        0 <= i < states.len() - 1 ==> process_step(
            sanitize,
            check_fee_payer,
            processing_function,
            limits,
            keys,
            #[trigger] states[i],
            states[i + 1],
        )
}

/// The packets of a batch of the given length that are to be retried are named in order, once each.
pub open spec fn proper_places(len: nat, retryable: Option<Vec<usize>>) -> bool {
    retryable matches Some(places) ==> ascending(places@) && (forall|i: int|
        0 <= i < places@.len() ==> #[trigger] places@[i] < len)
}

/// The packets to retry are named properly, and the locks of the batch are given back unless the
/// slot is over.
pub open spec fn proper_answer(
    len: nat,
    answer: (Option<Vec<usize>>, ConsumeScannerPayload),
) -> bool {
    &&& proper_places(len, answer.0)
    &&& answer.1@.reached_end_of_slot || answer.1@.locks == LockSets::none()
}

/// The packets that are not handled yet, in order.
pub open spec fn waiting(keys: Seq<PacketKey>, handled: Seq<bool>) -> Seq<PacketKey>
    decreases handled.len(),
{
    if handled.len() == 0 {
        Seq::empty()
    } else {
        let before = waiting(keys, handled.drop_last());
        if handled.last() {
            before
        } else {
            before.push(keys[handled.len() - 1])
        }
    }
}

/// Which packets are waiting.
proof fn lemma_waiting(keys: Seq<PacketKey>, handled: Seq<bool>)
    requires
        handled.len() <= keys.len(),
        keys.no_duplicates(),
    ensures
        waiting(keys, handled).no_duplicates(),
        forall|key: PacketKey| #[trigger]
            waiting(keys, handled).contains(key) <==> (exists|p: int|
                0 <= p < handled.len() && !handled[p] && #[trigger] keys[p] == key),
    decreases handled.len(),
{
    if handled.len() > 0 {
        let shorter = handled.drop_last();
        let last = handled.len() - 1;
        lemma_waiting(keys, shorter);
        let before = waiting(keys, shorter);
        let after = waiting(keys, handled);
        let tail: Seq<PacketKey> = if handled.last() {
            Seq::empty()
        } else {
            seq![keys[last]]
        };
        assert(after =~= before + tail);
        lemma_concat(before, tail);
        if !handled.last() {
            assert(tail[0] == keys[last]);
            assert(!before.contains(keys[last])) by {
                if before.contains(keys[last]) {
                    let p = choose|p: int|
                        0 <= p < shorter.len() && !shorter[p] && #[trigger] keys[p] == keys[last];
                }
            }
        }
        assert forall|key: PacketKey| #[trigger] after.contains(key) <==> (exists|p: int|
            0 <= p < handled.len() && !handled[p] && #[trigger] keys[p] == key) by {
            if before.contains(key) {
                let p = choose|p: int|
                    0 <= p < shorter.len() && !shorter[p] && #[trigger] keys[p] == key;
                assert(!handled[p] && keys[p] == key);
            }
            if exists|p: int| 0 <= p < handled.len() && !handled[p] && #[trigger] keys[p] == key {
                let p = choose|p: int|
                    0 <= p < handled.len() && !handled[p] && #[trigger] keys[p] == key;
                if p < last {
                    assert(!shorter[p]);
                    assert(before.contains(key));
                }
            }
        }
    }
}

/// One packet less is waiting.
proof fn lemma_waiting_handled(keys: Seq<PacketKey>, handled: Seq<bool>, place: int)
    requires
        handled.len() == keys.len(),
        keys.no_duplicates(),
        0 <= place < handled.len(),
        !handled[place],
    ensures
        waiting(keys, handled.update(place, true)).no_duplicates(),
        waiting(keys, handled).contains(keys[place]),
        forall|key: PacketKey| #[trigger]
            waiting(keys, handled.update(place, true)).contains(key) <==> waiting(
                keys,
                handled,
            ).contains(key) && key != keys[place],
{
    let after = handled.update(place, true);
    lemma_waiting(keys, handled);
    lemma_waiting(keys, after);
    assert(!handled[place] && keys[place] == keys[place]);
    assert forall|key: PacketKey| #[trigger] waiting(keys, after).contains(key) <==> waiting(
        keys,
        handled,
    ).contains(key) && key != keys[place] by {
        if waiting(keys, after).contains(key) {
            let p = choose|p: int| 0 <= p < after.len() && !after[p] && #[trigger] keys[p] == key;
            assert(!handled[p] && keys[p] == key);
            assert(keys[p] != keys[place]);
        }
        if waiting(keys, handled).contains(key) && key != keys[place] {
            let p = choose|p: int|
                0 <= p < handled.len() && !handled[p] && #[trigger] keys[p] == key;
            assert(!after[p] && keys[p] == key);
        }
    }
}

/// Everything that is held waits, is in the current batch, or was given back.
pub open spec fn process_inv(keys: Seq<PacketKey>, state: ProcessState) -> bool {
    let scan = state.scan;
    &&& scan.wf()
    &&& scan.handled.len() == keys.len()
    &&& keys.no_duplicates()
    &&& list_matches(
        state.requeued + batch_keys(keys, scan) + waiting(keys, scan.handled),
        state.stored,
    )
}

/// The packets that the first iterator has passed do not wait, and it finds every lock free.
pub open spec fn leads(state: ProcessState) -> bool {
    let scan = state.scan;
    &&& forall|p: int|
        0 <= p < (if scan.iterator == 0 {
            scan.cursor as int
        } else {
            scan.positions[0] + 1
        }) ==> #[trigger] scan.handled[p]
    &&& scan.iterator == 0 ==> state.payload.reached_end_of_slot || state.payload.locks
        == LockSets::none()
}

/// Looking at a packet keeps the books in order.
proof fn lemma_examine<
    S: FnMut(&SharedPacket) -> Option<SanitizedTransaction>,
    P: FnMut(&SanitizedTransaction) -> bool,
>(
    sanitize: S,
    check_fee_payer: P,
    limits: ConsumeLimits,
    keys: Seq<PacketKey>,
    before: ProcessState,
    decision: ProcessingDecision,
    after: ProcessState,
)
    requires
        process_inv(keys, before),
        before.scan.action() is Examine,
        examine_step(
            sanitize,
            check_fee_payer,
            limits,
            before.stored[spec_hash_of(
                keys[before.scan.action()->0 as int],
            )].immutable_section,
            (before.payload, before.stored, before.calls.scan),
            decision,
            (after.payload, after.stored, after.calls.scan),
        ),
        after.scan == before.scan.decided(decision),
        after.requeued == before.requeued,
    ensures
        process_inv(keys, after),
        after.stored.dom().subset_of(before.stored.dom()),
{
    let scan = before.scan;
    let place = before.scan.action()->0 as int;
    let key = keys[place];
    let packet = before.stored[spec_hash_of(key)].immutable_section;
    lemma_next_unhandled(scan.handled, scan.cursor as int);
    crate::scanner::lemma_decided(scan, decision);
    lemma_waiting_handled(keys, scan.handled, place);
    lemma_waiting(keys, scan.handled);
    let answers = choose|answers: ScanAnswers|
        {
            &&& #[trigger] answers_of(
                sanitize,
                check_fee_payer,
                limits,
                packet,
                before.payload,
                answers,
            )
            &&& decision == scan_decision(limits, before.payload, answers)
            &&& after.payload == scan_payload(limits, before.payload, answers, decision)
            &&& after.stored == scan_stored(before.stored, packet.spec_key(), decision)
            &&& after.calls.scan == scan_calls(
                before.calls.scan,
                limits,
                packet,
                before.payload,
                answers,
            )
        };
    let batch = batch_keys(keys, scan);
    let batch_after = batch_keys(keys, after.scan);
    let rest = waiting(keys, scan.handled);
    let rest_after = waiting(keys, after.scan.handled);
    let list = before.requeued + batch + rest;
    let list_after = after.requeued + batch_after + rest_after;
    lemma_concat(before.requeued + batch, rest);
    lemma_concat(before.requeued, batch);
    lemma_concat(after.requeued + batch_after, rest_after);
    lemma_concat(after.requeued, batch_after);
    assert(list.contains(key));
    match decision {
        ProcessingDecision::Now => {
            assert(after.scan.batch() =~= scan.batch().push(place as usize));
            assert(batch_after =~= batch + seq![key]);
            lemma_concat(batch, seq![key]);
            assert(seq![key][0] == key);
            assert(!(before.requeued + batch).contains(key));
            assert(!batch.contains(key) && !before.requeued.contains(key));
            assert forall|x: PacketKey| #[trigger] seq![key].contains(x) implies x == key by {}
            assert(batch_after.no_duplicates());
            assert forall|x: PacketKey| !(#[trigger] after.requeued.contains(x)
                && batch_after.contains(x)) by {
                assert(!(before.requeued.contains(x) && batch.contains(x)));
            }
            assert((after.requeued + batch_after).no_duplicates());
            assert forall|x: PacketKey| !(#[trigger] (after.requeued + batch_after).contains(x)
                && rest_after.contains(x)) by {
                assert(!((before.requeued + batch).contains(x) && rest.contains(x)));
            }
            assert(list_after.no_duplicates());
            assert forall|x: PacketKey| #[trigger] list_after.contains(x) <==> is_stored(
                after.stored,
                x,
            ) by {
                assert(list.contains(x) <==> is_stored(before.stored, x));
            }
        },
        ProcessingDecision::Later => {
            assert(batch_after =~= batch);
        },
        ProcessingDecision::Never => {
            assert(batch_after =~= batch);
            assert forall|x: PacketKey| !(#[trigger] (after.requeued + batch_after).contains(x)
                && rest_after.contains(x)) by {
                assert(!((before.requeued + batch).contains(x) && rest.contains(x)));
            }
            assert(list_after.no_duplicates());
            assert forall|x: PacketKey| #[trigger] list_after.contains(x) <==> is_stored(
                after.stored,
                x,
            ) by {
                assert(list.contains(x) <==> is_stored(before.stored, x));
                assert(is_stored(before.stored, key));
                assert(!(before.requeued + batch).contains(key));
                if is_stored(before.stored, x) && spec_hash_of(x) == spec_hash_of(key) {
                    assert(x == key);
                }
            }
        },
    }
}

/// The first iterator leaves no packet behind it where it finds every lock free.
proof fn lemma_examine_leads<
    S: FnMut(&SharedPacket) -> Option<SanitizedTransaction>,
    P: FnMut(&SanitizedTransaction) -> bool,
>(
    sanitize: S,
    check_fee_payer: P,
    limits: ConsumeLimits,
    packet: SharedPacket,
    before: ProcessState,
    decision: ProcessingDecision,
    after: ProcessState,
)
    requires
        before.scan.wf(),
        leads(before),
        before.scan.action() is Examine,
        examine_step(
            sanitize,
            check_fee_payer,
            limits,
            packet,
            (before.payload, before.stored, before.calls.scan),
            decision,
            (after.payload, after.stored, after.calls.scan),
        ),
        after.scan == before.scan.decided(decision),
    ensures
        leads(after),
{
    let scan = before.scan;
    let place = before.scan.action()->0 as int;
    lemma_next_unhandled(scan.handled, scan.cursor as int);
    crate::scanner::lemma_decided(scan, decision);
    let answers = choose|answers: ScanAnswers|
        {
            &&& #[trigger] answers_of(
                sanitize,
                check_fee_payer,
                limits,
                packet,
                before.payload,
                answers,
            )
            &&& decision == scan_decision(limits, before.payload, answers)
            &&& after.payload == scan_payload(limits, before.payload, answers, decision)
            &&& after.stored == scan_stored(before.stored, packet.spec_key(), decision)
            &&& after.calls.scan == scan_calls(
                before.calls.scan,
                limits,
                packet,
                before.payload,
                answers,
            )
        };
    if scan.iterator == 0 {
        assert(decision != ProcessingDecision::Later) by {
            if answers.sanitized is Some {
                assert(LockSets::none().allows_all(answers.sanitized->0.accounts@));
            }
        }
    }
    assert forall|p: int| 0 <= p < (if after.scan.iterator == 0 {
        after.scan.cursor as int
    } else {
        after.scan.positions[0] + 1
    }) implies #[trigger] after.scan.handled[p] by {
        if scan.iterator == 0 {
            if p < scan.cursor {
                assert(scan.handled[p]);
            } else if p < place {
                assert(scan.handled[p]);
            }
        } else {
            assert(after.scan.positions[0] == scan.positions[0]);
            assert(scan.handled[p]);
        }
    }
}

/// A packet that waits is held under its key.
proof fn lemma_waiting_is_held(keys: Seq<PacketKey>, state: ProcessState, place: int)
    requires
        process_inv(keys, state),
        0 <= place < keys.len(),
        !state.scan.handled[place],
    ensures
        is_stored(state.stored, keys[place]),
{
    let batch = batch_keys(keys, state.scan);
    let rest = waiting(keys, state.scan.handled);
    lemma_waiting(keys, state.scan.handled);
    assert(!state.scan.handled[place] && keys[place] == keys[place]);
    lemma_concat(state.requeued + batch, rest);
    assert((state.requeued + batch + rest).contains(keys[place]));
}

/// The packets of a batch are held under their keys.
proof fn lemma_batch_is_held(keys: Seq<PacketKey>, state: ProcessState)
    requires
        process_inv(keys, state),
    ensures
        all_held(state.stored, batch_keys(keys, state.scan)),
{
    let batch = batch_keys(keys, state.scan);
    let rest = waiting(keys, state.scan.handled);
    lemma_concat(state.requeued + batch, rest);
    lemma_concat(state.requeued, batch);
    assert forall|i: int| 0 <= i < batch.len() implies state.stored.contains_key(
        spec_hash_of(#[trigger] batch[i]),
    ) by {
        assert(batch.contains(batch[i]));
        assert((state.requeued + batch + rest).contains(batch[i]));
        assert(is_stored(state.stored, batch[i]));
    }
}

/// Processing a batch keeps the books in order.
proof fn lemma_batch(
    keys: Seq<PacketKey>,
    before: ProcessState,
    answer: (Option<Vec<usize>>, ConsumeScannerPayload),
)
    requires
        process_inv(keys, before),
        keys.len() <= usize::MAX,
        before.scan.action() is Process,
        proper_places(batch_keys(keys, before.scan).len(), answer.0),
    ensures
        process_inv(
            keys,
            processed(
                before,
                batch_keys(keys, before.scan),
                index_view(answer.0),
                answer.1@,
            ),
        ),
        processed(
            before,
            batch_keys(keys, before.scan),
            index_view(answer.0),
            answer.1@,
        ).stored.dom().subset_of(before.stored.dom()),
{
    let scan = before.scan;
    let batch = batch_keys(keys, scan);
    let rest = waiting(keys, scan.handled);
    let after = processed(before, batch, index_view(answer.0), answer.1@);
    crate::scanner::lemma_next_batch(scan);
    assert(batch_keys(keys, after.scan) =~= Seq::<PacketKey>::empty());
    assert(after.requeued + batch_keys(keys, after.scan) =~= after.requeued);
    match answer.0 {
        Some(places) => {
            assert(batch.len() <= keys.len()) by {
                assert(scan.batch().len() == scan.iterator);
                lemma_ascending_bound(scan.batch(), keys.len() as int);
            }
            lemma_retain(before.requeued, batch, rest, before.stored, places@);
        },
        None => {},
    }
}

/// There are no more ascending numbers below a bound than the bound.
proof fn lemma_ascending_bound(places: Seq<usize>, bound: int)
    requires
        ascending(places),
        bound >= 0,
        forall|i: int| 0 <= i < places.len() ==> #[trigger] places[i] < bound,
    ensures
        places.len() <= bound,
    decreases places.len(),
{
    if places.len() > 0 {
        let shorter = places.drop_last();
        assert forall|i: int| 0 <= i < shorter.len() implies #[trigger] shorter[i]
            < places.last() by {
            assert(places[i] < places[places.len() - 1]);
        }
        assert(ascending(shorter)) by {
            assert forall|i: int, j: int| 0 <= i < j < shorter.len() implies #[trigger] shorter[i]
                < #[trigger] shorter[j] by {
                assert(places[i] < places[j]);
            }
        }
        lemma_ascending_bound(shorter, places.last() as int);
    }
}

/// Once the scan has nothing more to ask for and every packet was handled, what is held is what was
/// given back.
pub proof fn lemma_finish(keys: Seq<PacketKey>, state: ProcessState)
    requires
        process_inv(keys, state),
        state.scan.action() is Finish,
        forall|p: int| 0 <= p < keys.len() ==> #[trigger] state.scan.handled[p],
    ensures
        list_matches(state.requeued, state.stored),
{
    let scan = state.scan;
    lemma_next_unhandled(scan.handled, scan.cursor as int);
    lemma_waiting(keys, scan.handled);
    let rest = waiting(keys, scan.handled);
    assert(rest =~= Seq::<PacketKey>::empty()) by {
        if rest.len() > 0 {
            assert(rest.contains(rest[0]));
        }
    }
    assert(batch_keys(keys, scan) =~= Seq::<PacketKey>::empty());
    assert(state.requeued + batch_keys(keys, scan) + rest =~= state.requeued);
}

impl ThreadLocalUnprocessedPackets {
    /// Processing all packets leads to the other state.
    pub open spec fn processes<
        S: FnMut(&SharedPacket) -> Option<SanitizedTransaction>,
        P: FnMut(&SanitizedTransaction) -> bool,
        F: FnMut(&Vec<SharedPacket>, ConsumeScannerPayload) -> (
            Option<Vec<usize>>,
            ConsumeScannerPayload,
        ),
    >(
        &self,
        sanitize: S,
        check_fee_payer: P,
        processing_function: F,
        limits: ConsumeLimits,
        slot_metrics: SlotMetrics,
        calls: ConsumeCalls,
        after: &ThreadLocalUnprocessedPackets,
        reached_end_of_slot: bool,
        slot_metrics_after: SlotMetrics,
        calls_after: ConsumeCalls,
    ) -> bool {
        &&& after.same_rules(self)
        &&& exists|keys: Seq<PacketKey>, states: Seq<ProcessState>|
            {
                &&& keys.to_multiset() == self.unprocessed_packet_batches.queued()
                &&& descending(keys)
                &&& #[trigger] process_run(
                    sanitize,
                    check_fee_payer,
                    processing_function,
                    limits,
                    keys,
                    states,
                )
                &&& states.first() == process_start(
                    keys.len(),
                    self.stored(),
                    slot_metrics,
                    calls,
                )
                &&& states.last().scan.action() is Finish
                &&& states.last().stored == after.stored()
                &&& states.last().payload.reached_end_of_slot == reached_end_of_slot
                &&& states.last().payload.slot_metrics == slot_metrics_after
                &&& states.last().calls == calls_after
            }
    }

    /// No way in which the processing of all packets can go ends with a packet that was neither
    /// given out in a batch nor dropped.
    pub open spec fn leaves_nothing<
        S: FnMut(&SharedPacket) -> Option<SanitizedTransaction>,
        P: FnMut(&SanitizedTransaction) -> bool,
        F: FnMut(&Vec<SharedPacket>, ConsumeScannerPayload) -> (
            Option<Vec<usize>>,
            ConsumeScannerPayload,
        ),
    >(
        &self,
        sanitize: S,
        check_fee_payer: P,
        processing_function: F,
        limits: ConsumeLimits,
    ) -> bool {
        forall|keys: Seq<PacketKey>, states: Seq<ProcessState>|
            {
                &&& keys.to_multiset() == self.unprocessed_packet_batches.queued()
                &&& descending(keys)
                &&& #[trigger] process_run(
                    sanitize,
                    check_fee_payer,
                    processing_function,
                    limits,
                    keys,
                    states,
                )
                &&& states.first() == process_start(
                    keys.len(),
                    self.stored(),
                    states.first().payload.slot_metrics,
                    states.first().calls,
                )
                &&& states.last().scan.action() is Finish
            } ==> forall|p: int| 0 <= p < keys.len() ==> #[trigger] states.last().scan.handled[p]
    }

    /// Forms batches of the packets, from the highest priority down, and gives them to the
    /// processing function, which names the packets to retry by their place in the batch; naming
    /// nothing at all means that all of them are to be retried. The others are dropped. The result
    /// says whether the end of the slot was reached. Locks that are not given back may hold packets
    /// up, but no packet may be left over for it. The time that sanitizing takes is counted.
    pub fn process_packets<
        S: FnMut(&SharedPacket) -> Option<SanitizedTransaction>,
        P: FnMut(&SanitizedTransaction) -> bool,
        F: FnMut(&Vec<SharedPacket>, ConsumeScannerPayload) -> (
            Option<Vec<usize>>,
            ConsumeScannerPayload,
        ),
    >(
        &mut self,
        sanitize: &mut Inquiry<SharedPacket, Option<SanitizedTransaction>, S>,
        check_fee_payer: &mut Inquiry<SanitizedTransaction, bool, P>,
        processing_function: &mut BatchProcessing<F>,
        limits: &ConsumeLimits,
        slot_metrics: &mut SlotMetrics,
    ) -> (reached_end_of_slot: bool)
        requires
            old(self).wf(),
            old(sanitize).takes_all(),
            old(check_fee_payer).takes_all(),
            old(processing_function).takes_all(),
            forall|
                batch: &Vec<SharedPacket>,
                payload: ConsumeScannerPayload,
                answer: (Option<Vec<usize>>, ConsumeScannerPayload),
            |
                call_ensures(old(processing_function).function(), (batch, payload), answer)
                    ==> proper_places(batch@.len(), answer.0),
            old(self).leaves_nothing(
                old(sanitize).function(),
                old(check_fee_payer).function(),
                old(processing_function).function(),
                *limits,
            ),
        ensures
            final(sanitize).function() == old(sanitize).function(),
            final(check_fee_payer).function() == old(check_fee_payer).function(),
            final(processing_function).function() == old(processing_function).function(),
            final(self).wf(),
            old(self).processes(
                old(sanitize).function(),
                old(check_fee_payer).function(),
                old(processing_function).function(),
                *limits,
                *old(slot_metrics),
                calls_of_consume(old(sanitize), old(check_fee_payer), old(processing_function)),
                final(self),
                reached_end_of_slot,
                *final(slot_metrics),
                calls_of_consume(
                    final(sanitize),
                    final(check_fee_payer),
                    final(processing_function),
                ),
            ),
    {
        let ghost sanitize0 = sanitize.function();
        let ghost check0 = check_fee_payer.function();
        let ghost function0 = processing_function.function();
        let ghost calls = calls_of_consume(sanitize, check_fee_payer, processing_function);
        let ghost original = self.stored();
        let ghost queue = self.unprocessed_packet_batches.queued();
        proof {
            self.unprocessed_packet_batches.lemma_wf();
        }
        let all_packets_to_process = self.take_priority_queue();
        let total: usize = all_packets_to_process.len();
        let ghost keys = all_packets_to_process@;
        let (mut scanner, mut payload) = create_consume_multi_iterator(total, *slot_metrics);
        let mut requeued: Vec<PacketKey> = Vec::new();
        let ghost start = process_start(keys.len(), original, *slot_metrics, calls);
        let ghost mut states: Seq<ProcessState> = seq![start];
        proof {
            lemma_queue_to_list(keys, queue, original);
            lemma_start(keys, original, *slot_metrics, calls);
        }
        let mut action = scanner.action();
        while action != ScanAction::Finish
            invariant
                keys == all_packets_to_process@,
                keys.len() == total,
                sanitize.function() == sanitize0,
                check_fee_payer.function() == check0,
                processing_function.function() == function0,
                sanitize.takes_all(),
                check_fee_payer.takes_all(),
                processing_function.takes_all(),
                forall|
                    batch: &Vec<SharedPacket>,
                    payload: ConsumeScannerPayload,
                    answer: (Option<Vec<usize>>, ConsumeScannerPayload),
                |
                    call_ensures(function0, (batch, payload), answer) ==> proper_places(
                        batch@.len(),
                        answer.0,
                    ),
                self.unprocessed_packet_batches.message_hash_to_transaction.wf(),
                self.unprocessed_packet_batches.queued() == Multiset::<PacketKey>::empty(),
                self.limit() == old(self).limit(),
                self.thread_type == old(self).thread_type,
                self.stored().dom().subset_of(original.dom()),
                process_run(sanitize0, check0, function0, *limits, keys, states),
                states.first() == start,
                states.last() == (ProcessState {
                    scan: scanner@,
                    payload: payload@,
                    stored: self.stored(),
                    requeued: requeued@,
                    calls: calls_of_consume(sanitize, check_fee_payer, processing_function),
                }),
                process_inv(keys, states.last()),
                action == scanner@.action(),
            decreases
                unhandled_count(scanner@.handled),
                scanner@.iterator,
                scanner@.handled.len() - scanner@.cursor,
        {
            let ghost before = states.last();
            match action {
                ScanAction::Examine(place) => {
                    proof {
                        lemma_next_unhandled(scanner@.handled, scanner@.cursor as int);
                    }
                    let key = all_packets_to_process[place];
                    proof {
                        lemma_waiting_is_held(keys, before, place as int);
                    }
                    let packet = self.unprocessed_packet_batches.packet(key);
                    let decision = consume_scan_should_process_packet(
                        sanitize,
                        check_fee_payer,
                        &packet,
                        &mut payload,
                        &mut self.unprocessed_packet_batches.message_hash_to_transaction,
                        limits,
                    );
                    proof {
                        crate::scanner::lemma_decided(scanner@, decision);
                        let after = ProcessState {
                            scan: scanner@.decided(decision),
                            payload: payload@,
                            stored: self.stored(),
                            requeued: requeued@,
                            calls: calls_of_consume(sanitize, check_fee_payer, processing_function),
                        };
                        lemma_examine(sanitize0, check0, *limits, keys, before, decision, after);
                    }
                    scanner.decide(place, decision);
                },
                _ => {
                    let places = scanner.batch();
                    let packets_to_process = ThreadLocalUnprocessedPackets::packets_at(
                        &all_packets_to_process,
                        &places,
                    );
                    proof {
                        lemma_batch_is_held(keys, before);
                    }
                    let batch = self.unprocessed_packet_batches.packets(&packets_to_process);
                    let (retryable, returned) = processing_function.process(&batch, payload);
                    payload = returned;
                    proof {
                        lemma_batch(keys, before, (retryable, returned));
                        assert(batch_processed_by(
                            function0,
                            batch@,
                            before.payload,
                            index_view(retryable),
                            payload@,
                        ));
                    }
                    let mut retained = match retryable {
                        Some(retryable_transaction_indexes) => Self::collect_retained_packets(
                            &mut self.unprocessed_packet_batches.message_hash_to_transaction,
                            &packets_to_process,
                            &retryable_transaction_indexes,
                        ),
                        None => packets_to_process,
                    };
                    requeued.append(&mut retained);
                    scanner.next_batch();
                },
            }
            proof {
                let after = ProcessState {
                    scan: scanner@,
                    payload: payload@,
                    stored: self.stored(),
                    requeued: requeued@,
                    calls: calls_of_consume(sanitize, check_fee_payer, processing_function),
                };
                assert(process_step(sanitize0, check0, function0, *limits, keys, before, after));
                lemma_run_push(sanitize0, check0, function0, *limits, keys, states, after);
                states = states.push(after);
            }
            action = scanner.action();
        }
        proof {
            assert(process_run(sanitize0, check0, function0, *limits, keys, states));
            lemma_finish(keys, states.last());
            lemma_list_to_queue(requeued@, self.stored());
            vstd::set_lib::lemma_len_subset(self.stored().dom(), original.dom());
        }
        let reached_end_of_slot = payload.reached_end_of_slot;
        *slot_metrics = payload.slot_metrics;
        self.unprocessed_packet_batches.extend_priority_queue(requeued);
        reached_end_of_slot
    }

    /// The packets at the given places.
    pub(crate) fn packets_at(packets: &Vec<PacketKey>, places: &Vec<usize>) -> (picked: Vec<PacketKey>)
        requires
            forall|i: int| 0 <= i < places@.len() ==> #[trigger] places@[i] < packets@.len(),
        ensures
            picked@ == pick(packets@, places@),
    {
        let mut picked: Vec<PacketKey> = Vec::new();
        let mut i: usize = 0;
        while i < places.len()
            invariant
                i <= places@.len(),
                forall|k: int| 0 <= k < places@.len() ==> #[trigger] places@[k] < packets@.len(),
                picked@ == pick(packets@, places@.take(i as int)),
            decreases places.len() - i,
        {
            picked.push(packets[places[i]]);
            i += 1;
            assert(picked@ =~= pick(packets@, places@.take(i as int)));
        }
        assert(places@.take(i as int) =~= places@);
        picked
    }
}

/// The books are in order at the start.
proof fn lemma_start(
    keys: Seq<PacketKey>,
    stored: Stored,
    slot_metrics: SlotMetrics,
    calls: ConsumeCalls,
)
    requires
        list_matches(keys, stored),
        keys.len() <= usize::MAX,
    ensures
        process_inv(keys, process_start(keys.len(), stored, slot_metrics, calls)),
{
    let state = process_start(keys.len(), stored, slot_metrics, calls);
    lemma_waiting_all(keys, keys.len() as int);
    assert(keys.take(keys.len() as int) =~= keys);
    assert(state.requeued + batch_keys(keys, state.scan) + keys =~= keys);
}

/// At the start every packet waits.
proof fn lemma_waiting_all(keys: Seq<PacketKey>, n: int)
    requires
        0 <= n <= keys.len(),
    ensures
        waiting(keys, Seq::new(n as nat, |i: int| false)) == keys.take(n),
    decreases n,
{
    if n > 0 {
        lemma_waiting_all(keys, n - 1);
        assert(Seq::new(n as nat, |i: int| false).drop_last() =~= Seq::new(
            (n - 1) as nat,
            |i: int| false,
        ));
        assert(keys.take(n - 1).push(keys[n - 1]) =~= keys.take(n));
    } else {
        assert(keys.take(0) =~= Seq::<PacketKey>::empty());
    }
}

/// A run goes on with one more step.
proof fn lemma_run_push<
    S: FnMut(&SharedPacket) -> Option<SanitizedTransaction>,
    P: FnMut(&SanitizedTransaction) -> bool,
    F: FnMut(&Vec<SharedPacket>, ConsumeScannerPayload) -> (Option<Vec<usize>>, ConsumeScannerPayload),
>(
    sanitize: S,
    check_fee_payer: P,
    processing_function: F,
    limits: ConsumeLimits,
    keys: Seq<PacketKey>,
    states: Seq<ProcessState>,
    after: ProcessState,
)
    requires
        process_run(sanitize, check_fee_payer, processing_function, limits, keys, states),
        process_step(
            sanitize,
            check_fee_payer,
            processing_function,
            limits,
            keys,
            states.last(),
            after,
        ),
    ensures
        process_run(
            sanitize,
            check_fee_payer,
            processing_function,
            limits,
            keys,
            states.push(after),
        ),
{
    let more = states.push(after);
    assert forall|i: int| 0 <= i < more.len() - 1 implies process_step(
        sanitize,
        check_fee_payer,
        processing_function,
        limits,
        keys,
        #[trigger] more[i],
        more[i + 1],
    ) by {
        assert(more[i] == states[i]);
        if i < states.len() - 1 {
            assert(more[i + 1] == states[i + 1]);
        }
    }
}

/// Where the processing function gives the locks of each batch back, processing handles every
/// packet, whatever is decided about each of them.
pub proof fn law_every_packet_is_handled<
    S: FnMut(&SharedPacket) -> Option<SanitizedTransaction>,
    P: FnMut(&SanitizedTransaction) -> bool,
    F: FnMut(&Vec<SharedPacket>, ConsumeScannerPayload) -> (Option<Vec<usize>>, ConsumeScannerPayload),
>(
    storage: ThreadLocalUnprocessedPackets,
    sanitize: S,
    check_fee_payer: P,
    processing_function: F,
    limits: ConsumeLimits,
)
    requires
        storage.wf(),
        forall|
            batch: &Vec<SharedPacket>,
            payload: ConsumeScannerPayload,
            answer: (Option<Vec<usize>>, ConsumeScannerPayload),
        |
            call_ensures(processing_function, (batch, payload), answer) ==> proper_answer(
                batch@.len(),
                answer,
            ),
    ensures
        storage.leaves_nothing(sanitize, check_fee_payer, processing_function, limits),
{
    let queue = storage.unprocessed_packet_batches.queued();
    let stored = storage.stored();
    storage.unprocessed_packet_batches.lemma_wf();
    assert forall|keys: Seq<PacketKey>, states: Seq<ProcessState>|
        {
            &&& keys.to_multiset() == queue
            &&& descending(keys)
            &&& #[trigger] process_run(
                sanitize,
                check_fee_payer,
                processing_function,
                limits,
                keys,
                states,
            )
            &&& states.first() == process_start(
                keys.len(),
                stored,
                states.first().payload.slot_metrics,
                states.first().calls,
            )
            &&& states.last().scan.action() is Finish
        } implies forall|p: int| 0 <= p < keys.len() ==> #[trigger]
        states.last().scan.handled[p] by {
        lemma_queue_to_list(keys, queue, stored);
        keys.to_multiset_ensures();
        let n = states.len() - 1;
        lemma_run_inv(
            sanitize,
            check_fee_payer,
            processing_function,
            limits,
            keys,
            stored,
            states.first().payload.slot_metrics,
            states.first().calls,
            states,
            n,
        );
        lemma_run_leads(
            sanitize,
            check_fee_payer,
            processing_function,
            limits,
            keys,
            stored,
            states.first().payload.slot_metrics,
            states.first().calls,
            states,
            n,
        );
        let scan = states.last().scan;
        lemma_next_unhandled(scan.handled, scan.cursor as int);
        assert forall|p: int| 0 <= p < keys.len() implies #[trigger] scan.handled[p] by {
            if p >= scan.cursor {
                assert(scan.handled[p]);
            }
        }
    }
}

/// Processing that handles every packet keeps just the packets that were given back for another
/// try.
pub proof fn law_only_retried_packets_stay<
    S: FnMut(&SharedPacket) -> Option<SanitizedTransaction>,
    P: FnMut(&SanitizedTransaction) -> bool,
    F: FnMut(&Vec<SharedPacket>, ConsumeScannerPayload) -> (Option<Vec<usize>>, ConsumeScannerPayload),
>(
    sanitize: S,
    check_fee_payer: P,
    processing_function: F,
    limits: ConsumeLimits,
    keys: Seq<PacketKey>,
    stored: Stored,
    slot_metrics: SlotMetrics,
    calls: ConsumeCalls,
    states: Seq<ProcessState>,
)
    requires
        list_matches(keys, stored),
        keys.len() <= usize::MAX,
        forall|
            batch: &Vec<SharedPacket>,
            payload: ConsumeScannerPayload,
            answer: (Option<Vec<usize>>, ConsumeScannerPayload),
        |
            call_ensures(processing_function, (batch, payload), answer) ==> proper_places(
                batch@.len(),
                answer.0,
            ),
        process_run(sanitize, check_fee_payer, processing_function, limits, keys, states),
        states.first() == process_start(keys.len(), stored, slot_metrics, calls),
        states.last().scan.action() is Finish,
        forall|p: int| 0 <= p < keys.len() ==> #[trigger] states.last().scan.handled[p],
    ensures
        list_matches(states.last().requeued, states.last().stored),
        states.last().stored.dom().subset_of(stored.dom()),
{
    lemma_run_inv(
        sanitize,
        check_fee_payer,
        processing_function,
        limits,
        keys,
        stored,
        slot_metrics,
        calls,
        states,
        states.len() - 1,
    );
    lemma_finish(keys, states.last());
}

/// The books are in order in every state of a run.
pub proof fn lemma_run_inv<
    S: FnMut(&SharedPacket) -> Option<SanitizedTransaction>,
    P: FnMut(&SanitizedTransaction) -> bool,
    F: FnMut(&Vec<SharedPacket>, ConsumeScannerPayload) -> (Option<Vec<usize>>, ConsumeScannerPayload),
>(
    sanitize: S,
    check_fee_payer: P,
    processing_function: F,
    limits: ConsumeLimits,
    keys: Seq<PacketKey>,
    stored: Stored,
    slot_metrics: SlotMetrics,
    calls: ConsumeCalls,
    states: Seq<ProcessState>,
    n: int,
)
    requires
        list_matches(keys, stored),
        keys.len() <= usize::MAX,
        forall|
            batch: &Vec<SharedPacket>,
            payload: ConsumeScannerPayload,
            answer: (Option<Vec<usize>>, ConsumeScannerPayload),
        |
            call_ensures(processing_function, (batch, payload), answer) ==> proper_places(
                batch@.len(),
                answer.0,
            ),
        process_run(sanitize, check_fee_payer, processing_function, limits, keys, states),
        states.first() == process_start(keys.len(), stored, slot_metrics, calls),
        0 <= n < states.len(),
    ensures
        process_inv(keys, states[n]),
        states[n].stored.dom().subset_of(stored.dom()),
    decreases n,
{
    if n == 0 {
        lemma_start(keys, stored, slot_metrics, calls);
    } else {
        lemma_run_inv(
            sanitize,
            check_fee_payer,
            processing_function,
            limits,
            keys,
            stored,
            slot_metrics,
            calls,
            states,
            n - 1,
        );
        let before = states[n - 1];
        let after = states[n];
        assert(process_step(
            sanitize,
            check_fee_payer,
            processing_function,
            limits,
            keys,
            states[n - 1],
            states[n - 1 + 1],
        ));
        match before.scan.action() {
            ScanAction::Examine(place) => {
                let decision = choose|decision: ProcessingDecision|
                    {
                        &&& #[trigger] examine_step(
                            sanitize,
                            check_fee_payer,
                            limits,
                            before.stored[spec_hash_of(keys[place as int])].immutable_section,
                            (before.payload, before.stored, before.calls.scan),
                            decision,
                            (after.payload, after.stored, after.calls.scan),
                        )
                        &&& after.scan == before.scan.decided(decision)
                        &&& after.requeued == before.requeued
                        &&& after.calls.batches == before.calls.batches
                    };
                lemma_examine(sanitize, check_fee_payer, limits, keys, before, decision, after);
            },
            ScanAction::Process => {
                let batch = batch_keys(keys, before.scan);
                let (retryable, returned) = choose|
                    retryable: Option<Seq<usize>>,
                    returned: Payload,
                |
                    {
                        &&& #[trigger] batch_processed_by(
                            processing_function,
                            packets_of(before.stored, batch),
                            before.payload,
                            retryable,
                            returned,
                        )
                        &&& after == processed(before, batch, retryable, returned)
                    };
                let (given_batch, given, answer) = choose|
                    given_batch: Vec<SharedPacket>,
                    given: ConsumeScannerPayload,
                    answer: (Option<Vec<usize>>, ConsumeScannerPayload),
                |
                    {
                        &&& #[trigger] call_ensures(
                            processing_function,
                            (&given_batch, given),
                            answer,
                        )
                        &&& given_batch@ == packets_of(before.stored, batch)
                        &&& given@ == before.payload
                        &&& index_view(answer.0) == retryable
                        &&& answer.1@ == returned
                    };
                lemma_batch(keys, before, answer);
            },
            ScanAction::Finish => {},
        }
    }
}

/// Where locks are given back, the first iterator leaves no packet behind it in any state of a run.
proof fn lemma_run_leads<
    S: FnMut(&SharedPacket) -> Option<SanitizedTransaction>,
    P: FnMut(&SanitizedTransaction) -> bool,
    F: FnMut(&Vec<SharedPacket>, ConsumeScannerPayload) -> (Option<Vec<usize>>, ConsumeScannerPayload),
>(
    sanitize: S,
    check_fee_payer: P,
    processing_function: F,
    limits: ConsumeLimits,
    keys: Seq<PacketKey>,
    stored: Stored,
    slot_metrics: SlotMetrics,
    calls: ConsumeCalls,
    states: Seq<ProcessState>,
    n: int,
)
    requires
        list_matches(keys, stored),
        keys.len() <= usize::MAX,
        forall|
            batch: &Vec<SharedPacket>,
            payload: ConsumeScannerPayload,
            answer: (Option<Vec<usize>>, ConsumeScannerPayload),
        |
            call_ensures(processing_function, (batch, payload), answer) ==> proper_answer(
                batch@.len(),
                answer,
            ),
        process_run(sanitize, check_fee_payer, processing_function, limits, keys, states),
        states.first() == process_start(keys.len(), stored, slot_metrics, calls),
        0 <= n < states.len(),
    ensures
        leads(states[n]),
    decreases n,
{
    if n > 0 {
        lemma_run_inv(
            sanitize,
            check_fee_payer,
            processing_function,
            limits,
            keys,
            stored,
            slot_metrics,
            calls,
            states,
            n - 1,
        );
        lemma_run_leads(
            sanitize,
            check_fee_payer,
            processing_function,
            limits,
            keys,
            stored,
            slot_metrics,
            calls,
            states,
            n - 1,
        );
        let before = states[n - 1];
        let after = states[n];
        assert(process_step(
            sanitize,
            check_fee_payer,
            processing_function,
            limits,
            keys,
            states[n - 1],
            states[n - 1 + 1],
        ));
        match before.scan.action() {
            ScanAction::Examine(place) => {
                let decision = choose|decision: ProcessingDecision|
                    {
                        &&& #[trigger] examine_step(
                            sanitize,
                            check_fee_payer,
                            limits,
                            before.stored[spec_hash_of(keys[place as int])].immutable_section,
                            (before.payload, before.stored, before.calls.scan),
                            decision,
                            (after.payload, after.stored, after.calls.scan),
                        )
                        &&& after.scan == before.scan.decided(decision)
                        &&& after.requeued == before.requeued
                        &&& after.calls.batches == before.calls.batches
                    };
                lemma_examine_leads(
                    sanitize,
                    check_fee_payer,
                    limits,
                    before.stored[spec_hash_of(keys[place as int])].immutable_section,
                    before,
                    decision,
                    after,
                );
            },
            ScanAction::Process => {
                let batch = batch_keys(keys, before.scan);
                let (retryable, returned) = choose|
                    retryable: Option<Seq<usize>>,
                    returned: Payload,
                |
                    {
                        &&& #[trigger] batch_processed_by(
                            processing_function,
                            packets_of(before.stored, batch),
                            before.payload,
                            retryable,
                            returned,
                        )
                        &&& after == processed(before, batch, retryable, returned)
                    };
                let (given_batch, given, answer) = choose|
                    given_batch: Vec<SharedPacket>,
                    given: ConsumeScannerPayload,
                    answer: (Option<Vec<usize>>, ConsumeScannerPayload),
                |
                    {
                        &&& #[trigger] call_ensures(
                            processing_function,
                            (&given_batch, given),
                            answer,
                        )
                        &&& given_batch@ == packets_of(before.stored, batch)
                        &&& given@ == before.payload
                        &&& index_view(answer.0) == retryable
                        &&& answer.1@ == returned
                    };
                assert forall|p: int| 0 <= p < after.scan.cursor implies #[trigger]
                after.scan.handled[p] by {
                    assert(before.scan.handled[p]);
                }
            },
            ScanAction::Finish => {},
        }
    }
}

/// The packets of batches, in the order in which they were given out.
pub open spec fn packets_in(batches: Seq<BatchCall>) -> Seq<SharedPacket>
    decreases batches.len(),
{
    if batches.len() == 0 {
        Seq::empty()
    } else {
        packets_in(batches.drop_last()) + batches.last().batch
    }
}

/// The packets that were given out in batches since a number of them are those of the keys, which
/// are in no batch and do not wait any more.
spec fn given_out(keys: Seq<PacketKey>, state: ProcessState, from: int, out: Seq<PacketKey>) -> bool {
    let packets = packets_in(state.calls.batches.skip(from));
    &&& 0 <= from <= state.calls.batches.len()
    &&& (out + batch_keys(keys, state.scan) + waiting(keys, state.scan.handled)).no_duplicates()
    &&& forall|x: PacketKey| #[trigger] out.contains(x) ==> keys.contains(x)
    &&& packets.len() == out.len()
    &&& forall|i: int|
        0 <= i < out.len() ==> (#[trigger] packets[i]).message_hash == spec_hash_of(out[i])
}

/// Looking at a packet gives none out.
proof fn lemma_examine_gives_nothing_out(
    keys: Seq<PacketKey>,
    before: ProcessState,
    decision: ProcessingDecision,
    after: ProcessState,
    from: int,
    out: Seq<PacketKey>,
)
    requires
        process_inv(keys, before),
        before.scan.action() is Examine,
        after.scan == before.scan.decided(decision),
        after.calls.batches == before.calls.batches,
        given_out(keys, before, from, out),
    ensures
        given_out(keys, after, from, out),
{
    let scan = before.scan;
    let place = before.scan.action()->0 as int;
    let key = keys[place];
    let batch = batch_keys(keys, scan);
    let batch_after = batch_keys(keys, after.scan);
    let rest = waiting(keys, scan.handled);
    let rest_after = waiting(keys, after.scan.handled);
    lemma_next_unhandled(scan.handled, scan.cursor as int);
    crate::scanner::lemma_decided(scan, decision);
    lemma_waiting_handled(keys, scan.handled, place);
    lemma_concat(out + batch, rest);
    lemma_concat(out, batch);
    lemma_concat(out + batch_after, rest_after);
    lemma_concat(out, batch_after);
    match decision {
        ProcessingDecision::Now => {
            assert(after.scan.batch() =~= scan.batch().push(place as usize));
            assert(batch_after =~= batch + seq![key]);
            lemma_concat(batch, seq![key]);
            assert(seq![key][0] == key);
            assert(!(out + batch).contains(key));
            assert forall|x: PacketKey| #[trigger] seq![key].contains(x) implies x == key by {}
            assert forall|x: PacketKey| !(#[trigger] out.contains(x) && batch_after.contains(x)) by {
                assert(!(out.contains(x) && batch.contains(x)));
            }
            assert forall|x: PacketKey| !(#[trigger] (out + batch_after).contains(x)
                && rest_after.contains(x)) by {
                assert(!((out + batch).contains(x) && rest.contains(x)));
            }
        },
        ProcessingDecision::Later => {
            assert(batch_after =~= batch);
        },
        ProcessingDecision::Never => {
            assert(batch_after =~= batch);
            assert forall|x: PacketKey| !(#[trigger] (out + batch_after).contains(x)
                && rest_after.contains(x)) by {
                assert(!((out + batch).contains(x) && rest.contains(x)));
            }
        },
    }
}

/// Processing a batch gives its packets out.
proof fn lemma_batch_is_given_out(
    keys: Seq<PacketKey>,
    before: ProcessState,
    retryable: Option<Seq<usize>>,
    returned: Payload,
    from: int,
    out: Seq<PacketKey>,
)
    requires
        process_inv(keys, before),
        before.scan.action() is Process,
        given_out(keys, before, from, out),
    ensures
        given_out(
            keys,
            processed(before, batch_keys(keys, before.scan), retryable, returned),
            from,
            out + batch_keys(keys, before.scan),
        ),
{
    let scan = before.scan;
    let batch = batch_keys(keys, scan);
    let rest = waiting(keys, scan.handled);
    let after = processed(before, batch, retryable, returned);
    let more = out + batch;
    let calls = before.calls.batches.skip(from);
    let calls_after = after.calls.batches.skip(from);
    let packets = packets_of(before.stored, batch);
    assert(calls_after.drop_last() =~= calls);
    assert(calls_after.last().batch == packets);
    assert(packets_in(calls_after) =~= packets_in(calls) + packets);
    crate::scanner::lemma_next_batch(scan);
    assert(batch_keys(keys, after.scan) =~= Seq::<PacketKey>::empty());
    assert(more + batch_keys(keys, after.scan) + rest =~= more + rest);
    lemma_concat(before.requeued + batch, rest);
    lemma_concat(before.requeued, batch);
    assert forall|i: int| 0 <= i < batch.len() implies (#[trigger] packets[i]).message_hash
        == spec_hash_of(batch[i]) by {
        assert(batch.contains(batch[i]));
        assert((before.requeued + batch + rest).contains(batch[i]));
        assert(is_stored(before.stored, batch[i]));
    }
    lemma_concat(out, batch);
    assert forall|x: PacketKey| #[trigger] more.contains(x) implies keys.contains(x) by {
        if batch.contains(x) {
            let i = choose|i: int| 0 <= i < batch.len() && batch[i] == x;
            assert(scan.batch()[i] == scan.positions[i]);
            assert(scan.positions[i] < scan.handled.len());
            assert(keys[scan.batch()[i] as int] == x);
        }
    }
    assert forall|i: int| 0 <= i < more.len() implies (#[trigger] packets_in(
        calls_after,
    )[i]).message_hash == spec_hash_of(more[i]) by {
        if i < out.len() {
            assert(packets_in(calls_after)[i] == packets_in(calls)[i]);
        } else {
            assert(packets_in(calls_after)[i] == packets[i - out.len()]);
        }
    }
}

/// In every state of a run, what was given out in batches so far is in no batch and does not wait.
proof fn lemma_run_gives_out<
    S: FnMut(&SharedPacket) -> Option<SanitizedTransaction>,
    P: FnMut(&SanitizedTransaction) -> bool,
    F: FnMut(&Vec<SharedPacket>, ConsumeScannerPayload) -> (Option<Vec<usize>>, ConsumeScannerPayload),
>(
    sanitize: S,
    check_fee_payer: P,
    processing_function: F,
    limits: ConsumeLimits,
    keys: Seq<PacketKey>,
    stored: Stored,
    slot_metrics: SlotMetrics,
    calls: ConsumeCalls,
    states: Seq<ProcessState>,
    n: int,
) -> (out: Seq<PacketKey>)
    requires
        list_matches(keys, stored),
        keys.len() <= usize::MAX,
        forall|
            batch: &Vec<SharedPacket>,
            payload: ConsumeScannerPayload,
            answer: (Option<Vec<usize>>, ConsumeScannerPayload),
        |
            call_ensures(processing_function, (batch, payload), answer) ==> proper_places(
                batch@.len(),
                answer.0,
            ),
        process_run(sanitize, check_fee_payer, processing_function, limits, keys, states),
        states.first() == process_start(keys.len(), stored, slot_metrics, calls),
        0 <= n < states.len(),
    ensures
        given_out(keys, states[n], calls.batches.len() as int, out),
    decreases n,
{
    let from = calls.batches.len() as int;
    if n == 0 {
        let state = states[0];
        lemma_start(keys, stored, slot_metrics, calls);
        lemma_waiting(keys, state.scan.handled);
        let out = Seq::<PacketKey>::empty();
        assert(out + batch_keys(keys, state.scan) + waiting(keys, state.scan.handled) =~= waiting(
            keys,
            state.scan.handled,
        ));
        assert(calls.batches.skip(from) =~= Seq::<BatchCall>::empty());
        out
    } else {
        let earlier = lemma_run_gives_out(
            sanitize,
            check_fee_payer,
            processing_function,
            limits,
            keys,
            stored,
            slot_metrics,
            calls,
            states,
            n - 1,
        );
        lemma_run_inv(
            sanitize,
            check_fee_payer,
            processing_function,
            limits,
            keys,
            stored,
            slot_metrics,
            calls,
            states,
            n - 1,
        );
        let before = states[n - 1];
        let after = states[n];
        assert(process_step(
            sanitize,
            check_fee_payer,
            processing_function,
            limits,
            keys,
            states[n - 1],
            states[n - 1 + 1],
        ));
        match before.scan.action() {
            ScanAction::Examine(place) => {
                let decision = choose|decision: ProcessingDecision|
                    {
                        &&& #[trigger] examine_step(
                            sanitize,
                            check_fee_payer,
                            limits,
                            before.stored[spec_hash_of(keys[place as int])].immutable_section,
                            (before.payload, before.stored, before.calls.scan),
                            decision,
                            (after.payload, after.stored, after.calls.scan),
                        )
                        &&& after.scan == before.scan.decided(decision)
                        &&& after.requeued == before.requeued
                        &&& after.calls.batches == before.calls.batches
                    };
                lemma_examine_gives_nothing_out(keys, before, decision, after, from, earlier);
                earlier
            },
            ScanAction::Process => {
                let batch = batch_keys(keys, before.scan);
                let (retryable, returned) = choose|
                    retryable: Option<Seq<usize>>,
                    returned: Payload,
                |
                    {
                        &&& #[trigger] batch_processed_by(
                            processing_function,
                            packets_of(before.stored, batch),
                            before.payload,
                            retryable,
                            returned,
                        )
                        &&& after == processed(before, batch, retryable, returned)
                    };
                lemma_batch_is_given_out(keys, before, retryable, returned, from, earlier);
                earlier + batch
            },
            ScanAction::Finish => earlier,
        }
    }
}

/// Processing gives no packet to the processing function twice, not even one that is to be retried.
pub proof fn law_no_packet_is_processed_twice<
    S: FnMut(&SharedPacket) -> Option<SanitizedTransaction>,
    P: FnMut(&SanitizedTransaction) -> bool,
    F: FnMut(&Vec<SharedPacket>, ConsumeScannerPayload) -> (Option<Vec<usize>>, ConsumeScannerPayload),
>(
    sanitize: S,
    check_fee_payer: P,
    processing_function: F,
    limits: ConsumeLimits,
    keys: Seq<PacketKey>,
    stored: Stored,
    slot_metrics: SlotMetrics,
    calls: ConsumeCalls,
    states: Seq<ProcessState>,
)
    requires
        list_matches(keys, stored),
        keys.len() <= usize::MAX,
        forall|
            batch: &Vec<SharedPacket>,
            payload: ConsumeScannerPayload,
            answer: (Option<Vec<usize>>, ConsumeScannerPayload),
        |
            call_ensures(processing_function, (batch, payload), answer) ==> proper_places(
                batch@.len(),
                answer.0,
            ),
        process_run(sanitize, check_fee_payer, processing_function, limits, keys, states),
        states.first() == process_start(keys.len(), stored, slot_metrics, calls),
    ensures
        ({
            let packets = packets_in(
                states.last().calls.batches.skip(calls.batches.len() as int),
            );
            forall|i: int, j: int|
                0 <= i < j < packets.len() ==> (#[trigger] packets[i]).message_hash != (
                #[trigger] packets[j]).message_hash
        }),
{
    let state = states.last();
    let from = calls.batches.len() as int;
    let out = lemma_run_gives_out(
        sanitize,
        check_fee_payer,
        processing_function,
        limits,
        keys,
        stored,
        slot_metrics,
        calls,
        states,
        states.len() - 1,
    );
    let packets = packets_in(state.calls.batches.skip(from));
    let batch = batch_keys(keys, state.scan);
    let rest = waiting(keys, state.scan.handled);
    lemma_concat(out + batch, rest);
    lemma_concat(out, batch);
    assert forall|i: int, j: int| 0 <= i < j < packets.len() implies (
    #[trigger] packets[i]).message_hash != (#[trigger] packets[j]).message_hash by {
        assert(out.contains(out[i]));
        assert(out.contains(out[j]));
        let a = choose|a: int| 0 <= a < keys.len() && keys[a] == out[i];
        let b = choose|b: int| 0 <= b < keys.len() && keys[b] == out[j];
        assert(out[i] != out[j]);
        lemma_distinct_hashes(keys, stored, a, b);
    }
}

/// A batch has no more packets than there are iterators, each of them once, in the order of their
/// priority, and they do not wait any more.
pub proof fn law_batch_is_in_order(keys: Seq<PacketKey>, scan: Scan)
    requires
        scan.wf(),
        scan.handled.len() == keys.len(),
        descending(keys),
    ensures
        batch_keys(keys, scan).len() <= scan.max_iterators,
        ascending(scan.batch()),
        descending(batch_keys(keys, scan)),
        forall|i: int|
            0 <= i < scan.batch().len() ==> scan.handled[#[trigger] scan.batch()[i] as int],
{
    let places = scan.batch();
    let batch = batch_keys(keys, scan);
    assert forall|i: int, j: int| 0 <= i < j < batch.len() implies crate::packet_queue::key_le(
        #[trigger] batch[j],
        #[trigger] batch[i],
    ) by {
        assert(places[i] < places[j]);
        assert(keys[places[j] as int] == batch[j]);
        assert(keys[places[i] as int] == batch[i]);
    }
    assert forall|i: int| 0 <= i < places.len() implies scan.handled[#[trigger] places[i] as int] by {
        assert(places[i] == scan.positions[i]);
    }
}

} // verus!
