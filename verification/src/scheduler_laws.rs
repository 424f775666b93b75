//! What holds of the scheduler's work from one call to the next: when a bundle goes before the
//! transactions, and what becomes of the transactions that wait.

use crossbeam_channel::Sender;
use vstd::prelude::*;

use crate::bundle_priority_queue::{
    law_requeue_undoes_take, rank_le, BundleHandle, BundleMeta, BundlePriorityQueue,
    BundlePrioritySource, Meta, Queued,
};
use crate::cleaning::{
    chunk_judged_by, dropped_total, highest_ranked, is_dropped, is_kept, judged_by,
};
use crate::metrics::capped_usize;
use crate::scheduler_controller::{
    cleans, fee_payer_calls, filtered, BufferedPacketsDecision, CheckCall, CompletedCall,
    DisconnectedError, RoundCalls, SchedulerController, SchedulerError, WorkCalls,
};
use crate::scheduler_metrics::{ReceivingStats, SchedulingSummary};
use crate::services::{BatchCheck, Handoff, Inquiry, PairHandoff};
use crate::transaction_container::{TransactionPriorityId, TransactionStateContainer};

verus! {

/// The higher ranked of two bundles pays more; or as much, and came earlier; or came at the same
/// time too, and then the names decide.
pub proof fn law_rank_goes_by_payment_then_time(a: Meta, b: Meta)
    ensures
        a.reward_per_cu_scaled > b.reward_per_cu_scaled ==> !rank_le(a, b),
        a.reward_per_cu_scaled == b.reward_per_cu_scaled && a.arrival_unix_us < b.arrival_unix_us
            ==> !rank_le(a, b) && rank_le(b, a),
{
}

/// In a slot, the best bundle is given to the channel whenever it pays anything and more than the
/// priority of every transaction that waits, whatever else is known of it: no bundle of the queue
/// pays more, and none that pays as much came earlier. It is given once, and nothing else is. What
/// the channel does not take is in the queue as before, and then transactions are scheduled.
pub proof fn law_better_paying_bundle_is_sent(
    before: SchedulerController,
    slot: u64,
    after: SchedulerController,
    schedule_transactions: bool,
)
    requires
        before.arbitrates(BufferedPacketsDecision::Consume(slot), &after, schedule_transactions),
        before.bundle_priority_queue.contents().len() > 0,
        before.bundle_priority_queue.top().0.reward_per_cu_scaled > 0,
        forall|entry: TransactionPriorityId| #[trigger]
            before.container.waits(entry)
                ==> before.bundle_priority_queue.top().0.reward_per_cu_scaled > entry.priority,
    ensures
        ({
            let queue = before.bundle_priority_queue;
            let log = before.bundle_exec_sender.log();
            let log_after = after.bundle_exec_sender.log();
            &&& queue.contents().contains(queue.top())
            &&& forall|other: Queued| #[trigger]
                queue.contents().contains(other) ==> {
                    ||| other.0.reward_per_cu_scaled < queue.top().0.reward_per_cu_scaled
                    ||| other.0.reward_per_cu_scaled == queue.top().0.reward_per_cu_scaled
                        && other.0.arrival_unix_us >= queue.top().0.arrival_unix_us
                }
            &&& log_after.len() == log.len() + 1
            &&& log_after.drop_last() == log
            &&& log_after.last().0 == queue.top().1
            &&& schedule_transactions <==> log_after.last().1 is Err
            &&& schedule_transactions ==> after.bundle_priority_queue.contents()
                == queue.contents()
            &&& !schedule_transactions ==> after.bundle_priority_queue.contents().insert(
                queue.top(),
            ) == queue.contents()
        }),
        after.container == before.container,
        after.timing_metrics == before.timing_metrics,
{
    let queue = before.bundle_priority_queue;
    let log = before.bundle_exec_sender.log();
    law_requeue_undoes_take(queue.contents(), queue.top());
    let sent = choose|sent: Result<(), BundleHandle>|
        {
            &&& #[trigger] crate::bundle_channel::sends(
                before.bundle_exec_sender.sender(),
                queue.top().1,
                sent,
            )
            &&& after.bundle_exec_sender.log() == log.push((queue.top().1, sent))
            &&& schedule_transactions == sent is Err
        };
    assert(after.bundle_exec_sender.log().drop_last() =~= log);
    assert forall|other: Queued| #[trigger] queue.contents().contains(other) implies {
        ||| other.0.reward_per_cu_scaled < queue.top().0.reward_per_cu_scaled
        ||| other.0.reward_per_cu_scaled == queue.top().0.reward_per_cu_scaled
            && other.0.arrival_unix_us >= queue.top().0.arrival_unix_us
    } by {
        assert(rank_le(other.0, queue.top().0));
    }
}

/// What is counted where a bundle was given to the channel: that one was considered, and either that
/// transactions were passed over for it and it was executed, or that it was put back. Nothing else
/// changes.
pub proof fn law_arbitration_is_counted(
    before: SchedulerController,
    decision: BufferedPacketsDecision,
    after: SchedulerController,
    schedule_transactions: bool,
)
    requires
        before.arbitrates(decision, &after, schedule_transactions),
        after.bundle_exec_sender.log() != before.bundle_exec_sender.log(),
        before.count_metrics.num_bundle_arbitration_considered < usize::MAX,
        before.count_metrics.num_bundle_arbitration_skipped < usize::MAX,
        before.count_metrics.num_bundle_executed_success < usize::MAX,
        before.count_metrics.num_bundle_requeued < usize::MAX,
    ensures
        ({
            let counts = before.count_metrics;
            let counts_after = after.count_metrics;
            let sent: int = if schedule_transactions {
                0
            } else {
                1
            };
            &&& counts_after.num_bundle_arbitration_considered
                == counts.num_bundle_arbitration_considered + 1
            &&& counts_after.num_bundle_arbitration_skipped == counts.num_bundle_arbitration_skipped
                + sent
            &&& counts_after.num_bundle_executed_success == counts.num_bundle_executed_success + sent
            &&& counts_after.num_bundle_requeued == counts.num_bundle_requeued + 1 - sent
            &&& counts_after.num_received == counts.num_received
            &&& counts_after.num_buffered == counts.num_buffered
            &&& counts_after.num_scheduled == counts.num_scheduled
            &&& counts_after.num_finished == counts.num_finished
            &&& counts_after.num_retryable == counts.num_retryable
            &&& counts_after.num_dropped_on_clear == counts.num_dropped_on_clear
            &&& counts_after.num_dropped_on_clean == counts.num_dropped_on_clean
            &&& counts_after.num_dropped_on_capacity == counts.num_dropped_on_capacity
        }),
{
}

/// Without a slot, without bundles, with a best bundle that pays nothing, or with a transaction that
/// waits at a priority no lower than what the best bundle pays, no bundle goes: nothing changes, and
/// transactions are scheduled.
pub proof fn law_no_bundle_goes_otherwise(
    before: SchedulerController,
    decision: BufferedPacketsDecision,
    after: SchedulerController,
    schedule_transactions: bool,
    entry: TransactionPriorityId,
)
    requires
        before.arbitrates(decision, &after, schedule_transactions),
        ({
            ||| decision == BufferedPacketsDecision::Forward
            ||| decision == BufferedPacketsDecision::ForwardAndHold
            ||| decision == BufferedPacketsDecision::Hold
            ||| before.bundle_priority_queue.contents().len() == 0
            ||| before.bundle_priority_queue.top().0.reward_per_cu_scaled == 0
            ||| before.container.waits(entry) && entry.priority
                >= before.bundle_priority_queue.top().0.reward_per_cu_scaled
        }),
    ensures
        schedule_transactions,
        after == before,
{
}

/// In a slot where no bundle goes, one scheduling pass is run over the container as it is, in which
/// transactions may have an age of a hundred and fifty, and what comes back replaces the container.
pub proof fn law_transactions_are_scheduled_where_no_bundle_goes<
    S: FnMut(TransactionStateContainer, usize) -> (
        TransactionStateContainer,
        Result<SchedulingSummary, SchedulerError>,
    ),
    C: FnMut(&Vec<usize>, usize) -> Vec<bool>,
>(
    before: SchedulerController,
    slot: u64,
    schedule: S,
    check: C,
    calls: WorkCalls,
    after: SchedulerController,
    result: Result<(), SchedulerError>,
    calls_after: WorkCalls,
)
    requires
        before.works(
            BufferedPacketsDecision::Consume(slot),
            true,
            schedule,
            check,
            calls,
            &after,
            result,
            calls_after,
        ),
    ensures
        calls_after.checked == calls.checked,
        calls_after.scheduled.len() == calls.scheduled.len() + 1,
        calls_after.scheduled.drop_last() == calls.scheduled,
        calls_after.scheduled.last().0 == before.container,
        calls_after.scheduled.last().1 == 150,
        ({
            let answer = calls_after.scheduled.last().2;
            &&& call_ensures(schedule, (before.container, 150), answer)
            &&& after.container == answer.0
            &&& match answer.1 {
                Ok(summary) => result is Ok,
                Err(error) => result == Err::<(), SchedulerError>(error) && after.count_metrics
                    == before.count_metrics,
            }
        }),
        after.bundle_priority_queue == before.bundle_priority_queue,
        after.bundle_exec_sender == before.bundle_exec_sender,
{
    let answer = choose|
        answer: (TransactionStateContainer, Result<SchedulingSummary, SchedulerError>),
    |
        {
            &&& #[trigger] call_ensures(
                schedule,
                (before.container, crate::ages::processing_age()),
                answer,
            )
            &&& calls_after.scheduled == calls.scheduled.push(
                (before.container, crate::ages::processing_age(), answer),
            )
            &&& after.container == answer.0
            &&& match answer.1 {
                Ok(summary) => {
                    &&& result is Ok
                    &&& after.count_metrics == before.count_metrics.with_schedule(summary)
                    &&& exists|schedule_time_us: u64|
                        after.timing_metrics == #[trigger] before.timing_metrics.with_schedule(
                            summary,
                            schedule_time_us,
                        )
                },
                Err(error) => {
                    &&& result == Err::<(), SchedulerError>(error)
                    &&& after.count_metrics == before.count_metrics
                    &&& after.timing_metrics == before.timing_metrics
                },
            }
        };
    assert(calls_after.scheduled.drop_last() =~= calls.scheduled);
}

/// Where a bundle went first, and where another node leads soon or no one does, transactions that
/// wait are neither scheduled nor dropped: holding and passing over change nothing and ask nothing.
pub proof fn law_holding_changes_nothing<
    S: FnMut(TransactionStateContainer, usize) -> (
        TransactionStateContainer,
        Result<SchedulingSummary, SchedulerError>,
    ),
    C: FnMut(&Vec<usize>, usize) -> Vec<bool>,
>(
    before: SchedulerController,
    slot: u64,
    decision: BufferedPacketsDecision,
    schedule_transactions: bool,
    schedule: S,
    check: C,
    calls: WorkCalls,
    after: SchedulerController,
    result: Result<(), SchedulerError>,
    calls_after: WorkCalls,
)
    requires
        before.works(
            decision,
            schedule_transactions,
            schedule,
            check,
            calls,
            &after,
            result,
            calls_after,
        ),
        decision == BufferedPacketsDecision::Hold || (decision == BufferedPacketsDecision::Consume(
            slot,
        ) && !schedule_transactions),
    ensures
        after == before,
        result is Ok,
        calls_after.scheduled == calls.scheduled,
        calls_after.checked == calls.checked,
{
}

/// While another node leads, every transaction that waits is forgotten and counted as dropped, and
/// nothing else: none waits afterwards, those with the workers stay known, and no service is asked.
pub proof fn law_leading_elsewhere_forgets_what_waits<
    S: FnMut(TransactionStateContainer, usize) -> (
        TransactionStateContainer,
        Result<SchedulingSummary, SchedulerError>,
    ),
    C: FnMut(&Vec<usize>, usize) -> Vec<bool>,
>(
    before: SchedulerController,
    schedule_transactions: bool,
    schedule: S,
    check: C,
    calls: WorkCalls,
    after: SchedulerController,
    result: Result<(), SchedulerError>,
    calls_after: WorkCalls,
)
    requires
        before.works(
            BufferedPacketsDecision::Forward,
            schedule_transactions,
            schedule,
            check,
            calls,
            &after,
            result,
            calls_after,
        ),
    ensures
        result is Ok,
        calls_after == calls,
        after.container.waiting_count() == 0,
        forall|entry: TransactionPriorityId| #[trigger]
            before.container.waits(entry) ==> !after.container.waits(entry)
                && !after.container.known().contains(entry.id),
        forall|id: usize|
            #![trigger after.container.known().contains(id)]
            before.container.known().contains(id) && (forall|entry: TransactionPriorityId| #[trigger]
                before.container.waits(entry) ==> entry.id != id)
                ==> after.container.known().contains(id),
        forall|id: usize| #[trigger]
            after.container.known().contains(id) ==> before.container.known().contains(id),
        before.count_metrics.num_dropped_on_clear + before.container.waiting_count() <= usize::MAX
            ==> after.count_metrics.num_dropped_on_clear
            == before.count_metrics.num_dropped_on_clear + before.container.waiting_count(),
        after.count_metrics.num_dropped_on_clean == before.count_metrics.num_dropped_on_clean,
        after.bundle_priority_queue == before.bundle_priority_queue,
        after.bundle_exec_sender == before.bundle_exec_sender,
{
}

/// The checks of some entries: each entry is asked about in one check, at the place that its number
/// among the entries gives, and what is said of it there is what is taken for said of it.
#[verifier::spinoff_prover]
#[verifier::rlimit(40)]
proof fn lemma_checks<C: FnMut(&Vec<usize>, usize) -> Vec<bool>>(
    check: C,
    entries: Seq<TransactionPriorityId>,
    verdicts: Seq<Option<bool>>,
    calls: Seq<CheckCall>,
)
    requires
        judged_by(check, entries, verdicts, calls),
    ensures
        verdicts.len() == entries.len(),
        calls.len() == (entries.len() + 127) / 128,
        forall|c: int|
            0 <= c < calls.len() ==> (#[trigger] calls[c]).1 == 150 && calls[c].0.len() == if 128
                * (c + 1) <= entries.len() {
                128
            } else {
                entries.len() - 128 * c
            },
        forall|i: int|
            0 <= i < entries.len() ==> {
                let call = calls[i / 128];
                &&& call.0[i % 128] == (#[trigger] entries[i]).id
                &&& verdicts[i] == if i % 128 < call.2.len() {
                    Some(call.2[i % 128])
                } else {
                    None
                }
            },
    decreases entries.len(),
{
    if entries.len() > 0 {
        let start = ((entries.len() - 1) / 128) * 128;
        let front = entries.take(start);
        let rest = entries.skip(start);
        lemma_checks(check, front, verdicts.take(start), calls.drop_last());
        assert(chunk_judged_by(check, rest, verdicts.skip(start), calls.last()));
        let last = calls.len() - 1;
        assert(last == start / 128);
        assert forall|i: int| 0 <= i < entries.len() implies {
            let call = calls[i / 128];
            &&& call.0[i % 128] == (#[trigger] entries[i]).id
            &&& verdicts[i] == if i % 128 < call.2.len() {
                Some(call.2[i % 128])
            } else {
                None
            }
        } by {
            if i < start {
                assert(front[i] == entries[i]);
                assert(verdicts.take(start)[i] == verdicts[i]);
                assert(calls.drop_last()[i / 128] == calls[i / 128]);
            } else {
                assert(i / 128 == last);
                assert(i % 128 == i - start);
                assert(rest[i - start] == entries[i]);
                assert(verdicts.skip(start)[i - start] == verdicts[i]);
            }
        }
        assert forall|c: int| 0 <= c < calls.len() implies (#[trigger] calls[c]).1 == 150
            && calls[c].0.len() == if 128 * (c + 1) <= entries.len() {
            128
        } else {
            entries.len() - 128 * c
        } by {
            if c < last {
                assert(calls.drop_last()[c] == calls[c]);
                assert(128 * (c + 1) <= start);
            }
        }
    }
}

/// The numbers of the entries that were found not to be processable.
spec fn dropped_ids(entries: Seq<TransactionPriorityId>, verdicts: Seq<Option<bool>>) -> Set<usize> {
    Set::new(|id: usize| is_dropped(entries, verdicts, id))
}

/// There are as many of them as are counted.
proof fn lemma_dropped_ids(entries: Seq<TransactionPriorityId>, verdicts: Seq<Option<bool>>)
    requires
        entries.len() == verdicts.len(),
        forall|i: int, j: int|
            0 <= i < j < entries.len() ==> (#[trigger] entries[i]).id != (#[trigger] entries[j]).id,
    ensures
        dropped_ids(entries, verdicts).finite(),
        dropped_ids(entries, verdicts).len() == dropped_total(verdicts),
    decreases entries.len(),
{
    let all = dropped_ids(entries, verdicts);
    if entries.len() == 0 {
        assert(all =~= Set::empty());
    } else {
        let front = entries.drop_last();
        let said = verdicts.drop_last();
        assert forall|i: int, j: int| 0 <= i < j < front.len() implies (#[trigger] front[i]).id != (
        #[trigger] front[j]).id by {
            assert(entries[i].id != entries[j].id);
        }
        lemma_dropped_ids(front, said);
        let before = dropped_ids(front, said);
        let last = entries.len() - 1;
        assert forall|id: usize| before.contains(id) implies all.contains(id) && id
            != entries[last].id by {
            let i = choose|i: int|
                0 <= i < front.len() && (#[trigger] front[i]).id == id && said[i] == Some(false);
            assert(entries[i].id == id && verdicts[i] == Some(false));
            assert(entries[i].id != entries[last].id);
        }
        assert forall|id: usize| all.contains(id) implies before.contains(id) || (id
            == entries[last].id && verdicts[last] == Some(false)) by {
            let i = choose|i: int|
                0 <= i < entries.len() && (#[trigger] entries[i]).id == id && verdicts[i] == Some(
                    false,
                );
            if i < last {
                assert(front[i].id == id && said[i] == Some(false));
            }
        }
        if verdicts[last] == Some(false) {
            assert(all.contains(entries[last].id));
            assert(all =~= before.insert(entries[last].id));
        } else {
            assert(all =~= before);
        }
    }
}

/// Cleaning looks at the highest ranked transactions that wait, ten thousand at most, in the order
/// of their rank, a hundred and twenty-eight in a check, and gives the list of them. One that can be
/// processed waits again; one that cannot is forgotten; one that nothing is said of stays known and
/// does not wait. Transactions that are not looked at wait as before, nothing else comes to wait, and
/// as many are counted as are forgotten.
#[verifier::spinoff_prover]
#[verifier::rlimit(40)]
pub proof fn law_cleaning_goes_by_the_answers<C: FnMut(&Vec<usize>, usize) -> Vec<bool>>(
    check: C,
    before: TransactionStateContainer,
    calls: Seq<CheckCall>,
    after: TransactionStateContainer,
    dropped: nat,
    calls_after: Seq<CheckCall>,
) -> (looked_at: Seq<TransactionPriorityId>)
    requires
        before.wf(),
        cleans(check, before, calls, after, dropped, calls_after),
    ensures
        looked_at.len() == if before.waiting_count() < 10_000 {
            before.waiting_count()
        } else {
            10_000
        },
        forall|i: int| 0 <= i < looked_at.len() ==> before.waits(#[trigger] looked_at[i]),
        forall|i: int, j: int|
            0 <= i < j < looked_at.len() ==> {
                let higher = #[trigger] looked_at[i];
                let lower = #[trigger] looked_at[j];
                higher.priority > lower.priority || (higher.priority == lower.priority && higher.id
                    > lower.id)
            },
        forall|i: int, other: TransactionPriorityId|
            0 <= i < looked_at.len() && #[trigger] before.waits(other) && !looked_at.contains(other)
                ==> {
                let higher = #[trigger] looked_at[i];
                higher.priority > other.priority || (higher.priority == other.priority && higher.id
                    >= other.id)
            },
        calls_after.len() == calls.len() + (looked_at.len() + 127) / 128,
        calls_after.take(calls.len() as int) == calls,
        forall|i: int|
            0 <= i < looked_at.len() ==> {
                let entry = #[trigger] looked_at[i];
                let call = calls_after[calls.len() + i / 128];
                let said = i % 128 < call.2.len();
                &&& call.0[i % 128] == entry.id
                &&& call.1 == 150
                &&& call.0.len() <= 128
                &&& after.waits(entry) <==> said && call.2[i % 128]
                &&& after.known().contains(entry.id) <==> !said || call.2[i % 128]
            },
        forall|entry: TransactionPriorityId| #[trigger]
            before.waits(entry) && !looked_at.contains(entry) ==> after.waits(entry),
        forall|entry: TransactionPriorityId| #[trigger]
            after.waits(entry) ==> before.waits(entry),
        forall|id: usize| #[trigger]
            after.known().contains(id) ==> before.known().contains(id),
        after.known().finite(),
        dropped == before.known().len() - after.known().len(),
{
    let (entries, verdicts, checks) = choose|
        entries: Seq<TransactionPriorityId>,
        verdicts: Seq<Option<bool>>,
        checks: Seq<CheckCall>,
    |
        {
            &&& #[trigger] judged_by(check, entries, verdicts, checks)
            &&& calls_after == calls + checks
            &&& highest_ranked(before, entries)
            &&& verdicts.len() == entries.len()
            &&& dropped == dropped_total(verdicts)
            &&& forall|id: usize| #[trigger]
                after.known().contains(id) <==> before.known().contains(id) && !is_dropped(
                    entries,
                    verdicts,
                    id,
                )
            &&& forall|entry: TransactionPriorityId| #[trigger]
                after.waits(entry) <==> (before.waits(entry) && !entries.contains(entry))
                    || is_kept(entries, verdicts, entry)
        };
    lemma_checks(check, entries, verdicts, checks);
    before.lemma_wf();
    assert(calls_after.take(calls.len() as int) =~= calls);
    assert forall|i: int| 0 <= i < entries.len() implies {
        let entry = #[trigger] entries[i];
        let call = calls_after[calls.len() + i / 128];
        let said = i % 128 < call.2.len();
        &&& call.0[i % 128] == entry.id
        &&& call.1 == 150
        &&& call.0.len() <= 128
        &&& after.waits(entry) <==> said && call.2[i % 128]
        &&& after.known().contains(entry.id) <==> !said || call.2[i % 128]
    } by {
        let entry = entries[i];
        assert(calls_after[calls.len() + i / 128] == checks[i / 128]);
        assert(before.waits(entry));
        assert(before.known().contains(entry.id));
        assert(entries.contains(entry));
        if is_kept(entries, verdicts, entry) {
            let k = choose|k: int|
                0 <= k < entries.len() && #[trigger] entries[k] == entry && verdicts[k] == Some(
                    true,
                );
            assert(k == i);
        }
        if is_dropped(entries, verdicts, entry.id) {
            let k = choose|k: int|
                0 <= k < entries.len() && (#[trigger] entries[k]).id == entry.id && verdicts[k]
                    == Some(false);
            assert(k == i);
        }
    }
    assert forall|entry: TransactionPriorityId| #[trigger] after.waits(entry) implies before.waits(
        entry,
    ) by {
        if is_kept(entries, verdicts, entry) {
            let k = choose|k: int|
                0 <= k < entries.len() && #[trigger] entries[k] == entry && verdicts[k] == Some(
                    true,
                );
            assert(before.waits(entries[k]));
        }
    }
    lemma_dropped_ids(entries, verdicts);
    let gone = dropped_ids(entries, verdicts);
    assert(after.known() =~= before.known().difference(gone));
    assert forall|id: usize| gone.contains(id) implies before.known().contains(id) by {
        let k = choose|k: int|
            0 <= k < entries.len() && (#[trigger] entries[k]).id == id && verdicts[k] == Some(
                false,
            );
        assert(before.waits(entries[k]));
    }
    assert(before.known().intersect(gone) =~= gone);
    vstd::set_lib::lemma_set_difference_len(before.known(), gone);
    entries
}

/// A transaction is found fit for scheduling just when the check finds it valid and its fee payer
/// can pay; the fee payer of one that is not valid is not asked about. Results without an answer stay
/// as they are.
pub proof fn law_only_valid_transactions_pass<T, P: FnMut(&T) -> bool>(
    check_fee_payer: P,
    transactions: Seq<T>,
    valid: Seq<bool>,
    before: Seq<bool>,
    after: Seq<bool>,
    i: int,
)
    requires
        filtered(check_fee_payer, transactions, valid, before, after),
        0 <= i < before.len(),
    ensures
        after.len() == before.len(),
        i < transactions.len() && i < valid.len() && !valid[i] ==> !after[i],
        i < transactions.len() && i < valid.len() && valid[i] ==> call_ensures(
            check_fee_payer,
            (&transactions[i],),
            after[i],
        ),
        i >= transactions.len() || i >= valid.len() ==> after[i] == before[i],
{
    let result = after[i];
}

/// The fee payers of the valid transactions are asked about, each once, in order, and of no others:
/// the calls come from the places of a list that ascends over the valid ones and misses none.
pub proof fn law_fee_payers_of_valid_transactions_are_asked<T>(
    transactions: Seq<T>,
    valid: Seq<bool>,
    results: Seq<bool>,
    n: int,
) -> (places: Seq<int>)
    requires
        0 <= n <= transactions.len(),
        n <= valid.len(),
        n <= results.len(),
    ensures
        ({
            let calls = fee_payer_calls(transactions, valid, results, n);
            &&& places.len() == calls.len()
            &&& forall|k: int|
                0 <= k < places.len() ==> {
                    let i = #[trigger] places[k];
                    0 <= i < n && valid[i] && calls[k] == (transactions[i], results[i])
                }
            &&& forall|k: int, m: int|
                0 <= k < m < places.len() ==> #[trigger] places[k] < #[trigger] places[m]
            &&& forall|i: int| 0 <= i < n && #[trigger] valid[i] ==> places.contains(i)
        }),
    decreases n,
{
    if n == 0 {
        Seq::empty()
    } else {
        let before = law_fee_payers_of_valid_transactions_are_asked(
            transactions,
            valid,
            results,
            n - 1,
        );
        if valid[n - 1] {
            let places = before.push(n - 1);
            assert forall|i: int| 0 <= i < n && #[trigger] valid[i] implies places.contains(i) by {
                if i < n - 1 {
                    let k = choose|k: int| 0 <= k < before.len() && before[k] == i;
                    assert(places[k] == i);
                } else {
                    assert(places[before.len() as int] == i);
                }
            }
            places
        } else {
            before
        }
    }
}

/// A call that lets the best bundle compete gives it to the channel whenever there is a slot and it pays
/// anything and more than the priority of every transaction that waits.
pub proof fn law_call_sends_the_better_paying_bundle(
    controller: &mut SchedulerController,
    decision: &BufferedPacketsDecision,
    schedule_transactions: bool,
    slot: u64,
)
    requires
        call_ensures(
            SchedulerController::try_arbitrate_bundle,
            (controller, decision),
            schedule_transactions,
        ),
        *decision == BufferedPacketsDecision::Consume(slot),
        old(controller).bundle_priority_queue.contents().len() > 0,
        old(controller).bundle_priority_queue.top().0.reward_per_cu_scaled > 0,
        forall|entry: TransactionPriorityId| #[trigger]
            old(controller).container.waits(entry)
                ==> old(controller).bundle_priority_queue.top().0.reward_per_cu_scaled
                > entry.priority,
    ensures
        final(controller).bundle_exec_sender.log().len()
            == old(controller).bundle_exec_sender.log().len() + 1,
        final(controller).bundle_exec_sender.log().last().0
            == old(controller).bundle_priority_queue.top().1,
        schedule_transactions <==> final(controller).bundle_exec_sender.log().last().1 is Err,
        final(controller).container == old(controller).container,
{
    law_better_paying_bundle_is_sent(
        *old(controller),
        slot,
        *final(controller),
        schedule_transactions,
    );
}

/// A call that claims a bundle takes the best one out just where there is a slot and a bundle, and it pays
/// anything and more than the priority of every transaction that waits.
pub proof fn law_call_claims_the_better_paying_bundle(
    controller: &mut SchedulerController,
    decision: &BufferedPacketsDecision,
    claimed: Option<(BundleMeta, BundleHandle)>,
)
    requires
        call_ensures(SchedulerController::claim_bundle, (controller, decision), claimed),
    ensures
        ({
            let queue = old(controller).bundle_priority_queue;
            &&& claimed is Some <==> {
                &&& *decision != BufferedPacketsDecision::Forward
                &&& *decision != BufferedPacketsDecision::ForwardAndHold
                &&& *decision != BufferedPacketsDecision::Hold
                &&& queue.contents().len() > 0
                &&& queue.top().0.reward_per_cu_scaled > 0
                &&& forall|entry: TransactionPriorityId| #[trigger]
                    old(controller).container.waits(entry)
                        ==> queue.top().0.reward_per_cu_scaled > entry.priority
            }
            &&& claimed matches Some((meta, handle)) ==> (meta@, handle) == queue.top()
                && final(controller).bundle_priority_queue.contents() == queue.contents().remove(
                queue.top(),
            )
            &&& claimed is None ==> *final(controller) == *old(controller)
        }),
        final(controller).container == old(controller).container,
        final(controller).count_metrics == old(controller).count_metrics,
        final(controller).bundle_exec_sender == old(controller).bundle_exec_sender,
{
}

/// A bundle that the channel did not take is put back, and then transactions are scheduled; one that it
/// took is gone, and then they are not.
pub proof fn law_refused_bundle_is_put_back(
    controller: &mut SchedulerController,
    sent: Result<(), BundleHandle>,
    meta: BundleMeta,
    schedule_transactions: bool,
)
    requires
        call_ensures(
            SchedulerController::finish_arbitration,
            (controller, sent, meta),
            schedule_transactions,
        ),
    ensures
        schedule_transactions <==> sent is Err,
        sent is Ok ==> final(controller).bundle_priority_queue
            == old(controller).bundle_priority_queue,
        sent matches Err(handle) ==> final(controller).bundle_priority_queue.contents()
            == old(controller).bundle_priority_queue.contents().insert((meta@, handle)),
        old(controller).count_metrics.num_bundle_arbitration_considered < usize::MAX
            ==> final(controller).count_metrics.num_bundle_arbitration_considered
            == old(controller).count_metrics.num_bundle_arbitration_considered + 1,
        old(controller).count_metrics.num_bundle_executed_success < usize::MAX ==> final(
            controller).count_metrics.num_bundle_executed_success
            == old(controller).count_metrics.num_bundle_executed_success + if sent is Ok {
            1int
        } else {
            0
        },
        old(controller).count_metrics.num_bundle_requeued < usize::MAX ==> final(
            controller).count_metrics.num_bundle_requeued
            == old(controller).count_metrics.num_bundle_requeued + if sent is Ok {
            0int
        } else {
            1
        },
        final(controller).container == old(controller).container,
        final(controller).bundle_exec_sender == old(controller).bundle_exec_sender,
{
}

/// A call that clears forgets just the transactions that wait, and counts them.
pub proof fn law_call_clears_what_waits(controller: &mut SchedulerController, id: usize)
    requires
        call_ensures(SchedulerController::clear_container, (controller,), ()),
    ensures
        final(controller).container.waiting_count() == 0,
        final(controller).container.known().contains(id) <==> old(
            controller).container.known().contains(id) && forall|entry: TransactionPriorityId|
            #[trigger] old(controller).container.waits(entry) ==> entry.id != id,
        old(controller).count_metrics.num_dropped_on_clear
            + old(controller).container.waiting_count() <= usize::MAX ==> final(
            controller).count_metrics.num_dropped_on_clear
            == old(controller).count_metrics.num_dropped_on_clear
            + old(controller).container.waiting_count(),
        final(controller).bundle_priority_queue == old(controller).bundle_priority_queue,
        final(controller).bundle_exec_sender == old(controller).bundle_exec_sender,
{
}

/// A round takes finished work back once. Where that fails, the round ends with its error and no other
/// service is asked. Where the work on the transactions fails, it ends with that error before packets are
/// received. Otherwise a batch may be queued and packets are received, once each, with the decision of
/// the round, and the next round comes just where the receiver is still connected.
pub proof fn law_round_asks_each_service_in_turn<
    W: FnMut(TransactionStateContainer) -> (
        TransactionStateContainer,
        Result<(usize, usize), SchedulerError>,
    ),
    S: FnMut(TransactionStateContainer, usize) -> (
        TransactionStateContainer,
        Result<SchedulingSummary, SchedulerError>,
    ),
    C: FnMut(&Vec<usize>, usize) -> Vec<bool>,
    B: FnMut(TransactionStateContainer, BufferedPacketsDecision) -> TransactionStateContainer,
    R: FnMut(TransactionStateContainer, BufferedPacketsDecision) -> (
        TransactionStateContainer,
        Result<ReceivingStats, DisconnectedError>,
    ),
>(
    before: SchedulerController,
    decision: BufferedPacketsDecision,
    receive_completed: W,
    schedule: S,
    check: C,
    queue_batch: B,
    receive: R,
    completed_calls: Seq<CompletedCall>,
    calls: RoundCalls,
    after: SchedulerController,
    result: Result<bool, SchedulerError>,
    completed_calls_after: Seq<CompletedCall>,
    calls_after: RoundCalls,
)
    requires
        before.goes_round(
            decision,
            receive_completed,
            schedule,
            check,
            queue_batch,
            receive,
            completed_calls,
            calls,
            &after,
            result,
            completed_calls_after,
            calls_after,
        ),
    ensures
        completed_calls_after.len() == completed_calls.len() + 1,
        completed_calls_after.drop_last() == completed_calls,
        completed_calls_after.last().0 == before.container,
        completed_calls_after.last().1.1 matches Err(error) ==> {
            &&& result == Err::<bool, SchedulerError>(error)
            &&& calls_after == calls
            &&& after.container == completed_calls_after.last().1.0
            &&& after.bundle_exec_sender == before.bundle_exec_sender
            &&& after.count_metrics == before.count_metrics
        },
        completed_calls_after.last().1.1 is Ok && result is Err ==> {
            &&& calls_after.received == calls.received
            &&& calls_after.queued == calls.queued
        },
        result matches Ok(goes_on) ==> {
            &&& completed_calls_after.last().1.1 is Ok
            &&& calls_after.queued.len() == calls.queued.len() + 1
            &&& calls_after.queued.drop_last() == calls.queued
            &&& calls_after.queued.last().1 == decision
            &&& calls_after.received.len() == calls.received.len() + 1
            &&& calls_after.received.drop_last() == calls.received
            &&& calls_after.received.last().0 == calls_after.queued.last().2
            &&& calls_after.received.last().1 == decision
            &&& after.container == calls_after.received.last().2.0
            &&& goes_on <==> calls_after.received.last().2.1 is Ok
        },
{
    let (started, first) = choose|started: SchedulerController, first: Result<bool, SchedulerError>|
        {
            &&& #[trigger] before.starts_round(
                decision,
                receive_completed,
                completed_calls,
                &started,
                first,
                completed_calls_after,
            )
            &&& match first {
                Err(error) => {
                    &&& after == started
                    &&& result == Err::<bool, SchedulerError>(error)
                    &&& calls_after == calls
                },
                Ok(schedule_transactions) => started.finishes_round(
                    decision,
                    schedule_transactions,
                    schedule,
                    check,
                    queue_batch,
                    receive,
                    calls,
                    &after,
                    result,
                    calls_after,
                ),
            }
        };
    let (completed, taken) = choose|completed: SchedulerController, taken: Result<(), SchedulerError>|
        {
            &&& #[trigger] before.completes(
                receive_completed,
                completed_calls,
                &completed,
                taken,
                completed_calls_after,
            )
            &&& match taken {
                Err(error) => started == completed && first == Err::<bool, SchedulerError>(error),
                Ok(_) => first matches Ok(schedule_transactions) && completed.arbitrates(
                    decision,
                    &started,
                    schedule_transactions,
                ),
            }
        };
    assert(completed_calls_after.drop_last() =~= completed_calls);
    if let Ok(schedule_transactions) = first {
        let (processed, second) = choose|
            processed: SchedulerController,
            second: Result<(), SchedulerError>,
        |
            {
                &&& #[trigger] started.works(
                    decision,
                    schedule_transactions,
                    schedule,
                    check,
                    calls.work,
                    &processed,
                    second,
                    calls_after.work,
                )
                &&& match second {
                    Err(error) => {
                        &&& after == processed
                        &&& result == Err::<bool, SchedulerError>(error)
                        &&& calls_after.queued == calls.queued
                        &&& calls_after.received == calls.received
                    },
                    Ok(_) => exists|
                        queued: SchedulerController,
                        third: Result<ReceivingStats, DisconnectedError>,
                    |
                        {
                            &&& #[trigger] queued.receives(
                                decision,
                                receive,
                                calls.received,
                                &after,
                                third,
                                calls_after.received,
                            )
                            &&& queued.same_bundles(&processed)
                            &&& queued.count_metrics == processed.count_metrics
                            &&& queued.timing_metrics == processed.timing_metrics
                            &&& call_ensures(
                                queue_batch,
                                (processed.container, decision),
                                queued.container,
                            )
                            &&& calls_after.queued == calls.queued.push(
                                (processed.container, decision, queued.container),
                            )
                            &&& result == Ok::<bool, SchedulerError>(third is Ok)
                        },
                }
            };
        if second is Ok {
            assert(calls_after.queued.drop_last() =~= calls.queued);
            assert(calls_after.received.drop_last() =~= calls.received);
        }
    }
}

/// Finished work is taken back once, over the container as it is; what came back replaces the container,
/// and unless it failed the two numbers are counted, each in its place. Bundles are not touched.
pub proof fn law_finished_work_is_taken_back<
    W: FnMut(TransactionStateContainer) -> (
        TransactionStateContainer,
        Result<(usize, usize), SchedulerError>,
    ),
>(
    controller: &mut SchedulerController,
    receive: &mut Handoff<
        TransactionStateContainer,
        (TransactionStateContainer, Result<(usize, usize), SchedulerError>),
        W,
    >,
    result: Result<(), SchedulerError>,
)
    requires
        call_ensures(
            SchedulerController::receive_completed::<W>,
            (controller, receive),
            result,
        ),
        old(controller).count_metrics.num_finished <= usize::MAX / 2,
        old(controller).count_metrics.num_retryable <= usize::MAX / 2,
    ensures
        final(receive).log().len() == old(receive).log().len() + 1,
        final(receive).log().last().0 == old(controller).container,
        ({
            let answer = final(receive).log().last().1;
            let counts = old(controller).count_metrics;
            let counts_after = final(controller).count_metrics;
            &&& final(controller).container == answer.0
            &&& answer.1 matches Ok((finished, retryable)) ==> result is Ok && (finished
                <= usize::MAX / 2 ==> counts_after.num_finished == counts.num_finished + finished)
                && (retryable <= usize::MAX / 2 ==> counts_after.num_retryable
                == counts.num_retryable + retryable)
            &&& answer.1 matches Err(error) ==> result == Err::<(), SchedulerError>(error)
                && counts_after == counts
            &&& counts_after.num_scheduled == counts.num_scheduled
            &&& counts_after.num_received == counts.num_received
        }),
        final(controller).bundle_priority_queue == old(controller).bundle_priority_queue,
        final(controller).bundle_exec_sender == old(controller).bundle_exec_sender,
{
}

/// Packets are received once, with the decision, over the container as it is; what came back replaces the
/// container and is what the call gives, and unless the receiver is disconnected it is counted.
pub proof fn law_received_packets_come_in_once<
    R: FnMut(TransactionStateContainer, BufferedPacketsDecision) -> (
        TransactionStateContainer,
        Result<ReceivingStats, DisconnectedError>,
    ),
>(
    controller: &mut SchedulerController,
    decision: &BufferedPacketsDecision,
    receive: &mut PairHandoff<
        TransactionStateContainer,
        BufferedPacketsDecision,
        (TransactionStateContainer, Result<ReceivingStats, DisconnectedError>),
        R,
    >,
    result: Result<ReceivingStats, DisconnectedError>,
)
    requires
        call_ensures(
            SchedulerController::receive_and_buffer_packets::<R>,
            (controller, decision, receive),
            result,
        ),
    ensures
        final(receive).log().len() == old(receive).log().len() + 1,
        final(receive).log().last().0 == old(controller).container,
        final(receive).log().last().1 == *decision,
        final(receive).log().last().2 == (final(controller).container, result),
        result is Err ==> final(controller).count_metrics == old(controller).count_metrics,
        result matches Ok(stats) ==> final(controller).count_metrics
            == old(controller).count_metrics.with_received(stats) && final(
            controller).timing_metrics == old(controller).timing_metrics.with_received(stats),
        final(controller).bundle_priority_queue == old(controller).bundle_priority_queue,
        final(controller).bundle_exec_sender == old(controller).bundle_exec_sender,
{
}

/// The time of a decision is added to its own count only.
pub proof fn law_decision_time_is_added(controller: &mut SchedulerController, decision_time_us: u64)
    requires
        call_ensures(
            SchedulerController::record_decision_time,
            (controller, decision_time_us),
            (),
        ),
        old(controller).timing_metrics.decision_time_us + decision_time_us <= u64::MAX,
    ensures
        final(controller).timing_metrics.decision_time_us
            == old(controller).timing_metrics.decision_time_us + decision_time_us,
        final(controller).timing_metrics.schedule_time_us
            == old(controller).timing_metrics.schedule_time_us,
        final(controller).timing_metrics.receive_time_us
            == old(controller).timing_metrics.receive_time_us,
        final(controller).count_metrics == old(controller).count_metrics,
        final(controller).container == old(controller).container,
{
}

/// A call that filters transactions checks them together once, and asks about the fee payers of the valid
/// ones only; a transaction passes just where it is valid and its fee payer can pay.
pub proof fn law_call_filters_transactions<
    T,
    C: FnMut(&Vec<T>, usize) -> Vec<bool>,
    P: FnMut(&T) -> bool,
>(
    transactions: &Vec<T>,
    results: &mut Vec<bool>,
    check: &mut BatchCheck<T, usize, C>,
    check_fee_payer: &mut Inquiry<T, bool, P>,
    max_age: usize,
    i: int,
)
    requires
        call_ensures(
            SchedulerController::pre_graph_filter::<T, C, P>,
            (transactions, results, check, check_fee_payer, max_age),
            (),
        ),
        0 <= i < old(results)@.len(),
    ensures
        final(results)@.len() == old(results)@.len(),
        final(check).log().len() == old(check).log().len() + 1,
        final(check).log().last().0 == transactions@,
        final(check).log().last().1 == max_age,
        ({
            let valid = final(check).log().last().2;
            &&& i < transactions@.len() && i < valid.len() && !valid[i] ==> !final(results)@[i]
            &&& i < transactions@.len() && i < valid.len() && valid[i] ==> call_ensures(
                old(check_fee_payer).function(),
                (&transactions@[i],),
                final(results)@[i],
            )
            &&& i >= transactions@.len() || i >= valid.len() ==> final(results)@[i]
                == old(results)@[i]
        }),
{
    let valid = choose|valid: Vec<bool>|
        {
            &&& #[trigger] call_ensures(
                old(check).function(),
                (transactions, max_age),
                valid,
            )
            &&& filtered(
                old(check_fee_payer).function(),
                transactions@,
                valid@,
                old(results)@,
                final(results)@,
            )
            &&& final(check).log() == old(check).log().push((transactions@, max_age, valid@))
        };
    law_only_valid_transactions_pass(
        old(check_fee_payer).function(),
        transactions@,
        valid@,
        old(results)@,
        final(results)@,
        i,
    );
}

/// A scheduler starts without transactions, and with nothing counted or sent.
pub proof fn law_scheduler_starts_empty(
    bundle_priority_queue: BundlePriorityQueue,
    sender: Sender<BundleHandle>,
    controller: SchedulerController,
    id: usize,
)
    requires
        call_ensures(SchedulerController::new, (bundle_priority_queue, sender), controller),
    ensures
        !controller.container.known().contains(id),
        controller.container.waiting_count() == 0,
        controller.bundle_priority_queue == bundle_priority_queue,
        controller.bundle_exec_sender.log().len() == 0,
        controller.count_metrics.num_received == 0,
        controller.count_metrics.num_scheduled == 0,
        controller.count_metrics.num_bundle_arbitration_considered == 0,
        controller.timing_metrics.decision_time_us == 0,
{
}

/// While transactions are held for the next slot, the container is cleaned and nothing is scheduled: the
/// transactions that are forgotten are counted as dropped by cleaning, and as nothing else; none comes
/// to be known, and the bundles stay as they are.
pub proof fn law_cleaned_transactions_are_counted<
    S: FnMut(TransactionStateContainer, usize) -> (
        TransactionStateContainer,
        Result<SchedulingSummary, SchedulerError>,
    ),
    C: FnMut(&Vec<usize>, usize) -> Vec<bool>,
>(
    before: SchedulerController,
    schedule_transactions: bool,
    schedule: S,
    check: C,
    calls: WorkCalls,
    after: SchedulerController,
    result: Result<(), SchedulerError>,
    calls_after: WorkCalls,
    id: usize,
)
    requires
        before.container.wf(),
        before.works(
            BufferedPacketsDecision::ForwardAndHold,
            schedule_transactions,
            schedule,
            check,
            calls,
            &after,
            result,
            calls_after,
        ),
    ensures
        result is Ok,
        calls_after.scheduled == calls.scheduled,
        ({
            let counts = before.count_metrics;
            let counts_after = after.count_metrics;
            let forgotten = before.container.known().len() - after.container.known().len();
            &&& forgotten >= 0
            &&& counts.num_dropped_on_clean + forgotten <= usize::MAX
                ==> counts_after.num_dropped_on_clean == counts.num_dropped_on_clean + forgotten
            &&& counts_after.num_dropped_on_clear == counts.num_dropped_on_clear
            &&& counts_after.num_scheduled == counts.num_scheduled
            &&& counts_after.num_received == counts.num_received
        }),
        after.container.known().contains(id) ==> before.container.known().contains(id),
        after.bundle_priority_queue == before.bundle_priority_queue,
        after.bundle_exec_sender == before.bundle_exec_sender,
{
    let dropped = choose|dropped: nat|
        #[trigger] cleans(
            check,
            before.container,
            calls.checked,
            after.container,
            dropped,
            calls_after.checked,
        ) && after.count_metrics.num_dropped_on_clean == capped_usize(
            before.count_metrics.num_dropped_on_clean + dropped,
        );
    let looked_at = law_cleaning_goes_by_the_answers(
        check,
        before.container,
        calls.checked,
        after.container,
        dropped,
        calls_after.checked,
    );
}

} // verus!
