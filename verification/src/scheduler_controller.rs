//! Control flow of the transaction scheduler: bundles compete with transactions, and the queue of
//! transactions is scheduled, cleaned or cleared.

use crossbeam_channel::Sender;
use vstd::multiset::Multiset;
use vstd::prelude::*;

use crate::ages::{max_processing_age, processing_age};
use crate::bundle_channel::{sends, BundleSender};
use crate::bundle_priority_queue::{
    is_best, law_requeue_undoes_take, BundleHandle, BundleMeta, BundlePriorityQueue,
    BundlePrioritySource, Queued,
};
use crate::cleaning::{
    chunk_judged_by, dropped_total, highest_ranked, ids_of, is_dropped, is_kept, judged, judged_by,
    set_aside, verdicts_of, CHUNK_SIZE,
};
use crate::metrics::{capped_u64, capped_usize};
use crate::scheduler_metrics::{
    no_counts, no_times, ReceivingStats, SchedulerCountMetrics, SchedulerTimingMetrics,
    SchedulingSummary,
};
use crate::services::{BatchCheck, Handoff, Inquiry, PairHandoff};
use crate::timing::{clock_reading, elapsed_us};
use crate::transaction_container::{
    PriorityRange, TransactionPriorityId, TransactionStateContainer,
};

verus! {

/// How many transactions the scheduler makes room for.
pub const TOTAL_BUFFERED_PACKETS: usize = 100_000;

/// What to do with the transactions that are buffered.
#[derive(Clone, Copy, Debug, PartialEq, Eq, Structural)]
pub enum BufferedPacketsDecision {
    /// Process them in the bank of this slot.
    Consume(u64),
    /// Another node leads: drop them.
    Forward,
    /// Another node leads, and this one leads soon: keep what can still be processed.
    ForwardAndHold,
    /// Keep them.
    Hold,
}

impl BufferedPacketsDecision {
    /// The slot of the bank in which transactions are processed, where there is one.
    pub fn bank_slot(&self) -> (slot: Option<u64>)
        ensures
            slot == (match self {
                Self::Consume(slot) => Some(*slot),
                _ => None,
            }),
    {
        match self {
            Self::Consume(slot) => Some(*slot),
            _ => None,
        }
    }
}

/// Why the scheduler has to stop.
#[derive(Clone, Copy, Debug, PartialEq, Eq, Structural)]
pub enum SchedulerError {
    DisconnectedSendChannel,
    DisconnectedRecvChannel,
}

/// The packet receiver is disconnected.
#[derive(Clone, Copy, Debug, PartialEq, Eq, Structural)]
pub struct DisconnectedError;

/// The state of the scheduler.
pub struct SchedulerController {
    pub container: TransactionStateContainer,
    pub count_metrics: SchedulerCountMetrics,
    pub timing_metrics: SchedulerTimingMetrics,
    pub bundle_priority_queue: BundlePriorityQueue,
    pub bundle_exec_sender: BundleSender,
}

/// The priority that the best bundle has to exceed: the highest of the transactions that wait, or
/// zero.
pub open spec fn is_priority_to_beat(container: TransactionStateContainer, priority: u64) -> bool {
    &&& priority == 0 || exists|entry: TransactionPriorityId| #[trigger]
        container.waits(entry) && entry.priority == priority
    &&& forall|entry: TransactionPriorityId| #[trigger]
        container.waits(entry) ==> entry.priority <= priority
}

/// A bundle goes before all transactions that wait: there is a bank, there is a bundle, and it
/// pays more than the priority of each of them.
pub open spec fn bundle_wins(
    decision: BufferedPacketsDecision,
    container: TransactionStateContainer,
    contents: Multiset<Queued>,
    top: Queued,
) -> bool {
    &&& decision is Consume
    &&& contents.len() > 0
    &&& top.0.reward_per_cu_scaled > 0
    &&& forall|entry: TransactionPriorityId| #[trigger]
        container.waits(entry) ==> top.0.reward_per_cu_scaled > entry.priority
}

/// The counts after a bundle was handed over for execution, or was put back.
pub open spec fn arbitration_counts(
    counts: SchedulerCountMetrics,
    was_sent: bool,
) -> SchedulerCountMetrics {
    let considered = capped_usize(counts.num_bundle_arbitration_considered + 1);
    if was_sent {
        SchedulerCountMetrics {
            num_bundle_arbitration_considered: considered,
            num_bundle_arbitration_skipped: capped_usize(
                counts.num_bundle_arbitration_skipped + 1,
            ),
            num_bundle_executed_success: capped_usize(counts.num_bundle_executed_success + 1),
            ..counts
        }
    } else {
        SchedulerCountMetrics {
            num_bundle_arbitration_considered: considered,
            num_bundle_requeued: capped_usize(counts.num_bundle_requeued + 1),
            ..counts
        }
    }
}

/// A call about some transactions: their numbers, how old they may be, and which can be processed.
pub type CheckCall = (Seq<usize>, usize, Seq<bool>);

/// A scheduling pass: the container, how old transactions may be, and what came back.
pub type ScheduleCall = (
    TransactionStateContainer,
    usize,
    (TransactionStateContainer, Result<SchedulingSummary, SchedulerError>),
);

/// Work was taken back: the container, and what came back.
pub type CompletedCall = (
    TransactionStateContainer,
    (TransactionStateContainer, Result<(usize, usize), SchedulerError>),
);

/// Packets were received: the container, the decision, and what came back.
pub type ReceiveCall = (
    TransactionStateContainer,
    BufferedPacketsDecision,
    (TransactionStateContainer, Result<ReceivingStats, DisconnectedError>),
);

/// Every call of the two services that transactions are worked on with, in order.
pub struct WorkCalls {
    pub scheduled: Seq<ScheduleCall>,
    pub checked: Seq<CheckCall>,
}

/// The calls that the two services record.
pub open spec fn work_calls<
    S: FnMut(TransactionStateContainer, usize) -> (
        TransactionStateContainer,
        Result<SchedulingSummary, SchedulerError>,
    ),
    C: FnMut(&Vec<usize>, usize) -> Vec<bool>,
>(
    schedule: &PairHandoff<
        TransactionStateContainer,
        usize,
        (TransactionStateContainer, Result<SchedulingSummary, SchedulerError>),
        S,
    >,
    check: &BatchCheck<usize, usize, C>,
) -> WorkCalls {
    WorkCalls { scheduled: schedule.log(), checked: check.log() }
}

/// Every call of the services of a round, but for the one that takes finished work back, in order.
pub struct RoundCalls {
    pub work: WorkCalls,
    pub queued: Seq<
        (TransactionStateContainer, BufferedPacketsDecision, TransactionStateContainer),
    >,
    pub received: Seq<ReceiveCall>,
}

/// The calls that the services record.
pub open spec fn round_calls<
    S: FnMut(TransactionStateContainer, usize) -> (
        TransactionStateContainer,
        Result<SchedulingSummary, SchedulerError>,
    ),
    C: FnMut(&Vec<usize>, usize) -> Vec<bool>,
    B: FnMut(TransactionStateContainer, BufferedPacketsDecision) -> TransactionStateContainer,
    R: FnMut(TransactionStateContainer, BufferedPacketsDecision) -> (
        TransactionStateContainer,
        Result<ReceivingStats, DisconnectedError>,
    ),
>(
    schedule: &PairHandoff<
        TransactionStateContainer,
        usize,
        (TransactionStateContainer, Result<SchedulingSummary, SchedulerError>),
        S,
    >,
    check: &BatchCheck<usize, usize, C>,
    queue_batch: &PairHandoff<
        TransactionStateContainer,
        BufferedPacketsDecision,
        TransactionStateContainer,
        B,
    >,
    receive: &PairHandoff<
        TransactionStateContainer,
        BufferedPacketsDecision,
        (TransactionStateContainer, Result<ReceivingStats, DisconnectedError>),
        R,
    >,
) -> RoundCalls {
    RoundCalls {
        work: work_calls(schedule, check),
        queued: queue_batch.log(),
        received: receive.log(),
    }
}

/// Cleaning the queue leads from one container to the other, and drops so many transactions.
pub open spec fn cleans<C: FnMut(&Vec<usize>, usize) -> Vec<bool>>(
    check: C,
    before: TransactionStateContainer,
    calls: Seq<CheckCall>,
    after: TransactionStateContainer,
    dropped: nat,
    calls_after: Seq<CheckCall>,
) -> bool {
    exists|
        entries: Seq<TransactionPriorityId>,
        verdicts: Seq<Option<bool>>,
        checks: Seq<CheckCall>,
    |
        {
            &&& #[trigger] judged_by(check, entries, verdicts, checks)
            &&& calls_after == calls + checks
            &&& highest_ranked(before, entries)
            &&& verdicts.len() == entries.len()
            &&& dropped == dropped_total(verdicts)
            &&& forall|id: usize| #[trigger]
                after.known().contains(id) <==> before.known().contains(id) && !is_dropped(
                    entries,
                    verdicts,
                    id,
                )
            &&& forall|entry: TransactionPriorityId| #[trigger]
                after.waits(entry) <==> (before.waits(entry) && !entries.contains(entry))
                    || is_kept(entries, verdicts, entry)
        }
}

/// Clearing leads from one container to the other: what waited is forgotten, and what is with the
/// workers stays.
pub open spec fn clears(
    before: TransactionStateContainer,
    after: TransactionStateContainer,
) -> bool {
    &&& after.waiting_count() == 0
    &&& forall|entry: TransactionPriorityId| !(#[trigger] after.waits(entry))
    &&& forall|id: usize| #[trigger]
        after.known().contains(id) <==> before.known().contains(id) && !waits_under(before, id)
}

/// A transaction with the number waits.
pub open spec fn waits_under(container: TransactionStateContainer, id: usize) -> bool {
    exists|entry: TransactionPriorityId| #[trigger] container.waits(entry) && entry.id == id
}

impl SchedulerController {
    pub open spec fn wf(&self) -> bool {
        &&& self.container.wf()
        &&& self.bundle_priority_queue.wf()
    }

    /// Everything but the container and the metrics is as in the other.
    pub open spec fn same_bundles(&self, other: &SchedulerController) -> bool {
        &&& self.bundle_priority_queue == other.bundle_priority_queue
        &&& self.bundle_exec_sender == other.bundle_exec_sender
    }

    /// A scheduler without transactions.
    pub fn new(
        bundle_priority_queue: BundlePriorityQueue,
        bundle_exec_sender: Sender<BundleHandle>,
    ) -> (controller: Self)
        requires
            bundle_priority_queue.wf(),
        ensures
            controller.wf(),
            controller.container.known() == Set::<usize>::empty(),
            controller.container.waiting_count() == 0,
            controller.count_metrics == no_counts(),
            controller.timing_metrics == no_times(),
            controller.bundle_priority_queue == bundle_priority_queue,
            controller.bundle_exec_sender.sender() == bundle_exec_sender,
            controller.bundle_exec_sender.log() == Seq::<
                (BundleHandle, Result<(), BundleHandle>),
            >::empty(),
    {
        SchedulerController {
            container: TransactionStateContainer::with_capacity(TOTAL_BUFFERED_PACKETS),
            count_metrics: SchedulerCountMetrics::default(),
            timing_metrics: SchedulerTimingMetrics::default(),
            bundle_priority_queue,
            bundle_exec_sender: BundleSender::new(bundle_exec_sender),
        }
    }

    /// What arbitration leads to: where no bundle wins, nothing; otherwise the best bundle was
    /// given to the channel, once, and has left the queue where the channel took it, or is in the queue
    /// as before where it came back.
    pub open spec fn arbitrates(
        &self,
        decision: BufferedPacketsDecision,
        after: &SchedulerController,
        schedule_transactions: bool,
    ) -> bool {
        let queue = self.bundle_priority_queue;
        &&& after.container == self.container
        &&& after.timing_metrics == self.timing_metrics
        &&& after.bundle_exec_sender.sender() == self.bundle_exec_sender.sender()
        &&& if bundle_wins(decision, self.container, queue.contents(), queue.top()) {
            &&& is_best(queue.contents(), queue.top())
            &&& exists|sent: Result<(), BundleHandle>|
                {
                    &&& #[trigger] sends(self.bundle_exec_sender.sender(), queue.top().1, sent)
                    &&& after.bundle_exec_sender.log() == self.bundle_exec_sender.log().push(
                        (queue.top().1, sent),
                    )
                    &&& schedule_transactions == sent is Err
                }
            &&& after.count_metrics == arbitration_counts(
                self.count_metrics,
                !schedule_transactions,
            )
            &&& after.bundle_priority_queue.contents() == if schedule_transactions {
                queue.contents()
            } else {
                queue.contents().remove(queue.top())
            }
        } else {
            schedule_transactions && *after == *self
        }
    }

    /// Lets the best bundle compete with the transactions that wait. Where it wins, it is handed
    /// over for execution and no transactions are to be scheduled this time. Says whether
    /// transactions are to be scheduled.
    pub fn try_arbitrate_bundle(&mut self, decision: &BufferedPacketsDecision) -> (schedule_transactions:
        bool)
        requires
            old(self).wf(),
        ensures
            final(self).wf(),
            old(self).arbitrates(*decision, final(self), schedule_transactions),
    {
        match self.claim_bundle(decision) {
            None => true,
            Some((meta, handle)) => {
                proof {
                    let queue = old(self).bundle_priority_queue;
                    law_requeue_undoes_take(queue.contents(), queue.top());
                }
                let sent = self.bundle_exec_sender.send(handle);
                proof {
                    let top = old(self).bundle_priority_queue.top();
                    assert(sends(old(self).bundle_exec_sender.sender(), top.1, sent));
                }
                self.finish_arbitration(sent, meta)
            },
        }
    }

    /// Takes the best bundle out of the queue where it wins against the transactions that wait.
    pub fn claim_bundle(&mut self, decision: &BufferedPacketsDecision) -> (claimed: Option<
        (BundleMeta, BundleHandle),
    >)
        requires
            old(self).wf(),
        ensures
            final(self).wf(),
            final(self).container == old(self).container,
            final(self).count_metrics == old(self).count_metrics,
            final(self).timing_metrics == old(self).timing_metrics,
            final(self).bundle_exec_sender == old(self).bundle_exec_sender,
            claimed is Some <==> bundle_wins(
                *decision,
                old(self).container,
                old(self).bundle_priority_queue.contents(),
                old(self).bundle_priority_queue.top(),
            ),
            match claimed {
                Some((meta, handle)) => {
                    let contents = old(self).bundle_priority_queue.contents();
                    &&& (meta@, handle) == old(self).bundle_priority_queue.top()
                    &&& is_best(contents, (meta@, handle))
                    &&& final(self).bundle_priority_queue.contents() == contents.remove(
                        (meta@, handle),
                    )
                },
                None => *final(self) == *old(self),
            },
    {
        if decision.bank_slot().is_none() {
            return None;
        }
        let best_meta = match self.bundle_priority_queue.peek_best() {
            Some(meta) => meta,
            None => {
                return None;
            },
        };
        let ghost queue = self.bundle_priority_queue;
        proof {
            assert(queue.contents().len() > 0) by {
                assert(queue.contents().contains(queue.top()));
                if queue.contents().len() == 0 {
                    assert(queue.contents() =~= Multiset::empty());
                }
            }
        }
        let max_priority = self.max_priority();
        if best_meta.reward_per_cu_scaled <= max_priority {
            assert(!bundle_wins(*decision, self.container, queue.contents(), queue.top()));
            return None;
        }
        let ghost best_id = best_meta.bundle_id@;
        let is_same = |meta: &BundleMeta| -> (same: bool)
            ensures
                same == (meta.bundle_id@ == best_id),
            { meta.bundle_id == best_meta.bundle_id };
        let maybe_handle = self.bundle_priority_queue.take_best_if(is_same);
        match maybe_handle {
            None => {
                // The queue is held throughout, so the best bundle is still the best.
                proof {
                    let asked = choose|asked: BundleMeta|
                        #[trigger] call_ensures(is_same, (&asked,), false) && asked@
                            == queue.top().0;
                    assert(asked@.bundle_id == best_id);
                }
                None
            },
            Some(handle) => Some((best_meta, handle)),
        }
    }

    /// Counts a bundle that was taken from the queue: it was sent, or comes back and is put into
    /// the queue again. Says whether transactions are to be scheduled, which is so where it was
    /// not sent.
    pub fn finish_arbitration(&mut self, sent: Result<(), BundleHandle>, meta: BundleMeta) -> (schedule_transactions:
        bool)
        requires
            old(self).wf(),
        ensures
            final(self).wf(),
            final(self).container == old(self).container,
            final(self).timing_metrics == old(self).timing_metrics,
            final(self).bundle_exec_sender == old(self).bundle_exec_sender,
            schedule_transactions == sent is Err,
            final(self).count_metrics == arbitration_counts(
                old(self).count_metrics,
                sent is Ok,
            ),
            match sent {
                Ok(_) => final(self).bundle_priority_queue == old(self).bundle_priority_queue,
                Err(handle) => final(self).bundle_priority_queue.contents() == old(
                    self,
                ).bundle_priority_queue.contents().insert((meta@, handle)),
            },
    {
        self.count_metrics.num_bundle_arbitration_considered =
        self.count_metrics.num_bundle_arbitration_considered.saturating_add(1);
        match sent {
            Ok(_) => {
                self.count_metrics.num_bundle_arbitration_skipped =
                self.count_metrics.num_bundle_arbitration_skipped.saturating_add(1);
                self.count_metrics.num_bundle_executed_success =
                self.count_metrics.num_bundle_executed_success.saturating_add(1);
                false
            },
            Err(handle) => {
                self.bundle_priority_queue.requeue(handle, meta);
                self.count_metrics.num_bundle_requeued =
                self.count_metrics.num_bundle_requeued.saturating_add(1);
                true
            },
        }
    }

    /// What arbitration and the work on the transactions lead to, going by the decision.
    pub open spec fn processes<
        S: FnMut(TransactionStateContainer, usize) -> (
            TransactionStateContainer,
            Result<SchedulingSummary, SchedulerError>,
        ),
        C: FnMut(&Vec<usize>, usize) -> Vec<bool>,
    >(
        &self,
        decision: BufferedPacketsDecision,
        schedule: S,
        check: C,
        calls: WorkCalls,
        after: &SchedulerController,
        result: Result<(), SchedulerError>,
        calls_after: WorkCalls,
    ) -> bool {
        exists|arbitrated: SchedulerController, schedule_transactions: bool|
            {
                &&& #[trigger] self.arbitrates(decision, &arbitrated, schedule_transactions)
                &&& arbitrated.works(
                    decision,
                    schedule_transactions,
                    schedule,
                    check,
                    calls,
                    after,
                    result,
                    calls_after,
                )
            }
    }

    /// What working on the transactions leads to, going by the decision, and in a slot by whether
    /// they are to be scheduled.
    pub open spec fn works<
        S: FnMut(TransactionStateContainer, usize) -> (
            TransactionStateContainer,
            Result<SchedulingSummary, SchedulerError>,
        ),
        C: FnMut(&Vec<usize>, usize) -> Vec<bool>,
    >(
        &self,
        decision: BufferedPacketsDecision,
        schedule_transactions: bool,
        schedule: S,
        check: C,
        calls: WorkCalls,
        after: &SchedulerController,
        result: Result<(), SchedulerError>,
        calls_after: WorkCalls,
    ) -> bool {
        match decision {
            BufferedPacketsDecision::Consume(_) => {
                &&& calls_after.checked == calls.checked
                &&& if schedule_transactions {
                    self.schedules(
                        schedule,
                        calls.scheduled,
                        after,
                        result,
                        calls_after.scheduled,
                    )
                } else {
                    *after == *self && result is Ok && calls_after.scheduled == calls.scheduled
                }
            },
            BufferedPacketsDecision::Forward => {
                &&& result is Ok
                &&& calls_after == calls
                &&& after.same_bundles(self)
                &&& clears(self.container, after.container)
                &&& after.count_metrics == (SchedulerCountMetrics {
                    num_dropped_on_clear: capped_usize(
                        self.count_metrics.num_dropped_on_clear + self.container.waiting_count(),
                    ),
                    ..self.count_metrics
                })
                &&& after.timing_metrics == (SchedulerTimingMetrics {
                    clear_time_us: after.timing_metrics.clear_time_us,
                    ..self.timing_metrics
                })
                &&& after.timing_metrics.clear_time_us >= self.timing_metrics.clear_time_us
            },
            BufferedPacketsDecision::ForwardAndHold => {
                &&& result is Ok
                &&& after.same_bundles(self)
                &&& calls_after.scheduled == calls.scheduled
                &&& exists|dropped: nat|
                    #[trigger] cleans(
                        check,
                        self.container,
                        calls.checked,
                        after.container,
                        dropped,
                        calls_after.checked,
                    ) && after.count_metrics == (SchedulerCountMetrics {
                        num_dropped_on_clean: capped_usize(
                            self.count_metrics.num_dropped_on_clean + dropped,
                        ),
                        ..self.count_metrics
                    })
                &&& after.timing_metrics == (SchedulerTimingMetrics {
                    clean_time_us: after.timing_metrics.clean_time_us,
                    ..self.timing_metrics
                })
                &&& after.timing_metrics.clean_time_us >= self.timing_metrics.clean_time_us
            },
            BufferedPacketsDecision::Hold => result is Ok && *after == *self && calls_after == calls,
        }
    }

    /// What a scheduling pass leads to: its summary is counted, unless it failed.
    pub open spec fn schedules<
        S: FnMut(TransactionStateContainer, usize) -> (
            TransactionStateContainer,
            Result<SchedulingSummary, SchedulerError>,
        ),
    >(
        &self,
        schedule: S,
        calls: Seq<ScheduleCall>,
        after: &SchedulerController,
        result: Result<(), SchedulerError>,
        calls_after: Seq<ScheduleCall>,
    ) -> bool {
        &&& after.same_bundles(self)
        &&& exists|answer: (TransactionStateContainer, Result<SchedulingSummary, SchedulerError>)|
            {
                &&& #[trigger] call_ensures(schedule, (self.container, processing_age()), answer)
                &&& calls_after == calls.push((self.container, processing_age(), answer))
                &&& after.container == answer.0
                &&& match answer.1 {
                    Ok(summary) => {
                        &&& result is Ok
                        &&& after.count_metrics == self.count_metrics.with_schedule(summary)
                        &&& exists|schedule_time_us: u64|
                            after.timing_metrics == #[trigger] self.timing_metrics.with_schedule(
                                summary,
                                schedule_time_us,
                            )
                    },
                    Err(error) => {
                        &&& result == Err::<(), SchedulerError>(error)
                        &&& after.count_metrics == self.count_metrics
                        &&& after.timing_metrics == self.timing_metrics
                    },
                }
            }
    }

    /// Works on the transactions that wait, going by the decision: schedules them, unless a bundle
    /// goes first; forgets them; cleans them; or leaves them alone. `schedule` runs a scheduling
    /// pass over the container, in which transactions may have the given age, and gives it back.
    pub fn process_transactions<
        S: FnMut(TransactionStateContainer, usize) -> (
            TransactionStateContainer,
            Result<SchedulingSummary, SchedulerError>,
        ),
        C: FnMut(&Vec<usize>, usize) -> Vec<bool>,
    >(
        &mut self,
        decision: &BufferedPacketsDecision,
        schedule: &mut PairHandoff<
            TransactionStateContainer,
            usize,
            (TransactionStateContainer, Result<SchedulingSummary, SchedulerError>),
            S,
        >,
        check: &mut BatchCheck<usize, usize, C>,
    ) -> (result: Result<(), SchedulerError>)
        requires
            old(self).wf(),
            forall|container: TransactionStateContainer|
                container.wf() ==> #[trigger] call_requires(
                    old(schedule).function(),
                    (container, processing_age()),
                ),
            forall|
                container: TransactionStateContainer,
                answer: (TransactionStateContainer, Result<SchedulingSummary, SchedulerError>),
            |
                container.wf() && #[trigger] call_ensures(
                    old(schedule).function(),
                    (container, processing_age()),
                    answer,
                ) ==> answer.0.wf(),
            forall|ids: &Vec<usize>| call_requires(old(check).function(), (ids, processing_age())),
        ensures
            final(schedule).function() == old(schedule).function(),
            final(check).function() == old(check).function(),
            final(self).wf(),
            old(self).processes(
                *decision,
                old(schedule).function(),
                old(check).function(),
                work_calls(old(schedule), old(check)),
                final(self),
                result,
                work_calls(final(schedule), final(check)),
            ),
    {
        let schedule_transactions = self.try_arbitrate_bundle(decision);
        let ghost arbitrated = *self;
        assert(old(self).arbitrates(*decision, &arbitrated, schedule_transactions));
        self.work_on_transactions(decision, schedule_transactions, schedule, check)
    }

    /// Works on the transactions once it is settled whether a bundle goes first.
    #[verifier::spinoff_prover]
    #[verifier::rlimit(40)]
    pub fn work_on_transactions<
        S: FnMut(TransactionStateContainer, usize) -> (
            TransactionStateContainer,
            Result<SchedulingSummary, SchedulerError>,
        ),
        C: FnMut(&Vec<usize>, usize) -> Vec<bool>,
    >(
        &mut self,
        decision: &BufferedPacketsDecision,
        schedule_transactions: bool,
        schedule: &mut PairHandoff<
            TransactionStateContainer,
            usize,
            (TransactionStateContainer, Result<SchedulingSummary, SchedulerError>),
            S,
        >,
        check: &mut BatchCheck<usize, usize, C>,
    ) -> (result: Result<(), SchedulerError>)
        requires
            old(self).wf(),
            forall|container: TransactionStateContainer|
                container.wf() ==> #[trigger] call_requires(
                    old(schedule).function(),
                    (container, processing_age()),
                ),
            forall|
                container: TransactionStateContainer,
                answer: (TransactionStateContainer, Result<SchedulingSummary, SchedulerError>),
            |
                container.wf() && #[trigger] call_ensures(
                    old(schedule).function(),
                    (container, processing_age()),
                    answer,
                ) ==> answer.0.wf(),
            forall|ids: &Vec<usize>| call_requires(old(check).function(), (ids, processing_age())),
        ensures
            final(schedule).function() == old(schedule).function(),
            final(check).function() == old(check).function(),
            final(self).wf(),
            final(self).same_bundles(old(self)),
            old(self).works(
                *decision,
                schedule_transactions,
                old(schedule).function(),
                old(check).function(),
                work_calls(old(schedule), old(check)),
                final(self),
                result,
                work_calls(final(schedule), final(check)),
            ),
    {
        let ghost calls = work_calls(schedule, check);
        match decision {
            BufferedPacketsDecision::Consume(_) => {
                if !schedule_transactions {
                    return Ok(());
                }
                let result = self.run_schedule(schedule);
                proof {
                    let calls_after = work_calls(schedule, check);
                    assert(old(self).schedules(
                        old(schedule).function(),
                        calls.scheduled,
                        self,
                        result,
                        calls_after.scheduled,
                    ));
                }
                result
            },
            BufferedPacketsDecision::Forward => {
                let start = clock_reading();
                self.clear_container();
                let clear_time_us = elapsed_us(&start);
                self.timing_metrics.clear_time_us =
                self.timing_metrics.clear_time_us.saturating_add(clear_time_us);
                Ok(())
            },
            BufferedPacketsDecision::ForwardAndHold => {
                let start = clock_reading();
                self.clean_queue(check);
                let ghost dropped = choose|dropped: nat|
                    #[trigger] cleans(
                        old(check).function(),
                        old(self).container,
                        old(check).log(),
                        self.container,
                        dropped,
                        check.log(),
                    ) && self.count_metrics == (SchedulerCountMetrics {
                        num_dropped_on_clean: capped_usize(
                            old(self).count_metrics.num_dropped_on_clean + dropped,
                        ),
                        ..old(self).count_metrics
                    });
                let clean_time_us = elapsed_us(&start);
                self.timing_metrics.clean_time_us =
                self.timing_metrics.clean_time_us.saturating_add(clean_time_us);
                proof {
                    let calls_after = work_calls(schedule, check);
                    assert(cleans(
                        old(check).function(),
                        old(self).container,
                        calls.checked,
                        self.container,
                        dropped,
                        calls_after.checked,
                    ));
                    assert(old(self).works(
                        *decision,
                        schedule_transactions,
                        old(schedule).function(),
                        old(check).function(),
                        calls,
                        self,
                        Ok(()),
                        calls_after,
                    ));
                }
                Ok(())
            },
            BufferedPacketsDecision::Hold => Ok(()),
        }
    }

    /// Runs a scheduling pass and counts what it did.
    fn run_schedule<
        S: FnMut(TransactionStateContainer, usize) -> (
            TransactionStateContainer,
            Result<SchedulingSummary, SchedulerError>,
        ),
    >(
        &mut self,
        schedule: &mut PairHandoff<
            TransactionStateContainer,
            usize,
            (TransactionStateContainer, Result<SchedulingSummary, SchedulerError>),
            S,
        >,
    ) -> (result: Result<(), SchedulerError>)
        requires
            old(self).wf(),
            forall|container: TransactionStateContainer|
                container.wf() ==> #[trigger] call_requires(
                    old(schedule).function(),
                    (container, processing_age()),
                ),
            forall|
                container: TransactionStateContainer,
                answer: (TransactionStateContainer, Result<SchedulingSummary, SchedulerError>),
            |
                container.wf() && #[trigger] call_ensures(
                    old(schedule).function(),
                    (container, processing_age()),
                    answer,
                ) ==> answer.0.wf(),
        ensures
            final(schedule).function() == old(schedule).function(),
            final(self).wf(),
            old(self).schedules(
                old(schedule).function(),
                old(schedule).log(),
                final(self),
                result,
                final(schedule).log(),
            ),
    {
        let start = clock_reading();
        let taken = self.take_container();
        let answer = schedule.hand(taken, max_processing_age());
        let schedule_time_us = elapsed_us(&start);
        let (container, outcome) = answer;
        self.container = container;
        assert(call_ensures(
            old(schedule).function(),
            (old(self).container, processing_age()),
            (container, outcome),
        ));
        match outcome {
            Ok(summary) => {
                self.count_metrics.add_schedule(&summary);
                self.timing_metrics.add_schedule(&summary, schedule_time_us);
                Ok(())
            },
            Err(error) => Err(error),
        }
    }

    /// Takes the container out and leaves an empty one in its place.
    fn take_container(&mut self) -> (container: TransactionStateContainer)
        ensures
            container == old(self).container,
            final(self).container.wf(),
            final(self).same_bundles(old(self)),
            final(self).count_metrics == old(self).count_metrics,
            final(self).timing_metrics == old(self).timing_metrics,
    {
        let mut container = TransactionStateContainer::with_capacity(0);
        std::mem::swap(&mut container, &mut self.container);
        container
    }

    /// What taking finished work back leads to: it is counted, unless it failed.
    pub open spec fn completes<
        W: FnMut(TransactionStateContainer) -> (
            TransactionStateContainer,
            Result<(usize, usize), SchedulerError>,
        ),
    >(
        &self,
        receive: W,
        calls: Seq<CompletedCall>,
        after: &SchedulerController,
        result: Result<(), SchedulerError>,
        calls_after: Seq<CompletedCall>,
    ) -> bool {
        &&& after.same_bundles(self)
        &&& exists|answer: (TransactionStateContainer, Result<(usize, usize), SchedulerError>)|
            {
                &&& #[trigger] call_ensures(receive, (self.container,), answer)
                &&& calls_after == calls.push((self.container, answer))
                &&& after.container == answer.0
                &&& match answer.1 {
                    Ok((num_transactions, num_retryable)) => {
                        &&& result is Ok
                        &&& after.count_metrics == self.count_metrics.with_completed(
                            num_transactions,
                            num_retryable,
                        )
                        &&& after.timing_metrics == (SchedulerTimingMetrics {
                            receive_completed_time_us:
                                after.timing_metrics.receive_completed_time_us,
                            ..self.timing_metrics
                        })
                        &&& after.timing_metrics.receive_completed_time_us
                            >= self.timing_metrics.receive_completed_time_us
                    },
                    Err(error) => {
                        &&& result == Err::<(), SchedulerError>(error)
                        &&& after.count_metrics == self.count_metrics
                        &&& after.timing_metrics == self.timing_metrics
                    },
                }
            }
    }

    /// Takes finished work back from the workers and counts it. `receive` gives the container back
    /// with the numbers of transactions that are finished and of those that are to be retried.
    pub fn receive_completed<
        W: FnMut(TransactionStateContainer) -> (
            TransactionStateContainer,
            Result<(usize, usize), SchedulerError>,
        ),
    >(
        &mut self,
        receive: &mut Handoff<
            TransactionStateContainer,
            (TransactionStateContainer, Result<(usize, usize), SchedulerError>),
            W,
        >,
    ) -> (result: Result<(), SchedulerError>)
        requires
            old(self).wf(),
            forall|container: TransactionStateContainer|
                container.wf() ==> #[trigger] call_requires(
                    old(receive).function(),
                    (container,),
                ),
            forall|
                container: TransactionStateContainer,
                answer: (TransactionStateContainer, Result<(usize, usize), SchedulerError>),
            |
                container.wf() && #[trigger] call_ensures(
                    old(receive).function(),
                    (container,),
                    answer,
                ) ==> answer.0.wf(),
        ensures
            final(receive).function() == old(receive).function(),
            final(self).wf(),
            old(self).completes(
                old(receive).function(),
                old(receive).log(),
                final(self),
                result,
                final(receive).log(),
            ),
    {
        let start = clock_reading();
        let taken = self.take_container();
        let answer = receive.hand(taken);
        let receive_completed_time_us = elapsed_us(&start);
        let (container, outcome) = answer;
        self.container = container;
        assert(call_ensures(
            old(receive).function(),
            (old(self).container,),
            (container, outcome),
        ));
        match outcome {
            Ok((num_transactions, num_retryable)) => {
                self.count_metrics.add_completed(num_transactions, num_retryable);
                self.timing_metrics.receive_completed_time_us =
                self.timing_metrics.receive_completed_time_us.saturating_add(
                    receive_completed_time_us,
                );
                Ok(())
            },
            Err(error) => Err(error),
        }
    }

    /// What receiving packets leads to: they are counted, unless the receiver is disconnected.
    pub open spec fn receives<
        R: FnMut(TransactionStateContainer, BufferedPacketsDecision) -> (
            TransactionStateContainer,
            Result<ReceivingStats, DisconnectedError>,
        ),
    >(
        &self,
        decision: BufferedPacketsDecision,
        receive: R,
        calls: Seq<ReceiveCall>,
        after: &SchedulerController,
        result: Result<ReceivingStats, DisconnectedError>,
        calls_after: Seq<ReceiveCall>,
    ) -> bool {
        &&& after.same_bundles(self)
        &&& call_ensures(receive, (self.container, decision), (after.container, result))
        &&& calls_after == calls.push((self.container, decision, (after.container, result)))
        &&& match result {
            Ok(stats) => {
                &&& after.count_metrics == self.count_metrics.with_received(stats)
                &&& after.timing_metrics == self.timing_metrics.with_received(stats)
            },
            Err(_) => {
                &&& after.count_metrics == self.count_metrics
                &&& after.timing_metrics == self.timing_metrics
            },
        }
    }

    /// Receives packets into the container and counts them. Says whether the receiver is still
    /// connected.
    pub fn receive_and_buffer_packets<
        R: FnMut(TransactionStateContainer, BufferedPacketsDecision) -> (
            TransactionStateContainer,
            Result<ReceivingStats, DisconnectedError>,
        ),
    >(
        &mut self,
        decision: &BufferedPacketsDecision,
        receive: &mut PairHandoff<
            TransactionStateContainer,
            BufferedPacketsDecision,
            (TransactionStateContainer, Result<ReceivingStats, DisconnectedError>),
            R,
        >,
    ) -> (result: Result<ReceivingStats, DisconnectedError>)
        requires
            old(self).wf(),
            forall|container: TransactionStateContainer|
                container.wf() ==> #[trigger] call_requires(
                    old(receive).function(),
                    (container, *decision),
                ),
            forall|
                container: TransactionStateContainer,
                answer: (TransactionStateContainer, Result<ReceivingStats, DisconnectedError>),
            |
                container.wf() && #[trigger] call_ensures(
                    old(receive).function(),
                    (container, *decision),
                    answer,
                ) ==> answer.0.wf(),
        ensures
            final(receive).function() == old(receive).function(),
            final(self).wf(),
            old(self).receives(
                *decision,
                old(receive).function(),
                old(receive).log(),
                final(self),
                result,
                final(receive).log(),
            ),
    {
        let taken = self.take_container();
        let answer = receive.hand(taken, *decision);
        let (container, result) = answer;
        self.container = container;
        assert(call_ensures(
            old(receive).function(),
            (old(self).container, *decision),
            (container, result),
        ));
        match result {
            Ok(stats) => {
                self.count_metrics.add_received(&stats);
                self.timing_metrics.add_received(&stats);
                Ok(stats)
            },
            Err(error) => Err(error),
        }
    }

    /// What the start of a round leads to: finished work is taken back, and a bundle may go first.
    /// An error ends the round at once; otherwise it is settled whether transactions are to be
    /// scheduled.
    pub open spec fn starts_round<
        W: FnMut(TransactionStateContainer) -> (
            TransactionStateContainer,
            Result<(usize, usize), SchedulerError>,
        ),
    >(
        &self,
        decision: BufferedPacketsDecision,
        receive_completed: W,
        calls: Seq<CompletedCall>,
        after: &SchedulerController,
        result: Result<bool, SchedulerError>,
        calls_after: Seq<CompletedCall>,
    ) -> bool {
        exists|completed: SchedulerController, first: Result<(), SchedulerError>|
            {
                &&& #[trigger] self.completes(
                    receive_completed,
                    calls,
                    &completed,
                    first,
                    calls_after,
                )
                &&& match first {
                    Err(error) => *after == completed && result == Err::<bool, SchedulerError>(
                        error,
                    ),
                    Ok(_) => result matches Ok(schedule_transactions) && completed.arbitrates(
                        decision,
                        after,
                        schedule_transactions,
                    ),
                }
            }
    }

    /// What the rest of a round leads to: transactions are worked on, a batch may be queued, and
    /// packets are received. An error of the first ends the round at once.
    pub open spec fn finishes_round<
        S: FnMut(TransactionStateContainer, usize) -> (
            TransactionStateContainer,
            Result<SchedulingSummary, SchedulerError>,
        ),
        C: FnMut(&Vec<usize>, usize) -> Vec<bool>,
        B: FnMut(TransactionStateContainer, BufferedPacketsDecision) -> TransactionStateContainer,
        R: FnMut(TransactionStateContainer, BufferedPacketsDecision) -> (
            TransactionStateContainer,
            Result<ReceivingStats, DisconnectedError>,
        ),
    >(
        &self,
        decision: BufferedPacketsDecision,
        schedule_transactions: bool,
        schedule: S,
        check: C,
        queue_batch: B,
        receive: R,
        calls: RoundCalls,
        after: &SchedulerController,
        result: Result<bool, SchedulerError>,
        calls_after: RoundCalls,
    ) -> bool {
        exists|processed: SchedulerController, second: Result<(), SchedulerError>|
            {
                &&& #[trigger] self.works(
                    decision,
                    schedule_transactions,
                    schedule,
                    check,
                    calls.work,
                    &processed,
                    second,
                    calls_after.work,
                )
                &&& match second {
                    Err(error) => {
                        &&& *after == processed
                        &&& result == Err::<bool, SchedulerError>(error)
                        &&& calls_after.queued == calls.queued
                        &&& calls_after.received == calls.received
                    },
                    Ok(_) => exists|
                        queued: SchedulerController,
                        third: Result<ReceivingStats, DisconnectedError>,
                    |
                        {
                            &&& #[trigger] queued.receives(
                                decision,
                                receive,
                                calls.received,
                                after,
                                third,
                                calls_after.received,
                            )
                            &&& queued.same_bundles(&processed)
                            &&& queued.count_metrics == processed.count_metrics
                            &&& queued.timing_metrics == processed.timing_metrics
                            &&& call_ensures(
                                queue_batch,
                                (processed.container, decision),
                                queued.container,
                            )
                            &&& calls_after.queued == calls.queued.push(
                                (processed.container, decision, queued.container),
                            )
                            &&& result == Ok::<bool, SchedulerError>(third is Ok)
                        },
                }
            }
    }

    /// What one round of the scheduler leads to, from a decision on: its start, and unless that
    /// fails the rest. No service but the checks is called more than once.
    pub open spec fn goes_round<
        W: FnMut(TransactionStateContainer) -> (
            TransactionStateContainer,
            Result<(usize, usize), SchedulerError>,
        ),
        S: FnMut(TransactionStateContainer, usize) -> (
            TransactionStateContainer,
            Result<SchedulingSummary, SchedulerError>,
        ),
        C: FnMut(&Vec<usize>, usize) -> Vec<bool>,
        B: FnMut(TransactionStateContainer, BufferedPacketsDecision) -> TransactionStateContainer,
        R: FnMut(TransactionStateContainer, BufferedPacketsDecision) -> (
            TransactionStateContainer,
            Result<ReceivingStats, DisconnectedError>,
        ),
    >(
        &self,
        decision: BufferedPacketsDecision,
        receive_completed: W,
        schedule: S,
        check: C,
        queue_batch: B,
        receive: R,
        completed_calls: Seq<CompletedCall>,
        calls: RoundCalls,
        after: &SchedulerController,
        result: Result<bool, SchedulerError>,
        completed_calls_after: Seq<CompletedCall>,
        calls_after: RoundCalls,
    ) -> bool {
        exists|started: SchedulerController, first: Result<bool, SchedulerError>|
            {
                &&& #[trigger] self.starts_round(
                    decision,
                    receive_completed,
                    completed_calls,
                    &started,
                    first,
                    completed_calls_after,
                )
                &&& match first {
                    Err(error) => {
                        &&& *after == started
                        &&& result == Err::<bool, SchedulerError>(error)
                        &&& calls_after == calls
                    },
                    Ok(schedule_transactions) => started.finishes_round(
                        decision,
                        schedule_transactions,
                        schedule,
                        check,
                        queue_batch,
                        receive,
                        calls,
                        after,
                        result,
                        calls_after,
                    ),
                }
            }
    }

    /// One round of the scheduler, from a decision on. Says whether there is to be another one,
    /// which there is while the packet receiver is connected.
    pub fn run_round<
        W: FnMut(TransactionStateContainer) -> (
            TransactionStateContainer,
            Result<(usize, usize), SchedulerError>,
        ),
        S: FnMut(TransactionStateContainer, usize) -> (
            TransactionStateContainer,
            Result<SchedulingSummary, SchedulerError>,
        ),
        C: FnMut(&Vec<usize>, usize) -> Vec<bool>,
        B: FnMut(TransactionStateContainer, BufferedPacketsDecision) -> TransactionStateContainer,
        R: FnMut(TransactionStateContainer, BufferedPacketsDecision) -> (
            TransactionStateContainer,
            Result<ReceivingStats, DisconnectedError>,
        ),
    >(
        &mut self,
        decision: &BufferedPacketsDecision,
        receive_completed: &mut Handoff<
            TransactionStateContainer,
            (TransactionStateContainer, Result<(usize, usize), SchedulerError>),
            W,
        >,
        schedule: &mut PairHandoff<
            TransactionStateContainer,
            usize,
            (TransactionStateContainer, Result<SchedulingSummary, SchedulerError>),
            S,
        >,
        check: &mut BatchCheck<usize, usize, C>,
        queue_batch: &mut PairHandoff<
            TransactionStateContainer,
            BufferedPacketsDecision,
            TransactionStateContainer,
            B,
        >,
        receive: &mut PairHandoff<
            TransactionStateContainer,
            BufferedPacketsDecision,
            (TransactionStateContainer, Result<ReceivingStats, DisconnectedError>),
            R,
        >,
    ) -> (result: Result<bool, SchedulerError>)
        requires
            old(self).wf(),
            forall|container: TransactionStateContainer|
                container.wf() ==> #[trigger] call_requires(
                    old(receive_completed).function(),
                    (container,),
                ),
            forall|
                container: TransactionStateContainer,
                answer: (TransactionStateContainer, Result<(usize, usize), SchedulerError>),
            |
                container.wf() && #[trigger] call_ensures(
                    old(receive_completed).function(),
                    (container,),
                    answer,
                ) ==> answer.0.wf(),
            forall|container: TransactionStateContainer|
                container.wf() ==> #[trigger] call_requires(
                    old(schedule).function(),
                    (container, processing_age()),
                ),
            forall|
                container: TransactionStateContainer,
                answer: (TransactionStateContainer, Result<SchedulingSummary, SchedulerError>),
            |
                container.wf() && #[trigger] call_ensures(
                    old(schedule).function(),
                    (container, processing_age()),
                    answer,
                ) ==> answer.0.wf(),
            forall|ids: &Vec<usize>| call_requires(old(check).function(), (ids, processing_age())),
            forall|container: TransactionStateContainer|
                container.wf() ==> #[trigger] call_requires(
                    old(queue_batch).function(),
                    (container, *decision),
                ),
            forall|container: TransactionStateContainer, answer: TransactionStateContainer|
                container.wf() && #[trigger] call_ensures(
                    old(queue_batch).function(),
                    (container, *decision),
                    answer,
                ) ==> answer.wf(),
            forall|container: TransactionStateContainer|
                container.wf() ==> #[trigger] call_requires(
                    old(receive).function(),
                    (container, *decision),
                ),
            forall|
                container: TransactionStateContainer,
                answer: (TransactionStateContainer, Result<ReceivingStats, DisconnectedError>),
            |
                container.wf() && #[trigger] call_ensures(
                    old(receive).function(),
                    (container, *decision),
                    answer,
                ) ==> answer.0.wf(),
        ensures
            final(receive_completed).function() == old(receive_completed).function(),
            final(schedule).function() == old(schedule).function(),
            final(check).function() == old(check).function(),
            final(queue_batch).function() == old(queue_batch).function(),
            final(receive).function() == old(receive).function(),
            final(self).wf(),
            old(self).goes_round(
                *decision,
                old(receive_completed).function(),
                old(schedule).function(),
                old(check).function(),
                old(queue_batch).function(),
                old(receive).function(),
                old(receive_completed).log(),
                round_calls(old(schedule), old(check), old(queue_batch), old(receive)),
                final(self),
                result,
                final(receive_completed).log(),
                round_calls(final(schedule), final(check), final(queue_batch), final(receive)),
            ),
    {
        let first = self.start_round(decision, receive_completed);
        let ghost started = *self;
        assert(old(self).starts_round(
            *decision,
            old(receive_completed).function(),
            old(receive_completed).log(),
            &started,
            first,
            receive_completed.log(),
        ));
        match first {
            Err(error) => Err(error),
            Ok(schedule_transactions) => self.finish_round(
                decision,
                schedule_transactions,
                schedule,
                check,
                queue_batch,
                receive,
            ),
        }
    }

    /// The start of a round: takes finished work back and lets the best bundle compete with the
    /// transactions. Says whether transactions are to be scheduled. The rest of the round does not
    /// look at the bundles.
    pub fn start_round<
        W: FnMut(TransactionStateContainer) -> (
            TransactionStateContainer,
            Result<(usize, usize), SchedulerError>,
        ),
    >(
        &mut self,
        decision: &BufferedPacketsDecision,
        receive_completed: &mut Handoff<
            TransactionStateContainer,
            (TransactionStateContainer, Result<(usize, usize), SchedulerError>),
            W,
        >,
    ) -> (result: Result<bool, SchedulerError>)
        requires
            old(self).wf(),
            forall|container: TransactionStateContainer|
                container.wf() ==> #[trigger] call_requires(
                    old(receive_completed).function(),
                    (container,),
                ),
            forall|
                container: TransactionStateContainer,
                answer: (TransactionStateContainer, Result<(usize, usize), SchedulerError>),
            |
                container.wf() && #[trigger] call_ensures(
                    old(receive_completed).function(),
                    (container,),
                    answer,
                ) ==> answer.0.wf(),
        ensures
            final(receive_completed).function() == old(receive_completed).function(),
            final(self).wf(),
            old(self).starts_round(
                *decision,
                old(receive_completed).function(),
                old(receive_completed).log(),
                final(self),
                result,
                final(receive_completed).log(),
            ),
    {
        let first = self.receive_completed(receive_completed);
        let ghost completed = *self;
        assert(old(self).completes(
            old(receive_completed).function(),
            old(receive_completed).log(),
            &completed,
            first,
            receive_completed.log(),
        ));
        match first {
            Err(error) => Err(error),
            Ok(_) => Ok(self.try_arbitrate_bundle(decision)),
        }
    }

    /// The rest of a round: works on the transactions, lets a batch be queued and receives packets.
    /// Says whether there is to be another round.
    pub fn finish_round<
        S: FnMut(TransactionStateContainer, usize) -> (
            TransactionStateContainer,
            Result<SchedulingSummary, SchedulerError>,
        ),
        C: FnMut(&Vec<usize>, usize) -> Vec<bool>,
        B: FnMut(TransactionStateContainer, BufferedPacketsDecision) -> TransactionStateContainer,
        R: FnMut(TransactionStateContainer, BufferedPacketsDecision) -> (
            TransactionStateContainer,
            Result<ReceivingStats, DisconnectedError>,
        ),
    >(
        &mut self,
        decision: &BufferedPacketsDecision,
        schedule_transactions: bool,
        schedule: &mut PairHandoff<
            TransactionStateContainer,
            usize,
            (TransactionStateContainer, Result<SchedulingSummary, SchedulerError>),
            S,
        >,
        check: &mut BatchCheck<usize, usize, C>,
        queue_batch: &mut PairHandoff<
            TransactionStateContainer,
            BufferedPacketsDecision,
            TransactionStateContainer,
            B,
        >,
        receive: &mut PairHandoff<
            TransactionStateContainer,
            BufferedPacketsDecision,
            (TransactionStateContainer, Result<ReceivingStats, DisconnectedError>),
            R,
        >,
    ) -> (result: Result<bool, SchedulerError>)
        requires
            old(self).wf(),
            forall|container: TransactionStateContainer|
                container.wf() ==> #[trigger] call_requires(
                    old(schedule).function(),
                    (container, processing_age()),
                ),
            forall|
                container: TransactionStateContainer,
                answer: (TransactionStateContainer, Result<SchedulingSummary, SchedulerError>),
            |
                container.wf() && #[trigger] call_ensures(
                    old(schedule).function(),
                    (container, processing_age()),
                    answer,
                ) ==> answer.0.wf(),
            forall|ids: &Vec<usize>| call_requires(old(check).function(), (ids, processing_age())),
            forall|container: TransactionStateContainer|
                container.wf() ==> #[trigger] call_requires(
                    old(queue_batch).function(),
                    (container, *decision),
                ),
            forall|container: TransactionStateContainer, answer: TransactionStateContainer|
                container.wf() && #[trigger] call_ensures(
                    old(queue_batch).function(),
                    (container, *decision),
                    answer,
                ) ==> answer.wf(),
            forall|container: TransactionStateContainer|
                container.wf() ==> #[trigger] call_requires(
                    old(receive).function(),
                    (container, *decision),
                ),
            forall|
                container: TransactionStateContainer,
                answer: (TransactionStateContainer, Result<ReceivingStats, DisconnectedError>),
            |
                container.wf() && #[trigger] call_ensures(
                    old(receive).function(),
                    (container, *decision),
                    answer,
                ) ==> answer.0.wf(),
        ensures
            final(schedule).function() == old(schedule).function(),
            final(check).function() == old(check).function(),
            final(queue_batch).function() == old(queue_batch).function(),
            final(receive).function() == old(receive).function(),
            final(self).wf(),
            final(self).same_bundles(old(self)),
            old(self).finishes_round(
                *decision,
                schedule_transactions,
                old(schedule).function(),
                old(check).function(),
                old(queue_batch).function(),
                old(receive).function(),
                round_calls(old(schedule), old(check), old(queue_batch), old(receive)),
                final(self),
                result,
                round_calls(final(schedule), final(check), final(queue_batch), final(receive)),
            ),
    {
        let ghost calls = round_calls(schedule, check, queue_batch, receive);
        let second = self.work_on_transactions(decision, schedule_transactions, schedule, check);
        let ghost processed = *self;
        if let Err(error) = second {
            proof {
                let calls_after = round_calls(schedule, check, queue_batch, receive);
                assert(old(self).works(
                    *decision,
                    schedule_transactions,
                    old(schedule).function(),
                    old(check).function(),
                    calls.work,
                    &processed,
                    second,
                    calls_after.work,
                ));
            }
            return Err(error);
        }
        let taken = self.take_container();
        let container = queue_batch.hand(taken, *decision);
        self.container = container;
        let ghost queued = *self;
        let third = self.receive_and_buffer_packets(decision, receive);
        proof {
            let calls_after = round_calls(schedule, check, queue_batch, receive);
            assert(old(self).works(
                *decision,
                schedule_transactions,
                old(schedule).function(),
                old(check).function(),
                calls.work,
                &processed,
                second,
                calls_after.work,
            ));
            assert(queued.receives(
                *decision,
                old(receive).function(),
                calls.received,
                self,
                third,
                calls_after.received,
            ));
        }
        Ok(third.is_ok())
    }

    /// Counts the time that a decision took.
    pub fn record_decision_time(&mut self, decision_time_us: u64)
        ensures
            *final(self) == (SchedulerController {
                timing_metrics: SchedulerTimingMetrics {
                    decision_time_us: capped_u64(
                        old(self).timing_metrics.decision_time_us + decision_time_us,
                    ),
                    ..old(self).timing_metrics
                },
                ..*old(self)
            }),
    {
        self.timing_metrics.decision_time_us = self.timing_metrics.decision_time_us.saturating_add(
            decision_time_us,
        );
    }

    /// Says of transactions whether they can be scheduled: `check` finds them valid, where they
    /// may have the given age, and
    /// `check_fee_payer`, which is asked about the valid ones only, finds that the fee payer can
    /// pay. Results behind the end of the transactions or of the answer stay as they are.
    pub fn pre_graph_filter<
        T,
        C: FnMut(&Vec<T>, usize) -> Vec<bool>,
        P: FnMut(&T) -> bool,
    >(
        transactions: &Vec<T>,
        results: &mut Vec<bool>,
        check: &mut BatchCheck<T, usize, C>,
        check_fee_payer: &mut Inquiry<T, bool, P>,
        max_age: usize,
    )
        requires
            call_requires(old(check).function(), (transactions, max_age)),
            old(check_fee_payer).takes_all(),
        ensures
            final(check).function() == old(check).function(),
            final(check_fee_payer).function() == old(check_fee_payer).function(),
            exists|valid: Vec<bool>|
                {
                    &&& #[trigger] call_ensures(
                        old(check).function(),
                        (transactions, max_age),
                        valid,
                    )
                    &&& filtered(
                        old(check_fee_payer).function(),
                        transactions@,
                        valid@,
                        old(results)@,
                        final(results)@,
                    )
                    &&& final(check).log() == old(check).log().push(
                        (transactions@, max_age, valid@),
                    )
                    &&& final(check_fee_payer).log() == old(check_fee_payer).log()
                        + fee_payer_calls(
                        transactions@,
                        valid@,
                        final(results)@,
                        looked_at(transactions@, valid@, final(results)@),
                    )
                },
    {
        let check_results = check.ask(transactions, max_age);
        let ghost before = results@;
        let mut i: usize = 0;
        while i < check_results.len() && i < transactions.len() && i < results.len()
            invariant
                i <= check_results@.len(),
                i <= transactions@.len(),
                i <= results@.len(),
                results@.len() == before.len(),
                check_fee_payer.function() == old(check_fee_payer).function(),
                check_fee_payer.takes_all(),
                check_fee_payer.log() == old(check_fee_payer).log() + fee_payer_calls(
                    transactions@,
                    check_results@,
                    results@,
                    i as int,
                ),
                forall|k: int|
                    0 <= k < i ==> fee_payer_result(
                        check_fee_payer.function(),
                        transactions@[k],
                        check_results@[k],
                        #[trigger] results@[k],
                    ),
                forall|k: int| i <= k < before.len() ==> #[trigger] results@[k] == before[k],
            decreases transactions.len() - i,
        {
            let ghost seen = results@;
            let result = check_results[i] && check_fee_payer.ask(&transactions[i]);
            results.set(i, result);
            proof {
                lemma_fee_payer_calls(transactions@, check_results@, seen, results@, i as int);
                assert(check_fee_payer.log() =~= old(check_fee_payer).log() + fee_payer_calls(
                    transactions@,
                    check_results@,
                    results@,
                    i + 1,
                ));
            }
            assert forall|k: int| 0 <= k < i + 1 implies fee_payer_result(
                check_fee_payer.function(),
                transactions@[k],
                check_results@[k],
                #[trigger] results@[k],
            ) by {
                if k < i {
                    assert(results@[k] == seen[k]);
                }
            }
            i += 1;
        }
        assert(filtered(
            old(check_fee_payer).function(),
            transactions@,
            check_results@,
            before,
            results@,
        ));
    }

    /// The highest priority of the transactions that wait, or zero.
    fn max_priority(&self) -> (priority: u64)
        requires
            self.wf(),
        ensures
            is_priority_to_beat(self.container, priority),
    {
        proof {
            self.container.lemma_wf();
        }
        match self.container.get_min_max_priority() {
            PriorityRange::NoElements => 0,
            PriorityRange::OneElement(priority) => priority,
            PriorityRange::MinMax(_, priority) => priority,
        }
    }

    /// Forgets every transaction that waits. Those that are with the workers stay.
    pub fn clear_container(&mut self)
        requires
            old(self).wf(),
        ensures
            final(self).wf(),
            final(self).same_bundles(old(self)),
            final(self).timing_metrics == old(self).timing_metrics,
            clears(old(self).container, final(self).container),
            final(self).count_metrics == (SchedulerCountMetrics {
                num_dropped_on_clear: capped_usize(
                    old(self).count_metrics.num_dropped_on_clear
                        + old(self).container.waiting_count(),
                ),
                ..old(self).count_metrics
            }),
    {
        let ghost start = self.container;
        let mut num_dropped_on_clear: usize = 0;
        let ghost mut count: nat = 0;
        let mut popped = self.container.pop();
        proof {
            start.lemma_wf();
        }
        while popped.is_some()
            invariant
                self.container.wf(),
                start.wf(),
                self.same_bundles(old(self)),
                self.timing_metrics == old(self).timing_metrics,
                self.count_metrics == old(self).count_metrics,
                self.bundle_priority_queue.wf(),
                popped matches Some(entry) ==> start.waits(entry)
                    && self.container.known().contains(entry.id)
                    && !self.container.waits(entry),
                self.container.waiting_count() + count + (if popped is Some {
                    1nat
                } else {
                    0nat
                }) == start.waiting_count(),
                popped is None ==> self.container.waiting_count() == 0,
                num_dropped_on_clear == capped_usize(count as int),
                forall|entry: TransactionPriorityId| #[trigger]
                    self.container.waits(entry) ==> start.waits(entry),
                forall|entry: TransactionPriorityId| #[trigger]
                    start.waits(entry) ==> self.container.waits(entry) || popped == Some(entry)
                        || !self.container.known().contains(entry.id),
                forall|id: usize| #[trigger]
                    self.container.known().contains(id) ==> start.known().contains(id),
                forall|id: usize| #[trigger]
                    start.known().contains(id) && !self.container.known().contains(id)
                        ==> waits_under(start, id),
            decreases
                self.container.waiting_count() + (if popped is Some {
                    1nat
                } else {
                    0nat
                }),
        {
            let entry = popped.unwrap();
            let ghost before = self.container;
            proof {
                start.lemma_wf();
                before.lemma_wf();
                assert forall|other: TransactionPriorityId| #[trigger]
                    before.waits(other) implies other.id != entry.id by {
                    assert(start.waits(other));
                    if other.id == entry.id {
                        assert(other == entry);
                    }
                }
            }
            self.container.remove_by_id(entry.id);
            num_dropped_on_clear = num_dropped_on_clear.saturating_add(1);
            let ghost removed = self.container;
            popped = self.container.pop();
            proof {
                count = count + 1;
                assert forall|other: TransactionPriorityId| #[trigger]
                    start.waits(other) implies self.container.waits(other) || popped == Some(other)
                    || !self.container.known().contains(other.id) by {
                    if before.waits(other) {
                        assert(removed.waits(other));
                    }
                }
                assert forall|id: usize| #[trigger]
                    start.known().contains(id) && !self.container.known().contains(
                        id,
                    ) implies waits_under(start, id) by {
                    if id == entry.id {
                        assert(start.waits(entry));
                    }
                }
                if popped is Some {
                    removed.lemma_wf();
                    assert(removed.waits(popped->0));
                }
            }
        }
        proof {
            self.container.lemma_wf();
            start.lemma_wf();
            assert forall|id: usize| #[trigger]
                self.container.known().contains(id) <==> start.known().contains(id) && !waits_under(
                    start,
                    id,
                ) by {
                if self.container.known().contains(id) && waits_under(start, id) {
                    let entry = choose|entry: TransactionPriorityId| #[trigger]
                        start.waits(entry) && entry.id == id;
                    assert(self.container.waits(entry));
                }
            }
        }
        self.count_metrics.num_dropped_on_clear =
        self.count_metrics.num_dropped_on_clear.saturating_add(num_dropped_on_clear);
    }

    /// Looks at the highest ranked transactions that wait and forgets those that cannot be
    /// processed any more: they are too old, were processed already, or have no valid nonce.
    /// `check` says of some transactions, given by their numbers, which can be processed where they
    /// may have the given age.
    /// Transactions that are with the workers are left alone.
    pub fn clean_queue<C: FnMut(&Vec<usize>, usize) -> Vec<bool>>(
        &mut self,
        check: &mut BatchCheck<usize, usize, C>,
    )
        requires
            old(self).wf(),
            forall|ids: &Vec<usize>| call_requires(old(check).function(), (ids, processing_age())),
        ensures
            final(check).function() == old(check).function(),
            final(self).wf(),
            final(self).same_bundles(old(self)),
            final(self).timing_metrics == old(self).timing_metrics,
            exists|dropped: nat|
                #[trigger] cleans(
                    old(check).function(),
                    old(self).container,
                    old(check).log(),
                    final(self).container,
                    dropped,
                    final(check).log(),
                ) && final(self).count_metrics == (SchedulerCountMetrics {
                    num_dropped_on_clean: capped_usize(
                        old(self).count_metrics.num_dropped_on_clean + dropped,
                    ),
                    ..old(self).count_metrics
                }),
    {
        let ghost check0 = check.function();
        let ghost mut calls: Seq<CheckCall> = Seq::empty();
        let ghost start = self.container;
        let transaction_ids = self.container.pop_for_cleaning();
        let ghost all = transaction_ids@;
        let ghost popped = self.container;
        let ghost mut verdicts: Seq<Option<bool>> = Seq::empty();
        let mut num_dropped_on_clean: usize = 0;
        let mut position: usize = 0;
        proof {
            assert(all.take(0) =~= Seq::<TransactionPriorityId>::empty());
            lemma_nothing_judged(popped);
            assert(all.skip(0) =~= all);
        }
        while position < transaction_ids.len()
            invariant
                all == transaction_ids@,
                position <= all.len(),
                position % CHUNK_SIZE == 0 || position == all.len(),
                check.function() == check0,
                check.log() == old(check).log() + calls,
                forall|ids: &Vec<usize>| call_requires(check0, (ids, processing_age())),
                self.container.wf(),
                self.same_bundles(old(self)),
                self.bundle_priority_queue.wf(),
                self.timing_metrics == old(self).timing_metrics,
                self.count_metrics == old(self).count_metrics,
                set_aside(popped, all),
                set_aside(self.container, all.skip(position as int)),
                verdicts.len() == position,
                judged_by(check0, all.take(position as int), verdicts, calls),
                judged(popped, all.take(position as int), verdicts, self.container),
                num_dropped_on_clean == dropped_total(verdicts),
                num_dropped_on_clean <= position,
            decreases transaction_ids.len() - position,
        {
            let end: usize = if transaction_ids.len() - position > CHUNK_SIZE {
                position + CHUNK_SIZE
            } else {
                transaction_ids.len()
            };
            let chunk = vstd::slice::slice_to_vec(
                vstd::slice::slice_subrange(transaction_ids.as_slice(), position, end),
            );
            let ghost before = self.container;
            let ghost p = position as int;
            let ghost e = end as int;
            let ids = Self::ids(&chunk);
            let answer = check.ask(&ids, max_processing_age());
            let ghost said = verdicts_of(answer@, chunk@.len());
            proof {
                assert(chunk@ =~= all.subrange(p, e));
                assert(all.skip(p).take(e - p) =~= chunk@);
                lemma_front_set_aside(before, all.skip(p), e - p);
                assert(all.skip(p).skip(e - p) =~= all.skip(e));
            }
            let dropped = self.container.apply_verdicts(&chunk, &answer);
            proof {
                lemma_rest_set_aside(before, all.skip(p), e - p, said, self.container);
                lemma_judged_more(
                    popped,
                    all.take(p),
                    verdicts,
                    before,
                    chunk@,
                    said,
                    self.container,
                );
                assert(all.take(p) + chunk@ =~= all.take(e));
                let call = (ids@, processing_age(), answer@);
                assert(chunk_judged_by(check0, chunk@, said, call));
                assert(calls.push(call).drop_last() =~= calls);
                assert(check.log() =~= old(check).log() + calls.push(call));
                calls = calls.push(call);
                let more = verdicts + said;
                assert(all.take(e).take(p) =~= all.take(p));
                assert(all.take(e).skip(p) =~= chunk@);
                assert(more.take(p) =~= verdicts);
                assert(more.skip(p) =~= said);
                assert(((e - 1) / CHUNK_SIZE as int) * CHUNK_SIZE == p);
                verdicts = more;
            }
            num_dropped_on_clean += dropped;
            position = end;
        }
        self.count_metrics.num_dropped_on_clean =
        self.count_metrics.num_dropped_on_clean.saturating_add(num_dropped_on_clean);
        proof {
            let dropped = num_dropped_on_clean as nat;
            assert(all.take(position as int) =~= all);
            assert(cleans(
                old(check).function(),
                old(self).container,
                old(check).log(),
                self.container,
                dropped,
                check.log(),
            ));
            assert(self.count_metrics == (SchedulerCountMetrics {
                num_dropped_on_clean: capped_usize(
                    old(self).count_metrics.num_dropped_on_clean + dropped,
                ),
                ..old(self).count_metrics
            }));
        }
    }

    /// The numbers of entries.
    fn ids(entries: &Vec<TransactionPriorityId>) -> (ids: Vec<usize>)
        ensures
            ids@ == ids_of(entries@),
    {
        let mut ids: Vec<usize> = Vec::new();
        let mut i: usize = 0;
        while i < entries.len()
            invariant
                i <= entries@.len(),
                ids@ == ids_of(entries@.take(i as int)),
            decreases entries.len() - i,
        {
            ids.push(entries[i].id);
            i += 1;
            assert(ids@ =~= ids_of(entries@.take(i as int)));
        }
        assert(entries@.take(i as int) =~= entries@);
        ids
    }
}

/// A transaction that is not valid is refused; of a valid one the fee payer decides.
pub open spec fn fee_payer_result<T, P: FnMut(&T) -> bool>(
    check_fee_payer: P,
    transaction: T,
    valid: bool,
    result: bool,
) -> bool {
    if valid {
        call_ensures(check_fee_payer, (&transaction,), result)
    } else {
        !result
    }
}

/// How many transactions have an answer and a place among the results.
pub open spec fn looked_at<T>(
    transactions: Seq<T>,
    valid: Seq<bool>,
    results: Seq<bool>,
) -> int {
    let answered = if valid.len() < transactions.len() {
        valid.len() as int
    } else {
        transactions.len() as int
    };
    if results.len() < answered {
        results.len() as int
    } else {
        answered
    }
}

/// Of the first transactions the valid ones are asked about, each once.
pub open spec fn fee_payer_calls<T>(
    transactions: Seq<T>,
    valid: Seq<bool>,
    results: Seq<bool>,
    n: int,
) -> Seq<(T, bool)>
    decreases n,
{
    if n <= 0 {
        Seq::empty()
    } else {
        let before = fee_payer_calls(transactions, valid, results, n - 1);
        if valid[n - 1] {
            before.push((transactions[n - 1], results[n - 1]))
        } else {
            before
        }
    }
}

/// Only the results of the first transactions matter.
proof fn lemma_fee_payer_calls<T>(
    transactions: Seq<T>,
    valid: Seq<bool>,
    results: Seq<bool>,
    others: Seq<bool>,
    n: int,
)
    requires
        n <= results.len() == others.len(),
        forall|k: int| 0 <= k < n ==> results[k] == #[trigger] others[k],
    ensures
        fee_payer_calls(transactions, valid, results, n) == fee_payer_calls(
            transactions,
            valid,
            others,
            n,
        ),
    decreases n,
{
    if n > 0 {
        lemma_fee_payer_calls(transactions, valid, results, others, n - 1);
        assert(results[n - 1] == others[n - 1]);
    }
}

/// The results say of each transaction with an answer whether it can be scheduled.
pub open spec fn filtered<T, P: FnMut(&T) -> bool>(
    check_fee_payer: P,
    transactions: Seq<T>,
    valid: Seq<bool>,
    before: Seq<bool>,
    after: Seq<bool>,
) -> bool {
    &&& after.len() == before.len()
    &&& forall|i: int|
        0 <= i < after.len() ==> if i < transactions.len() && i < valid.len() {
            fee_payer_result(check_fee_payer, transactions[i], valid[i], #[trigger] after[i])
        } else {
            after[i] == before[i]
        }
}

/// Cleaning forgets only transactions that waited: what is with the workers stays known.
pub proof fn law_cleaning_spares_in_flight<C: FnMut(&Vec<usize>, usize) -> Vec<bool>>(
    check: C,
    before: TransactionStateContainer,
    calls: Seq<CheckCall>,
    after: TransactionStateContainer,
    dropped: nat,
    calls_after: Seq<CheckCall>,
    id: usize,
)
    requires
        cleans(check, before, calls, after, dropped, calls_after),
        before.known().contains(id),
        !waits_under(before, id),
    ensures
        after.known().contains(id),
        !waits_under(after, id),
{
    let (entries, verdicts, checks) = choose|
        entries: Seq<TransactionPriorityId>,
        verdicts: Seq<Option<bool>>,
        checks: Seq<CheckCall>,
    |
        {
            &&& #[trigger] judged_by(check, entries, verdicts, checks)
            &&& calls_after == calls + checks
            &&& highest_ranked(before, entries)
            &&& verdicts.len() == entries.len()
            &&& dropped == dropped_total(verdicts)
            &&& forall|id: usize| #[trigger]
                after.known().contains(id) <==> before.known().contains(id) && !is_dropped(
                    entries,
                    verdicts,
                    id,
                )
            &&& forall|entry: TransactionPriorityId| #[trigger]
                after.waits(entry) <==> (before.waits(entry) && !entries.contains(entry))
                    || is_kept(entries, verdicts, entry)
        };
    if is_dropped(entries, verdicts, id) {
        let i = choose|i: int|
            0 <= i < entries.len() && (#[trigger] entries[i]).id == id && verdicts[i] == Some(
                false,
            );
        assert(before.waits(entries[i]));
    }
    if waits_under(after, id) {
        let entry = choose|entry: TransactionPriorityId| #[trigger]
            after.waits(entry) && entry.id == id;
        if is_kept(entries, verdicts, entry) {
            let i = choose|i: int|
                0 <= i < entries.len() && #[trigger] entries[i] == entry && verdicts[i] == Some(
                    true,
                );
            assert(before.waits(entries[i]));
        } else {
            assert(before.waits(entry));
        }
    }
}

/// Clearing forgets only transactions that waited: what is with the workers stays known.
pub proof fn law_clearing_spares_in_flight(
    before: TransactionStateContainer,
    after: TransactionStateContainer,
    id: usize,
)
    requires
        clears(before, after),
        before.known().contains(id),
        !waits_under(before, id),
    ensures
        after.known().contains(id),
{
}

/// Arbitration loses no bundle: where transactions are scheduled, the queue holds what it held
/// before, and otherwise it lacks the best bundle, which the channel took.
pub proof fn law_arbitration_loses_nothing(
    before: SchedulerController,
    decision: BufferedPacketsDecision,
    after: SchedulerController,
    schedule_transactions: bool,
)
    requires
        before.arbitrates(decision, &after, schedule_transactions),
    ensures
        schedule_transactions ==> after.bundle_priority_queue.contents()
            == before.bundle_priority_queue.contents(),
        !schedule_transactions ==> is_best(
            before.bundle_priority_queue.contents(),
            before.bundle_priority_queue.top(),
        ) && after.bundle_priority_queue.contents().insert(before.bundle_priority_queue.top())
            == before.bundle_priority_queue.contents(),
        !schedule_transactions ==> exists|sent: Result<(), BundleHandle>|
            {
                &&& sent is Ok
                &&& #[trigger] sends(
                    before.bundle_exec_sender.sender(),
                    before.bundle_priority_queue.top().1,
                    sent,
                )
                &&& after.bundle_exec_sender.log() == before.bundle_exec_sender.log().push(
                    (before.bundle_priority_queue.top().1, sent),
                )
            },
{
    let contents = before.bundle_priority_queue.contents();
    let top = before.bundle_priority_queue.top();
    if !schedule_transactions {
        law_requeue_undoes_take(contents, top);
    }
}

/// In a slot, either the channel takes one bundle, and then no scheduling pass is run and the
/// transactions stay as they are, or one scheduling pass is run; and at most one bundle is sent.
pub proof fn law_bundle_goes_instead_of_transactions<
    S: FnMut(TransactionStateContainer, usize) -> (
        TransactionStateContainer,
        Result<SchedulingSummary, SchedulerError>,
    ),
    C: FnMut(&Vec<usize>, usize) -> Vec<bool>,
>(
    before: SchedulerController,
    slot: u64,
    schedule: S,
    check: C,
    calls: WorkCalls,
    after: SchedulerController,
    result: Result<(), SchedulerError>,
    calls_after: WorkCalls,
)
    requires
        before.processes(
            BufferedPacketsDecision::Consume(slot),
            schedule,
            check,
            calls,
            &after,
            result,
            calls_after,
        ),
    ensures
        calls_after.checked == calls.checked,
        ({
            let sends_before = before.bundle_exec_sender.log();
            let sends_after = after.bundle_exec_sender.log();
            let is_scheduled = calls_after.scheduled.len() == calls.scheduled.len() + 1;
            ||| sends_after == sends_before && is_scheduled
            ||| {
                &&& sends_after.len() == sends_before.len() + 1
                &&& sends_after.drop_last() == sends_before
                &&& sends_after.last().0 == before.bundle_priority_queue.top().1
                &&& if sends_after.last().1 is Ok {
                    &&& calls_after.scheduled == calls.scheduled
                    &&& after.container == before.container
                    &&& result is Ok
                } else {
                    is_scheduled
                }
            }
        }),
{
    let decision = BufferedPacketsDecision::Consume(slot);
    let (arbitrated, schedule_transactions) = choose|
        arbitrated: SchedulerController,
        schedule_transactions: bool,
    |
        {
            &&& #[trigger] before.arbitrates(decision, &arbitrated, schedule_transactions)
            &&& arbitrated.works(
                decision,
                schedule_transactions,
                schedule,
                check,
                calls,
                &after,
                result,
                calls_after,
            )
        };
    let sends_before = before.bundle_exec_sender.log();
    let queue = before.bundle_priority_queue;
    if bundle_wins(decision, before.container, queue.contents(), queue.top()) {
        let sent = choose|sent: Result<(), BundleHandle>|
            {
                &&& #[trigger] sends(before.bundle_exec_sender.sender(), queue.top().1, sent)
                &&& arbitrated.bundle_exec_sender.log() == sends_before.push((queue.top().1, sent))
                &&& schedule_transactions == sent is Err
            };
        assert(arbitrated.bundle_exec_sender.log().drop_last() =~= sends_before);
    }
}

/// A bundle that is sent pays more than the priority of every transaction that waits.
pub proof fn law_sent_bundle_pays_more(
    before: SchedulerController,
    decision: BufferedPacketsDecision,
    after: SchedulerController,
    entry: TransactionPriorityId,
)
    requires
        before.arbitrates(decision, &after, false),
        before.container.waits(entry),
    ensures
        entry.priority < before.bundle_priority_queue.top().0.reward_per_cu_scaled,
{
}

/// Before anything was said, nothing has changed.
proof fn lemma_nothing_judged(container: TransactionStateContainer)
    ensures
        judged(
            container,
            Seq::<TransactionPriorityId>::empty(),
            Seq::<Option<bool>>::empty(),
            container,
        ),
{
}

/// The first of some entries that are set aside.
proof fn lemma_front_set_aside(
    container: TransactionStateContainer,
    entries: Seq<TransactionPriorityId>,
    n: int,
)
    requires
        set_aside(container, entries),
        0 <= n <= entries.len(),
    ensures
        set_aside(container, entries.take(n)),
{
    let front = entries.take(n);
    assert forall|i: int, j: int| 0 <= i < j < front.len() implies (#[trigger] front[i]).id != (
    #[trigger] front[j]).id by {
        assert(entries[i].id != entries[j].id);
    }
    assert forall|i: int| 0 <= i < front.len() implies container.known().contains(
        (#[trigger] front[i]).id,
    ) by {
        assert(entries[i] == front[i]);
    }
    assert forall|i: int, other: TransactionPriorityId|
        0 <= i < front.len() && #[trigger] container.waits(other) implies other.id != (
    #[trigger] front[i]).id by {
        assert(entries[i] == front[i]);
    }
}

/// Verdicts on the first entries leave the others set aside.
proof fn lemma_rest_set_aside(
    before: TransactionStateContainer,
    entries: Seq<TransactionPriorityId>,
    n: int,
    verdicts: Seq<Option<bool>>,
    after: TransactionStateContainer,
)
    requires
        set_aside(before, entries),
        0 <= n <= entries.len(),
        judged(before, entries.take(n), verdicts, after),
    ensures
        set_aside(after, entries.skip(n)),
{
    let front = entries.take(n);
    let rest = entries.skip(n);
    assert forall|i: int, j: int| 0 <= i < j < rest.len() implies (#[trigger] rest[i]).id != (
    #[trigger] rest[j]).id by {
        assert(entries[i + n].id != entries[j + n].id);
    }
    assert forall|i: int| 0 <= i < rest.len() implies after.known().contains(
        (#[trigger] rest[i]).id,
    ) by {
        assert(entries[i + n] == rest[i]);
        if is_dropped(front, verdicts, rest[i].id) {
            let k = choose|k: int|
                0 <= k < front.len() && (#[trigger] front[k]).id == rest[i].id && verdicts[k]
                    == Some(false);
            assert(entries[k].id != entries[i + n].id);
        }
    }
    assert forall|i: int, other: TransactionPriorityId|
        0 <= i < rest.len() && #[trigger] after.waits(other) implies other.id != (
    #[trigger] rest[i]).id by {
        assert(entries[i + n] == rest[i]);
        if is_kept(front, verdicts, other) {
            let k = choose|k: int|
                0 <= k < front.len() && #[trigger] front[k] == other && verdicts[k] == Some(true);
            assert(entries[k].id != entries[i + n].id);
        } else {
            assert(before.waits(other));
        }
    }
}

/// Verdicts on some entries and then on others.
proof fn lemma_judged_more(
    start: TransactionStateContainer,
    entries: Seq<TransactionPriorityId>,
    verdicts: Seq<Option<bool>>,
    middle: TransactionStateContainer,
    more: Seq<TransactionPriorityId>,
    said: Seq<Option<bool>>,
    end: TransactionStateContainer,
)
    requires
        judged(start, entries, verdicts, middle),
        judged(middle, more, said, end),
        entries.len() == verdicts.len(),
        more.len() == said.len(),
    ensures
        judged(start, entries + more, verdicts + said, end),
        dropped_total(verdicts + said) == dropped_total(verdicts) + dropped_total(said),
        dropped_total(said) <= said.len(),
{
    crate::cleaning::lemma_judged(entries, verdicts, more, said);
    crate::cleaning::lemma_dropped_total(verdicts, said);
    crate::cleaning::lemma_dropped_total(said, Seq::empty());
}

} // verus!
