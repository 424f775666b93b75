//! What the scheduler counts and times. Counts and times stop at the largest value they can hold.

use vstd::prelude::*;

use crate::metrics::{capped_u64, capped_usize};

verus! {

/// How many transactions went which way.
#[derive(Clone, Copy, Debug, PartialEq, Eq, Structural)]
pub struct SchedulerCountMetrics {
    pub num_received: usize,
    pub num_buffered: usize,
    pub num_scheduled: usize,
    pub num_unschedulable_conflicts: usize,
    pub num_unschedulable_threads: usize,
    pub num_schedule_filtered_out: usize,
    pub num_finished: usize,
    pub num_retryable: usize,
    pub num_dropped_on_receive: usize,
    pub num_dropped_on_parsing_and_sanitization: usize,
    pub num_dropped_on_validate_locks: usize,
    pub num_dropped_on_receive_compute_budget: usize,
    pub num_dropped_on_receive_age: usize,
    pub num_dropped_on_receive_already_processed: usize,
    pub num_dropped_on_receive_fee_payer: usize,
    pub num_dropped_on_clear: usize,
    pub num_dropped_on_clean: usize,
    pub num_dropped_on_capacity: usize,
    pub num_dropped_on_blacklisted_account: usize,
    pub num_bundle_arbitration_considered: usize,
    pub num_bundle_arbitration_skipped: usize,
    pub num_bundle_executed_success: usize,
    pub num_bundle_requeued: usize,
}

/// Nothing counted yet.
pub open spec fn no_counts() -> SchedulerCountMetrics {
    SchedulerCountMetrics {
        num_received: 0,
        num_buffered: 0,
        num_scheduled: 0,
        num_unschedulable_conflicts: 0,
        num_unschedulable_threads: 0,
        num_schedule_filtered_out: 0,
        num_finished: 0,
        num_retryable: 0,
        num_dropped_on_receive: 0,
        num_dropped_on_parsing_and_sanitization: 0,
        num_dropped_on_validate_locks: 0,
        num_dropped_on_receive_compute_budget: 0,
        num_dropped_on_receive_age: 0,
        num_dropped_on_receive_already_processed: 0,
        num_dropped_on_receive_fee_payer: 0,
        num_dropped_on_clear: 0,
        num_dropped_on_clean: 0,
        num_dropped_on_capacity: 0,
        num_dropped_on_blacklisted_account: 0,
        num_bundle_arbitration_considered: 0,
        num_bundle_arbitration_skipped: 0,
        num_bundle_executed_success: 0,
        num_bundle_requeued: 0,
    }
}

impl Default for SchedulerCountMetrics {
    fn default() -> (metrics: Self)
        ensures
            metrics == no_counts(),
    {
        SchedulerCountMetrics {
            num_received: 0,
            num_buffered: 0,
            num_scheduled: 0,
            num_unschedulable_conflicts: 0,
            num_unschedulable_threads: 0,
            num_schedule_filtered_out: 0,
            num_finished: 0,
            num_retryable: 0,
            num_dropped_on_receive: 0,
            num_dropped_on_parsing_and_sanitization: 0,
            num_dropped_on_validate_locks: 0,
            num_dropped_on_receive_compute_budget: 0,
            num_dropped_on_receive_age: 0,
            num_dropped_on_receive_already_processed: 0,
            num_dropped_on_receive_fee_payer: 0,
            num_dropped_on_clear: 0,
            num_dropped_on_clean: 0,
            num_dropped_on_capacity: 0,
            num_dropped_on_blacklisted_account: 0,
            num_bundle_arbitration_considered: 0,
            num_bundle_arbitration_skipped: 0,
            num_bundle_executed_success: 0,
            num_bundle_requeued: 0,
        }
    }
}

/// How long the parts of the scheduler's work took, in microseconds.
#[derive(Clone, Copy, Debug, PartialEq, Eq, Structural)]
pub struct SchedulerTimingMetrics {
    pub decision_time_us: u64,
    pub receive_time_us: u64,
    pub buffer_time_us: u64,
    pub schedule_filter_time_us: u64,
    pub schedule_time_us: u64,
    pub clear_time_us: u64,
    pub clean_time_us: u64,
    pub receive_completed_time_us: u64,
}

/// Nothing timed yet.
pub open spec fn no_times() -> SchedulerTimingMetrics {
    SchedulerTimingMetrics {
        decision_time_us: 0,
        receive_time_us: 0,
        buffer_time_us: 0,
        schedule_filter_time_us: 0,
        schedule_time_us: 0,
        clear_time_us: 0,
        clean_time_us: 0,
        receive_completed_time_us: 0,
    }
}

impl Default for SchedulerTimingMetrics {
    fn default() -> (metrics: Self)
        ensures
            metrics == no_times(),
    {
        SchedulerTimingMetrics {
            decision_time_us: 0,
            receive_time_us: 0,
            buffer_time_us: 0,
            schedule_filter_time_us: 0,
            schedule_time_us: 0,
            clear_time_us: 0,
            clean_time_us: 0,
            receive_completed_time_us: 0,
        }
    }
}

/// What a scheduling pass did.
#[derive(Clone, Copy, Debug, PartialEq, Eq, Structural)]
pub struct SchedulingSummary {
    pub num_scheduled: usize,
    pub num_unschedulable_conflicts: usize,
    pub num_unschedulable_threads: usize,
    pub num_filtered_out: usize,
    pub filter_time_us: u64,
}

/// What receiving packets did.
#[derive(Clone, Copy, Debug, PartialEq, Eq, Structural)]
pub struct ReceivingStats {
    pub num_received: usize,
    pub num_dropped_without_parsing: usize,
    pub num_dropped_on_parsing_and_sanitization: usize,
    pub num_dropped_on_lock_validation: usize,
    pub num_dropped_on_compute_budget: usize,
    pub num_dropped_on_age: usize,
    pub num_dropped_on_already_processed: usize,
    pub num_dropped_on_fee_payer: usize,
    pub num_dropped_on_capacity: usize,
    pub num_buffered: usize,
    pub num_dropped_on_blacklisted_account: usize,
    pub receive_time_us: u64,
    pub buffer_time_us: u64,
}

impl SchedulerCountMetrics {
    /// The counts with those of a scheduling pass.
    pub open spec fn with_schedule(self, summary: SchedulingSummary) -> SchedulerCountMetrics {
        SchedulerCountMetrics {
            num_scheduled: capped_usize(self.num_scheduled + summary.num_scheduled),
            num_unschedulable_conflicts: capped_usize(
                self.num_unschedulable_conflicts + summary.num_unschedulable_conflicts,
            ),
            num_unschedulable_threads: capped_usize(
                self.num_unschedulable_threads + summary.num_unschedulable_threads,
            ),
            num_schedule_filtered_out: capped_usize(
                self.num_schedule_filtered_out + summary.num_filtered_out,
            ),
            ..self
        }
    }

    /// Adds the counts of a scheduling pass.
    pub fn add_schedule(&mut self, summary: &SchedulingSummary)
        ensures
            *final(self) == old(self).with_schedule(*summary),
    {
        self.num_scheduled = self.num_scheduled.saturating_add(summary.num_scheduled);
        self.num_unschedulable_conflicts = self.num_unschedulable_conflicts.saturating_add(
            summary.num_unschedulable_conflicts,
        );
        self.num_unschedulable_threads = self.num_unschedulable_threads.saturating_add(
            summary.num_unschedulable_threads,
        );
        self.num_schedule_filtered_out = self.num_schedule_filtered_out.saturating_add(
            summary.num_filtered_out,
        );
    }

    /// The counts with those of work that came back.
    pub open spec fn with_completed(
        self,
        num_transactions: usize,
        num_retryable: usize,
    ) -> SchedulerCountMetrics {
        SchedulerCountMetrics {
            num_finished: capped_usize(self.num_finished + num_transactions),
            num_retryable: capped_usize(self.num_retryable + num_retryable),
            ..self
        }
    }

    /// Adds the counts of work that came back.
    pub fn add_completed(&mut self, num_transactions: usize, num_retryable: usize)
        ensures
            *final(self) == old(self).with_completed(num_transactions, num_retryable),
    {
        self.num_finished = self.num_finished.saturating_add(num_transactions);
        self.num_retryable = self.num_retryable.saturating_add(num_retryable);
    }

    /// The counts with those of received packets.
    pub open spec fn with_received(self, stats: ReceivingStats) -> SchedulerCountMetrics {
        SchedulerCountMetrics {
            num_received: capped_usize(self.num_received + stats.num_received),
            num_dropped_on_receive: capped_usize(
                self.num_dropped_on_receive + stats.num_dropped_without_parsing,
            ),
            num_dropped_on_parsing_and_sanitization: capped_usize(
                self.num_dropped_on_parsing_and_sanitization
                    + stats.num_dropped_on_parsing_and_sanitization,
            ),
            num_dropped_on_validate_locks: capped_usize(
                self.num_dropped_on_validate_locks + stats.num_dropped_on_lock_validation,
            ),
            num_dropped_on_receive_compute_budget: capped_usize(
                self.num_dropped_on_receive_compute_budget + stats.num_dropped_on_compute_budget,
            ),
            num_dropped_on_receive_age: capped_usize(
                self.num_dropped_on_receive_age + stats.num_dropped_on_age,
            ),
            num_dropped_on_receive_already_processed: capped_usize(
                self.num_dropped_on_receive_already_processed
                    + stats.num_dropped_on_already_processed,
            ),
            num_dropped_on_receive_fee_payer: capped_usize(
                self.num_dropped_on_receive_fee_payer + stats.num_dropped_on_fee_payer,
            ),
            num_dropped_on_capacity: capped_usize(
                self.num_dropped_on_capacity + stats.num_dropped_on_capacity,
            ),
            num_buffered: capped_usize(self.num_buffered + stats.num_buffered),
            num_dropped_on_blacklisted_account: capped_usize(
                self.num_dropped_on_blacklisted_account + stats.num_dropped_on_blacklisted_account,
            ),
            ..self
        }
    }

    /// Adds the counts of received packets.
    pub fn add_received(&mut self, stats: &ReceivingStats)
        ensures
            *final(self) == old(self).with_received(*stats),
    {
        self.num_received = self.num_received.saturating_add(stats.num_received);
        self.num_dropped_on_receive = self.num_dropped_on_receive.saturating_add(
            stats.num_dropped_without_parsing,
        );
        self.num_dropped_on_parsing_and_sanitization =
        self.num_dropped_on_parsing_and_sanitization.saturating_add(
            stats.num_dropped_on_parsing_and_sanitization,
        );
        self.num_dropped_on_validate_locks = self.num_dropped_on_validate_locks.saturating_add(
            stats.num_dropped_on_lock_validation,
        );
        self.num_dropped_on_receive_compute_budget =
        self.num_dropped_on_receive_compute_budget.saturating_add(
            stats.num_dropped_on_compute_budget,
        );
        self.num_dropped_on_receive_age = self.num_dropped_on_receive_age.saturating_add(
            stats.num_dropped_on_age,
        );
        self.num_dropped_on_receive_already_processed =
        self.num_dropped_on_receive_already_processed.saturating_add(
            stats.num_dropped_on_already_processed,
        );
        self.num_dropped_on_receive_fee_payer =
        self.num_dropped_on_receive_fee_payer.saturating_add(stats.num_dropped_on_fee_payer);
        self.num_dropped_on_capacity = self.num_dropped_on_capacity.saturating_add(
            stats.num_dropped_on_capacity,
        );
        self.num_buffered = self.num_buffered.saturating_add(stats.num_buffered);
        self.num_dropped_on_blacklisted_account =
        self.num_dropped_on_blacklisted_account.saturating_add(
            stats.num_dropped_on_blacklisted_account,
        );
    }
}

impl SchedulerTimingMetrics {
    /// The times with those of a scheduling pass.
    pub open spec fn with_schedule(
        self,
        summary: SchedulingSummary,
        schedule_time_us: u64,
    ) -> SchedulerTimingMetrics {
        SchedulerTimingMetrics {
            schedule_filter_time_us: capped_u64(
                self.schedule_filter_time_us + summary.filter_time_us,
            ),
            schedule_time_us: capped_u64(self.schedule_time_us + schedule_time_us),
            ..self
        }
    }

    /// Adds the times of a scheduling pass.
    pub fn add_schedule(&mut self, summary: &SchedulingSummary, schedule_time_us: u64)
        ensures
            *final(self) == old(self).with_schedule(*summary, schedule_time_us),
    {
        self.schedule_filter_time_us = self.schedule_filter_time_us.saturating_add(
            summary.filter_time_us,
        );
        self.schedule_time_us = self.schedule_time_us.saturating_add(schedule_time_us);
    }

    /// The times with those of received packets.
    pub open spec fn with_received(self, stats: ReceivingStats) -> SchedulerTimingMetrics {
        SchedulerTimingMetrics {
            receive_time_us: capped_u64(self.receive_time_us + stats.receive_time_us),
            buffer_time_us: capped_u64(self.buffer_time_us + stats.buffer_time_us),
            ..self
        }
    }

    /// Adds the times of received packets.
    pub fn add_received(&mut self, stats: &ReceivingStats)
        ensures
            *final(self) == old(self).with_received(*stats),
    {
        self.receive_time_us = self.receive_time_us.saturating_add(stats.receive_time_us);
        self.buffer_time_us = self.buffer_time_us.saturating_add(stats.buffer_time_us);
    }
}

/// Of a scheduling pass each number goes to its own count, up to the largest number there is, and no
/// other count changes.
pub proof fn law_scheduling_is_counted(counts: SchedulerCountMetrics, summary: SchedulingSummary)
    ensures
        ({
            let after = counts.with_schedule(summary);
            &&& after.num_received == counts.num_received
            &&& after.num_buffered == counts.num_buffered
            &&& if counts.num_scheduled + summary.num_scheduled <= usize::MAX {
                after.num_scheduled == counts.num_scheduled + summary.num_scheduled
            } else {
                after.num_scheduled == usize::MAX
            }
            &&& if counts.num_unschedulable_conflicts + summary.num_unschedulable_conflicts <= usize::MAX {
                after.num_unschedulable_conflicts == counts.num_unschedulable_conflicts + summary.num_unschedulable_conflicts
            } else {
                after.num_unschedulable_conflicts == usize::MAX
            }
            &&& if counts.num_unschedulable_threads + summary.num_unschedulable_threads <= usize::MAX {
                after.num_unschedulable_threads == counts.num_unschedulable_threads + summary.num_unschedulable_threads
            } else {
                after.num_unschedulable_threads == usize::MAX
            }
            &&& if counts.num_schedule_filtered_out + summary.num_filtered_out <= usize::MAX {
                after.num_schedule_filtered_out == counts.num_schedule_filtered_out + summary.num_filtered_out
            } else {
                after.num_schedule_filtered_out == usize::MAX
            }
            &&& after.num_finished == counts.num_finished
            &&& after.num_retryable == counts.num_retryable
            &&& after.num_dropped_on_receive == counts.num_dropped_on_receive
            &&& after.num_dropped_on_parsing_and_sanitization == counts.num_dropped_on_parsing_and_sanitization
            &&& after.num_dropped_on_validate_locks == counts.num_dropped_on_validate_locks
            &&& after.num_dropped_on_receive_compute_budget == counts.num_dropped_on_receive_compute_budget
            &&& after.num_dropped_on_receive_age == counts.num_dropped_on_receive_age
            &&& after.num_dropped_on_receive_already_processed == counts.num_dropped_on_receive_already_processed
            &&& after.num_dropped_on_receive_fee_payer == counts.num_dropped_on_receive_fee_payer
            &&& after.num_dropped_on_clear == counts.num_dropped_on_clear
            &&& after.num_dropped_on_clean == counts.num_dropped_on_clean
            &&& after.num_dropped_on_capacity == counts.num_dropped_on_capacity
            &&& after.num_dropped_on_blacklisted_account == counts.num_dropped_on_blacklisted_account
            &&& after.num_bundle_arbitration_considered == counts.num_bundle_arbitration_considered
            &&& after.num_bundle_arbitration_skipped == counts.num_bundle_arbitration_skipped
            &&& after.num_bundle_executed_success == counts.num_bundle_executed_success
            &&& after.num_bundle_requeued == counts.num_bundle_requeued
        }),
{
}

/// Of finished work the transactions and those to retry are counted, and no other count changes.
pub proof fn law_finished_work_is_counted(counts: SchedulerCountMetrics, num_transactions: usize, num_retryable: usize)
    ensures
        ({
            let after = counts.with_completed(num_transactions, num_retryable);
            &&& after.num_received == counts.num_received
            &&& after.num_buffered == counts.num_buffered
            &&& after.num_scheduled == counts.num_scheduled
            &&& after.num_unschedulable_conflicts == counts.num_unschedulable_conflicts
            &&& after.num_unschedulable_threads == counts.num_unschedulable_threads
            &&& after.num_schedule_filtered_out == counts.num_schedule_filtered_out
            &&& if counts.num_finished + num_transactions <= usize::MAX {
                after.num_finished == counts.num_finished + num_transactions
            } else {
                after.num_finished == usize::MAX
            }
            &&& if counts.num_retryable + num_retryable <= usize::MAX {
                after.num_retryable == counts.num_retryable + num_retryable
            } else {
                after.num_retryable == usize::MAX
            }
            &&& after.num_dropped_on_receive == counts.num_dropped_on_receive
            &&& after.num_dropped_on_parsing_and_sanitization == counts.num_dropped_on_parsing_and_sanitization
            &&& after.num_dropped_on_validate_locks == counts.num_dropped_on_validate_locks
            &&& after.num_dropped_on_receive_compute_budget == counts.num_dropped_on_receive_compute_budget
            &&& after.num_dropped_on_receive_age == counts.num_dropped_on_receive_age
            &&& after.num_dropped_on_receive_already_processed == counts.num_dropped_on_receive_already_processed
            &&& after.num_dropped_on_receive_fee_payer == counts.num_dropped_on_receive_fee_payer
            &&& after.num_dropped_on_clear == counts.num_dropped_on_clear
            &&& after.num_dropped_on_clean == counts.num_dropped_on_clean
            &&& after.num_dropped_on_capacity == counts.num_dropped_on_capacity
            &&& after.num_dropped_on_blacklisted_account == counts.num_dropped_on_blacklisted_account
            &&& after.num_bundle_arbitration_considered == counts.num_bundle_arbitration_considered
            &&& after.num_bundle_arbitration_skipped == counts.num_bundle_arbitration_skipped
            &&& after.num_bundle_executed_success == counts.num_bundle_executed_success
            &&& after.num_bundle_requeued == counts.num_bundle_requeued
        }),
{
}

/// Of received packets each number goes to its own count, and no other count changes.
pub proof fn law_received_packets_are_counted(counts: SchedulerCountMetrics, stats: ReceivingStats)
    ensures
        ({
            let after = counts.with_received(stats);
            &&& if counts.num_received + stats.num_received <= usize::MAX {
                after.num_received == counts.num_received + stats.num_received
            } else {
                after.num_received == usize::MAX
            }
            &&& if counts.num_buffered + stats.num_buffered <= usize::MAX {
                after.num_buffered == counts.num_buffered + stats.num_buffered
            } else {
                after.num_buffered == usize::MAX
            }
            &&& after.num_scheduled == counts.num_scheduled
            &&& after.num_unschedulable_conflicts == counts.num_unschedulable_conflicts
            &&& after.num_unschedulable_threads == counts.num_unschedulable_threads
            &&& after.num_schedule_filtered_out == counts.num_schedule_filtered_out
            &&& after.num_finished == counts.num_finished
            &&& after.num_retryable == counts.num_retryable
            &&& if counts.num_dropped_on_receive + stats.num_dropped_without_parsing <= usize::MAX {
                after.num_dropped_on_receive == counts.num_dropped_on_receive + stats.num_dropped_without_parsing
            } else {
                after.num_dropped_on_receive == usize::MAX
            }
            &&& if counts.num_dropped_on_parsing_and_sanitization + stats.num_dropped_on_parsing_and_sanitization <= usize::MAX {
                after.num_dropped_on_parsing_and_sanitization == counts.num_dropped_on_parsing_and_sanitization + stats.num_dropped_on_parsing_and_sanitization
            } else {
                after.num_dropped_on_parsing_and_sanitization == usize::MAX
            }
            &&& if counts.num_dropped_on_validate_locks + stats.num_dropped_on_lock_validation <= usize::MAX {
                after.num_dropped_on_validate_locks == counts.num_dropped_on_validate_locks + stats.num_dropped_on_lock_validation
            } else {
                after.num_dropped_on_validate_locks == usize::MAX
            }
            &&& if counts.num_dropped_on_receive_compute_budget + stats.num_dropped_on_compute_budget <= usize::MAX {
                after.num_dropped_on_receive_compute_budget == counts.num_dropped_on_receive_compute_budget + stats.num_dropped_on_compute_budget
            } else {
                after.num_dropped_on_receive_compute_budget == usize::MAX
            }
            &&& if counts.num_dropped_on_receive_age + stats.num_dropped_on_age <= usize::MAX {
                after.num_dropped_on_receive_age == counts.num_dropped_on_receive_age + stats.num_dropped_on_age
            } else {
                after.num_dropped_on_receive_age == usize::MAX
            }
            &&& if counts.num_dropped_on_receive_already_processed + stats.num_dropped_on_already_processed <= usize::MAX {
                after.num_dropped_on_receive_already_processed == counts.num_dropped_on_receive_already_processed + stats.num_dropped_on_already_processed
            } else {
                after.num_dropped_on_receive_already_processed == usize::MAX
            }
            &&& if counts.num_dropped_on_receive_fee_payer + stats.num_dropped_on_fee_payer <= usize::MAX {
                after.num_dropped_on_receive_fee_payer == counts.num_dropped_on_receive_fee_payer + stats.num_dropped_on_fee_payer
            } else {
                after.num_dropped_on_receive_fee_payer == usize::MAX
            }
            &&& after.num_dropped_on_clear == counts.num_dropped_on_clear
            &&& after.num_dropped_on_clean == counts.num_dropped_on_clean
            &&& if counts.num_dropped_on_capacity + stats.num_dropped_on_capacity <= usize::MAX {
                after.num_dropped_on_capacity == counts.num_dropped_on_capacity + stats.num_dropped_on_capacity
            } else {
                after.num_dropped_on_capacity == usize::MAX
            }
            &&& if counts.num_dropped_on_blacklisted_account + stats.num_dropped_on_blacklisted_account <= usize::MAX {
                after.num_dropped_on_blacklisted_account == counts.num_dropped_on_blacklisted_account + stats.num_dropped_on_blacklisted_account
            } else {
                after.num_dropped_on_blacklisted_account == usize::MAX
            }
            &&& after.num_bundle_arbitration_considered == counts.num_bundle_arbitration_considered
            &&& after.num_bundle_arbitration_skipped == counts.num_bundle_arbitration_skipped
            &&& after.num_bundle_executed_success == counts.num_bundle_executed_success
            &&& after.num_bundle_requeued == counts.num_bundle_requeued
        }),
{
}

/// A scheduling pass adds to the times of filtering and of scheduling only.
pub proof fn law_scheduling_is_timed(times: SchedulerTimingMetrics, summary: SchedulingSummary, schedule_time_us: u64)
    ensures
        ({
            let after = times.with_schedule(summary, schedule_time_us);
            &&& after.decision_time_us == times.decision_time_us
            &&& after.receive_time_us == times.receive_time_us
            &&& after.buffer_time_us == times.buffer_time_us
            &&& if times.schedule_filter_time_us + summary.filter_time_us <= u64::MAX {
                after.schedule_filter_time_us == times.schedule_filter_time_us + summary.filter_time_us
            } else {
                after.schedule_filter_time_us == u64::MAX
            }
            &&& if times.schedule_time_us + schedule_time_us <= u64::MAX {
                after.schedule_time_us == times.schedule_time_us + schedule_time_us
            } else {
                after.schedule_time_us == u64::MAX
            }
            &&& after.clear_time_us == times.clear_time_us
            &&& after.clean_time_us == times.clean_time_us
            &&& after.receive_completed_time_us == times.receive_completed_time_us
        }),
{
}

/// Receiving packets adds to the times of receiving and of buffering only.
pub proof fn law_receiving_is_timed(times: SchedulerTimingMetrics, stats: ReceivingStats)
    ensures
        ({
            let after = times.with_received(stats);
            &&& after.decision_time_us == times.decision_time_us
            &&& if times.receive_time_us + stats.receive_time_us <= u64::MAX {
                after.receive_time_us == times.receive_time_us + stats.receive_time_us
            } else {
                after.receive_time_us == u64::MAX
            }
            &&& if times.buffer_time_us + stats.buffer_time_us <= u64::MAX {
                after.buffer_time_us == times.buffer_time_us + stats.buffer_time_us
            } else {
                after.buffer_time_us == u64::MAX
            }
            &&& after.schedule_filter_time_us == times.schedule_filter_time_us
            &&& after.schedule_time_us == times.schedule_time_us
            &&& after.clear_time_us == times.clear_time_us
            &&& after.clean_time_us == times.clean_time_us
            &&& after.receive_completed_time_us == times.receive_completed_time_us
        }),
{
}

} // verus!
