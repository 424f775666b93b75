//! What the storage operations report to the metrics of the node.

use vstd::prelude::*;

verus! {

/// Votes that an insertion dropped, by where they came from.
#[derive(Clone, Copy, Debug, PartialEq, Eq, Structural)]
pub struct VoteBatchInsertionMetrics {
    pub num_dropped_gossip: usize,
    pub num_dropped_tpu: usize,
}

/// Packets that an insertion dropped.
#[derive(Clone, Copy, Debug, PartialEq, Eq, Structural)]
pub struct PacketBatchInsertionMetrics {
    pub num_dropped_packets: usize,
}

/// What an insertion dropped, from either kind of storage.
#[derive(Clone, Copy, Debug, PartialEq, Eq, Structural)]
pub enum InsertPacketBatchSummary {
    VoteBatchInsertionMetrics(VoteBatchInsertionMetrics),
    PacketBatchInsertionMetrics(PacketBatchInsertionMetrics),
}

impl InsertPacketBatchSummary {
    /// Everything that was dropped.
    pub open spec fn dropped(&self) -> int {
        match self {
            Self::VoteBatchInsertionMetrics(metrics) => metrics.num_dropped_gossip
                + metrics.num_dropped_tpu,
            Self::PacketBatchInsertionMetrics(metrics) => metrics.num_dropped_packets as int,
        }
    }

    /// All dropped packets, whatever their kind.
    pub fn total_dropped_packets(&self) -> (total: usize)
        requires
            self.dropped() <= usize::MAX,
        ensures
            total == self.dropped(),
    {
        match self {
            Self::VoteBatchInsertionMetrics(metrics) => {
                metrics.num_dropped_gossip + metrics.num_dropped_tpu
            },
            Self::PacketBatchInsertionMetrics(metrics) => metrics.num_dropped_packets,
        }
    }

    /// Dropped votes that came by gossip; none for other packets.
    pub fn dropped_gossip_packets(&self) -> (dropped: usize)
        ensures
            dropped == (match self {
                Self::VoteBatchInsertionMetrics(metrics) => metrics.num_dropped_gossip,
                Self::PacketBatchInsertionMetrics(_) => 0,
            }),
    {
        match self {
            Self::VoteBatchInsertionMetrics(metrics) => metrics.num_dropped_gossip,
            _ => 0,
        }
    }

    /// Dropped votes that came by the transaction port; none for other packets.
    pub fn dropped_tpu_packets(&self) -> (dropped: usize)
        ensures
            dropped == (match self {
                Self::VoteBatchInsertionMetrics(metrics) => metrics.num_dropped_tpu,
                Self::PacketBatchInsertionMetrics(_) => 0,
            }),
    {
        match self {
            Self::VoteBatchInsertionMetrics(metrics) => metrics.num_dropped_tpu,
            _ => 0,
        }
    }
}

impl From<VoteBatchInsertionMetrics> for InsertPacketBatchSummary {
    fn from(metrics: VoteBatchInsertionMetrics) -> (summary: Self) {
        Self::VoteBatchInsertionMetrics(metrics)
    }
}

impl vstd::std_specs::convert::FromSpecImpl<VoteBatchInsertionMetrics>
    for InsertPacketBatchSummary {
    open spec fn obeys_from_spec() -> bool {
        true
    }

    open spec fn from_spec(metrics: VoteBatchInsertionMetrics) -> Self {
        Self::VoteBatchInsertionMetrics(metrics)
    }
}

impl From<PacketBatchInsertionMetrics> for InsertPacketBatchSummary {
    fn from(metrics: PacketBatchInsertionMetrics) -> (summary: Self) {
        Self::PacketBatchInsertionMetrics(metrics)
    }
}

impl vstd::std_specs::convert::FromSpecImpl<PacketBatchInsertionMetrics>
    for InsertPacketBatchSummary {
    open spec fn obeys_from_spec() -> bool {
        true
    }

    open spec fn from_spec(metrics: PacketBatchInsertionMetrics) -> Self {
        Self::PacketBatchInsertionMetrics(metrics)
    }
}

/// What became of bundles that were put in.
#[derive(Clone, Copy, Debug, PartialEq, Eq, Structural)]
pub struct InsertPacketBundlesSummary {
    pub insert_packets_summary: InsertPacketBatchSummary,
    pub num_bundles_inserted: usize,
    pub num_packets_inserted: usize,
    pub num_bundles_dropped: usize,
}

/// What a pass over the buffer in search of packets to forward did.
#[derive(Clone, Copy, Debug, PartialEq, Eq, Structural)]
pub struct FilterForwardingResults {
    pub total_forwardable_packets: usize,
    pub total_dropped_packets: usize,
    pub total_packet_conversion_us: u64,
    pub total_filter_packets_us: u64,
}

impl Default for FilterForwardingResults {
    fn default() -> (results: Self)
        ensures
            results == (FilterForwardingResults {
                total_forwardable_packets: 0,
                total_dropped_packets: 0,
                total_packet_conversion_us: 0,
                total_filter_packets_us: 0,
            }),
    {
        FilterForwardingResults {
            total_forwardable_packets: 0,
            total_dropped_packets: 0,
            total_packet_conversion_us: 0,
            total_filter_packets_us: 0,
        }
    }
}

/// A count that stops at the largest value it can hold.
pub open spec fn capped_usize(count: int) -> usize {
    if count > usize::MAX {
        usize::MAX
    } else {
        count as usize
    }
}

/// A count that stops at the largest value it can hold.
pub open spec fn capped_u64(count: int) -> u64 {
    if count > u64::MAX {
        u64::MAX
    } else {
        count as u64
    }
}

/// What is counted over a slot.
#[derive(Clone, Copy, Debug, PartialEq, Eq, Structural)]
pub struct SlotMetrics {
    /// How long it took to make transactions of packets.
    pub transactions_from_packets_us: u64,
}

impl Default for SlotMetrics {
    fn default() -> (metrics: Self)
        ensures
            metrics.transactions_from_packets_us == 0,
    {
        SlotMetrics { transactions_from_packets_us: 0 }
    }
}

impl SlotMetrics {
    /// With so much more time.
    pub open spec fn with_conversion(self, us: u64) -> SlotMetrics {
        SlotMetrics {
            transactions_from_packets_us: capped_u64(self.transactions_from_packets_us + us),
        }
    }

    /// Adds the time that it took to make transactions of packets.
    pub fn increment_transactions_from_packets_us(&mut self, us: u64)
        ensures
            *final(self) == old(self).with_conversion(us),
    {
        self.transactions_from_packets_us = self.transactions_from_packets_us.saturating_add(us);
    }
}

/// How many transactions failed, and why.
#[derive(Clone, Copy, Debug, PartialEq, Eq, Structural)]
pub struct TransactionErrorMetrics {
    /// The fee payer could not pay.
    pub fee_payer: usize,
}

impl Default for TransactionErrorMetrics {
    fn default() -> (metrics: Self)
        ensures
            metrics.fee_payer == 0,
    {
        TransactionErrorMetrics { fee_payer: 0 }
    }
}

/// What is counted of the bundles that are sanitized.
#[derive(Clone, Copy, Debug, PartialEq, Eq, Structural)]
pub struct BundleSanitizeMetrics {
    pub num_sanitized_ok: u64,
    pub num_sanitize_failed: u64,
    pub sanitize_bundle_elapsed_us: u64,
    pub transactions_from_packets_us: u64,
}

impl Default for BundleSanitizeMetrics {
    fn default() -> (metrics: Self)
        ensures
            metrics.num_sanitized_ok == 0,
            metrics.num_sanitize_failed == 0,
            metrics.sanitize_bundle_elapsed_us == 0,
            metrics.transactions_from_packets_us == 0,
    {
        BundleSanitizeMetrics {
            num_sanitized_ok: 0,
            num_sanitize_failed: 0,
            sanitize_bundle_elapsed_us: 0,
            transactions_from_packets_us: 0,
        }
    }
}

impl BundleSanitizeMetrics {
    /// Of so many bundles more, so many sanitize and the others do not.
    pub open spec fn counts(&self, before: BundleSanitizeMetrics, tried: int, ok: int) -> bool {
        *self == (BundleSanitizeMetrics {
            num_sanitized_ok: capped_u64(before.num_sanitized_ok + ok),
            num_sanitize_failed: capped_u64(before.num_sanitize_failed + (tried - ok)),
            ..before
        })
    }

    /// After so many bundles more were tried, of which so many sanitize: they are counted, and the
    /// time that it took is added to both times.
    pub open spec fn counted(&self, before: BundleSanitizeMetrics, tried: int, ok: int) -> bool {
        exists|us: u64|
            self.sanitize_bundle_elapsed_us == #[trigger] capped_u64(
                before.sanitize_bundle_elapsed_us + us,
            ) && (BundleSanitizeMetrics {
                sanitize_bundle_elapsed_us: before.sanitize_bundle_elapsed_us,
                transactions_from_packets_us: before.transactions_from_packets_us,
                ..*self
            }).counts(before, tried, ok) && self.transactions_from_packets_us == capped_u64(
                before.transactions_from_packets_us + us,
            )
    }

    /// Counts whether a bundle sanitizes.
    pub fn increment_sanitize_transaction_result(&mut self, ok: bool)
        ensures
            final(self).counts(
                *old(self),
                1,
                if ok {
                    1
                } else {
                    0
                },
            ),
    {
        if ok {
            self.num_sanitized_ok = self.num_sanitized_ok.saturating_add(1);
        } else {
            self.num_sanitize_failed = self.num_sanitize_failed.saturating_add(1);
        }
    }

    /// Adds the time that sanitizing bundles took.
    pub fn increment_sanitize_bundle_elapsed_us(&mut self, us: u64)
        ensures
            *final(self) == (BundleSanitizeMetrics {
                sanitize_bundle_elapsed_us: capped_u64(
                    old(self).sanitize_bundle_elapsed_us + us,
                ),
                transactions_from_packets_us: capped_u64(
                    old(self).transactions_from_packets_us + us,
                ),
                ..*old(self)
            }),
    {
        self.sanitize_bundle_elapsed_us = self.sanitize_bundle_elapsed_us.saturating_add(us);
        self.transactions_from_packets_us = self.transactions_from_packets_us.saturating_add(us);
    }
}

/// Counts are exact up to the largest value that they can hold, and stay there from then on.
pub proof fn law_counts_stop_at_the_largest_value(count: int)
    requires
        count >= 0,
    ensures
        count <= usize::MAX ==> capped_usize(count) == count,
        count > usize::MAX ==> capped_usize(count) == usize::MAX,
        count <= 0xffff_ffff_ffff_ffff ==> capped_u64(count) == count,
        count > 0xffff_ffff_ffff_ffff ==> capped_u64(count) == 0xffff_ffff_ffff_ffffu64,
{
}

/// What an insertion dropped of votes is what it dropped from both sources together; of packets it is
/// what it dropped.
pub proof fn law_dropped_votes_count_from_both_sources(
    votes: VoteBatchInsertionMetrics,
    packets: PacketBatchInsertionMetrics,
)
    ensures
        InsertPacketBatchSummary::VoteBatchInsertionMetrics(votes).dropped()
            == votes.num_dropped_gossip + votes.num_dropped_tpu,
        InsertPacketBatchSummary::PacketBatchInsertionMetrics(packets).dropped()
            == packets.num_dropped_packets,
{
}

/// The time of making transactions of packets adds up.
pub proof fn law_conversion_time_adds_up(metrics: SlotMetrics, us: u64, more: u64)
    requires
        metrics.transactions_from_packets_us + us + more <= u64::MAX,
    ensures
        metrics.with_conversion(us).transactions_from_packets_us
            == metrics.transactions_from_packets_us + us,
        metrics.with_conversion(us).with_conversion(more) == metrics.with_conversion(
            (us + more) as u64,
        ),
{
}

/// Of bundles that were tried, those that sanitize and the others are counted apart, and the time that it
/// took is added to both times alike.
pub proof fn law_sanitized_bundles_are_counted(
    before: BundleSanitizeMetrics,
    after: BundleSanitizeMetrics,
    tried: int,
    ok: int,
)
    requires
        after.counted(before, tried, ok),
        0 <= ok <= tried,
        before.num_sanitized_ok + tried <= u64::MAX,
        before.num_sanitize_failed + tried <= u64::MAX,
    ensures
        after.num_sanitized_ok == before.num_sanitized_ok + ok,
        after.num_sanitize_failed == before.num_sanitize_failed + tried - ok,
        after.sanitize_bundle_elapsed_us >= before.sanitize_bundle_elapsed_us,
        after.transactions_from_packets_us >= before.transactions_from_packets_us,
        after.sanitize_bundle_elapsed_us < u64::MAX && after.transactions_from_packets_us < u64::MAX
            ==> after.sanitize_bundle_elapsed_us - before.sanitize_bundle_elapsed_us
            == after.transactions_from_packets_us - before.transactions_from_packets_us,
{
}

} // verus!
