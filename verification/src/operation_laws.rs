//! What single calls do, whatever else is known of them: each law speaks of the arguments and the
//! result of a call.

use vstd::prelude::*;

use crate::account_locks::{
    validate_account_locks, AccountAccess, LockError, ReadWriteAccountSet, SanitizedTransaction,
};
use crate::bundle::{ImmutableDeserializedBundle, SanitizedBundle};
use crate::bundle_priority_queue::{clock_says, unix_us, BundlePriorityQueue};
use crate::bundle_ranking::{
    comes_before, law_priority_is_payment_over_cost, total_cost, total_reward, total_tips,
    BundlePriorityKey,
};
use crate::bundle_storage::{packet_count, BundleStorage};
use crate::keys::{MessageHash, Pubkey};
use crate::metrics::{
    InsertPacketBatchSummary, InsertPacketBundlesSummary, PacketBatchInsertionMetrics,
    VoteBatchInsertionMetrics,
};
use crate::packet::{
    CompiledInstruction, DeserializedPacket, ImmutableDeserializedPacket, PacketKey, SharedPacket,
};
use crate::packet_queue::key_le;
use crate::retention::{filter_processed_packets, keep_present, places_of};
use crate::scheduler_controller::BufferedPacketsDecision;
use crate::thread_local_packets::{
    law_packets_with_room_are_held, ForwardOption, ThreadLocalUnprocessedPackets, ThreadType,
    VoteSource,
};
use crate::unprocessed_packet_batches::{
    law_offered_packet_is_kept_or_outranked, UnprocessedPacketBatches,
};
use crate::unprocessed_transaction_storage::UnprocessedTransactionStorage;
use crate::validator_auth::{pair_servers, ValidatorAutherImpl, ValidatorStore};
use crate::vote_storage::VoteStorage;
use crate::votes::{DeserializedPacketError, LatestUnprocessedVotes, LatestValidatorVotePacket};

verus! {

/// Accounts are accepted just where there are no more than the limit and no two are the same; where
/// there are too many, that is what is said, whether two are the same or not.
pub proof fn law_accounts_are_validated(
    accounts: &Vec<AccountAccess>,
    lock_limit: usize,
    result: Result<(), LockError>,
)
    requires
        call_ensures(validate_account_locks, (accounts, lock_limit), result),
    ensures
        result is Ok <==> accounts@.len() <= lock_limit && forall|i: int, j: int|
            0 <= i < j < accounts@.len() ==> (#[trigger] accounts@[i]).pubkey != (
            #[trigger] accounts@[j]).pubkey,
        result == Err::<(), LockError>(LockError::TooManyAccountLocks) <==> accounts@.len()
            > lock_limit,
{
}

/// A transaction finds its locks free just where no account that it names is locked for writing and none
/// that it writes is locked at all.
pub proof fn law_locks_are_checked(
    locks: &ReadWriteAccountSet,
    transaction: &SanitizedTransaction,
    free: bool,
)
    requires
        call_ensures(ReadWriteAccountSet::check_locks, (locks, transaction), free),
    ensures
        free <==> forall|i: int|
            0 <= i < transaction.accounts@.len() ==> {
                let account = #[trigger] transaction.accounts@[i];
                &&& !locks@.writes.contains(account.pubkey)
                &&& account.is_writable ==> !locks@.reads.contains(account.pubkey)
            },
{
    if free {
        assert forall|i: int| 0 <= i < transaction.accounts@.len() implies {
            let account = #[trigger] transaction.accounts@[i];
            &&& !locks@.writes.contains(account.pubkey)
            &&& account.is_writable ==> !locks@.reads.contains(account.pubkey)
        } by {
            assert(locks@.allows(transaction.accounts@[i]));
        }
    } else {
        let accounts = transaction.accounts@;
        let i = choose|i: int| 0 <= i < accounts.len() && !locks@.allows(#[trigger] accounts[i]);
        assert(locks@.writes.contains(accounts[i].pubkey) || (accounts[i].is_writable
            && locks@.reads.contains(accounts[i].pubkey)));
    }
}

/// Taking locks locks every account of the transaction, for writing where it writes it and for reading
/// otherwise, and gives up none. Where no account is named twice, it says whether all of them were free.
pub proof fn law_locks_are_taken(
    locks: &mut ReadWriteAccountSet,
    transaction: &SanitizedTransaction,
    free: bool,
)
    requires
        call_ensures(ReadWriteAccountSet::take_locks, (locks, transaction), free),
    ensures
        forall|i: int|
            0 <= i < transaction.accounts@.len() ==> {
                let account = #[trigger] transaction.accounts@[i];
                if account.is_writable {
                    final(locks)@.writes.contains(account.pubkey)
                } else {
                    final(locks)@.reads.contains(account.pubkey)
                }
            },
        forall|key: Pubkey| #[trigger]
            old(locks)@.writes.contains(key) ==> final(locks)@.writes.contains(key),
        forall|key: Pubkey| #[trigger]
            old(locks)@.reads.contains(key) ==> final(locks)@.reads.contains(key),
        forall|key: Pubkey| #[trigger]
            final(locks)@.writes.contains(key) ==> old(locks)@.writes.contains(key) || exists|i: int|
                0 <= i < transaction.accounts@.len() && (
                #[trigger] transaction.accounts@[i]).pubkey == key
                    && transaction.accounts@[i].is_writable,
        (forall|i: int, j: int|
            0 <= i < j < transaction.accounts@.len() ==> (
            #[trigger] transaction.accounts@[i]).pubkey != (
            #[trigger] transaction.accounts@[j]).pubkey) ==> (free <==> forall|i: int|
            0 <= i < transaction.accounts@.len() ==> {
                let account = #[trigger] transaction.accounts@[i];
                &&& !old(locks)@.writes.contains(account.pubkey)
                &&& account.is_writable ==> !old(locks)@.reads.contains(account.pubkey)
            }),
{
    let accounts = transaction.accounts@;
    assert forall|i: int| 0 <= i < accounts.len() implies {
        let account = #[trigger] accounts[i];
        if account.is_writable {
            final(locks)@.writes.contains(account.pubkey)
        } else {
            final(locks)@.reads.contains(account.pubkey)
        }
    } by {
        assert(crate::account_locks::names(
            accounts,
            accounts[i].pubkey,
            accounts[i].is_writable,
        ));
    }
    assert forall|key: Pubkey| #[trigger] final(locks)@.writes.contains(key) implies old(locks)@.writes.contains(key) || exists|i: int|
        0 <= i < accounts.len() && (#[trigger] accounts[i]).pubkey == key
            && accounts[i].is_writable by {
        if !old(locks)@.writes.contains(key) {
            let i = choose|i: int|
                0 <= i < accounts.len() && (#[trigger] accounts[i]).pubkey == key
                    && accounts[i].is_writable == true;
            assert(accounts[i].pubkey == key && accounts[i].is_writable);
        }
    }
    if crate::account_locks::distinct_accounts(accounts) {
        crate::account_locks::law_taking_agrees_with_checking(old(locks)@, accounts);
        if free {
            assert forall|i: int| 0 <= i < accounts.len() implies {
                let account = #[trigger] accounts[i];
                &&& !old(locks)@.writes.contains(account.pubkey)
                &&& account.is_writable ==> !old(locks)@.reads.contains(account.pubkey)
            } by {
                assert(old(locks)@.allows(accounts[i]));
            }
        } else {
            let i = choose|i: int|
                0 <= i < accounts.len() && !old(locks)@.allows(#[trigger] accounts[i]);
            assert(old(locks)@.writes.contains(accounts[i].pubkey) || (accounts[i].is_writable
                && old(locks)@.reads.contains(accounts[i].pubkey)));
        }
    }
}

/// Locks that are given back are all given back.
pub proof fn law_locks_are_given_back(locks: &mut ReadWriteAccountSet, key: Pubkey)
    requires
        call_ensures(ReadWriteAccountSet::clear, (locks,), ()),
    ensures
        !final(locks)@.reads.contains(key),
        !final(locks)@.writes.contains(key),
{
}

/// A call that finds a transfer gives the key at the place that the instruction's second account says,
/// and the amount of the eight bytes behind the tag; it finds one just where the program is the one of
/// zeros, the tag is two, and the account is there.
pub proof fn law_transfer_is_extracted(
    account_keys: &Vec<Pubkey>,
    program_id: &Pubkey,
    ix: &CompiledInstruction,
    transfer: Option<(&Pubkey, u64)>,
)
    requires
        call_ensures(BundleStorage::extract_transfer, (account_keys, program_id, ix), transfer),
    ensures
        transfer is Some <==> {
            &&& forall|i: int| 0 <= i < 32 ==> #[trigger] program_id.bytes[i] == 0
            &&& ix.data@.len() >= 12
            &&& ix.data@[0] == 2 && ix.data@[1] == 0 && ix.data@[2] == 0 && ix.data@[3] == 0
            &&& ix.accounts@.len() >= 2
            &&& ix.accounts@[1] < account_keys@.len()
        },
        transfer matches Some((destination, amount)) ==> {
            &&& *destination == account_keys@[ix.accounts@[1] as int]
            &&& amount == ix.data@[4] + 0x100 * ix.data@[5] + 0x1_0000 * ix.data@[6] + 0x100_0000
                * ix.data@[7] + 0x1_0000_0000 * ix.data@[8] + 0x100_0000_0000 * ix.data@[9]
                + 0x1_0000_0000_0000 * ix.data@[10] + 0x100_0000_0000_0000 * ix.data@[11]
        },
{
    crate::bundle::law_transfer_is_read_off_the_bytes(account_keys@, *program_id, *ix);
}

/// The tips that a call finds are no less than what any one instruction transfers to a tip account, and
/// there are none where no instruction does.
pub proof fn law_tips_are_extracted(
    packet: &ImmutableDeserializedPacket,
    tip_accounts: &Vec<Pubkey>,
    tips: u64,
    i: int,
)
    requires
        call_ensures(BundleStorage::extract_tips_from_packet, (packet, tip_accounts), tips),
        0 <= i < packet.message.instructions@.len(),
    ensures
        ({
            let keys = packet.message.account_keys@;
            let ix = packet.message.instructions@[i];
            let program = keys[ix.program_id_index as int];
            let is_tip = {
                &&& forall|k: int| 0 <= k < 32 ==> #[trigger] program.bytes[k] == 0
                &&& ix.data@.len() >= 12
                &&& ix.data@[0] == 2 && ix.data@[1] == 0 && ix.data@[2] == 0 && ix.data@[3] == 0
                &&& ix.accounts@.len() >= 2
                &&& ix.accounts@[1] < keys.len()
                &&& tip_accounts@.contains(keys[ix.accounts@[1] as int])
            };
            is_tip ==> tips >= ix.data@[4] + 0x100 * ix.data@[5] + 0x1_0000 * ix.data@[6] + 0x100_0000
                * ix.data@[7] + 0x1_0000_0000 * ix.data@[8] + 0x100_0000_0000 * ix.data@[9]
                + 0x1_0000_0000_0000 * ix.data@[10] + 0x100_0000_0000_0000 * ix.data@[11]
        }),
{
    let all = packet.message.instructions@.len() as int;
    crate::bundle::law_each_instruction_counts(*packet, tip_accounts@, i);
    crate::bundle::lemma_tips_of(*packet, tip_accounts@, i, i);
    crate::bundle::lemma_tips_of(*packet, tip_accounts@, i + 1, all);
}

/// The place that a bundle gets: what it pays a million times over its cost, rounded down, and the next
/// number of the counter, which goes on with zero behind the largest.
pub proof fn law_bundle_gets_its_place(
    bundle: &ImmutableDeserializedBundle,
    sanitized: &SanitizedBundle,
    counter: &mut u64,
    tip_accounts: &Vec<Pubkey>,
    key: BundlePriorityKey,
)
    requires
        call_ensures(
            BundleStorage::calculate_bundle_priority,
            (bundle, sanitized, counter, tip_accounts),
            key,
        ),
    ensures
        key.sequence == *final(counter),
        *old(counter) < u64::MAX ==> *final(counter) == *old(counter) + 1,
        *old(counter) == u64::MAX ==> *final(counter) == 0,
        ({
            let cost = total_cost(sanitized.transactions@);
            let payment = 1_000_000 * (total_reward(sanitized.transactions@) + total_tips(
                bundle.packets@,
                tip_accounts@,
            ));
            let divisor = if cost == 0 {
                1
            } else {
                cost
            };
            let scaled = if payment <= 0xffff_ffff_ffff_ffff {
                payment
            } else {
                0xffff_ffff_ffff_ffff
            };
            key.priority * divisor <= scaled < (key.priority + 1) * divisor
        }),
{
    law_priority_is_payment_over_cost(*bundle, *sanitized, tip_accounts@);
}

/// One place comes before another where its priority is higher, or as high and its number is smaller.
pub proof fn law_places_are_compared(a: &BundlePriorityKey, b: &BundlePriorityKey, before: bool)
    requires
        call_ensures(comes_before, (a, b), before),
    ensures
        a.priority > b.priority ==> before,
        a.priority < b.priority ==> !before,
        a.priority == b.priority ==> (before <==> a.sequence < b.sequence),
{
}

/// A time that fits is kept as it is; a longer one loses what is above sixty-four bits; and before the
/// epoch it is zero.
pub proof fn law_time_keeps_its_lower_bits(micros: Option<u128>, us: u64)
    requires
        call_ensures(unix_us, (micros,), us),
    ensures
        micros is None ==> us == 0,
        micros matches Some(value) ==> (value <= u64::MAX ==> us == value) && exists|k: int|
            value == us + #[trigger] (k * 0x1_0000_0000_0000_0000) && k >= 0,
{
    if micros is Some {
        let value = micros->0 as int;
        let k = value / 0x1_0000_0000_0000_0000;
        assert(value == us + k * 0x1_0000_0000_0000_0000);
    }
}

/// What a bundle storage says of itself: whether bundles wait, how many wait and are kept, and that there
/// is room for as many as are missing to two hundred and fifty-six. It passes nothing on.
pub proof fn law_bundle_storage_speaks_of_itself(
    storage: &BundleStorage,
    empty: bool,
    waiting: usize,
    kept: usize,
    room: usize,
    option: ForwardOption,
)
    requires
        call_ensures(BundleStorage::is_empty, (storage,), empty),
        call_ensures(BundleStorage::unprocessed_bundles_len, (storage,), waiting),
        call_ensures(BundleStorage::cost_model_buffered_bundles_len, (storage,), kept),
        call_ensures(BundleStorage::max_receive_size, (storage,), room),
        call_ensures(BundleStorage::forward_option, (storage,), option),
    ensures
        empty <==> waiting == 0,
        waiting == storage.unprocessed_bundle_storage@.len(),
        kept == storage.cost_model_buffered_bundle_storage@.len(),
        room + waiting == 256,
        option == ForwardOption::NotForward,
{
}

/// How many packets wait and are kept are the packets of the bundles that do.
pub proof fn law_bundle_storage_counts_packets(storage: &BundleStorage, waiting: usize, kept: usize)
    requires
        call_ensures(BundleStorage::unprocessed_packets_len, (storage,), waiting),
        call_ensures(BundleStorage::cost_model_buffered_packets_len, (storage,), kept),
    ensures
        waiting == packet_count(storage.unprocessed_bundle_storage@),
        kept == packet_count(storage.cost_model_buffered_bundle_storage@),
{
}

/// A reset drops every bundle, says how many there were of either kind, and keeps the slot.
pub proof fn law_reset_drops_everything(storage: &mut BundleStorage, dropped: (usize, usize))
    requires
        call_ensures(BundleStorage::reset, (storage,), dropped),
    ensures
        final(storage).unprocessed_bundle_storage@.len() == 0,
        final(storage).cost_model_buffered_bundle_storage@.len() == 0,
        dropped.0 == old(storage).unprocessed_bundle_storage@.len(),
        dropped.1 == old(storage).cost_model_buffered_bundle_storage@.len(),
        final(storage).last_update_slot == old(storage).last_update_slot,
{
}

/// Where bundles go: new ones behind those that wait or in front of them, as is asked for; those that are
/// put in front in front of those that wait; and those that are kept behind those that are kept. The
/// others of either kind and the slot stay as they are.
pub proof fn law_bundles_go_where_they_belong(
    storage: &mut BundleStorage,
    bundles: Vec<ImmutableDeserializedBundle>,
    push_back: bool,
    summary: InsertPacketBundlesSummary,
    i: int,
)
    requires
        call_ensures(
            BundleStorage::insert_unprocessed_bundles,
            (storage, bundles, push_back),
            summary,
        ),
        old(storage).unprocessed_bundle_storage@.len() + bundles@.len() <= 1000,
        0 <= i < bundles@.len(),
    ensures
        ({
            let before = old(storage).unprocessed_bundle_storage@;
            let after = final(storage).unprocessed_bundle_storage@;
            &&& after.len() == before.len() + bundles@.len()
            &&& push_back ==> after[before.len() + i] == bundles@[i] && after.take(
                before.len() as int,
            ) == before
            &&& !push_back ==> after[bundles@.len() - 1 - i] == bundles@[i] && after.skip(
                bundles@.len() as int,
            ) == before
            &&& summary.num_bundles_inserted == bundles@.len()
            &&& summary.num_bundles_dropped == 0
            &&& summary.num_packets_inserted == packet_count(bundles@)
        }),
        final(storage).cost_model_buffered_bundle_storage@
            == old(storage).cost_model_buffered_bundle_storage@,
        final(storage).last_update_slot == old(storage).last_update_slot,
{
    let before = old(storage).unprocessed_bundle_storage@;
    let after = final(storage).unprocessed_bundle_storage@;
    crate::bundle_laws::law_first_bundles_that_fit_go_in(before, bundles@);
    assert(bundles@.take(bundles@.len() as int) =~= bundles@);
    if push_back {
        assert(after.take(before.len() as int) =~= before);
    } else {
        assert(after.skip(bundles@.len() as int) =~= before);
    }
}

/// Bundles that are put in front of those that wait stand there with the last one foremost.
pub proof fn law_bundles_are_put_in_front(
    storage: &mut BundleStorage,
    bundles: Vec<ImmutableDeserializedBundle>,
    summary: InsertPacketBundlesSummary,
    i: int,
)
    requires
        call_ensures(
            BundleStorage::push_front_unprocessed_bundles,
            (storage, bundles),
            summary,
        ),
        old(storage).unprocessed_bundle_storage@.len() + bundles@.len() <= 1000,
        0 <= i < bundles@.len(),
    ensures
        ({
            let before = old(storage).unprocessed_bundle_storage@;
            let after = final(storage).unprocessed_bundle_storage@;
            &&& after.len() == before.len() + bundles@.len()
            &&& after[bundles@.len() - 1 - i] == bundles@[i]
            &&& after.skip(bundles@.len() as int) == before
            &&& summary.num_bundles_inserted == bundles@.len()
        }),
        final(storage).cost_model_buffered_bundle_storage@
            == old(storage).cost_model_buffered_bundle_storage@,
{
    let before = old(storage).unprocessed_bundle_storage@;
    crate::bundle_laws::law_first_bundles_that_fit_go_in(before, bundles@);
    assert(final(storage).unprocessed_bundle_storage@.skip(bundles@.len() as int) =~= before);
}

/// Bundles that are kept for the next slot stand behind those that are kept already.
pub proof fn law_bundles_are_kept_behind(
    storage: &mut BundleStorage,
    bundles: Vec<ImmutableDeserializedBundle>,
    summary: InsertPacketBundlesSummary,
    i: int,
)
    requires
        call_ensures(
            BundleStorage::push_back_cost_model_buffered_bundles,
            (storage, bundles),
            summary,
        ),
        old(storage).cost_model_buffered_bundle_storage@.len() + bundles@.len() <= 1000,
        0 <= i < bundles@.len(),
    ensures
        ({
            let before = old(storage).cost_model_buffered_bundle_storage@;
            let after = final(storage).cost_model_buffered_bundle_storage@;
            &&& after.len() == before.len() + bundles@.len()
            &&& after[before.len() + i] == bundles@[i]
            &&& after.take(before.len() as int) == before
            &&& summary.num_bundles_inserted == bundles@.len()
        }),
        final(storage).unprocessed_bundle_storage@ == old(storage).unprocessed_bundle_storage@,
{
    let before = old(storage).cost_model_buffered_bundle_storage@;
    crate::bundle_laws::law_first_bundles_that_fit_go_in(before, bundles@);
    assert(final(storage).cost_model_buffered_bundle_storage@.take(before.len() as int) =~= before);
}

/// Only a decision to process names a slot, and it names its own.
pub proof fn law_only_processing_has_a_slot(decision: &BufferedPacketsDecision, slot: Option<u64>)
    requires
        call_ensures(BufferedPacketsDecision::bank_slot, (decision,), slot),
    ensures
        slot is None <==> *decision == BufferedPacketsDecision::Forward || *decision
            == BufferedPacketsDecision::ForwardAndHold || *decision == BufferedPacketsDecision::Hold,
        slot is Some ==> *decision == BufferedPacketsDecision::Consume(slot->0),
{
}

/// What a thread's packets are passed on as goes by what the thread works on.
pub proof fn law_thread_type_says_what_is_passed_on(
    storage: &ThreadLocalUnprocessedPackets,
    option: ForwardOption,
    room: usize,
    len: usize,
    empty: bool,
)
    requires
        call_ensures(ThreadLocalUnprocessedPackets::forward_option, (storage,), option),
        call_ensures(ThreadLocalUnprocessedPackets::max_receive_size, (storage,), room),
        call_ensures(ThreadLocalUnprocessedPackets::len, (storage,), len),
        call_ensures(ThreadLocalUnprocessedPackets::is_empty, (storage,), empty),
    ensures
        option == ForwardOption::ForwardTransaction <==> storage.thread_type
            == ThreadType::Transactions,
        option == ForwardOption::ForwardTpuVote <==> storage.thread_type == ThreadType::Voting(
            VoteSource::Tpu,
        ),
        room + len == storage.unprocessed_packet_batches.batch_limit,
        empty <==> len == 0,
        len == storage.unprocessed_packet_batches.message_hash_to_transaction@.len(),
{
}

/// What a vote storage says of itself: it receives ten thousand votes at a time at most, and passes on
/// just the votes of the transaction port.
pub proof fn law_vote_storage_speaks_of_itself(
    storage: &VoteStorage,
    size: usize,
    option: ForwardOption,
    len: usize,
    empty: bool,
)
    requires
        call_ensures(VoteStorage::max_receive_size, (storage,), size),
        call_ensures(VoteStorage::forward_option, (storage,), option),
        call_ensures(VoteStorage::len, (storage,), len),
        call_ensures(VoteStorage::is_empty, (storage,), empty),
    ensures
        size == 10_000,
        option == if storage.vote_source == VoteSource::Tpu {
            ForwardOption::ForwardTpuVote
        } else {
            ForwardOption::NotForward
        },
        empty <==> len == 0,
        len == crate::votes::present_count(storage.latest_unprocessed_votes.latest_votes@),
{
}

/// Only the thread of gossip votes leaves processing to another one. A storage answers for what it
/// holds, and only packets have a price.
pub proof fn law_storage_answers_for_what_it_holds(
    storage: &UnprocessedTransactionStorage,
    leave: bool,
    least: Option<u64>,
    greatest: Option<u64>,
    len: usize,
    size: usize,
    option: ForwardOption,
)
    requires
        storage.wf(),
        call_ensures(UnprocessedTransactionStorage::should_not_process, (storage,), leave),
        call_ensures(UnprocessedTransactionStorage::get_min_priority, (storage,), least),
        call_ensures(UnprocessedTransactionStorage::get_max_priority, (storage,), greatest),
        call_ensures(UnprocessedTransactionStorage::len, (storage,), len),
        call_ensures(UnprocessedTransactionStorage::max_receive_size, (storage,), size),
        call_ensures(UnprocessedTransactionStorage::forward_option, (storage,), option),
    ensures
        match storage {
            UnprocessedTransactionStorage::VoteStorage(votes) => {
                &&& leave <==> votes.vote_source == VoteSource::Gossip
                &&& least is None && greatest is None
                &&& len == crate::votes::present_count(votes.latest_unprocessed_votes.latest_votes@)
                &&& size == 10_000
                &&& option == if votes.vote_source == VoteSource::Tpu {
                    ForwardOption::ForwardTpuVote
                } else {
                    ForwardOption::NotForward
                }
            },
            UnprocessedTransactionStorage::LocalTransactionStorage(packets) => {
                let held = packets.unprocessed_packet_batches.message_hash_to_transaction@;
                &&& !leave
                &&& len == held.len()
                &&& size + held.len() == packets.unprocessed_packet_batches.batch_limit
                &&& least is None <==> held.len() == 0
                &&& greatest is None <==> held.len() == 0
                &&& option == ForwardOption::ForwardTransaction <==> packets.thread_type
                    == ThreadType::Transactions
                &&& option == ForwardOption::ForwardTpuVote <==> packets.thread_type
                    == ThreadType::Voting(VoteSource::Tpu)
            },
            UnprocessedTransactionStorage::BundleStorage(bundles) => {
                &&& !leave
                &&& least is None && greatest is None
                &&& len == bundles.unprocessed_bundle_storage@.len()
                    + bundles.cost_model_buffered_bundle_storage@.len()
                &&& size + bundles.unprocessed_bundle_storage@.len() == 256
                &&& option == ForwardOption::NotForward
            },
        },
{
    if let UnprocessedTransactionStorage::LocalTransactionStorage(packets) = storage {
        let held = packets.unprocessed_packet_batches.message_hash_to_transaction@;
        packets.unprocessed_packet_batches.lemma_wf();
        if held.len() == 0 {
            assert(held.dom() =~= Set::empty());
            assert forall|hash: MessageHash| !(#[trigger] held.contains_key(hash)) by {
                assert(!held.dom().contains(hash));
            }
        }
    }
}

/// Clearing leaves no packet, no bundle, and no vote that was forwarded or came by gossip; other votes
/// stay.
pub proof fn law_forwarded_packets_are_cleared(storage: &mut UnprocessedTransactionStorage, j: int)
    requires
        call_ensures(
            UnprocessedTransactionStorage::clear_forwarded_packets,
            (storage,),
            (),
        ),
    ensures
        match *old(storage) {
            UnprocessedTransactionStorage::LocalTransactionStorage(_) => *final(storage) matches UnprocessedTransactionStorage::LocalTransactionStorage(after)
                && after.unprocessed_packet_batches.message_hash_to_transaction@.dom()
                == Set::<MessageHash>::empty(),
            UnprocessedTransactionStorage::BundleStorage(before) => *final(storage) matches UnprocessedTransactionStorage::BundleStorage(after)
                && after.unprocessed_bundle_storage@.len() == 0
                && after.cost_model_buffered_bundle_storage@.len() == 0
                && after.last_update_slot == before.last_update_slot,
            UnprocessedTransactionStorage::VoteStorage(before) => *final(storage) matches UnprocessedTransactionStorage::VoteStorage(after) && {
                let votes = before.latest_unprocessed_votes.latest_votes@;
                let votes_after = after.latest_unprocessed_votes.latest_votes@;
                &&& votes_after.len() == votes.len()
                &&& 0 <= j < votes.len() ==> votes_after[j].vote_pubkey == votes[j].vote_pubkey
                    && votes_after[j].vote == if votes[j].vote_source == VoteSource::Gossip
                    || votes[j].forwarded {
                    None
                } else {
                    votes[j].vote
                }
            },
        },
{
    assert(Map::<MessageHash, DeserializedPacket>::empty().dom()
        =~= Set::<MessageHash>::empty());
}

/// A packet makes a vote where it is one, unless it is a legacy one and those are not taken any more.
pub proof fn law_vote_is_made_of_a_packet(
    packet: SharedPacket,
    vote_source: VoteSource,
    deprecate_legacy_vote_ixs: bool,
    result: Result<LatestValidatorVotePacket, DeserializedPacketError>,
)
    requires
        call_ensures(
            LatestValidatorVotePacket::new_from_immutable,
            (packet, vote_source, deprecate_legacy_vote_ixs),
            result,
        ),
    ensures
        match packet.vote {
            None => result is Err,
            Some(details) => if details.is_legacy && deprecate_legacy_vote_ixs {
                result is Err
            } else {
                result matches Ok(vote) && {
                    &&& vote.vote_pubkey == details.vote_pubkey
                    &&& vote.slot == details.slot
                    &&& vote.timestamp == details.timestamp
                    &&& vote.vote == Some(packet)
                    &&& vote.vote_source == vote_source
                    &&& !vote.forwarded
                }
            },
        },
{
}

/// A vote counts as forwarded where it was, or came by gossip, and as taken where its packet is gone.
pub proof fn law_vote_speaks_of_itself(
    vote: &LatestValidatorVotePacket,
    taken: bool,
    forwarded: bool,
)
    requires
        call_ensures(LatestValidatorVotePacket::is_vote_taken, (vote,), taken),
        call_ensures(LatestValidatorVotePacket::is_forwarded, (vote,), forwarded),
    ensures
        taken <==> vote.vote is None,
        forwarded <==> vote.vote_source == VoteSource::Gossip || vote.forwarded,
{
}

/// In a later epoch the stakes are taken over, and just the votes of validators with stake are kept; in
/// the epoch that is known, or an earlier one, nothing changes.
pub proof fn law_later_epoch_is_taken_over(
    votes: &mut LatestUnprocessedVotes,
    epoch: u64,
    staked: Vec<Pubkey>,
    deprecate_legacy_vote_ixs: bool,
)
    requires
        call_ensures(
            LatestUnprocessedVotes::cache_epoch_boundary_info,
            (votes, epoch, staked, deprecate_legacy_vote_ixs),
            (),
        ),
    ensures
        epoch <= old(votes).current_epoch ==> *final(votes) == *old(votes),
        epoch > old(votes).current_epoch ==> {
            &&& final(votes).current_epoch == epoch
            &&& final(votes).staked@ == staked@
            &&& final(votes).deprecate_legacy_vote_ixs == deprecate_legacy_vote_ixs
            &&& forall|vote: LatestValidatorVotePacket| #[trigger]
                final(votes).latest_votes@.contains(vote) <==> old(votes).latest_votes@.contains(vote)
                    && staked@.contains(vote.vote_pubkey)
        },
{
    crate::key_lists::lemma_filter(
        old(votes).latest_votes@,
        |vote: LatestValidatorVotePacket| staked@.contains(vote.vote_pubkey),
    );
}

/// A validator may connect where it was named, where some were named; otherwise where the leader schedule
/// says so.
pub proof fn law_named_validators_may_connect<F: FnOnce(&Pubkey) -> bool>(
    auther: &ValidatorAutherImpl,
    pubkey: &Pubkey,
    is_scheduled_validator: F,
    authorized: bool,
)
    requires
        call_ensures(
            ValidatorAutherImpl::is_authorized::<F>,
            (auther, pubkey, is_scheduled_validator),
            authorized,
        ),
    ensures
        match auther.store {
            ValidatorStore::UserDefined(named) => authorized <==> exists|i: int|
                0 <= i < named@.len() && #[trigger] named@[i] == *pubkey,
            ValidatorStore::LeaderSchedule => call_ensures(
                is_scheduled_validator,
                (pubkey,),
                authorized,
            ),
        },
{
    if let ValidatorStore::UserDefined(named) = auther.store {
        if authorized {
            let i = choose|i: int| 0 <= i < named@.len() && named@[i] == *pubkey;
            assert(named@[i] == *pubkey);
        }
    }
}

/// Where validators are named, those are asked about, and otherwise the leader schedule.
pub proof fn law_names_go_before_the_schedule(
    allowed_validators: Option<Vec<Pubkey>>,
    store: ValidatorStore,
)
    requires
        call_ensures(ValidatorStore::from_allowed, (allowed_validators,), store),
    ensures
        allowed_validators is None <==> store is LeaderSchedule,
        allowed_validators matches Some(named) ==> store == ValidatorStore::UserDefined(named),
{
}

/// Servers are paired by their place, as far as both lists go.
pub proof fn law_servers_are_paired(
    rpc_servers: &Vec<String>,
    websocket_servers: &Vec<String>,
    servers: Vec<(String, String)>,
)
    requires
        call_ensures(pair_servers, (rpc_servers, websocket_servers), servers),
    ensures
        servers@.len() == rpc_servers@.len() || servers@.len() == websocket_servers@.len(),
        servers@.len() <= rpc_servers@.len() && servers@.len() <= websocket_servers@.len(),
        forall|i: int|
            0 <= i < servers@.len() ==> (#[trigger] servers@[i]).0 == rpc_servers@[i]
                && servers@[i].1 == websocket_servers@[i],
{
}

/// What a summary says was dropped: for votes the sum of both sources, and each of them; for packets their
/// number, none of it from gossip or the transaction port.
pub proof fn law_summary_says_what_was_dropped(
    summary: &InsertPacketBatchSummary,
    total: usize,
    gossip: usize,
    tpu: usize,
)
    requires
        call_ensures(InsertPacketBatchSummary::total_dropped_packets, (summary,), total),
        call_ensures(InsertPacketBatchSummary::dropped_gossip_packets, (summary,), gossip),
        call_ensures(InsertPacketBatchSummary::dropped_tpu_packets, (summary,), tpu),
    ensures
        match summary {
            InsertPacketBatchSummary::VoteBatchInsertionMetrics(metrics) => {
                &&& gossip == metrics.num_dropped_gossip
                &&& tpu == metrics.num_dropped_tpu
                &&& total == gossip + tpu
            },
            InsertPacketBatchSummary::PacketBatchInsertionMetrics(metrics) => {
                &&& gossip == 0
                &&& tpu == 0
                &&& total == metrics.num_dropped_packets
            },
        },
{
}

/// The runs between listed positions hold just the positions before the last listed one that are not
/// listed.
pub proof fn law_runs_hold_what_is_not_listed(
    listed: &Vec<usize>,
    runs: Vec<(usize, usize)>,
    position: int,
)
    requires
        call_ensures(filter_processed_packets, (listed,), runs),
        listed@.len() > 0,
        forall|i: int, j: int| 0 <= i < j < listed@.len() ==> #[trigger] listed@[i]
            <= #[trigger] listed@[j],
    ensures
        (exists|g: int| 0 <= g < runs@.len() && (#[trigger] runs@[g]).0 <= position < runs@[g].1) <==> (
        0 <= position < listed@[listed@.len() - 1] && forall|i: int|
            0 <= i < listed@.len() ==> #[trigger] listed@[i] != position),
{
    crate::retention::law_gaps_are_the_unlisted(listed@, position);
}

/// The places of the flags that are set are just those, in ascending order.
pub proof fn law_places_are_those_of_set_flags(flags: &Vec<bool>, places: Vec<usize>, p: usize)
    requires
        call_ensures(places_of, (flags,), places),
    ensures
        places@.contains(p) <==> p < flags@.len() && flags@[p as int],
        forall|i: int, j: int| 0 <= i < j < places@.len() ==> #[trigger] places@[i]
            < #[trigger] places@[j],
{
    assert(flags.len() == flags@.len());
    crate::retention::lemma_true_places(flags@);
    if places@.contains(p) {
        let i = choose|i: int| 0 <= i < places@.len() && places@[i] == p;
        assert(flags@[places@[i] as int]);
    }
    if p < flags@.len() && flags@[p as int] {
        assert(places@.contains(p));
    }
}

/// The results that are there come out in order, each with its place.
pub proof fn law_present_results_are_kept<T>(
    results: Vec<Option<T>>,
    kept: (Vec<T>, Vec<usize>),
    p: int,
)
    requires
        call_ensures(keep_present::<T>, (results,), kept),
    ensures
        kept.0@.len() == kept.1@.len(),
        forall|k: int|
            0 <= k < kept.0@.len() ==> (#[trigger] kept.1@[k]) < results@.len()
                && results@[kept.1@[k] as int] == Some(kept.0@[k]),
        forall|i: int, j: int| 0 <= i < j < kept.1@.len() ==> #[trigger] kept.1@[i]
            < #[trigger] kept.1@[j],
        0 <= p < results@.len() && results@[p] is Some ==> kept.1@.contains(p as usize),
{
    assert(results.len() == results@.len());
    crate::forwarding_laws::law_present_values_come_from_their_places(results@);
    crate::retention::lemma_true_places(crate::retention::present(results@));
}

/// A buffer starts empty, with the room that is asked for.
pub proof fn law_buffer_starts_empty(
    capacity: usize,
    batches: UnprocessedPacketBatches,
    hash: MessageHash,
)
    requires
        call_ensures(UnprocessedPacketBatches::with_capacity, (capacity,), batches),
    ensures
        batches.batch_limit == capacity,
        !batches.message_hash_to_transaction@.contains_key(hash),
{
}

/// A buffer says how much it holds and can hold, and whether a packet was forwarded; one that it does not
/// hold counts as forwarded.
pub proof fn law_buffer_speaks_of_itself(
    batches: &UnprocessedPacketBatches,
    empty: bool,
    len: usize,
    capacity: usize,
    key: PacketKey,
    forwarded: bool,
)
    requires
        call_ensures(UnprocessedPacketBatches::is_empty, (batches,), empty),
        call_ensures(UnprocessedPacketBatches::len, (batches,), len),
        call_ensures(UnprocessedPacketBatches::capacity, (batches,), capacity),
        call_ensures(UnprocessedPacketBatches::is_forwarded, (batches, key), forwarded),
    ensures
        len == batches.message_hash_to_transaction@.len(),
        empty <==> len == 0,
        capacity == batches.batch_limit,
        ({
            let hash = MessageHash { hi: key.1, lo: key.2 };
            let held = batches.message_hash_to_transaction@;
            forwarded <==> !held.contains_key(hash) || held[hash].forwarded
        }),
{
}

/// Offering a packet to a buffer with room, which does not hold its message, keeps it and drops nothing; in
/// a full buffer a packet with the least price leaves.
pub proof fn law_packet_is_offered(
    batches: &mut UnprocessedPacketBatches,
    packet: DeserializedPacket,
    dropped: Option<DeserializedPacket>,
    hash: MessageHash,
)
    requires
        call_ensures(UnprocessedPacketBatches::push, (batches, packet), dropped),
        old(batches).wf(),
        !old(batches).message_hash_to_transaction@.contains_key(
            packet.immutable_section.message_hash,
        ),
    ensures
        ({
            let before = old(batches).message_hash_to_transaction@;
            let after = final(batches).message_hash_to_transaction@;
            &&& before.len() < old(batches).batch_limit ==> dropped is None && after
                == before.insert(packet.immutable_section.message_hash, packet)
            &&& before.len() == old(batches).batch_limit ==> dropped is Some && (
            after.contains_key(hash) ==> after[hash].immutable_section.compute_unit_price
                >= dropped->0.immutable_section.compute_unit_price)
            &&& dropped matches Some(gone) ==> gone.immutable_section.compute_unit_price
                <= packet.immutable_section.compute_unit_price
        }),
        final(batches).batch_limit == old(batches).batch_limit,
{
    old(batches).lemma_wf();
    law_offered_packet_is_kept_or_outranked(
        old(batches).stored(),
        old(batches).batch_limit as int,
        packet,
        final(batches).stored(),
        dropped,
    );
    if let Some(least) = dropped {
        let all = old(batches).stored().insert(packet.hash(), packet);
        assert(all.contains_key(packet.hash()));
        assert(key_le(least.spec_key(), all[packet.hash()].spec_key()));
    }
}

/// Every packet goes into a storage with room for them all.
pub proof fn law_packets_are_put_in(
    storage: &mut ThreadLocalUnprocessedPackets,
    packets: Vec<ImmutableDeserializedPacket>,
    metrics: PacketBatchInsertionMetrics,
    i: int,
)
    requires
        call_ensures(ThreadLocalUnprocessedPackets::insert_batch, (storage, packets), metrics),
        old(storage).wf(),
        old(storage).stored().len() + packets@.len()
            <= old(storage).unprocessed_packet_batches.batch_limit,
        0 <= i < packets@.len(),
    ensures
        metrics.num_dropped_packets == 0,
        final(storage).stored().contains_key(packets@[i].message_hash),
        final(storage).thread_type == old(storage).thread_type,
{
    law_packets_with_room_are_held(*old(storage), packets@, *final(storage), metrics);
    let packet = packets@[i];
    assert(final(storage).stored().contains_key(packets@[i].message_hash));
}

/// No votes are there at the start, and the stakes are those that are given.
pub proof fn law_votes_start_empty(
    staked: Vec<Pubkey>,
    deprecate_legacy_vote_ixs: bool,
    current_epoch: u64,
    votes: LatestUnprocessedVotes,
)
    requires
        call_ensures(
            LatestUnprocessedVotes::new,
            (staked, deprecate_legacy_vote_ixs, current_epoch),
            votes,
        ),
    ensures
        votes.latest_votes@.len() == 0,
        votes.staked@ == staked@,
        votes.current_epoch == current_epoch,
        votes.deprecate_legacy_vote_ixs == deprecate_legacy_vote_ixs,
{
}

/// The time that a bundle is stamped with is what the clock says where that fits.
pub proof fn law_bundle_is_stamped_with_the_time(us: u64)
    requires
        call_ensures(BundlePriorityQueue::now_unix_us, (), us),
    ensures
        exists|micros: Option<u128>| #[trigger]
            clock_says(micros) && (micros is None ==> us == 0) && (micros matches Some(value) ==> (value
                <= u64::MAX ==> us == value)),
{
    let micros = choose|micros: Option<u128>| #[trigger]
        clock_says(micros) && us == (match micros {
            Some(micros) => micros % 0x1_0000_0000_0000_0000,
            None => 0,
        });
    assert(clock_says(micros));
}

} // verus!
