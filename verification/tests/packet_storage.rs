use std::sync::Arc;
use std::time::{Duration, Instant};

use bundle_scheduler::account_locks::{
    validate_account_locks, AccountAccess, LockError, ReadWriteAccountSet, SanitizedTransaction,
};
use bundle_scheduler::consume::{
    consume_scan_should_process_packet, create_consume_multi_iterator, ConsumeLimits,
    ConsumeScannerPayload,
};
use bundle_scheduler::forwarding::UNPROCESSED_BUFFER_STEP_SIZE;
use bundle_scheduler::keys::{MessageHash, Pubkey};
use bundle_scheduler::metrics::{
    FilterForwardingResults, InsertPacketBatchSummary, PacketBatchInsertionMetrics, SlotMetrics,
    VoteBatchInsertionMetrics,
};
use bundle_scheduler::packet::{
    DeserializedPacket, ImmutableDeserializedPacket, Message, PacketKey, SharedPacket, VoteDetails,
};
use bundle_scheduler::packet_map::PacketMap;
use bundle_scheduler::retention::filter_processed_packets;
use bundle_scheduler::scanner::{MultiIteratorScanner, ProcessingDecision, ScanAction};
use bundle_scheduler::services::{BatchCheck, BatchProcessing, Inquiry, PairInquiry};
use bundle_scheduler::thread_local_packets::{
    ForwardOption, ThreadLocalUnprocessedPackets, ThreadType, VoteSource,
};
use bundle_scheduler::unprocessed_packet_batches::UnprocessedPacketBatches;
use bundle_scheduler::unprocessed_transaction_storage::UnprocessedTransactionStorage;
use bundle_scheduler::vote_storage::VoteStorage;
use bundle_scheduler::votes::{
    DeserializedPacketError, LatestUnprocessedVotes, LatestValidatorVotePacket,
};
use solana_sdk::signature::{Keypair, Signer};
use solana_sdk::system_transaction;
use solana_sdk::transaction::Transaction;

fn message_hash(hash: &solana_sdk::hash::Hash) -> MessageHash {
    let bytes = hash.to_bytes();
    let mut hi = [0u8; 16];
    let mut lo = [0u8; 16];
    hi.copy_from_slice(&bytes[..16]);
    lo.copy_from_slice(&bytes[16..]);
    MessageHash {
        hi: u128::from_be_bytes(hi),
        lo: u128::from_be_bytes(lo),
    }
}

fn no_message() -> Message {
    Message {
        account_keys: vec![],
        instructions: vec![],
    }
}

fn packet_of(transaction: &Transaction) -> ImmutableDeserializedPacket {
    ImmutableDeserializedPacket {
        message_hash: message_hash(&transaction.message.hash()),
        compute_unit_price: 0,
        message: no_message(),
        vote: None,
    }
}

fn priced(price: u64, number: u128) -> ImmutableDeserializedPacket {
    ImmutableDeserializedPacket {
        message_hash: MessageHash { hi: 0, lo: number },
        compute_unit_price: price,
        message: no_message(),
        vote: None,
    }
}

fn key(price: u64, number: u128) -> PacketKey {
    (price, 0, number)
}

fn pubkey(number: u8) -> Pubkey {
    Pubkey { bytes: [number; 32] }
}

fn vote_packet(
    vote_pubkey: Pubkey,
    slot: u64,
    timestamp: Option<i64>,
    number: u128,
) -> ImmutableDeserializedPacket {
    ImmutableDeserializedPacket {
        message_hash: MessageHash { hi: 1, lo: number },
        compute_unit_price: 0,
        message: no_message(),
        vote: Some(VoteDetails {
            vote_pubkey,
            slot,
            timestamp,
            is_legacy: false,
        }),
    }
}

fn transaction_on(number: u128, accounts: Vec<AccountAccess>) -> SanitizedTransaction {
    SanitizedTransaction {
        message_hash: MessageHash { hi: 0, lo: number },
        accounts,
    }
}

fn writes(account: u8) -> AccountAccess {
    AccountAccess {
        pubkey: pubkey(account),
        is_writable: true,
    }
}

fn reads(account: u8) -> AccountAccess {
    AccountAccess {
        pubkey: pubkey(account),
        is_writable: false,
    }
}

fn no_limits() -> ConsumeLimits {
    ConsumeLimits {
        blacklisted_accounts: vec![],
        transaction_account_lock_limit: 64,
    }
}

fn give_back(mut payload: ConsumeScannerPayload) -> ConsumeScannerPayload {
    payload.account_locks.clear();
    payload.sanitized_transactions.clear();
    payload
}

fn simple_transactions() -> Vec<Transaction> {
    let mint_keypair = Keypair::new();
    let blockhash = solana_sdk::hash::Hash::new_unique();
    (0..256)
        .map(|_id| {
            let key1 = Keypair::new();
            system_transaction::transfer(&mint_keypair, &key1.pubkey(), 890_880, blockhash)
        })
        .collect()
}

fn buffered(
    transactions: &[Transaction],
    forwarded: &dyn Fn(usize) -> bool,
) -> UnprocessedPacketBatches {
    let packets: Vec<DeserializedPacket> = transactions
        .iter()
        .enumerate()
        .map(|(i, transaction)| DeserializedPacket {
            immutable_section: Arc::new(packet_of(transaction)),
            forwarded: forwarded(i),
        })
        .collect();
    let len = packets.len();
    UnprocessedPacketBatches::from_iter(packets, len)
}

#[test]
fn test_filter_processed_packets() {
    let retryable_indexes = vec![0, 1, 2, 3];
    let non_retryable_indexes = filter_processed_packets(&retryable_indexes);
    assert!(non_retryable_indexes.is_empty());

    let retryable_indexes = vec![0, 1, 2, 3, 5];
    let non_retryable_indexes = filter_processed_packets(&retryable_indexes);
    assert_eq!(non_retryable_indexes, vec![(4, 5)]);

    let retryable_indexes = vec![1, 2, 3];
    let non_retryable_indexes = filter_processed_packets(&retryable_indexes);
    assert_eq!(non_retryable_indexes, vec![(0, 1)]);

    let retryable_indexes = vec![1, 2, 3, 5];
    let non_retryable_indexes = filter_processed_packets(&retryable_indexes);
    assert_eq!(non_retryable_indexes, vec![(0, 1), (4, 5)]);

    let retryable_indexes = vec![1, 2, 3, 5, 8];
    let non_retryable_indexes = filter_processed_packets(&retryable_indexes);
    assert_eq!(non_retryable_indexes, vec![(0, 1), (4, 5), (6, 8)]);

    let retryable_indexes = vec![1, 2, 3, 5, 8, 8];
    let non_retryable_indexes = filter_processed_packets(&retryable_indexes);
    assert_eq!(non_retryable_indexes, vec![(0, 1), (4, 5), (6, 8)]);
}

#[test]
fn test_filter_and_forward_with_account_limits() {
    let transactions = simple_transactions();
    let all_keys: Vec<PacketKey> = transactions.iter().map(|t| packet_of(t).key()).collect();

    // all packets are forwarded
    {
        let mut transaction_storage = UnprocessedTransactionStorage::new_transaction_storage(
            buffered(&transactions, &|_| false),
            ThreadType::Transactions,
        );
        let mut forwarded_keys: Vec<PacketKey> = vec![];
        let FilterForwardingResults {
            total_forwardable_packets,
            total_dropped_packets,
            ..
        } = transaction_storage.filter_forwardable_packets_and_add_batches(
            &vec![],
            &mut Inquiry::new(|packet: &SharedPacket| Some(packet.key())),
            &mut BatchCheck::new(|txs: &Vec<PacketKey>, _offset: u64| vec![true; txs.len()]),
            &mut PairInquiry::new(|_tx: &PacketKey, packet: &SharedPacket| {
                forwarded_keys.push(packet.key());
                true
            }),
        );
        assert_eq!(total_forwardable_packets, 256);
        assert_eq!(total_dropped_packets, 0);

        // packets are forwarded in the order of their rank; they match after sorting
        let mut expected_keys = all_keys.clone();
        expected_keys.sort_unstable();
        forwarded_keys.sort_unstable();
        assert_eq!(expected_keys, forwarded_keys);
        assert!(transaction_storage.iter().iter().all(|p| p.forwarded));
        assert_eq!(transaction_storage.len(), 256);
    }

    // some packets are forwarded
    let num_already_forwarded = 16;
    {
        let mut transaction_storage = UnprocessedTransactionStorage::new_transaction_storage(
            buffered(&transactions, &|i| i < num_already_forwarded),
            ThreadType::Transactions,
        );
        let FilterForwardingResults {
            total_forwardable_packets,
            ..
        } = transaction_storage.filter_forwardable_packets_and_add_batches(
            &vec![],
            &mut Inquiry::new(|packet: &SharedPacket| Some(packet.key())),
            &mut BatchCheck::new(|txs: &Vec<PacketKey>, _offset: u64| vec![true; txs.len()]),
            &mut PairInquiry::new(|_tx: &PacketKey, _packet: &SharedPacket| true),
        );
        assert_eq!(
            total_forwardable_packets,
            all_keys.len() - num_already_forwarded
        );
    }

    // some packets are invalid (already processed)
    {
        let num_already_processed = 16;
        let processed: Vec<PacketKey> = all_keys[0..num_already_processed].to_vec();
        let mut transaction_storage = UnprocessedTransactionStorage::new_transaction_storage(
            buffered(&transactions, &|i| i < num_already_forwarded),
            ThreadType::Transactions,
        );
        let FilterForwardingResults {
            total_forwardable_packets,
            ..
        } = transaction_storage.filter_forwardable_packets_and_add_batches(
            &vec![],
            &mut Inquiry::new(|packet: &SharedPacket| Some(packet.key())),
            &mut BatchCheck::new(|txs: &Vec<PacketKey>, _offset: u64| {
                txs.iter().map(|tx| !processed.contains(tx)).collect()
            }),
            &mut PairInquiry::new(|_tx: &PacketKey, _packet: &SharedPacket| true),
        );
        assert_eq!(
            total_forwardable_packets,
            all_keys.len() - num_already_processed
        );
    }
}

#[test]
fn test_unprocessed_transaction_storage_insert() {
    let keypair = Keypair::new();
    let vote_keypair = Keypair::new();
    let to = solana_pubkey::Pubkey::new_unique();
    let vote_pubkey = Pubkey {
        bytes: vote_keypair.pubkey().to_bytes(),
    };

    let small_transfer = system_transaction::transfer(&keypair, &to, 1, solana_sdk::hash::Hash::new_unique());
    let big_transfer = system_transaction::transfer(&keypair, &to, 1000000, solana_sdk::hash::Hash::new_unique());
    let vote = || vote_packet(vote_pubkey, 0, None, 7);

    for thread_type in [
        ThreadType::Transactions,
        ThreadType::Voting(VoteSource::Gossip),
        ThreadType::Voting(VoteSource::Tpu),
    ] {
        let mut transaction_storage = UnprocessedTransactionStorage::new_transaction_storage(
            UnprocessedPacketBatches::with_capacity(100),
            thread_type,
        );
        transaction_storage.insert_batch(vec![
            packet_of(&small_transfer),
            vote(),
            packet_of(&big_transfer),
        ]);
        let hashes: Vec<MessageHash> = transaction_storage
            .iter()
            .iter()
            .map(|packet| packet.immutable_section.message_hash)
            .collect();
        assert_eq!(3, hashes.len());
        assert!(hashes.contains(&packet_of(&small_transfer).message_hash));
        assert!(hashes.contains(&vote().message_hash));
        assert!(hashes.contains(&packet_of(&big_transfer).message_hash));
    }

    for vote_source in [VoteSource::Gossip, VoteSource::Tpu] {
        for staked in [true, false] {
            let staked_keys = if staked { vec![vote_pubkey] } else { vec![] };
            let latest_unprocessed_votes = LatestUnprocessedVotes::new(staked_keys, true, 0);
            let mut transaction_storage = UnprocessedTransactionStorage::new_vote_storage(
                latest_unprocessed_votes,
                vote_source,
            );
            transaction_storage.insert_batch(vec![
                packet_of(&small_transfer),
                vote(),
                packet_of(&big_transfer),
            ]);
            assert_eq!(if staked { 1 } else { 0 }, transaction_storage.len());
        }
    }
}

#[test]
fn test_process_packets_retryable_indexes_reinserted() {
    let vote_keypair = Keypair::new();
    let vote_pubkey = Pubkey {
        bytes: vote_keypair.pubkey().to_bytes(),
    };
    let latest_unprocessed_votes = LatestUnprocessedVotes::new(vec![vote_pubkey], true, 0);
    let mut transaction_storage = UnprocessedTransactionStorage::new_vote_storage(
        latest_unprocessed_votes,
        VoteSource::Tpu,
    );

    transaction_storage.insert_batch(vec![vote_packet(vote_pubkey, 0, None, 7)]);
    assert_eq!(1, transaction_storage.len());

    // When processing packets, return all packets as retryable so that they
    // are reinserted into storage
    let mut batches = 0;
    let _ = transaction_storage.process_packets(
        &vec![vote_pubkey],
        &mut Inquiry::new(|packet: &SharedPacket| {
            Some(transaction_on(packet.message_hash.lo, vec![writes(1)]))
        }),
        &mut Inquiry::new(|_tx: &SanitizedTransaction| true),
        &mut BatchProcessing::new(|packets: &Vec<SharedPacket>, payload: ConsumeScannerPayload| {
            batches += 1;
            // Return all packets indexes as retryable
            (Some((0..packets.len()).collect()), payload)
        }),
        &no_limits(),
        &mut SlotMetrics::default(),
    );

    // All packets should remain in the transaction storage
    assert_eq!(1, transaction_storage.len());
    assert_eq!(1, batches);
}

#[test]
fn test_prepare_packets_to_forward() {
    let transactions = simple_transactions();

    let count_packets_to_forward = |buffered_packet_batches: UnprocessedPacketBatches| -> usize {
        let mut total_packets_to_forward: usize = 0;
        let mut unprocessed_transactions = ThreadLocalUnprocessedPackets {
            unprocessed_packet_batches: buffered_packet_batches,
            thread_type: ThreadType::Transactions,
        };
        let original_priority_queue = unprocessed_transactions.take_priority_queue();
        for packets_to_process in original_priority_queue.chunks(128usize) {
            let (_, packets_to_forward) =
                unprocessed_transactions.prepare_packets_to_forward(packets_to_process.to_vec());
            total_packets_to_forward += packets_to_forward.len();
        }
        total_packets_to_forward
    };

    {
        let total_packets_to_forward = count_packets_to_forward(buffered(&transactions, &|_| false));
        assert_eq!(total_packets_to_forward, 256);
    }

    // some packets are forwarded
    {
        let num_already_forwarded = 16;
        let total_packets_to_forward =
            count_packets_to_forward(buffered(&transactions, &|i| i < num_already_forwarded));
        assert_eq!(total_packets_to_forward, 256 - num_already_forwarded);
    }

    // all packets are forwarded
    {
        let total_packets_to_forward = count_packets_to_forward(buffered(&transactions, &|_| true));
        assert_eq!(total_packets_to_forward, 0);
    }
}

#[test]
fn insertion_summaries_count_by_source() {
    let votes = InsertPacketBatchSummary::from(VoteBatchInsertionMetrics {
        num_dropped_gossip: 3,
        num_dropped_tpu: 4,
    });
    assert_eq!(votes.total_dropped_packets(), 7);
    assert_eq!(votes.dropped_gossip_packets(), 3);
    assert_eq!(votes.dropped_tpu_packets(), 4);
    let packets = InsertPacketBatchSummary::from(PacketBatchInsertionMetrics {
        num_dropped_packets: 5,
    });
    assert_eq!(packets.total_dropped_packets(), 5);
    assert_eq!(packets.dropped_gossip_packets(), 0);
    assert_eq!(packets.dropped_tpu_packets(), 0);
}

#[test]
fn full_buffer_drops_the_lowest_priority() {
    let mut storage = ThreadLocalUnprocessedPackets {
        unprocessed_packet_batches: UnprocessedPacketBatches::with_capacity(2),
        thread_type: ThreadType::Transactions,
    };
    assert!(storage.is_empty());
    assert_eq!(storage.get_min_compute_unit_price(), None);
    assert_eq!(storage.get_max_compute_unit_price(), None);
    assert_eq!(storage.max_receive_size(), 2);
    let metrics = storage.insert_batch(vec![
        priced(10, 1),
        priced(30, 2),
        priced(30, 2),
        priced(20, 3),
        priced(5, 4),
    ]);
    assert_eq!(metrics.num_dropped_packets, 2);
    assert_eq!(storage.len(), 2);
    assert!(!storage.is_empty());
    assert_eq!(storage.get_min_compute_unit_price(), Some(20));
    assert_eq!(storage.get_max_compute_unit_price(), Some(30));
    assert_eq!(storage.max_receive_size(), 0);
    assert!(storage.verify_priority_queue(2));
    assert_eq!(storage.take_priority_queue(), vec![key(30, 2), key(20, 3)]);
}

#[test]
fn buffer_without_room_gives_each_packet_back() {
    let mut batches = UnprocessedPacketBatches::with_capacity(0);
    let dropped = batches.push(DeserializedPacket::from_immutable_section(priced(10, 1)));
    assert_eq!(dropped.unwrap().immutable_section.key(), key(10, 1));
    assert!(batches.is_empty());
    assert_eq!(batches.capacity(), 0);
}

#[test]
fn clearing_leaves_an_empty_buffer() {
    let mut storage = UnprocessedTransactionStorage::new_transaction_storage(
        UnprocessedPacketBatches::with_capacity(4),
        ThreadType::Transactions,
    );
    storage.insert_batch(vec![priced(1, 1), priced(2, 2)]);
    assert_eq!(storage.get_min_priority(), Some(1));
    assert_eq!(storage.get_max_priority(), Some(2));
    assert_eq!(storage.max_receive_size(), 2);
    storage.clear_forwarded_packets();
    assert!(storage.is_empty());
    assert_eq!(storage.max_receive_size(), 4);
    assert_eq!(storage.get_max_priority(), None);
}

#[test]
fn flags_can_be_changed_in_place() {
    let mut storage = ThreadLocalUnprocessedPackets {
        unprocessed_packet_batches: UnprocessedPacketBatches::with_capacity(4),
        thread_type: ThreadType::Transactions,
    };
    storage.insert_batch(vec![priced(1, 1), priced(2, 2)]);
    assert_eq!(storage.thread_type(), ThreadType::Transactions);
    let mut index = 0;
    while let Some(flag) = storage.iter_mut(index) {
        assert!(!*flag);
        *flag = true;
        index += 1;
    }
    assert_eq!(index, 2);
    assert!(storage.iter().iter().all(|packet| packet.forwarded));
    let (forwarded, to_forward) =
        storage.prepare_packets_to_forward(vec![key(1, 1), key(2, 2), key(3, 3)]);
    // a packet that is not held counts as forwarded
    assert_eq!(forwarded, vec![key(1, 1), key(2, 2), key(3, 3)]);
    assert!(to_forward.is_empty());
}

#[test]
fn forward_options_by_thread() {
    let option = |thread_type| {
        UnprocessedTransactionStorage::new_transaction_storage(
            UnprocessedPacketBatches::with_capacity(1),
            thread_type,
        )
        .forward_option()
    };
    assert_eq!(
        option(ThreadType::Transactions),
        ForwardOption::ForwardTransaction
    );
    assert_eq!(
        option(ThreadType::Voting(VoteSource::Tpu)),
        ForwardOption::ForwardTpuVote
    );
    assert_eq!(
        option(ThreadType::Voting(VoteSource::Gossip)),
        ForwardOption::NotForward
    );
    assert_eq!(option(ThreadType::Bundles), ForwardOption::NotForward);
}

#[test]
fn forwarding_stops_at_the_first_refusal() {
    let mut storage = ThreadLocalUnprocessedPackets {
        unprocessed_packet_batches: UnprocessedPacketBatches::with_capacity(200),
        thread_type: ThreadType::Transactions,
    };
    storage.insert_batch((0..130u64).map(|i| priced(i, i as u128)).collect());
    // The highest price comes first. Of the first chunk, the packet of price 128 does not
    // sanitize, that of 127 is not valid, and the buffer takes two of the others.
    let mut offered: Vec<u64> = vec![];
    let results = storage.filter_forwardable_packets_and_add_batches(
        &mut Inquiry::new(|packet: &SharedPacket| {
            if packet.compute_unit_price == 128 {
                None
            } else {
                Some(packet.key())
            }
        }),
        &mut BatchCheck::new(|txs: &Vec<PacketKey>, offset: u64| {
            assert!(txs.len() <= UNPROCESSED_BUFFER_STEP_SIZE);
            assert_eq!(offset, 2);
            txs.iter().map(|tx| tx.0 != 127).collect()
        }),
        &mut PairInquiry::new(|_tx: &PacketKey, packet: &SharedPacket| {
            offered.push(packet.compute_unit_price);
            offered.len() < 3
        }),
    );
    assert_eq!(offered, vec![129, 126, 125]);
    assert_eq!(results.total_forwardable_packets, 62);
    // one did not sanitize, sixty were not taken, and the sixty-six behind the chunk were skipped
    assert_eq!(results.total_dropped_packets, 1 + 60 + 66);
    assert_eq!(storage.len(), 128);
    let mut marked: Vec<u64> = storage
        .iter()
        .iter()
        .filter(|packet| packet.forwarded)
        .map(|packet| packet.immutable_section.compute_unit_price)
        .collect();
    marked.sort_unstable();
    assert_eq!(marked, vec![126, 129]);
    assert!(storage.verify_priority_queue(200));
}

#[test]
fn account_locks_are_validated() {
    let accounts = vec![writes(1), reads(2)];
    assert_eq!(validate_account_locks(&accounts, 2), Ok(()));
    assert_eq!(
        validate_account_locks(&accounts, 1),
        Err(LockError::TooManyAccountLocks)
    );
    assert_eq!(
        validate_account_locks(&vec![writes(1), reads(1)], 2),
        Err(LockError::AccountLoadedTwice)
    );
}

#[test]
fn locks_exclude_writers() {
    let mut locks = ReadWriteAccountSet::default();
    let reader = transaction_on(1, vec![reads(1)]);
    let other_reader = transaction_on(2, vec![reads(1), writes(2)]);
    let writer = transaction_on(3, vec![writes(1), reads(3)]);
    assert!(locks.check_locks(&reader));
    assert!(locks.take_locks(&reader));
    assert!(locks.check_locks(&other_reader));
    assert!(locks.take_locks(&other_reader));
    assert!(!locks.check_locks(&writer));
    // the locks are taken all the same
    assert!(!locks.take_locks(&writer));
    assert!(!locks.check_locks(&reader));
    assert!(!locks.check_locks(&transaction_on(4, vec![writes(3)])));
    locks.clear();
    assert!(locks.check_locks(&writer));
}

#[test]
fn scan_decides_about_each_packet() {
    let decide = |payload: &mut ConsumeScannerPayload,
                  map: &mut PacketMap,
                  number: u128,
                  accounts: Option<Vec<AccountAccess>>,
                  fee_payer_valid: bool| {
        let mut accounts = accounts;
        consume_scan_should_process_packet(
            &mut Inquiry::new(|packet: &SharedPacket| {
                accounts
                    .take()
                    .map(|a| transaction_on(packet.message_hash.lo, a))
            }),
            &mut Inquiry::new(|_tx: &SanitizedTransaction| fee_payer_valid),
            &Arc::new(priced(1, number)),
            payload,
            map,
            &ConsumeLimits {
                blacklisted_accounts: vec![pubkey(9)],
                transaction_account_lock_limit: 2,
            },
        )
    };
    let mut map = PacketMap::new();
    for number in 1..=8 {
        map.insert(DeserializedPacket::from_immutable_section(priced(1, number)));
    }
    let (_, mut payload) = create_consume_multi_iterator(8, SlotMetrics::default());
    // does not sanitize
    assert_eq!(
        decide(&mut payload, &mut map, 1, None, true),
        ProcessingDecision::Never
    );
    // too many locks
    let three = Some(vec![reads(1), reads(2), reads(3)]);
    assert_eq!(
        decide(&mut payload, &mut map, 2, three, true),
        ProcessingDecision::Never
    );
    // an account twice
    let twice = Some(vec![reads(1), reads(1)]);
    assert_eq!(
        decide(&mut payload, &mut map, 3, twice, true),
        ProcessingDecision::Never
    );
    // a blacklisted account
    assert_eq!(
        decide(&mut payload, &mut map, 4, Some(vec![reads(9)]), true),
        ProcessingDecision::Never
    );
    // the fee payer cannot pay
    assert_eq!(
        decide(&mut payload, &mut map, 5, Some(vec![writes(1)]), false),
        ProcessingDecision::Never
    );
    assert_eq!(map.len(), 3);
    // joins the batch
    assert_eq!(
        decide(&mut payload, &mut map, 6, Some(vec![writes(1)]), true),
        ProcessingDecision::Now
    );
    // has to wait, and is not asked for its fee payer
    let conflicting = Some(vec![writes(1), writes(2)]);
    assert_eq!(
        decide(&mut payload, &mut map, 7, conflicting, false),
        ProcessingDecision::Later
    );
    // even what only waits has taken its locks
    assert_eq!(
        decide(&mut payload, &mut map, 8, Some(vec![writes(2)]), true),
        ProcessingDecision::Later
    );
    assert_eq!(map.len(), 3);
    assert_eq!(payload.sanitized_transactions.len(), 1);
    // at the end of the slot everything joins the batch
    payload.reached_end_of_slot = true;
    assert_eq!(
        decide(&mut payload, &mut map, 8, None, false),
        ProcessingDecision::Now
    );
    assert_eq!(payload.sanitized_transactions.len(), 1);
}

#[test]
fn scanner_walks_with_several_iterators() {
    // six items, two iterators; the second item waits for the second batch
    let mut scanner = MultiIteratorScanner::new(6, 2);
    assert_eq!(scanner.action(), ScanAction::Examine(0));
    scanner.decide(0, ProcessingDecision::Now);
    assert_eq!(scanner.action(), ScanAction::Examine(1));
    scanner.decide(1, ProcessingDecision::Later);
    assert_eq!(scanner.action(), ScanAction::Examine(2));
    scanner.decide(2, ProcessingDecision::Now);
    assert_eq!(scanner.action(), ScanAction::Process);
    assert_eq!(scanner.batch(), vec![0, 2]);
    scanner.next_batch();
    assert_eq!(scanner.action(), ScanAction::Examine(1));
    scanner.decide(1, ProcessingDecision::Now);
    assert_eq!(scanner.action(), ScanAction::Examine(3));
    scanner.decide(3, ProcessingDecision::Never);
    assert_eq!(scanner.action(), ScanAction::Examine(4));
    scanner.decide(4, ProcessingDecision::Now);
    assert_eq!(scanner.action(), ScanAction::Process);
    assert_eq!(scanner.batch(), vec![1, 4]);
    scanner.next_batch();
    assert_eq!(scanner.action(), ScanAction::Examine(5));
    scanner.decide(5, ProcessingDecision::Now);
    assert_eq!(scanner.action(), ScanAction::Process);
    assert_eq!(scanner.batch(), vec![5]);
    scanner.next_batch();
    assert_eq!(scanner.action(), ScanAction::Finish);
    assert_eq!(MultiIteratorScanner::new(0, 2).action(), ScanAction::Finish);
}

#[test]
fn processing_keeps_what_is_to_be_retried() {
    let mut storage = ThreadLocalUnprocessedPackets {
        unprocessed_packet_batches: UnprocessedPacketBatches::with_capacity(10),
        thread_type: ThreadType::Transactions,
    };
    storage.insert_batch((1..=5u64).map(|i| priced(i, i as u128)).collect());
    let mut seen: Vec<Vec<u64>> = vec![];
    // Packets 5 and 4 write the same account, so they go into different batches; packet 3 does
    // not sanitize.
    let reached_end_of_slot = storage.process_packets(
        &mut Inquiry::new(|packet: &SharedPacket| match packet.compute_unit_price {
            3 => None,
            5 | 4 => Some(transaction_on(packet.message_hash.lo, vec![writes(1)])),
            price => Some(transaction_on(
                packet.message_hash.lo,
                vec![writes(price as u8 + 10)],
            )),
        }),
        &mut Inquiry::new(|_tx: &SanitizedTransaction| true),
        &mut BatchProcessing::new(|packets: &Vec<SharedPacket>, payload: ConsumeScannerPayload| {
            assert_eq!(payload.sanitized_transactions.len(), packets.len());
            seen.push(packets.iter().map(|packet| packet.compute_unit_price).collect());
            (Some(vec![0]), give_back(payload))
        }),
        &no_limits(),
        &mut SlotMetrics::default(),
    );
    assert!(!reached_end_of_slot);
    assert_eq!(seen, vec![vec![5, 2, 1], vec![4]]);
    assert!(storage.verify_priority_queue(10));
    assert_eq!(storage.take_priority_queue(), vec![key(5, 5), key(4, 4)]);
}

#[test]
fn processing_ends_with_the_slot() {
    let mut storage = UnprocessedTransactionStorage::new_transaction_storage(
        UnprocessedPacketBatches::with_capacity(200),
        ThreadType::Transactions,
    );
    storage.insert_batch((0..130u64).map(|i| priced(i, i as u128)).collect());
    let mut sizes: Vec<usize> = vec![];
    let reached_end_of_slot = storage.process_packets(
        &vec![],
        &mut Inquiry::new(|packet: &SharedPacket| {
            let account = packet.compute_unit_price as u8;
            Some(transaction_on(packet.message_hash.lo, vec![writes(account)]))
        }),
        &mut Inquiry::new(|_tx: &SanitizedTransaction| true),
        &mut BatchProcessing::new(|packets: &Vec<SharedPacket>, mut payload: ConsumeScannerPayload| {
            sizes.push(packets.len());
            payload.reached_end_of_slot = true;
            // nothing was processed
            (None, payload)
        }),
        &no_limits(),
        &mut SlotMetrics::default(),
    );
    assert!(reached_end_of_slot);
    assert_eq!(sizes, vec![64, 64, 2]);
    assert_eq!(storage.len(), 130);
}

fn votes_of(staked: Vec<Pubkey>, source: VoteSource) -> VoteStorage {
    VoteStorage {
        latest_unprocessed_votes: LatestUnprocessedVotes::new(staked, true, 5),
        vote_source: source,
    }
}

#[test]
fn later_votes_supersede_earlier_ones() {
    let mut storage = votes_of(vec![pubkey(1), pubkey(2)], VoteSource::Tpu);
    let metrics = storage.insert_batch(vec![
        vote_packet(pubkey(1), 10, None, 1),
        vote_packet(pubkey(2), 10, None, 2),
        // an earlier slot, the same slot and time: dropped
        vote_packet(pubkey(1), 9, Some(5), 3),
        vote_packet(pubkey(1), 10, None, 4),
        // the same slot at a later time: takes the place
        vote_packet(pubkey(1), 10, Some(3), 5),
        vote_packet(pubkey(1), 10, Some(4), 6),
        vote_packet(pubkey(1), 10, Some(2), 7),
        // a later slot
        vote_packet(pubkey(1), 11, None, 8),
        // no stake
        vote_packet(pubkey(3), 20, None, 9),
    ]);
    assert_eq!(metrics.num_dropped_tpu, 6);
    assert_eq!(metrics.num_dropped_gossip, 0);
    assert_eq!(storage.len(), 2);
    let packets = storage
        .latest_unprocessed_votes
        .drain_unprocessed(&vec![pubkey(2), pubkey(3), pubkey(1), pubkey(2)]);
    let numbers: Vec<u128> = packets.iter().map(|packet| packet.message_hash.lo).collect();
    assert_eq!(numbers, vec![2, 8]);
    assert!(storage.is_empty());
    // a taken vote is not dropped when a later one comes, and not replaced by the same one
    let metrics = storage.insert_batch(vec![
        vote_packet(pubkey(1), 11, None, 10),
        vote_packet(pubkey(2), 12, None, 11),
    ]);
    assert_eq!(metrics.num_dropped_tpu, 1);
    assert_eq!(storage.len(), 1);
}

#[test]
fn legacy_votes_are_refused() {
    let mut packet = vote_packet(pubkey(1), 10, None, 1);
    packet.vote = packet.vote.map(|details| VoteDetails {
        is_legacy: true,
        ..details
    });
    let packet = Arc::new(packet);
    let refused =
        LatestValidatorVotePacket::new_from_immutable(packet.clone(), VoteSource::Tpu, true);
    assert_eq!(
        refused.err(),
        Some(DeserializedPacketError::VoteTransactionError)
    );
    let taken = LatestValidatorVotePacket::new_from_immutable(packet, VoteSource::Tpu, false);
    assert_eq!(taken.unwrap().slot, 10);
    let no_vote = Arc::new(priced(1, 1));
    assert!(LatestValidatorVotePacket::new_from_immutable(no_vote, VoteSource::Tpu, false).is_err());
}

#[test]
fn gossip_votes_count_as_forwarded() {
    for (source, left) in [(VoteSource::Gossip, 0), (VoteSource::Tpu, 1)] {
        let mut storage = UnprocessedTransactionStorage::new_vote_storage(
            LatestUnprocessedVotes::new(vec![pubkey(1)], true, 0),
            source,
        );
        assert_eq!(storage.should_not_process(), source == VoteSource::Gossip);
        assert_eq!(storage.max_receive_size(), 10_000);
        storage.insert_batch(vec![vote_packet(pubkey(1), 10, None, 1)]);
        storage.clear_forwarded_packets();
        assert_eq!(storage.len(), left);
    }
}

#[test]
fn votes_are_forwarded_until_one_is_refused() {
    let staked = vec![pubkey(1), pubkey(2), pubkey(3), pubkey(4)];
    let mut storage = votes_of(staked.clone(), VoteSource::Tpu);
    storage.insert_batch(
        (1..=4u8)
            .map(|i| vote_packet(pubkey(i), 10, None, i as u128))
            .collect(),
    );
    let mut offered: Vec<u128> = vec![];
    let results = storage.filter_forwardable_packets_and_add_batches(
        &staked,
        // the vote of the first validator does not sanitize
        &mut Inquiry::new(|packet: &SharedPacket| Some(packet.message_hash.lo).filter(|number| *number != 1)),
        &mut PairInquiry::new(|tx: &u128, packet: &SharedPacket| {
            assert_eq!(packet.message_hash.lo, *tx);
            offered.push(*tx);
            *tx != 3
        }),
    );
    assert_eq!(offered, vec![2, 3]);
    assert_eq!(results.total_forwardable_packets, 1);
    assert_eq!(results.total_dropped_packets, 0);
    // what was forwarded is not offered again
    let results = storage.filter_forwardable_packets_and_add_batches(
        &staked,
        &mut Inquiry::new(|packet: &SharedPacket| Some(packet.message_hash.lo)),
        &mut PairInquiry::new(|_tx: &u128, _packet: &SharedPacket| true),
    );
    assert_eq!(results.total_forwardable_packets, 3);
    storage.clear_forwarded_packets();
    assert!(storage.is_empty());

    let mut gossip = votes_of(staked.clone(), VoteSource::Gossip);
    gossip.insert_batch(vec![vote_packet(pubkey(1), 10, None, 1)]);
    let results = gossip.filter_forwardable_packets_and_add_batches(
        &staked,
        &mut Inquiry::new(|packet: &SharedPacket| Some(packet.message_hash.lo)),
        &mut PairInquiry::new(|_tx: &u128, _packet: &SharedPacket| true),
    );
    assert_eq!(results, FilterForwardingResults::default());
    assert_eq!(gossip.forward_option(), ForwardOption::NotForward);
}

#[test]
fn new_epoch_drops_votes_without_stake() {
    let mut storage = UnprocessedTransactionStorage::new_vote_storage(
        LatestUnprocessedVotes::new(vec![pubkey(1), pubkey(2)], true, 5),
        VoteSource::Tpu,
    );
    storage.insert_batch(vec![
        vote_packet(pubkey(1), 10, None, 1),
        vote_packet(pubkey(2), 10, None, 2),
    ]);
    storage.cache_epoch_boundary_info(5, vec![pubkey(2)], true);
    assert_eq!(storage.len(), 2);
    storage.cache_epoch_boundary_info(6, vec![pubkey(2)], true);
    assert_eq!(storage.len(), 1);
}

#[test]
fn unretried_votes_are_gone() {
    let staked = vec![pubkey(1), pubkey(2)];
    let mut storage = votes_of(staked.clone(), VoteSource::Tpu);
    storage.insert_batch(vec![
        vote_packet(pubkey(1), 10, None, 1),
        vote_packet(pubkey(2), 10, None, 2),
    ]);
    let reached_end_of_slot = storage.process_packets(
        &vec![pubkey(2), pubkey(1)],
        &mut Inquiry::new(|packet: &SharedPacket| {
            let number = packet.message_hash.lo;
            Some(transaction_on(number, vec![writes(number as u8)]))
        }),
        &mut Inquiry::new(|_tx: &SanitizedTransaction| true),
        &mut BatchProcessing::new(|packets: &Vec<SharedPacket>, payload: ConsumeScannerPayload| {
            let numbers: Vec<u128> = packets.iter().map(|p| p.message_hash.lo).collect();
            assert_eq!(numbers, [2, 1]);
            (Some(vec![1]), give_back(payload))
        }),
        &no_limits(),
        &mut SlotMetrics::default(),
    );
    assert!(!reached_end_of_slot);
    assert_eq!(storage.len(), 1);
    let packets = storage
        .latest_unprocessed_votes
        .drain_unprocessed(&vec![pubkey(1), pubkey(2)]);
    assert_eq!(packets.len(), 1);
    assert_eq!(packets[0].message_hash.lo, 1);
}

#[test]
fn second_pass_forwards_nothing() {
    let mut storage = ThreadLocalUnprocessedPackets {
        unprocessed_packet_batches: UnprocessedPacketBatches::with_capacity(100),
        thread_type: ThreadType::Transactions,
    };
    storage.insert_batch((0..70u64).map(|i| priced(i, i as u128)).collect());
    let mut sanitize = Inquiry::new(|packet: &SharedPacket| Some(packet.key()));
    // the packets of odd price are no longer valid
    let mut check = BatchCheck::new(|txs: &Vec<PacketKey>, _offset: u64| -> Vec<bool> {
        txs.iter().map(|tx| tx.0 % 2 == 0).collect()
    });
    let mut try_add = PairInquiry::new(|_tx: &PacketKey, _packet: &SharedPacket| true);
    let first = storage.filter_forwardable_packets_and_add_batches(
        &mut sanitize,
        &mut check,
        &mut try_add,
    );
    assert_eq!(first.total_forwardable_packets, 35);
    assert_eq!(first.total_dropped_packets, 0);
    assert_eq!(storage.len(), 35);
    assert!(storage.iter().iter().all(|packet| packet.forwarded));
    let second = storage.filter_forwardable_packets_and_add_batches(
        &mut sanitize,
        &mut check,
        &mut try_add,
    );
    assert_eq!(second.total_forwardable_packets, 0);
    assert_eq!(second.total_dropped_packets, 0);
    assert_eq!(storage.len(), 35);
    // nor does a pass with another buffer, which is offered nothing
    let mut sanitized = 0;
    let mut offered = 0;
    let third = storage.filter_forwardable_packets_and_add_batches(
        &mut Inquiry::new(|packet: &SharedPacket| {
            sanitized += 1;
            Some(packet.message_hash)
        }),
        &mut BatchCheck::new(|txs: &Vec<MessageHash>, _offset: u64| vec![true; txs.len()]),
        &mut PairInquiry::new(|_tx: &MessageHash, _packet: &SharedPacket| {
            offered += 1;
            true
        }),
    );
    assert_eq!(third.total_forwardable_packets, 0);
    assert_eq!(third.total_dropped_packets, 0);
    assert_eq!((sanitized, offered), (0, 0));
}

#[test]
fn forward_buffer_is_offered_what_the_indexes_name() {
    let packets: Vec<SharedPacket> = (0..3u128).map(|i| Arc::new(priced(1, i))).collect();
    let mut dropped = 5;
    let mut offered: Vec<(u64, u128)> = vec![];
    // more places than transactions, and a place that no index leads to
    let accepted = ThreadLocalUnprocessedPackets::add_filtered_packets_to_forward_buffer(
        &mut PairInquiry::new(|tx: &u64, packet: &SharedPacket| {
            offered.push((*tx, packet.message_hash.lo));
            *tx != 30
        }),
        &packets,
        &vec![10, 20, 30],
        &vec![2, 99, 0, 1],
        &vec![0, 2, 0],
        &mut dropped,
    );
    assert_eq!(accepted, vec![2]);
    assert_eq!(offered, vec![(10, 2), (30, 0)]);
    assert_eq!(dropped, 7);
}

#[test]
fn kept_locks_do_no_harm_without_conflicts() {
    let mut storage = ThreadLocalUnprocessedPackets {
        unprocessed_packet_batches: UnprocessedPacketBatches::with_capacity(100),
        thread_type: ThreadType::Transactions,
    };
    storage.insert_batch((0..70u64).map(|i| priced(i, i as u128)).collect());
    let mut sizes: Vec<usize> = vec![];
    let reached_end_of_slot = storage.process_packets(
        &mut Inquiry::new(|packet: &SharedPacket| {
            let account = packet.compute_unit_price as u8;
            Some(transaction_on(packet.message_hash.lo, vec![writes(account)]))
        }),
        &mut Inquiry::new(|_tx: &SanitizedTransaction| true),
        &mut BatchProcessing::new(|packets: &Vec<SharedPacket>, payload: ConsumeScannerPayload| {
            sizes.push(packets.len());
            (Some(vec![]), payload)
        }),
        &no_limits(),
        &mut SlotMetrics::default(),
    );
    assert!(!reached_end_of_slot);
    assert_eq!(sizes, vec![64, 6]);
    assert!(storage.is_empty());
}

#[test]
fn queue_that_was_taken_is_not_consistent() {
    let mut storage = ThreadLocalUnprocessedPackets {
        unprocessed_packet_batches: UnprocessedPacketBatches::with_capacity(4),
        thread_type: ThreadType::Transactions,
    };
    storage.insert_batch(vec![priced(1, 1), priced(2, 2)]);
    assert!(storage.verify_priority_queue(4));
    assert!(!storage.verify_priority_queue(5));
    assert_eq!(storage.take_priority_queue().len(), 2);
    assert!(!storage.verify_priority_queue(4));
}

#[test]
fn each_packet_is_offered_once() {
    let mut storage = ThreadLocalUnprocessedPackets {
        unprocessed_packet_batches: UnprocessedPacketBatches::with_capacity(200),
        thread_type: ThreadType::Transactions,
    };
    storage.insert_batch((0..130u64).map(|i| priced(i, i as u128)).collect());
    let mut sanitized: Vec<u64> = vec![];
    let mut checked: Vec<usize> = vec![];
    let mut offered: Vec<u64> = vec![];
    let _ = storage.filter_forwardable_packets_and_add_batches(
        &mut Inquiry::new(|packet: &SharedPacket| {
            sanitized.push(packet.compute_unit_price);
            Some(packet.key())
        }),
        &mut BatchCheck::new(|txs: &Vec<PacketKey>, _offset: u64| {
            checked.push(txs.len());
            vec![true; txs.len()]
        }),
        &mut PairInquiry::new(|_tx: &PacketKey, packet: &SharedPacket| {
            offered.push(packet.compute_unit_price);
            true
        }),
    );
    let all: Vec<u64> = (0..130).rev().collect();
    assert_eq!(sanitized, all);
    assert_eq!(checked, vec![64, 64, 2]);
    assert_eq!(offered, all);
}

#[test]
fn scan_counts_time_and_fee_payers() {
    let mut storage = ThreadLocalUnprocessedPackets {
        unprocessed_packet_batches: UnprocessedPacketBatches::with_capacity(10),
        thread_type: ThreadType::Transactions,
    };
    storage.insert_batch((1..=3u64).map(|i| priced(i, i as u128)).collect());
    let mut slot_metrics = SlotMetrics {
        transactions_from_packets_us: 1_000,
    };
    let mut asked: Vec<u128> = vec![];
    let mut failed: Vec<usize> = vec![];
    let _ = storage.process_packets(
        &mut Inquiry::new(|packet: &SharedPacket| {
            let start = Instant::now();
            while start.elapsed() < Duration::from_millis(2) {}
            let account = packet.compute_unit_price as u8;
            Some(transaction_on(packet.message_hash.lo, vec![writes(account)]))
        }),
        &mut Inquiry::new(|tx: &SanitizedTransaction| {
            asked.push(tx.message_hash.lo);
            tx.message_hash.lo != 2
        }),
        &mut BatchProcessing::new(
            |packets: &Vec<SharedPacket>, payload: ConsumeScannerPayload| {
                assert_eq!(packets.len(), 2);
                failed.push(payload.error_counters.fee_payer);
                (Some(vec![]), payload)
            },
        ),
        &no_limits(),
        &mut slot_metrics,
    );
    assert_eq!(asked, vec![3, 2, 1]);
    assert_eq!(failed, vec![1]);
    // three packets, two milliseconds each
    assert!(slot_metrics.transactions_from_packets_us >= 7_000);
    slot_metrics.increment_transactions_from_packets_us(u64::MAX);
    assert_eq!(slot_metrics.transactions_from_packets_us, u64::MAX);
}

#[test]
fn retried_packets_wait_for_the_next_pass() {
    let mut storage = ThreadLocalUnprocessedPackets {
        unprocessed_packet_batches: UnprocessedPacketBatches::with_capacity(100),
        thread_type: ThreadType::Transactions,
    };
    storage.insert_batch((0..70u64).map(|i| priced(i, i as u128)).collect());
    let mut processed: Vec<u64> = vec![];
    let _ = storage.process_packets(
        &mut Inquiry::new(|packet: &SharedPacket| {
            let account = packet.compute_unit_price as u8;
            Some(transaction_on(packet.message_hash.lo, vec![writes(account)]))
        }),
        &mut Inquiry::new(|_tx: &SanitizedTransaction| true),
        &mut BatchProcessing::new(
            |packets: &Vec<SharedPacket>, payload: ConsumeScannerPayload| {
                processed.extend(packets.iter().map(|packet| packet.compute_unit_price));
                (Some((0..packets.len()).collect()), give_back(payload))
            },
        ),
        &no_limits(),
        &mut SlotMetrics::default(),
    );
    processed.sort_unstable();
    assert_eq!(processed, (0..70).collect::<Vec<u64>>());
    assert_eq!(storage.len(), 70);
}
