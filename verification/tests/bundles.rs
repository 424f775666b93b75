use std::collections::HashSet;
use std::sync::Arc;

use bundle_scheduler::bundle::{
    BundleExecutionError, BundleTransaction, ImmutableDeserializedBundle,
    LoadAndExecuteBundleError, SanitizedBundle,
};
use bundle_scheduler::bundle_priority_queue::{
    unix_us, BundleHandle, BundleMeta, BundlePriorityQueue, BundlePrioritySource, StoredBundle,
};
use bundle_scheduler::bundle_ranking::{comes_before, sort_by_priority, BundlePriorityKey};
use bundle_scheduler::bundle_storage::BundleStorage;
use bundle_scheduler::keys::{MessageHash, Pubkey};
use bundle_scheduler::metrics::BundleSanitizeMetrics;
use bundle_scheduler::packet::{CompiledInstruction, ImmutableDeserializedPacket, Message};
use bundle_scheduler::services::{Inquiry, PairInquiry};
use bundle_scheduler::thread_local_packets::ForwardOption;
use bundle_scheduler::unprocessed_transaction_storage::UnprocessedTransactionStorage;
use solana_sdk::compute_budget::ComputeBudgetInstruction;
use solana_sdk::signature::{Keypair, Signer};
use solana_sdk::signer::SeedDerivable;
use solana_sdk::transaction::Transaction;
use solana_sdk::{system_instruction, system_transaction};

fn key_of(pubkey: &solana_sdk::pubkey::Pubkey) -> Pubkey {
    Pubkey {
        bytes: pubkey.to_bytes(),
    }
}

fn instruction_of(ix: &solana_sdk::instruction::CompiledInstruction) -> CompiledInstruction {
    CompiledInstruction {
        program_id_index: ix.program_id_index,
        accounts: ix.accounts.clone(),
        data: ix.data.clone(),
    }
}

fn packet_of(transaction: &Transaction) -> ImmutableDeserializedPacket {
    let bytes = transaction.message.hash().to_bytes();
    let mut hi = [0u8; 16];
    let mut lo = [0u8; 16];
    hi.copy_from_slice(&bytes[..16]);
    lo.copy_from_slice(&bytes[16..]);
    ImmutableDeserializedPacket {
        message_hash: MessageHash {
            hi: u128::from_be_bytes(hi),
            lo: u128::from_be_bytes(lo),
        },
        compute_unit_price: 0,
        message: Message {
            account_keys: transaction.message.account_keys.iter().map(key_of).collect(),
            instructions: transaction
                .message
                .instructions
                .iter()
                .map(instruction_of)
                .collect(),
        },
        vote: None,
    }
}

fn bundle(id: &str, transactions: &[Transaction]) -> ImmutableDeserializedBundle {
    ImmutableDeserializedBundle {
        bundle_id: id.to_string(),
        packets: transactions.iter().map(packet_of).collect(),
    }
}

fn dummy_bundle(id: &str) -> ImmutableDeserializedBundle {
    let kp = Keypair::new();
    let tx = system_transaction::transfer(&kp, &kp.pubkey(), 1, solana_sdk::hash::Hash::default());
    bundle(id, &[tx])
}

fn sanitized(id: &str, cost: u64, reward: u64) -> SanitizedBundle {
    SanitizedBundle {
        transactions: vec![BundleTransaction { cost, reward }],
        bundle_id: id.to_string(),
    }
}

fn ids(bundles: &[(ImmutableDeserializedBundle, SanitizedBundle)]) -> Vec<String> {
    bundles
        .iter()
        .map(|(bundle, _)| bundle.bundle_id().to_string())
        .collect()
}

fn meta(id: &str, reward: u64, arrival: u64) -> BundleMeta {
    BundleMeta {
        bundle_id: id.to_string(),
        total_reward_lamports: reward * 100,
        total_cu_estimate: 1,
        reward_per_cu_scaled: reward,
        arrival_unix_us: arrival,
        union_accounts: vec![Pubkey { bytes: [7; 32] }],
        num_transactions: 1,
    }
}

#[test]
fn transfer_encoding() {
    let from = Keypair::from_seed(&[1; 32]).unwrap();
    let to = solana_sdk::pubkey::Pubkey::new_from_array([2; 32]);
    let amount = 250;
    let transfer = system_transaction::transfer(&from, &to, amount, solana_sdk::hash::Hash::new_from_array([3; 32]));

    let account_keys: Vec<Pubkey> = transfer.message.account_keys.iter().map(key_of).collect();
    let (recovered_to, recovered_amount) = BundleStorage::extract_transfer(
        &account_keys,
        &key_of(&solana_sdk::system_program::id()),
        &instruction_of(&transfer.message.instructions[0]),
    )
    .unwrap();
    assert_eq!(recovered_to, &key_of(&to));
    assert_eq!(recovered_amount, amount);
}

#[test]
fn test_priority_sorting_behavior() {
    let key = |priority: u64, sequence: u64| BundlePriorityKey { priority, sequence };
    let priorities = vec![key(100, 1), key(200, 2), key(100, 3), key(50, 4)];
    let sorted = sort_by_priority(&priorities, priorities.clone());
    assert_eq!(
        sorted,
        vec![key(200, 2), key(100, 1), key(100, 3), key(50, 4)]
    );
}

#[test]
fn test_bundle_priority_calculation() {
    let blockhash = solana_sdk::hash::Hash::new_unique();
    let payer1 = Keypair::new();
    let payer2 = Keypair::new();
    let payer3 = Keypair::new();
    let dest1 = Keypair::new();
    let dest2 = Keypair::new();
    let dest3 = Keypair::new();
    let dest4 = Keypair::new();
    let tip_account = Keypair::new();
    let tip_accounts = vec![key_of(&tip_account.pubkey())];

    let create_tx_with_priority_fee = |payer: &Keypair,
                                       dest: &solana_sdk::pubkey::Pubkey,
                                       transfer_amount: u64,
                                       priority_fee_per_cu: u64,
                                       compute_units: u32|
     -> Transaction {
        let mut instructions = vec![];
        if compute_units > 0 {
            instructions.push(ComputeBudgetInstruction::set_compute_unit_limit(
                compute_units,
            ));
        }
        if priority_fee_per_cu > 0 {
            instructions.push(ComputeBudgetInstruction::set_compute_unit_price(
                priority_fee_per_cu,
            ));
        }
        instructions.push(system_instruction::transfer(
            &payer.pubkey(),
            dest,
            transfer_amount,
        ));
        let message = solana_sdk::message::Message::new(&instructions, Some(&payer.pubkey()));
        Transaction::new(&[payer], message, blockhash)
    };
    // One signature, two write locks and the default size of loaded accounts cost as much as
    // 17_704 compute units. The leader keeps half of the fee of 5000 lamports for the signature,
    // and the whole priority fee.
    let executed = |priority_fee_per_cu: u64, compute_units: u64| BundleTransaction {
        cost: 17_704 + compute_units,
        reward: 2_500 + priority_fee_per_cu * compute_units / 1_000_000,
    };

    // Bundle 1: 1 transaction with low priority fee
    let bundle1_txs = vec![create_tx_with_priority_fee(
        &payer1,
        &dest1.pubkey(),
        1_000,
        100,
        50_000,
    )];
    let sanitized_bundle1 = SanitizedBundle {
        transactions: vec![executed(100, 50_000)],
        bundle_id: "test_bundle_1".to_string(),
    };

    // Bundle 2: 1 transaction with high priority fee
    let bundle2_txs = vec![create_tx_with_priority_fee(
        &payer2,
        &dest2.pubkey(),
        2_000,
        5000,
        40_000,
    )];
    let sanitized_bundle2 = SanitizedBundle {
        transactions: vec![executed(5000, 40_000)],
        bundle_id: "test_bundle_2".to_string(),
    };

    // Bundle 3: 3 transactions with medium priority fees + one tip transaction
    let bundle3_txs = vec![
        create_tx_with_priority_fee(&payer1, &dest3.pubkey(), 500, 1000, 30_000),
        system_transaction::transfer(&payer2, &tip_account.pubkey(), 50_000, blockhash),
        create_tx_with_priority_fee(&payer3, &dest4.pubkey(), 1_500, 1200, 35_000),
    ];
    let sanitized_bundle3 = SanitizedBundle {
        transactions: vec![executed(1000, 30_000), executed(0, 150), executed(1200, 35_000)],
        bundle_id: "test_bundle_3".to_string(),
    };

    let immutable_bundle1 = bundle("test_bundle_1", &bundle1_txs);
    let immutable_bundle2 = bundle("test_bundle_2", &bundle2_txs);
    let immutable_bundle3 = bundle("test_bundle_3", &bundle3_txs);

    let mut priority_counter = 0;
    let bundle1_priority_key = BundleStorage::calculate_bundle_priority(
        &immutable_bundle1,
        &sanitized_bundle1,
        &mut priority_counter,
        &tip_accounts,
    );
    let bundle2_priority_key = BundleStorage::calculate_bundle_priority(
        &immutable_bundle2,
        &sanitized_bundle2,
        &mut priority_counter,
        &tip_accounts,
    );
    let bundle3_priority_key = BundleStorage::calculate_bundle_priority(
        &immutable_bundle3,
        &sanitized_bundle3,
        &mut priority_counter,
        &tip_accounts,
    );
    assert_eq!(priority_counter, 3);

    let bundles_with_priority = sort_by_priority(
        &vec![
            bundle1_priority_key,
            bundle2_priority_key,
            bundle3_priority_key,
        ],
        vec!["Bundle 1", "Bundle 2", "Bundle 3"],
    );

    assert_eq!(bundles_with_priority[0], "Bundle 3");
    assert_eq!(bundles_with_priority[1], "Bundle 2");
    assert_eq!(bundles_with_priority[2], "Bundle 1");
}

#[test]
fn priority_is_reward_over_cost() {
    let payer = Keypair::new();
    let tip = Keypair::new();
    let other = Keypair::new();
    let tip_accounts = vec![key_of(&tip.pubkey())];
    let blockhash = solana_sdk::hash::Hash::default();
    let content = bundle(
        "b",
        &[
            system_transaction::transfer(&payer, &tip.pubkey(), 700, blockhash),
            system_transaction::transfer(&payer, &other.pubkey(), 5_000, blockhash),
            system_transaction::transfer(&payer, &tip.pubkey(), 300, blockhash),
        ],
    );
    assert_eq!(
        BundleStorage::extract_tips_from_packet(&content.packets()[0], &tip_accounts),
        700
    );
    assert_eq!(
        BundleStorage::extract_tips_from_packet(&content.packets()[1], &tip_accounts),
        0
    );
    let mut counter = 41;
    let key = BundleStorage::calculate_bundle_priority(
        &content,
        &sanitized("b", 300, 2_000),
        &mut counter,
        &tip_accounts,
    );
    // (2000 + 1000) * 1_000_000 / 300
    assert_eq!(
        key,
        BundlePriorityKey {
            priority: 10_000_000,
            sequence: 42
        }
    );
    // no cost counts as one, and large numbers stop at the largest
    let mut counter = u64::MAX;
    let key = BundleStorage::calculate_bundle_priority(
        &content,
        &sanitized("b", 0, u64::MAX),
        &mut counter,
        &tip_accounts,
    );
    assert_eq!(
        key,
        BundlePriorityKey {
            priority: u64::MAX,
            sequence: 0
        }
    );
}

#[test]
fn only_system_transfers_are_read() {
    let system = key_of(&solana_sdk::system_program::id());
    let keys = vec![Pubkey { bytes: [1; 32] }, Pubkey { bytes: [2; 32] }];
    let mut data = vec![2, 0, 0, 0];
    data.extend_from_slice(&0x0102_0304_0506_0708u64.to_le_bytes());
    let ix = |accounts: Vec<u8>, data: Vec<u8>| CompiledInstruction {
        program_id_index: 0,
        accounts,
        data,
    };
    assert_eq!(
        BundleStorage::extract_transfer(&keys, &system, &ix(vec![0, 1], data.clone())),
        Some((&keys[1], 0x0102_0304_0506_0708))
    );
    // another program, too little data, another instruction, no destination
    assert_eq!(
        BundleStorage::extract_transfer(&keys, &keys[0], &ix(vec![0, 1], data.clone())),
        None
    );
    assert_eq!(
        BundleStorage::extract_transfer(&keys, &system, &ix(vec![0, 1], data[..11].to_vec())),
        None
    );
    let mut create = data.clone();
    create[0] = 0;
    assert_eq!(
        BundleStorage::extract_transfer(&keys, &system, &ix(vec![0, 1], create)),
        None
    );
    assert_eq!(
        BundleStorage::extract_transfer(&keys, &system, &ix(vec![0], data.clone())),
        None
    );
    assert_eq!(
        BundleStorage::extract_transfer(&keys, &system, &ix(vec![0, 2], data)),
        None
    );
}

#[test]
fn bundle_keys_are_compared_by_priority_then_arrival() {
    let key = |priority: u64, sequence: u64| BundlePriorityKey { priority, sequence };
    assert!(comes_before(&key(2, 9), &key(1, 1)));
    assert!(comes_before(&key(2, 1), &key(2, 9)));
    assert!(!comes_before(&key(2, 1), &key(2, 1)));
    assert!(!comes_before(&key(1, 1), &key(2, 9)));
}

#[test]
fn bundles_are_inserted_up_to_the_capacity() {
    let mut storage = UnprocessedTransactionStorage::new_bundle_storage();
    assert!(storage.is_empty());
    assert_eq!(storage.max_receive_size(), 256);
    assert_eq!(storage.forward_option(), ForwardOption::NotForward);
    let summary = storage.insert_bundles(vec![dummy_bundle("a"), dummy_bundle("b")]);
    assert_eq!(summary.num_bundles_inserted, 2);
    assert_eq!(summary.num_packets_inserted, 2);
    assert_eq!(summary.num_bundles_dropped, 0);
    assert_eq!(storage.len(), 2);
    assert_eq!(storage.max_receive_size(), 254);
    let empty = || ImmutableDeserializedBundle {
        bundle_id: String::new(),
        packets: vec![],
    };
    let mut many: Vec<ImmutableDeserializedBundle> = (0..997).map(|_| empty()).collect();
    many.extend([dummy_bundle("c"), dummy_bundle("d"), dummy_bundle("e")]);
    let summary = storage.insert_bundles(many);
    assert_eq!(summary.num_bundles_inserted, 998);
    assert_eq!(summary.num_bundles_dropped, 2);
    assert_eq!(summary.num_packets_inserted, 1);
    assert_eq!(summary.insert_packets_summary.total_dropped_packets(), 2);
    let bundles = storage.bundle_storage().unwrap();
    assert_eq!(bundles.unprocessed_bundles_len(), 1000);
    assert_eq!(bundles.unprocessed_packets_len(), 3);
    assert_eq!(bundles.cost_model_buffered_bundles_len(), 0);
    assert_eq!(bundles.cost_model_buffered_packets_len(), 0);
    assert_eq!(bundles.reset(), (1000, 0));
    assert!(storage.is_empty());
}

#[test]
fn bundles_in_front_go_in_one_after_the_other() {
    let mut storage = BundleStorage::new();
    storage.insert_unprocessed_bundles(vec![dummy_bundle("a")], true);
    storage.push_front_unprocessed_bundles(vec![dummy_bundle("b"), dummy_bundle("c")]);
    storage.push_back_cost_model_buffered_bundles(vec![dummy_bundle("d")]);
    let drained = storage.drain_and_sanitize_bundles(
        storage.last_update_slot,
        &mut PairInquiry::new(|bundle: &ImmutableDeserializedBundle, _: &Vec<Pubkey>| {
            Some(sanitized(bundle.bundle_id(), 1, 1))
        }),
        &vec![],
        &vec![],
        &mut BundleSanitizeMetrics::default(),
    );
    // in the same slot those that are kept for the next one stay
    assert_eq!(ids(&drained), vec!["c", "b", "a"]);
    assert_eq!(storage.cost_model_buffered_bundles_len(), 1);
}

#[test]
fn bundles_are_drained_in_the_order_of_priority() {
    let mut storage = BundleStorage::new();
    storage.insert_unprocessed_bundles(
        vec![
            dummy_bundle("low"),
            dummy_bundle("bad"),
            dummy_bundle("high"),
            dummy_bundle("low2"),
        ],
        true,
    );
    storage.push_back_cost_model_buffered_bundles(vec![dummy_bundle("kept")]);
    let drained = storage.drain_and_sanitize_bundles(
        7,
        &mut PairInquiry::new(|bundle: &ImmutableDeserializedBundle, _: &Vec<Pubkey>| match bundle.bundle_id() {
            "bad" => None,
            "high" => Some(sanitized("high", 10, 100)),
            id => Some(sanitized(id, 10, 10)),
        }),
        &vec![],
        &vec![],
        &mut BundleSanitizeMetrics::default(),
    );
    // those of the last slot come first among equals
    assert_eq!(ids(&drained), vec!["high", "kept", "low", "low2"]);
    assert_eq!(storage.last_update_slot, 7);
    assert!(storage.is_empty());
    assert_eq!(storage.cost_model_buffered_bundles_len(), 0);
}

#[test]
fn results_decide_where_bundles_go() {
    let results = vec![
        Ok(()),
        Err(BundleExecutionError::PohRecordError),
        Err(BundleExecutionError::ExceedsCostModel),
        Err(BundleExecutionError::BankProcessingTimeLimitReached),
        Err(BundleExecutionError::TransactionFailure(
            LoadAndExecuteBundleError::ProcessingTimeExceeded,
        )),
        Err(BundleExecutionError::TransactionFailure(
            LoadAndExecuteBundleError::TransactionError,
        )),
        Err(BundleExecutionError::TransactionFailure(
            LoadAndExecuteBundleError::LockError,
        )),
        Err(BundleExecutionError::TransactionFailure(
            LoadAndExecuteBundleError::InvalidPreOrPostAccounts,
        )),
        Err(BundleExecutionError::TipError),
        Err(BundleExecutionError::LockError),
        Err(BundleExecutionError::FrontRun),
    ];
    let mut metrics = BundleSanitizeMetrics::default();
    let mut storage = UnprocessedTransactionStorage::new_bundle_storage();
    storage.insert_bundles((0..12).map(|i| dummy_bundle(&format!("b{i}"))).collect());
    let is_slot_over = storage.process_bundles(
        3,
        &mut PairInquiry::new(|bundle: &ImmutableDeserializedBundle, _: &Vec<Pubkey>| {
            Some(sanitized(bundle.bundle_id(), 1, 1))
        }),
        &vec![],
        &vec![],
        &mut Inquiry::new(|bundles: &Vec<(ImmutableDeserializedBundle, SanitizedBundle)>| {
            assert_eq!(bundles.len(), 12);
            // the last bundle gets no result
            results.clone()
        }),
        &mut metrics,
    );
    assert_eq!(metrics.num_sanitized_ok, 12);
    assert_eq!(metrics.num_sanitize_failed, 0);
    assert!(is_slot_over);
    let bundles = storage.bundle_storage().unwrap();
    assert_eq!(bundles.unprocessed_bundle_storage[0].bundle_id(), "b1");
    assert_eq!(bundles.unprocessed_bundle_storage[1].bundle_id(), "b3");
    assert_eq!(bundles.unprocessed_bundles_len(), 2);
    assert_eq!(
        bundles.cost_model_buffered_bundle_storage[0].bundle_id(),
        "b2"
    );
    assert_eq!(
        bundles.cost_model_buffered_bundle_storage[1].bundle_id(),
        "b4"
    );
    assert_eq!(bundles.cost_model_buffered_bundles_len(), 2);
    assert_eq!(storage.len(), 4);
    let mut executions = 0;
    // with none left to retry first, only those kept for the next slot remain
    let is_slot_over = storage.process_bundles(
        3,
        &mut PairInquiry::new(|_bundle: &ImmutableDeserializedBundle, _: &Vec<Pubkey>| None),
        &vec![],
        &vec![],
        &mut Inquiry::new(|bundles: &Vec<(ImmutableDeserializedBundle, SanitizedBundle)>| {
            assert!(bundles.is_empty());
            executions += 1;
            vec![]
        }),
        &mut metrics,
    );
    assert_eq!(executions, 1);
    assert_eq!(metrics.num_sanitized_ok, 12);
    assert_eq!(metrics.num_sanitize_failed, 2);
    assert_eq!(
        metrics.sanitize_bundle_elapsed_us,
        metrics.transactions_from_packets_us
    );
    assert!(!is_slot_over);
    assert!(storage.is_empty());
    assert_eq!(storage.len(), 2);
    storage.clear_forwarded_packets();
    assert_eq!(storage.len(), 0);
}

#[test]
fn ordering_prefers_higher_reward() {
    let mut q = BundlePriorityQueue::new();
    for (r, arrival) in [(10, 1), (50, 3), (30, 2)] {
        let meta = BundleMeta {
            bundle_id: format!("b{r}"),
            total_reward_lamports: r * 100,
            total_cu_estimate: 1,
            reward_per_cu_scaled: r as u64,
            arrival_unix_us: arrival,
            union_accounts: vec![],
            num_transactions: 1,
        };
        q.insert(meta, BundleHandle::new(Arc::new(dummy_bundle("dummy"))));
    }
    let top = q.peek_best().unwrap();
    assert_eq!(top.reward_per_cu_scaled, 50);
}

#[test]
fn queue_orders_by_reward_arrival_and_name() {
    let mut q = BundlePriorityQueue::default();
    assert!(q.peek_best().is_none());
    // nothing is asked of an empty queue
    assert!(q.take_best_if(|_| panic!("there is no bundle")).is_none());
    for (id, reward, arrival) in [
        ("a", 5, 10),
        ("late", 5, 11),
        ("b", 5, 10),
        ("rich", 6, 99),
        ("ab", 5, 10),
        ("\u{e9}", 5, 10),
    ] {
        q.insert(
            meta(id, reward, arrival),
            BundleHandle::new(Arc::new(dummy_bundle(id))),
        );
    }
    assert_eq!(q.len(), 6);
    let mut order: Vec<String> = vec![];
    while let Some(best) = q.peek_best() {
        let name = best.bundle_id.clone();
        // a condition that does not hold leaves the bundle where it is
        assert!(q.take_best_if(|m| m.bundle_id != name).is_none());
        let handle = q.take_best_if(|m| m.bundle_id == name).unwrap();
        assert_eq!(handle.bundle_id(), name);
        order.push(name);
    }
    assert_eq!(order, vec!["rich", "\u{e9}", "b", "ab", "a", "late"]);
    let expected: HashSet<String> = order.iter().cloned().collect();
    assert_eq!(expected.len(), 6);
}

#[test]
fn requeue_restores_the_queue() {
    let mut q = BundlePriorityQueue::new();
    q.insert(
        meta("x", 5, 1),
        BundleHandle::new(Arc::new(dummy_bundle("x"))),
    );
    let best = q.peek_best().unwrap();
    let handle = q.take_best_if(|_| true).unwrap();
    assert_eq!(q.len(), 0);
    q.requeue(handle, best.clone());
    assert_eq!(q.len(), 1);
    let again = q.peek_best().unwrap();
    assert_eq!(again.bundle_id, best.bundle_id);
    assert_eq!(again.union_accounts, best.union_accounts);
    assert_eq!(again.total_reward_lamports, 500);
}

#[test]
fn handles_share_their_bundle() {
    let inner = Arc::new(dummy_bundle("h"));
    let handle = BundleHandle::new(inner.clone());
    assert!(handle.sanitized().is_none());
    assert_eq!(handle.as_ref().len(), 1);
    let with = BundleHandle::with_sanitized(inner.clone(), Arc::new(sanitized("h", 1, 2)));
    let copy = with.clone();
    assert!(Arc::ptr_eq(copy.inner(), &inner));
    assert_eq!(copy.sanitized().unwrap().transactions[0].reward, 2);
    assert_eq!(copy.bundle_id(), "h");
}

#[test]
fn stored_bundles_are_named_by_their_id() {
    let stored = |id: &str, reward: u64| StoredBundle {
        meta: meta(id, reward, 3),
        handle: BundleHandle::new(Arc::new(dummy_bundle(id))),
    };
    assert!(stored("a", 1) == stored("a", 2));
    assert!(stored("a", 1) != stored("b", 1));
    assert_eq!(stored("a", 1).key_tuple(), (1, u64::MAX - 3, "a"));
    assert!(stored("a", 1).ranks_no_higher_than(&stored("a", 2)));
    assert!(!stored("a", 2).ranks_no_higher_than(&stored("a", 1)));
    assert!(stored("z", 1) < stored("a", 2));
    assert!(stored("b", 1) > stored("a", 1));
    assert!(stored("a", 1) <= stored("a", 1));
}

#[test]
fn timestamps_are_truncated_microseconds() {
    assert_eq!(unix_us(None), 0);
    assert_eq!(unix_us(Some(5)), 5);
    assert_eq!(unix_us(Some((1u128 << 64) + 9)), 9);
    // some time after the year 2020, and not running backwards within a test
    let now = BundlePriorityQueue::now_unix_us();
    assert!(now > 1_577_836_800_000_000);
    assert!(BundlePriorityQueue::now_unix_us() >= now);
}

#[test]
fn blacklisted_accounts_are_handed_to_sanitization() {
    let kp = Keypair::new();
    let tx = system_transaction::transfer(
        &kp,
        &kp.pubkey(),
        1,
        solana_sdk::hash::Hash::default(),
    );
    let mut storage = BundleStorage::new();
    storage.insert_unprocessed_bundles(vec![bundle("a", &[tx]), dummy_bundle("b")], true);
    let drained = storage.drain_and_sanitize_bundles(
        1,
        &mut PairInquiry::new(|bundle: &ImmutableDeserializedBundle, blacklisted: &Vec<Pubkey>| {
            let keys = &bundle.packets()[0].message.account_keys;
            if keys.iter().any(|key| blacklisted.contains(key)) {
                None
            } else {
                Some(sanitized(bundle.bundle_id(), 1, 1))
            }
        }),
        &vec![key_of(&kp.pubkey())],
        &vec![],
        &mut BundleSanitizeMetrics::default(),
    );
    assert_eq!(ids(&drained), vec!["b"]);
}
