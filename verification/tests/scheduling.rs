use std::sync::Arc;

use bundle_scheduler::bundle::ImmutableDeserializedBundle;
use bundle_scheduler::bundle_priority_queue::{
    BundleHandle, BundleMeta, BundlePriorityQueue, BundlePrioritySource,
};
use bundle_scheduler::cleaning::{CHUNK_SIZE, MAX_TRANSACTION_CHECKS};
use bundle_scheduler::keys::{MessageHash, Pubkey};
use bundle_scheduler::packet::{ImmutableDeserializedPacket, Message};
use bundle_scheduler::scheduler_controller::{
    BufferedPacketsDecision, DisconnectedError, SchedulerController, SchedulerError,
};
use bundle_scheduler::scheduler_metrics::{ReceivingStats, SchedulingSummary};
use bundle_scheduler::services::{BatchCheck, Handoff, Inquiry, PairHandoff};
use bundle_scheduler::transaction_container::{
    PriorityRange, TransactionPriorityId, TransactionStateContainer,
};
use bundle_scheduler::validator_auth::{pair_servers, ValidatorAutherImpl, ValidatorStore};
use crossbeam_channel::{unbounded, Receiver};

fn make_test_bundle_handle(id: &str) -> (BundleMeta, BundleHandle) {
    let meta = BundleMeta {
        bundle_id: id.to_string(),
        total_reward_lamports: 1_000_000,
        total_cu_estimate: 10_000,
        reward_per_cu_scaled: 100_000, // arbitrary > typical tx priority
        arrival_unix_us: BundlePriorityQueue::now_unix_us(),
        union_accounts: vec![],
        num_transactions: 0,
    };
    let bundle = ImmutableDeserializedBundle {
        bundle_id: id.to_string(),
        packets: vec![ImmutableDeserializedPacket {
            message_hash: MessageHash { hi: 1, lo: 2 },
            compute_unit_price: 0,
            message: Message {
                account_keys: vec![],
                instructions: vec![],
            },
            vote: None,
        }],
    };
    (meta, BundleHandle::new(Arc::new(bundle)))
}

// A controller whose channel for bundles is disconnected.
fn disconnected_controller() -> SchedulerController {
    let (tx, _rx) = unbounded::<BundleHandle>();
    SchedulerController::new(BundlePriorityQueue::default(), tx)
}

fn connected_controller() -> (SchedulerController, Receiver<BundleHandle>) {
    let (tx, rx) = unbounded::<BundleHandle>();
    (
        SchedulerController::new(BundlePriorityQueue::default(), tx),
        rx,
    )
}

fn entry(priority: u64, id: usize) -> TransactionPriorityId {
    TransactionPriorityId { priority, id }
}

fn summary(num_scheduled: usize) -> SchedulingSummary {
    SchedulingSummary {
        num_scheduled,
        num_unschedulable_conflicts: 2,
        num_unschedulable_threads: 3,
        num_filtered_out: 4,
        filter_time_us: 5,
    }
}

fn process(
    controller: &mut SchedulerController,
    decision: BufferedPacketsDecision,
) -> (Result<(), SchedulerError>, usize) {
    let mut passes = 0;
    let result = controller.process_transactions(
        &decision,
        &mut PairHandoff::new(|container: TransactionStateContainer, max_age: usize| {
            assert_eq!(max_age, 150);
            passes += 1;
            (container, Ok(summary(1)))
        }),
        &mut BatchCheck::new(|ids: &Vec<usize>, _max_age: usize| vec![true; ids.len()]),
    );
    (result, passes)
}

#[test]
fn test_bundle_arbitration_path_does_not_panic() {
    let mut controller = disconnected_controller();
    let (meta, handle) = make_test_bundle_handle("arb1");
    controller.bundle_priority_queue.insert(meta, handle);
    let (result, passes) = process(&mut controller, BufferedPacketsDecision::Consume(0));
    assert!(result.is_ok());
    assert_eq!(passes, 1);
}

#[test]
fn test_transient_requeue_on_complete_bank() {
    let mut controller = disconnected_controller();
    let (meta, handle) = make_test_bundle_handle("arb2");
    controller
        .bundle_priority_queue
        .insert(meta.clone(), handle.clone());
    let _ = process(&mut controller, BufferedPacketsDecision::Consume(0));
    assert!(controller.bundle_priority_queue.peek_best().is_some()); // Requeued
    assert_eq!(controller.count_metrics.num_bundle_arbitration_considered, 1);
    assert_eq!(controller.count_metrics.num_bundle_requeued, 1);
    assert_eq!(controller.count_metrics.num_bundle_executed_success, 0);
}

#[test]
fn winning_bundle_is_sent_instead_of_scheduling() {
    let (mut controller, receiver) = connected_controller();
    let (meta, handle) = make_test_bundle_handle("best");
    controller.bundle_priority_queue.insert(meta, handle);
    controller.container.insert_new(entry(99_999, 1));
    let (result, passes) = process(&mut controller, BufferedPacketsDecision::Consume(3));
    assert!(result.is_ok());
    assert_eq!(passes, 0);
    assert_eq!(receiver.try_recv().unwrap().bundle_id(), "best");
    assert!(receiver.try_recv().is_err()); // sent once
    assert_eq!(
        controller.container.get_min_max_priority(),
        PriorityRange::MinMax(99_999, 99_999)
    );
    assert_eq!(controller.bundle_priority_queue.len(), 0);
    assert_eq!(controller.count_metrics.num_bundle_arbitration_considered, 1);
    assert_eq!(controller.count_metrics.num_bundle_arbitration_skipped, 1);
    assert_eq!(controller.count_metrics.num_bundle_executed_success, 1);
    assert_eq!(controller.count_metrics.num_scheduled, 0);
}

#[test]
fn claimed_bundle_leaves_the_queue() {
    let (mut controller, receiver) = connected_controller();
    let (meta, handle) = make_test_bundle_handle("best");
    controller.bundle_priority_queue.insert(meta, handle);
    assert!(controller.claim_bundle(&BufferedPacketsDecision::Forward).is_none());
    let (meta, handle) = controller
        .claim_bundle(&BufferedPacketsDecision::Consume(1))
        .unwrap();
    assert_eq!(meta.bundle_id, "best");
    assert_eq!(handle.bundle_id(), "best");
    assert_eq!(controller.bundle_priority_queue.len(), 0);
    assert!(receiver.try_recv().is_err());
    // a bundle that could not be sent comes back
    assert!(controller.finish_arbitration(Err(handle), meta));
    assert_eq!(controller.bundle_priority_queue.len(), 1);
    assert_eq!(controller.count_metrics.num_bundle_requeued, 1);
}

#[test]
fn bundle_that_pays_no_more_waits() {
    let (mut controller, receiver) = connected_controller();
    let (meta, handle) = make_test_bundle_handle("b");
    controller.bundle_priority_queue.insert(meta, handle);
    controller.container.insert_new(entry(1, 1));
    controller.container.insert_new(entry(100_000, 2));
    let (_, passes) = process(&mut controller, BufferedPacketsDecision::Consume(3));
    assert_eq!(passes, 1);
    assert!(receiver.try_recv().is_err());
    assert_eq!(controller.count_metrics.num_bundle_arbitration_considered, 0);
    assert_eq!(controller.count_metrics.num_scheduled, 1);
    assert_eq!(controller.count_metrics.num_unschedulable_conflicts, 2);
    assert_eq!(controller.count_metrics.num_unschedulable_threads, 3);
    assert_eq!(controller.count_metrics.num_schedule_filtered_out, 4);
    assert_eq!(controller.timing_metrics.schedule_filter_time_us, 5);
    // without a bank no bundle is sent
    assert!(controller.try_arbitrate_bundle(&BufferedPacketsDecision::Hold));
    assert_eq!(controller.bundle_priority_queue.len(), 1);
}

#[test]
fn failed_scheduling_is_reported() {
    let mut controller = disconnected_controller();
    controller.container.insert_new(entry(1, 1));
    for error in [
        SchedulerError::DisconnectedSendChannel,
        SchedulerError::DisconnectedRecvChannel,
    ] {
        let result = controller.process_transactions(
            &BufferedPacketsDecision::Consume(1),
            &mut PairHandoff::new(|container: TransactionStateContainer, _max_age: usize| {
                (container, Err(error))
            }),
            &mut BatchCheck::new(|ids: &Vec<usize>, _max_age: usize| vec![true; ids.len()]),
        );
        assert_eq!(result, Err(error));
    }
    assert_eq!(controller.count_metrics.num_scheduled, 0);
    assert_eq!(
        controller.container.get_min_max_priority(),
        PriorityRange::MinMax(1, 1)
    );
}

#[test]
fn container_pops_the_highest_priority() {
    let mut container = TransactionStateContainer::with_capacity(4);
    assert_eq!(container.get_min_max_priority(), PriorityRange::NoElements);
    assert_eq!(container.pop(), None);
    for e in [entry(5, 1), entry(9, 2), entry(5, 3)] {
        container.insert_new(e);
    }
    assert_eq!(
        container.get_min_max_priority(),
        PriorityRange::MinMax(5, 9)
    );
    assert_eq!(container.pop(), Some(entry(9, 2)));
    assert_eq!(container.pop(), Some(entry(5, 3)));
    container.push_ids_into_queue(&vec![entry(9, 2)]);
    container.remove_by_id(3);
    assert_eq!(container.pop(), Some(entry(9, 2)));
    assert_eq!(container.pop(), Some(entry(5, 1)));
    assert_eq!(container.pop(), None);
}

#[test]
fn clearing_spares_what_is_in_flight() {
    let mut controller = disconnected_controller();
    for e in [entry(5, 1), entry(9, 2), entry(7, 3)] {
        controller.container.insert_new(e);
    }
    let in_flight = controller.container.pop().unwrap();
    assert_eq!(in_flight, entry(9, 2));
    let (result, passes) = process(&mut controller, BufferedPacketsDecision::Forward);
    assert!(result.is_ok());
    assert_eq!(passes, 0);
    assert_eq!(controller.count_metrics.num_dropped_on_clear, 2);
    assert_eq!(controller.container.pop(), None);
    // the one in flight is still known and can come back
    controller.container.push_ids_into_queue(&vec![in_flight]);
    assert_eq!(controller.container.pop(), Some(in_flight));
}

#[test]
fn cleaning_drops_what_cannot_be_processed() {
    let mut controller = disconnected_controller();
    let total = CHUNK_SIZE + 10;
    for id in 0..total {
        controller.container.insert_new(entry(id as u64, id));
    }
    let mut asked: Vec<usize> = vec![];
    let result = controller.process_transactions(
        &BufferedPacketsDecision::ForwardAndHold,
        &mut PairHandoff::new(|container: TransactionStateContainer, _max_age: usize| {
            (container, Ok(summary(1)))
        }),
        &mut BatchCheck::new(|ids: &Vec<usize>, max_age: usize| {
            assert_eq!(max_age, 150);
            assert!(ids.len() <= CHUNK_SIZE);
            asked.extend(ids);
            ids.iter().map(|id| id % 3 != 0).collect()
        }),
    );
    assert!(result.is_ok());
    // the highest priority is asked about first
    assert_eq!(asked, (0..total).rev().collect::<Vec<_>>());
    assert_eq!(controller.count_metrics.num_dropped_on_clean, total / 3);
    let mut left: Vec<usize> = vec![];
    while let Some(e) = controller.container.pop() {
        left.push(e.id);
    }
    assert_eq!(
        left,
        (0..total).rev().filter(|id| id % 3 != 0).collect::<Vec<_>>()
    );
}

#[test]
fn cleaning_looks_at_a_limited_number() {
    let mut controller = disconnected_controller();
    for id in 0..MAX_TRANSACTION_CHECKS + 5 {
        controller.container.insert_new(entry(id as u64, id));
    }
    let mut asked = 0;
    controller.clean_queue(&mut BatchCheck::new(|ids: &Vec<usize>, _max_age: usize| {
        asked += ids.len();
        // an answer that is too short leaves the rest alone
        vec![true; 1]
    }));
    assert_eq!(asked, MAX_TRANSACTION_CHECKS);
    assert_eq!(controller.count_metrics.num_dropped_on_clean, 0);
    let mut left = 0;
    while controller.container.pop().is_some() {
        left += 1;
    }
    assert_eq!(left, 5 + MAX_TRANSACTION_CHECKS.div_ceil(CHUNK_SIZE));
}

#[test]
fn holding_changes_nothing() {
    let (mut controller, receiver) = connected_controller();
    let (meta, handle) = make_test_bundle_handle("b");
    controller.bundle_priority_queue.insert(meta, handle);
    controller.container.insert_new(entry(1, 1));
    let (result, passes) = process(&mut controller, BufferedPacketsDecision::Hold);
    assert!(result.is_ok());
    assert_eq!(passes, 0);
    assert!(receiver.try_recv().is_err());
    assert_eq!(controller.container.pop(), Some(entry(1, 1)));
}

#[test]
fn completed_work_is_counted() {
    let mut controller = disconnected_controller();
    let result = controller.receive_completed(&mut Handoff::new(
        |container: TransactionStateContainer| (container, Ok((7, 2))),
    ));
    assert!(result.is_ok());
    assert_eq!(controller.count_metrics.num_finished, 7);
    assert_eq!(controller.count_metrics.num_retryable, 2);
    let result = controller.receive_completed(&mut Handoff::new(|container: TransactionStateContainer| {
        (container, Err(SchedulerError::DisconnectedRecvChannel))
    }));
    assert_eq!(result, Err(SchedulerError::DisconnectedRecvChannel));
    assert_eq!(controller.count_metrics.num_finished, 7);
}

fn stats() -> ReceivingStats {
    ReceivingStats {
        num_received: 1,
        num_dropped_without_parsing: 2,
        num_dropped_on_parsing_and_sanitization: 3,
        num_dropped_on_lock_validation: 4,
        num_dropped_on_compute_budget: 5,
        num_dropped_on_age: 6,
        num_dropped_on_already_processed: 7,
        num_dropped_on_fee_payer: 8,
        num_dropped_on_capacity: 9,
        num_buffered: 10,
        num_dropped_on_blacklisted_account: 11,
        receive_time_us: 12,
        buffer_time_us: 13,
    }
}

#[test]
fn received_packets_are_counted() {
    let mut controller = disconnected_controller();
    let received = controller.receive_and_buffer_packets(
        &BufferedPacketsDecision::Hold,
        &mut PairHandoff::new(|mut container: TransactionStateContainer, _decision: BufferedPacketsDecision| {
            container.insert_new(entry(4, 4));
            (container, Ok(stats()))
        }),
    );
    assert_eq!(received, Ok(stats()));
    let counts = controller.count_metrics;
    assert_eq!(counts.num_received, 1);
    assert_eq!(counts.num_dropped_on_receive, 2);
    assert_eq!(counts.num_dropped_on_parsing_and_sanitization, 3);
    assert_eq!(counts.num_dropped_on_validate_locks, 4);
    assert_eq!(counts.num_dropped_on_receive_compute_budget, 5);
    assert_eq!(counts.num_dropped_on_receive_age, 6);
    assert_eq!(counts.num_dropped_on_receive_already_processed, 7);
    assert_eq!(counts.num_dropped_on_receive_fee_payer, 8);
    assert_eq!(counts.num_dropped_on_capacity, 9);
    assert_eq!(counts.num_buffered, 10);
    assert_eq!(counts.num_dropped_on_blacklisted_account, 11);
    assert_eq!(controller.timing_metrics.receive_time_us, 12);
    assert_eq!(controller.timing_metrics.buffer_time_us, 13);
    assert_eq!(controller.container.pop(), Some(entry(4, 4)));
    let received = controller.receive_and_buffer_packets(
        &BufferedPacketsDecision::Hold,
        &mut PairHandoff::new(|container: TransactionStateContainer, _decision: BufferedPacketsDecision| {
            (container, Err(DisconnectedError))
        }),
    );
    assert_eq!(received, Err(DisconnectedError));
    assert_eq!(controller.count_metrics, counts);
}

#[test]
fn round_goes_on_while_packets_come() {
    let mut controller = disconnected_controller();
    controller.record_decision_time(17);
    assert_eq!(controller.timing_metrics.decision_time_us, 17);
    for (connected, fails) in [(true, false), (false, false), (true, true)] {
        let mut order: Vec<&str> = vec![];
        let steps = std::cell::RefCell::new(&mut order);
        let result = controller.run_round(
            &BufferedPacketsDecision::Consume(1),
            &mut Handoff::new(|container: TransactionStateContainer| {
                steps.borrow_mut().push("completed");
                if fails {
                    (container, Err(SchedulerError::DisconnectedRecvChannel))
                } else {
                    (container, Ok((0, 0)))
                }
            }),
            &mut PairHandoff::new(|container: TransactionStateContainer, _max_age: usize| {
                steps.borrow_mut().push("schedule");
                (container, Ok(summary(1)))
            }),
            &mut BatchCheck::new(|ids: &Vec<usize>, _max_age: usize| vec![true; ids.len()]),
            &mut PairHandoff::new(|container: TransactionStateContainer, _decision: BufferedPacketsDecision| {
                steps.borrow_mut().push("queue");
                container
            }),
            &mut PairHandoff::new(|container: TransactionStateContainer, _decision: BufferedPacketsDecision| {
                steps.borrow_mut().push("receive");
                if connected {
                    (container, Ok(stats()))
                } else {
                    (container, Err(DisconnectedError))
                }
            }),
        );
        if fails {
            assert_eq!(result, Err(SchedulerError::DisconnectedRecvChannel));
            assert_eq!(order, vec!["completed"]);
        } else {
            assert_eq!(result, Ok(connected));
            assert_eq!(order, vec!["completed", "schedule", "queue", "receive"]);
        }
    }
}

#[test]
fn filter_asks_for_the_fee_payer_of_valid_transactions() {
    let mut results = vec![true, true, true, true, false];
    let mut asked: Vec<u64> = vec![];
    SchedulerController::pre_graph_filter(
        &vec![10u64, 11, 12, 13],
        &mut results,
        &mut BatchCheck::new(|_txs: &Vec<u64>, max_age: usize| {
            assert_eq!(max_age, 77);
            vec![true, false, true]
        }),
        &mut Inquiry::new(|tx: &u64| {
            asked.push(*tx);
            *tx != 12
        }),
        77,
    );
    assert_eq!(results, vec![true, false, false, true, false]);
    assert_eq!(asked, vec![10, 12]);
}

#[test]
fn validators_are_authorized_by_the_store() {
    let key = |number: u8| Pubkey { bytes: [number; 32] };
    let named = ValidatorAutherImpl {
        store: ValidatorStore::from_allowed(Some(vec![key(1), key(2)])),
    };
    // the leader schedule is not asked
    assert!(named.is_authorized(&key(2), |_| panic!("not asked")));
    assert!(!named.is_authorized(&key(3), |_| panic!("not asked")));
    let scheduled = ValidatorAutherImpl {
        store: ValidatorStore::from_allowed(None),
    };
    assert!(scheduled.is_authorized(&key(3), |pubkey| *pubkey == key(3)));
    assert!(!scheduled.is_authorized(&key(4), |pubkey| *pubkey == key(3)));
}

#[test]
fn servers_are_paired_in_order() {
    let rpc = vec!["r1".to_string(), "r2".to_string()];
    let ws = vec!["w1".to_string()];
    assert_eq!(
        pair_servers(&rpc, &ws),
        vec![("r1".to_string(), "w1".to_string())]
    );
    assert!(pair_servers(&vec![], &ws).is_empty());
}

#[test]
fn rest_of_a_round_leaves_bundles_alone() {
    let (mut controller, receiver) = connected_controller();
    for id in ["first", "second"] {
        let (meta, handle) = make_test_bundle_handle(id);
        controller.bundle_priority_queue.insert(meta, handle);
    }
    let decision = BufferedPacketsDecision::Consume(1);
    let schedule_transactions = controller.start_round(
        &decision,
        &mut Handoff::new(|container: TransactionStateContainer| (container, Ok((1, 0)))),
    );
    assert_eq!(schedule_transactions, Ok(false));
    assert!(receiver.try_recv().is_ok());
    assert_eq!(controller.bundle_priority_queue.len(), 1);
    let mut passes = 0;
    let go_on = controller.finish_round(
        &decision,
        false,
        &mut PairHandoff::new(|container: TransactionStateContainer, _max_age: usize| {
            passes += 1;
            (container, Ok(summary(1)))
        }),
        &mut BatchCheck::new(|ids: &Vec<usize>, _max_age: usize| vec![true; ids.len()]),
        &mut PairHandoff::new(
            |container: TransactionStateContainer, _decision: BufferedPacketsDecision| container,
        ),
        &mut PairHandoff::new(
            |container: TransactionStateContainer, _decision: BufferedPacketsDecision| {
                (container, Ok(stats()))
            },
        ),
    );
    assert_eq!(go_on, Ok(true));
    assert_eq!(passes, 0);
    assert!(receiver.try_recv().is_err());
    assert_eq!(controller.bundle_priority_queue.len(), 1);
    assert_eq!(controller.count_metrics.num_finished, 1);
}
