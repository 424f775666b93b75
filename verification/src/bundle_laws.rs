//! What holds of bundles that are put in, executed and kept for another try.

use vstd::prelude::*;

use crate::bundle::{
    BundleExecutionError, ImmutableDeserializedBundle, LoadAndExecuteBundleError, SanitizedBundle,
};
use crate::bundle_ranking::{
    bundle_priority, law_priority_is_payment_over_cost, law_sorted_pays_more_first, lemma_total_tips,
    lemma_totals, sorted_by_priority, total_cost, total_reward, total_tips,
};
use crate::bundle_storage::{
    answered, bundles_sanitized_by, bundles_where, insertion_summary, is_kept_for_next_slot,
    is_retried_first, kept_for_next_slot, last_fitting, packet_count, pairs, priority_keys,
    retried_first, with_inserted, BundleCalls, BundleStorage,
};
use crate::keys::Pubkey;
use crate::metrics::{BundleSanitizeMetrics, InsertPacketBatchSummary, InsertPacketBundlesSummary};
use crate::services::{Inquiry, PairInquiry};

verus! {

/// Packets add up over the bundles, and one bundle has its own.
pub proof fn law_packets_add_up(
    a: Seq<ImmutableDeserializedBundle>,
    b: Seq<ImmutableDeserializedBundle>,
    bundle: ImmutableDeserializedBundle,
)
    ensures
        packet_count(a + b) == packet_count(a) + packet_count(b),
        packet_count(seq![bundle]) == bundle.packets@.len(),
        packet_count(Seq::empty()) == 0,
    decreases b.len(),
{
    reveal_with_fuel(packet_count, 2);
    assert(seq![bundle].drop_last() =~= Seq::empty());
    assert(seq![bundle].last() == bundle);
    if b.len() == 0 {
        assert(a + b =~= a);
    } else {
        law_packets_add_up(a, b.drop_last(), bundle);
        assert((a + b).drop_last() =~= a + b.drop_last());
    }
}

/// A deque takes a thousand bundles at most: of those that are offered the first ones that fit go in,
/// behind the others in their order, or in front of them with the last one foremost. What was there
/// stays, in its order.
pub proof fn law_first_bundles_that_fit_go_in(
    deque: Seq<ImmutableDeserializedBundle>,
    bundles: Seq<ImmutableDeserializedBundle>,
)
    requires
        deque.len() <= 1000,
    ensures
        ({
            let behind = with_inserted(deque, bundles, true);
            let in_front = with_inserted(deque, bundles, false);
            let n = if deque.len() + bundles.len() <= 1000 {
                bundles.len() as int
            } else {
                1000 - deque.len()
            };
            &&& behind.len() == deque.len() + n
            &&& in_front.len() == deque.len() + n
            &&& forall|i: int| 0 <= i < deque.len() ==> #[trigger] behind[i] == deque[i]
            &&& forall|i: int|
                0 <= i < n ==> behind[deque.len() + i] == #[trigger] bundles[i] && in_front[n - 1 - i]
                    == bundles[i]
            &&& forall|i: int| 0 <= i < deque.len() ==> in_front[n + i] == #[trigger] deque[i]
        }),
{
}

/// What is said of bundles that were put in: how many went in and how many did not, and how many
/// packets those have.
pub proof fn law_insertion_is_summed_up(
    deque: Seq<ImmutableDeserializedBundle>,
    bundles: Seq<ImmutableDeserializedBundle>,
    summary: InsertPacketBundlesSummary,
)
    requires
        deque.len() <= 1000,
        insertion_summary(deque, bundles, summary),
    ensures
        ({
            let n = if deque.len() + bundles.len() <= 1000 {
                bundles.len() as int
            } else {
                1000 - deque.len()
            };
            &&& summary.num_bundles_inserted == n
            &&& summary.num_bundles_dropped == bundles.len() - n
            &&& summary.num_packets_inserted == packet_count(bundles.take(n))
            &&& summary.insert_packets_summary
                matches InsertPacketBatchSummary::PacketBatchInsertionMetrics(metrics)
                && metrics.num_dropped_packets == packet_count(bundles.skip(n))
        }),
{
}

/// Which results keep a bundle. Where the slot or the bank's time is over, it is tried first in the
/// next one. Where it does not fit into the block or took too long, it is kept for the next slot. After
/// any other result, and once it was executed, it is dropped.
pub proof fn law_results_decide_what_is_kept(result: Result<(), BundleExecutionError>)
    ensures
        match result {
            Ok(_) => !is_retried_first(result) && !is_kept_for_next_slot(result),
            Err(BundleExecutionError::PohRecordError) => is_retried_first(result)
                && !is_kept_for_next_slot(result),
            Err(BundleExecutionError::BankProcessingTimeLimitReached) => is_retried_first(result)
                && !is_kept_for_next_slot(result),
            Err(BundleExecutionError::ExceedsCostModel) => !is_retried_first(result)
                && is_kept_for_next_slot(result),
            Err(BundleExecutionError::TransactionFailure(error)) => !is_retried_first(result) && (
            is_kept_for_next_slot(result) <==> error
                == LoadAndExecuteBundleError::ProcessingTimeExceeded),
            Err(BundleExecutionError::TipError) => !is_retried_first(result)
                && !is_kept_for_next_slot(result),
            Err(BundleExecutionError::LockError) => !is_retried_first(result)
                && !is_kept_for_next_slot(result),
            Err(BundleExecutionError::FrontRun) => !is_retried_first(result)
                && !is_kept_for_next_slot(result),
        },
{
}

/// The bundles of a kind come from the places with results of that kind, in ascending order.
proof fn lemma_places_where(
    bundles: Seq<(ImmutableDeserializedBundle, SanitizedBundle)>,
    results: Seq<Result<(), BundleExecutionError>>,
    kind: spec_fn(Result<(), BundleExecutionError>) -> bool,
    n: int,
) -> (places: Seq<int>)
    requires
        0 <= n <= bundles.len(),
    ensures
        places.len() == bundles_where(bundles, results, kind, n).len(),
        forall|k: int|
            0 <= k < places.len() ==> 0 <= #[trigger] places[k] < n && kind(results[places[k]])
                && bundles_where(bundles, results, kind, n)[k] == bundles[places[k]].0,
        forall|k: int, m: int|
            0 <= k < m < places.len() ==> #[trigger] places[k] < #[trigger] places[m],
        forall|p: int| 0 <= p < n && kind(#[trigger] results[p]) ==> places.contains(p),
    decreases n,
{
    if n == 0 {
        Seq::empty()
    } else {
        let before = lemma_places_where(bundles, results, kind, n - 1);
        let places = if kind(results[n - 1]) {
            before.push(n - 1)
        } else {
            before
        };
        assert forall|p: int| 0 <= p < n && kind(#[trigger] results[p]) implies places.contains(p) by {
            if p < n - 1 {
                let k = choose|k: int| 0 <= k < before.len() && before[k] == p;
                assert(places[k] == p);
            } else {
                assert(places[before.len() as int] == p);
            }
        }
        places
    }
}

/// The bundles that sanitize come from the places with an answer, in ascending order.
proof fn lemma_pair_places(
    bundles: Seq<ImmutableDeserializedBundle>,
    answers: Seq<Option<SanitizedBundle>>,
) -> (places: Seq<int>)
    requires
        answers.len() == bundles.len(),
    ensures
        places.len() == pairs(bundles, answers).len(),
        places.len() <= bundles.len(),
        forall|k: int|
            0 <= k < places.len() ==> 0 <= #[trigger] places[k] < bundles.len()
                && answers[places[k]] == Some(pairs(bundles, answers)[k].1) && bundles[places[k]]
                == pairs(bundles, answers)[k].0,
        forall|k: int, m: int|
            0 <= k < m < places.len() ==> #[trigger] places[k] < #[trigger] places[m],
        forall|p: int|
            0 <= p < bundles.len() && (#[trigger] answers[p]) is Some ==> places.contains(p),
    decreases bundles.len(),
{
    if bundles.len() == 0 {
        Seq::empty()
    } else {
        let last = bundles.len() - 1;
        let before = lemma_pair_places(bundles.drop_last(), answers.drop_last());
        let places = if answers[last] is Some {
            before.push(last)
        } else {
            before
        };
        assert forall|k: int| 0 <= k < places.len() implies 0 <= #[trigger] places[k] < bundles.len()
            && answers[places[k]] == Some(pairs(bundles, answers)[k].1) && bundles[places[k]]
            == pairs(bundles, answers)[k].0 by {
            if k < before.len() {
                assert(places[k] == before[k]);
                assert(answers.drop_last()[before[k]] == answers[before[k]]);
            }
        }
        assert forall|p: int| 0 <= p < bundles.len() && (
        #[trigger] answers[p]) is Some implies places.contains(p) by {
            if p < last {
                assert(answers.drop_last()[p] == answers[p]);
                let k = choose|k: int| 0 <= k < before.len() && before[k] == p;
                assert(places[k] == p);
            } else {
                assert(places[before.len() as int] == p);
            }
        }
        places
    }
}

/// The places in another order.
proof fn lemma_places_in_order(places: Seq<int>, order: Seq<int>) -> (ordered: Seq<int>)
    ensures
        ordered.len() == order.len(),
        forall|k: int| 0 <= k < order.len() ==> #[trigger] ordered[k] == places[order[k]],
{
    Seq::new(order.len(), |k: int| places[order[k]])
}

/// A priority is a number that fits.
proof fn lemma_priority_fits(
    bundle: ImmutableDeserializedBundle,
    sanitized: SanitizedBundle,
    tip_accounts: Seq<Pubkey>,
)
    ensures
        0 <= bundle_priority(bundle, sanitized, tip_accounts) <= u64::MAX,
{
    law_priority_is_payment_over_cost(bundle, sanitized, tip_accounts);
    lemma_totals(sanitized.transactions@, sanitized.transactions@.len() as int);
    lemma_total_tips(bundle.packets@, tip_accounts, bundle.packets@.len() as int);
    let priority = bundle_priority(bundle, sanitized, tip_accounts);
    let cost = total_cost(sanitized.transactions@);
    let divisor = if cost == 0 {
        1
    } else {
        cost
    };
    assert(divisor >= 1);
    let scaled = if 1_000_000 * (total_reward(sanitized.transactions@) + total_tips(
        bundle.packets@,
        tip_accounts,
    )) <= 0xffff_ffff_ffff_ffff {
        1_000_000 * (total_reward(sanitized.transactions@) + total_tips(
            bundle.packets@,
            tip_accounts,
        ))
    } else {
        0xffff_ffff_ffff_ffff
    };
    assert(0 <= priority <= 0xffff_ffff_ffff_ffff) by (nonlinear_arith)
        requires
            divisor >= 1,
            0 <= scaled <= 0xffff_ffff_ffff_ffff,
            priority * divisor <= scaled < (priority + 1) * divisor,
    ;
}

/// What came back when the bundles of a slot were processed.
proof fn lemma_processed<
    S: FnMut(&ImmutableDeserializedBundle, &Vec<Pubkey>) -> Option<SanitizedBundle>,
    F: FnMut(&Vec<(ImmutableDeserializedBundle, SanitizedBundle)>) -> Vec<
        Result<(), BundleExecutionError>,
    >,
>(
    before: BundleStorage,
    slot: u64,
    sanitize: S,
    blacklisted_accounts: Vec<Pubkey>,
    tip_accounts: Seq<Pubkey>,
    processing_function: F,
    calls: BundleCalls,
    metrics: BundleSanitizeMetrics,
    after: BundleStorage,
    is_slot_over: bool,
    calls_after: BundleCalls,
    metrics_after: BundleSanitizeMetrics,
) -> (answers: Seq<Option<SanitizedBundle>>)
    requires
        before.wf(),
        before.processes(
            slot,
            sanitize,
            blacklisted_accounts,
            tip_accounts,
            processing_function,
            calls,
            metrics,
            &after,
            is_slot_over,
            calls_after,
            metrics_after,
        ),
    ensures
        ({
            let bundles = calls_after.executed.last().0;
            let results = calls_after.executed.last().1;
            let sanitized = pairs(before.candidates(slot), answers);
            &&& bundles_sanitized_by(
                sanitize,
                blacklisted_accounts,
                before.candidates(slot),
                answers,
            )
            &&& sorted_by_priority(priority_keys(sanitized, tip_accounts), sanitized, bundles@)
            &&& call_ensures(processing_function, (&bundles,), results)
            &&& after.unprocessed() == last_fitting(0, retried_first(bundles@, results@))
            &&& after.buffered() == with_inserted(
                before.buffered_after_drain(slot),
                kept_for_next_slot(bundles@, results@),
                true,
            )
            &&& is_slot_over == (retried_first(bundles@, results@).len() > 0)
            &&& calls_after.sanitized == calls.sanitized + crate::bundle_storage::bundle_sanitizings(
                blacklisted_accounts,
                before.candidates(slot),
                answers,
            )
            &&& calls_after.executed == calls.executed.push((bundles, results))
            &&& metrics_after.counted(
                metrics,
                before.candidates(slot).len() as int,
                sanitized.len() as int,
            )
        }),
{
    let (answers, bundles, results) = choose|
        answers: Seq<Option<SanitizedBundle>>,
        bundles: Vec<(ImmutableDeserializedBundle, SanitizedBundle)>,
        results: Vec<Result<(), BundleExecutionError>>,
    |
        {
            let sanitized = pairs(before.candidates(slot), answers);
            &&& #[trigger] bundles_sanitized_by(
                sanitize,
                blacklisted_accounts,
                before.candidates(slot),
                answers,
            )
            &&& sorted_by_priority(priority_keys(sanitized, tip_accounts), sanitized, bundles@)
            &&& #[trigger] call_ensures(processing_function, (&bundles,), results)
            &&& after.unprocessed() == last_fitting(0, retried_first(bundles@, results@))
            &&& after.buffered() == with_inserted(
                before.buffered_after_drain(slot),
                kept_for_next_slot(bundles@, results@),
                true,
            )
            &&& is_slot_over == (retried_first(bundles@, results@).len() > 0)
            &&& calls_after == (BundleCalls {
                sanitized: calls.sanitized + crate::bundle_storage::bundle_sanitizings(
                    blacklisted_accounts,
                    before.candidates(slot),
                    answers,
                ),
                executed: calls.executed.push((bundles, results)),
            })
            &&& metrics_after.counted(
                metrics,
                before.candidates(slot).len() as int,
                sanitized.len() as int,
            )
        };
    assert(calls_after.executed.last() == (bundles, results));
    answers
}

/// Which bundles are tried in a slot: in a new one those that were kept before those that wait, and
/// otherwise those that wait. Each is sanitized once, in order, with the accounts that it may not use.
/// What sanitizes is given to the processing function once, together, and is counted.
pub proof fn law_bundles_of_a_slot_are_tried<
    S: FnMut(&ImmutableDeserializedBundle, &Vec<Pubkey>) -> Option<SanitizedBundle>,
    F: FnMut(&Vec<(ImmutableDeserializedBundle, SanitizedBundle)>) -> Vec<
        Result<(), BundleExecutionError>,
    >,
>(
    before: BundleStorage,
    slot: u64,
    sanitize: S,
    blacklisted_accounts: Vec<Pubkey>,
    tip_accounts: Seq<Pubkey>,
    processing_function: F,
    calls: BundleCalls,
    metrics: BundleSanitizeMetrics,
    after: BundleStorage,
    is_slot_over: bool,
    calls_after: BundleCalls,
    metrics_after: BundleSanitizeMetrics,
)
    requires
        before.wf(),
        before.processes(
            slot,
            sanitize,
            blacklisted_accounts,
            tip_accounts,
            processing_function,
            calls,
            metrics,
            &after,
            is_slot_over,
            calls_after,
            metrics_after,
        ),
    ensures
        after.last_update_slot == slot,
        ({
            let first = if slot != before.last_update_slot {
                before.cost_model_buffered_bundle_storage@
            } else {
                Seq::empty()
            };
            let waiting = before.unprocessed_bundle_storage@;
            let asked = calls_after.sanitized.skip(calls.sanitized.len() as int);
            let bundles = calls_after.executed.last().0;
            &&& calls_after.sanitized.take(calls.sanitized.len() as int) == calls.sanitized
            &&& asked.len() == first.len() + waiting.len()
            &&& forall|i: int| 0 <= i < first.len() ==> (#[trigger] asked[i]).0 == first[i]
            &&& forall|i: int|
                0 <= i < waiting.len() ==> asked[first.len() + i].0 == #[trigger] waiting[i]
            &&& forall|i: int|
                #![trigger asked[i]]
                0 <= i < asked.len() ==> asked[i].1 == blacklisted_accounts && call_ensures(
                    sanitize,
                    (&asked[i].0, &blacklisted_accounts),
                    asked[i].2,
                )
            &&& calls_after.executed.len() == calls.executed.len() + 1
            &&& calls_after.executed.drop_last() == calls.executed
            &&& call_ensures(
                processing_function,
                (&bundles,),
                calls_after.executed.last().1,
            )
            &&& metrics.num_sanitized_ok + bundles@.len() <= u64::MAX
                ==> metrics_after.num_sanitized_ok == metrics.num_sanitized_ok + bundles@.len()
            &&& metrics.num_sanitize_failed + asked.len() <= u64::MAX
                ==> metrics_after.num_sanitize_failed == metrics.num_sanitize_failed + (asked.len()
                - bundles@.len())
        }),
{
    let answers = lemma_processed(
        before,
        slot,
        sanitize,
        blacklisted_accounts,
        tip_accounts,
        processing_function,
        calls,
        metrics,
        after,
        is_slot_over,
        calls_after,
        metrics_after,
    );
    let candidates = before.candidates(slot);
    let asked = calls_after.sanitized.skip(calls.sanitized.len() as int);
    assert(asked =~= crate::bundle_storage::bundle_sanitizings(
        blacklisted_accounts,
        candidates,
        answers,
    ));
    assert(calls_after.sanitized.take(calls.sanitized.len() as int) =~= calls.sanitized);
    assert(calls_after.executed.drop_last() =~= calls.executed);
    let bundles = calls_after.executed.last().0;
    let sanitized = pairs(candidates, answers);
    let places = lemma_pair_places(candidates, answers);
    let order = law_sorted_pays_more_first(
        priority_keys(sanitized, tip_accounts),
        sanitized,
        bundles@,
    );
    assert forall|i: int| #![trigger asked[i]] 0 <= i < asked.len() implies asked[i].1
        == blacklisted_accounts && call_ensures(
        sanitize,
        (&asked[i].0, &blacklisted_accounts),
        asked[i].2,
    ) by {
        assert(call_ensures(sanitize, (&candidates[i], &blacklisted_accounts), answers[i]));
    }
}

/// The first bundle pays more, or pays as much and was to be sanitized earlier.
spec fn goes_first(
    bundle: (ImmutableDeserializedBundle, SanitizedBundle),
    place: int,
    other: (ImmutableDeserializedBundle, SanitizedBundle),
    other_place: int,
    tip_accounts: Seq<Pubkey>,
) -> bool {
    let priority = bundle_priority(bundle.0, bundle.1, tip_accounts);
    let other_priority = bundle_priority(other.0, other.1, tip_accounts);
    priority > other_priority || (priority == other_priority && place < other_place)
}

/// The order in which the bundles of a slot are executed.
proof fn lemma_execution_order<
    S: FnMut(&ImmutableDeserializedBundle, &Vec<Pubkey>) -> Option<SanitizedBundle>,
    F: FnMut(&Vec<(ImmutableDeserializedBundle, SanitizedBundle)>) -> Vec<
        Result<(), BundleExecutionError>,
    >,
>(
    before: BundleStorage,
    slot: u64,
    sanitize: S,
    blacklisted_accounts: Vec<Pubkey>,
    tip_accounts: Seq<Pubkey>,
    processing_function: F,
    calls: BundleCalls,
    metrics: BundleSanitizeMetrics,
    after: BundleStorage,
    is_slot_over: bool,
    calls_after: BundleCalls,
    metrics_after: BundleSanitizeMetrics,
) -> (executed: Seq<int>)
    requires
        before.wf(),
        before.processes(
            slot,
            sanitize,
            blacklisted_accounts,
            tip_accounts,
            processing_function,
            calls,
            metrics,
            &after,
            is_slot_over,
            calls_after,
            metrics_after,
        ),
    ensures
        executed.len() == calls_after.executed.last().0@.len(),
        executed.no_duplicates(),
        forall|k: int|
            0 <= k < executed.len() ==> {
                let p = #[trigger] executed[k];
                let asked = calls_after.sanitized[calls.sanitized.len() + p];
                let bundle = calls_after.executed.last().0@[k];
                &&& 0 <= p < calls_after.sanitized.len() - calls.sanitized.len()
                &&& asked.0 == bundle.0
                &&& asked.2 == Some(bundle.1)
            },
        forall|p: int|
            calls.sanitized.len() <= p < calls_after.sanitized.len() && (
            #[trigger] calls_after.sanitized[p]).2 is Some ==> executed.contains(
                p - calls.sanitized.len(),
            ),
        forall|k: int, m: int|
            0 <= k < m < executed.len() ==> goes_first(
                calls_after.executed.last().0@[k],
                #[trigger] executed[k],
                calls_after.executed.last().0@[m],
                #[trigger] executed[m],
                tip_accounts,
            ),
{
    let answers = lemma_processed(
        before,
        slot,
        sanitize,
        blacklisted_accounts,
        tip_accounts,
        processing_function,
        calls,
        metrics,
        after,
        is_slot_over,
        calls_after,
        metrics_after,
    );
    let candidates = before.candidates(slot);
    let asked = calls_after.sanitized.skip(calls.sanitized.len() as int);
    assert(asked =~= crate::bundle_storage::bundle_sanitizings(
        blacklisted_accounts,
        candidates,
        answers,
    ));
    let bundles = calls_after.executed.last().0;
    let sanitized = pairs(candidates, answers);
    let keys = priority_keys(sanitized, tip_accounts);
    let places = lemma_pair_places(candidates, answers);
    let order = law_sorted_pays_more_first(keys, sanitized, bundles@);
    let executed = lemma_places_in_order(places, order);
    assert forall|k: int| 0 <= k < bundles@.len() implies {
        let p = #[trigger] executed[k];
        &&& 0 <= p < asked.len()
        &&& asked[p].0 == bundles@[k].0
        &&& asked[p].2 == Some(bundles@[k].1)
    } by {
        assert(bundles@[k] == sanitized[order[k]]);
        assert(0 <= places[order[k]] < candidates.len());
    }
    assert forall|k: int, m: int| 0 <= k < executed.len() && 0 <= m < executed.len() && k
        != m implies executed[k] != executed[m] by {
        assert(order[k] != order[m]);
        if order[k] < order[m] {
            assert(places[order[k]] < places[order[m]]);
        } else {
            assert(places[order[m]] < places[order[k]]);
        }
    }
    assert forall|p: int| 0 <= p < asked.len() && (
    #[trigger] asked[p]).2 is Some implies executed.contains(p) by {
        assert(answers[p] is Some);
        assert(places.contains(p));
        let x = choose|x: int| 0 <= x < places.len() && places[x] == p;
        assert(order.contains(x));
        let k = choose|k: int| 0 <= k < order.len() && order[k] == x;
        assert(executed[k] == p);
    }
    assert forall|p: int|
        calls.sanitized.len() <= p < calls_after.sanitized.len() && (
        #[trigger] calls_after.sanitized[p]).2 is Some implies executed.contains(
        p - calls.sanitized.len(),
    ) by {
        assert(asked[p - calls.sanitized.len()] == calls_after.sanitized[p]);
    }
    assert forall|k: int| 0 <= k < executed.len() implies asked[#[trigger] executed[k]]
        == calls_after.sanitized[calls.sanitized.len() + executed[k]] by {}
    assert forall|k: int, m: int| 0 <= k < m < executed.len() implies goes_first(
        calls_after.executed.last().0@[k],
        #[trigger] executed[k],
        calls_after.executed.last().0@[m],
        #[trigger] executed[m],
        tip_accounts,
    ) by {
        let a = order[k];
        let b = order[m];
        assert(bundles@[k] == sanitized[a] && bundles@[m] == sanitized[b]);
        lemma_priority_fits(bundles@[k].0, bundles@[k].1, tip_accounts);
        lemma_priority_fits(bundles@[m].0, bundles@[m].1, tip_accounts);
        let earlier = bundle_priority(bundles@[k].0, bundles@[k].1, tip_accounts);
        let later = bundle_priority(bundles@[m].0, bundles@[m].1, tip_accounts);
        assert(keys[a].priority == earlier);
        assert(keys[b].priority == later);
        assert(keys[a].priority > keys[b].priority || (keys[a].priority == keys[b].priority
            && keys[a].sequence < keys[b].sequence));
        if keys[a].sequence < keys[b].sequence {
            assert(keys[a].sequence == a + 1);
            assert(keys[b].sequence == b + 1);
            assert(a < b);
            assert(places[a] < places[b]);
            assert(executed[k] < executed[m]);
        }
    }
    executed
}

/// The order of execution: just the bundles that sanitize are executed, each once. What pays more comes
/// first, and of what pays alike that which was to be sanitized first. Gives for each bundle that is
/// executed its place among those that were to be sanitized.
pub proof fn law_better_paying_bundles_are_executed_first<
    S: FnMut(&ImmutableDeserializedBundle, &Vec<Pubkey>) -> Option<SanitizedBundle>,
    F: FnMut(&Vec<(ImmutableDeserializedBundle, SanitizedBundle)>) -> Vec<
        Result<(), BundleExecutionError>,
    >,
>(
    before: BundleStorage,
    slot: u64,
    sanitize: S,
    blacklisted_accounts: Vec<Pubkey>,
    tip_accounts: Seq<Pubkey>,
    processing_function: F,
    calls: BundleCalls,
    metrics: BundleSanitizeMetrics,
    after: BundleStorage,
    is_slot_over: bool,
    calls_after: BundleCalls,
    metrics_after: BundleSanitizeMetrics,
) -> (executed: Seq<int>)
    requires
        before.wf(),
        before.processes(
            slot,
            sanitize,
            blacklisted_accounts,
            tip_accounts,
            processing_function,
            calls,
            metrics,
            &after,
            is_slot_over,
            calls_after,
            metrics_after,
        ),
    ensures
        executed.len() == calls_after.executed.last().0@.len(),
        executed.no_duplicates(),
        forall|k: int|
            0 <= k < executed.len() ==> {
                let p = #[trigger] executed[k];
                let asked = calls_after.sanitized[calls.sanitized.len() + p];
                let bundle = calls_after.executed.last().0@[k];
                &&& 0 <= p < calls_after.sanitized.len() - calls.sanitized.len()
                &&& asked.0 == bundle.0
                &&& asked.2 == Some(bundle.1)
            },
        forall|p: int|
            calls.sanitized.len() <= p < calls_after.sanitized.len() && (
            #[trigger] calls_after.sanitized[p]).2 is Some ==> executed.contains(
                p - calls.sanitized.len(),
            ),
        forall|k: int, m: int|
            0 <= k < m < executed.len() ==> {
                let bundle = #[trigger] calls_after.executed.last().0@[k];
                let other = #[trigger] calls_after.executed.last().0@[m];
                let earlier = bundle_priority(bundle.0, bundle.1, tip_accounts);
                let later = bundle_priority(other.0, other.1, tip_accounts);
                earlier > later || (earlier == later && executed[k] < executed[m])
            },
{
    let executed = lemma_execution_order(
        before,
        slot,
        sanitize,
        blacklisted_accounts,
        tip_accounts,
        processing_function,
        calls,
        metrics,
        after,
        is_slot_over,
        calls_after,
        metrics_after,
    );
    assert forall|k: int, m: int| 0 <= k < m < executed.len() implies {
        let bundle = #[trigger] calls_after.executed.last().0@[k];
        let other = #[trigger] calls_after.executed.last().0@[m];
        let earlier = bundle_priority(bundle.0, bundle.1, tip_accounts);
        let later = bundle_priority(other.0, other.1, tip_accounts);
        earlier > later || (earlier == later && executed[k] < executed[m])
    } by {
        assert(goes_first(
            calls_after.executed.last().0@[k],
            executed[k],
            calls_after.executed.last().0@[m],
            executed[m],
            tip_accounts,
        ));
    }
    executed
}

/// What comes back to the front: the bundles whose results say that the slot or the bank's time is over,
/// in the order of execution. Of more than a thousand the last thousand do. The slot is over just where
/// there is one. Gives their places among the executed ones.
pub proof fn law_retried_bundles_come_back_in_order<
    S: FnMut(&ImmutableDeserializedBundle, &Vec<Pubkey>) -> Option<SanitizedBundle>,
    F: FnMut(&Vec<(ImmutableDeserializedBundle, SanitizedBundle)>) -> Vec<
        Result<(), BundleExecutionError>,
    >,
>(
    before: BundleStorage,
    slot: u64,
    sanitize: S,
    blacklisted_accounts: Vec<Pubkey>,
    tip_accounts: Seq<Pubkey>,
    processing_function: F,
    calls: BundleCalls,
    metrics: BundleSanitizeMetrics,
    after: BundleStorage,
    is_slot_over: bool,
    calls_after: BundleCalls,
    metrics_after: BundleSanitizeMetrics,
) -> (retried: Seq<int>)
    requires
        before.wf(),
        before.processes(
            slot,
            sanitize,
            blacklisted_accounts,
            tip_accounts,
            processing_function,
            calls,
            metrics,
            &after,
            is_slot_over,
            calls_after,
            metrics_after,
        ),
    ensures
        ({
            let bundles = calls_after.executed.last().0;
            let results = calls_after.executed.last().1;
            &&& forall|k: int|
                0 <= k < retried.len() ==> {
                    let p = #[trigger] retried[k];
                    &&& 0 <= p < bundles@.len() && p < results@.len()
                    &&& is_retried_first(results@[p])
                }
            &&& forall|p: int|
                0 <= p < bundles@.len() && p < results@.len() && is_retried_first(
                    #[trigger] results@[p],
                ) ==> retried.contains(p)
            &&& forall|k: int, m: int|
                0 <= k < m < retried.len() ==> #[trigger] retried[k] < #[trigger] retried[m]
            &&& is_slot_over <==> retried.len() > 0
        }),
        retried.len() <= 1000 ==> after.unprocessed_bundle_storage@.len() == retried.len(),
        forall|k: int|
            0 <= k < retried.len() <= 1000 ==> after.unprocessed_bundle_storage@[k]
                == calls_after.executed.last().0@[#[trigger] retried[k]].0,
        retried.len() > 1000 ==> after.unprocessed_bundle_storage@.len() == 1000,
        forall|k: int|
            retried.len() - 1000 <= k < retried.len() && retried.len() > 1000
                ==> after.unprocessed_bundle_storage@[k - (retried.len() - 1000)]
                == calls_after.executed.last().0@[#[trigger] retried[k]].0,
{
    let answers = lemma_processed(
        before,
        slot,
        sanitize,
        blacklisted_accounts,
        tip_accounts,
        processing_function,
        calls,
        metrics,
        after,
        is_slot_over,
        calls_after,
        metrics_after,
    );
    let bundles = calls_after.executed.last().0;
    let results = calls_after.executed.last().1;
    let retried = lemma_places_where(
        bundles@,
        results@,
        |result: Result<(), BundleExecutionError>| is_retried_first(result),
        answered(bundles@, results@),
    );
    let all = retried_first(bundles@, results@);
    if retried.len() <= 1000 {
        assert(after.unprocessed() =~= all);
    }
    retried
}

/// What is kept for the next slot: behind what was kept already in this one, the bundles whose results
/// say that they did not fit, in the order of execution, as many as there is room for among a
/// thousand. In a new slot nothing was kept already. Gives their places among the executed ones.
pub proof fn law_kept_bundles_stand_behind_the_others<
    S: FnMut(&ImmutableDeserializedBundle, &Vec<Pubkey>) -> Option<SanitizedBundle>,
    F: FnMut(&Vec<(ImmutableDeserializedBundle, SanitizedBundle)>) -> Vec<
        Result<(), BundleExecutionError>,
    >,
>(
    before: BundleStorage,
    slot: u64,
    sanitize: S,
    blacklisted_accounts: Vec<Pubkey>,
    tip_accounts: Seq<Pubkey>,
    processing_function: F,
    calls: BundleCalls,
    metrics: BundleSanitizeMetrics,
    after: BundleStorage,
    is_slot_over: bool,
    calls_after: BundleCalls,
    metrics_after: BundleSanitizeMetrics,
) -> (kept: Seq<int>)
    requires
        before.wf(),
        before.processes(
            slot,
            sanitize,
            blacklisted_accounts,
            tip_accounts,
            processing_function,
            calls,
            metrics,
            &after,
            is_slot_over,
            calls_after,
            metrics_after,
        ),
    ensures
        ({
            let bundles = calls_after.executed.last().0;
            let results = calls_after.executed.last().1;
            let kept_before = if slot != before.last_update_slot {
                Seq::empty()
            } else {
                before.cost_model_buffered_bundle_storage@
            };
            let kept_after = after.cost_model_buffered_bundle_storage@;
            let room = 1000 - kept_before.len();
            &&& forall|k: int|
                0 <= k < kept.len() ==> {
                    let p = #[trigger] kept[k];
                    &&& 0 <= p < bundles@.len() && p < results@.len()
                    &&& is_kept_for_next_slot(results@[p])
                }
            &&& forall|p: int|
                0 <= p < bundles@.len() && p < results@.len() && is_kept_for_next_slot(
                    #[trigger] results@[p],
                ) ==> kept.contains(p)
            &&& forall|k: int, m: int|
                0 <= k < m < kept.len() ==> #[trigger] kept[k] < #[trigger] kept[m]
            &&& kept_after.len() == kept_before.len() + if room < kept.len() {
                room
            } else {
                kept.len() as int
            }
            &&& forall|i: int|
                0 <= i < kept_before.len() ==> #[trigger] kept_after[i] == kept_before[i]
            &&& forall|k: int|
                0 <= k < kept.len() && k < room ==> kept_after[kept_before.len() + k]
                    == bundles@[#[trigger] kept[k]].0
        }),
{
    let answers = lemma_processed(
        before,
        slot,
        sanitize,
        blacklisted_accounts,
        tip_accounts,
        processing_function,
        calls,
        metrics,
        after,
        is_slot_over,
        calls_after,
        metrics_after,
    );
    let bundles = calls_after.executed.last().0;
    let results = calls_after.executed.last().1;
    lemma_places_where(
        bundles@,
        results@,
        |result: Result<(), BundleExecutionError>| is_kept_for_next_slot(result),
        answered(bundles@, results@),
    )
}

/// A call that processes bundles gives them to the processing function once, keeps those whose results say
/// so, and says that the slot is over just where a result says so.
pub proof fn law_call_executes_bundles_once<
    S: FnMut(&ImmutableDeserializedBundle, &Vec<Pubkey>) -> Option<SanitizedBundle>,
    F: FnMut(&Vec<(ImmutableDeserializedBundle, SanitizedBundle)>) -> Vec<
        Result<(), BundleExecutionError>,
    >,
>(
    storage: &mut BundleStorage,
    slot: u64,
    sanitize: &mut PairInquiry<
        ImmutableDeserializedBundle,
        Vec<Pubkey>,
        Option<SanitizedBundle>,
        S,
    >,
    blacklisted_accounts: &Vec<Pubkey>,
    tip_accounts: &Vec<Pubkey>,
    processing_function: &mut Inquiry<
        Vec<(ImmutableDeserializedBundle, SanitizedBundle)>,
        Vec<Result<(), BundleExecutionError>>,
        F,
    >,
    metrics: &mut BundleSanitizeMetrics,
    is_slot_over: bool,
    k: int,
)
    requires
        call_ensures(
            BundleStorage::process_bundles::<S, F>,
            (
                storage,
                slot,
                sanitize,
                blacklisted_accounts,
                tip_accounts,
                processing_function,
                metrics,
            ),
            is_slot_over,
        ),
        old(storage).wf(),
    ensures
        final(storage).last_update_slot == slot,
        final(processing_function).log().len() == old(processing_function).log().len() + 1,
        final(sanitize).log().len() == old(sanitize).log().len()
            + old(storage).unprocessed_bundle_storage@.len() + if slot
            != old(storage).last_update_slot {
            old(storage).cost_model_buffered_bundle_storage@.len()
        } else {
            0
        },
        ({
            let bundles = final(processing_function).log().last().0;
            let results = final(processing_function).log().last().1;
            &&& 0 <= k < bundles@.len() && k < results@.len() && (results@[k] == Err::<
                (),
                BundleExecutionError,
            >(BundleExecutionError::PohRecordError) || results@[k] == Err::<
                (),
                BundleExecutionError,
            >(BundleExecutionError::BankProcessingTimeLimitReached)) ==> is_slot_over && (
            bundles@.len() <= 1000 ==> final(storage).unprocessed_bundle_storage@.contains(
                bundles@[k].0,
            ))
            &&& (forall|m: int|
                0 <= m < bundles@.len() && m < results@.len() ==> #[trigger] results@[m] is Ok)
                ==> !is_slot_over && final(storage).unprocessed_bundle_storage@.len() == 0
        }),
{
    let calls = crate::bundle_storage::bundle_calls(old(sanitize), old(processing_function));
    let calls_after = crate::bundle_storage::bundle_calls(
        final(sanitize),
        final(processing_function),
    );
    law_bundles_of_a_slot_are_tried(
        *old(storage),
        slot,
        old(sanitize).function(),
        *blacklisted_accounts,
        tip_accounts@,
        old(processing_function).function(),
        calls,
        *old(metrics),
        *final(storage),
        is_slot_over,
        calls_after,
        *final(metrics),
    );
    let retried = law_retried_bundles_come_back_in_order(
        *old(storage),
        slot,
        old(sanitize).function(),
        *blacklisted_accounts,
        tip_accounts@,
        old(processing_function).function(),
        calls,
        *old(metrics),
        *final(storage),
        is_slot_over,
        calls_after,
        *final(metrics),
    );
    let bundles = final(processing_function).log().last().0;
    let results = final(processing_function).log().last().1;
    lemma_ascending_len(retried, bundles@.len() as int);
    if 0 <= k < bundles@.len() && k < results@.len() && is_retried_first(results@[k]) {
        assert(retried.contains(k));
        let i = choose|i: int| 0 <= i < retried.len() && retried[i] == k;
        if bundles@.len() <= 1000 {
            assert(final(storage).unprocessed_bundle_storage@[i] == bundles@[k].0);
        }
    }
    if forall|m: int|
        0 <= m < bundles@.len() && m < results@.len() ==> #[trigger] results@[m] is Ok {
        if retried.len() > 0 {
            let p = retried[0];
            assert(results@[p] is Ok);
        }
    }
}

/// There are no more ascending places below a bound than the bound.
proof fn lemma_ascending_len(places: Seq<int>, bound: int)
    requires
        bound >= 0,
        forall|i: int| 0 <= i < places.len() ==> 0 <= #[trigger] places[i] < bound,
        forall|i: int, j: int|
            0 <= i < j < places.len() ==> #[trigger] places[i] < #[trigger] places[j],
    ensures
        places.len() <= bound,
    decreases places.len(),
{
    if places.len() > 0 {
        let front = places.drop_last();
        let last = places.len() - 1;
        assert forall|i: int| 0 <= i < front.len() implies 0 <= #[trigger] front[i] < places[last] by {
            assert(places[i] < places[last]);
        }
        assert forall|i: int, j: int| 0 <= i < j < front.len() implies #[trigger] front[i]
            < #[trigger] front[j] by {
            assert(places[i] < places[j]);
        }
        lemma_ascending_len(front, places[last]);
    }
}

} // verus!
