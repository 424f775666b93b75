//! What holds of every chunk of a forwarding pass, in terms of what the services were asked and
//! answered.

use vstd::prelude::*;

use crate::forwarding::{
    chunk_count, chunk_forwarded, chunk_of, forward_run, forward_start, forward_step, not_forwarded,
    offers, outcome_of, ForwardCalls, ForwardOutcome, ForwardState,
};
use crate::key_lists::{
    dropped_runs, hash_in_runs, lemma_dropped_runs, lemma_queue_to_list, list_matches,
};
use crate::keys::MessageHash;
use crate::metrics::FilterForwardingResults;
use crate::packet::{spec_hash_of, PacketKey, SharedPacket};
use crate::packet_queue::{descending, key_le};
use crate::retention::{
    in_gaps, lemma_present_values, lemma_true_places, pick, present, present_values, true_places,
};
use crate::services::{BatchCheck, Inquiry, PairInquiry};
use crate::thread_local_packets::ThreadLocalUnprocessedPackets;
use crate::unprocessed_packet_batches::{
    has_hash, is_stored, packets_of, was_forwarded, Stored,
};

verus! {

/// What passes a filter comes from places of the list, in ascending order, and from all of those at
/// which the condition holds.
pub proof fn law_filter_keeps_the_order<A>(items: Seq<A>, pred: spec_fn(A) -> bool) -> (places: Seq<int>)
    ensures
        places.len() == items.filter(pred).len(),
        forall|k: int|
            0 <= k < places.len() ==> 0 <= #[trigger] places[k] < items.len() && pred(
                items[places[k]],
            ) && items.filter(pred)[k] == items[places[k]],
        forall|k: int, m: int|
            0 <= k < m < places.len() ==> #[trigger] places[k] < #[trigger] places[m],
        forall|p: int|
            0 <= p < items.len() && pred(#[trigger] items[p]) ==> places.contains(p),
    decreases items.len(),
{
    reveal(Seq::filter);
    if items.len() == 0 {
        Seq::empty()
    } else {
        let front = items.drop_last();
        let last = items.len() - 1;
        let before = law_filter_keeps_the_order(front, pred);
        let places = if pred(items[last]) {
            before.push(last)
        } else {
            before
        };
        assert forall|p: int| 0 <= p < items.len() && pred(
            #[trigger] items[p],
        ) implies places.contains(p) by {
            if p < last {
                assert(front[p] == items[p]);
                let k = choose|k: int| 0 <= k < before.len() && before[k] == p;
                assert(places[k] == p);
            } else {
                assert(places[before.len() as int] == p);
            }
        }
        places
    }
}

/// The results that are there are those at the places where one is.
pub proof fn law_present_values_come_from_their_places<T>(results: Seq<Option<T>>)
    requires
        results.len() <= usize::MAX,
    ensures
        present_values(results).len() == true_places(present(results)).len(),
        forall|k: int|
            0 <= k < present_values(results).len() ==> {
                let place = #[trigger] true_places(present(results))[k] as int;
                0 <= place < results.len() && results[place] == Some(present_values(results)[k])
            },
        forall|p: int|
            0 <= p < results.len() && (#[trigger] results[p]) is Some ==> true_places(
                present(results),
            ).contains(p as usize),
    decreases results.len(),
{
    lemma_present_values(results);
    lemma_true_places(present(results));
    assert forall|p: int| 0 <= p < results.len() && (
    #[trigger] results[p]) is Some implies true_places(present(results)).contains(p as usize) by {
        assert(present(results)[p]);
    }
    if results.len() > 0 {
        let front = results.drop_last();
        law_present_values_come_from_their_places(front);
        assert(present(results).drop_last() =~= present(front));
        assert forall|k: int| 0 <= k < present_values(results).len() implies {
            let place = #[trigger] true_places(present(results))[k] as int;
            0 <= place < results.len() && results[place] == Some(present_values(results)[k])
        } by {
            if k < present_values(front).len() {
                assert(true_places(present(results))[k] == true_places(present(front))[k]);
            }
        }
    }
}

/// The chunks of a list are its runs of sixty-four, one behind the other, and the last one is what is
/// left: every place of the list is in just one of them.
pub proof fn law_chunks_cover_the_list(keys: Seq<PacketKey>, p: int)
    requires
        0 <= p < keys.len(),
    ensures
        0 <= p / 64 < chunk_count(keys),
        p % 64 < chunk_of(keys, p / 64).len() <= 64,
        chunk_of(keys, p / 64)[p % 64] == keys[p],
        p / 64 < chunk_count(keys) - 1 ==> chunk_of(keys, p / 64).len() == 64,
        chunk_of(keys, p / 64).len() == if 64 * (p / 64) + 64 <= keys.len() {
            64
        } else {
            keys.len() - 64 * (p / 64)
        },
        64 * (chunk_count(keys) - 1) < keys.len() <= 64 * chunk_count(keys),
{
}

/// Where a chunk's packets are looked at: the places of the chunk at which a packet was not forwarded
/// yet; the places among those at which it sanitizes; and the transactions among those that are valid.
pub struct LookedAt {
    pub fresh: Seq<int>,
    pub sanitized: Seq<usize>,
    pub valid: Seq<usize>,
}

/// What the services are asked about a chunk while the forward buffer takes packets. Each packet that
/// was not forwarded yet is sanitized, once, in order. The transactions that come of it are checked
/// together, with an offset of two slots. The valid ones are offered with their packets, in order, up
/// to and with the first that is refused. The forward buffer takes more where none is refused.
pub proof fn law_chunk_is_offered_in_order<
    T,
    S: FnMut(&SharedPacket) -> Option<T>,
    C: FnMut(&Vec<T>, u64) -> Vec<bool>,
    A: FnMut(&T, &SharedPacket) -> bool,
>(
    sanitize: S,
    check: C,
    try_add: A,
    before: ForwardState<T>,
    chunk: Seq<PacketKey>,
    outcome: ForwardOutcome<T>,
) -> (looked_at: LookedAt)
    requires
        before.accepting,
        chunk.len() <= usize::MAX,
        outcome_of(
            sanitize,
            check,
            try_add,
            packets_of(before.stored, not_forwarded(before.stored, chunk)),
            outcome,
        ),
        forall|txs: &Vec<T>, valid: Vec<bool>|
            call_ensures(check, (txs, 2u64), valid) ==> valid@.len() <= txs@.len(),
    ensures
        looked_at == looks_at(looked_at.fresh, outcome),
        not_forwarded(before.stored, chunk) == Seq::new(
            looked_at.fresh.len(),
            |k: int| chunk[looked_at.fresh[k]],
        ),
        ({
            let after = forward_step(before, chunk, outcome);
            let fresh = looked_at.fresh;
            let sanitizings = after.calls.sanitized.skip(before.calls.sanitized.len() as int);
            let checked = after.calls.checked.last();
            let offered = after.calls.offered.skip(before.calls.offered.len() as int);
            // The packets that are looked at.
            &&& forall|k: int|
                0 <= k < fresh.len() ==> 0 <= #[trigger] fresh[k] < chunk.len() && {
                    let hash = MessageHash { hi: chunk[fresh[k]].1, lo: chunk[fresh[k]].2 };
                    before.stored.contains_key(hash) && !before.stored[hash].forwarded
                }
            &&& forall|k: int, m: int|
                0 <= k < m < fresh.len() ==> #[trigger] fresh[k] < #[trigger] fresh[m]
            &&& forall|p: int|
                0 <= p < chunk.len() ==> {
                    let hash = MessageHash { hi: (#[trigger] chunk[p]).1, lo: chunk[p].2 };
                    before.stored.contains_key(hash) && !before.stored[hash].forwarded
                        ==> fresh.contains(p)
                }
            // Sanitizing.
            &&& after.calls.sanitized.take(before.calls.sanitized.len() as int)
                == before.calls.sanitized
            &&& sanitizings.len() == fresh.len()
            &&& forall|k: int|
                #![trigger sanitizings[k]]
                0 <= k < fresh.len() ==> {
                    let packet = before.stored[spec_hash_of(chunk[fresh[k]])].immutable_section;
                    sanitizings[k].0 == packet && call_ensures(
                        sanitize,
                        (&packet,),
                        sanitizings[k].1,
                    )
                }
            // The check.
            &&& after.calls.checked.len() == before.calls.checked.len() + 1
            &&& after.calls.checked.drop_last() == before.calls.checked
            &&& checked.1 == 2
            &&& checked.0.len() == looked_at.sanitized.len()
            &&& forall|k: int|
                #![trigger looked_at.sanitized[k]]
                0 <= k < checked.0.len() ==> 0 <= looked_at.sanitized[k] < fresh.len()
                    && sanitizings[looked_at.sanitized[k] as int].1 == Some(checked.0[k])
            &&& forall|k: int, m: int|
                0 <= k < m < checked.0.len() ==> #[trigger] looked_at.sanitized[k]
                    < #[trigger] looked_at.sanitized[m]
            &&& forall|k: int|
                0 <= k < fresh.len() && (#[trigger] sanitizings[k]).1 is Some
                    ==> looked_at.sanitized.contains(k as usize)
            // The valid ones.
            &&& forall|m: int|
                0 <= m < looked_at.valid.len() ==> {
                    let k = #[trigger] looked_at.valid[m] as int;
                    0 <= k < checked.2.len() <= checked.0.len() && checked.2[k]
                }
            &&& forall|m: int, o: int|
                0 <= m < o < looked_at.valid.len() ==> #[trigger] looked_at.valid[m]
                    < #[trigger] looked_at.valid[o]
            &&& forall|k: int|
                0 <= k < checked.2.len() && #[trigger] checked.2[k] ==> looked_at.valid.contains(
                    k as usize,
                )
            // The offers.
            &&& after.calls.offered.take(before.calls.offered.len() as int)
                == before.calls.offered
            &&& offered.len() <= looked_at.valid.len()
            &&& forall|m: int|
                #![trigger offered[m]]
                0 <= m < offered.len() ==> {
                    let k = looked_at.valid[m] as int;
                    let packet = sanitizings[looked_at.sanitized[k] as int].0;
                    &&& offered[m].0 == checked.0[k]
                    &&& offered[m].1 == packet
                    &&& call_ensures(try_add, (&checked.0[k], &packet), offered[m].2)
                    &&& !offered[m].2 ==> m == offered.len() - 1
                }
            &&& after.accepting <==> forall|m: int|
                0 <= m < offered.len() ==> (#[trigger] offered[m]).2
            &&& after.accepting ==> offered.len() == looked_at.valid.len()
            &&& outcome.accepted == if after.accepting {
                offered.len() as int
            } else {
                offered.len() - 1
            }
        }),
{
    let todo = not_forwarded(before.stored, chunk);
    let packets = packets_of(before.stored, todo);
    let after = forward_step(before, chunk, outcome);
    let fresh = law_filter_keeps_the_order(
        chunk,
        |key: PacketKey| !was_forwarded(before.stored, key),
    );
    chunk.lemma_filter_len(|key: PacketKey| !was_forwarded(before.stored, key));
    law_present_values_come_from_their_places(outcome.sanitized);
    lemma_true_places(present(outcome.sanitized));
    let (asked, answer) = choose|asked: Vec<T>, answer: Vec<bool>|
        asked@ == outcome.transactions() && answer@ == outcome.valid && #[trigger] call_ensures(
            check,
            (&asked, crate::ages::forwarding_offset()),
            answer,
        );
    assert(answer@.len() <= asked@.len());
    lemma_true_places(outcome.valid);
    let n = before.calls.sanitized.len() as int;
    let sanitizings = after.calls.sanitized.skip(n);
    assert(sanitizings =~= crate::forwarding::sanitizings(packets, outcome.sanitized));
    assert(after.calls.sanitized.take(n) =~= before.calls.sanitized);
    assert(after.calls.checked.drop_last() =~= before.calls.checked);
    let o = before.calls.offered.len() as int;
    let offered = after.calls.offered.skip(o);
    assert(offered =~= offers(
        packets,
        outcome.transactions(),
        outcome.transaction_places(),
        outcome.forwardable(),
        outcome.accepted,
    ));
    assert(after.calls.offered.take(o) =~= before.calls.offered);
    assert forall|k: int| 0 <= k < fresh.len() implies #[trigger] packets[k]
        == before.stored[spec_hash_of(chunk[fresh[k]])].immutable_section by {
        assert(todo[k] == chunk[fresh[k]]);
    }
    assert forall|k: int| #![trigger sanitizings[k]] 0 <= k < fresh.len() implies {
        let packet = before.stored[spec_hash_of(chunk[fresh[k]])].immutable_section;
        sanitizings[k].0 == packet && call_ensures(sanitize, (&packet,), sanitizings[k].1)
    } by {
        assert(packets[k] == before.stored[spec_hash_of(chunk[fresh[k]])].immutable_section);
        assert(call_ensures(sanitize, (&packets[k],), outcome.sanitized[k]));
    }
    if !after.accepting {
        assert(!offered[offered.len() - 1].2);
    }
    LookedAt { fresh, sanitized: outcome.transaction_places(), valid: outcome.forwardable() }
}

/// The places that are looked at, for the given ones at which a packet was not forwarded yet.
pub open spec fn looks_at<T>(fresh: Seq<int>, outcome: ForwardOutcome<T>) -> LookedAt {
    LookedAt { fresh, sanitized: outcome.transaction_places(), valid: outcome.forwardable() }
}

/// The places that are looked at are in order, and as many packets were taken as the answers say.
proof fn lemma_looked_at<
    T,
    S: FnMut(&SharedPacket) -> Option<T>,
    C: FnMut(&Vec<T>, u64) -> Vec<bool>,
    A: FnMut(&T, &SharedPacket) -> bool,
>(
    sanitize: S,
    check: C,
    try_add: A,
    before: ForwardState<T>,
    chunk: Seq<PacketKey>,
    outcome: ForwardOutcome<T>,
) -> (looked_at: LookedAt)
    requires
        before.accepting,
        chunk.len() <= usize::MAX,
        outcome_of(
            sanitize,
            check,
            try_add,
            packets_of(before.stored, not_forwarded(before.stored, chunk)),
            outcome,
        ),
        forall|txs: &Vec<T>, valid: Vec<bool>|
            call_ensures(check, (txs, 2u64), valid) ==> valid@.len() <= txs@.len(),
    ensures
        looked_at == looks_at(looked_at.fresh, outcome),
        not_forwarded(before.stored, chunk) == Seq::new(
            looked_at.fresh.len(),
            |k: int| chunk[looked_at.fresh[k]],
        ),
        looked_at.fresh.len() <= usize::MAX,
        forall|k: int|
            0 <= k < looked_at.fresh.len() ==> 0 <= #[trigger] looked_at.fresh[k] < chunk.len(),
        forall|k: int, m: int|
            0 <= k < m < looked_at.fresh.len() ==> #[trigger] looked_at.fresh[k]
                < #[trigger] looked_at.fresh[m],
        forall|k: int|
            0 <= k < looked_at.sanitized.len() ==> #[trigger] looked_at.sanitized[k]
                < looked_at.fresh.len(),
        crate::retention::ascending(looked_at.sanitized),
        forall|m: int|
            0 <= m < looked_at.valid.len() ==> #[trigger] looked_at.valid[m]
                < looked_at.sanitized.len(),
        crate::retention::ascending(looked_at.valid),
        ({
            let after = forward_step(before, chunk, outcome);
            let offered = after.calls.offered.skip(before.calls.offered.len() as int);
            outcome.accepted == if after.accepting {
                offered.len() as int
            } else {
                offered.len() - 1
            }
        }),
        outcome.accepted <= looked_at.valid.len(),
{
    let looked_at = law_chunk_is_offered_in_order(
        sanitize,
        check,
        try_add,
        before,
        chunk,
        outcome,
    );
    chunk.lemma_filter_len(|key: PacketKey| !was_forwarded(before.stored, key));
    assert(not_forwarded(before.stored, chunk).len() == looked_at.fresh.len());
    lemma_true_places(present(outcome.sanitized));
    lemma_true_places(outcome.valid);
    looked_at
}

/// What becomes of a chunk while the forward buffer takes packets: of the packets that were not
/// forwarded yet those that sanitize and are valid stay, and count as forwarded just where they were
/// taken; the others leave. No other packet is touched.
#[verifier::spinoff_prover]
#[verifier::rlimit(40)]
pub proof fn law_valid_packets_stay_and_taken_ones_are_marked<
    T,
    S: FnMut(&SharedPacket) -> Option<T>,
    C: FnMut(&Vec<T>, u64) -> Vec<bool>,
    A: FnMut(&T, &SharedPacket) -> bool,
>(
    sanitize: S,
    check: C,
    try_add: A,
    before: ForwardState<T>,
    chunk: Seq<PacketKey>,
    outcome: ForwardOutcome<T>,
) -> (looked_at: LookedAt)
    requires
        before.accepting,
        chunk.len() <= usize::MAX,
        outcome_of(
            sanitize,
            check,
            try_add,
            packets_of(before.stored, not_forwarded(before.stored, chunk)),
            outcome,
        ),
        forall|txs: &Vec<T>, valid: Vec<bool>|
            call_ensures(check, (txs, 2u64), valid) ==> valid@.len() <= txs@.len(),
        forall|a: int, b: int|
            0 <= a < b < chunk.len() ==> (#[trigger] chunk[a]).1 != (#[trigger] chunk[b]).1 || chunk[a].2
                != chunk[b].2,
    ensures
        looked_at == looks_at(looked_at.fresh, outcome),
        ({
            let after = forward_step(before, chunk, outcome);
            let fresh = looked_at.fresh;
            let hash_at = |p: int| MessageHash { hi: chunk[p].1, lo: chunk[p].2 };
            let offered = after.calls.offered.skip(before.calls.offered.len() as int);
            let accepted = if after.accepting {
                offered.len() as int
            } else {
                offered.len() - 1
            };
            &&& forall|k: int| 0 <= k < fresh.len() ==> 0 <= #[trigger] fresh[k] < chunk.len()
            // A valid packet stays, and counts as forwarded where it was taken.
            &&& forall|m: int|
                #![trigger looked_at.valid[m]]
                0 <= m < looked_at.valid.len() ==> {
                    let hash = hash_at(fresh[looked_at.sanitized[looked_at.valid[m] as int] as int]);
                    before.stored.contains_key(hash) ==> after.stored.contains_key(hash) && (
                    after.stored[hash].forwarded <==> before.stored[hash].forwarded || m < accepted)
                }
            // Any other packet that was looked at leaves.
            &&& forall|k: int|
                #![trigger fresh[k]]
                0 <= k < fresh.len() && (forall|m: int|
                    0 <= m < looked_at.valid.len() ==> looked_at.sanitized[#[trigger] looked_at.valid[m] as int]
                        != k) ==> !after.stored.contains_key(hash_at(fresh[k]))
            // Everything else stays as it is.
            &&& forall|hash: MessageHash|
                #![trigger after.stored.contains_key(hash)]
                (forall|k: int| 0 <= k < fresh.len() ==> hash_at(#[trigger] fresh[k]) != hash) ==> (
                after.stored.contains_key(hash) <==> before.stored.contains_key(hash)) && (
                after.stored.contains_key(hash) ==> after.stored[hash] == before.stored[hash])
            &&& forall|hash: MessageHash| #[trigger]
                after.stored.contains_key(hash) ==> before.stored.contains_key(hash)
                    && after.stored[hash].immutable_section
                    == before.stored[hash].immutable_section
        }),
{
    let looked_at = lemma_looked_at(
        sanitize,
        check,
        try_add,
        before,
        chunk,
        outcome,
    );
    let fresh = looked_at.fresh;
    let todo = not_forwarded(before.stored, chunk);
    let after = forward_step(before, chunk, outcome);
    let retained = outcome.retained();
    let taken = pick(todo, outcome.taken());
    let runs = dropped_runs(todo, retained);
    let hash_at = |p: int| MessageHash { hi: chunk[p].1, lo: chunk[p].2 };
    crate::retention::lemma_pick_ascending(outcome.transaction_places(), outcome.forwardable());
    assert forall|i: int| 0 <= i < retained.len() implies #[trigger] retained[i] < todo.len() by {
        assert(retained[i] == looked_at.sanitized[looked_at.valid[i] as int]);
    }
    lemma_dropped_runs(todo, retained);
    assert forall|k: int| 0 <= k < todo.len() implies spec_hash_of(#[trigger] todo[k]) == hash_at(
        fresh[k],
    ) by {
        assert(todo[k] == chunk[fresh[k]]);
    }
    assert forall|k: int, m: int| 0 <= k < m < todo.len() implies hash_at(#[trigger] fresh[k])
        != hash_at(#[trigger] fresh[m]) by {
        assert(fresh[k] < fresh[m]);
        assert(chunk[fresh[k]].1 != chunk[fresh[m]].1 || chunk[fresh[k]].2 != chunk[fresh[m]].2);
    }
    assert forall|k: int| 0 <= k < todo.len() implies hash_in_runs(
        todo,
        runs,
        hash_at(#[trigger] fresh[k]),
    ) == !retained.contains(k as usize) by {
        assert(in_gaps(runs, k) <==> !retained.contains(k as usize));
        if hash_in_runs(todo, runs, hash_at(fresh[k])) {
            let x = choose|x: int|
                0 <= x < todo.len() && in_gaps(runs, x) && spec_hash_of(#[trigger] todo[x])
                    == hash_at(fresh[k]);
            assert(spec_hash_of(todo[x]) == hash_at(fresh[x]));
            if x < k {
                assert(hash_at(fresh[x]) != hash_at(fresh[k]));
            } else if k < x {
                assert(hash_at(fresh[k]) != hash_at(fresh[x]));
            }
        }
        assert(spec_hash_of(todo[k]) == hash_at(fresh[k]));
    }
    assert forall|m: int| #![trigger looked_at.valid[m]] 0 <= m < looked_at.valid.len() implies {
        let hash = hash_at(fresh[looked_at.sanitized[looked_at.valid[m] as int] as int]);
        before.stored.contains_key(hash) ==> after.stored.contains_key(hash) && (
        after.stored[hash].forwarded <==> before.stored[hash].forwarded || m < outcome.accepted)
    } by {
        let k = looked_at.sanitized[looked_at.valid[m] as int] as int;
        let hash = hash_at(fresh[k]);
        assert(retained[m] == k as usize);
        assert(retained.contains(k as usize));
        if m < outcome.accepted {
            assert(outcome.taken()[m] == retained[m]);
            assert(taken[m] == todo[k]);
            assert(has_hash(taken, hash));
        }
        if has_hash(taken, hash) {
            let x = choose|x: int| 0 <= x < taken.len() && spec_hash_of(#[trigger] taken[x]) == hash;
            assert(outcome.taken()[x] == retained[x]);
            assert(taken[x] == todo[retained[x] as int]);
            let y = retained[x] as int;
            assert(spec_hash_of(todo[y]) == hash_at(fresh[y]));
            if y < k {
                assert(hash_at(fresh[y]) != hash_at(fresh[k]));
            } else if k < y {
                assert(hash_at(fresh[k]) != hash_at(fresh[y]));
            }
            if x < m {
                assert(retained[x] < retained[m]);
            } else if m < x {
                assert(retained[m] < retained[x]);
            }
        }
    }
    assert forall|k: int|
        #![trigger fresh[k]]
        0 <= k < fresh.len() && (forall|m: int|
            0 <= m < looked_at.valid.len() ==> looked_at.sanitized[#[trigger] looked_at.valid[m] as int]
                != k) implies !after.stored.contains_key(hash_at(fresh[k])) by {
        if retained.contains(k as usize) {
            let m = choose|m: int| 0 <= m < retained.len() && retained[m] == k as usize;
            assert(looked_at.sanitized[looked_at.valid[m] as int] == k);
        }
    }
    assert forall|hash: MessageHash|
        #![trigger after.stored.contains_key(hash)]
        (forall|k: int| 0 <= k < fresh.len() ==> hash_at(#[trigger] fresh[k]) != hash) implies (
    after.stored.contains_key(hash) <==> before.stored.contains_key(hash)) && (
    after.stored.contains_key(hash) ==> after.stored[hash] == before.stored[hash]) by {
        if hash_in_runs(todo, runs, hash) {
            let x = choose|x: int|
                0 <= x < todo.len() && in_gaps(runs, x) && spec_hash_of(#[trigger] todo[x]) == hash;
            assert(hash_at(fresh[x]) == hash);
        }
        if has_hash(taken, hash) {
            let x = choose|x: int| 0 <= x < taken.len() && spec_hash_of(#[trigger] taken[x]) == hash;
            assert(outcome.taken()[x] == retained[x]);
            assert(taken[x] == todo[retained[x] as int]);
            assert(hash_at(fresh[retained[x] as int]) == hash);
        }
    }
    looked_at
}

/// What a chunk adds to the counts. While the forward buffer takes packets, the valid packets count as
/// forwardable, whether they were taken or not; and those count as dropped that got no answer from the
/// check, for want of a transaction or of an answer, and those that are valid and were not taken.
/// Afterwards all packets that were not forwarded yet count as dropped, and no other count changes.
pub proof fn law_chunk_is_counted<
    T,
    S: FnMut(&SharedPacket) -> Option<T>,
    C: FnMut(&Vec<T>, u64) -> Vec<bool>,
    A: FnMut(&T, &SharedPacket) -> bool,
>(
    sanitize: S,
    check: C,
    try_add: A,
    before: ForwardState<T>,
    chunk: Seq<PacketKey>,
    outcome: ForwardOutcome<T>,
) -> (looked_at: LookedAt)
    requires
        chunk.len() <= usize::MAX,
        before.accepting ==> outcome_of(
            sanitize,
            check,
            try_add,
            packets_of(before.stored, not_forwarded(before.stored, chunk)),
            outcome,
        ),
        forall|txs: &Vec<T>, valid: Vec<bool>|
            call_ensures(check, (txs, 2u64), valid) ==> valid@.len() <= txs@.len(),
        before.results.total_forwardable_packets + chunk.len() <= usize::MAX,
        before.results.total_dropped_packets + 2 * chunk.len() <= usize::MAX,
    ensures
        looked_at == looks_at(looked_at.fresh, outcome),
        ({
            let after = forward_step(before, chunk, outcome);
            let checked = after.calls.checked.last();
            let offered = after.calls.offered.skip(before.calls.offered.len() as int);
            let fresh = looked_at.fresh.len() as int;
            let refused = if after.accepting {
                0
            } else {
                looked_at.valid.len() - offered.len() + 1
            };
            &&& forall|k: int|
                0 <= k < fresh ==> 0 <= #[trigger] looked_at.fresh[k] < chunk.len() && {
                    let key = chunk[looked_at.fresh[k]];
                    let hash = MessageHash { hi: key.1, lo: key.2 };
                    before.stored.contains_key(hash) && !before.stored[hash].forwarded
                }
            &&& forall|k: int, m: int|
                0 <= k < m < fresh ==> #[trigger] looked_at.fresh[k] < #[trigger] looked_at.fresh[m]
            &&& forall|p: int|
                0 <= p < chunk.len() ==> {
                    let hash = MessageHash { hi: (#[trigger] chunk[p]).1, lo: chunk[p].2 };
                    before.stored.contains_key(hash) && !before.stored[hash].forwarded
                        ==> looked_at.fresh.contains(p)
                }
            &&& before.accepting ==> {
                &&& after.results.total_forwardable_packets
                    == before.results.total_forwardable_packets + looked_at.valid.len()
                &&& after.results.total_dropped_packets == before.results.total_dropped_packets + (
                fresh - checked.2.len()) + refused
            }
            &&& !before.accepting ==> {
                &&& after.results.total_forwardable_packets
                    == before.results.total_forwardable_packets
                &&& after.results.total_dropped_packets == before.results.total_dropped_packets
                    + fresh
                &&& after.results.total_packet_conversion_us
                    == before.results.total_packet_conversion_us
                &&& after.results.total_filter_packets_us == before.results.total_filter_packets_us
            }
            &&& after.results.total_packet_conversion_us
                >= before.results.total_packet_conversion_us
            &&& after.results.total_filter_packets_us >= before.results.total_filter_packets_us
        }),
{
    chunk.lemma_filter_len(|key: PacketKey| !was_forwarded(before.stored, key));
    if before.accepting {
        let looked_at = law_chunk_is_offered_in_order(
            sanitize,
            check,
            try_add,
            before,
            chunk,
            outcome,
        );
        lemma_present_values(outcome.sanitized);
        lemma_true_places(present(outcome.sanitized));
        lemma_true_places(outcome.valid);
        assert(not_forwarded(before.stored, chunk).len() == looked_at.fresh.len());
        looked_at
    } else {
        let fresh = law_filter_keeps_the_order(
            chunk,
            |key: PacketKey| !was_forwarded(before.stored, key),
        );
        looks_at(fresh, outcome)
    }
}

/// One of the first keys has the price.
spec fn has_price(keys: Seq<PacketKey>, bound: int, price: u64) -> bool {
    exists|p: int| 0 <= p < keys.len() && p < bound && (#[trigger] keys[p]).0 == price
}

/// The packets that a pass has looked at so far, in the order of their prices.
proof fn lemma_order_of_sanitizing<
    T,
    S: FnMut(&SharedPacket) -> Option<T>,
    C: FnMut(&Vec<T>, u64) -> Vec<bool>,
    A: FnMut(&T, &SharedPacket) -> bool,
>(
    sanitize: S,
    check: C,
    try_add: A,
    keys: Seq<PacketKey>,
    stored: Stored,
    calls: ForwardCalls<T>,
    states: Seq<ForwardState<T>>,
    outcomes: Seq<ForwardOutcome<T>>,
    n: int,
)
    requires
        list_matches(keys, stored),
        keys.len() <= usize::MAX,
        descending(keys),
        forall|txs: &Vec<T>, valid: Vec<bool>|
            call_ensures(check, (txs, 2u64), valid) ==> valid@.len() <= txs@.len(),
        forward_run(sanitize, check, try_add, keys, chunk_count(keys), states, outcomes),
        states.first() == forward_start(stored, calls),
        0 <= n <= chunk_count(keys),
    ensures
        calls.sanitized.len() <= states[n].calls.sanitized.len(),
        states[n].calls.sanitized.take(calls.sanitized.len() as int) == calls.sanitized,
        forall|i: int|
            calls.sanitized.len() <= i < states[n].calls.sanitized.len() ==> has_price(
                keys,
                64 * n,
                (#[trigger] states[n].calls.sanitized[i]).0.compute_unit_price,
            ),
        forall|i: int, j: int|
            calls.sanitized.len() <= i < j < states[n].calls.sanitized.len() ==> (
            #[trigger] states[n].calls.sanitized[i]).0.compute_unit_price >= (
            #[trigger] states[n].calls.sanitized[j]).0.compute_unit_price,
    decreases n,
{
    let from = calls.sanitized.len() as int;
    if n == 0 {
        assert(states[0].calls.sanitized.take(from) =~= calls.sanitized);
    } else {
        let c = n - 1;
        lemma_order_of_sanitizing(
            sanitize,
            check,
            try_add,
            keys,
            stored,
            calls,
            states,
            outcomes,
            c,
        );
        crate::forwarding::law_forwarding_invents_nothing(
            sanitize,
            check,
            try_add,
            keys,
            chunk_count(keys),
            states,
            outcomes,
            c,
        );
        let before = states[c];
        let after = states[n];
        let chunk = chunk_of(keys, c);
        assert(chunk_forwarded(sanitize, check, try_add, keys, states, outcomes, c));
        assert(64 * c < keys.len());
        let m = before.calls.sanitized.len() as int;
        if before.accepting {
            let looked_at = law_chunk_is_offered_in_order(
                sanitize,
                check,
                try_add,
                before,
                chunk,
                outcomes[c],
            );
            let fresh = looked_at.fresh;
            let sanitizings = after.calls.sanitized.skip(m);
            assert(after.calls.sanitized =~= before.calls.sanitized + sanitizings);
            assert(after.calls.sanitized.take(from) =~= calls.sanitized) by {
                assert(before.calls.sanitized.take(from) =~= calls.sanitized);
                assert(after.calls.sanitized.take(m) =~= before.calls.sanitized);
                assert(after.calls.sanitized.take(from) =~= after.calls.sanitized.take(m).take(from));
            }
            assert forall|k: int| 0 <= k < fresh.len() implies {
                &&& 0 <= 64 * c + #[trigger] fresh[k] < keys.len()
                &&& 64 * c + fresh[k] < 64 * n
                &&& sanitizings[k].0.compute_unit_price == keys[64 * c + fresh[k]].0
            } by {
                let p = 64 * c + fresh[k];
                let key = chunk[fresh[k]];
                assert(key == keys[p]);
                assert(keys.contains(key));
                assert(is_stored(stored, key));
                assert(sanitizings[k].0 == before.stored[spec_hash_of(key)].immutable_section);
                assert(before.stored.contains_key(spec_hash_of(key)));
            }
            assert forall|i: int|
                from <= i < after.calls.sanitized.len() implies has_price(
                keys,
                64 * n,
                (#[trigger] after.calls.sanitized[i]).0.compute_unit_price,
            ) by {
                if i < m {
                    assert(before.calls.sanitized[i] == after.calls.sanitized[i]);
                    let p = choose|p: int|
                        0 <= p < keys.len() && p < 64 * c && (#[trigger] keys[p]).0
                            == before.calls.sanitized[i].0.compute_unit_price;
                    assert(keys[p].0 == after.calls.sanitized[i].0.compute_unit_price);
                } else {
                    let k = i - m;
                    assert(sanitizings[k] == after.calls.sanitized[i]);
                    assert(keys[64 * c + fresh[k]].0
                        == after.calls.sanitized[i].0.compute_unit_price);
                }
            }
            assert forall|i: int, j: int|
                from <= i < j < after.calls.sanitized.len() implies (
            #[trigger] after.calls.sanitized[i]).0.compute_unit_price >= (
            #[trigger] after.calls.sanitized[j]).0.compute_unit_price by {
                if j < m {
                    assert(before.calls.sanitized[i] == after.calls.sanitized[i]);
                    assert(before.calls.sanitized[j] == after.calls.sanitized[j]);
                } else {
                    let y = j - m;
                    assert(sanitizings[y] == after.calls.sanitized[j]);
                    let q = 64 * c + fresh[y];
                    if i < m {
                        assert(before.calls.sanitized[i] == after.calls.sanitized[i]);
                        let p = choose|p: int|
                            0 <= p < keys.len() && p < 64 * c && (#[trigger] keys[p]).0
                                == before.calls.sanitized[i].0.compute_unit_price;
                        assert(key_le(keys[q], keys[p]));
                    } else {
                        let x = i - m;
                        assert(sanitizings[x] == after.calls.sanitized[i]);
                        assert(fresh[x] < fresh[y]);
                        let p = 64 * c + fresh[x];
                        assert(key_le(keys[q], keys[p]));
                    }
                }
            }
        } else {
            assert(after.calls == before.calls);
            assert forall|i: int|
                from <= i < after.calls.sanitized.len() implies has_price(
                keys,
                64 * n,
                (#[trigger] after.calls.sanitized[i]).0.compute_unit_price,
            ) by {
                assert(has_price(
                    keys,
                    64 * c,
                    before.calls.sanitized[i].0.compute_unit_price,
                ));
                let p = choose|p: int|
                    0 <= p < keys.len() && p < 64 * c && (#[trigger] keys[p]).0
                        == before.calls.sanitized[i].0.compute_unit_price;
                assert(keys[p].0 == after.calls.sanitized[i].0.compute_unit_price);
            }
        }
    }
}

/// A forwarding pass looks at the packets from the highest price down, and what is held after it was held
/// before, the same but for the flag.
pub proof fn law_call_looks_at_the_highest_price_first<
    T,
    S: FnMut(&SharedPacket) -> Option<T>,
    C: FnMut(&Vec<T>, u64) -> Vec<bool>,
    A: FnMut(&T, &SharedPacket) -> bool,
>(
    storage: &mut ThreadLocalUnprocessedPackets,
    sanitize: &mut Inquiry<SharedPacket, Option<T>, S>,
    check: &mut BatchCheck<T, u64, C>,
    try_add: &mut PairInquiry<T, SharedPacket, bool, A>,
    results: FilterForwardingResults,
    i: int,
    j: int,
    hash: MessageHash,
)
    requires
        call_ensures(
            ThreadLocalUnprocessedPackets::filter_forwardable_packets_and_add_batches::<T, S, C, A>,
            (storage, sanitize, check, try_add),
            results,
        ),
        old(storage).wf(),
        forall|txs: &Vec<T>, valid: Vec<bool>|
            call_ensures(old(check).function(), (txs, 2u64), valid) ==> valid@.len() <= txs@.len(),
    ensures
        old(sanitize).log().len() <= i < j < final(sanitize).log().len() ==> final(
            sanitize).log()[i].0.compute_unit_price >= final(sanitize).log()[j].0.compute_unit_price,
        old(sanitize).log().len() <= final(sanitize).log().len(),
        final(storage).stored().contains_key(hash) ==> old(storage).stored().contains_key(hash)
            && final(storage).stored()[hash].immutable_section
            == old(storage).stored()[hash].immutable_section && (
        old(storage).stored()[hash].forwarded ==> final(storage).stored()[hash].forwarded),
{
    let before = *old(storage);
    let calls = crate::forwarding::forward_calls(old(sanitize), old(check), old(try_add));
    let (keys, states, outcomes) = choose|
        keys: Seq<PacketKey>,
        states: Seq<ForwardState<T>>,
        outcomes: Seq<ForwardOutcome<T>>,
    |
        {
            &&& keys.to_multiset() == before.unprocessed_packet_batches.queued()
            &&& descending(keys)
            &&& #[trigger] forward_run(
                old(sanitize).function(),
                old(check).function(),
                old(try_add).function(),
                keys,
                chunk_count(keys),
                states,
                outcomes,
            )
            &&& states.first() == forward_start(before.stored(), calls)
            &&& states.last().stored == final(storage).stored()
            &&& states.last().results == results
            &&& states.last().calls == crate::forwarding::forward_calls(
                final(sanitize),
                final(check),
                final(try_add),
            )
        };
    before.unprocessed_packet_batches.lemma_wf();
    lemma_queue_to_list(keys, before.unprocessed_packet_batches.queued(), before.stored());
    keys.to_multiset_ensures();
    let n = chunk_count(keys);
    lemma_order_of_sanitizing(
        old(sanitize).function(),
        old(check).function(),
        old(try_add).function(),
        keys,
        before.stored(),
        calls,
        states,
        outcomes,
        n,
    );
    crate::forwarding::law_forwarding_invents_nothing(
        old(sanitize).function(),
        old(check).function(),
        old(try_add).function(),
        keys,
        n,
        states,
        outcomes,
        n,
    );
    assert(states.last() == states[n]);
    assert(states[n].calls.sanitized == final(sanitize).log());
    assert(calls.sanitized == old(sanitize).log());
}

/// The two times that a chunk took are added, each to its own count, while the forward buffer takes
/// packets. Afterwards no time is added.
pub proof fn law_chunk_is_timed<T>(
    before: ForwardState<T>,
    chunk: Seq<PacketKey>,
    outcome: ForwardOutcome<T>,
)
    requires
        before.results.total_packet_conversion_us + outcome.conversion_us <= u64::MAX,
        before.results.total_filter_packets_us + outcome.filter_us <= u64::MAX,
    ensures
        ({
            let results = before.results;
            let after = forward_step(before, chunk, outcome).results;
            &&& before.accepting ==> after.total_packet_conversion_us
                == results.total_packet_conversion_us + outcome.conversion_us
            &&& before.accepting ==> after.total_filter_packets_us
                == results.total_filter_packets_us + outcome.filter_us
            &&& !before.accepting ==> after.total_packet_conversion_us
                == results.total_packet_conversion_us
            &&& !before.accepting ==> after.total_filter_packets_us
                == results.total_filter_packets_us
        }),
{
}

} // verus!
