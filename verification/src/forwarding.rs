//! The pass that offers buffered packets to the forward buffer and drops the ones that are no
//! longer valid.

use vstd::multiset::Multiset;
use vstd::prelude::*;

use crate::ages::{forwarding_offset, forwarding_slot_offset};
use crate::key_lists::{
    dropped_runs, hash_in_runs, lemma_concat, lemma_distinct_hashes, lemma_dropped_runs, lemma_filter,
    lemma_list_to_queue, lemma_marked, lemma_queue_to_list, lemma_retain, list_matches, without_runs,
};
use crate::keys::MessageHash;
use crate::metrics::{capped_u64, capped_usize, FilterForwardingResults};
use crate::packet::{hash_of, spec_hash_of, PacketKey, SharedPacket};
use crate::packet_map::PacketMap;
use crate::packet_queue::descending;
use crate::retention::{
    ascending, filter_processed_packets, in_gaps, keep_present, lemma_pick_ascending,
    lemma_present_values, lemma_true_places, pick, places_of, present, present_values, true_places,
};
use crate::services::{BatchCheck, Inquiry, PairInquiry};
use crate::thread_local_packets::ThreadLocalUnprocessedPackets;
use crate::timing::{clock_reading, elapsed_us};
use crate::unprocessed_packet_batches::{
    all_held, has_hash, is_stored, marked, packets_of, was_forwarded, well_keyed, Stored,
};

verus! {

/// How many packets are worked on together: the largest number of transactions in an entry.
pub const UNPROCESSED_BUFFER_STEP_SIZE: usize = 64;

/// The packets of a chunk that were forwarded before.
pub open spec fn already_forwarded(stored: Stored, chunk: Seq<PacketKey>) -> Seq<PacketKey> {
    chunk.filter(|key: PacketKey| was_forwarded(stored, key))
}

/// The packets of a chunk that were not forwarded yet.
pub open spec fn not_forwarded(stored: Stored, chunk: Seq<PacketKey>) -> Seq<PacketKey> {
    chunk.filter(|key: PacketKey| !was_forwarded(stored, key))
}

/// Every call of the three services of a forwarding pass, in order.
pub struct ForwardCalls<T> {
    /// Each packet that was to be sanitized, and what came of it.
    pub sanitized: Seq<(SharedPacket, Option<T>)>,
    /// Each list of transactions that was to be checked, the number of slots that forwarding
    /// takes, and which of them are valid.
    pub checked: Seq<(Seq<T>, u64, Seq<bool>)>,
    /// Each packet that was offered to the forward buffer, and whether it was taken.
    pub offered: Seq<(T, SharedPacket, bool)>,
}

/// The calls that the three services record.
pub open spec fn forward_calls<
    T,
    S: FnMut(&SharedPacket) -> Option<T>,
    C: FnMut(&Vec<T>, u64) -> Vec<bool>,
    A: FnMut(&T, &SharedPacket) -> bool,
>(
    sanitize: &Inquiry<SharedPacket, Option<T>, S>,
    check: &BatchCheck<T, u64, C>,
    try_add: &PairInquiry<T, SharedPacket, bool, A>,
) -> ForwardCalls<T> {
    ForwardCalls {
        sanitized: sanitize.log(),
        checked: check.log(),
        offered: try_add.log(),
    }
}

/// Where a forwarding pass stands: the packets that are held, the keys that go back into the
/// queue, whether the forward buffer takes more, the counts so far and the calls so far.
pub struct ForwardState<T> {
    pub stored: Stored,
    pub requeued: Seq<PacketKey>,
    pub accepting: bool,
    pub results: FilterForwardingResults,
    pub calls: ForwardCalls<T>,
}

/// What came back for the packets of one chunk that were not forwarded yet: their transactions,
/// where they sanitize; which of those are still valid; how many of the valid ones the forward
/// buffer took; and how long the first two steps took.
pub struct ForwardOutcome<T> {
    pub sanitized: Seq<Option<T>>,
    pub conversion_us: u64,
    pub valid: Seq<bool>,
    pub filter_us: u64,
    pub accepted: nat,
}

impl<T> ForwardOutcome<T> {
    /// The transactions, in the order of their packets.
    pub open spec fn transactions(self) -> Seq<T> {
        present_values(self.sanitized)
    }

    /// For each transaction the place of its packet.
    pub open spec fn transaction_places(self) -> Seq<usize> {
        true_places(present(self.sanitized))
    }

    /// The valid transactions.
    pub open spec fn forwardable(self) -> Seq<usize> {
        true_places(self.valid)
    }

    /// The places of the packets whose transactions are valid.
    pub open spec fn retained(self) -> Seq<usize> {
        pick(self.transaction_places(), self.forwardable())
    }

    /// The places of the packets that the forward buffer took: the first of the valid ones.
    pub open spec fn taken(self) -> Seq<usize> {
        self.retained().take(self.accepted as int)
    }
}

/// The map after packets were offered: the ones that were taken are marked, and the ones that do
/// not sanitize or are not valid are gone.
pub open spec fn after_offer<T>(
    stored: Stored,
    todo: Seq<PacketKey>,
    outcome: ForwardOutcome<T>,
) -> Stored {
    without_runs(
        marked(stored, pick(todo, outcome.taken())),
        todo,
        dropped_runs(todo, outcome.retained()),
    )
}

/// The counts after packets were offered. What did not sanitize, got no answer, or was valid and
/// not taken is counted as dropped.
pub open spec fn counted<T>(
    results: FilterForwardingResults,
    todo: Seq<PacketKey>,
    outcome: ForwardOutcome<T>,
) -> FilterForwardingResults {
    let by_sanitizing = capped_usize(
        results.total_dropped_packets + (todo.len() - outcome.transactions().len()),
    );
    let by_checks = capped_usize(
        by_sanitizing + (outcome.transactions().len() - outcome.valid.len()),
    );
    FilterForwardingResults {
        total_forwardable_packets: capped_usize(
            results.total_forwardable_packets + outcome.forwardable().len(),
        ),
        total_dropped_packets: capped_usize(
            by_checks + (outcome.forwardable().len() - outcome.accepted),
        ),
        total_packet_conversion_us: capped_u64(
            results.total_packet_conversion_us + outcome.conversion_us,
        ),
        total_filter_packets_us: capped_u64(results.total_filter_packets_us + outcome.filter_us),
    }
}

/// Each packet is sanitized once.
pub open spec fn sanitizings<T>(
    packets: Seq<SharedPacket>,
    sanitized: Seq<Option<T>>,
) -> Seq<(SharedPacket, Option<T>)> {
    Seq::new(packets.len(), |i: int| (packets[i], sanitized[i]))
}

/// Each forwardable transaction is offered once, with its packet, up to and with the first that is
/// refused.
pub open spec fn offers<T>(
    packets: Seq<SharedPacket>,
    transactions: Seq<T>,
    places: Seq<usize>,
    forwardable: Seq<usize>,
    accepted: nat,
) -> Seq<(T, SharedPacket, bool)> {
    Seq::new(
        if accepted < forwardable.len() {
            accepted + 1
        } else {
            forwardable.len()
        },
        |i: int|
            (
                transactions[forwardable[i] as int],
                packets[places[forwardable[i] as int] as int],
                i < accepted,
            ),
    )
}

/// The calls after the packets of a chunk were offered.
pub open spec fn calls_after_offer<T>(
    calls: ForwardCalls<T>,
    packets: Seq<SharedPacket>,
    outcome: ForwardOutcome<T>,
) -> ForwardCalls<T> {
    ForwardCalls {
        sanitized: calls.sanitized + sanitizings(packets, outcome.sanitized),
        checked: calls.checked.push(
            (outcome.transactions(), forwarding_offset(), outcome.valid),
        ),
        offered: calls.offered + offers(
            packets,
            outcome.transactions(),
            outcome.transaction_places(),
            outcome.forwardable(),
            outcome.accepted,
        ),
    }
}

/// A chunk of the pass. Packets that were forwarded before stay. While the forward buffer takes
/// packets, the others stay where they are valid, marked as forwarded where they were taken, and
/// are dropped where they are not valid; once it has refused one, they all stay, and count as
/// dropped, and no service is called any more.
pub open spec fn forward_step<T>(
    before: ForwardState<T>,
    chunk: Seq<PacketKey>,
    outcome: ForwardOutcome<T>,
) -> ForwardState<T> {
    let kept = already_forwarded(before.stored, chunk);
    let todo = not_forwarded(before.stored, chunk);
    if before.accepting {
        ForwardState {
            stored: after_offer(before.stored, todo, outcome),
            requeued: before.requeued + kept + pick(todo, outcome.retained()),
            accepting: outcome.accepted == outcome.forwardable().len(),
            results: counted(before.results, todo, outcome),
            calls: calls_after_offer(before.calls, packets_of(before.stored, todo), outcome),
        }
    } else {
        ForwardState {
            stored: before.stored,
            requeued: before.requeued + kept + todo,
            accepting: false,
            results: FilterForwardingResults {
                total_dropped_packets: capped_usize(
                    before.results.total_dropped_packets + todo.len(),
                ),
                ..before.results
            },
            calls: before.calls,
        }
    }
}

/// The outcome is one that the three services can give for the packets.
pub open spec fn outcome_of<
    T,
    S: FnMut(&SharedPacket) -> Option<T>,
    C: FnMut(&Vec<T>, u64) -> Vec<bool>,
    A: FnMut(&T, &SharedPacket) -> bool,
>(
    sanitize: S,
    check: C,
    try_add: A,
    packets: Seq<SharedPacket>,
    outcome: ForwardOutcome<T>,
) -> bool {
    &&& sanitized_by(sanitize, packets, outcome.sanitized)
    &&& checked_by(check, outcome.transactions(), outcome.valid)
    &&& taken_by(
        try_add,
        packets,
        outcome.transactions(),
        outcome.transaction_places(),
        outcome.forwardable(),
        outcome.accepted,
    )
}

/// Each packet was given to `sanitize`, which gave back its transaction or nothing.
pub open spec fn sanitized_by<T, S: FnMut(&SharedPacket) -> Option<T>>(
    sanitize: S,
    packets: Seq<SharedPacket>,
    sanitized: Seq<Option<T>>,
) -> bool {
    &&& sanitized.len() == packets.len()
    &&& forall|i: int|
        0 <= i < packets.len() ==> call_ensures(sanitize, (&packets[i],), #[trigger] sanitized[i])
}

/// The transactions were given to `check`, which said which of them are valid.
pub open spec fn checked_by<T, C: FnMut(&Vec<T>, u64) -> Vec<bool>>(
    check: C,
    transactions: Seq<T>,
    valid: Seq<bool>,
) -> bool {
    exists|asked: Vec<T>, answer: Vec<bool>|
        asked@ == transactions && answer@ == valid && #[trigger] call_ensures(
            check,
            (&asked, forwarding_offset()),
            answer,
        )
}

/// The forwardable transactions were offered to `try_add` in order, up to the first that it
/// refused.
pub open spec fn taken_by<T, A: FnMut(&T, &SharedPacket) -> bool>(
    try_add: A,
    packets: Seq<SharedPacket>,
    transactions: Seq<T>,
    places: Seq<usize>,
    forwardable: Seq<usize>,
    accepted: nat,
) -> bool {
    &&& accepted <= forwardable.len()
    &&& forall|i: int|
        0 <= i < accepted ==> call_ensures(
            try_add,
            (
                &transactions[#[trigger] forwardable[i] as int],
                &packets[places[forwardable[i] as int] as int],
            ),
            true,
        )
    &&& accepted < forwardable.len() ==> call_ensures(
        try_add,
        (
            &transactions[forwardable[accepted as int] as int],
            &packets[places[forwardable[accepted as int] as int] as int],
        ),
        false,
    )
}

/// The `c`-th chunk of a list.
pub open spec fn chunk_of(keys: Seq<PacketKey>, c: int) -> Seq<PacketKey> {
    let start = c * UNPROCESSED_BUFFER_STEP_SIZE;
    let end = start + UNPROCESSED_BUFFER_STEP_SIZE;
    keys.subrange(
        start,
        if end < keys.len() {
            end
        } else {
            keys.len() as int
        },
    )
}

/// How many chunks a list has.
pub open spec fn chunk_count(keys: Seq<PacketKey>) -> int {
    (keys.len() + UNPROCESSED_BUFFER_STEP_SIZE - 1) / UNPROCESSED_BUFFER_STEP_SIZE as int
}

/// The pass came by the `c`-th chunk of the list.
pub open spec fn chunk_forwarded<
    T,
    S: FnMut(&SharedPacket) -> Option<T>,
    C: FnMut(&Vec<T>, u64) -> Vec<bool>,
    A: FnMut(&T, &SharedPacket) -> bool,
>(
    sanitize: S,
    check: C,
    try_add: A,
    keys: Seq<PacketKey>,
    states: Seq<ForwardState<T>>,
    outcomes: Seq<ForwardOutcome<T>>,
    c: int,
) -> bool {
    &&& states[c].accepting ==> outcome_of(
        sanitize,
        check,
        try_add,
        packets_of(states[c].stored, not_forwarded(states[c].stored, chunk_of(keys, c))),
        outcomes[c],
    )
    &&& states[c + 1] == forward_step(states[c], chunk_of(keys, c), outcomes[c])
}

/// A forwarding pass over the first chunks of the list.
pub open spec fn forward_run<
    T,
    S: FnMut(&SharedPacket) -> Option<T>,
    C: FnMut(&Vec<T>, u64) -> Vec<bool>,
    A: FnMut(&T, &SharedPacket) -> bool,
>(
    sanitize: S,
    check: C,
    try_add: A,
    keys: Seq<PacketKey>,
    count: int,
    states: Seq<ForwardState<T>>,
    outcomes: Seq<ForwardOutcome<T>>,
) -> bool {
    &&& states.len() == count + 1
    &&& outcomes.len() == count
    &&& forall|c: int|
        0 <= c < count ==> #[trigger] chunk_forwarded(
            sanitize,
            check,
            try_add,
            keys,
            states,
            outcomes,
            c,
        )
}

/// Where a forwarding pass starts.
pub open spec fn forward_start<T>(stored: Stored, calls: ForwardCalls<T>) -> ForwardState<T> {
    ForwardState {
        stored,
        requeued: Seq::empty(),
        accepting: true,
        results: FilterForwardingResults {
            total_forwardable_packets: 0,
            total_dropped_packets: 0,
            total_packet_conversion_us: 0,
            total_filter_packets_us: 0,
        },
        calls,
    }
}

/// The places of an outcome fit the packets that it is about.
proof fn lemma_outcome<T>(todo: Seq<PacketKey>, outcome: ForwardOutcome<T>)
    requires
        todo.len() <= usize::MAX,
        outcome.sanitized.len() == todo.len(),
        outcome.valid.len() <= outcome.transactions().len(),
    ensures
        outcome.transactions().len() <= todo.len(),
        outcome.transaction_places().len() == outcome.transactions().len(),
        ascending(outcome.transaction_places()),
        forall|i: int|
            0 <= i < outcome.transaction_places().len()
                ==> #[trigger] outcome.transaction_places()[i] < todo.len(),
        ascending(outcome.forwardable()),
        outcome.forwardable().len() <= outcome.valid.len(),
        forall|i: int|
            0 <= i < outcome.forwardable().len() ==> #[trigger] outcome.forwardable()[i]
                < outcome.transactions().len(),
        ascending(outcome.retained()),
        forall|i: int|
            0 <= i < outcome.retained().len() ==> #[trigger] outcome.retained()[i] < todo.len(),
{
    lemma_present_values(outcome.sanitized);
    lemma_true_places(present(outcome.sanitized));
    lemma_true_places(outcome.valid);
    lemma_pick_ascending(outcome.transaction_places(), outcome.forwardable());
    assert forall|i: int| 0 <= i < outcome.retained().len() implies #[trigger] outcome.retained()[i]
        < todo.len() by {
        assert(outcome.retained()[i]
            == outcome.transaction_places()[outcome.forwardable()[i] as int]);
    }
}

/// A chunk keeps the list of the keys that are requeued or still to come in step with the map.
proof fn lemma_forward_step<T>(
    before: ForwardState<T>,
    chunk: Seq<PacketKey>,
    rest: Seq<PacketKey>,
    outcome: ForwardOutcome<T>,
)
    requires
        list_matches(before.requeued + chunk + rest, before.stored),
        chunk.len() <= usize::MAX,
        before.accepting ==> outcome.sanitized.len() == not_forwarded(before.stored, chunk).len(),
        before.accepting ==> outcome.valid.len() <= outcome.transactions().len(),
    ensures
        list_matches(
            forward_step(before, chunk, outcome).requeued + rest,
            forward_step(before, chunk, outcome).stored,
        ),
        forward_step(before, chunk, outcome).stored.dom().subset_of(before.stored.dom()),
{
    let kept = already_forwarded(before.stored, chunk);
    let todo = not_forwarded(before.stored, chunk);
    let front = before.requeued + kept;
    let after = forward_step(before, chunk, outcome);
    chunk.lemma_filter_len(|key: PacketKey| !was_forwarded(before.stored, key));
    lemma_filter(chunk, |key: PacketKey| was_forwarded(before.stored, key));
    lemma_filter(chunk, |key: PacketKey| !was_forwarded(before.stored, key));
    lemma_concat(before.requeued + chunk, rest);
    lemma_concat(before.requeued, chunk);
    lemma_concat(front + todo, rest);
    lemma_concat(front, todo);
    lemma_concat(before.requeued, kept);
    let old_list = before.requeued + chunk + rest;
    let new_list = front + todo + rest;
    assert(list_matches(new_list, before.stored)) by {
        assert forall|x: PacketKey| !(#[trigger] before.requeued.contains(x) && kept.contains(x)) by {
            assert(!(before.requeued.contains(x) && chunk.contains(x)));
        }
        assert forall|x: PacketKey| !(#[trigger] front.contains(x) && todo.contains(x)) by {
            assert(!(before.requeued.contains(x) && chunk.contains(x)));
        }
        assert forall|x: PacketKey| !(#[trigger] (front + todo).contains(x) && rest.contains(x)) by {
            assert((front + todo).contains(x) ==> (before.requeued + chunk).contains(x));
        }
        assert forall|key: PacketKey| #[trigger] new_list.contains(key) <==> is_stored(
            before.stored,
            key,
        ) by {
            assert(old_list.contains(key) <==> is_stored(before.stored, key));
        }
    }
    if before.accepting {
        lemma_outcome(todo, outcome);
        let taken = pick(todo, outcome.taken());
        lemma_marked(before.stored, taken);
        assert forall|key: PacketKey| #[trigger] new_list.contains(key) <==> is_stored(
            marked(before.stored, taken),
            key,
        ) by {
            assert(is_stored(marked(before.stored, taken), key) == is_stored(before.stored, key));
        }
        lemma_retain(front, todo, rest, marked(before.stored, taken), outcome.retained());
    }
}

/// Enough chunks cover a list, and none of them is superfluous.
proof fn lemma_chunk_count(keys: Seq<PacketKey>, c: int)
    requires
        c >= 0,
        c * UNPROCESSED_BUFFER_STEP_SIZE >= keys.len(),
        c > 0 ==> (c - 1) * UNPROCESSED_BUFFER_STEP_SIZE < keys.len(),
    ensures
        c == chunk_count(keys),
{
}

/// An empty run drops nothing.
proof fn lemma_empty_run(
    stored: Stored,
    keys: Seq<PacketKey>,
    runs: Seq<(usize, usize)>,
    start: usize,
)
    ensures
        without_runs(stored, keys, runs.push((start, start))) == without_runs(stored, keys, runs),
{
    let more = runs.push((start, start));
    assert forall|place: int| #[trigger] in_gaps(more, place) <==> in_gaps(runs, place) by {
        if in_gaps(runs, place) {
            let g = choose|g: int|
                0 <= g < runs.len() && (#[trigger] runs[g]).0 <= place < runs[g].1;
            assert(more[g] == runs[g]);
        }
        if in_gaps(more, place) {
            let g = choose|g: int|
                0 <= g < more.len() && (#[trigger] more[g]).0 <= place < more[g].1;
            assert(more[g] == runs[g]);
        }
    }
    assert forall|hash: MessageHash| #[trigger]
        hash_in_runs(keys, more, hash) <==> hash_in_runs(keys, runs, hash) by {}
    assert(without_runs(stored, keys, more) =~= without_runs(stored, keys, runs));
}

/// A run that is longer by one place drops the packet at that place.
proof fn lemma_longer_run(
    stored: Stored,
    keys: Seq<PacketKey>,
    runs: Seq<(usize, usize)>,
    start: usize,
    end: usize,
)
    requires
        start <= end < keys.len(),
        end < usize::MAX,
    ensures
        without_runs(stored, keys, runs.push((start, (end + 1) as usize))) == without_runs(
            stored,
            keys,
            runs.push((start, end)),
        ).remove(spec_hash_of(keys[end as int])),
{
    let less = runs.push((start, end));
    let more = runs.push((start, (end + 1) as usize));
    assert forall|place: int| #[trigger] in_gaps(more, place) <==> in_gaps(less, place) || place
        == end by {
        if in_gaps(less, place) {
            let g = choose|g: int|
                0 <= g < less.len() && (#[trigger] less[g]).0 <= place < less[g].1;
            assert(more[g].0 <= place < more[g].1);
        }
        if in_gaps(more, place) {
            let g = choose|g: int|
                0 <= g < more.len() && (#[trigger] more[g]).0 <= place < more[g].1;
            if place != end {
                assert(less[g].0 <= place < less[g].1);
            }
        }
        assert(more[runs.len() as int] == (start, (end + 1) as usize));
    }
    assert forall|hash: MessageHash| #[trigger] hash_in_runs(keys, more, hash) <==> hash_in_runs(
        keys,
        less,
        hash,
    ) || hash == spec_hash_of(keys[end as int]) by {
        if hash_in_runs(keys, less, hash) {
            let place = choose|place: int|
                0 <= place < keys.len() && in_gaps(less, place) && spec_hash_of(
                    #[trigger] keys[place],
                ) == hash;
            assert(in_gaps(more, place));
        }
        assert(in_gaps(more, end as int));
    }
    assert(without_runs(stored, keys, more) =~= without_runs(stored, keys, less).remove(
        spec_hash_of(keys[end as int]),
    ));
}

impl ThreadLocalUnprocessedPackets {
    /// A forwarding pass leads to the other state.
    pub open spec fn forwards<
        T,
        S: FnMut(&SharedPacket) -> Option<T>,
        C: FnMut(&Vec<T>, u64) -> Vec<bool>,
        A: FnMut(&T, &SharedPacket) -> bool,
    >(
        &self,
        sanitize: S,
        check: C,
        try_add: A,
        calls: ForwardCalls<T>,
        after: &ThreadLocalUnprocessedPackets,
        results: FilterForwardingResults,
        calls_after: ForwardCalls<T>,
    ) -> bool {
        &&& after.same_rules(self)
        &&& exists|
            keys: Seq<PacketKey>,
            states: Seq<ForwardState<T>>,
            outcomes: Seq<ForwardOutcome<T>>,
        |
            {
                &&& keys.to_multiset() == self.unprocessed_packet_batches.queued()
                &&& descending(keys)
                &&& #[trigger] forward_run(
                    sanitize,
                    check,
                    try_add,
                    keys,
                    chunk_count(keys),
                    states,
                    outcomes,
                )
                &&& states.first() == forward_start(self.stored(), calls)
                &&& states.last().stored == after.stored()
                &&& states.last().results == results
                &&& states.last().calls == calls_after
            }
    }

    /// Drops the packets that do not sanitize or are no longer valid, and offers the valid ones
    /// that were not forwarded yet to the forward buffer, from the highest priority down and in
    /// chunks. What `sanitize` makes of a packet, `check` is asked about for the transactions of a
    /// chunk together, with the number of slots that forwarding takes, and `try_add` is offered
    /// until it refuses.
    pub fn filter_forwardable_packets_and_add_batches<
        T,
        S: FnMut(&SharedPacket) -> Option<T>,
        C: FnMut(&Vec<T>, u64) -> Vec<bool>,
        A: FnMut(&T, &SharedPacket) -> bool,
    >(
        &mut self,
        sanitize: &mut Inquiry<SharedPacket, Option<T>, S>,
        check: &mut BatchCheck<T, u64, C>,
        try_add: &mut PairInquiry<T, SharedPacket, bool, A>,
    ) -> (results: FilterForwardingResults)
        requires
            old(self).wf(),
            old(sanitize).takes_all(),
            forall|txs: &Vec<T>| call_requires(old(check).function(), (txs, forwarding_offset())),
            forall|txs: &Vec<T>, valid: Vec<bool>|
                call_ensures(old(check).function(), (txs, forwarding_offset()), valid)
                    ==> valid@.len() <= txs@.len(),
            old(try_add).takes_all(),
        ensures
            final(sanitize).function() == old(sanitize).function(),
            final(check).function() == old(check).function(),
            final(try_add).function() == old(try_add).function(),
            final(self).wf(),
            old(self).forwards(
                old(sanitize).function(),
                old(check).function(),
                old(try_add).function(),
                forward_calls(old(sanitize), old(check), old(try_add)),
                final(self),
                results,
                forward_calls(final(sanitize), final(check), final(try_add)),
            ),
    {
        let ghost sanitize0 = sanitize.function();
        let ghost check0 = check.function();
        let ghost try_add0 = try_add.function();
        let ghost calls = forward_calls(sanitize, check, try_add);
        let ghost limit = self.limit();
        let ghost original = self.stored();
        let ghost queue = self.unprocessed_packet_batches.queued();
        let mut results = FilterForwardingResults::default();
        proof {
            self.unprocessed_packet_batches.lemma_wf();
        }
        let keys = self.take_priority_queue();
        proof {
            lemma_queue_to_list(keys@, queue, original);
        }
        let mut requeued: Vec<PacketKey> = Vec::new();
        let mut accepting_packets = true;
        let ghost mut states: Seq<ForwardState<T>> = seq![forward_start(original, calls)];
        let ghost mut outcomes: Seq<ForwardOutcome<T>> = Seq::empty();
        let ghost mut c: int = 0;
        let mut start: usize = 0;
        assert(requeued@ + keys@ =~= keys@);
        assert(keys@.skip(0) =~= keys@);
        while start < keys.len()
            invariant
                start <= keys@.len(),
                c >= 0,
                start == (if c * UNPROCESSED_BUFFER_STEP_SIZE < keys@.len() {
                    c * UNPROCESSED_BUFFER_STEP_SIZE
                } else {
                    keys@.len() as int
                }),
                c > 0 ==> (c - 1) * UNPROCESSED_BUFFER_STEP_SIZE < keys@.len(),
                sanitize.function() == sanitize0,
                check.function() == check0,
                try_add.function() == try_add0,
                sanitize.takes_all(),
                try_add.takes_all(),
                forall|txs: &Vec<T>| call_requires(check0, (txs, forwarding_offset())),
                forall|txs: &Vec<T>, valid: Vec<bool>|
                    call_ensures(check0, (txs, forwarding_offset()), valid) ==> valid@.len()
                        <= txs@.len(),
                self.unprocessed_packet_batches.message_hash_to_transaction.wf(),
                self.unprocessed_packet_batches.queued() == Multiset::<PacketKey>::empty(),
                original.dom().finite(),
                self.stored().dom().subset_of(original.dom()),
                self.limit() == limit,
                self.thread_type == old(self).thread_type,
                list_matches(requeued@ + keys@.skip(start as int), self.stored()),
                forward_run(sanitize0, check0, try_add0, keys@, c, states, outcomes),
                states.first() == forward_start(original, calls),
                states.last() == (ForwardState {
                    stored: self.stored(),
                    requeued: requeued@,
                    accepting: accepting_packets,
                    results,
                    calls: forward_calls(sanitize, check, try_add),
                }),
            decreases keys.len() - start,
        {
            let end: usize = if keys.len() - start > UNPROCESSED_BUFFER_STEP_SIZE {
                start + UNPROCESSED_BUFFER_STEP_SIZE
            } else {
                keys.len()
            };
            let packets_to_process = vstd::slice::slice_to_vec(
                vstd::slice::slice_subrange(keys.as_slice(), start, end),
            );
            let ghost before = states.last();
            let ghost chunk = chunk_of(keys@, c);
            assert(packets_to_process@ =~= chunk);
            let (mut forwarded_packets, mut packets_to_forward) = self.prepare_packets_to_forward(
                packets_to_process,
            );
            let ghost todo = packets_to_forward@;
            let ghost mut outcome = ForwardOutcome::<T> {
                sanitized: Seq::empty(),
                conversion_us: 0,
                valid: Seq::empty(),
                filter_us: 0,
                accepted: 0,
            };
            requeued.append(&mut forwarded_packets);
            if accepting_packets {
                proof {
                    lemma_filter(chunk, |key: PacketKey| !was_forwarded(before.stored, key));
                    assert forall|i: int| 0 <= i < todo.len() implies before.stored.contains_key(
                        spec_hash_of(#[trigger] todo[i]),
                    ) by {
                        assert(todo.contains(todo[i]));
                    }
                }
                let (still_accepting, mut retained) = self.offer_packets(
                    &packets_to_forward,
                    sanitize,
                    check,
                    try_add,
                    &mut results,
                );
                accepting_packets = still_accepting;
                proof {
                    outcome = choose|outcome: ForwardOutcome<T>|
                        #![trigger outcome_of(sanitize0, check0, try_add0, packets_of(before.stored, todo), outcome)]
                        {
                            &&& outcome_of(
                                sanitize0,
                                check0,
                                try_add0,
                                packets_of(before.stored, todo),
                                outcome,
                            )
                            &&& outcome.valid.len() <= outcome.transactions().len()
                            &&& still_accepting == (outcome.accepted
                                == outcome.forwardable().len())
                            &&& retained@ == pick(todo, outcome.retained())
                            &&& self.stored() == after_offer(before.stored, todo, outcome)
                            &&& results == counted(before.results, todo, outcome)
                            &&& forward_calls(sanitize, check, try_add) == calls_after_offer(
                                before.calls,
                                packets_of(before.stored, todo),
                                outcome,
                            )
                        };
                }
                requeued.append(&mut retained);
            } else {
                // The forward buffer takes no more, so nothing is sanitized or checked.
                results.total_dropped_packets = results.total_dropped_packets.saturating_add(
                    packets_to_forward.len(),
                );
                requeued.append(&mut packets_to_forward);
            }
            proof {
                let after = forward_step(before, chunk, outcome);
                let rest = keys@.skip(end as int);
                assert(keys@.skip(start as int) =~= chunk + rest);
                assert(before.requeued + (chunk + rest) =~= before.requeued + chunk + rest);
                lemma_forward_step(before, chunk, rest, outcome);
                let previous = states;
                let previous_outcomes = outcomes;
                states = states.push(after);
                outcomes = outcomes.push(outcome);
                assert forall|d: int| 0 <= d < c + 1 implies #[trigger] chunk_forwarded(
                    sanitize0,
                    check0,
                    try_add0,
                    keys@,
                    states,
                    outcomes,
                    d,
                ) by {
                    assert(states[d] == previous[d]);
                    if d < c {
                        assert(chunk_forwarded(
                            sanitize0,
                            check0,
                            try_add0,
                            keys@,
                            previous,
                            previous_outcomes,
                            d,
                        ));
                        assert(states[d + 1] == previous[d + 1]);
                        assert(outcomes[d] == previous_outcomes[d]);
                    }
                }
                c = c + 1;
            }
            start = end;
        }
        proof {
            assert(keys@.skip(start as int) =~= Seq::<PacketKey>::empty());
            assert(requeued@ + Seq::<PacketKey>::empty() =~= requeued@);
            lemma_list_to_queue(requeued@, self.stored());
            lemma_chunk_count(keys@, c);
            vstd::set_lib::lemma_len_subset(self.stored().dom(), original.dom());
        }
        // The queue is rebuilt from what stays.
        self.unprocessed_packet_batches.extend_priority_queue(requeued);
        results
    }

    /// Sanitizes and checks the packets of a chunk that were not forwarded yet, offers the valid
    /// ones to the forward buffer and drops the others. Says whether the buffer took every valid
    /// one, and gives the valid ones.
    pub fn offer_packets<
        T,
        S: FnMut(&SharedPacket) -> Option<T>,
        C: FnMut(&Vec<T>, u64) -> Vec<bool>,
        A: FnMut(&T, &SharedPacket) -> bool,
    >(
        &mut self,
        packets_to_forward: &Vec<PacketKey>,
        sanitize: &mut Inquiry<SharedPacket, Option<T>, S>,
        check: &mut BatchCheck<T, u64, C>,
        try_add: &mut PairInquiry<T, SharedPacket, bool, A>,
        results: &mut FilterForwardingResults,
    ) -> (offered: (bool, Vec<PacketKey>))
        requires
            old(self).unprocessed_packet_batches.message_hash_to_transaction.wf(),
            all_held(old(self).stored(), packets_to_forward@),
            old(sanitize).takes_all(),
            forall|txs: &Vec<T>| call_requires(old(check).function(), (txs, forwarding_offset())),
            forall|txs: &Vec<T>, valid: Vec<bool>|
                call_ensures(old(check).function(), (txs, forwarding_offset()), valid)
                    ==> valid@.len() <= txs@.len(),
            old(try_add).takes_all(),
        ensures
            final(sanitize).function() == old(sanitize).function(),
            final(check).function() == old(check).function(),
            final(try_add).function() == old(try_add).function(),
            final(self).unprocessed_packet_batches.message_hash_to_transaction.wf(),
            final(self).unprocessed_packet_batches.packet_priority_queue == old(
                self,
            ).unprocessed_packet_batches.packet_priority_queue,
            final(self).same_rules(old(self)),
            exists|outcome: ForwardOutcome<T>|
                #![trigger outcome_of(old(sanitize).function(), old(check).function(), old(try_add).function(), packets_of(old(self).stored(), packets_to_forward@), outcome)]
                {
                    &&& outcome_of(
                        old(sanitize).function(),
                        old(check).function(),
                        old(try_add).function(),
                        packets_of(old(self).stored(), packets_to_forward@),
                        outcome,
                    )
                    &&& outcome.valid.len() <= outcome.transactions().len()
                    &&& offered.0 == (outcome.accepted == outcome.forwardable().len())
                    &&& offered.1@ == pick(packets_to_forward@, outcome.retained())
                    &&& final(self).stored() == after_offer(
                        old(self).stored(),
                        packets_to_forward@,
                        outcome,
                    )
                    &&& *final(results) == counted(*old(results), packets_to_forward@, outcome)
                    &&& forward_calls(final(sanitize), final(check), final(try_add))
                        == calls_after_offer(
                        forward_calls(old(sanitize), old(check), old(try_add)),
                        packets_of(old(self).stored(), packets_to_forward@),
                        outcome,
                    )
                },
    {
        let ghost sanitize0 = sanitize.function();
        let ghost check0 = check.function();
        let ghost sanitize_log = sanitize.log();
        let ghost check_log = check.log();
        let ghost todo = packets_to_forward@;
        let count: usize = packets_to_forward.len();
        assert(todo.len() == count);
        let ghost mut outcome = ForwardOutcome::<T> {
            sanitized: Seq::empty(),
            conversion_us: 0,
            valid: Seq::empty(),
            filter_us: 0,
            accepted: 0,
        };
        let packets = self.unprocessed_packet_batches.packets(packets_to_forward);
        let conversion_start = clock_reading();
        let (sanitized_transactions, transaction_to_packet_indexes) =
            Self::sanitize_unforwarded_packets(
            &packets,
            sanitize,
            &mut results.total_dropped_packets,
        );
        let packet_conversion_us = elapsed_us(&conversion_start);
        results.total_packet_conversion_us = results.total_packet_conversion_us.saturating_add(
            packet_conversion_us,
        );
        let filter_start = clock_reading();
        proof {
            let sanitized = choose|sanitized: Seq<Option<T>>|
                #![trigger sanitized_by(sanitize0, packets@, sanitized)]
                sanitized_by(sanitize0, packets@, sanitized) && sanitized_transactions@
                    == present_values(sanitized) && transaction_to_packet_indexes@
                    == true_places(present(sanitized)) && sanitize.log() == sanitize_log
                    + sanitizings(packets@, sanitized);
            outcome = ForwardOutcome { sanitized, ..outcome };
            outcome = ForwardOutcome { conversion_us: packet_conversion_us, ..outcome };
        }
        let ghost dropped = results.total_dropped_packets;
        let forwardable_transaction_indexes = Self::filter_invalid_transactions(
            &sanitized_transactions,
            check,
            &mut results.total_dropped_packets,
        );
        let filter_packets_us = elapsed_us(&filter_start);
        results.total_filter_packets_us = results.total_filter_packets_us.saturating_add(filter_packets_us);
        results.total_forwardable_packets = results.total_forwardable_packets.saturating_add(
            forwardable_transaction_indexes.len(),
        );
        proof {
            let valid = choose|valid: Seq<bool>|
                #![trigger checked_by(check0, sanitized_transactions@, valid)]
                checked_by(check0, sanitized_transactions@, valid) && valid.len()
                    <= sanitized_transactions@.len() && forwardable_transaction_indexes@
                    == true_places(valid) && results.total_dropped_packets == capped_usize(
                    dropped + (sanitized_transactions@.len() - valid.len()),
                ) && check.log() == check_log.push(
                    (sanitized_transactions@, forwarding_offset(), valid),
                );
            outcome = ForwardOutcome { valid, ..outcome };
            outcome = ForwardOutcome { filter_us: filter_packets_us, ..outcome };
            lemma_outcome(todo, outcome);
        }
        let accepted_packet_indexes = Self::add_filtered_packets_to_forward_buffer(
            try_add,
            &packets,
            &sanitized_transactions,
            &transaction_to_packet_indexes,
            &forwardable_transaction_indexes,
            &mut results.total_dropped_packets,
        );
        proof {
            outcome = ForwardOutcome { accepted: accepted_packet_indexes@.len(), ..outcome };
        }
        let accepting = accepted_packet_indexes.len() == forwardable_transaction_indexes.len();
        self.unprocessed_packet_batches.mark_accepted_packets_as_forwarded(
            packets_to_forward,
            &accepted_packet_indexes,
        );
        let retained_packet_indexes = Self::prepare_filtered_packet_indexes(
            &transaction_to_packet_indexes,
            &forwardable_transaction_indexes,
        );
        let retained = Self::collect_retained_packets(
            &mut self.unprocessed_packet_batches.message_hash_to_transaction,
            packets_to_forward,
            &retained_packet_indexes,
        );
        assert(outcome_of(sanitize0, check0, old(try_add).function(), packets@, outcome));
        (accepting, retained)
    }

    /// Parts a chunk into the packets that were forwarded before and those that were not.
    pub fn prepare_packets_to_forward(&self, packets_to_forward: Vec<PacketKey>) -> (parts: (
        Vec<PacketKey>,
        Vec<PacketKey>,
    ))
        requires
            self.unprocessed_packet_batches.message_hash_to_transaction.wf(),
        ensures
            parts.0@ == already_forwarded(self.stored(), packets_to_forward@),
            parts.1@ == not_forwarded(self.stored(), packets_to_forward@),
    {
        let ghost stored = self.stored();
        let mut forwarded_packets: Vec<PacketKey> = Vec::new();
        let mut forwardable_packets: Vec<PacketKey> = Vec::new();
        let mut i: usize = 0;
        assert(packets_to_forward@.take(0) =~= Seq::<PacketKey>::empty());
        reveal(Seq::filter);
        while i < packets_to_forward.len()
            invariant
                i <= packets_to_forward@.len(),
                self.unprocessed_packet_batches.message_hash_to_transaction.wf(),
                stored == self.stored(),
                forwarded_packets@ == already_forwarded(
                    stored,
                    packets_to_forward@.take(i as int),
                ),
                forwardable_packets@ == not_forwarded(stored, packets_to_forward@.take(i as int)),
            decreases packets_to_forward.len() - i,
        {
            let key = packets_to_forward[i];
            proof {
                let seen = packets_to_forward@.take(i as int);
                assert(packets_to_forward@.take(i + 1) =~= seen.push(key));
                seen.lemma_filter_push(key, |key: PacketKey| was_forwarded(stored, key));
                seen.lemma_filter_push(key, |key: PacketKey| !was_forwarded(stored, key));
            }
            if !self.unprocessed_packet_batches.is_forwarded(key) {
                forwardable_packets.push(key);
            } else {
                forwarded_packets.push(key);
            }
            i += 1;
        }
        assert(packets_to_forward@.take(i as int) =~= packets_to_forward@);
        (forwarded_packets, forwardable_packets)
    }

    /// The transactions of the packets that sanitize, and for each of them the place of its
    /// packet. The other packets count as dropped.
    pub fn sanitize_unforwarded_packets<T, S: FnMut(&SharedPacket) -> Option<T>>(
        packets_to_process: &Vec<SharedPacket>,
        sanitize: &mut Inquiry<SharedPacket, Option<T>, S>,
        total_dropped_packets: &mut usize,
    ) -> (sanitized: (Vec<T>, Vec<usize>))
        requires
            old(sanitize).takes_all(),
        ensures
            final(sanitize).function() == old(sanitize).function(),
            exists|results: Seq<Option<T>>|
                #![trigger sanitized_by(old(sanitize).function(), packets_to_process@, results)]
                {
                    &&& sanitized_by(old(sanitize).function(), packets_to_process@, results)
                    &&& sanitized.0@ == present_values(results)
                    &&& sanitized.1@ == true_places(present(results))
                    &&& final(sanitize).log() == old(sanitize).log() + sanitizings(
                        packets_to_process@,
                        results,
                    )
                },
            *final(total_dropped_packets) == capped_usize(
                *old(total_dropped_packets) + (packets_to_process@.len() - sanitized.0@.len()),
            ),
    {
        let mut results: Vec<Option<T>> = Vec::new();
        let mut i: usize = 0;
        while i < packets_to_process.len()
            invariant
                i <= packets_to_process@.len(),
                sanitize.function() == old(sanitize).function(),
                sanitize.takes_all(),
                sanitized_by(sanitize.function(), packets_to_process@.take(i as int), results@),
                sanitize.log() == old(sanitize).log() + sanitizings(
                    packets_to_process@.take(i as int),
                    results@,
                ),
            decreases packets_to_process.len() - i,
        {
            let ghost before = results@;
            let result = sanitize.ask(&packets_to_process[i]);
            results.push(result);
            assert(sanitize.log() =~= old(sanitize).log() + sanitizings(
                packets_to_process@.take(i + 1),
                results@,
            ));
            assert forall|j: int| 0 <= j < i + 1 implies call_ensures(
                sanitize.function(),
                (&packets_to_process@.take(i + 1)[j],),
                #[trigger] results@[j],
            ) by {
                if j < i {
                    assert(before[j] == results@[j]);
                    assert(packets_to_process@.take(i as int)[j] == packets_to_process@.take(
                        i + 1,
                    )[j]);
                }
            }
            i += 1;
        }
        assert(packets_to_process@.take(i as int) =~= packets_to_process@);
        let ghost outcomes = results@;
        let (transactions, transaction_to_packet_indexes) = keep_present(results);
        proof {
            lemma_present_values(outcomes);
            lemma_true_places(present(outcomes));
            assert(sanitized_by(old(sanitize).function(), packets_to_process@, outcomes));
        }
        let filtered_count: usize = packets_to_process.len().saturating_sub(transactions.len());
        *total_dropped_packets = (*total_dropped_packets).saturating_add(filtered_count);
        (transactions, transaction_to_packet_indexes)
    }

    /// The transactions that are still valid, by their place. Transactions without an answer count
    /// as dropped.
    pub fn filter_invalid_transactions<T, C: FnMut(&Vec<T>, u64) -> Vec<bool>>(
        transactions: &Vec<T>,
        check: &mut BatchCheck<T, u64, C>,
        total_dropped_packets: &mut usize,
    ) -> (indexes: Vec<usize>)
        requires
            call_requires(old(check).function(), (transactions, forwarding_offset())),
            forall|valid: Vec<bool>|
                call_ensures(old(check).function(), (transactions, forwarding_offset()), valid)
                    ==> valid@.len() <= transactions@.len(),
        ensures
            final(check).function() == old(check).function(),
            exists|valid: Seq<bool>|
                #![trigger checked_by(old(check).function(), transactions@, valid)]
                {
                    &&& checked_by(old(check).function(), transactions@, valid)
                    &&& valid.len() <= transactions@.len()
                    &&& indexes@ == true_places(valid)
                    &&& *final(total_dropped_packets) == capped_usize(
                        *old(total_dropped_packets) + (transactions@.len() - valid.len()),
                    )
                    &&& final(check).log() == old(check).log().push(
                        (transactions@, forwarding_offset(), valid),
                    )
                },
    {
        let results = check.ask(transactions, forwarding_slot_offset());
        assert(checked_by(old(check).function(), transactions@, results@));
        let filtered_count: usize = transactions.len().saturating_sub(results.len());
        *total_dropped_packets = (*total_dropped_packets).saturating_add(filtered_count);
        places_of(&results)
    }

    /// The places of the packets whose transactions are retained.
    pub fn prepare_filtered_packet_indexes(
        transaction_to_packet_indexes: &Vec<usize>,
        retained_transaction_indexes: &Vec<usize>,
    ) -> (indexes: Vec<usize>)
        requires
            forall|i: int|
                0 <= i < retained_transaction_indexes@.len()
                    ==> #[trigger] retained_transaction_indexes@[i]
                    < transaction_to_packet_indexes@.len(),
        ensures
            indexes@ == pick(transaction_to_packet_indexes@, retained_transaction_indexes@),
    {
        let mut indexes: Vec<usize> = Vec::new();
        let mut i: usize = 0;
        while i < retained_transaction_indexes.len()
            invariant
                i <= retained_transaction_indexes@.len(),
                forall|k: int|
                    0 <= k < retained_transaction_indexes@.len()
                        ==> #[trigger] retained_transaction_indexes@[k]
                        < transaction_to_packet_indexes@.len(),
                indexes@ == pick(
                    transaction_to_packet_indexes@,
                    retained_transaction_indexes@.take(i as int),
                ),
            decreases retained_transaction_indexes.len() - i,
        {
            indexes.push(transaction_to_packet_indexes[retained_transaction_indexes[i]]);
            i += 1;
            assert(indexes@ =~= pick(
                transaction_to_packet_indexes@,
                retained_transaction_indexes@.take(i as int),
            ));
        }
        assert(retained_transaction_indexes@.take(i as int) =~= retained_transaction_indexes@);
        indexes
    }

    /// Offers the forwardable transactions to the forward buffer in order, up to the first that it
    /// refuses. Gives the places of the packets that it took; the others count as dropped.
    pub fn add_filtered_packets_to_forward_buffer<T, A: FnMut(&T, &SharedPacket) -> bool>(
        try_add: &mut PairInquiry<T, SharedPacket, bool, A>,
        packets_to_process: &Vec<SharedPacket>,
        transactions: &Vec<T>,
        transaction_to_packet_indexes: &Vec<usize>,
        forwardable_transaction_indexes: &Vec<usize>,
        total_dropped_packets: &mut usize,
    ) -> (accepted: Vec<usize>)
        requires
            old(try_add).takes_all(),
            forall|i: int|
                0 <= i < forwardable_transaction_indexes@.len() ==> {
                    let place = #[trigger] forwardable_transaction_indexes@[i];
                    &&& place < transactions@.len()
                    &&& place < transaction_to_packet_indexes@.len()
                    &&& transaction_to_packet_indexes@[place as int] < packets_to_process@.len()
                },
        ensures
            final(try_add).function() == old(try_add).function(),
            final(try_add).log() == old(try_add).log() + offers(
                packets_to_process@,
                transactions@,
                transaction_to_packet_indexes@,
                forwardable_transaction_indexes@,
                accepted@.len(),
            ),
            accepted@.len() <= forwardable_transaction_indexes@.len(),
            accepted@ == pick(
                transaction_to_packet_indexes@,
                forwardable_transaction_indexes@,
            ).take(accepted@.len() as int),
            taken_by(
                old(try_add).function(),
                packets_to_process@,
                transactions@,
                transaction_to_packet_indexes@,
                forwardable_transaction_indexes@,
                accepted@.len(),
            ),
            *final(total_dropped_packets) == capped_usize(
                *old(total_dropped_packets) + (forwardable_transaction_indexes@.len()
                    - accepted@.len()),
            ),
    {
        let ghost retained = pick(
            transaction_to_packet_indexes@,
            forwardable_transaction_indexes@,
        );
        let mut accepted: Vec<usize> = Vec::new();
        let mut refused = false;
        while accepted.len() < forwardable_transaction_indexes.len() && !refused
            invariant
                try_add.function() == old(try_add).function(),
                try_add.takes_all(),
                try_add.log() == old(try_add).log() + offers(
                    packets_to_process@,
                    transactions@,
                    transaction_to_packet_indexes@,
                    forwardable_transaction_indexes@,
                    accepted@.len(),
                ).take(
                    if refused {
                        (accepted@.len() + 1) as int
                    } else {
                        accepted@.len() as int
                    },
                ),
                retained == pick(transaction_to_packet_indexes@, forwardable_transaction_indexes@),
                forall|i: int|
                    0 <= i < forwardable_transaction_indexes@.len() ==> {
                        let place = #[trigger] forwardable_transaction_indexes@[i];
                        &&& place < transactions@.len()
                        &&& place < transaction_to_packet_indexes@.len()
                        &&& transaction_to_packet_indexes@[place as int]
                            < packets_to_process@.len()
                    },
                accepted@.len() <= forwardable_transaction_indexes@.len(),
                accepted@ == retained.take(accepted@.len() as int),
                forall|i: int|
                    0 <= i < accepted@.len() ==> call_ensures(
                        try_add.function(),
                        (
                            &transactions@[#[trigger] forwardable_transaction_indexes@[i] as int],
                            &packets_to_process@[transaction_to_packet_indexes@[forwardable_transaction_indexes@[i] as int] as int],
                        ),
                        true,
                    ),
                refused ==> accepted@.len() < forwardable_transaction_indexes@.len()
                    && call_ensures(
                    try_add.function(),
                    (
                        &transactions@[forwardable_transaction_indexes@[accepted@.len() as int] as int],
                        &packets_to_process@[transaction_to_packet_indexes@[forwardable_transaction_indexes@[accepted@.len() as int] as int] as int],
                    ),
                    false,
                ),
            decreases
                forwardable_transaction_indexes.len() - accepted.len(),
                if refused {
                    0int
                } else {
                    1int
                },
        {
            let transaction_index: usize = forwardable_transaction_indexes[accepted.len()];
            let packet_index: usize = transaction_to_packet_indexes[transaction_index];
            let ghost len = accepted@.len();
            if try_add.ask(&transactions[transaction_index], &packets_to_process[packet_index]) {
                let ghost before = accepted@;
                accepted.push(packet_index);
                assert(accepted@ =~= retained.take(accepted@.len() as int)) by {
                    assert(before =~= retained.take(before.len() as int));
                }
                assert(try_add.log() =~= old(try_add).log() + offers(
                    packets_to_process@,
                    transactions@,
                    transaction_to_packet_indexes@,
                    forwardable_transaction_indexes@,
                    len + 1,
                ).take((len + 1) as int));
            } else {
                refused = true;
                assert(try_add.log() =~= old(try_add).log() + offers(
                    packets_to_process@,
                    transactions@,
                    transaction_to_packet_indexes@,
                    forwardable_transaction_indexes@,
                    len,
                ).take((len + 1) as int));
            }
        }
        assert(try_add.log() =~= old(try_add).log() + offers(
            packets_to_process@,
            transactions@,
            transaction_to_packet_indexes@,
            forwardable_transaction_indexes@,
            accepted@.len(),
        ));
        let filtered_count: usize = forwardable_transaction_indexes.len().saturating_sub(
            accepted.len(),
        );
        *total_dropped_packets = (*total_dropped_packets).saturating_add(filtered_count);
        accepted
    }

    /// Drops the packets that are not retained from the map, and gives the retained ones.
    pub fn collect_retained_packets(
        message_hash_to_transaction: &mut PacketMap,
        packets_to_process: &Vec<PacketKey>,
        retained_packet_indexes: &Vec<usize>,
    ) -> (retained: Vec<PacketKey>)
        requires
            old(message_hash_to_transaction).wf(),
            forall|i: int|
                0 <= i < retained_packet_indexes@.len() ==> #[trigger] retained_packet_indexes@[i]
                    < packets_to_process@.len(),
        ensures
            final(message_hash_to_transaction).wf(),
            final(message_hash_to_transaction)@ == without_runs(
                old(message_hash_to_transaction)@,
                packets_to_process@,
                dropped_runs(packets_to_process@, retained_packet_indexes@),
            ),
            retained@ == pick(packets_to_process@, retained_packet_indexes@),
    {
        Self::remove_non_retained_packets(
            message_hash_to_transaction,
            packets_to_process,
            retained_packet_indexes,
        );
        Self::packets_at(packets_to_process, retained_packet_indexes)
    }

    /// Drops from the map the packets between and behind the retained places.
    pub fn remove_non_retained_packets(
        message_hash_to_transaction: &mut PacketMap,
        packets_to_process: &Vec<PacketKey>,
        retained_packet_indexes: &Vec<usize>,
    )
        requires
            old(message_hash_to_transaction).wf(),
            forall|i: int|
                0 <= i < retained_packet_indexes@.len() ==> #[trigger] retained_packet_indexes@[i]
                    < packets_to_process@.len(),
        ensures
            final(message_hash_to_transaction).wf(),
            final(message_hash_to_transaction)@ == without_runs(
                old(message_hash_to_transaction)@,
                packets_to_process@,
                dropped_runs(packets_to_process@, retained_packet_indexes@),
            ),
    {
        let ghost original = message_hash_to_transaction@;
        let mut indexes: Vec<usize> = retained_packet_indexes.clone();
        indexes.push(packets_to_process.len());
        let runs = filter_processed_packets(&indexes);
        proof {
            crate::key_lists::lemma_run_bounds(indexes@);
        }
        let mut g: usize = 0;
        while g < runs.len()
            invariant
                g <= runs@.len(),
                forall|k: int|
                    0 <= k < runs@.len() ==> (#[trigger] runs@[k]).0 < runs@[k].1 <= packets_to_process@.len(),
                message_hash_to_transaction.wf(),
                message_hash_to_transaction@ == without_runs(
                    original,
                    packets_to_process@,
                    runs@.take(g as int),
                ),
            decreases runs.len() - g,
        {
            let (start, end) = runs[g];
            let mut i: usize = start;
            proof {
                lemma_empty_run(original, packets_to_process@, runs@.take(g as int), start);
            }
            while i < end
                invariant
                    g < runs@.len(),
                    runs@[g as int] == (start, end),
                    end <= packets_to_process@.len(),
                    start <= i <= end,
                    message_hash_to_transaction.wf(),
                    message_hash_to_transaction@ == without_runs(
                        original,
                        packets_to_process@,
                        runs@.take(g as int).push((start, i)),
                    ),
                decreases end - i,
            {
                proof {
                    lemma_longer_run(
                        original,
                        packets_to_process@,
                        runs@.take(g as int),
                        start,
                        i,
                    );
                }
                message_hash_to_transaction.remove(hash_of(packets_to_process[i]));
                i += 1;
            }
            assert(runs@.take(g as int).push((start, end)) =~= runs@.take(g + 1));
            g += 1;
        }
        assert(runs@.take(g as int) =~= runs@);
    }
}

/// A forwarding pass invents nothing: what is held after it was held before, the same but for the
/// forwarded flag, which is only ever set.
pub proof fn law_forwarding_invents_nothing<
    T,
    S: FnMut(&SharedPacket) -> Option<T>,
    C: FnMut(&Vec<T>, u64) -> Vec<bool>,
    A: FnMut(&T, &SharedPacket) -> bool,
>(
    sanitize: S,
    check: C,
    try_add: A,
    keys: Seq<PacketKey>,
    count: int,
    states: Seq<ForwardState<T>>,
    outcomes: Seq<ForwardOutcome<T>>,
    n: int,
)
    requires
        forward_run(sanitize, check, try_add, keys, count, states, outcomes),
        0 <= n < states.len(),
    ensures
        forall|hash: MessageHash| #[trigger]
            states[n].stored.contains_key(hash) ==> {
                &&& states.first().stored.contains_key(hash)
                &&& states[n].stored[hash].immutable_section
                    == states.first().stored[hash].immutable_section
                &&& states.first().stored[hash].forwarded ==> states[n].stored[hash].forwarded
            },
    decreases n,
{
    if n > 0 {
        law_forwarding_invents_nothing(
            sanitize,
            check,
            try_add,
            keys,
            count,
            states,
            outcomes,
            n - 1,
        );
        let before = states[n - 1];
        assert(chunk_forwarded(sanitize, check, try_add, keys, states, outcomes, n - 1));
        assert forall|hash: MessageHash| #[trigger] states[n].stored.contains_key(hash) implies {
            &&& before.stored.contains_key(hash)
            &&& states[n].stored[hash].immutable_section == before.stored[hash].immutable_section
            &&& before.stored[hash].forwarded ==> states[n].stored[hash].forwarded
        } by {}
    }
}

/// The packet at the place sanitizes, and its transaction is valid.
pub open spec fn found_valid<T>(outcome: ForwardOutcome<T>, place: int) -> bool {
    exists|i: int|
        0 <= i < outcome.valid.len() && #[trigger] outcome.valid[i]
            && outcome.transaction_places()[i] == place
}

/// While the forward buffer takes packets, just those packets leave that were not forwarded before
/// and do not sanitize or are not valid.
pub proof fn law_only_invalid_packets_leave<T>(
    before: ForwardState<T>,
    chunk: Seq<PacketKey>,
    outcome: ForwardOutcome<T>,
    hash: MessageHash,
)
    requires
        before.accepting,
        chunk.len() <= usize::MAX,
        outcome.sanitized.len() == not_forwarded(before.stored, chunk).len(),
        outcome.valid.len() <= outcome.transactions().len(),
    ensures
        forward_step(before, chunk, outcome).stored.contains_key(hash) <==> {
            let todo = not_forwarded(before.stored, chunk);
            &&& before.stored.contains_key(hash)
            &&& !(exists|place: int|
                0 <= place < todo.len() && spec_hash_of(#[trigger] todo[place]) == hash
                    && !found_valid(outcome, place))
        },
{
    let todo = not_forwarded(before.stored, chunk);
    let retained = outcome.retained();
    let runs = dropped_runs(todo, retained);
    chunk.lemma_filter_len(|key: PacketKey| !was_forwarded(before.stored, key));
    lemma_outcome(todo, outcome);
    lemma_dropped_runs(todo, retained);
    lemma_true_places(outcome.valid);
    assert forall|place: int| 0 <= place < todo.len() implies in_gaps(runs, place)
        == !found_valid(outcome, place) by {
        if retained.contains(place as usize) {
            let i = choose|i: int| 0 <= i < retained.len() && retained[i] == place as usize;
            assert(outcome.valid[outcome.forwardable()[i] as int]);
        }
        if found_valid(outcome, place) {
            let i = choose|i: int|
                0 <= i < outcome.valid.len() && #[trigger] outcome.valid[i]
                    && outcome.transaction_places()[i] == place;
            let j = choose|j: int|
                0 <= j < outcome.forwardable().len() && outcome.forwardable()[j] == i as usize;
            assert(retained[j] == place as usize);
        }
    }
    if hash_in_runs(todo, runs, hash) {
        let place = choose|place: int|
            0 <= place < todo.len() && in_gaps(runs, place) && spec_hash_of(#[trigger] todo[place])
                == hash;
        assert(!found_valid(outcome, place));
    }
    if exists|place: int|
        0 <= place < todo.len() && spec_hash_of(#[trigger] todo[place]) == hash && !found_valid(
            outcome,
            place,
        ) {
        let place = choose|place: int|
            0 <= place < todo.len() && spec_hash_of(#[trigger] todo[place]) == hash && !found_valid(
                outcome,
                place,
            );
        assert(in_gaps(runs, place));
        assert(hash_in_runs(todo, runs, hash));
    }
}

/// A chunk whose packets were all offered and of which none counts as dropped: every packet of it
/// that is held afterwards is marked as forwarded, and the forward buffer takes more.
proof fn lemma_chunk_without_drops<T>(
    before: ForwardState<T>,
    chunk: Seq<PacketKey>,
    outcome: ForwardOutcome<T>,
)
    requires
        before.accepting,
        chunk.len() <= usize::MAX,
        outcome.sanitized.len() == not_forwarded(before.stored, chunk).len(),
        outcome.valid.len() <= outcome.transactions().len(),
        outcome.accepted <= outcome.forwardable().len(),
        forward_step(before, chunk, outcome).results.total_dropped_packets == 0,
    ensures
        before.results.total_dropped_packets == 0,
        forward_step(before, chunk, outcome).accepting,
        forall|i: int|
            0 <= i < chunk.len() ==> was_forwarded(
                forward_step(before, chunk, outcome).stored,
                #[trigger] chunk[i],
            ),
{
    let after = forward_step(before, chunk, outcome);
    let todo = not_forwarded(before.stored, chunk);
    let retained = outcome.retained();
    let taken = pick(todo, outcome.taken());
    chunk.lemma_filter_len(|key: PacketKey| !was_forwarded(before.stored, key));
    lemma_filter(chunk, |key: PacketKey| !was_forwarded(before.stored, key));
    lemma_outcome(todo, outcome);
    lemma_true_places(outcome.valid);
    assert(outcome.taken() =~= retained);
    assert forall|i: int| 0 <= i < chunk.len() implies was_forwarded(
        after.stored,
        #[trigger] chunk[i],
    ) by {
        let key = chunk[i];
        let hash = spec_hash_of(key);
        if after.stored.contains_key(hash) && !was_forwarded(before.stored, key) {
            assert(chunk.contains(key));
            assert(todo.contains(key));
            let place = choose|place: int| 0 <= place < todo.len() && todo[place] == key;
            law_only_invalid_packets_leave(before, chunk, outcome, hash);
            assert(found_valid(outcome, place));
            let k = choose|k: int|
                0 <= k < outcome.valid.len() && #[trigger] outcome.valid[k]
                    && outcome.transaction_places()[k] == place;
            let j = choose|j: int|
                0 <= j < outcome.forwardable().len() && outcome.forwardable()[j] == k as usize;
            assert(retained[j] == place as usize);
            assert(taken[j] == key);
            assert(has_hash(taken, hash));
        }
    }
}

/// The services give outcomes that fit the packets.
proof fn lemma_outcome_fits<
    T,
    S: FnMut(&SharedPacket) -> Option<T>,
    C: FnMut(&Vec<T>, u64) -> Vec<bool>,
    A: FnMut(&T, &SharedPacket) -> bool,
>(
    sanitize: S,
    check: C,
    try_add: A,
    stored: Stored,
    todo: Seq<PacketKey>,
    outcome: ForwardOutcome<T>,
)
    requires
        outcome_of(sanitize, check, try_add, packets_of(stored, todo), outcome),
        forall|txs: &Vec<T>, valid: Vec<bool>|
            call_ensures(check, (txs, forwarding_offset()), valid) ==> valid@.len() <= txs@.len(),
    ensures
        outcome.sanitized.len() == todo.len(),
        outcome.valid.len() <= outcome.transactions().len(),
        outcome.accepted <= outcome.forwardable().len(),
{
    let (asked, answer) = choose|asked: Vec<T>, answer: Vec<bool>|
        asked@ == outcome.transactions() && answer@ == outcome.valid && #[trigger] call_ensures(
            check,
            (&asked, forwarding_offset()),
            answer,
        );
}

/// A pass over all packets that counts none as dropped leaves no packet that is not marked as
/// forwarded.
pub proof fn law_pass_without_drops_forwards_all<
    T,
    S: FnMut(&SharedPacket) -> Option<T>,
    C: FnMut(&Vec<T>, u64) -> Vec<bool>,
    A: FnMut(&T, &SharedPacket) -> bool,
>(
    sanitize: S,
    check: C,
    try_add: A,
    keys: Seq<PacketKey>,
    stored: Stored,
    calls: ForwardCalls<T>,
    states: Seq<ForwardState<T>>,
    outcomes: Seq<ForwardOutcome<T>>,
    hash: MessageHash,
)
    requires
        list_matches(keys, stored),
        well_keyed(stored),
        forall|txs: &Vec<T>, valid: Vec<bool>|
            call_ensures(check, (txs, forwarding_offset()), valid) ==> valid@.len() <= txs@.len(),
        forward_run(sanitize, check, try_add, keys, chunk_count(keys), states, outcomes),
        states.first() == forward_start(stored, calls),
        states.last().results.total_dropped_packets == 0,
        states.last().stored.contains_key(hash),
    ensures
        states.last().stored[hash].forwarded,
{
    let count = chunk_count(keys);
    lemma_no_drops(sanitize, check, try_add, keys, stored, calls, states, outcomes, count);
    law_forwarding_invents_nothing(
        sanitize,
        check,
        try_add,
        keys,
        count,
        states,
        outcomes,
        count,
    );
    let key = stored[hash].spec_key();
    assert(stored[hash].hash() == hash);
    assert(is_stored(stored, key));
    assert(keys.contains(key));
    let i = choose|i: int| 0 <= i < keys.len() && keys[i] == key;
    assert(i < count * UNPROCESSED_BUFFER_STEP_SIZE);
    assert(was_forwarded(states[count].stored, keys[i]));
}

/// A packet that is marked as forwarded or gone stays so.
proof fn lemma_stays_forwarded<T>(
    before: ForwardState<T>,
    chunk: Seq<PacketKey>,
    outcome: ForwardOutcome<T>,
    key: PacketKey,
)
    requires
        was_forwarded(before.stored, key),
    ensures
        was_forwarded(forward_step(before, chunk, outcome).stored, key),
{
}

/// While no packet counts as dropped, every packet that a pass has come by is marked as forwarded
/// or gone.
proof fn lemma_no_drops<
    T,
    S: FnMut(&SharedPacket) -> Option<T>,
    C: FnMut(&Vec<T>, u64) -> Vec<bool>,
    A: FnMut(&T, &SharedPacket) -> bool,
>(
    sanitize: S,
    check: C,
    try_add: A,
    keys: Seq<PacketKey>,
    stored: Stored,
    calls: ForwardCalls<T>,
    states: Seq<ForwardState<T>>,
    outcomes: Seq<ForwardOutcome<T>>,
    n: int,
)
    requires
        forall|txs: &Vec<T>, valid: Vec<bool>|
            call_ensures(check, (txs, forwarding_offset()), valid) ==> valid@.len() <= txs@.len(),
        forward_run(sanitize, check, try_add, keys, chunk_count(keys), states, outcomes),
        states.first() == forward_start(stored, calls),
        0 <= n <= chunk_count(keys),
        states[n].results.total_dropped_packets == 0,
    ensures
        states[n].accepting,
        forall|i: int|
            0 <= i < keys.len() && i < n * UNPROCESSED_BUFFER_STEP_SIZE ==> was_forwarded(
                states[n].stored,
                #[trigger] keys[i],
            ),
    decreases n,
{
    if n > 0 {
        let c = n - 1;
        let before = states[c];
        let chunk = chunk_of(keys, c);
        let todo = not_forwarded(before.stored, chunk);
        assert(chunk_forwarded(sanitize, check, try_add, keys, states, outcomes, c));
        assert(c * UNPROCESSED_BUFFER_STEP_SIZE < keys.len());
        if before.accepting {
            lemma_outcome_fits(sanitize, check, try_add, before.stored, todo, outcomes[c]);
            lemma_chunk_without_drops(before, chunk, outcomes[c]);
        }
        lemma_no_drops(sanitize, check, try_add, keys, stored, calls, states, outcomes, c);
        assert forall|i: int|
            0 <= i < keys.len() && i < n * UNPROCESSED_BUFFER_STEP_SIZE implies was_forwarded(
            states[n].stored,
            #[trigger] keys[i],
        ) by {
            let start = c * UNPROCESSED_BUFFER_STEP_SIZE;
            if i < start {
                lemma_stays_forwarded(before, chunk, outcomes[c], keys[i]);
            } else {
                assert(chunk[i - start] == keys[i]);
            }
        }
    }
}

/// A pass over packets that are all marked as forwarded offers none of them, drops none and changes
/// nothing.
pub proof fn law_forwarded_packets_are_left_alone<
    T,
    S: FnMut(&SharedPacket) -> Option<T>,
    C: FnMut(&Vec<T>, u64) -> Vec<bool>,
    A: FnMut(&T, &SharedPacket) -> bool,
>(
    sanitize: S,
    check: C,
    try_add: A,
    keys: Seq<PacketKey>,
    stored: Stored,
    calls: ForwardCalls<T>,
    states: Seq<ForwardState<T>>,
    outcomes: Seq<ForwardOutcome<T>>,
    n: int,
)
    requires
        forall|hash: MessageHash| #[trigger]
            stored.contains_key(hash) ==> stored[hash].forwarded,
        forall|txs: &Vec<T>, valid: Vec<bool>|
            call_ensures(check, (txs, forwarding_offset()), valid) ==> valid@.len() <= txs@.len(),
        forward_run(sanitize, check, try_add, keys, chunk_count(keys), states, outcomes),
        states.first() == forward_start(stored, calls),
        0 <= n < states.len(),
    ensures
        states[n].stored == stored,
        states[n].accepting,
        states[n].results.total_forwardable_packets == 0,
        states[n].results.total_dropped_packets == 0,
        states[n].calls.sanitized == calls.sanitized,
        states[n].calls.offered == calls.offered,
    decreases n,
{
    if n > 0 {
        let c = n - 1;
        law_forwarded_packets_are_left_alone(
            sanitize,
            check,
            try_add,
            keys,
            stored,
            calls,
            states,
            outcomes,
            c,
        );
        let before = states[c];
        let chunk = chunk_of(keys, c);
        let todo = not_forwarded(stored, chunk);
        let outcome = outcomes[c];
        lemma_filter(chunk, |key: PacketKey| !was_forwarded(stored, key));
        assert(todo =~= Seq::<PacketKey>::empty()) by {
            if todo.len() > 0 {
                assert(todo.contains(todo[0]));
            }
        }
        assert(chunk_forwarded(sanitize, check, try_add, keys, states, outcomes, c));
        lemma_outcome_fits(sanitize, check, try_add, stored, todo, outcome);
        lemma_outcome(todo, outcome);
        assert(states[n].stored =~= stored);
        assert(states[n].calls.sanitized =~= calls.sanitized);
        assert(states[n].calls.offered =~= calls.offered);
    }
}

/// After a pass that counts no packet as dropped, a second pass, with the same services or with
/// others, finds nothing to forward, drops nothing, changes nothing and offers no packet.
pub proof fn law_second_pass_forwards_nothing<
    T,
    S: FnMut(&SharedPacket) -> Option<T>,
    C: FnMut(&Vec<T>, u64) -> Vec<bool>,
    A: FnMut(&T, &SharedPacket) -> bool,
    T2,
    S2: FnMut(&SharedPacket) -> Option<T2>,
    C2: FnMut(&Vec<T2>, u64) -> Vec<bool>,
    A2: FnMut(&T2, &SharedPacket) -> bool,
>(
    services: (S, C, A),
    keys: Seq<PacketKey>,
    stored: Stored,
    calls: ForwardCalls<T>,
    states: Seq<ForwardState<T>>,
    outcomes: Seq<ForwardOutcome<T>>,
    second_services: (S2, C2, A2),
    second_keys: Seq<PacketKey>,
    second_calls: ForwardCalls<T2>,
    second_states: Seq<ForwardState<T2>>,
    second_outcomes: Seq<ForwardOutcome<T2>>,
)
    requires
        list_matches(keys, stored),
        well_keyed(stored),
        forall|txs: &Vec<T>, valid: Vec<bool>|
            call_ensures(services.1, (txs, forwarding_offset()), valid) ==> valid@.len()
                <= txs@.len(),
        forall|txs: &Vec<T2>, valid: Vec<bool>|
            call_ensures(second_services.1, (txs, forwarding_offset()), valid) ==> valid@.len()
                <= txs@.len(),
        forward_run(
            services.0,
            services.1,
            services.2,
            keys,
            chunk_count(keys),
            states,
            outcomes,
        ),
        states.first() == forward_start(stored, calls),
        states.last().results.total_dropped_packets == 0,
        forward_run(
            second_services.0,
            second_services.1,
            second_services.2,
            second_keys,
            chunk_count(second_keys),
            second_states,
            second_outcomes,
        ),
        second_states.first() == forward_start(states.last().stored, second_calls),
    ensures
        second_states.last().stored == states.last().stored,
        second_states.last().results.total_forwardable_packets == 0,
        second_states.last().results.total_dropped_packets == 0,
        second_states.last().calls.sanitized == second_calls.sanitized,
        second_states.last().calls.offered == second_calls.offered,
{
    let between = states.last().stored;
    assert forall|hash: MessageHash| #[trigger] between.contains_key(hash) implies between[hash].forwarded by {
        law_pass_without_drops_forwards_all(
            services.0,
            services.1,
            services.2,
            keys,
            stored,
            calls,
            states,
            outcomes,
            hash,
        );
    }
    law_forwarded_packets_are_left_alone(
        second_services.0,
        second_services.1,
        second_services.2,
        second_keys,
        between,
        second_calls,
        second_states,
        second_outcomes,
        second_states.len() - 1,
    );
}

/// The packet is the one that the key at one of the first places leads to.
spec fn leads_to(keys: Seq<PacketKey>, packet: SharedPacket, from: int, to: int) -> bool {
    exists|k: int|
        from <= k < to && 0 <= k < keys.len() && spec_hash_of(#[trigger] keys[k])
            == packet.message_hash
}

/// The offers of one chunk are of packets of the chunk, each once.
proof fn lemma_offers_of_chunk<T>(
    keys: Seq<PacketKey>,
    original: Stored,
    c: int,
    stored: Stored,
    outcome: ForwardOutcome<T>,
)
    requires
        list_matches(keys, original),
        keys.len() <= usize::MAX,
        0 <= c,
        c * UNPROCESSED_BUFFER_STEP_SIZE < keys.len(),
        forall|hash: MessageHash| #[trigger]
            stored.contains_key(hash) ==> stored[hash].hash() == hash,
        outcome.sanitized.len() == not_forwarded(stored, chunk_of(keys, c)).len(),
        outcome.valid.len() <= outcome.transactions().len(),
        outcome.accepted <= outcome.forwardable().len(),
    ensures
        ({
            let new = offers(
                packets_of(stored, not_forwarded(stored, chunk_of(keys, c))),
                outcome.transactions(),
                outcome.transaction_places(),
                outcome.forwardable(),
                outcome.accepted,
            );
            &&& forall|i: int|
                0 <= i < new.len() ==> leads_to(
                    keys,
                    (#[trigger] new[i]).1,
                    c * UNPROCESSED_BUFFER_STEP_SIZE,
                    (c + 1) * UNPROCESSED_BUFFER_STEP_SIZE,
                )
            &&& forall|i: int, j: int|
                0 <= i < j < new.len() ==> (#[trigger] new[i]).1.message_hash != (
                #[trigger] new[j]).1.message_hash
        }),
{
    let chunk = chunk_of(keys, c);
    let start = c * UNPROCESSED_BUFFER_STEP_SIZE;
    let todo = not_forwarded(stored, chunk);
    let packets = packets_of(stored, todo);
    let retained = outcome.retained();
    let new = offers(
        packets,
        outcome.transactions(),
        outcome.transaction_places(),
        outcome.forwardable(),
        outcome.accepted,
    );
    chunk.lemma_filter_len(|key: PacketKey| !was_forwarded(stored, key));
    lemma_filter(chunk, |key: PacketKey| !was_forwarded(stored, key));
    lemma_outcome(todo, outcome);
    assert(chunk.no_duplicates());
    assert forall|i: int| 0 <= i < new.len() implies {
        &&& 0 <= retained[i] < todo.len()
        &&& (#[trigger] new[i]).1.message_hash == spec_hash_of(todo[retained[i] as int])
        &&& exists|k: int|
            start <= k < start + chunk.len() && #[trigger] keys[k] == todo[retained[i] as int]
    } by {
        let place = retained[i] as int;
        assert(todo.contains(todo[place]));
        assert(chunk.contains(todo[place]));
        let m = choose|m: int| 0 <= m < chunk.len() && chunk[m] == todo[place];
        assert(keys[start + m] == todo[place]);
        assert(stored.contains_key(spec_hash_of(todo[place])));
    }
    assert forall|i: int| 0 <= i < new.len() implies leads_to(
        keys,
        (#[trigger] new[i]).1,
        start,
        (c + 1) * UNPROCESSED_BUFFER_STEP_SIZE,
    ) by {
        let k = choose|k: int|
            start <= k < start + chunk.len() && #[trigger] keys[k] == todo[retained[i] as int];
        assert(spec_hash_of(keys[k]) == new[i].1.message_hash);
    }
    assert forall|i: int, j: int| 0 <= i < j < new.len() implies (#[trigger] new[i]).1.message_hash
        != (#[trigger] new[j]).1.message_hash by {
        let a = choose|k: int|
            start <= k < start + chunk.len() && #[trigger] keys[k] == todo[retained[i] as int];
        let b = choose|k: int|
            start <= k < start + chunk.len() && #[trigger] keys[k] == todo[retained[j] as int];
        assert(retained[i] < retained[j]);
        assert(todo[retained[i] as int] != todo[retained[j] as int]);
        lemma_distinct_hashes(keys, original, a, b);
    }
}

/// The offers of the first chunks of a pass: each is of another packet of these chunks, and only the
/// last can be one that was refused, after which the forward buffer takes no more.
proof fn lemma_offers<
    T,
    S: FnMut(&SharedPacket) -> Option<T>,
    C: FnMut(&Vec<T>, u64) -> Vec<bool>,
    A: FnMut(&T, &SharedPacket) -> bool,
>(
    sanitize: S,
    check: C,
    try_add: A,
    keys: Seq<PacketKey>,
    stored: Stored,
    calls: ForwardCalls<T>,
    states: Seq<ForwardState<T>>,
    outcomes: Seq<ForwardOutcome<T>>,
    n: int,
)
    requires
        list_matches(keys, stored),
        keys.len() <= usize::MAX,
        well_keyed(stored),
        forall|txs: &Vec<T>, valid: Vec<bool>|
            call_ensures(check, (txs, forwarding_offset()), valid) ==> valid@.len() <= txs@.len(),
        forward_run(sanitize, check, try_add, keys, chunk_count(keys), states, outcomes),
        states.first() == forward_start(stored, calls),
        0 <= n <= chunk_count(keys),
    ensures
        ({
            let offered = states[n].calls.offered;
            let from = calls.offered.len();
            &&& from <= offered.len()
            &&& offered.take(from as int) == calls.offered
            &&& forall|i: int|
                from <= i < offered.len() ==> leads_to(
                    keys,
                    (#[trigger] offered[i]).1,
                    0,
                    n * UNPROCESSED_BUFFER_STEP_SIZE,
                )
            &&& forall|i: int, j: int|
                from <= i < j < offered.len() ==> (#[trigger] offered[i]).1.message_hash != (
                #[trigger] offered[j]).1.message_hash
            &&& forall|i: int| from <= i < offered.len() - 1 ==> (#[trigger] offered[i]).2
            &&& states[n].accepting ==> forall|i: int|
                from <= i < offered.len() ==> (#[trigger] offered[i]).2
            &&& !states[n].accepting ==> from < offered.len() && !offered.last().2
        }),
    decreases n,
{
    let from = calls.offered.len() as int;
    if n == 0 {
        assert(calls.offered.take(from) =~= calls.offered);
    } else {
        let c = n - 1;
        lemma_offers(sanitize, check, try_add, keys, stored, calls, states, outcomes, c);
        let before = states[c];
        let chunk = chunk_of(keys, c);
        let outcome = outcomes[c];
        assert(chunk_forwarded(sanitize, check, try_add, keys, states, outcomes, c));
        let earlier = before.calls.offered;
        let offered = states[n].calls.offered;
        let start = c * UNPROCESSED_BUFFER_STEP_SIZE;
        assert(start < keys.len());
        assert forall|packet: SharedPacket, a: int, b: int| #[trigger]
            leads_to(keys, packet, a, b) && 0 <= a && b <= n
                * UNPROCESSED_BUFFER_STEP_SIZE implies leads_to(
            keys,
            packet,
            0,
            n * UNPROCESSED_BUFFER_STEP_SIZE,
        ) by {
            let k = choose|k: int|
                a <= k < b && 0 <= k < keys.len() && spec_hash_of(#[trigger] keys[k])
                    == packet.message_hash;
            assert(spec_hash_of(keys[k]) == packet.message_hash);
        }
        if before.accepting {
            let todo = not_forwarded(before.stored, chunk);
            let new = offers(
                packets_of(before.stored, todo),
                outcome.transactions(),
                outcome.transaction_places(),
                outcome.forwardable(),
                outcome.accepted,
            );
            lemma_outcome_fits(sanitize, check, try_add, before.stored, todo, outcome);
            law_forwarding_invents_nothing(
                sanitize,
                check,
                try_add,
                keys,
                chunk_count(keys),
                states,
                outcomes,
                c,
            );
            assert forall|hash: MessageHash| #[trigger]
                before.stored.contains_key(hash) implies before.stored[hash].hash() == hash by {
                assert(stored.contains_key(hash));
            }
            lemma_offers_of_chunk(keys, stored, c, before.stored, outcome);
            assert(offered == earlier + new);
            assert(offered.take(from) =~= earlier.take(from));
            assert forall|i: int| from <= i < offered.len() implies leads_to(
                keys,
                (#[trigger] offered[i]).1,
                0,
                n * UNPROCESSED_BUFFER_STEP_SIZE,
            ) by {
                if i < earlier.len() {
                    assert(offered[i] == earlier[i]);
                    assert(leads_to(keys, earlier[i].1, 0, start));
                } else {
                    assert(offered[i] == new[i - earlier.len()]);
                    assert(leads_to(
                        keys,
                        new[i - earlier.len()].1,
                        start,
                        n * UNPROCESSED_BUFFER_STEP_SIZE,
                    ));
                }
            }
            assert forall|i: int, j: int| from <= i < j < offered.len() implies (
            #[trigger] offered[i]).1.message_hash != (#[trigger] offered[j]).1.message_hash by {
                if j < earlier.len() {
                    assert(offered[i] == earlier[i]);
                    assert(offered[j] == earlier[j]);
                } else if i >= earlier.len() {
                    assert(offered[i] == new[i - earlier.len()]);
                    assert(offered[j] == new[j - earlier.len()]);
                } else {
                    assert(offered[i] == earlier[i]);
                    assert(offered[j] == new[j - earlier.len()]);
                    assert(leads_to(keys, earlier[i].1, 0, start));
                    let a = choose|k: int|
                        0 <= k < start && 0 <= k < keys.len() && spec_hash_of(#[trigger] keys[k])
                            == earlier[i].1.message_hash;
                    let b = choose|k: int|
                        start <= k < n * UNPROCESSED_BUFFER_STEP_SIZE && 0 <= k < keys.len()
                            && spec_hash_of(#[trigger] keys[k]) == offered[j].1.message_hash;
                    lemma_distinct_hashes(keys, stored, a, b);
                }
            }
            assert forall|i: int| from <= i < offered.len() - 1 implies (#[trigger] offered[i]).2 by {
                if i < earlier.len() {
                    assert(offered[i] == earlier[i]);
                } else {
                    assert(offered[i] == new[i - earlier.len()]);
                }
            }
            if states[n].accepting {
                assert forall|i: int| from <= i < offered.len() implies (#[trigger] offered[i]).2 by {
                    if i < earlier.len() {
                        assert(offered[i] == earlier[i]);
                    } else {
                        assert(offered[i] == new[i - earlier.len()]);
                    }
                }
            } else {
                assert(offered.last() == new.last());
            }
        } else {
            assert forall|i: int| from <= i < offered.len() implies leads_to(
                keys,
                (#[trigger] offered[i]).1,
                0,
                n * UNPROCESSED_BUFFER_STEP_SIZE,
            ) by {
                assert(leads_to(keys, earlier[i].1, 0, start));
            }
        }
    }
}

/// A pass offers no packet twice, and none after the first that the forward buffer refuses.
pub proof fn law_no_packet_is_offered_twice<
    T,
    S: FnMut(&SharedPacket) -> Option<T>,
    C: FnMut(&Vec<T>, u64) -> Vec<bool>,
    A: FnMut(&T, &SharedPacket) -> bool,
>(
    sanitize: S,
    check: C,
    try_add: A,
    keys: Seq<PacketKey>,
    stored: Stored,
    calls: ForwardCalls<T>,
    states: Seq<ForwardState<T>>,
    outcomes: Seq<ForwardOutcome<T>>,
)
    requires
        list_matches(keys, stored),
        keys.len() <= usize::MAX,
        well_keyed(stored),
        forall|txs: &Vec<T>, valid: Vec<bool>|
            call_ensures(check, (txs, forwarding_offset()), valid) ==> valid@.len() <= txs@.len(),
        forward_run(sanitize, check, try_add, keys, chunk_count(keys), states, outcomes),
        states.first() == forward_start(stored, calls),
    ensures
        ({
            let offered = states.last().calls.offered.skip(calls.offered.len() as int);
            &&& states.last().calls.offered == calls.offered + offered
            &&& forall|i: int, j: int|
                0 <= i < j < offered.len() ==> (#[trigger] offered[i]).1.message_hash != (
                #[trigger] offered[j]).1.message_hash
            &&& forall|i: int| 0 <= i < offered.len() - 1 ==> (#[trigger] offered[i]).2
        }),
{
    let count = chunk_count(keys);
    lemma_offers(sanitize, check, try_add, keys, stored, calls, states, outcomes, count);
    let all = states.last().calls.offered;
    let from = calls.offered.len() as int;
    let offered = all.skip(from);
    assert(all =~= all.take(from) + offered);
    assert forall|i: int, j: int| 0 <= i < j < offered.len() implies (
    #[trigger] offered[i]).1.message_hash != (#[trigger] offered[j]).1.message_hash by {
        assert(offered[i] == all[from + i]);
        assert(offered[j] == all[from + j]);
    }
    assert forall|i: int| 0 <= i < offered.len() - 1 implies (#[trigger] offered[i]).2 by {
        assert(offered[i] == all[from + i]);
    }
}

/// Once the forward buffer has refused a packet, a pass drops no packet any more and calls no
/// service.
pub proof fn law_refusal_keeps_the_rest<T>(
    before: ForwardState<T>,
    chunk: Seq<PacketKey>,
    outcome: ForwardOutcome<T>,
)
    requires
        !before.accepting,
    ensures
        forward_step(before, chunk, outcome).stored == before.stored,
        !forward_step(before, chunk, outcome).accepting,
        forward_step(before, chunk, outcome).calls == before.calls,
{
}

} // verus!
