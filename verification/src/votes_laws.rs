//! What holds of the votes of a validator: which of them is kept, and that one which comes back from
//! processing waits again.

use vstd::prelude::*;

use crate::account_locks::SanitizedTransaction;
use crate::consume::{
    batch_processed_by, ConsumeCalls, ConsumeLimits, ConsumeScannerPayload, Payload,
};
use crate::keys::Pubkey;
use crate::metrics::{FilterForwardingResults, SlotMetrics, VoteBatchInsertionMetrics};
use crate::packet::{ImmutableDeserializedPacket, SharedPacket};
use crate::retention::pick;
use crate::services::{BatchProcessing, Inquiry, PairInquiry};
use crate::thread_local_packets::VoteSource;
use crate::vote_storage::{
    vote_process_run, vote_process_start, vote_process_step, votes_in, VoteProcessState, VoteStorage,
};
use crate::votes::{
    drained, forwardable_place, lemma_insert, lemma_place_of, of_staked, one_per_validator, place_of,
    present_count, supersedes, vote_answers, vote_forward_run, vote_forward_step, vote_forwarded_by,
    vote_in, without_forwarded, Insertion, LatestUnprocessedVotes, LatestValidatorVotePacket,
    VoteForwarding,
};

verus! {

/// Of two votes the one for the later slot takes the other's place; for the same slot the one with
/// the later time does, and one with a time comes behind one without; and where neither is later, it
/// does just where the other was taken and taken votes are replenished.
pub proof fn law_later_vote_takes_the_place(
    vote: LatestValidatorVotePacket,
    other: LatestValidatorVotePacket,
    should_replenish_taken_votes: bool,
)
    ensures
        vote.slot != other.slot ==> (supersedes(vote, other, should_replenish_taken_votes)
            <==> vote.slot > other.slot),
        vote.slot == other.slot && vote.timestamp is None && other.timestamp is Some
            ==> !supersedes(vote, other, should_replenish_taken_votes),
        vote.slot == other.slot && vote.timestamp is Some && other.timestamp is None ==> supersedes(
            vote,
            other,
            should_replenish_taken_votes,
        ),
        vote.slot == other.slot && vote.timestamp is Some && other.timestamp is Some
            && vote.timestamp->0 != other.timestamp->0 ==> (supersedes(
            vote,
            other,
            should_replenish_taken_votes,
        ) <==> vote.timestamp->0 > other.timestamp->0),
        vote.slot == other.slot && vote.timestamp == other.timestamp ==> (supersedes(
            vote,
            other,
            should_replenish_taken_votes,
        ) <==> should_replenish_taken_votes && other.vote is None),
{
}

/// A packet holds a vote where it is one, unless it is a legacy one and those are not taken any more:
/// the vote is for the slot and at the time that the packet says, waits, and was not forwarded.
pub proof fn law_packet_holds_its_vote(
    packet: SharedPacket,
    vote_source: VoteSource,
    deprecate_legacy_vote_ixs: bool,
)
    ensures
        packet.vote is None ==> vote_in(packet, vote_source, deprecate_legacy_vote_ixs) is None,
        packet.vote matches Some(details) ==> (vote_in(
            packet,
            vote_source,
            deprecate_legacy_vote_ixs,
        ) is None <==> details.is_legacy && deprecate_legacy_vote_ixs),
        packet.vote matches Some(details) ==> (vote_in(
            packet,
            vote_source,
            deprecate_legacy_vote_ixs,
        ) matches Some(vote) ==> {
            &&& vote.vote_pubkey == details.vote_pubkey
            &&& vote.slot == details.slot
            &&& vote.timestamp == details.timestamp
            &&& vote.vote == Some(packet)
            &&& vote.vote_source == vote_source
            &&& !vote.forwarded
        }),
{
}

/// What putting a vote in does, over a list in which no validator has two. A vote of a validator
/// without stake is ignored. One of a validator without a vote is added. Otherwise it is replaced or
/// dropped, in the place of the validator's vote, and every other vote stays. What is dropped is
/// counted by where it came from, and a taken vote that is replaced is not counted.
pub proof fn law_vote_is_put_in_its_place(
    before: Insertion,
    staked: Seq<Pubkey>,
    vote: LatestValidatorVotePacket,
    should_replenish_taken_votes: bool,
    i: int,
)
    requires
        one_per_validator(before.votes),
    ensures
        ({
            let after = before.insert(staked, vote, should_replenish_taken_votes);
            let is_mine = 0 <= i < before.votes.len() && before.votes[i].vote_pubkey
                == vote.vote_pubkey;
            let is_later = supersedes(vote, before.votes[i], should_replenish_taken_votes);
            let dropped = if is_later {
                before.votes[i]
            } else {
                vote
            };
            &&& !staked.contains(vote.vote_pubkey) ==> after == before
            &&& staked.contains(vote.vote_pubkey) && (forall|k: int|
                0 <= k < before.votes.len() ==> (#[trigger] before.votes[k]).vote_pubkey
                    != vote.vote_pubkey) ==> {
                &&& after.votes == before.votes.push(vote)
                &&& after.dropped_gossip == before.dropped_gossip
                &&& after.dropped_tpu == before.dropped_tpu
            }
            &&& staked.contains(vote.vote_pubkey) && is_mine ==> {
                &&& after.votes.len() == before.votes.len()
                &&& after.votes[i] == if is_later {
                    vote
                } else {
                    before.votes[i]
                }
                &&& forall|k: int|
                    0 <= k < before.votes.len() && k != i ==> #[trigger] after.votes[k]
                        == before.votes[k]
                &&& after.dropped_gossip == before.dropped_gossip + if (!is_later
                    || before.votes[i].vote is Some) && dropped.vote_source == VoteSource::Gossip {
                    1int
                } else {
                    0
                }
                &&& after.dropped_tpu == before.dropped_tpu + if (!is_later
                    || before.votes[i].vote is Some) && dropped.vote_source == VoteSource::Tpu {
                    1int
                } else {
                    0
                }
            }
        }),
{
    lemma_place_of(before.votes, vote.vote_pubkey, 0);
    let place = place_of(before.votes, vote.vote_pubkey, 0);
    if 0 <= i < before.votes.len() && before.votes[i].vote_pubkey == vote.vote_pubkey {
        if place < i {
            assert(before.votes[place].vote_pubkey != before.votes[i].vote_pubkey);
        }
        assert(place == i);
    }
}

/// Putting in one list of votes and then another is putting in both, one behind the other, and a list
/// of one vote is that vote.
pub proof fn law_votes_are_put_in_one_by_one(
    start: Insertion,
    staked: Seq<Pubkey>,
    votes: Seq<LatestValidatorVotePacket>,
    more: Seq<LatestValidatorVotePacket>,
    vote: LatestValidatorVotePacket,
    should_replenish_taken_votes: bool,
)
    ensures
        start.insert_all(staked, votes + more, should_replenish_taken_votes) == start.insert_all(
            staked,
            votes,
            should_replenish_taken_votes,
        ).insert_all(staked, more, should_replenish_taken_votes),
        start.insert_all(staked, seq![vote], should_replenish_taken_votes) == start.insert(
            staked,
            vote,
            should_replenish_taken_votes,
        ),
        start.insert_all(staked, Seq::empty(), should_replenish_taken_votes) == start,
    decreases more.len(),
{
    reveal_with_fuel(Insertion::insert_all, 2);
    assert(seq![vote].drop_last() =~= Seq::empty());
    assert(seq![vote].last() == vote);
    if more.len() == 0 {
        assert(votes + more =~= votes);
    } else {
        law_votes_are_put_in_one_by_one(
            start,
            staked,
            votes,
            more.drop_last(),
            vote,
            should_replenish_taken_votes,
        );
        assert((votes + more).drop_last() =~= votes + more.drop_last());
        assert((votes + more).last() == more.last());
    }
}

/// The votes that wait add up: those of two lists together are the sum, and one vote counts where it
/// was not taken.
pub proof fn law_waiting_votes_add_up(
    a: Seq<LatestValidatorVotePacket>,
    b: Seq<LatestValidatorVotePacket>,
    vote: LatestValidatorVotePacket,
)
    ensures
        present_count(a + b) == present_count(a) + present_count(b),
        present_count(seq![vote]) == if vote.vote is Some {
            1nat
        } else {
            0nat
        },
        present_count(Seq::empty()) == 0,
    decreases b.len(),
{
    reveal_with_fuel(present_count, 2);
    assert(seq![vote].drop_last() =~= Seq::empty());
    assert(seq![vote].last() == vote);
    if b.len() == 0 {
        assert(a + b =~= a);
    } else {
        law_waiting_votes_add_up(a, b.drop_last(), vote);
        assert((a + b).drop_last() =~= a + b.drop_last());
    }
}

/// Lists in which votes wait in the same places have as many votes that wait.
pub proof fn law_votes_waiting_alike_count_alike(
    a: Seq<LatestValidatorVotePacket>,
    b: Seq<LatestValidatorVotePacket>,
)
    requires
        a.len() == b.len(),
        forall|j: int|
            0 <= j < a.len() ==> ((#[trigger] a[j]).vote is Some <==> (#[trigger] b[j]).vote is Some),
    ensures
        present_count(a) == present_count(b),
    decreases a.len(),
{
    if a.len() > 0 {
        let last = a.len() - 1;
        assert(a[last].vote is Some <==> b[last].vote is Some);
        assert forall|j: int| 0 <= j < a.drop_last().len() implies ((
        #[trigger] a.drop_last()[j]).vote is Some <==> (#[trigger] b.drop_last()[j]).vote is Some) by {
            assert(a[j].vote is Some <==> b[j].vote is Some);
        }
        law_votes_waiting_alike_count_alike(a.drop_last(), b.drop_last());
    }
}

/// The packets of the votes in a list of packets, where they wait.
proof fn lemma_votes_in(
    packets: Seq<SharedPacket>,
    vote_source: VoteSource,
    deprecate_legacy_vote_ixs: bool,
)
    ensures
        ({
            let votes = votes_in(packets, vote_source, deprecate_legacy_vote_ixs);
            &&& forall|k: int|
                0 <= k < votes.len() ==> (#[trigger] votes[k]).vote is Some && exists|i: int|
                    0 <= i < packets.len() && vote_in(
                        #[trigger] packets[i],
                        vote_source,
                        deprecate_legacy_vote_ixs,
                    ) == Some(votes[k])
            &&& forall|i: int|
                0 <= i < packets.len() && vote_in(
                    #[trigger] packets[i],
                    vote_source,
                    deprecate_legacy_vote_ixs,
                ) is Some ==> votes.contains(
                    vote_in(packets[i], vote_source, deprecate_legacy_vote_ixs)->0,
                )
        }),
    decreases packets.len(),
{
    let votes = votes_in(packets, vote_source, deprecate_legacy_vote_ixs);
    if packets.len() > 0 {
        let shorter = packets.drop_last();
        let last = packets.len() - 1;
        lemma_votes_in(shorter, vote_source, deprecate_legacy_vote_ixs);
        let before = votes_in(shorter, vote_source, deprecate_legacy_vote_ixs);
        assert(Seq::new(
            packets.len(),
            |i: int| vote_in(packets[i], vote_source, deprecate_legacy_vote_ixs),
        ).drop_last() =~= Seq::new(
            shorter.len(),
            |i: int| vote_in(shorter[i], vote_source, deprecate_legacy_vote_ixs),
        ));
        assert forall|k: int| 0 <= k < votes.len() implies (#[trigger] votes[k]).vote is Some
            && exists|i: int|
            0 <= i < packets.len() && vote_in(
                #[trigger] packets[i],
                vote_source,
                deprecate_legacy_vote_ixs,
            ) == Some(votes[k]) by {
            if k < before.len() {
                assert(votes[k] == before[k]);
                let i = choose|i: int|
                    0 <= i < shorter.len() && vote_in(
                        #[trigger] shorter[i],
                        vote_source,
                        deprecate_legacy_vote_ixs,
                    ) == Some(before[k]);
                assert(packets[i] == shorter[i]);
            } else {
                assert(vote_in(packets[last], vote_source, deprecate_legacy_vote_ixs) == Some(
                    votes[k],
                ));
            }
        }
        assert forall|i: int|
            0 <= i < packets.len() && vote_in(
                #[trigger] packets[i],
                vote_source,
                deprecate_legacy_vote_ixs,
            ) is Some implies votes.contains(
            vote_in(packets[i], vote_source, deprecate_legacy_vote_ixs)->0,
        ) by {
            let vote = vote_in(packets[i], vote_source, deprecate_legacy_vote_ixs)->0;
            if i < last {
                assert(shorter[i] == packets[i]);
                let k = choose|k: int| 0 <= k < before.len() && before[k] == vote;
                assert(votes[k] == vote);
            } else {
                assert(votes[before.len() as int] == vote);
            }
        }
    }
}

/// The validator has a vote that waits, for no earlier slot.
spec fn waits_for(votes: Seq<LatestValidatorVotePacket>, vote_pubkey: Pubkey, slot: u64) -> bool {
    exists|j: int|
        0 <= j < votes.len() && (#[trigger] votes[j]).vote_pubkey == vote_pubkey
            && votes[j].vote is Some && votes[j].slot >= slot
}

/// No later vote of the validator was taken.
spec fn is_open_for(
    votes: Seq<LatestValidatorVotePacket>,
    vote: LatestValidatorVotePacket,
) -> bool {
    forall|j: int|
        0 <= j < votes.len() && (#[trigger] votes[j]).vote_pubkey == vote.vote_pubkey ==> {
            ||| votes[j].vote is Some
            ||| supersedes(vote, votes[j], true)
        }
}

/// Each vote stays, or one that waits and is for no earlier slot has come in its place.
spec fn goes_on(
    before: Seq<LatestValidatorVotePacket>,
    after: Seq<LatestValidatorVotePacket>,
) -> bool {
    &&& before.len() <= after.len()
    &&& forall|j: int|
        0 <= j < before.len() ==> {
            &&& (#[trigger] after[j]).vote_pubkey == before[j].vote_pubkey
            &&& after[j] == before[j] || (after[j].vote is Some && after[j].slot >= before[j].slot)
        }
    &&& forall|j: int| before.len() <= j < after.len() ==> (#[trigger] after[j]).vote is Some
}

/// A vote that waits goes in.
proof fn lemma_vote_goes_in(
    before: Insertion,
    staked: Seq<Pubkey>,
    vote: LatestValidatorVotePacket,
)
    requires
        one_per_validator(before.votes),
        vote.vote is Some,
    ensures
        goes_on(before.votes, before.insert(staked, vote, true).votes),
        one_per_validator(before.insert(staked, vote, true).votes),
        staked.contains(vote.vote_pubkey) && is_open_for(before.votes, vote) ==> waits_for(
            before.insert(staked, vote, true).votes,
            vote.vote_pubkey,
            vote.slot,
        ),
        forall|j: int|
            0 <= j < before.votes.len() && (#[trigger] before.votes[j]).vote_pubkey
                != vote.vote_pubkey ==> before.insert(staked, vote, true).votes[j]
                == before.votes[j],
{
    lemma_insert(before, staked, vote, true);
    lemma_place_of(before.votes, vote.vote_pubkey, 0);
    let after = before.insert(staked, vote, true).votes;
    let place = place_of(before.votes, vote.vote_pubkey, 0);
    if staked.contains(vote.vote_pubkey) {
        assert(after[place].vote_pubkey == vote.vote_pubkey);
    }
}

/// What goes on twice goes on.
proof fn lemma_goes_on(
    a: Seq<LatestValidatorVotePacket>,
    b: Seq<LatestValidatorVotePacket>,
    c: Seq<LatestValidatorVotePacket>,
)
    requires
        goes_on(a, b),
        goes_on(b, c),
    ensures
        goes_on(a, c),
        forall|vote_pubkey: Pubkey, slot: u64| #[trigger]
            waits_for(b, vote_pubkey, slot) ==> waits_for(c, vote_pubkey, slot),
        forall|vote: LatestValidatorVotePacket| #[trigger]
            is_open_for(a, vote) && (forall|j: int|
                a.len() <= j < b.len() ==> (#[trigger] b[j]).vote is Some) ==> is_open_for(b, vote),
{
    assert forall|j: int| 0 <= j < a.len() implies {
        &&& (#[trigger] c[j]).vote_pubkey == a[j].vote_pubkey
        &&& c[j] == a[j] || (c[j].vote is Some && c[j].slot >= a[j].slot)
    } by {
        assert(b[j].vote_pubkey == a[j].vote_pubkey);
    }
    assert forall|j: int| a.len() <= j < c.len() implies (#[trigger] c[j]).vote is Some by {
        if j < b.len() {
            assert(b[j].vote is Some);
        }
    }
    assert forall|vote_pubkey: Pubkey, slot: u64| #[trigger]
        waits_for(b, vote_pubkey, slot) implies waits_for(c, vote_pubkey, slot) by {
        let j = choose|j: int|
            0 <= j < b.len() && (#[trigger] b[j]).vote_pubkey == vote_pubkey && b[j].vote is Some
                && b[j].slot >= slot;
        assert(c[j].vote_pubkey == vote_pubkey);
    }
    assert forall|vote: LatestValidatorVotePacket| #[trigger]
        is_open_for(a, vote) implies is_open_for(b, vote) by {
        assert forall|j: int|
            0 <= j < b.len() && (#[trigger] b[j]).vote_pubkey == vote.vote_pubkey implies {
            ||| b[j].vote is Some
            ||| supersedes(vote, b[j], true)
        } by {
            if j < a.len() {
                assert(a[j].vote_pubkey == vote.vote_pubkey);
            }
        }
    }
}

/// Votes that wait go in, one after the other.
proof fn lemma_votes_go_in(
    start: Insertion,
    staked: Seq<Pubkey>,
    votes: Seq<LatestValidatorVotePacket>,
)
    requires
        one_per_validator(start.votes),
        forall|k: int| 0 <= k < votes.len() ==> (#[trigger] votes[k]).vote is Some,
    ensures
        goes_on(start.votes, start.insert_all(staked, votes, true).votes),
        one_per_validator(start.insert_all(staked, votes, true).votes),
        forall|k: int|
            0 <= k < votes.len() && staked.contains((#[trigger] votes[k]).vote_pubkey)
                && is_open_for(start.votes, votes[k]) ==> waits_for(
                start.insert_all(staked, votes, true).votes,
                votes[k].vote_pubkey,
                votes[k].slot,
            ),
        forall|j: int|
            0 <= j < start.votes.len() && (forall|k: int|
                0 <= k < votes.len() ==> (#[trigger] votes[k]).vote_pubkey
                    != start.votes[j].vote_pubkey) ==> start.insert_all(
                staked,
                votes,
                true,
            ).votes[j] == #[trigger] start.votes[j],
    decreases votes.len(),
{
    if votes.len() > 0 {
        let front = votes.drop_last();
        let last = votes.len() - 1;
        assert forall|k: int| 0 <= k < front.len() implies (#[trigger] front[k]).vote is Some by {
            assert(votes[k].vote is Some);
        }
        lemma_votes_go_in(start, staked, front);
        let middle = start.insert_all(staked, front, true);
        let end = start.insert_all(staked, votes, true);
        assert(votes[last].vote is Some);
        lemma_vote_goes_in(middle, staked, votes.last());
        lemma_goes_on(start.votes, middle.votes, end.votes);
        assert forall|k: int|
            0 <= k < votes.len() && staked.contains((#[trigger] votes[k]).vote_pubkey)
                && is_open_for(start.votes, votes[k]) implies waits_for(
            end.votes,
            votes[k].vote_pubkey,
            votes[k].slot,
        ) by {
            if k < last {
                assert(front[k] == votes[k]);
            } else {
                assert(is_open_for(middle.votes, votes[k]));
            }
        }
        assert forall|j: int|
            0 <= j < start.votes.len() && (forall|k: int|
                0 <= k < votes.len() ==> (#[trigger] votes[k]).vote_pubkey
                    != start.votes[j].vote_pubkey) implies end.votes[j]
            == #[trigger] start.votes[j] by {
            assert forall|k: int| 0 <= k < front.len() implies (#[trigger] front[k]).vote_pubkey
                != start.votes[j].vote_pubkey by {
                assert(votes[k].vote_pubkey != start.votes[j].vote_pubkey);
            }
            assert(middle.votes[j] == start.votes[j]);
            assert(votes[last].vote_pubkey != start.votes[j].vote_pubkey);
        }
    }
}

/// A batch whose votes were processed: the votes to retry that were put back in.
proof fn lemma_batch_step<
    S: FnMut(&SharedPacket) -> Option<SanitizedTransaction>,
    P: FnMut(&SanitizedTransaction) -> bool,
    F: FnMut(&Vec<SharedPacket>, ConsumeScannerPayload) -> (Option<Vec<usize>>, ConsumeScannerPayload),
>(
    sanitize: S,
    check_fee_payer: P,
    processing_function: F,
    limits: ConsumeLimits,
    staked: Seq<Pubkey>,
    deprecate_legacy_vote_ixs: bool,
    packets: Seq<SharedPacket>,
    before: VoteProcessState,
    after: VoteProcessState,
) -> (retried: Seq<SharedPacket>)
    requires
        vote_process_step(
            sanitize,
            check_fee_payer,
            processing_function,
            limits,
            staked,
            deprecate_legacy_vote_ixs,
            packets,
            before,
            after,
        ),
        before.scan.action() is Process,
        one_per_validator(before.votes),
    ensures
        after.calls.batches.len() == before.calls.batches.len() + 1,
        after.calls.batches.drop_last() == before.calls.batches,
        goes_on(before.votes, after.votes),
        one_per_validator(after.votes),
        ({
            let call = after.calls.batches.last();
            retried == match call.retryable {
                Some(places) => Seq::new(
                    places.len(),
                    |k: int| call.batch[places[k] as int],
                ),
                None => call.batch,
            }
        }),
        after.votes == Insertion::start(before.votes).insert_all(
            staked,
            votes_in(retried, VoteSource::Tpu, deprecate_legacy_vote_ixs),
            true,
        ).votes,
        forall|k: int|
            0 <= k < retried.len() && is_retried_vote(
                staked,
                deprecate_legacy_vote_ixs,
                #[trigger] retried[k],
            ) && is_open_for(
                before.votes,
                vote_in(retried[k], VoteSource::Tpu, deprecate_legacy_vote_ixs)->0,
            ) ==> waits_for(
                after.votes,
                retried[k].vote->0.vote_pubkey,
                retried[k].vote->0.slot,
            ),
{
    let (retryable, returned) = choose|retryable: Option<Seq<usize>>, returned: Payload|
        {
            &&& #[trigger] batch_processed_by(
                processing_function,
                pick(packets, before.scan.batch()),
                before.payload,
                retryable,
                returned,
            )
            &&& after == (VoteProcessState {
                scan: before.scan.next_batch(),
                payload: returned,
                votes: Insertion::start(before.votes).insert_all(
                    staked,
                    votes_in(
                        crate::vote_storage::to_retry(
                            pick(packets, before.scan.batch()),
                            retryable,
                        ),
                        VoteSource::Tpu,
                        deprecate_legacy_vote_ixs,
                    ),
                    true,
                ).votes,
                calls: ConsumeCalls {
                    batches: before.calls.batches.push(
                        crate::services::BatchCall {
                            batch: pick(packets, before.scan.batch()),
                            given: before.payload,
                            retryable,
                            returned,
                        },
                    ),
                    ..before.calls
                },
            })
        };
    let call = after.calls.batches.last();
    let retried = match call.retryable {
        Some(places) => Seq::new(places.len(), |k: int| call.batch[places[k] as int]),
        None => call.batch,
    };
    assert(after.calls.batches.drop_last() =~= before.calls.batches);
    assert(retried =~= crate::vote_storage::to_retry(call.batch, retryable));
    let votes = votes_in(retried, VoteSource::Tpu, deprecate_legacy_vote_ixs);
    lemma_votes_in(retried, VoteSource::Tpu, deprecate_legacy_vote_ixs);
    lemma_votes_go_in(Insertion::start(before.votes), staked, votes);
    assert forall|k: int|
        0 <= k < retried.len() && is_retried_vote(
            staked,
            deprecate_legacy_vote_ixs,
            #[trigger] retried[k],
        ) && is_open_for(
            before.votes,
            vote_in(retried[k], VoteSource::Tpu, deprecate_legacy_vote_ixs)->0,
        ) implies waits_for(
        after.votes,
        retried[k].vote->0.vote_pubkey,
        retried[k].vote->0.slot,
    ) by {
        let vote = vote_in(retried[k], VoteSource::Tpu, deprecate_legacy_vote_ixs)->0;
        assert(votes.contains(vote));
        let m = choose|m: int| 0 <= m < votes.len() && votes[m] == vote;
        assert(staked.contains(votes[m].vote_pubkey));
    }
    retried
}

/// The packet is a vote that is still taken, of a validator that still has stake.
spec fn is_retried_vote(
    staked: Seq<Pubkey>,
    deprecate_legacy_vote_ixs: bool,
    packet: SharedPacket,
) -> bool {
    packet.vote matches Some(details) && staked.contains(details.vote_pubkey) && !(
    deprecate_legacy_vote_ixs && details.is_legacy)
}

/// A vote of a batch that is to be retried waits again: where the processing function names no votes
/// at all, every vote of the batch; where it names some, those. After the step its validator has a
/// vote that waits, for the same slot or a later one. The validator still has stake, and no vote of
/// its that is later was taken before.
pub proof fn law_retried_votes_wait_again<
    S: FnMut(&SharedPacket) -> Option<SanitizedTransaction>,
    P: FnMut(&SanitizedTransaction) -> bool,
    F: FnMut(&Vec<SharedPacket>, ConsumeScannerPayload) -> (Option<Vec<usize>>, ConsumeScannerPayload),
>(
    sanitize: S,
    check_fee_payer: P,
    processing_function: F,
    limits: ConsumeLimits,
    staked: Seq<Pubkey>,
    deprecate_legacy_vote_ixs: bool,
    packets: Seq<SharedPacket>,
    before: VoteProcessState,
    after: VoteProcessState,
    i: int,
)
    requires
        vote_process_step(
            sanitize,
            check_fee_payer,
            processing_function,
            limits,
            staked,
            deprecate_legacy_vote_ixs,
            packets,
            before,
            after,
        ),
        before.scan.action() is Process,
        one_per_validator(before.votes),
        0 <= i < after.calls.batches.last().batch.len() <= usize::MAX,
        after.calls.batches.last().retryable matches Some(places) ==> places.contains(i as usize),
        ({
            let packet = after.calls.batches.last().batch[i];
            packet.vote matches Some(details) && {
                &&& staked.contains(details.vote_pubkey)
                &&& !details.is_legacy || !deprecate_legacy_vote_ixs
                &&& forall|j: int|
                    0 <= j < before.votes.len() && (#[trigger] before.votes[j]).vote_pubkey
                        == details.vote_pubkey && before.votes[j].vote is None ==> {
                        ||| before.votes[j].slot < details.slot
                        ||| before.votes[j].slot == details.slot && {
                            ||| before.votes[j].timestamp == details.timestamp
                            ||| before.votes[j].timestamp is None
                            ||| details.timestamp is Some && before.votes[j].timestamp->0
                                < details.timestamp->0
                        }
                    }
            }
        }),
    ensures
        ({
            let details = after.calls.batches.last().batch[i].vote->0;
            exists|j: int|
                0 <= j < after.votes.len() && (#[trigger] after.votes[j]).vote_pubkey
                    == details.vote_pubkey && after.votes[j].vote is Some && after.votes[j].slot
                    >= details.slot
        }),
{
    let retried = lemma_batch_step(
        sanitize,
        check_fee_payer,
        processing_function,
        limits,
        staked,
        deprecate_legacy_vote_ixs,
        packets,
        before,
        after,
    );
    let call = after.calls.batches.last();
    let packet = call.batch[i];
    let k = match call.retryable {
        Some(places) => choose|k: int| 0 <= k < places.len() && places[k] == i as usize,
        None => i,
    };
    assert(retried[k] == packet);
    let vote = vote_in(packet, VoteSource::Tpu, deprecate_legacy_vote_ixs)->0;
    assert(is_open_for(before.votes, vote));
    assert(is_retried_vote(staked, deprecate_legacy_vote_ixs, retried[k]));
}

/// The votes of a batch that are not to be retried are not put back in: where no packet to retry is a
/// vote of a validator, its vote stays as it is.
pub proof fn law_other_votes_are_not_put_back<
    S: FnMut(&SharedPacket) -> Option<SanitizedTransaction>,
    P: FnMut(&SanitizedTransaction) -> bool,
    F: FnMut(&Vec<SharedPacket>, ConsumeScannerPayload) -> (Option<Vec<usize>>, ConsumeScannerPayload),
>(
    sanitize: S,
    check_fee_payer: P,
    processing_function: F,
    limits: ConsumeLimits,
    staked: Seq<Pubkey>,
    deprecate_legacy_vote_ixs: bool,
    packets: Seq<SharedPacket>,
    before: VoteProcessState,
    after: VoteProcessState,
    j: int,
)
    requires
        vote_process_step(
            sanitize,
            check_fee_payer,
            processing_function,
            limits,
            staked,
            deprecate_legacy_vote_ixs,
            packets,
            before,
            after,
        ),
        before.scan.action() is Process,
        one_per_validator(before.votes),
        0 <= j < before.votes.len(),
        ({
            let call = after.calls.batches.last();
            call.retryable matches Some(places) && forall|k: int|
                0 <= k < places.len() ==> {
                    let packet = call.batch[#[trigger] places[k] as int];
                    packet.vote is None || packet.vote->0.vote_pubkey != before.votes[j].vote_pubkey
                }
        }),
    ensures
        after.votes.len() >= before.votes.len(),
        after.votes[j] == before.votes[j],
{
    let retried = lemma_batch_step(
        sanitize,
        check_fee_payer,
        processing_function,
        limits,
        staked,
        deprecate_legacy_vote_ixs,
        packets,
        before,
        after,
    );
    let votes = votes_in(retried, VoteSource::Tpu, deprecate_legacy_vote_ixs);
    lemma_votes_in(retried, VoteSource::Tpu, deprecate_legacy_vote_ixs);
    lemma_votes_go_in(Insertion::start(before.votes), staked, votes);
    assert forall|k: int| 0 <= k < votes.len() implies (#[trigger] votes[k]).vote_pubkey
        != Insertion::start(before.votes).votes[j].vote_pubkey by {
        let i = choose|i: int|
            0 <= i < retried.len() && vote_in(
                #[trigger] retried[i],
                VoteSource::Tpu,
                deprecate_legacy_vote_ixs,
            ) == Some(votes[k]);
        let places = after.calls.batches.last().retryable->0;
        assert(retried[i] == after.calls.batches.last().batch[places[i] as int]);
    }
}

/// Taking votes out in an order of validators empties just the votes of these validators, in their
/// places, and changes nothing else of them. The packets that come out are those of the votes that
/// waited there, and there are as many as wait less afterwards.
pub proof fn law_votes_in_the_order_are_taken(
    votes: Seq<LatestValidatorVotePacket>,
    order: Seq<Pubkey>,
)
    requires
        one_per_validator(votes),
    ensures
        ({
            let (after, packets) = drained(votes, order);
            &&& one_per_validator(after)
            &&& after.len() == votes.len()
            &&& forall|j: int|
                0 <= j < votes.len() ==> {
                    let vote = votes[j];
                    let left = #[trigger] after[j];
                    &&& left.vote_pubkey == vote.vote_pubkey
                    &&& left.vote_source == vote.vote_source
                    &&& left.slot == vote.slot
                    &&& left.timestamp == vote.timestamp
                    &&& left.forwarded == vote.forwarded
                    &&& left.vote == if order.contains(vote.vote_pubkey) {
                        None
                    } else {
                        vote.vote
                    }
                }
            &&& forall|j: int|
                0 <= j < votes.len() && (#[trigger] votes[j]).vote is Some && order.contains(
                    votes[j].vote_pubkey,
                ) ==> packets.contains(votes[j].vote->0)
            &&& forall|k: int|
                0 <= k < packets.len() ==> exists|j: int|
                    0 <= j < votes.len() && (#[trigger] votes[j]).vote == Some(
                        #[trigger] packets[k],
                    ) && order.contains(votes[j].vote_pubkey)
            &&& packets.len() + present_count(after) == present_count(votes)
        }),
    decreases order.len(),
{
    let (after, packets) = drained(votes, order);
    if order.len() > 0 {
        let front = order.drop_last();
        let validator = order.last();
        law_votes_in_the_order_are_taken(votes, front);
        let (rest, taken) = drained(votes, front);
        lemma_place_of(rest, validator, 0);
        let place = place_of(rest, validator, 0);
        assert forall|key: Pubkey| #[trigger] order.contains(key) <==> front.contains(key) || key
            == validator by {
            if order.contains(key) {
                let k = choose|k: int| 0 <= k < order.len() && order[k] == key;
                if k < front.len() {
                    assert(front[k] == key);
                }
            }
            if front.contains(key) {
                let k = choose|k: int| 0 <= k < front.len() && front[k] == key;
                assert(order[k] == key);
            }
            assert(order[front.len() as int] == validator);
        }
        assert forall|j: int| 0 <= j < votes.len() implies {
            let vote = votes[j];
            let left = #[trigger] after[j];
            &&& left.vote_pubkey == vote.vote_pubkey
            &&& left.vote_source == vote.vote_source
            &&& left.slot == vote.slot
            &&& left.timestamp == vote.timestamp
            &&& left.forwarded == vote.forwarded
            &&& left.vote == if order.contains(vote.vote_pubkey) {
                None
            } else {
                vote.vote
            }
        } by {
            assert(rest[j].vote_pubkey == votes[j].vote_pubkey);
            if votes[j].vote_pubkey == validator && j != place {
                if j < place {
                    assert(rest[j].vote_pubkey != validator);
                } else {
                    assert(rest[place].vote_pubkey != rest[j].vote_pubkey);
                }
            }
        }
        assert forall|i: int, j: int| 0 <= i < j < after.len() implies (
        #[trigger] after[i]).vote_pubkey != (#[trigger] after[j]).vote_pubkey by {
            assert(votes[i].vote_pubkey != votes[j].vote_pubkey);
        }
        assert forall|j: int|
            0 <= j < votes.len() && (#[trigger] votes[j]).vote is Some && order.contains(
                votes[j].vote_pubkey,
            ) implies packets.contains(votes[j].vote->0) by {
            assert(rest[j].vote_pubkey == votes[j].vote_pubkey);
            if front.contains(votes[j].vote_pubkey) {
                let k = choose|k: int| 0 <= k < taken.len() && taken[k] == votes[j].vote->0;
                assert(packets[k] == taken[k]);
            } else {
                if j < place {
                    assert(rest[j].vote_pubkey != validator);
                } else if place < j {
                    assert(rest[place].vote_pubkey != rest[j].vote_pubkey);
                }
                assert(packets[taken.len() as int] == votes[j].vote->0);
            }
        }
        assert forall|k: int| 0 <= k < packets.len() implies exists|j: int|
            0 <= j < votes.len() && (#[trigger] votes[j]).vote == Some(#[trigger] packets[k])
                && order.contains(votes[j].vote_pubkey) by {
            if k < taken.len() {
                assert(packets[k] == taken[k]);
                let j = choose|j: int|
                    0 <= j < votes.len() && (#[trigger] votes[j]).vote == Some(taken[k])
                        && front.contains(votes[j].vote_pubkey);
                assert(order.contains(votes[j].vote_pubkey));
            } else {
                assert(rest[place].vote_pubkey == votes[place].vote_pubkey);
                assert(votes[place].vote == Some(packets[k]));
            }
        }
        if place < rest.len() && rest[place].vote is Some {
            lemma_one_less_waits(rest, place);
        }
    } else {
        assert forall|j: int| 0 <= j < votes.len() implies !order.contains(
            (#[trigger] votes[j]).vote_pubkey,
        ) by {}
    }
}

/// A vote less waits.
proof fn lemma_one_less_waits(votes: Seq<LatestValidatorVotePacket>, place: int)
    requires
        0 <= place < votes.len(),
        votes[place].vote is Some,
    ensures
        present_count(votes.update(place, crate::votes::as_taken(votes[place]))) == present_count(
            votes,
        ) - 1,
    decreases votes.len(),
{
    let after = votes.update(place, crate::votes::as_taken(votes[place]));
    if place == votes.len() - 1 {
        assert(after.drop_last() =~= votes.drop_last());
    } else {
        assert(after.drop_last() =~= votes.drop_last().update(
            place,
            crate::votes::as_taken(votes[place]),
        ));
        lemma_one_less_waits(votes.drop_last(), place);
    }
}

/// What has become of the votes after some steps: each vote stays or a later one that waits has come
/// in its place, and every vote of a batch for which no places were named waits again.
proof fn lemma_votes_of_a_run<
    S: FnMut(&SharedPacket) -> Option<SanitizedTransaction>,
    P: FnMut(&SanitizedTransaction) -> bool,
    F: FnMut(&Vec<SharedPacket>, ConsumeScannerPayload) -> (Option<Vec<usize>>, ConsumeScannerPayload),
>(
    sanitize: S,
    check_fee_payer: P,
    processing_function: F,
    limits: ConsumeLimits,
    staked: Seq<Pubkey>,
    deprecate_legacy_vote_ixs: bool,
    packets: Seq<SharedPacket>,
    states: Seq<VoteProcessState>,
    n: int,
)
    requires
        vote_process_run(
            sanitize,
            check_fee_payer,
            processing_function,
            limits,
            staked,
            deprecate_legacy_vote_ixs,
            packets,
            states,
        ),
        one_per_validator(states.first().votes),
        0 <= n < states.len(),
    ensures
        one_per_validator(states[n].votes),
        goes_on(states.first().votes, states[n].votes),
        states.first().calls.batches.len() <= states[n].calls.batches.len(),
        forall|b: int, k: int|
            #![trigger states[n].calls.batches[b].batch[k]]
            states.first().calls.batches.len() <= b < states[n].calls.batches.len() && 0 <= k
                < states[n].calls.batches[b].batch.len() && states[n].calls.batches[b].retryable is None
                && is_retried_vote(
                staked,
                deprecate_legacy_vote_ixs,
                states[n].calls.batches[b].batch[k],
            ) && is_open_for(
                states.first().votes,
                vote_in(
                    states[n].calls.batches[b].batch[k],
                    VoteSource::Tpu,
                    deprecate_legacy_vote_ixs,
                )->0,
            ) ==> waits_for(
                states[n].votes,
                states[n].calls.batches[b].batch[k].vote->0.vote_pubkey,
                states[n].calls.batches[b].batch[k].vote->0.slot,
            ),
    decreases n,
{
    if n > 0 {
        lemma_votes_of_a_run(
            sanitize,
            check_fee_payer,
            processing_function,
            limits,
            staked,
            deprecate_legacy_vote_ixs,
            packets,
            states,
            n - 1,
        );
        let first = states.first();
        let before = states[n - 1];
        let after = states[n];
        assert(vote_process_step(
            sanitize,
            check_fee_payer,
            processing_function,
            limits,
            staked,
            deprecate_legacy_vote_ixs,
            packets,
            states[n - 1],
            states[n],
        ));
        if before.scan.action() is Process {
            let retried = lemma_batch_step(
                sanitize,
                check_fee_payer,
                processing_function,
                limits,
                staked,
                deprecate_legacy_vote_ixs,
                packets,
                before,
                after,
            );
            lemma_goes_on(first.votes, before.votes, after.votes);
            let last = before.calls.batches.len() as int;
            assert forall|b: int, k: int|
                #![trigger after.calls.batches[b].batch[k]]
                first.calls.batches.len() <= b < after.calls.batches.len() && 0 <= k
                    < after.calls.batches[b].batch.len() && after.calls.batches[b].retryable is None
                    && is_retried_vote(
                    staked,
                    deprecate_legacy_vote_ixs,
                    after.calls.batches[b].batch[k],
                ) && is_open_for(
                    first.votes,
                    vote_in(
                        after.calls.batches[b].batch[k],
                        VoteSource::Tpu,
                        deprecate_legacy_vote_ixs,
                    )->0,
                ) implies waits_for(
                after.votes,
                after.calls.batches[b].batch[k].vote->0.vote_pubkey,
                after.calls.batches[b].batch[k].vote->0.slot,
            ) by {
                if b < last {
                    assert(after.calls.batches.drop_last()[b] == after.calls.batches[b]);
                    assert(before.calls.batches[b].batch[k] == after.calls.batches[b].batch[k]);
                } else {
                    assert(after.calls.batches[b] == after.calls.batches.last());
                    assert(retried[k] == after.calls.batches[b].batch[k]);
                    assert(is_open_for(
                        before.votes,
                        vote_in(retried[k], VoteSource::Tpu, deprecate_legacy_vote_ixs)->0,
                    ));
                }
            }
        }
    }
}

/// The validator has an entry.
spec fn has_entry(votes: Seq<LatestValidatorVotePacket>, vote_pubkey: Pubkey) -> bool {
    exists|j: int| 0 <= j < votes.len() && (#[trigger] votes[j]).vote_pubkey == vote_pubkey
}

/// The packets hold a vote of the validator.
spec fn has_vote_of(packets: Seq<SharedPacket>, vote_pubkey: Pubkey) -> bool {
    exists|p: int|
        0 <= p < packets.len() && (#[trigger] packets[p]).vote->0.vote_pubkey == vote_pubkey
}

/// Votes of validators that have an entry add none.
proof fn lemma_no_entry_more(
    start: Insertion,
    staked: Seq<Pubkey>,
    votes: Seq<LatestValidatorVotePacket>,
)
    requires
        one_per_validator(start.votes),
        forall|k: int| 0 <= k < votes.len() ==> (#[trigger] votes[k]).vote is Some,
        forall|k: int|
            0 <= k < votes.len() ==> has_entry(start.votes, (#[trigger] votes[k]).vote_pubkey),
    ensures
        start.insert_all(staked, votes, true).votes.len() == start.votes.len(),
    decreases votes.len(),
{
    if votes.len() > 0 {
        let front = votes.drop_last();
        let last = votes.len() - 1;
        assert forall|k: int| 0 <= k < front.len() implies (#[trigger] front[k]).vote is Some
            && has_entry(start.votes, front[k].vote_pubkey) by {
            assert(votes[k] == front[k]);
        }
        lemma_no_entry_more(start, staked, front);
        lemma_votes_go_in(start, staked, front);
        let middle = start.insert_all(staked, front, true);
        assert(has_entry(start.votes, votes[last].vote_pubkey));
        let j = choose|j: int|
            0 <= j < start.votes.len() && (#[trigger] start.votes[j]).vote_pubkey
                == votes[last].vote_pubkey;
        assert(middle.votes[j].vote_pubkey == votes[last].vote_pubkey);
        lemma_place_of(middle.votes, votes.last().vote_pubkey, 0);
    }
}

/// A step for which no places are named touches only the entries of validators of whom a vote was
/// taken out, and adds none.
proof fn lemma_other_votes_of_a_step<
    S: FnMut(&SharedPacket) -> Option<SanitizedTransaction>,
    P: FnMut(&SanitizedTransaction) -> bool,
    F: FnMut(&Vec<SharedPacket>, ConsumeScannerPayload) -> (Option<Vec<usize>>, ConsumeScannerPayload),
>(
    sanitize: S,
    check_fee_payer: P,
    processing_function: F,
    limits: ConsumeLimits,
    staked: Seq<Pubkey>,
    deprecate_legacy_vote_ixs: bool,
    packets: Seq<SharedPacket>,
    before: VoteProcessState,
    after: VoteProcessState,
)
    requires
        vote_process_step(
            sanitize,
            check_fee_payer,
            processing_function,
            limits,
            staked,
            deprecate_legacy_vote_ixs,
            packets,
            before,
            after,
        ),
        one_per_validator(before.votes),
        before.scan.wf(),
        before.scan.handled.len() == packets.len(),
        before.scan.action() is Process ==> after.calls.batches.last().retryable is None,
        forall|p: int|
            0 <= p < packets.len() ==> has_entry(
                before.votes,
                (#[trigger] packets[p]).vote->0.vote_pubkey,
            ),
    ensures
        after.scan.wf(),
        after.scan.handled.len() == packets.len(),
        after.votes.len() == before.votes.len(),
        before.calls.batches.len() <= after.calls.batches.len(),
        after.calls.batches.take(before.calls.batches.len() as int) == before.calls.batches,
        before.scan.action() is Process ==> after.calls.batches.len()
            == before.calls.batches.len() + 1,
        forall|j: int|
            0 <= j < before.votes.len() && !has_vote_of(packets, before.votes[j].vote_pubkey)
                ==> #[trigger] after.votes[j] == before.votes[j],
{
    if before.scan.action() is Process {
        let retried = lemma_batch_step(
            sanitize,
            check_fee_payer,
            processing_function,
            limits,
            staked,
            deprecate_legacy_vote_ixs,
            packets,
            before,
            after,
        );
        crate::scanner::lemma_next_batch(before.scan);
        assert(after.calls.batches.take(before.calls.batches.len() as int)
            =~= after.calls.batches.drop_last());
        let votes = votes_in(retried, VoteSource::Tpu, deprecate_legacy_vote_ixs);
        let start = Insertion::start(before.votes);
        lemma_votes_in(retried, VoteSource::Tpu, deprecate_legacy_vote_ixs);
        assert(retried == pick(packets, before.scan.batch()));
        assert forall|k: int| 0 <= k < votes.len() implies has_vote_of(
            packets,
            (#[trigger] votes[k]).vote_pubkey,
        ) && has_entry(start.votes, votes[k].vote_pubkey) by {
            let i = choose|i: int|
                0 <= i < retried.len() && vote_in(
                    #[trigger] retried[i],
                    VoteSource::Tpu,
                    deprecate_legacy_vote_ixs,
                ) == Some(votes[k]);
            let p = before.scan.batch()[i] as int;
            assert(before.scan.batch()[i] == before.scan.positions[i]);
            assert(retried[i] == packets[p]);
            assert(packets[p].vote->0.vote_pubkey == votes[k].vote_pubkey);
        }
        lemma_no_entry_more(start, staked, votes);
        lemma_votes_go_in(start, staked, votes);
        assert forall|j: int|
            0 <= j < before.votes.len() && !has_vote_of(
                packets,
                before.votes[j].vote_pubkey,
            ) implies #[trigger] after.votes[j] == before.votes[j] by {
            assert(start.votes[j] == before.votes[j]);
            assert forall|k: int| 0 <= k < votes.len() implies (#[trigger] votes[k]).vote_pubkey
                != start.votes[j].vote_pubkey by {
                assert(has_vote_of(packets, votes[k].vote_pubkey));
            }
        }
    } else {
        let decision = choose|decision: crate::scanner::ProcessingDecision|
            {
                &&& #[trigger] crate::consume::examine_step(
                    sanitize,
                    check_fee_payer,
                    limits,
                    packets[before.scan.action()->Examine_0 as int],
                    (
                        before.payload,
                        crate::unprocessed_packet_batches::Stored::empty(),
                        before.calls.scan,
                    ),
                    decision,
                    (
                        after.payload,
                        crate::unprocessed_packet_batches::Stored::empty(),
                        after.calls.scan,
                    ),
                )
                &&& after.scan == before.scan.decided(decision)
                &&& after.votes == before.votes
                &&& after.calls.batches == before.calls.batches
            };
        crate::scanner::lemma_decided(before.scan, decision);
        crate::scanner::lemma_next_unhandled(before.scan.handled, before.scan.cursor as int);
        assert(after.calls.batches.take(before.calls.batches.len() as int)
            =~= before.calls.batches);
    }
}

/// Processing for which no places are ever named touches only the entries of validators of whom a vote
/// was taken out, and adds none.
proof fn lemma_other_votes_of_a_run<
    S: FnMut(&SharedPacket) -> Option<SanitizedTransaction>,
    P: FnMut(&SanitizedTransaction) -> bool,
    F: FnMut(&Vec<SharedPacket>, ConsumeScannerPayload) -> (Option<Vec<usize>>, ConsumeScannerPayload),
>(
    sanitize: S,
    check_fee_payer: P,
    processing_function: F,
    limits: ConsumeLimits,
    staked: Seq<Pubkey>,
    deprecate_legacy_vote_ixs: bool,
    packets: Seq<SharedPacket>,
    states: Seq<VoteProcessState>,
    n: int,
)
    requires
        vote_process_run(
            sanitize,
            check_fee_payer,
            processing_function,
            limits,
            staked,
            deprecate_legacy_vote_ixs,
            packets,
            states,
        ),
        one_per_validator(states.first().votes),
        states.first().scan.wf(),
        states.first().scan.handled.len() == packets.len(),
        0 <= n < states.len(),
        forall|b: int|
            states.first().calls.batches.len() <= b < states[n].calls.batches.len() ==> (
            #[trigger] states[n].calls.batches[b]).retryable is None,
        forall|p: int|
            0 <= p < packets.len() ==> has_entry(
                states.first().votes,
                (#[trigger] packets[p]).vote->0.vote_pubkey,
            ),
    ensures
        states[n].scan.wf(),
        states[n].scan.handled.len() == packets.len(),
        states[n].votes.len() == states.first().votes.len(),
        forall|j: int|
            0 <= j < states.first().votes.len() && !has_vote_of(
                packets,
                states.first().votes[j].vote_pubkey,
            ) ==> #[trigger] states[n].votes[j] == states.first().votes[j],
    decreases n,
{
    if n > 0 {
        let first = states.first();
        let before = states[n - 1];
        let after = states[n];
        assert(vote_process_step(
            sanitize,
            check_fee_payer,
            processing_function,
            limits,
            staked,
            deprecate_legacy_vote_ixs,
            packets,
            states[n - 1],
            states[n],
        ));
        lemma_votes_of_a_run(
            sanitize,
            check_fee_payer,
            processing_function,
            limits,
            staked,
            deprecate_legacy_vote_ixs,
            packets,
            states,
            n - 1,
        );
        assert forall|p: int| 0 <= p < packets.len() implies has_entry(
            before.votes,
            (#[trigger] packets[p]).vote->0.vote_pubkey,
        ) by {
            assert(has_entry(first.votes, packets[p].vote->0.vote_pubkey));
            let j = choose|j: int|
                0 <= j < first.votes.len() && (#[trigger] first.votes[j]).vote_pubkey
                    == packets[p].vote->0.vote_pubkey;
            assert(before.votes[j].vote_pubkey == first.votes[j].vote_pubkey);
        }
        if before.scan.action() is Process {
            let retried = lemma_batch_step(
                sanitize,
                check_fee_payer,
                processing_function,
                limits,
                staked,
                deprecate_legacy_vote_ixs,
                packets,
                before,
                after,
            );
            assert(after.calls.batches[after.calls.batches.len() - 1].retryable is None);
        }
        assert forall|b: int|
            first.calls.batches.len() <= b < before.calls.batches.len() implies (
        #[trigger] before.calls.batches[b]).retryable is None by {
            if before.scan.action() is Process {
                assert(after.calls.batches.drop_last()[b] == after.calls.batches[b]);
            }
            assert(after.calls.batches[b].retryable is None);
        }
        lemma_other_votes_of_a_run(
            sanitize,
            check_fee_payer,
            processing_function,
            limits,
            staked,
            deprecate_legacy_vote_ixs,
            packets,
            states,
            n - 1,
        );
        lemma_other_votes_of_a_step(
            sanitize,
            check_fee_payer,
            processing_function,
            limits,
            staked,
            deprecate_legacy_vote_ixs,
            packets,
            before,
            after,
        );
        assert forall|j: int|
            0 <= j < first.votes.len() && !has_vote_of(
                packets,
                first.votes[j].vote_pubkey,
            ) implies #[trigger] after.votes[j] == first.votes[j] by {
            assert(before.votes[j] == first.votes[j]);
        }
    }
}

/// Where the processing function never names votes, processing loses none of the votes that it gave
/// it: with every vote that was taken out given to it in some batch, each validator has a vote that
/// waits afterwards just where it had one before, for the same slot or a later one, and as many votes
/// wait as before. The votes are those of their packets, and their validators have stake.
#[verifier::spinoff_prover]
pub proof fn law_unanswered_processing_loses_no_vote<
    S: FnMut(&SharedPacket) -> Option<SanitizedTransaction>,
    P: FnMut(&SanitizedTransaction) -> bool,
    F: FnMut(&Vec<SharedPacket>, ConsumeScannerPayload) -> (Option<Vec<usize>>, ConsumeScannerPayload),
>(
    sanitize: S,
    check_fee_payer: P,
    processing_function: F,
    limits: ConsumeLimits,
    staked: Seq<Pubkey>,
    deprecate_legacy_vote_ixs: bool,
    votes: Seq<LatestValidatorVotePacket>,
    order: Seq<Pubkey>,
    slot_metrics: SlotMetrics,
    calls: ConsumeCalls,
    states: Seq<VoteProcessState>,
)
    requires
        one_per_validator(votes),
        drained(votes, order).1.len() <= usize::MAX,
        forall|j: int|
            0 <= j < votes.len() ==> ((#[trigger] votes[j]).vote matches Some(packet) ==> {
                packet.vote matches Some(details) && {
                    &&& details.vote_pubkey == votes[j].vote_pubkey
                    &&& details.slot == votes[j].slot
                    &&& details.timestamp == votes[j].timestamp
                    &&& staked.contains(details.vote_pubkey)
                    &&& !details.is_legacy || !deprecate_legacy_vote_ixs
                }
            }),
        vote_process_run(
            sanitize,
            check_fee_payer,
            processing_function,
            limits,
            staked,
            deprecate_legacy_vote_ixs,
            drained(votes, order).1,
            states,
        ),
        states.first() == vote_process_start(
            drained(votes, order).1.len(),
            drained(votes, order).0,
            slot_metrics,
            calls,
        ),
        forall|b: int|
            calls.batches.len() <= b < states.last().calls.batches.len() ==> (
            #[trigger] states.last().calls.batches[b]).retryable is None,
        forall|j: int|
            0 <= j < votes.len() && (#[trigger] votes[j]).vote is Some && order.contains(
                votes[j].vote_pubkey,
            ) ==> exists|b: int, k: int|
                #![trigger states.last().calls.batches[b].batch[k]]
                calls.batches.len() <= b < states.last().calls.batches.len() && 0 <= k
                    < states.last().calls.batches[b].batch.len()
                    && states.last().calls.batches[b].batch[k] == votes[j].vote->0,
    ensures
        forall|j: int|
            0 <= j < votes.len() && (#[trigger] votes[j]).vote is Some ==> exists|m: int|
                0 <= m < states.last().votes.len() && (
                #[trigger] states.last().votes[m]).vote_pubkey == votes[j].vote_pubkey
                    && states.last().votes[m].vote is Some && states.last().votes[m].slot
                    >= votes[j].slot,
        states.last().votes.len() == votes.len(),
        forall|j: int|
            0 <= j < votes.len() && (#[trigger] votes[j]).vote is None
                ==> states.last().votes[j].vote is None,
        present_count(states.last().votes) == present_count(votes),
{
    let start = drained(votes, order).0;
    let packets = drained(votes, order).1;
    let end = states.last();
    law_votes_in_the_order_are_taken(votes, order);
    lemma_votes_of_a_run(
        sanitize,
        check_fee_payer,
        processing_function,
        limits,
        staked,
        deprecate_legacy_vote_ixs,
        packets,
        states,
        states.len() - 1,
    );
    assert forall|j: int| 0 <= j < votes.len() && (#[trigger] votes[j]).vote is Some implies {
        &&& end.votes[j].vote_pubkey == votes[j].vote_pubkey
        &&& end.votes[j].vote is Some
        &&& end.votes[j].slot >= votes[j].slot
    } by {
        assert(start[j].vote_pubkey == votes[j].vote_pubkey);
        assert(end.votes[j].vote_pubkey == start[j].vote_pubkey);
        if order.contains(votes[j].vote_pubkey) {
            let (b, k) = choose|b: int, k: int|
                #![trigger end.calls.batches[b].batch[k]]
                calls.batches.len() <= b < end.calls.batches.len() && 0 <= k
                    < end.calls.batches[b].batch.len() && end.calls.batches[b].batch[k]
                    == votes[j].vote->0;
            let packet = end.calls.batches[b].batch[k];
            let vote = vote_in(packet, VoteSource::Tpu, deprecate_legacy_vote_ixs)->0;
            assert(is_retried_vote(staked, deprecate_legacy_vote_ixs, packet));
            assert(is_open_for(start, vote)) by {
                assert forall|m: int|
                    0 <= m < start.len() && (#[trigger] start[m]).vote_pubkey
                        == vote.vote_pubkey implies {
                    ||| start[m].vote is Some
                    ||| supersedes(vote, start[m], true)
                } by {
                    if m < j {
                        assert(start[m].vote_pubkey != start[j].vote_pubkey);
                    } else if j < m {
                        assert(start[j].vote_pubkey != start[m].vote_pubkey);
                    }
                }
            }
            assert(end.calls.batches[b].retryable is None);
            assert(waits_for(end.votes, votes[j].vote_pubkey, votes[j].slot));
            let m = choose|m: int|
                0 <= m < end.votes.len() && (#[trigger] end.votes[m]).vote_pubkey
                    == votes[j].vote_pubkey && end.votes[m].vote is Some && end.votes[m].slot
                    >= votes[j].slot;
            if m < j {
                assert(end.votes[m].vote_pubkey != end.votes[j].vote_pubkey);
            } else if j < m {
                assert(end.votes[j].vote_pubkey != end.votes[m].vote_pubkey);
            }
        } else {
            assert(start[j].vote == votes[j].vote);
        }
    }
    assert forall|p: int| 0 <= p < packets.len() implies ((
    #[trigger] packets[p]).vote matches Some(details) && exists|j: int|
        0 <= j < start.len() && (#[trigger] start[j]).vote_pubkey == details.vote_pubkey
            && votes[j].vote is Some) by {
        let j = choose|j: int|
            0 <= j < votes.len() && (#[trigger] votes[j]).vote == Some(packets[p])
                && order.contains(votes[j].vote_pubkey);
        assert(start[j].vote_pubkey == votes[j].vote_pubkey);
        assert(votes[j].vote is Some);
    }
    assert(states.first().scan.wf());
    assert forall|p: int| 0 <= p < packets.len() implies has_entry(
        start,
        (#[trigger] packets[p]).vote->0.vote_pubkey,
    ) by {
        let j = choose|j: int|
            0 <= j < start.len() && (#[trigger] start[j]).vote_pubkey
                == packets[p].vote->0.vote_pubkey && votes[j].vote is Some;
        assert(start[j].vote_pubkey == packets[p].vote->0.vote_pubkey);
    }
    lemma_other_votes_of_a_run(
        sanitize,
        check_fee_payer,
        processing_function,
        limits,
        staked,
        deprecate_legacy_vote_ixs,
        packets,
        states,
        states.len() - 1,
    );
    assert forall|j: int|
        0 <= j < votes.len() && (#[trigger] votes[j]).vote is None implies end.votes[j].vote is None by {
        assert(start[j].vote_pubkey == votes[j].vote_pubkey);
        if has_vote_of(packets, start[j].vote_pubkey) {
            let p = choose|p: int|
                0 <= p < packets.len() && (#[trigger] packets[p]).vote->0.vote_pubkey
                    == start[j].vote_pubkey;
            let m = choose|m: int|
                0 <= m < start.len() && (#[trigger] start[m]).vote_pubkey
                    == packets[p].vote->0.vote_pubkey && votes[m].vote is Some;
            if m < j {
                assert(start[m].vote_pubkey != start[j].vote_pubkey);
            } else if j < m {
                assert(start[j].vote_pubkey != start[m].vote_pubkey);
            }
        }
        assert(end.votes[j] == start[j]);
    }
    assert forall|j: int| 0 <= j < votes.len() implies ((#[trigger] votes[j]).vote is Some <==> (
    #[trigger] end.votes[j]).vote is Some) by {}
    law_votes_waiting_alike_count_alike(votes, end.votes);
}

/// A vote more waits.
proof fn lemma_replaced_vote_waits(
    votes: Seq<LatestValidatorVotePacket>,
    place: int,
    vote: LatestValidatorVotePacket,
)
    requires
        0 <= place < votes.len(),
        vote.vote is Some,
    ensures
        present_count(votes.update(place, vote)) == present_count(votes) + if votes[place].vote is Some {
            0int
        } else {
            1
        },
    decreases votes.len(),
{
    let after = votes.update(place, vote);
    if place == votes.len() - 1 {
        assert(after.drop_last() =~= votes.drop_last());
    } else {
        assert(after.drop_last() =~= votes.drop_last().update(place, vote));
        lemma_replaced_vote_waits(votes.drop_last(), place, vote);
    }
}

/// Every vote that is put in is accounted for: of validators with stake, as many votes come as wait
/// more afterwards and are dropped together.
pub proof fn law_votes_put_in_are_accounted_for(
    start: Insertion,
    staked: Seq<Pubkey>,
    votes: Seq<LatestValidatorVotePacket>,
    should_replenish_taken_votes: bool,
)
    requires
        one_per_validator(start.votes),
        forall|k: int| 0 <= k < votes.len() ==> (#[trigger] votes[k]).vote is Some,
    ensures
        ({
            let after = start.insert_all(staked, votes, should_replenish_taken_votes);
            &&& one_per_validator(after.votes)
            &&& present_count(after.votes) + after.dropped_gossip + after.dropped_tpu
                == present_count(start.votes) + start.dropped_gossip + start.dropped_tpu
                + votes.filter(
                |vote: LatestValidatorVotePacket| staked.contains(vote.vote_pubkey),
            ).len()
        }),
    decreases votes.len(),
{
    let has_stake = |vote: LatestValidatorVotePacket| staked.contains(vote.vote_pubkey);
    reveal(Seq::filter);
    if votes.len() > 0 {
        let front = votes.drop_last();
        assert forall|k: int| 0 <= k < front.len() implies (#[trigger] front[k]).vote is Some by {
            assert(votes[k].vote is Some);
        }
        law_votes_put_in_are_accounted_for(start, staked, front, should_replenish_taken_votes);
        let before = start.insert_all(staked, front, should_replenish_taken_votes);
        let vote = votes.last();
        assert(votes[votes.len() - 1].vote is Some);
        lemma_insert(before, staked, vote, should_replenish_taken_votes);
        lemma_place_of(before.votes, vote.vote_pubkey, 0);
        let place = place_of(before.votes, vote.vote_pubkey, 0);
        let after = before.insert(staked, vote, should_replenish_taken_votes);
        if staked.contains(vote.vote_pubkey) {
            if place == before.votes.len() {
                assert(after.votes.drop_last() =~= before.votes);
            } else if supersedes(vote, before.votes[place], should_replenish_taken_votes) {
                lemma_replaced_vote_waits(before.votes, place, vote);
            }
        }
    }
}

/// The new vote has come in the place of the old one: it is that one, or a later one of its validator.
spec fn is_no_earlier(new_vote: LatestValidatorVotePacket, old_vote: LatestValidatorVotePacket) -> bool {
    &&& new_vote.vote_pubkey == old_vote.vote_pubkey
    &&& {
        ||| new_vote == old_vote
        ||| new_vote.slot > old_vote.slot
        ||| new_vote.slot == old_vote.slot && new_vote.timestamp is Some && (
        old_vote.timestamp is None || new_vote.timestamp->0 > old_vote.timestamp->0)
    }
}

/// What one vote that is put in changes: gives the place of its validator.
proof fn lemma_one_vote_is_put_in(
    before: Insertion,
    staked: Seq<Pubkey>,
    vote: LatestValidatorVotePacket,
) -> (place: int)
    requires
        one_per_validator(before.votes),
    ensures
        ({
            let after = before.insert(staked, vote, false).votes;
            &&& one_per_validator(after)
            &&& before.votes.len() <= after.len() <= before.votes.len() + 1
            &&& forall|j: int|
                0 <= j < before.votes.len() ==> is_no_earlier(#[trigger] after[j], before.votes[j])
                    && (after[j] == before.votes[j] || after[j] == vote)
            &&& forall|j: int|
                before.votes.len() <= j < after.len() ==> #[trigger] after[j] == vote
            &&& staked.contains(vote.vote_pubkey) ==> 0 <= place < after.len()
                && after[place].vote_pubkey == vote.vote_pubkey && after[place].slot >= vote.slot
        }),
{
    lemma_insert(before, staked, vote, false);
    lemma_place_of(before.votes, vote.vote_pubkey, 0);
    place_of(before.votes, vote.vote_pubkey, 0)
}

/// After votes were put in, each validator with stake that sent one has a vote for no earlier slot;
/// every vote that was there stays, unless a later one of its validator has come in its place.
pub proof fn law_latest_vote_is_kept(
    start: Insertion,
    staked: Seq<Pubkey>,
    votes: Seq<LatestValidatorVotePacket>,
)
    requires
        one_per_validator(start.votes),
    ensures
        ({
            let after = start.insert_all(staked, votes, false).votes;
            &&& one_per_validator(after)
            &&& start.votes.len() <= after.len()
            &&& forall|j: int|
                0 <= j < start.votes.len() ==> {
                    let old_vote = start.votes[j];
                    let new_vote = #[trigger] after[j];
                    &&& new_vote.vote_pubkey == old_vote.vote_pubkey
                    &&& {
                        ||| new_vote == old_vote
                        ||| new_vote.slot > old_vote.slot
                        ||| new_vote.slot == old_vote.slot && new_vote.timestamp is Some && (
                        old_vote.timestamp is None || new_vote.timestamp->0
                            > old_vote.timestamp->0)
                    }
                    &&& new_vote == old_vote || votes.contains(new_vote)
                }
            &&& forall|j: int|
                start.votes.len() <= j < after.len() ==> votes.contains(#[trigger] after[j])
            &&& forall|k: int|
                0 <= k < votes.len() && staked.contains((#[trigger] votes[k]).vote_pubkey)
                    ==> exists|j: int|
                    0 <= j < after.len() && (#[trigger] after[j]).vote_pubkey
                        == votes[k].vote_pubkey && after[j].slot >= votes[k].slot
        }),
    decreases votes.len(),
{
    if votes.len() > 0 {
        let front = votes.drop_last();
        law_latest_vote_is_kept(start, staked, front);
        let before = start.insert_all(staked, front, false);
        let after = start.insert_all(staked, votes, false).votes;
        let vote = votes.last();
        let place = lemma_one_vote_is_put_in(before, staked, vote);
        assert(after == before.insert(staked, vote, false).votes);
        assert(votes[votes.len() - 1] == vote);
        assert forall|j: int| 0 <= j < before.votes.len() && front.contains(before.votes[j]) implies votes.contains(
            #[trigger] after[j],
        ) by {
            let k = choose|k: int| 0 <= k < front.len() && front[k] == before.votes[j];
            assert(votes[k] == before.votes[j]);
        }
        assert forall|j: int| 0 <= j < start.votes.len() implies is_no_earlier(
            #[trigger] after[j],
            start.votes[j],
        ) && (after[j] == start.votes[j] || votes.contains(after[j])) by {
            assert(is_no_earlier(after[j], before.votes[j]));
            assert(before.votes[j].vote_pubkey == start.votes[j].vote_pubkey);
        }
        assert forall|k: int|
            0 <= k < votes.len() && staked.contains((#[trigger] votes[k]).vote_pubkey) implies exists|
            j: int,
        |
            0 <= j < after.len() && (#[trigger] after[j]).vote_pubkey == votes[k].vote_pubkey
                && after[j].slot >= votes[k].slot by {
            if k < front.len() {
                assert(front[k] == votes[k]);
                let j = choose|j: int|
                    0 <= j < before.votes.len() && (#[trigger] before.votes[j]).vote_pubkey
                        == votes[k].vote_pubkey && before.votes[j].slot >= votes[k].slot;
                assert(is_no_earlier(after[j], before.votes[j]));
            } else {
                assert(after[place].vote_pubkey == vote.vote_pubkey);
            }
        }
    }
}

/// Votes that came by gossip or were forwarded do not wait afterwards; the others stay as they are,
/// and nothing but the packet goes.
pub proof fn law_forwarded_votes_are_cleared(votes: Seq<LatestValidatorVotePacket>, j: int)
    requires
        0 <= j < votes.len(),
    ensures
        ({
            let after = without_forwarded(votes);
            &&& after.len() == votes.len()
            &&& after[j].vote == if votes[j].vote_source == VoteSource::Gossip || votes[j].forwarded {
                None
            } else {
                votes[j].vote
            }
            &&& after[j].vote_pubkey == votes[j].vote_pubkey
            &&& after[j].vote_source == votes[j].vote_source
            &&& after[j].slot == votes[j].slot
            &&& after[j].timestamp == votes[j].timestamp
            &&& after[j].forwarded == votes[j].forwarded
        }),
{
}

/// At the start of an epoch just the votes of validators with stake are kept, in their order.
pub proof fn law_votes_of_staked_are_kept(
    votes: Seq<LatestValidatorVotePacket>,
    staked: Seq<Pubkey>,
) -> (places: Seq<int>)
    ensures
        places.len() == of_staked(votes, staked).len(),
        forall|k: int|
            0 <= k < places.len() ==> {
                let j = #[trigger] places[k];
                &&& 0 <= j < votes.len()
                &&& staked.contains(votes[j].vote_pubkey)
                &&& of_staked(votes, staked)[k] == votes[j]
            },
        forall|k: int, m: int|
            0 <= k < m < places.len() ==> #[trigger] places[k] < #[trigger] places[m],
        forall|j: int|
            0 <= j < votes.len() && staked.contains((#[trigger] votes[j]).vote_pubkey)
                ==> places.contains(j),
    decreases votes.len(),
{
    reveal(Seq::filter);
    if votes.len() == 0 {
        Seq::empty()
    } else {
        let front = votes.drop_last();
        let last = votes.len() - 1;
        let before = law_votes_of_staked_are_kept(front, staked);
        let places = if staked.contains(votes[last].vote_pubkey) {
            before.push(last)
        } else {
            before
        };
        assert forall|j: int|
            0 <= j < votes.len() && staked.contains(
                (#[trigger] votes[j]).vote_pubkey,
            ) implies places.contains(j) by {
            if j < last {
                assert(front[j] == votes[j]);
                let k = choose|k: int| 0 <= k < before.len() && before[k] == j;
                assert(places[k] == j);
            } else {
                assert(places[before.len() as int] == j);
            }
        }
        places
    }
}

/// A validator whose vote does not wait, came by gossip or was forwarded is passed over: nothing
/// changes and nothing is asked. Any other vote is sanitized once. One that does not sanitize is passed
/// over; one that does is offered once. Where it is taken it counts as forwarded, which changes nothing
/// else; where it is refused nothing more is offered.
pub proof fn law_waiting_votes_are_offered<
    T,
    S: FnMut(&SharedPacket) -> Option<T>,
    A: FnMut(&T, &SharedPacket) -> bool,
>(
    sanitize: S,
    try_add: A,
    vote_pubkey: Pubkey,
    before: VoteForwarding<T>,
    after: VoteForwarding<T>,
    j: int,
)
    requires
        vote_forwarded_by(sanitize, try_add, vote_pubkey, before, after),
        one_per_validator(before.votes),
    ensures
        (forall|k: int|
            0 <= k < before.votes.len() && (#[trigger] before.votes[k]).vote_pubkey == vote_pubkey
                ==> before.votes[k].vote is None || before.votes[k].vote_source
                == VoteSource::Gossip || before.votes[k].forwarded) ==> after == before,
        0 <= j < before.votes.len() && before.votes[j].vote_pubkey == vote_pubkey
            && before.votes[j].vote is Some && before.votes[j].vote_source == VoteSource::Tpu
            && !before.votes[j].forwarded ==> {
            let packet = before.votes[j].vote->0;
            let answer = after.calls.sanitized.last().1;
            &&& after.calls.sanitized.len() == before.calls.sanitized.len() + 1
            &&& after.calls.sanitized.drop_last() == before.calls.sanitized
            &&& after.calls.sanitized.last().0 == packet
            &&& call_ensures(sanitize, (&packet,), answer)
            &&& match answer {
                None => {
                    &&& after.calls.offered == before.calls.offered
                    &&& after.votes == before.votes
                    &&& after.taken == before.taken
                    &&& after.full == before.full
                },
                Some(transaction) => {
                    let offer = after.calls.offered.last();
                    &&& after.calls.offered.len() == before.calls.offered.len() + 1
                    &&& after.calls.offered.drop_last() == before.calls.offered
                    &&& offer.0 == transaction && offer.1 == packet
                    &&& call_ensures(try_add, (&transaction, &packet), offer.2)
                    &&& after.taken == before.taken + if offer.2 {
                        1int
                    } else {
                        0
                    }
                    &&& after.full <==> before.full || !offer.2
                    &&& after.votes.len() == before.votes.len()
                    &&& after.votes[j].forwarded == offer.2
                    &&& after.votes[j].vote == before.votes[j].vote
                    &&& after.votes[j].vote_pubkey == before.votes[j].vote_pubkey
                    &&& after.votes[j].vote_source == before.votes[j].vote_source
                    &&& after.votes[j].slot == before.votes[j].slot
                    &&& after.votes[j].timestamp == before.votes[j].timestamp
                    &&& forall|k: int|
                        0 <= k < before.votes.len() && k != j ==> #[trigger] after.votes[k]
                            == before.votes[k]
                },
            }
        },
{
    let answers = choose|answers: (Option<T>, bool)|
        #[trigger] vote_answers(sanitize, try_add, vote_pubkey, before, answers) && after
            == vote_forward_step(vote_pubkey, before, answers);
    lemma_place_of(before.votes, vote_pubkey, 0);
    let place = place_of(before.votes, vote_pubkey, 0);
    if 0 <= j < before.votes.len() && before.votes[j].vote_pubkey == vote_pubkey {
        if place < j {
            assert(before.votes[place].vote_pubkey != before.votes[j].vote_pubkey);
        }
        assert(place == j);
    }
    if forwardable_place(before.votes, vote_pubkey) is Some {
        assert(after.calls.sanitized.drop_last() =~= before.calls.sanitized);
        if answers.0 is Some {
            assert(after.calls.offered.drop_last() =~= before.calls.offered);
        }
    }
}

/// As many votes count as taken as offers were accepted: of the offers of a pass all but the last were
/// accepted, and the last one where the forward buffer did not refuse it.
pub proof fn law_taken_votes_were_accepted<
    T,
    S: FnMut(&SharedPacket) -> Option<T>,
    A: FnMut(&T, &SharedPacket) -> bool,
>(sanitize: S, try_add: A, order: Seq<Pubkey>, states: Seq<VoteForwarding<T>>, n: int)
    requires
        vote_forward_run(sanitize, try_add, order, states),
        states.first().taken == 0,
        !states.first().full,
        0 <= n < states.len(),
    ensures
        states[n].calls.offered.len() - states.first().calls.offered.len() == states[n].taken
            + if states[n].full {
            1int
        } else {
            0
        },
        states[n].full ==> n == states.len() - 1,
        states[n].votes.len() == states.first().votes.len(),
    decreases n,
{
    if n > 0 {
        law_taken_votes_were_accepted(sanitize, try_add, order, states, n - 1);
        let before = states[n - 1];
        let after = states[n];
        assert(vote_forwarded_by(sanitize, try_add, order[n - 1], states[n - 1], states[n]));
        let answers = choose|answers: (Option<T>, bool)|
            #[trigger] vote_answers(sanitize, try_add, order[n - 1], before, answers) && after
                == vote_forward_step(order[n - 1], before, answers);
        lemma_place_of(before.votes, order[n - 1], 0);
        assert(!states[n - 1].full);
    }
    if states[n].full && n < states.len() - 1 {
        assert(!states[n].full);
    }
}

/// A call that processes the votes and is never given places loses none of them: with each vote that was
/// taken out given to the processing function in some batch, as many votes wait afterwards as before, and
/// of the same validators. The votes are those of their packets, and their validators have stake.
pub proof fn law_unanswered_call_loses_no_vote<
    S: FnMut(&SharedPacket) -> Option<SanitizedTransaction>,
    P: FnMut(&SanitizedTransaction) -> bool,
    F: FnMut(&Vec<SharedPacket>, ConsumeScannerPayload) -> (Option<Vec<usize>>, ConsumeScannerPayload),
>(
    storage: &mut VoteStorage,
    order: &Vec<Pubkey>,
    sanitize: &mut Inquiry<SharedPacket, Option<SanitizedTransaction>, S>,
    check_fee_payer: &mut Inquiry<SanitizedTransaction, bool, P>,
    processing_function: &mut BatchProcessing<F>,
    limits: &ConsumeLimits,
    slot_metrics: &mut SlotMetrics,
    reached_end_of_slot: bool,
)
    requires
        call_ensures(
            VoteStorage::process_packets::<S, P, F>,
            (
                storage,
                order,
                sanitize,
                check_fee_payer,
                processing_function,
                limits,
                slot_metrics,
            ),
            reached_end_of_slot,
        ),
        old(storage).wf(),
        ({
            let votes = old(storage).latest_unprocessed_votes;
            forall|j: int|
                0 <= j < votes.latest_votes@.len() ==> ((
                #[trigger] votes.latest_votes@[j]).vote matches Some(packet) ==> {
                    packet.vote matches Some(details) && {
                        &&& details.vote_pubkey == votes.latest_votes@[j].vote_pubkey
                        &&& details.slot == votes.latest_votes@[j].slot
                        &&& details.timestamp == votes.latest_votes@[j].timestamp
                        &&& votes.staked@.contains(details.vote_pubkey)
                        &&& !details.is_legacy || !votes.deprecate_legacy_vote_ixs
                    }
                })
        }),
        drained(old(storage).votes(), order@).1.len() <= usize::MAX,
        forall|b: int|
            old(processing_function).log().len() <= b < final(processing_function).log().len() ==> (
            #[trigger] final(processing_function).log()[b]).retryable is None,
        forall|j: int|
            0 <= j < old(storage).latest_unprocessed_votes.latest_votes@.len() && (
            #[trigger] old(storage).latest_unprocessed_votes.latest_votes@[j]).vote is Some
                && order@.contains(
                old(storage).latest_unprocessed_votes.latest_votes@[j].vote_pubkey,
            ) ==> exists|b: int, k: int|
                #![trigger final(processing_function).log()[b].batch[k]]
                old(processing_function).log().len() <= b < final(processing_function).log().len() && 0
                    <= k < final(processing_function).log()[b].batch.len()
                    && final(processing_function).log()[b].batch[k]
                    == old(storage).latest_unprocessed_votes.latest_votes@[j].vote->0,
    ensures
        ({
            let before = old(storage).latest_unprocessed_votes.latest_votes@;
            let after = final(storage).latest_unprocessed_votes.latest_votes@;
            &&& after.len() == before.len()
            &&& present_count(after) == present_count(before)
            &&& forall|j: int|
                0 <= j < before.len() && (#[trigger] before[j]).vote is Some ==> exists|m: int|
                    0 <= m < after.len() && (#[trigger] after[m]).vote_pubkey
                        == before[j].vote_pubkey && after[m].vote is Some && after[m].slot
                        >= before[j].slot
        }),
{
    let votes = old(storage).votes();
    let calls = crate::consume::calls_of_consume(
        old(sanitize),
        old(check_fee_payer),
        old(processing_function),
    );
    let staked = old(storage).latest_unprocessed_votes.staked@;
    let deprecate = old(storage).latest_unprocessed_votes.deprecate_legacy_vote_ixs;
    let (left, packets) = drained(votes, order@);
    let states = choose|states: Seq<VoteProcessState>|
        {
            &&& #[trigger] vote_process_run(
                old(sanitize).function(),
                old(check_fee_payer).function(),
                old(processing_function).function(),
                *limits,
                staked,
                deprecate,
                packets,
                states,
            )
            &&& states.first() == vote_process_start(
                packets.len(),
                left,
                *old(slot_metrics),
                calls,
            )
            &&& states.last().scan.action() is Finish
            &&& states.last().votes == final(storage).votes()
            &&& states.last().payload.reached_end_of_slot == reached_end_of_slot
            &&& states.last().payload.slot_metrics == *final(slot_metrics)
            &&& states.last().calls == crate::consume::calls_of_consume(
                final(sanitize),
                final(check_fee_payer),
                final(processing_function),
            )
        };
    assert(states.last().calls.batches == final(processing_function).log());
    assert(calls.batches == old(processing_function).log());
    assert forall|j: int|
        0 <= j < votes.len() && (#[trigger] votes[j]).vote is Some && order@.contains(
            votes[j].vote_pubkey,
        ) implies exists|b: int, k: int|
        #![trigger states.last().calls.batches[b].batch[k]]
        calls.batches.len() <= b < states.last().calls.batches.len() && 0 <= k
            < states.last().calls.batches[b].batch.len()
            && states.last().calls.batches[b].batch[k] == votes[j].vote->0 by {
        let (b, k) = choose|b: int, k: int|
            #![trigger final(processing_function).log()[b].batch[k]]
            old(processing_function).log().len() <= b < final(processing_function).log().len() && 0
                <= k < final(processing_function).log()[b].batch.len()
                && final(processing_function).log()[b].batch[k]
                == old(storage).latest_unprocessed_votes.latest_votes@[j].vote->0;
        assert(states.last().calls.batches[b].batch[k] == votes[j].vote->0);
    }
    law_unanswered_processing_loses_no_vote(
        old(sanitize).function(),
        old(check_fee_payer).function(),
        old(processing_function).function(),
        *limits,
        staked,
        deprecate,
        votes,
        order@,
        *old(slot_metrics),
        calls,
        states,
    );
}

/// A call that takes votes out empties just the votes of the validators in the order, gives their packets,
/// and changes nothing else.
pub proof fn law_call_takes_the_votes_in_the_order(
    votes: &mut LatestUnprocessedVotes,
    order: &Vec<Pubkey>,
    packets: Vec<SharedPacket>,
    j: int,
)
    requires
        call_ensures(LatestUnprocessedVotes::drain_unprocessed, (votes, order), packets),
        old(votes).wf(),
        0 <= j < old(votes).latest_votes@.len(),
    ensures
        final(votes).latest_votes@.len() == old(votes).latest_votes@.len(),
        final(votes).latest_votes@[j].vote == if order@.contains(
            old(votes).latest_votes@[j].vote_pubkey,
        ) {
            None
        } else {
            old(votes).latest_votes@[j].vote
        },
        final(votes).latest_votes@[j].vote_pubkey == old(votes).latest_votes@[j].vote_pubkey,
        final(votes).latest_votes@[j].slot == old(votes).latest_votes@[j].slot,
        old(votes).latest_votes@[j].vote is Some && order@.contains(
            old(votes).latest_votes@[j].vote_pubkey,
        ) ==> packets@.contains(old(votes).latest_votes@[j].vote->0),
        packets@.len() == present_count(old(votes).latest_votes@) - present_count(
            final(votes).latest_votes@,
        ),
        final(votes).staked == old(votes).staked,
{
    law_votes_in_the_order_are_taken(old(votes).votes(), order@);
}

/// A call that puts votes in accounts for each of them: of the votes of validators with stake, those that
/// wait more afterwards and those that are counted as dropped are all.
pub proof fn law_call_accounts_for_votes_put_in(
    votes: &mut LatestUnprocessedVotes,
    put_in: Vec<LatestValidatorVotePacket>,
    should_replenish_taken_votes: bool,
    metrics: VoteBatchInsertionMetrics,
)
    requires
        call_ensures(
            LatestUnprocessedVotes::insert_batch,
            (votes, put_in, should_replenish_taken_votes),
            metrics,
        ),
        old(votes).wf(),
        forall|k: int| 0 <= k < put_in@.len() ==> (#[trigger] put_in@[k]).vote is Some,
    ensures
        present_count(final(votes).latest_votes@) + metrics.num_dropped_gossip
            + metrics.num_dropped_tpu == present_count(old(votes).latest_votes@) + put_in@.filter(
            |vote: LatestValidatorVotePacket| old(votes).staked@.contains(vote.vote_pubkey),
        ).len(),
{
    law_votes_put_in_are_accounted_for(
        Insertion::start(old(votes).votes()),
        old(votes).staked@,
        put_in@,
        should_replenish_taken_votes,
    );
}

/// After packets were put into a vote storage, each validator with stake that sent a vote which is taken
/// has one for no earlier slot, and every vote that was there stays unless a later one of its validator
/// has come.
pub proof fn law_storage_keeps_the_latest_votes(
    storage: &mut VoteStorage,
    packets: Vec<ImmutableDeserializedPacket>,
    metrics: VoteBatchInsertionMetrics,
    i: int,
)
    requires
        call_ensures(VoteStorage::insert_batch, (storage, packets), metrics),
        old(storage).wf(),
        0 <= i < packets@.len(),
        packets@[i].vote is Some,
        old(storage).latest_unprocessed_votes.staked@.contains(packets@[i].vote->0.vote_pubkey),
        !packets@[i].vote->0.is_legacy
            || !old(storage).latest_unprocessed_votes.deprecate_legacy_vote_ixs,
    ensures
        ({
            let before = old(storage).latest_unprocessed_votes.latest_votes@;
            let after = final(storage).latest_unprocessed_votes.latest_votes@;
            &&& exists|j: int|
                0 <= j < after.len() && (#[trigger] after[j]).vote_pubkey
                    == packets@[i].vote->0.vote_pubkey && after[j].slot >= packets@[i].vote->0.slot
            &&& forall|j: int|
                0 <= j < before.len() ==> {
                    let new_vote = #[trigger] after[j];
                    &&& new_vote.vote_pubkey == before[j].vote_pubkey
                    &&& {
                        ||| new_vote == before[j]
                        ||| new_vote.slot > before[j].slot
                        ||| new_vote.slot == before[j].slot && new_vote.timestamp is Some && (
                        before[j].timestamp is None || new_vote.timestamp->0
                            > before[j].timestamp->0)
                    }
                }
        }),
{
    let votes = old(storage).latest_unprocessed_votes;
    let start = Insertion::start(votes.votes());
    let shared = choose|shared: Seq<SharedPacket>|
        #[trigger] crate::vote_storage::shares(shared, packets@) && start.insert_all(
            votes.staked@,
            votes_in(shared, old(storage).vote_source, votes.deprecate_legacy_vote_ixs),
            false,
        ) == (Insertion {
            votes: final(storage).votes(),
            dropped_gossip: metrics.num_dropped_gossip as nat,
            dropped_tpu: metrics.num_dropped_tpu as nat,
        });
    let put_in = votes_in(shared, old(storage).vote_source, votes.deprecate_legacy_vote_ixs);
    lemma_votes_in(shared, old(storage).vote_source, votes.deprecate_legacy_vote_ixs);
    law_latest_vote_is_kept(start, votes.staked@, put_in);
    assert(*shared[i] == packets@[i]);
    let vote = vote_in(
        shared[i],
        old(storage).vote_source,
        votes.deprecate_legacy_vote_ixs,
    )->0;
    assert(put_in.contains(vote));
    let k = choose|k: int| 0 <= k < put_in.len() && put_in[k] == vote;
    assert(votes.staked@.contains(put_in[k].vote_pubkey));
}

/// What a batch puts back are votes of its own packets: a vote that is new or has changed waits, holds a
/// packet of the batch, counts as come by the transaction port and was not forwarded.
pub proof fn law_put_back_votes_are_those_of_the_batch<
    S: FnMut(&SharedPacket) -> Option<SanitizedTransaction>,
    P: FnMut(&SanitizedTransaction) -> bool,
    F: FnMut(&Vec<SharedPacket>, ConsumeScannerPayload) -> (Option<Vec<usize>>, ConsumeScannerPayload),
>(
    sanitize: S,
    check_fee_payer: P,
    processing_function: F,
    limits: ConsumeLimits,
    staked: Seq<Pubkey>,
    deprecate_legacy_vote_ixs: bool,
    packets: Seq<SharedPacket>,
    before: VoteProcessState,
    after: VoteProcessState,
    j: int,
)
    requires
        vote_process_step(
            sanitize,
            check_fee_payer,
            processing_function,
            limits,
            staked,
            deprecate_legacy_vote_ixs,
            packets,
            before,
            after,
        ),
        before.scan.action() is Process,
        one_per_validator(before.votes),
        0 <= j < after.votes.len(),
        j < before.votes.len() ==> after.votes[j] != before.votes[j],
    ensures
        after.votes[j].vote_source == VoteSource::Tpu,
        !after.votes[j].forwarded,
        after.votes[j].vote is Some,
        after.calls.batches.last().retryable is None ==> after.calls.batches.last().batch.contains(
            after.votes[j].vote->0,
        ),
        after.calls.batches.last().retryable matches Some(places) ==> exists|k: int|
            0 <= k < places.len() && after.votes[j].vote == Some(
                after.calls.batches.last().batch[#[trigger] places[k] as int],
            ),
{
    let retried = lemma_batch_step(
        sanitize,
        check_fee_payer,
        processing_function,
        limits,
        staked,
        deprecate_legacy_vote_ixs,
        packets,
        before,
        after,
    );
    let votes = votes_in(retried, VoteSource::Tpu, deprecate_legacy_vote_ixs);
    lemma_votes_in(retried, VoteSource::Tpu, deprecate_legacy_vote_ixs);
    lemma_changed_votes(Insertion::start(before.votes), staked, votes, j);
    let k = choose|k: int| 0 <= k < votes.len() && votes[k] == after.votes[j];
    let i = choose|i: int|
        0 <= i < retried.len() && vote_in(
            #[trigger] retried[i],
            VoteSource::Tpu,
            deprecate_legacy_vote_ixs,
        ) == Some(votes[k]);
    assert(after.votes[j].vote == Some(retried[i]));
    let call = after.calls.batches.last();
    if let Some(places) = call.retryable {
        assert(retried[i] == call.batch[places[i] as int]);
    } else {
        assert(call.batch[i] == retried[i]);
    }
}

/// An entry that has changed is one of the votes that were put in.
proof fn lemma_changed_votes(
    start: Insertion,
    staked: Seq<Pubkey>,
    votes: Seq<LatestValidatorVotePacket>,
    j: int,
)
    requires
        0 <= j < start.insert_all(staked, votes, true).votes.len(),
        j < start.votes.len() ==> start.insert_all(staked, votes, true).votes[j] != start.votes[j],
    ensures
        votes.contains(start.insert_all(staked, votes, true).votes[j]),
    decreases votes.len(),
{
    if votes.len() > 0 {
        let front = votes.drop_last();
        let middle = start.insert_all(staked, front, true);
        let end = start.insert_all(staked, votes, true);
        lemma_place_of(middle.votes, votes.last().vote_pubkey, 0);
        if j < middle.votes.len() && end.votes[j] == middle.votes[j] {
            lemma_changed_votes(start, staked, front, j);
            let k = choose|k: int| 0 <= k < front.len() && front[k] == end.votes[j];
            assert(votes[k] == end.votes[j]);
        } else {
            assert(votes[votes.len() - 1] == end.votes[j]);
        }
    }
}

/// Votes that came by gossip are never forwarded: the call leaves each vote as it was, asks no service
/// and counts nothing.
pub proof fn law_gossip_votes_are_not_forwarded<
    T,
    S: FnMut(&SharedPacket) -> Option<T>,
    A: FnMut(&T, &SharedPacket) -> bool,
>(
    storage: &mut VoteStorage,
    order: &Vec<Pubkey>,
    sanitize: &mut Inquiry<SharedPacket, Option<T>, S>,
    try_add: &mut PairInquiry<T, SharedPacket, bool, A>,
    results: FilterForwardingResults,
)
    requires
        call_ensures(
            VoteStorage::filter_forwardable_packets_and_add_batches::<T, S, A>,
            (storage, order, sanitize, try_add),
            results,
        ),
        old(storage).vote_source == VoteSource::Gossip,
    ensures
        final(storage).latest_unprocessed_votes.latest_votes@
            == old(storage).latest_unprocessed_votes.latest_votes@,
        final(sanitize).log() == old(sanitize).log(),
        final(try_add).log() == old(try_add).log(),
        results.total_forwardable_packets == 0,
        results.total_dropped_packets == 0,
{
}

/// The storage takes the stakes of a later epoch over, and keeps just the votes of validators with stake;
/// in the epoch that is known, or an earlier one, nothing changes.
pub proof fn law_storage_goes_by_the_later_epoch(
    storage: &mut VoteStorage,
    epoch: u64,
    staked: Vec<Pubkey>,
    deprecate_legacy_vote_ixs: bool,
    vote: LatestValidatorVotePacket,
)
    requires
        call_ensures(
            VoteStorage::cache_epoch_boundary_info,
            (storage, epoch, staked, deprecate_legacy_vote_ixs),
            (),
        ),
    ensures
        final(storage).vote_source == old(storage).vote_source,
        epoch <= old(storage).latest_unprocessed_votes.current_epoch ==> *final(storage)
            == *old(storage),
        epoch > old(storage).latest_unprocessed_votes.current_epoch ==> {
            let votes = final(storage).latest_unprocessed_votes;
            &&& votes.current_epoch == epoch
            &&& votes.staked@ == staked@
            &&& votes.deprecate_legacy_vote_ixs == deprecate_legacy_vote_ixs
            &&& votes.latest_votes@.contains(vote)
                <==> old(storage).latest_unprocessed_votes.latest_votes@.contains(vote)
                && staked@.contains(vote.vote_pubkey)
        },
{
    crate::key_lists::lemma_filter(
        old(storage).latest_unprocessed_votes.latest_votes@,
        |vote: LatestValidatorVotePacket| staked@.contains(vote.vote_pubkey),
    );
}

} // verus!
