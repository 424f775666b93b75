//! The latest vote of each validator that waits for processing.

use std::sync::Arc;

use vstd::prelude::*;

use crate::keys::{contains_key, Pubkey};
use crate::metrics::VoteBatchInsertionMetrics;
use crate::packet::SharedPacket;
use crate::services::{Inquiry, PairInquiry};
use crate::thread_local_packets::VoteSource;

verus! {

/// Why a packet cannot be kept as a vote.
#[derive(Clone, Copy, Debug, PartialEq, Eq, Structural)]
pub enum DeserializedPacketError {
    VoteTransactionError,
}

/// A vote, with what decides whether another one takes its place.
#[derive(Debug)]
pub struct LatestValidatorVotePacket {
    pub vote_source: VoteSource,
    pub vote_pubkey: Pubkey,
    /// The packet; none once it was taken for processing.
    pub vote: Option<SharedPacket>,
    pub slot: u64,
    pub timestamp: Option<i64>,
    pub forwarded: bool,
}

/// The vote that a packet holds. A packet that is no vote, or a legacy one where those are not
/// taken any more, holds none.
pub open spec fn vote_in(
    packet: SharedPacket,
    vote_source: VoteSource,
    deprecate_legacy_vote_ixs: bool,
) -> Option<LatestValidatorVotePacket> {
    match packet.vote {
        Some(details) => if deprecate_legacy_vote_ixs && details.is_legacy {
            None
        } else {
            Some(
                LatestValidatorVotePacket {
                    vote_source,
                    vote_pubkey: details.vote_pubkey,
                    vote: Some(packet),
                    slot: details.slot,
                    timestamp: details.timestamp,
                    forwarded: false,
                },
            )
        },
        None => None,
    }
}

/// A missing timestamp comes before every other.
pub open spec fn earlier(a: Option<i64>, b: Option<i64>) -> bool {
    match (a, b) {
        (None, Some(_)) => true,
        (Some(a), Some(b)) => a < b,
        (_, None) => false,
    }
}

/// The vote takes the place of the other: it votes for a later slot, or for the same slot at a
/// later time. Where taken votes are replenished, one for the same slot at the same time takes the
/// place of a vote that was taken.
pub open spec fn supersedes(
    vote: LatestValidatorVotePacket,
    other: LatestValidatorVotePacket,
    should_replenish_taken_votes: bool,
) -> bool {
    ||| vote.slot > other.slot
    ||| vote.slot == other.slot && earlier(other.timestamp, vote.timestamp)
    ||| vote.slot == other.slot && vote.timestamp == other.timestamp
        && should_replenish_taken_votes && other.vote is None
}

impl LatestValidatorVotePacket {
    /// The vote of a packet.
    pub fn new_from_immutable(
        vote: SharedPacket,
        vote_source: VoteSource,
        deprecate_legacy_vote_ixs: bool,
    ) -> (result: Result<Self, DeserializedPacketError>)
        ensures
            match vote_in(vote, vote_source, deprecate_legacy_vote_ixs) {
                Some(packet) => result == Ok::<Self, DeserializedPacketError>(packet),
                None => result == Err::<Self, DeserializedPacketError>(
                    DeserializedPacketError::VoteTransactionError,
                ),
            },
    {
        match vote.vote {
            Some(details) => {
                if deprecate_legacy_vote_ixs && details.is_legacy {
                    Err(DeserializedPacketError::VoteTransactionError)
                } else {
                    Ok(
                        LatestValidatorVotePacket {
                            vote_source,
                            vote_pubkey: details.vote_pubkey,
                            vote: Some(vote),
                            slot: details.slot,
                            timestamp: details.timestamp,
                            forwarded: false,
                        },
                    )
                }
            },
            None => Err(DeserializedPacketError::VoteTransactionError),
        }
    }

    /// Whether the packet was taken for processing.
    pub fn is_vote_taken(&self) -> (taken: bool)
        ensures
            taken == (self.vote is None),
    {
        self.vote.is_none()
    }

    /// The vote reaches the next leader without being forwarded any more. Votes that came by
    /// gossip are with every leader already.
    pub open spec fn spec_is_forwarded(&self) -> bool {
        self.vote_source == VoteSource::Gossip || self.forwarded
    }

    /// Whether the vote need not be forwarded.
    pub fn is_forwarded(&self) -> (forwarded: bool)
        ensures
            forwarded == self.spec_is_forwarded(),
    {
        self.vote_source == VoteSource::Gossip || self.forwarded
    }

    /// Whether the vote takes the place of the other.
    fn may_replace(&self, other: &LatestValidatorVotePacket, should_replenish_taken_votes: bool) -> (may:
        bool)
        ensures
            may == supersedes(*self, *other, should_replenish_taken_votes),
    {
        if self.slot != other.slot {
            return self.slot > other.slot;
        }
        match (self.timestamp, other.timestamp) {
            (Some(time), Some(other_time)) => {
                if time != other_time {
                    return time > other_time;
                }
            },
            (Some(_), None) => {
                return true;
            },
            (None, Some(_)) => {
                return false;
            },
            (None, None) => {},
        }
        should_replenish_taken_votes && other.is_vote_taken()
    }
}

/// No validator has two votes.
pub open spec fn one_per_validator(votes: Seq<LatestValidatorVotePacket>) -> bool {
    forall|i: int, j: int|
        0 <= i < j < votes.len() ==> (#[trigger] votes[i]).vote_pubkey != (#[trigger] votes[j]).vote_pubkey
}

/// The first place from `from` on at which the validator's vote stands, or the length of the list.
pub open spec fn place_of(
    votes: Seq<LatestValidatorVotePacket>,
    vote_pubkey: Pubkey,
    from: int,
) -> int
    decreases votes.len() - from,
{
    if from < 0 || from >= votes.len() {
        votes.len() as int
    } else if votes[from].vote_pubkey == vote_pubkey {
        from
    } else {
        place_of(votes, vote_pubkey, from + 1)
    }
}

/// What `place_of` finds.
pub proof fn lemma_place_of(
    votes: Seq<LatestValidatorVotePacket>,
    vote_pubkey: Pubkey,
    from: int,
)
    requires
        0 <= from <= votes.len(),
    ensures
        from <= place_of(votes, vote_pubkey, from) <= votes.len(),
        place_of(votes, vote_pubkey, from) < votes.len() ==> votes[place_of(
            votes,
            vote_pubkey,
            from,
        )].vote_pubkey == vote_pubkey,
        forall|i: int|
            from <= i < place_of(votes, vote_pubkey, from) ==> (#[trigger] votes[i]).vote_pubkey
                != vote_pubkey,
    decreases votes.len() - from,
{
    if from < votes.len() && votes[from].vote_pubkey != vote_pubkey {
        lemma_place_of(votes, vote_pubkey, from + 1);
    }
}

/// How many of the votes were not taken.
pub open spec fn present_count(votes: Seq<LatestValidatorVotePacket>) -> nat
    decreases votes.len(),
{
    if votes.len() == 0 {
        0
    } else {
        present_count(votes.drop_last()) + if votes.last().vote is Some {
            1nat
        } else {
            0nat
        }
    }
}

/// What became of votes that were put in: the votes that are kept, and how many were dropped, by
/// where they came from.
pub struct Insertion {
    pub votes: Seq<LatestValidatorVotePacket>,
    pub dropped_gossip: nat,
    pub dropped_tpu: nat,
}

impl Insertion {
    pub open spec fn dropping(self, vote: LatestValidatorVotePacket) -> Insertion {
        match vote.vote_source {
            VoteSource::Gossip => Insertion { dropped_gossip: self.dropped_gossip + 1, ..self },
            VoteSource::Tpu => Insertion { dropped_tpu: self.dropped_tpu + 1, ..self },
        }
    }

    /// One vote is put in. Votes of validators without stake are ignored. Of two votes of a
    /// validator the one that does not supersede the other is dropped; a taken vote is replaced
    /// without being dropped.
    pub open spec fn insert(
        self,
        staked: Seq<Pubkey>,
        vote: LatestValidatorVotePacket,
        should_replenish_taken_votes: bool,
    ) -> Insertion {
        let place = place_of(self.votes, vote.vote_pubkey, 0);
        if !staked.contains(vote.vote_pubkey) {
            self
        } else if place == self.votes.len() {
            Insertion { votes: self.votes.push(vote), ..self }
        } else if supersedes(vote, self.votes[place], should_replenish_taken_votes) {
            let replaced = Insertion { votes: self.votes.update(place, vote), ..self };
            if self.votes[place].vote is Some {
                replaced.dropping(self.votes[place])
            } else {
                replaced
            }
        } else {
            self.dropping(vote)
        }
    }

    /// Votes are put in one after the other.
    pub open spec fn insert_all(
        self,
        staked: Seq<Pubkey>,
        votes: Seq<LatestValidatorVotePacket>,
        should_replenish_taken_votes: bool,
    ) -> Insertion
        decreases votes.len(),
    {
        if votes.len() == 0 {
            self
        } else {
            self.insert_all(staked, votes.drop_last(), should_replenish_taken_votes).insert(
                staked,
                votes.last(),
                should_replenish_taken_votes,
            )
        }
    }

    pub open spec fn start(votes: Seq<LatestValidatorVotePacket>) -> Insertion {
        Insertion { votes, dropped_gossip: 0, dropped_tpu: 0 }
    }
}

/// No validator gets a second vote.
pub proof fn lemma_insert(
    before: Insertion,
    staked: Seq<Pubkey>,
    vote: LatestValidatorVotePacket,
    should_replenish_taken_votes: bool,
)
    requires
        one_per_validator(before.votes),
    ensures
        one_per_validator(before.insert(staked, vote, should_replenish_taken_votes).votes),
        before.insert(staked, vote, should_replenish_taken_votes).dropped_gossip
            + before.insert(staked, vote, should_replenish_taken_votes).dropped_tpu
            <= before.dropped_gossip + before.dropped_tpu + 1,
{
    lemma_place_of(before.votes, vote.vote_pubkey, 0);
    let after = before.insert(staked, vote, should_replenish_taken_votes);
    let votes = before.votes;
    let place = place_of(votes, vote.vote_pubkey, 0);
    if after.votes.len() > votes.len() {
        assert forall|i: int, j: int| 0 <= i < j < after.votes.len() implies (
        #[trigger] after.votes[i]).vote_pubkey != (#[trigger] after.votes[j]).vote_pubkey by {
            assert(after.votes[i] == votes[i]);
            if j < votes.len() {
                assert(after.votes[j] == votes[j]);
            }
        }
    } else {
        assert forall|i: int, j: int| 0 <= i < j < after.votes.len() implies (
        #[trigger] after.votes[i]).vote_pubkey != (#[trigger] after.votes[j]).vote_pubkey by {
            assert(after.votes[i].vote_pubkey == votes[i].vote_pubkey);
            assert(after.votes[j].vote_pubkey == votes[j].vote_pubkey);
        }
    }
}

/// The latest vote of each validator, the validators that have stake, and whether legacy vote
/// instructions are refused.
#[derive(Debug)]
pub struct LatestUnprocessedVotes {
    pub latest_votes: Vec<LatestValidatorVotePacket>,
    pub staked: Vec<Pubkey>,
    pub deprecate_legacy_vote_ixs: bool,
    pub current_epoch: u64,
}

impl LatestUnprocessedVotes {
    pub open spec fn votes(&self) -> Seq<LatestValidatorVotePacket> {
        self.latest_votes@
    }

    pub open spec fn wf(&self) -> bool {
        one_per_validator(self.votes())
    }

    /// Everything but the votes is as in the other.
    pub open spec fn same_rules(&self, other: &LatestUnprocessedVotes) -> bool {
        &&& self.staked == other.staked
        &&& self.deprecate_legacy_vote_ixs == other.deprecate_legacy_vote_ixs
        &&& self.current_epoch == other.current_epoch
    }

    /// No votes yet, from validators of whom the given ones have stake.
    pub fn new(staked: Vec<Pubkey>, deprecate_legacy_vote_ixs: bool, current_epoch: u64) -> (votes:
        Self)
        ensures
            votes.wf(),
            votes.votes() == Seq::<LatestValidatorVotePacket>::empty(),
            votes.staked == staked,
            votes.deprecate_legacy_vote_ixs == deprecate_legacy_vote_ixs,
            votes.current_epoch == current_epoch,
    {
        LatestUnprocessedVotes {
            latest_votes: Vec::new(),
            staked,
            deprecate_legacy_vote_ixs,
            current_epoch,
        }
    }

    /// How many votes wait for processing.
    pub fn len(&self) -> (len: usize)
        ensures
            len == present_count(self.votes()),
    {
        let mut count: usize = 0;
        let mut i: usize = 0;
        while i < self.latest_votes.len()
            invariant
                i <= self.latest_votes@.len(),
                count <= i,
                count == present_count(self.latest_votes@.take(i as int)),
            decreases self.latest_votes.len() - i,
        {
            assert(self.latest_votes@.take(i + 1).drop_last() =~= self.latest_votes@.take(i as int));
            if !self.latest_votes[i].is_vote_taken() {
                count += 1;
            }
            i += 1;
        }
        assert(self.latest_votes@.take(i as int) =~= self.latest_votes@);
        count
    }

    /// Whether no vote waits for processing.
    pub fn is_empty(&self) -> (empty: bool)
        ensures
            empty == (present_count(self.votes()) == 0),
    {
        self.len() == 0
    }

    /// Whether legacy vote instructions are refused.
    pub fn should_deprecate_legacy_vote_ixs(&self) -> (deprecate: bool)
        ensures
            deprecate == self.deprecate_legacy_vote_ixs,
    {
        self.deprecate_legacy_vote_ixs
    }

    /// The place of the validator's vote, or the number of votes.
    fn find(&self, vote_pubkey: &Pubkey) -> (place: usize)
        ensures
            place == place_of(self.votes(), *vote_pubkey, 0),
    {
        let mut i: usize = 0;
        while i < self.latest_votes.len()
            invariant
                i <= self.latest_votes@.len(),
                place_of(self.votes(), *vote_pubkey, 0) == place_of(
                    self.votes(),
                    *vote_pubkey,
                    i as int,
                ),
            decreases self.latest_votes.len() - i,
        {
            if self.latest_votes[i].vote_pubkey.same_as(vote_pubkey) {
                return i;
            }
            i += 1;
        }
        i
    }

    /// Puts one vote in, and tells where the vote came from that was dropped for it.
    fn update_latest_vote(
        &mut self,
        vote: LatestValidatorVotePacket,
        should_replenish_taken_votes: bool,
    ) -> (dropped: Option<VoteSource>)
        requires
            old(self).wf(),
        ensures
            final(self).wf(),
            final(self).same_rules(old(self)),
            Insertion::start(old(self).votes()).insert(
                old(self).staked@,
                vote,
                should_replenish_taken_votes,
            ) == (Insertion {
                votes: final(self).votes(),
                dropped_gossip: if dropped == Some(VoteSource::Gossip) {
                    1
                } else {
                    0
                },
                dropped_tpu: if dropped == Some(VoteSource::Tpu) {
                    1
                } else {
                    0
                },
            }),
    {
        proof {
            lemma_insert(
                Insertion::start(self.votes()),
                self.staked@,
                vote,
                should_replenish_taken_votes,
            );
            lemma_place_of(self.votes(), vote.vote_pubkey, 0);
        }
        if !contains_key(&self.staked, &vote.vote_pubkey) {
            return None;
        }
        let place = self.find(&vote.vote_pubkey);
        if place == self.latest_votes.len() {
            self.latest_votes.push(vote);
            None
        } else if vote.may_replace(&self.latest_votes[place], should_replenish_taken_votes) {
            let dropped = if self.latest_votes[place].is_vote_taken() {
                None
            } else {
                Some(self.latest_votes[place].vote_source)
            };
            self.latest_votes.set(place, vote);
            dropped
        } else {
            Some(vote.vote_source)
        }
    }

    /// Puts votes in one after the other, and says how many votes were dropped.
    pub fn insert_batch(
        &mut self,
        votes: Vec<LatestValidatorVotePacket>,
        should_replenish_taken_votes: bool,
    ) -> (metrics: VoteBatchInsertionMetrics)
        requires
            old(self).wf(),
        ensures
            final(self).wf(),
            final(self).same_rules(old(self)),
            ({
                let after = Insertion::start(old(self).votes()).insert_all(
                    old(self).staked@,
                    votes@,
                    should_replenish_taken_votes,
                );
                &&& final(self).votes() == after.votes
                &&& metrics.num_dropped_gossip == after.dropped_gossip
                &&& metrics.num_dropped_tpu == after.dropped_tpu
            }),
            metrics.num_dropped_gossip + metrics.num_dropped_tpu <= votes@.len(),
    {
        let ghost all = votes@;
        let ghost start = Insertion::start(self.votes());
        let ghost staked = self.staked@;
        let ghost mut so_far = start;
        let total: usize = votes.len();
        let mut num_dropped_gossip: usize = 0;
        let mut num_dropped_tpu: usize = 0;
        for vote in iter: votes
            invariant
                iter.seq() == all,
                all.len() == total,
                self.wf(),
                self.same_rules(old(self)),
                staked == self.staked@,
                so_far == start.insert_all(
                    staked,
                    all.take(iter.index() as int),
                    should_replenish_taken_votes,
                ),
                so_far.votes == self.votes(),
                num_dropped_gossip == so_far.dropped_gossip,
                num_dropped_tpu == so_far.dropped_tpu,
                so_far.dropped_gossip + so_far.dropped_tpu <= iter.index(),
        {
            let ghost before = so_far;
            proof {
                lemma_insert(before, staked, vote, should_replenish_taken_votes);
                assert(all.take(iter.index() + 1).drop_last() =~= all.take(iter.index() as int));
                so_far = before.insert(staked, vote, should_replenish_taken_votes);
            }
            match self.update_latest_vote(vote, should_replenish_taken_votes) {
                Some(VoteSource::Gossip) => {
                    num_dropped_gossip += 1;
                },
                Some(VoteSource::Tpu) => {
                    num_dropped_tpu += 1;
                },
                None => {},
            }
        }
        assert(all.take(all.len() as int) =~= all);
        VoteBatchInsertionMetrics { num_dropped_gossip, num_dropped_tpu }
    }

    /// Drops the votes that need not be forwarded.
    pub fn clear_forwarded_packets(&mut self)
        requires
            old(self).wf(),
        ensures
            final(self).wf(),
            final(self).same_rules(old(self)),
            final(self).votes() == without_forwarded(old(self).votes()),
    {
        let ghost before = self.votes();
        let mut i: usize = 0;
        while i < self.latest_votes.len()
            invariant
                i <= self.latest_votes@.len(),
                self.latest_votes@.len() == before.len(),
                self.same_rules(old(self)),
                forall|k: int|
                    0 <= k < i ==> #[trigger] self.latest_votes@[k] == without_forwarded(before)[k],
                forall|k: int| i <= k < before.len() ==> #[trigger] self.latest_votes@[k] == before[k],
            decreases self.latest_votes.len() - i,
        {
            if self.latest_votes[i].is_forwarded() {
                let vote = &mut self.latest_votes[i];
                vote.vote = None;
            }
            i += 1;
        }
        assert(self.votes() =~= without_forwarded(before));
        proof {
            lemma_same_validators(before, self.votes());
        }
    }

    /// Takes the packets of the waiting votes out, in the given order of their validators.
    pub fn drain_unprocessed(&mut self, order: &Vec<Pubkey>) -> (packets: Vec<
        SharedPacket,
    >)
        requires
            old(self).wf(),
        ensures
            final(self).wf(),
            final(self).same_rules(old(self)),
            drained(old(self).votes(), order@) == (final(self).votes(), packets@),
    {
        let ghost before = self.votes();
        let mut packets: Vec<SharedPacket> = Vec::new();
        let mut i: usize = 0;
        while i < order.len()
            invariant
                i <= order@.len(),
                self.wf(),
                self.same_rules(old(self)),
                drained(before, order@.take(i as int)) == (self.votes(), packets@),
            decreases order.len() - i,
        {
            proof {
                assert(order@.take(i + 1).drop_last() =~= order@.take(i as int));
                lemma_place_of(self.votes(), order@[i as int], 0);
            }
            let ghost now = self.votes();
            let place = self.find(&order[i]);
            if place < self.latest_votes.len() {
                let entry = &mut self.latest_votes[place];
                let taken = entry.vote.take();
                if let Some(packet) = taken {
                    packets.push(packet);
                }
                proof {
                    if now[place as int].vote is None {
                        assert(self.votes() =~= now);
                    } else {
                        assert(self.votes() =~= now.update(
                            place as int,
                            as_taken(now[place as int]),
                        ));
                    }
                    lemma_same_validators(now, self.votes());
                }
            }
            i += 1;
        }
        assert(order@.take(i as int) =~= order@);
        packets
    }

    /// Offers the waiting votes that were not forwarded yet to the forward buffer, in the given
    /// order of their validators, up to the first that it refuses. A vote that does not sanitize
    /// is passed over. Gives the number of votes that were taken.
    pub fn get_and_insert_forwardable_packets<
        T,
        S: FnMut(&SharedPacket) -> Option<T>,
        A: FnMut(&T, &SharedPacket) -> bool,
    >(
        &mut self,
        order: &Vec<Pubkey>,
        sanitize: &mut Inquiry<SharedPacket, Option<T>, S>,
        try_add: &mut PairInquiry<T, SharedPacket, bool, A>,
    ) -> (forwarded_count: usize)
        requires
            old(self).wf(),
            old(sanitize).takes_all(),
            old(try_add).takes_all(),
        ensures
            final(sanitize).function() == old(sanitize).function(),
            final(try_add).function() == old(try_add).function(),
            final(self).wf(),
            final(self).same_rules(old(self)),
            exists|states: Seq<VoteForwarding<T>>|
                {
                    &&& #[trigger] vote_forward_run(
                        old(sanitize).function(),
                        old(try_add).function(),
                        order@,
                        states,
                    )
                    &&& states.first() == vote_forward_start(
                        old(self).votes(),
                        vote_calls(old(sanitize), old(try_add)),
                    )
                    &&& states.last().full || states.len() == order@.len() + 1
                    &&& states.last().votes == final(self).votes()
                    &&& states.last().taken == forwarded_count
                    &&& states.last().calls == vote_calls(final(sanitize), final(try_add))
                },
    {
        let ghost sanitize0 = sanitize.function();
        let ghost try_add0 = try_add.function();
        let ghost start = vote_forward_start(self.votes(), vote_calls(sanitize, try_add));
        let ghost mut states: Seq<VoteForwarding<T>> = seq![start];
        let mut forwarded_count: usize = 0;
        let mut i: usize = 0;
        let mut full = false;
        while i < order.len() && !full
            invariant
                i <= order@.len(),
                forwarded_count <= i,
                sanitize.function() == sanitize0,
                try_add.function() == try_add0,
                sanitize.takes_all(),
                try_add.takes_all(),
                self.wf(),
                self.same_rules(old(self)),
                states.len() == i + 1,
                vote_forward_run(sanitize0, try_add0, order@, states),
                states.first() == start,
                states.last() == (VoteForwarding {
                    votes: self.votes(),
                    taken: forwarded_count as nat,
                    full,
                    calls: vote_calls(sanitize, try_add),
                }),
            decreases order.len() - i,
        {
            let ghost before = states.last();
            let ghost now = self.votes();
            proof {
                lemma_place_of(now, order@[i as int], 0);
            }
            let place = self.find(&order[i]);
            let ghost mut answers: (Option<T>, bool) = (None, false);
            if place < self.latest_votes.len() && !self.latest_votes[place].is_vote_taken()
                && !self.latest_votes[place].is_forwarded() {
                let packet = match &self.latest_votes[place].vote {
                    Some(packet) => Arc::clone(packet),
                    None => vstd::pervasive::unreached(),
                };
                let sanitized = sanitize.ask(&packet);
                if let Some(transaction) = sanitized {
                    let taken = try_add.ask(&transaction, &packet);
                    proof {
                        answers = (Some(transaction), taken);
                    }
                    if taken {
                        let entry = &mut self.latest_votes[place];
                        entry.forwarded = true;
                        forwarded_count += 1;
                    } else {
                        full = true;
                    }
                }
            }
            proof {
                let after = VoteForwarding {
                    votes: self.votes(),
                    taken: forwarded_count as nat,
                    full,
                    calls: vote_calls(sanitize, try_add),
                };
                assert(self.votes() =~= now || self.votes() =~= now.update(
                    place as int,
                    as_forwarded(now[place as int]),
                ));
                lemma_same_validators(now, self.votes());
                assert(vote_answers(sanitize0, try_add0, order@[i as int], before, answers));
                assert(after.votes =~= vote_forward_step(order@[i as int], before, answers).votes);
                let previous = states;
                states = states.push(after);
                assert forall|k: int| 0 <= k < states.len() - 1 implies vote_forwarded_by(
                    sanitize0,
                    try_add0,
                    order@[k],
                    #[trigger] states[k],
                    states[k + 1],
                ) by {
                    assert(states[k] == previous[k]);
                    if k < previous.len() - 1 {
                        assert(states[k + 1] == previous[k + 1]);
                    }
                }
            }
            i += 1;
        }
        forwarded_count
    }

    /// Takes over the stakes of a new epoch and drops the votes of validators that have none any
    /// more. In the epoch that is known already, nothing changes.
    pub fn cache_epoch_boundary_info(
        &mut self,
        epoch: u64,
        staked: Vec<Pubkey>,
        deprecate_legacy_vote_ixs: bool,
    )
        requires
            old(self).wf(),
        ensures
            final(self).wf(),
            if epoch <= old(self).current_epoch {
                *final(self) == *old(self)
            } else {
                &&& final(self).current_epoch == epoch
                &&& final(self).staked == staked
                &&& final(self).deprecate_legacy_vote_ixs == deprecate_legacy_vote_ixs
                &&& final(self).votes() == of_staked(old(self).votes(), staked@)
            },
    {
        if epoch <= self.current_epoch {
            return;
        }
        let ghost before = self.votes();
        self.current_epoch = epoch;
        self.staked = staked;
        self.deprecate_legacy_vote_ixs = deprecate_legacy_vote_ixs;
        let mut votes: Vec<LatestValidatorVotePacket> = Vec::new();
        votes.append(&mut self.latest_votes);
        let mut kept: Vec<LatestValidatorVotePacket> = Vec::new();
        proof {
            assert(votes@ =~= before);
            reveal(Seq::filter);
            assert(of_staked(before.take(0), staked@) =~= Seq::empty());
        }
        for vote in iter: votes
            invariant
                iter.seq() == before,
                self.staked == staked,
                one_per_validator(before),
                kept@ == of_staked(before.take(iter.index() as int), staked@),
        {
            proof {
                let seen = before.take(iter.index() as int);
                assert(before.take(iter.index() + 1) =~= seen.push(vote));
                seen.lemma_filter_push(
                    vote,
                    |vote: LatestValidatorVotePacket| staked@.contains(vote.vote_pubkey),
                );
            }
            if contains_key(&self.staked, &vote.vote_pubkey) {
                kept.push(vote);
            }
        }
        proof {
            assert(before.take(before.len() as int) =~= before);
            lemma_of_staked(before, staked@);
        }
        self.latest_votes = kept;
    }
}

/// The vote after its packet was taken.
pub open spec fn as_taken(vote: LatestValidatorVotePacket) -> LatestValidatorVotePacket {
    LatestValidatorVotePacket { vote: None, ..vote }
}

/// The vote after it was forwarded.
pub open spec fn as_forwarded(vote: LatestValidatorVotePacket) -> LatestValidatorVotePacket {
    LatestValidatorVotePacket { forwarded: true, ..vote }
}

/// The votes with the packets gone that need not be forwarded.
pub open spec fn without_forwarded(votes: Seq<LatestValidatorVotePacket>) -> Seq<
    LatestValidatorVotePacket,
> {
    Seq::new(
        votes.len(),
        |i: int|
            if votes[i].spec_is_forwarded() {
                as_taken(votes[i])
            } else {
                votes[i]
            },
    )
}

/// The votes of validators with stake.
pub open spec fn of_staked(votes: Seq<LatestValidatorVotePacket>, staked: Seq<Pubkey>) -> Seq<
    LatestValidatorVotePacket,
> {
    votes.filter(|vote: LatestValidatorVotePacket| staked.contains(vote.vote_pubkey))
}

/// The votes after the packets of the given validators were taken in order, and the packets.
pub open spec fn drained(votes: Seq<LatestValidatorVotePacket>, order: Seq<Pubkey>) -> (
    Seq<LatestValidatorVotePacket>,
    Seq<SharedPacket>,
)
    decreases order.len(),
{
    if order.len() == 0 {
        (votes, Seq::empty())
    } else {
        let (rest, packets) = drained(votes, order.drop_last());
        let place = place_of(rest, order.last(), 0);
        if place < rest.len() && rest[place].vote is Some {
            (rest.update(place, as_taken(rest[place])), packets.push(rest[place].vote->0))
        } else {
            (rest, packets)
        }
    }
}

/// Every call of the two services that votes are forwarded with, in order.
pub struct VoteCalls<T> {
    /// Each vote that was to be sanitized, and what came of it.
    pub sanitized: Seq<(SharedPacket, Option<T>)>,
    /// Each vote that was offered to the forward buffer, and whether it was taken.
    pub offered: Seq<(T, SharedPacket, bool)>,
}

/// The calls that the two services record.
pub open spec fn vote_calls<
    T,
    S: FnMut(&SharedPacket) -> Option<T>,
    A: FnMut(&T, &SharedPacket) -> bool,
>(
    sanitize: &Inquiry<SharedPacket, Option<T>, S>,
    try_add: &PairInquiry<T, SharedPacket, bool, A>,
) -> VoteCalls<T> {
    VoteCalls { sanitized: sanitize.log(), offered: try_add.log() }
}

/// Where the forwarding of votes stands: the votes, how many were taken, whether the forward buffer
/// has refused one, and the calls so far.
pub struct VoteForwarding<T> {
    pub votes: Seq<LatestValidatorVotePacket>,
    pub taken: nat,
    pub full: bool,
    pub calls: VoteCalls<T>,
}

/// Where the forwarding of votes starts.
pub open spec fn vote_forward_start<T>(
    votes: Seq<LatestValidatorVotePacket>,
    calls: VoteCalls<T>,
) -> VoteForwarding<T> {
    VoteForwarding { votes, taken: 0, full: false, calls }
}

/// The place of the validator's vote, where it waits and was not forwarded yet.
pub open spec fn forwardable_place(
    votes: Seq<LatestValidatorVotePacket>,
    vote_pubkey: Pubkey,
) -> Option<int> {
    let place = place_of(votes, vote_pubkey, 0);
    if place < votes.len() && votes[place].vote is Some && !votes[place].spec_is_forwarded() {
        Some(place)
    } else {
        None
    }
}

/// The answers about a validator's vote are ones that the two services can give, as far as they
/// are asked.
pub open spec fn vote_answers<
    T,
    S: FnMut(&SharedPacket) -> Option<T>,
    A: FnMut(&T, &SharedPacket) -> bool,
>(
    sanitize: S,
    try_add: A,
    vote_pubkey: Pubkey,
    before: VoteForwarding<T>,
    answers: (Option<T>, bool),
) -> bool {
    match forwardable_place(before.votes, vote_pubkey) {
        Some(place) => {
            let packet = before.votes[place].vote->0;
            &&& call_ensures(sanitize, (&packet,), answers.0)
            &&& answers.0 matches Some(transaction) ==> call_ensures(
                try_add,
                (&transaction, &packet),
                answers.1,
            )
        },
        None => true,
    }
}

/// One validator's vote is offered: whether it sanitizes and whether it was taken. It is sanitized
/// once, and offered once where it sanitizes.
pub open spec fn vote_forward_step<T>(
    vote_pubkey: Pubkey,
    before: VoteForwarding<T>,
    answers: (Option<T>, bool),
) -> VoteForwarding<T> {
    match forwardable_place(before.votes, vote_pubkey) {
        Some(place) => {
            let packet = before.votes[place].vote->0;
            let calls = VoteCalls {
                sanitized: before.calls.sanitized.push((packet, answers.0)),
                offered: match answers.0 {
                    Some(transaction) => before.calls.offered.push(
                        (transaction, packet, answers.1),
                    ),
                    None => before.calls.offered,
                },
            };
            if answers.0 is None {
                VoteForwarding { calls, ..before }
            } else if answers.1 {
                VoteForwarding {
                    votes: before.votes.update(place, as_forwarded(before.votes[place])),
                    taken: before.taken + 1,
                    calls,
                    ..before
                }
            } else {
                VoteForwarding { full: true, calls, ..before }
            }
        },
        None => before,
    }
}

/// One validator's vote is offered.
pub open spec fn vote_forwarded_by<
    T,
    S: FnMut(&SharedPacket) -> Option<T>,
    A: FnMut(&T, &SharedPacket) -> bool,
>(
    sanitize: S,
    try_add: A,
    vote_pubkey: Pubkey,
    before: VoteForwarding<T>,
    after: VoteForwarding<T>,
) -> bool {
    exists|answers: (Option<T>, bool)|
        #[trigger] vote_answers(sanitize, try_add, vote_pubkey, before, answers) && after
            == vote_forward_step(vote_pubkey, before, answers)
}

/// Votes are offered in the order of their validators, until one is refused.
pub open spec fn vote_forward_run<
    T,
    S: FnMut(&SharedPacket) -> Option<T>,
    A: FnMut(&T, &SharedPacket) -> bool,
>(sanitize: S, try_add: A, order: Seq<Pubkey>, states: Seq<VoteForwarding<T>>) -> bool {
    &&& 0 < states.len() <= order.len() + 1
    &&& forall|i: int|
        0 <= i < states.len() - 1 ==> vote_forwarded_by(
            sanitize,
            try_add,
            order[i],
            #[trigger] states[i],
            states[i + 1],
        )
    &&& forall|i: int| 0 <= i < states.len() - 1 ==> !(#[trigger] states[i]).full
}

/// Votes of the same validators in the same places.
proof fn lemma_same_validators(
    before: Seq<LatestValidatorVotePacket>,
    after: Seq<LatestValidatorVotePacket>,
)
    requires
        one_per_validator(before),
        before.len() == after.len(),
        forall|i: int|
            0 <= i < after.len() ==> (#[trigger] after[i]).vote_pubkey == before[i].vote_pubkey,
    ensures
        one_per_validator(after),
{
    assert forall|i: int, j: int| 0 <= i < j < after.len() implies (#[trigger] after[i]).vote_pubkey
        != (#[trigger] after[j]).vote_pubkey by {
        assert(before[i].vote_pubkey != before[j].vote_pubkey);
    }
}

/// The votes of staked validators are from different validators.
proof fn lemma_of_staked(votes: Seq<LatestValidatorVotePacket>, staked: Seq<Pubkey>)
    requires
        one_per_validator(votes),
    ensures
        one_per_validator(of_staked(votes, staked)),
        forall|vote: LatestValidatorVotePacket| #[trigger]
            of_staked(votes, staked).contains(vote) ==> votes.contains(vote),
    decreases votes.len(),
{
    reveal(Seq::filter);
    if votes.len() > 0 {
        let shorter = votes.drop_last();
        assert forall|i: int, j: int| 0 <= i < j < shorter.len() implies (
        #[trigger] shorter[i]).vote_pubkey != (#[trigger] shorter[j]).vote_pubkey by {
            assert(votes[i].vote_pubkey != votes[j].vote_pubkey);
        }
        lemma_of_staked(shorter, staked);
        let before = of_staked(shorter, staked);
        let after = of_staked(votes, staked);
        assert forall|i: int, j: int| 0 <= i < j < after.len() implies (
        #[trigger] after[i]).vote_pubkey != (#[trigger] after[j]).vote_pubkey by {
            if j < before.len() {
                assert(before[i].vote_pubkey != before[j].vote_pubkey);
            } else {
                assert(before.contains(before[i]));
                let k = choose|k: int| 0 <= k < shorter.len() && shorter[k] == before[i];
                assert(votes[k].vote_pubkey != votes[votes.len() - 1].vote_pubkey);
            }
        }
        assert forall|vote: LatestValidatorVotePacket| #[trigger] after.contains(
            vote,
        ) implies votes.contains(vote) by {
            let i = choose|i: int| 0 <= i < after.len() && after[i] == vote;
            if i < before.len() {
                assert(before.contains(before[i]));
                let k = choose|k: int| 0 <= k < shorter.len() && shorter[k] == before[i];
                assert(votes[k] == vote);
            } else {
                assert(votes[votes.len() - 1] == vote);
            }
        }
    }
}

/// Of two votes of a validator at most one takes the place of the other, unless taken votes are
/// replenished.
pub proof fn law_superseding_is_one_way(
    vote: LatestValidatorVotePacket,
    other: LatestValidatorVotePacket,
)
    ensures
        !(supersedes(vote, other, false) && supersedes(other, vote, false)),
        vote.slot > other.slot ==> supersedes(vote, other, false) && !supersedes(
            other,
            vote,
            true,
        ),
{
}

/// However many votes are put in, no validator has two, and none without stake gains one.
pub proof fn law_one_vote_per_staked_validator(
    start: Insertion,
    staked: Seq<Pubkey>,
    votes: Seq<LatestValidatorVotePacket>,
    should_replenish_taken_votes: bool,
)
    requires
        one_per_validator(start.votes),
        forall|i: int|
            0 <= i < start.votes.len() ==> staked.contains(
                (#[trigger] start.votes[i]).vote_pubkey,
            ),
    ensures
        ({
            let after = start.insert_all(staked, votes, should_replenish_taken_votes);
            &&& one_per_validator(after.votes)
            &&& forall|i: int|
                0 <= i < after.votes.len() ==> staked.contains(
                    (#[trigger] after.votes[i]).vote_pubkey,
                )
        }),
    decreases votes.len(),
{
    if votes.len() > 0 {
        let before = start.insert_all(staked, votes.drop_last(), should_replenish_taken_votes);
        law_one_vote_per_staked_validator(
            start,
            staked,
            votes.drop_last(),
            should_replenish_taken_votes,
        );
        lemma_insert(before, staked, votes.last(), should_replenish_taken_votes);
        lemma_place_of(before.votes, votes.last().vote_pubkey, 0);
    }
}

/// A vote that was taken and comes back for a retry waits again, unless its validator sent a vote
/// that supersedes it.
pub proof fn law_retried_vote_waits_again(
    before: Insertion,
    staked: Seq<Pubkey>,
    vote: LatestValidatorVotePacket,
)
    requires
        staked.contains(vote.vote_pubkey),
        vote.vote is Some,
        place_of(before.votes, vote.vote_pubkey, 0) < before.votes.len(),
        before.votes[place_of(before.votes, vote.vote_pubkey, 0)].slot == vote.slot,
        before.votes[place_of(before.votes, vote.vote_pubkey, 0)].timestamp == vote.timestamp,
        before.votes[place_of(before.votes, vote.vote_pubkey, 0)].vote is None,
    ensures
        ({
            let place = place_of(before.votes, vote.vote_pubkey, 0);
            before.insert(staked, vote, true) == (Insertion {
                votes: before.votes.update(place, vote),
                ..before
            })
        }),
        before.insert(staked, vote, false).votes == before.votes,
{
}

} // verus!
