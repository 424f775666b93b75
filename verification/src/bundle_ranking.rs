//! The order in which bundles are executed: by what they pay for the compute units they use.

use vstd::prelude::*;

use crate::bundle::{
    packet_tips, BundleTransaction, ImmutableDeserializedBundle, SanitizedBundle,
};
use crate::bundle_storage::BundleStorage;
use crate::keys::Pubkey;
use crate::packet::ImmutableDeserializedPacket;

verus! {

/// What the reward is multiplied by before it is divided by the compute units.
pub const MULTIPLIER: u64 = 1_000_000;

/// What the first transactions cost together.
pub open spec fn total_cost(transactions: Seq<BundleTransaction>) -> int
    decreases transactions.len(),
{
    if transactions.len() == 0 {
        0
    } else {
        total_cost(transactions.drop_last()) + transactions.last().cost
    }
}

/// What the first transactions bring together.
pub open spec fn total_reward(transactions: Seq<BundleTransaction>) -> int
    decreases transactions.len(),
{
    if transactions.len() == 0 {
        0
    } else {
        total_reward(transactions.drop_last()) + transactions.last().reward
    }
}

/// What the first packets transfer to tip accounts together.
pub open spec fn total_tips(
    packets: Seq<ImmutableDeserializedPacket>,
    tip_accounts: Seq<Pubkey>,
) -> int
    decreases packets.len(),
{
    if packets.len() == 0 {
        0
    } else {
        total_tips(packets.drop_last(), tip_accounts) + packet_tips(packets.last(), tip_accounts)
    }
}

/// Costs, rewards and tips fit the numbers that they are counted in.
pub open spec fn sums_fit(transactions: Seq<BundleTransaction>) -> bool {
    &&& total_cost(transactions) <= u64::MAX
    &&& total_reward(transactions) <= u64::MAX
}

/// The tips fit the number that they are counted in, and the packets are well-formed.
pub open spec fn tips_fit(
    packets: Seq<ImmutableDeserializedPacket>,
    tip_accounts: Seq<Pubkey>,
) -> bool {
    &&& total_tips(packets, tip_accounts) <= u64::MAX
    &&& forall|i: int| 0 <= i < packets.len() ==> (#[trigger] packets[i]).message.wf()
}

/// The sum, or the largest number there is.
pub open spec fn at_most_u64(value: int) -> int {
    if value > u64::MAX {
        u64::MAX as int
    } else {
        value
    }
}

/// What a bundle pays for a million compute units: its rewards and tips over its cost. Sums and
/// products stop at the largest number there is.
pub open spec fn bundle_priority(
    bundle: ImmutableDeserializedBundle,
    sanitized: SanitizedBundle,
    tip_accounts: Seq<Pubkey>,
) -> int {
    let reward = at_most_u64(
        total_reward(sanitized.transactions@) + total_tips(bundle.packets@, tip_accounts),
    );
    let cost = total_cost(sanitized.transactions@);
    at_most_u64(reward * MULTIPLIER) / (if cost > 1 {
        cost
    } else {
        1
    })
}

/// A bundle's place in the order: its priority and the number under which it came.
#[derive(Clone, Copy, Debug, PartialEq, Eq, Structural)]
pub struct BundlePriorityKey {
    pub priority: u64,
    pub sequence: u64,
}

/// The higher priority comes first, and at the same priority what came first.
pub open spec fn precedes(a: BundlePriorityKey, b: BundlePriorityKey) -> bool {
    a.priority > b.priority || (a.priority == b.priority && a.sequence < b.sequence)
}

/// Whether the first key comes before the second.
pub fn comes_before(a: &BundlePriorityKey, b: &BundlePriorityKey) -> (before: bool)
    ensures
        before == precedes(*a, *b),
{
    a.priority > b.priority || (a.priority == b.priority && a.sequence < b.sequence)
}

/// The order of bundles is a strict total order.
pub proof fn law_precedes_is_total_order(
    a: BundlePriorityKey,
    b: BundlePriorityKey,
    c: BundlePriorityKey,
)
    ensures
        !precedes(a, a),
        precedes(a, b) && precedes(b, c) ==> precedes(a, c),
        a == b || precedes(a, b) || precedes(b, a),
{
}

/// At the same cost, a bundle that pays more is not executed later; and at the same payment,
/// neither is one that costs less.
pub proof fn law_priority_is_monotone(
    bundle: ImmutableDeserializedBundle,
    sanitized: SanitizedBundle,
    other_bundle: ImmutableDeserializedBundle,
    other: SanitizedBundle,
    tip_accounts: Seq<Pubkey>,
)
    requires
        total_reward(sanitized.transactions@) + total_tips(bundle.packets@, tip_accounts)
            <= total_reward(other.transactions@) + total_tips(other_bundle.packets@, tip_accounts),
        total_cost(sanitized.transactions@) >= total_cost(other.transactions@),
    ensures
        bundle_priority(bundle, sanitized, tip_accounts) <= bundle_priority(
            other_bundle,
            other,
            tip_accounts,
        ),
{
    lemma_total_tips(
        bundle.packets@,
        tip_accounts,
        bundle.packets@.len() as int,
    );
    lemma_total_tips(
        other_bundle.packets@,
        tip_accounts,
        other_bundle.packets@.len() as int,
    );
    lemma_totals(sanitized.transactions@, sanitized.transactions@.len() as int);
    lemma_totals(other.transactions@, other.transactions@.len() as int);
    let cost = total_cost(sanitized.transactions@);
    let other_cost = total_cost(other.transactions@);
    let divisor = if cost > 1 {
        cost
    } else {
        1
    };
    let other_divisor = if other_cost > 1 {
        other_cost
    } else {
        1
    };
    let reward = at_most_u64(
        total_reward(sanitized.transactions@) + total_tips(bundle.packets@, tip_accounts),
    );
    let other_reward = at_most_u64(
        total_reward(other.transactions@) + total_tips(other_bundle.packets@, tip_accounts),
    );
    let a = at_most_u64(reward * MULTIPLIER);
    let b = at_most_u64(other_reward * MULTIPLIER);
    assert(0 <= a <= b);
    assert(a / divisor <= b / other_divisor) by (nonlinear_arith)
        requires
            0 <= a <= b,
            1 <= other_divisor <= divisor,
    ;
}

/// What one transaction costs and brings is its own cost and reward.
pub proof fn law_one_transaction_counts_itself(transaction: BundleTransaction)
    ensures
        total_cost(seq![transaction]) == transaction.cost,
        total_reward(seq![transaction]) == transaction.reward,
        total_cost(Seq::empty()) == 0,
        total_reward(Seq::empty()) == 0,
{
    reveal_with_fuel(total_cost, 2);
    reveal_with_fuel(total_reward, 2);
    let one = seq![transaction];
    assert(one.drop_last() =~= Seq::empty());
    assert(one.last() == transaction);
}

/// Costs and rewards add up over the transactions: those of two lists together are the sum of those
/// of each.
pub proof fn law_costs_and_rewards_add_up(a: Seq<BundleTransaction>, b: Seq<BundleTransaction>)
    ensures
        total_cost(a + b) == total_cost(a) + total_cost(b),
        total_reward(a + b) == total_reward(a) + total_reward(b),
    decreases b.len(),
{
    if b.len() == 0 {
        assert(a + b =~= a);
    } else {
        law_costs_and_rewards_add_up(a, b.drop_last());
        assert((a + b).drop_last() =~= a + b.drop_last());
    }
}

/// The tips of one packet are its own.
pub proof fn law_one_packet_counts_itself(
    packet: ImmutableDeserializedPacket,
    tip_accounts: Seq<Pubkey>,
)
    ensures
        total_tips(seq![packet], tip_accounts) == packet_tips(packet, tip_accounts),
        total_tips(Seq::empty(), tip_accounts) == 0,
{
    reveal_with_fuel(total_tips, 2);
    let one = seq![packet];
    assert(one.drop_last() =~= Seq::empty());
    assert(one.last() == packet);
}

/// Tips add up over the packets.
pub proof fn law_tips_add_up(
    a: Seq<ImmutableDeserializedPacket>,
    b: Seq<ImmutableDeserializedPacket>,
    tip_accounts: Seq<Pubkey>,
)
    ensures
        total_tips(a + b, tip_accounts) == total_tips(a, tip_accounts) + total_tips(
            b,
            tip_accounts,
        ),
    decreases b.len(),
{
    if b.len() == 0 {
        assert(a + b =~= a);
    } else {
        law_tips_add_up(a, b.drop_last(), tip_accounts);
        assert((a + b).drop_last() =~= a + b.drop_last());
    }
}

/// A bundle's priority is what it pays for a million compute units, rounded down: rewards and tips
/// together, a million times, over the cost, where a cost of zero counts as one. The million-fold
/// payment counts as the largest number there is where it exceeds it.
pub proof fn law_priority_is_payment_over_cost(
    bundle: ImmutableDeserializedBundle,
    sanitized: SanitizedBundle,
    tip_accounts: Seq<Pubkey>,
)
    ensures
        ({
            let priority = bundle_priority(bundle, sanitized, tip_accounts);
            let cost = total_cost(sanitized.transactions@);
            let payment = 1_000_000 * (total_reward(sanitized.transactions@) + total_tips(
                bundle.packets@,
                tip_accounts,
            ));
            let divisor = if cost == 0 {
                1
            } else {
                cost
            };
            let scaled = if payment <= 0xffff_ffff_ffff_ffff {
                payment
            } else {
                0xffff_ffff_ffff_ffff
            };
            priority * divisor <= scaled < (priority + 1) * divisor
        }),
{
    lemma_totals(sanitized.transactions@, sanitized.transactions@.len() as int);
    lemma_total_tips(bundle.packets@, tip_accounts, bundle.packets@.len() as int);
    let cost = total_cost(sanitized.transactions@);
    let together = total_reward(sanitized.transactions@) + total_tips(bundle.packets@, tip_accounts);
    let divisor = if cost == 0 {
        1
    } else {
        cost
    };
    assert(0 <= cost);
    let scaled = at_most_u64(at_most_u64(together) * MULTIPLIER);
    let priority = scaled / divisor;
    assert(priority == bundle_priority(bundle, sanitized, tip_accounts));
    assert(priority * divisor <= scaled < (priority + 1) * divisor) by (nonlinear_arith)
        requires
            priority == scaled / divisor,
            divisor >= 1,
            scaled >= 0,
    ;
}

/// Costs and rewards only add up.
pub proof fn lemma_totals(transactions: Seq<BundleTransaction>, n: int)
    requires
        0 <= n <= transactions.len(),
    ensures
        0 <= total_cost(transactions.take(n)) <= total_cost(transactions),
        0 <= total_reward(transactions.take(n)) <= total_reward(transactions),
    decreases transactions.len(),
{
    if n < transactions.len() {
        lemma_totals(transactions.drop_last(), n);
        assert(transactions.drop_last().take(n) =~= transactions.take(n));
    } else {
        assert(transactions.take(n) =~= transactions);
        if n > 0 {
            lemma_totals(transactions.drop_last(), n - 1);
            assert(transactions.drop_last().take(n - 1) =~= transactions.drop_last());
        }
    }
}

/// Tips only add up.
pub proof fn lemma_total_tips(
    packets: Seq<ImmutableDeserializedPacket>,
    tip_accounts: Seq<Pubkey>,
    n: int,
)
    requires
        0 <= n <= packets.len(),
    ensures
        0 <= total_tips(packets.take(n), tip_accounts) <= total_tips(packets, tip_accounts),
    decreases packets.len(),
{
    if packets.len() > 0 {
        let last = packets.last();
        crate::bundle::lemma_tips_of(
            last,
            tip_accounts,
            0,
            last.message.instructions@.len() as int,
        );
    }
    if n < packets.len() {
        lemma_total_tips(packets.drop_last(), tip_accounts, n);
        assert(packets.drop_last().take(n) =~= packets.take(n));
    } else {
        assert(packets.take(n) =~= packets);
        if n > 0 {
            lemma_total_tips(packets.drop_last(), tip_accounts, n - 1);
            assert(packets.drop_last().take(n - 1) =~= packets.drop_last());
        }
    }
}

impl BundleStorage {
    /// A bundle's place in the order; the counter moves on to the number under which the bundle came.
    pub fn calculate_bundle_priority(
        immutable_bundle: &ImmutableDeserializedBundle,
        sanitized_bundle: &SanitizedBundle,
        priority_counter: &mut u64,
        tip_accounts: &Vec<Pubkey>,
    ) -> (key: BundlePriorityKey)
        requires
            sums_fit(sanitized_bundle.transactions@),
            tips_fit(immutable_bundle.packets@, tip_accounts@),
        ensures
            key.priority == bundle_priority(*immutable_bundle, *sanitized_bundle, tip_accounts@),
            key.sequence == *final(priority_counter),
            *final(priority_counter) == (if *old(priority_counter) == u64::MAX {
                0
            } else {
                *old(priority_counter) + 1
            }),
    {
        let ghost transactions = sanitized_bundle.transactions@;
        let ghost packets = immutable_bundle.packets@;
        let mut total_cu_cost: u64 = 0;
        let mut reward_from_tx: u64 = 0;
        let mut i: usize = 0;
        while i < sanitized_bundle.transactions.len()
            invariant
                transactions == sanitized_bundle.transactions@,
                i <= transactions.len(),
                sums_fit(transactions),
                total_cu_cost == total_cost(transactions.take(i as int)),
                reward_from_tx == total_reward(transactions.take(i as int)),
            decreases sanitized_bundle.transactions.len() - i,
        {
            proof {
                lemma_totals(transactions, i + 1);
                assert(transactions.take(i + 1).drop_last() =~= transactions.take(i as int));
            }
            total_cu_cost = total_cu_cost + sanitized_bundle.transactions[i].cost;
            reward_from_tx = reward_from_tx + sanitized_bundle.transactions[i].reward;
            i += 1;
        }
        assert(transactions.take(i as int) =~= transactions);
        let mut reward_from_tips: u64 = 0;
        let mut j: usize = 0;
        while j < immutable_bundle.packets.len()
            invariant
                packets == immutable_bundle.packets@,
                j <= packets.len(),
                tips_fit(packets, tip_accounts@),
                reward_from_tips == total_tips(packets.take(j as int), tip_accounts@),
            decreases immutable_bundle.packets.len() - j,
        {
            proof {
                lemma_total_tips(packets, tip_accounts@, j + 1);
                assert(packets.take(j + 1).drop_last() =~= packets.take(j as int));
            }
            reward_from_tips = reward_from_tips + Self::extract_tips_from_packet(
                &immutable_bundle.packets[j],
                tip_accounts,
            );
            j += 1;
        }
        assert(packets.take(j as int) =~= packets);
        let total_reward: u64 = reward_from_tx.saturating_add(reward_from_tips);
        let scaled = saturating_scale(total_reward);
        let divisor: u64 = if total_cu_cost > 1 {
            total_cu_cost
        } else {
            1
        };
        let priority: u64 = scaled / divisor;
        *priority_counter = (*priority_counter).wrapping_add(1);
        BundlePriorityKey { priority, sequence: *priority_counter }
    }
}

/// The reward times the multiplier, or the largest number there is.
fn saturating_scale(reward: u64) -> (scaled: u64)
    ensures
        scaled == at_most_u64(reward * MULTIPLIER),
{
    let product: u128 = reward as u128 * MULTIPLIER as u128;
    if product > u64::MAX as u128 {
        u64::MAX
    } else {
        product as u64
    }
}

/// A rearrangement of the first `n` numbers.
pub open spec fn is_arrangement(order: Seq<int>, n: nat) -> bool {
    &&& order.len() == n
    &&& order.no_duplicates()
    &&& forall|i: int| 0 <= i < n ==> 0 <= #[trigger] order[i] < n
}

/// The items in another order.
pub open spec fn rearranged<A>(items: Seq<A>, order: Seq<int>) -> Seq<A> {
    Seq::new(order.len(), |i: int| items[order[i]])
}

/// Each key precedes the ones behind it.
pub open spec fn in_priority_order(keys: Seq<BundlePriorityKey>) -> bool {
    forall|i: int, j: int| 0 <= i < j < keys.len() ==> precedes(#[trigger] keys[i], #[trigger] keys[j])
}

/// No two keys have the same number.
pub open spec fn distinct_sequences(keys: Seq<BundlePriorityKey>) -> bool {
    forall|i: int, j: int|
        0 <= i < j < keys.len() ==> (#[trigger] keys[i]).sequence != (#[trigger] keys[j]).sequence
}

/// The items were put in priority order.
pub open spec fn sorted_by_priority<A>(
    keys: Seq<BundlePriorityKey>,
    items: Seq<A>,
    sorted: Seq<A>,
) -> bool {
    exists|order: Seq<int>|
        #[trigger] is_arrangement(order, items.len()) && in_priority_order(rearranged(keys, order))
            && sorted == rearranged(items, order)
}

/// There is one priority order only.
pub proof fn law_priority_order_is_unique(keys: Seq<BundlePriorityKey>, a: Seq<int>, b: Seq<int>)
    requires
        is_arrangement(a, keys.len()),
        is_arrangement(b, keys.len()),
        in_priority_order(rearranged(keys, a)),
        in_priority_order(rearranged(keys, b)),
    ensures
        a == b,
{
    let n = keys.len() as int;
    assert forall|i: int| 0 <= i < n implies a[i] == b[i] by {
        lemma_same_order(keys, a, b, i);
    }
    assert(a =~= b);
}

/// Sorting loses and invents nothing: there is a list of all places, each once, from which the items
/// come. What stands earlier afterwards pays more, or pays as much and came earlier.
pub proof fn law_sorted_pays_more_first<A>(
    keys: Seq<BundlePriorityKey>,
    items: Seq<A>,
    sorted: Seq<A>,
) -> (order: Seq<int>)
    requires
        keys.len() == items.len(),
        sorted_by_priority(keys, items, sorted),
    ensures
        sorted.len() == items.len(),
        order.len() == items.len(),
        order.no_duplicates(),
        forall|i: int|
            0 <= i < sorted.len() ==> 0 <= #[trigger] order[i] < items.len() && sorted[i]
                == items[order[i]],
        forall|x: int| 0 <= x < items.len() ==> #[trigger] order.contains(x),
        forall|i: int, j: int|
            0 <= i < j < sorted.len() ==> {
                let earlier = keys[#[trigger] order[i]];
                let later = keys[#[trigger] order[j]];
                earlier.priority > later.priority || (earlier.priority == later.priority
                    && earlier.sequence < later.sequence)
            },
{
    let order = choose|order: Seq<int>|
        #[trigger] is_arrangement(order, items.len()) && in_priority_order(rearranged(keys, order))
            && sorted == rearranged(items, order);
    let sorted_keys = rearranged(keys, order);
    assert forall|x: int| 0 <= x < items.len() implies #[trigger] order.contains(x) by {
        lemma_arrangement_covers(order, items.len(), x);
    }
    assert forall|i: int, j: int| 0 <= i < j < sorted.len() implies precedes(
        keys[#[trigger] order[i]],
        keys[#[trigger] order[j]],
    ) by {
        assert(precedes(sorted_keys[i], sorted_keys[j]));
    }
    order
}

/// Every number up to `n` occurs in an arrangement.
proof fn lemma_arrangement_covers(order: Seq<int>, n: nat, x: int)
    requires
        is_arrangement(order, n),
        0 <= x < n,
    ensures
        order.contains(x),
{
    order.unique_seq_to_set();
    let all = vstd::set_lib::set_int_range(0, n as int);
    vstd::set_lib::lemma_int_range(0, n as int);
    assert(order.to_set().subset_of(all)) by {
        assert forall|y: int| order.to_set().contains(y) implies all.contains(y) by {
            let i = choose|i: int| 0 <= i < order.len() && order[i] == y;
        }
    }
    vstd::set_lib::lemma_subset_equality(order.to_set(), all);
    assert(order.to_set().contains(x));
}

/// Two priority orders agree up to each place.
proof fn lemma_same_order(keys: Seq<BundlePriorityKey>, a: Seq<int>, b: Seq<int>, i: int)
    requires
        is_arrangement(a, keys.len()),
        is_arrangement(b, keys.len()),
        in_priority_order(rearranged(keys, a)),
        in_priority_order(rearranged(keys, b)),
        0 <= i < keys.len(),
    ensures
        forall|k: int| 0 <= k <= i ==> a[k] == b[k],
    decreases i,
{
    if i > 0 {
        lemma_same_order(keys, a, b, i - 1);
    }
    lemma_arrangement_covers(a, keys.len(), b[i]);
    lemma_arrangement_covers(b, keys.len(), a[i]);
    let p = choose|p: int| 0 <= p < a.len() && a[p] == b[i];
    let q = choose|q: int| 0 <= q < b.len() && b[q] == a[i];
    let sorted_a = rearranged(keys, a);
    let sorted_b = rearranged(keys, b);
    if a[i] != b[i] {
        if p < i {
            assert(a[p] == b[p]);
            assert(b[p] != b[i]);
        }
        if q < i {
            assert(b[q] == a[q]);
            assert(a[q] != a[i]);
        }
        assert(p > i && q > i);
        assert(precedes(sorted_a[i], sorted_a[p]));
        assert(precedes(sorted_b[i], sorted_b[q]));
    }
}

/// Puts items in the order of their keys, which come in a list of the same length.
pub fn sort_by_priority<A>(keys: &Vec<BundlePriorityKey>, items: Vec<A>) -> (sorted: Vec<A>)
    requires
        keys@.len() == items@.len(),
        distinct_sequences(keys@),
    ensures
        sorted_by_priority(keys@, items@, sorted@),
{
    let ghost all = items@;
    let mut sorted: Vec<A> = Vec::new();
    let mut sorted_keys: Vec<BundlePriorityKey> = Vec::new();
    let ghost mut order: Seq<int> = Seq::empty();
    for item in iter: items
        invariant
            iter.seq() == all,
            keys@.len() == all.len(),
            distinct_sequences(keys@),
            is_arrangement(order, iter.index() as nat),
            sorted@ == rearranged(all, order),
            sorted_keys@ == rearranged(keys@, order),
            in_priority_order(sorted_keys@),
    {
        let ghost n = iter.index() as int;
        let key = keys[sorted.len()];
        let mut place: usize = 0;
        while place < sorted_keys.len() && comes_before(&sorted_keys[place], &key)
            invariant
                place <= sorted_keys@.len(),
                forall|k: int| 0 <= k < place ==> precedes(#[trigger] sorted_keys@[k], key),
            decreases sorted_keys.len() - place,
        {
            place += 1;
        }
        proof {
            let before = order;
            let keys_before = sorted_keys@;
            order = order.insert(place as int, n);
            let keys_after = keys_before.insert(place as int, key);
            assert forall|k: int| place <= k < keys_before.len() implies precedes(
                key,
                #[trigger] keys_before[k],
            ) by {
                assert(keys_before[k] == keys@[before[k]]);
                assert(keys@[before[k]].sequence != keys@[n].sequence);
                if place < k {
                    assert(precedes(keys_before[place as int], keys_before[k]));
                    assert(keys_before[place as int] == keys@[before[place as int]]);
                    assert(keys@[before[place as int]].sequence != keys@[n].sequence);
                }
            }
            assert forall|i: int, j: int| 0 <= i < j < keys_after.len() implies precedes(
                #[trigger] keys_after[i],
                #[trigger] keys_after[j],
            ) by {
                let i0 = if i < place {
                    i
                } else {
                    i - 1
                };
                let j0 = if j < place {
                    j
                } else {
                    j - 1
                };
                if i != place {
                    assert(keys_after[i] == keys_before[i0]);
                }
                if j != place {
                    assert(keys_after[j] == keys_before[j0]);
                }
                if i != place && j != place {
                    assert(precedes(keys_before[i0], keys_before[j0]));
                }
            }
            assert forall|i: int| 0 <= i < order.len() implies 0 <= #[trigger] order[i] < n + 1 by {
                if i < place {
                    assert(order[i] == before[i]);
                } else if i > place {
                    assert(order[i] == before[i - 1]);
                }
            }
            assert forall|i: int, j: int| 0 <= i < order.len() && 0 <= j < order.len() && i
                != j implies order[i] != order[j] by {
                let i0 = if i < place {
                    i
                } else {
                    i - 1
                };
                let j0 = if j < place {
                    j
                } else {
                    j - 1
                };
                if i != place {
                    assert(order[i] == before[i0]);
                }
                if j != place {
                    assert(order[j] == before[j0]);
                }
            }
            assert(sorted@.insert(place as int, item) =~= rearranged(all, order));
            assert(keys_after =~= rearranged(keys@, order));
        }
        sorted.insert(place, item);
        sorted_keys.insert(place, key);
    }
    assert(is_arrangement(order, all.len()));
    sorted
}

} // verus!
