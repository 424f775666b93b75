//! The priority queue in which bundles compete with other transactions by what they pay for a
//! compute unit.

use std::cmp::Ordering;
use std::sync::Arc;
use std::time::SystemTime;

use vstd::multiset::Multiset;
use vstd::prelude::*;
use vstd::utf8::encode_utf8;

use crate::bundle::{ImmutableDeserializedBundle, SanitizedBundle};
use crate::keys::Pubkey;

verus! {

/// What is known of a bundle when it is scheduled, worked out when it came in.
#[derive(Debug)]
pub struct BundleMeta {
    pub bundle_id: String,
    /// Priority fees and tips together, in lamports.
    pub total_reward_lamports: u64,
    /// Estimated compute units of all transactions.
    pub total_cu_estimate: u64,
    /// What is paid for a compute unit, multiplied by a constant factor: this decides the order.
    pub reward_per_cu_scaled: u64,
    /// When the bundle came, in microseconds of Unix time: at the same payment the earlier comes
    /// first.
    pub arrival_unix_us: u64,
    /// The accounts that the bundle touches.
    pub union_accounts: Vec<Pubkey>,
    pub num_transactions: usize,
}

/// What a `BundleMeta` holds.
pub struct Meta {
    pub bundle_id: Seq<char>,
    pub total_reward_lamports: u64,
    pub total_cu_estimate: u64,
    pub reward_per_cu_scaled: u64,
    pub arrival_unix_us: u64,
    pub union_accounts: Seq<Pubkey>,
    pub num_transactions: usize,
}

impl View for BundleMeta {
    type V = Meta;

    open spec fn view(&self) -> Meta {
        Meta {
            bundle_id: self.bundle_id@,
            total_reward_lamports: self.total_reward_lamports,
            total_cu_estimate: self.total_cu_estimate,
            reward_per_cu_scaled: self.reward_per_cu_scaled,
            arrival_unix_us: self.arrival_unix_us,
            union_accounts: self.union_accounts@,
            num_transactions: self.num_transactions,
        }
    }
}

impl Clone for BundleMeta {
    fn clone(&self) -> (meta: Self)
        ensures
            meta@ == self@,
    {
        let union_accounts = self.union_accounts.clone();
        assert(union_accounts@ =~= self.union_accounts@);
        BundleMeta {
            bundle_id: self.bundle_id.clone(),
            total_reward_lamports: self.total_reward_lamports,
            total_cu_estimate: self.total_cu_estimate,
            reward_per_cu_scaled: self.reward_per_cu_scaled,
            arrival_unix_us: self.arrival_unix_us,
            union_accounts,
            num_transactions: self.num_transactions,
        }
    }
}

/// The content of a bundle, which moves into execution once the bundle was chosen.
#[derive(Debug)]
pub struct BundleHandle {
    inner: Arc<ImmutableDeserializedBundle>,
    /// Present where the bundle was sanitized before.
    sanitized: Option<Arc<SanitizedBundle>>,
}

impl Clone for BundleHandle {
    fn clone(&self) -> (handle: Self)
        ensures
            handle == *self,
    {
        BundleHandle {
            inner: Arc::clone(&self.inner),
            sanitized: match &self.sanitized {
                Some(sanitized) => Some(Arc::clone(sanitized)),
                None => None,
            },
        }
    }
}

impl BundleHandle {
    /// The bundle.
    pub closed spec fn bundle(&self) -> Arc<ImmutableDeserializedBundle> {
        self.inner
    }

    /// The sanitized bundle, where there is one.
    pub closed spec fn sanitized_bundle(&self) -> Option<Arc<SanitizedBundle>> {
        self.sanitized
    }

    /// A bundle that was not sanitized yet.
    pub fn new(inner: Arc<ImmutableDeserializedBundle>) -> (handle: Self)
        ensures
            handle.bundle() == inner,
            handle.sanitized_bundle() is None,
    {
        BundleHandle { inner, sanitized: None }
    }

    /// A bundle with what sanitizing gave.
    pub fn with_sanitized(
        inner: Arc<ImmutableDeserializedBundle>,
        sanitized: Arc<SanitizedBundle>,
    ) -> (handle: Self)
        ensures
            handle.bundle() == inner,
            handle.sanitized_bundle() == Some(sanitized),
    {
        BundleHandle { inner, sanitized: Some(sanitized) }
    }

    /// The bundle's name.
    pub fn bundle_id(&self) -> (id: &str)
        ensures
            id@ == self.bundle().bundle_id@,
    {
        self.inner.bundle_id()
    }

    /// The bundle, for sharing.
    pub fn inner(&self) -> (inner: &Arc<ImmutableDeserializedBundle>)
        ensures
            *inner == self.bundle(),
    {
        &self.inner
    }

    /// The sanitized bundle, where there is one.
    pub fn sanitized(&self) -> (sanitized: Option<&Arc<SanitizedBundle>>)
        ensures
            match sanitized {
                Some(sanitized) => self.sanitized_bundle() == Some(*sanitized),
                None => self.sanitized_bundle() is None,
            },
    {
        match &self.sanitized {
            Some(sanitized) => Some(sanitized),
            None => None,
        }
    }

    /// The bundle.
    pub fn as_ref(&self) -> (bundle: &ImmutableDeserializedBundle)
        ensures
            *bundle == *self.bundle(),
    {
        &self.inner
    }
}

/// The lexicographic order of byte strings.
pub open spec fn bytes_le(a: Seq<u8>, b: Seq<u8>) -> bool
    decreases a.len(),
{
    if a.len() == 0 {
        true
    } else if b.len() == 0 {
        false
    } else if a[0] != b[0] {
        a[0] < b[0]
    } else {
        bytes_le(a.skip(1), b.skip(1))
    }
}

/// The second bundle ranks at least as high: it pays more; or as much, and came earlier; or came
/// at the same time, and its name is not less in the order of bytes.
pub open spec fn rank_le(a: Meta, b: Meta) -> bool {
    ||| a.reward_per_cu_scaled < b.reward_per_cu_scaled
    ||| a.reward_per_cu_scaled == b.reward_per_cu_scaled && a.arrival_unix_us > b.arrival_unix_us
    ||| a.reward_per_cu_scaled == b.reward_per_cu_scaled && a.arrival_unix_us == b.arrival_unix_us
        && bytes_le(encode_utf8(a.bundle_id), encode_utf8(b.bundle_id))
}

/// The order of byte strings is total, transitive, and antisymmetric.
pub proof fn lemma_bytes_le(a: Seq<u8>, b: Seq<u8>, c: Seq<u8>)
    ensures
        bytes_le(a, a),
        bytes_le(a, b) || bytes_le(b, a),
        bytes_le(a, b) && bytes_le(b, c) ==> bytes_le(a, c),
        bytes_le(a, b) && bytes_le(b, a) ==> a == b,
    decreases a.len(),
{
    if a.len() > 0 {
        let b1 = if b.len() > 0 {
            b.skip(1)
        } else {
            b
        };
        let c1 = if c.len() > 0 {
            c.skip(1)
        } else {
            c
        };
        lemma_bytes_le(a.skip(1), b1, c1);
        if b.len() > 0 && bytes_le(a, b) && bytes_le(b, a) {
            assert(a =~= seq![a[0]] + a.skip(1));
            assert(b =~= seq![b[0]] + b.skip(1));
        }
    } else if b.len() == 0 {
        assert(a =~= b);
    }
}

/// The order of bundles is total and transitive, and only bundles that agree in payment, time and
/// name rank alike.
pub proof fn law_rank_is_total_order(a: Meta, b: Meta, c: Meta)
    ensures
        rank_le(a, a),
        rank_le(a, b) || rank_le(b, a),
        rank_le(a, b) && rank_le(b, c) ==> rank_le(a, c),
        rank_le(a, b) && rank_le(b, a) ==> a.reward_per_cu_scaled == b.reward_per_cu_scaled
            && a.arrival_unix_us == b.arrival_unix_us && encode_utf8(a.bundle_id) == encode_utf8(
            b.bundle_id,
        ),
{
    lemma_bytes_le(encode_utf8(a.bundle_id), encode_utf8(b.bundle_id), encode_utf8(c.bundle_id));
}

/// A bundle that pays more ranks higher, whenever it came.
pub proof fn law_higher_reward_ranks_higher(a: Meta, b: Meta)
    requires
        a.reward_per_cu_scaled < b.reward_per_cu_scaled,
    ensures
        rank_le(a, b) && !rank_le(b, a),
{
}

/// Whether the first byte string comes before the second or is equal to it.
fn compare_bytes(a: &[u8], b: &[u8]) -> (le: bool)
    ensures
        le == bytes_le(a@, b@),
{
    let mut i: usize = 0;
    assert(a@.skip(0) =~= a@);
    assert(b@.skip(0) =~= b@);
    while i < a.len() && i < b.len()
        invariant
            i <= a@.len(),
            i <= b@.len(),
            bytes_le(a@, b@) == bytes_le(a@.skip(i as int), b@.skip(i as int)),
        decreases a.len() - i,
    {
        if a[i] != b[i] {
            return a[i] < b[i];
        }
        assert(a@.skip(i as int).skip(1) =~= a@.skip(i + 1));
        assert(b@.skip(i as int).skip(1) =~= b@.skip(i + 1));
        i += 1;
    }
    i == a.len()
}

/// A bundle in the queue.
#[derive(Debug)]
pub struct StoredBundle {
    pub meta: BundleMeta,
    pub handle: BundleHandle,
}

impl StoredBundle {
    /// What decides the rank, the greatest first: the payment, the time turned round, the name.
    pub fn key_tuple(&self) -> (key: (u64, u64, &str))
        ensures
            key.0 == self.meta.reward_per_cu_scaled,
            key.1 == u64::MAX - self.meta.arrival_unix_us,
            key.2@ == self.meta.bundle_id@,
    {
        (
            self.meta.reward_per_cu_scaled,
            u64::MAX - self.meta.arrival_unix_us,
            self.meta.bundle_id.as_str(),
        )
    }

    /// Whether the other bundle ranks at least as high.
    pub fn ranks_no_higher_than(&self, other: &StoredBundle) -> (le: bool)
        ensures
            le == rank_le(self.meta@, other.meta@),
    {
        let (reward, earliness, id) = self.key_tuple();
        let (other_reward, other_earliness, other_id) = other.key_tuple();
        if reward != other_reward {
            reward < other_reward
        } else if earliness != other_earliness {
            earliness < other_earliness
        } else {
            compare_bytes(id.as_bytes(), other_id.as_bytes())
        }
    }
}

impl PartialEq for StoredBundle {
    fn eq(&self, other: &Self) -> (same: bool) {
        self.meta.bundle_id == other.meta.bundle_id
    }
}

impl vstd::std_specs::cmp::PartialEqSpecImpl for StoredBundle {
    open spec fn obeys_eq_spec() -> bool {
        true
    }

    /// Bundles of the same name are taken for the same.
    open spec fn eq_spec(&self, other: &Self) -> bool {
        self.meta.bundle_id@ == other.meta.bundle_id@
    }
}

impl PartialOrd for StoredBundle {
    fn partial_cmp(&self, other: &Self) -> (order: Option<Ordering>) {
        if !self.ranks_no_higher_than(other) {
            Some(Ordering::Greater)
        } else if !other.ranks_no_higher_than(self) {
            Some(Ordering::Less)
        } else {
            Some(Ordering::Equal)
        }
    }
}

impl vstd::std_specs::cmp::PartialOrdSpecImpl for StoredBundle {
    open spec fn obeys_partial_cmp_spec() -> bool {
        true
    }

    /// The greater bundle ranks higher.
    open spec fn partial_cmp_spec(&self, other: &Self) -> Option<Ordering> {
        if !rank_le(self.meta@, other.meta@) {
            Some(Ordering::Greater)
        } else if !rank_le(other.meta@, self.meta@) {
            Some(Ordering::Less)
        } else {
            Some(Ordering::Equal)
        }
    }
}

/// A bundle with what is known of it.
pub type Queued = (Meta, BundleHandle);

/// The bundle is in the queue and none in it ranks higher.
pub open spec fn is_best(contents: Multiset<Queued>, best: Queued) -> bool {
    &&& contents.contains(best)
    &&& forall|other: Queued| #[trigger] contents.contains(other) ==> rank_le(other.0, best.0)
}

/// The condition was asked about what is known of a bundle, and this is what it said.
pub open spec fn says<F: FnOnce(&BundleMeta) -> bool>(predicate: F, meta: Meta, answer: bool) -> bool {
    exists|asked: BundleMeta|
        #[trigger] call_ensures(predicate, (&asked,), answer) && asked@ == meta
}

/// A source of bundles, of which the best can be looked at and taken on a condition. So a bundle
/// stays where it is until it is sure that it can be executed.
pub trait BundlePrioritySource: Send + Sync {
    /// The bundles that the source holds.
    spec fn contents(&self) -> Multiset<Queued>;

    /// The source is in order.
    spec fn wf(&self) -> bool;

    /// The bundle that is looked at and taken next: the best one, or one of them.
    spec fn top(&self) -> Queued;

    /// What is known of the best bundle, where there is one.
    fn peek_best(&self) -> (meta: Option<BundleMeta>)
        requires
            self.wf(),
        ensures
            match meta {
                Some(meta) => is_best(self.contents(), self.top()) && self.top().0 == meta@,
                None => self.contents().len() == 0,
            },
    ;

    /// Takes the best bundle if the condition holds of it. The condition is asked about the best
    /// bundle only, and an empty source asks nothing: no more is required of it than that it can be
    /// asked then.
    fn take_best_if<F: FnOnce(&BundleMeta) -> bool>(&mut self, predicate: F) -> (handle: Option<
        BundleHandle,
    >)
        requires
            old(self).wf(),
            old(self).contents().len() > 0 ==> forall|meta: &BundleMeta|
                meta@ == old(self).top().0 ==> call_requires(predicate, (meta,)),
        ensures
            final(self).wf(),
            match handle {
                Some(handle) => {
                    &&& is_best(old(self).contents(), old(self).top())
                    &&& handle == old(self).top().1
                    &&& final(self).contents() == old(self).contents().remove(old(self).top())
                    &&& says(predicate, old(self).top().0, true)
                },
                None => {
                    &&& final(self).contents() == old(self).contents()
                    &&& old(self).contents().len() == 0 || says(
                        predicate,
                        old(self).top().0,
                        false,
                    )
                },
            },
    ;

    /// Puts a bundle back.
    fn requeue(&mut self, handle: BundleHandle, meta: BundleMeta)
        requires
            old(self).wf(),
        ensures
            final(self).wf(),
            final(self).contents() == old(self).contents().insert((meta@, handle)),
    ;

    /// How many bundles there are.
    fn len(&self) -> (len: usize)
        requires
            self.wf(),
        ensures
            len == self.contents().len(),
    ;
}

/// The bundles of a list.
pub open spec fn queued(bundles: Seq<StoredBundle>) -> Seq<Queued> {
    Seq::new(bundles.len(), |i: int| (bundles[i].meta@, bundles[i].handle))
}

/// Each bundle ranks at least as high as the ones before it.
pub open spec fn in_rank_order(bundles: Seq<Queued>) -> bool {
    forall|i: int, j: int|
        0 <= i < j < bundles.len() ==> rank_le((#[trigger] bundles[i]).0, (#[trigger] bundles[j]).0)
}

/// The bundles, in the order of their rank.
#[derive(Debug)]
pub struct BundlePriorityQueue {
    bundles: Vec<StoredBundle>,
}

impl Default for BundlePriorityQueue {
    fn default() -> (queue: Self)
        ensures
            queue.wf(),
            queue.contents() == Multiset::<Queued>::empty(),
    {
        Self::new()
    }
}

impl BundlePriorityQueue {
    closed spec fn ranked(&self) -> Seq<Queued> {
        queued(self.bundles@)
    }

    /// A queue without bundles.
    pub fn new() -> (queue: Self)
        ensures
            queue.wf(),
            queue.contents() == Multiset::<Queued>::empty(),
    {
        let queue = BundlePriorityQueue { bundles: Vec::new() };
        proof {
            queue.ranked().to_multiset_ensures();
            assert(queue.contents() =~= Multiset::<Queued>::empty());
        }
        queue
    }

    /// Puts a bundle in.
    pub fn insert(&mut self, meta: BundleMeta, handle: BundleHandle)
        requires
            old(self).wf(),
        ensures
            final(self).wf(),
            final(self).contents() == old(self).contents().insert((meta@, handle)),
    {
        let ghost before = self.ranked();
        let stored = StoredBundle { meta, handle };
        let place = self.place_for(&stored);
        let ghost item = (stored.meta@, stored.handle);
        self.bundles.insert(place, stored);
        proof {
            let after = self.ranked();
            let p = place as int;
            assert(after =~= before.insert(p, item));
            assert forall|i: int, j: int| 0 <= i < j < after.len() implies rank_le(
                (#[trigger] after[i]).0,
                (#[trigger] after[j]).0,
            ) by {
                let i0 = if i < p {
                    i
                } else {
                    i - 1
                };
                let j0 = if j < p {
                    j
                } else {
                    j - 1
                };
                if i != p {
                    assert(after[i] == before[i0]);
                }
                if j != p {
                    assert(after[j] == before[j0]);
                }
                if i != p && j != p {
                    assert(rank_le(before[i0].0, before[j0].0));
                }
            }
            vstd::seq_lib::to_multiset_insert(before, p, item);
        }
    }

    /// The place behind all bundles that rank below the new one.
    fn place_for(&self, stored: &StoredBundle) -> (place: usize)
        requires
            self.wf(),
        ensures
            place <= self.ranked().len(),
            forall|i: int|
                0 <= i < place ==> rank_le((#[trigger] self.ranked()[i]).0, stored.meta@),
            forall|i: int|
                place <= i < self.ranked().len() ==> rank_le(
                    stored.meta@,
                    (#[trigger] self.ranked()[i]).0,
                ),
    {
        let ghost ranked = self.ranked();
        let mut low: usize = 0;
        let mut high: usize = self.bundles.len();
        while low < high
            invariant
                ranked == self.ranked(),
                in_rank_order(ranked),
                low <= high <= ranked.len(),
                ranked.len() == self.bundles@.len(),
                forall|i: int| 0 <= i < low ==> rank_le((#[trigger] ranked[i]).0, stored.meta@),
                forall|i: int|
                    high <= i < ranked.len() ==> rank_le(stored.meta@, (#[trigger] ranked[i]).0),
            decreases high - low,
        {
            let middle: usize = low + (high - low) / 2;
            let le = self.bundles[middle].ranks_no_higher_than(stored);
            let ghost here = ranked[middle as int].0;
            if le {
                assert forall|i: int| 0 <= i < middle + 1 implies rank_le(
                    (#[trigger] ranked[i]).0,
                    stored.meta@,
                ) by {
                    if i < middle {
                        assert(rank_le(ranked[i].0, ranked[middle as int].0));
                        law_rank_is_total_order(ranked[i].0, here, stored.meta@);
                    }
                }
                low = middle + 1;
            } else {
                proof {
                    law_rank_is_total_order(here, stored.meta@, here);
                }
                assert forall|i: int| middle <= i < ranked.len() implies rank_le(
                    stored.meta@,
                    (#[trigger] ranked[i]).0,
                ) by {
                    if i > middle {
                        assert(rank_le(ranked[middle as int].0, ranked[i].0));
                        law_rank_is_total_order(stored.meta@, here, ranked[i].0);
                    }
                }
                high = middle;
            }
        }
        low
    }

    /// The last bundle is the best.
    proof fn lemma_last_is_best(&self)
        requires
            self.wf(),
            self.bundles@.len() > 0,
        ensures
            is_best(self.contents(), self.ranked().last()),
            self.contents().len() == self.bundles@.len(),
    {
        let ranked = self.ranked();
        let last = ranked.last();
        ranked.to_multiset_ensures();
        assert(ranked.contains(last)) by {
            assert(ranked[ranked.len() - 1] == last);
        }
        assert forall|other: Queued| #[trigger] self.contents().contains(other) implies rank_le(
            other.0,
            last.0,
        ) by {
            assert(ranked.contains(other));
            let i = choose|i: int| 0 <= i < ranked.len() && ranked[i] == other;
            if i == ranked.len() - 1 {
                law_rank_is_total_order(last.0, last.0, last.0);
            } else {
                assert(rank_le(ranked[i].0, ranked[ranked.len() - 1].0));
            }
        }
    }

    /// The time, in microseconds of Unix time, for stamping what arrives: what the clock says, cut
    /// to sixty-four bits, or zero where the clock stands before the epoch.
    pub fn now_unix_us() -> (us: u64)
        ensures
            exists|micros: Option<u128>| #[trigger]
                clock_says(micros) && us == (match micros {
                    Some(micros) => micros % 0x1_0000_0000_0000_0000,
                    None => 0,
                }),
    {
        let micros = read_clock(system_time, micros_since_epoch);
        assert(clock_says(micros));
        unix_us(micros)
    }
}

/// The clock was read, and this is what came of it: how long after the Unix epoch it stands, in
/// microseconds, or nothing where it stands before it.
pub closed spec fn clock_says(micros: Option<u128>) -> bool {
    exists|time: SystemTime|
        call_ensures(system_time, (), time) && #[trigger] call_ensures(
            micros_since_epoch,
            (&time,),
            micros,
        )
}

/// Reads a clock and makes something of the reading, each by the given means.
fn read_clock<N: FnOnce() -> SystemTime, M: FnOnce(&SystemTime) -> Option<u128>>(
    now: N,
    micros_of: M,
) -> (micros: Option<u128>)
    requires
        call_requires(now, ()),
        forall|time: &SystemTime| call_requires(micros_of, (time,)),
    ensures
        exists|time: SystemTime|
            call_ensures(now, (), time) && #[trigger] call_ensures(micros_of, (&time,), micros),
{
    let time = now();
    micros_of(&time)
}

/// The lower sixty-four bits of a number of microseconds; zero for a time before the epoch.
pub fn unix_us(micros: Option<u128>) -> (us: u64)
    ensures
        us == (match micros {
            Some(micros) => micros % 0x1_0000_0000_0000_0000,
            None => 0,
        }),
{
    match micros {
        Some(micros) => {
            let us = #[verifier::truncate]
            (micros as u64);
            assert(us == micros % 0x1_0000_0000_0000_0000u128) by (bit_vector)
                requires
                    us == micros as u64,
            ;
            us
        },
        None => 0,
    }
}

/// `std::time::SystemTime`, a reading of the system's clock.
#[verifier::external_type_specification]
#[verifier::external_body]
pub struct ExSystemTime(SystemTime);

/// `SystemTime::now`: the clock's reading. Nothing is claimed of it.
#[verifier::external_body]
fn system_time() -> SystemTime {
    SystemTime::now()
}

/// `SystemTime::duration_since` the Unix epoch, in whole microseconds; none where the clock stands
/// before the epoch. Nothing is claimed of the number.
#[verifier::external_body]
fn micros_since_epoch(time: &SystemTime) -> Option<u128> {
    time.duration_since(std::time::UNIX_EPOCH).ok().map(|elapsed| elapsed.as_micros())
}

impl BundlePrioritySource for BundlePriorityQueue {
    closed spec fn contents(&self) -> Multiset<Queued> {
        self.ranked().to_multiset()
    }

    closed spec fn wf(&self) -> bool {
        in_rank_order(self.ranked())
    }

    closed spec fn top(&self) -> Queued {
        self.ranked().last()
    }

    fn peek_best(&self) -> (meta: Option<BundleMeta>) {
        let n: usize = self.bundles.len();
        if n > 0 {
            proof {
                self.lemma_last_is_best();
            }
            Some(self.bundles[n - 1].meta.clone())
        } else {
            proof {
                self.ranked().to_multiset_ensures();
            }
            None
        }
    }

    fn take_best_if<F: FnOnce(&BundleMeta) -> bool>(&mut self, predicate: F) -> (handle: Option<
        BundleHandle,
    >) {
        let n: usize = self.bundles.len();
        if n == 0 {
            proof {
                self.ranked().to_multiset_ensures();
            }
            return None;
        }
        proof {
            self.lemma_last_is_best();
        }
        let ghost before = self.ranked();
        let ghost top = self.bundles@[n - 1].meta;
        if predicate(&self.bundles[n - 1].meta) {
            let stored = self.bundles.pop().unwrap();
            proof {
                assert(self.ranked() =~= before.drop_last());
                assert(before.remove(before.len() - 1) =~= before.drop_last());
                vstd::seq_lib::to_multiset_remove(before, before.len() - 1);
                assert forall|i: int, j: int| 0 <= i < j < self.ranked().len() implies rank_le(
                    (#[trigger] self.ranked()[i]).0,
                    (#[trigger] self.ranked()[j]).0,
                ) by {
                    assert(rank_le(before[i].0, before[j].0));
                }
                assert(call_ensures(predicate, (&top,), true));
            }
            Some(stored.handle)
        } else {
            assert(call_ensures(predicate, (&top,), false));
            None
        }
    }

    fn requeue(&mut self, handle: BundleHandle, meta: BundleMeta) {
        self.insert(meta, handle);
    }

    fn len(&self) -> (len: usize) {
        proof {
            self.ranked().to_multiset_ensures();
        }
        self.bundles.len()
    }
}

/// Putting a bundle back that was taken leaves the queue with the bundles it had.
pub proof fn law_requeue_undoes_take(contents: Multiset<Queued>, taken: Queued)
    requires
        contents.contains(taken),
    ensures
        contents.remove(taken).insert(taken) == contents,
{
    assert(contents.remove(taken).insert(taken) =~= contents);
}

/// Of two bundles that are taken one after the other, the second ranks no higher than the first.
pub proof fn law_takes_come_in_order(contents: Multiset<Queued>, first: Queued, second: Queued)
    requires
        is_best(contents, first),
        is_best(contents.remove(first), second),
    ensures
        rank_le(second.0, first.0),
{
    assert(contents.contains(second));
}

/// Byte strings are ordered by the first byte in which they differ, and a string comes before those that
/// it is the front of.
pub proof fn law_bytes_are_ordered_by_the_first_difference(a: Seq<u8>, b: Seq<u8>, n: int)
    requires
        0 <= n <= a.len(),
        n <= b.len(),
        forall|i: int| 0 <= i < n ==> a[i] == #[trigger] b[i],
    ensures
        n < a.len() && n < b.len() && a[n] < b[n] ==> bytes_le(a, b) && !bytes_le(b, a),
        n == a.len() ==> bytes_le(a, b),
        n == a.len() && n < b.len() ==> !bytes_le(b, a),
    decreases n,
{
    if n > 0 {
        assert(a[0] == b[0]);
        assert forall|i: int| 0 <= i < n - 1 implies a.skip(1)[i] == #[trigger] b.skip(1)[i] by {
            assert(a[i + 1] == b[i + 1]);
        }
        law_bytes_are_ordered_by_the_first_difference(a.skip(1), b.skip(1), n - 1);
    }
}

/// Which bundle of a queue is the best: none pays more; of those that pay as much none came earlier; and
/// of those that came at the same time too none has a name that is greater in the order of bytes. Nothing
/// else that is known of a bundle counts.
pub proof fn law_best_bundle_pays_most(contents: Multiset<Queued>, best: Queued, other: Queued)
    requires
        is_best(contents, best),
        contents.contains(other),
    ensures
        contents.contains(best),
        other.0.reward_per_cu_scaled <= best.0.reward_per_cu_scaled,
        other.0.reward_per_cu_scaled == best.0.reward_per_cu_scaled ==> other.0.arrival_unix_us
            >= best.0.arrival_unix_us,
        other.0.reward_per_cu_scaled == best.0.reward_per_cu_scaled && other.0.arrival_unix_us
            == best.0.arrival_unix_us ==> bytes_le(
            encode_utf8(other.0.bundle_id),
            encode_utf8(best.0.bundle_id),
        ),
{
    assert(rank_le(other.0, best.0));
}

/// A bundle that is in the queue and that no other bundle of it outranks by payment, time or name is the
/// best.
pub proof fn law_bundle_that_pays_most_is_best(contents: Multiset<Queued>, best: Queued)
    requires
        contents.contains(best),
        forall|other: Queued| #[trigger]
            contents.contains(other) ==> {
                ||| other.0.reward_per_cu_scaled < best.0.reward_per_cu_scaled
                ||| other.0.reward_per_cu_scaled == best.0.reward_per_cu_scaled && (
                other.0.arrival_unix_us > best.0.arrival_unix_us || (other.0.arrival_unix_us
                    == best.0.arrival_unix_us && bytes_le(
                    encode_utf8(other.0.bundle_id),
                    encode_utf8(best.0.bundle_id),
                )))
            },
    ensures
        is_best(contents, best),
{
}

/// The greater of two bundles in the queue pays more; or as much, and came earlier; and of two that agree
/// in both the names decide. Two bundles of the same name are taken for the same.
pub proof fn law_greater_bundle_ranks_higher(a: &StoredBundle, b: &StoredBundle)
    ensures
        a.meta.reward_per_cu_scaled > b.meta.reward_per_cu_scaled
            ==> vstd::std_specs::cmp::PartialOrdSpec::partial_cmp_spec(a, b) == Some(
            Ordering::Greater,
        ),
        a.meta.reward_per_cu_scaled < b.meta.reward_per_cu_scaled
            ==> vstd::std_specs::cmp::PartialOrdSpec::partial_cmp_spec(a, b) == Some(
            Ordering::Less,
        ),
        a.meta.reward_per_cu_scaled == b.meta.reward_per_cu_scaled && a.meta.arrival_unix_us
            < b.meta.arrival_unix_us ==> vstd::std_specs::cmp::PartialOrdSpec::partial_cmp_spec(
            a,
            b,
        ) == Some(Ordering::Greater),
        vstd::std_specs::cmp::PartialEqSpec::eq_spec(a, b) <==> a.meta.bundle_id@
            == b.meta.bundle_id@,
{
}

} // verus!
