//! Which packets of a batch are done with, once the ones to retry are known.

use vstd::prelude::*;

verus! {

/// Where the `i`-th run of skipped positions starts: at zero, or behind the listed position
/// before it.
pub open spec fn gap_start(indexes: Seq<usize>, i: int) -> int {
    if i == 0 {
        0
    } else {
        indexes[i - 1] + 1
    }
}

/// The runs of positions between consecutive listed ones, without the empty runs. A run is given
/// by its first position and the position behind its last.
pub open spec fn gaps(indexes: Seq<usize>) -> Seq<(usize, usize)>
    decreases indexes.len(),
{
    if indexes.len() == 0 {
        Seq::empty()
    } else {
        let i = indexes.len() - 1;
        let before = gaps(indexes.drop_last());
        if gap_start(indexes, i) < indexes[i] {
            before.push((gap_start(indexes, i) as usize, indexes[i]))
        } else {
            before
        }
    }
}

/// The position lies in one of the runs.
pub open spec fn in_gaps(runs: Seq<(usize, usize)>, position: int) -> bool {
    exists|g: int| 0 <= g < runs.len() && (#[trigger] runs[g]).0 <= position < runs[g].1
}

/// Each position is larger than the one before it.
pub open spec fn ascending(indexes: Seq<usize>) -> bool {
    forall|i: int, j: int| 0 <= i < j < indexes.len() ==> #[trigger] indexes[i] < #[trigger] indexes[j]
}

/// The runs of positions that are not to be retried, in front of each listed position.
pub fn filter_processed_packets(retryable_transaction_indexes: &Vec<usize>) -> (runs: Vec<
    (usize, usize),
>)
    requires
        forall|i: int|
            0 <= i < retryable_transaction_indexes@.len() - 1
                ==> #[trigger] retryable_transaction_indexes@[i] < usize::MAX,
    ensures
        runs@ == gaps(retryable_transaction_indexes@),
{
    let ghost indexes = retryable_transaction_indexes@;
    let mut runs: Vec<(usize, usize)> = Vec::new();
    let mut prev_retryable_index: usize = 0;
    let mut i: usize = 0;
    while i < retryable_transaction_indexes.len()
        invariant
            indexes == retryable_transaction_indexes@,
            i <= indexes.len(),
            i > 0 ==> prev_retryable_index == indexes[i - 1],
            forall|k: int| 0 <= k < indexes.len() - 1 ==> #[trigger] indexes[k] < usize::MAX,
            runs@ == gaps(indexes.take(i as int)),
        decreases indexes.len() - i,
    {
        let start: usize = if i == 0 {
            0
        } else {
            prev_retryable_index + 1
        };
        let end: usize = retryable_transaction_indexes[i];
        prev_retryable_index = end;
        assert(indexes.take(i + 1).drop_last() =~= indexes.take(i as int));
        if start < end {
            runs.push((start, end));
        }
        i += 1;
    }
    assert(indexes.take(i as int) =~= indexes);
    runs
}

/// No position is smaller than the one before it.
pub open spec fn non_decreasing(indexes: Seq<usize>) -> bool {
    forall|i: int, j: int|
        0 <= i < j < indexes.len() ==> #[trigger] indexes[i] <= #[trigger] indexes[j]
}

/// The runs of positions in order, of which some may be repeated, hold exactly the smaller
/// positions that are not listed.
pub proof fn law_gaps_are_the_unlisted(indexes: Seq<usize>, position: int)
    requires
        non_decreasing(indexes),
        indexes.len() > 0,
    ensures
        in_gaps(gaps(indexes), position) <==> 0 <= position < indexes.last() && !(exists|i: int|
            0 <= i < indexes.len() && #[trigger] indexes[i] == position),
    decreases indexes.len(),
{
    let n = indexes.len() - 1;
    let shorter = indexes.drop_last();
    let runs = gaps(indexes);
    let before = gaps(shorter);
    if n > 0 {
        law_gaps_are_the_unlisted(shorter, position);
    }
    let listed = exists|i: int| 0 <= i < indexes.len() && #[trigger] indexes[i] == position;
    let listed_before = exists|i: int| 0 <= i < shorter.len() && #[trigger] shorter[i] == position;
    assert(listed <==> listed_before || indexes[n] == position) by {
        if listed_before {
            let i = choose|i: int| 0 <= i < shorter.len() && #[trigger] shorter[i] == position;
            assert(indexes[i] == position);
        }
        if listed {
            let i = choose|i: int| 0 <= i < indexes.len() && #[trigger] indexes[i] == position;
            if i < n {
                assert(shorter[i] == position);
            }
        }
    }
    let last_run = gap_start(indexes, n) <= position < indexes[n];
    assert(in_gaps(runs, position) <==> in_gaps(before, position) || last_run) by {
        if in_gaps(before, position) {
            let g = choose|g: int|
                0 <= g < before.len() && (#[trigger] before[g]).0 <= position < before[g].1;
            assert(runs[g] == before[g]);
        }
        if last_run {
            assert(runs[before.len() as int] == (gap_start(indexes, n) as usize, indexes[n]));
        }
        if in_gaps(runs, position) {
            let g = choose|g: int|
                0 <= g < runs.len() && (#[trigger] runs[g]).0 <= position < runs[g].1;
            if g < before.len() {
                assert(before[g] == runs[g]);
            }
        }
    }
    if n > 0 {
        assert(indexes[n - 1] <= indexes[n]);
        assert(shorter.last() == indexes[n - 1]);
        if last_run && listed_before {
            let i = choose|i: int| 0 <= i < shorter.len() && #[trigger] shorter[i] == position;
            assert(indexes[i] == position);
            if i < n - 1 {
                assert(indexes[i] <= indexes[n - 1]);
            }
        }
    }
}

/// The items at the given places.
pub open spec fn pick<A>(items: Seq<A>, places: Seq<usize>) -> Seq<A> {
    Seq::new(places.len(), |i: int| items[places[i] as int])
}

/// The places at which a flag is set, in ascending order.
pub open spec fn true_places(flags: Seq<bool>) -> Seq<usize>
    decreases flags.len(),
{
    if flags.len() == 0 {
        Seq::empty()
    } else {
        let before = true_places(flags.drop_last());
        if flags.last() {
            before.push((flags.len() - 1) as usize)
        } else {
            before
        }
    }
}

/// Which of the results are there.
pub open spec fn present<T>(results: Seq<Option<T>>) -> Seq<bool> {
    Seq::new(results.len(), |i: int| results[i] is Some)
}

/// The results that are there, in order.
pub open spec fn present_values<T>(results: Seq<Option<T>>) -> Seq<T>
    decreases results.len(),
{
    if results.len() == 0 {
        Seq::empty()
    } else {
        let before = present_values(results.drop_last());
        match results.last() {
            Some(value) => before.push(value),
            None => before,
        }
    }
}

/// The places of the flags that are set are in order, and are just those.
pub proof fn lemma_true_places(flags: Seq<bool>)
    requires
        flags.len() <= usize::MAX,
    ensures
        ascending(true_places(flags)),
        true_places(flags).len() <= flags.len(),
        forall|i: int|
            0 <= i < true_places(flags).len() ==> (#[trigger] true_places(flags)[i]) < flags.len()
                && flags[true_places(flags)[i] as int],
        forall|p: int|
            0 <= p < flags.len() && #[trigger] flags[p] ==> true_places(flags).contains(p as usize),
    decreases flags.len(),
{
    if flags.len() > 0 {
        let shorter = flags.drop_last();
        lemma_true_places(shorter);
        let before = true_places(shorter);
        let after = true_places(flags);
        let last = (flags.len() - 1) as usize;
        assert forall|p: int| 0 <= p < flags.len() && #[trigger] flags[p] implies after.contains(
            p as usize,
        ) by {
            if p < last {
                assert(shorter[p]);
                let i = choose|i: int| 0 <= i < before.len() && before[i] == p as usize;
                assert(after[i] == p as usize);
            } else {
                assert(after[before.len() as int] == last);
            }
        }
        assert forall|i: int| 0 <= i < after.len() implies (#[trigger] after[i]) < flags.len()
            && flags[after[i] as int] by {
            if i < before.len() {
                assert(after[i] == before[i]);
                assert(shorter[before[i] as int]);
            }
        }
    }
}

/// There are as many values as places at which one is.
pub proof fn lemma_present_values<T>(results: Seq<Option<T>>)
    ensures
        present_values(results).len() == true_places(present(results)).len(),
    decreases results.len(),
{
    if results.len() > 0 {
        lemma_present_values(results.drop_last());
        assert(present(results).drop_last() =~= present(results.drop_last()));
    }
}

/// Picking from ascending places at ascending places gives ascending places.
pub proof fn lemma_pick_ascending(places: Seq<usize>, chosen: Seq<usize>)
    requires
        ascending(places),
        ascending(chosen),
        forall|i: int| 0 <= i < chosen.len() ==> #[trigger] chosen[i] < places.len(),
    ensures
        ascending(pick(places, chosen)),
{
    let picked = pick(places, chosen);
    assert forall|i: int, j: int| 0 <= i < j < picked.len() implies #[trigger] picked[i]
        < #[trigger] picked[j] by {
        assert(chosen[i] < chosen[j]);
        assert(places[chosen[i] as int] < places[chosen[j] as int]);
    }
}

/// The places at which a flag is set, in ascending order.
pub fn places_of(flags: &Vec<bool>) -> (places: Vec<usize>)
    ensures
        places@ == true_places(flags@),
{
    let mut places: Vec<usize> = Vec::new();
    let mut i: usize = 0;
    while i < flags.len()
        invariant
            i <= flags@.len(),
            places@ == true_places(flags@.take(i as int)),
        decreases flags.len() - i,
    {
        assert(flags@.take(i + 1).drop_last() =~= flags@.take(i as int));
        if flags[i] {
            places.push(i);
        }
        i += 1;
    }
    assert(flags@.take(i as int) =~= flags@);
    places
}

/// The results that are there, and the place of each.
pub fn keep_present<T>(results: Vec<Option<T>>) -> (kept: (Vec<T>, Vec<usize>))
    ensures
        kept.0@ == present_values(results@),
        kept.1@ == true_places(present(results@)),
{
    let ghost all = results@;
    let total: usize = results.len();
    let mut values: Vec<T> = Vec::new();
    let mut places: Vec<usize> = Vec::new();
    let mut i: usize = 0;
    for result in iter: results
        invariant
            iter.seq() == all,
            i == iter.index(),
            all.len() == total,
            values@ == present_values(all.take(i as int)),
            places@ == true_places(present(all.take(i as int))),
    {
        proof {
            let next = all.take(i + 1);
            assert(next.drop_last() =~= all.take(i as int));
            assert(present(next).drop_last() =~= present(all.take(i as int)));
            assert(next.last() == result);
        }
        if let Some(value) = result {
            values.push(value);
            places.push(i);
        }
        i += 1;
    }
    assert(all.take(i as int) =~= all);
    (values, places)
}

} // verus!
