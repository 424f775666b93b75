//! Lists of queue keys that stand for a priority queue while it is taken apart and rebuilt.

use vstd::multiset::Multiset;
use vstd::prelude::*;

use crate::keys::MessageHash;
use crate::packet::{spec_hash_of, PacketKey};
use crate::retention::{ascending, gaps, in_gaps, law_gaps_are_the_unlisted, pick};
use crate::unprocessed_packet_batches::{is_stored, marked, queue_matches, Stored};

verus! {

/// The list holds the key of every stored packet once, and nothing else.
pub open spec fn list_matches(keys: Seq<PacketKey>, stored: Stored) -> bool {
    &&& keys.no_duplicates()
    &&& forall|key: PacketKey| #[trigger] keys.contains(key) <==> is_stored(stored, key)
}

/// Different keys of a list that matches a map have different message hashes.
pub proof fn lemma_distinct_hashes(keys: Seq<PacketKey>, stored: Stored, a: int, b: int)
    requires
        list_matches(keys, stored),
        0 <= a < keys.len(),
        0 <= b < keys.len(),
        a != b,
    ensures
        spec_hash_of(keys[a]) != spec_hash_of(keys[b]),
{
    assert(keys.contains(keys[a]));
    assert(keys.contains(keys[b]));
    assert(is_stored(stored, keys[a]));
    assert(is_stored(stored, keys[b]));
}

/// A list that matches gives a queue that matches.
pub proof fn lemma_list_to_queue(keys: Seq<PacketKey>, stored: Stored)
    requires
        list_matches(keys, stored),
    ensures
        queue_matches(keys.to_multiset(), stored),
{
    keys.to_multiset_ensures();
    keys.lemma_multiset_has_no_duplicates();
    assert forall|key: PacketKey| #[trigger] keys.to_multiset().count(key) == (if is_stored(
        stored,
        key,
    ) {
        1nat
    } else {
        0nat
    }) by {
        if keys.contains(key) {
            assert(keys.to_multiset().contains(key));
        } else {
            assert(!keys.to_multiset().contains(key));
        }
    }
}

/// The keys of a queue that matches form a list that matches.
pub proof fn lemma_queue_to_list(keys: Seq<PacketKey>, queue: Multiset<PacketKey>, stored: Stored)
    requires
        queue_matches(queue, stored),
        keys.to_multiset() == queue,
    ensures
        list_matches(keys, stored),
{
    keys.to_multiset_ensures();
    assert forall|key: PacketKey| keys.to_multiset().contains(key) implies #[trigger] keys.to_multiset().count(
        key,
    ) == 1 by {
        assert(queue.count(key) == (if is_stored(stored, key) {
            1nat
        } else {
            0nat
        }));
    }
    keys.lemma_multiset_has_no_duplicates_conv();
    assert forall|key: PacketKey| #[trigger] keys.contains(key) <==> is_stored(stored, key) by {
        assert(queue.count(key) == (if is_stored(stored, key) {
            1nat
        } else {
            0nat
        }));
        assert(keys.contains(key) <==> keys.to_multiset().count(key) > 0);
    }
}

/// A concatenation has no duplicates just when its parts have none and share nothing.
pub proof fn lemma_concat<A>(a: Seq<A>, b: Seq<A>)
    ensures
        (a + b).no_duplicates() <==> a.no_duplicates() && b.no_duplicates() && (forall|x: A|
            !(#[trigger] a.contains(x) && b.contains(x))),
        forall|x: A| #[trigger] (a + b).contains(x) <==> a.contains(x) || b.contains(x),
{
    broadcast use vstd::seq_lib::lemma_seq_concat_contains_all_elements;

    let c = a + b;
    if c.no_duplicates() {
        assert forall|i: int, j: int| 0 <= i < a.len() && 0 <= j < a.len() && i != j implies a[i]
            != a[j] by {
            assert(c[i] != c[j]);
        }
        assert forall|i: int, j: int| 0 <= i < b.len() && 0 <= j < b.len() && i != j implies b[i]
            != b[j] by {
            assert(c[i + a.len()] != c[j + a.len()]);
        }
        assert forall|x: A| !(#[trigger] a.contains(x) && b.contains(x)) by {
            if a.contains(x) && b.contains(x) {
                let i = choose|i: int| 0 <= i < a.len() && a[i] == x;
                let j = choose|j: int| 0 <= j < b.len() && b[j] == x;
                assert(c[i] != c[j + a.len()]);
            }
        }
    }
    if a.no_duplicates() && b.no_duplicates() && (forall|x: A|
        !(#[trigger] a.contains(x) && b.contains(x))) {
        assert forall|i: int, j: int| 0 <= i < a.len() && 0 <= j < b.len() implies a[i] != b[j] by {
            assert(a.contains(a[i]));
            assert(b.contains(b[j]));
        }
        vstd::seq_lib::lemma_no_dup_in_concat(a, b);
    }
}

/// What passes a filter, in the list's own order.
pub proof fn lemma_filter<A>(items: Seq<A>, pred: spec_fn(A) -> bool)
    ensures
        items.no_duplicates() ==> items.filter(pred).no_duplicates(),
        forall|x: A| #[trigger]
            items.filter(pred).contains(x) <==> items.contains(x) && pred(x),
    decreases items.len(),
{
    reveal(Seq::filter);
    if items.len() > 0 {
        let shorter = items.drop_last();
        lemma_filter(shorter, pred);
        let before = shorter.filter(pred);
        let after = items.filter(pred);
        let last = items.last();
        assert(items =~= shorter + seq![last]);
        lemma_concat(shorter, seq![last]);
        assert(seq![last].contains(last)) by {
            assert(seq![last][0] == last);
        }
        if pred(last) {
            assert(after =~= before + seq![last]);
            lemma_concat(before, seq![last]);
        }
    }
}

/// The map without the packets whose keys stand in one of the runs of places.
pub open spec fn without_runs(
    stored: Stored,
    keys: Seq<PacketKey>,
    runs: Seq<(usize, usize)>,
) -> Stored {
    Map::new(
        |hash: MessageHash| stored.contains_key(hash) && !hash_in_runs(keys, runs, hash),
        |hash: MessageHash| stored[hash],
    )
}

/// A key in one of the runs of places has the hash.
pub open spec fn hash_in_runs(
    keys: Seq<PacketKey>,
    runs: Seq<(usize, usize)>,
    hash: MessageHash,
) -> bool {
    exists|place: int|
        0 <= place < keys.len() && in_gaps(runs, place) && spec_hash_of(#[trigger] keys[place])
            == hash
}

/// The runs of places that are not among the retained ones.
pub open spec fn dropped_runs(keys: Seq<PacketKey>, retained: Seq<usize>) -> Seq<(usize, usize)> {
    gaps(retained.push(keys.len() as usize))
}

/// Ascending retained places leave runs inside the list, which hold just the other places.
pub proof fn lemma_dropped_runs(keys: Seq<PacketKey>, retained: Seq<usize>)
    requires
        keys.len() <= usize::MAX,
        ascending(retained),
        forall|i: int| 0 <= i < retained.len() ==> #[trigger] retained[i] < keys.len(),
    ensures
        forall|place: int| #[trigger]
            in_gaps(dropped_runs(keys, retained), place) <==> 0 <= place < keys.len()
                && !retained.contains(place as usize),
        forall|g: int|
            0 <= g < dropped_runs(keys, retained).len() ==> (#[trigger] dropped_runs(
                keys,
                retained,
            )[g]).1 <= keys.len(),
{
    let all = retained.push(keys.len() as usize);
    let runs = gaps(all);
    assert(ascending(all));
    assert forall|place: int| #[trigger] in_gaps(runs, place) <==> 0 <= place < keys.len()
        && !retained.contains(place as usize) by {
        law_gaps_are_the_unlisted(all, place);
        if 0 <= place < keys.len() {
            if retained.contains(place as usize) {
                let i = choose|i: int| 0 <= i < retained.len() && retained[i] == place as usize;
                assert(all[i] == place);
            }
            if exists|i: int| 0 <= i < all.len() && #[trigger] all[i] == place {
                let i = choose|i: int| 0 <= i < all.len() && #[trigger] all[i] == place;
                assert(retained[i] == place as usize);
            }
        }
    }
    lemma_run_bounds(all);
    assert forall|g: int| 0 <= g < runs.len() implies (#[trigger] runs[g]).1 <= keys.len() by {
        let i = choose|i: int| 0 <= i < all.len() && #[trigger] all[i] == runs[g].1;
    }
}

/// A run is not empty and ends at a listed place.
pub proof fn lemma_run_bounds(indexes: Seq<usize>)
    ensures
        forall|g: int|
            0 <= g < gaps(indexes).len() ==> (#[trigger] gaps(indexes)[g]).0 < gaps(indexes)[g].1
                && (exists|i: int|
                0 <= i < indexes.len() && #[trigger] indexes[i] == gaps(indexes)[g].1),
    decreases indexes.len(),
{
    if indexes.len() > 0 {
        let shorter = indexes.drop_last();
        lemma_run_bounds(shorter);
        let before = gaps(shorter);
        let runs = gaps(indexes);
        assert forall|g: int| 0 <= g < runs.len() implies (#[trigger] runs[g]).0 < runs[g].1 && (
        exists|i: int| 0 <= i < indexes.len() && #[trigger] indexes[i] == runs[g].1) by {
            if g < before.len() {
                assert(runs[g] == before[g]);
                let i = choose|i: int| 0 <= i < shorter.len() && #[trigger] shorter[i] == before[g].1;
                assert(indexes[i] == runs[g].1);
            } else {
                assert(indexes[indexes.len() - 1] == runs[g].1);
            }
        }
    }
}

/// Marking packets changes no key.
pub proof fn lemma_marked(stored: Stored, keys: Seq<PacketKey>)
    ensures
        forall|key: PacketKey| #[trigger]
            is_stored(marked(stored, keys), key) == is_stored(stored, key),
{
}

/// What is left of a map and of its list of keys when the `retained` places of `todo` stay and its
/// other places go.
pub proof fn lemma_retain(
    before: Seq<PacketKey>,
    todo: Seq<PacketKey>,
    after: Seq<PacketKey>,
    stored: Stored,
    retained: Seq<usize>,
)
    requires
        list_matches(before + todo + after, stored),
        todo.len() <= usize::MAX,
        ascending(retained),
        forall|i: int| 0 <= i < retained.len() ==> #[trigger] retained[i] < todo.len(),
    ensures
        list_matches(
            before + pick(todo, retained) + after,
            without_runs(stored, todo, dropped_runs(todo, retained)),
        ),
{
    let runs = dropped_runs(todo, retained);
    let kept = pick(todo, retained);
    let rest = without_runs(stored, todo, runs);
    lemma_dropped_runs(todo, retained);
    lemma_concat(before + todo, after);
    lemma_concat(before, todo);
    lemma_concat(before + kept, after);
    lemma_concat(before, kept);
    assert forall|i: int| 0 <= i < kept.len() implies todo.contains(#[trigger] kept[i]) by {
        assert(kept[i] == todo[retained[i] as int]);
    }
    assert forall|i: int, j: int| 0 <= i < kept.len() && 0 <= j < kept.len() && i
        != j implies kept[i] != kept[j] by {
        if i < j {
            assert(retained[i] < retained[j]);
        } else {
            assert(retained[j] < retained[i]);
        }
        assert(todo[retained[i] as int] != todo[retained[j] as int]);
    }
    assert forall|x: PacketKey| kept.contains(x) implies #[trigger] todo.contains(x) by {
        let i = choose|i: int| 0 <= i < kept.len() && kept[i] == x;
    }
    assert(kept.no_duplicates());
    assert forall|x: PacketKey| !(#[trigger] before.contains(x) && kept.contains(x)) by {
        assert(!(before.contains(x) && todo.contains(x)));
    }
    assert forall|x: PacketKey| !(#[trigger] (before + kept).contains(x) && after.contains(x)) by {
        assert((before + kept).contains(x) ==> (before + todo).contains(x));
    }
    assert((before + kept + after).no_duplicates());
    assert forall|key: PacketKey| #[trigger] (before + kept + after).contains(key) <==> is_stored(
        rest,
        key,
    ) by {
        let all = before + todo + after;
        assert(all.contains(key) <==> is_stored(stored, key));
        // The hash of a key leads to one packet, so a key whose hash goes is itself in a run.
        if is_stored(stored, key) && hash_in_runs(todo, runs, spec_hash_of(key)) {
            let place = choose|place: int|
                0 <= place < todo.len() && in_gaps(runs, place) && spec_hash_of(
                    #[trigger] todo[place],
                ) == spec_hash_of(key);
            assert(todo.contains(todo[place]));
            assert(all.contains(todo[place]));
            assert(is_stored(stored, todo[place]));
            assert(todo[place] == key);
            if kept.contains(key) {
                let i = choose|i: int| 0 <= i < kept.len() && kept[i] == key;
                assert(todo[retained[i] as int] == todo[place]);
                assert(retained[i] as int == place);
                assert(retained.contains(place as usize));
            }
        }
        if todo.contains(key) && !kept.contains(key) {
            let place = choose|place: int| 0 <= place < todo.len() && todo[place] == key;
            if retained.contains(place as usize) {
                let i = choose|i: int| 0 <= i < retained.len() && retained[i] == place as usize;
                assert(kept[i] == key);
            }
            assert(in_gaps(runs, place));
            assert(hash_in_runs(todo, runs, spec_hash_of(key)));
        }
    }
}

} // verus!
