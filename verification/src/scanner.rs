//! The scanner that forms batches from a list, with several iterators that walk it one behind the
//! other.
//!
//! The scanner says which item to look at next and is told what was decided: to process the item
//! in the current batch, to leave it for a later iterator, or to drop it. A batch is ready when
//! every iterator has found an item or has reached the end of the list.

use vstd::prelude::*;

verus! {

/// What is done with an item.
#[derive(Clone, Copy, Debug, PartialEq, Eq, Structural)]
pub enum ProcessingDecision {
    /// It joins the current batch.
    Now,
    /// It stays for a later iterator.
    Later,
    /// It is dropped.
    Never,
}

/// What the scanner asks for.
#[derive(Clone, Copy, Debug, PartialEq, Eq, Structural)]
pub enum ScanAction {
    /// A decision about the item at this place.
    Examine(usize),
    /// Processing of the batch that the iterators stand at.
    Process,
    /// Nothing more.
    Finish,
}

/// Where a scan stands.
pub struct Scan {
    /// Which items joined a batch or were dropped.
    pub handled: Seq<bool>,
    /// Where the iterators stand.
    pub positions: Seq<usize>,
    /// Whether this is the first batch, for which the iterators are made.
    pub filling: bool,
    /// The iterator that moves; the ones before it have found their item of this batch.
    pub iterator: nat,
    /// Where that iterator looks next.
    pub cursor: nat,
    /// How many iterators there are at most.
    pub max_iterators: nat,
}

/// The first place from `from` on that is not handled, or the length of the list.
pub open spec fn next_unhandled(handled: Seq<bool>, from: int) -> int
    decreases handled.len() - from,
{
    if from < 0 || from >= handled.len() {
        handled.len() as int
    } else if !handled[from] {
        from
    } else {
        next_unhandled(handled, from + 1)
    }
}

/// How many places are not handled.
pub open spec fn unhandled_count(handled: Seq<bool>) -> nat
    decreases handled.len(),
{
    if handled.len() == 0 {
        0
    } else {
        unhandled_count(handled.drop_last()) + if handled.last() {
            0nat
        } else {
            1nat
        }
    }
}

impl Scan {
    /// The scan of a list before its first batch.
    pub open spec fn start(len: nat, max_iterators: nat) -> Scan {
        Scan {
            handled: Seq::new(len, |i: int| false),
            positions: Seq::empty(),
            filling: true,
            iterator: 0,
            cursor: 0,
            max_iterators,
        }
    }

    /// The iterators stand at handled items of the list in ascending order, and the one that moves
    /// looks behind those that found their item.
    pub open spec fn wf(self) -> bool {
        &&& self.iterator <= self.positions.len()
        &&& self.positions.len() <= self.max_iterators
        &&& self.max_iterators > 0
        &&& self.cursor <= self.handled.len()
        &&& self.handled.len() <= usize::MAX
        &&& self.filling ==> self.iterator == self.positions.len()
        &&& !self.filling ==> self.positions.len() > 0
        &&& forall|i: int|
            0 <= i < self.positions.len() ==> (#[trigger] self.positions[i]) < self.handled.len()
                && self.handled[self.positions[i] as int]
        &&& forall|i: int|
            0 <= i < self.iterator ==> (#[trigger] self.positions[i]) < self.cursor
        &&& self.iterator < self.positions.len() ==> self.positions[self.iterator as int]
            < self.cursor
        &&& forall|i: int, j: int|
            0 <= i < j < self.iterator ==> #[trigger] self.positions[i] < #[trigger] self.positions[j]
        &&& forall|i: int, j: int|
            self.iterator <= i < j < self.positions.len() ==> #[trigger] self.positions[i]
                < #[trigger] self.positions[j]
    }

    /// How many iterators take part in the current batch.
    pub open spec fn slots(self) -> nat {
        if self.filling {
            self.max_iterators
        } else {
            self.positions.len()
        }
    }

    /// What the scan asks for.
    pub open spec fn action(self) -> ScanAction {
        let place = next_unhandled(self.handled, self.cursor as int);
        if self.iterator < self.slots() && place < self.handled.len() {
            ScanAction::Examine(place as usize)
        } else if self.iterator == 0 {
            ScanAction::Finish
        } else {
            ScanAction::Process
        }
    }

    /// The scan after a decision about the item that it asked for.
    pub open spec fn decided(self, decision: ProcessingDecision) -> Scan {
        let place = next_unhandled(self.handled, self.cursor as int);
        match decision {
            ProcessingDecision::Now => {
                let positions = if self.filling {
                    self.positions.push(place as usize)
                } else {
                    self.positions.update(self.iterator as int, place as usize)
                };
                let iterator = self.iterator + 1;
                let behind = place + 1;
                Scan {
                    handled: self.handled.update(place, true),
                    positions,
                    iterator,
                    // An iterator goes on behind its last item and behind the iterators before it.
                    cursor: (if iterator < positions.len() && positions[iterator as int] + 1
                        > behind {
                        positions[iterator as int] + 1
                    } else {
                        behind
                    }) as nat,
                    ..self
                }
            },
            ProcessingDecision::Later => Scan { cursor: (place + 1) as nat, ..self },
            ProcessingDecision::Never => Scan {
                handled: self.handled.update(place, true),
                cursor: (place + 1) as nat,
                ..self
            },
        }
    }

    /// The places of the batch that is ready, or as far as it has come.
    pub open spec fn batch(self) -> Seq<usize> {
        self.positions.take(self.iterator as int)
    }

    /// The scan at the start of the next batch: iterators that found nothing are gone.
    pub open spec fn next_batch(self) -> Scan {
        Scan {
            positions: self.batch(),
            filling: false,
            iterator: 0,
            cursor: (self.positions[0] + 1) as nat,
            ..self
        }
    }
}

/// What `next_unhandled` finds.
pub proof fn lemma_next_unhandled(handled: Seq<bool>, from: int)
    requires
        0 <= from <= handled.len(),
    ensures
        from <= next_unhandled(handled, from) <= handled.len(),
        next_unhandled(handled, from) < handled.len() ==> !handled[next_unhandled(handled, from)],
        forall|i: int| from <= i < next_unhandled(handled, from) ==> #[trigger] handled[i],
    decreases handled.len() - from,
{
    if from < handled.len() && handled[from] {
        lemma_next_unhandled(handled, from + 1);
    }
}

/// Handling one more place.
pub proof fn lemma_handle(handled: Seq<bool>, place: int)
    requires
        0 <= place < handled.len(),
        !handled[place],
    ensures
        unhandled_count(handled.update(place, true)) == unhandled_count(handled) - 1,
    decreases handled.len(),
{
    let after = handled.update(place, true);
    if place == handled.len() - 1 {
        assert(after.drop_last() =~= handled.drop_last());
    } else {
        assert(after.drop_last() =~= handled.drop_last().update(place, true));
        lemma_handle(handled.drop_last(), place);
    }
}

/// A decision keeps a scan well-formed.
pub proof fn lemma_decided(scan: Scan, decision: ProcessingDecision)
    requires
        scan.wf(),
        scan.action() is Examine,
    ensures
        scan.decided(decision).wf(),
        decision == ProcessingDecision::Later || unhandled_count(scan.decided(decision).handled)
            < unhandled_count(scan.handled),
{
    lemma_next_unhandled(scan.handled, scan.cursor as int);
    let place = next_unhandled(scan.handled, scan.cursor as int);
    lemma_handle(scan.handled, place);
    let after = scan.decided(decision);
    if decision == ProcessingDecision::Now {
        assert forall|i: int| 0 <= i < after.positions.len() implies (#[trigger] after.positions[i])
            < after.handled.len() && after.handled[after.positions[i] as int] by {
            if i != scan.iterator {
                assert(after.positions[i] == scan.positions[i]);
            }
        }
        assert forall|i: int| 0 <= i < after.iterator implies (#[trigger] after.positions[i])
            < after.cursor by {
            if i < scan.iterator {
                assert(after.positions[i] == scan.positions[i]);
            }
        }
        assert forall|i: int, j: int| 0 <= i < j < after.iterator implies #[trigger] after.positions[i]
            < #[trigger] after.positions[j] by {
            assert(after.positions[i] == scan.positions[i]);
            if j < scan.iterator {
                assert(after.positions[j] == scan.positions[j]);
            }
        }
        assert forall|i: int, j: int| after.iterator <= i < j
            < after.positions.len() implies #[trigger] after.positions[i]
            < #[trigger] after.positions[j] by {
            assert(after.positions[i] == scan.positions[i]);
            assert(after.positions[j] == scan.positions[j]);
        }
    }
}

/// A batch that was processed leaves a well-formed scan.
pub proof fn lemma_next_batch(scan: Scan)
    requires
        scan.wf(),
        scan.action() is Process,
    ensures
        scan.next_batch().wf(),
{
    let after = scan.next_batch();
    assert(scan.positions[0] < scan.handled.len());
    assert forall|i: int| 0 <= i < after.positions.len() implies (#[trigger] after.positions[i])
        < after.handled.len() && after.handled[after.positions[i] as int] by {
        assert(after.positions[i] == scan.positions[i]);
    }
    assert forall|i: int, j: int| 0 <= i < j < after.positions.len() implies #[trigger] after.positions[i]
        < #[trigger] after.positions[j] by {
        assert(after.positions[i] == scan.positions[i]);
        assert(after.positions[j] == scan.positions[j]);
    }
}

/// What a scan asks for next: the first place behind where it looks that is not handled, as long as
/// an iterator is left that has not found its item; then the batch, where an iterator has found one;
/// and nothing more where none has. A batch is processed only once every iterator has found its item
/// or none is left to find.
pub proof fn law_scan_asks_for_the_next_place(scan: Scan)
    requires
        scan.wf(),
    ensures
        match scan.action() {
            ScanAction::Examine(place) => {
                &&& scan.iterator < if scan.filling {
                    scan.max_iterators
                } else {
                    scan.positions.len()
                }
                &&& scan.cursor <= place < scan.handled.len()
                &&& !scan.handled[place as int]
                &&& forall|q: int| scan.cursor <= q < place ==> #[trigger] scan.handled[q]
            },
            ScanAction::Process => {
                &&& scan.iterator > 0
                &&& {
                    ||| scan.filling && scan.iterator == scan.max_iterators
                    ||| !scan.filling && scan.iterator == scan.positions.len()
                    ||| forall|q: int|
                        scan.cursor <= q < scan.handled.len() ==> #[trigger] scan.handled[q]
                }
            },
            ScanAction::Finish => {
                &&& scan.iterator == 0
                &&& forall|q: int|
                    scan.cursor <= q < scan.handled.len() ==> #[trigger] scan.handled[q]
            },
        },
{
    lemma_next_unhandled(scan.handled, scan.cursor as int);
}

/// Before the first batch nothing is handled, and the first iterator looks at the first place.
pub proof fn law_scan_starts_at_the_front(len: nat, max_iterators: nat)
    ensures
        ({
            let scan = Scan::start(len, max_iterators);
            &&& scan.handled.len() == len
            &&& forall|q: int| 0 <= q < len ==> !(#[trigger] scan.handled[q])
            &&& scan.positions.len() == 0
            &&& scan.filling
            &&& scan.iterator == 0
            &&& scan.cursor == 0
            &&& scan.max_iterators == max_iterators
        }),
{
}

/// What a decision changes. An item that is processed now is handled and stands behind the others in
/// the batch; the next iterator looks behind it, and behind its own last item. One that is dropped is
/// handled and joins no batch. One that is left for later stays as it is. Either way the iterator
/// looks on behind it.
pub proof fn law_decision_moves_the_scan(scan: Scan, place: usize, decision: ProcessingDecision)
    requires
        scan.wf(),
        scan.action() == ScanAction::Examine(place),
    ensures
        ({
            let after = scan.decided(decision);
            let found = scan.iterator as int;
            &&& after.handled.len() == scan.handled.len()
            &&& forall|q: int|
                0 <= q < scan.handled.len() ==> #[trigger] after.handled[q] == (scan.handled[q] || (q
                    == place && decision != ProcessingDecision::Later))
            &&& after.filling == scan.filling
            &&& after.max_iterators == scan.max_iterators
            &&& if decision == ProcessingDecision::Now {
                &&& after.iterator == found + 1
                &&& after.positions.take(found + 1) == scan.positions.take(found).push(place)
                &&& after.positions.len() == if scan.filling {
                    found + 1
                } else {
                    scan.positions.len() as int
                }
                &&& forall|i: int|
                    found < i < scan.positions.len() ==> #[trigger] after.positions[i]
                        == scan.positions[i]
                &&& after.cursor == if found + 1 < scan.positions.len() && scan.positions[found + 1]
                    > place {
                    scan.positions[found + 1] + 1
                } else {
                    place + 1
                }
            } else {
                &&& after.iterator == scan.iterator
                &&& after.positions == scan.positions
                &&& after.cursor == place + 1
            }
        }),
{
    lemma_next_unhandled(scan.handled, scan.cursor as int);
    let after = scan.decided(decision);
    if decision == ProcessingDecision::Now {
        let found = scan.iterator as int;
        assert(after.positions.take(found + 1) =~= scan.positions.take(found).push(place));
    }
}

/// After a batch the iterators that found an item are left, in their places, and the first of them
/// looks on behind its item. Nothing is handled by it.
pub proof fn law_next_batch_goes_on_behind_the_first(scan: Scan)
    requires
        scan.wf(),
        scan.action() is Process,
    ensures
        ({
            let after = scan.next_batch();
            &&& after.handled == scan.handled
            &&& after.positions.len() == scan.iterator
            &&& forall|i: int|
                0 <= i < scan.iterator ==> #[trigger] after.positions[i] == scan.positions[i]
            &&& after.iterator == 0
            &&& after.cursor == scan.positions[0] + 1
            &&& !after.filling
            &&& after.max_iterators == scan.max_iterators
        }),
{
}

/// A scan of a list by several iterators.
#[derive(Debug)]
pub struct MultiIteratorScanner {
    already_handled: Vec<bool>,
    current_positions: Vec<usize>,
    filling: bool,
    iterator: usize,
    cursor: usize,
    max_iterators: usize,
}

impl View for MultiIteratorScanner {
    type V = Scan;

    closed spec fn view(&self) -> Scan {
        Scan {
            handled: self.already_handled@,
            positions: self.current_positions@,
            filling: self.filling,
            iterator: self.iterator as nat,
            cursor: self.cursor as nat,
            max_iterators: self.max_iterators as nat,
        }
    }
}

impl MultiIteratorScanner {
    /// A scan of a list of the given length.
    pub fn new(len: usize, max_iterators: usize) -> (scanner: Self)
        requires
            max_iterators > 0,
        ensures
            scanner@ == Scan::start(len as nat, max_iterators as nat),
            scanner@.wf(),
    {
        let mut already_handled: Vec<bool> = Vec::new();
        let mut i: usize = 0;
        while i < len
            invariant
                i <= len,
                already_handled@ == Seq::new(i as nat, |k: int| false),
            decreases len - i,
        {
            already_handled.push(false);
            i += 1;
            assert(already_handled@ =~= Seq::new(i as nat, |k: int| false));
        }
        MultiIteratorScanner {
            already_handled,
            current_positions: Vec::new(),
            filling: true,
            iterator: 0,
            cursor: 0,
            max_iterators,
        }
    }

    /// What is to be done next.
    pub fn action(&self) -> (action: ScanAction)
        requires
            self@.wf(),
        ensures
            action == self@.action(),
    {
        let slots: usize = if self.filling {
            self.max_iterators
        } else {
            self.current_positions.len()
        };
        if self.iterator < slots {
            let mut place: usize = self.cursor;
            while place < self.already_handled.len()
                invariant_except_break
                    self.cursor <= place <= self.already_handled@.len(),
                    next_unhandled(self.already_handled@, self.cursor as int) == next_unhandled(
                        self.already_handled@,
                        place as int,
                    ),
                ensures
                    place == next_unhandled(self.already_handled@, self.cursor as int),
                decreases self.already_handled.len() - place,
            {
                if !self.already_handled[place] {
                    break;
                }
                place += 1;
            }
            if place < self.already_handled.len() {
                return ScanAction::Examine(place);
            }
        }
        if self.iterator == 0 {
            ScanAction::Finish
        } else {
            ScanAction::Process
        }
    }

    /// Tells the scanner what was decided about the item that it asked for.
    pub fn decide(&mut self, place: usize, decision: ProcessingDecision)
        requires
            old(self)@.wf(),
            old(self)@.action() == ScanAction::Examine(place),
        ensures
            final(self)@ == old(self)@.decided(decision),
            final(self)@.wf(),
    {
        proof {
            lemma_decided(self@, decision);
            lemma_next_unhandled(self.already_handled@, self.cursor as int);
        }
        match decision {
            ProcessingDecision::Now => {
                if self.filling {
                    self.current_positions.push(place);
                } else {
                    self.current_positions.set(self.iterator, place);
                }
                self.already_handled.set(place, true);
                self.iterator += 1;
                self.cursor = place + 1;
                if self.iterator < self.current_positions.len()
                    && self.current_positions[self.iterator] >= self.cursor {
                    self.cursor = self.current_positions[self.iterator] + 1;
                }
            },
            ProcessingDecision::Later => {
                self.cursor = place + 1;
            },
            ProcessingDecision::Never => {
                self.already_handled.set(place, true);
                self.cursor = place + 1;
            },
        }
    }

    /// The places of the batch that is ready, or as far as it has come.
    pub fn batch(&self) -> (places: Vec<usize>)
        requires
            self@.wf(),
        ensures
            places@ == self@.batch(),
    {
        let mut places: Vec<usize> = Vec::new();
        let mut i: usize = 0;
        while i < self.iterator
            invariant
                self@.wf(),
                i <= self.iterator,
                places@ == self.current_positions@.take(i as int),
            decreases self.iterator - i,
        {
            places.push(self.current_positions[i]);
            i += 1;
            assert(places@ =~= self.current_positions@.take(i as int));
        }
        places
    }

    /// Moves on from a batch that was processed.
    pub fn next_batch(&mut self)
        requires
            old(self)@.wf(),
            old(self)@.action() == ScanAction::Process,
        ensures
            final(self)@ == old(self)@.next_batch(),
            final(self)@.wf(),
    {
        proof {
            lemma_next_batch(self@);
        }
        self.current_positions.truncate(self.iterator);
        self.filling = false;
        self.iterator = 0;
        self.cursor = self.current_positions[0] + 1;
    }
}

} // verus!
