//! Functions that the caller hands over, with a record of every call.
//!
//! A service keeps its function to itself, so that it can be called in one way only, and each call
//! is added to the record. A contract that says what the record holds afterwards says how often
//! the function was called, with what, and what it answered.

use vstd::prelude::*;

use crate::consume::{index_view, ConsumeScannerPayload, Payload};
use crate::packet::SharedPacket;

verus! {

/// A function that looks at one thing.
#[verifier::reject_recursive_types(A)]
#[verifier::reject_recursive_types(R)]
pub struct Inquiry<A, R, F: FnMut(&A) -> R> {
    function: F,
    log: Ghost<Seq<(A, R)>>,
}

impl<A, R, F: FnMut(&A) -> R> Inquiry<A, R, F> {
    /// The function.
    pub closed spec fn function(&self) -> F {
        self.function
    }

    /// The calls so far: what was looked at, and the answer.
    pub closed spec fn log(&self) -> Seq<(A, R)> {
        self.log@
    }

    /// The function can be called with anything.
    pub open spec fn takes_all(&self) -> bool {
        forall|about: &A| #[trigger] call_requires(self.function(), (about,))
    }

    /// The function, not called yet.
    pub fn new(function: F) -> (service: Self)
        ensures
            service.function() == function,
            service.log() == Seq::<(A, R)>::empty(),
    {
        Inquiry { function, log: Ghost(Seq::empty()) }
    }

    /// Calls the function.
    pub fn ask(&mut self, about: &A) -> (answer: R)
        requires
            call_requires(old(self).function(), (about,)),
        ensures
            call_ensures(old(self).function(), (about,), answer),
            final(self).function() == old(self).function(),
            final(self).log() == old(self).log().push((*about, answer)),
    {
        let answer = (self.function)(about);
        self.log = Ghost(self.log@.push((*about, answer)));
        answer
    }
}

/// A function that looks at two things.
#[verifier::reject_recursive_types(A)]
#[verifier::reject_recursive_types(B)]
#[verifier::reject_recursive_types(R)]
pub struct PairInquiry<A, B, R, F: FnMut(&A, &B) -> R> {
    function: F,
    log: Ghost<Seq<(A, B, R)>>,
}

impl<A, B, R, F: FnMut(&A, &B) -> R> PairInquiry<A, B, R, F> {
    /// The function.
    pub closed spec fn function(&self) -> F {
        self.function
    }

    /// The calls so far: what was looked at, and the answer.
    pub closed spec fn log(&self) -> Seq<(A, B, R)> {
        self.log@
    }

    /// The function can be called with anything.
    pub open spec fn takes_all(&self) -> bool {
        forall|first: &A, second: &B| #[trigger] call_requires(self.function(), (first, second))
    }

    /// The function, not called yet.
    pub fn new(function: F) -> (service: Self)
        ensures
            service.function() == function,
            service.log() == Seq::<(A, B, R)>::empty(),
    {
        PairInquiry { function, log: Ghost(Seq::empty()) }
    }

    /// Calls the function.
    pub fn ask(&mut self, first: &A, second: &B) -> (answer: R)
        requires
            call_requires(old(self).function(), (first, second)),
        ensures
            call_ensures(old(self).function(), (first, second), answer),
            final(self).function() == old(self).function(),
            final(self).log() == old(self).log().push((*first, *second, answer)),
    {
        let answer = (self.function)(first, second);
        self.log = Ghost(self.log@.push((*first, *second, answer)));
        answer
    }
}

/// A function that looks at a batch, with a number given to it, and says of each item whether it is
/// valid.
#[verifier::reject_recursive_types(T)]
#[verifier::reject_recursive_types(N)]
pub struct BatchCheck<T, N, F: FnMut(&Vec<T>, N) -> Vec<bool>> {
    function: F,
    log: Ghost<Seq<(Seq<T>, N, Seq<bool>)>>,
}

impl<T, N, F: FnMut(&Vec<T>, N) -> Vec<bool>> BatchCheck<T, N, F> {
    /// The function.
    pub closed spec fn function(&self) -> F {
        self.function
    }

    /// The calls so far: the batch, the number and what was said.
    pub closed spec fn log(&self) -> Seq<(Seq<T>, N, Seq<bool>)> {
        self.log@
    }

    /// The function, not called yet.
    pub fn new(function: F) -> (service: Self)
        ensures
            service.function() == function,
            service.log() == Seq::<(Seq<T>, N, Seq<bool>)>::empty(),
    {
        BatchCheck { function, log: Ghost(Seq::empty()) }
    }

    /// Calls the function.
    pub fn ask(&mut self, batch: &Vec<T>, number: N) -> (answer: Vec<bool>)
        requires
            call_requires(old(self).function(), (batch, number)),
        ensures
            call_ensures(old(self).function(), (batch, number), answer),
            final(self).function() == old(self).function(),
            final(self).log() == old(self).log().push((batch@, number, answer@)),
    {
        let answer = (self.function)(batch, number);
        self.log = Ghost(self.log@.push((batch@, number, answer@)));
        answer
    }
}

/// A function that is handed one thing.
#[verifier::reject_recursive_types(A)]
#[verifier::reject_recursive_types(R)]
pub struct Handoff<A, R, F: FnMut(A) -> R> {
    function: F,
    log: Ghost<Seq<(A, R)>>,
}

impl<A, R, F: FnMut(A) -> R> Handoff<A, R, F> {
    /// The function.
    pub closed spec fn function(&self) -> F {
        self.function
    }

    /// The calls so far: what was handed over, and the answer.
    pub closed spec fn log(&self) -> Seq<(A, R)> {
        self.log@
    }

    /// The function, not called yet.
    pub fn new(function: F) -> (service: Self)
        ensures
            service.function() == function,
            service.log() == Seq::<(A, R)>::empty(),
    {
        Handoff { function, log: Ghost(Seq::empty()) }
    }

    /// Calls the function.
    pub fn hand(&mut self, given: A) -> (answer: R)
        requires
            call_requires(old(self).function(), (given,)),
        ensures
            call_ensures(old(self).function(), (given,), answer),
            final(self).function() == old(self).function(),
            final(self).log() == old(self).log().push((given, answer)),
    {
        let answer = (self.function)(given);
        self.log = Ghost(self.log@.push((given, answer)));
        answer
    }
}

/// A function that is handed two things.
#[verifier::reject_recursive_types(A)]
#[verifier::reject_recursive_types(B)]
#[verifier::reject_recursive_types(R)]
pub struct PairHandoff<A, B, R, F: FnMut(A, B) -> R> {
    function: F,
    log: Ghost<Seq<(A, B, R)>>,
}

impl<A, B, R, F: FnMut(A, B) -> R> PairHandoff<A, B, R, F> {
    /// The function.
    pub closed spec fn function(&self) -> F {
        self.function
    }

    /// The calls so far: what was handed over, and the answer.
    pub closed spec fn log(&self) -> Seq<(A, B, R)> {
        self.log@
    }

    /// The function, not called yet.
    pub fn new(function: F) -> (service: Self)
        ensures
            service.function() == function,
            service.log() == Seq::<(A, B, R)>::empty(),
    {
        PairHandoff { function, log: Ghost(Seq::empty()) }
    }

    /// Calls the function.
    pub fn hand(&mut self, first: A, second: B) -> (answer: R)
        requires
            call_requires(old(self).function(), (first, second)),
        ensures
            call_ensures(old(self).function(), (first, second), answer),
            final(self).function() == old(self).function(),
            final(self).log() == old(self).log().push((first, second, answer)),
    {
        let answer = (self.function)(first, second);
        self.log = Ghost(self.log@.push((first, second, answer)));
        answer
    }
}

/// One call of a function that works on a batch of packets.
pub struct BatchCall {
    /// The packets of the batch.
    pub batch: Seq<SharedPacket>,
    /// The payload that went in.
    pub given: Payload,
    /// The places of the packets to be tried again, where the function got to the batch.
    pub retryable: Option<Seq<usize>>,
    /// The payload that came back.
    pub returned: Payload,
}

/// A function that works on a batch of packets and passes the payload on.
pub struct BatchProcessing<
    F: FnMut(&Vec<SharedPacket>, ConsumeScannerPayload) -> (
        Option<Vec<usize>>,
        ConsumeScannerPayload,
    ),
> {
    function: F,
    log: Ghost<Seq<BatchCall>>,
}

impl<
    F: FnMut(&Vec<SharedPacket>, ConsumeScannerPayload) -> (
        Option<Vec<usize>>,
        ConsumeScannerPayload,
    ),
> BatchProcessing<F> {
    /// The function.
    pub closed spec fn function(&self) -> F {
        self.function
    }

    /// The calls so far.
    pub closed spec fn log(&self) -> Seq<BatchCall> {
        self.log@
    }

    /// The function can be called with anything.
    pub open spec fn takes_all(&self) -> bool {
        forall|batch: &Vec<SharedPacket>, payload: ConsumeScannerPayload| #[trigger]
            call_requires(self.function(), (batch, payload))
    }

    /// The function, not called yet.
    pub fn new(function: F) -> (service: Self)
        ensures
            service.function() == function,
            service.log() == Seq::<BatchCall>::empty(),
    {
        BatchProcessing { function, log: Ghost(Seq::empty()) }
    }

    /// Calls the function.
    pub fn process(
        &mut self,
        batch: &Vec<SharedPacket>,
        payload: ConsumeScannerPayload,
    ) -> (answer: (Option<Vec<usize>>, ConsumeScannerPayload))
        requires
            call_requires(old(self).function(), (batch, payload)),
        ensures
            call_ensures(old(self).function(), (batch, payload), answer),
            final(self).function() == old(self).function(),
            final(self).log() == old(self).log().push(
                (BatchCall {
                    batch: batch@,
                    given: payload@,
                    retryable: index_view(answer.0),
                    returned: answer.1@,
                }),
            ),
    {
        let ghost given = payload@;
        let answer = (self.function)(batch, payload);
        let ghost call = BatchCall {
            batch: batch@,
            given,
            retryable: index_view(answer.0),
            returned: answer.1@,
        };
        self.log = Ghost(self.log@.push(call));
        answer
    }
}

} // verus!
