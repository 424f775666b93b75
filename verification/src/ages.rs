//! How old transactions may be, as the clock of the chain has it.

use vstd::prelude::*;

verus! {

/// Up to which age a transaction is processed, counted in blockhashes.
pub open spec fn processing_age() -> usize {
    150
}

/// `solana_clock::MAX_PROCESSING_AGE`, which is 150.
#[verifier::external_body]
pub(crate) fn max_processing_age() -> (age: usize)
    ensures
        age == processing_age(),
{
    solana_clock::MAX_PROCESSING_AGE
}

/// How many slots before its own a leader gets transactions.
pub open spec fn forwarding_offset() -> u64 {
    2
}

/// `solana_sdk::clock::FORWARD_TRANSACTIONS_TO_LEADER_AT_SLOT_OFFSET`, which is 2.
#[verifier::external_body]
pub(crate) fn forwarding_slot_offset() -> (offset: u64)
    ensures
        offset == forwarding_offset(),
{
    solana_sdk::clock::FORWARD_TRANSACTIONS_TO_LEADER_AT_SLOT_OFFSET
}

} // verus!
