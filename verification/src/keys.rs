//! Account addresses and message hashes as plain values.

use vstd::prelude::*;

verus! {

/// Number of bytes in an account address.
pub const PUBKEY_BYTES: usize = 32;

/// The address of an account.
#[derive(Clone, Copy, Debug, PartialEq, Eq)]
pub struct Pubkey {
    pub bytes: [u8; 32],
}

impl Pubkey {
    /// Whether both addresses hold the same bytes.
    pub fn same_as(&self, other: &Pubkey) -> (same: bool)
        ensures
            same == (*self == *other),
    {
        let mut i: usize = 0;
        while i < PUBKEY_BYTES
            invariant
                i <= PUBKEY_BYTES,
                forall|j: int| 0 <= j < i ==> self.bytes[j] == other.bytes[j],
            decreases PUBKEY_BYTES - i,
        {
            if self.bytes[i] != other.bytes[i] {
                return false;
            }
            i += 1;
        }
        assert(self.bytes =~= other.bytes);
        true
    }
}

/// Whether `key` is one of `keys`.
pub fn contains_key(keys: &Vec<Pubkey>, key: &Pubkey) -> (found: bool)
    ensures
        found == keys@.contains(*key),
{
    let mut i: usize = 0;
    while i < keys.len()
        invariant
            i <= keys.len(),
            forall|j: int| 0 <= j < i ==> keys@[j] != *key,
        decreases keys.len() - i,
    {
        if keys[i].same_as(key) {
            assert(keys@[i as int] == *key);
            return true;
        }
        i += 1;
    }
    false
}

/// The address that consists of zero bytes only.
pub open spec fn is_zero_key(key: Pubkey) -> bool {
    forall|i: int| 0 <= i < 32 ==> #[trigger] key.bytes[i] == 0
}

/// The address of the system program: `solana_sdk::system_program::ID`, whose base-58 text is
/// thirty-two `1`s. Base-58 writes a leading zero byte as one `1`, so every byte is zero.
#[verifier::external_body]
pub(crate) fn system_program_id() -> (id: Pubkey)
    ensures
        is_zero_key(id),
{
    Pubkey { bytes: solana_sdk::system_program::ID.to_bytes() }
}

/// The hash that identifies a transaction message, its thirty-two bytes read as two big-endian
/// halves.
#[derive(Clone, Copy, Debug, PartialEq, Eq, Structural)]
pub struct MessageHash {
    pub hi: u128,
    pub lo: u128,
}

} // verus!
