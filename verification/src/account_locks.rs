//! The account locks that the transactions of a batch take.

use vstd::prelude::*;

use crate::keys::{contains_key, Pubkey};

verus! {

/// An account that a transaction names, and whether the transaction may change it.
#[derive(Clone, Copy, Debug)]
pub struct AccountAccess {
    pub pubkey: Pubkey,
    pub is_writable: bool,
}

/// A transaction that passed sanitization: the hash of its message and the accounts that it names,
/// those from lookup tables included.
#[derive(Debug)]
pub struct SanitizedTransaction {
    pub message_hash: crate::keys::MessageHash,
    pub accounts: Vec<AccountAccess>,
}

/// Why the locks of a transaction cannot be valid.
#[derive(Clone, Copy, Debug, PartialEq, Eq, Structural)]
pub enum LockError {
    TooManyAccountLocks,
    AccountLoadedTwice,
}

/// No account is named twice.
pub open spec fn distinct_accounts(accounts: Seq<AccountAccess>) -> bool {
    forall|i: int, j: int|
        0 <= i < j < accounts.len() ==> (#[trigger] accounts[i]).pubkey != (#[trigger] accounts[j]).pubkey
}

/// Whether an account is named twice.
fn has_duplicates(accounts: &Vec<AccountAccess>) -> (found: bool)
    ensures
        found == !distinct_accounts(accounts@),
{
    let mut j: usize = 0;
    while j < accounts.len()
        invariant
            j <= accounts@.len(),
            distinct_accounts(accounts@.take(j as int)),
        decreases accounts.len() - j,
    {
        let mut i: usize = 0;
        while i < j
            invariant
                i <= j < accounts@.len(),
                forall|k: int| 0 <= k < i ==> (#[trigger] accounts@[k]).pubkey != accounts@[j as int].pubkey,
            decreases j - i,
        {
            if accounts[i].pubkey.same_as(&accounts[j].pubkey) {
                assert(accounts@[i as int].pubkey == accounts@[j as int].pubkey);
                return true;
            }
            i += 1;
        }
        assert forall|a: int, b: int| 0 <= a < b < j + 1 implies (#[trigger] accounts@.take(
            j + 1,
        )[a]).pubkey != (#[trigger] accounts@.take(j + 1)[b]).pubkey by {
            if b < j {
                assert(accounts@.take(j as int)[a].pubkey != accounts@.take(j as int)[b].pubkey);
            } else {
                assert(accounts@[a].pubkey != accounts@[j as int].pubkey);
            }
        }
        j += 1;
    }
    assert(accounts@.take(j as int) =~= accounts@);
    false
}

/// Accepts the accounts of a transaction if there are no more than the limit and none is named
/// twice.
pub fn validate_account_locks(accounts: &Vec<AccountAccess>, lock_limit: usize) -> (result: Result<
    (),
    LockError,
>)
    ensures
        result == (if accounts@.len() > lock_limit {
            Err::<(), LockError>(LockError::TooManyAccountLocks)
        } else if !distinct_accounts(accounts@) {
            Err(LockError::AccountLoadedTwice)
        } else {
            Ok(())
        }),
{
    if accounts.len() > lock_limit {
        Err(LockError::TooManyAccountLocks)
    } else if has_duplicates(accounts) {
        Err(LockError::AccountLoadedTwice)
    } else {
        Ok(())
    }
}

/// Accounts that are locked for reading and for writing.
pub struct LockSets {
    pub reads: Set<Pubkey>,
    pub writes: Set<Pubkey>,
}

impl LockSets {
    pub open spec fn none() -> LockSets {
        LockSets { reads: Set::empty(), writes: Set::empty() }
    }

    /// The account can be locked next to these.
    pub open spec fn allows(self, account: AccountAccess) -> bool {
        &&& !self.writes.contains(account.pubkey)
        &&& account.is_writable ==> !self.reads.contains(account.pubkey)
    }

    /// With the locks of the accounts added.
    pub open spec fn with(self, accounts: Seq<AccountAccess>) -> LockSets {
        LockSets {
            reads: Set::new(
                |key: Pubkey| self.reads.contains(key) || names(accounts, key, false),
            ),
            writes: Set::new(
                |key: Pubkey| self.writes.contains(key) || names(accounts, key, true),
            ),
        }
    }

    /// Every account can be locked next to these.
    pub open spec fn allows_all(self, accounts: Seq<AccountAccess>) -> bool {
        forall|i: int| 0 <= i < accounts.len() ==> self.allows(#[trigger] accounts[i])
    }

    /// Every account can be locked next to these and to the accounts before it.
    pub open spec fn allows_in_turn(self, accounts: Seq<AccountAccess>) -> bool {
        forall|i: int|
            0 <= i < accounts.len() ==> self.with(accounts.take(i)).allows(#[trigger] accounts[i])
    }
}

/// The accounts hold the key, for writing or for reading.
pub open spec fn names(accounts: Seq<AccountAccess>, key: Pubkey, is_writable: bool) -> bool {
    exists|i: int|
        0 <= i < accounts.len() && (#[trigger] accounts[i]).pubkey == key
            && accounts[i].is_writable == is_writable
}

/// One account more.
proof fn lemma_with_push(locks: LockSets, accounts: Seq<AccountAccess>, account: AccountAccess)
    ensures
        locks.with(accounts.push(account)) == (if account.is_writable {
            LockSets {
                reads: locks.with(accounts).reads,
                writes: locks.with(accounts).writes.insert(account.pubkey),
            }
        } else {
            LockSets {
                reads: locks.with(accounts).reads.insert(account.pubkey),
                writes: locks.with(accounts).writes,
            }
        }),
{
    let more = accounts.push(account);
    assert forall|key: Pubkey, is_writable: bool| #[trigger]
        names(more, key, is_writable) <==> names(accounts, key, is_writable) || (key
            == account.pubkey && is_writable == account.is_writable) by {
        if names(accounts, key, is_writable) {
            let i = choose|i: int|
                0 <= i < accounts.len() && (#[trigger] accounts[i]).pubkey == key
                    && accounts[i].is_writable == is_writable;
            assert(more[i] == accounts[i]);
        }
        assert(more[accounts.len() as int] == account);
        if names(more, key, is_writable) {
            let i = choose|i: int|
                0 <= i < more.len() && (#[trigger] more[i]).pubkey == key && more[i].is_writable
                    == is_writable;
            if i < accounts.len() {
                assert(more[i] == accounts[i]);
            }
        }
    }
    assert(locks.with(more).reads =~= (if account.is_writable {
        locks.with(accounts).reads
    } else {
        locks.with(accounts).reads.insert(account.pubkey)
    }));
    assert(locks.with(more).writes =~= (if account.is_writable {
        locks.with(accounts).writes.insert(account.pubkey)
    } else {
        locks.with(accounts).writes
    }));
}

/// For a transaction that names no account twice, taking its locks one after the other succeeds
/// just when each of them is free beforehand.
pub proof fn law_taking_agrees_with_checking(locks: LockSets, accounts: Seq<AccountAccess>)
    requires
        distinct_accounts(accounts),
    ensures
        locks.allows_in_turn(accounts) == locks.allows_all(accounts),
{
    assert forall|i: int| 0 <= i < accounts.len() implies locks.with(accounts.take(i)).allows(
        #[trigger] accounts[i],
    ) == locks.allows(accounts[i]) by {
        let seen = accounts.take(i);
        assert forall|is_writable: bool| !names(seen, accounts[i].pubkey, is_writable) by {
            if names(seen, accounts[i].pubkey, is_writable) {
                let j = choose|j: int|
                    0 <= j < seen.len() && (#[trigger] seen[j]).pubkey == accounts[i].pubkey
                        && seen[j].is_writable == is_writable;
                assert(accounts[j].pubkey != accounts[i].pubkey);
            }
        }
    }
    if locks.allows_in_turn(accounts) {
        assert forall|i: int| 0 <= i < accounts.len() implies locks.allows(
            #[trigger] accounts[i],
        ) by {
            assert(locks.with(accounts.take(i)).allows(accounts[i]));
        }
    }
    if locks.allows_all(accounts) {
        assert forall|i: int| 0 <= i < accounts.len() implies locks.with(accounts.take(i)).allows(
            #[trigger] accounts[i],
        ) by {
            assert(locks.allows(accounts[i]));
        }
    }
}

/// Once the locks of a transaction are taken, an account that it writes is not free for anyone, and
/// an account that it reads is not free for writing.
pub proof fn law_taken_locks_exclude(
    locks: LockSets,
    accounts: Seq<AccountAccess>,
    i: int,
    other: AccountAccess,
)
    requires
        0 <= i < accounts.len(),
        other.pubkey == accounts[i].pubkey,
        other.is_writable || accounts[i].is_writable,
    ensures
        !locks.with(accounts).allows(other),
{
    assert(names(accounts, other.pubkey, accounts[i].is_writable));
}

/// The accounts that the transactions of a batch lock.
#[derive(Debug)]
pub struct ReadWriteAccountSet {
    read_set: Vec<Pubkey>,
    write_set: Vec<Pubkey>,
}

impl View for ReadWriteAccountSet {
    type V = LockSets;

    closed spec fn view(&self) -> LockSets {
        LockSets { reads: self.read_set@.to_set(), writes: self.write_set@.to_set() }
    }
}

impl Default for ReadWriteAccountSet {
    fn default() -> (locks: Self)
        ensures
            locks@ == LockSets::none(),
    {
        let locks = ReadWriteAccountSet { read_set: Vec::new(), write_set: Vec::new() };
        assert(locks@.reads =~= Set::empty());
        assert(locks@.writes =~= Set::empty());
        locks
    }
}

/// Adds a key to a list that stands for a set.
fn add_key(keys: &mut Vec<Pubkey>, key: Pubkey)
    ensures
        final(keys)@.to_set() == old(keys)@.to_set().insert(key),
{
    let ghost before = keys@;
    if contains_key(keys, &key) {
        assert(keys@.to_set() =~= before.to_set().insert(key));
    } else {
        keys.push(key);
        assert(keys@ =~= before + seq![key]);
        assert forall|k: Pubkey| keys@.contains(k) <==> before.contains(k) || k == key by {
            vstd::seq_lib::lemma_seq_concat_contains_all_elements(before, seq![key], k);
            assert(seq![key][0] == key);
        }
        assert(keys@.to_set() =~= before.to_set().insert(key));
    }
}

impl ReadWriteAccountSet {
    /// Whether every account of the transaction is free for what it does with it.
    pub fn check_locks(&self, transaction: &SanitizedTransaction) -> (free: bool)
        ensures
            free == self@.allows_all(transaction.accounts@),
    {
        let mut i: usize = 0;
        while i < transaction.accounts.len()
            invariant
                i <= transaction.accounts@.len(),
                forall|k: int| 0 <= k < i ==> self@.allows(#[trigger] transaction.accounts@[k]),
            decreases transaction.accounts.len() - i,
        {
            if !self.is_free(&transaction.accounts[i]) {
                assert(!self@.allows(transaction.accounts@[i as int]));
                return false;
            }
            i += 1;
        }
        true
    }

    /// Locks every account of the transaction, those that are not free too. Says whether all of
    /// them were free.
    pub fn take_locks(&mut self, transaction: &SanitizedTransaction) -> (free: bool)
        ensures
            free == old(self)@.allows_in_turn(transaction.accounts@),
            final(self)@ == old(self)@.with(transaction.accounts@),
    {
        let ghost accounts = transaction.accounts@;
        let ghost before = self@;
        let mut all_available = true;
        let mut i: usize = 0;
        proof {
            assert(before.with(accounts.take(0)).reads =~= before.reads);
            assert(before.with(accounts.take(0)).writes =~= before.writes);
        }
        while i < transaction.accounts.len()
            invariant
                accounts == transaction.accounts@,
                i <= accounts.len(),
                self@ == before.with(accounts.take(i as int)),
                all_available == (forall|k: int|
                    0 <= k < i ==> before.with(accounts.take(k)).allows(#[trigger] accounts[k])),
            decreases transaction.accounts.len() - i,
        {
            let account = transaction.accounts[i];
            let free = self.is_free(&account);
            proof {
                assert(accounts.take(i + 1) =~= accounts.take(i as int).push(account));
                lemma_with_push(before, accounts.take(i as int), account);
                if !free {
                    assert(!before.with(accounts.take(i as int)).allows(accounts[i as int]));
                }
            }
            if account.is_writable {
                add_key(&mut self.write_set, account.pubkey);
            } else {
                add_key(&mut self.read_set, account.pubkey);
            }
            all_available = all_available && free;
            i += 1;
        }
        assert(accounts.take(i as int) =~= accounts);
        all_available
    }

    /// Whether the account is free for the given access.
    fn is_free(&self, account: &AccountAccess) -> (free: bool)
        ensures
            free == self@.allows(*account),
    {
        !contains_key(&self.write_set, &account.pubkey) && !(account.is_writable && contains_key(
            &self.read_set,
            &account.pubkey,
        ))
    }

    /// Gives every lock back.
    pub fn clear(&mut self)
        ensures
            final(self)@ == LockSets::none(),
    {
        self.read_set.clear();
        self.write_set.clear();
        assert(self@.reads =~= Set::empty());
        assert(self@.writes =~= Set::empty());
    }
}

} // verus!
