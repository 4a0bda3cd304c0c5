//! The values that enter and leave the pool.

use vstd::prelude::*;
use std::cmp::Ordering;

verus! {

/// Why an insertion was rejected.
#[derive(Debug)]
pub enum TxInsertError {
    /// The sender already holds a transaction with this nonce.
    DuplicateNonce { sender: String, nonce: u64 },
    /// The sender's ledger is full, or no ledger may be opened at all.
    AccountLimitReached { sender: String },
    /// The pool was at capacity when the transaction arrived.
    PoolFull,
}

/// What a batch drain hands back.
#[derive(Debug)]
pub enum PopResult {
    /// The drained transactions, highest priority key first.
    Batch { drained: Vec<PendingTransaction> },
    /// Nothing was available, or nothing was asked for.
    Empty,
}

/// A transaction waiting for inclusion. The pool never changes its fields.
#[derive(Debug, PartialEq, Eq)]
pub struct PendingTransaction {
    /// Identifier of the transaction; also tells a current snapshot from a stale one.
    pub hash: String,
    /// The account that signed the transaction.
    pub sender: String,
    /// Position in the sender's execution order.
    pub nonce: u64,
    /// Secondary priority signal.
    pub gas_price: u64,
    /// Primary priority signal, independent of the gas price.
    pub priority: u128,
}

impl Clone for PendingTransaction {
    fn clone(&self) -> (copy: Self)
        ensures
            copy == *self,
    {
        PendingTransaction {
            hash: self.hash.clone(),
            sender: self.sender.clone(),
            nonce: self.nonce,
            gas_price: self.gas_price,
            priority: self.priority,
        }
    }
}

/// Lexicographic "strictly smaller" on priority keys.
pub open spec fn key_lt(a: (u128, u64), b: (u128, u64)) -> bool {
    a.0 < b.0 || (a.0 == b.0 && a.1 < b.1)
}

/// Decides `key_lt`.
pub fn key_less(a: (u128, u64), b: (u128, u64)) -> (out: bool)
    ensures
        out == key_lt(a, b),
{
    a.0 < b.0 || (a.0 == b.0 && a.1 < b.1)
}

impl PendingTransaction {
    /// The pair by which transactions of different accounts are compared.
    pub open spec fn key(&self) -> (u128, u64) {
        (self.priority, self.gas_price)
    }

    /// Returns `(priority, gas_price)`; a larger pair is more important.
    #[verifier::when_used_as_spec(key)]
    pub fn priority_key(&self) -> (out: (u128, u64))
        ensures
            out == self.key(),
    {
        (self.priority, self.gas_price)
    }

    /// Whether both name the same transaction slot: sender, hash and nonce agree.
    pub open spec fn same_identity(&self, other: &PendingTransaction) -> bool {
        &&& self.sender@ == other.sender@
        &&& self.hash@ == other.hash@
        &&& self.nonce == other.nonce
    }
}

/// A snapshot of a ledger head together with the key it is ranked by.
#[derive(Debug, PartialEq, Eq)]
pub struct QueuedTx {
    /// Cached `(priority, gas_price)` of `tx`.
    pub key: (u128, u64),
    /// The transaction as it was when the snapshot was taken.
    pub tx: PendingTransaction,
}

impl Clone for QueuedTx {
    fn clone(&self) -> (copy: Self)
        ensures
            copy == *self,
    {
        QueuedTx { key: self.key, tx: self.tx.clone() }
    }
}

/// `a` is scheduled strictly after `b`: its key is smaller, or the keys are
/// equal and its nonce is larger.
pub open spec fn ranks_below(a: QueuedTx, b: QueuedTx) -> bool {
    key_lt(a.key, b.key) || (a.key == b.key && a.tx.nonce > b.tx.nonce)
}

impl QueuedTx {
    /// Takes a snapshot of `tx`, keyed by its priority key.
    pub fn new(tx: PendingTransaction) -> (out: Self)
        ensures
            out.tx == tx,
            out.key == tx.key(),
    {
        let key = tx.priority_key();
        QueuedTx { key, tx }
    }

    /// The key is the one of the snapshot it travels with.
    pub open spec fn keyed(&self) -> bool {
        self.key == self.tx.key()
    }

    /// Orders two snapshots as the selector ranks them: by key, and among
    /// equal keys the smaller nonce is the greater.
    pub fn cmp(&self, other: &Self) -> (out: Ordering)
        ensures
            match out {
                Ordering::Less => ranks_below(*self, *other),
                Ordering::Greater => ranks_below(*other, *self),
                Ordering::Equal => self.key == other.key && self.tx.nonce == other.tx.nonce,
            },
    {
        if self.evicts_before(other) {
            Ordering::Less
        } else if other.evicts_before(self) {
            Ordering::Greater
        } else {
            Ordering::Equal
        }
    }

    /// Orders two snapshots; two snapshots are always comparable.
    pub fn partial_cmp(&self, other: &Self) -> (out: Option<Ordering>)
        ensures
            match out {
                Some(Ordering::Less) => ranks_below(*self, *other),
                Some(Ordering::Greater) => ranks_below(*other, *self),
                Some(Ordering::Equal) => self.key == other.key && self.tx.nonce == other.tx.nonce,
                None => false,
            },
    {
        Some(self.cmp(other))
    }

    /// Whether `self` must be scheduled before `other`: larger key first, and
    /// among equal keys the smaller nonce.
    pub fn schedules_before(&self, other: &QueuedTx) -> (out: bool)
        ensures
            out == ranks_below(*other, *self),
    {
        key_less(other.key, self.key) || (self.key.0 == other.key.0 && self.key.1 == other.key.1
            && self.tx.nonce < other.tx.nonce)
    }

    /// Whether `self` must be evicted before `other`: smaller key first, and
    /// among equal keys the larger nonce, so that the earliest work survives.
    pub fn evicts_before(&self, other: &QueuedTx) -> (out: bool)
        ensures
            out == ranks_below(*self, *other),
    {
        let lower_key = key_less(self.key, other.key);
        let same_key = self.key.0 == other.key.0 && self.key.1 == other.key.1;
        lower_key || (same_key && self.tx.nonce > other.tx.nonce)
    }
}

/// The two limits of a pool.
#[derive(Debug, Clone, Copy)]
pub struct TxPoolConfig {
    /// Most transactions the pool holds at once.
    pub capacity: usize,
    /// Most transactions one sender holds at once; 0 admits no sender.
    pub max_account_slots: usize,
}

} // verus!
