//! A fee-priority scheduler: entries are scored by fee and compute units and
//! leave in the order of their score.

use vstd::prelude::*;
use std::cmp::Ordering;
use crate::text::{lemma_bytes_less_asymmetric, string_less, text_less};

verus! {

/// How urgent a transaction is.
#[derive(Debug, PartialEq, Eq, PartialOrd, Ord)]
pub enum TxClass {
    /// Must be handled at once, such as a liquidation.
    HighPriority,
    /// An ordinary transaction.
    Standard,
    /// Can wait, such as batch work.
    LowPriority,
}

impl Clone for TxClass {
    fn clone(&self) -> (copy: Self)
        ensures
            copy == *self,
    {
        match self {
            TxClass::HighPriority => TxClass::HighPriority,
            TxClass::Standard => TxClass::Standard,
            TxClass::LowPriority => TxClass::LowPriority,
        }
    }
}

/// A transaction waiting in the mempool.
#[derive(Debug, PartialEq, Eq)]
pub struct MempoolEntry {
    /// Identifier of the transaction.
    pub id: String,
    /// The fee paid.
    pub fee_micro_lamports: u64,
    /// Compute units the transaction will use.
    pub compute_units: u32,
    /// Its urgency.
    pub class: TxClass,
}

impl Clone for MempoolEntry {
    fn clone(&self) -> (copy: Self)
        ensures
            copy == *self,
    {
        MempoolEntry {
            id: self.id.clone(),
            fee_micro_lamports: self.fee_micro_lamports,
            compute_units: self.compute_units,
            class: self.class.clone(),
        }
    }
}

/// Why an entry was not scheduled.
#[derive(Debug)]
pub enum SchedulerError {
    /// The fee is zero.
    FeeTooLow,
    /// More than 200 000 compute units.
    ComputeUnitsOutOfRange,
}

impl SchedulerError {
    /// The text of the error.
    pub open spec fn text(&self) -> Seq<char> {
        match self {
            SchedulerError::FeeTooLow => "fee must be greater then zero"@,
            SchedulerError::ComputeUnitsOutOfRange => "compute units must be within 200_000"@,
        }
    }

    /// Says in words what went wrong.
    pub fn message(&self) -> (out: &'static str)
        ensures
            out@ == self.text(),
    {
        match self {
            SchedulerError::FeeTooLow => "fee must be greater then zero",
            SchedulerError::ComputeUnitsOutOfRange => "compute units must be within 200_000",
        }
    }
}

/// The most compute units an entry may ask for.
pub const MAX_COMPUTE_UNITS: u32 = 200_000;

/// The score of an entry: a thousand per unit of fee, plus what it leaves
/// unused of the compute limit. A higher fee and fewer compute units rank higher.
pub open spec fn score_of(fee_micro_lamports: u64, compute_units: u32) -> int {
    fee_micro_lamports * 1_000 + (200_000 - compute_units)
}

/// An entry with the score it is ranked by.
#[derive(Debug, PartialEq, Eq)]
pub struct ScheduledTx {
    /// The entry.
    pub entry: MempoolEntry,
    /// Its score.
    pub score: u128,
}

/// `a` leaves after `b`: its score is lower, or the scores are equal and its
/// id is the smaller one.
pub open spec fn ranks_below(a: ScheduledTx, b: ScheduledTx) -> bool {
    a.score < b.score || (a.score == b.score && text_less(a.entry.id@, b.entry.id@))
}

impl ScheduledTx {
    /// Whether `self` leaves after `other`.
    pub fn below(&self, other: &ScheduledTx) -> (out: bool)
        ensures
            out == ranks_below(*self, *other),
    {
        self.score < other.score || (self.score == other.score && string_less(
            self.entry.id.as_str(),
            other.entry.id.as_str(),
        ))
    }

    /// Orders two scheduled entries: by score, and by id among equal scores.
    pub fn cmp(&self, other: &Self) -> (out: Ordering)
        ensures
            match out {
                Ordering::Less => ranks_below(*self, *other),
                Ordering::Greater => ranks_below(*other, *self),
                Ordering::Equal => !ranks_below(*self, *other) && !ranks_below(*other, *self),
            },
    {
        proof {
            lemma_bytes_less_asymmetric(
                vstd::utf8::encode_utf8(self.entry.id@),
                vstd::utf8::encode_utf8(other.entry.id@),
            );
        }
        if self.below(other) {
            Ordering::Less
        } else if other.below(self) {
            Ordering::Greater
        } else {
            Ordering::Equal
        }
    }

    /// Orders two scheduled entries; two entries are always comparable.
    pub fn partial_cmp(&self, other: &Self) -> (out: Option<Ordering>)
        ensures
            match out {
                Some(Ordering::Less) => ranks_below(*self, *other),
                Some(Ordering::Greater) => ranks_below(*other, *self),
                Some(Ordering::Equal) => !ranks_below(*self, *other) && !ranks_below(
                    *other,
                    *self,
                ),
                None => false,
            },
    {
        Some(self.cmp(other))
    }
}

/// Index of the entry that leaves next: the first one that no other outranks.
pub open spec fn top_index(entries: Seq<ScheduledTx>) -> int
    decreases entries.len(),
{
    if entries.len() <= 1 {
        0
    } else {
        let before = top_index(entries.drop_last());
        if ranks_below(entries[before], entries.last()) {
            entries.len() - 1
        } else {
            before
        }
    }
}

/// `top_index` names an entry that none outranks.
pub proof fn lemma_top_index(entries: Seq<ScheduledTx>)
    requires
        entries.len() > 0,
    ensures
        0 <= top_index(entries) < entries.len(),
        forall|j: int|
            0 <= j < entries.len() ==> !ranks_below(entries[top_index(entries)], #[trigger] entries[j]),
    decreases entries.len(),
{
    if entries.len() > 1 {
        let shorter = entries.drop_last();
        lemma_top_index(shorter);
        let before = top_index(shorter);
        let top = top_index(entries);
        assert forall|j: int| 0 <= j < entries.len() implies !ranks_below(
            entries[top],
            #[trigger] entries[j],
        ) by {
            let a = vstd::utf8::encode_utf8(entries[j].entry.id@);
            let b = vstd::utf8::encode_utf8(entries[before].entry.id@);
            let c = vstd::utf8::encode_utf8(entries.last().entry.id@);
            lemma_bytes_less_asymmetric(b, c);
            lemma_bytes_less_asymmetric(c, c);
            if j < shorter.len() {
                assert(shorter[j] == entries[j]);
                assert(!ranks_below(shorter[before], shorter[j]));
                if ranks_below(entries[before], entries.last()) && ranks_below(
                    entries.last(),
                    entries[j],
                ) {
                    if entries[before].score == entries.last().score && entries.last().score
                        == entries[j].score {
                        crate::text::lemma_bytes_less_transitive(b, c, a);
                    }
                }
            }
        }
    } else {
        let only = vstd::utf8::encode_utf8(entries[0].entry.id@);
        lemma_bytes_less_asymmetric(only, only);
    }
}

/// Schedules entries by score.
pub struct PriorityScheduler {
    /// The scheduled entries, in the order they were pushed.
    pub scheduled_txs: Vec<ScheduledTx>,
}

impl Default for PriorityScheduler {
    fn default() -> (out: Self)
        ensures
            out.scheduled_txs@.len() == 0,
    {
        PriorityScheduler { scheduled_txs: Vec::new() }
    }
}

impl PriorityScheduler {
    /// A scheduler with nothing scheduled.
    pub fn new() -> (out: Self)
        ensures
            out.scheduled_txs@.len() == 0,
    {
        PriorityScheduler { scheduled_txs: Vec::new() }
    }

    /// Schedules `entry` under its score, unless its fee is zero or it asks
    /// for more than 200 000 compute units; the fee is looked at first.
    pub fn push(&mut self, entry: MempoolEntry) -> (out: Result<(), SchedulerError>)
        ensures
            match out {
                Err(SchedulerError::FeeTooLow) => {
                    &&& entry.fee_micro_lamports == 0
                    &&& final(self).scheduled_txs@ == old(self).scheduled_txs@
                },
                Err(SchedulerError::ComputeUnitsOutOfRange) => {
                    &&& entry.fee_micro_lamports != 0
                    &&& entry.compute_units > 200_000
                    &&& final(self).scheduled_txs@ == old(self).scheduled_txs@
                },
                Ok(_) => {
                    &&& entry.fee_micro_lamports != 0
                    &&& entry.compute_units <= 200_000
                    &&& final(self).scheduled_txs@ == old(self).scheduled_txs@.push(
                        ScheduledTx {
                            entry,
                            score: score_of(entry.fee_micro_lamports, entry.compute_units) as u128,
                        },
                    )
                },
            },
    {
        let fee_micro_lamports = entry.fee_micro_lamports;
        if fee_micro_lamports == 0 {
            return Err(SchedulerError::FeeTooLow);
        }
        let compute_units = entry.compute_units;
        if compute_units > MAX_COMPUTE_UNITS {
            return Err(SchedulerError::ComputeUnitsOutOfRange);
        }
        let score: u128 = fee_micro_lamports as u128 * 1_000 + (200_000 - compute_units as u128);
        self.scheduled_txs.push(ScheduledTx { entry, score });
        Ok(())
    }

    /// Position of the entry that `pop` would take.
    fn top_position(&self) -> (out: usize)
        requires
            self.scheduled_txs@.len() > 0,
        ensures
            out == top_index(self.scheduled_txs@),
            out < self.scheduled_txs@.len(),
    {
        let mut best: usize = 0;
        let mut i: usize = 1;
        while i < self.scheduled_txs.len()
            invariant
                1 <= i <= self.scheduled_txs@.len(),
                best == top_index(self.scheduled_txs@.take(i as int)),
                0 <= best < i,
            decreases self.scheduled_txs@.len() - i,
        {
            proof {
                let longer = self.scheduled_txs@.take(i + 1);
                assert(longer.drop_last() =~= self.scheduled_txs@.take(i as int));
                assert(longer.last() == self.scheduled_txs@[i as int]);
                assert(longer[best as int] == self.scheduled_txs@[best as int]);
            }
            if self.scheduled_txs[best].below(&self.scheduled_txs[i]) {
                best = i;
            }
            i += 1;
        }
        assert(self.scheduled_txs@.take(i as int) =~= self.scheduled_txs@);
        best
    }

    /// Removes and returns the entry with the highest score; among equal
    /// scores the one with the greater id, and of full ties the one pushed
    /// first. `None` where nothing is scheduled.
    pub fn pop(&mut self) -> (out: Option<MempoolEntry>)
        ensures
            old(self).scheduled_txs@.len() == 0 ==> out is None && final(self).scheduled_txs@
                == old(self).scheduled_txs@,
            old(self).scheduled_txs@.len() > 0 ==> out == Some(
                old(self).scheduled_txs@[top_index(old(self).scheduled_txs@)].entry,
            ) && final(self).scheduled_txs@ == old(self).scheduled_txs@.remove(
                top_index(old(self).scheduled_txs@),
            ),
            old(self).scheduled_txs@.len() > 0 ==> forall|j: int|
                0 <= j < old(self).scheduled_txs@.len() ==> !ranks_below(
                    old(self).scheduled_txs@[top_index(old(self).scheduled_txs@)],
                    #[trigger] old(self).scheduled_txs@[j],
                ),
    {
        if self.scheduled_txs.len() == 0 {
            None
        } else {
            proof {
                lemma_top_index(self.scheduled_txs@);
            }
            let top = self.top_position();
            let taken = self.scheduled_txs.remove(top);
            Some(taken.entry)
        }
    }

    /// Number of scheduled entries.
    pub fn len(&self) -> (out: usize)
        ensures
            out == self.scheduled_txs@.len(),
    {
        self.scheduled_txs.len()
    }

    /// Whether nothing is scheduled.
    pub fn is_empty(&self) -> (out: bool)
        ensures
            out == (self.scheduled_txs@.len() == 0),
    {
        self.len() == 0
    }
}

} // verus!
