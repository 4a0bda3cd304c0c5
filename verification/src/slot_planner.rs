//! Planning one block: which mempool entries fit under the block's limits,
//! and in what order of fee they are offered.

use vstd::prelude::*;
use std::cmp::Ordering;
use vstd::std_specs::cmp::PartialEqSpecImpl;

verus! {

/// A transaction waiting in the mempool. Entries are compared by fee alone.
#[derive(Debug)]
pub struct MempoolEntry {
    /// Compute units the transaction will use.
    pub compute_units: u32,
    /// The fee paid; a higher fee ranks higher.
    pub fee_micro_lamports: u64,
}

impl Clone for MempoolEntry {
    fn clone(&self) -> (copy: Self)
        ensures
            copy == *self,
    {
        MempoolEntry {
            compute_units: self.compute_units,
            fee_micro_lamports: self.fee_micro_lamports,
        }
    }
}

impl PartialEq for MempoolEntry {
    fn eq(&self, other: &Self) -> (out: bool) {
        self.fee_micro_lamports == other.fee_micro_lamports
    }
}

impl PartialEqSpecImpl for MempoolEntry {
    open spec fn obeys_eq_spec() -> bool {
        true
    }

    open spec fn eq_spec(&self, other: &Self) -> bool {
        self.fee_micro_lamports == other.fee_micro_lamports
    }
}

impl Eq for MempoolEntry {

}

impl MempoolEntry {
    /// Orders two entries by fee.
    pub fn cmp(&self, other: &Self) -> (out: Ordering)
        ensures
            match out {
                Ordering::Less => self.fee_micro_lamports < other.fee_micro_lamports,
                Ordering::Equal => self.fee_micro_lamports == other.fee_micro_lamports,
                Ordering::Greater => self.fee_micro_lamports > other.fee_micro_lamports,
            },
    {
        if self.fee_micro_lamports < other.fee_micro_lamports {
            Ordering::Less
        } else if self.fee_micro_lamports > other.fee_micro_lamports {
            Ordering::Greater
        } else {
            Ordering::Equal
        }
    }

    /// Orders two entries by fee; two entries are always comparable.
    pub fn partial_cmp(&self, other: &Self) -> (out: Option<Ordering>)
        ensures
            match out {
                Some(Ordering::Less) => self.fee_micro_lamports < other.fee_micro_lamports,
                Some(Ordering::Equal) => self.fee_micro_lamports == other.fee_micro_lamports,
                Some(Ordering::Greater) => self.fee_micro_lamports > other.fee_micro_lamports,
                None => false,
            },
    {
        Some(self.cmp(other))
    }
}

/// The limits of one block.
#[derive(Debug)]
pub struct BlockConstraint {
    /// Most compute units the block may use.
    pub max_compute_units: u32,
    /// Most transactions the block may hold.
    pub max_transactions: usize,
}

/// The entries chosen for a block, with their running totals.
#[derive(Debug)]
pub struct PlannedBundle {
    /// The chosen entries, in the order they were added.
    pub entries: Vec<MempoolEntry>,
    /// Compute units of the entries.
    pub total_compute_units: u32,
    /// Fees of the entries.
    pub total_fee_micro_lamports: u64,
}

/// `a - b`, or 0 where `b` is larger.
pub open spec fn floor_sub(a: int, b: int) -> int {
    if a >= b {
        a - b
    } else {
        0
    }
}

impl PlannedBundle {
    /// What is left of the block's limits: compute units and transactions.
    /// A limit that is already exceeded leaves 0.
    pub fn remaining_capacity(&self, block_constraint: &BlockConstraint) -> (out: (u32, usize))
        ensures
            out.0 == floor_sub(
                block_constraint.max_compute_units as int,
                self.total_compute_units as int,
            ),
            out.1 == floor_sub(
                block_constraint.max_transactions as int,
                self.entries@.len() as int,
            ),
    {
        let remaining_compute = block_constraint.max_compute_units.saturating_sub(
            self.total_compute_units,
        );
        let remaining_transactions: usize = block_constraint.max_transactions.saturating_sub(
            self.entries.len(),
        );
        (remaining_compute, remaining_transactions)
    }
}

/// Sum of the compute units of the entries.
pub open spec fn compute_sum(entries: Seq<MempoolEntry>) -> int
    decreases entries.len(),
{
    if entries.len() == 0 {
        0
    } else {
        compute_sum(entries.drop_last()) + entries.last().compute_units
    }
}

/// Sum of the fees of the entries.
pub open spec fn fee_sum(entries: Seq<MempoolEntry>) -> int
    decreases entries.len(),
{
    if entries.len() == 0 {
        0
    } else {
        fee_sum(entries.drop_last()) + entries.last().fee_micro_lamports
    }
}

/// Fees do not increase along the sequence.
pub open spec fn fee_descending(entries: Seq<MempoolEntry>) -> bool {
    forall|a: int, b: int|
        0 <= a < b < entries.len() ==> entries[a].fee_micro_lamports
            >= entries[b].fee_micro_lamports
}

/// Position of the entry with the highest fee, the first of them.
fn highest_fee_index(heap: &Vec<MempoolEntry>) -> (out: usize)
    requires
        heap@.len() > 0,
    ensures
        out < heap@.len(),
        forall|j: int|
            0 <= j < heap@.len() ==> (#[trigger] heap@[j]).fee_micro_lamports
                <= heap@[out as int].fee_micro_lamports,
{
    let mut best: usize = 0;
    let mut i: usize = 1;
    while i < heap.len()
        invariant
            1 <= i <= heap@.len(),
            best < i,
            forall|j: int|
                0 <= j < i ==> (#[trigger] heap@[j]).fee_micro_lamports
                    <= heap@[best as int].fee_micro_lamports,
        decreases heap@.len() - i,
    {
        if heap[i].fee_micro_lamports > heap[best].fee_micro_lamports {
            best = i;
        }
        i += 1;
    }
    best
}

/// Empties the heap and returns its entries, highest fee first.
pub fn drain_sorted_by_fee(heap: &mut Vec<MempoolEntry>) -> (sorted: Vec<MempoolEntry>)
    ensures
        final(heap)@.len() == 0,
        fee_descending(sorted@),
        sorted@.len() == old(heap)@.len(),
        sorted@.to_multiset() == old(heap)@.to_multiset(),
{
    let mut sorted: Vec<MempoolEntry> = Vec::new();
    let ghost all = heap@;
    proof {
        sorted@.to_multiset_ensures();
        assert(sorted@.to_multiset().add(heap@.to_multiset()) =~= all.to_multiset());
    }
    while heap.len() > 0
        invariant
            fee_descending(sorted@),
            sorted@.len() + heap@.len() == all.len(),
            sorted@.to_multiset().add(heap@.to_multiset()) == all.to_multiset(),
            forall|a: int, b: int|
                0 <= a < sorted@.len() && 0 <= b < heap@.len() ==> (
                #[trigger] sorted@[a]).fee_micro_lamports >= (#[trigger] heap@[b]).fee_micro_lamports,
        decreases heap@.len(),
    {
        let ghost heap_before = heap@;
        let ghost sorted_before = sorted@;
        let top = highest_fee_index(heap);
        let entry = heap.remove(top);
        sorted.push(entry);
        proof {
            vstd::seq_lib::to_multiset_remove(heap_before, top as int);
            vstd::seq_lib::to_multiset_build(sorted_before, entry);
            assert(heap_before.contains(entry));
            vstd::seq_lib::to_multiset_contains(heap_before, entry);
            assert(sorted@.to_multiset().add(heap@.to_multiset()) =~= all.to_multiset());
            assert forall|a: int, b: int|
                0 <= a < sorted@.len() && 0 <= b < heap@.len() implies (
            #[trigger] sorted@[a]).fee_micro_lamports >= (#[trigger] heap@[b]).fee_micro_lamports by {
                let b0 = if b < top { b } else { b + 1 };
                assert(heap@[b] == heap_before[b0]);
                if a < sorted_before.len() {
                    assert(sorted@[a] == sorted_before[a]);
                }
            }
            assert forall|a: int, b: int| 0 <= a < b < sorted@.len() implies sorted@[a].fee_micro_lamports
                >= sorted@[b].fee_micro_lamports by {
                if b < sorted_before.len() {
                    assert(sorted@[a] == sorted_before[a]);
                    assert(sorted@[b] == sorted_before[b]);
                } else {
                    assert(sorted@[a] == sorted_before[a]);
                    assert(sorted@[b] == heap_before[top as int]);
                }
            }
        }
    }
    proof {
        heap@.to_multiset_ensures();
        assert(heap@ =~= Seq::empty());
        assert(sorted@.to_multiset() =~= all.to_multiset());
    }
    sorted
}

/// Chooses entries for one block without exceeding its limits.
pub struct SlotPlanner {
    block_constraint: BlockConstraint,
    current_bundle: PlannedBundle,
}

impl SlotPlanner {
    /// The entries chosen so far.
    pub closed spec fn entries(&self) -> Seq<MempoolEntry> {
        self.current_bundle.entries@
    }

    /// The block's limit on compute units.
    pub closed spec fn max_compute_units(&self) -> u32 {
        self.block_constraint.max_compute_units
    }

    /// The block's limit on the number of transactions.
    pub closed spec fn max_transactions(&self) -> usize {
        self.block_constraint.max_transactions
    }

    /// The running totals are the sums over the chosen entries, and the
    /// entries are within the block's limits.
    pub closed spec fn wf(&self) -> bool {
        &&& self.current_bundle.total_compute_units == compute_sum(self.entries())
        &&& self.current_bundle.total_fee_micro_lamports == fee_sum(self.entries())
        &&& self.current_bundle.total_compute_units <= self.block_constraint.max_compute_units
        &&& self.entries().len() <= self.block_constraint.max_transactions
    }

    /// Whether the entry fits: neither limit is exceeded with it.
    pub open spec fn fits(&self, entry: MempoolEntry) -> bool {
        &&& compute_sum(self.entries()) + entry.compute_units <= self.max_compute_units()
        &&& self.entries().len() + 1 <= self.max_transactions()
    }

    /// A planner with nothing chosen.
    pub fn new(block_constraint: BlockConstraint) -> (out: Self)
        ensures
            out.wf(),
            out.entries() == Seq::<MempoolEntry>::empty(),
            out.max_compute_units() == block_constraint.max_compute_units,
            out.max_transactions() == block_constraint.max_transactions,
    {
        SlotPlanner {
            block_constraint,
            current_bundle: PlannedBundle {
                entries: Vec::new(),
                total_compute_units: 0,
                total_fee_micro_lamports: 0,
            },
        }
    }

    /// The block's limits.
    pub fn constraint(&self) -> (out: &BlockConstraint)
        ensures
            out.max_compute_units == self.max_compute_units(),
            out.max_transactions == self.max_transactions(),
    {
        &self.block_constraint
    }

    /// The bundle as it stands.
    pub fn bundle(&self) -> (out: &PlannedBundle)
        ensures
            out.entries@ == self.entries(),
            self.wf() ==> out.total_compute_units == compute_sum(self.entries())
                && out.total_fee_micro_lamports == fee_sum(self.entries()),
    {
        &self.current_bundle
    }

    /// Whether `entry` can be added without exceeding either limit.
    pub fn can_add(&self, entry: &MempoolEntry) -> (out: bool)
        requires
            self.wf(),
        ensures
            out == self.fits(*entry),
    {
        let room = self.block_constraint.max_compute_units
            - self.current_bundle.total_compute_units;
        entry.compute_units <= room && self.current_bundle.entries.len()
            < self.block_constraint.max_transactions
    }

    /// Adds `entry` if it fits and says whether it did. The fee total must
    /// fit its type.
    pub fn try_add(&mut self, entry: MempoolEntry) -> (added: bool)
        requires
            old(self).wf(),
            fee_sum(old(self).entries()) + entry.fee_micro_lamports <= u64::MAX,
        ensures
            final(self).wf(),
            final(self).max_compute_units() == old(self).max_compute_units(),
            final(self).max_transactions() == old(self).max_transactions(),
            added == old(self).fits(entry),
            added ==> final(self).entries() == old(self).entries().push(entry),
            !added ==> final(self).entries() == old(self).entries(),
    {
        if self.can_add(&entry) {
            proof {
                assert(self.entries().push(entry).drop_last() =~= self.entries());
            }
            self.current_bundle.total_compute_units = self.current_bundle.total_compute_units
                + entry.compute_units;
            self.current_bundle.total_fee_micro_lamports =
                self.current_bundle.total_fee_micro_lamports + entry.fee_micro_lamports;
            self.current_bundle.entries.push(entry);
            true
        } else {
            false
        }
    }

    /// Ends the planning and hands out the bundle.
    pub fn finalize(self) -> (out: PlannedBundle)
        requires
            self.wf(),
        ensures
            out.entries@ == self.entries(),
            out.total_compute_units == compute_sum(self.entries()),
            out.total_fee_micro_lamports == fee_sum(self.entries()),
    {
        self.current_bundle
    }
}

} // verus!
