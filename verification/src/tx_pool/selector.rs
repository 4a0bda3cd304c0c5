//! The global priority selector: a bag of snapshots from which the highest
//! ranked one is taken.

use vstd::prelude::*;
use crate::tx_pool::types::{QueuedTx, ranks_below};

verus! {

/// Index of the entry that is taken next: the first one that no other entry
/// outranks. Meaningful for a non-empty sequence.
pub open spec fn top_index(entries: Seq<QueuedTx>) -> int
    decreases entries.len(),
{
    if entries.len() <= 1 {
        0
    } else {
        let before = top_index(entries.drop_last());
        if ranks_below(entries[before], entries.last()) {
            entries.len() - 1
        } else {
            before
        }
    }
}

/// `top_index` names an entry, nothing outranks that entry, and every entry
/// before it ranks strictly below it.
pub proof fn lemma_top_index(entries: Seq<QueuedTx>)
    requires
        entries.len() > 0,
    ensures
        0 <= top_index(entries) < entries.len(),
        forall|j: int|
            0 <= j < entries.len() ==> !ranks_below(entries[top_index(entries)], #[trigger] entries[j]),
        forall|j: int|
            0 <= j < top_index(entries) ==> ranks_below(#[trigger] entries[j], entries[top_index(entries)]),
    decreases entries.len(),
{
    if entries.len() > 1 {
        let shorter = entries.drop_last();
        lemma_top_index(shorter);
        let before = top_index(shorter);
        assert(forall|j: int| 0 <= j < shorter.len() ==> shorter[j] == entries[j]);
        if ranks_below(entries[before], entries.last()) {
            let top = entries.len() - 1;
            assert forall|j: int| 0 <= j < entries.len() implies !ranks_below(
                entries[top],
                #[trigger] entries[j],
            ) by {
                if j < shorter.len() {
                    assert(!ranks_below(shorter[before], shorter[j]));
                }
            }
            assert forall|j: int| 0 <= j < top implies ranks_below(
                #[trigger] entries[j],
                entries[top],
            ) by {
                assert(!ranks_below(shorter[before], shorter[j]));
                if j < before {
                    assert(ranks_below(shorter[j], shorter[before]));
                }
            }
        } else {
            assert forall|j: int| 0 <= j < entries.len() implies !ranks_below(
                entries[before],
                #[trigger] entries[j],
            ) by {
                if j < shorter.len() {
                    assert(!ranks_below(shorter[before], shorter[j]));
                }
            }
            assert forall|j: int| 0 <= j < before implies ranks_below(
                #[trigger] entries[j],
                entries[before],
            ) by {
                assert(ranks_below(shorter[j], shorter[before]));
            }
        }
    }
}

/// A max-priority bag of snapshots. Entries are never updated in place: a
/// newer snapshot is pushed and the older one is left to be filtered later.
pub struct PrioritySelector {
    entries: Vec<QueuedTx>,
}

impl View for PrioritySelector {
    type V = Seq<QueuedTx>;

    closed spec fn view(&self) -> Seq<QueuedTx> {
        self.entries@
    }
}

impl PrioritySelector {
    /// An empty selector.
    pub fn new() -> (out: Self)
        ensures
            out@ == Seq::<QueuedTx>::empty(),
    {
        PrioritySelector { entries: Vec::new() }
    }

    /// Number of entries, stale ones included.
    pub fn len(&self) -> (out: usize)
        ensures
            out == self@.len(),
    {
        self.entries.len()
    }

    /// Whether no entry is left.
    pub fn is_empty(&self) -> (out: bool)
        ensures
            out == (self@.len() == 0),
    {
        self.entries.len() == 0
    }

    /// Adds a snapshot; nothing already present is touched.
    pub fn push(&mut self, entry: QueuedTx)
        ensures
            final(self)@ == old(self)@.push(entry),
    {
        self.entries.push(entry);
    }

    /// Position of the entry that `pop` would take.
    fn top_position(&self) -> (out: usize)
        requires
            self@.len() > 0,
        ensures
            out == top_index(self@),
    {
        let mut best: usize = 0;
        let mut i: usize = 1;
        assert(self.entries@.take(1).len() == 1);
        while i < self.entries.len()
            invariant
                1 <= i <= self.entries.len(),
                best == top_index(self.entries@.take(i as int)),
                0 <= best < i,
            decreases self.entries.len() - i,
        {
            proof {
                let longer = self.entries@.take(i + 1);
                assert(longer.drop_last() =~= self.entries@.take(i as int));
                assert(longer.last() == self.entries@[i as int]);
                assert(longer[best as int] == self.entries@[best as int]);
            }
            if self.entries[i].schedules_before(&self.entries[best]) {
                best = i;
            }
            i += 1;
        }
        assert(self.entries@.take(i as int) =~= self.entries@);
        best
    }

    /// A copy of the highest ranked entry, if there is one.
    pub fn peek(&self) -> (out: Option<QueuedTx>)
        ensures
            self@.len() == 0 ==> out is None,
            self@.len() > 0 ==> out == Some(self@[top_index(self@)]),
    {
        if self.entries.len() == 0 {
            None
        } else {
            let top = self.top_position();
            proof {
                lemma_top_index(self@);
            }
            Some(self.entries[top].clone())
        }
    }

    /// Removes and returns the highest ranked entry: larger key first, among
    /// equal keys the smaller nonce, and among full ties the one pushed first.
    pub fn pop(&mut self) -> (out: Option<QueuedTx>)
        ensures
            old(self)@.len() == 0 ==> out is None && final(self)@ == old(self)@,
            old(self)@.len() > 0 ==> out == Some(old(self)@[top_index(old(self)@)]) && final(self)@
                == old(self)@.remove(top_index(old(self)@)),
            out matches Some(entry) ==> forall|j: int|
                0 <= j < old(self)@.len() ==> !ranks_below(entry, #[trigger] old(self)@[j]),
    {
        if self.entries.len() == 0 {
            None
        } else {
            let top = self.top_position();
            proof {
                lemma_top_index(self@);
            }
            Some(self.entries.remove(top))
        }
    }
}

} // verus!
