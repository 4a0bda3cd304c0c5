//! The pool controller: admission, eviction under capacity pressure and
//! batch draining over the ledgers and the selector.

use vstd::prelude::*;
use std::collections::VecDeque;
use crate::tx_pool::types::{
    PendingTransaction, PopResult, QueuedTx, TxInsertError, TxPoolConfig, key_less, ranks_below,
};
use crate::tx_pool::selector::{PrioritySelector, lemma_top_index, top_index};
use crate::tx_pool::model::{
    PoolModel, admits, after_picks, agrees_with, best_picks, covers, distinct_senders,
    drain_outcome, drained_as, drained_by, evicted_one, first_above, has_account, head_covered,
    head_covered_by, heads_covered, holds_nonce, is_lowest_head, ledger_of, ledger_wf,
    ledgers_wf, lemma_account_index, lemma_first_above, lemma_total_len_bounds, pop_head,
    schedule_sorted, selector_after_insert, selector_keyed, sender_at, snapshots_current,
    total_len, tx_ranks_below, valid_picks, with_inserted,
};
use crate::tx_pool::invariants::{
    lemma_all_stay_covered, lemma_cover_by_pushed, lemma_cover_survives_push,
    lemma_cover_survives_remove, lemma_current_after_agreeing_push,
    lemma_current_after_pop_head, lemma_current_after_push, lemma_current_after_remove,
    lemma_insert_wf, lemma_keyed_after_remove, lemma_lowest_entry_names_lowest_head,
    lemma_others_stay_covered, lemma_pop_head_wf, lemma_top_entry_names_best_head,
};
use crate::tx_pool::laws::{
    lemma_insert_keeps_snapshots_current, lemma_reordered_precede_remaining,
};

verus! {

/// The ledgers as sequences.
pub open spec fn ledgers_view(accounts: Seq<VecDeque<PendingTransaction>>) -> Seq<
    Seq<PendingTransaction>,
> {
    Seq::new(accounts.len(), |i: int| accounts[i]@)
}

/// Looks for the ledger of `sender`.
fn find_account(accounts: &Vec<VecDeque<PendingTransaction>>, sender: &String) -> (out: Option<
    usize,
>)
    requires
        forall|i: int| 0 <= i < accounts@.len() ==> (#[trigger] accounts@[i])@.len() > 0,
    ensures
        match out {
            Some(i) => i < accounts@.len() && sender_at(ledgers_view(accounts@), i as int)
                == sender@,
            None => !has_account(ledgers_view(accounts@), sender@),
        },
{
    let mut i: usize = 0;
    while i < accounts.len()
        invariant
            i <= accounts@.len(),
            forall|k: int| 0 <= k < accounts@.len() ==> (#[trigger] accounts@[k])@.len() > 0,
            forall|k: int| 0 <= k < i ==> sender_at(ledgers_view(accounts@), k) != sender@,
        decreases accounts@.len() - i,
    {
        assert(accounts@[i as int]@.len() > 0);
        if accounts[i][0].sender == *sender {
            return Some(i);
        }
        i += 1;
    }
    None
}

/// The freshness test that every read of the selector applies: the entry is
/// fresh where its sender has a ledger whose head carries its hash and nonce.
/// Returns the position of that ledger.
fn fresh_account(accounts: &Vec<VecDeque<PendingTransaction>>, entry: &QueuedTx) -> (out: Option<
    usize,
>)
    requires
        forall|i: int| 0 <= i < accounts@.len() ==> (#[trigger] accounts@[i])@.len() > 0,
        distinct_senders(ledgers_view(accounts@)),
    ensures
        match out {
            Some(i) => i < accounts@.len() && covers(*entry, ledgers_view(accounts@)[i as int][0]),
            None => !head_covered_by(ledgers_view(accounts@), *entry),
        },
{
    let ghost ledgers = ledgers_view(accounts@);
    match find_account(accounts, &entry.tx.sender) {
        None => {
            assert forall|i: int| 0 <= i < ledgers.len() implies !covers(
                *entry,
                (#[trigger] ledgers[i])[0],
            ) by {
                assert(sender_at(ledgers, i) != entry.tx.sender@);
            }
            None
        },
        Some(i) => {
            let head = &accounts[i][0];
            if head.hash == entry.tx.hash && head.nonce == entry.tx.nonce {
                Some(i)
            } else {
                assert forall|k: int| 0 <= k < ledgers.len() implies !covers(
                    *entry,
                    (#[trigger] ledgers[k])[0],
                ) by {
                    if k < i {
                        assert(sender_at(ledgers, k) != sender_at(ledgers, i as int));
                    } else if i < k {
                        assert(sender_at(ledgers, i as int) != sender_at(ledgers, k));
                    }
                }
                None
            }
        },
    }
}

/// Whether `a` leaves a drain before `b`: larger key first, and among equal
/// keys the smaller nonce.
fn drains_before(a: &PendingTransaction, b: &PendingTransaction) -> (out: bool)
    ensures
        out == tx_ranks_below(*b, *a),
{
    let ka = a.priority_key();
    let kb = b.priority_key();
    key_less(kb, ka) || (ka.0 == kb.0 && ka.1 == kb.1 && a.nonce < b.nonce)
}

/// Position of the entry to evict: the first that outranks no other.
fn lowest_index(buffer: &Vec<QueuedTx>) -> (out: usize)
    requires
        buffer@.len() > 0,
    ensures
        out < buffer@.len(),
        forall|j: int|
            0 <= j < buffer@.len() ==> !ranks_below(#[trigger] buffer@[j], buffer@[out as int]),
{
    let mut lowest_idx: usize = 0;
    let mut idx: usize = 1;
    while idx < buffer.len()
        invariant
            1 <= idx <= buffer@.len(),
            lowest_idx < idx,
            forall|j: int|
                0 <= j < idx ==> !ranks_below(#[trigger] buffer@[j], buffer@[lowest_idx as int]),
        decreases buffer@.len() - idx,
    {
        if buffer[idx].evicts_before(&buffer[lowest_idx]) {
            lowest_idx = idx;
        }
        idx += 1;
    }
    lowest_idx
}

/// Orders drained transactions for the caller: highest key first, smaller
/// nonce first among equal keys, and otherwise in the order they were drained.
fn sort_for_schedule(txs: Vec<PendingTransaction>) -> (out: Vec<PendingTransaction>)
    ensures
        schedule_sorted(out@),
        out@.len() == txs@.len(),
        out@.to_multiset() == txs@.to_multiset(),
{
    let mut rest = txs;
    let mut out: Vec<PendingTransaction> = Vec::new();
    let ghost mut done: int = 0;
    assert(txs@.take(0) =~= out@);
    assert(txs@.skip(0) =~= rest@);
    while rest.len() > 0
        invariant
            0 <= done <= txs@.len(),
            out@.len() == done,
            rest@ == txs@.skip(done),
            schedule_sorted(out@),
            out@.to_multiset() == txs@.take(done).to_multiset(),
        decreases rest@.len(),
    {
        let ghost out_before = out@;
        let tx = rest.remove(0);
        let mut p: usize = 0;
        while p < out.len() && !drains_before(&tx, &out[p])
            invariant
                p <= out@.len(),
                forall|j: int| 0 <= j < p ==> !tx_ranks_below(#[trigger] out@[j], tx),
            decreases out@.len() - p,
        {
            p += 1;
        }
        out.insert(p, tx);
        proof {
            assert(tx == txs@[done]);
            assert(rest@ =~= txs@.skip(done + 1));
            assert(txs@.take(done + 1) =~= txs@.take(done).push(tx));
            vstd::seq_lib::to_multiset_build(txs@.take(done), tx);
            vstd::seq_lib::to_multiset_insert(out_before, p as int, tx);
            assert forall|a: int, b: int| 0 <= a < b < out@.len() implies !tx_ranks_below(
                out@[a],
                out@[b],
            ) by {
                if a < p {
                    assert(out@[a] == out_before[a]);
                } else if a > p {
                    assert(out@[a] == out_before[a - 1]);
                }
                if b < p {
                    assert(out@[b] == out_before[b]);
                } else if b > p {
                    assert(out@[b] == out_before[b - 1]);
                    if a == p {
                        assert(tx_ranks_below(out_before[p as int], tx));
                        assert(p < b - 1 ==> !tx_ranks_below(
                            out_before[p as int],
                            out_before[b - 1],
                        ));
                    }
                }
            }
            done = done + 1;
        }
    }
    assert(txs@.take(done) =~= txs@);
    out
}

/// Whether the ledger holds this nonce.
fn has_nonce(ledger: &VecDeque<PendingTransaction>, nonce: u64) -> (out: bool)
    ensures
        out == holds_nonce(ledger@, nonce),
{
    let mut j: usize = 0;
    while j < ledger.len()
        invariant
            j <= ledger@.len(),
            forall|k: int| 0 <= k < j ==> (#[trigger] ledger@[k]).nonce != nonce,
        decreases ledger@.len() - j,
    {
        if ledger[j].nonce == nonce {
            return true;
        }
        j += 1;
    }
    false
}

/// Where a transaction with this nonce lands in the ledger.
fn insert_position(ledger: &VecDeque<PendingTransaction>, nonce: u64) -> (out: usize)
    ensures
        out == first_above(ledger@, nonce),
        out <= ledger@.len(),
{
    let mut j: usize = 0;
    while j < ledger.len() && ledger[j].nonce <= nonce
        invariant
            j <= ledger@.len(),
            forall|k: int| 0 <= k < j ==> (#[trigger] ledger@[k]).nonce <= nonce,
        decreases ledger@.len() - j,
    {
        j += 1;
    }
    proof {
        lemma_first_above(ledger@, nonce, j as int);
    }
    j
}

/// A bounded pool of pending transactions of many senders.
pub struct TxPool {
    config: TxPoolConfig,
    per_account: Vec<VecDeque<PendingTransaction>>,
    global_queue: PrioritySelector,
    total_txs: usize,
}

impl View for TxPool {
    type V = PoolModel;

    closed spec fn view(&self) -> PoolModel {
        PoolModel {
            capacity: self.config.capacity as nat,
            max_account_slots: self.config.max_account_slots as nat,
            ledgers: ledgers_view(self.per_account@),
            selector: self.global_queue@,
            occupancy: self.total_txs as nat,
        }
    }
}

impl TxPool {
    /// The pool is in a consistent state: see `PoolModel::wf`.
    pub open spec fn wf(&self) -> bool {
        self@.wf()
    }

    /// All invariants hold but that the head of ledger `i` may lack a fresh
    /// selector entry.
    spec fn wf_but_cover(&self, i: int) -> bool {
        &&& ledgers_wf(self@.ledgers, self@.max_account_slots)
        &&& 0 <= i < self@.ledgers.len()
        &&& self@.occupancy == total_len(self@.ledgers)
        &&& self@.occupancy <= self@.capacity
        &&& selector_keyed(self@.selector)
        &&& forall|k: int|
            0 <= k < self@.ledgers.len() && k != i ==> head_covered(
                self@.selector,
                (#[trigger] self@.ledgers[k])[0],
            )
    }

    /// An empty pool with the given limits.
    pub fn new(config: TxPoolConfig) -> (out: Self)
        ensures
            out.wf(),
            out@.capacity == config.capacity,
            out@.max_account_slots == config.max_account_slots,
            out@.ledgers.len() == 0,
            out@.selector.len() == 0,
            out@.occupancy == 0,
            out@.current(),
    {
        let out = TxPool {
            config,
            per_account: Vec::new(),
            global_queue: PrioritySelector::new(),
            total_txs: 0,
        };
        assert(out@.ledgers =~= Seq::empty());
        out
    }

    /// The limits the pool was built with.
    pub fn config(&self) -> (out: TxPoolConfig)
        ensures
            out.capacity == self@.capacity,
            out.max_account_slots == self@.max_account_slots,
    {
        self.config
    }

    /// The running count of pooled transactions.
    pub fn total_txs(&self) -> (out: usize)
        ensures
            out == self@.occupancy,
    {
        self.total_txs
    }

    /// Number of senders that hold a ledger.
    pub fn account_count(&self) -> (out: usize)
        ensures
            out == self@.ledgers.len(),
    {
        self.per_account.len()
    }

    /// Number of selector entries, stale ones included.
    pub fn selector_len(&self) -> (out: usize)
        ensures
            out == self@.selector.len(),
    {
        self.global_queue.len()
    }

    /// A copy of the entry at the top of the selector, if there is one.
    pub fn selector_head(&self) -> (out: Option<QueuedTx>)
        ensures
            self@.selector.len() == 0 ==> out is None,
            self@.selector.len() > 0 ==> out == Some(self@.selector[top_index(self@.selector)]),
    {
        self.global_queue.peek()
    }

    /// A copy of the ledger of `sender`, in nonce order; `None` where the
    /// sender holds nothing.
    pub fn account_queue(&self, sender: &str) -> (out: Option<Vec<PendingTransaction>>)
        requires
            self.wf(),
        ensures
            match out {
                Some(ledger) => has_account(self@.ledgers, sender@) && ledger@ == ledger_of(
                    self@.ledgers,
                    sender@,
                ),
                None => !has_account(self@.ledgers, sender@),
            },
    {
        proof {
            assert forall|i: int| 0 <= i < self@.ledgers.len() implies (
            #[trigger] self.per_account@[i])@.len() > 0 by {
                assert(ledger_wf(self@.ledgers[i], self@.max_account_slots));
            }
        }
        let owned = sender.to_owned();
        match find_account(&self.per_account, &owned) {
            None => None,
            Some(i) => {
                proof {
                    lemma_account_index(self@.ledgers, i as int);
                }
                let ledger = &self.per_account[i];
                let mut copy: Vec<PendingTransaction> = Vec::new();
                let mut j: usize = 0;
                while j < ledger.len()
                    invariant
                        j <= ledger@.len(),
                        copy@ == ledger@.take(j as int),
                    decreases ledger@.len() - j,
                {
                    copy.push(ledger[j].clone());
                    j += 1;
                    assert(ledger@.take(j as int) =~= ledger@.take(j - 1).push(ledger@[j - 1]));
                }
                assert(ledger@.take(j as int) =~= ledger@);
                Some(copy)
            },
        }
    }

    /// The senders that hold a ledger, in the order the ledgers were opened.
    pub fn senders(&self) -> (out: Vec<String>)
        requires
            self.wf(),
        ensures
            out@.len() == self@.ledgers.len(),
            forall|i: int| 0 <= i < out@.len() ==> (#[trigger] out@[i])@ == sender_at(self@.ledgers, i),
    {
        let mut out: Vec<String> = Vec::new();
        let mut i: usize = 0;
        while i < self.per_account.len()
            invariant
                self.wf(),
                i <= self.per_account@.len(),
                out@.len() == i,
                forall|k: int| 0 <= k < i ==> (#[trigger] out@[k])@ == sender_at(self@.ledgers, k),
            decreases self.per_account@.len() - i,
        {
            assert(ledger_wf(self@.ledgers[i as int], self@.max_account_slots));
            out.push(self.per_account[i][0].sender.clone());
            i += 1;
        }
        out
    }

    /// Removes the head of ledger `i`, keeps the count, drops the ledger if
    /// it became empty and otherwise publishes its new head.
    fn take_head(&mut self, i: usize) -> (tx: PendingTransaction)
        requires
            old(self).wf_but_cover(i as int),
        ensures
            tx == old(self)@.ledgers[i as int][0],
            final(self)@.ledgers == pop_head(old(self)@.ledgers, i as int),
            final(self)@.occupancy == old(self)@.occupancy - 1,
            final(self)@.same_limits(old(self)@),
            final(self).wf(),
            old(self)@.current() ==> final(self)@.current(),
            final(self)@.selector.len() <= old(self)@.selector.len() + 1,
    {
        let ghost pre = self@;
        proof {
            lemma_total_len_bounds(pre.ledgers, i as int);
            lemma_pop_head_wf(pre.ledgers, i as int, pre.max_account_slots);
            assert(ledger_wf(pre.ledgers[i as int], pre.max_account_slots));
        }
        let popped = self.per_account[i].pop_front();
        let tx = popped.unwrap();
        self.total_txs = self.total_txs - 1;
        if self.per_account[i].len() == 0 {
            self.per_account.remove(i);
            proof {
                assert(self@.ledgers =~= pop_head(pre.ledgers, i as int));
                assert forall|k: int| 0 <= k < self@.ledgers.len() implies head_covered(
                    self@.selector,
                    (#[trigger] self@.ledgers[k])[0],
                ) by {
                    let k0 = if k < i { k } else { k + 1 };
                    assert(self@.ledgers[k] == pre.ledgers[k0]);
                }
                if pre.current() {
                    lemma_current_after_pop_head(pre.ledgers, pre.selector, i as int);
                }
            }
        } else {
            let snapshot = QueuedTx::new(self.per_account[i][0].clone());
            self.global_queue.push(snapshot);
            proof {
                let after = pop_head(pre.ledgers, i as int);
                assert(self@.ledgers =~= after);
                assert forall|k: int| 0 <= k < after.len() implies head_covered(
                    self@.selector,
                    (#[trigger] after[k])[0],
                ) by {
                    if k == i {
                        lemma_cover_by_pushed(pre.selector, snapshot, after[k][0]);
                    } else {
                        assert(after[k] == pre.ledgers[k]);
                        lemma_cover_survives_push(pre.selector, snapshot, after[k][0]);
                    }
                }
                if pre.current() {
                    lemma_current_after_pop_head(pre.ledgers, pre.selector, i as int);
                    lemma_current_after_push(
                        after,
                        pre.selector,
                        pre.max_account_slots,
                        i as int,
                        0,
                        snapshot,
                    );
                }
            }
        }
        tx
    }

    /// Empties the selector: stale entries are dropped for good, fresh ones
    /// are handed back in the order in which they were read.
    fn collect_fresh(&mut self) -> (buffer: Vec<QueuedTx>)
        requires
            old(self).wf(),
        ensures
            final(self)@.ledgers == old(self)@.ledgers,
            final(self)@.occupancy == old(self)@.occupancy,
            final(self)@.same_limits(old(self)@),
            final(self)@.selector.len() == 0,
            selector_keyed(buffer@),
            heads_covered(old(self)@.ledgers, buffer@),
            forall|b: int|
                0 <= b < buffer@.len() ==> head_covered_by(
                    old(self)@.ledgers,
                    #[trigger] buffer@[b],
                ),
            old(self)@.current() ==> snapshots_current(old(self)@.ledgers, buffer@),
    {
        let ghost pre = self@;
        let mut buffer: Vec<QueuedTx> = Vec::new();
        proof {
            assert forall|i: int| 0 <= i < pre.ledgers.len() implies (
            #[trigger] self.per_account@[i])@.len() > 0 by {
                assert(ledger_wf(pre.ledgers[i], pre.max_account_slots));
            }
        }
        while !self.global_queue.is_empty()
            invariant
                self@.ledgers == pre.ledgers,
                self@.occupancy == pre.occupancy,
                self@.same_limits(pre),
                forall|i: int|
                    0 <= i < self.per_account@.len() ==> (#[trigger] self.per_account@[i])@.len()
                        > 0,
                distinct_senders(pre.ledgers),
                selector_keyed(self@.selector),
                selector_keyed(buffer@),
                forall|i: int|
                    0 <= i < pre.ledgers.len() ==> head_covered(
                        self@.selector,
                        (#[trigger] pre.ledgers[i])[0],
                    ) || head_covered(buffer@, pre.ledgers[i][0]),
                forall|b: int|
                    0 <= b < buffer@.len() ==> head_covered_by(pre.ledgers, #[trigger] buffer@[b]),
                pre.current() ==> snapshots_current(pre.ledgers, self@.selector)
                    && snapshots_current(pre.ledgers, buffer@),
            decreases self@.selector.len(),
        {
            let ghost entries = self@.selector;
            let ghost buffered = buffer@;
            let ghost top = top_index(entries);
            proof {
                lemma_top_index(entries);
            }
            let queued = self.global_queue.pop().unwrap();
            let fresh = fresh_account(&self.per_account, &queued);
            if fresh.is_some() {
                buffer.push(queued);
            }
            proof {
                lemma_keyed_after_remove(entries, top);
                assert forall|i: int| 0 <= i < pre.ledgers.len() implies head_covered(
                    self@.selector,
                    (#[trigger] pre.ledgers[i])[0],
                ) || head_covered(buffer@, pre.ledgers[i][0]) by {
                    let head = pre.ledgers[i][0];
                    if head_covered(entries, head) {
                        if covers(entries[top], head) {
                            lemma_cover_by_pushed(buffered, queued, head);
                        } else {
                            lemma_cover_survives_remove(entries, top, head);
                        }
                    } else {
                        if fresh.is_some() {
                            lemma_cover_survives_push(buffered, queued, head);
                        }
                    }
                }
                if pre.current() {
                    lemma_current_after_remove(pre.ledgers, entries, top);
                    if fresh.is_some() {
                        assert forall|i2: int, k2: int|
                            0 <= i2 < pre.ledgers.len() && 0 <= k2 < pre.ledgers[i2].len()
                                implies agrees_with(queued, #[trigger] pre.ledgers[i2][k2]) by {
                            assert(agrees_with(entries[top], pre.ledgers[i2][k2]));
                        }
                        lemma_current_after_agreeing_push(pre.ledgers, buffered, queued);
                    }
                }
            }
        }
        proof {
            assert forall|i: int| 0 <= i < pre.ledgers.len() implies head_covered(
                buffer@,
                (#[trigger] pre.ledgers[i])[0],
            ) by {
                assert(head_covered(self@.selector, pre.ledgers[i][0]) || head_covered(
                    buffer@,
                    pre.ledgers[i][0],
                ));
            }
        }
        buffer
    }

    /// Puts entries back into an emptied selector, in their order.
    fn restore(&mut self, buffer: Vec<QueuedTx>)
        requires
            old(self)@.selector.len() == 0,
        ensures
            final(self)@.selector == buffer@,
            final(self)@.ledgers == old(self)@.ledgers,
            final(self)@.occupancy == old(self)@.occupancy,
            final(self)@.same_limits(old(self)@),
    {
        let ghost pre = self@;
        let ghost all = buffer@;
        assert(self@.selector =~= all.take(0));
        for queued in it: buffer
            invariant
                it.seq() == all,
                self@.selector == all.take(it.index() as int),
                self@.ledgers == pre.ledgers,
                self@.occupancy == pre.occupancy,
                self@.same_limits(pre),
        {
            assert(all.take(it.index() + 1) =~= all.take(it.index() as int).push(queued));
            self.global_queue.push(queued);
        }
        assert(all.take(all.len() as int) =~= all);
    }

    /// Evicts the head that the lowest ranked of the fresh entries names, and
    /// returns the other entries to the emptied selector.
    fn evict_among(&mut self, buffer: Vec<QueuedTx>, Ghost(pre): Ghost<PoolModel>)
        requires
            pre.wf(),
            buffer@.len() > 0,
            old(self)@.ledgers == pre.ledgers,
            old(self)@.occupancy == pre.occupancy,
            old(self)@.same_limits(pre),
            old(self)@.selector.len() == 0,
            selector_keyed(buffer@),
            heads_covered(pre.ledgers, buffer@),
            forall|b: int|
                0 <= b < buffer@.len() ==> head_covered_by(pre.ledgers, #[trigger] buffer@[b]),
            pre.current() ==> snapshots_current(pre.ledgers, buffer@),
        ensures
            final(self).wf(),
            final(self)@.same_limits(pre),
            pre.ledgers.len() > 0,
            exists|i: int|
                {
                    &&& 0 <= i < pre.ledgers.len()
                    &&& final(self)@.ledgers == #[trigger] pop_head(pre.ledgers, i)
                    &&& final(self)@.occupancy == pre.occupancy - 1
                    &&& pre.current() ==> is_lowest_head(pre.ledgers, i)
                },
            pre.current() ==> final(self)@.current(),
    {
        let mut buffer = buffer;
        let lowest_idx = lowest_index(&buffer);
        let ghost fresh_entries = buffer@;
        let lowest = buffer.remove(lowest_idx);
        let ghost kept = buffer@;
        self.restore(buffer);
        proof {
            assert forall|i: int| 0 <= i < pre.ledgers.len() implies (
            #[trigger] self.per_account@[i])@.len() > 0 by {
                assert(ledger_wf(pre.ledgers[i], pre.max_account_slots));
            }
            assert(head_covered_by(pre.ledgers, fresh_entries[lowest_idx as int]));
        }
        let found = fresh_account(&self.per_account, &lowest);
        let account = found.unwrap();
        proof {
            lemma_keyed_after_remove(fresh_entries, lowest_idx as int);
            lemma_others_stay_covered(
                pre.ledgers,
                pre.max_account_slots,
                fresh_entries,
                lowest_idx as int,
                account as int,
            );
            if pre.current() {
                lemma_current_after_remove(pre.ledgers, fresh_entries, lowest_idx as int);
                lemma_lowest_entry_names_lowest_head(
                    pre.ledgers,
                    pre.max_account_slots,
                    fresh_entries,
                    lowest_idx as int,
                    account as int,
                );
            }
            assert(self.wf_but_cover(account as int));
        }
        let _evicted = self.take_head(account);
        assert(self@.ledgers == pop_head(pre.ledgers, account as int));
    }

    /// Frees one slot under capacity pressure. Every selector entry is read:
    /// stale ones are dropped for good, and of the fresh ones the lowest
    /// ranked (smallest key, larger nonce among equal keys) names the ledger
    /// whose head leaves the pool; the others return to the selector.
    fn evict_lowest_priority(&mut self)
        requires
            old(self).wf(),
        ensures
            final(self).wf(),
            final(self)@.same_limits(old(self)@),
            evicted_one(old(self)@, final(self)@),
    {
        let ghost pre = self@;
        let buffer = self.collect_fresh();
        if buffer.len() == 0 {
            proof {
                if pre.ledgers.len() > 0 {
                    assert(head_covered(buffer@, pre.ledgers[0][0]));
                }
                assert(pre.ledgers.len() == 0);
                assert(self@.selector.len() == 0);
                assert(heads_covered(self@.ledgers, self@.selector));
                assert(snapshots_current(self@.ledgers, self@.selector));
            }
        } else {
            self.evict_among(buffer, Ghost(pre));
        }
    }

    /// Admits `tx`, or says why not.
    ///
    /// The checks come in this order: a nonce the sender already holds, a
    /// full ledger (or no ledger allowed at all), a full pool. A full pool
    /// rejects the transaction even though it evicts its lowest ranked head
    /// on the way: the room is for a later arrival.
    pub fn insert(&mut self, tx: PendingTransaction) -> (res: Result<(), TxInsertError>)
        requires
            old(self).wf(),
        ensures
            final(self).wf(),
            final(self)@.same_limits(old(self)@),
            holds_nonce(ledger_of(old(self)@.ledgers, tx.sender@), tx.nonce) ==> (
            res matches Err(TxInsertError::DuplicateNonce { .. })) && *final(self) == *old(self),
            old(self)@.current() && admits(old(self)@.selector, tx) ==> final(self)@.current(),
            match res {
                Err(TxInsertError::DuplicateNonce { sender, nonce }) => {
                    &&& holds_nonce(ledger_of(old(self)@.ledgers, tx.sender@), tx.nonce)
                    &&& sender@ == tx.sender@
                    &&& nonce == tx.nonce
                    &&& *final(self) == *old(self)
                },
                Err(TxInsertError::AccountLimitReached { sender }) => {
                    &&& !holds_nonce(ledger_of(old(self)@.ledgers, tx.sender@), tx.nonce)
                    &&& ledger_of(old(self)@.ledgers, tx.sender@).len() >= old(
                        self,
                    )@.max_account_slots
                    &&& sender@ == tx.sender@
                    &&& *final(self) == *old(self)
                },
                Err(TxInsertError::PoolFull) => {
                    &&& !holds_nonce(ledger_of(old(self)@.ledgers, tx.sender@), tx.nonce)
                    &&& ledger_of(old(self)@.ledgers, tx.sender@).len() < old(
                        self,
                    )@.max_account_slots
                    &&& old(self)@.occupancy >= old(self)@.capacity
                    &&& evicted_one(old(self)@, final(self)@)
                },
                Ok(_) => {
                    &&& !holds_nonce(ledger_of(old(self)@.ledgers, tx.sender@), tx.nonce)
                    &&& ledger_of(old(self)@.ledgers, tx.sender@).len() < old(
                        self,
                    )@.max_account_slots
                    &&& old(self)@.occupancy < old(self)@.capacity
                    &&& final(self)@.ledgers == with_inserted(old(self)@.ledgers, tx)
                    &&& final(self)@.selector == selector_after_insert(
                        old(self)@.ledgers,
                        old(self)@.selector,
                        tx,
                    )
                    &&& final(self)@.occupancy == old(self)@.occupancy + 1
                },
            },
    {
        let ghost pre = self@;
        let sender = tx.sender.clone();
        proof {
            assert forall|i: int| 0 <= i < pre.ledgers.len() implies (
            #[trigger] self.per_account@[i])@.len() > 0 by {
                assert(ledger_wf(pre.ledgers[i], pre.max_account_slots));
            }
        }
        let found = find_account(&self.per_account, &sender);
        match found {
            Some(i) => {
                proof {
                    lemma_account_index(pre.ledgers, i as int);
                }
                if has_nonce(&self.per_account[i], tx.nonce) {
                    return Err(TxInsertError::DuplicateNonce { sender, nonce: tx.nonce });
                }
                if self.per_account[i].len() >= self.config.max_account_slots {
                    return Err(TxInsertError::AccountLimitReached { sender });
                }
            },
            None => {
                if self.config.max_account_slots == 0 {
                    return Err(TxInsertError::AccountLimitReached { sender });
                }
            },
        }
        if self.total_txs >= self.config.capacity {
            self.evict_lowest_priority();
            return Err(TxInsertError::PoolFull);
        }
        proof {
            lemma_insert_wf(pre.ledgers, pre.selector, tx, pre.max_account_slots);
        }
        match found {
            Some(i) => {
                let pos = insert_position(&self.per_account[i], tx.nonce);
                if pos == 0 {
                    let snapshot = QueuedTx::new(tx.clone());
                    self.per_account[i].insert(pos, tx);
                    self.global_queue.push(snapshot);
                } else {
                    self.per_account[i].insert(pos, tx);
                }
            },
            None => {
                let snapshot = QueuedTx::new(tx.clone());
                let mut ledger: VecDeque<PendingTransaction> = VecDeque::new();
                ledger.push_back(tx);
                self.per_account.push(ledger);
                self.global_queue.push(snapshot);
                assert(ledger@ =~= seq![tx]);
            },
        }
        self.total_txs = self.total_txs + 1;
        assert(self@.ledgers =~= with_inserted(pre.ledgers, tx));
        proof {
            if pre.current() && admits(pre.selector, tx) {
                lemma_insert_keeps_snapshots_current(
                    pre.ledgers,
                    pre.max_account_slots,
                    pre.selector,
                    tx,
                );
            }
        }
        Ok(())
    }

    /// Drains up to `limit` transactions, best first.
    ///
    /// Selector entries are read from the top. A stale one is dropped; a
    /// fresh one names the ledger whose head is drained, and the next head of
    /// that ledger is published at once. The result is ordered by priority
    /// key, highest first, and by nonce among equal keys.
    pub fn pop_batch(&mut self, limit: usize) -> (res: PopResult)
        requires
            old(self).wf(),
        ensures
            final(self).wf(),
            final(self)@.same_limits(old(self)@),
            limit == 0 ==> *final(self) == *old(self),
            drain_outcome(old(self)@, final(self)@, limit, res),
    {
        if limit == 0 {
            return PopResult::Empty;
        }
        let ghost pre = self@;
        let ghost mut picks: Seq<int> = Seq::empty();
        let mut drained: Vec<PendingTransaction> = Vec::new();
        while drained.len() < limit && !self.global_queue.is_empty()
            invariant
                self.wf(),
                self@.same_limits(pre),
                valid_picks(pre.ledgers, picks),
                self@.ledgers == after_picks(pre.ledgers, picks),
                drained@ == drained_by(pre.ledgers, picks),
                picks.len() == drained@.len(),
                drained@.len() <= limit,
                self@.occupancy + drained@.len() == pre.occupancy,
                pre.current() ==> self@.current() && best_picks(pre.ledgers, picks),
            decreases limit - drained@.len(), self@.selector.len(),
        {
            let ghost now = self@;
            let ghost top = top_index(now.selector);
            proof {
                lemma_top_index(now.selector);
                assert forall|i: int| 0 <= i < now.ledgers.len() implies (
                #[trigger] self.per_account@[i])@.len() > 0 by {
                    assert(ledger_wf(now.ledgers[i], now.max_account_slots));
                }
            }
            let queued = self.global_queue.pop().unwrap();
            let fresh = fresh_account(&self.per_account, &queued);
            proof {
                lemma_keyed_after_remove(now.selector, top);
                if now.current() {
                    lemma_current_after_remove(now.ledgers, now.selector, top);
                }
            }
            match fresh {
                None => {
                    proof {
                        lemma_all_stay_covered(now.ledgers, now.selector, top);
                    }
                },
                Some(account) => {
                    proof {
                        lemma_others_stay_covered(
                            now.ledgers,
                            now.max_account_slots,
                            now.selector,
                            top,
                            account as int,
                        );
                        if pre.current() {
                            lemma_top_entry_names_best_head(
                                now.ledgers,
                                now.max_account_slots,
                                now.selector,
                                top,
                                account as int,
                            );
                        }
                    }
                    let tx = self.take_head(account);
                    drained.push(tx);
                    proof {
                        let longer = picks.push(account as int);
                        assert(longer.drop_last() =~= picks);
                        picks = longer;
                    }
                },
            }
        }
        proof {
            if self@.ledgers.len() > 0 && self@.selector.len() == 0 {
                assert(head_covered(self@.selector, self@.ledgers[0][0]));
            }
            if self@.ledgers.len() == 0 {
                assert(total_len(self@.ledgers) == 0);
            }
        }
        if drained.len() == 0 {
            proof {
                assert(picks =~= Seq::empty());
                assert(self@.ledgers == pre.ledgers);
                assert(self@.selector.len() == 0);
                if self@.ledgers.len() > 0 {
                    assert(head_covered(self@.selector, self@.ledgers[0][0]));
                }
                assert(self@.ledgers.len() == 0);
                assert(total_len(self@.ledgers) == 0);
                assert(pre.occupancy == 0);
            }
            let res = PopResult::Empty;
            assert(drain_outcome(pre, self@, limit, res));
            res
        } else {
            let ghost in_order = drained@;
            let sorted = sort_for_schedule(drained);
            proof {
                assert(sorted@.to_multiset() == in_order.to_multiset());
                assert(drained_as(pre, self@, picks, sorted@));
                lemma_reordered_precede_remaining(
                    pre.ledgers,
                    pre.max_account_slots,
                    picks,
                    sorted@,
                );
            }
            let res = PopResult::Batch { drained: sorted };
            assert(drain_outcome(pre, self@, limit, res));
            res
        }
    }
}

} // verus!
