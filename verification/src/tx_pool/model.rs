//! The mathematical model of the pool: ledgers as sequences of transactions,
//! the selector as a sequence of snapshots, and the invariants that tie them.

use vstd::prelude::*;
use crate::tx_pool::types::{PendingTransaction, PopResult, QueuedTx, key_lt};

verus! {

/// Nonces strictly ascend along the ledger, so none occurs twice.
pub open spec fn nonce_ordered(ledger: Seq<PendingTransaction>) -> bool {
    forall|j: int, k: int| 0 <= j < k < ledger.len() ==> ledger[j].nonce < ledger[k].nonce
}

/// Every transaction of the ledger was signed by the sender of its head.
pub open spec fn one_sender(ledger: Seq<PendingTransaction>) -> bool {
    forall|j: int| 0 <= j < ledger.len() ==> (#[trigger] ledger[j]).sender@ == ledger[0].sender@
}

/// A ledger as the pool keeps it: not empty, within the slot limit, of one
/// sender and ordered by nonce.
pub open spec fn ledger_wf(ledger: Seq<PendingTransaction>, max_account_slots: nat) -> bool {
    &&& 0 < ledger.len() <= max_account_slots
    &&& one_sender(ledger)
    &&& nonce_ordered(ledger)
}

/// The sender whose ledger stands at position `i`.
pub open spec fn sender_at(ledgers: Seq<Seq<PendingTransaction>>, i: int) -> Seq<char> {
    ledgers[i][0].sender@
}

/// No two ledgers belong to the same sender.
pub open spec fn distinct_senders(ledgers: Seq<Seq<PendingTransaction>>) -> bool {
    forall|i: int, k: int|
        0 <= i < k < ledgers.len() ==> #[trigger] sender_at(ledgers, i) != #[trigger] sender_at(
            ledgers,
            k,
        )
}

/// All ledgers are well formed and each sender has at most one.
pub open spec fn ledgers_wf(ledgers: Seq<Seq<PendingTransaction>>, max_account_slots: nat) -> bool {
    &&& forall|i: int| 0 <= i < ledgers.len() ==> ledger_wf(#[trigger] ledgers[i], max_account_slots)
    &&& distinct_senders(ledgers)
}

/// Sum of the ledger lengths.
pub open spec fn total_len(ledgers: Seq<Seq<PendingTransaction>>) -> nat
    decreases ledgers.len(),
{
    if ledgers.len() == 0 {
        0
    } else {
        total_len(ledgers.drop_last()) + ledgers.last().len()
    }
}

/// Whether some ledger belongs to `sender`.
pub open spec fn has_account(ledgers: Seq<Seq<PendingTransaction>>, sender: Seq<char>) -> bool {
    exists|i: int| 0 <= i < ledgers.len() && #[trigger] sender_at(ledgers, i) == sender
}

/// Position of the ledger of `sender`, where there is one.
pub open spec fn account_index(ledgers: Seq<Seq<PendingTransaction>>, sender: Seq<char>) -> int {
    choose|i: int| 0 <= i < ledgers.len() && #[trigger] sender_at(ledgers, i) == sender
}

/// The ledger of `sender`; empty where the sender holds nothing.
pub open spec fn ledger_of(ledgers: Seq<Seq<PendingTransaction>>, sender: Seq<char>) -> Seq<
    PendingTransaction,
> {
    if has_account(ledgers, sender) {
        ledgers[account_index(ledgers, sender)]
    } else {
        Seq::empty()
    }
}

/// Whether the ledger holds a transaction with this nonce.
pub open spec fn holds_nonce(ledger: Seq<PendingTransaction>, nonce: u64) -> bool {
    exists|j: int| 0 <= j < ledger.len() && (#[trigger] ledger[j]).nonce == nonce
}

/// Where a transaction with this nonce lands: before the first entry with a
/// greater nonce, or at the end.
pub open spec fn first_above(ledger: Seq<PendingTransaction>, nonce: u64) -> int
    decreases ledger.len(),
{
    if ledger.len() == 0 || ledger[0].nonce > nonce {
        0
    } else {
        1 + first_above(ledger.drop_first(), nonce)
    }
}

/// The ledgers after `tx` entered: at its nonce position in its sender's
/// ledger, or as the head of a new ledger behind the others.
pub open spec fn with_inserted(
    ledgers: Seq<Seq<PendingTransaction>>,
    tx: PendingTransaction,
) -> Seq<Seq<PendingTransaction>> {
    if has_account(ledgers, tx.sender@) {
        let i = account_index(ledgers, tx.sender@);
        ledgers.update(i, ledgers[i].insert(first_above(ledgers[i], tx.nonce), tx))
    } else {
        ledgers.push(seq![tx])
    }
}

/// The ledgers after the head of ledger `i` left; a ledger that becomes empty
/// is dropped.
pub open spec fn pop_head(ledgers: Seq<Seq<PendingTransaction>>, i: int) -> Seq<
    Seq<PendingTransaction>,
> {
    if ledgers[i].len() <= 1 {
        ledgers.remove(i)
    } else {
        ledgers.update(i, ledgers[i].drop_first())
    }
}

/// `a` is less important than `b`: its key is smaller, or the keys are equal
/// and its nonce is larger.
pub open spec fn tx_ranks_below(a: PendingTransaction, b: PendingTransaction) -> bool {
    key_lt(a.key(), b.key()) || (a.key() == b.key() && a.nonce > b.nonce)
}

/// No head outranks the head of ledger `i`.
pub open spec fn is_best_head(ledgers: Seq<Seq<PendingTransaction>>, i: int) -> bool {
    &&& 0 <= i < ledgers.len()
    &&& forall|k: int|
        0 <= k < ledgers.len() ==> !tx_ranks_below(ledgers[i][0], (#[trigger] ledgers[k])[0])
}

/// The head of ledger `i` outranks no head.
pub open spec fn is_lowest_head(ledgers: Seq<Seq<PendingTransaction>>, i: int) -> bool {
    &&& 0 <= i < ledgers.len()
    &&& forall|k: int|
        0 <= k < ledgers.len() ==> !tx_ranks_below((#[trigger] ledgers[k])[0], ledgers[i][0])
}

/// The snapshot stands for this transaction: sender, hash and nonce agree.
pub open spec fn covers(entry: QueuedTx, tx: PendingTransaction) -> bool {
    entry.tx.same_identity(&tx)
}

/// Some selector entry stands for `head`.
pub open spec fn head_covered(selector: Seq<QueuedTx>, head: PendingTransaction) -> bool {
    exists|j: int| 0 <= j < selector.len() && covers(#[trigger] selector[j], head)
}

/// Every ledger head has a fresh entry somewhere in the selector.
pub open spec fn heads_covered(
    ledgers: Seq<Seq<PendingTransaction>>,
    selector: Seq<QueuedTx>,
) -> bool {
    forall|i: int| 0 <= i < ledgers.len() ==> head_covered(selector, (#[trigger] ledgers[i])[0])
}

/// Every selector entry is ranked by the key of its own snapshot.
pub open spec fn selector_keyed(selector: Seq<QueuedTx>) -> bool {
    forall|j: int| 0 <= j < selector.len() ==> (#[trigger] selector[j]).keyed()
}

/// A snapshot that stands for `tx` carries the priority key of `tx`.
pub open spec fn agrees_with(entry: QueuedTx, tx: PendingTransaction) -> bool {
    covers(entry, tx) ==> entry.tx.key() == tx.key()
}

/// No selector entry misstates a pooled transaction: whenever sender, hash
/// and nonce of a snapshot match a transaction in a ledger, so does the key.
/// This holds as long as a hash is never reused for another priority.
pub open spec fn snapshots_current(
    ledgers: Seq<Seq<PendingTransaction>>,
    selector: Seq<QueuedTx>,
) -> bool {
    forall|j: int, i: int, k: int|
        0 <= j < selector.len() && 0 <= i < ledgers.len() && 0 <= k < ledgers[i].len()
            ==> agrees_with(#[trigger] selector[j], #[trigger] ledgers[i][k])
}

/// No selector entry would misstate `tx` once it is pooled.
pub open spec fn admits(selector: Seq<QueuedTx>, tx: PendingTransaction) -> bool {
    forall|j: int| 0 <= j < selector.len() ==> agrees_with(#[trigger] selector[j], tx)
}

/// What a pool is, apart from how it is stored.
pub struct PoolModel {
    /// Most transactions held at once.
    pub capacity: nat,
    /// Most transactions per sender.
    pub max_account_slots: nat,
    /// One ledger per sender, in the order in which the ledgers were opened.
    pub ledgers: Seq<Seq<PendingTransaction>>,
    /// The selector entries, stale ones included, in the order they were pushed.
    pub selector: Seq<QueuedTx>,
    /// The running count of pooled transactions.
    pub occupancy: nat,
}

impl PoolModel {
    /// The invariants that hold after every completed operation.
    pub open spec fn wf(self) -> bool {
        &&& ledgers_wf(self.ledgers, self.max_account_slots)
        &&& self.occupancy == total_len(self.ledgers)
        &&& self.occupancy <= self.capacity
        &&& heads_covered(self.ledgers, self.selector)
        &&& selector_keyed(self.selector)
    }

    /// See `snapshots_current`.
    pub open spec fn current(self) -> bool {
        snapshots_current(self.ledgers, self.selector)
    }

    /// Same limits as `other`.
    pub open spec fn same_limits(self, other: PoolModel) -> bool {
        self.capacity == other.capacity && self.max_account_slots == other.max_account_slots
    }
}

/// The ledgers after the heads of the ledgers at `picks` left one after another.
pub open spec fn after_picks(ledgers: Seq<Seq<PendingTransaction>>, picks: Seq<int>) -> Seq<
    Seq<PendingTransaction>,
>
    decreases picks.len(),
{
    if picks.len() == 0 {
        ledgers
    } else {
        pop_head(after_picks(ledgers, picks.drop_last()), picks.last())
    }
}

/// Each pick names a ledger that exists when its turn comes.
pub open spec fn valid_picks(ledgers: Seq<Seq<PendingTransaction>>, picks: Seq<int>) -> bool
    decreases picks.len(),
{
    picks.len() == 0 || {
        &&& valid_picks(ledgers, picks.drop_last())
        &&& 0 <= picks.last() < after_picks(ledgers, picks.drop_last()).len()
    }
}

/// Each pick names a ledger whose head no other head outranks when its turn comes.
pub open spec fn best_picks(ledgers: Seq<Seq<PendingTransaction>>, picks: Seq<int>) -> bool
    decreases picks.len(),
{
    picks.len() == 0 || {
        &&& best_picks(ledgers, picks.drop_last())
        &&& is_best_head(after_picks(ledgers, picks.drop_last()), picks.last())
    }
}

/// The heads that left, in the order of the picks.
pub open spec fn drained_by(ledgers: Seq<Seq<PendingTransaction>>, picks: Seq<int>) -> Seq<
    PendingTransaction,
>
    decreases picks.len(),
{
    if picks.len() == 0 {
        Seq::empty()
    } else {
        drained_by(ledgers, picks.drop_last()).push(
            after_picks(ledgers, picks.drop_last())[picks.last()][0],
        )
    }
}

/// Highest key first; among equal keys the smaller nonce first.
pub open spec fn schedule_sorted(txs: Seq<PendingTransaction>) -> bool {
    forall|a: int, b: int| 0 <= a < b < txs.len() ==> !tx_ranks_below(txs[a], txs[b])
}

/// The selector after `tx` entered: a snapshot of `tx` is added where `tx`
/// became the head of its ledger; nothing else changes.
pub open spec fn selector_after_insert(
    ledgers: Seq<Seq<PendingTransaction>>,
    selector: Seq<QueuedTx>,
    tx: PendingTransaction,
) -> Seq<QueuedTx> {
    if first_above(ledger_of(ledgers, tx.sender@), tx.nonce) == 0 {
        selector.push(QueuedTx { key: tx.key(), tx })
    } else {
        selector
    }
}

/// The entry stands for the head of some ledger.
pub open spec fn head_covered_by(ledgers: Seq<Seq<PendingTransaction>>, entry: QueuedTx) -> bool {
    exists|i: int| 0 <= i < ledgers.len() && covers(entry, (#[trigger] ledgers[i])[0])
}

/// What an eviction does to a pool: nothing to the ledgers of an empty pool;
/// otherwise the head of one ledger leaves, and while the snapshots are
/// current it is a head that outranks no other.
pub open spec fn evicted_one(pre: PoolModel, post: PoolModel) -> bool {
    &&& pre.current() ==> post.current()
    &&& if pre.ledgers.len() == 0 {
        post.ledgers == pre.ledgers && post.occupancy == pre.occupancy
    } else {
        exists|i: int|
            {
                &&& 0 <= i < pre.ledgers.len()
                &&& post.ledgers == #[trigger] pop_head(pre.ledgers, i)
                &&& post.occupancy == pre.occupancy - 1
                &&& pre.current() ==> is_lowest_head(pre.ledgers, i)
            }
    }
}

/// What a drain of `drained` does to a pool: the heads named by `picks` left
/// one after another, they are what was drained, and while the snapshots are
/// current each was a head that no other head outranked.
pub open spec fn drained_as(
    pre: PoolModel,
    post: PoolModel,
    picks: Seq<int>,
    drained: Seq<PendingTransaction>,
) -> bool {
    &&& valid_picks(pre.ledgers, picks)
    &&& picks.len() == drained.len()
    &&& post.ledgers == after_picks(pre.ledgers, picks)
    &&& post.occupancy == pre.occupancy - picks.len()
    &&& drained.to_multiset() == drained_by(pre.ledgers, picks).to_multiset()
    &&& pre.current() ==> post.current() && best_picks(pre.ledgers, picks)
}

/// What a drain of up to `limit` transactions returns and leaves behind.
///
/// Nothing comes back where nothing was asked for or nothing is pooled; the
/// ledgers are then as before, and a drain that was asked for something has
/// read the selector to its end. Otherwise as many transactions come back as
/// were asked for, or as there are: the heads that left one after another,
/// ordered by priority key, highest first, and by nonce among equal keys. A
/// drained transaction has a smaller nonce than all that its sender still holds.
pub open spec fn drain_outcome(pre: PoolModel, post: PoolModel, limit: usize, res: PopResult) -> bool {
    match res {
        PopResult::Empty => {
            &&& limit == 0 || pre.occupancy == 0
            &&& post.ledgers == pre.ledgers
            &&& post.occupancy == pre.occupancy
            &&& limit > 0 ==> post.selector.len() == 0
        },
        PopResult::Batch { drained } => {
            &&& limit > 0 && pre.occupancy > 0
            &&& drained@.len() == if limit <= pre.occupancy {
                limit as nat
            } else {
                pre.occupancy
            }
            &&& schedule_sorted(drained@)
            &&& exists|picks: Seq<int>| #[trigger] drained_as(pre, post, picks, drained@)
            &&& forall|a: int, k: int|
                #![trigger drained@[a], ledger_of(post.ledgers, drained@[a].sender@)[k]]
                0 <= a < drained@.len() && 0 <= k < ledger_of(post.ledgers, drained@[a].sender@).len()
                    ==> drained@[a].nonce < ledger_of(post.ledgers, drained@[a].sender@)[k].nonce
        },
    }
}

/// Replacing one ledger changes the sum by the difference of the lengths.
pub proof fn lemma_total_len_update(
    ledgers: Seq<Seq<PendingTransaction>>,
    i: int,
    ledger: Seq<PendingTransaction>,
)
    requires
        0 <= i < ledgers.len(),
    ensures
        total_len(ledgers.update(i, ledger)) == total_len(ledgers) - ledgers[i].len() + ledger.len(),
    decreases ledgers.len(),
{
    let updated = ledgers.update(i, ledger);
    if i == ledgers.len() - 1 {
        assert(updated.drop_last() =~= ledgers.drop_last());
    } else {
        assert(updated.drop_last() =~= ledgers.drop_last().update(i, ledger));
        lemma_total_len_update(ledgers.drop_last(), i, ledger);
    }
}

/// Dropping one ledger lowers the sum by its length.
pub proof fn lemma_total_len_remove(ledgers: Seq<Seq<PendingTransaction>>, i: int)
    requires
        0 <= i < ledgers.len(),
    ensures
        total_len(ledgers.remove(i)) == total_len(ledgers) - ledgers[i].len(),
    decreases ledgers.len(),
{
    let removed = ledgers.remove(i);
    if i == ledgers.len() - 1 {
        assert(removed =~= ledgers.drop_last());
    } else {
        assert(removed.drop_last() =~= ledgers.drop_last().remove(i));
        assert(removed.last() == ledgers.last());
        lemma_total_len_remove(ledgers.drop_last(), i);
    }
}

/// A new ledger raises the sum by its length.
pub proof fn lemma_total_len_push(
    ledgers: Seq<Seq<PendingTransaction>>,
    ledger: Seq<PendingTransaction>,
)
    ensures
        total_len(ledgers.push(ledger)) == total_len(ledgers) + ledger.len(),
{
    assert(ledgers.push(ledger).drop_last() =~= ledgers);
}

/// Each ledger is no longer than the sum, and with no empty ledger the sum
/// is at least the number of ledgers.
pub proof fn lemma_total_len_bounds(ledgers: Seq<Seq<PendingTransaction>>, i: int)
    requires
        0 <= i < ledgers.len(),
    ensures
        ledgers[i].len() <= total_len(ledgers),
    decreases ledgers.len(),
{
    if i < ledgers.len() - 1 {
        lemma_total_len_bounds(ledgers.drop_last(), i);
    }
}

/// With distinct senders, the ledger found for a sender is the only one.
pub proof fn lemma_account_index(ledgers: Seq<Seq<PendingTransaction>>, i: int)
    requires
        distinct_senders(ledgers),
        0 <= i < ledgers.len(),
    ensures
        has_account(ledgers, sender_at(ledgers, i)),
        account_index(ledgers, sender_at(ledgers, i)) == i,
        ledger_of(ledgers, sender_at(ledgers, i)) == ledgers[i],
{
    let found = account_index(ledgers, sender_at(ledgers, i));
    assert(sender_at(ledgers, found) == sender_at(ledgers, i));
    if found < i {
        assert(sender_at(ledgers, found) != sender_at(ledgers, i));
    } else if i < found {
        assert(sender_at(ledgers, i) != sender_at(ledgers, found));
    }
}

/// The position at which a scan stops is `first_above`.
pub proof fn lemma_first_above(ledger: Seq<PendingTransaction>, nonce: u64, pos: int)
    requires
        0 <= pos <= ledger.len(),
        forall|j: int| 0 <= j < pos ==> (#[trigger] ledger[j]).nonce <= nonce,
        pos == ledger.len() || ledger[pos].nonce > nonce,
    ensures
        first_above(ledger, nonce) == pos,
    decreases pos,
{
    if pos > 0 {
        let rest = ledger.drop_first();
        assert(ledger[0].nonce <= nonce);
        assert forall|j: int| 0 <= j < pos - 1 implies (#[trigger] rest[j]).nonce <= nonce by {
            assert(rest[j] == ledger[j + 1]);
        }
        if pos < ledger.len() {
            assert(rest[pos - 1] == ledger[pos]);
        }
        lemma_first_above(rest, nonce, pos - 1);
    }
}

/// `first_above` splits the ledger: everything before it has a nonce that is
/// not greater, and the entry at it, if any, a greater one.
pub proof fn lemma_first_above_splits(ledger: Seq<PendingTransaction>, nonce: u64)
    ensures
        0 <= first_above(ledger, nonce) <= ledger.len(),
        forall|j: int| 0 <= j < first_above(ledger, nonce) ==> (#[trigger] ledger[j]).nonce <= nonce,
        first_above(ledger, nonce) < ledger.len() ==> ledger[first_above(ledger, nonce)].nonce
            > nonce,
    decreases ledger.len(),
{
    if !(ledger.len() == 0 || ledger[0].nonce > nonce) {
        let rest = ledger.drop_first();
        lemma_first_above_splits(rest, nonce);
        let pos = first_above(ledger, nonce);
        assert forall|j: int| 0 <= j < pos implies (#[trigger] ledger[j]).nonce <= nonce by {
            if j > 0 {
                assert(ledger[j] == rest[j - 1]);
            }
        }
        if pos < ledger.len() {
            assert(ledger[pos] == rest[pos - 1]);
        }
    }
}

} // verus!
