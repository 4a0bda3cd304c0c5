//! Why the pool's invariants survive each step of its operations.

use vstd::prelude::*;
use crate::tx_pool::types::{PendingTransaction, QueuedTx, ranks_below};
use crate::tx_pool::model::{
    account_index, agrees_with, covers, first_above, has_account, head_covered, heads_covered,
    holds_nonce, is_best_head, is_lowest_head, ledger_of, ledger_wf, ledgers_wf,
    lemma_first_above_splits, lemma_total_len_push, lemma_total_len_remove,
    lemma_total_len_update, pop_head, selector_after_insert, selector_keyed, sender_at,
    snapshots_current, total_len, tx_ranks_below, with_inserted,
};

verus! {

/// Removing the head of a ledger keeps the ledgers well formed and lowers
/// the sum of their lengths by one.
pub proof fn lemma_pop_head_wf(
    ledgers: Seq<Seq<PendingTransaction>>,
    i: int,
    max_account_slots: nat,
)
    requires
        ledgers_wf(ledgers, max_account_slots),
        0 <= i < ledgers.len(),
    ensures
        ledgers_wf(pop_head(ledgers, i), max_account_slots),
        total_len(pop_head(ledgers, i)) == total_len(ledgers) - 1,
{
    let after = pop_head(ledgers, i);
    assert(ledger_wf(ledgers[i], max_account_slots));
    if ledgers[i].len() <= 1 {
        lemma_total_len_remove(ledgers, i);
        assert forall|k: int| 0 <= k < after.len() implies ledger_wf(
            #[trigger] after[k],
            max_account_slots,
        ) by {
            let k0 = if k < i { k } else { k + 1 };
            assert(after[k] == ledgers[k0]);
        }
        assert forall|a: int, b: int| 0 <= a < b < after.len() implies #[trigger] sender_at(
            after,
            a,
        ) != #[trigger] sender_at(after, b) by {
            let a0 = if a < i { a } else { a + 1 };
            let b0 = if b < i { b } else { b + 1 };
            assert(sender_at(after, a) == sender_at(ledgers, a0));
            assert(sender_at(after, b) == sender_at(ledgers, b0));
        }
    } else {
        let rest = ledgers[i].drop_first();
        lemma_total_len_update(ledgers, i, rest);
        assert(ledger_wf(rest, max_account_slots)) by {
            assert forall|j: int| 0 <= j < rest.len() implies (#[trigger] rest[j]).sender@
                == rest[0].sender@ by {
                assert(rest[j] == ledgers[i][j + 1]);
                assert(rest[0] == ledgers[i][1]);
            }
            assert forall|j: int, k: int| 0 <= j < k < rest.len() implies rest[j].nonce
                < rest[k].nonce by {
                assert(rest[j] == ledgers[i][j + 1]);
                assert(rest[k] == ledgers[i][k + 1]);
            }
        }
        assert forall|k: int| 0 <= k < after.len() implies ledger_wf(
            #[trigger] after[k],
            max_account_slots,
        ) by {
            if k != i {
                assert(after[k] == ledgers[k]);
            }
        }
        assert(rest[0] == ledgers[i][1]);
        assert forall|a: int, b: int| 0 <= a < b < after.len() implies #[trigger] sender_at(
            after,
            a,
        ) != #[trigger] sender_at(after, b) by {
            assert(sender_at(after, a) == sender_at(ledgers, a));
            assert(sender_at(after, b) == sender_at(ledgers, b));
        }
    }
}

/// A snapshot that is not the cause of a head's cover may leave the selector.
pub proof fn lemma_cover_survives_remove(
    selector: Seq<QueuedTx>,
    t: int,
    head: PendingTransaction,
)
    requires
        head_covered(selector, head),
        0 <= t < selector.len(),
        !covers(selector[t], head),
    ensures
        head_covered(selector.remove(t), head),
{
    let j = choose|j: int| 0 <= j < selector.len() && covers(#[trigger] selector[j], head);
    let shorter = selector.remove(t);
    if j < t {
        assert(covers(shorter[j], head));
    } else {
        assert(shorter[j - 1] == selector[j]);
        assert(covers(shorter[j - 1], head));
    }
}

/// A push leaves every cover in place.
pub proof fn lemma_cover_survives_push(
    selector: Seq<QueuedTx>,
    entry: QueuedTx,
    head: PendingTransaction,
)
    requires
        head_covered(selector, head),
    ensures
        head_covered(selector.push(entry), head),
{
    let j = choose|j: int| 0 <= j < selector.len() && covers(#[trigger] selector[j], head);
    assert(covers(selector.push(entry)[j], head));
}

/// A pushed snapshot covers the transaction it stands for.
pub proof fn lemma_cover_by_pushed(
    selector: Seq<QueuedTx>,
    entry: QueuedTx,
    head: PendingTransaction,
)
    requires
        covers(entry, head),
    ensures
        head_covered(selector.push(entry), head),
{
    assert(covers(selector.push(entry)[selector.len() as int], head));
}

/// In well-formed ledgers sender and nonce name one transaction only, so a
/// snapshot of a pooled transaction misstates none.
pub proof fn lemma_snapshot_agrees(
    ledgers: Seq<Seq<PendingTransaction>>,
    max_account_slots: nat,
    i: int,
    k: int,
    entry: QueuedTx,
)
    requires
        ledgers_wf(ledgers, max_account_slots),
        0 <= i < ledgers.len(),
        0 <= k < ledgers[i].len(),
        entry.tx == ledgers[i][k],
    ensures
        forall|i2: int, k2: int|
            0 <= i2 < ledgers.len() && 0 <= k2 < ledgers[i2].len() ==> agrees_with(
                entry,
                #[trigger] ledgers[i2][k2],
            ),
{
    assert forall|i2: int, k2: int|
        0 <= i2 < ledgers.len() && 0 <= k2 < ledgers[i2].len() implies agrees_with(
        entry,
        #[trigger] ledgers[i2][k2],
    ) by {
        if covers(entry, ledgers[i2][k2]) {
            assert(ledger_wf(ledgers[i], max_account_slots));
            assert(ledger_wf(ledgers[i2], max_account_slots));
            assert(ledgers[i][k].sender@ == sender_at(ledgers, i));
            assert(ledgers[i2][k2].sender@ == sender_at(ledgers, i2));
            if i2 < i {
                assert(sender_at(ledgers, i2) != sender_at(ledgers, i));
            } else if i < i2 {
                assert(sender_at(ledgers, i) != sender_at(ledgers, i2));
            }
            assert(i2 == i);
            if k2 < k {
                assert(ledgers[i][k2].nonce < ledgers[i][k].nonce);
            } else if k < k2 {
                assert(ledgers[i][k].nonce < ledgers[i][k2].nonce);
            }
            assert(k2 == k);
        }
    }
}

/// Pushing an entry that misstates no pooled transaction keeps the snapshots current.
pub proof fn lemma_current_after_agreeing_push(
    ledgers: Seq<Seq<PendingTransaction>>,
    selector: Seq<QueuedTx>,
    entry: QueuedTx,
)
    requires
        snapshots_current(ledgers, selector),
        forall|i2: int, k2: int|
            0 <= i2 < ledgers.len() && 0 <= k2 < ledgers[i2].len() ==> agrees_with(
                entry,
                #[trigger] ledgers[i2][k2],
            ),
    ensures
        snapshots_current(ledgers, selector.push(entry)),
{
    let longer = selector.push(entry);
    assert forall|j: int, i2: int, k2: int|
        0 <= j < longer.len() && 0 <= i2 < ledgers.len() && 0 <= k2 < ledgers[i2].len()
            implies agrees_with(#[trigger] longer[j], #[trigger] ledgers[i2][k2]) by {
        if j < selector.len() {
            assert(agrees_with(selector[j], ledgers[i2][k2]));
        }
    }
}

/// Pushing a snapshot of a pooled transaction keeps the snapshots current.
pub proof fn lemma_current_after_push(
    ledgers: Seq<Seq<PendingTransaction>>,
    selector: Seq<QueuedTx>,
    max_account_slots: nat,
    i: int,
    k: int,
    entry: QueuedTx,
)
    requires
        snapshots_current(ledgers, selector),
        ledgers_wf(ledgers, max_account_slots),
        0 <= i < ledgers.len(),
        0 <= k < ledgers[i].len(),
        entry.tx == ledgers[i][k],
    ensures
        snapshots_current(ledgers, selector.push(entry)),
{
    lemma_snapshot_agrees(ledgers, max_account_slots, i, k, entry);
    let longer = selector.push(entry);
    assert forall|j: int, i2: int, k2: int|
        0 <= j < longer.len() && 0 <= i2 < ledgers.len() && 0 <= k2 < ledgers[i2].len()
            implies agrees_with(#[trigger] longer[j], #[trigger] ledgers[i2][k2]) by {
        if j < selector.len() {
            assert(agrees_with(selector[j], ledgers[i2][k2]));
        }
    }
}

/// Taking an entry out of the selector keeps the snapshots current.
pub proof fn lemma_current_after_remove(
    ledgers: Seq<Seq<PendingTransaction>>,
    selector: Seq<QueuedTx>,
    t: int,
)
    requires
        snapshots_current(ledgers, selector),
        0 <= t < selector.len(),
    ensures
        snapshots_current(ledgers, selector.remove(t)),
{
    let shorter = selector.remove(t);
    assert forall|j: int, i2: int, k2: int|
        0 <= j < shorter.len() && 0 <= i2 < ledgers.len() && 0 <= k2 < ledgers[i2].len()
            implies agrees_with(#[trigger] shorter[j], #[trigger] ledgers[i2][k2]) by {
        let j0 = if j < t { j } else { j + 1 };
        assert(shorter[j] == selector[j0]);
        assert(agrees_with(selector[j0], ledgers[i2][k2]));
    }
}

/// Removing a ledger head keeps the snapshots current.
pub proof fn lemma_current_after_pop_head(
    ledgers: Seq<Seq<PendingTransaction>>,
    selector: Seq<QueuedTx>,
    i: int,
)
    requires
        snapshots_current(ledgers, selector),
        0 <= i < ledgers.len(),
        ledgers[i].len() > 0,
    ensures
        snapshots_current(pop_head(ledgers, i), selector),
{
    let after = pop_head(ledgers, i);
    assert forall|j: int, i2: int, k2: int|
        0 <= j < selector.len() && 0 <= i2 < after.len() && 0 <= k2 < after[i2].len()
            implies agrees_with(#[trigger] selector[j], #[trigger] after[i2][k2]) by {
        if ledgers[i].len() <= 1 {
            let i1 = if i2 < i { i2 } else { i2 + 1 };
            assert(after[i2] == ledgers[i1]);
            assert(agrees_with(selector[j], ledgers[i1][k2]));
        } else if i2 == i {
            assert(after[i2][k2] == ledgers[i][k2 + 1]);
            assert(agrees_with(selector[j], ledgers[i][k2 + 1]));
        } else {
            assert(after[i2] == ledgers[i2]);
            assert(agrees_with(selector[j], ledgers[i2][k2]));
        }
    }
}

/// A transaction with a new nonce, put at its nonce position, leaves the
/// ledger well formed; it becomes the head exactly where that position is 0.
pub proof fn lemma_insert_ledger_wf(
    ledger: Seq<PendingTransaction>,
    tx: PendingTransaction,
    max_account_slots: nat,
)
    requires
        ledger_wf(ledger, max_account_slots),
        ledger.len() < max_account_slots,
        tx.sender@ == ledger[0].sender@,
        !holds_nonce(ledger, tx.nonce),
    ensures
        ledger_wf(ledger.insert(first_above(ledger, tx.nonce), tx), max_account_slots),
        ledger.insert(first_above(ledger, tx.nonce), tx)[0] == (if first_above(ledger, tx.nonce)
            == 0 {
            tx
        } else {
            ledger[0]
        }),
{
    lemma_first_above_splits(ledger, tx.nonce);
    let pos = first_above(ledger, tx.nonce);
    let longer = ledger.insert(pos, tx);
    assert forall|j: int| 0 <= j < ledger.len() implies (#[trigger] ledger[j]).nonce
        != tx.nonce by {}
    assert forall|j: int| 0 <= j < longer.len() implies (#[trigger] longer[j]).sender@
        == longer[0].sender@ by {
        if j < pos {
            assert(longer[j] == ledger[j]);
        } else if j > pos {
            assert(longer[j] == ledger[j - 1]);
        }
    }
    assert forall|j: int, k: int| 0 <= j < k < longer.len() implies longer[j].nonce
        < longer[k].nonce by {
        if j < pos {
            assert(longer[j] == ledger[j]);
        } else if j > pos {
            assert(longer[j] == ledger[j - 1]);
        }
        if k < pos {
            assert(longer[k] == ledger[k]);
        } else if k > pos {
            assert(longer[k] == ledger[k - 1]);
            assert(ledger[pos].nonce <= ledger[k - 1].nonce);
        }
    }
}

/// An admitted transaction leaves the ledgers well formed, raises the sum of
/// their lengths by one, and with its snapshot rule every head stays covered.
pub proof fn lemma_insert_wf(
    ledgers: Seq<Seq<PendingTransaction>>,
    selector: Seq<QueuedTx>,
    tx: PendingTransaction,
    max_account_slots: nat,
)
    requires
        ledgers_wf(ledgers, max_account_slots),
        heads_covered(ledgers, selector),
        !holds_nonce(ledger_of(ledgers, tx.sender@), tx.nonce),
        ledger_of(ledgers, tx.sender@).len() < max_account_slots,
    ensures
        ledgers_wf(with_inserted(ledgers, tx), max_account_slots),
        total_len(with_inserted(ledgers, tx)) == total_len(ledgers) + 1,
        heads_covered(with_inserted(ledgers, tx), selector_after_insert(ledgers, selector, tx)),
{
    let after = with_inserted(ledgers, tx);
    let entries = selector_after_insert(ledgers, selector, tx);
    let snapshot = QueuedTx { key: tx.key(), tx };
    if has_account(ledgers, tx.sender@) {
        let i = account_index(ledgers, tx.sender@);
        assert(sender_at(ledgers, i) == tx.sender@);
        let pos = first_above(ledgers[i], tx.nonce);
        assert(ledger_wf(ledgers[i], max_account_slots));
        lemma_first_above_splits(ledgers[i], tx.nonce);
        lemma_insert_ledger_wf(ledgers[i], tx, max_account_slots);
        lemma_total_len_update(ledgers, i, ledgers[i].insert(pos, tx));
        assert forall|k: int| 0 <= k < after.len() implies ledger_wf(
            #[trigger] after[k],
            max_account_slots,
        ) by {
            if k != i {
                assert(after[k] == ledgers[k]);
            }
        }
        assert forall|a: int, b: int| 0 <= a < b < after.len() implies #[trigger] sender_at(
            after,
            a,
        ) != #[trigger] sender_at(after, b) by {
            assert(sender_at(after, a) == sender_at(ledgers, a));
            assert(sender_at(after, b) == sender_at(ledgers, b));
        }
        assert forall|k: int| 0 <= k < after.len() implies head_covered(
            entries,
            (#[trigger] after[k])[0],
        ) by {
            if k == i && pos == 0 {
                lemma_cover_by_pushed(selector, snapshot, after[k][0]);
            } else {
                assert(after[k][0] == ledgers[k][0]);
                assert(head_covered(selector, ledgers[k][0]));
                if pos == 0 {
                    lemma_cover_survives_push(selector, snapshot, after[k][0]);
                }
            }
        }
    } else {
        lemma_total_len_push(ledgers, seq![tx]);
        assert forall|k: int| 0 <= k < after.len() implies ledger_wf(
            #[trigger] after[k],
            max_account_slots,
        ) by {
            if k < ledgers.len() {
                assert(after[k] == ledgers[k]);
            }
        }
        assert forall|a: int, b: int| 0 <= a < b < after.len() implies #[trigger] sender_at(
            after,
            a,
        ) != #[trigger] sender_at(after, b) by {
            assert(sender_at(after, a) == sender_at(ledgers, a));
            if b < ledgers.len() {
                assert(sender_at(after, b) == sender_at(ledgers, b));
            } else {
                assert(sender_at(after, b) == tx.sender@);
            }
        }
        assert forall|k: int| 0 <= k < after.len() implies head_covered(
            entries,
            (#[trigger] after[k])[0],
        ) by {
            if k < ledgers.len() {
                assert(after[k] == ledgers[k]);
                assert(head_covered(selector, ledgers[k][0]));
                lemma_cover_survives_push(selector, snapshot, after[k][0]);
            } else {
                lemma_cover_by_pushed(selector, snapshot, after[k][0]);
            }
        }
    }
}

/// Taking an entry out leaves the others keyed.
pub proof fn lemma_keyed_after_remove(selector: Seq<QueuedTx>, t: int)
    requires
        selector_keyed(selector),
        0 <= t < selector.len(),
    ensures
        selector_keyed(selector.remove(t)),
{
    let shorter = selector.remove(t);
    assert forall|j: int| 0 <= j < shorter.len() implies (#[trigger] shorter[j]).keyed() by {
        let j0 = if j < t { j } else { j + 1 };
        assert(shorter[j] == selector[j0]);
    }
}

/// The entry that covers the head of one ledger covers the head of no other,
/// so without it the heads of all other ledgers stay covered.
pub proof fn lemma_others_stay_covered(
    ledgers: Seq<Seq<PendingTransaction>>,
    max_account_slots: nat,
    selector: Seq<QueuedTx>,
    t: int,
    account: int,
)
    requires
        ledgers_wf(ledgers, max_account_slots),
        heads_covered(ledgers, selector),
        0 <= t < selector.len(),
        0 <= account < ledgers.len(),
        covers(selector[t], ledgers[account][0]),
    ensures
        forall|i: int|
            0 <= i < ledgers.len() && i != account ==> head_covered(
                selector.remove(t),
                (#[trigger] ledgers[i])[0],
            ),
{
    assert forall|i: int| 0 <= i < ledgers.len() && i != account implies head_covered(
        selector.remove(t),
        (#[trigger] ledgers[i])[0],
    ) by {
        assert(head_covered(selector, ledgers[i][0]));
        if i < account {
            assert(sender_at(ledgers, i) != sender_at(ledgers, account));
        } else {
            assert(sender_at(ledgers, account) != sender_at(ledgers, i));
        }
        lemma_cover_survives_remove(selector, t, ledgers[i][0]);
    }
}

/// A stale entry covers no head, so without it every head stays covered.
pub proof fn lemma_all_stay_covered(
    ledgers: Seq<Seq<PendingTransaction>>,
    selector: Seq<QueuedTx>,
    t: int,
)
    requires
        heads_covered(ledgers, selector),
        0 <= t < selector.len(),
        forall|i: int| 0 <= i < ledgers.len() ==> !covers(selector[t], (#[trigger] ledgers[i])[0]),
    ensures
        heads_covered(ledgers, selector.remove(t)),
{
    assert forall|i: int| 0 <= i < ledgers.len() implies head_covered(
        selector.remove(t),
        (#[trigger] ledgers[i])[0],
    ) by {
        assert(head_covered(selector, ledgers[i][0]));
        lemma_cover_survives_remove(selector, t, ledgers[i][0]);
    }
}

/// While the snapshots are current, a covering entry ranks as the head it covers.
proof fn lemma_entry_ranks_as_head(
    ledgers: Seq<Seq<PendingTransaction>>,
    selector: Seq<QueuedTx>,
    i: int,
) -> (b: int)
    requires
        selector_keyed(selector),
        snapshots_current(ledgers, selector),
        heads_covered(ledgers, selector),
        0 <= i < ledgers.len(),
        ledgers[i].len() > 0,
    ensures
        0 <= b < selector.len(),
        covers(selector[b], ledgers[i][0]),
        selector[b].key == ledgers[i][0].key(),
        selector[b].tx.nonce == ledgers[i][0].nonce,
{
    assert(head_covered(selector, ledgers[i][0]));
    let b = choose|b: int| 0 <= b < selector.len() && covers(#[trigger] selector[b], ledgers[i][0]);
    assert(agrees_with(selector[b], ledgers[i][0]));
    assert(selector[b].keyed());
    b
}

/// While the snapshots are current, an entry that no entry outranks covers a
/// head that no head outranks.
pub proof fn lemma_top_entry_names_best_head(
    ledgers: Seq<Seq<PendingTransaction>>,
    max_account_slots: nat,
    selector: Seq<QueuedTx>,
    t: int,
    account: int,
)
    requires
        ledgers_wf(ledgers, max_account_slots),
        selector_keyed(selector),
        snapshots_current(ledgers, selector),
        heads_covered(ledgers, selector),
        0 <= t < selector.len(),
        forall|j: int| 0 <= j < selector.len() ==> !ranks_below(selector[t], #[trigger] selector[j]),
        0 <= account < ledgers.len(),
        covers(selector[t], ledgers[account][0]),
    ensures
        is_best_head(ledgers, account),
{
    assert(ledger_wf(ledgers[account], max_account_slots));
    assert(agrees_with(selector[t], ledgers[account][0]));
    assert(selector[t].keyed());
    assert forall|i: int| 0 <= i < ledgers.len() implies !tx_ranks_below(
        ledgers[account][0],
        (#[trigger] ledgers[i])[0],
    ) by {
        assert(ledger_wf(ledgers[i], max_account_slots));
        let b = lemma_entry_ranks_as_head(ledgers, selector, i);
        assert(!ranks_below(selector[t], selector[b]));
    }
}

/// While the snapshots are current, an entry that outranks no entry covers a
/// head that outranks no head.
pub proof fn lemma_lowest_entry_names_lowest_head(
    ledgers: Seq<Seq<PendingTransaction>>,
    max_account_slots: nat,
    selector: Seq<QueuedTx>,
    t: int,
    account: int,
)
    requires
        ledgers_wf(ledgers, max_account_slots),
        selector_keyed(selector),
        snapshots_current(ledgers, selector),
        heads_covered(ledgers, selector),
        0 <= t < selector.len(),
        forall|j: int| 0 <= j < selector.len() ==> !ranks_below(#[trigger] selector[j], selector[t]),
        0 <= account < ledgers.len(),
        covers(selector[t], ledgers[account][0]),
    ensures
        is_lowest_head(ledgers, account),
{
    assert(ledger_wf(ledgers[account], max_account_slots));
    assert(agrees_with(selector[t], ledgers[account][0]));
    assert(selector[t].keyed());
    assert forall|i: int| 0 <= i < ledgers.len() implies !tx_ranks_below(
        (#[trigger] ledgers[i])[0],
        ledgers[account][0],
    ) by {
        assert(ledger_wf(ledgers[i], max_account_slots));
        let b = lemma_entry_ranks_as_head(ledgers, selector, i);
        assert(!ranks_below(selector[b], selector[t]));
    }
}

} // verus!
