//! What holds of every pool, stated over the model: the invariants per
//! sender, and what a drain or an eviction can and cannot take.

use vstd::prelude::*;
use crate::tx_pool::types::{PendingTransaction, QueuedTx};
use crate::tx_pool::model::{
    PoolModel, account_index, admits, after_picks, agrees_with, drained_by, first_above,
    has_account, holds_nonce, ledger_of, ledger_wf, ledgers_wf, lemma_account_index,
    lemma_first_above_splits, nonce_ordered, one_sender, pop_head, selector_after_insert,
    sender_at, snapshots_current, total_len, valid_picks, with_inserted,
};
use crate::tx_pool::invariants::{lemma_current_after_agreeing_push, lemma_pop_head_wf};

verus! {

/// In a consistent pool every sender's ledger is strictly ascending by
/// nonce, of one sender and within the slot limit; the running count is the
/// sum of the ledger lengths and within the capacity.
pub proof fn lemma_pool_invariants(pool: PoolModel, sender: Seq<char>)
    requires
        pool.wf(),
    ensures
        nonce_ordered(ledger_of(pool.ledgers, sender)),
        one_sender(ledger_of(pool.ledgers, sender)),
        ledger_of(pool.ledgers, sender).len() <= pool.max_account_slots,
        has_account(pool.ledgers, sender) ==> ledger_of(pool.ledgers, sender).len() > 0
            && ledger_of(pool.ledgers, sender)[0].sender@ == sender,
        pool.occupancy == total_len(pool.ledgers),
        pool.occupancy <= pool.capacity,
{
    if has_account(pool.ledgers, sender) {
        let i = account_index(pool.ledgers, sender);
        assert(sender_at(pool.ledgers, i) == sender);
        assert(ledger_wf(pool.ledgers[i], pool.max_account_slots));
    }
}

/// After the head of ledger `i` left, the ledger of its sender is what stood
/// behind that head, and every other sender's ledger is as before.
pub proof fn lemma_pop_head_ledger_of(
    ledgers: Seq<Seq<PendingTransaction>>,
    max_account_slots: nat,
    i: int,
    sender: Seq<char>,
)
    requires
        ledgers_wf(ledgers, max_account_slots),
        0 <= i < ledgers.len(),
    ensures
        ledger_of(pop_head(ledgers, i), sender) == (if sender == sender_at(ledgers, i) {
            ledgers[i].drop_first()
        } else {
            ledger_of(ledgers, sender)
        }),
{
    let after = pop_head(ledgers, i);
    lemma_pop_head_wf(ledgers, i, max_account_slots);
    assert(ledger_wf(ledgers[i], max_account_slots));
    let dropped = ledgers[i].len() <= 1;
    assert forall|k: int| 0 <= k < after.len() implies #[trigger] sender_at(after, k)
        == sender_at(ledgers, if dropped && k >= i { k + 1 } else { k }) by {
        if dropped {
            let k0 = if k < i { k } else { k + 1 };
            assert(after[k] == ledgers[k0]);
        } else if k == i {
            assert(after[i][0] == ledgers[i][1]);
        } else {
            assert(after[k] == ledgers[k]);
        }
    }
    if sender == sender_at(ledgers, i) {
        if dropped {
            if has_account(after, sender) {
                let k = account_index(after, sender);
                let k0 = if k < i { k } else { k + 1 };
                assert(sender_at(after, k) == sender_at(ledgers, k0));
                if k0 < i {
                    assert(sender_at(ledgers, k0) != sender_at(ledgers, i));
                } else {
                    assert(sender_at(ledgers, i) != sender_at(ledgers, k0));
                }
            }
            assert(ledgers[i].drop_first() =~= Seq::empty());
        } else {
            assert(sender_at(after, i) == sender);
            lemma_account_index(after, i);
        }
    } else {
        if has_account(ledgers, sender) {
            let j = account_index(ledgers, sender);
            assert(sender_at(ledgers, j) == sender);
            let j1 = if dropped && j > i { j - 1 } else { j };
            assert(after[j1] == ledgers[j]);
            assert(sender_at(after, j1) == sender);
            lemma_account_index(after, j1);
        } else {
            if has_account(after, sender) {
                let k = account_index(after, sender);
                let k0 = if dropped && k >= i { k + 1 } else { k };
                assert(sender_at(after, k) == sender_at(ledgers, k0));
                assert(sender_at(ledgers, k0) == sender);
            }
        }
    }
}

/// Picks that are valid leave well-formed ledgers, with one transaction
/// fewer for each pick.
pub proof fn lemma_after_picks_wf(
    ledgers: Seq<Seq<PendingTransaction>>,
    max_account_slots: nat,
    picks: Seq<int>,
)
    requires
        ledgers_wf(ledgers, max_account_slots),
        valid_picks(ledgers, picks),
    ensures
        ledgers_wf(after_picks(ledgers, picks), max_account_slots),
        total_len(after_picks(ledgers, picks)) + picks.len() == total_len(ledgers),
        drained_by(ledgers, picks).len() == picks.len(),
    decreases picks.len(),
{
    if picks.len() > 0 {
        lemma_after_picks_wf(ledgers, max_account_slots, picks.drop_last());
        lemma_pop_head_wf(
            after_picks(ledgers, picks.drop_last()),
            picks.last(),
            max_account_slots,
        );
    }
}

/// A drain takes from the front only: what is left of a sender's ledger is
/// the old ledger without its first `n` transactions, for some `n`.
pub proof fn lemma_drain_leaves_suffixes(
    ledgers: Seq<Seq<PendingTransaction>>,
    max_account_slots: nat,
    picks: Seq<int>,
    sender: Seq<char>,
) -> (n: int)
    requires
        ledgers_wf(ledgers, max_account_slots),
        valid_picks(ledgers, picks),
    ensures
        0 <= n <= ledger_of(ledgers, sender).len(),
        ledger_of(after_picks(ledgers, picks), sender) == ledger_of(ledgers, sender).skip(n),
    decreases picks.len(),
{
    let before = ledger_of(ledgers, sender);
    if picks.len() == 0 {
        assert(before.skip(0) =~= before);
        0
    } else {
        let earlier = picks.drop_last();
        let n = lemma_drain_leaves_suffixes(ledgers, max_account_slots, earlier, sender);
        let mid = after_picks(ledgers, earlier);
        lemma_after_picks_wf(ledgers, max_account_slots, earlier);
        lemma_pop_head_ledger_of(mid, max_account_slots, picks.last(), sender);
        if sender == sender_at(mid, picks.last()) {
            lemma_account_index(mid, picks.last());
            assert(ledger_wf(mid[picks.last()], max_account_slots));
            assert(before.skip(n).drop_first() =~= before.skip(n + 1));
            n + 1
        } else {
            n
        }
    }
}

/// A drained transaction was the head of its ledger when it left: whatever
/// its sender still holds afterwards has a greater nonce. So no transaction
/// leaves while an earlier one of the same sender remains.
pub proof fn lemma_drained_precede_remaining(
    ledgers: Seq<Seq<PendingTransaction>>,
    max_account_slots: nat,
    picks: Seq<int>,
)
    requires
        ledgers_wf(ledgers, max_account_slots),
        valid_picks(ledgers, picks),
    ensures
        forall|a: int, k: int|
            #![trigger drained_by(ledgers, picks)[a], ledger_of(after_picks(ledgers, picks), drained_by(ledgers, picks)[a].sender@)[k]]
            0 <= a < drained_by(ledgers, picks).len() && 0 <= k < ledger_of(
                after_picks(ledgers, picks),
                drained_by(ledgers, picks)[a].sender@,
            ).len() ==> drained_by(ledgers, picks)[a].nonce < ledger_of(
                after_picks(ledgers, picks),
                drained_by(ledgers, picks)[a].sender@,
            )[k].nonce,
    decreases picks.len(),
{
    if picks.len() > 0 {
        let earlier = picks.drop_last();
        let mid = after_picks(ledgers, earlier);
        let last = picks.last();
        let after = after_picks(ledgers, picks);
        let drained = drained_by(ledgers, picks);
        lemma_drained_precede_remaining(ledgers, max_account_slots, earlier);
        lemma_after_picks_wf(ledgers, max_account_slots, earlier);
        assert(ledger_wf(mid[last], max_account_slots));
        assert forall|a: int, k: int|
            0 <= a < drained.len() && 0 <= k < ledger_of(after, drained[a].sender@).len()
                implies drained[a].nonce < ledger_of(after, drained[a].sender@)[k].nonce by {
            let sender = drained[a].sender@;
            lemma_pop_head_ledger_of(mid, max_account_slots, last, sender);
            if a == drained.len() - 1 {
                assert(drained[a] == mid[last][0]);
                assert(ledger_of(after, sender)[k] == mid[last][k + 1]);
            } else {
                assert(drained[a] == drained_by(ledgers, earlier)[a]);
                if sender == sender_at(mid, last) {
                    lemma_account_index(mid, last);
                    assert(ledger_of(after, sender)[k] == ledger_of(mid, sender)[k + 1]);
                }
            }
        }
    }
}

/// The same holds of the drained transactions in any other order.
pub proof fn lemma_reordered_precede_remaining(
    ledgers: Seq<Seq<PendingTransaction>>,
    max_account_slots: nat,
    picks: Seq<int>,
    reordered: Seq<PendingTransaction>,
)
    requires
        ledgers_wf(ledgers, max_account_slots),
        valid_picks(ledgers, picks),
        reordered.to_multiset() == drained_by(ledgers, picks).to_multiset(),
    ensures
        forall|a: int, k: int|
            #![trigger reordered[a], ledger_of(after_picks(ledgers, picks), reordered[a].sender@)[k]]
            0 <= a < reordered.len() && 0 <= k < ledger_of(
                after_picks(ledgers, picks),
                reordered[a].sender@,
            ).len() ==> reordered[a].nonce < ledger_of(
                after_picks(ledgers, picks),
                reordered[a].sender@,
            )[k].nonce,
{
    let in_order = drained_by(ledgers, picks);
    let after = after_picks(ledgers, picks);
    lemma_drained_precede_remaining(ledgers, max_account_slots, picks);
    assert forall|a: int, k: int|
        0 <= a < reordered.len() && 0 <= k < ledger_of(after, reordered[a].sender@).len()
            implies reordered[a].nonce < ledger_of(after, reordered[a].sender@)[k].nonce by {
        let d = reordered[a];
        assert(reordered.contains(d));
        vstd::seq_lib::to_multiset_contains(reordered, d);
        vstd::seq_lib::to_multiset_contains(in_order, d);
        let a0 = choose|a0: int| 0 <= a0 < in_order.len() && in_order[a0] == d;
        assert(in_order[a0].nonce < ledger_of(after, in_order[a0].sender@)[k].nonce);
    }
}

/// The head that leaves ledger `i` has a smaller nonce than everything its
/// sender still holds, and no other ledger changes.
pub proof fn lemma_pop_head_takes_earliest(
    ledgers: Seq<Seq<PendingTransaction>>,
    max_account_slots: nat,
    i: int,
)
    requires
        ledgers_wf(ledgers, max_account_slots),
        0 <= i < ledgers.len(),
    ensures
        forall|k: int|
            0 <= k < ledger_of(pop_head(ledgers, i), sender_at(ledgers, i)).len()
                ==> ledgers[i][0].nonce < (#[trigger] ledger_of(
                pop_head(ledgers, i),
                sender_at(ledgers, i),
            )[k]).nonce,
        forall|sender: Seq<char>|
            sender != sender_at(ledgers, i) ==> #[trigger] ledger_of(pop_head(ledgers, i), sender)
                == ledger_of(ledgers, sender),
{
    assert(ledger_wf(ledgers[i], max_account_slots));
    lemma_pop_head_ledger_of(ledgers, max_account_slots, i, sender_at(ledgers, i));
    assert forall|k: int|
        0 <= k < ledger_of(pop_head(ledgers, i), sender_at(ledgers, i)).len()
            implies ledgers[i][0].nonce < (#[trigger] ledger_of(
        pop_head(ledgers, i),
        sender_at(ledgers, i),
    )[k]).nonce by {
        assert(ledgers[i].drop_first()[k] == ledgers[i][k + 1]);
    }
    assert forall|sender: Seq<char>| sender != sender_at(ledgers, i) implies #[trigger] ledger_of(
        pop_head(ledgers, i),
        sender,
    ) == ledger_of(ledgers, sender) by {
        lemma_pop_head_ledger_of(ledgers, max_account_slots, i, sender);
    }
}

/// An admitted transaction stands in its sender's ledger at its nonce
/// position, and every other sender's ledger is as before.
pub proof fn lemma_with_inserted_ledger_of(
    ledgers: Seq<Seq<PendingTransaction>>,
    max_account_slots: nat,
    tx: PendingTransaction,
    sender: Seq<char>,
)
    requires
        ledgers_wf(ledgers, max_account_slots),
    ensures
        ledger_of(with_inserted(ledgers, tx), sender) == (if sender == tx.sender@ {
            ledger_of(ledgers, sender).insert(
                first_above(ledger_of(ledgers, sender), tx.nonce),
                tx,
            )
        } else {
            ledger_of(ledgers, sender)
        }),
{
    let after = with_inserted(ledgers, tx);
    let known = has_account(ledgers, tx.sender@);
    let i = account_index(ledgers, tx.sender@);
    if known {
        assert(sender_at(ledgers, i) == tx.sender@);
        assert(ledger_wf(ledgers[i], max_account_slots));
        lemma_first_above_splits(ledgers[i], tx.nonce);
    }
    assert forall|k: int| 0 <= k < ledgers.len() implies #[trigger] sender_at(after, k)
        == sender_at(ledgers, k) by {
        if known && k == i {
            let pos = first_above(ledgers[i], tx.nonce);
            if pos > 0 {
                assert(after[i][0] == ledgers[i][0]);
            }
        } else {
            assert(after[k] == ledgers[k]);
        }
    }
    assert forall|a: int, b: int| 0 <= a < b < after.len() implies #[trigger] sender_at(after, a)
        != #[trigger] sender_at(after, b) by {
        if b < ledgers.len() {
            assert(sender_at(ledgers, a) != sender_at(ledgers, b));
        } else {
            assert(sender_at(after, b) == tx.sender@);
            assert(sender_at(ledgers, a) != tx.sender@);
        }
    }
    if sender == tx.sender@ {
        if known {
            assert(sender_at(after, i) == sender);
            lemma_account_index(after, i);
        } else {
            let last = ledgers.len() as int;
            assert(sender_at(after, last) == sender);
            lemma_account_index(after, last);
            assert(Seq::<PendingTransaction>::empty().insert(0, tx) =~= seq![tx]);
        }
    } else {
        if has_account(ledgers, sender) {
            let j = account_index(ledgers, sender);
            assert(sender_at(ledgers, j) == sender);
            assert(after[j] == ledgers[j]);
            assert(sender_at(after, j) == sender);
            lemma_account_index(after, j);
        } else {
            if has_account(after, sender) {
                let k = account_index(after, sender);
                assert(sender_at(after, k) == sender);
                if k < ledgers.len() {
                    assert(sender_at(ledgers, k) == sender);
                }
            }
        }
    }
}

/// A transaction whose hash no selector entry carries is misstated by none.
pub proof fn lemma_new_hash_is_admitted(selector: Seq<QueuedTx>, tx: PendingTransaction)
    requires
        forall|j: int| 0 <= j < selector.len() ==> (#[trigger] selector[j]).tx.hash@ != tx.hash@,
    ensures
        admits(selector, tx),
{
}

/// Admitting a transaction that no selector entry misstates keeps the
/// snapshots current.
pub proof fn lemma_insert_keeps_snapshots_current(
    ledgers: Seq<Seq<PendingTransaction>>,
    max_account_slots: nat,
    selector: Seq<QueuedTx>,
    tx: PendingTransaction,
)
    requires
        ledgers_wf(ledgers, max_account_slots),
        snapshots_current(ledgers, selector),
        admits(selector, tx),
    ensures
        snapshots_current(with_inserted(ledgers, tx), selector),
        !holds_nonce(ledger_of(ledgers, tx.sender@), tx.nonce) ==> snapshots_current(
            with_inserted(ledgers, tx),
            selector_after_insert(ledgers, selector, tx),
        ),
{
    let after = with_inserted(ledgers, tx);
    let known = has_account(ledgers, tx.sender@);
    let i = account_index(ledgers, tx.sender@);
    let pos = if known { first_above(ledgers[i], tx.nonce) } else { 0 };
    if known {
        lemma_first_above_splits(ledgers[i], tx.nonce);
    }
    assert forall|i2: int, k2: int|
        0 <= i2 < after.len() && 0 <= k2 < after[i2].len() implies #[trigger] after[i2][k2] == tx
        || exists|i1: int, k1: int|
        0 <= i1 < ledgers.len() && 0 <= k1 < ledgers[i1].len() && #[trigger] ledgers[i1][k1]
            == after[i2][k2] by {
        if known && i2 == i {
            if k2 < pos {
                assert(ledgers[i][k2] == after[i2][k2]);
            } else if k2 > pos {
                assert(ledgers[i][k2 - 1] == after[i2][k2]);
            }
        } else if i2 < ledgers.len() {
            assert(ledgers[i2][k2] == after[i2][k2]);
        }
    }
    assert forall|j: int, i2: int, k2: int|
        0 <= j < selector.len() && 0 <= i2 < after.len() && 0 <= k2 < after[i2].len()
            implies agrees_with(#[trigger] selector[j], #[trigger] after[i2][k2]) by {
        if after[i2][k2] != tx {
            let (i1, k1) = choose|i1: int, k1: int|
                0 <= i1 < ledgers.len() && 0 <= k1 < ledgers[i1].len() && #[trigger] ledgers[i1][k1]
                    == after[i2][k2];
            assert(agrees_with(selector[j], ledgers[i1][k1]));
        }
    }
    if !holds_nonce(ledger_of(ledgers, tx.sender@), tx.nonce) {
        if first_above(ledger_of(ledgers, tx.sender@), tx.nonce) == 0 {
            let snapshot = QueuedTx { key: tx.key(), tx };
            assert forall|i2: int, k2: int|
                0 <= i2 < after.len() && 0 <= k2 < after[i2].len() implies agrees_with(
                snapshot,
                #[trigger] after[i2][k2],
            ) by {
                if after[i2][k2] != tx {
                    let (i1, k1) = choose|i1: int, k1: int|
                        0 <= i1 < ledgers.len() && 0 <= k1 < ledgers[i1].len()
                            && #[trigger] ledgers[i1][k1] == after[i2][k2];
                    if crate::tx_pool::model::covers(snapshot, ledgers[i1][k1]) {
                        assert(ledger_wf(ledgers[i1], max_account_slots));
                        assert(sender_at(ledgers, i1) == tx.sender@);
                        lemma_account_index(ledgers, i1);
                        assert(ledgers[i1][k1].nonce == tx.nonce);
                        assert(holds_nonce(ledgers[i1], tx.nonce));
                    }
                }
            }
            lemma_current_after_agreeing_push(after, selector, snapshot);
        }
    }
}

} // verus!
