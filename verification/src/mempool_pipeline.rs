//! The first stages of a mempool: filtering transactions, grouping them by
//! account and summing up each account.

use vstd::prelude::*;
use vstd::utf8::encode_utf8;
use crate::text::{
    lemma_bytes_less_asymmetric, lemma_bytes_less_total, lemma_bytes_less_transitive,
    string_less, text_less,
};

verus! {

/// How far a transaction has come.
#[derive(Debug, PartialEq, Eq)]
pub enum TxStatus {
    /// Not looked at yet.
    Pending,
    /// Simulated, with the compute units it used.
    Simulated { compute_units: u64 },
    /// Turned down, with the reason.
    Rejected { reason: String },
}

impl Clone for TxStatus {
    fn clone(&self) -> (copy: Self)
        ensures
            copy == *self,
    {
        match self {
            TxStatus::Pending => TxStatus::Pending,
            TxStatus::Simulated { compute_units } => TxStatus::Simulated {
                compute_units: *compute_units,
            },
            TxStatus::Rejected { reason } => TxStatus::Rejected { reason: reason.clone() },
        }
    }
}

/// A transaction waiting in the mempool.
#[derive(Debug, PartialEq, Eq)]
pub struct PendingTx {
    /// Hash of the transaction.
    pub id: String,
    /// Public key of the sender.
    pub account: String,
    /// The fee paid.
    pub fee_micro_lamports: u64,
    /// Size of the serialized transaction in bytes.
    pub payload_size: u32,
    /// How far it has come.
    pub status: TxStatus,
}

impl Clone for PendingTx {
    fn clone(&self) -> (copy: Self)
        ensures
            copy == *self,
    {
        PendingTx {
            id: self.id.clone(),
            account: self.account.clone(),
            fee_micro_lamports: self.fee_micro_lamports,
            payload_size: self.payload_size,
            status: self.status.clone(),
        }
    }
}

/// A rule that decides which transactions may stay in the mempool.
pub trait MempoolFilter {
    /// What the rule admits.
    spec fn allows(&self, tx: &PendingTx) -> bool;

    /// Decides whether `tx` may stay.
    fn allow(&self, tx: &PendingTx) -> (out: bool)
        ensures
            out == self.allows(tx),
    ;
}

/// Admits by thresholds on fee and size, and optionally refuses
/// transactions whose simulation failed.
pub struct ThresholdFilter {
    /// The least fee admitted.
    pub min_fee: u64,
    /// The largest payload admitted.
    pub max_payload: u32,
    /// Whether a rejected transaction is refused.
    pub reject_simulation_failures: bool,
}

impl MempoolFilter for ThresholdFilter {
    open spec fn allows(&self, tx: &PendingTx) -> bool {
        &&& tx.fee_micro_lamports >= self.min_fee
        &&& tx.payload_size <= self.max_payload
        &&& !(self.reject_simulation_failures && tx.status is Rejected)
    }

    fn allow(&self, tx: &PendingTx) -> (out: bool) {
        if tx.fee_micro_lamports < self.min_fee {
            return false;
        }
        if tx.payload_size > self.max_payload {
            return false;
        }
        let rejected = match tx.status {
            TxStatus::Rejected { .. } => true,
            _ => false,
        };
        if self.reject_simulation_failures && rejected {
            return false;
        }
        true
    }
}

/// The transactions that the filter admits, in their order.
pub open spec fn kept<F: MempoolFilter>(txs: Seq<PendingTx>, filter: &F) -> Seq<PendingTx>
    decreases txs.len(),
{
    if txs.len() == 0 {
        Seq::empty()
    } else if filter.allows(&txs.last()) {
        kept(txs.drop_last(), filter).push(txs.last())
    } else {
        kept(txs.drop_last(), filter)
    }
}

/// Returns references to the transactions that pass the filter, in their order.
pub fn filter_transactions<'a, F: MempoolFilter>(txs: &'a [PendingTx], filter: &F) -> (allowed:
    Vec<&'a PendingTx>)
    ensures
        allowed@.unref() == kept(txs@, filter),
{
    let mut allowed: Vec<&'a PendingTx> = Vec::new();
    let mut i: usize = 0;
    assert(txs@.take(0) =~= Seq::empty());
    assert(allowed@.unref() =~= kept(txs@.take(0), filter));
    while i < txs.len()
        invariant
            i <= txs@.len(),
            allowed@.unref() == kept(txs@.take(i as int), filter),
        decreases txs@.len() - i,
    {
        let ghost before = allowed@;
        proof {
            assert(txs@.take(i + 1).drop_last() =~= txs@.take(i as int));
            assert(txs@.take(i + 1).last() == txs@[i as int]);
        }
        let tx = &txs[i];
        if filter.allow(tx) {
            allowed.push(tx);
            assert(allowed@.unref() =~= before.unref().push(*tx));
        }
        i += 1;
    }
    assert(txs@.take(i as int) =~= txs@);
    allowed
}

/// The transactions of one account, in their order.
pub open spec fn of_account(txs: Seq<PendingTx>, account: Seq<char>) -> Seq<PendingTx>
    decreases txs.len(),
{
    if txs.len() == 0 {
        Seq::empty()
    } else if txs.last().account@ == account {
        of_account(txs.drop_last(), account).push(txs.last())
    } else {
        of_account(txs.drop_last(), account)
    }
}

/// The groups are ordered by account, strictly ascending.
pub open spec fn accounts_ascending(groups: Seq<(String, Vec<PendingTx>)>) -> bool {
    forall|a: int, b: int| 0 <= a < b < groups.len() ==> text_less(groups[a].0@, groups[b].0@)
}

/// Whether some group is headed by `account`.
pub open spec fn has_group(groups: Seq<(String, Vec<PendingTx>)>, account: Seq<char>) -> bool {
    exists|g: int| 0 <= g < groups.len() && (#[trigger] groups[g]).0@ == account
}

/// `groups` is `txs` grouped by account: the accounts ascend, each group
/// holds exactly the transactions of its account, in their order and at
/// least one, and no transaction is left out.
pub open spec fn grouped_by_account(
    txs: Seq<PendingTx>,
    groups: Seq<(String, Vec<PendingTx>)>,
) -> bool {
    &&& accounts_ascending(groups)
    &&& forall|g: int|
        0 <= g < groups.len() ==> (#[trigger] groups[g]).1@ == of_account(txs, groups[g].0@)
            && groups[g].1@.len() > 0
    &&& forall|i: int| 0 <= i < txs.len() ==> has_group(groups, (#[trigger] txs[i]).account@)
}

/// Two accounts that neither precedes the other are the same.
proof fn lemma_same_account(a: Seq<char>, b: Seq<char>)
    requires
        !text_less(a, b),
        !text_less(b, a),
    ensures
        a == b,
{
    lemma_bytes_less_total(encode_utf8(a), encode_utf8(b));
    vstd::utf8::encode_utf8_decode_utf8(a);
    vstd::utf8::encode_utf8_decode_utf8(b);
}

/// Groups the transactions by account. The groups come in the order of the
/// accounts, and within a group the transactions keep their order.
pub fn group_by_account(txs: &[PendingTx]) -> (grouped: Vec<(String, Vec<PendingTx>)>)
    ensures
        grouped_by_account(txs@, grouped@),
{
    let mut grouped: Vec<(String, Vec<PendingTx>)> = Vec::new();
    let mut n: usize = 0;
    assert(txs@.take(0) =~= Seq::empty());
    while n < txs.len()
        invariant
            n <= txs@.len(),
            grouped_by_account(txs@.take(n as int), grouped@),
        decreases txs@.len() - n,
    {
        let ghost seen = txs@.take(n as int);
        let ghost next = txs@.take(n + 1);
        let ghost before = grouped@;
        let tx = &txs[n];
        proof {
            assert(next.drop_last() =~= seen);
            assert(next.last() == txs@[n as int]);
        }
        let mut p: usize = 0;
        while p < grouped.len() && string_less(grouped[p].0.as_str(), tx.account.as_str())
            invariant
                p <= grouped@.len(),
                forall|k: int| 0 <= k < p ==> text_less((#[trigger] grouped@[k]).0@, tx.account@),
            decreases grouped@.len() - p,
        {
            p += 1;
        }
        let found = p < grouped.len() && grouped[p].0 == tx.account;
        if found {
            grouped[p].1.push(tx.clone());
            proof {
                assert forall|a: int, b: int| 0 <= a < b < grouped@.len() implies text_less(
                    grouped@[a].0@,
                    grouped@[b].0@,
                ) by {
                    assert(grouped@[a].0@ == before[a].0@);
                    assert(grouped@[b].0@ == before[b].0@);
                }
                assert forall|g: int| 0 <= g < grouped@.len() implies (#[trigger] grouped@[g]).1@
                    == of_account(next, grouped@[g].0@) && grouped@[g].1@.len() > 0 by {
                    assert(before[g].1@ == of_account(seen, before[g].0@));
                    if g != p {
                        assert(grouped@[g] == before[g]);
                        if g < p {
                            assert(text_less(before[g].0@, before[p as int].0@));
                        } else {
                            assert(text_less(before[p as int].0@, before[g].0@));
                        }
                        lemma_bytes_less_asymmetric(
                            encode_utf8(before[g].0@),
                            encode_utf8(tx.account@),
                        );
                    }
                }
                assert forall|i: int| 0 <= i < next.len() implies has_group(
                    grouped@,
                    (#[trigger] next[i]).account@,
                ) by {
                    if i < n {
                        assert(next[i] == seen[i]);
                        assert(has_group(before, seen[i].account@));
                        let g = choose|g: int|
                            0 <= g < before.len() && (#[trigger] before[g]).0@ == seen[i].account@;
                        assert(grouped@[g].0@ == before[g].0@);
                    } else {
                        assert(grouped@[p as int].0@ == next[i].account@);
                    }
                }
            }
        } else {
            let mut members: Vec<PendingTx> = Vec::new();
            members.push(tx.clone());
            grouped.insert(p, (tx.account.clone(), members));
            proof {
                lemma_bytes_less_asymmetric(encode_utf8(tx.account@), encode_utf8(tx.account@));
                if p < before.len() {
                    if !text_less(tx.account@, before[p as int].0@) {
                        lemma_same_account(tx.account@, before[p as int].0@);
                    }
                }
                assert forall|a: int, b: int| 0 <= a < b < grouped@.len() implies text_less(
                    grouped@[a].0@,
                    grouped@[b].0@,
                ) by {
                    let a0 = if a < p { a } else { a - 1 };
                    let b0 = if b < p { b } else { b - 1 };
                    if a != p {
                        assert(grouped@[a] == before[a0]);
                    }
                    if b != p {
                        assert(grouped@[b] == before[b0]);
                    }
                    if a == p {
                        if b0 > p {
                            assert(text_less(before[p as int].0@, before[b0].0@));
                            lemma_bytes_less_transitive(
                                encode_utf8(tx.account@),
                                encode_utf8(before[p as int].0@),
                                encode_utf8(before[b0].0@),
                            );
                        }
                    } else if b == p {
                        assert(text_less(before[a0].0@, tx.account@));
                    } else {
                        assert(text_less(before[a0].0@, before[b0].0@));
                    }
                }
                assert(of_account(seen, tx.account@).len() == 0) by {
                    assert forall|g: int| 0 <= g < before.len() implies (#[trigger] before[g]).0@
                        != tx.account@ by {
                        if g < p {
                            assert(text_less(before[g].0@, tx.account@));
                        } else if g > p {
                            assert(text_less(before[p as int].0@, before[g].0@));
                            lemma_bytes_less_transitive(
                                encode_utf8(tx.account@),
                                encode_utf8(before[p as int].0@),
                                encode_utf8(before[g].0@),
                            );
                        }
                    }
                    lemma_absent_account(seen, before, tx.account@);
                }
                assert forall|g: int| 0 <= g < grouped@.len() implies (#[trigger] grouped@[g]).1@
                    == of_account(next, grouped@[g].0@) && grouped@[g].1@.len() > 0 by {
                    if g == p {
                        assert(grouped@[g].1@ =~= of_account(next, tx.account@));
                    } else {
                        let g0 = if g < p { g } else { g - 1 };
                        assert(grouped@[g] == before[g0]);
                        assert(before[g0].1@ == of_account(seen, before[g0].0@));
                        if g < p {
                            assert(text_less(before[g0].0@, tx.account@));
                        } else {
                            assert(text_less(grouped@[p as int].0@, grouped@[g].0@));
                        }
                        lemma_bytes_less_asymmetric(
                            encode_utf8(before[g0].0@),
                            encode_utf8(tx.account@),
                        );
                    }
                }
                assert forall|i: int| 0 <= i < next.len() implies has_group(
                    grouped@,
                    (#[trigger] next[i]).account@,
                ) by {
                    if i < n {
                        assert(next[i] == seen[i]);
                        assert(has_group(before, seen[i].account@));
                        let g0 = choose|g: int|
                            0 <= g < before.len() && (#[trigger] before[g]).0@ == seen[i].account@;
                        let g = if g0 < p { g0 } else { g0 + 1 };
                        assert(grouped@[g] == before[g0]);
                    } else {
                        assert(grouped@[p as int].0@ == next[i].account@);
                    }
                }
            }
        }
        n += 1;
    }
    assert(txs@.take(n as int) =~= txs@);
    grouped
}

/// An account that heads no group has no transaction among those grouped.
proof fn lemma_absent_account(
    txs: Seq<PendingTx>,
    groups: Seq<(String, Vec<PendingTx>)>,
    account: Seq<char>,
)
    requires
        forall|i: int| 0 <= i < txs.len() ==> has_group(groups, (#[trigger] txs[i]).account@),
        !has_group(groups, account),
    ensures
        of_account(txs, account).len() == 0,
    decreases txs.len(),
{
    if txs.len() > 0 {
        let shorter = txs.drop_last();
        assert forall|i: int| 0 <= i < shorter.len() implies has_group(
            groups,
            (#[trigger] shorter[i]).account@,
        ) by {
            assert(shorter[i] == txs[i]);
        }
        lemma_absent_account(shorter, groups, account);
        assert(has_group(groups, txs[txs.len() - 1].account@));
    }
}

/// The totals of one account.
#[derive(Debug)]
pub struct AccountStats {
    /// Sum of the fees.
    pub total_fee: u64,
    /// Sum of the payload sizes.
    pub total_bytes: u32,
    /// Number of transactions that are still pending.
    pub pending: usize,
}

/// Sum of the fees.
pub open spec fn fee_total(txs: Seq<PendingTx>) -> int
    decreases txs.len(),
{
    if txs.len() == 0 {
        0
    } else {
        fee_total(txs.drop_last()) + txs.last().fee_micro_lamports
    }
}

/// Sum of the payload sizes.
pub open spec fn bytes_total(txs: Seq<PendingTx>) -> int
    decreases txs.len(),
{
    if txs.len() == 0 {
        0
    } else {
        bytes_total(txs.drop_last()) + txs.last().payload_size
    }
}

/// Number of transactions that are still pending.
pub open spec fn pending_count(txs: Seq<PendingTx>) -> int
    decreases txs.len(),
{
    if txs.len() == 0 {
        0
    } else {
        pending_count(txs.drop_last()) + if txs.last().status is Pending {
            1int
        } else {
            0int
        }
    }
}

/// The sums grow with the number of transactions summed.
pub proof fn lemma_totals_monotonic(txs: Seq<PendingTx>, n: int)
    requires
        0 <= n <= txs.len(),
    ensures
        0 <= fee_total(txs.take(n)) <= fee_total(txs),
        0 <= bytes_total(txs.take(n)) <= bytes_total(txs),
        0 <= pending_count(txs.take(n)) <= n,
    decreases txs.len() - n,
{
    if n == txs.len() {
        assert(txs.take(n) =~= txs);
        lemma_totals_nonnegative(txs);
    } else {
        lemma_totals_monotonic(txs, n + 1);
        assert(txs.take(n + 1).drop_last() =~= txs.take(n));
        lemma_totals_nonnegative(txs.take(n));
    }
}

/// The sums are not negative, and the pending count is at most the length.
pub proof fn lemma_totals_nonnegative(txs: Seq<PendingTx>)
    ensures
        0 <= fee_total(txs),
        0 <= bytes_total(txs),
        0 <= pending_count(txs) <= txs.len(),
    decreases txs.len(),
{
    if txs.len() > 0 {
        lemma_totals_nonnegative(txs.drop_last());
    }
}

/// Sums up the transactions of one account.
fn account_stats(txs: &Vec<PendingTx>) -> (stats: AccountStats)
    requires
        fee_total(txs@) <= u64::MAX,
        bytes_total(txs@) <= u32::MAX,
    ensures
        stats.total_fee == fee_total(txs@),
        stats.total_bytes == bytes_total(txs@),
        stats.pending == pending_count(txs@),
{
    let mut total_fee: u64 = 0;
    let mut total_bytes: u32 = 0;
    let mut pending: usize = 0;
    let mut j: usize = 0;
    assert(txs@.take(0) =~= Seq::empty());
    while j < txs.len()
        invariant
            j <= txs@.len(),
            fee_total(txs@) <= u64::MAX,
            bytes_total(txs@) <= u32::MAX,
            total_fee == fee_total(txs@.take(j as int)),
            total_bytes == bytes_total(txs@.take(j as int)),
            pending == pending_count(txs@.take(j as int)),
        decreases txs@.len() - j,
    {
        proof {
            assert(txs@.take(j + 1).drop_last() =~= txs@.take(j as int));
            assert(txs@.take(j + 1).last() == txs@[j as int]);
            lemma_totals_monotonic(txs@, j + 1);
        }
        total_fee = total_fee + txs[j].fee_micro_lamports;
        total_bytes = total_bytes + txs[j].payload_size;
        match txs[j].status {
            TxStatus::Pending => {
                pending = pending + 1;
            },
            TxStatus::Simulated { .. } => {},
            TxStatus::Rejected { .. } => {},
        }
        j += 1;
    }
    assert(txs@.take(j as int) =~= txs@);
    AccountStats { total_fee, total_bytes, pending }
}

/// For each group, the sum of fees, the sum of payload sizes and the number
/// of pending transactions, in the order of the groups. The sums of each
/// group must fit their types.
pub fn compute_account_stats(grouped: &Vec<(String, Vec<PendingTx>)>) -> (stats: Vec<
    (String, AccountStats),
>)
    requires
        forall|g: int|
            0 <= g < grouped@.len() ==> fee_total((#[trigger] grouped@[g]).1@) <= u64::MAX
                && bytes_total(grouped@[g].1@) <= u32::MAX,
    ensures
        stats@.len() == grouped@.len(),
        forall|g: int|
            0 <= g < stats@.len() ==> {
                &&& (#[trigger] stats@[g]).0@ == grouped@[g].0@
                &&& stats@[g].1.total_fee == fee_total(grouped@[g].1@)
                &&& stats@[g].1.total_bytes == bytes_total(grouped@[g].1@)
                &&& stats@[g].1.pending == pending_count(grouped@[g].1@)
            },
{
    let mut stats: Vec<(String, AccountStats)> = Vec::new();
    let mut g: usize = 0;
    while g < grouped.len()
        invariant
            g <= grouped@.len(),
            stats@.len() == g,
            forall|k: int|
                0 <= k < grouped@.len() ==> fee_total((#[trigger] grouped@[k]).1@) <= u64::MAX
                    && bytes_total(grouped@[k].1@) <= u32::MAX,
            forall|k: int|
                0 <= k < g ==> {
                    &&& (#[trigger] stats@[k]).0@ == grouped@[k].0@
                    &&& stats@[k].1.total_fee == fee_total(grouped@[k].1@)
                    &&& stats@[k].1.total_bytes == bytes_total(grouped@[k].1@)
                    &&& stats@[k].1.pending == pending_count(grouped@[k].1@)
                },
        decreases grouped@.len() - g,
    {
        assert(fee_total(grouped@[g as int].1@) <= u64::MAX);
        let account_totals = account_stats(&grouped[g].1);
        stats.push((grouped[g].0.clone(), account_totals));
        g += 1;
    }
    stats
}

} // verus!
