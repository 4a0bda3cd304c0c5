//! Account locks for one slot: a transaction is queued only if it fits the
//! slot's compute budget and none of its accounts is locked against it.

use vstd::prelude::*;
use std::collections::VecDeque;

verus! {

/// What a transaction will touch and use.
#[derive(Debug)]
pub struct TransactionMeta {
    /// Identifier of the transaction.
    pub id: String,
    /// Accounts it writes to.
    pub writable_accounts: Vec<String>,
    /// Accounts it only reads.
    pub readonly_accounts: Vec<String>,
    /// Compute units it will use.
    pub compute_units: u32,
}

/// A copy of the names, one by one.
fn copy_names(names: &Vec<String>) -> (out: Vec<String>)
    ensures
        out@ == names@,
{
    let mut out: Vec<String> = Vec::new();
    let mut i: usize = 0;
    while i < names.len()
        invariant
            i <= names@.len(),
            out@ == names@.take(i as int),
        decreases names@.len() - i,
    {
        out.push(names[i].clone());
        i += 1;
        assert(names@.take(i as int) =~= names@.take(i - 1).push(names@[i - 1]));
    }
    assert(names@.take(i as int) =~= names@);
    out
}

impl Clone for TransactionMeta {
    fn clone(&self) -> (copy: Self)
        ensures
            copy.id == self.id,
            copy.writable_accounts@ == self.writable_accounts@,
            copy.readonly_accounts@ == self.readonly_accounts@,
            copy.compute_units == self.compute_units,
    {
        TransactionMeta {
            id: self.id.clone(),
            writable_accounts: copy_names(&self.writable_accounts),
            readonly_accounts: copy_names(&self.readonly_accounts),
            compute_units: self.compute_units,
        }
    }
}

/// What is locked and used in the slot so far. Each list names an account
/// at most once.
#[derive(Debug)]
pub struct SlotExecutionState {
    /// Accounts locked for writing.
    pub locked_writable: Vec<String>,
    /// Accounts locked for reading.
    pub locked_readonly: Vec<String>,
    /// Compute units used by the queued transactions.
    pub consumed_compute_units: u32,
}

/// The limits of one block.
#[derive(Debug)]
pub struct BlockConstraint {
    /// Most compute units the block may use.
    pub max_compute_units: u32,
    /// Most transactions the block may hold.
    pub max_transactions: usize,
}

/// Why a transaction was not queued.
#[derive(Debug)]
pub enum AccountLockError {
    /// The account is locked against the transaction.
    Conflict { account: String },
    /// With the transaction the slot would use more than its compute budget.
    ComputeLimitExceeded { requested: u32, limit: u32 },
}

/// The accounts that the list names.
pub open spec fn names(list: Seq<String>) -> Set<Seq<char>> {
    Set::new(|name: Seq<char>| exists|i: int| 0 <= i < list.len() && (#[trigger] list[i])@ == name)
}

/// The list names no account twice.
pub open spec fn no_repeats(list: Seq<String>) -> bool {
    forall|i: int, j: int| 0 <= i < j < list.len() ==> (#[trigger] list[i])@ != (#[trigger] list[j])@
}

/// Position of the first account that is locked; `None` where none is.
pub open spec fn first_locked(accounts: Seq<String>, locked: Set<Seq<char>>) -> Option<int>
    decreases accounts.len(),
{
    if accounts.len() == 0 {
        None
    } else if locked.contains(accounts[0]@) {
        Some(0int)
    } else {
        match first_locked(accounts.drop_first(), locked) {
            Some(i) => Some(i + 1),
            None => None,
        }
    }
}

/// A scan that found nothing locked before position `i` settles
/// `first_locked` there.
pub proof fn lemma_first_locked(accounts: Seq<String>, locked: Set<Seq<char>>, i: int)
    requires
        0 <= i <= accounts.len(),
        forall|k: int| 0 <= k < i ==> !locked.contains((#[trigger] accounts[k])@),
        i == accounts.len() || locked.contains(accounts[i]@),
    ensures
        i == accounts.len() ==> first_locked(accounts, locked) is None,
        i < accounts.len() ==> first_locked(accounts, locked) == Some(i),
    decreases i,
{
    if i > 0 {
        let rest = accounts.drop_first();
        assert(!locked.contains(accounts[0]@));
        assert forall|k: int| 0 <= k < i - 1 implies !locked.contains((#[trigger] rest[k])@) by {
            assert(rest[k] == accounts[k + 1]);
        }
        if i < accounts.len() {
            assert(rest[i - 1] == accounts[i]);
        }
        lemma_first_locked(rest, locked, i - 1);
    }
}

/// The account over which the transaction collides with the locks: the
/// first of its writable accounts that is locked in any way, or else the
/// first of its read-only accounts that is locked for writing.
pub open spec fn conflict(
    locked_writable: Set<Seq<char>>,
    locked_readonly: Set<Seq<char>>,
    tx: TransactionMeta,
) -> Option<Seq<char>> {
    match first_locked(tx.writable_accounts@, locked_writable.union(locked_readonly)) {
        Some(i) => Some(tx.writable_accounts@[i]@),
        None => match first_locked(tx.readonly_accounts@, locked_writable) {
            Some(i) => Some(tx.readonly_accounts@[i]@),
            None => None,
        },
    }
}

/// Whether the list names the account.
fn holds_name(list: &Vec<String>, name: &String) -> (out: bool)
    ensures
        out == names(list@).contains(name@),
{
    let mut i: usize = 0;
    while i < list.len()
        invariant
            i <= list@.len(),
            forall|k: int| 0 <= k < i ==> (#[trigger] list@[k])@ != name@,
        decreases list@.len() - i,
    {
        if list[i] == *name {
            return true;
        }
        i += 1;
    }
    false
}

/// Adds the account to the list unless it is named there already.
fn lock_name(list: &mut Vec<String>, name: &String)
    requires
        no_repeats(old(list)@),
    ensures
        no_repeats(final(list)@),
        names(final(list)@) == names(old(list)@).insert(name@),
{
    if !holds_name(list, name) {
        list.push(name.clone());
        proof {
            assert forall|n: Seq<char>| names(list@).contains(n) <==> names(old(list)@).insert(
                name@,
            ).contains(n) by {
                if names(list@).contains(n) {
                    let i = choose|i: int| 0 <= i < list@.len() && (#[trigger] list@[i])@ == n;
                    if i < old(list)@.len() {
                        assert(old(list)@[i]@ == n);
                    }
                }
                if names(old(list)@).contains(n) {
                    let i = choose|i: int|
                        0 <= i < old(list)@.len() && (#[trigger] old(list)@[i])@ == n;
                    assert(list@[i]@ == n);
                }
                if n == name@ {
                    assert(list@[list@.len() - 1]@ == n);
                }
            }
            assert(names(list@) =~= names(old(list)@).insert(name@));
        }
    } else {
        assert(names(list@) =~= names(old(list)@).insert(name@));
    }
}

/// Takes the account off the list if it is named there.
fn unlock_name(list: &mut Vec<String>, name: &String)
    requires
        no_repeats(old(list)@),
    ensures
        no_repeats(final(list)@),
        names(final(list)@) == names(old(list)@).remove(name@),
{
    let mut i: usize = 0;
    while i < list.len()
        invariant
            i <= list@.len(),
            list@ == old(list)@,
            no_repeats(list@),
            forall|k: int| 0 <= k < i ==> (#[trigger] list@[k])@ != name@,
        decreases list@.len() - i,
    {
        if list[i] == *name {
            let ghost before = list@;
            list.remove(i);
            proof {
                assert forall|a: int, b: int| 0 <= a < b < list@.len() implies (
                #[trigger] list@[a])@ != (#[trigger] list@[b])@ by {
                    let a0 = if a < i { a } else { a + 1 };
                    let b0 = if b < i { b } else { b + 1 };
                    assert(list@[a] == before[a0]);
                    assert(list@[b] == before[b0]);
                }
                assert forall|n: Seq<char>| names(list@).contains(n) <==> names(before).remove(
                    name@,
                ).contains(n) by {
                    if names(list@).contains(n) {
                        let k = choose|k: int| 0 <= k < list@.len() && (#[trigger] list@[k])@ == n;
                        let k0 = if k < i { k } else { k + 1 };
                        assert(list@[k] == before[k0]);
                        assert(before[k0]@ == n);
                        if k0 < i {
                            assert(before[k0]@ != before[i as int]@);
                        } else {
                            assert(before[i as int]@ != before[k0]@);
                        }
                    }
                    if names(before).remove(name@).contains(n) {
                        let k0 = choose|k: int| 0 <= k < before.len() && (#[trigger] before[k])@ == n;
                        let k = if k0 < i { k0 } else { k0 - 1 };
                        assert(list@[k] == before[k0]);
                    }
                }
                assert(names(list@) =~= names(before).remove(name@));
            }
            return ;
        }
        i += 1;
    }
    assert(names(list@) =~= names(old(list)@).remove(name@));
}

/// Whether the slot's compute budget would be exceeded with the transaction.
fn would_exceed_compute(
    state: &SlotExecutionState,
    tx: &TransactionMeta,
    constraint: &BlockConstraint,
) -> (out: bool)
    ensures
        out == (state.consumed_compute_units + tx.compute_units > constraint.max_compute_units),
{
    let consumed: u64 = state.consumed_compute_units as u64;
    let asked: u64 = tx.compute_units as u64;
    consumed + asked > constraint.max_compute_units as u64
}

/// Position of the first account that the list `locked` (or, where given,
/// also `also_locked`) names.
fn first_locked_position(
    accounts: &Vec<String>,
    locked: &Vec<String>,
    also_locked: Option<&Vec<String>>,
) -> (out: Option<usize>)
    ensures
        match out {
            Some(i) => first_locked(accounts@, locked_names(locked@, also_locked)) == Some(
                i as int,
            ) && i < accounts@.len(),
            None => first_locked(accounts@, locked_names(locked@, also_locked)) is None,
        },
{
    let ghost all = locked_names(locked@, also_locked);
    let mut i: usize = 0;
    while i < accounts.len()
        invariant
            i <= accounts@.len(),
            all == locked_names(locked@, also_locked),
            forall|k: int| 0 <= k < i ==> !all.contains((#[trigger] accounts@[k])@),
        decreases accounts@.len() - i,
    {
        let hit = holds_name(locked, &accounts[i]) || match also_locked {
            Some(more) => holds_name(more, &accounts[i]),
            None => false,
        };
        if hit {
            proof {
                lemma_first_locked(accounts@, all, i as int);
            }
            return Some(i);
        }
        i += 1;
    }
    proof {
        lemma_first_locked(accounts@, all, i as int);
    }
    None
}

/// The accounts that `locked` names, together with those of `also_locked`
/// where it is given.
pub open spec fn locked_names(locked: Seq<String>, also_locked: Option<&Vec<String>>) -> Set<
    Seq<char>,
> {
    match also_locked {
        Some(more) => names(locked).union(names(more@)),
        None => names(locked),
    }
}

/// Looks for a collision between the transaction and the locks; returns the
/// account over which they collide.
fn check_account_conflicts(state: &SlotExecutionState, tx: &TransactionMeta) -> (out: Option<
    String,
>)
    ensures
        match out {
            Some(account) => conflict(
                names(state.locked_writable@),
                names(state.locked_readonly@),
                *tx,
            ) == Some(account@),
            None => conflict(
                names(state.locked_writable@),
                names(state.locked_readonly@),
                *tx,
            ) is None,
        },
{
    match first_locked_position(
        &tx.writable_accounts,
        &state.locked_writable,
        Some(&state.locked_readonly),
    ) {
        Some(i) => {
            return Some(tx.writable_accounts[i].clone());
        },
        None => {},
    }
    match first_locked_position(&tx.readonly_accounts, &state.locked_writable, None) {
        Some(i) => Some(tx.readonly_accounts[i].clone()),
        None => None,
    }
}

/// `a - b`, or 0 where `b` is larger.
pub open spec fn floor_sub(a: int, b: int) -> int {
    if a >= b {
        a - b
    } else {
        0
    }
}

/// Position of the first transaction with this id; the length where there is none.
pub open spec fn id_position(pending: Seq<TransactionMeta>, id: Seq<char>) -> int
    decreases pending.len(),
{
    if pending.len() == 0 {
        0
    } else if pending[0].id@ == id {
        0
    } else {
        1 + id_position(pending.drop_first(), id)
    }
}

/// A scan that found no such id before position `i` settles `id_position` there.
pub proof fn lemma_id_position(pending: Seq<TransactionMeta>, id: Seq<char>, i: int)
    requires
        0 <= i <= pending.len(),
        forall|k: int| 0 <= k < i ==> (#[trigger] pending[k]).id@ != id,
        i == pending.len() || pending[i].id@ == id,
    ensures
        id_position(pending, id) == i,
    decreases i,
{
    if i > 0 {
        let rest = pending.drop_first();
        assert(pending[0].id@ != id);
        assert forall|k: int| 0 <= k < i - 1 implies (#[trigger] rest[k]).id@ != id by {
            assert(rest[k] == pending[k + 1]);
        }
        if i < pending.len() {
            assert(rest[i - 1] == pending[i]);
        }
        lemma_id_position(rest, id, i - 1);
    }
}

/// The accounts of `locked` without those that `released` names.
pub open spec fn without(locked: Set<Seq<char>>, released: Seq<String>) -> Set<Seq<char>> {
    locked.difference(names(released))
}

/// The transactions waiting to run in a slot, with the locks they hold.
pub struct ExecutionQueue {
    constraint: BlockConstraint,
    state: SlotExecutionState,
    pending: VecDeque<TransactionMeta>,
}

impl ExecutionQueue {
    /// The accounts locked for writing.
    pub closed spec fn locked_writable(&self) -> Set<Seq<char>> {
        names(self.state.locked_writable@)
    }

    /// The accounts locked for reading.
    pub closed spec fn locked_readonly(&self) -> Set<Seq<char>> {
        names(self.state.locked_readonly@)
    }

    /// Compute units used by the queued transactions.
    pub closed spec fn consumed(&self) -> u32 {
        self.state.consumed_compute_units
    }

    /// The slot's compute budget.
    pub closed spec fn max_compute_units(&self) -> u32 {
        self.constraint.max_compute_units
    }

    /// The queued transactions, oldest first.
    pub closed spec fn pending(&self) -> Seq<TransactionMeta> {
        self.pending@
    }

    /// Each lock list names an account at most once.
    pub closed spec fn wf(&self) -> bool {
        &&& no_repeats(self.state.locked_writable@)
        &&& no_repeats(self.state.locked_readonly@)
    }

    /// A queue with nothing locked, nothing used and nothing waiting.
    pub fn new(constraint: BlockConstraint) -> (out: Self)
        ensures
            out.wf(),
            out.locked_writable() == Set::<Seq<char>>::empty(),
            out.locked_readonly() == Set::<Seq<char>>::empty(),
            out.consumed() == 0,
            out.max_compute_units() == constraint.max_compute_units,
            out.pending() == Seq::<TransactionMeta>::empty(),
    {
        let out = ExecutionQueue {
            constraint,
            state: SlotExecutionState {
                locked_writable: Vec::new(),
                locked_readonly: Vec::new(),
                consumed_compute_units: 0,
            },
            pending: VecDeque::new(),
        };
        assert(out.locked_writable() =~= Set::<Seq<char>>::empty());
        assert(out.locked_readonly() =~= Set::<Seq<char>>::empty());
        out
    }

    /// The locks and the compute units used so far.
    pub fn state(&self) -> (out: &SlotExecutionState)
        ensures
            names(out.locked_writable@) == self.locked_writable(),
            names(out.locked_readonly@) == self.locked_readonly(),
            out.consumed_compute_units == self.consumed(),
    {
        &self.state
    }

    /// Number of queued transactions.
    pub fn pending_len(&self) -> (out: usize)
        ensures
            out == self.pending().len(),
    {
        self.pending.len()
    }

    /// Queues the transaction and locks its accounts.
    ///
    /// It is turned down if the slot's compute budget would be exceeded,
    /// or else if one of its accounts is locked against it; nothing changes
    /// then. The compute units asked for in total must fit their type.
    pub fn try_enqueue(&mut self, tx: TransactionMeta) -> (out: Result<(), AccountLockError>)
        requires
            old(self).wf(),
            old(self).consumed() + tx.compute_units <= u32::MAX,
        ensures
            final(self).wf(),
            final(self).max_compute_units() == old(self).max_compute_units(),
            match out {
                Err(AccountLockError::ComputeLimitExceeded { requested, limit }) => {
                    &&& old(self).consumed() + tx.compute_units > old(self).max_compute_units()
                    &&& requested == old(self).consumed() + tx.compute_units
                    &&& limit == old(self).max_compute_units()
                    &&& *final(self) == *old(self)
                },
                Err(AccountLockError::Conflict { account }) => {
                    &&& old(self).consumed() + tx.compute_units <= old(self).max_compute_units()
                    &&& conflict(old(self).locked_writable(), old(self).locked_readonly(), tx)
                        == Some(account@)
                    &&& *final(self) == *old(self)
                },
                Ok(_) => {
                    &&& old(self).consumed() + tx.compute_units <= old(self).max_compute_units()
                    &&& conflict(old(self).locked_writable(), old(self).locked_readonly(), tx)
                        is None
                    &&& final(self).locked_readonly() == old(self).locked_readonly().union(
                        names(tx.readonly_accounts@),
                    )
                    &&& final(self).locked_writable() == old(self).locked_writable().union(
                        names(tx.writable_accounts@),
                    )
                    &&& final(self).consumed() == old(self).consumed() + tx.compute_units
                    &&& final(self).pending() == old(self).pending().push(tx)
                },
            },
    {
        if would_exceed_compute(&self.state, &tx, &self.constraint) {
            return Err(
                AccountLockError::ComputeLimitExceeded {
                    requested: self.state.consumed_compute_units + tx.compute_units,
                    limit: self.constraint.max_compute_units,
                },
            );
        }
        let account = check_account_conflicts(&self.state, &tx);
        if account.is_some() {
            return Err(AccountLockError::Conflict { account: account.unwrap() });
        }
        lock_all(&mut self.state.locked_readonly, &tx.readonly_accounts);
        lock_all(&mut self.state.locked_writable, &tx.writable_accounts);
        self.state.consumed_compute_units = self.state.consumed_compute_units + tx.compute_units;
        self.pending.push_back(tx);
        Ok(())
    }

    /// Takes the first queued transaction with this id out of the queue,
    /// unlocks its accounts and gives back its compute units. Nothing
    /// changes where no queued transaction has the id.
    pub fn release(&mut self, tx_id: &str)
        requires
            old(self).wf(),
        ensures
            final(self).wf(),
            final(self).max_compute_units() == old(self).max_compute_units(),
            id_position(old(self).pending(), tx_id@) >= old(self).pending().len() ==> *final(self)
                == *old(self),
            id_position(old(self).pending(), tx_id@) < old(self).pending().len() ==> {
                let position = id_position(old(self).pending(), tx_id@);
                let tx = old(self).pending()[position];
                &&& final(self).pending() == old(self).pending().remove(position)
                &&& final(self).locked_writable() == without(
                    old(self).locked_writable(),
                    tx.writable_accounts@,
                )
                &&& final(self).locked_readonly() == without(
                    old(self).locked_readonly(),
                    tx.readonly_accounts@,
                )
                &&& final(self).consumed() == floor_sub(
                    old(self).consumed() as int,
                    tx.compute_units as int,
                )
            },
    {
        let wanted = tx_id.to_owned();
        let mut position: usize = 0;
        while position < self.pending.len() && !(self.pending[position].id == wanted)
            invariant
                position <= self.pending@.len(),
                *self == *old(self),
                wanted@ == tx_id@,
                forall|k: int| 0 <= k < position ==> (#[trigger] self.pending@[k]).id@ != tx_id@,
            decreases self.pending@.len() - position,
        {
            position += 1;
        }
        proof {
            lemma_id_position(self.pending@, tx_id@, position as int);
        }
        if position < self.pending.len() {
            let removed = self.pending.remove(position);
            let tx = removed.unwrap();
            unlock_all(&mut self.state.locked_writable, &tx.writable_accounts);
            unlock_all(&mut self.state.locked_readonly, &tx.readonly_accounts);
            self.state.consumed_compute_units = self.state.consumed_compute_units.saturating_sub(
                tx.compute_units,
            );
        }
    }
}

/// Locks every account of `accounts`.
fn lock_all(list: &mut Vec<String>, accounts: &Vec<String>)
    requires
        no_repeats(old(list)@),
    ensures
        no_repeats(final(list)@),
        names(final(list)@) == names(old(list)@).union(names(accounts@)),
{
    let mut i: usize = 0;
    assert(names(accounts@.take(0)) =~= Set::<Seq<char>>::empty());
    assert(names(list@) =~= names(old(list)@).union(names(accounts@.take(0))));
    while i < accounts.len()
        invariant
            i <= accounts@.len(),
            no_repeats(list@),
            names(list@) == names(old(list)@).union(names(accounts@.take(i as int))),
        decreases accounts@.len() - i,
    {
        lock_name(list, &accounts[i]);
        proof {
            lemma_names_take(accounts@, i as int);
            assert(names(list@) =~= names(old(list)@).union(names(accounts@.take(i + 1))));
        }
        i += 1;
    }
    assert(accounts@.take(i as int) =~= accounts@);
}

/// Unlocks every account of `accounts`.
fn unlock_all(list: &mut Vec<String>, accounts: &Vec<String>)
    requires
        no_repeats(old(list)@),
    ensures
        no_repeats(final(list)@),
        names(final(list)@) == without(names(old(list)@), accounts@),
{
    let mut i: usize = 0;
    assert(names(accounts@.take(0)) =~= Set::<Seq<char>>::empty());
    assert(names(list@) =~= without(names(old(list)@), accounts@.take(0)));
    while i < accounts.len()
        invariant
            i <= accounts@.len(),
            no_repeats(list@),
            names(list@) == without(names(old(list)@), accounts@.take(i as int)),
        decreases accounts@.len() - i,
    {
        unlock_name(list, &accounts[i]);
        proof {
            lemma_names_take(accounts@, i as int);
            assert(names(list@) =~= without(names(old(list)@), accounts@.take(i + 1)));
        }
        i += 1;
    }
    assert(accounts@.take(i as int) =~= accounts@);
}

/// One more element of the list adds its name to the names.
pub proof fn lemma_names_take(list: Seq<String>, i: int)
    requires
        0 <= i < list.len(),
    ensures
        names(list.take(i + 1)) == names(list.take(i)).insert(list[i]@),
{
    let shorter = list.take(i);
    let longer = list.take(i + 1);
    assert forall|n: Seq<char>| names(longer).contains(n) <==> names(shorter).insert(
        list[i]@,
    ).contains(n) by {
        if names(longer).contains(n) {
            let k = choose|k: int| 0 <= k < longer.len() && (#[trigger] longer[k])@ == n;
            if k < i {
                assert(shorter[k]@ == n);
            }
        }
        if names(shorter).contains(n) {
            let k = choose|k: int| 0 <= k < shorter.len() && (#[trigger] shorter[k])@ == n;
            assert(longer[k]@ == n);
        }
        if n == list[i]@ {
            assert(longer[i]@ == n);
        }
    }
    assert(names(longer) =~= names(shorter).insert(list[i]@));
}

} // verus!
