use chainkit::account_locking::{
    AccountLockError, BlockConstraint, ExecutionQueue, TransactionMeta,
};

fn meta(id: &str, writable: &[&str], readonly: &[&str], compute_units: u32) -> TransactionMeta {
    TransactionMeta {
        id: id.to_string(),
        writable_accounts: writable.iter().map(|a| a.to_string()).collect(),
        readonly_accounts: readonly.iter().map(|a| a.to_string()).collect(),
        compute_units,
    }
}

fn queue(max_compute_units: u32) -> ExecutionQueue {
    ExecutionQueue::new(BlockConstraint {
        max_compute_units,
        max_transactions: 8,
    })
}

fn sorted(names: &[String]) -> Vec<String> {
    let mut names = names.to_vec();
    names.sort();
    names
}

#[test]
fn new_queue_holds_nothing() {
    let queue = queue(10);
    assert!(queue.state().locked_writable.is_empty());
    assert!(queue.state().locked_readonly.is_empty());
    assert_eq!(queue.state().consumed_compute_units, 0);
    assert_eq!(queue.pending_len(), 0);
}

#[test]
fn enqueue_locks_accounts_and_uses_compute() {
    let mut queue = queue(100);
    queue.try_enqueue(meta("t1", &["w1", "w2", "w1"], &["r1"], 30)).unwrap();
    queue.try_enqueue(meta("t2", &[], &["r1", "r2"], 70)).unwrap();
    assert_eq!(sorted(&queue.state().locked_writable), vec!["w1", "w2"]);
    assert_eq!(sorted(&queue.state().locked_readonly), vec!["r1", "r2"]);
    assert_eq!(queue.state().consumed_compute_units, 100);
    assert_eq!(queue.pending_len(), 2);
}

#[test]
fn enqueue_refuses_what_exceeds_the_compute_budget() {
    let mut queue = queue(100);
    queue.try_enqueue(meta("t1", &["a"], &[], 60)).unwrap();
    match queue.try_enqueue(meta("t2", &["a"], &[], 41)) {
        Err(AccountLockError::ComputeLimitExceeded { requested, limit }) => {
            assert_eq!((requested, limit), (101, 100))
        }
        other => panic!("expected ComputeLimitExceeded, got {:?}", other),
    }
    assert_eq!(queue.pending_len(), 1);
    assert_eq!(queue.state().consumed_compute_units, 60);
}

#[test]
fn enqueue_reports_the_first_conflicting_account() {
    let mut queue = queue(100);
    queue.try_enqueue(meta("t1", &["w"], &["r"], 1)).unwrap();
    // writing what is read elsewhere
    match queue.try_enqueue(meta("t2", &["free", "r", "w"], &[], 1)) {
        Err(AccountLockError::Conflict { account }) => assert_eq!(account, "r"),
        other => panic!("expected Conflict, got {:?}", other),
    }
    // writing what is written elsewhere
    match queue.try_enqueue(meta("t3", &["w"], &["w"], 1)) {
        Err(AccountLockError::Conflict { account }) => assert_eq!(account, "w"),
        other => panic!("expected Conflict, got {:?}", other),
    }
    // reading what is written elsewhere
    match queue.try_enqueue(meta("t4", &["x"], &["r", "w"], 1)) {
        Err(AccountLockError::Conflict { account }) => assert_eq!(account, "w"),
        other => panic!("expected Conflict, got {:?}", other),
    }
    // reading what is read elsewhere is no conflict
    queue.try_enqueue(meta("t5", &[], &["r"], 1)).unwrap();
    assert_eq!(queue.pending_len(), 2);
    assert_eq!(sorted(&queue.state().locked_writable), vec!["w"]);
    assert_eq!(sorted(&queue.state().locked_readonly), vec!["r"]);
}

#[test]
fn release_unlocks_and_gives_compute_back() {
    let mut queue = queue(100);
    queue.try_enqueue(meta("t1", &["w1"], &["r1"], 30)).unwrap();
    queue.try_enqueue(meta("t2", &["w2"], &["r1", "r2"], 20)).unwrap();
    queue.release("missing");
    assert_eq!(queue.pending_len(), 2);
    assert_eq!(queue.state().consumed_compute_units, 50);
    queue.release("t1");
    assert_eq!(queue.pending_len(), 1);
    assert_eq!(sorted(&queue.state().locked_writable), vec!["w2"]);
    assert_eq!(sorted(&queue.state().locked_readonly), vec!["r2"]);
    assert_eq!(queue.state().consumed_compute_units, 20);
    queue.try_enqueue(meta("t3", &["w1", "r1"], &[], 80)).unwrap();
    assert_eq!(queue.state().consumed_compute_units, 100);
    queue.release("t2");
    queue.release("t3");
    assert_eq!(queue.pending_len(), 0);
    assert!(queue.state().locked_writable.is_empty());
    assert!(queue.state().locked_readonly.is_empty());
    assert_eq!(queue.state().consumed_compute_units, 0);
}

#[test]
fn release_takes_the_first_of_equal_ids() {
    let mut queue = queue(100);
    queue.try_enqueue(meta("same", &["a"], &[], 10)).unwrap();
    queue.try_enqueue(meta("same", &["b"], &[], 5)).unwrap();
    queue.release("same");
    assert_eq!(sorted(&queue.state().locked_writable), vec!["b"]);
    assert_eq!(queue.state().consumed_compute_units, 5);
}

#[test]
fn transaction_meta_clones_field_by_field() {
    let first = meta("t", &["w"], &["r1", "r2"], 3);
    let copy = first.clone();
    assert_eq!(copy.id, first.id);
    assert_eq!(copy.writable_accounts, first.writable_accounts);
    assert_eq!(copy.readonly_accounts, first.readonly_accounts);
    assert_eq!(copy.compute_units, 3);
}
