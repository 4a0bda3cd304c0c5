use chainkit::ownership::{annotate_borrowing, mutate_wallet, summarize_slice};

#[test]
fn test_annotate_borrowing() {
    let note = "staking ledger";
    let annotated = annotate_borrowing(note);

    assert!(annotated.contains("immutable reference"));
    assert!(annotated.contains("no data race"));
    assert!(annotated.contains(note));
    assert_eq!("staking ledger", note);
}

#[test]
fn test_mutate_wallet() {
    let mut balance = 1000;
    let result = mutate_wallet(&mut balance, 1);
    assert!(result.is_ok());
    assert_eq!(balance, 1001)
}

#[test]
fn test_mutate_wallet_err() {
    let result = mutate_wallet(&mut 10, -11);
    assert!(result.is_err());
}

#[test]
fn test_summarize_slice() {
    let mut blocks = vec![1, 2, 3, 4, 5, 6, 7, 8, 9];
    let _task_one = {
        let (slice, len) = summarize_slice(&blocks);
        assert_eq!(9, len);
        assert_eq!(&[1, 2, 3], slice);
    };
    blocks[0] = 10;
    let (slice, len) = summarize_slice(&blocks);
    assert_eq!(9, len);
    assert_eq!(&[10, 2, 3], slice);
}

#[test]
fn mutate_wallet_keeps_the_balance_when_it_refuses() {
    let mut balance: i64 = 5;
    let result = mutate_wallet(&mut balance, -6);
    assert_eq!(result, Err("Balance is negative".to_string()));
    assert_eq!(balance, 5);
    assert_eq!(mutate_wallet(&mut balance, -5), Ok(()));
    assert_eq!(balance, 0);
}

#[test]
fn summarize_slice_of_short_slices() {
    let empty: [u64; 0] = [];
    assert_eq!(summarize_slice(&empty), (&empty[..], 0));
    let two = [4u64, 5];
    assert_eq!(summarize_slice(&two), (&two[..], 2));
    let three = [4u64, 5, 6];
    assert_eq!(summarize_slice(&three), (&three[..], 3));
}

#[test]
fn annotate_borrowing_keeps_the_message_in_place() {
    let annotated = annotate_borrowing("x");
    assert!(annotated.starts_with("Rust"));
    assert!(annotated.contains("`x`"));
    assert_eq!(annotated.matches('\n').count(), 2);
}
