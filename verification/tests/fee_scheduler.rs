
use chainkit::fee_scheduler::{MempoolEntry, PriorityScheduler, ScheduledTx, SchedulerError, TxClass};

#[test]
fn test_push_validation_fee_too_low() {
    let mut scheduler = PriorityScheduler::new();

    let entry = MempoolEntry {
        id: "tx1".to_string(),
        fee_micro_lamports: 0,
        compute_units: 100_000,
        class: TxClass::Standard,
    };

    let result = scheduler.push(entry);
    assert!(result.is_err());
    assert!(matches!(result.unwrap_err(), SchedulerError::FeeTooLow));
}

#[test]
fn test_push_validation_compute_units_out_of_range() {
    let mut scheduler = PriorityScheduler::new();

    let entry = MempoolEntry {
        id: "tx2".to_string(),
        fee_micro_lamports: 1000,
        compute_units: 200_001,
        class: TxClass::HighPriority,
    };

    let result = scheduler.push(entry);
    assert!(result.is_err());
    assert!(matches!(
        result.unwrap_err(),
        SchedulerError::ComputeUnitsOutOfRange
    ));
}

#[test]
fn test_push_validation_success() {
    let mut scheduler = PriorityScheduler::new();

    let entry = MempoolEntry {
        id: "tx3".to_string(),
        fee_micro_lamports: 5000,
        compute_units: 150_000,
        class: TxClass::Standard,
    };

    let result = scheduler.push(entry);
    assert!(result.is_ok());
    assert_eq!(scheduler.len(), 1);
}

#[test]
fn test_pop_priority_ordering_by_fee() {
    let mut scheduler = PriorityScheduler::new();
    scheduler
        .push(MempoolEntry {
            id: "tx_low".to_string(),
            fee_micro_lamports: 1000,
            compute_units: 100_000,
            class: TxClass::LowPriority,
        })
        .unwrap();
    scheduler
        .push(MempoolEntry {
            id: "tx_high".to_string(),
            fee_micro_lamports: 5000,
            compute_units: 100_000,
            class: TxClass::HighPriority,
        })
        .unwrap();
    scheduler
        .push(MempoolEntry {
            id: "tx_mid".to_string(),
            fee_micro_lamports: 3000,
            compute_units: 100_000,
            class: TxClass::Standard,
        })
        .unwrap();
    assert_eq!(scheduler.pop().unwrap().id, "tx_high");
    assert_eq!(scheduler.pop().unwrap().id, "tx_mid");
    assert_eq!(scheduler.pop().unwrap().id, "tx_low");
    assert!(scheduler.is_empty());
}

#[test]
fn test_pop_priority_ordering_with_id_tiebreaker() {
    let mut scheduler = PriorityScheduler::new();
    scheduler
        .push(MempoolEntry {
            id: "tx_a".to_string(),
            fee_micro_lamports: 2000,
            compute_units: 100_000,
            class: TxClass::Standard,
        })
        .unwrap();

    scheduler
        .push(MempoolEntry {
            id: "tx_c".to_string(),
            fee_micro_lamports: 2000,
            compute_units: 100_000,
            class: TxClass::Standard,
        })
        .unwrap();

    scheduler
        .push(MempoolEntry {
            id: "tx_b".to_string(),
            fee_micro_lamports: 2000,
            compute_units: 100_000,
            class: TxClass::Standard,
        })
        .unwrap();
    assert_eq!(scheduler.pop().unwrap().id, "tx_c");
    assert_eq!(scheduler.pop().unwrap().id, "tx_b");
    assert_eq!(scheduler.pop().unwrap().id, "tx_a");
}

#[test]
fn test_pop_priority_complex_scenario() {
    let mut scheduler = PriorityScheduler::new();
    scheduler
        .push(MempoolEntry {
            id: "tx1".to_string(),
            fee_micro_lamports: 3000,
            compute_units: 50_000,
            class: TxClass::Standard,
        })
        .unwrap();
    scheduler
        .push(MempoolEntry {
            id: "tx2".to_string(),
            fee_micro_lamports: 3000,
            compute_units: 150_000,
            class: TxClass::Standard,
        })
        .unwrap();
    scheduler
        .push(MempoolEntry {
            id: "tx3".to_string(),
            fee_micro_lamports: 5000,
            compute_units: 100_000,
            class: TxClass::HighPriority,
        })
        .unwrap();
    assert_eq!(scheduler.pop().unwrap().id, "tx3");
    assert_eq!(scheduler.pop().unwrap().id, "tx1");
    assert_eq!(scheduler.pop().unwrap().id, "tx2");
}

#[test]
fn test_benchmark_style_1000_entries() {
    let mut scheduler = PriorityScheduler::new();
    for i in 0..1000 {
        let entry = MempoolEntry {
            id: format!("tx_{:04}", i),
            fee_micro_lamports: (i % 100 + 1) * 100, // 100 ~ 10,000 범위
            compute_units: ((i % 200) * 1000) as u32, // 0 ~ 199,000 범위
            class: match i % 3 {
                0 => TxClass::HighPriority,
                1 => TxClass::Standard,
                _ => TxClass::LowPriority,
            },
        };

        scheduler.push(entry).unwrap();
    }
    assert_eq!(scheduler.len(), 1000);
    let mut count = 0;
    let mut last_score: Option<u128> = None;

    while let Some(entry) = scheduler.pop() {
        count += 1;
        let score =
            entry.fee_micro_lamports as u128 * 1_000 + (200_000 - entry.compute_units as u128);

        if let Some(prev_score) = last_score {
            assert!(
                prev_score >= score,
                "Priority order violated: prev={}, current={}",
                prev_score,
                score
            );
        }

        last_score = Some(score);
    }
    assert_eq!(count, 1000);
    assert!(scheduler.is_empty());
}

#[test]
fn test_empty_scheduler() {
    let mut scheduler = PriorityScheduler::new();

    assert!(scheduler.is_empty());
    assert_eq!(scheduler.len(), 0);
    assert!(scheduler.pop().is_none());
}

fn entry(id: &str, fee: u64, compute_units: u32) -> MempoolEntry {
    MempoolEntry {
        id: id.to_string(),
        fee_micro_lamports: fee,
        compute_units,
        class: TxClass::Standard,
    }
}

#[test]
fn push_scores_by_fee_and_unused_compute() {
    let mut scheduler = PriorityScheduler::new();
    scheduler.push(entry("a", 3000, 50_000)).unwrap();
    scheduler.push(entry("b", 1, 200_000)).unwrap();
    scheduler.push(entry("c", u64::MAX, 0)).unwrap();
    let scores: Vec<u128> = scheduler.scheduled_txs.iter().map(|tx| tx.score).collect();
    assert_eq!(
        scores,
        vec![3_150_000, 1_000, (u64::MAX as u128) * 1_000 + 200_000]
    );
}

#[test]
fn push_looks_at_the_fee_before_the_compute_units() {
    let mut scheduler = PriorityScheduler::new();
    let result = scheduler.push(entry("both", 0, 200_001));
    assert!(matches!(result, Err(SchedulerError::FeeTooLow)));
    assert!(scheduler.push(entry("edge", 1, 200_000)).is_ok());
    assert_eq!(scheduler.len(), 1);
}

#[test]
fn scheduler_errors_say_what_went_wrong() {
    assert_eq!(SchedulerError::FeeTooLow.message(), "fee must be greater then zero");
    assert_eq!(
        SchedulerError::ComputeUnitsOutOfRange.message(),
        "compute units must be within 200_000"
    );
}

#[test]
fn scheduled_entries_compare_by_score_then_id() {
    let low = ScheduledTx { entry: entry("z", 1, 0), score: 1 };
    let high = ScheduledTx { entry: entry("a", 1, 0), score: 2 };
    let high_b = ScheduledTx { entry: entry("b", 1, 0), score: 2 };
    let high_ab = ScheduledTx { entry: entry("ab", 1, 0), score: 2 };
    assert_eq!(low.cmp(&high), std::cmp::Ordering::Less);
    assert_eq!(high.cmp(&low), std::cmp::Ordering::Greater);
    assert_eq!(high.cmp(&high_b), std::cmp::Ordering::Less);
    assert_eq!(high_b.cmp(&high_ab), std::cmp::Ordering::Greater);
    assert_eq!(high.cmp(&high_ab), std::cmp::Ordering::Less);
    assert_eq!(high.cmp(&high), std::cmp::Ordering::Equal);
    assert_eq!(high.partial_cmp(&high_b), Some(std::cmp::Ordering::Less));
    assert!(low.below(&high) && !high.below(&low));
}

#[test]
fn pop_takes_the_first_of_equal_entries() {
    let mut scheduler = PriorityScheduler::default();
    let mut first = entry("same", 10, 10);
    first.class = TxClass::HighPriority;
    let mut second = entry("same", 10, 10);
    second.class = TxClass::LowPriority;
    scheduler.push(first).unwrap();
    scheduler.push(second).unwrap();
    assert_eq!(scheduler.pop().unwrap().class, TxClass::HighPriority);
    assert_eq!(scheduler.pop().unwrap().class, TxClass::LowPriority);
    assert!(scheduler.pop().is_none());
}
