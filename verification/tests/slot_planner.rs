use chainkit::slot_planner::{
    drain_sorted_by_fee, BlockConstraint, MempoolEntry, PlannedBundle, SlotPlanner,
};
use std::cmp::Ordering;

#[test]
fn test_reject_when_exceeds_limit() {
    let constraint = BlockConstraint {
        max_compute_units: 1000,
        max_transactions: 2,
    };

    let mut planner = SlotPlanner::new(constraint);

    let tx1 = MempoolEntry {
        compute_units: 500,
        fee_micro_lamports: 1000,
    };
    assert!(planner.try_add(tx1), "첫 번째 트랜잭션은 추가되어야 함");

    let tx2 = MempoolEntry {
        compute_units: 400,
        fee_micro_lamports: 800,
    };
    assert!(planner.try_add(tx2), "두 번째 트랜잭션은 추가되어야 함");

    let tx3 = MempoolEntry {
        compute_units: 200,
        fee_micro_lamports: 500,
    };

    let result = planner.try_add(tx3);
    assert_eq!(result, false);
}

#[test]
fn test_sorted_selection_by_fee() {
    let mut heap = Vec::new();
    heap.push(MempoolEntry {
        compute_units: 100,
        fee_micro_lamports: 500,
    });
    heap.push(MempoolEntry {
        compute_units: 200,
        fee_micro_lamports: 2000,
    });
    heap.push(MempoolEntry {
        compute_units: 150,
        fee_micro_lamports: 1500,
    });

    let sorted = drain_sorted_by_fee(&mut heap);

    assert_eq!(sorted[0].fee_micro_lamports, 2000);
}

#[test]
fn slot_planner_should_finalize() {
    let constraint = BlockConstraint {
        max_compute_units: 100,
        max_transactions: 2,
    };

    let mut planner = SlotPlanner::new(constraint);

    let tx1 = MempoolEntry {
        compute_units: 100,
        fee_micro_lamports: 50,
    };

    planner.try_add(tx1);

    let result = planner.finalize();
    assert_eq!(result.entries.len(), 1);
    assert_eq!(result.total_fee_micro_lamports, 50);
    assert_eq!(result.total_compute_units, 100);
}

#[test]
fn slot_planner_should_check_to_try_add_transaction() {
    let constraint = BlockConstraint {
        max_compute_units: 100,
        max_transactions: 2,
    };

    let mut planner = SlotPlanner::new(constraint);

    let tx1 = MempoolEntry {
        compute_units: 100,
        fee_micro_lamports: 50,
    };

    let result = planner.try_add(tx1);
    assert_eq!(result, true);
    assert_eq!(planner.bundle().entries.len(), 1);
    assert_eq!(planner.bundle().total_fee_micro_lamports, 50);

    let tx2 = MempoolEntry {
        compute_units: 100,
        fee_micro_lamports: 50,
    };

    assert_eq!(planner.try_add(tx2), false);
}

#[test]
fn slot_planner_should_check_to_can_add_transaction() {
    let constraint = BlockConstraint {
        max_compute_units: 100,
        max_transactions: 2,
    };

    let planner = SlotPlanner::new(constraint);

    let tx1 = MempoolEntry {
        compute_units: 100,
        fee_micro_lamports: 50,
    };

    let result = planner.can_add(&tx1);
    assert_eq!(result, true);
    assert_eq!(planner.bundle().entries.len(), 0);
    assert_eq!(planner.bundle().total_compute_units, 0);
    assert_eq!(planner.bundle().total_fee_micro_lamports, 0);
}

#[test]
fn slot_planner_should_initialize() {
    let constraint = BlockConstraint {
        max_compute_units: 100,
        max_transactions: 10,
    };

    let planner = SlotPlanner::new(constraint);

    assert_eq!(planner.constraint().max_compute_units, 100);
    assert_eq!(planner.constraint().max_transactions, 10);

    assert_eq!(planner.bundle().entries.len(), 0);
    assert_eq!(planner.bundle().total_compute_units, 0);
    assert_eq!(planner.bundle().total_fee_micro_lamports, 0);
}

#[test]
fn sort_helper_should_sort_by_fee() {
    let mut heap = Vec::new();
    heap.push(MempoolEntry {
        compute_units: 1,
        fee_micro_lamports: 10,
    });
    heap.push(MempoolEntry {
        compute_units: 2,
        fee_micro_lamports: 20,
    });
    heap.push(MempoolEntry {
        compute_units: 3,
        fee_micro_lamports: 15,
    });

    let result = drain_sorted_by_fee(&mut heap);

    assert_eq!(result.len(), 3);
    assert_eq!(result.first().unwrap().fee_micro_lamports, 20);
}

#[test]
fn bundle_should_calculate_remining_capacity() {
    let constraint = BlockConstraint {
        max_compute_units: 100,
        max_transactions: 2,
    };

    let entries = vec![
        MempoolEntry {
            compute_units: 50,
            fee_micro_lamports: 1,
        },
        MempoolEntry {
            compute_units: 20,
            fee_micro_lamports: 2,
        },
    ];

    let mut bundle = PlannedBundle {
        entries,
        total_compute_units: 50 + 20,
        total_fee_micro_lamports: 1 + 2,
    };

    let (cu, tx_count) = bundle.remaining_capacity(&constraint);
    assert_eq!(bundle.entries.len(), 2);
    assert_eq!(cu, 30);
    assert_eq!(tx_count, 0);

    bundle.entries.push(MempoolEntry {
        compute_units: 100,
        fee_micro_lamports: 3,
    });
    bundle.total_compute_units = 50 + 20 + 100;
    bundle.total_fee_micro_lamports = 1 + 2 + 3;

    let (cu, tx_count) = bundle.remaining_capacity(&constraint);
    assert_eq!(bundle.entries.len(), 3);
    assert_eq!(cu, 0);
    assert_eq!(tx_count, 0);
}

#[test]
fn bundle_should_have_transactions() {
    let entries = vec![
        MempoolEntry {
            compute_units: 1,
            fee_micro_lamports: 1,
        },
        MempoolEntry {
            compute_units: 2,
            fee_micro_lamports: 2,
        },
    ];

    let bundle = PlannedBundle {
        entries,
        total_compute_units: 0,
        total_fee_micro_lamports: 0,
    };

    let result = bundle.entries.len();

    assert_eq!(result, 2);
}

#[test]
fn each_entry_should_compare() {
    let tx1 = MempoolEntry {
        compute_units: 10,
        fee_micro_lamports: 1,
    };

    let tx2 = MempoolEntry {
        compute_units: 20,
        fee_micro_lamports: 2,
    };

    let result = tx1.cmp(&tx2);
    assert_eq!(result, Ordering::Less);
}

#[test]
fn each_entry_should_not_eq() {
    let tx1 = MempoolEntry {
        compute_units: 10,
        fee_micro_lamports: 1,
    };

    let tx2 = MempoolEntry {
        compute_units: 20,
        fee_micro_lamports: 2,
    };
    assert_eq!(tx1.eq(&tx2), false);
}

fn entry(compute_units: u32, fee_micro_lamports: u64) -> MempoolEntry {
    MempoolEntry {
        compute_units,
        fee_micro_lamports,
    }
}

#[test]
fn entries_are_equal_when_their_fees_are() {
    assert!(entry(1, 7) == entry(2, 7));
    assert_eq!(entry(9, 7).cmp(&entry(1, 7)), Ordering::Equal);
    assert_eq!(entry(1, 8).cmp(&entry(9, 7)), Ordering::Greater);
    assert_eq!(entry(1, 8).partial_cmp(&entry(9, 9)), Some(Ordering::Less));
}

#[test]
fn drain_sorted_by_fee_empties_the_heap_and_keeps_every_entry() {
    let mut heap = vec![entry(1, 5), entry(2, 9), entry(3, 5), entry(4, 1), entry(5, 9)];
    let sorted = drain_sorted_by_fee(&mut heap);
    assert!(heap.is_empty());
    let fees: Vec<u64> = sorted.iter().map(|e| e.fee_micro_lamports).collect();
    assert_eq!(fees, vec![9, 9, 5, 5, 1]);
    let mut units: Vec<u32> = sorted.iter().map(|e| e.compute_units).collect();
    units.sort();
    assert_eq!(units, vec![1, 2, 3, 4, 5]);
    assert!(drain_sorted_by_fee(&mut heap).is_empty());
}

#[test]
fn can_add_does_not_wrap_around() {
    let mut planner = SlotPlanner::new(BlockConstraint {
        max_compute_units: u32::MAX,
        max_transactions: 3,
    });
    assert!(planner.try_add(entry(u32::MAX - 1, 1)));
    assert!(!planner.can_add(&entry(2, 1)));
    assert!(planner.can_add(&entry(1, 1)));
    assert!(planner.try_add(entry(1, 1)));
    assert!(planner.try_add(entry(0, 1)));
    assert!(!planner.try_add(entry(0, 1)));
    let bundle = planner.finalize();
    assert_eq!(bundle.total_compute_units, u32::MAX);
    assert_eq!(bundle.total_fee_micro_lamports, 3);
    assert_eq!(bundle.entries.len(), 3);
}

#[test]
fn remaining_capacity_of_an_empty_bundle_is_the_limit() {
    let bundle = SlotPlanner::new(BlockConstraint {
        max_compute_units: 7,
        max_transactions: 3,
    })
    .finalize();
    let constraint = BlockConstraint {
        max_compute_units: 7,
        max_transactions: 3,
    };
    assert_eq!(bundle.remaining_capacity(&constraint), (7, 3));
}
