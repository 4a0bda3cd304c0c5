use chainkit::mempool_pipeline::{
    compute_account_stats, filter_transactions, group_by_account, AccountStats, MempoolFilter,
    PendingTx, ThresholdFilter, TxStatus,
};

fn group_of<'a>(grouped: &'a [(String, Vec<PendingTx>)], account: &str) -> &'a Vec<PendingTx> {
    &grouped
        .iter()
        .find(|(key, _)| key == account)
        .expect("account is grouped")
        .1
}

fn stats_of<'a>(stats: &'a [(String, AccountStats)], account: &str) -> &'a AccountStats {
    &stats
        .iter()
        .find(|(key, _)| key == account)
        .expect("account has stats")
        .1
}

fn pending(id: &str, account: &str, fee: u64, size: u32) -> PendingTx {
    PendingTx {
        id: id.into(),
        account: account.into(),
        fee_micro_lamports: fee,
        payload_size: size,
        status: TxStatus::Pending,
    }
}

#[test]
fn threshold_filter_checks_fee_payload_and_rejections() {
    let valid = PendingTx {
        id: "tx-valid".into(),
        account: "alice".into(),
        fee_micro_lamports: 500,
        payload_size: 200,
        status: TxStatus::Pending,
    };
    let low_fee = PendingTx {
        fee_micro_lamports: 100,
        ..valid.clone()
    };
    let heavy_payload = PendingTx {
        payload_size: 900,
        ..valid.clone()
    };
    let rejected = PendingTx {
        status: TxStatus::Rejected {
            reason: "simulation fail".into(),
        },
        ..valid.clone()
    };

    let filter = ThresholdFilter {
        min_fee: 300,
        max_payload: 512,
        reject_simulation_failures: true,
    };

    assert!(filter.allow(&valid));
    assert!(!filter.allow(&low_fee));
    assert!(!filter.allow(&heavy_payload));
    assert!(!filter.allow(&rejected));
}

#[test]
fn filter_transactions_returns_references_with_original_lifetime() {
    let txs = vec![
        PendingTx {
            id: "keep".into(),
            account: "bob".into(),
            fee_micro_lamports: 1_000,
            payload_size: 100,
            status: TxStatus::Pending,
        },
        PendingTx {
            id: "drop".into(),
            account: "bob".into(),
            fee_micro_lamports: 10,
            payload_size: 100,
            status: TxStatus::Rejected {
                reason: "low fee".into(),
            },
        },
    ];

    let filter = ThresholdFilter {
        min_fee: 500,
        max_payload: 256,
        reject_simulation_failures: true,
    };

    let allowed = filter_transactions(&txs, &filter);

    assert_eq!(allowed.len(), 1);
    assert_eq!(allowed[0].id, "keep");
    assert!(std::ptr::eq(allowed[0], &txs[0]));
}

#[test]
fn grouping_and_stats_summarize_accounts_correctly() {
    let txs = vec![
        PendingTx {
            id: "a1".into(),
            account: "alice".into(),
            fee_micro_lamports: 400,
            payload_size: 120,
            status: TxStatus::Pending,
        },
        PendingTx {
            id: "a2".into(),
            account: "alice".into(),
            fee_micro_lamports: 600,
            payload_size: 200,
            status: TxStatus::Simulated {
                compute_units: 50_000,
            },
        },
        PendingTx {
            id: "b1".into(),
            account: "bob".into(),
            fee_micro_lamports: 300,
            payload_size: 150,
            status: TxStatus::Pending,
        },
        PendingTx {
            id: "b2".into(),
            account: "bob".into(),
            fee_micro_lamports: 200,
            payload_size: 90,
            status: TxStatus::Rejected {
                reason: "conflict".into(),
            },
        },
    ];

    let grouped = group_by_account(&txs);
    let keys: Vec<_> = grouped.iter().map(|(key, _)| key.clone()).collect();
    assert_eq!(keys, vec!["alice".to_string(), "bob".to_string()]);

    assert_eq!(group_of(&grouped, "alice").len(), 2);
    assert_eq!(group_of(&grouped, "bob").len(), 2);

    let stats = compute_account_stats(&grouped);
    let alice_stats = stats_of(&stats, "alice");
    assert_eq!(alice_stats.total_fee, 1_000);
    assert_eq!(alice_stats.total_bytes, 320);
    assert_eq!(alice_stats.pending, 1);

    let bob_stats = stats_of(&stats, "bob");
    assert_eq!(bob_stats.total_fee, 500);
    assert_eq!(bob_stats.total_bytes, 240);
    assert_eq!(bob_stats.pending, 1);
}

#[test]
fn threshold_filter_lets_rejections_pass_when_told_to() {
    let rejected = PendingTx {
        status: TxStatus::Rejected {
            reason: "simulation fail".into(),
        },
        ..pending("r", "alice", 300, 512)
    };
    let lenient = ThresholdFilter {
        min_fee: 300,
        max_payload: 512,
        reject_simulation_failures: false,
    };
    assert!(lenient.allow(&rejected));
    assert!(lenient.allow(&pending("edge", "alice", 300, 512)));
    assert!(!lenient.allow(&pending("fee", "alice", 299, 512)));
    assert!(!lenient.allow(&pending("size", "alice", 300, 513)));
}

#[test]
fn filter_transactions_keeps_the_order() {
    let txs = vec![
        pending("one", "a", 5, 1),
        pending("two", "a", 1, 1),
        pending("three", "b", 7, 1),
        pending("four", "c", 9, 1),
    ];
    let filter = ThresholdFilter {
        min_fee: 5,
        max_payload: 10,
        reject_simulation_failures: true,
    };
    let ids: Vec<&str> = filter_transactions(&txs, &filter)
        .iter()
        .map(|tx| tx.id.as_str())
        .collect();
    assert_eq!(ids, vec!["one", "three", "four"]);
    assert!(filter_transactions(&[], &filter).is_empty());
}

#[test]
fn group_by_account_orders_accounts_and_keeps_arrival_order() {
    let txs = vec![
        pending("z1", "zoe", 1, 1),
        pending("b1", "bob", 2, 1),
        pending("z2", "zoe", 3, 1),
        pending("a1", "al", 4, 1),
        pending("A1", "Al", 5, 1),
        pending("b2", "bob", 6, 1),
        pending("e1", "", 7, 1),
    ];
    let grouped = group_by_account(&txs);
    let keys: Vec<&str> = grouped.iter().map(|(key, _)| key.as_str()).collect();
    assert_eq!(keys, vec!["", "Al", "al", "bob", "zoe"]);
    let zoe: Vec<&str> = group_of(&grouped, "zoe").iter().map(|tx| tx.id.as_str()).collect();
    assert_eq!(zoe, vec!["z1", "z2"]);
    let bob: Vec<&str> = group_of(&grouped, "bob").iter().map(|tx| tx.id.as_str()).collect();
    assert_eq!(bob, vec!["b1", "b2"]);
    assert!(group_by_account(&[]).is_empty());
}

#[test]
fn group_by_account_orders_by_bytes_like_string_order() {
    let txs = vec![
        pending("1", "é", 1, 1),
        pending("2", "z", 1, 1),
        pending("3", "ab", 1, 1),
        pending("4", "a", 1, 1),
        pending("5", "한", 1, 1),
    ];
    let grouped = group_by_account(&txs);
    let keys: Vec<String> = grouped.iter().map(|(key, _)| key.clone()).collect();
    let mut expected = keys.clone();
    expected.sort();
    assert_eq!(keys, expected);
    assert_eq!(keys, vec!["a", "ab", "z", "é", "한"]);
}

#[test]
fn compute_account_stats_counts_only_pending() {
    let grouped = vec![(
        "solo".to_string(),
        vec![
            pending("p", "solo", u64::MAX - 1, u32::MAX - 1),
            PendingTx {
                status: TxStatus::Simulated { compute_units: 9 },
                ..pending("s", "solo", 1, 1)
            },
        ],
    )];
    let stats = compute_account_stats(&grouped);
    assert_eq!(stats.len(), 1);
    assert_eq!(stats[0].0, "solo");
    assert_eq!(stats[0].1.total_fee, u64::MAX);
    assert_eq!(stats[0].1.total_bytes, u32::MAX);
    assert_eq!(stats[0].1.pending, 1);
}
