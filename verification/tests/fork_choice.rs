use chainkit::fork_choice::{BlockHeader, HeaderForkChoice, HeaderInsertError, ReorgOutcome};

fn make_header(hash: &str, parent: Option<&str>, number: u64, difficulty: u64) -> BlockHeader {
    BlockHeader {
        hash: hash.to_string(),
        parent_hash: parent.map(|p| p.to_string()),
        number,
        difficulty,
    }
}

#[test]
fn simple_extension_returns_extended() {
    let genesis = make_header("genesis", None, 0, 10);
    let genesis_hash = genesis.hash.clone();
    let mut fork_choice = HeaderForkChoice::new(genesis.clone());

    let child = make_header("child-1", Some(&genesis_hash), 1, 3);
    let child_hash = child.hash.clone();

    let outcome = fork_choice.try_insert(child.clone()).expect("insert child");
    match outcome {
        ReorgOutcome::Extended { new_head } => assert_eq!(new_head.hash, child_hash),
        other => panic!("expected Extended outcome, got {:?}", other),
    }

    let canonical: Vec<_> = fork_choice.canonical_hashes();
    assert_eq!(canonical, vec![genesis_hash, child.hash.clone()]);
    assert_eq!(fork_choice.head().number, 1);
}

#[test]
fn weaker_fork_does_not_reorganize() {
    let genesis = make_header("genesis", None, 0, 10);
    let genesis_hash = genesis.hash.clone();
    let mut fork_choice = HeaderForkChoice::new(genesis.clone());

    let strong_child = make_header("strong-child", Some(&genesis_hash), 1, 4);
    let strong_child_hash = strong_child.hash.clone();
    assert!(matches!(
        fork_choice.try_insert(strong_child.clone()),
        Ok(ReorgOutcome::Extended { .. })
    ));

    let weak_child = make_header("weak-child", Some(&genesis_hash), 1, 1);
    let outcome = fork_choice
        .try_insert(weak_child)
        .expect("insert weak fork");
    assert!(matches!(outcome, ReorgOutcome::NoReorg));

    assert_eq!(fork_choice.canonical_hashes().len(), 2);
    assert_eq!(fork_choice.head().hash.clone(), strong_child_hash);
}

#[test]
fn heavier_side_chain_triggers_reorg() {
    let genesis = make_header("genesis", None, 0, 10);
    let genesis_hash = genesis.hash.clone();
    let mut fork_choice = HeaderForkChoice::new(genesis.clone());

    let branch_a1 = make_header("branch-a1", Some(&genesis_hash), 1, 2);
    let branch_a1_hash = branch_a1.hash.clone();
    fork_choice
        .try_insert(branch_a1.clone())
        .expect("insert branch a1");

    let branch_a2 = make_header("branch-a2", Some(&branch_a1_hash), 2, 2);
    let branch_a2_hash = branch_a2.hash.clone();
    fork_choice
        .try_insert(branch_a2.clone())
        .expect("insert branch a2");

    let heavy_branch = make_header("branch-b1", Some(&genesis_hash), 1, 6);
    let heavy_branch_hash = heavy_branch.hash.clone();

    let outcome = fork_choice
        .try_insert(heavy_branch.clone())
        .expect("insert heavier fork");
    match outcome {
        ReorgOutcome::Reorganized {
            new_head,
            old_head,
            depth,
        } => {
            assert_eq!(new_head.hash, heavy_branch_hash);
            assert_eq!(old_head.hash, branch_a2_hash);
            assert_eq!(depth, 2);
        }
        other => panic!("expected Reorganized outcome, got {:?}", other),
    }

    let canonical: Vec<_> = fork_choice.canonical_hashes();
    assert_eq!(canonical, vec![genesis_hash, heavy_branch.hash.clone()]);
    assert_eq!(fork_choice.head().number, 1);
}

#[test]
fn new_fork_choice_follows_genesis() {
    let genesis = make_header("root", Some("before-time"), 41, 3);
    let fork_choice = HeaderForkChoice::new(genesis.clone());
    assert_eq!(fork_choice.canonical_hashes(), vec!["root".to_string()]);
    assert_eq!(fork_choice.head(), &genesis);
}

#[test]
fn rejections_name_their_reason_and_change_nothing() {
    let mut fork_choice = HeaderForkChoice::new(make_header("g", None, 0, 1));
    match fork_choice.try_insert(make_header("g", None, 0, 1)) {
        Err(HeaderInsertError::DuplicateHash { hash }) => assert_eq!(hash, "g"),
        other => panic!("expected DuplicateHash, got {:?}", other),
    }
    match fork_choice.try_insert(make_header("a", None, 1, 1)) {
        Err(HeaderInsertError::UnknownParent { parent_hash }) => {
            assert_eq!(parent_hash, "none (header a)")
        }
        other => panic!("expected UnknownParent, got {:?}", other),
    }
    match fork_choice.try_insert(make_header("a", Some("nobody"), 1, 1)) {
        Err(HeaderInsertError::UnknownParent { parent_hash }) => assert_eq!(parent_hash, "nobody"),
        other => panic!("expected UnknownParent, got {:?}", other),
    }
    match fork_choice.try_insert(make_header("a", Some("g"), 2, 1)) {
        Err(HeaderInsertError::NumberMismatch { expected, got }) => {
            assert_eq!((expected, got), (1, 2))
        }
        other => panic!("expected NumberMismatch, got {:?}", other),
    }
    assert_eq!(fork_choice.canonical_hashes(), vec!["g".to_string()]);
}

#[test]
fn equal_weight_keeps_the_chain_seen_first() {
    let mut fork_choice = HeaderForkChoice::new(make_header("g", None, 0, 1));
    fork_choice.try_insert(make_header("a", Some("g"), 1, 5)).unwrap();
    let outcome = fork_choice.try_insert(make_header("b", Some("g"), 1, 5)).unwrap();
    assert!(matches!(outcome, ReorgOutcome::NoReorg));
    assert_eq!(fork_choice.head().hash, "a");
}

#[test]
fn reorg_depth_counts_only_the_blocks_rolled_back() {
    let mut fork_choice = HeaderForkChoice::new(make_header("g", None, 0, 1));
    fork_choice.try_insert(make_header("a1", Some("g"), 1, 1)).unwrap();
    fork_choice.try_insert(make_header("a2", Some("a1"), 2, 1)).unwrap();
    fork_choice.try_insert(make_header("a3", Some("a2"), 3, 1)).unwrap();
    // A fork from a1 that stays lighter for one block and then wins.
    let first = fork_choice.try_insert(make_header("b2", Some("a1"), 2, 1)).unwrap();
    assert!(matches!(first, ReorgOutcome::NoReorg));
    let outcome = fork_choice.try_insert(make_header("b3", Some("b2"), 3, 9)).unwrap();
    match outcome {
        ReorgOutcome::Reorganized { new_head, old_head, depth } => {
            assert_eq!(new_head, make_header("b3", Some("b2"), 3, 9));
            assert_eq!(old_head, make_header("a3", Some("a2"), 3, 1));
            assert_eq!(depth, 2);
        }
        other => panic!("expected Reorganized outcome, got {:?}", other),
    }
    assert_eq!(
        fork_choice.canonical_hashes(),
        vec!["g".to_string(), "a1".to_string(), "b2".to_string(), "b3".to_string()]
    );
    // The old branch can win the chain back.
    let back = fork_choice.try_insert(make_header("a4", Some("a3"), 4, 20)).unwrap();
    match back {
        ReorgOutcome::Reorganized { depth, .. } => assert_eq!(depth, 2),
        other => panic!("expected Reorganized outcome, got {:?}", other),
    }
    assert_eq!(fork_choice.head().hash, "a4");
    assert_eq!(fork_choice.canonical_hashes().len(), 5);
}
