use chainkit::header_buffer::{BlockHeader, HeaderBuffer, HeaderInsertError};

fn make_header(number: u64, hash: &str, parent_hash: &str, difficulty: u64) -> BlockHeader {
    BlockHeader {
        number,
        hash: hash.to_string(),
        parent_hash: parent_hash.to_string(),
        difficulty,
    }
}

fn genesis_fixture() -> BlockHeader {
    BlockHeader {
        number: 0,
        hash: "0x1234".to_string(),
        parent_hash: "0x".to_string(),
        difficulty: 0,
    }
}

fn block_header_fixture(
    number: u64,
    hash: String,
    parent_hash: String,
    difficulty: u64,
) -> BlockHeader {
    BlockHeader {
        number,
        hash,
        parent_hash,
        difficulty,
    }
}

#[test]
fn appends_headers_in_sequence() {
    let genesis = make_header(0, "0xgenesis", "0x", 3);
    let mut buffer = HeaderBuffer::new(genesis.clone());

    let header1 = make_header(1, "0x1", "0xgenesis", 4);
    let header2 = make_header(2, "0x2", "0x1", 5);

    buffer
        .try_append(header1.clone())
        .expect("header1 append should succeed");
    buffer
        .try_append(header2.clone())
        .expect("header2 append should succeed");

    assert_eq!(buffer.head(), Some(&header2));
    assert_eq!(
        buffer.total_difficulty(),
        (genesis.difficulty + header1.difficulty + header2.difficulty) as u128
    );
}

#[test]
fn rejects_out_of_sequence_number() {
    let genesis = make_header(0, "0xgenesis", "0x", 1);
    let mut buffer = HeaderBuffer::new(genesis.clone());

    let parent = make_header(1, "0xparent", "0xgenesis", 1);
    buffer
        .try_append(parent.clone())
        .expect("parent append should succeed");

    let invalid_child = make_header(3, "0xchild", "0xparent", 1);
    let result = buffer.try_append(invalid_child);

    assert!(
        matches!(result, Err(HeaderInsertError::NumberMismatch { expected, got }) if expected == 2 && got == 3)
    );
}

#[test]
fn should_get_total_difficulty() {
    let genesis = BlockHeader {
        number: 0,
        hash: "0xgenesis".to_string(),
        parent_hash: "0x".to_string(),
        difficulty: 2,
    };
    let mut buffer = HeaderBuffer::new(genesis.clone());

    let header = block_header_fixture(1, "0xaaaa".to_string(), genesis.hash.clone(), 3);
    buffer.try_append(header).expect("append should succeed");

    assert_eq!(buffer.total_difficulty(), (genesis.difficulty as u128) + 3);
}

#[test]
fn should_create_new_header_buffer() {
    let genesis = genesis_fixture();
    let buffer = HeaderBuffer::new(genesis.clone());

    assert_eq!(buffer.len(), 1);
    assert_eq!(buffer.len(), 1);
    assert_eq!(buffer.total_difficulty(), genesis.difficulty as u128);

    let header = buffer.get(0);
    assert!(header.is_some());

    let unwrap_header = header.unwrap();
    assert_eq!(unwrap_header.difficulty, 0);
    assert_eq!(unwrap_header.number, 0);
    assert_eq!(unwrap_header.hash, "0x1234".to_string());
    assert_eq!(unwrap_header.parent_hash, "0x".to_string());

    assert_eq!(buffer.index_of(&unwrap_header.hash), Some(0));
}

#[test]
fn should_append_header_when_parent_matches() {
    let mut buffer = HeaderBuffer::new(genesis_fixture());
    let new_header = block_header_fixture(1, "0x5678".to_string(), "0x1234".to_string(), 5);

    buffer
        .try_append(new_header.clone())
        .expect("append should succeed");

    assert_eq!(buffer.len(), 2);
    assert_eq!(buffer.head(), Some(&new_header));
    assert_eq!(buffer.total_difficulty(), (new_header.difficulty) as u128);
}

#[test]
fn should_reject_duplicate_hash() {
    let mut buffer = HeaderBuffer::new(genesis_fixture());
    let new_header = block_header_fixture(1, "0x5678".to_string(), "0x1234".to_string(), 1);

    buffer
        .try_append(new_header.clone())
        .expect("first append should succeed");
    let result = buffer.try_append(new_header);

    assert!(matches!(
        result,
        Err(HeaderInsertError::DuplicationHash { .. })
    ));
}

#[test]
fn should_reject_when_parent_missing() {
    let mut buffer = HeaderBuffer::new(genesis_fixture());
    let orphan = block_header_fixture(1, "0xorphan".to_string(), "0xdeadbeef".to_string(), 1);

    let result = buffer.try_append(orphan);

    assert!(matches!(
        result,
        Err(HeaderInsertError::ParentNotFound { .. })
    ));
}

#[test]
fn should_reject_when_number_is_not_sequential() {
    let mut buffer = HeaderBuffer::new(genesis_fixture());
    let parent = block_header_fixture(1, "0xparent".to_string(), "0x1234".to_string(), 1);
    buffer
        .try_append(parent)
        .expect("parent append should succeed");

    let child = block_header_fixture(3, "0xchild".to_string(), "0xparent".to_string(), 1);
    let result = buffer.try_append(child);

    assert!(
        matches!(result, Err(HeaderInsertError::NumberMismatch { expected, got }) if expected == 2 && got == 3)
    );
}

#[test]
fn rejected_headers_leave_the_buffer_as_it_was() {
    let mut buffer = HeaderBuffer::new(make_header(7, "g", "", 9));
    assert_eq!(
        buffer.try_append(make_header(8, "g", "g", 1)),
        Err(HeaderInsertError::DuplicationHash { hash: "g".to_string() })
    );
    assert_eq!(
        buffer.try_append(make_header(8, "a", "nobody", 1)),
        Err(HeaderInsertError::ParentNotFound { parent_hash: "nobody".to_string() })
    );
    assert_eq!(
        buffer.try_append(make_header(7, "a", "g", 1)),
        Err(HeaderInsertError::NumberMismatch { expected: 8, got: 7 })
    );
    assert_eq!(buffer.len(), 1);
    assert_eq!(buffer.total_difficulty(), 9);
    assert_eq!(buffer.head(), Some(&make_header(7, "g", "", 9)));
}

#[test]
fn a_header_may_hang_on_any_held_header() {
    let mut buffer = HeaderBuffer::new(make_header(0, "g", "", 1));
    buffer.try_append(make_header(1, "a", "g", u64::MAX)).unwrap();
    buffer.try_append(make_header(1, "b", "g", u64::MAX)).unwrap();
    buffer.try_append(make_header(2, "c", "a", 5)).unwrap();
    assert_eq!(buffer.len(), 4);
    assert_eq!(buffer.index_of("b"), Some(2));
    assert_eq!(buffer.get(3), Some(&make_header(2, "c", "a", 5)));
    assert_eq!(buffer.get(4), None);
    assert_eq!(buffer.total_difficulty(), 2 * (u64::MAX as u128) + 6);
}
