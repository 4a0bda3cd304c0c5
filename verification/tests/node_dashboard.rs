use chainkit::node_dashboard::{count_uninitialized, fastest_peer, summarize_slots, NodePeer};

#[test]
fn test_count_uninitialized() {
    let peers: &[NodePeer] = &[
        NodePeer {
            name: "peer1".to_string(),
            last_slot: None,
            latency_ms: 123,
        },
        NodePeer {
            name: "peer2".to_string(),
            last_slot: None,
            latency_ms: 456,
        },
    ];
    let result = count_uninitialized(peers);
    assert_eq!(result, 2);
}

#[test]
fn test_fastest_peer_is_empty() {
    let peers: &[NodePeer; 0] = &[];
    let result = fastest_peer(peers);
    assert!(result.is_none());
}

#[test]
fn test_fastest_peer_not_empty() {
    let peers: &[NodePeer] = &[
        NodePeer {
            name: "peer1".to_string(),
            last_slot: Some(1),
            latency_ms: 123,
        },
        NodePeer {
            name: "peer2".to_string(),
            last_slot: Some(1),
            latency_ms: 456,
        },
        NodePeer {
            name: "peer3".to_string(),
            last_slot: Some(1),
            latency_ms: 789,
        },
    ];
    let result = fastest_peer(peers);
    assert_eq!(result.unwrap().name, "peer1".to_string());
}

#[test]
fn test_summarize_slots() {
    let peers: &[NodePeer] = &[
        NodePeer {
            name: "peer1".to_string(),
            last_slot: None,
            latency_ms: 123,
        },
        NodePeer {
            name: "peer2".to_string(),
            last_slot: Some(1),
            latency_ms: 456,
        },
    ];
    let result = summarize_slots(peers);
    assert_eq!(result.len(), 2);
    assert_eq!(result[0], "peer1 awaiting first block");
    assert_eq!(result[1], "peer2 synced up to slot 1");
}

fn peer(name: &str, last_slot: Option<u64>, latency_ms: u64) -> NodePeer {
    NodePeer {
        name: name.to_string(),
        last_slot,
        latency_ms,
    }
}

#[test]
fn count_uninitialized_skips_synced_peers() {
    let peers = vec![peer("a", None, 1), peer("b", Some(7), 2), peer("c", None, 3)];
    assert_eq!(count_uninitialized(&peers), 2);
    assert_eq!(count_uninitialized(&[]), 0);
}

#[test]
fn fastest_peer_prefers_the_earliest_of_equals() {
    let peers = vec![peer("slow", Some(1), 50), peer("first", None, 10), peer("second", Some(2), 10)];
    assert_eq!(fastest_peer(&peers).unwrap().name, "first");
}

#[test]
fn summarize_slots_renders_large_slots() {
    let peers = vec![peer("p", Some(1234567890), 1)];
    assert_eq!(summarize_slots(&peers), vec!["p synced up to slot 1234567890".to_string()]);
    assert!(summarize_slots(&[]).is_empty());
}
