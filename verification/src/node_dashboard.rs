//! A view over the peers a node is connected to: who has not synced yet,
//! who answers fastest, and a line of report for each.

use vstd::prelude::*;
use vstd::string::StringExecFns;
use crate::text::{decimal, push_decimal};

verus! {

/// A peer as the node sees it.
#[derive(Debug)]
pub struct NodePeer {
    /// Name of the peer.
    pub name: String,
    /// The last slot the peer reported; `None` before its first block.
    pub last_slot: Option<u64>,
    /// Round-trip time in milliseconds.
    pub latency_ms: u64,
}

/// Number of peers that have reported no slot yet.
pub open spec fn uninitialized(peers: Seq<NodePeer>) -> nat
    decreases peers.len(),
{
    if peers.len() == 0 {
        0
    } else {
        uninitialized(peers.drop_last()) + if peers.last().last_slot is None {
            1nat
        } else {
            0nat
        }
    }
}

/// Counts the peers that have not received their first block.
pub fn count_uninitialized(peers: &[NodePeer]) -> (count: usize)
    ensures
        count == uninitialized(peers@),
{
    let mut count: usize = 0;
    let mut i: usize = 0;
    assert(peers@.take(0) =~= Seq::empty());
    while i < peers.len()
        invariant
            i <= peers@.len(),
            count == uninitialized(peers@.take(i as int)),
            count <= i,
        decreases peers@.len() - i,
    {
        proof {
            assert(peers@.take(i + 1).drop_last() =~= peers@.take(i as int));
        }
        if peers[i].last_slot.is_none() {
            count += 1;
        }
        i += 1;
    }
    assert(peers@.take(i as int) =~= peers@);
    count
}

/// Position of the fastest peer: the first of those with the least latency.
pub open spec fn fastest_index(peers: Seq<NodePeer>) -> int
    decreases peers.len(),
{
    if peers.len() <= 1 {
        0
    } else {
        let before = fastest_index(peers.drop_last());
        if peers.last().latency_ms < peers[before].latency_ms {
            peers.len() - 1
        } else {
            before
        }
    }
}

/// `fastest_index` names a peer, no peer is faster, and every peer before
/// it is strictly slower.
pub proof fn lemma_fastest_index(peers: Seq<NodePeer>)
    requires
        peers.len() > 0,
    ensures
        0 <= fastest_index(peers) < peers.len(),
        forall|j: int|
            0 <= j < peers.len() ==> peers[fastest_index(peers)].latency_ms <= (
            #[trigger] peers[j]).latency_ms,
        forall|j: int|
            0 <= j < fastest_index(peers) ==> peers[fastest_index(peers)].latency_ms < (
            #[trigger] peers[j]).latency_ms,
    decreases peers.len(),
{
    if peers.len() > 1 {
        let shorter = peers.drop_last();
        lemma_fastest_index(shorter);
        let before = fastest_index(shorter);
        let best = fastest_index(peers);
        assert forall|j: int| 0 <= j < peers.len() implies peers[best].latency_ms <= (
        #[trigger] peers[j]).latency_ms by {
            if j < shorter.len() {
                assert(shorter[j] == peers[j]);
            }
        }
        assert forall|j: int| 0 <= j < best implies peers[best].latency_ms < (
        #[trigger] peers[j]).latency_ms by {
            assert(shorter[j] == peers[j]);
        }
    }
}

/// The peer with the least latency, the earliest of them where several
/// share it; `None` where there is no peer.
pub fn fastest_peer<'a>(peers: &'a [NodePeer]) -> (out: Option<&'a NodePeer>)
    ensures
        peers@.len() == 0 ==> out is None,
        peers@.len() > 0 ==> out == Some(&peers@[fastest_index(peers@)]),
        out matches Some(peer) ==> forall|j: int|
            0 <= j < peers@.len() ==> peer.latency_ms <= (#[trigger] peers@[j]).latency_ms,
{
    if peers.len() == 0 {
        return None;
    }
    proof {
        lemma_fastest_index(peers@);
    }
    let mut best: usize = 0;
    let mut i: usize = 1;
    while i < peers.len()
        invariant
            1 <= i <= peers@.len(),
            best < i,
            best == fastest_index(peers@.take(i as int)),
        decreases peers@.len() - i,
    {
        proof {
            let longer = peers@.take(i + 1);
            assert(longer.drop_last() =~= peers@.take(i as int));
            assert(longer.last() == peers@[i as int]);
            assert(longer[best as int] == peers@[best as int]);
        }
        if peers[i].latency_ms < peers[best].latency_ms {
            best = i;
        }
        i += 1;
    }
    assert(peers@.take(i as int) =~= peers@);
    Some(&peers[best])
}

/// The report line of one peer.
pub open spec fn slot_line(peer: NodePeer) -> Seq<char> {
    match peer.last_slot {
        None => peer.name@ + " awaiting first block"@,
        Some(slot) => peer.name@ + " synced up to slot "@ + decimal(slot as nat),
    }
}

/// One line per peer, in their order: the slot it has synced to, or that it
/// still waits for its first block.
pub fn summarize_slots(peers: &[NodePeer]) -> (lines: Vec<String>)
    ensures
        lines@.len() == peers@.len(),
        forall|i: int| 0 <= i < lines@.len() ==> (#[trigger] lines@[i])@ == slot_line(peers@[i]),
{
    let mut lines: Vec<String> = Vec::new();
    let mut i: usize = 0;
    while i < peers.len()
        invariant
            i <= peers@.len(),
            lines@.len() == i,
            forall|k: int| 0 <= k < i ==> (#[trigger] lines@[k])@ == slot_line(peers@[k]),
        decreases peers@.len() - i,
    {
        let peer = &peers[i];
        let mut line: String = peer.name.clone();
        match peer.last_slot {
            None => {
                line.append(" awaiting first block");
            },
            Some(slot) => {
                line.append(" synced up to slot ");
                push_decimal(&mut line, slot);
            },
        }
        lines.push(line);
        i += 1;
    }
    lines
}

} // verus!
