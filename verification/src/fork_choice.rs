//! Fork choice over block headers: every header is kept with its parent
//! link and accumulated difficulty, and the canonical chain is the one that
//! ends in the heaviest header seen first.

use vstd::prelude::*;
use vstd::string::StringExecFns;
use crate::text::texts;

verus! {

/// Why a header was not inserted.
#[derive(Debug)]
pub enum HeaderInsertError {
    /// A header with this hash is already stored.
    DuplicateHash { hash: String },
    /// The parent is not stored, or the header names none.
    UnknownParent { parent_hash: String },
    /// The header's number does not follow its parent's.
    NumberMismatch { expected: u64, got: u64 },
}

/// What an insertion did to the canonical chain.
#[derive(Debug)]
pub enum ReorgOutcome {
    /// The canonical chain is as before.
    NoReorg,
    /// The header was attached to the old head and is the new head.
    Extended { new_head: BlockHeader },
    /// Another fork became canonical; `depth` blocks were rolled back.
    Reorganized { new_head: BlockHeader, old_head: BlockHeader, depth: usize },
}

/// A block header as it comes from the network.
#[derive(Debug, PartialEq, Eq)]
pub struct BlockHeader {
    /// Height of the block.
    pub number: u64,
    /// Hash of the block.
    pub hash: String,
    /// Hash of the block before it; `None` for a genesis block.
    pub parent_hash: Option<String>,
    /// Difficulty of the block.
    pub difficulty: u64,
}

impl Clone for BlockHeader {
    fn clone(&self) -> (copy: Self)
        ensures
            copy == *self,
    {
        BlockHeader {
            number: self.number,
            hash: self.hash.clone(),
            parent_hash: match &self.parent_hash {
                Some(parent) => Some(parent.clone()),
                None => None,
            },
            difficulty: self.difficulty,
        }
    }
}

/// A header with the link to its parent and the difficulty accumulated
/// from genesis up to it.
#[derive(Debug)]
pub struct StoredHeader {
    /// The header as it was received.
    pub header: BlockHeader,
    /// Hash of the stored parent; `None` for genesis.
    pub parent: Option<String>,
    /// Sum of the difficulties from genesis to this header.
    pub total_difficulty: u128,
}

/// Whether some node has this hash.
pub open spec fn knows(nodes: Seq<StoredHeader>, hash: Seq<char>) -> bool {
    exists|i: int| 0 <= i < nodes.len() && (#[trigger] nodes[i]).header.hash@ == hash
}

/// Position of the first node with this hash; the length where there is none.
pub open spec fn node_position(nodes: Seq<StoredHeader>, hash: Seq<char>) -> int
    decreases nodes.len(),
{
    if nodes.len() == 0 {
        0
    } else if nodes[0].header.hash@ == hash {
        0
    } else {
        1 + node_position(nodes.drop_first(), hash)
    }
}

/// `node_position` is the first position with the hash, and the length
/// exactly where no node has it.
pub proof fn lemma_node_position(nodes: Seq<StoredHeader>, hash: Seq<char>)
    ensures
        0 <= node_position(nodes, hash) <= nodes.len(),
        node_position(nodes, hash) < nodes.len() <==> knows(nodes, hash),
        node_position(nodes, hash) < nodes.len() ==> nodes[node_position(
            nodes,
            hash,
        )].header.hash@ == hash,
        forall|k: int|
            0 <= k < node_position(nodes, hash) ==> (#[trigger] nodes[k]).header.hash@ != hash,
    decreases nodes.len(),
{
    if nodes.len() > 0 && nodes[0].header.hash@ != hash {
        let rest = nodes.drop_first();
        lemma_node_position(rest, hash);
        let pos = node_position(nodes, hash);
        if pos < nodes.len() {
            assert(nodes[pos] == rest[pos - 1]);
        }
        if knows(nodes, hash) {
            let i = choose|i: int| 0 <= i < nodes.len() && (#[trigger] nodes[i]).header.hash@ == hash;
            assert(rest[i - 1] == nodes[i]);
        }
        assert forall|k: int| 0 <= k < pos implies (#[trigger] nodes[k]).header.hash@ != hash by {
            if k > 0 {
                assert(nodes[k] == rest[k - 1]);
            }
        }
    }
}

/// No two nodes share a hash.
pub open spec fn distinct_hashes(nodes: Seq<StoredHeader>) -> bool {
    forall|i: int, j: int|
        0 <= i < j < nodes.len() ==> (#[trigger] nodes[i]).header.hash@ != (
        #[trigger] nodes[j]).header.hash@
}

/// With distinct hashes a node is found at its own position.
pub proof fn lemma_position_of_node(nodes: Seq<StoredHeader>, i: int)
    requires
        distinct_hashes(nodes),
        0 <= i < nodes.len(),
    ensures
        node_position(nodes, nodes[i].header.hash@) == i,
{
    lemma_node_position(nodes, nodes[i].header.hash@);
    let pos = node_position(nodes, nodes[i].header.hash@);
    if pos < i {
        assert(nodes[pos].header.hash@ != nodes[i].header.hash@);
    }
}

/// Position of the parent of node `i`; -1 where it has none.
pub open spec fn parent_index(nodes: Seq<StoredHeader>, i: int) -> int {
    match nodes[i].parent {
        Some(parent) => node_position(nodes, parent@),
        None => -1,
    }
}

/// Node `i` hangs on an earlier node: its number is the parent's plus one
/// and its accumulated difficulty the parent's plus its own.
pub open spec fn linked(nodes: Seq<StoredHeader>, i: int) -> bool {
    &&& nodes[i].parent is Some
    &&& 0 <= parent_index(nodes, i) < i
    &&& nodes[i].total_difficulty == nodes[parent_index(nodes, i)].total_difficulty
        + nodes[i].header.difficulty
    &&& nodes[i].header.number == nodes[parent_index(nodes, i)].header.number + 1
}

/// The nodes form a tree rooted in the first node, the genesis.
pub open spec fn nodes_wf(nodes: Seq<StoredHeader>) -> bool {
    &&& nodes.len() > 0
    &&& distinct_hashes(nodes)
    &&& nodes[0].parent is None
    &&& nodes[0].total_difficulty == nodes[0].header.difficulty
    &&& forall|i: int| 0 < i < nodes.len() ==> #[trigger] linked(nodes, i)
}

/// The hashes from genesis to node `i`.
pub open spec fn path_to(nodes: Seq<StoredHeader>, i: int) -> Seq<Seq<char>>
    decreases i,
{
    if 0 <= parent_index(nodes, i) < i {
        path_to(nodes, parent_index(nodes, i)).push(nodes[i].header.hash@)
    } else {
        seq![nodes[i].header.hash@]
    }
}

/// How many leading hashes two chains share.
pub open spec fn common_prefix_len(a: Seq<Seq<char>>, b: Seq<Seq<char>>) -> nat
    decreases a.len(),
{
    if a.len() == 0 || b.len() == 0 || a[0] != b[0] {
        0
    } else {
        1 + common_prefix_len(a.drop_first(), b.drop_first())
    }
}

/// A scan that stopped at the first difference settles the common prefix.
pub proof fn lemma_common_prefix(a: Seq<Seq<char>>, b: Seq<Seq<char>>, n: int)
    requires
        0 <= n <= a.len(),
        n <= b.len(),
        forall|k: int| 0 <= k < n ==> a[k] == b[k],
        n == a.len() || n == b.len() || a[n] != b[n],
    ensures
        common_prefix_len(a, b) == n,
    decreases n,
{
    if n > 0 {
        let a1 = a.drop_first();
        let b1 = b.drop_first();
        assert(a[0] == b[0]);
        assert forall|k: int| 0 <= k < n - 1 implies a1[k] == b1[k] by {
            assert(a1[k] == a[k + 1]);
            assert(b1[k] == b[k + 1]);
        }
        if n < a.len() && n < b.len() {
            assert(a1[n - 1] == a[n]);
            assert(b1[n - 1] == b[n]);
        }
        lemma_common_prefix(a1, b1, n - 1);
    }
}

/// What a fork choice is, apart from how it is stored.
pub struct ForkModel {
    /// Hash of the genesis header.
    pub genesis_hash: Seq<char>,
    /// The hashes of the canonical chain, genesis first.
    pub canonical: Seq<Seq<char>>,
    /// Every stored header, in the order of arrival.
    pub nodes: Seq<StoredHeader>,
}

impl ForkModel {
    /// Position of the canonical head among the nodes.
    pub open spec fn head_index(self) -> int {
        node_position(self.nodes, self.canonical.last())
    }

    /// The canonical chain is the path from genesis to its head.
    pub open spec fn chain_wf(self) -> bool {
        &&& nodes_wf(self.nodes)
        &&& self.genesis_hash == self.nodes[0].header.hash@
        &&& self.canonical.len() > 0
        &&& 0 <= self.head_index() < self.nodes.len()
        &&& self.canonical == path_to(self.nodes, self.head_index())
    }

    /// The invariants of a fork choice: the nodes form a tree, the
    /// canonical chain leads to its head, and no node is heavier than the head.
    pub open spec fn wf(self) -> bool {
        &&& self.chain_wf()
        &&& forall|i: int|
            0 <= i < self.nodes.len() ==> (#[trigger] self.nodes[i]).total_difficulty
                <= self.nodes[self.head_index()].total_difficulty
    }
}

/// The accumulated difficulty of node `i` is at most `i + 1` times the
/// largest difficulty.
pub proof fn lemma_difficulty_bound(nodes: Seq<StoredHeader>, i: int)
    requires
        nodes_wf(nodes),
        0 <= i < nodes.len(),
    ensures
        nodes[i].total_difficulty <= (i + 1) * u64::MAX,
    decreases i,
{
    if i > 0 {
        assert(linked(nodes, i));
        let p = parent_index(nodes, i);
        lemma_difficulty_bound(nodes, p);
        assert((p + 1) * u64::MAX + u64::MAX <= (i + 1) * u64::MAX) by (nonlinear_arith)
            requires
                0 <= p < i,
        ;
    }
}

/// A path ends in the hash of its node and starts with the genesis hash.
pub proof fn lemma_path_ends(nodes: Seq<StoredHeader>, i: int)
    requires
        nodes_wf(nodes),
        0 <= i < nodes.len(),
    ensures
        path_to(nodes, i).len() > 0,
        path_to(nodes, i).last() == nodes[i].header.hash@,
        path_to(nodes, i)[0] == nodes[0].header.hash@,
    decreases i,
{
    if i > 0 {
        assert(linked(nodes, i));
        lemma_path_ends(nodes, parent_index(nodes, i));
    }
}

/// A node that arrives behind the others changes neither where their
/// hashes are found nor their paths.
pub proof fn lemma_push_keeps_paths(nodes: Seq<StoredHeader>, node: StoredHeader, i: int)
    requires
        nodes_wf(nodes),
        0 <= i < nodes.len(),
    ensures
        node_position(nodes.push(node), nodes[i].header.hash@) == i,
        parent_index(nodes.push(node), i) == parent_index(nodes, i),
        path_to(nodes.push(node), i) == path_to(nodes, i),
    decreases i,
{
    let longer = nodes.push(node);
    lemma_push_keeps_position(nodes, node, nodes[i].header.hash@);
    lemma_position_of_node(nodes, i);
    if i > 0 {
        assert(linked(nodes, i));
        let p = parent_index(nodes, i);
        lemma_node_position(nodes, nodes[i].parent->Some_0@);
        lemma_push_keeps_position(nodes, node, nodes[i].parent->Some_0@);
        lemma_push_keeps_paths(nodes, node, p);
        assert(longer[i] == nodes[i]);
    } else {
        assert(longer[0] == nodes[0]);
    }
}

/// A known hash is found at the same position after a node arrived.
pub proof fn lemma_push_keeps_position(
    nodes: Seq<StoredHeader>,
    node: StoredHeader,
    hash: Seq<char>,
)
    requires
        knows(nodes, hash),
    ensures
        node_position(nodes.push(node), hash) == node_position(nodes, hash),
    decreases nodes.len(),
{
    let longer = nodes.push(node);
    if nodes.len() > 0 && nodes[0].header.hash@ != hash {
        let rest = nodes.drop_first();
        let i = choose|i: int| 0 <= i < nodes.len() && (#[trigger] nodes[i]).header.hash@ == hash;
        assert(rest[i - 1] == nodes[i]);
        assert(longer.drop_first() =~= rest.push(node));
        lemma_push_keeps_position(rest, node, hash);
    } else if nodes.len() > 0 {
        assert(longer[0] == nodes[0]);
    }
}

/// Looks for the node with this hash.
fn find_node(nodes: &Vec<StoredHeader>, hash: &String) -> (out: Option<usize>)
    ensures
        match out {
            Some(i) => knows(nodes@, hash@) && i == node_position(nodes@, hash@) && i
                < nodes@.len(),
            None => !knows(nodes@, hash@),
        },
{
    let mut i: usize = 0;
    while i < nodes.len()
        invariant
            i <= nodes@.len(),
            forall|k: int| 0 <= k < i ==> (#[trigger] nodes@[k]).header.hash@ != hash@,
        decreases nodes@.len() - i,
    {
        if nodes[i].header.hash == *hash {
            proof {
                lemma_node_position(nodes@, hash@);
                assert(knows(nodes@, hash@));
            }
            return Some(i);
        }
        i += 1;
    }
    None
}

/// What is reported as the parent of a header that names none.
pub open spec fn missing_parent_text(hash: Seq<char>) -> Seq<char> {
    "none (header "@ + hash + ")"@
}

/// Keeps every header it was given and follows the heaviest chain.
pub struct HeaderForkChoice {
    genesis_hash: String,
    canonical: Vec<String>,
    nodes: Vec<StoredHeader>,
}

impl View for HeaderForkChoice {
    type V = ForkModel;

    closed spec fn view(&self) -> ForkModel {
        ForkModel {
            genesis_hash: self.genesis_hash@,
            canonical: texts(self.canonical@),
            nodes: self.nodes@,
        }
    }
}

impl HeaderForkChoice {
    /// See `ForkModel::wf`.
    pub open spec fn wf(&self) -> bool {
        self@.wf()
    }

    /// A fork choice that knows the genesis header only.
    pub fn new(genesis: BlockHeader) -> (out: Self)
        ensures
            out.wf(),
            out@.genesis_hash == genesis.hash@,
            out@.canonical == seq![genesis.hash@],
            out@.nodes == seq![
                StoredHeader {
                    header: genesis,
                    parent: None,
                    total_difficulty: genesis.difficulty as u128,
                },
            ],
    {
        let stored_header = StoredHeader {
            header: genesis.clone(),
            parent: None,
            total_difficulty: genesis.difficulty as u128,
        };
        let genesis_hash = genesis.hash.clone();
        let mut nodes: Vec<StoredHeader> = Vec::new();
        nodes.push(stored_header);
        let mut canonical: Vec<String> = Vec::new();
        canonical.push(genesis_hash.clone());
        let out = HeaderForkChoice { canonical, genesis_hash, nodes };
        proof {
            assert(out@.nodes =~= seq![stored_header]);
            assert(out@.canonical =~= seq![genesis.hash@]);
            assert(out@.canonical.last() == genesis.hash@);
            lemma_node_position(out@.nodes, genesis.hash@);
            assert(out@.head_index() == 0);
            assert(path_to(out@.nodes, 0) =~= seq![genesis.hash@]);
        }
        out
    }

    /// The header at the end of the canonical chain.
    pub fn head(&self) -> (out: &BlockHeader)
        requires
            self.wf(),
        ensures
            *out == self@.nodes[self@.head_index()].header,
    {
        let last_canonical = &self.canonical[self.canonical.len() - 1];
        proof {
            lemma_node_position(self@.nodes, self@.canonical.last());
        }
        let position = find_node(&self.nodes, last_canonical).unwrap();
        &self.nodes[position].header
    }

    /// The hashes of the canonical chain, genesis first.
    pub fn canonical_hashes(&self) -> (out: Vec<String>)
        ensures
            texts(out@) == self@.canonical,
    {
        let mut out: Vec<String> = Vec::new();
        let mut i: usize = 0;
        while i < self.canonical.len()
            invariant
                i <= self.canonical@.len(),
                out@ == self.canonical@.take(i as int),
            decreases self.canonical@.len() - i,
        {
            out.push(self.canonical[i].clone());
            i += 1;
            assert(self.canonical@.take(i as int) =~= self.canonical@.take(i - 1).push(
                self.canonical@[i - 1],
            ));
        }
        assert(self.canonical@.take(i as int) =~= self.canonical@);
        out
    }

    /// The hashes from genesis to the node at `position`, genesis first:
    /// the parent links are followed back and the hashes turned around.
    fn chain_to(&self, position: usize) -> (path: Vec<String>)
        requires
            nodes_wf(self@.nodes),
            position < self@.nodes.len(),
        ensures
            texts(path@) == path_to(self@.nodes, position as int),
    {
        let ghost nodes = self@.nodes;
        let mut reversed: Vec<String> = Vec::new();
        let mut cursor = position;
        let ghost mut tail: Seq<Seq<char>> = Seq::empty();
        assert(path_to(nodes, position as int) =~= path_to(nodes, cursor as int) + tail);
        while cursor > 0
            invariant
                nodes == self@.nodes,
                nodes_wf(nodes),
                cursor <= position < nodes.len(),
                tail.len() == reversed@.len(),
                forall|k: int|
                    0 <= k < tail.len() ==> tail[k] == (#[trigger] reversed@[reversed@.len() - 1
                        - k])@,
                path_to(nodes, position as int) == path_to(nodes, cursor as int) + tail,
            decreases cursor,
        {
            let ghost old_tail = tail;
            let ghost old_reversed = reversed@;
            proof {
                assert(linked(nodes, cursor as int));
                lemma_node_position(nodes, nodes[cursor as int].parent->Some_0@);
            }
            reversed.push(self.nodes[cursor].header.hash.clone());
            let parent = match &self.nodes[cursor].parent {
                Some(parent) => find_node(&self.nodes, parent),
                None => None,
            };
            proof {
                tail = seq![nodes[cursor as int].header.hash@] + old_tail;
                assert forall|k: int| 0 <= k < tail.len() implies tail[k] == (
                #[trigger] reversed@[reversed@.len() - 1 - k])@ by {
                    if k > 0 {
                        assert(tail[k] == old_tail[k - 1]);
                        assert(reversed@[reversed@.len() - 1 - k] == old_reversed[old_reversed.len()
                            - 1 - (k - 1)]);
                    }
                }
                assert(path_to(nodes, position as int) =~= path_to(
                    nodes,
                    parent_index(nodes, cursor as int),
                ) + tail);
            }
            cursor = parent.unwrap();
        }
        let ghost old_tail = tail;
        let ghost old_reversed = reversed@;
        reversed.push(self.nodes[0].header.hash.clone());
        proof {
            tail = seq![nodes[0].header.hash@] + old_tail;
            assert forall|k: int| 0 <= k < tail.len() implies tail[k] == (
            #[trigger] reversed@[reversed@.len() - 1 - k])@ by {
                if k > 0 {
                    assert(tail[k] == old_tail[k - 1]);
                    assert(reversed@[reversed@.len() - 1 - k] == old_reversed[old_reversed.len() - 1
                        - (k - 1)]);
                }
            }
            assert(path_to(nodes, position as int) =~= tail);
            assert forall|k: int| 0 <= k < reversed@.len() implies (#[trigger] reversed@[k])@
                == tail[tail.len() - 1 - k] by {
                let mirrored = tail.len() - 1 - k;
                assert(tail[mirrored] == reversed@[reversed@.len() - 1 - mirrored]@);
            }
        }
        let mut path: Vec<String> = Vec::new();
        while reversed.len() > 0
            invariant
                path@.len() + reversed@.len() == tail.len(),
                forall|k: int| 0 <= k < path@.len() ==> (#[trigger] path@[k])@ == tail[k],
                forall|k: int|
                    0 <= k < reversed@.len() ==> (#[trigger] reversed@[k])@ == tail[tail.len() - 1
                        - k],
            decreases reversed@.len(),
        {
            let hash = reversed.pop().unwrap();
            path.push(hash);
        }
        assert(texts(path@) =~= tail);
        path
    }

    /// Makes the chain that ends in the node with hash `new_hash` canonical
    /// if that node is heavier than the head. Returns whether the canonical
    /// chain changed, and how many of its blocks were rolled back.
    fn rebuild_canonical_if_needed(&mut self, new_hash: &String) -> (out: (bool, usize))
        requires
            old(self)@.chain_wf(),
            knows(old(self)@.nodes, new_hash@),
        ensures
            final(self)@.nodes == old(self)@.nodes,
            final(self)@.genesis_hash == old(self)@.genesis_hash,
            final(self)@.chain_wf(),
            old(self)@.nodes[node_position(old(self)@.nodes, new_hash@)].total_difficulty <= old(
                self,
            )@.nodes[old(self)@.head_index()].total_difficulty ==> out == (false, 0usize)
                && final(self)@.canonical == old(self)@.canonical,
            old(self)@.nodes[node_position(old(self)@.nodes, new_hash@)].total_difficulty > old(
                self,
            )@.nodes[old(self)@.head_index()].total_difficulty ==> {
                &&& out.0
                &&& final(self)@.head_index() == node_position(old(self)@.nodes, new_hash@)
                &&& out.1 == old(self)@.canonical.len() - common_prefix_len(
                    old(self)@.canonical,
                    final(self)@.canonical,
                )
            },
    {
        let ghost pre = self@;
        proof {
            lemma_node_position(pre.nodes, pre.canonical.last());
        }
        let head_position = find_node(
            &self.nodes,
            &self.canonical[self.canonical.len() - 1],
        ).unwrap();
        let candidate = find_node(&self.nodes, new_hash).unwrap();
        if self.nodes[candidate].total_difficulty <= self.nodes[head_position].total_difficulty {
            return (false, 0);
        }
        let path = self.chain_to(candidate);
        let mut prefix: usize = 0;
        while prefix < self.canonical.len() && prefix < path.len() && self.canonical[prefix]
            == path[prefix]
            invariant
                prefix <= self.canonical@.len(),
                prefix <= path@.len(),
                forall|k: int|
                    0 <= k < prefix ==> texts(self.canonical@)[k] == texts(path@)[k],
            decreases self.canonical@.len() - prefix,
        {
            prefix += 1;
        }
        proof {
            lemma_common_prefix(texts(self.canonical@), texts(path@), prefix as int);
            lemma_path_ends(pre.nodes, candidate as int);
            lemma_position_of_node(pre.nodes, candidate as int);
        }
        let reorg_depth = self.canonical.len() - prefix;
        self.canonical = path;
        (true, reorg_depth)
    }

    /// Stores `header` and makes its chain canonical if it is heavier than
    /// the canonical head.
    ///
    /// The header is turned down if its hash is stored already, if it names
    /// no parent or one that is not stored, or if its number is not the
    /// parent's plus one, in this order. The parent's number must leave room
    /// for a successor.
    pub fn try_insert(&mut self, header: BlockHeader) -> (out: Result<
        ReorgOutcome,
        HeaderInsertError,
    >)
        requires
            old(self).wf(),
            header.parent_hash is Some && knows(old(self)@.nodes, header.parent_hash->Some_0@)
                ==> old(self)@.nodes[node_position(
                old(self)@.nodes,
                header.parent_hash->Some_0@,
            )].header.number < u64::MAX,
        ensures
            final(self).wf(),
            final(self)@.genesis_hash == old(self)@.genesis_hash,
            match out {
                Err(HeaderInsertError::DuplicateHash { hash }) => {
                    &&& knows(old(self)@.nodes, header.hash@)
                    &&& hash@ == header.hash@
                    &&& *final(self) == *old(self)
                },
                Err(HeaderInsertError::UnknownParent { parent_hash }) => {
                    &&& !knows(old(self)@.nodes, header.hash@)
                    &&& match header.parent_hash {
                        None => parent_hash@ == missing_parent_text(header.hash@),
                        Some(parent) => !knows(old(self)@.nodes, parent@) && parent_hash@
                            == parent@,
                    }
                    &&& *final(self) == *old(self)
                },
                Err(HeaderInsertError::NumberMismatch { expected, got }) => {
                    &&& !knows(old(self)@.nodes, header.hash@)
                    &&& header.parent_hash is Some
                    &&& knows(old(self)@.nodes, header.parent_hash->Some_0@)
                    &&& expected == old(self)@.nodes[node_position(
                        old(self)@.nodes,
                        header.parent_hash->Some_0@,
                    )].header.number + 1
                    &&& got == header.number
                    &&& got != expected
                    &&& *final(self) == *old(self)
                },
                Ok(outcome) => {
                    &&& !knows(old(self)@.nodes, header.hash@)
                    &&& header.parent_hash is Some
                    &&& knows(old(self)@.nodes, header.parent_hash->Some_0@)
                    &&& inserted(old(self)@, header, final(self)@, outcome)
                },
            },
    {
        let ghost pre = self@;
        if find_node(&self.nodes, &header.hash).is_some() {
            return Err(HeaderInsertError::DuplicateHash { hash: header.hash.clone() });
        }
        let parent_hash = match &header.parent_hash {
            None => {
                let mut parent_hash: String = "none (header ".to_owned();
                parent_hash.append(header.hash.as_str());
                parent_hash.append(")");
                return Err(HeaderInsertError::UnknownParent { parent_hash });
            },
            Some(parent) => parent.clone(),
        };
        let parent_position = match find_node(&self.nodes, &parent_hash) {
            None => {
                return Err(HeaderInsertError::UnknownParent { parent_hash });
            },
            Some(position) => position,
        };
        let expected = self.nodes[parent_position].header.number + 1;
        if header.number != expected {
            return Err(HeaderInsertError::NumberMismatch { expected, got: header.number });
        }
        let hash = header.hash.clone();
        let held = self.nodes.len();
        proof {
            lemma_difficulty_bound(pre.nodes, parent_position as int);
            assert((parent_position + 1) * u64::MAX + u64::MAX <= u128::MAX) by (nonlinear_arith)
                requires
                    0 <= parent_position < held <= u64::MAX,
            ;
            lemma_node_position(pre.nodes, pre.canonical.last());
        }
        let total_difficulty = self.nodes[parent_position].total_difficulty
            + header.difficulty as u128;
        let previous_head = find_node(
            &self.nodes,
            &self.canonical[self.canonical.len() - 1],
        ).unwrap();
        let new_head = header.clone();
        let stored_header = StoredHeader { header, parent: Some(parent_hash), total_difficulty };
        self.nodes.push(stored_header);
        proof {
            lemma_push_keeps_nodes_wf(pre.nodes, stored_header);
            lemma_push_keeps_paths(pre.nodes, stored_header, previous_head as int);
            lemma_position_of_node(self@.nodes, held as int);
            lemma_node_position(self@.nodes, hash@);
        }
        let (canonical_changed, reorg_depth) = self.rebuild_canonical_if_needed(&hash);
        proof {
            assert forall|i: int| 0 <= i < pre.nodes.len() implies (
            #[trigger] self@.nodes[i]).total_difficulty
                <= pre.nodes[previous_head as int].total_difficulty by {
                assert(self@.nodes[i] == pre.nodes[i]);
            }
        }
        if !canonical_changed {
            return Ok(ReorgOutcome::NoReorg);
        }
        if reorg_depth == 0 {
            return Ok(ReorgOutcome::Extended { new_head });
        }
        let old_head = self.nodes[previous_head].header.clone();
        Ok(ReorgOutcome::Reorganized { new_head, old_head, depth: reorg_depth })
    }
}

/// What an accepted header does: it is stored behind the others with its
/// parent link and accumulated difficulty. If it is not heavier than the head
/// the canonical chain stays; otherwise the chain to it becomes canonical,
/// and the outcome tells an extension of the old chain from a reorganization
/// by the number of blocks that were rolled back.
pub open spec fn inserted(
    pre: ForkModel,
    header: BlockHeader,
    post: ForkModel,
    outcome: ReorgOutcome,
) -> bool {
    let parent = node_position(pre.nodes, header.parent_hash->Some_0@);
    let old_head = pre.nodes[pre.head_index()];
    let weight = pre.nodes[parent].total_difficulty + header.difficulty;
    let position = pre.nodes.len() as int;
    &&& header.number == pre.nodes[parent].header.number + 1
    &&& post.nodes.len() == pre.nodes.len() + 1
    &&& post.nodes == pre.nodes.push(post.nodes[position])
    &&& post.nodes[position].header == header
    &&& post.nodes[position].parent is Some
    &&& post.nodes[position].parent->Some_0@ == header.parent_hash->Some_0@
    &&& post.nodes[position].total_difficulty == weight
    &&& if weight <= old_head.total_difficulty {
        outcome is NoReorg && post.canonical == pre.canonical
    } else {
        let depth = pre.canonical.len() - common_prefix_len(pre.canonical, post.canonical);
        &&& post.canonical == path_to(post.nodes, position)
        &&& if depth == 0 {
            outcome == (ReorgOutcome::Extended { new_head: header })
        } else {
            outcome == (ReorgOutcome::Reorganized {
                new_head: header,
                old_head: old_head.header,
                depth: depth as usize,
            })
        }
    }
}

/// A header that hangs on a stored node and has a new hash keeps the nodes
/// a tree when it is stored behind them.
pub proof fn lemma_push_keeps_nodes_wf(nodes: Seq<StoredHeader>, node: StoredHeader)
    requires
        nodes_wf(nodes),
        !knows(nodes, node.header.hash@),
        node.parent is Some,
        knows(nodes, node.parent->Some_0@),
        node.total_difficulty == nodes[node_position(
            nodes,
            node.parent->Some_0@,
        )].total_difficulty + node.header.difficulty,
        node.header.number == nodes[node_position(nodes, node.parent->Some_0@)].header.number + 1,
    ensures
        nodes_wf(nodes.push(node)),
{
    let longer = nodes.push(node);
    assert forall|i: int, j: int| 0 <= i < j < longer.len() implies (
    #[trigger] longer[i]).header.hash@ != (#[trigger] longer[j]).header.hash@ by {
        if j < nodes.len() {
            assert(nodes[i].header.hash@ != nodes[j].header.hash@);
        } else {
            assert(nodes[i].header.hash@ != node.header.hash@);
        }
    }
    assert forall|i: int| 0 < i < longer.len() implies #[trigger] linked(longer, i) by {
        if i < nodes.len() {
            assert(linked(nodes, i));
            lemma_push_keeps_paths(nodes, node, i);
            assert(longer[i] == nodes[i]);
            assert(longer[parent_index(nodes, i)] == nodes[parent_index(nodes, i)]);
        } else {
            lemma_node_position(nodes, node.parent->Some_0@);
            lemma_push_keeps_position(nodes, node, node.parent->Some_0@);
            let p = node_position(nodes, node.parent->Some_0@);
            assert(longer[p] == nodes[p]);
        }
    }
    assert(longer[0] == nodes[0]);
}

} // verus!
