//! A buffer of block headers that grows by one header at a time, each
//! attached to a header it already holds.

use vstd::prelude::*;

verus! {

/// A block header.
#[derive(Debug, PartialEq, Eq)]
pub struct BlockHeader {
    /// Height of the block.
    pub number: u64,
    /// Hash of the block.
    pub hash: String,
    /// Hash of the block before it.
    pub parent_hash: String,
    /// Difficulty of the block.
    pub difficulty: u64,
}

impl Clone for BlockHeader {
    fn clone(&self) -> (copy: Self)
        ensures
            copy == *self,
    {
        BlockHeader {
            number: self.number,
            hash: self.hash.clone(),
            parent_hash: self.parent_hash.clone(),
            difficulty: self.difficulty,
        }
    }
}

/// Why a header was not appended.
#[derive(Debug, PartialEq, Eq)]
pub enum HeaderInsertError {
    /// No held header has this hash.
    ParentNotFound { parent_hash: String },
    /// The header's number does not follow its parent's.
    NumberMismatch { expected: u64, got: u64 },
    /// A header with this hash is already held.
    DuplicationHash { hash: String },
}

/// Whether some header has this hash.
pub open spec fn holds_hash(headers: Seq<BlockHeader>, hash: Seq<char>) -> bool {
    exists|i: int| 0 <= i < headers.len() && (#[trigger] headers[i]).hash@ == hash
}

/// Position of the first header with this hash; the length where there is none.
pub open spec fn hash_position(headers: Seq<BlockHeader>, hash: Seq<char>) -> int
    decreases headers.len(),
{
    if headers.len() == 0 {
        0
    } else if headers[0].hash@ == hash {
        0
    } else {
        1 + hash_position(headers.drop_first(), hash)
    }
}

/// `hash_position` is the first position with the hash, and the length
/// exactly where no header has it.
pub proof fn lemma_hash_position(headers: Seq<BlockHeader>, hash: Seq<char>)
    ensures
        0 <= hash_position(headers, hash) <= headers.len(),
        hash_position(headers, hash) < headers.len() <==> holds_hash(headers, hash),
        hash_position(headers, hash) < headers.len() ==> headers[hash_position(
            headers,
            hash,
        )].hash@ == hash,
        forall|k: int|
            0 <= k < hash_position(headers, hash) ==> (#[trigger] headers[k]).hash@ != hash,
    decreases headers.len(),
{
    if headers.len() > 0 && headers[0].hash@ != hash {
        let rest = headers.drop_first();
        lemma_hash_position(rest, hash);
        let pos = hash_position(headers, hash);
        if pos < headers.len() {
            assert(headers[pos] == rest[pos - 1]);
        }
        if holds_hash(headers, hash) {
            let i = choose|i: int| 0 <= i < headers.len() && (#[trigger] headers[i]).hash@ == hash;
            assert(rest[i - 1] == headers[i]);
        }
        assert forall|k: int| 0 <= k < pos implies (#[trigger] headers[k]).hash@ != hash by {
            if k > 0 {
                assert(headers[k] == rest[k - 1]);
            }
        }
    }
}

/// Sum of the difficulties.
pub open spec fn difficulty_sum(headers: Seq<BlockHeader>) -> int
    decreases headers.len(),
{
    if headers.len() == 0 {
        0
    } else {
        difficulty_sum(headers.drop_last()) + headers.last().difficulty
    }
}

/// The sum is at most the largest difficulty times the number of headers.
pub proof fn lemma_difficulty_sum_bound(headers: Seq<BlockHeader>)
    ensures
        0 <= difficulty_sum(headers) <= headers.len() * u64::MAX,
    decreases headers.len(),
{
    if headers.len() > 0 {
        lemma_difficulty_sum_bound(headers.drop_last());
        assert((headers.len() - 1) * u64::MAX + u64::MAX == headers.len() * u64::MAX)
            by (nonlinear_arith);
    }
}

/// No two headers share a hash.
pub open spec fn distinct_hashes(headers: Seq<BlockHeader>) -> bool {
    forall|i: int, j: int|
        0 <= i < j < headers.len() ==> (#[trigger] headers[i]).hash@ != (#[trigger] headers[j]).hash@
}

/// Looks for the header with this hash.
fn find_hash(headers: &Vec<BlockHeader>, hash: &String) -> (out: Option<usize>)
    ensures
        match out {
            Some(i) => holds_hash(headers@, hash@) && i == hash_position(headers@, hash@) && i
                < headers@.len(),
            None => !holds_hash(headers@, hash@),
        },
{
    let mut i: usize = 0;
    while i < headers.len()
        invariant
            i <= headers@.len(),
            forall|k: int| 0 <= k < i ==> (#[trigger] headers@[k]).hash@ != hash@,
        decreases headers@.len() - i,
    {
        if headers[i].hash == *hash {
            proof {
                lemma_hash_position(headers@, hash@);
                assert(holds_hash(headers@, hash@));
            }
            return Some(i);
        }
        i += 1;
    }
    None
}

/// The headers received so far, in the order they were appended.
pub struct HeaderBuffer {
    canonical: Vec<BlockHeader>,
    total_difficulty: u128,
}

impl View for HeaderBuffer {
    type V = Seq<BlockHeader>;

    closed spec fn view(&self) -> Seq<BlockHeader> {
        self.canonical@
    }
}

impl HeaderBuffer {
    /// The accumulated difficulty as the buffer keeps it.
    pub closed spec fn recorded_difficulty(&self) -> u128 {
        self.total_difficulty
    }

    /// The buffer holds at least the genesis header, no hash twice, and the
    /// accumulated difficulty is the sum over its headers.
    pub open spec fn wf(&self) -> bool {
        &&& self@.len() > 0
        &&& distinct_hashes(self@)
        &&& self.recorded_difficulty() == difficulty_sum(self@)
    }

    /// A buffer that holds the genesis header only.
    pub fn new(genesis: BlockHeader) -> (out: Self)
        ensures
            out.wf(),
            out@ == seq![genesis],
    {
        let difficulty = genesis.difficulty as u128;
        let mut canonical: Vec<BlockHeader> = Vec::new();
        canonical.push(genesis);
        proof {
            assert(canonical@ =~= seq![genesis]);
            assert(canonical@.drop_last() =~= Seq::empty());
            assert(difficulty_sum(canonical@.drop_last()) == 0);
        }
        HeaderBuffer { canonical, total_difficulty: difficulty }
    }

    /// Number of headers held.
    pub fn len(&self) -> (out: usize)
        ensures
            out == self@.len(),
    {
        self.canonical.len()
    }

    /// The header at position `i`, if there is one.
    pub fn get(&self, i: usize) -> (out: Option<&BlockHeader>)
        ensures
            i < self@.len() ==> out == Some(&self@[i as int]),
            i >= self@.len() ==> out is None,
    {
        if i < self.canonical.len() {
            Some(&self.canonical[i])
        } else {
            None
        }
    }

    /// Position of the header with this hash, if one is held.
    pub fn index_of(&self, hash: &str) -> (out: Option<usize>)
        ensures
            match out {
                Some(i) => i == hash_position(self@, hash@) && i < self@.len(),
                None => !holds_hash(self@, hash@),
            },
    {
        let owned = hash.to_owned();
        find_hash(&self.canonical, &owned)
    }

    /// Appends `header` behind the others.
    ///
    /// It is turned down if its hash is already held, if no held header has
    /// its parent hash, or if its number is not the parent's plus one, in
    /// this order. The parent's number must leave room for a successor.
    pub fn try_append(&mut self, header: BlockHeader) -> (out: Result<(), HeaderInsertError>)
        requires
            old(self).wf(),
            holds_hash(old(self)@, header.parent_hash@) ==> old(self)@[hash_position(
                old(self)@,
                header.parent_hash@,
            )].number < u64::MAX,
        ensures
            final(self).wf(),
            match out {
                Err(HeaderInsertError::DuplicationHash { hash }) => {
                    &&& holds_hash(old(self)@, header.hash@)
                    &&& hash@ == header.hash@
                    &&& *final(self) == *old(self)
                },
                Err(HeaderInsertError::ParentNotFound { parent_hash }) => {
                    &&& !holds_hash(old(self)@, header.hash@)
                    &&& !holds_hash(old(self)@, header.parent_hash@)
                    &&& parent_hash@ == header.parent_hash@
                    &&& *final(self) == *old(self)
                },
                Err(HeaderInsertError::NumberMismatch { expected, got }) => {
                    &&& !holds_hash(old(self)@, header.hash@)
                    &&& holds_hash(old(self)@, header.parent_hash@)
                    &&& expected == old(self)@[hash_position(
                        old(self)@,
                        header.parent_hash@,
                    )].number + 1
                    &&& got == header.number
                    &&& got != expected
                    &&& *final(self) == *old(self)
                },
                Ok(_) => {
                    &&& !holds_hash(old(self)@, header.hash@)
                    &&& holds_hash(old(self)@, header.parent_hash@)
                    &&& header.number == old(self)@[hash_position(
                        old(self)@,
                        header.parent_hash@,
                    )].number + 1
                    &&& final(self)@ == old(self)@.push(header)
                },
            },
    {
        proof {
            lemma_hash_position(self@, header.parent_hash@);
        }
        if find_hash(&self.canonical, &header.hash).is_some() {
            return Err(HeaderInsertError::DuplicationHash { hash: header.hash.clone() });
        }
        let parent_position = match find_hash(&self.canonical, &header.parent_hash) {
            None => {
                return Err(
                    HeaderInsertError::ParentNotFound { parent_hash: header.parent_hash.clone() },
                );
            },
            Some(position) => position,
        };
        let expected = self.canonical[parent_position].number + 1;
        if header.number != expected {
            return Err(HeaderInsertError::NumberMismatch { expected, got: header.number });
        }
        let held = self.canonical.len();
        proof {
            let longer = self@.push(header);
            assert(longer.drop_last() =~= self@);
            lemma_difficulty_sum_bound(self@);
            assert(held * u64::MAX + u64::MAX <= u128::MAX) by (nonlinear_arith)
                requires
                    0 <= held <= u64::MAX,
            ;
            assert forall|i: int, j: int| 0 <= i < j < longer.len() implies (
            #[trigger] longer[i]).hash@ != (#[trigger] longer[j]).hash@ by {
                if j < self@.len() {
                    assert(self@[i].hash@ != self@[j].hash@);
                } else {
                    assert(self@[i].hash@ != header.hash@);
                }
            }
        }
        let difficulty = header.difficulty as u128;
        self.canonical.push(header);
        self.total_difficulty = self.total_difficulty + difficulty;
        Ok(())
    }

    /// The accumulated difficulty of all headers held.
    pub fn total_difficulty(&self) -> (out: u128)
        ensures
            out == self.recorded_difficulty(),
    {
        self.total_difficulty
    }

    /// The header appended last.
    pub fn head(&self) -> (out: Option<&BlockHeader>)
        ensures
            self@.len() == 0 ==> out is None,
            self@.len() > 0 ==> out == Some(&self@[self@.len() - 1]),
    {
        let n = self.canonical.len();
        if n == 0 {
            None
        } else {
            Some(&self.canonical[n - 1])
        }
    }
}

} // verus!
