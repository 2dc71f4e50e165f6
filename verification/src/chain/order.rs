//! Putting stored blocks in chain order.
//!
//! Blocks are stored in the order in which they arrived, which need not be
//! the order of the chain, and the same block can be stored more than once.
//! Of one block that is stored more than once, the last copy is the one that
//! is handed out.
//!
//! The chain starts at the earliest root: the first stored genesis block or,
//! where none is stored, the first stored block whose parent is missing. From
//! there each step goes to the earliest stored child, where a block that is
//! stored more than once has its place where its last copy is.

use crate::chain::error::ChainError;
use crate::chain::hash_index::HashIndex;
use crate::chain::header;
use crate::chain::header::{BlockHeader, HEADER_SIZE, hash_to_string};
use crate::chain::stream::RawBlock;
use vstd::prelude::*;
use vstd::slice::slice_subrange;

verus! {

/// A stored block, with its hash.
#[derive(Clone, Debug, PartialEq, Eq)]
pub struct ScannedBlock {
    /// The block hash.
    pub hash: [u8; 32],
    /// The block as it is stored.
    pub data: Vec<u8>,
}

/// A stored block, mathematically.
#[verifier::ext_equal]
pub struct Stored {
    /// The block hash.
    pub hash: Seq<u8>,
    /// The block as it is stored.
    pub data: Seq<u8>,
}

impl View for ScannedBlock {
    type V = Stored;

    open spec fn view(&self) -> Stored {
        Stored { hash: self.hash@, data: self.data@ }
    }
}

impl Stored {
    /// The hash of the block's parent.
    pub open spec fn prev(self) -> Seq<u8> {
        header::prev_of(self.data)
    }

    /// Whether the block names no parent, as only a genesis block does.
    pub open spec fn is_genesis(self) -> bool {
        self.prev() == Seq::new(32, |i: int| 0u8)
    }
}

/// The views of scanned blocks.
pub open spec fn stored(blocks: Seq<ScannedBlock>) -> Seq<Stored> {
    Seq::new(blocks.len(), |i: int| blocks[i]@)
}

/// Whether some block has this hash.
pub open spec fn holds(s: Seq<Stored>, hash: Seq<u8>) -> bool {
    exists|i: int| 0 <= i < s.len() && #[trigger] s[i].hash == hash
}

/// Whether `i` is the block that stands for its hash: of blocks with one hash
/// the last stored counts.
pub open spec fn is_current(s: Seq<Stored>, i: int) -> bool {
    &&& 0 <= i < s.len()
    &&& forall|j: int| i < j < s.len() ==> #[trigger] s[j].hash != s[i].hash
}

/// Whether `c` is the earliest stored block with the parent `hash`.
pub open spec fn is_first_child(s: Seq<Stored>, hash: Seq<u8>, c: int) -> bool {
    &&& is_current(s, c)
    &&& s[c].prev() == hash
    &&& forall|j: int| 0 <= j < c && #[trigger] is_current(s, j) ==> s[j].prev() != hash
}

/// Whether `g` is the genesis block that was stored first.
pub open spec fn is_first_genesis(s: Seq<Stored>, g: int) -> bool {
    &&& 0 <= g < s.len()
    &&& s[g].is_genesis()
    &&& forall|j: int| 0 <= j < g ==> !(#[trigger] s[j]).is_genesis()
}

/// Whether the parent of `i` is missing.
pub open spec fn is_orphan(s: Seq<Stored>, i: int) -> bool {
    0 <= i < s.len() && !holds(s, s[i].prev())
}

/// Whether `i` is the block with a missing parent that was stored first.
pub open spec fn is_first_orphan(s: Seq<Stored>, i: int) -> bool {
    is_orphan(s, i) && forall|j: int| 0 <= j < i ==> !is_orphan(s, j)
}

/// Whether `r` is where the chain starts.
pub open spec fn is_root(s: Seq<Stored>, r: int) -> bool {
    &&& is_current(s, r)
    &&& if exists|g: int| is_first_genesis(s, g) {
        exists|g: int| #[trigger] is_first_genesis(s, g) && s[g].hash == s[r].hash
    } else {
        exists|i: int| #[trigger] is_first_orphan(s, i) && s[i].hash == s[r].hash
    }
}

/// Whether step `i` of `chain` goes to the earliest stored child.
pub open spec fn is_link(s: Seq<Stored>, chain: Seq<int>, i: int) -> bool {
    is_first_child(s, s[chain[i]].hash, chain[i + 1])
}

/// Whether `chain` is the chain that the blocks hold: it starts at the root,
/// goes from each block to its earliest stored child, meets no block twice,
/// and goes as far as that allows.
pub open spec fn is_chain(s: Seq<Stored>, chain: Seq<int>) -> bool {
    &&& chain.len() > 0
    &&& is_root(s, chain[0])
    &&& forall|i: int| 0 <= i < chain.len() - 1 ==> #[trigger] is_link(s, chain, i)
    &&& chain.no_duplicates()
    &&& forall|c: int|
        #[trigger] is_first_child(s, s[chain.last()].hash, c) ==> chain.contains(c)
}

/// The chain that the blocks hold, as positions.
pub open spec fn chain_of(s: Seq<Stored>) -> Seq<int> {
    choose|chain: Seq<int>| is_chain(s, chain)
}

/// Whether `blocks` are the blocks of `chain`, numbered from zero.
pub open spec fn are_chain_blocks(s: Seq<Stored>, chain: Seq<int>, blocks: Seq<RawBlock>) -> bool {
    &&& blocks.len() == chain.len()
    &&& forall|i: int|
        0 <= i < blocks.len() ==> {
            &&& (#[trigger] blocks[i]).height == i
            &&& blocks[i].hash@ == header::hash_display(s[chain[i]].hash)
            &&& blocks[i].data@ == s[chain[i]].data
        }
}

/// A chain is determined by its blocks.
pub proof fn law_chain_is_unique(s: Seq<Stored>, a: Seq<int>, b: Seq<int>)
    requires
        is_chain(s, a),
        is_chain(s, b),
    ensures
        a == b,
{
    lemma_root_is_unique(s, a[0], b[0]);
    let n = if a.len() <= b.len() {
        a.len()
    } else {
        b.len()
    };
    lemma_chains_agree(s, a, b, n as int);
    if a.len() < b.len() {
        lemma_no_longer(s, a, b);
    } else if b.len() < a.len() {
        lemma_no_longer(s, b, a);
    }
    assert(a =~= b);
}

proof fn lemma_no_longer(s: Seq<Stored>, a: Seq<int>, b: Seq<int>)
    requires
        is_chain(s, a),
        is_chain(s, b),
        forall|i: int| 0 <= i < a.len() ==> a[i] == b[i],
    ensures
        b.len() <= a.len(),
{
    if a.len() < b.len() {
        let i = a.len() - 1;
        assert(is_link(s, b, i));
        assert(is_first_child(s, s[a.last()].hash, b[i + 1]));
        let k = a.index_of(b[i + 1]);
        assert(a.contains(b[i + 1]));
        assert(b[k] == b[i + 1]);
    }
}

pub(crate) proof fn lemma_root_is_unique(s: Seq<Stored>, a: int, b: int)
    requires
        is_root(s, a),
        is_root(s, b),
    ensures
        a == b,
{
    if exists|g: int| is_first_genesis(s, g) {
        let g = choose|g: int| #[trigger] is_first_genesis(s, g) && s[g].hash == s[a].hash;
        let h = choose|g: int| #[trigger] is_first_genesis(s, g) && s[g].hash == s[b].hash;
        assert(g == h);
    } else {
        let i = choose|i: int| #[trigger] is_first_orphan(s, i) && s[i].hash == s[a].hash;
        let j = choose|i: int| #[trigger] is_first_orphan(s, i) && s[i].hash == s[b].hash;
        assert(i == j);
    }
}

pub(crate) proof fn lemma_first_child_is_unique(s: Seq<Stored>, hash: Seq<u8>, a: int, b: int)
    requires
        is_first_child(s, hash, a),
        is_first_child(s, hash, b),
    ensures
        a == b,
{
}

/// A chain goes through positions of the store.
pub(crate) proof fn lemma_chain_positions(s: Seq<Stored>, chain: Seq<int>)
    requires
        is_chain(s, chain),
    ensures
        forall|i: int| 0 <= i < chain.len() ==> 0 <= #[trigger] chain[i] < s.len(),
{
    assert forall|i: int| 0 <= i < chain.len() implies 0 <= #[trigger] chain[i] < s.len() by {
        if i > 0 {
            assert(is_link(s, chain, i - 1));
        }
    }
}

proof fn lemma_chains_agree(s: Seq<Stored>, a: Seq<int>, b: Seq<int>, n: int)
    requires
        is_chain(s, a),
        is_chain(s, b),
        0 < n <= a.len(),
        n <= b.len(),
        a[0] == b[0],
    ensures
        forall|i: int| 0 <= i < n ==> a[i] == b[i],
    decreases n,
{
    if n > 1 {
        lemma_chains_agree(s, a, b, n - 1);
        assert(is_link(s, a, n - 2));
        assert(is_link(s, b, n - 2));
        lemma_first_child_is_unique(s, s[a[n - 2]].hash, a[n - 1], b[n - 1]);
    }
}

/// Whether `m` gives for each hash among the first `n` blocks the last of them
/// that has it.
spec fn indexes(s: Seq<Stored>, n: int, m: Map<Seq<u8>, usize>) -> bool {
    &&& forall|h: Seq<u8>| #[trigger]
        m.contains_key(h) ==> {
            &&& 0 <= m[h] < n
            &&& s[m[h] as int].hash == h
            &&& forall|j: int| m[h] < j < n ==> #[trigger] s[j].hash != h
        }
    &&& forall|j: int| 0 <= j < n ==> m.contains_key(#[trigger] s[j].hash)
}

/// Whether `m` gives for each hash the earliest stored child.
spec fn indexes_children(s: Seq<Stored>, m: Map<Seq<u8>, usize>) -> bool {
    &&& forall|h: Seq<u8>| #[trigger] m.contains_key(h) ==> is_first_child(s, h, m[h] as int)
    &&& forall|h: Seq<u8>, c: int| #[trigger] is_first_child(s, h, c) ==> m.contains_key(h)
}

/// Whether `prevs` are the parents of the blocks.
spec fn are_parents(s: Seq<Stored>, prevs: Seq<[u8; 32]>) -> bool {
    &&& prevs.len() == s.len()
    &&& forall|i: int| 0 <= i < s.len() ==> (#[trigger] prevs[i])@ == s[i].prev()
}

/// The parents of the blocks.
fn parents(blocks: &Vec<ScannedBlock>) -> (prevs: Vec<[u8; 32]>)
    requires
        forall|i: int| 0 <= i < blocks@.len() ==> (#[trigger] blocks@[i]).data@.len() >= HEADER_SIZE,
    ensures
        are_parents(stored(blocks@), prevs@),
{
    let mut prevs: Vec<[u8; 32]> = Vec::new();
    for i in 0..blocks.len()
        invariant
            prevs@.len() == i,
            forall|j: int|
                0 <= j < blocks@.len() ==> (#[trigger] blocks@[j]).data@.len() >= HEADER_SIZE,
            forall|j: int| 0 <= j < i ==> (#[trigger] prevs@[j])@ == stored(blocks@)[j].prev(),
    {
        let bytes = slice_subrange(blocks[i].data.as_slice(), 0, HEADER_SIZE);
        let header = BlockHeader::decode(bytes).unwrap();
        assert(header::prev_of(bytes@) =~= stored(blocks@)[i as int].prev());
        prevs.push(header.prev_blockhash);
    }
    prevs
}

/// Finds the blocks by their hashes.
fn index_by_hash(blocks: &Vec<ScannedBlock>) -> (index: HashIndex)
    ensures
        indexes(stored(blocks@), blocks@.len() as int, index@),
{
    let mut index = HashIndex::new();
    let ghost s = stored(blocks@);
    for i in 0..blocks.len()
        invariant
            s == stored(blocks@),
            indexes(s, i as int, index@),
    {
        index.insert(&blocks[i].hash, i);
        assert(s[i as int].hash == blocks@[i as int].hash@);
    }
    index
}

/// Whether `i` stands for its hash.
fn stands_for_hash(blocks: &Vec<ScannedBlock>, index: &HashIndex, i: usize) -> (b: bool)
    requires
        i < blocks@.len(),
        indexes(stored(blocks@), blocks@.len() as int, index@),
    ensures
        b == is_current(stored(blocks@), i as int),
{
    let ghost s = stored(blocks@);
    assert(s[i as int].hash == blocks@[i as int].hash@);
    match index.get(&blocks[i].hash) {
        Some(j) => {
            assert(s[j as int].hash == s[i as int].hash);
            i == j
        },
        None => false,
    }
}

/// Whether a hash is all zero.
fn is_zero(hash: &[u8; 32]) -> (b: bool)
    ensures
        b == (hash@ == Seq::new(32, |i: int| 0u8)),
{
    let ghost zero = Seq::new(32, |i: int| 0u8);
    for i in 0..32usize
        invariant
            zero == Seq::new(32, |i: int| 0u8),
            forall|j: int| 0 <= j < i ==> hash@[j] == 0,
    {
        if hash[i] != 0 {
            assert(hash@[i as int] != zero[i as int]);
            return false;
        }
    }
    assert(hash@ =~= zero);
    true
}

/// Finds where the chain starts.
fn find_root(blocks: &Vec<ScannedBlock>, prevs: &Vec<[u8; 32]>, index: &HashIndex) -> (root:
    Option<usize>)
    requires
        are_parents(stored(blocks@), prevs@),
        indexes(stored(blocks@), blocks@.len() as int, index@),
    ensures
        root matches Some(r) ==> is_root(stored(blocks@), r as int),
        root is None ==> forall|r: int| !is_root(stored(blocks@), r),
{
    let ghost s = stored(blocks@);
    for i in 0..blocks.len()
        invariant
            s == stored(blocks@),
            are_parents(s, prevs@),
            indexes(s, blocks@.len() as int, index@),
            forall|j: int| 0 <= j < i ==> !(#[trigger] s[j]).is_genesis(),
    {
        assert(prevs@[i as int]@ == s[i as int].prev());
        if is_zero(&prevs[i]) {
            assert(is_first_genesis(s, i as int));
            assert(s[i as int].hash == blocks@[i as int].hash@);
            return index.get(&blocks[i].hash);
        }
    }
    for i in 0..blocks.len()
        invariant
            s == stored(blocks@),
            are_parents(s, prevs@),
            indexes(s, blocks@.len() as int, index@),
            !exists|g: int| is_first_genesis(s, g),
            forall|j: int| 0 <= j < i ==> !is_orphan(s, j),
    {
        assert(prevs@[i as int]@ == s[i as int].prev());
        assert(holds(s, s[i as int].prev()) <==> index@.contains_key(s[i as int].prev()));
        if index.get(&prevs[i]).is_none() {
            assert(is_first_orphan(s, i as int));
            assert(s[i as int].hash == blocks@[i as int].hash@);
            return index.get(&blocks[i].hash);
        }
    }
    None
}

/// Finds the earliest stored children.
fn index_children(blocks: &Vec<ScannedBlock>, prevs: &Vec<[u8; 32]>, index: &HashIndex) -> (children:
    HashIndex)
    requires
        are_parents(stored(blocks@), prevs@),
        indexes(stored(blocks@), blocks@.len() as int, index@),
    ensures
        indexes_children(stored(blocks@), children@),
{
    let mut children = HashIndex::new();
    let ghost s = stored(blocks@);
    for i in 0..blocks.len()
        invariant
            s == stored(blocks@),
            are_parents(s, prevs@),
            indexes(s, blocks@.len() as int, index@),
            forall|h: Seq<u8>| #[trigger]
                children@.contains_key(h) ==> is_first_child(s, h, children@[h] as int),
            forall|j: int|
                0 <= j < i && is_current(s, j) ==> children@.contains_key(
                    (#[trigger] s[j]).prev(),
                ),
    {
        assert(prevs@[i as int]@ == s[i as int].prev());
        if stands_for_hash(blocks, index, i) && children.get(&prevs[i]).is_none() {
            assert(is_first_child(s, s[i as int].prev(), i as int));
            children.insert(&prevs[i], i);
        }
    }
    children
}

/// Positions that occur once each are no more than there are positions.
pub(crate) proof fn lemma_positions_fit(chain: Seq<int>, n: nat)
    requires
        chain.no_duplicates(),
        forall|i: int| 0 <= i < chain.len() ==> 0 <= #[trigger] chain[i] < n,
    ensures
        chain.len() <= n,
{
    chain.unique_seq_to_set();
    let all = vstd::set_lib::set_int_range(0, n as int);
    vstd::set_lib::lemma_int_range(0, n as int);
    assert(chain.to_set().subset_of(all));
    vstd::set_lib::lemma_len_subset(chain.to_set(), all);
}

/// Takes the blocks of the chain from `root` on out of `scanned`.
fn walk(scanned: Vec<ScannedBlock>, children: &HashIndex, root: usize) -> (chain: Vec<RawBlock>)
    requires
        is_root(stored(scanned@), root as int),
        indexes_children(stored(scanned@), children@),
    ensures
        is_chain(stored(scanned@), chain_of(stored(scanned@))),
        are_chain_blocks(stored(scanned@), chain_of(stored(scanned@)), chain@),
{
    let ghost s = stored(scanned@);
    let n = scanned.len();
    let mut blocks = scanned;
    let mut visited: Vec<bool> = vec![false; n];
    let mut out: Vec<RawBlock> = Vec::new();
    let mut at = root;
    let ghost mut chain: Seq<int> = seq![];
    loop
        invariant
            s == stored(scanned@),
            n == s.len(),
            blocks@.len() == n,
            visited@.len() == n,
            at < n,
            !visited@[at as int],
            indexes_children(s, children@),
            is_root(s, root as int),
            chain.len() == 0 ==> at == root,
            chain.len() > 0 ==> is_root(s, chain[0]),
            chain.len() > 0 ==> is_first_child(s, s[chain.last()].hash, at as int),
            forall|i: int| 0 <= i < chain.len() - 1 ==> #[trigger] is_link(s, chain, i),
            chain.no_duplicates(),
            forall|i: int| 0 <= i < chain.len() ==> 0 <= #[trigger] chain[i] < n,
            forall|i: int| 0 <= i < n ==> (#[trigger] visited@[i] <==> chain.contains(i)),
            forall|i: int| 0 <= i < n ==> (#[trigger] blocks@[i]).hash@ == s[i].hash,
            forall|i: int| 0 <= i < n && !visited@[i] ==> (#[trigger] blocks@[i]).data@ == s[i].data,
            are_chain_blocks(s, chain, out@),
        decreases n - chain.len(),
    {
        let ghost before = chain;
        proof {
            chain = chain.push(at as int);
            assert(chain.no_duplicates()) by {
                assert forall|i: int, j: int|
                    0 <= i < chain.len() && 0 <= j < chain.len() && i != j implies chain[i]
                    != chain[j] by {
                    if i == before.len() {
                        assert(before.contains(before[j]));
                    }
                    if j == before.len() {
                        assert(before.contains(before[i]));
                    }
                }
            }
            lemma_positions_fit(chain, n as nat);
            assert forall|i: int| 0 <= i < chain.len() - 1 implies #[trigger] is_link(
                s,
                chain,
                i,
            ) by {
                if i < before.len() - 1 {
                    assert(is_link(s, before, i));
                }
            }
        }
        visited[at] = true;
        let mut data: Vec<u8> = Vec::new();
        std::mem::swap(&mut blocks[at].data, &mut data);
        let block = RawBlock { height: out.len(), hash: hash_to_string(&blocks[at].hash), data };
        out.push(block);
        proof {
            assert forall|i: int| 0 <= i < n implies (#[trigger] visited@[i] <==> chain.contains(
                i,
            )) by {
                if before.contains(i) {
                    assert(chain[before.index_of(i)] == i);
                }
                assert(chain[before.len() as int] == at);
                if chain.contains(i) && i != at {
                    assert(before[chain.index_of(i)] == i);
                }
            }
        }
        let next = children.get(&blocks[at].hash);
        match next {
            Some(next) if !visited[next] => {
                at = next;
            },
            _ => {
                proof {
                    assert forall|c: int| #[trigger]
                        is_first_child(s, s[chain.last()].hash, c) implies chain.contains(c) by {
                        assert(is_first_child(s, s[chain.last()].hash, next->0 as int));
                        lemma_first_child_is_unique(s, s[chain.last()].hash, c, next->0 as int);
                    }
                    assert(is_chain(s, chain));
                    law_chain_is_unique(s, chain, chain_of(s));
                }
                return out;
            },
        }
    }
}

/// Puts stored blocks in chain order and numbers them from zero.
///
/// Fails where no block can start the chain: there is no genesis block and no
/// block whose parent is missing.
pub fn order_blocks(blocks: Vec<ScannedBlock>) -> (r: Result<Vec<RawBlock>, ChainError>)
    requires
        forall|i: int| 0 <= i < blocks@.len() ==> (#[trigger] blocks@[i]).data@.len() >= HEADER_SIZE,
    ensures
        r is Ok <==> exists|i: int| is_root(stored(blocks@), i),
        r matches Ok(chain) ==> {
            &&& is_chain(stored(blocks@), chain_of(stored(blocks@)))
            &&& are_chain_blocks(stored(blocks@), chain_of(stored(blocks@)), chain@)
        },
        r matches Err(ChainError::Parse(text)) ==> text@ == "no chain root found"@,
{
    let prevs = parents(&blocks);
    let index = index_by_hash(&blocks);
    let children = index_children(&blocks, &prevs, &index);
    match find_root(&blocks, &prevs, &index) {
        Some(root) => Ok(walk(blocks, &children, root)),
        None => Err(ChainError::Parse("no chain root found".to_string())),
    }
}

/// Whether the blocks form one line: `line` goes through each of them once,
/// from a block whose parent is missing, and each is the parent of the next.
/// No two blocks have one hash, and no hash is the zero that stands for the
/// missing parent of a genesis block.
pub open spec fn is_line(s: Seq<Stored>, line: Seq<int>) -> bool {
    &&& line.len() > 0
    &&& line.no_duplicates()
    &&& forall|i: int| 0 <= i < line.len() ==> 0 <= #[trigger] line[i] < s.len()
    &&& forall|i: int| 0 <= i < s.len() ==> #[trigger] line.contains(i)
    &&& forall|i: int, j: int| 0 <= i < j < s.len() ==> s[i].hash != s[j].hash
    &&& forall|i: int|
        0 <= i < line.len() - 1 ==> s[line[i + 1]].prev() == s[#[trigger] line[i]].hash
    &&& !holds(s, s[line[0]].prev())
    &&& !holds(s, Seq::new(32, |i: int| 0u8))
}

/// Where the blocks form one line, they come out in the order of that line,
/// in whatever order they are stored.
pub proof fn law_line_comes_out_in_order(s: Seq<Stored>, line: Seq<int>)
    requires
        is_line(s, line),
    ensures
        is_chain(s, line),
        chain_of(s) == line,
{
    let zero = Seq::new(32, |i: int| 0u8);
    assert forall|i: int| 0 <= i < s.len() implies #[trigger] is_current(s, i) by {}
    // Every block but the first has its parent in front of it.
    assert forall|c: int| 0 <= c < s.len() && c != line[0] implies ({
        let k = line.index_of(c);
        &&& 0 < k < line.len()
        &&& line[k] == c
        &&& s[c].prev() == s[line[k - 1]].hash
        &&& holds(s, #[trigger] s[c].prev())
    }) by {
        assert(line.contains(c));
        let k = line.index_of(c);
        assert(s[line[k - 1 + 1]].prev() == s[line[k - 1]].hash);
    }
    if exists|g: int| is_first_genesis(s, g) {
        let g = choose|g: int| is_first_genesis(s, g);
        if g != line[0] {
            assert(holds(s, s[g].prev()));
        }
        assert(is_first_genesis(s, g) && s[g].hash == s[line[0]].hash);
    } else {
        assert forall|j: int| 0 <= j < line[0] implies !is_orphan(s, j) by {
            assert(holds(s, s[j].prev()));
        }
        assert(is_first_orphan(s, line[0]));
    }
    assert(is_root(s, line[0]));
    // A child stands right behind its parent.
    assert forall|i: int, c: int|
        0 <= i < line.len() && is_current(s, c) && s[c].prev() == s[line[i]].hash implies i + 1
        < line.len() && c == line[i + 1] by {
        if c == line[0] {
            assert(holds(s, s[c].prev()));
        } else {
            let k = line.index_of(c);
            assert(s[c].prev() == s[line[k - 1]].hash);
            if k - 1 != i {
                assert(line[k - 1] != line[i]);
                if line[k - 1] < line[i] {
                    assert(s[line[k - 1]].hash != s[line[i]].hash);
                } else {
                    assert(s[line[i]].hash != s[line[k - 1]].hash);
                }
            }
        }
    }
    assert forall|i: int| 0 <= i < line.len() - 1 implies #[trigger] is_link(s, line, i) by {
        assert(s[line[i + 1]].prev() == s[line[i]].hash);
    }
    assert forall|c: int| #[trigger] is_first_child(s, s[line.last()].hash, c) implies line.contains(
        c,
    ) by {}
    assert(is_chain(s, line));
    law_chain_is_unique(s, line, chain_of(s));
}

/// Each block of a chain names the block before it as its parent.
pub proof fn law_chain_follows_parents(s: Seq<Stored>, i: int)
    requires
        exists|chain: Seq<int>| is_chain(s, chain),
        0 < i < chain_of(s).len(),
    ensures
        s[chain_of(s)[i]].prev() == s[chain_of(s)[i - 1]].hash,
        s[chain_of(s)[i]].data.subrange(4, 36) == s[chain_of(s)[i - 1]].hash,
{
    assert(is_link(s, chain_of(s), i - 1));
}

/// What has been walked of a chain can be walked to its end.
pub(crate) proof fn lemma_walk_on(s: Seq<Stored>, walked: Seq<int>)
    requires
        walked.len() > 0,
        is_root(s, walked[0]),
        forall|i: int| 0 <= i < walked.len() ==> 0 <= #[trigger] walked[i] < s.len(),
        forall|i: int| 0 <= i < walked.len() - 1 ==> #[trigger] is_link(s, walked, i),
        walked.no_duplicates(),
    ensures
        exists|chain: Seq<int>| is_chain(s, chain),
    decreases s.len() - walked.len(),
{
    if exists|c: int|
        #[trigger] is_first_child(s, s[walked.last()].hash, c) && !walked.contains(c) {
        let c = choose|c: int|
            #[trigger] is_first_child(s, s[walked.last()].hash, c) && !walked.contains(c);
        let more = walked.push(c);
        assert forall|i: int| 0 <= i < more.len() - 1 implies #[trigger] is_link(
            s,
            more,
            i,
        ) by {
            if i < walked.len() - 1 {
                assert(is_link(s, walked, i));
            }
        }
        lemma_positions_fit(more, s.len());
        lemma_walk_on(s, more);
    } else {
        assert(is_chain(s, walked));
    }
}

/// Whether block `i` can start a chain.
spec fn can_start(s: Seq<Stored>, i: int) -> bool {
    0 <= i < s.len() && (s[i].is_genesis() || is_orphan(s, i))
}

/// A block that can start a chain makes for a root.
proof fn lemma_root_of_start(s: Seq<Stored>, i: int)
    requires
        can_start(s, i),
    ensures
        exists|r: int| is_root(s, r),
{
    if exists|g: int| 0 <= g < s.len() && (#[trigger] s[g]).is_genesis() {
        let g = choose|g: int| 0 <= g < s.len() && (#[trigger] s[g]).is_genesis();
        let f = lemma_first_genesis(s, g);
        let r = lemma_last_copy(s, f);
        assert(is_first_genesis(s, f) && s[f].hash == s[r].hash);
        assert(is_root(s, r));
    } else {
        let f = lemma_first_orphan(s, i);
        let r = lemma_last_copy(s, f);
        assert(is_first_orphan(s, f) && s[f].hash == s[r].hash);
        assert(is_root(s, r));
    }
}

/// A root comes from a block that can start a chain.
proof fn lemma_start_of_root(s: Seq<Stored>, r: int) -> (i: int)
    requires
        is_root(s, r),
    ensures
        can_start(s, i),
{
    if exists|g: int| is_first_genesis(s, g) {
        choose|g: int| is_first_genesis(s, g)
    } else {
        choose|i: int| #[trigger] is_first_orphan(s, i) && s[i].hash == s[r].hash
    }
}

/// There is a chain if and only if there is a block whose parent is all zero or
/// not stored.
pub proof fn law_there_is_a_chain_where_there_is_a_root(s: Seq<Stored>)
    ensures
        (exists|r: int| is_root(s, r)) <==> exists|i: int|
            0 <= i < s.len() && ((#[trigger] s[i]).data.subrange(4, 36) == Seq::new(
                32,
                |b: int| 0u8,
            ) || forall|j: int|
                0 <= j < s.len() ==> (#[trigger] s[j]).hash != s[i].data.subrange(4, 36)),
        (exists|r: int| is_root(s, r)) ==> is_chain(s, chain_of(s)),
{
    assert forall|i: int| 0 <= i < s.len() implies (can_start(s, i) <==> ((#[trigger] s[i]).data.subrange(
        4,
        36,
    ) == Seq::new(32, |b: int| 0u8) || forall|j: int|
        0 <= j < s.len() ==> (#[trigger] s[j]).hash != s[i].data.subrange(4, 36))) by {
        lemma_can_start(s, i);
    }
    if exists|i: int| can_start(s, i) {
        lemma_root_of_start(s, choose|i: int| can_start(s, i));
    }
    if exists|r: int| is_root(s, r) {
        let r = choose|r: int| is_root(s, r);
        let i = lemma_start_of_root(s, r);
        assert(can_start(s, i) && 0 <= i < s.len());
        lemma_walk_on(s, seq![r]);
    }
}

/// Which blocks can start a chain.
proof fn lemma_can_start(s: Seq<Stored>, i: int)
    requires
        0 <= i < s.len(),
    ensures
        can_start(s, i) <==> (s[i].data.subrange(4, 36) == Seq::new(32, |b: int| 0u8) || forall|
            j: int,
        |
            0 <= j < s.len() ==> (#[trigger] s[j]).hash != s[i].data.subrange(4, 36)),
{
    assert(s[i].prev() == s[i].data.subrange(4, 36));
}

/// Of the blocks with one hash, one is stored last.
proof fn lemma_last_copy(s: Seq<Stored>, i: int) -> (r: int)
    requires
        0 <= i < s.len(),
    ensures
        is_current(s, r),
        s[r].hash == s[i].hash,
    decreases s.len() - i,
{
    if exists|j: int| i < j < s.len() && #[trigger] s[j].hash == s[i].hash {
        let j = choose|j: int| i < j < s.len() && #[trigger] s[j].hash == s[i].hash;
        lemma_last_copy(s, j)
    } else {
        i
    }
}

/// Where there is a genesis block, one was stored first.
pub(crate) proof fn lemma_first_genesis(s: Seq<Stored>, g: int) -> (f: int)
    requires
        0 <= g < s.len(),
        s[g].is_genesis(),
    ensures
        is_first_genesis(s, f),
    decreases g,
{
    if exists|j: int| 0 <= j < g && (#[trigger] s[j]).is_genesis() {
        let j = choose|j: int| 0 <= j < g && (#[trigger] s[j]).is_genesis();
        lemma_first_genesis(s, j)
    } else {
        g
    }
}

/// Where there is a block with a missing parent, one was stored first.
proof fn lemma_first_orphan(s: Seq<Stored>, i: int) -> (f: int)
    requires
        is_orphan(s, i),
    ensures
        is_first_orphan(s, f),
    decreases i,
{
    if exists|j: int| 0 <= j < i && is_orphan(s, j) {
        let j = choose|j: int| 0 <= j < i && is_orphan(s, j);
        lemma_first_orphan(s, j)
    } else {
        i
    }
}

/// The chain starts at the first stored block whose parent is all zero, or at
/// another copy of it.
pub proof fn law_chain_starts_at_the_first_genesis(s: Seq<Stored>, g: int)
    requires
        0 <= g < s.len(),
        s[g].data.subrange(4, 36) == Seq::new(32, |b: int| 0u8),
        forall|j: int|
            0 <= j < g ==> (#[trigger] s[j]).data.subrange(4, 36) != Seq::new(32, |b: int| 0u8),
    ensures
        chain_of(s).len() > 0,
        0 <= chain_of(s)[0] < s.len(),
        s[chain_of(s)[0]].hash == s[g].hash,
{
    let zero = Seq::new(32, |b: int| 0u8);
    assert forall|j: int| 0 <= j < g implies !(#[trigger] s[j]).is_genesis() by {
        assert(s[j].data.subrange(4, 36) != zero);
    }
    assert(s[g].is_genesis());
    assert(is_first_genesis(s, g));
    law_there_is_a_chain_where_there_is_a_root(s);
    lemma_chain_positions(s, chain_of(s));
    let h = choose|h: int| #[trigger]
        is_first_genesis(s, h) && s[h].hash == s[chain_of(s)[0]].hash;
    assert(h == g);
}

/// Where no parent is all zero, the chain starts at the first block whose
/// parent is not stored, or at another copy of it.
pub proof fn law_chain_starts_at_the_first_orphan(s: Seq<Stored>, i: int)
    requires
        forall|j: int|
            0 <= j < s.len() ==> (#[trigger] s[j]).data.subrange(4, 36) != Seq::new(
                32,
                |b: int| 0u8,
            ),
        0 <= i < s.len(),
        forall|j: int| 0 <= j < s.len() ==> #[trigger] s[j].hash != s[i].data.subrange(4, 36),
        forall|j: int|
            0 <= j < i ==> exists|k: int|
                0 <= k < s.len() && #[trigger] s[k].hash == (#[trigger] s[j]).data.subrange(4, 36),
    ensures
        chain_of(s).len() > 0,
        0 <= chain_of(s)[0] < s.len(),
        s[chain_of(s)[0]].hash == s[i].hash,
{
    let zero = Seq::new(32, |b: int| 0u8);
    assert forall|j: int| 0 <= j < s.len() implies !(#[trigger] s[j]).is_genesis() by {
        assert(s[j].data.subrange(4, 36) != zero);
    }
    assert(!exists|g: int| is_first_genesis(s, g));
    assert forall|j: int| 0 <= j < i implies !is_orphan(s, j) by {
        let k = choose|k: int|
            0 <= k < s.len() && #[trigger] s[k].hash == s[j].data.subrange(4, 36);
        assert(s[k].hash == s[j].prev());
        assert(holds(s, s[j].prev()));
    }
    assert(is_first_orphan(s, i));
    law_there_is_a_chain_where_there_is_a_root(s);
    lemma_chain_positions(s, chain_of(s));
    let h = choose|h: int| #[trigger] is_first_orphan(s, h) && s[h].hash == s[chain_of(s)[0]].hash;
    assert(h == i);
}

/// A chain goes through positions of the store, through none of them twice,
/// and only through last copies.
pub proof fn law_chain_goes_through_last_copies(s: Seq<Stored>, i: int, j: int)
    requires
        exists|r: int| is_root(s, r),
        0 <= i < chain_of(s).len(),
    ensures
        chain_of(s).no_duplicates(),
        0 <= chain_of(s)[i] < s.len(),
        chain_of(s)[i] < j < s.len() ==> s[j].hash != s[chain_of(s)[i]].hash,
{
    law_there_is_a_chain_where_there_is_a_root(s);
    lemma_chain_positions(s, chain_of(s));
    if i > 0 {
        assert(is_link(s, chain_of(s), i - 1));
    }
    assert(is_current(s, chain_of(s)[i]));
}

/// Where several stored blocks have one parent on the chain, the chain goes on
/// with the one that is stored first: a block that is stored before it and has
/// the same parent is stored again later on.
pub proof fn law_chain_goes_on_with_the_child_stored_first(s: Seq<Stored>, i: int, j: int)
    requires
        exists|r: int| is_root(s, r),
        0 <= i < chain_of(s).len() - 1,
        0 <= j < chain_of(s)[i + 1],
        s[j].data.subrange(4, 36) == s[chain_of(s)[i]].hash,
    ensures
        exists|k: int| j < k < s.len() && #[trigger] s[k].hash == s[j].hash,
{
    law_there_is_a_chain_where_there_is_a_root(s);
    lemma_chain_positions(s, chain_of(s));
    assert(is_link(s, chain_of(s), i));
    assert(s[j].prev() == s[chain_of(s)[i]].hash);
    assert(!is_current(s, j));
}

/// The chain goes on as long as it can: where a last copy has the end of the
/// chain as its parent, the chain has met the first such block before.
pub proof fn law_chain_goes_on_as_long_as_it_can(s: Seq<Stored>, c: int)
    requires
        exists|r: int| is_root(s, r),
        0 <= c < s.len(),
        s[c].data.subrange(4, 36) == s[chain_of(s).last()].hash,
        forall|j: int| c < j < s.len() ==> #[trigger] s[j].hash != s[c].hash,
    ensures
        exists|k: int|
            0 <= k <= c && #[trigger] chain_of(s).contains(k) && s[k].data.subrange(4, 36)
                == s[chain_of(s).last()].hash,
    decreases c,
{
    law_there_is_a_chain_where_there_is_a_root(s);
    let hash = s[chain_of(s).last()].hash;
    assert(is_current(s, c) && s[c].prev() == hash);
    if exists|j: int| 0 <= j < c && #[trigger] is_current(s, j) && s[j].prev() == hash {
        let j = choose|j: int| 0 <= j < c && #[trigger] is_current(s, j) && s[j].prev() == hash;
        law_chain_goes_on_as_long_as_it_can(s, j);
    } else {
        assert(is_first_child(s, hash, c));
        assert(chain_of(s).contains(c));
    }
}

/// The blocks that are handed out are those of the chain, whole, numbered from
/// zero, each with its hash, and each naming the one before it as its parent.
pub proof fn law_blocks_of_the_chain_are_handed_out_whole(
    s: Seq<Stored>,
    blocks: Seq<RawBlock>,
    i: int,
)
    requires
        exists|r: int| is_root(s, r),
        are_chain_blocks(s, chain_of(s), blocks),
        0 <= i < blocks.len(),
    ensures
        blocks.len() == chain_of(s).len(),
        blocks[i].height == i,
        blocks[i].data@ == s[chain_of(s)[i]].data,
        blocks[i].hash@ == header::hash_display(s[chain_of(s)[i]].hash),
        i + 1 < blocks.len() ==> blocks[i].hash@ == header::hash_display(
            blocks[i + 1].data@.subrange(4, 36),
        ),
{
    law_there_is_a_chain_where_there_is_a_root(s);
    if i + 1 < blocks.len() {
        law_chain_follows_parents(s, i + 1);
        assert(blocks[i + 1].data@ == s[chain_of(s)[i + 1]].data);
    }
}

/// A stored block is taken whole, with its hash.
pub proof fn law_scanned_blocks_are_taken_whole(blocks: Seq<ScannedBlock>, i: int)
    requires
        0 <= i < blocks.len(),
    ensures
        stored(blocks).len() == blocks.len(),
        stored(blocks)[i].hash == blocks[i].hash@,
        stored(blocks)[i].data == blocks[i].data@,
{
}

} // verus!
