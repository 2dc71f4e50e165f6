//! Reading blocks from the node's `blk*.dat` files.
//!
//! The files can be obfuscated with a key that stands in `xor.dat` beside
//! them. The reader takes what the files hold, in the order of their names,
//! and gives the chain that their blocks form.

use crate::chain::error::ChainError;
use crate::chain::frame;
use crate::chain::frame::read_blocks;
use crate::chain::header;
use crate::chain::header::{BlockHeader, HEADER_SIZE};
use crate::chain::order;
use crate::chain::order::{ScannedBlock, order_blocks};
use crate::chain::storage;
use crate::chain::stream::RawBlock;
use vstd::prelude::*;
use vstd::slice::slice_subrange;

verus! {

/// Reads blocks from the contents of `blk*.dat` files.
#[derive(Debug)]
pub struct BlkFileReader {
    xor_key: Vec<u8>,
}

/// `bytes` with the key added to them, over and over, bit by bit.
pub open spec fn xored(key: Seq<u8>, bytes: Seq<u8>) -> Seq<u8> {
    if key.len() == 0 {
        bytes
    } else {
        Seq::new(bytes.len(), |i: int| bytes[i] ^ key[i % key.len() as int])
    }
}

/// A block with the hash of its header.
pub open spec fn with_hash(block: Seq<u8>) -> order::Stored {
    order::Stored {
        hash: header::block_hash_of(block.subrange(0, HEADER_SIZE as int)),
        data: block,
    }
}

/// The blocks of an obfuscated file, with their hashes, in file order.
pub open spec fn stored_in(key: Seq<u8>, file: Seq<u8>) -> Seq<order::Stored> {
    let blocks = frame::blocks_in(xored(key, file));
    Seq::new(blocks.len(), |i: int| with_hash(blocks[i]))
}

/// The blocks of several obfuscated files, file by file.
pub open spec fn stored_in_all(key: Seq<u8>, files: Seq<Seq<u8>>) -> Seq<order::Stored>
    decreases files.len(),
{
    if files.len() == 0 {
        seq![]
    } else {
        stored_in_all(key, files.drop_last()) + stored_in(key, files.last())
    }
}

/// The views of file contents.
pub open spec fn contents(files: Seq<Vec<u8>>) -> Seq<Seq<u8>> {
    Seq::new(files.len(), |i: int| files[i]@)
}

impl BlkFileReader {
    /// The key that the files are obfuscated with; empty where they are not.
    pub closed spec fn key(&self) -> Seq<u8> {
        self.xor_key@
    }

    /// A reader for files with the key that `xor.dat` holds; there is no key
    /// where there is no such file.
    pub fn open(xor_dat: Option<Vec<u8>>) -> (reader: Self)
        ensures
            reader.key() == (match xor_dat {
                Some(key) => key@,
                None => seq![],
            }),
    {
        let xor_key = match xor_dat {
            Some(key) => key,
            None => Vec::new(),
        };
        BlkFileReader { xor_key }
    }

    /// De-obfuscates a whole file in place.
    pub fn deobfuscate_file_in_place(&self, buf: &mut [u8])
        ensures
            final(buf)@ == xored(self.key(), old(buf)@),
            final(buf)@.len() == old(buf)@.len(),
            self.key().len() == 0 ==> final(buf)@ == old(buf)@,
            self.key().len() > 0 ==> forall|i: int|
                0 <= i < old(buf)@.len() ==> #[trigger] final(buf)@[i] == old(buf)@[i] ^ self.key()[i
                    % self.key().len() as int],
    {
        if self.xor_key.is_empty() {
            return;
        }
        let key_len = self.xor_key.len();
        let n = buf.len();
        for idx in 0..n
            invariant
                key_len == self.xor_key@.len(),
                key_len > 0,
                n == old(buf)@.len(),
                buf@.len() == n,
                forall|i: int|
                    0 <= i < idx ==> #[trigger] buf@[i] == xored(self.key(), old(buf)@)[i],
                forall|i: int| idx <= i < n ==> #[trigger] buf@[i] == old(buf)@[i],
        {
            let byte = buf[idx] ^ self.xor_key[idx % key_len];
            buf[idx] = byte;
        }
        assert(buf@ =~= xored(self.key(), old(buf)@));
    }

    /// Reads the blocks of one file, with their hashes, in file order.
    pub fn scan_blk_file(&self, file: Vec<u8>) -> (blocks: Vec<ScannedBlock>)
        ensures
            order::stored(blocks@) == stored_in(self.key(), file@),
            forall|i: int|
                0 <= i < blocks@.len() ==> (#[trigger] blocks@[i]).data@.len() >= HEADER_SIZE,
    {
        let mut bytes = file;
        self.deobfuscate_file_in_place(bytes.as_mut_slice());
        let found = read_blocks(bytes.as_slice());
        let ghost plain = xored(self.key(), file@);
        let n = found.len();
        let mut rest = found;
        let mut blocks: Vec<ScannedBlock> = Vec::new();
        for i in 0..n
            invariant
                n == frame::blocks_in(plain).len(),
                rest@.len() == n,
                blocks@.len() == i,
                plain == xored(self.key(), file@),
                forall|j: int|
                    i <= j < n ==> (#[trigger] rest@[j])@ == frame::blocks_in(plain)[j],
                forall|j: int|
                    0 <= j < i ==> (#[trigger] blocks@[j])@ == with_hash(
                        frame::blocks_in(plain)[j],
                    ) && blocks@[j].data@.len() >= HEADER_SIZE,
        {
            let mut data: Vec<u8> = Vec::new();
            std::mem::swap(&mut rest[i], &mut data);
            proof {
                frame::law_blocks_have_block_size(plain, i as int);
            }
            let header = BlockHeader::decode(
                slice_subrange(data.as_slice(), 0, HEADER_SIZE),
            ).unwrap();
            let hash = header.block_hash();
            blocks.push(ScannedBlock { hash, data });
        }
        assert(order::stored(blocks@) =~= stored_in(self.key(), file@));
        blocks
    }

    /// Reads the chain that the blocks of the files form, in the order of
    /// their heights.
    ///
    /// The files are given in the order of their names. Fails where no block
    /// can start the chain.
    pub fn for_each_block(&self, files: Vec<Vec<u8>>) -> (r: Result<Vec<RawBlock>, ChainError>)
        ensures
            ({
                let s = stored_in_all(self.key(), contents(files@));
                &&& r is Ok <==> exists|i: int| order::is_root(s, i)
                &&& r matches Ok(chain) ==> {
                    &&& order::is_chain(s, order::chain_of(s))
                    &&& order::are_chain_blocks(s, order::chain_of(s), chain@)
                }
                &&& r matches Err(ChainError::Parse(text)) ==> text@ == "no chain root found"@
            }),
    {
        let ghost all = contents(files@);
        let n = files.len();
        let mut rest = files;
        let mut blocks: Vec<ScannedBlock> = Vec::new();
        for i in 0..n
            invariant
                n == all.len(),
                rest@.len() == n,
                forall|j: int| i <= j < n ==> (#[trigger] rest@[j])@ == all[j],
                order::stored(blocks@) == stored_in_all(self.key(), all.take(i as int)),
                forall|j: int|
                    0 <= j < blocks@.len() ==> (#[trigger] blocks@[j]).data@.len() >= HEADER_SIZE,
        {
            let mut file: Vec<u8> = Vec::new();
            std::mem::swap(&mut rest[i], &mut file);
            let mut found = self.scan_blk_file(file);
            let ghost before = blocks@;
            let ghost added = found@;
            blocks.append(&mut found);
            proof {
                assert(order::stored(before + added) =~= order::stored(before) + order::stored(
                    added,
                ));
                assert(all.take(i + 1).drop_last() =~= all.take(i as int));
            }
        }
        proof {
            assert(all.take(n as int) =~= all);
        }
        order_blocks(blocks)
    }
}

/// Obfuscating twice with one key gives back what there was.
pub proof fn law_obfuscation_undoes_itself(key: Seq<u8>, bytes: Seq<u8>)
    ensures
        xored(key, xored(key, bytes)) == bytes,
{
    assert forall|a: u8, b: u8| #[trigger] ((a ^ b) ^ b) == a by {
        assert((a ^ b) ^ b == a) by (bit_vector);
    }
    assert(xored(key, xored(key, bytes)) =~= bytes);
}

/// A file with `blocks` in it, as the node writes it: framed, with unused space
/// behind them, and obfuscated.
pub open spec fn written_file(
    key: Seq<u8>,
    mark: Seq<u8>,
    blocks: Seq<Seq<u8>>,
    spare: nat,
) -> Seq<u8> {
    xored(key, frame::frames(mark, blocks) + frame::unused(spare))
}

/// What was written to a file frame by frame and obfuscated with a key, a
/// reader with that key reads back, with unused space behind it or not.
pub proof fn law_obfuscated_file_reads_back(
    key: Seq<u8>,
    mark: Seq<u8>,
    blocks: Seq<Seq<u8>>,
    spare: nat,
)
    requires
        mark.len() == 4,
        mark != seq![0u8, 0u8, 0u8, 0u8],
        forall|i: int|
            0 <= i < blocks.len() ==> HEADER_SIZE <= #[trigger] blocks[i].len()
                <= frame::MAX_BLOCK_SIZE,
    ensures
        stored_in(key, written_file(key, mark, blocks, spare)) == Seq::new(
            blocks.len(),
            |i: int| with_hash(blocks[i]),
        ),
{
    law_obfuscation_undoes_itself(key, frame::frames(mark, blocks) + frame::unused(spare));
    frame::law_written_blocks_read_back(mark, blocks, spare);
}

/// The blocks of several files, with their hashes, file by file.
pub open spec fn hashed(files: Seq<Seq<Seq<u8>>>) -> Seq<order::Stored>
    decreases files.len(),
{
    if files.len() == 0 {
        seq![]
    } else {
        hashed(files.drop_last()) + Seq::new(
            files.last().len(),
            |i: int| with_hash(files.last()[i]),
        )
    }
}

/// Whether blocks can be written to files, so many bytes being left unused
/// behind those of each file: the mark is one, and each block is of a size
/// that blocks have.
pub open spec fn can_be_written(
    mark: Seq<u8>,
    blocks: Seq<Seq<Seq<u8>>>,
    spare: Seq<nat>,
) -> bool {
    &&& mark.len() == 4
    &&& mark != seq![0u8, 0u8, 0u8, 0u8]
    &&& spare.len() == blocks.len()
    &&& forall|f: int, i: int|
        0 <= f < blocks.len() && 0 <= i < blocks[f].len() ==> HEADER_SIZE
            <= #[trigger] blocks[f][i].len() <= frame::MAX_BLOCK_SIZE
}

/// Several files with blocks in them, as the node writes them.
pub open spec fn written_files(
    key: Seq<u8>,
    mark: Seq<u8>,
    blocks: Seq<Seq<Seq<u8>>>,
    spare: Seq<nat>,
) -> Seq<Seq<u8>> {
    Seq::new(blocks.len(), |f: int| written_file(key, mark, blocks[f], spare[f]))
}

/// What was written to several files is read back, file by file.
pub proof fn law_written_files_read_back(
    key: Seq<u8>,
    mark: Seq<u8>,
    blocks: Seq<Seq<Seq<u8>>>,
    spare: Seq<nat>,
)
    requires
        can_be_written(mark, blocks, spare),
    ensures
        stored_in_all(key, written_files(key, mark, blocks, spare)) == hashed(blocks),
    decreases blocks.len(),
{
    let files = written_files(key, mark, blocks, spare);
    if blocks.len() > 0 {
        let b = blocks.drop_last();
        let s = spare.drop_last();
        assert forall|f: int, i: int| 0 <= f < b.len() && 0 <= i < b[f].len() implies HEADER_SIZE
            <= #[trigger] b[f][i].len() <= frame::MAX_BLOCK_SIZE by {
            assert(b[f] == blocks[f]);
            assert(blocks[f][i].len() <= frame::MAX_BLOCK_SIZE);
        }
        law_written_files_read_back(key, mark, b, s);
        assert(files.drop_last() =~= written_files(key, mark, b, s));
        let last = blocks.last();
        assert forall|i: int| 0 <= i < last.len() implies HEADER_SIZE <= #[trigger] last[i].len()
            <= frame::MAX_BLOCK_SIZE by {
            assert(blocks[blocks.len() - 1][i].len() <= frame::MAX_BLOCK_SIZE);
        }
        law_obfuscated_file_reads_back(key, mark, last, spare.last());
    }
}

/// A chain whose blocks were written to several files, in any order, is read
/// from them in the order of the chain.
pub proof fn law_written_chain_is_read_in_order(
    key: Seq<u8>,
    mark: Seq<u8>,
    blocks: Seq<Seq<Seq<u8>>>,
    spare: Seq<nat>,
    line: Seq<int>,
)
    requires
        can_be_written(mark, blocks, spare),
        order::is_line(hashed(blocks), line),
    ensures
        ({
            let s = stored_in_all(key, written_files(key, mark, blocks, spare));
            &&& order::is_chain(s, line)
            &&& order::chain_of(s) == line
        }),
{
    law_written_files_read_back(key, mark, blocks, spare);
    order::law_line_comes_out_in_order(hashed(blocks), line);
}

/// Two directories with the same blocks are read alike, in whatever order and
/// in whichever files the blocks were written to each, where no two blocks
/// have one hash, exactly one block has no stored parent and no two have one
/// parent: both are read, and the same blocks come out in the same order.
pub proof fn law_directories_with_the_same_blocks_are_read_alike(
    key: Seq<u8>,
    mark: Seq<u8>,
    blocks: Seq<Seq<Seq<u8>>>,
    spare: Seq<nat>,
    other_key: Seq<u8>,
    other_mark: Seq<u8>,
    other_blocks: Seq<Seq<Seq<u8>>>,
    other_spare: Seq<nat>,
)
    requires
        can_be_written(mark, blocks, spare),
        can_be_written(other_mark, other_blocks, other_spare),
        hashed(blocks).to_multiset() == hashed(other_blocks).to_multiset(),
        storage::has_distinct_hashes(hashed(blocks)),
        storage::has_one_start(hashed(blocks)),
        storage::has_single_children(hashed(blocks)),
    ensures
        ({
            let s = stored_in_all(key, written_files(key, mark, blocks, spare));
            let t = stored_in_all(
                other_key,
                written_files(other_key, other_mark, other_blocks, other_spare),
            );
            &&& exists|r: int| order::is_root(s, r)
            &&& exists|r: int| order::is_root(t, r)
            &&& forall|a: Seq<RawBlock>, b: Seq<RawBlock>|
                #[trigger] order::are_chain_blocks(s, order::chain_of(s), a)
                    && #[trigger] order::are_chain_blocks(t, order::chain_of(t), b)
                    ==> storage::are_same_blocks(a, b)
            &&& order::chain_of(s).no_duplicates()
            &&& forall|i: int| #[trigger]
                storage::is_reachable(s, i) <==> order::chain_of(s).contains(i)
        }),
{
    law_written_files_read_back(key, mark, blocks, spare);
    law_written_files_read_back(other_key, other_mark, other_blocks, other_spare);
    storage::law_storage_order_does_not_matter(hashed(blocks), hashed(other_blocks));
    storage::law_reachable_blocks_come_out_once(hashed(blocks));
}

/// Every byte of a file is combined with the byte of the key at its place, the
/// whole key being used over and over.
pub proof fn law_whole_key_is_used_over_and_over(key: Seq<u8>, bytes: Seq<u8>, i: int)
    requires
        0 <= i < bytes.len(),
    ensures
        xored(key, bytes).len() == bytes.len(),
        key.len() == 0 ==> xored(key, bytes)[i] == bytes[i],
        key.len() > 0 ==> xored(key, bytes)[i] == bytes[i] ^ key[i % key.len() as int],
        0 < key.len() && bytes[i] == 0 ==> xored(key, bytes)[i] == key[i % key.len() as int],
{
    let k = key[i % key.len() as int];
    assert(0u8 ^ k == k) by (bit_vector);
}

/// What stands in several files is what stands in the first of them and then
/// what stands in the others.
pub proof fn law_files_are_read_one_after_the_other(
    key: Seq<u8>,
    files: Seq<Seq<u8>>,
    more: Seq<Seq<u8>>,
)
    ensures
        stored_in_all(key, files + more) == stored_in_all(key, files) + stored_in_all(key, more),
        stored_in_all(key, Seq::<Seq<u8>>::empty()) == Seq::<order::Stored>::empty(),
    decreases more.len(),
{
    if more.len() > 0 {
        law_files_are_read_one_after_the_other(key, files, more.drop_last());
        assert((files + more).drop_last() =~= files + more.drop_last());
        assert(stored_in_all(key, files + more) =~= stored_in_all(key, files) + stored_in_all(
            key,
            more,
        ));
    } else {
        assert(files + more =~= files);
        assert(stored_in_all(key, files) + stored_in_all(key, more) =~= stored_in_all(key, files));
    }
}

/// What stands in one file are the blocks of what is left when the key is
/// removed, whole and in their order, each with the hash of its first eighty
/// bytes.
pub proof fn law_blocks_of_a_file_keep_their_bytes(key: Seq<u8>, file: Seq<u8>, i: int)
    requires
        0 <= i < frame::blocks_in(xored(key, file)).len(),
    ensures
        stored_in_all(key, seq![file]).len() == frame::blocks_in(xored(key, file)).len(),
        stored_in_all(key, seq![file])[i].data == frame::blocks_in(xored(key, file))[i],
        stored_in_all(key, seq![file])[i].hash == header::block_hash_of(
            frame::blocks_in(xored(key, file))[i].subrange(0, 80),
        ),
        stored_in(key, file) == stored_in_all(key, seq![file]),
{
    reveal_with_fuel(stored_in_all, 2);
    assert(seq![file].drop_last() =~= Seq::<Seq<u8>>::empty());
    assert(stored_in_all(key, seq![file]) =~= stored_in(key, file));
}

/// A file without blocks adds none.
pub proof fn law_file_without_blocks_adds_none(key: Seq<u8>, file: Seq<u8>)
    requires
        frame::blocks_in(xored(key, file)).len() == 0,
    ensures
        stored_in_all(key, seq![file]).len() == 0,
        stored_in(key, file).len() == 0,
{
    reveal_with_fuel(stored_in_all, 2);
    assert(seq![file].drop_last() =~= Seq::<Seq<u8>>::empty());
}

/// Nothing of what the files hold is left out.
pub proof fn law_contents_are_whole(files: Seq<Vec<u8>>, i: int)
    requires
        0 <= i < files.len(),
    ensures
        contents(files).len() == files.len(),
        contents(files)[i] == files[i]@,
{
}

} // verus!
