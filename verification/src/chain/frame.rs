//! The framing of block files.
//!
//! A block file is a run of frames: four bytes that mark the network, the
//! length of the block in four bytes, least significant first, and the block.
//! Space that the node has set aside and not yet used holds zeros.

use crate::chain::header;
use crate::chain::header::HEADER_SIZE;
use vstd::prelude::*;
use vstd::slice::{slice_subrange, slice_to_vec};

verus! {

/// Bytes before the block in a frame.
pub const FRAME_HEADER_SIZE: usize = 8;

/// Longest block that a frame may hold.
pub const MAX_BLOCK_SIZE: usize = 4_000_000;

/// The number that the first four bytes of `b` spell, least significant first.
pub open spec fn le_value(b: Seq<u8>) -> nat {
    (b[0] + 256 * b[1] + 65536 * b[2] + 16777216 * b[3]) as nat
}

/// The network mark at `at`.
pub open spec fn mark_at(bytes: Seq<u8>, at: int) -> Seq<u8> {
    bytes.subrange(at, at + 4)
}

/// The length field of a frame at `at`.
pub open spec fn size_at(bytes: Seq<u8>, at: int) -> nat {
    le_value(bytes.subrange(at + 4, at + 8))
}

/// What a reader finds at a position of a block file.
pub enum Found {
    /// Nothing more: the rest is too short, unused, or holds no usable frame.
    End,
    /// A byte that starts no frame.
    Gap,
    /// A frame with a block of that many bytes.
    Block(nat),
}

/// What stands at `at` in a block file. The first four bytes of the file are
/// the mark that every frame of it carries.
pub open spec fn found_at(bytes: Seq<u8>, at: int) -> Found {
    let size = size_at(bytes, at);
    if at + FRAME_HEADER_SIZE > bytes.len() {
        Found::End
    } else if mark_at(bytes, at) == seq![0u8, 0u8, 0u8, 0u8] {
        Found::End
    } else if mark_at(bytes, at) != mark_at(bytes, 0) {
        Found::Gap
    } else if size == 0 || size > MAX_BLOCK_SIZE || at + FRAME_HEADER_SIZE + size > bytes.len() {
        Found::End
    } else {
        Found::Block(size)
    }
}

/// The contents of the frames from `at` on, in file order.
pub open spec fn frames_from(bytes: Seq<u8>, at: int) -> Seq<Seq<u8>>
    decreases bytes.len() - at,
{
    match found_at(bytes, at) {
        Found::End => seq![],
        Found::Gap => frames_from(bytes, at + 1),
        Found::Block(size) => seq![
            bytes.subrange(at + FRAME_HEADER_SIZE, at + FRAME_HEADER_SIZE + size),
        ] + frames_from(bytes, at + FRAME_HEADER_SIZE + size),
    }
}

/// Whether a frame is long enough to hold a block header.
pub open spec fn has_header(block: Seq<u8>) -> bool {
    block.len() >= HEADER_SIZE
}

/// Those of `blocks` that are long enough to hold a block header.
pub open spec fn with_headers(blocks: Seq<Seq<u8>>) -> Seq<Seq<u8>> {
    blocks.filter(|b: Seq<u8>| has_header(b))
}

/// The blocks of a block file, in file order.
pub open spec fn blocks_in(bytes: Seq<u8>) -> Seq<Seq<u8>> {
    with_headers(frames_from(bytes, 0))
}

/// Whether the four bytes at `at` are those at `other`.
fn same_mark(bytes: &[u8], at: usize, other: usize) -> (b: bool)
    requires
        at + 4 <= bytes@.len(),
        other + 4 <= bytes@.len(),
    ensures
        b == (mark_at(bytes@, at as int) == mark_at(bytes@, other as int)),
{
    let b = bytes[at] == bytes[other] && bytes[at + 1] == bytes[other + 1] && bytes[at + 2]
        == bytes[other + 2] && bytes[at + 3] == bytes[other + 3];
    proof {
        let m = mark_at(bytes@, at as int);
        let o = mark_at(bytes@, other as int);
        if b {
            assert(m =~= o);
        }
        assert(m[0] == bytes@[at as int] && m[1] == bytes@[at + 1] && m[2] == bytes@[at + 2] && m[3]
            == bytes@[at + 3]);
        assert(o[0] == bytes@[other as int] && o[1] == bytes@[other + 1] && o[2] == bytes@[other
            + 2] && o[3] == bytes@[other + 3]);
    }
    b
}

/// Whether the four bytes at `at` are all zero.
fn no_mark(bytes: &[u8], at: usize) -> (b: bool)
    requires
        at + 4 <= bytes@.len(),
    ensures
        b == (mark_at(bytes@, at as int) == seq![0u8, 0u8, 0u8, 0u8]),
{
    let b = bytes[at] == 0 && bytes[at + 1] == 0 && bytes[at + 2] == 0 && bytes[at + 3] == 0;
    proof {
        let m = mark_at(bytes@, at as int);
        let z = seq![0u8, 0u8, 0u8, 0u8];
        if b {
            assert(m =~= z);
        }
        assert(m[0] == bytes@[at as int] && m[1] == bytes@[at + 1] && m[2] == bytes@[at + 2] && m[3]
            == bytes@[at + 3]);
        assert(z[0] == 0 && z[1] == 0 && z[2] == 0 && z[3] == 0);
    }
    b
}

/// Reads the length field of the frame at `at`.
fn read_size(bytes: &[u8], at: usize) -> (size: u32)
    requires
        at + FRAME_HEADER_SIZE <= bytes@.len(),
    ensures
        size == size_at(bytes@, at as int),
{
    let n = bytes.len();
    assert(at + FRAME_HEADER_SIZE <= n);
    let b0: u32 = bytes[at + 4] as u32;
    let b1: u32 = bytes[at + 5] as u32;
    let b2: u32 = bytes[at + 6] as u32;
    let b3: u32 = bytes[at + 7] as u32;
    b0 + 256 * b1 + 65536 * b2 + 16777216 * b3
}

/// Reads the blocks of a block file, in file order.
///
/// The reader takes the first four bytes of the file for the network mark. It
/// steps over bytes that start no frame one at a time, and stops at unused
/// space, at a length that no block has, and at a frame that the file cuts
/// short. Frames too short for a block header are left out.
pub fn read_blocks(bytes: &[u8]) -> (blocks: Vec<Vec<u8>>)
    ensures
        blocks@.len() == blocks_in(bytes@).len(),
        forall|i: int| 0 <= i < blocks@.len() ==> #[trigger] blocks@[i]@ == blocks_in(bytes@)[i],
{
    let mut blocks: Vec<Vec<u8>> = Vec::new();
    let mut at: usize = 0;
    let ghost mut read: Seq<Seq<u8>> = seq![];
    proof {
        assert(read + frames_from(bytes@, 0) =~= frames_from(bytes@, 0));
        assert(with_headers(read) =~= seq![]) by {
            reveal_with_fuel(Seq::filter, 1);
        }
    }
    while bytes.len() >= FRAME_HEADER_SIZE && at <= bytes.len() - FRAME_HEADER_SIZE
        invariant_except_break
            at <= bytes@.len(),
        invariant
            read + frames_from(bytes@, at as int) == frames_from(bytes@, 0),
            blocks@.len() == with_headers(read).len(),
            forall|i: int|
                0 <= i < blocks@.len() ==> #[trigger] blocks@[i]@ == with_headers(read)[i],
        ensures
            found_at(bytes@, at as int) is End,
        decreases bytes@.len() - at,
    {
        if no_mark(bytes, at) {
            break;
        }
        if !same_mark(bytes, at, 0) {
            at = at + 1;
            continue;
        }
        let size = read_size(bytes, at) as usize;
        if size == 0 || size > MAX_BLOCK_SIZE {
            break;
        }
        let start = at + FRAME_HEADER_SIZE;
        if size > bytes.len() - start {
            break;
        }
        let block = slice_subrange(bytes, start, start + size);
        proof {
            let rest = frames_from(bytes@, start + size);
            assert(read + (seq![block@] + rest) =~= read.push(block@) + rest);
            assert(read.push(block@).drop_last() =~= read);
            reveal_with_fuel(Seq::filter, 1);
            read = read.push(block@);
        }
        if block.len() >= HEADER_SIZE {
            blocks.push(slice_to_vec(block));
        }
        at = start + size;
    }
    proof {
        assert(read + Seq::<Seq<u8>>::empty() =~= read);
    }
    blocks
}

/// A frame with `block` in it, for the network with that mark.
pub open spec fn frame(mark: Seq<u8>, block: Seq<u8>) -> Seq<u8> {
    mark + header::le_bytes(block.len() as u32) + block
}

/// The frames of `blocks`, one behind the other.
pub open spec fn frames(mark: Seq<u8>, blocks: Seq<Seq<u8>>) -> Seq<u8>
    decreases blocks.len(),
{
    if blocks.len() == 0 {
        seq![]
    } else {
        frame(mark, blocks[0]) + frames(mark, blocks.drop_first())
    }
}

/// Space set aside and not yet used.
pub open spec fn unused(len: nat) -> Seq<u8> {
    Seq::new(len, |i: int| 0u8)
}

/// The length field of a frame reads back as the length of the block.
proof fn lemma_le_value(x: u32)
    ensures
        le_value(header::le_bytes(x)) == x,
{
    assert(x % 256 + 256 * (x / 256 % 256) + 65536 * (x / 65536 % 256) + 16777216 * (x / 16777216)
        == x && x / 16777216 < 256) by (bit_vector);
}

/// Where `blocks` are framed after `before`, the reader finds them there.
proof fn lemma_frames_after(before: Seq<u8>, mark: Seq<u8>, blocks: Seq<Seq<u8>>, spare: nat)
    requires
        mark.len() == 4,
        mark != seq![0u8, 0u8, 0u8, 0u8],
        forall|i: int| 0 <= i < blocks.len() ==> 1 <= #[trigger] blocks[i].len() <= MAX_BLOCK_SIZE,
        blocks.len() > 0 ==> mark_at(before + frames(mark, blocks) + unused(spare), 0) == mark,
    ensures
        frames_from(before + frames(mark, blocks) + unused(spare), before.len() as int) == blocks,
    decreases blocks.len(),
{
    let bytes = before + frames(mark, blocks) + unused(spare);
    let at = before.len() as int;
    if blocks.len() == 0 {
        if spare >= FRAME_HEADER_SIZE {
            assert(mark_at(bytes, at) =~= seq![0u8, 0u8, 0u8, 0u8]);
        }
        assert(found_at(bytes, at) is End);
        assert(frames_from(bytes, at) =~= blocks);
    } else {
        let block = blocks[0];
        let rest = blocks.drop_first();
        let head = frame(mark, block);
        assert(bytes =~= before + head + frames(mark, rest) + unused(spare));
        assert(mark_at(bytes, at) =~= mark);
        assert(bytes.subrange(at + 4, at + 8) =~= header::le_bytes(block.len() as u32));
        lemma_le_value(block.len() as u32);
        assert(found_at(bytes, at) == Found::Block(block.len()));
        assert(bytes.subrange(at + 8, at + 8 + block.len()) =~= block);
        let past = before + head;
        assert(past + frames(mark, rest) + unused(spare) =~= bytes);
        assert forall|i: int| 0 <= i < rest.len() implies 1 <= #[trigger] rest[i].len()
            <= MAX_BLOCK_SIZE by {
            assert(rest[i] == blocks[i + 1]);
        }
        lemma_frames_after(past, mark, rest, spare);
        assert(seq![block] + rest =~= blocks);
    }
}

/// A file that was written frame by frame, with any amount of unused space
/// behind the last frame, reads back as the blocks that were written, in
/// order; those too short for a header are left out.
pub proof fn law_written_blocks_read_back(mark: Seq<u8>, blocks: Seq<Seq<u8>>, spare: nat)
    requires
        mark.len() == 4,
        mark != seq![0u8, 0u8, 0u8, 0u8],
        forall|i: int| 0 <= i < blocks.len() ==> 1 <= #[trigger] blocks[i].len() <= MAX_BLOCK_SIZE,
    ensures
        blocks_in(frames(mark, blocks) + unused(spare)) == with_headers(blocks),
        (forall|i: int| 0 <= i < blocks.len() ==> has_header(#[trigger] blocks[i])) ==> blocks_in(
            frames(mark, blocks) + unused(spare),
        ) == blocks,
{
    let bytes = frames(mark, blocks) + unused(spare);
    assert(seq![] + frames(mark, blocks) + unused(spare) =~= bytes);
    if blocks.len() > 0 {
        assert(mark_at(bytes, 0) =~= mark);
    }
    lemma_frames_after(seq![], mark, blocks, spare);
    if forall|i: int| 0 <= i < blocks.len() ==> has_header(#[trigger] blocks[i]) {
        lemma_filter_all(blocks);
    }
}

/// A block that is read is long enough for a header and no longer than a block
/// may be.
pub proof fn law_blocks_have_block_size(bytes: Seq<u8>, i: int)
    requires
        0 <= i < blocks_in(bytes).len(),
    ensures
        HEADER_SIZE <= blocks_in(bytes)[i].len() <= MAX_BLOCK_SIZE,
{
    lemma_frames_bounded(bytes, 0);
    lemma_filter_bounded(frames_from(bytes, 0));
}

/// What is kept of blocks of bounded length holds a header and stays bounded.
proof fn lemma_filter_bounded(blocks: Seq<Seq<u8>>)
    requires
        forall|i: int| 0 <= i < blocks.len() ==> #[trigger] blocks[i].len() <= MAX_BLOCK_SIZE,
    ensures
        forall|i: int|
            0 <= i < with_headers(blocks).len() ==> HEADER_SIZE <= #[trigger] with_headers(
                blocks,
            )[i].len() <= MAX_BLOCK_SIZE,
    decreases blocks.len(),
{
    reveal_with_fuel(Seq::filter, 1);
    if blocks.len() > 0 {
        let init = blocks.drop_last();
        assert forall|i: int| 0 <= i < init.len() implies #[trigger] init[i].len()
            <= MAX_BLOCK_SIZE by {
            assert(init[i] == blocks[i]);
        }
        lemma_filter_bounded(init);
        assert forall|i: int| 0 <= i < with_headers(blocks).len() implies HEADER_SIZE
            <= #[trigger] with_headers(blocks)[i].len() <= MAX_BLOCK_SIZE by {
            if i < with_headers(init).len() {
                assert(with_headers(blocks)[i] == with_headers(init)[i]);
            } else {
                assert(with_headers(blocks)[i] == blocks.last());
            }
        }
    }
}

/// The frames of a file are no longer than a block may be.
proof fn lemma_frames_bounded(bytes: Seq<u8>, at: int)
    requires
        0 <= at,
    ensures
        forall|i: int|
            0 <= i < frames_from(bytes, at).len() ==> #[trigger] frames_from(bytes, at)[i].len()
                <= MAX_BLOCK_SIZE,
    decreases bytes.len() - at,
{
    match found_at(bytes, at) {
        Found::End => {},
        Found::Gap => {
            lemma_frames_bounded(bytes, at + 1);
            assert(frames_from(bytes, at) == frames_from(bytes, at + 1));
        },
        Found::Block(size) => {
            let next = at + FRAME_HEADER_SIZE + size;
            lemma_frames_bounded(bytes, next);
            assert forall|i: int| 0 <= i < frames_from(bytes, at).len() implies #[trigger] frames_from(
                bytes,
                at,
            )[i].len() <= MAX_BLOCK_SIZE by {
                if i > 0 {
                    assert(frames_from(bytes, at)[i] == frames_from(bytes, next)[i - 1]);
                }
            }
        },
    }
}

/// Nothing is left out of blocks that all hold a header.
proof fn lemma_filter_all(blocks: Seq<Seq<u8>>)
    requires
        forall|i: int| 0 <= i < blocks.len() ==> has_header(#[trigger] blocks[i]),
    ensures
        with_headers(blocks) == blocks,
    decreases blocks.len(),
{
    reveal_with_fuel(Seq::filter, 1);
    if blocks.len() > 0 {
        assert forall|i: int| 0 <= i < blocks.drop_last().len() implies has_header(
            #[trigger] blocks.drop_last()[i],
        ) by {
            assert(blocks.drop_last()[i] == blocks[i]);
        }
        lemma_filter_all(blocks.drop_last());
        assert(blocks.drop_last().push(blocks.last()) =~= blocks);
    } else {
        assert(with_headers(blocks) =~= blocks);
    }
}

/// The reader stops where fewer than eight bytes are left, where the next four
/// are zero, and where a frame has no bytes, more than four million, or more
/// than are left.
pub proof fn law_reading_stops(bytes: Seq<u8>, at: int)
    requires
        0 <= at,
        ({
            let marked = forall|i: int| 0 <= i < 4 ==> #[trigger] bytes[at + i] == bytes[i];
            let size = bytes[at + 4] + 256 * bytes[at + 5] + 65536 * bytes[at + 6] + 16777216
                * bytes[at + 7];
            ||| at + 8 > bytes.len()
            ||| forall|i: int| 0 <= i < 4 ==> #[trigger] bytes[at + i] == 0
            ||| marked && (size == 0 || size > 4_000_000 || at + 8 + size > bytes.len())
        }),
    ensures
        frames_from(bytes, at) == Seq::<Seq<u8>>::empty(),
{
    if at + 8 <= bytes.len() {
        let m = mark_at(bytes, at);
        if forall|i: int| 0 <= i < 4 ==> #[trigger] bytes[at + i] == 0 {
            assert(bytes[at + 0] == 0 && bytes[at + 1] == 0 && bytes[at + 2] == 0 && bytes[at + 3]
                == 0);
            assert(m =~= seq![0u8, 0u8, 0u8, 0u8]);
        } else {
            assert(bytes[at + 0] == bytes[0] && bytes[at + 1] == bytes[1] && bytes[at + 2]
                == bytes[2] && bytes[at + 3] == bytes[3]);
            assert(m =~= mark_at(bytes, 0));
        }
    }
    assert(found_at(bytes, at) is End);
}

/// The reader steps over a byte that starts neither unused space nor a frame
/// with the four bytes that the file begins with.
pub proof fn law_reading_steps_over_a_gap(bytes: Seq<u8>, at: int)
    requires
        0 <= at,
        at + 8 <= bytes.len(),
        exists|i: int| 0 <= i < 4 && #[trigger] bytes[at + i] != 0,
        exists|i: int| 0 <= i < 4 && #[trigger] bytes[at + i] != bytes[i],
    ensures
        frames_from(bytes, at) == frames_from(bytes, at + 1),
{
    let m = mark_at(bytes, at);
    let i = choose|i: int| 0 <= i < 4 && #[trigger] bytes[at + i] != 0;
    let j = choose|i: int| 0 <= i < 4 && #[trigger] bytes[at + i] != bytes[i];
    assert(m[i] != seq![0u8, 0u8, 0u8, 0u8][i]);
    assert(m[j] != mark_at(bytes, 0)[j]);
    assert(found_at(bytes, at) is Gap);
}

/// The reader takes a frame of up to four million bytes, all of them, and goes
/// on right behind it.
pub proof fn law_reading_takes_a_frame(bytes: Seq<u8>, at: int, size: int)
    requires
        0 <= at,
        size == bytes[at + 4] + 256 * bytes[at + 5] + 65536 * bytes[at + 6] + 16777216 * bytes[at
            + 7],
        1 <= size <= 4_000_000,
        at + 8 + size <= bytes.len(),
        exists|i: int| 0 <= i < 4 && #[trigger] bytes[at + i] != 0,
        forall|i: int| 0 <= i < 4 ==> #[trigger] bytes[at + i] == bytes[i],
    ensures
        frames_from(bytes, at) == seq![bytes.subrange(at + 8, at + 8 + size)] + frames_from(
            bytes,
            at + 8 + size,
        ),
{
    let m = mark_at(bytes, at);
    let i = choose|i: int| 0 <= i < 4 && #[trigger] bytes[at + i] != 0;
    assert(m[i] != seq![0u8, 0u8, 0u8, 0u8][i]);
    assert(bytes[at + 0] == bytes[0] && bytes[at + 1] == bytes[1] && bytes[at + 2] == bytes[2]
        && bytes[at + 3] == bytes[3]);
    assert(m =~= mark_at(bytes, 0));
    assert(found_at(bytes, at) == Found::Block(size as nat));
}

/// The blocks of a file are the contents of its frames from the start on, in
/// their order, without those of fewer than eighty bytes.
pub proof fn law_blocks_are_long_frames(bytes: Seq<u8>, blocks: Seq<Seq<u8>>, block: Seq<u8>)
    ensures
        blocks_in(bytes) == with_headers(frames_from(bytes, 0)),
        with_headers(Seq::<Seq<u8>>::empty()) == Seq::<Seq<u8>>::empty(),
        block.len() >= 80 ==> with_headers(blocks.push(block)) == with_headers(blocks).push(block),
        block.len() < 80 ==> with_headers(blocks.push(block)) == with_headers(blocks),
{
    reveal_with_fuel(Seq::filter, 1);
    assert(blocks.push(block).drop_last() =~= blocks);
    assert(with_headers(Seq::<Seq<u8>>::empty()) =~= Seq::<Seq<u8>>::empty());
}

} // verus!
