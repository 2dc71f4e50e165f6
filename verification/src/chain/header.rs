//! Block headers: the first eighty bytes of every stored block.
//!
//! A header is modelled by its consensus encoding, so that what is said of a
//! header here is said of bytes: its parent is bytes 4 to 36, and its hash is
//! a function of all eighty.

use vstd::prelude::*;

verus! {

/// Length of an encoded block header.
pub const HEADER_SIZE: usize = 80;

/// The four bytes of `x`, least significant first.
pub open spec fn le_bytes(x: u32) -> Seq<u8> {
    seq![
        (x % 256) as u8,
        (x / 256 % 256) as u8,
        (x / 65536 % 256) as u8,
        (x / 16777216) as u8,
    ]
}

/// A decoded block header.
#[derive(Clone, Copy, Debug)]
pub struct BlockHeader {
    /// Block version, as the bits of the signed number that the network sends.
    pub version: u32,
    /// Hash of the parent block.
    pub prev_blockhash: [u8; 32],
    /// Root of the Merkle tree of the block's transactions.
    pub merkle_root: [u8; 32],
    /// Time at which the block was made, as its miner claims.
    pub time: u32,
    /// Compact form of the target that the hash has to meet.
    pub bits: u32,
    /// Number that the miner varied.
    pub nonce: u32,
}

impl View for BlockHeader {
    type V = Seq<u8>;

    /// The consensus encoding of the header.
    open spec fn view(&self) -> Seq<u8> {
        le_bytes(self.version) + self.prev_blockhash@ + self.merkle_root@ + le_bytes(self.time)
            + le_bytes(self.bits) + le_bytes(self.nonce)
    }
}

/// The parent hash that an encoded header names.
pub open spec fn prev_of(encoding: Seq<u8>) -> Seq<u8> {
    encoding.subrange(4, 36)
}

/// The block hash of a header with the given encoding, in the order in which
/// it is stored.
pub uninterp spec fn block_hash_of(encoding: Seq<u8>) -> Seq<u8>;

/// The error that the decoder of the `bitcoin` crate gives.
#[verifier::external_type_specification]
#[verifier::external_body]
pub struct ExDecodeError(bitcoin::consensus::encode::Error);

/// `bitcoin::consensus::deserialize` at `bitcoin::block::Header`: it accepts
/// eighty bytes, whatever they hold, and nothing else, and gives the header
/// that those bytes encode.
#[verifier::external_body]
fn deserialize_header(bytes: &[u8]) -> (r: Result<BlockHeader, bitcoin::consensus::encode::Error>)
    ensures
        r is Ok <==> bytes@.len() == HEADER_SIZE,
        r matches Ok(h) ==> h@ == bytes@,
{
    let h: bitcoin::block::Header = bitcoin::consensus::deserialize(bytes)?;
    Ok(BlockHeader {
        version: h.version.to_consensus() as u32,
        prev_blockhash: bitcoin::hashes::Hash::to_byte_array(h.prev_blockhash),
        merkle_root: bitcoin::hashes::Hash::to_byte_array(h.merkle_root),
        time: h.time,
        bits: h.bits.to_consensus(),
        nonce: h.nonce,
    })
}

/// `bitcoin::block::Header::block_hash`: the result is a function of the
/// header's encoding alone.
#[verifier::external_body]
fn hash_header(header: &BlockHeader) -> (hash: [u8; 32])
    ensures
        hash@ == block_hash_of(header@),
{
    let h = bitcoin::block::Header {
        version: bitcoin::block::Version::from_consensus(header.version as i32),
        prev_blockhash: bitcoin::hashes::Hash::from_byte_array(header.prev_blockhash),
        merkle_root: bitcoin::hashes::Hash::from_byte_array(header.merkle_root),
        time: header.time,
        bits: bitcoin::CompactTarget::from_consensus(header.bits),
        nonce: header.nonce,
    };
    bitcoin::hashes::Hash::to_byte_array(h.block_hash())
}

/// The sixteen digits.
pub open spec fn hex_digits() -> Seq<char> {
    seq!['0', '1', '2', '3', '4', '5', '6', '7', '8', '9', 'a', 'b', 'c', 'd', 'e', 'f']
}

/// How a hash is displayed: its bytes from the last to the first, each as two
/// digits.
pub open spec fn hash_display(hash: Seq<u8>) -> Seq<char> {
    Seq::new(
        2 * hash.len(),
        |i: int|
            {
                let byte = hash[hash.len() - 1 - i / 2];
                hex_digits()[if i % 2 == 0 {
                    byte as int / 16
                } else {
                    byte as int % 16
                }]
            },
    )
}

/// `bitcoin::BlockHash::to_string`: the bytes of the hash in reverse order, in
/// lower-case hexadecimal.
#[verifier::external_body]
pub(crate) fn hash_to_string(hash: &[u8; 32]) -> (text: String)
    ensures
        text@ == hash_display(hash@),
{
    let h: bitcoin::BlockHash = bitcoin::hashes::Hash::from_byte_array(*hash);
    h.to_string()
}

impl BlockHeader {
    /// Decodes a header; `None` unless there are exactly eighty bytes.
    pub fn decode(bytes: &[u8]) -> (r: Option<BlockHeader>)
        ensures
            r is Some <==> bytes@.len() == HEADER_SIZE,
            r matches Some(h) ==> h@ == bytes@ && h.prev_blockhash@ == prev_of(bytes@),
            r matches Some(h) ==> h.prev_blockhash@ == bytes@.subrange(4, 36),
    {
        match deserialize_header(bytes) {
            Ok(h) => {
                assert(prev_of(h@) =~= h.prev_blockhash@);
                Some(h)
            },
            Err(_) => None,
        }
    }

    /// The hash of the block.
    pub fn block_hash(&self) -> (hash: [u8; 32])
        ensures
            hash@ == block_hash_of(self@),
    {
        hash_header(self)
    }
}

/// Where the fields of a header stand in its encoding.
pub proof fn law_fields_stand_in_the_encoding(h: BlockHeader)
    ensures
        h@.len() == 80,
        h.version == h@[0] + 256 * h@[1] + 65536 * h@[2] + 16777216 * h@[3],
        h.prev_blockhash@ == h@.subrange(4, 36),
        h.merkle_root@ == h@.subrange(36, 68),
        h.time == h@[68] + 256 * h@[69] + 65536 * h@[70] + 16777216 * h@[71],
        h.bits == h@[72] + 256 * h@[73] + 65536 * h@[74] + 16777216 * h@[75],
        h.nonce == h@[76] + 256 * h@[77] + 65536 * h@[78] + 16777216 * h@[79],
        prev_of(h@) == h@.subrange(4, 36),
{
    lemma_le_bytes(h.version);
    lemma_le_bytes(h.time);
    lemma_le_bytes(h.bits);
    lemma_le_bytes(h.nonce);
    assert(h@.subrange(4, 36) =~= h.prev_blockhash@);
    assert(h@.subrange(36, 68) =~= h.merkle_root@);
}

/// The four bytes of a number give it back.
proof fn lemma_le_bytes(x: u32)
    ensures
        le_bytes(x).len() == 4,
        x == le_bytes(x)[0] + 256 * le_bytes(x)[1] + 65536 * le_bytes(x)[2] + 16777216 * le_bytes(
            x,
        )[3],
{
    assert(x % 256 + 256 * (x / 256 % 256) + 65536 * (x / 65536 % 256) + 16777216 * (x / 16777216)
        == x && x / 16777216 < 256) by (bit_vector);
}

/// The value of a hexadecimal digit, in lower case.
pub open spec fn digit_value(c: char) -> int {
    if c as int <= '9' as int {
        c as int - '0' as int
    } else {
        c as int - 'a' as int + 10
    }
}

/// Whether a character is a hexadecimal digit, in lower case.
pub open spec fn is_digit(c: char) -> bool {
    '0' as int <= c as int <= '9' as int || 'a' as int <= c as int <= 'f' as int
}

/// Two digits of a displayed hash give back a byte of it, counted from the
/// last.
pub proof fn law_displayed_hash_reads_back(hash: Seq<u8>, i: int)
    requires
        0 <= i < hash.len(),
    ensures
        hash_display(hash).len() == 2 * hash.len(),
        is_digit(hash_display(hash)[2 * i]),
        is_digit(hash_display(hash)[2 * i + 1]),
        hash[hash.len() - 1 - i] == 16 * digit_value(hash_display(hash)[2 * i]) + digit_value(
            hash_display(hash)[2 * i + 1],
        ),
{
    let byte = hash[hash.len() - 1 - i] as int;
    lemma_hex_digit(byte / 16);
    lemma_hex_digit(byte % 16);
    assert(2 * i / 2 == i && 2 * i % 2 == 0 && (2 * i + 1) / 2 == i && (2 * i + 1) % 2 == 1);
}

proof fn lemma_hex_digit(v: int)
    requires
        0 <= v < 16,
    ensures
        is_digit(hex_digits()[v]),
        digit_value(hex_digits()[v]) == v,
{
    let d = hex_digits();
    assert(d[0] == '0' && d[1] == '1' && d[2] == '2' && d[3] == '3' && d[4] == '4' && d[5] == '5'
        && d[6] == '6' && d[7] == '7' && d[8] == '8' && d[9] == '9' && d[10] == 'a' && d[11] == 'b'
        && d[12] == 'c' && d[13] == 'd' && d[14] == 'e' && d[15] == 'f');
}

} // verus!
