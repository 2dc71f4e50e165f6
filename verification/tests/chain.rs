use sef_core::chain::blk_file_reader::BlkFileReader;
use sef_core::chain::error::ChainError;
use sef_core::chain::frame::{read_blocks, MAX_BLOCK_SIZE};
use sef_core::chain::hash_index::HashIndex;
use sef_core::chain::header::BlockHeader;
use sef_core::chain::names::blk_files;
use sef_core::chain::order::{order_blocks, ScannedBlock};
use sef_core::chain::stream::RawBlock;
use sef_core::chain::visit::Visit;

const MAINNET: [u8; 4] = [0xf9, 0xbe, 0xb4, 0xd9];

fn from_hex(text: &str) -> Vec<u8> {
    (0..text.len() / 2).map(|i| u8::from_str_radix(&text[2 * i..2 * i + 2], 16).unwrap()).collect()
}

/// Header of the first block of the main chain.
fn genesis_header() -> Vec<u8> {
    from_hex(
        "0100000000000000000000000000000000000000000000000000000000000000\
         000000003ba3edfd7a7b12b27ac72c3e67768f617fc81bc3888a51323a9fb8aa\
         4b1e5e4a29ab5f49ffff001d1dac2b7c",
    )
}

/// Header of the second block of the main chain.
fn second_header() -> Vec<u8> {
    from_hex(
        "010000006fe28c0ab6f1b372c1a6a246ae63f74f931e8365e15a089c68d61900\
         00000000982051fd1e4ba744bbbe680e1fee14677ba1a3c3540bf7b1cdb606e8\
         57233e0e61bc6649ffff001d01e36299",
    )
}

const GENESIS: &str = "000000000019d6689c085ae165831e934ff763ae46a2a6c172b3f1b60a8ce26f";
const SECOND: &str = "00000000839a8e6886ab5951d76f411475428afc90947ee320161bbf18eb6048";

fn frame(mark: [u8; 4], data: &[u8]) -> Vec<u8> {
    let mut bytes = mark.to_vec();
    bytes.extend((data.len() as u32).to_le_bytes());
    bytes.extend(data);
    bytes
}

fn file(blocks: &[Vec<u8>]) -> Vec<u8> {
    blocks.iter().flat_map(|data| frame(MAINNET, data)).collect()
}

fn xor(key: &[u8], bytes: &[u8]) -> Vec<u8> {
    bytes.iter().enumerate().map(|(i, b)| b ^ key[i % key.len()]).collect()
}

fn hash_of(data: &[u8]) -> [u8; 32] {
    BlockHeader::decode(&data[..80]).unwrap().block_hash()
}

/// A block with the given parent; different tags make different blocks.
fn child(prev: [u8; 32], tag: u8) -> Vec<u8> {
    let mut data = vec![0u8; 90];
    data[4..36].copy_from_slice(&prev);
    data[76] = tag;
    data
}

#[test]
fn headers_decode() {
    let header = BlockHeader::decode(&genesis_header()).unwrap();
    assert_eq!(header.version, 1);
    assert_eq!(header.prev_blockhash, [0; 32]);
    assert_eq!(header.merkle_root.to_vec(), genesis_header()[36..68].to_vec());
    assert_eq!(header.time, 1231006505);
    assert_eq!(header.bits, 0x1d00ffff);
    assert_eq!(header.nonce, 2083236893);
    let mut negative = genesis_header();
    negative[0..4].copy_from_slice(&[0xff; 4]);
    assert_eq!(BlockHeader::decode(&negative).unwrap().version, u32::MAX);
}

#[test]
fn headers_have_eighty_bytes() {
    let bytes = genesis_header();
    assert!(BlockHeader::decode(&[]).is_none());
    assert!(BlockHeader::decode(&bytes[..79]).is_none());
    let mut long = bytes.clone();
    long.push(0);
    assert!(BlockHeader::decode(&long).is_none());
    assert!(BlockHeader::decode(&[0xff; 80]).is_some());
}

#[test]
fn headers_hash() {
    let hash = hash_of(&genesis_header());
    assert_eq!(hash.to_vec(), second_header()[4..36].to_vec());
    let mut shown = from_hex(GENESIS);
    shown.reverse();
    assert_eq!(hash.to_vec(), shown);
}

#[test]
fn real_blocks_come_out_in_order() {
    let reader = BlkFileReader::open(None);
    let chain =
        reader.for_each_block(vec![file(&[second_header()]), file(&[genesis_header()])]).unwrap();
    assert_eq!(chain.len(), 2);
    assert_eq!(chain[0].height, 0);
    assert_eq!(chain[0].hash, GENESIS);
    assert_eq!(chain[0].data, genesis_header());
    assert_eq!(chain[1].height, 1);
    assert_eq!(chain[1].hash, SECOND);
    assert_eq!(chain[1].data, second_header());
}

#[test]
fn obfuscated_files_read_back() {
    let key = vec![0x12, 0x34, 0x56, 0x78, 0x9a, 0xbc, 0xde];
    let mut bytes = file(&[genesis_header(), second_header()]);
    bytes.extend([0; 40]);
    let hidden = xor(&key, &bytes);
    let reader = BlkFileReader::open(Some(key.clone()));

    let mut plain = hidden.clone();
    reader.deobfuscate_file_in_place(&mut plain);
    assert_eq!(plain, bytes);
    reader.deobfuscate_file_in_place(&mut plain);
    assert_eq!(plain, hidden);

    let blocks = reader.scan_blk_file(hidden.clone());
    assert_eq!(
        blocks,
        vec![
            ScannedBlock { hash: hash_of(&genesis_header()), data: genesis_header() },
            ScannedBlock { hash: hash_of(&second_header()), data: second_header() },
        ]
    );
    let chain = reader.for_each_block(vec![hidden]).unwrap();
    assert_eq!(chain.len(), 2);
    assert_eq!(chain[1].hash, SECOND);
}

#[test]
fn an_empty_key_changes_nothing() {
    for reader in [BlkFileReader::open(None), BlkFileReader::open(Some(vec![]))] {
        let mut bytes = vec![1, 2, 3];
        reader.deobfuscate_file_in_place(&mut bytes);
        assert_eq!(bytes, vec![1, 2, 3]);
    }
    let reader = BlkFileReader::open(Some(vec![0xff, 0x0f]));
    let mut bytes = vec![0x00, 0x00, 0x12];
    reader.deobfuscate_file_in_place(&mut bytes);
    assert_eq!(bytes, vec![0xff, 0x0f, 0xed]);
}

#[test]
fn frames_are_read_in_file_order() {
    let a = vec![1u8; 80];
    let b = vec![2u8; 200];
    assert_eq!(read_blocks(&file(&[a.clone(), b.clone()])), vec![a, b]);
}

#[test]
fn files_without_frames() {
    assert!(read_blocks(&[]).is_empty());
    assert!(read_blocks(&MAINNET).is_empty());
    assert!(read_blocks(&[0; 7]).is_empty());
    assert!(read_blocks(&[0; 200]).is_empty());
}

#[test]
fn gaps_are_stepped_over() {
    let a = vec![1u8; 80];
    let b = vec![2u8; 81];
    let mut bytes = file(&[a.clone()]);
    bytes.extend([0xf9, 0xbe, 7]);
    bytes.extend(file(&[b.clone()]));
    assert_eq!(read_blocks(&bytes), vec![a, b]);
}

#[test]
fn unused_space_ends_a_file() {
    let a = vec![1u8; 80];
    let mut bytes = file(&[a.clone()]);
    bytes.extend([0; 8]);
    bytes.extend(file(&[vec![2u8; 80]]));
    assert_eq!(read_blocks(&bytes), vec![a]);
}

#[test]
fn impossible_lengths_end_a_file() {
    let a = vec![1u8; 80];
    for len in [0u32, 4_000_001, u32::MAX] {
        let mut bytes = file(&[a.clone()]);
        bytes.extend(MAINNET);
        bytes.extend(len.to_le_bytes());
        bytes.extend(file(&[vec![2u8; 80]]));
        assert_eq!(read_blocks(&bytes), vec![a.clone()]);
    }
}

#[test]
fn frames_that_are_cut_short_end_a_file() {
    let a = vec![1u8; 80];
    let mut bytes = file(&[a.clone(), vec![2u8; 100]]);
    bytes.pop();
    assert_eq!(read_blocks(&bytes), vec![a]);
}

#[test]
fn short_frames_are_left_out() {
    let a = vec![1u8; 80];
    let blocks = [vec![3u8; 79], a.clone(), vec![4u8; 1]];
    assert_eq!(read_blocks(&file(&blocks)), vec![a]);
}

#[test]
fn blocks_can_be_four_megabytes() {
    assert_eq!(MAX_BLOCK_SIZE, 4_000_000);
    let a = vec![1u8; MAX_BLOCK_SIZE];
    let found = read_blocks(&file(&[a.clone()]));
    assert_eq!(found.len(), 1);
    assert!(found[0] == a);
}

#[test]
fn any_mark_is_taken() {
    let a = vec![1u8; 80];
    assert_eq!(read_blocks(&frame([0, 0, 0, 1], &a)), vec![a]);
}

#[test]
fn a_chain_comes_out_of_any_order() {
    let mut blocks = vec![child([0; 32], 0)];
    for tag in 1..6 {
        let prev = hash_of(blocks.last().unwrap());
        blocks.push(child(prev, tag));
    }
    let reader = BlkFileReader::open(None);
    for step in 1..6 {
        let mixed: Vec<Vec<u8>> = (0..6).map(|i| blocks[(i * step + 2) % 6].clone()).collect();
        let unique: std::collections::BTreeSet<Vec<u8>> = mixed.iter().cloned().collect();
        if unique.len() < 6 {
            continue;
        }
        let files = vec![file(&mixed[..2]), file(&[]), file(&mixed[2..])];
        let chain = reader.for_each_block(files).unwrap();
        let data: Vec<Vec<u8>> = chain.iter().map(|b| b.data.clone()).collect();
        assert_eq!(data, blocks);
        let heights: Vec<usize> = chain.iter().map(|b| b.height).collect();
        assert_eq!(heights, vec![0, 1, 2, 3, 4, 5]);
    }
}

#[test]
fn a_chain_without_genesis_starts_at_the_first_orphan() {
    let a = child([9; 32], 1);
    let b = child(hash_of(&a), 2);
    let other = child([8; 32], 3);
    let reader = BlkFileReader::open(None);
    let chain = reader
        .for_each_block(vec![file(&[b.clone(), a.clone(), other.clone()])])
        .unwrap();
    assert_eq!(chain.len(), 2);
    assert_eq!(chain[0].data, a);
    assert_eq!(chain[1].data, b);
    let chain = reader.for_each_block(vec![file(&[b, other.clone(), a])]).unwrap();
    assert_eq!(chain.len(), 1);
    assert_eq!(chain[0].data, other);
}

#[test]
fn a_fork_is_followed_along_the_first_stored_child() {
    let root = child([0; 32], 0);
    let left = child(hash_of(&root), 1);
    let right = child(hash_of(&root), 2);
    let end = child(hash_of(&right), 3);
    let reader = BlkFileReader::open(None);
    let chain = reader
        .for_each_block(vec![file(&[end.clone(), right.clone(), left.clone(), root.clone()])])
        .unwrap();
    let data: Vec<Vec<u8>> = chain.into_iter().map(|b| b.data).collect();
    assert_eq!(data, vec![root.clone(), right.clone(), end.clone()]);
    let chain = reader.for_each_block(vec![file(&[left.clone(), end, right, root.clone()])]).unwrap();
    let data: Vec<Vec<u8>> = chain.into_iter().map(|b| b.data).collect();
    assert_eq!(data, vec![root, left]);
}

#[test]
fn of_one_block_the_last_copy_counts() {
    let root = child([0; 32], 0);
    let left = child(hash_of(&root), 1);
    let right = child(hash_of(&root), 2);
    let mut again = left.clone();
    again.push(77);
    let reader = BlkFileReader::open(None);
    let chain = reader
        .for_each_block(vec![file(&[root.clone(), left.clone(), right.clone(), again.clone()])])
        .unwrap();
    let data: Vec<Vec<u8>> = chain.into_iter().map(|b| b.data).collect();
    assert_eq!(data, vec![root.clone(), right]);
    let chain = reader.for_each_block(vec![file(&[root.clone(), left, again.clone()])]).unwrap();
    let data: Vec<Vec<u8>> = chain.into_iter().map(|b| b.data).collect();
    assert_eq!(data, vec![root, again]);
}

#[test]
fn of_several_genesis_blocks_the_first_counts() {
    let first = vec![0u8; 80];
    let mut second = vec![0u8; 80];
    second[0] = 2;
    let reader = BlkFileReader::open(None);
    let chain = reader.for_each_block(vec![file(&[first.clone(), second.clone()])]).unwrap();
    assert_eq!(chain.len(), 1);
    assert_eq!(chain[0].height, 0);
    assert_eq!(chain[0].data, first);
    let mut shown = hash_of(&first).to_vec();
    shown.reverse();
    assert_eq!(from_hex(&chain[0].hash), shown);
    let chain = reader.for_each_block(vec![file(&[second.clone()]), file(&[first])]).unwrap();
    assert_eq!(chain.len(), 1);
    assert_eq!(chain[0].data, second);
}

#[test]
fn a_genesis_block_goes_before_an_earlier_orphan() {
    let orphan = child([9; 32], 1);
    let genesis = child([0; 32], 2);
    let reader = BlkFileReader::open(None);
    let chain = reader.for_each_block(vec![file(&[orphan, genesis.clone()])]).unwrap();
    assert_eq!(chain.len(), 1);
    assert_eq!(chain[0].data, genesis);
}

#[test]
fn a_second_copy_does_not_change_which_root_is_first() {
    for (a, b) in [([9; 32], [8; 32]), ([0; 32], [0; 32])] {
        let x = child(a, 1);
        let y = child(b, 2);
        let mut again = x.clone();
        again.push(77);
        let reader = BlkFileReader::open(None);
        let chain = reader.for_each_block(vec![file(&[x, y, again.clone()])]).unwrap();
        assert_eq!(chain.len(), 1);
        assert_eq!(chain[0].data, again);
    }
}

#[test]
fn directories_with_the_same_blocks_are_read_alike() {
    let mut blocks = vec![child([5; 32], 0)];
    for tag in 1..5 {
        let prev = hash_of(blocks.last().unwrap());
        blocks.push(child(prev, tag));
    }
    let plain = BlkFileReader::open(None);
    let one = plain.for_each_block(vec![file(&blocks)]).unwrap();
    assert_eq!(one.len(), 5);

    let key = vec![3, 1, 4];
    let reader = BlkFileReader::open(Some(key.clone()));
    let mut first = file(&[blocks[3].clone(), blocks[0].clone()]);
    first.extend([0; 20]);
    let second = file(&[blocks[4].clone(), blocks[2].clone(), blocks[1].clone()]);
    let other = reader.for_each_block(vec![xor(&key, &first), xor(&key, &second)]).unwrap();
    assert_eq!(one, other);
}

#[test]
fn without_a_root_there_is_no_chain() {
    let reader = BlkFileReader::open(None);
    assert_eq!(
        reader.for_each_block(vec![]),
        Err(ChainError::Parse("no chain root found".to_string()))
    );
    let circle = vec![
        ScannedBlock { hash: [1; 32], data: child([2; 32], 0) },
        ScannedBlock { hash: [2; 32], data: child([1; 32], 0) },
    ];
    assert_eq!(
        order_blocks(circle),
        Err(ChainError::Parse("no chain root found".to_string()))
    );
}

#[test]
fn a_chain_meets_no_block_twice() {
    let blocks = vec![
        ScannedBlock { hash: [1; 32], data: child([0; 32], 0) },
        ScannedBlock { hash: [0; 32], data: child([1; 32], 0) },
    ];
    let chain = order_blocks(blocks).unwrap();
    let hashes: Vec<String> = chain.into_iter().map(|b| b.hash).collect();
    assert_eq!(hashes, vec!["01".repeat(32), "00".repeat(32)]);
}

#[test]
fn hashes_are_shown_from_their_end() {
    let mut hash = [0u8; 32];
    hash[0] = 0xab;
    hash[31] = 0x1c;
    let blocks = vec![ScannedBlock { hash, data: child([0; 32], 0) }];
    let chain = order_blocks(blocks).unwrap();
    assert_eq!(chain[0].hash, format!("1c{}ab", "00".repeat(30)));
}

#[test]
fn positions_are_found_by_hash() {
    let mut index = HashIndex::new();
    assert_eq!(index.get(&[1; 32]), None);
    index.insert(&[1; 32], 5);
    let mut near = [1; 32];
    near[31] = 2;
    assert_eq!(index.get(&near), None);
    index.insert(&near, 6);
    assert_eq!(index.get(&[1; 32]), Some(5));
    assert_eq!(index.get(&near), Some(6));
    index.insert(&near, 7);
    assert_eq!(index.get(&near), Some(7));
}

fn names(list: &[&str]) -> Vec<String> {
    list.iter().map(|name| name.to_string()).collect()
}

#[test]
fn block_files_in_order_of_their_names() {
    let all = names(&[
        "blk00010.dat",
        "rev00001.dat",
        "blk00002.dat",
        "xor.dat",
        "blk00001.dat",
        "blk00001.dat.tmp",
        "blk.dat",
        "blk",
        ".dat",
        "ablk00003.dat",
        "BLK00004.dat",
        "blk\u{e9}.dat",
        "blk00002.dat",
    ]);
    let expected = names(&[
        "blk.dat",
        "blk00001.dat",
        "blk00002.dat",
        "blk00002.dat",
        "blk00010.dat",
        "blk\u{e9}.dat",
    ]);
    let mut reversed = all.clone();
    reversed.reverse();
    assert_eq!(blk_files(all), expected);
    assert_eq!(blk_files(reversed), expected);
    assert!(blk_files(vec![]).is_empty());
}

fn numbered(n: usize) -> Vec<RawBlock> {
    (0..n)
        .map(|height| RawBlock { height, hash: format!("{}", height), data: vec![height as u8] })
        .collect()
}

#[test]
fn all_blocks_are_handed_out_to_a_willing_visitor() {
    let mut visit = Visit::new(numbered(3));
    let mut seen = Vec::new();
    while let Some(block) = visit.next_block() {
        seen.push(block);
        visit.answered(true);
    }
    assert_eq!(seen, numbered(3));
    assert_eq!(visit.next_block(), None);
    assert_eq!(Visit::new(vec![]).next_block(), None);
}

#[test]
fn blocks_are_handed_out_until_the_visitor_stops() {
    let mut visit = Visit::new(numbered(5));
    let mut seen = Vec::new();
    while let Some(block) = visit.next_block() {
        let go_on = block.height < 2;
        seen.push(block);
        visit.answered(go_on);
    }
    assert_eq!(seen, numbered(3));
    assert!(visit.stopped);
    visit.answered(true);
    assert_eq!(visit.next_block(), None);
}
