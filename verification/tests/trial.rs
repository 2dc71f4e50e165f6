use rand::seq::SliceRandom;
use rand::SeedableRng;
use rand_chacha::ChaCha8Rng;
use sef_core::chain::error::ChainError;
use sef_core::chain::stream::RawBlock;
use sef_core::text::{append_decimal, append_four_digits};
use sef_core::trial::delivery::TrialRng;
use sef_core::trial::epoch::{max_droplets, prepare_epoch, EpochBatch, EpochRun};
use sef_core::trial::seed::{fold_seed, trial_seed, SPREAD};
use sef_core::trial::table::{column_names, file_name, Row};

#[test]
fn seeds_are_folded_in_base_257() {
    assert_eq!(fold_seed(&[]), 0);
    assert_eq!(fold_seed(&[7]), 7);
    assert_eq!(fold_seed(&[1, 2]), 259);
    let bytes: Vec<u8> = (0..32u8).map(|b| b.wrapping_mul(37).wrapping_add(200)).collect();
    let expected =
        bytes.iter().fold(0u64, |acc, &b| acc.wrapping_mul(257).wrapping_add(b as u64));
    assert_eq!(fold_seed(&bytes), expected);
}

#[test]
fn seeds_of_trials() {
    assert_eq!(SPREAD, 0x9E3779B97F4A7C15);
    assert_eq!(trial_seed(0, 0), 0);
    assert_eq!(trial_seed(0, 1), 0x9E3779B97F4A7C15);
    assert_eq!(trial_seed(1, 1), 0x3C6EF372FE94F82A);
    assert_eq!(trial_seed(u64::MAX, 1), 0);
}

#[test]
fn trials_have_different_seeds() {
    let seeds: std::collections::BTreeSet<u64> =
        (0..1000).map(|trial| trial_seed(u64::MAX - 500, trial)).collect();
    assert_eq!(seeds.len(), 1000);
}

#[test]
fn delivery_is_a_shuffle_of_the_trial() {
    for seed in [0, 1, 42, u64::MAX] {
        let mut theirs = ChaCha8Rng::seed_from_u64(seed);
        let mut ours = TrialRng::new(seed);
        assert_eq!(ours.key, theirs.get_seed());
        for n in [0usize, 1, 2, 17, 500, 3] {
            let mut expected: Vec<u64> = (0..n as u64).collect();
            expected.shuffle(&mut theirs);
            assert_eq!(ours.delivery_order(n), expected);
            assert_eq!(ours.word_pos, theirs.get_word_pos());
        }
    }
}

#[test]
fn each_droplet_is_delivered_once() {
    let mut rng = TrialRng::new(3);
    let order = rng.delivery_order(100);
    let counting: Vec<u64> = (0..100).collect();
    assert_ne!(order, counting);
    let mut sorted = order.clone();
    sorted.sort();
    assert_eq!(sorted, counting);
    assert_ne!(rng.delivery_order(100), order);
}

fn block(height: usize, len: usize) -> RawBlock {
    RawBlock {
        height,
        hash: format!("hash {}", height),
        data: (0..len).map(|i| (i + height) as u8).collect(),
    }
}

#[test]
fn small_epochs_are_passed_over() {
    let batch = EpochBatch { index: 3, blocks: vec![] };
    assert!(matches!(prepare_epoch(batch), Ok(None)));
    let batch = EpochBatch { index: 3, blocks: vec![block(0, 10)] };
    assert!(matches!(prepare_epoch(batch), Ok(None)));
}

#[test]
fn epochs_are_taken_apart() {
    let batch = EpochBatch { index: 7, blocks: vec![block(5, 80), block(6, 100)] };
    let plan = prepare_epoch(batch).unwrap().unwrap();
    assert_eq!(plan.index, 7);
    assert_eq!(plan.first_hash, "hash 5");
    assert_eq!(plan.source_blocks, vec![block(5, 80).data, block(6, 100).data]);
    assert_eq!(plan.trusted_headers.len(), 2);
    assert_eq!(plan.trusted_headers[0].version, 0x08070605);
    assert_eq!(plan.trusted_headers[0].prev_blockhash.to_vec(), block(5, 80).data[4..36].to_vec());
    assert_eq!(plan.trusted_headers[1].merkle_root.to_vec(), block(6, 80).data[36..68].to_vec());
    assert_eq!(plan.trusted_headers[1].time, u32::from_le_bytes([74, 75, 76, 77]));
    assert_eq!(plan.trusted_headers[1].bits, u32::from_le_bytes([78, 79, 80, 81]));
    assert_eq!(plan.trusted_headers[1].nonce, u32::from_le_bytes([82, 83, 84, 85]));
}

#[test]
fn short_blocks_are_refused() {
    let batch =
        EpochBatch { index: 120, blocks: vec![block(0, 80), block(1, 79), block(2, 0)] };
    match prepare_epoch(batch) {
        Err(ChainError::Parse(text)) => {
            assert_eq!(text, "epoch 120 block 1: tamanho < 80 bytes")
        }
        _ => panic!("accepted"),
    }
}

#[test]
fn number_of_droplets() {
    assert_eq!(max_droplets(0, 500), 5000);
    assert_eq!(max_droplets(0, 0), 0);
    assert_eq!(max_droplets(12, 500), 12);
}

#[test]
fn run_ends_with_the_first_success() {
    let mut run = EpochRun::new(4, 9, 2, vec![11, 12, 13]);
    assert_eq!(run.next_droplet(), Some(11));
    let row = run.record(false);
    assert_eq!(
        row,
        Row { epoch_idx: 4, k: 9, n_collected: 1, decode_success: false, trial: 2 }
    );
    assert_eq!(run.next_droplet(), Some(12));
    let row = run.record(true);
    assert_eq!(
        row,
        Row { epoch_idx: 4, k: 9, n_collected: 2, decode_success: true, trial: 2 }
    );
    assert!(run.succeeded);
    assert_eq!(run.next_droplet(), None);
}

#[test]
fn run_ends_with_the_last_droplet() {
    let mut run = EpochRun::new(0, 2, 1, vec![5, 4]);
    let mut seen = Vec::new();
    while let Some(id) = run.next_droplet() {
        seen.push(id);
        let row = run.record(false);
        assert_eq!(row.n_collected, seen.len());
    }
    assert_eq!(seen, vec![5, 4]);
    assert!(!run.succeeded);
    assert_eq!(EpochRun::new(0, 2, 1, vec![]).next_droplet(), None);
}

#[test]
fn rows_as_lines() {
    assert_eq!(column_names(), "epoch_idx,k,n_collected,decode_success,trial");
    let row = Row { epoch_idx: 0, k: 500, n_collected: 612, decode_success: true, trial: 10 };
    assert_eq!(row.line(), "0,500,612,1,10");
    let row = Row { epoch_idx: 31, k: 2, n_collected: 1, decode_success: false, trial: 1 };
    assert_eq!(row.line(), "31,2,1,0,1");
}

#[test]
fn names_of_tables() {
    assert_eq!(file_name(1), "trial_0001.csv");
    assert_eq!(file_name(23), "trial_0023.csv");
    assert_eq!(file_name(456), "trial_0456.csv");
    assert_eq!(file_name(7890), "trial_7890.csv");
    assert_eq!(file_name(12345), "trial_12345.csv");
}

#[test]
fn numbers_in_decimal() {
    for n in [0, 1, 9, 10, 11, 99, 100, 1009, 9999, 10000, 123456789, usize::MAX] {
        let mut text = String::from("n=");
        append_decimal(&mut text, n);
        assert_eq!(text, format!("n={}", n));
        let mut text = String::new();
        append_four_digits(&mut text, n);
        assert_eq!(text, format!("{:04}", n));
    }
}
