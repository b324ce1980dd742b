use zarza::block::{float_floor, Block};
use zarza::transaction::Transaction;

#[test]
fn float_floor_matches_the_saturating_cast() {
    let values = [
        0.0f64, -0.0, 0.5, 0.999, 1.0, 1.5, 8.0, 12.9, -3.0, -0.5, 300.0, 1e30, 9.3e18,
        18446744073709549568.0, 18446744073709551616.0, 4503599627370497.0, 4503599627370495.5,
        f64::MIN_POSITIVE, f64::EPSILON, f64::MAX, f64::MIN, f64::INFINITY, f64::NEG_INFINITY, f64::NAN,
    ];
    for f in values {
        assert_eq!(float_floor(f.to_bits()), f.floor() as u64, "{f}");
    }
}

#[test]
fn float_floor_exact_values() {
    assert_eq!(float_floor(12.9f64.to_bits()), 12);
    assert_eq!(float_floor(2f64.powi(64).to_bits()), u64::MAX);
    assert_eq!(float_floor(f64::NAN.to_bits()), 0);
    assert_eq!(float_floor((-7.0f64).to_bits()), 0);
}

fn target_with(zero_bytes: usize, next: Option<u8>) -> [u8; 32] {
    let mut t = [0xffu8; 32];
    for b in t.iter_mut().take(zero_bytes) {
        *b = 0;
    }
    if let Some(v) = next {
        t[zero_bytes] = v;
    }
    t
}

#[test]
fn calculate_target_gives_one_zero_bit_per_unit_of_difficulty() {
    assert_eq!(Block::calculate_target(0.0f64.to_bits()), [0xff; 32]);
    assert_eq!(Block::calculate_target(0.7f64.to_bits()), [0xff; 32]);
    assert_eq!(Block::calculate_target(1.0f64.to_bits()), target_with(0, Some(0x7f)));
    assert_eq!(Block::calculate_target(8.0f64.to_bits()), target_with(1, Some(0xff)));
    assert_eq!(Block::calculate_target(12.9f64.to_bits()), target_with(1, Some(0x0f)));
    assert_eq!(Block::calculate_target(20.0f64.to_bits()), target_with(2, Some(0x0f)));
    assert_eq!(Block::calculate_target(255.0f64.to_bits()), target_with(31, Some(0x01)));
    assert_eq!(Block::calculate_target(256.0f64.to_bits()), [0; 32]);
    assert_eq!(Block::calculate_target(300.0f64.to_bits()), [0; 32]);
}

#[test]
fn calculate_target_of_non_positive_or_nan_difficulty_is_all_ones() {
    assert_eq!(Block::calculate_target((-3.0f64).to_bits()), [0xff; 32]);
    assert_eq!(Block::calculate_target((-0.0f64).to_bits()), [0xff; 32]);
    assert_eq!(Block::calculate_target(f64::NAN.to_bits()), [0xff; 32]);
}

#[test]
fn a_harder_difficulty_never_raises_a_target_byte() {
    let levels = [0.0f64, 1.0, 3.5, 7.9, 8.0, 9.0, 15.0, 16.0, 100.0, 255.0, 256.0];
    for (i, harder) in levels.iter().enumerate() {
        for easier in &levels[..=i] {
            let h = Block::calculate_target(harder.to_bits());
            let e = Block::calculate_target(easier.to_bits());
            assert!(h.iter().zip(e.iter()).all(|(a, b)| a <= b), "{harder} {easier}");
        }
    }
}

#[test]
fn new_block_has_no_nonce_or_hash_and_the_difficulty_target() {
    let tx = Transaction::new_coinbase_at("ZRZabc", 50.0f64.to_bits(), 1700000000);
    let block = Block::new(3, 1700000500, "prev".to_string(), vec![tx.clone()], 8.0f64.to_bits());
    assert_eq!(block.index, 3);
    assert_eq!(block.timestamp, 1700000500);
    assert_eq!(block.previous_hash, "prev");
    assert_eq!(block.transactions.len(), 1);
    assert_eq!(block.transactions[0].id, tx.id);
    assert_eq!(block.hash, "");
    assert_eq!(block.nonce, 0);
    assert_eq!(block.target, target_with(1, Some(0xff)));
}

#[test]
fn block_bytes_are_index_timestamp_previous_hash_and_transactions() {
    let tx = Transaction::new_coinbase_at("ZRZabc", 50.0f64.to_bits(), 1700000000);
    let mut block = Block::new(3, -2, "prev".to_string(), vec![tx.clone(), tx.clone()], 0);
    let mut expected = Vec::new();
    expected.extend_from_slice(&3u64.to_le_bytes());
    expected.extend_from_slice(&(-2i64).to_le_bytes());
    expected.extend_from_slice(b"prev");
    expected.extend(tx.to_bytes());
    expected.extend(tx.to_bytes());
    assert_eq!(block.to_bytes(), expected);
    block.nonce = 99;
    block.hash = "whatever".to_string();
    block.target = [0; 32];
    assert_eq!(block.to_bytes(), expected);
}

#[test]
fn duplicated_block_keeps_every_field() {
    let tx = Transaction::new_coinbase_at("ZRZabc", 1, 5);
    let mut block = Block::new(1, 2, "p".to_string(), vec![tx], 0);
    block.nonce = 77;
    block.hash = "h".to_string();
    let copy = block.duplicate();
    assert_eq!(copy.to_bytes(), block.to_bytes());
    assert_eq!(copy.nonce, 77);
    assert_eq!(copy.hash, "h");
    assert_eq!(copy.target, block.target);
}

#[test]
fn the_floor_never_decreases_as_the_difficulty_grows() {
    let values = [
        f64::NEG_INFINITY, -1e300, -5.5, -0.0, 0.0, 1e-300, 0.5, 1.0, 7.99, 8.0, 12.9, 255.0, 1e15,
        4503599627370496.0, 9.3e18, 1.8e19, 1e30, f64::MAX, f64::INFINITY,
    ];
    for (i, a) in values.iter().enumerate() {
        for b in &values[i..] {
            assert!(float_floor(a.to_bits()) <= float_floor(b.to_bits()), "{a} {b}");
            let ta = Block::calculate_target(a.to_bits());
            let tb = Block::calculate_target(b.to_bits());
            assert!(tb.iter().zip(ta.iter()).all(|(h, e)| h <= e), "{a} {b}");
        }
    }
}

#[test]
fn the_byte_test_agrees_with_numeric_comparison_for_difficulty_targets() {
    let hasher = zarza::zrzhash::ZRZHasher::new();
    for difficulty in [0.0f64, 1.0, 3.0, 8.0, 9.5, 12.9, 20.0, 255.0, 256.0] {
        let target = Block::calculate_target(difficulty.to_bits());
        for nonce in 0..300u64 {
            let hash = hasher.hash(b"numeric", nonce);
            assert_eq!(hasher.verify(b"numeric", nonce, &target), hash <= target, "{difficulty} {nonce}");
        }
    }
}
