use zarza::block::Block;
use zarza::blockchain::{genesis_hash, Blockchain, ConsensusParams};
use zarza::miner::{block_template_at, job_is_stale, search_nonce, seal_block, MinerSharedState};
use zarza::transaction::Transaction;
use zarza::wallet::Wallet;
use zarza::zrzhash::ZRZHasher;
use std::sync::atomic::Ordering;

fn params(difficulty: f64) -> ConsensusParams {
    ConsensusParams {
        initial_difficulty_bits: difficulty.to_bits(),
        initial_block_reward_bits: 50.0f64.to_bits(),
        min_block_reward_bits: 1.0f64.to_bits(),
        reward_reduction_rate_bits: 0.01f64.to_bits(),
        block_time: 60,
        difficulty_adjust_blocks: 10,
    }
}

#[test]
fn shared_state_starts_at_zero() {
    let state = MinerSharedState::new();
    assert_eq!(state.current_job_height.load(Ordering::Relaxed), 0);
    assert_eq!(state.total_hashes.load(Ordering::Relaxed), 0);
    assert_eq!(state.session_accepted.load(Ordering::Relaxed), 0);
    assert_eq!(state.session_rejected.load(Ordering::Relaxed), 0);
    assert!(!state.is_shutdown_requested.load(Ordering::Relaxed));
}

#[test]
fn search_stops_at_the_first_nonce_that_meets_the_target() {
    assert_eq!(search_nonce(b"data", &[0xff; 32], 17, 5), (Some(17), 0));
    assert_eq!(search_nonce(b"data", &[0xff; 32], u64::MAX, 1), (Some(u64::MAX), 0));
}

#[test]
fn search_reports_every_attempt_when_nothing_solves() {
    assert_eq!(search_nonce(b"data", &[0; 32], 3, 4), (None, 4));
    assert_eq!(search_nonce(b"data", &[0xff; 32], 3, 0), (None, 0));
}

#[test]
fn search_finds_the_same_nonce_as_a_direct_scan() {
    let mut target = [0xff; 32];
    target[0] = 0x0f;
    let hasher = ZRZHasher::new();
    let first = (u64::MAX - 20..=u64::MAX).chain(0..200).position(|n| hasher.verify(b"scan", n, &target));
    let (found, failed) = search_nonce(b"scan", &target, u64::MAX - 20, 221);
    match first {
        Some(k) => {
            assert_eq!(failed, k as u64);
            assert_eq!(found, Some((u64::MAX - 20).wrapping_add(k as u64)));
        }
        None => assert_eq!((found, failed), (None, 221)),
    }
}

#[test]
fn job_is_stale_when_the_network_moved_past_it() {
    assert!(job_is_stale(5, 5));
    assert!(!job_is_stale(4, 5));
    assert!(job_is_stale(9, 0));
    assert!(job_is_stale(u64::MAX, u64::MAX));
}

#[test]
fn template_starts_with_a_zero_coinbase_and_follows_the_last_block() {
    let chain = Blockchain::new_at(params(4.0), 1700000000);
    let last = chain.get_last_block().unwrap();
    let pending = vec![Transaction::new_coinbase_at("someone", 7, 3)];
    let template = block_template_at(last, 4.0f64.to_bits(), pending.clone(), "ZRZminer", 1700000010, 1700000011);
    assert_eq!(template.index, 1);
    assert_eq!(template.previous_hash, genesis_hash());
    assert_eq!(template.timestamp, 1700000011);
    assert_eq!(template.transactions.len(), 2);
    let coinbase = &template.transactions[0];
    assert!(coinbase.inputs.is_empty());
    assert_eq!(coinbase.outputs.len(), 1);
    assert_eq!(coinbase.outputs[0].address, "ZRZminer");
    assert_eq!(coinbase.outputs[0].amount_bits, 0);
    assert_eq!(coinbase.timestamp, 1700000010);
    assert_eq!(coinbase.id, coinbase.calculate_hash());
    assert_eq!(template.transactions[1].id, pending[0].id);
    assert_eq!(template.target, Block::calculate_target(4.0f64.to_bits()));
    assert_eq!(template.nonce, 0);
    assert_eq!(template.hash, "");
}

#[test]
fn sealing_sets_the_nonce_and_the_hash_it_gives() {
    let chain = Blockchain::new_at(params(0.0), 1700000000);
    let template = block_template_at(chain.get_last_block().unwrap(), 0, vec![], "ZRZminer", 1, 2);
    let sealed = seal_block(&template, 12345);
    assert_eq!(sealed.nonce, 12345);
    assert_eq!(sealed.hash, hex::encode(ZRZHasher::new().hash(&template.to_bytes(), 12345)));
    assert_eq!(sealed.to_bytes(), template.to_bytes());
}

#[test]
fn a_mined_block_on_the_tip_is_accepted() {
    let chain = Blockchain::new_at(params(6.0), 1700000000);
    let wallet = Wallet::from_private_key("9d61b19deffd5a60ba844af492ec2cc44449c5697b326919703bac031cae7f60").unwrap();
    let spend = wallet
        .build_signed_transaction(
            vec![wallet.input_for_utxo("ee:0")],
            vec![zarza::transaction::TxOutput { address: "ZRZdest".to_string(), amount_bits: 1.0f64.to_bits() }],
        )
        .unwrap();
    let template = block_template_at(
        chain.get_last_block().unwrap(),
        chain.difficulty_bits,
        vec![spend],
        "ZRZminer",
        1700000060,
        1700000061,
    );
    let (nonce, _) = search_nonce(&template.to_bytes(), &template.target, 0, 1_000_000);
    let sealed = seal_block(&template, nonce.unwrap());
    assert!(chain.pre_validate_block(&sealed).is_ok());
}
