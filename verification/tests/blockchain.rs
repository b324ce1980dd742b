use zarza::block::Block;
use zarza::blockchain::{claim_inputs, genesis_hash, Blockchain, BlockchainError, ConsensusParams};
use zarza::miner::{block_template_at, seal_block};
use zarza::transaction::{Transaction, TxInput, TxOutput};
use zarza::wallet::Wallet;

const SECRET: &str = "9d61b19deffd5a60ba844af492ec2cc44449c5697b326919703bac031cae7f60";

fn params(difficulty: f64) -> ConsensusParams {
    ConsensusParams {
        initial_difficulty_bits: difficulty.to_bits(),
        initial_block_reward_bits: 50.0f64.to_bits(),
        min_block_reward_bits: 1.0f64.to_bits(),
        reward_reduction_rate_bits: 0.01f64.to_bits(),
        block_time: 60,
        difficulty_adjust_blocks: 3,
    }
}

fn validation_message(result: Result<(), BlockchainError>) -> String {
    match result {
        Err(BlockchainError::BlockValidationError(m)) => m,
        other => panic!("expected a block validation error, got {other:?}"),
    }
}

fn transaction_message<T: std::fmt::Debug>(result: Result<T, BlockchainError>) -> String {
    match result {
        Err(BlockchainError::TransactionError(m)) => m,
        other => panic!("expected a transaction error, got {other:?}"),
    }
}

fn mined_block(chain: &Blockchain, txs: Vec<Transaction>, time: i64) -> Block {
    let template = block_template_at(chain.get_last_block().unwrap(), chain.difficulty_bits, txs, "ZRZminer", time, time);
    seal_block(&template, 0)
}

fn signed_spend(wallet: &Wallet, key: &str, to: &str) -> Transaction {
    wallet
        .build_signed_transaction(
            vec![wallet.input_for_utxo(key)],
            vec![TxOutput { address: to.to_string(), amount_bits: 1.0f64.to_bits() }],
        )
        .unwrap()
}

#[test]
fn genesis_hash_is_the_hash_of_the_genesis_seed() {
    let expected = hex::encode(zarza::zrzhash::ZRZHasher::new().hash(b"genesis", 0));
    assert_eq!(genesis_hash(), expected);
    let inner = hex::decode("f7d0562067b4aedb97825a51de7b67995ae011b9456314a8773ac0fb8442177b").unwrap();
    assert_eq!(genesis_hash(), hex::encode(blake3::hash(&inner).as_bytes()));
}

#[test]
fn new_ledger_holds_only_the_genesis_block() {
    let chain = Blockchain::new_at(params(12.9), 1700000000);
    assert_eq!(chain.chain.len(), 1);
    let genesis = &chain.chain[0];
    assert_eq!(genesis.index, 0);
    assert_eq!(genesis.timestamp, 1700000000);
    assert!(genesis.transactions.is_empty());
    assert_eq!(genesis.previous_hash, "0");
    assert_eq!(genesis.hash, genesis_hash());
    assert_eq!(genesis.nonce, 0);
    assert_eq!(genesis.target, Block::calculate_target(12.9f64.to_bits()));
    assert!(chain.current_transactions.is_empty());
    assert!(chain.utxos.entries().is_empty());
    assert_eq!(chain.difficulty_bits, 12.9f64.to_bits());
    assert_eq!(chain.reward_bits, 50.0f64.to_bits());
    assert_eq!(chain.min_reward_bits, 1.0f64.to_bits());
    assert_eq!(chain.reduction_rate_bits, 0.01f64.to_bits());
    assert_eq!(chain.block_time, 60);
    assert_eq!(chain.difficulty_adjust_blocks, 3);
    assert!(Blockchain::genesis_matches(&chain.chain));
}

#[test]
fn ledger_stamped_now_also_starts_with_genesis() {
    let chain = Blockchain::new(params(1.0));
    assert_eq!(chain.chain.len(), 1);
    assert_eq!(chain.get_last_block().unwrap().hash, genesis_hash());
}

#[test]
fn genesis_block_is_added_only_to_an_empty_chain() {
    let mut chain = Blockchain::new_at(params(0.0), 5);
    chain.create_genesis_block(99);
    assert_eq!(chain.chain.len(), 1);
    assert_eq!(chain.chain[0].timestamp, 5);
    chain.chain.clear();
    assert!(matches!(chain.get_last_block(), Err(BlockchainError::EmptyChain)));
    chain.create_genesis_block(99);
    assert_eq!(chain.chain.len(), 1);
    assert_eq!(chain.chain[0].timestamp, 99);
}

#[test]
fn a_valid_block_passes_pre_validation() {
    let chain = Blockchain::new_at(params(0.0), 1700000000);
    let block = mined_block(&chain, vec![], 1700000060);
    assert!(chain.pre_validate_block(&block).is_ok());
}

#[test]
fn pre_validation_refuses_an_empty_chain() {
    let mut chain = Blockchain::new_at(params(0.0), 1700000000);
    let block = mined_block(&chain, vec![], 1700000060);
    chain.chain.clear();
    assert!(matches!(chain.pre_validate_block(&block), Err(BlockchainError::EmptyChain)));
}

#[test]
fn pre_validation_refuses_a_wrong_index() {
    let chain = Blockchain::new_at(params(0.0), 1700000000);
    let mut block = mined_block(&chain, vec![], 1700000060);
    block.index = 5;
    assert_eq!(validation_message(chain.pre_validate_block(&block)), "Índice incorrecto. Se esperaba 1 pero se recibió 5.");
}

#[test]
fn pre_validation_refuses_a_wrong_previous_hash() {
    let chain = Blockchain::new_at(params(0.0), 1700000000);
    let mut block = mined_block(&chain, vec![], 1700000060);
    block.previous_hash = "00".to_string();
    assert_eq!(validation_message(chain.pre_validate_block(&block)), "Hash previo incorrecto para el bloque 1.");
}

#[test]
fn pre_validation_refuses_a_wrong_target() {
    let chain = Blockchain::new_at(params(0.0), 1700000000);
    let mut block = mined_block(&chain, vec![], 1700000060);
    block.target = Block::calculate_target(8.0f64.to_bits());
    let expected = format!(
        "Target incorrecto en el bloque. Se esperaba {:?} pero se recibió {:?}.",
        [0xffu8; 32],
        block.target
    );
    assert_eq!(validation_message(chain.pre_validate_block(&block)), expected);
}

#[test]
fn pre_validation_refuses_an_unmet_target() {
    let chain = Blockchain::new_at(params(255.0), 1700000000);
    let block = mined_block(&chain, vec![], 1700000060);
    assert_eq!(validation_message(chain.pre_validate_block(&block)), "La prueba de trabajo es inválida.");
}

#[test]
fn pre_validation_refuses_a_wrong_hash() {
    let chain = Blockchain::new_at(params(0.0), 1700000000);
    let mut block = mined_block(&chain, vec![], 1700000060);
    let calculated = block.hash.clone();
    block.hash = "bad".to_string();
    assert_eq!(
        validation_message(chain.pre_validate_block(&block)),
        format!("El hash del bloque no coincide. Calculado: {calculated}, Recibido: bad")
    );
}

#[test]
fn pre_validation_refuses_a_block_without_transactions() {
    let chain = Blockchain::new_at(params(0.0), 1700000000);
    let empty = Block::new(1, 1700000060, genesis_hash(), vec![], 0);
    let block = seal_block(&empty, 0);
    assert_eq!(validation_message(chain.pre_validate_block(&block)), "El bloque no puede estar vacío de transacciones.");
}

#[test]
fn pre_validation_wants_a_coinbase_first_and_only_once() {
    let chain = Blockchain::new_at(params(0.0), 1700000000);
    let wallet = Wallet::from_private_key(SECRET).unwrap();
    let spend = signed_spend(&wallet, "aa:0", "ZRZdest");
    let first_not_coinbase = seal_block(&Block::new(1, 1, genesis_hash(), vec![spend.clone()], 0), 0);
    assert_eq!(validation_message(chain.pre_validate_block(&first_not_coinbase)), "La primera transacción debe ser coinbase.");
    let extra = Transaction::new_coinbase_at("ZRZother", 3, 1);
    let two_coinbases = mined_block(&chain, vec![spend, extra], 1700000060);
    assert_eq!(
        validation_message(chain.pre_validate_block(&two_coinbases)),
        "Solo puede haber una transacción coinbase por bloque."
    );
}

#[test]
fn pre_validation_refuses_a_badly_signed_transaction() {
    let chain = Blockchain::new_at(params(0.0), 1700000000);
    let wallet = Wallet::from_private_key(SECRET).unwrap();
    let mut spend = signed_spend(&wallet, "aa:0", "ZRZdest");
    spend.outputs[0].address = "ZRZthief".to_string();
    let id = spend.id.clone();
    let block = mined_block(&chain, vec![spend], 1700000060);
    let message = match chain.pre_validate_block(&block) {
        Err(BlockchainError::TransactionError(m)) => m,
        other => panic!("{other:?}"),
    };
    assert_eq!(message, format!("Firma inválida en la transacción {id}"));
}

#[test]
fn add_transaction_pools_signed_transactions_only() {
    let mut chain = Blockchain::new_at(params(0.0), 1700000000);
    let wallet = Wallet::from_private_key(SECRET).unwrap();
    let spend = signed_spend(&wallet, "aa:0", "ZRZdest");
    assert!(chain.add_transaction(spend.clone()).is_ok());
    assert!(chain.add_transaction(Transaction::new_coinbase_at("x", 1, 1)).is_ok());
    assert_eq!(chain.current_transactions.len(), 2);
    assert_eq!(chain.current_transactions[0].id, spend.id);
    let mut forged = spend;
    forged.inputs[0].signature = "00".repeat(64);
    assert_eq!(transaction_message(chain.add_transaction(forged)), "Transacción inválida: firma");
    assert_eq!(chain.current_transactions.len(), 2);
}

#[test]
fn new_outputs_are_filed_under_id_and_index_and_spent_inputs_removed() {
    let mut chain = Blockchain::new_at(params(0.0), 1700000000);
    let coinbase = Transaction::new_coinbase_at("ZRZme", 50.0f64.to_bits(), 1);
    chain.update_utxos_with_new_outputs(&coinbase);
    let key = format!("{}:0", coinbase.id);
    assert_eq!(chain.utxos.get(&key).unwrap().address, "ZRZme");
    let spend = Transaction::new_at(
        vec![TxInput { tx_id: coinbase.id.clone(), output_index: 0, signature: String::new(), pub_key: String::new() }],
        vec![
            TxOutput { address: "a".to_string(), amount_bits: 1 },
            TxOutput { address: "b".to_string(), amount_bits: 2 },
        ],
        2,
    );
    chain.consume_inputs_as_utxos(&spend);
    assert!(chain.utxos.get(&key).is_none());
    chain.update_utxos_with_new_outputs(&spend);
    assert_eq!(chain.utxos.get(&format!("{}:0", spend.id)).unwrap().address, "a");
    assert_eq!(chain.utxos.get(&format!("{}:1", spend.id)).unwrap().amount_bits, 2);
    assert_eq!(chain.utxos.entries().len(), 2);
}

#[test]
fn verify_inputs_gives_the_spent_amounts_in_order() {
    let mut chain = Blockchain::new_at(params(0.0), 1700000000);
    let funding = Transaction::new_at(
        vec![],
        vec![
            TxOutput { address: "me".to_string(), amount_bits: 10 },
            TxOutput { address: "me".to_string(), amount_bits: 20 },
        ],
        1,
    );
    chain.update_utxos_with_new_outputs(&funding);
    let input = |index: u32| TxInput { tx_id: funding.id.clone(), output_index: index, signature: String::new(), pub_key: String::new() };
    let spend = Transaction::new_at(vec![input(1), input(0)], vec![], 2);
    assert_eq!(chain.verify_inputs(&spend).unwrap(), vec![20, 10]);
    let missing = Transaction::new_at(vec![input(0), input(7)], vec![], 3);
    assert_eq!(
        transaction_message(chain.verify_inputs(&missing)),
        format!("Intento de doble gasto o UTXO inválida: {}:7", funding.id)
    );
}

#[test]
fn claiming_an_output_twice_in_a_block_is_a_double_spend() {
    let input = |id: &str, index: u32| TxInput { tx_id: id.to_string(), output_index: index, signature: String::new(), pub_key: String::new() };
    let first = Transaction::new_at(vec![input("aa", 0), input("bb", 1)], vec![], 1);
    let second = Transaction::new_at(vec![input("cc", 0), input("bb", 1)], vec![], 2);
    let mut spent: Vec<String> = Vec::new();
    assert!(claim_inputs(&mut spent, &first).is_ok());
    assert_eq!(spent, vec!["aa:0".to_string(), "bb:1".to_string()]);
    assert_eq!(
        transaction_message(claim_inputs(&mut spent, &second)),
        "Doble gasto detectado dentro del mismo bloque para UTXO: bb:1"
    );
    assert_eq!(spent, vec!["aa:0".to_string(), "bb:1".to_string(), "cc:0".to_string()]);
    let same_twice = Transaction::new_at(vec![input("dd", 0), input("dd", 0)], vec![], 3);
    let mut fresh: Vec<String> = Vec::new();
    assert!(claim_inputs(&mut fresh, &same_twice).is_err());
}

#[test]
fn rebuilding_unspent_outputs_replays_the_chain() {
    let mut chain = Blockchain::new_at(params(0.0), 1700000000);
    let wallet = Wallet::from_private_key(SECRET).unwrap();
    let b1 = mined_block(&chain, vec![], 1700000060);
    let coinbase_id = b1.transactions[0].id.clone();
    chain.chain.push(b1);
    let spend = signed_spend(&wallet, &format!("{coinbase_id}:0"), "ZRZdest");
    let b2 = mined_block(&chain, vec![spend.clone()], 1700000120);
    let second_coinbase = b2.transactions[0].id.clone();
    chain.chain.push(b2);
    chain.rebuild_utxos();
    let mut keys: Vec<String> = chain.utxos.entries().iter().map(|(k, _)| k.clone()).collect();
    keys.sort();
    let mut expected = vec![format!("{second_coinbase}:0"), format!("{}:0", spend.id)];
    expected.sort();
    assert_eq!(keys, expected);
}

#[test]
fn resolve_conflicts_takes_only_a_longer_valid_chain() {
    let mut chain = Blockchain::new_at(params(0.0), 1700000000);
    chain.add_transaction(Transaction::new_coinbase_at("p", 1, 1)).unwrap();
    let b1 = mined_block(&chain, vec![], 1700000060);
    let mut longer = chain.chain.clone();
    longer.push(b1.clone());
    assert!(!chain.resolve_conflicts(chain.chain.clone(), true));
    assert!(!chain.resolve_conflicts(longer.clone(), false));
    assert_eq!(chain.chain.len(), 1);
    assert_eq!(chain.current_transactions.len(), 1);
    assert!(chain.resolve_conflicts(longer, true));
    assert_eq!(chain.chain.len(), 2);
    assert!(chain.current_transactions.is_empty());
    let key = format!("{}:0", b1.transactions[0].id);
    assert_eq!(chain.utxos.get(&key).unwrap().address, "ZRZminer");
}

#[test]
fn genesis_matches_checks_index_and_hash() {
    let chain = Blockchain::new_at(params(0.0), 1700000000);
    assert!(Blockchain::genesis_matches(&chain.chain));
    assert!(!Blockchain::genesis_matches(&Vec::new()));
    let mut wrong_hash = chain.chain.clone();
    wrong_hash[0].hash = "00".to_string();
    assert!(!Blockchain::genesis_matches(&wrong_hash));
    let mut wrong_index = chain.chain.clone();
    wrong_index[0].index = 1;
    assert!(!Blockchain::genesis_matches(&wrong_index));
}

#[test]
fn validation_base_keeps_settings_and_starts_from_the_genesis() {
    let mut chain = Blockchain::new_at(params(3.0), 1700000000);
    chain.utxos.insert("x:0".to_string(), TxOutput { address: "q".to_string(), amount_bits: 1 });
    let b1 = mined_block(&chain, vec![], 1700000060);
    let base = chain.validation_base(&b1);
    assert_eq!(base.chain.len(), 1);
    assert_eq!(base.chain[0].hash, b1.hash);
    assert_eq!(base.difficulty_bits, 3.0f64.to_bits());
    assert!(base.utxos.get("x:0").is_none());
    assert!(base.utxos.get(&format!("{}:0", b1.transactions[0].id)).is_some());
    let copy = chain.duplicate();
    assert_eq!(copy.chain.len(), chain.chain.len());
    assert!(copy.utxos.get("x:0").is_some());
}

#[test]
fn adjustment_window_spans_the_last_blocks() {
    let mut chain = Blockchain::new_at(params(0.0), 1000);
    assert_eq!(chain.adjustment_window(), None);
    for (i, t) in [(1u64, 1060i64), (2, 1200)] {
        let mut b = Block::new(i, t, String::new(), vec![], 0);
        b.hash = format!("h{i}");
        chain.chain.push(b);
    }
    assert_eq!(chain.adjustment_window(), Some((200, 2)));
    chain.chain[2].timestamp = 1000;
    assert_eq!(chain.adjustment_window(), None);
    chain.chain[2].timestamp = 900;
    assert_eq!(chain.adjustment_window(), None);
}

#[test]
fn find_transaction_searches_from_the_newest_block() {
    let mut chain = Blockchain::new_at(params(0.0), 1700000000);
    let b1 = mined_block(&chain, vec![], 1700000060);
    let id = b1.transactions[0].id.clone();
    chain.chain.push(b1);
    let found = chain.find_transaction(&id).unwrap();
    assert_eq!(found.id, id);
    assert_eq!(found.outputs[0].address, "ZRZminer");
    assert!(chain.find_transaction("nope").is_none());
    let mut b2 = mined_block(&chain, vec![], 1700000120);
    b2.transactions[0].id = id.clone();
    b2.transactions[0].timestamp = 42;
    chain.chain.push(b2);
    assert_eq!(chain.find_transaction(&id).unwrap().timestamp, 42);
}

#[test]
fn updating_block_by_block_agrees_with_rebuilding() {
    let mut chain = Blockchain::new_at(params(0.0), 1700000000);
    let wallet = Wallet::from_private_key(SECRET).unwrap();
    let b1 = mined_block(&chain, vec![], 1700000060);
    for tx in &b1.transactions {
        chain.update_utxos_with_new_outputs(tx);
    }
    let coinbase_id = b1.transactions[0].id.clone();
    chain.chain.push(b1);
    let spend = signed_spend(&wallet, &format!("{coinbase_id}:0"), "ZRZdest");
    let b2 = mined_block(&chain, vec![spend], 1700000120);
    for tx in &b2.transactions {
        if !tx.is_coinbase() {
            chain.consume_inputs_as_utxos(tx);
        }
        chain.update_utxos_with_new_outputs(tx);
    }
    chain.chain.push(b2);
    let mut incremental: Vec<String> = chain.utxos.entries().iter().map(|(k, _)| k.clone()).collect();
    incremental.sort();
    chain.rebuild_utxos();
    let mut rebuilt: Vec<String> = chain.utxos.entries().iter().map(|(k, _)| k.clone()).collect();
    rebuilt.sort();
    assert_eq!(incremental, rebuilt);
    assert_eq!(rebuilt.len(), 2);
}

fn plain_input(id: &str, index: u32) -> TxInput {
    TxInput { tx_id: id.to_string(), output_index: index, signature: String::new(), pub_key: String::new() }
}

#[test]
fn applying_a_block_spends_inputs_and_files_outputs_in_order() {
    let mut chain = Blockchain::new_at(params(0.0), 1700000000);
    let coinbase = Transaction::new_coinbase_at("ZRZme", 50, 1);
    let spend = Transaction::new_at(
        vec![plain_input(&coinbase.id, 0)],
        vec![TxOutput { address: "a".to_string(), amount_bits: 30 }],
        2,
    );
    let txs = vec![coinbase.clone(), spend.clone()];
    let seen = std::cell::RefCell::new(Vec::new());
    let result = chain.apply_block_transactions(&txs, |k: usize, amounts: Vec<u64>| {
        seen.borrow_mut().push((k, amounts));
        None
    });
    assert!(result.is_ok());
    assert_eq!(seen.into_inner(), vec![(1usize, vec![50u64])]);
    assert!(chain.utxos.get(&format!("{}:0", coinbase.id)).is_none());
    assert_eq!(chain.utxos.get(&format!("{}:0", spend.id)).unwrap().amount_bits, 30);
    assert_eq!(chain.utxos.entries().len(), 1);
}

#[test]
fn applying_a_block_stops_at_the_first_refusal() {
    let coinbase = Transaction::new_coinbase_at("ZRZme", 50, 1);
    let spend = Transaction::new_at(vec![plain_input(&coinbase.id, 0)], vec![], 2);
    let again = Transaction::new_at(vec![plain_input(&coinbase.id, 0)], vec![], 3);
    let missing = Transaction::new_at(vec![plain_input("nowhere", 4)], vec![], 4);

    let mut chain = Blockchain::new_at(params(0.0), 1700000000);
    let twice = vec![coinbase.clone(), spend.clone(), again];
    assert_eq!(
        transaction_message(chain.apply_block_transactions(&twice, |_: usize, _: Vec<u64>| None)),
        format!("Doble gasto detectado dentro del mismo bloque para UTXO: {}:0", coinbase.id)
    );
    assert_eq!(chain.utxos.entries().len(), 0);

    let mut chain = Blockchain::new_at(params(0.0), 1700000000);
    assert_eq!(
        transaction_message(chain.apply_block_transactions(&vec![coinbase.clone(), missing], |_: usize, _: Vec<u64>| None)),
        "Intento de doble gasto o UTXO inválida: nowhere:4"
    );
    assert!(chain.utxos.get(&format!("{}:0", coinbase.id)).is_some());

    let mut chain = Blockchain::new_at(params(0.0), 1700000000);
    let refused = chain.apply_block_transactions(&vec![coinbase.clone(), spend], |_: usize, _: Vec<u64>| {
        Some("sin fondos".to_string())
    });
    assert_eq!(transaction_message(refused), "sin fondos");
    assert!(chain.utxos.get(&format!("{}:0", coinbase.id)).is_some());
}
