//! The ledger: the chain of accepted blocks, the pool of pending
//! transactions, the unspent outputs, and the rules that decide which blocks
//! and transactions are accepted.
use vstd::prelude::*;
use vstd::string::*;
use crate::block::{block_bytes, blocks_view, difficulty_target, duplicate_blocks, duplicate_transactions, transactions_view, Block, BlockView};
use crate::codec::{hex_encode, hex_text};
use crate::crypto::unix_time_now;
use crate::zrzhash::{meets_target, zrz_hash, ZRZHasher};
use crate::codec::{contains_text, texts, byte_list_text, decimal_text, push_byte_list, push_decimal, utxo_key, utxo_key_of};
use crate::transaction::{signatures_valid as signatures_valid_view, InputView, OutputView, Transaction, TransactionView, TxOutput};
use crate::utxo::UtxoSet;

verus! {

/// Why a block or a transaction was refused.
#[derive(Debug)]
pub enum BlockchainError {
    InvalidBlock,
    EmptyChain,
    TransactionError(String),
    BlockValidationError(String),
}

/// A refusal, as plain values.
pub enum ErrorView {
    InvalidBlock,
    EmptyChain,
    TransactionError(Seq<char>),
    BlockValidationError(Seq<char>),
}

impl View for BlockchainError {
    type V = ErrorView;

    open spec fn view(&self) -> ErrorView {
        match self {
            BlockchainError::InvalidBlock => ErrorView::InvalidBlock,
            BlockchainError::EmptyChain => ErrorView::EmptyChain,
            BlockchainError::TransactionError(m) => ErrorView::TransactionError(m@),
            BlockchainError::BlockValidationError(m) => ErrorView::BlockValidationError(m@),
        }
    }
}

/// The key of the output that an input spends.
pub open spec fn input_key(input: InputView) -> Seq<char> {
    utxo_key(input.tx_id, input.output_index as nat)
}

/// The unspent outputs after the outputs spent by `inputs` are removed.
pub open spec fn remove_inputs(m: Map<Seq<char>, OutputView>, inputs: Seq<InputView>) -> Map<Seq<char>, OutputView>
    decreases inputs.len(),
{
    if inputs.len() == 0 {
        m
    } else {
        remove_inputs(m, inputs.drop_last()).remove(input_key(inputs.last()))
    }
}

/// The unspent outputs after the outputs of transaction `tx_id` are filed
/// under `tx_id:0`, `tx_id:1`, ...
pub open spec fn add_outputs(m: Map<Seq<char>, OutputView>, tx_id: Seq<char>, outputs: Seq<OutputView>) -> Map<Seq<char>, OutputView>
    decreases outputs.len(),
{
    if outputs.len() == 0 {
        m
    } else {
        add_outputs(m, tx_id, outputs.drop_last()).insert(utxo_key(tx_id, (outputs.len() - 1) as nat), outputs.last())
    }
}

/// The unspent outputs after a transaction: its inputs spent, its outputs added.
pub open spec fn apply_transaction(m: Map<Seq<char>, OutputView>, tx: TransactionView) -> Map<Seq<char>, OutputView> {
    add_outputs(remove_inputs(m, tx.inputs), tx.id, tx.outputs)
}

/// The unspent outputs after a list of transactions, in order.
pub open spec fn apply_transactions(m: Map<Seq<char>, OutputView>, txs: Seq<TransactionView>) -> Map<Seq<char>, OutputView>
    decreases txs.len(),
{
    if txs.len() == 0 {
        m
    } else {
        apply_transaction(apply_transactions(m, txs.drop_last()), txs.last())
    }
}

/// The unspent outputs after a list of blocks, in order.
pub open spec fn apply_blocks(m: Map<Seq<char>, OutputView>, blocks: Seq<BlockView>) -> Map<Seq<char>, OutputView>
    decreases blocks.len(),
{
    if blocks.len() == 0 {
        m
    } else {
        apply_transactions(apply_blocks(m, blocks.drop_last()), blocks.last().transactions)
    }
}

/// The unspent outputs of a whole chain.
pub open spec fn chain_utxos(blocks: Seq<BlockView>) -> Map<Seq<char>, OutputView> {
    apply_blocks(Map::empty(), blocks)
}

/// Updating the unspent outputs block by block agrees with rebuilding them:
/// applying a block's transactions to the unspent outputs of a chain gives the
/// unspent outputs of the chain extended by that block.
pub proof fn lemma_block_by_block_matches_rebuild(chain: Seq<BlockView>, block: BlockView)
    ensures
        chain_utxos(chain.push(block)) == apply_transactions(chain_utxos(chain), block.transactions),
{
    assert(chain.push(block).drop_last() =~= chain);
}

/// A coinbase spends nothing: applying it only files its outputs.
pub proof fn lemma_coinbase_only_files_outputs(m: Map<Seq<char>, OutputView>, tx: TransactionView)
    requires
        tx.inputs.len() == 0,
    ensures
        apply_transaction(m, tx) == add_outputs(m, tx.id, tx.outputs),
{
}

/// The consensus settings a ledger starts with (the numbers that are binary64
/// values are held as their bits).
#[derive(Clone, Copy, Debug)]
pub struct ConsensusParams {
    pub initial_difficulty_bits: u64,
    pub initial_block_reward_bits: u64,
    pub min_block_reward_bits: u64,
    pub reward_reduction_rate_bits: u64,
    pub block_time: u64,
    pub difficulty_adjust_blocks: u64,
}

/// The seed hashed for the genesis block: the ASCII bytes of "genesis".
pub open spec fn genesis_seed() -> Seq<u8> {
    seq![0x67u8, 0x65u8, 0x6eu8, 0x65u8, 0x73u8, 0x69u8, 0x73u8]
}

/// The hash text every genesis block carries.
pub open spec fn genesis_hash_text() -> Seq<char> {
    hex_text(zrz_hash(genesis_seed(), 0))
}

/// The genesis block made at `timestamp` for a starting difficulty.
pub open spec fn genesis_block(timestamp: i64, difficulty_bits: u64) -> BlockView {
    BlockView {
        index: 0,
        timestamp,
        transactions: Seq::empty(),
        previous_hash: seq!['0'],
        hash: genesis_hash_text(),
        nonce: 0,
        target: difficulty_target(difficulty_bits),
    }
}

/// Computes the hash text of the genesis block.
pub fn genesis_hash() -> (hash: String)
    ensures
        hash@ == genesis_hash_text(),
{
    let seed: [u8; 7] = [0x67, 0x65, 0x6e, 0x65, 0x73, 0x69, 0x73];
    assert(seed@ =~= genesis_seed());
    let digest = ZRZHasher::new().hash(seed.as_slice(), 0);
    hex_encode(&digest)
}

/// Each output of a transaction is filed under its own key and found there
/// after the outputs are added.
pub proof fn lemma_outputs_filed(m: Map<Seq<char>, OutputView>, tx_id: Seq<char>, outputs: Seq<OutputView>, i: int)
    requires
        0 <= i < outputs.len(),
    ensures
        add_outputs(m, tx_id, outputs).contains_key(utxo_key(tx_id, i as nat)),
        add_outputs(m, tx_id, outputs)[utxo_key(tx_id, i as nat)] == outputs[i],
    decreases outputs.len(),
{
    if i < outputs.len() - 1 {
        lemma_outputs_filed(m, tx_id, outputs.drop_last(), i);
        if utxo_key(tx_id, i as nat) == utxo_key(tx_id, (outputs.len() - 1) as nat) {
            crate::codec::lemma_utxo_key_injective(tx_id, i as nat, (outputs.len() - 1) as nat);
        }
    }
}

/// An output that an input has spent is no longer unspent: after the inputs
/// of a transaction are removed, none of their keys is filed.
pub proof fn lemma_spent_outputs_gone(m: Map<Seq<char>, OutputView>, inputs: Seq<InputView>, k: int)
    requires
        0 <= k < inputs.len(),
    ensures
        !remove_inputs(m, inputs).contains_key(input_key(inputs[k])),
    decreases inputs.len(),
{
    if k < inputs.len() - 1 {
        lemma_spent_outputs_gone(m, inputs.drop_last(), k);
    }
}

/// The ledger.
#[derive(Debug)]
pub struct Blockchain {
    pub chain: Vec<Block>,
    pub current_transactions: Vec<Transaction>,
    pub utxos: UtxoSet,
    pub difficulty_bits: u64,
    pub reward_bits: u64,
    pub min_reward_bits: u64,
    pub reduction_rate_bits: u64,
    pub block_time: u64,
    pub difficulty_adjust_blocks: u64,
}

/// What the ledger holds, as plain values.
pub struct BlockchainView {
    pub chain: Seq<BlockView>,
    pub current_transactions: Seq<TransactionView>,
    pub utxos: Map<Seq<char>, OutputView>,
    pub difficulty_bits: u64,
    pub reward_bits: u64,
    pub min_reward_bits: u64,
    pub reduction_rate_bits: u64,
    pub block_time: u64,
    pub difficulty_adjust_blocks: u64,
}

impl View for Blockchain {
    type V = BlockchainView;

    open spec fn view(&self) -> BlockchainView {
        BlockchainView {
            chain: blocks_view(self.chain@),
            current_transactions: self.current_transactions@.map_values(|t: Transaction| t@),
            utxos: self.utxos@,
            difficulty_bits: self.difficulty_bits,
            reward_bits: self.reward_bits,
            min_reward_bits: self.min_reward_bits,
            reduction_rate_bits: self.reduction_rate_bits,
            block_time: self.block_time,
            difficulty_adjust_blocks: self.difficulty_adjust_blocks,
        }
    }
}

/// Removes from `utxos` the outputs that the transaction's inputs spend.
pub fn spend_inputs(utxos: &mut UtxoSet, tx: &Transaction)
    ensures
        final(utxos)@ == remove_inputs(old(utxos)@, tx@.inputs),
{
    for i in 0..tx.inputs.len()
        invariant
            utxos@ == remove_inputs(old(utxos)@, tx@.inputs.subrange(0, i as int)),
    {
        let input = &tx.inputs[i];
        let key = utxo_key_of(&input.tx_id, input.output_index as u64);
        utxos.remove(key.as_str());
        assert(tx@.inputs.subrange(0, i + 1).drop_last() =~= tx@.inputs.subrange(0, i as int));
    }
    assert(tx@.inputs.subrange(0, tx@.inputs.len() as int) =~= tx@.inputs);
}

/// Files each output of the transaction in `utxos` under `id:index`.
pub fn file_outputs(utxos: &mut UtxoSet, tx: &Transaction)
    ensures
        final(utxos)@ == add_outputs(old(utxos)@, tx@.id, tx@.outputs),
{
    for i in 0..tx.outputs.len()
        invariant
            utxos@ == add_outputs(old(utxos)@, tx@.id, tx@.outputs.subrange(0, i as int)),
    {
        let key = utxo_key_of(&tx.id, i as u64);
        utxos.insert(key, tx.outputs[i].duplicate());
        assert(tx@.outputs.subrange(0, i + 1).drop_last() =~= tx@.outputs.subrange(0, i as int));
    }
    assert(tx@.outputs.subrange(0, tx@.outputs.len() as int) =~= tx@.outputs);
}

/// Replaces the contents of `utxos` with the unspent outputs of `chain`.
pub fn rebuild_from_chain(utxos: &mut UtxoSet, chain: &Vec<Block>)
    ensures
        final(utxos)@ == chain_utxos(blocks_view(chain@)),
{
    utxos.clear();
    for b in 0..chain.len()
        invariant
            utxos@ == chain_utxos(blocks_view(chain@).subrange(0, b as int)),
    {
        let block = &chain[b];
        let ghost before = utxos@;
        for t in 0..block.transactions.len()
            invariant
                block == chain@[b as int],
                utxos@ == apply_transactions(before, block@.transactions.subrange(0, t as int)),
        {
            let tx = &block.transactions[t];
            if !tx.is_coinbase() {
                spend_inputs(utxos, tx);
            } else {
                assert(remove_inputs(utxos@, tx@.inputs) == utxos@);
            }
            file_outputs(utxos, tx);
            assert(block@.transactions.subrange(0, t + 1).drop_last() =~= block@.transactions.subrange(0, t as int));
        }
        assert(block@.transactions.subrange(0, block@.transactions.len() as int) =~= block@.transactions);
        assert(blocks_view(chain@).subrange(0, b + 1).drop_last() =~= blocks_view(chain@).subrange(0, b as int));
    }
    assert(blocks_view(chain@).subrange(0, chain@.len() as int) =~= blocks_view(chain@));
}

/// The keys of the outputs that a list of inputs spends.
pub open spec fn input_keys(inputs: Seq<InputView>) -> Seq<Seq<char>> {
    inputs.map_values(|i: InputView| input_key(i))
}

/// Claims `keys` in order against the keys already spent in this block:
/// the keys spent afterwards, and the first key found spent already, if any
/// (claiming stops there).
pub open spec fn claim_keys(spent: Seq<Seq<char>>, keys: Seq<Seq<char>>) -> (Seq<Seq<char>>, Option<Seq<char>>)
    decreases keys.len(),
{
    if keys.len() == 0 {
        (spent, None)
    } else {
        let (s, dup) = claim_keys(spent, keys.drop_last());
        if dup is Some {
            (s, dup)
        } else if s.contains(keys.last()) {
            (s, Some(keys.last()))
        } else {
            (s.push(keys.last()), None)
        }
    }
}

/// The message of a refusal for spending one output twice in a block.
pub open spec fn double_spend_message(key: Seq<char>) -> Seq<char> {
    "Doble gasto detectado dentro del mismo bloque para UTXO: "@ + key
}

/// Records the outputs that a transaction spends in `spent`, the keys already
/// spent by earlier transactions of the same block, and refuses the
/// transaction at the first output spent twice.
pub fn claim_inputs(spent: &mut Vec<String>, tx: &Transaction) -> (claimed: Result<(), BlockchainError>)
    ensures
        texts(final(spent)@) == claim_keys(texts(old(spent)@), input_keys(tx@.inputs)).0,
        match claim_keys(texts(old(spent)@), input_keys(tx@.inputs)).1 {
            None => claimed is Ok,
            Some(key) => claimed matches Err(e) && e@ == ErrorView::TransactionError(double_spend_message(key)),
        },
{
    let ghost keys = input_keys(tx@.inputs);
    let ghost start = texts(spent@);
    for i in 0..tx.inputs.len()
        invariant
            keys == input_keys(tx@.inputs),
            start == texts(old(spent)@),
            claim_keys(start, keys.subrange(0, i as int)) == (texts(spent@), None::<Seq<char>>),
    {
        let input = &tx.inputs[i];
        let key = utxo_key_of(&input.tx_id, input.output_index as u64);
        assert(keys.subrange(0, i + 1).drop_last() =~= keys.subrange(0, i as int));
        assert(keys.subrange(0, i + 1).last() == key@);
        if contains_text(spent, &key) {
            let mut message = String::from_str("Doble gasto detectado dentro del mismo bloque para UTXO: ");
            message.append(key.as_str());
            proof {
                lemma_claim_stops(start, keys, i as int + 1);
            }
            return Err(BlockchainError::TransactionError(message));
        }
        spent.push(key);
        assert(texts(spent@) =~= claim_keys(start, keys.subrange(0, i as int)).0.push(key@));
    }
    assert(keys.subrange(0, keys.len() as int) =~= keys);
    Ok(())
}

/// Claiming keys never records one twice: where no key was found spent
/// already, the keys recorded are the earlier ones followed by the claimed
/// keys; and the record holds no key twice whenever the earlier keys held none.
pub proof fn lemma_claims_distinct(spent: Seq<Seq<char>>, keys: Seq<Seq<char>>)
    requires
        spent.no_duplicates(),
    ensures
        claim_keys(spent, keys).1 is None ==> claim_keys(spent, keys).0 == spent + keys,
        claim_keys(spent, keys).0.no_duplicates(),
    decreases keys.len(),
{
    if keys.len() == 0 {
        assert(spent + keys =~= spent);
    } else {
        lemma_claims_distinct(spent, keys.drop_last());
        let (s, dup) = claim_keys(spent, keys.drop_last());
        if dup is None && !s.contains(keys.last()) {
            let t = s.push(keys.last());
            assert forall|i: int, j: int| 0 <= i < t.len() && 0 <= j < t.len() && i != j implies t[i] != t[j] by {
                if i < s.len() && j < s.len() {
                    assert(s[i] != s[j]);
                } else if i < s.len() {
                    assert(t[i] == s[i]);
                } else {
                    assert(t[j] == s[j]);
                }
            }
            assert(spent + keys =~= (spent + keys.drop_last()).push(keys.last()));
        }
    }
}

proof fn lemma_claim_stops(spent: Seq<Seq<char>>, keys: Seq<Seq<char>>, n: int)
    requires
        0 < n <= keys.len(),
        claim_keys(spent, keys.subrange(0, n)).1 is Some,
    ensures
        claim_keys(spent, keys) == claim_keys(spent, keys.subrange(0, n)),
    decreases keys.len() - n,
{
    if n == keys.len() {
        assert(keys.subrange(0, n) =~= keys);
    } else {
        assert(keys.subrange(0, n + 1).drop_last() =~= keys.subrange(0, n));
        lemma_claim_stops(spent, keys, n + 1);
    }
}

/// The message of a refusal for spending an output that is not unspent.
pub open spec fn missing_output_message(key: Seq<char>) -> Seq<char> {
    "Intento de doble gasto o UTXO inválida: "@ + key
}

/// The refusal, if any, as plain values.
pub open spec fn outcome_view(r: Result<(), BlockchainError>) -> Result<(), ErrorView> {
    match r {
        Ok(()) => Ok(()),
        Err(e) => Err(e@),
    }
}

/// The message for a block whose index does not follow the last block's.
pub open spec fn index_message(expected: nat, received: nat) -> Seq<char> {
    "Índice incorrecto. Se esperaba "@ + decimal_text(expected) + " pero se recibió "@
        + decimal_text(received) + "."@
}

/// The message for a block that does not name the last block's hash.
pub open spec fn previous_hash_message(index: nat) -> Seq<char> {
    "Hash previo incorrecto para el bloque "@ + decimal_text(index) + "."@
}

/// The message for a block whose target is not the current difficulty's.
pub open spec fn target_message(expected: Seq<u8>, received: Seq<u8>) -> Seq<char> {
    "Target incorrecto en el bloque. Se esperaba "@ + byte_list_text(expected) + " pero se recibió "@
        + byte_list_text(received) + "."@
}

/// The message for a block whose stated hash is not its hash.
pub open spec fn hash_message(calculated: Seq<char>, received: Seq<char>) -> Seq<char> {
    "El hash del bloque no coincide. Calculado: "@ + calculated + ", Recibido: "@ + received
}

/// The message for a transaction whose signatures do not check.
pub open spec fn bad_signature_message(id: Seq<char>) -> Seq<char> {
    "Firma inválida en la transacción "@ + id
}

/// The verdict on the transactions of a block from position `from` on: every
/// one must spend something (no second coinbase) and carry valid signatures.
pub open spec fn later_transactions_verdict(txs: Seq<TransactionView>, from: int) -> Result<(), ErrorView>
    decreases txs.len() - from,
{
    if from >= txs.len() || from < 0 {
        Ok(())
    } else if txs[from].inputs.len() == 0 {
        Err(ErrorView::BlockValidationError("Solo puede haber una transacción coinbase por bloque."@))
    } else if !signatures_valid_view(txs[from]) {
        Err(ErrorView::TransactionError(bad_signature_message(txs[from].id)))
    } else {
        later_transactions_verdict(txs, from + 1)
    }
}

/// The verdict on a proposed block, given the chain and the current
/// difficulty: it must follow the last block (index and previous hash), carry
/// the current difficulty's target, meet it with its nonce, state its own
/// hash, start with a coinbase and hold no other coinbase, and every later
/// transaction must carry valid signatures. The first rule broken decides the
/// refusal.
pub open spec fn block_verdict(chain: Seq<BlockView>, difficulty_bits: u64, block: BlockView) -> Result<(), ErrorView> {
    if chain.len() == 0 {
        Err(ErrorView::EmptyChain)
    } else {
        let last = chain.last();
        let hash = zrz_hash(block_bytes(block), block.nonce);
        if block.index != last.index + 1 {
            Err(ErrorView::BlockValidationError(index_message((last.index + 1) as nat, block.index as nat)))
        } else if block.previous_hash != last.hash {
            Err(ErrorView::BlockValidationError(previous_hash_message(block.index as nat)))
        } else if block.target != difficulty_target(difficulty_bits) {
            Err(ErrorView::BlockValidationError(target_message(difficulty_target(difficulty_bits), block.target)))
        } else if !meets_target(hash, block.target) {
            Err(ErrorView::BlockValidationError("La prueba de trabajo es inválida."@))
        } else if hex_text(hash) != block.hash {
            Err(ErrorView::BlockValidationError(hash_message(hex_text(hash), block.hash)))
        } else if block.transactions.len() == 0 {
            Err(ErrorView::BlockValidationError("El bloque no puede estar vacío de transacciones."@))
        } else if block.transactions[0].inputs.len() != 0 {
            Err(ErrorView::BlockValidationError("La primera transacción debe ser coinbase."@))
        } else {
            later_transactions_verdict(block.transactions, 1)
        }
    }
}

proof fn lemma_later_transactions_accepted(txs: Seq<TransactionView>, from: int)
    requires
        from >= 1,
        later_transactions_verdict(txs, from) is Ok,
    ensures
        forall|k: int| from <= k < txs.len() ==> #[trigger] txs[k].inputs.len() > 0 && signatures_valid_view(txs[k]),
    decreases txs.len() - from,
{
    if from < txs.len() {
        lemma_later_transactions_accepted(txs, from + 1);
    }
}

/// An accepted block follows the tip and keeps every rule: the chain is not
/// empty, the block's index is exactly one past the last block's, it names
/// the last block's hash, it carries the current difficulty's target, its
/// hash meets that target and is the hash it states, its first transaction
/// is a coinbase, and every later one spends something and carries valid
/// signatures.
pub proof fn lemma_accepted_block_follows_tip(chain: Seq<BlockView>, difficulty_bits: u64, block: BlockView)
    requires
        block_verdict(chain, difficulty_bits, block) is Ok,
    ensures
        chain.len() > 0,
        block.index == chain.last().index + 1,
        block.previous_hash == chain.last().hash,
        block.target == difficulty_target(difficulty_bits),
        meets_target(zrz_hash(block_bytes(block), block.nonce), block.target),
        block.hash == hex_text(zrz_hash(block_bytes(block), block.nonce)),
        block.transactions.len() > 0,
        block.transactions[0].inputs.len() == 0,
        forall|k: int| 1 <= k < block.transactions.len() ==> #[trigger] block.transactions[k].inputs.len() > 0
            && signatures_valid_view(block.transactions[k]),
{
    lemma_later_transactions_accepted(block.transactions, 1);
}

/// The span over which the difficulty is retargeted, if a retarget is due:
/// the seconds and the block count between the block `difficulty_adjust_blocks`
/// from the end and the last block, when the chain is that long and both
/// spans are positive.
pub open spec fn adjustment_span(chain: Seq<BlockView>, window: usize) -> Option<(i64, u64)> {
    if chain.len() < window {
        None
    } else {
        let anchor = chain[chain.len() - window];
        let current = chain.last();
        let time_elapsed = current.timestamp - anchor.timestamp;
        let blocks_elapsed = current.index - anchor.index;
        if time_elapsed <= 0 || blocks_elapsed == 0 {
            None
        } else {
            Some((time_elapsed as i64, blocks_elapsed as u64))
        }
    }
}

/// The transaction with the given id in the newest block that holds one
/// (the first such transaction in that block), searching blocks `0..upto`.
pub open spec fn find_in_blocks(chain: Seq<BlockView>, id: Seq<char>, upto: int) -> Option<TransactionView>
    decreases upto,
{
    if upto <= 0 {
        None
    } else {
        match first_with_id(chain[upto - 1].transactions, id, 0) {
            Some(t) => Some(t),
            None => find_in_blocks(chain, id, upto - 1),
        }
    }
}

/// The first transaction with the given id at or after position `from`.
pub open spec fn first_with_id(txs: Seq<TransactionView>, id: Seq<char>, from: int) -> Option<TransactionView>
    decreases txs.len() - from,
{
    if from < 0 || from >= txs.len() {
        None
    } else if txs[from].id == id {
        Some(txs[from])
    } else {
        first_with_id(txs, id, from + 1)
    }
}

/// The keys of the outputs spent by the transactions of a block, in order.
pub open spec fn block_input_keys(txs: Seq<TransactionView>) -> Seq<Seq<char>>
    decreases txs.len(),
{
    if txs.len() == 0 {
        Seq::empty()
    } else {
        block_input_keys(txs.drop_last()) + input_keys(txs.last().inputs)
    }
}

/// The amounts (bits) of the unspent outputs that a list of inputs spends.
pub open spec fn spent_amounts(m: Map<Seq<char>, OutputView>, inputs: Seq<InputView>) -> Seq<u64> {
    inputs.map_values(|i: InputView| m[input_key(i)].amount_bits)
}

/// Whether every input spends an output of `m`.
pub open spec fn inputs_unspent(m: Map<Seq<char>, OutputView>, inputs: Seq<InputView>) -> bool {
    forall|i: int| 0 <= i < inputs.len() ==> #[trigger] m.contains_key(input_key(inputs[i]))
}

/// Whether the transaction at position `k` of a block passed when it was
/// applied to the unspent outputs `m`: a coinbase always passes; another
/// transaction spends unspent outputs only, and the funds check, given its
/// position and the amounts it spends, raised no refusal.
pub open spec fn transaction_passed<F: Fn(usize, Vec<u64>) -> Option<String>>(
    funds_check: F,
    m: Map<Seq<char>, OutputView>,
    tx: TransactionView,
    k: int,
) -> bool {
    tx.inputs.len() == 0 || (inputs_unspent(m, tx.inputs) && exists|a: Vec<u64>|
        a@ == spent_amounts(m, tx.inputs) && #[trigger] call_ensures(funds_check, (k as usize, a), None::<String>))
}

/// The refusal of the transaction at position `k` of a block, applied to the
/// unspent outputs `m` after the keys `prior` were spent earlier in the block:
/// an output spent twice in the block, else the first input whose output is
/// not unspent, else the message of the funds check.
pub open spec fn transaction_refusal<F: Fn(usize, Vec<u64>) -> Option<String>>(
    funds_check: F,
    m: Map<Seq<char>, OutputView>,
    prior: Seq<Seq<char>>,
    tx: TransactionView,
    k: int,
    e: ErrorView,
) -> bool {
    match claim_keys(prior, input_keys(tx.inputs)).1 {
        Some(key) => e == ErrorView::TransactionError(double_spend_message(key)),
        None => if !inputs_unspent(m, tx.inputs) {
            exists|j: int| 0 <= j < tx.inputs.len()
                && !#[trigger] m.contains_key(input_key(tx.inputs[j]))
                && (forall|l: int| 0 <= l < j ==> m.contains_key(input_key(tx.inputs[l])))
                && e == ErrorView::TransactionError(missing_output_message(input_key(tx.inputs[j])))
        } else {
            exists|a: Vec<u64>, msg: String| a@ == spent_amounts(m, tx.inputs)
                && #[trigger] call_ensures(funds_check, (k as usize, a), Some(msg))
                && e == ErrorView::TransactionError(msg@)
        },
    }
}

fn same_bytes32(a: &[u8; 32], b: &[u8; 32]) -> (same: bool)
    ensures
        same == (a@ == b@),
{
    for i in 0..32usize
        invariant
            forall|k: int| 0 <= k < i ==> a@[k] == b@[k],
    {
        if a[i] != b[i] {
            return false;
        }
    }
    assert(a@ =~= b@);
    true
}

impl Blockchain {
    /// Spends the outputs that the transaction's inputs refer to.
    pub fn consume_inputs_as_utxos(&mut self, tx: &Transaction)
        ensures
            final(self)@ == (BlockchainView { utxos: remove_inputs(old(self)@.utxos, tx@.inputs), ..old(self)@ }),
    {
        spend_inputs(&mut self.utxos, tx);
    }

    /// Files each of the transaction's outputs under `id:index`.
    pub fn update_utxos_with_new_outputs(&mut self, tx: &Transaction)
        ensures
            final(self)@ == (BlockchainView { utxos: add_outputs(old(self)@.utxos, tx@.id, tx@.outputs), ..old(self)@ }),
    {
        file_outputs(&mut self.utxos, tx);
    }

    /// Applies the transactions of a block to the unspent outputs, in order,
    /// as the block is accepted. A coinbase only files its outputs. Any other
    /// transaction must spend no output that an earlier transaction of the
    /// block spent, must spend only unspent outputs, and must pass
    /// `funds_check`, which is given its position and the amounts (bits) of
    /// the outputs it spends and answers with a refusal message or nothing;
    /// then its inputs are spent and its outputs filed. The first refusal
    /// stops the work, with the transactions before it applied.
    pub fn apply_block_transactions<F: Fn(usize, Vec<u64>) -> Option<String>>(
        &mut self,
        txs: &Vec<Transaction>,
        funds_check: F,
    ) -> (applied: Result<(), BlockchainError>)
        requires
            forall|k: usize, a: Vec<u64>| #[trigger] call_requires(funds_check, (k, a)),
        ensures
            applied is Ok ==> final(self)@ == (BlockchainView {
                utxos: apply_transactions(old(self)@.utxos, transactions_view(txs@)),
                ..old(self)@
            }),
            applied is Ok ==> block_input_keys(transactions_view(txs@)).no_duplicates(),
            applied is Ok ==> forall|j: int| 0 <= j < txs@.len() ==> #[trigger] transaction_passed(
                funds_check,
                apply_transactions(old(self)@.utxos, transactions_view(txs@).subrange(0, j)),
                transactions_view(txs@)[j],
                j,
            ),
            applied matches Err(e) ==> exists|k: int| 0 <= k < txs@.len()
                && final(self)@ == (BlockchainView {
                    utxos: apply_transactions(old(self)@.utxos, transactions_view(txs@).subrange(0, k)),
                    ..old(self)@
                })
                && transactions_view(txs@)[k].inputs.len() > 0
                && (forall|j: int| 0 <= j < k ==> #[trigger] transaction_passed(
                    funds_check,
                    apply_transactions(old(self)@.utxos, transactions_view(txs@).subrange(0, j)),
                    transactions_view(txs@)[j],
                    j,
                ))
                && #[trigger] transaction_refusal(
                    funds_check,
                    apply_transactions(old(self)@.utxos, transactions_view(txs@).subrange(0, k)),
                    block_input_keys(transactions_view(txs@).subrange(0, k)),
                    transactions_view(txs@)[k],
                    k,
                    e@,
                ),
    {
        let ghost tv = transactions_view(txs@);
        let ghost start = old(self)@.utxos;
        let mut spent: Vec<String> = Vec::new();
        assert(texts(spent@) =~= block_input_keys(tv.subrange(0, 0)));
        assert(tv.subrange(0, 0) =~= Seq::<TransactionView>::empty());
        let n = txs.len();
        let mut k: usize = 0;
        while k < n
            invariant
                k <= n,
                n == txs@.len(),
                tv == transactions_view(txs@),
                start == old(self)@.utxos,
                forall|kk: usize, a: Vec<u64>| #[trigger] call_requires(funds_check, (kk, a)),
                self@ == (BlockchainView { utxos: apply_transactions(start, tv.subrange(0, k as int)), ..old(self)@ }),
                texts(spent@) == block_input_keys(tv.subrange(0, k as int)),
                texts(spent@).no_duplicates(),
                forall|j: int| 0 <= j < k ==> #[trigger] transaction_passed(
                    funds_check,
                    apply_transactions(start, tv.subrange(0, j)),
                    tv[j],
                    j,
                ),
            decreases n - k,
        {
            let tx = &txs[k];
            let ghost m = self@.utxos;
            let ghost prior = texts(spent@);
            assert(tx@ == tv[k as int]);
            assert(tv.subrange(0, k + 1).drop_last() =~= tv.subrange(0, k as int));
            assert(tv.subrange(0, k + 1).last() == tv[k as int]);
            if tx.is_coinbase() {
                self.update_utxos_with_new_outputs(tx);
                proof {
                    lemma_coinbase_only_files_outputs(m, tx@);
                    assert(input_keys(tx@.inputs) =~= Seq::<Seq<char>>::empty());
                    assert(texts(spent@) =~= block_input_keys(tv.subrange(0, k + 1)));
                }
            } else {
                match claim_inputs(&mut spent, tx) {
                    Ok(()) => {},
                    Err(e) => {
                        proof {
                            assert(transaction_refusal(funds_check, m, prior, tv[k as int], k as int, e@));
                        }
                        return Err(e);
                    },
                }
                proof {
                    lemma_claims_distinct(prior, input_keys(tx@.inputs));
                    assert(texts(spent@) =~= block_input_keys(tv.subrange(0, k + 1)));
                }
                let amounts = match self.verify_inputs(tx) {
                    Ok(v) => v,
                    Err(e) => {
                        proof {
                            assert(!inputs_unspent(m, tx@.inputs));
                            assert(transaction_refusal(funds_check, m, prior, tv[k as int], k as int, e@));
                        }
                        return Err(e);
                    },
                };
                proof {
                    assert(inputs_unspent(m, tx@.inputs));
                    assert(amounts@ =~= spent_amounts(m, tx@.inputs));
                }
                let ghost a = amounts;
                let verdict = funds_check(k, amounts);
                match verdict {
                    Some(msg) => {
                        let ghost gm = msg;
                        proof {
                            assert(call_ensures(funds_check, (k, a), Some(gm)));
                            assert(((k as int) as usize) == k);
                            assert(call_ensures(funds_check, ((k as int) as usize, a), Some(gm)));
                            assert(claim_keys(prior, input_keys(tx@.inputs)).1 is None);
                            assert(a@ == spent_amounts(m, tv[k as int].inputs));
                            assert(transaction_refusal(funds_check, m, prior, tv[k as int], k as int,
                                ErrorView::TransactionError(gm@)));
                        }
                        let refusal = BlockchainError::TransactionError(msg);
                        proof {
                            assert(refusal@ == ErrorView::TransactionError(gm@));
                            assert(transaction_refusal(
                                funds_check,
                                apply_transactions(old(self)@.utxos, transactions_view(txs@).subrange(0, k as int)),
                                block_input_keys(transactions_view(txs@).subrange(0, k as int)),
                                transactions_view(txs@)[k as int],
                                k as int,
                                refusal@,
                            ));
                        }
                        return Err(refusal);
                    },
                    None => {},
                }
                proof {
                    assert(call_ensures(funds_check, (k, a), None::<String>));
                    assert(call_ensures(funds_check, ((k as int) as usize, a), None::<String>));
                    assert(transaction_passed(funds_check, m, tv[k as int], k as int));
                }
                self.consume_inputs_as_utxos(tx);
                self.update_utxos_with_new_outputs(tx);
            }
            k = k + 1;
        }
        assert(tv.subrange(0, n as int) =~= tv);
        Ok(())
    }

    /// The unspent outputs that the transaction's inputs spend, in input
    /// order, as amount bits; refused at the first input whose output is not
    /// unspent.
    pub fn verify_inputs(&self, tx: &Transaction) -> (amounts: Result<Vec<u64>, BlockchainError>)
        ensures
            amounts is Ok <==> (forall|i: int| 0 <= i < tx@.inputs.len() ==> #[trigger] self@.utxos.contains_key(input_key(tx@.inputs[i]))),
            amounts matches Ok(v) ==> v@.len() == tx@.inputs.len() && forall|i: int| 0 <= i < v@.len() ==>
                #[trigger] v@[i] == self@.utxos[input_key(tx@.inputs[i])].amount_bits,
            amounts matches Err(e) ==> exists|j: int| 0 <= j < tx@.inputs.len()
                && !#[trigger] self@.utxos.contains_key(input_key(tx@.inputs[j]))
                && (forall|k: int| 0 <= k < j ==> self@.utxos.contains_key(input_key(tx@.inputs[k])))
                && e@ == ErrorView::TransactionError(missing_output_message(input_key(tx@.inputs[j]))),
    {
        let mut amounts: Vec<u64> = Vec::new();
        for i in 0..tx.inputs.len()
            invariant
                amounts@.len() == i,
                forall|k: int| 0 <= k < i ==> #[trigger] self@.utxos.contains_key(input_key(tx@.inputs[k])),
                forall|k: int| 0 <= k < i ==> #[trigger] amounts@[k] == self@.utxos[input_key(tx@.inputs[k])].amount_bits,
        {
            let input = &tx.inputs[i];
            let key = utxo_key_of(&input.tx_id, input.output_index as u64);
            match self.utxos.get(key.as_str()) {
                Some(utxo) => {
                    amounts.push(utxo.amount_bits);
                },
                None => {
                    let mut message = String::from_str("Intento de doble gasto o UTXO inválida: ");
                    message.append(key.as_str());
                    assert(!self@.utxos.contains_key(input_key(tx@.inputs[i as int])));
                    return Err(BlockchainError::TransactionError(message));
                },
            }
        }
        Ok(amounts)
    }

    /// A ledger with the given settings whose chain holds only a genesis block
    /// stamped with the current time.
    pub fn new(params: ConsensusParams) -> (blockchain: Self)
        ensures
            blockchain@.chain.len() == 1,
            blockchain@.chain[0] == genesis_block(blockchain@.chain[0].timestamp, params.initial_difficulty_bits),
            blockchain@.current_transactions.len() == 0,
            blockchain@.utxos == Map::<Seq<char>, OutputView>::empty(),
            blockchain.difficulty_bits == params.initial_difficulty_bits,
            blockchain.reward_bits == params.initial_block_reward_bits,
            blockchain.min_reward_bits == params.min_block_reward_bits,
            blockchain.reduction_rate_bits == params.reward_reduction_rate_bits,
            blockchain.block_time == params.block_time,
            blockchain.difficulty_adjust_blocks == params.difficulty_adjust_blocks,
    {
        Self::new_at(params, unix_time_now())
    }

    /// A ledger with the given settings whose chain holds only a genesis block
    /// stamped with `timestamp`.
    pub fn new_at(params: ConsensusParams, timestamp: i64) -> (blockchain: Self)
        ensures
            blockchain@.chain == seq![genesis_block(timestamp, params.initial_difficulty_bits)],
            blockchain@.current_transactions.len() == 0,
            blockchain@.utxos == Map::<Seq<char>, OutputView>::empty(),
            blockchain.difficulty_bits == params.initial_difficulty_bits,
            blockchain.reward_bits == params.initial_block_reward_bits,
            blockchain.min_reward_bits == params.min_block_reward_bits,
            blockchain.reduction_rate_bits == params.reward_reduction_rate_bits,
            blockchain.block_time == params.block_time,
            blockchain.difficulty_adjust_blocks == params.difficulty_adjust_blocks,
    {
        let mut blockchain = Blockchain {
            chain: Vec::new(),
            current_transactions: Vec::new(),
            utxos: UtxoSet::new(),
            difficulty_bits: params.initial_difficulty_bits,
            reward_bits: params.initial_block_reward_bits,
            min_reward_bits: params.min_block_reward_bits,
            reduction_rate_bits: params.reward_reduction_rate_bits,
            block_time: params.block_time,
            difficulty_adjust_blocks: params.difficulty_adjust_blocks,
        };
        blockchain.create_genesis_block(timestamp);
        assert(blockchain@.chain =~= seq![genesis_block(timestamp, params.initial_difficulty_bits)]);
        assert(blockchain@.current_transactions =~= Seq::<TransactionView>::empty());
        blockchain
    }

    /// Appends a genesis block stamped with `timestamp` if the chain is empty.
    pub fn create_genesis_block(&mut self, timestamp: i64)
        ensures
            old(self)@.chain.len() == 0 ==> final(self)@ == (BlockchainView {
                chain: seq![genesis_block(timestamp, old(self).difficulty_bits)],
                ..old(self)@
            }),
            old(self)@.chain.len() != 0 ==> final(self)@ == old(self)@,
    {
        if self.chain.len() == 0 {
            let genesis = Block {
                index: 0,
                timestamp,
                transactions: Vec::new(),
                previous_hash: String::from_str("0"),
                hash: genesis_hash(),
                nonce: 0,
                target: Block::calculate_target(self.difficulty_bits),
            };
            proof {
                reveal_strlit("0");
                assert(genesis@.transactions =~= Seq::<TransactionView>::empty());
                assert(genesis.previous_hash@ =~= seq!['0']);
                assert(genesis@ == genesis_block(timestamp, old(self).difficulty_bits));
            }
            self.chain.push(genesis);
            assert(blocks_view(self.chain@) =~= seq![genesis_block(timestamp, old(self).difficulty_bits)]);
        }
    }

    /// The last block of the chain; refused when the chain is empty.
    pub fn get_last_block(&self) -> (last: Result<&Block, BlockchainError>)
        ensures
            self@.chain.len() == 0 ==> (last matches Err(e) && e@ == ErrorView::EmptyChain),
            self@.chain.len() != 0 ==> (last matches Ok(b) && b@ == self@.chain.last()),
    {
        if self.chain.len() == 0 {
            Err(BlockchainError::EmptyChain)
        } else {
            Ok(&self.chain[self.chain.len() - 1])
        }
    }

    /// Adds a transaction to the pool of pending transactions if its
    /// signatures are valid; refuses it otherwise.
    pub fn add_transaction(&mut self, tx: Transaction) -> (added: Result<(), BlockchainError>)
        ensures
            signatures_valid_view(tx@) ==> added is Ok && final(self)@ == (BlockchainView {
                current_transactions: old(self)@.current_transactions.push(tx@),
                ..old(self)@
            }),
            !signatures_valid_view(tx@) ==> (added matches Err(e) && e@ == ErrorView::TransactionError(
                "Transacción inválida: firma"@,
            )) && final(self)@ == old(self)@,
    {
        if !tx.verify_signature() {
            return Err(BlockchainError::TransactionError(String::from_str("Transacción inválida: firma")));
        }
        self.current_transactions.push(tx);
        assert(final(self)@.current_transactions =~= old(self)@.current_transactions.push(tx@));
        Ok(())
    }

    /// Replaces the unspent outputs with those of the current chain.
    pub fn rebuild_utxos(&mut self)
        ensures
            final(self)@ == (BlockchainView { utxos: chain_utxos(old(self)@.chain), ..old(self)@ }),
    {
        rebuild_from_chain(&mut self.utxos, &self.chain);
    }

    /// Replaces the chain with `new_chain` when it is longer than the current
    /// one and `new_chain_valid` holds; the unspent outputs are then rebuilt
    /// and the pending pool emptied. Otherwise nothing changes. Returns whether
    /// the chain was replaced. `new_chain_valid` must be the outcome of
    /// validating `new_chain` block by block from its genesis (starting from
    /// `validation_base` and accepting each later block in turn); this
    /// function takes that outcome as given.
    pub fn resolve_conflicts(&mut self, new_chain: Vec<Block>, new_chain_valid: bool) -> (replaced: bool)
        ensures
            replaced == (new_chain@.len() > old(self)@.chain.len() && new_chain_valid),
            replaced ==> final(self)@ == (BlockchainView {
                chain: blocks_view(new_chain@),
                utxos: chain_utxos(blocks_view(new_chain@)),
                current_transactions: Seq::empty(),
                ..old(self)@
            }),
            !replaced ==> final(self)@ == old(self)@,
    {
        if new_chain.len() <= self.chain.len() {
            return false;
        }
        if !new_chain_valid {
            return false;
        }
        self.chain = new_chain;
        self.rebuild_utxos();
        self.current_transactions = Vec::new();
        assert(final(self)@.current_transactions =~= Seq::<TransactionView>::empty());
        true
    }

    /// Whether a chain starts with a genesis block: index 0 and the genesis hash.
    pub fn genesis_matches(chain: &Vec<Block>) -> (matches: bool)
        ensures
            matches == (chain@.len() > 0 && chain@[0].index == 0 && chain@[0].hash@ == genesis_hash_text()),
    {
        if chain.len() == 0 {
            return false;
        }
        let genesis_hash = genesis_hash();
        chain[0].index == 0 && chain[0].hash == genesis_hash
    }

    /// A copy of the ledger whose chain is only `genesis` and whose unspent
    /// outputs are those of that one block; the starting point for checking a
    /// proposed chain block by block.
    pub fn validation_base(&self, genesis: &Block) -> (base: Self)
        ensures
            base@ == (BlockchainView {
                chain: seq![genesis@],
                utxos: chain_utxos(seq![genesis@]),
                ..self@
            }),
    {
        let mut chain: Vec<Block> = Vec::new();
        chain.push(genesis.duplicate());
        let mut utxos = UtxoSet::new();
        rebuild_from_chain(&mut utxos, &chain);
        assert(blocks_view(chain@) =~= seq![genesis@]);
        let pending = duplicate_transactions(&self.current_transactions);
        let base = Blockchain {
            chain,
            current_transactions: pending,
            utxos,
            difficulty_bits: self.difficulty_bits,
            reward_bits: self.reward_bits,
            min_reward_bits: self.min_reward_bits,
            reduction_rate_bits: self.reduction_rate_bits,
            block_time: self.block_time,
            difficulty_adjust_blocks: self.difficulty_adjust_blocks,
        };
        assert(base@.current_transactions =~= self@.current_transactions);
        base
    }

    /// A copy of the ledger.
    pub fn duplicate(&self) -> (copy: Self)
        ensures
            copy@ == self@,
    {
        let copy = Blockchain {
            chain: duplicate_blocks(&self.chain),
            current_transactions: duplicate_transactions(&self.current_transactions),
            utxos: self.utxos.duplicate(),
            difficulty_bits: self.difficulty_bits,
            reward_bits: self.reward_bits,
            min_reward_bits: self.min_reward_bits,
            reduction_rate_bits: self.reduction_rate_bits,
            block_time: self.block_time,
            difficulty_adjust_blocks: self.difficulty_adjust_blocks,
        };
        assert(copy@.current_transactions =~= self@.current_transactions);
        copy
    }

    /// Checks a proposed block against the chain and the current difficulty
    /// without changing anything (see `block_verdict` for the rules).
    pub fn pre_validate_block(&self, block: &Block) -> (verdict: Result<(), BlockchainError>)
        requires
            self@.chain.len() > 0 ==> self@.chain.last().index < u64::MAX,
        ensures
            outcome_view(verdict) == block_verdict(self@.chain, self.difficulty_bits, block@),
            verdict is Ok ==> self@.chain.len() > 0 && block.index == self@.chain.last().index + 1
                && block@.previous_hash == self@.chain.last().hash
                && block@.target == difficulty_target(self.difficulty_bits)
                && meets_target(zrz_hash(block_bytes(block@), block.nonce), block@.target)
                && block@.hash == hex_text(zrz_hash(block_bytes(block@), block.nonce))
                && block@.transactions.len() > 0 && block@.transactions[0].inputs.len() == 0,
    {
        proof {
            if block_verdict(self@.chain, self.difficulty_bits, block@) is Ok {
                lemma_accepted_block_follows_tip(self@.chain, self.difficulty_bits, block@);
            }
        }
        if self.chain.len() == 0 {
            return Err(BlockchainError::EmptyChain);
        }
        let last_block = &self.chain[self.chain.len() - 1];
        assert(last_block@ == self@.chain.last());
        if block.index != last_block.index + 1 {
            let mut message = String::from_str("Índice incorrecto. Se esperaba ");
            push_decimal(&mut message, last_block.index + 1);
            message.append(" pero se recibió ");
            push_decimal(&mut message, block.index);
            message.append(".");
            return Err(BlockchainError::BlockValidationError(message));
        }
        if block.previous_hash != last_block.hash {
            let mut message = String::from_str("Hash previo incorrecto para el bloque ");
            push_decimal(&mut message, block.index);
            message.append(".");
            return Err(BlockchainError::BlockValidationError(message));
        }
        let expected_target = Block::calculate_target(self.difficulty_bits);
        if !same_bytes32(&block.target, &expected_target) {
            let mut message = String::from_str("Target incorrecto en el bloque. Se esperaba ");
            push_byte_list(&mut message, &expected_target);
            message.append(" pero se recibió ");
            push_byte_list(&mut message, &block.target);
            message.append(".");
            return Err(BlockchainError::BlockValidationError(message));
        }
        let hasher = ZRZHasher::new();
        let bytes = block.to_bytes();
        if !hasher.verify(bytes.as_slice(), block.nonce, &block.target) {
            return Err(BlockchainError::BlockValidationError(String::from_str("La prueba de trabajo es inválida.")));
        }
        let calculated_hash = hex_encode(&hasher.hash(bytes.as_slice(), block.nonce));
        if calculated_hash != block.hash {
            let mut message = String::from_str("El hash del bloque no coincide. Calculado: ");
            message.append(calculated_hash.as_str());
            message.append(", Recibido: ");
            message.append(block.hash.as_str());
            return Err(BlockchainError::BlockValidationError(message));
        }
        if block.transactions.len() == 0 {
            return Err(BlockchainError::BlockValidationError(
                String::from_str("El bloque no puede estar vacío de transacciones."),
            ));
        }
        let coinbase_tx = &block.transactions[0];
        if !coinbase_tx.is_coinbase() {
            return Err(BlockchainError::BlockValidationError(
                String::from_str("La primera transacción debe ser coinbase."),
            ));
        }
        if coinbase_tx.inputs.len() != 0 {
            return Err(BlockchainError::BlockValidationError(
                String::from_str("La transacción coinbase no debe tener entradas."),
            ));
        }
        let ghost txs = block@.transactions;
        assert(block_verdict(self@.chain, self.difficulty_bits, block@) == later_transactions_verdict(txs, 1));
        let mut i: usize = 1;
        while i < block.transactions.len()
            invariant
                1 <= i <= block.transactions@.len(),
                txs == block@.transactions,
                block_verdict(self@.chain, self.difficulty_bits, block@) == later_transactions_verdict(txs, 1),
                later_transactions_verdict(txs, 1) == later_transactions_verdict(txs, i as int),
            decreases block.transactions@.len() - i,
        {
            let tx = &block.transactions[i];
            assert(tx@ == txs[i as int]);
            if tx.is_coinbase() {
                return Err(BlockchainError::BlockValidationError(
                    String::from_str("Solo puede haber una transacción coinbase por bloque."),
                ));
            }
            if !tx.verify_signature() {
                let mut message = String::from_str("Firma inválida en la transacción ");
                message.append(tx.id.as_str());
                return Err(BlockchainError::TransactionError(message));
            }
            i = i + 1;
        }
        Ok(())
    }

    /// The span that the next difficulty is computed from, if a retarget is
    /// due (see `adjustment_span`).
    pub fn adjustment_window(&self) -> (span: Option<(i64, u64)>)
        requires
            self.difficulty_adjust_blocks as usize > 0,
            self@.chain.len() >= self.difficulty_adjust_blocks as usize ==> {
                let anchor = self@.chain[self@.chain.len() - self.difficulty_adjust_blocks as usize];
                let current = self@.chain.last();
                &&& i64::MIN <= current.timestamp - anchor.timestamp <= i64::MAX
                &&& anchor.index <= current.index
            },
        ensures
            span == adjustment_span(self@.chain, self.difficulty_adjust_blocks as usize),
    {
        let window_size = self.difficulty_adjust_blocks as usize;
        let chain_len = self.chain.len();
        if chain_len < window_size {
            return None;
        }
        let anchor_block = &self.chain[chain_len - window_size];
        let current_block = &self.chain[chain_len - 1];
        assert(anchor_block@ == self@.chain[self@.chain.len() - window_size]);
        assert(current_block@ == self@.chain.last());
        let time_elapsed = current_block.timestamp - anchor_block.timestamp;
        let blocks_elapsed = current_block.index - anchor_block.index;
        if time_elapsed <= 0 || blocks_elapsed == 0 {
            return None;
        }
        Some((time_elapsed, blocks_elapsed))
    }

    /// A copy of the transaction with the given id from the newest block that
    /// holds one, if any.
    pub fn find_transaction(&self, id: &str) -> (found: Option<Transaction>)
        ensures
            match found {
                Some(t) => find_in_blocks(self@.chain, id@, self@.chain.len() as int) == Some(t@),
                None => find_in_blocks(self@.chain, id@, self@.chain.len() as int) is None,
            },
    {
        let wanted = String::from_str(id);
        let mut b = self.chain.len();
        while b > 0
            invariant
                b <= self@.chain.len(),
                wanted@ == id@,
                find_in_blocks(self@.chain, id@, self@.chain.len() as int) == find_in_blocks(self@.chain, id@, b as int),
            decreases b,
        {
            let block = &self.chain[b - 1];
            assert(block@ == self@.chain[b - 1]);
            let mut t: usize = 0;
            while t < block.transactions.len()
                invariant
                    t <= block.transactions@.len(),
                    wanted@ == id@,
                    0 < b <= self@.chain.len(),
                    block@ == self@.chain[b - 1],
                    find_in_blocks(self@.chain, id@, self@.chain.len() as int) == find_in_blocks(self@.chain, id@, b as int),
                    first_with_id(block@.transactions, id@, 0) == first_with_id(block@.transactions, id@, t as int),
                decreases block.transactions@.len() - t,
            {
                assert(block.transactions@[t as int]@ == block@.transactions[t as int]);
                if block.transactions[t].id == wanted {
                    return Some(block.transactions[t].duplicate());
                }
                t = t + 1;
            }
            b = b - 1;
        }
        None
    }
}

} // verus!
