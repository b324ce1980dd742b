//! The miner's computations: its shared counters, the block template it
//! works on, the nonce search and the sealing of a found block.
use vstd::prelude::*;
use std::sync::atomic::{AtomicBool, AtomicU64};
use crate::block::{block_bytes, difficulty_target, Block, BlockView};
use crate::blockchain::{block_verdict, later_transactions_verdict};
use crate::transaction::signatures_valid;
use crate::codec::{hex_encode, hex_text};
use crate::crypto::unix_time_now;
use crate::transaction::{transactions_view_of, tx_hash_text, OutputView, Transaction, TransactionView};
use crate::zrzhash::{meets_target, zrz_hash, ZRZHasher};

verus! {

/// The miner's command line: the address paid by the coinbase, the node's
/// RPC URL and the number of mining threads.
#[derive(Clone, Debug)]
pub struct CliArgs {
    pub address: String,
    pub node: String,
    pub threads: usize,
}

/// Counters shared between the mining threads, the job watcher and the
/// reporter.
pub struct MinerSharedState {
    pub current_job_height: AtomicU64,
    pub total_hashes: AtomicU64,
    pub session_accepted: AtomicU64,
    pub session_rejected: AtomicU64,
    pub is_shutdown_requested: AtomicBool,
}

impl MinerSharedState {
    /// All counters at zero and no shutdown requested.
    pub fn new() -> (state: Self) {
        MinerSharedState {
            current_job_height: AtomicU64::new(0),
            total_hashes: AtomicU64::new(0),
            session_accepted: AtomicU64::new(0),
            session_rejected: AtomicU64::new(0),
            is_shutdown_requested: AtomicBool::new(false),
        }
    }
}

/// Whether the job being mined is stale: the network's next block (one past
/// `network_last_index`) is beyond the height the miners are working on.
pub fn job_is_stale(network_last_index: u64, miner_height: u64) -> (stale: bool)
    ensures
        stale == (network_last_index + 1 > miner_height),
{
    network_last_index >= miner_height
}

/// The nonce tried at step `k` of a search that starts at `start` (counting
/// up, wrapping past `u64::MAX`).
pub open spec fn nonce_at(start: u64, k: nat) -> u64 {
    ((start as nat + k) % 0x1_0000_0000_0000_0000) as u64
}

/// Whether the nonce at step `k` solves the block data for the target.
pub open spec fn solves(data: Seq<u8>, target: Seq<u8>, start: u64, k: nat) -> bool {
    meets_target(zrz_hash(data, nonce_at(start, k)), target)
}

/// Tries the nonces `start`, `start + 1`, ... (wrapping) at most `attempts`
/// times and stops at the first whose hash meets the target. Returns that
/// nonce, if any, and the number of nonces that failed before it.
pub fn search_nonce(data: &[u8], target: &[u8; 32], start: u64, attempts: u64) -> (outcome: (Option<u64>, u64))
    ensures
        match outcome.0 {
            Some(n) => outcome.1 < attempts && n == nonce_at(start, outcome.1 as nat)
                && solves(data@, target@, start, outcome.1 as nat),
            None => outcome.1 == attempts,
        },
        forall|k: nat| k < outcome.1 ==> !#[trigger] solves(data@, target@, start, k),
{
    let hasher = ZRZHasher::new();
    let mut nonce = start;
    let mut tried: u64 = 0;
    while tried < attempts
        invariant
            tried <= attempts,
            nonce == nonce_at(start, tried as nat),
            forall|k: nat| k < tried ==> !#[trigger] solves(data@, target@, start, k),
        decreases attempts - tried,
    {
        if hasher.verify(data, nonce, target) {
            return (Some(nonce), tried);
        }
        proof {
            assert(nonce_at(start, (tried + 1) as nat) == nonce.wrapping_add(1));
        }
        nonce = nonce.wrapping_add(1);
        tried = tried + 1;
    }
    (None, tried)
}

/// The coinbase a block template starts with: no inputs, and one output
/// paying zero to the miner's address.
pub open spec fn template_coinbase(tx: TransactionView, address: Seq<char>) -> bool {
    &&& tx.inputs.len() == 0
    &&& tx.outputs == seq![OutputView { address, amount_bits: 0 }]
    &&& tx.id == tx_hash_text(tx)
}

/// The template mined on top of `last`: the next index, the last block's hash,
/// a coinbase first and then the pending transactions, the difficulty's
/// target, and no nonce or hash yet.
pub open spec fn is_template(block: BlockView, last: BlockView, difficulty_bits: u64, pending: Seq<TransactionView>, address: Seq<char>) -> bool {
    &&& block.index == last.index + 1
    &&& block.previous_hash == last.hash
    &&& block.transactions.len() == pending.len() + 1
    &&& template_coinbase(block.transactions[0], address)
    &&& block.transactions.drop_first() == pending
    &&& block.target == difficulty_target(difficulty_bits)
    &&& block.nonce == 0
    &&& block.hash == Seq::<char>::empty()
}

/// The block template for a mining job, with the coinbase stamped at
/// `coinbase_time` and the block at `block_time`.
pub fn block_template_at(
    last_block: &Block,
    difficulty_bits: u64,
    current_transactions: Vec<Transaction>,
    address: &str,
    coinbase_time: i64,
    block_time: i64,
) -> (template: Block)
    requires
        last_block.index < u64::MAX,
    ensures
        is_template(template@, last_block@, difficulty_bits, transactions_view_of(current_transactions@), address@),
        template.timestamp == block_time,
        template.transactions@[0].timestamp == coinbase_time,
{
    let mut block_transactions = current_transactions;
    let ghost pending = transactions_view_of(block_transactions@);
    let coinbase = Transaction::new_coinbase_at(address, 0, coinbase_time);
    assert(coinbase@.outputs =~= seq![OutputView { address: address@, amount_bits: 0 }]);
    block_transactions.insert(0, coinbase);
    assert(transactions_view_of(block_transactions@).drop_first() =~= pending);
    assert(transactions_view_of(block_transactions@)[0] == coinbase@);
    Block::new(
        last_block.index + 1,
        block_time,
        last_block.hash.clone(),
        block_transactions,
        difficulty_bits,
    )
}

/// The block template for a mining job, stamped with the current time.
pub fn block_template(
    last_block: &Block,
    difficulty_bits: u64,
    current_transactions: Vec<Transaction>,
    address: &str,
) -> (template: Block)
    requires
        last_block.index < u64::MAX,
    ensures
        is_template(template@, last_block@, difficulty_bits, transactions_view_of(current_transactions@), address@),
{
    let coinbase_time = unix_time_now();
    let block_time = unix_time_now();
    block_template_at(last_block, difficulty_bits, current_transactions, address, coinbase_time, block_time)
}

/// The template with the found nonce and the hash that nonce gives.
pub fn seal_block(template: &Block, nonce: u64) -> (sealed: Block)
    ensures
        sealed@ == (BlockView { nonce, hash: hex_text(zrz_hash(block_bytes(template@), nonce)), ..template@ }),
{
    let mut sealed = template.duplicate();
    sealed.nonce = nonce;
    let bytes = sealed.to_bytes();
    sealed.hash = hex_encode(&ZRZHasher::new().hash(bytes.as_slice(), nonce));
    sealed
}

proof fn lemma_later_transactions_pass(txs: Seq<TransactionView>, from: int)
    requires
        1 <= from,
        forall|k: int| 1 <= k < txs.len() ==> #[trigger] txs[k].inputs.len() > 0 && signatures_valid(txs[k]),
    ensures
        later_transactions_verdict(txs, from) == Ok::<(), crate::blockchain::ErrorView>(()),
    decreases txs.len() - from,
{
    if from < txs.len() {
        lemma_later_transactions_pass(txs, from + 1);
    }
}

/// A block mined on a template for the tip of the chain is accepted: when the
/// template was made for the chain's last block and current difficulty, the
/// pending transactions each spend something and carry valid signatures, and
/// the nonce meets the target, the sealed block passes every rule of
/// `block_verdict`.
pub proof fn lemma_mined_block_accepted(
    chain: Seq<BlockView>,
    difficulty_bits: u64,
    pending: Seq<TransactionView>,
    address: Seq<char>,
    template: BlockView,
    nonce: u64,
)
    requires
        chain.len() > 0,
        is_template(template, chain.last(), difficulty_bits, pending, address),
        forall|k: int| 0 <= k < pending.len() ==> #[trigger] pending[k].inputs.len() > 0 && signatures_valid(pending[k]),
        meets_target(zrz_hash(block_bytes(template), nonce), template.target),
    ensures
        block_verdict(
            chain,
            difficulty_bits,
            BlockView { nonce, hash: hex_text(zrz_hash(block_bytes(template), nonce)), ..template },
        ) == Ok::<(), crate::blockchain::ErrorView>(()),
{
    let sealed = BlockView { nonce, hash: hex_text(zrz_hash(block_bytes(template), nonce)), ..template };
    assert(block_bytes(sealed) == block_bytes(template));
    let txs = sealed.transactions;
    assert forall|k: int| 1 <= k < txs.len() implies #[trigger] txs[k].inputs.len() > 0 && signatures_valid(txs[k]) by {
        assert(txs[k] == txs.drop_first()[k - 1]);
        assert(txs.drop_first()[k - 1] == pending[k - 1]);
    }
    lemma_later_transactions_pass(txs, 1);
}

} // verus!
