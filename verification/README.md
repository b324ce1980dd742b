# zarza

The Zarza chain's consensus core as a Verus library: the Zarza proof-of-work
hash (the Ouroboros sponge followed by BLAKE3), transactions and their
signatures, blocks and their targets, the set of unspent outputs, the ledger's
block-validation rules, wallets, the miner's nonce search, and the peer
table of the network node. Verus verifies every function in `src/` but the
small trusted wrappers around BLAKE3, SHA-256, Ed25519, `hex`, `String::push`
and the clock (in `src/crypto.rs`, `src/codec.rs` and `Wallet::verify_signature`),
whose contracts it takes as given. Every function carries an `ensures`
except the wrappers for a random key and for the clock (nothing can be said
of their results) and two constructors: the miner's shared counters (std
atomics, of which nothing can be stated) and the stateless hasher.

Amounts and difficulties are binary64 numbers; the library holds them as their
bit patterns (`amount_bits`, `difficulty_bits`), and the arithmetic on them
(fees, balances, rewards, retargeting) lives in `app/consensus.rs`.

`app/` holds the programs around the library: the node daemon (JSON-RPC and
the peer-to-peer node), the miner and the wallet command line
(`zarza daemon`, `zarza miner ...`, `zarza wallet ...`).
