//! Transactions: inputs that spend earlier outputs, outputs that pay an
//! address, and the byte encodings that are signed and hashed.
use vstd::prelude::*;
use vstd::bytes::*;
use vstd::utf8::encode_utf8;
use vstd::string::*;
use crate::codec::{concat_map, hex_bytes, hex_decode, hex_encode, hex_text, lemma_concat_layout, lens_sum};
use crate::crypto::{ed25519_accepts, unix_time_now};
use crate::wallet::Wallet;
use crate::zrzhash::{zrz_hash, ZRZHasher};

verus! {

/// A reference to an earlier output, with the signature and public key (both
/// hexadecimal) that authorize spending it.
#[derive(Clone, Debug)]
pub struct TxInput {
    pub tx_id: String,
    pub output_index: u32,
    pub signature: String,
    pub pub_key: String,
}

/// A payment of an amount to an address. The amount is a binary64 number,
/// held here as its IEEE-754 bit pattern.
#[derive(Clone, Debug)]
pub struct TxOutput {
    pub address: String,
    pub amount_bits: u64,
}

/// A transaction. A transaction without inputs is a coinbase.
#[derive(Clone, Debug)]
pub struct Transaction {
    pub id: String,
    pub inputs: Vec<TxInput>,
    pub outputs: Vec<TxOutput>,
    pub timestamp: i64,
}

/// What an input holds, as plain values.
pub struct InputView {
    pub tx_id: Seq<char>,
    pub output_index: u32,
    pub signature: Seq<char>,
    pub pub_key: Seq<char>,
}

/// What an output holds, as plain values.
pub struct OutputView {
    pub address: Seq<char>,
    pub amount_bits: u64,
}

/// What a transaction holds, as plain values.
pub struct TransactionView {
    pub id: Seq<char>,
    pub inputs: Seq<InputView>,
    pub outputs: Seq<OutputView>,
    pub timestamp: i64,
}

impl View for TxInput {
    type V = InputView;

    open spec fn view(&self) -> InputView {
        InputView {
            tx_id: self.tx_id@,
            output_index: self.output_index,
            signature: self.signature@,
            pub_key: self.pub_key@,
        }
    }
}

impl View for TxOutput {
    type V = OutputView;

    open spec fn view(&self) -> OutputView {
        OutputView { address: self.address@, amount_bits: self.amount_bits }
    }
}

/// The views of a list of inputs.
pub open spec fn inputs_view(inputs: Seq<TxInput>) -> Seq<InputView> {
    inputs.map_values(|i: TxInput| i@)
}

/// The views of a list of outputs.
pub open spec fn outputs_view(outputs: Seq<TxOutput>) -> Seq<OutputView> {
    outputs.map_values(|o: TxOutput| o@)
}

impl View for Transaction {
    type V = TransactionView;

    open spec fn view(&self) -> TransactionView {
        TransactionView {
            id: self.id@,
            inputs: inputs_view(self.inputs@),
            outputs: outputs_view(self.outputs@),
            timestamp: self.timestamp,
        }
    }
}

/// The views of a list of transactions.
pub open spec fn transactions_view_of(txs: Seq<Transaction>) -> Seq<TransactionView> {
    txs.map_values(|t: Transaction| t@)
}

/// The UTF-8 bytes of a text.
pub open spec fn utf8(s: Seq<char>) -> Seq<u8> {
    encode_utf8(s)
}

/// The signed part of the inputs: each input's transaction id and output index.
pub open spec fn input_signing_bytes(inputs: Seq<InputView>) -> Seq<u8>
    decreases inputs.len(),
{
    if inputs.len() == 0 {
        Seq::empty()
    } else {
        input_signing_bytes(inputs.drop_last()) + utf8(inputs.last().tx_id)
            + spec_u32_to_le_bytes(inputs.last().output_index)
    }
}

/// Each output's address followed by its amount (little-endian bits).
pub open spec fn output_bytes(outputs: Seq<OutputView>) -> Seq<u8>
    decreases outputs.len(),
{
    if outputs.len() == 0 {
        Seq::empty()
    } else {
        output_bytes(outputs.drop_last()) + utf8(outputs.last().address)
            + spec_u64_to_le_bytes(outputs.last().amount_bits)
    }
}

/// Each input's signature text followed by its public key text.
pub open spec fn input_witness_bytes(inputs: Seq<InputView>) -> Seq<u8>
    decreases inputs.len(),
{
    if inputs.len() == 0 {
        Seq::empty()
    } else {
        input_witness_bytes(inputs.drop_last()) + utf8(inputs.last().signature) + utf8(
            inputs.last().pub_key,
        )
    }
}

/// The bytes that a transaction's signatures sign: the timestamp, the spent
/// outputs and the new outputs, but no signature.
pub open spec fn signing_bytes(tx: TransactionView) -> Seq<u8> {
    spec_u64_to_le_bytes(tx.timestamp as u64) + input_signing_bytes(tx.inputs) + output_bytes(
        tx.outputs,
    )
}

/// The full encoding of a transaction: the signed bytes, then the signatures
/// and public keys.
pub open spec fn tx_bytes(tx: TransactionView) -> Seq<u8> {
    signing_bytes(tx) + input_witness_bytes(tx.inputs)
}

/// The identifier of a transaction: the hexadecimal Zarza hash (nonce 0) of
/// its encoding.
pub open spec fn tx_hash_text(tx: TransactionView) -> Seq<char> {
    hex_text(zrz_hash(tx_bytes(tx), 0))
}

/// Whether one input carries a valid signature of `message`: both its public
/// key and its signature are hexadecimal, and Ed25519 accepts them.
pub open spec fn input_authorized(input: InputView, message: Seq<u8>) -> bool {
    match (hex_bytes(utf8(input.pub_key)), hex_bytes(utf8(input.signature))) {
        (Some(public_key), Some(signature)) => ed25519_accepts(public_key, message, signature),
        _ => false,
    }
}

/// Whether a transaction is a coinbase or every input signs its signed bytes.
pub open spec fn signatures_valid(tx: TransactionView) -> bool {
    tx.inputs.len() == 0 || forall|i: int|
        0 <= i < tx.inputs.len() ==> #[trigger] input_authorized(tx.inputs[i], signing_bytes(tx))
}

/// The inputs after signing: every signature replaced with `signature`.
pub open spec fn with_signature(inputs: Seq<InputView>, signature: Seq<char>) -> Seq<InputView> {
    inputs.map_values(|i: InputView| InputView { signature, ..i })
}

/// Signatures are not among the signed bytes: replacing every input's
/// signature leaves the bytes that are signed unchanged.
pub proof fn lemma_signing_ignores_signatures(inputs: Seq<InputView>, signature: Seq<char>)
    ensures
        input_signing_bytes(with_signature(inputs, signature)) == input_signing_bytes(inputs),
    decreases inputs.len(),
{
    if inputs.len() > 0 {
        assert(with_signature(inputs, signature).drop_last() =~= with_signature(inputs.drop_last(), signature));
        lemma_signing_ignores_signatures(inputs.drop_last(), signature);
    }
}

/// Signing a transaction does not change what its signatures sign: with
/// every input's signature replaced, the signed bytes are the same.
pub proof fn lemma_signed_bytes_unchanged_by_signing(tx: TransactionView, signature: Seq<char>)
    ensures
        signing_bytes(TransactionView { inputs: with_signature(tx.inputs, signature), ..tx }) == signing_bytes(tx),
{
    lemma_signing_ignores_signatures(tx.inputs, signature);
}

/// The outpoint that an input names, as it is signed: its transaction id
/// and its output index (four bytes, little-endian).
pub open spec fn outpoint_bytes(input: InputView) -> Seq<u8> {
    utf8(input.tx_id) + spec_u32_to_le_bytes(input.output_index)
}

/// `outpoint_bytes` as a function value.
pub open spec fn outpoint_fn() -> spec_fn(InputView) -> Seq<u8> {
    |input: InputView| outpoint_bytes(input)
}

/// An output as it is signed: its address, then its amount bits
/// (eight bytes, little-endian).
pub open spec fn output_entry_bytes(output: OutputView) -> Seq<u8> {
    utf8(output.address) + spec_u64_to_le_bytes(output.amount_bits)
}

/// `output_entry_bytes` as a function value.
pub open spec fn output_fn() -> spec_fn(OutputView) -> Seq<u8> {
    |output: OutputView| output_entry_bytes(output)
}

/// What an input adds to the full encoding: its signature text, then its
/// public key text.
pub open spec fn witness_entry_bytes(input: InputView) -> Seq<u8> {
    utf8(input.signature) + utf8(input.pub_key)
}

/// `witness_entry_bytes` as a function value.
pub open spec fn witness_fn() -> spec_fn(InputView) -> Seq<u8> {
    |input: InputView| witness_entry_bytes(input)
}

proof fn lemma_input_signing_bytes_concat(inputs: Seq<InputView>)
    ensures
        input_signing_bytes(inputs) == concat_map(inputs, outpoint_fn()),
    decreases inputs.len(),
{
    if inputs.len() > 0 {
        lemma_input_signing_bytes_concat(inputs.drop_last());
        assert(input_signing_bytes(inputs) =~= concat_map(inputs.drop_last(), outpoint_fn()) + outpoint_bytes(inputs.last()));
    }
}

proof fn lemma_output_bytes_concat(outputs: Seq<OutputView>)
    ensures
        output_bytes(outputs) == concat_map(outputs, output_fn()),
    decreases outputs.len(),
{
    if outputs.len() > 0 {
        lemma_output_bytes_concat(outputs.drop_last());
        assert(output_bytes(outputs) =~= concat_map(outputs.drop_last(), output_fn()) + output_entry_bytes(outputs.last()));
    }
}

proof fn lemma_witness_bytes_concat(inputs: Seq<InputView>)
    ensures
        input_witness_bytes(inputs) == concat_map(inputs, witness_fn()),
    decreases inputs.len(),
{
    if inputs.len() > 0 {
        lemma_witness_bytes_concat(inputs.drop_last());
        assert(input_witness_bytes(inputs) =~= concat_map(inputs.drop_last(), witness_fn()) + witness_entry_bytes(inputs.last()));
    }
}

/// The signed bytes of a transaction are laid out field by field: the
/// timestamp (eight bytes, little-endian); then each input's own outpoint
/// (transaction id and four-byte index), once and in order; then each
/// output's address and eight-byte amount, once and in order; nothing else.
pub proof fn lemma_signed_bytes_layout(tx: TransactionView)
    ensures
        signing_bytes(tx).subrange(0, 8) == spec_u64_to_le_bytes(tx.timestamp as u64),
        signing_bytes(tx).len() == 8 + lens_sum(tx.inputs, outpoint_fn(), tx.inputs.len() as int)
            + lens_sum(tx.outputs, output_fn(), tx.outputs.len() as int),
        forall|k: int| 0 <= k < tx.inputs.len() ==> signing_bytes(tx).subrange(
            8 + lens_sum(tx.inputs, outpoint_fn(), k),
            8 + lens_sum(tx.inputs, outpoint_fn(), k + 1),
        ) == utf8(#[trigger] tx.inputs[k].tx_id) + spec_u32_to_le_bytes(tx.inputs[k].output_index),
        forall|k: int| 0 <= k < tx.outputs.len() ==> signing_bytes(tx).subrange(
            8 + lens_sum(tx.inputs, outpoint_fn(), tx.inputs.len() as int) + lens_sum(tx.outputs, output_fn(), k),
            8 + lens_sum(tx.inputs, outpoint_fn(), tx.inputs.len() as int) + lens_sum(tx.outputs, output_fn(), k + 1),
        ) == utf8(#[trigger] tx.outputs[k].address) + spec_u64_to_le_bytes(tx.outputs[k].amount_bits),
{
    lemma_auto_spec_u64_to_from_le_bytes();
    lemma_input_signing_bytes_concat(tx.inputs);
    lemma_output_bytes_concat(tx.outputs);
    lemma_concat_layout(tx.inputs, outpoint_fn());
    lemma_concat_layout(tx.outputs, output_fn());
    let head = spec_u64_to_le_bytes(tx.timestamp as u64);
    let ins = concat_map(tx.inputs, outpoint_fn());
    let outs = concat_map(tx.outputs, output_fn());
    let sb = signing_bytes(tx);
    assert(sb =~= head + ins + outs);
    assert(sb.subrange(0, 8) =~= head);
    assert forall|k: int| 0 <= k < tx.inputs.len() implies sb.subrange(
        8 + lens_sum(tx.inputs, outpoint_fn(), k),
        8 + lens_sum(tx.inputs, outpoint_fn(), k + 1),
    ) == utf8(#[trigger] tx.inputs[k].tx_id) + spec_u32_to_le_bytes(tx.inputs[k].output_index) by {
        let lo = lens_sum(tx.inputs, outpoint_fn(), k) as int;
        let hi = lens_sum(tx.inputs, outpoint_fn(), k + 1) as int;
        assert(ins.subrange(lo, hi) == outpoint_bytes(tx.inputs[k]));
        crate::codec::lemma_lens_sum_grows(tx.inputs, outpoint_fn(), k + 1, tx.inputs.len() as int);
        crate::codec::lemma_lens_sum_grows(tx.inputs, outpoint_fn(), 0, k);
        crate::codec::lemma_lens_sum_grows(tx.inputs, outpoint_fn(), k, k + 1);
        assert(sb.subrange(8 + lo, 8 + hi) =~= ins.subrange(lo, hi));
    }
    let a = 8 + ins.len();
    assert forall|k: int| 0 <= k < tx.outputs.len() implies sb.subrange(
        8 + lens_sum(tx.inputs, outpoint_fn(), tx.inputs.len() as int) + lens_sum(tx.outputs, output_fn(), k),
        8 + lens_sum(tx.inputs, outpoint_fn(), tx.inputs.len() as int) + lens_sum(tx.outputs, output_fn(), k + 1),
    ) == utf8(#[trigger] tx.outputs[k].address) + spec_u64_to_le_bytes(tx.outputs[k].amount_bits) by {
        let lo = lens_sum(tx.outputs, output_fn(), k) as int;
        let hi = lens_sum(tx.outputs, output_fn(), k + 1) as int;
        assert(outs.subrange(lo, hi) == output_entry_bytes(tx.outputs[k]));
        crate::codec::lemma_lens_sum_grows(tx.outputs, output_fn(), k + 1, tx.outputs.len() as int);
        crate::codec::lemma_lens_sum_grows(tx.outputs, output_fn(), 0, k);
        crate::codec::lemma_lens_sum_grows(tx.outputs, output_fn(), k, k + 1);
        assert(sb.subrange(a + lo, a + hi) =~= outs.subrange(lo, hi));
    }
}

/// The full encoding of a transaction is its signed bytes followed by each
/// input's signature and public key texts, once and in order.
pub proof fn lemma_tx_bytes_layout(tx: TransactionView)
    ensures
        tx_bytes(tx).subrange(0, signing_bytes(tx).len() as int) == signing_bytes(tx),
        tx_bytes(tx).len() == signing_bytes(tx).len() + lens_sum(tx.inputs, witness_fn(), tx.inputs.len() as int),
        forall|k: int| 0 <= k < tx.inputs.len() ==> tx_bytes(tx).subrange(
            signing_bytes(tx).len() + lens_sum(tx.inputs, witness_fn(), k),
            signing_bytes(tx).len() + lens_sum(tx.inputs, witness_fn(), k + 1),
        ) == utf8(#[trigger] tx.inputs[k].signature) + utf8(tx.inputs[k].pub_key),
{
    lemma_witness_bytes_concat(tx.inputs);
    lemma_concat_layout(tx.inputs, witness_fn());
    let sb = signing_bytes(tx);
    let ws = concat_map(tx.inputs, witness_fn());
    let tb = tx_bytes(tx);
    assert(tb =~= sb + ws);
    assert(tb.subrange(0, sb.len() as int) =~= sb);
    assert forall|k: int| 0 <= k < tx.inputs.len() implies tb.subrange(
        sb.len() + lens_sum(tx.inputs, witness_fn(), k),
        sb.len() + lens_sum(tx.inputs, witness_fn(), k + 1),
    ) == utf8(#[trigger] tx.inputs[k].signature) + utf8(tx.inputs[k].pub_key) by {
        let lo = lens_sum(tx.inputs, witness_fn(), k) as int;
        let hi = lens_sum(tx.inputs, witness_fn(), k + 1) as int;
        assert(ws.subrange(lo, hi) == witness_entry_bytes(tx.inputs[k]));
        crate::codec::lemma_lens_sum_grows(tx.inputs, witness_fn(), k + 1, tx.inputs.len() as int);
        crate::codec::lemma_lens_sum_grows(tx.inputs, witness_fn(), 0, k);
        crate::codec::lemma_lens_sum_grows(tx.inputs, witness_fn(), k, k + 1);
        assert(tb.subrange(sb.len() + lo, sb.len() + hi) =~= ws.subrange(lo, hi));
    }
}

/// Appends `b` to `out`.
pub fn append_bytes(out: &mut Vec<u8>, b: &[u8])
    ensures
        final(out)@ == old(out)@ + b@,
{
    let ghost start = out@;
    for i in 0..b.len()
        invariant
            out@ == start + b@.subrange(0, i as int),
    {
        out.push(b[i]);
    }
    assert(b@.subrange(0, b@.len() as int) =~= b@);
}

/// Appends the UTF-8 bytes of `s` to `out`.
pub fn append_text(out: &mut Vec<u8>, s: &String)
    ensures
        final(out)@ == old(out)@ + utf8(s@),
{
    append_bytes(out, s.as_str().as_bytes());
}

impl TxInput {
    /// A field-by-field copy.
    pub fn duplicate(&self) -> (copy: Self)
        ensures
            copy == *self,
    {
        TxInput {
            tx_id: self.tx_id.clone(),
            output_index: self.output_index,
            signature: self.signature.clone(),
            pub_key: self.pub_key.clone(),
        }
    }
}

impl TxOutput {
    /// A field-by-field copy.
    pub fn duplicate(&self) -> (copy: Self)
        ensures
            copy == *self,
    {
        TxOutput { address: self.address.clone(), amount_bits: self.amount_bits }
    }
}

/// A copy of a list of inputs.
pub fn duplicate_inputs(inputs: &Vec<TxInput>) -> (copy: Vec<TxInput>)
    ensures
        copy@ == inputs@,
{
    let mut copy: Vec<TxInput> = Vec::new();
    for i in 0..inputs.len()
        invariant
            copy@ == inputs@.subrange(0, i as int),
    {
        copy.push(inputs[i].duplicate());
    }
    assert(inputs@.subrange(0, inputs@.len() as int) =~= inputs@);
    copy
}

/// A copy of a list of outputs.
pub fn duplicate_outputs(outputs: &Vec<TxOutput>) -> (copy: Vec<TxOutput>)
    ensures
        copy@ == outputs@,
{
    let mut copy: Vec<TxOutput> = Vec::new();
    for i in 0..outputs.len()
        invariant
            copy@ == outputs@.subrange(0, i as int),
    {
        copy.push(outputs[i].duplicate());
    }
    assert(outputs@.subrange(0, outputs@.len() as int) =~= outputs@);
    copy
}

impl Transaction {
    /// A copy of the transaction.
    pub fn duplicate(&self) -> (copy: Self)
        ensures
            copy@ == self@,
    {
        let copy = Transaction {
            id: self.id.clone(),
            inputs: duplicate_inputs(&self.inputs),
            outputs: duplicate_outputs(&self.outputs),
            timestamp: self.timestamp,
        };
        copy
    }

    /// A transaction stamped with the current time, whose id is the hash of
    /// its encoding.
    pub fn new(inputs: Vec<TxInput>, outputs: Vec<TxOutput>) -> (tx: Self)
        ensures
            tx.inputs@ == inputs@,
            tx.outputs@ == outputs@,
            tx@.id == tx_hash_text(tx@),
    {
        Self::new_at(inputs, outputs, unix_time_now())
    }

    /// A transaction stamped with `timestamp`, whose id is the hash of its
    /// encoding.
    pub fn new_at(inputs: Vec<TxInput>, outputs: Vec<TxOutput>, timestamp: i64) -> (tx: Self)
        ensures
            tx.inputs@ == inputs@,
            tx.outputs@ == outputs@,
            tx.timestamp == timestamp,
            tx@.id == tx_hash_text(tx@),
    {
        let mut tx = Transaction { id: String::new(), inputs, outputs, timestamp };
        tx.id = tx.calculate_hash();
        tx
    }

    /// A coinbase paying `amount_bits` to `recipient`, stamped with the
    /// current time.
    pub fn new_coinbase(recipient: &str, amount_bits: u64) -> (tx: Self)
        ensures
            tx.inputs@.len() == 0,
            tx.outputs@.len() == 1,
            tx@.outputs[0] == (OutputView { address: recipient@, amount_bits }),
            tx@.id == tx_hash_text(tx@),
    {
        Self::new_coinbase_at(recipient, amount_bits, unix_time_now())
    }

    /// A coinbase paying `amount_bits` to `recipient`, stamped with `timestamp`.
    pub fn new_coinbase_at(recipient: &str, amount_bits: u64, timestamp: i64) -> (tx: Self)
        ensures
            tx.inputs@.len() == 0,
            tx.outputs@.len() == 1,
            tx@.outputs[0] == (OutputView { address: recipient@, amount_bits }),
            tx.timestamp == timestamp,
            tx@.id == tx_hash_text(tx@),
    {
        let output = TxOutput { address: String::from_str(recipient), amount_bits };
        let mut outputs: Vec<TxOutput> = Vec::new();
        outputs.push(output);
        Self::new_at(Vec::new(), outputs, timestamp)
    }

    /// The bytes that the signatures sign (no signature is among them).
    pub fn to_bytes_for_signing(&self) -> (bytes: Vec<u8>)
        ensures
            bytes@ == signing_bytes(self@),
    {
        let mut bytes = u64_to_le_bytes(self.timestamp as u64);
        let ghost head = bytes@;
        for i in 0..self.inputs.len()
            invariant
                head == spec_u64_to_le_bytes(self.timestamp as u64),
                bytes@ == head + input_signing_bytes(inputs_view(self.inputs@).subrange(0, i as int)),
        {
            let input = &self.inputs[i];
            append_text(&mut bytes, &input.tx_id);
            let index_bytes = u32_to_le_bytes(input.output_index);
            append_bytes(&mut bytes, index_bytes.as_slice());
            assert(inputs_view(self.inputs@).subrange(0, i + 1).drop_last() =~= inputs_view(self.inputs@).subrange(0, i as int));
        }
        assert(inputs_view(self.inputs@).subrange(0, self.inputs@.len() as int) =~= inputs_view(self.inputs@));
        let ghost mid = bytes@;
        for i in 0..self.outputs.len()
            invariant
                bytes@ == mid + output_bytes(outputs_view(self.outputs@).subrange(0, i as int)),
        {
            let output = &self.outputs[i];
            append_text(&mut bytes, &output.address);
            let amount_bytes = u64_to_le_bytes(output.amount_bits);
            append_bytes(&mut bytes, amount_bytes.as_slice());
            assert(outputs_view(self.outputs@).subrange(0, i + 1).drop_last() =~= outputs_view(self.outputs@).subrange(0, i as int));
        }
        assert(outputs_view(self.outputs@).subrange(0, self.outputs@.len() as int) =~= outputs_view(self.outputs@));
        bytes
    }

    /// The full encoding: the signed bytes followed by every input's signature
    /// and public key, so that the hash depends on the signatures too.
    pub fn to_bytes(&self) -> (bytes: Vec<u8>)
        ensures
            bytes@ == tx_bytes(self@),
    {
        let mut bytes = self.to_bytes_for_signing();
        let ghost head = bytes@;
        for i in 0..self.inputs.len()
            invariant
                bytes@ == head + input_witness_bytes(inputs_view(self.inputs@).subrange(0, i as int)),
        {
            let input = &self.inputs[i];
            append_text(&mut bytes, &input.signature);
            append_text(&mut bytes, &input.pub_key);
            assert(inputs_view(self.inputs@).subrange(0, i + 1).drop_last() =~= inputs_view(self.inputs@).subrange(0, i as int));
        }
        assert(inputs_view(self.inputs@).subrange(0, self.inputs@.len() as int) =~= inputs_view(self.inputs@));
        bytes
    }

    /// The transaction id: the hexadecimal hash of the encoding.
    pub fn calculate_hash(&self) -> (id: String)
        ensures
            id@ == tx_hash_text(self@),
    {
        let bytes = self.to_bytes();
        let hasher = ZRZHasher::new();
        let hash_result = hasher.hash(bytes.as_slice(), 0);
        hex_encode(&hash_result)
    }

    /// Whether this is a coinbase (it has no inputs).
    pub fn is_coinbase(&self) -> (coinbase: bool)
        ensures
            coinbase == (self.inputs@.len() == 0),
    {
        self.inputs.len() == 0
    }

    /// Whether the transaction is a coinbase or every input's signature,
    /// checked against its public key, signs the transaction's signed bytes.
    pub fn verify_signature(&self) -> (valid: bool)
        ensures
            valid == signatures_valid(self@),
            valid == (self@.inputs.len() == 0 || forall|i: int| 0 <= i < self@.inputs.len() ==> {
                let input = #[trigger] self@.inputs[i];
                &&& hex_bytes(utf8(input.pub_key)) is Some
                &&& hex_bytes(utf8(input.signature)) is Some
                &&& ed25519_accepts(
                    hex_bytes(utf8(input.pub_key))->0,
                    signing_bytes(self@),
                    hex_bytes(utf8(input.signature))->0,
                )
            }),
    {
        proof {
            assert forall|i: int| #![trigger self@.inputs[i]] 0 <= i < self@.inputs.len() implies input_authorized(
                self@.inputs[i],
                signing_bytes(self@),
            ) == {
                let input = self@.inputs[i];
                &&& hex_bytes(utf8(input.pub_key)) is Some
                &&& hex_bytes(utf8(input.signature)) is Some
                &&& ed25519_accepts(
                    hex_bytes(utf8(input.pub_key))->0,
                    signing_bytes(self@),
                    hex_bytes(utf8(input.signature))->0,
                )
            } by {}
        }
        if self.is_coinbase() {
            return true;
        }
        let data_to_verify = self.to_bytes_for_signing();
        for i in 0..self.inputs.len()
            invariant
                data_to_verify@ == signing_bytes(self@),
                forall|k: int| 0 <= k < i ==> #[trigger] input_authorized(self@.inputs[k], signing_bytes(self@)),
        {
            let input = &self.inputs[i];
            let public_key_bytes = match hex_decode(input.pub_key.as_str().as_bytes()) {
                Ok(bytes) => bytes,
                Err(_) => {
                    assert(!input_authorized(self@.inputs[i as int], signing_bytes(self@)));
                    return false;
                },
            };
            let signature_bytes = match hex_decode(input.signature.as_str().as_bytes()) {
                Ok(bytes) => bytes,
                Err(_) => {
                    assert(!input_authorized(self@.inputs[i as int], signing_bytes(self@)));
                    return false;
                },
            };
            if !Wallet::verify_signature(
                public_key_bytes.as_slice(),
                data_to_verify.as_slice(),
                signature_bytes.as_slice(),
            ) {
                assert(!input_authorized(self@.inputs[i as int], signing_bytes(self@)));
                return false;
            }
        }
        true
    }
}

} // verus!
