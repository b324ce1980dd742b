//! Wallets: an Ed25519 key pair and the address derived from its public key,
//! and the transactions a wallet builds and signs.
use vstd::prelude::*;
use vstd::string::*;
use vstd::utf8::encode_utf8;
use crate::codec::{
    decimal_text, hex_bytes, hex_decode, hex_encode, hex_text, is_digit, lemma_decimal_text_value,
    lemma_hex_roundtrip, lemma_parse_decimal_roundtrip, parse_u32, parse_u32_text, utxo_key,
};
use crate::crypto::{
    ed25519_accepts, ed25519_public_key, ed25519_public_of, ed25519_sign, ed25519_signature_of,
    random_secret_key, sha256_digest, sha256_of,
};
use crate::transaction::{
    inputs_view, lemma_signing_ignores_signatures, signatures_valid, signing_bytes, tx_hash_text, utf8,
    with_signature, InputView, Transaction, TxInput, TxOutput,
};
use ed25519_dalek::Verifier;

verus! {

/// Why a wallet could not be made or could not pay.
#[derive(Debug)]
pub enum WalletError {
    KeyGenerationError(String),
    InvalidPrivateKey,
    InsufficientFunds,
    SigningError(String),
}

/// A key pair and its address.
pub struct Wallet {
    secret_key: [u8; 32],
    pub_key: [u8; 32],
    address: String,
}

/// What a wallet holds, as plain values.
pub struct WalletView {
    pub secret_key: Seq<u8>,
    pub public_key: Seq<u8>,
    pub address: Seq<char>,
}

impl View for Wallet {
    type V = WalletView;

    closed spec fn view(&self) -> WalletView {
        WalletView { secret_key: self.secret_key@, public_key: self.pub_key@, address: self.address@ }
    }
}

/// The address of a public key: `ZRZ` and the hexadecimal SHA-256 of the key.
pub open spec fn address_of(public_key: Seq<u8>) -> Seq<char> {
    seq!['Z', 'R', 'Z'] + hex_text(sha256_of(public_key))
}

/// Whether a text holds a colon.
pub open spec fn has_colon(s: Seq<char>) -> bool {
    exists|i: int| 0 <= i < s.len() && s[i] == ':'
}

/// The position of the first `:` at or after `from` (the length if none).
pub open spec fn colon_from(s: Seq<char>, from: int) -> int
    decreases s.len() - from,
{
    if from < 0 || from >= s.len() {
        s.len() as int
    } else if s[from] == ':' {
        from
    } else {
        colon_from(s, from + 1)
    }
}

/// The input that spends the output filed under `key` (`txid:index`), signed
/// later by the holder of `public_key`: the id is the text before the first
/// colon, the index the text between it and the next colon (0 where that is
/// not a 32-bit decimal number).
pub open spec fn input_for_key(key: Seq<char>, public_key: Seq<u8>) -> InputView {
    let first = colon_from(key, 0);
    let second = colon_from(key, first + 1);
    InputView {
        tx_id: key.subrange(0, first),
        output_index: match parse_u32_text(key.subrange(first + 1, second)) {
            Some(v) => v,
            None => 0,
        },
        signature: Seq::empty(),
        pub_key: hex_text(public_key),
    }
}

fn find_colon(text: &str, n: usize, from: usize) -> (pos: usize)
    requires
        n == text@.len(),
        from <= n,
    ensures
        pos == colon_from(text@, from as int),
        from <= pos <= n,
{
    let mut i = from;
    while i < n
        invariant
            from <= i <= n,
            n == text@.len(),
            colon_from(text@, from as int) == colon_from(text@, i as int),
        decreases n - i,
    {
        if text.get_char(i) == ':' {
            return i;
        }
        i = i + 1;
    }
    i
}

impl Wallet {
    /// The wallet's public key is that of its secret key, and its address is
    /// that of its public key: 67 characters, `ZRZ` and 64 hexadecimal digits
    /// (kept by every wallet).
    #[verifier::type_invariant]
    pub closed spec fn wf(self) -> bool {
        &&& self.pub_key@ == ed25519_public_of(self.secret_key@)
        &&& self.address@ == address_of(self.pub_key@)
        &&& self.address@.len() == 67
    }

    /// What `wf` says, in terms of the view.
    pub proof fn lemma_wf(self)
        requires
            self.wf(),
        ensures
            self@.public_key == ed25519_public_of(self@.secret_key),
            self@.address == address_of(self@.public_key),
            self@.address.len() == 67,
            self@.secret_key.len() == 32,
            self@.public_key.len() == 32,
    {
    }

    fn from_secret(secret_key: [u8; 32]) -> (wallet: Self)
        ensures
            wallet.wf(),
            wallet@.secret_key == secret_key@,
    {
        let pub_key = ed25519_public_key(&secret_key);
        let address = Self::generate_address(&pub_key);
        Wallet { secret_key, pub_key, address }
    }

    /// A wallet with a fresh random key.
    pub fn new() -> (wallet: Result<Self, WalletError>)
        ensures
            wallet matches Ok(w) && w.wf(),
    {
        Ok(Self::from_secret(random_secret_key()))
    }

    /// The wallet of a secret key given in hexadecimal; refused unless the text
    /// is hexadecimal and stands for exactly 32 bytes.
    pub fn from_private_key(private_key_hex: &str) -> (wallet: Result<Self, WalletError>)
        ensures
            match hex_bytes(utf8(private_key_hex@)) {
                Some(secret) if secret.len() == 32 => wallet matches Ok(w) && w.wf() && w@.secret_key == secret,
                _ => wallet matches Err(WalletError::InvalidPrivateKey),
            },
    {
        let pk_bytes = match hex_decode(private_key_hex.as_bytes()) {
            Ok(bytes) => bytes,
            Err(_) => return Err(WalletError::InvalidPrivateKey),
        };
        if pk_bytes.len() != 32 {
            return Err(WalletError::InvalidPrivateKey);
        }
        let mut secret_key = [0u8; 32];
        for i in 0..32usize
            invariant
                pk_bytes@.len() == 32,
                forall|k: int| 0 <= k < i ==> secret_key@[k] == pk_bytes@[k],
        {
            secret_key[i] = pk_bytes[i];
        }
        assert(secret_key@ =~= pk_bytes@);
        Ok(Self::from_secret(secret_key))
    }

    /// The address of a public key: `ZRZ` followed by the hexadecimal SHA-256
    /// of the key.
    fn generate_address(pub_key_bytes: &[u8]) -> (address: String)
        ensures
            address@ == address_of(pub_key_bytes@),
            address@.len() == 67,
    {
        let digest = sha256_digest(pub_key_bytes);
        let mut address = String::from_str("ZRZ");
        proof {
            reveal_strlit("ZRZ");
        }
        let hex = hex_encode(digest.as_slice());
        address.append(hex.as_str());
        assert(address@ =~= address_of(pub_key_bytes@));
        address
    }

    /// The input that spends the output filed under `utxo_key`, with this
    /// wallet's public key and no signature yet. The key must hold a colon.
    pub fn input_for_utxo(&self, utxo_key: &str) -> (input: TxInput)
        requires
            exists|i: int| 0 <= i < utxo_key@.len() && utxo_key@[i] == ':',
        ensures
            input@ == input_for_key(utxo_key@, self@.public_key),
    {
        proof {
            use_type_invariant(self);
        }
        let n = utxo_key.unicode_len();
        let first = find_colon(utxo_key, n, 0);
        proof {
            let w = choose|i: int| 0 <= i < utxo_key@.len() && utxo_key@[i] == ':';
            lemma_colon_found(utxo_key@, 0, w);
        }
        let second = find_colon(utxo_key, n, first + 1);
        let tx_id = String::from_str(utxo_key.substring_char(0, first));
        let output_index = match parse_u32(utxo_key.substring_char(first + 1, second)) {
            Some(v) => v,
            None => 0,
        };
        TxInput { tx_id, output_index, signature: String::new(), pub_key: hex_encode(&self.pub_key) }
    }

    /// Signs the transaction: every input's signature becomes the hexadecimal
    /// Ed25519 signature, under this wallet's key, of the transaction's signed
    /// bytes. Nothing else changes.
    pub fn sign_transaction(&self, tx: &mut Transaction) -> (signed: Result<(), WalletError>)
        ensures
            signed is Ok,
            final(tx)@ == (crate::transaction::TransactionView {
                inputs: with_signature(
                    old(tx)@.inputs,
                    hex_text(ed25519_signature_of(self@.secret_key, signing_bytes(old(tx)@))),
                ),
                ..old(tx)@
            }),
            signing_bytes(final(tx)@) == signing_bytes(old(tx)@),
            ed25519_accepts(
                self@.public_key,
                signing_bytes(old(tx)@),
                ed25519_signature_of(self@.secret_key, signing_bytes(old(tx)@)),
            ),
    {
        proof {
            use_type_invariant(self);
        }
        let data_to_sign = tx.to_bytes_for_signing();
        let signature = ed25519_sign(&self.secret_key, data_to_sign.as_slice());
        let signature_hex = hex_encode(&signature);
        let ghost sig_text = signature_hex@;
        let mut inputs: Vec<TxInput> = Vec::new();
        for i in 0..tx.inputs.len()
            invariant
                inputs@.len() == i,
                sig_text == signature_hex@,
                inputs_view(inputs@) == with_signature(inputs_view(tx.inputs@), sig_text).subrange(0, i as int),
        {
            let mut input = tx.inputs[i].duplicate();
            input.signature = signature_hex.clone();
            let ghost prev = inputs@;
            inputs.push(input);
            assert(inputs_view(inputs@) =~= with_signature(inputs_view(tx.inputs@), sig_text).subrange(0, i + 1)) by {
                assert forall|k: int| 0 <= k < i implies #[trigger] inputs@[k] == prev[k] by {}
            }
        }
        assert(with_signature(inputs_view(tx.inputs@), sig_text).subrange(0, tx.inputs@.len() as int)
            =~= with_signature(inputs_view(tx.inputs@), sig_text));
        tx.inputs = inputs;
        proof {
            lemma_signing_ignores_signatures(old(tx)@.inputs, sig_text);
        }
        Ok(())
    }

    /// Builds a transaction from the given inputs and outputs, stamped with
    /// the current time, signs it, and gives it the id of the signed
    /// transaction (the hash covers the signatures).
    pub fn build_signed_transaction(&self, inputs: Vec<TxInput>, outputs: Vec<TxOutput>) -> (tx: Result<Transaction, WalletError>)
        ensures
            tx matches Ok(t) && {
                let unsigned = crate::transaction::TransactionView { inputs: inputs_view(inputs@), ..t@ };
                &&& t@.outputs == crate::transaction::outputs_view(outputs@)
                &&& t@.inputs == with_signature(
                    inputs_view(inputs@),
                    hex_text(ed25519_signature_of(self@.secret_key, signing_bytes(unsigned))),
                )
                &&& t@.id == tx_hash_text(t@)
                &&& signing_bytes(t@) == signing_bytes(unsigned)
                &&& forall|i: int| 0 <= i < t@.inputs.len() ==> #[trigger] t@.inputs[i].signature
                    == hex_text(ed25519_signature_of(self@.secret_key, signing_bytes(t@)))
                &&& ((forall|i: int| 0 <= i < inputs@.len() ==> #[trigger] inputs@[i].pub_key@ == hex_text(self@.public_key))
                    ==> signatures_valid(t@))
            },
    {
        proof {
            use_type_invariant(self);
        }
        let mut tx = Transaction::new(inputs, outputs);
        let ghost unsigned = tx@;
        let signed = self.sign_transaction(&mut tx);
        proof {
            self.lemma_wf();
            let msg = signing_bytes(unsigned);
            let sig = ed25519_signature_of(self@.secret_key, msg);
            lemma_hex_roundtrip(sig);
            lemma_hex_roundtrip(self@.public_key);
            if forall|i: int| 0 <= i < unsigned.inputs.len() ==> #[trigger] unsigned.inputs[i].pub_key == hex_text(self@.public_key) {
                assert forall|i: int| 0 <= i < tx@.inputs.len() implies #[trigger] crate::transaction::input_authorized(tx@.inputs[i], signing_bytes(tx@)) by {
                    assert(tx@.inputs[i].pub_key == unsigned.inputs[i].pub_key);
                    assert(tx@.inputs[i].signature == hex_text(sig));
                }
            }
        }
        let ghost signed_view = tx@;
        tx.id = tx.calculate_hash();
        proof {
            assert(signing_bytes(tx@) == signing_bytes(signed_view));
            assert(crate::transaction::TransactionView { inputs: inputs_view(inputs@), ..tx@ }
                == crate::transaction::TransactionView { id: tx@.id, ..unsigned });
            assert(signing_bytes(crate::transaction::TransactionView { inputs: inputs_view(inputs@), ..tx@ })
                == signing_bytes(unsigned));
        }
        Ok(tx)
    }

    /// Spends the outputs filed under the given keys (`txid:index`, each with
    /// a colon) and pays `outputs`: one input per key, built with this
    /// wallet's public key, then the transaction is built and signed. Its
    /// signatures are always valid.
    pub fn spend_outputs(&self, utxo_keys: &Vec<String>, outputs: Vec<TxOutput>) -> (tx: Result<Transaction, WalletError>)
        requires
            forall|k: int| 0 <= k < utxo_keys@.len() ==> has_colon(#[trigger] utxo_keys@[k]@),
        ensures
            tx matches Ok(t) && {
                let inputs = utxo_keys@.map_values(|key: String| input_for_key(key@, self@.public_key));
                let unsigned = crate::transaction::TransactionView { inputs, ..t@ };
                &&& t@.outputs == crate::transaction::outputs_view(outputs@)
                &&& t@.inputs == with_signature(
                    inputs,
                    hex_text(ed25519_signature_of(self@.secret_key, signing_bytes(unsigned))),
                )
                &&& t@.id == tx_hash_text(t@)
                &&& signing_bytes(t@) == signing_bytes(unsigned)
                &&& forall|i: int| 0 <= i < t@.inputs.len() ==> #[trigger] t@.inputs[i].signature
                    == hex_text(ed25519_signature_of(self@.secret_key, signing_bytes(t@)))
                &&& signatures_valid(t@)
            },
    {
        proof {
            use_type_invariant(self);
        }
        let mut inputs: Vec<TxInput> = Vec::new();
        let ghost target = utxo_keys@.map_values(|key: String| input_for_key(key@, self@.public_key));
        for k in 0..utxo_keys.len()
            invariant
                self.wf(),
                target == utxo_keys@.map_values(|key: String| input_for_key(key@, self@.public_key)),
                forall|j: int| 0 <= j < utxo_keys@.len() ==> has_colon(#[trigger] utxo_keys@[j]@),
                inputs_view(inputs@) == target.subrange(0, k as int),
        {
            assert(has_colon(utxo_keys@[k as int]@));
            let input = self.input_for_utxo(utxo_keys[k].as_str());
            let ghost prev = inputs_view(inputs@);
            inputs.push(input);
            assert(inputs_view(inputs@) =~= prev.push(input@));
            assert(inputs_view(inputs@) =~= target.subrange(0, k + 1));
        }
        assert(target.subrange(0, utxo_keys@.len() as int) =~= target);
        assert(inputs_view(inputs@) == target);
        assert forall|i: int| 0 <= i < inputs@.len() implies #[trigger] inputs@[i].pub_key@ == hex_text(self@.public_key) by {
            assert(inputs_view(inputs@)[i] == inputs@[i]@);
        }
        self.build_signed_transaction(inputs, outputs)
    }

    /// The wallet's address.
    pub fn get_address(&self) -> (address: &str)
        ensures
            address@ == self@.address,
            address@ == address_of(self@.public_key),
            address@.len() == 67,
    {
        proof {
            use_type_invariant(self);
        }
        self.address.as_str()
    }

    /// The secret key in hexadecimal.
    pub fn export_private_key(&self) -> (text: String)
        ensures
            text@ == hex_text(self@.secret_key),
    {
        hex_encode(&self.secret_key)
    }

    /// The public key in hexadecimal.
    pub fn get_public_key_hex(&self) -> (text: String)
        ensures
            text@ == hex_text(self@.public_key),
    {
        hex_encode(&self.pub_key)
    }

    /// Checks an Ed25519 signature with `ed25519_dalek`: `VerifyingKey::try_from`
    /// on the key bytes, `Signature::try_from` on the signature bytes, then
    /// `verify`. Trusted: the answer is `ed25519_accepts` of the three byte
    /// strings, and it is false where the key is not 32 bytes or the signature
    /// not 64 bytes (the two conversions check those lengths).
    #[verifier::external_body]
    pub fn verify_signature(public_key_bytes: &[u8], message: &[u8], signature_bytes: &[u8]) -> (valid: bool)
        ensures
            valid == ed25519_accepts(public_key_bytes@, message@, signature_bytes@),
            public_key_bytes@.len() != 32 ==> !valid,
            signature_bytes@.len() != 64 ==> !valid,
    {
        let pub_key = match ed25519_dalek::VerifyingKey::try_from(public_key_bytes) {
            Ok(pk) => pk,
            Err(_) => return false,
        };
        let signature = match ed25519_dalek::Signature::try_from(signature_bytes) {
            Ok(sig) => sig,
            Err(_) => return false,
        };
        pub_key.verify(message, &signature).is_ok()
    }
}

/// Restoring a wallet from its exported key gives the same wallet: the
/// exported text decodes to the 32-byte secret key, and a well-formed wallet
/// with that secret key has the same public key and address.
pub proof fn lemma_exported_key_restores(wallet: Wallet, restored: Wallet)
    requires
        wallet.wf(),
    ensures
        hex_bytes(utf8(hex_text(wallet@.secret_key))) == Some(wallet@.secret_key),
        wallet@.secret_key.len() == 32,
        restored.wf() && restored@.secret_key == wallet@.secret_key ==> restored@ == wallet@,
{
    lemma_hex_roundtrip(wallet@.secret_key);
}

proof fn lemma_colon_found(s: Seq<char>, from: int, w: int)
    requires
        0 <= from <= w < s.len(),
        s[w] == ':',
    ensures
        from <= colon_from(s, from) <= w,
        colon_from(s, from) < s.len(),
    decreases w - from,
{
    if s[from] != ':' {
        lemma_colon_found(s, from + 1, w);
    }
}

proof fn lemma_colon_skip(s: Seq<char>, from: int, to: int)
    requires
        0 <= from <= to <= s.len(),
        forall|k: int| from <= k < to ==> s[k] != ':',
    ensures
        colon_from(s, from) == colon_from(s, to),
    decreases to - from,
{
    if from < to {
        lemma_colon_skip(s, from + 1, to);
    }
}

/// A wallet that spends the output filed under `tx_id:index` names that
/// transaction and index in its input, whenever the id holds no colon (as
/// the hexadecimal ids of transactions never do).
pub proof fn lemma_input_names_filed_output(tx_id: Seq<char>, index: u32, public_key: Seq<u8>)
    requires
        forall|k: int| 0 <= k < tx_id.len() ==> tx_id[k] != ':',
    ensures
        input_for_key(utxo_key(tx_id, index as nat), public_key).tx_id == tx_id,
        input_for_key(utxo_key(tx_id, index as nat), public_key).output_index == index,
{
    let key = utxo_key(tx_id, index as nat);
    let p = tx_id.len() as int;
    lemma_decimal_text_value(index as nat);
    assert forall|k: int| 0 <= k < p implies key[k] != ':' by {
        assert(key[k] == tx_id[k]);
    }
    lemma_colon_skip(key, 0, p);
    assert(key[p] == ':');
    assert forall|k: int| p + 1 <= k < key.len() implies key[k] != ':' by {
        assert(key[k] == decimal_text(index as nat)[k - p - 1]);
        assert(is_digit(decimal_text(index as nat)[k - p - 1]));
    }
    lemma_colon_skip(key, p + 1, key.len() as int);
    assert(key.subrange(0, p) =~= tx_id);
    assert(key.subrange(p + 1, key.len() as int) =~= decimal_text(index as nat));
    lemma_parse_decimal_roundtrip(index);
}

} // verus!
