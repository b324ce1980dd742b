use zarza::transaction::{Transaction, TxInput, TxOutput};

const SECRET: &str = "9d61b19deffd5a60ba844af492ec2cc44449c5697b326919703bac031cae7f60";
const PUBLIC: &str = "d75a980182b10ab7d54bfed3c964073a0ee172f3daa62325af021a68f707511a";
const ADDRESS: &str = "ZRZ21fe31dfa154a261626bf854046fd2271b7bed4b6abe45aa58877ef47f9721b9";
const SIGNATURE: &str = "bf24bbfd898176153019858fc1a238d1c4d5e8f56458b5b81fce06e5d1b3eadf5a5d67de02c484521a4d1b249863477ae71ff955074abc03dd93004fad1a9e0b";

fn id_from_inner_digest(inner_hex: &str) -> String {
    let inner = hex::decode(inner_hex).unwrap();
    hex::encode(blake3::hash(&inner).as_bytes())
}

fn spending_tx() -> Transaction {
    let input = TxInput {
        tx_id: "ab".repeat(32),
        output_index: 0,
        signature: String::new(),
        pub_key: PUBLIC.to_string(),
    };
    let outputs = vec![
        TxOutput { address: "ZRZdest".to_string(), amount_bits: 20.0f64.to_bits() },
        TxOutput { address: ADDRESS.to_string(), amount_bits: 29.5f64.to_bits() },
    ];
    Transaction::new_at(vec![input], outputs, 1700000100)
}

#[test]
fn coinbase_has_no_inputs_and_one_output() {
    let tx = Transaction::new_coinbase_at("ZRZabc", 50.0f64.to_bits(), 1700000000);
    assert!(tx.inputs.is_empty());
    assert_eq!(tx.outputs.len(), 1);
    assert_eq!(tx.outputs[0].address, "ZRZabc");
    assert_eq!(tx.outputs[0].amount_bits, 50.0f64.to_bits());
    assert_eq!(tx.timestamp, 1700000000);
    assert!(tx.is_coinbase());
    assert!(tx.verify_signature());
}

#[test]
fn coinbase_bytes_and_id_match_known_values() {
    let tx = Transaction::new_coinbase_at("ZRZabc", 50.0f64.to_bits(), 1700000000);
    let expected_bytes = hex::decode("00f15365000000005a525a6162630000000000004940").unwrap();
    assert_eq!(tx.to_bytes_for_signing(), expected_bytes);
    assert_eq!(tx.to_bytes(), expected_bytes);
    let expected_id = id_from_inner_digest("f3bbc8f7f5c98137356a10335f1a21c3c98a321e719f246730068b5abf98a3ca");
    assert_eq!(tx.id, expected_id);
    assert_eq!(tx.calculate_hash(), expected_id);
}

#[test]
fn coinbase_stamped_now_has_an_id_of_its_own_bytes() {
    let tx = Transaction::new_coinbase("ZRZabc", 1);
    assert_eq!(tx.id, tx.calculate_hash());
    assert_eq!(tx.id.len(), 64);
}

#[test]
fn signing_bytes_leave_out_signatures_and_keys() {
    let mut tx = spending_tx();
    let expected = hex::decode("64f153650000000061626162616261626162616261626162616261626162616261626162616261626162616261626162616261626162616261626162616261626162616261626162000000005a525a6465737400000000000034405a525a323166653331646661313534613236313632366266383534303436666432323731623762656434623661626534356161353838373765663437663937323162390000000000803d40").unwrap();
    assert_eq!(tx.to_bytes_for_signing(), expected);
    let mut full = expected.clone();
    full.extend_from_slice(PUBLIC.as_bytes());
    assert_eq!(tx.to_bytes(), full);
    tx.inputs[0].signature = "00ff".to_string();
    assert_eq!(tx.to_bytes_for_signing(), expected);
    let mut with_sig = expected.clone();
    with_sig.extend_from_slice(b"00ff");
    with_sig.extend_from_slice(PUBLIC.as_bytes());
    assert_eq!(tx.to_bytes(), with_sig);
}

#[test]
fn transaction_id_is_the_hash_of_the_unsigned_encoding() {
    let tx = spending_tx();
    assert_eq!(tx.id, id_from_inner_digest("e918875394f8f611df599a534dec046579bda7c3d688c01db342136166d0aec9"));
    assert!(!tx.is_coinbase());
}

#[test]
fn a_correctly_signed_transaction_verifies() {
    let mut tx = spending_tx();
    tx.inputs[0].signature = SIGNATURE.to_string();
    assert!(tx.verify_signature());
    assert_eq!(tx.calculate_hash(), id_from_inner_digest("f37d09ea93fa8b34d938ff8eb2bcaa0ec85e9197f2ba77e37ac2f71e2e39701f"));
}

#[test]
fn an_unsigned_or_tampered_transaction_does_not_verify() {
    let mut tx = spending_tx();
    assert!(!tx.verify_signature());
    tx.inputs[0].signature = SIGNATURE.to_string();
    tx.outputs[0].amount_bits = 21.0f64.to_bits();
    assert!(!tx.verify_signature());
}

#[test]
fn malformed_key_or_signature_text_does_not_verify() {
    let mut tx = spending_tx();
    tx.inputs[0].signature = "zz".repeat(64);
    assert!(!tx.verify_signature());
    tx.inputs[0].signature = SIGNATURE.to_string();
    tx.inputs[0].pub_key = PUBLIC[..63].to_string();
    assert!(!tx.verify_signature());
    tx.inputs[0].pub_key = PUBLIC[..62].to_string();
    assert!(!tx.verify_signature());
}

#[test]
fn every_input_must_carry_a_valid_signature() {
    let mut tx = spending_tx();
    tx.inputs[0].signature = SIGNATURE.to_string();
    let mut second = tx.inputs[0].clone();
    second.output_index = 1;
    second.signature = SIGNATURE.to_string();
    let mut two = Transaction::new_at(vec![tx.inputs[0].clone(), second], tx.outputs.clone(), tx.timestamp);
    assert!(!two.verify_signature());
    two.inputs[1].signature = String::new();
    assert!(!two.verify_signature());
}

#[test]
fn secret_key_constant_is_the_wallet_key_of_these_vectors() {
    let wallet = zarza::wallet::Wallet::from_private_key(SECRET).unwrap();
    assert_eq!(wallet.get_public_key_hex(), PUBLIC);
    assert_eq!(wallet.get_address(), ADDRESS);
}

#[test]
fn duplicated_transaction_is_identical() {
    let mut tx = spending_tx();
    tx.inputs[0].signature = SIGNATURE.to_string();
    let copy = tx.duplicate();
    assert_eq!(copy.id, tx.id);
    assert_eq!(copy.to_bytes(), tx.to_bytes());
    assert_eq!(copy.timestamp, tx.timestamp);
}
