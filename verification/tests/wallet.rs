use ed25519_dalek::{Signer, SigningKey};
use zarza::codec::utxo_key_of;
use zarza::transaction::{Transaction, TxInput, TxOutput};
use zarza::wallet::{Wallet, WalletError};

const SECRET: &str = "9d61b19deffd5a60ba844af492ec2cc44449c5697b326919703bac031cae7f60";
const PUBLIC: &str = "d75a980182b10ab7d54bfed3c964073a0ee172f3daa62325af021a68f707511a";
const ADDRESS: &str = "ZRZ21fe31dfa154a261626bf854046fd2271b7bed4b6abe45aa58877ef47f9721b9";
const EMPTY_MESSAGE_SIGNATURE: &str = "e5564300c360ac729086e2cc806e828a84877f1eb8e5d974d873e065224901555fb8821590a33bacc61e39701cf9b46bd25bf5f0595bbe24655141438e7a100b";

#[test]
fn wallet_from_known_key_has_its_public_key_and_address() {
    let wallet = Wallet::from_private_key(SECRET).unwrap();
    assert_eq!(wallet.get_public_key_hex(), PUBLIC);
    assert_eq!(wallet.get_address(), ADDRESS);
    assert_eq!(wallet.export_private_key(), SECRET);
}

#[test]
fn uppercase_key_text_gives_the_same_wallet() {
    let wallet = Wallet::from_private_key(&SECRET.to_uppercase()).unwrap();
    assert_eq!(wallet.get_address(), ADDRESS);
    assert_eq!(wallet.export_private_key(), SECRET);
}

#[test]
fn malformed_private_keys_are_refused() {
    for text in ["", "zz", "abc", &SECRET[..62], &format!("{SECRET}00"), &SECRET.replace('9', "g")] {
        assert!(matches!(Wallet::from_private_key(text), Err(WalletError::InvalidPrivateKey)), "{text:?}");
    }
}

#[test]
fn exported_key_restores_the_same_wallet() {
    let wallet = Wallet::new().unwrap();
    let restored = Wallet::from_private_key(&wallet.export_private_key()).unwrap();
    assert_eq!(restored.get_address(), wallet.get_address());
    assert_eq!(restored.get_public_key_hex(), wallet.get_public_key_hex());
}

#[test]
fn new_wallet_address_is_zrz_and_a_sha256_in_hex() {
    let wallet = Wallet::new().unwrap();
    let address = wallet.get_address();
    assert!(address.starts_with("ZRZ"));
    assert_eq!(address.len(), 67);
    assert!(address[3..].chars().all(|c| c.is_ascii_hexdigit() && !c.is_ascii_uppercase()));
    assert_eq!(wallet.export_private_key().len(), 64);
}

#[test]
fn verify_signature_accepts_the_rfc8032_signature() {
    let public = hex::decode(PUBLIC).unwrap();
    let signature = hex::decode(EMPTY_MESSAGE_SIGNATURE).unwrap();
    assert!(Wallet::verify_signature(&public, b"", &signature));
    assert!(!Wallet::verify_signature(&public, b"x", &signature));
    assert!(!Wallet::verify_signature(&public[..31], b"", &signature));
    assert!(!Wallet::verify_signature(&public, b"", &signature[..63]));
}

#[test]
fn input_for_utxo_splits_the_key_at_colons() {
    let wallet = Wallet::from_private_key(SECRET).unwrap();
    let input = wallet.input_for_utxo("abc:5");
    assert_eq!(input.tx_id, "abc");
    assert_eq!(input.output_index, 5);
    assert_eq!(input.signature, "");
    assert_eq!(input.pub_key, PUBLIC);
    let odd = wallet.input_for_utxo("abc:x");
    assert_eq!(odd.tx_id, "abc");
    assert_eq!(odd.output_index, 0);
    let extra = wallet.input_for_utxo("a:1:2");
    assert_eq!(extra.tx_id, "a");
    assert_eq!(extra.output_index, 1);
    let empty_index = wallet.input_for_utxo("a:");
    assert_eq!(empty_index.output_index, 0);
    let too_big = wallet.input_for_utxo("a:4294967296");
    assert_eq!(too_big.output_index, 0);
}

#[test]
fn input_for_utxo_names_the_output_filed_under_its_key() {
    let wallet = Wallet::from_private_key(SECRET).unwrap();
    let id = "ab".repeat(32);
    for index in [0u32, 1, 9, 10, 4294967295] {
        let key = utxo_key_of(&id, index as u64);
        let input = wallet.input_for_utxo(&key);
        assert_eq!(input.tx_id, id);
        assert_eq!(input.output_index, index);
    }
}

#[test]
fn signing_sets_every_input_signature_and_keeps_the_signed_bytes() {
    let wallet = Wallet::from_private_key(SECRET).unwrap();
    let inputs = vec![wallet.input_for_utxo("aa:0"), wallet.input_for_utxo("bb:3")];
    let outputs = vec![TxOutput { address: "ZRZdest".to_string(), amount_bits: 1.5f64.to_bits() }];
    let mut tx = Transaction::new_at(inputs, outputs, 1700000200);
    let before = tx.to_bytes_for_signing();
    let id = tx.id.clone();
    wallet.sign_transaction(&mut tx).unwrap();
    assert_eq!(tx.to_bytes_for_signing(), before);
    assert_eq!(tx.id, id);
    assert_eq!(tx.inputs[0].signature, tx.inputs[1].signature);
    assert_eq!(tx.inputs[0].signature.len(), 128);
    assert!(tx.verify_signature());
}

#[test]
fn built_transaction_is_signed_and_verifies() {
    let wallet = Wallet::from_private_key(SECRET).unwrap();
    let inputs = vec![wallet.input_for_utxo("cc:1")];
    let outputs = vec![
        TxOutput { address: "ZRZdest".to_string(), amount_bits: 3.0f64.to_bits() },
        TxOutput { address: ADDRESS.to_string(), amount_bits: 0.5f64.to_bits() },
    ];
    let tx = wallet.build_signed_transaction(inputs, outputs).unwrap();
    assert!(tx.verify_signature());
    assert_eq!(tx.outputs.len(), 2);
    assert_eq!(tx.inputs[0].tx_id, "cc");
    assert_eq!(tx.id, tx.calculate_hash());
    let mut unsigned = tx.clone();
    unsigned.inputs[0].signature = String::new();
    assert_ne!(tx.id, unsigned.calculate_hash());
}

#[test]
fn a_foreign_public_key_in_an_input_does_not_verify() {
    let wallet = Wallet::from_private_key(SECRET).unwrap();
    let other = Wallet::new().unwrap();
    let input = TxInput {
        tx_id: "dd".to_string(),
        output_index: 0,
        signature: String::new(),
        pub_key: other.get_public_key_hex(),
    };
    let tx = wallet
        .build_signed_transaction(vec![input], vec![TxOutput { address: "x".to_string(), amount_bits: 0 }])
        .unwrap();
    assert!(!tx.verify_signature());
}

#[test]
fn signing_gives_the_deterministic_ed25519_signature() {
    let wallet = Wallet::from_private_key(SECRET).unwrap();
    let input = TxInput { tx_id: "ab".repeat(32), output_index: 0, signature: String::new(), pub_key: PUBLIC.to_string() };
    let outputs = vec![
        TxOutput { address: "ZRZdest".to_string(), amount_bits: 20.0f64.to_bits() },
        TxOutput { address: ADDRESS.to_string(), amount_bits: 29.5f64.to_bits() },
    ];
    let mut tx = Transaction::new_at(vec![input], outputs, 1700000100);
    wallet.sign_transaction(&mut tx).unwrap();
    assert_eq!(
        tx.inputs[0].signature,
        "bf24bbfd898176153019858fc1a238d1c4d5e8f56458b5b81fce06e5d1b3eadf5a5d67de02c484521a4d1b249863477ae71ff955074abc03dd93004fad1a9e0b"
    );
}

#[test]
fn spending_outputs_builds_one_signed_input_per_key() {
    let wallet = Wallet::from_private_key(SECRET).unwrap();
    let keys = vec![utxo_key_of(&"aa".to_string(), 0), "bb:7".to_string(), "cc:x".to_string()];
    let outputs = vec![TxOutput { address: "ZRZdest".to_string(), amount_bits: 2.0f64.to_bits() }];
    let tx = wallet.spend_outputs(&keys, outputs).unwrap();
    assert_eq!(tx.inputs.len(), 3);
    assert_eq!((tx.inputs[0].tx_id.as_str(), tx.inputs[0].output_index), ("aa", 0));
    assert_eq!((tx.inputs[1].tx_id.as_str(), tx.inputs[1].output_index), ("bb", 7));
    assert_eq!((tx.inputs[2].tx_id.as_str(), tx.inputs[2].output_index), ("cc", 0));
    assert!(tx.inputs.iter().all(|i| i.pub_key == PUBLIC));
    assert!(tx.verify_signature());
    assert_eq!(tx.id, tx.calculate_hash());
    assert_eq!(tx.outputs[0].address, "ZRZdest");
}

#[test]
fn restored_wallet_address_has_sixty_seven_characters() {
    let wallet = Wallet::from_private_key(SECRET).unwrap();
    assert_eq!(wallet.get_address().len(), 67);
    assert_eq!(wallet.get_address().len(), ADDRESS.len());
}

#[test]
fn every_input_signs_the_transactions_signed_bytes() {
    let wallet = Wallet::from_private_key(SECRET).unwrap();
    let keys = vec!["aa:1".to_string(), "bb:2".to_string()];
    let tx = wallet
        .spend_outputs(&keys, vec![TxOutput { address: "ZRZdest".to_string(), amount_bits: 5 }])
        .unwrap();
    let secret: [u8; 32] = hex::decode(SECRET).unwrap().try_into().unwrap();
    let expected = hex::encode(SigningKey::from_bytes(&secret).sign(&tx.to_bytes_for_signing()).to_bytes());
    assert!(tx.inputs.iter().all(|i| i.signature == expected));
}
