use zarza::transaction::TxOutput;
use zarza::utxo::UtxoSet;

fn out(address: &str, amount: f64) -> TxOutput {
    TxOutput { address: address.to_string(), amount_bits: amount.to_bits() }
}

#[test]
fn new_set_is_empty() {
    let set = UtxoSet::new();
    assert!(set.entries().is_empty());
    assert!(set.get("a:0").is_none());
}

#[test]
fn insert_files_an_output_and_replaces_an_earlier_one() {
    let mut set = UtxoSet::new();
    set.insert("a:0".to_string(), out("x", 1.0));
    set.insert("a:1".to_string(), out("y", 2.0));
    assert_eq!(set.get("a:0").unwrap().address, "x");
    set.insert("a:0".to_string(), out("z", 3.0));
    assert_eq!(set.entries().len(), 2);
    let replaced = set.get("a:0").unwrap();
    assert_eq!(replaced.address, "z");
    assert_eq!(replaced.amount_bits, 3.0f64.to_bits());
}

#[test]
fn remove_drops_only_that_key() {
    let mut set = UtxoSet::new();
    set.insert("a:0".to_string(), out("x", 1.0));
    set.insert("b:0".to_string(), out("y", 2.0));
    set.remove("a:0");
    set.remove("missing");
    assert!(set.get("a:0").is_none());
    assert_eq!(set.get("b:0").unwrap().address, "y");
    assert_eq!(set.entries().len(), 1);
}

#[test]
fn clear_empties_the_set() {
    let mut set = UtxoSet::new();
    set.insert("a:0".to_string(), out("x", 1.0));
    set.clear();
    assert!(set.entries().is_empty());
}

#[test]
fn owned_by_lists_each_output_paying_the_address_once() {
    let mut set = UtxoSet::new();
    set.insert("a:0".to_string(), out("me", 1.0));
    set.insert("a:1".to_string(), out("you", 2.0));
    set.insert("b:0".to_string(), out("me", 4.0));
    set.insert("a:0".to_string(), out("me", 8.0));
    let mut owned: Vec<(String, u64)> = set.owned_by("me").into_iter().map(|(k, o)| (k, o.amount_bits)).collect();
    owned.sort();
    assert_eq!(owned, vec![("a:0".to_string(), 8.0f64.to_bits()), ("b:0".to_string(), 4.0f64.to_bits())]);
    assert!(set.owned_by("nobody").is_empty());
}

#[test]
fn duplicated_set_has_the_same_entries() {
    let mut set = UtxoSet::new();
    set.insert("a:0".to_string(), out("me", 1.0));
    set.insert("c:2".to_string(), out("you", 2.0));
    let copy = set.duplicate();
    assert_eq!(copy.entries().len(), 2);
    assert_eq!(copy.get("c:2").unwrap().address, "you");
    assert_eq!(copy.get("a:0").unwrap().amount_bits, 1.0f64.to_bits());
}
