use zarza::network::{chain_height, sync_round, NodeStatus, PeerTable};

fn strings(list: &[&str]) -> Vec<String> {
    list.iter().map(|s| s.to_string()).collect()
}

fn sorted(mut v: Vec<String>) -> Vec<String> {
    v.sort();
    v
}

#[test]
fn chain_height_is_the_last_index() {
    assert_eq!(chain_height(1), 0);
    assert_eq!(chain_height(10), 9);
}

#[test]
fn sync_round_synchronizes_only_when_behind() {
    assert_eq!(sync_round(NodeStatus::Synced, 3, 5), (true, NodeStatus::Synchronizing, false));
    assert_eq!(sync_round(NodeStatus::Synchronizing, 5, 5), (false, NodeStatus::Synced, true));
    assert_eq!(sync_round(NodeStatus::Synced, 7, 5), (false, NodeStatus::Synced, false));
    assert_eq!(sync_round(NodeStatus::Synchronizing, 4, 9), (true, NodeStatus::Synchronizing, false));
}

#[test]
fn new_table_knows_the_seeds_once() {
    let table = PeerTable::new(&strings(&["1.1.1.1:9", "2.2.2.2:9", "1.1.1.1:9"]));
    assert_eq!(sorted(table.known_peers()), strings(&["1.1.1.1:9", "2.2.2.2:9"]));
    assert_eq!(table.find_best_sync_peer(), (None, 0));
}

#[test]
fn learned_peers_exclude_the_node_itself() {
    let mut table = PeerTable::new(&Vec::new());
    table.learn_peers(&strings(&["a:1", "me:1", "b:1", "a:1"]), "me:1");
    assert_eq!(sorted(table.known_peers()), strings(&["a:1", "b:1"]));
    table.learn("me:1".to_string());
    assert_eq!(sorted(table.known_peers()), strings(&["a:1", "b:1", "me:1"]));
}

#[test]
fn peers_to_connect_skip_connected_peers_and_the_node_itself() {
    let mut table = PeerTable::new(&strings(&["a:1", "b:1", "c:1", "me:1"]));
    table.record_height("b:1".to_string(), 4);
    assert_eq!(sorted(table.peers_to_connect("me:1")), strings(&["a:1", "c:1"]));
    table.forget("b:1");
    assert_eq!(sorted(table.peers_to_connect("me:1")), strings(&["a:1", "b:1", "c:1"]));
}

#[test]
fn best_sync_peer_has_the_greatest_reported_height() {
    let mut table = PeerTable::new(&Vec::new());
    table.record_height("a:1".to_string(), 4);
    table.record_height("b:1".to_string(), 9);
    table.record_height("c:1".to_string(), 2);
    assert_eq!(table.find_best_sync_peer(), (Some("b:1".to_string()), 9));
    table.record_height("b:1".to_string(), 1);
    assert_eq!(table.find_best_sync_peer(), (Some("a:1".to_string()), 4));
    table.forget("a:1");
    table.forget("b:1");
    table.forget("c:1");
    assert_eq!(table.find_best_sync_peer(), (None, 0));
}

#[test]
fn synchronization_stops_when_a_peer_sends_no_blocks() {
    assert_eq!(zarza::network::next_sync_height(5, 0), None);
    assert_eq!(zarza::network::next_sync_height(5, 3), Some(8));
}
