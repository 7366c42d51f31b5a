//! Node behaviour: discovery and self-suppression, idempotent handshakes,
//! heartbeat failure detection, local reads and writes, and write fan-out
//! carried across the wire to another node.

use peerkv::client::{render_get_reply, render_set_reply, request_message, ClientCommand};
use peerkv::membership::{HandshakeOutcome, MembershipSet, MISS_LIMIT};
use peerkv::node::{announce_message, Node};
use peerkv::store::KeyValueStore;
use peerkv::wire::{decode_frame, encode_frame, Address, WireMessage};

fn addr(host: &str, port: u16) -> Address {
    Address { host: String::from(host), port }
}

fn handshake(identity: &str, host: &str, port: u16) -> WireMessage {
    WireMessage::Handshake {
        node_identity: String::from(identity),
        reachable_address: addr(host, port),
    }
}

#[test]
fn set_then_get_returns_the_value() {
    let mut store = KeyValueStore::new();
    store.set(String::from("k"), String::from("v"));
    assert_eq!(store.get(&String::from("k")), Some(String::from("v")));
}

#[test]
fn get_of_never_written_key_is_none() {
    let store = KeyValueStore::new();
    assert_eq!(store.get(&String::from("missing")), None);
    let mut written = KeyValueStore::new();
    written.set(String::from("other"), String::from("v"));
    assert_eq!(written.get(&String::from("missing")), None);
}

#[test]
fn later_write_wins_per_key() {
    let mut store = KeyValueStore::new();
    store.set(String::from("k"), String::from("first"));
    store.set(String::from("k"), String::from("second"));
    assert_eq!(store.get(&String::from("k")), Some(String::from("second")));
}

#[test]
fn apply_sync_reads_like_a_local_write() {
    let mut store = KeyValueStore::new();
    store.apply_sync(String::from("k"), String::from("v"));
    assert_eq!(store.get(&String::from("k")), Some(String::from("v")));
}

#[test]
fn own_handshake_is_suppressed() {
    let mut m = MembershipSet::new(String::from("self-id"));
    let outcome = m.on_handshake(String::from("self-id"), addr("10.0.0.1", 9000), 5);
    assert_eq!(outcome, HandshakeOutcome::SelfSuppressed);
    assert_eq!(m.current_peers().len(), 0);
}

#[test]
fn node_ignores_its_own_announcement() {
    let mut n = Node::new(String::from("self-id"));
    let d = n.handle_message(handshake("self-id", "10.0.0.1", 9000), 5);
    assert_eq!(d.reply, None);
    assert_eq!(d.start_heartbeat_for, None);
    assert_eq!(d.fanout.len(), 0);
    assert_eq!(n.membership.current_peers().len(), 0);
}

#[test]
fn repeated_handshake_keeps_one_record() {
    let mut m = MembershipSet::new(String::from("self-id"));
    let first = m.on_handshake(String::from("peer-a"), addr("10.0.0.2", 9000), 5);
    let second = m.on_handshake(String::from("peer-a"), addr("10.0.0.3", 9001), 9);
    assert_eq!(first, HandshakeOutcome::NewPeer);
    assert_eq!(second, HandshakeOutcome::KnownPeer);
    let peers = m.current_peers();
    assert_eq!(peers.len(), 1);
    assert_eq!(peers[0].identity, String::from("peer-a"));
    assert_eq!(peers[0].reachable_address.host, String::from("10.0.0.3"));
    assert_eq!(peers[0].reachable_address.port, 9001);
    assert_eq!(peers[0].last_seen, 9);
}

#[test]
fn only_a_new_peer_starts_a_heartbeat_task() {
    let mut n = Node::new(String::from("self-id"));
    let first = n.handle_message(handshake("peer-a", "10.0.0.2", 9000), 1);
    assert_eq!(first.reply, Some(WireMessage::Greeting));
    assert_eq!(first.start_heartbeat_for, Some(String::from("peer-a")));
    let second = n.handle_message(handshake("peer-a", "10.0.0.2", 9000), 2);
    assert_eq!(second.reply, Some(WireMessage::Greeting));
    assert_eq!(second.start_heartbeat_for, None);
    assert_eq!(n.membership.current_peers().len(), 1);
}

#[test]
fn snapshot_is_ordered_by_identity() {
    let mut m = MembershipSet::new(String::from("self-id"));
    m.on_handshake(String::from("bb"), addr("10.0.0.3", 9000), 1);
    m.on_handshake(String::from("aa"), addr("10.0.0.2", 9000), 2);
    m.on_handshake(String::from("cc"), addr("10.0.0.4", 9000), 3);
    let peers = m.current_peers();
    let names: Vec<String> = peers.iter().map(|p| p.identity.clone()).collect();
    assert_eq!(names, vec![String::from("aa"), String::from("bb"), String::from("cc")]);
}

#[test]
fn peer_is_evicted_after_consecutive_misses() {
    let mut m = MembershipSet::new(String::from("self-id"));
    m.on_handshake(String::from("peer-a"), addr("10.0.0.2", 9000), 1);
    let id = String::from("peer-a");
    for k in 0..MISS_LIMIT {
        let evicted = m.on_heartbeat_miss(&id);
        assert_eq!(evicted, k + 1 == MISS_LIMIT);
    }
    assert_eq!(m.current_peers().len(), 0);
}

#[test]
fn responsive_peer_stays_present() {
    let mut m = MembershipSet::new(String::from("self-id"));
    m.on_handshake(String::from("peer-a"), addr("10.0.0.2", 9000), 1);
    let id = String::from("peer-a");
    for round in 0..4u64 {
        assert!(!m.on_heartbeat_miss(&id));
        assert!(!m.on_heartbeat_miss(&id));
        m.on_heartbeat_ack(&id, 10 + round);
        assert_eq!(m.current_peers().len(), 1);
    }
    let peers = m.current_peers();
    assert_eq!(peers[0].missed_heartbeats, 0);
    assert_eq!(peers[0].last_seen, 13);
}

#[test]
fn ack_for_evicted_peer_changes_nothing() {
    let mut m = MembershipSet::new(String::from("self-id"));
    let id = String::from("ghost");
    m.on_heartbeat_ack(&id, 7);
    assert!(!m.on_heartbeat_miss(&id));
    assert_eq!(m.current_peers().len(), 0);
}

#[test]
fn heartbeat_is_acknowledged() {
    let mut n = Node::new(String::from("self-id"));
    let d = n.handle_message(WireMessage::Heartbeat, 1);
    assert_eq!(d.reply, Some(WireMessage::HeartbeatAck));
    assert_eq!(d.fanout.len(), 0);
}

#[test]
fn local_write_is_acknowledged_and_readable_before_fanout() {
    let mut n = Node::new(String::from("self-id"));
    n.handle_message(handshake("peer-a", "10.0.0.2", 9000), 1);
    let d = n.handle_message(
        WireMessage::SetValue { key: String::from("k"), value: String::from("v") },
        2,
    );
    assert_eq!(
        d.reply,
        Some(WireMessage::ValueResponse { value: Some(String::from("Value set successfully.")) })
    );
    assert_eq!(n.store.get(&String::from("k")), Some(String::from("v")));
    assert_eq!(d.fanout.len(), 1);
}

#[test]
fn read_request_answers_from_the_local_map() {
    let mut n = Node::new(String::from("self-id"));
    n.handle_message(WireMessage::SetValue { key: String::from("k"), value: String::from("v") }, 1);
    let hit = n.handle_message(WireMessage::GetValue { key: String::from("k") }, 2);
    assert_eq!(hit.reply, Some(WireMessage::ValueResponse { value: Some(String::from("v")) }));
    let miss = n.handle_message(WireMessage::GetValue { key: String::from("absent") }, 3);
    assert_eq!(miss.reply, Some(WireMessage::ValueResponse { value: None }));
}

#[test]
fn write_propagates_to_a_peer_across_the_wire() {
    let mut a = Node::new(String::from("node-a"));
    let mut b = Node::new(String::from("node-b"));
    a.handle_message(handshake("node-b", "10.0.0.3", 9000), 1);
    let d = a.handle_message(
        WireMessage::SetValue { key: String::from("k"), value: String::from("v") },
        2,
    );
    assert_eq!(d.fanout.len(), 1);
    assert_eq!(d.fanout[0].address.host, String::from("10.0.0.3"));
    let frame = encode_frame(&d.fanout[0].message).unwrap();
    let (delivered, _) = decode_frame(&frame).unwrap();
    let at_b = b.handle_message(delivered, 3);
    assert_eq!(at_b.reply, None);
    assert_eq!(at_b.fanout.len(), 0);
    assert_eq!(b.store.get(&String::from("k")), Some(String::from("v")));
}

#[test]
fn sync_is_not_propagated_again() {
    let mut b = Node::new(String::from("node-b"));
    b.handle_message(handshake("node-c", "10.0.0.4", 9000), 1);
    let d = b.handle_message(
        WireMessage::Sync { key: String::from("k"), value: String::from("v") },
        2,
    );
    assert_eq!(d.fanout.len(), 0);
    assert_eq!(d.reply, None);
    assert_eq!(b.store.get(&String::from("k")), Some(String::from("v")));
}

#[test]
fn unreachable_peer_does_not_spoil_the_write_or_the_others() {
    let mut a = Node::new(String::from("node-a"));
    let mut c = Node::new(String::from("node-c"));
    a.handle_message(handshake("node-b", "10.0.0.3", 9000), 1);
    a.handle_message(handshake("node-c", "10.0.0.4", 9000), 2);
    let d = a.handle_message(
        WireMessage::SetValue { key: String::from("k"), value: String::from("v") },
        3,
    );
    assert_eq!(
        d.reply,
        Some(WireMessage::ValueResponse { value: Some(String::from("Value set successfully.")) })
    );
    assert_eq!(d.fanout.len(), 2);
    assert_eq!(a.store.get(&String::from("k")), Some(String::from("v")));
    for send in &d.fanout {
        if send.address.host == String::from("10.0.0.4") {
            let frame = encode_frame(&send.message).unwrap();
            let (delivered, _) = decode_frame(&frame).unwrap();
            c.handle_message(delivered, 4);
        }
    }
    assert_eq!(c.store.get(&String::from("k")), Some(String::from("v")));
}

#[test]
fn announcement_carries_identity_and_address() {
    let m = announce_message(&String::from("node-a"), &addr("10.0.0.2", 9000));
    assert_eq!(m, handshake("node-a", "10.0.0.2", 9000));
}

#[test]
fn client_requests_match_their_commands() {
    let set = request_message(ClientCommand::SetValue {
        key: String::from("k"),
        value: String::from("v"),
    });
    assert_eq!(set, WireMessage::SetValue { key: String::from("k"), value: String::from("v") });
    let get = request_message(ClientCommand::GetValue { key: String::from("k") });
    assert_eq!(get, WireMessage::GetValue { key: String::from("k") });
}

#[test]
fn client_renders_each_kind_of_reply() {
    let with_value = WireMessage::ValueResponse { value: Some(String::from("teal")) };
    let without = WireMessage::ValueResponse { value: None };
    let stray = WireMessage::Greeting;
    assert_eq!(render_get_reply(&with_value), String::from("teal"));
    assert_eq!(render_get_reply(&without), String::from("Key not found."));
    assert_eq!(render_get_reply(&stray), String::from("Unexpected response from node."));
    assert_eq!(render_set_reply(&with_value), String::from("teal"));
    assert_eq!(render_set_reply(&without), String::from("Unexpected response from node."));
}
