use dissonance::store::PeerInfo;
use dissonance::store::PeerStore;

fn peer(tag: u8) -> Vec<u8> {
    vec![tag; 8]
}

fn addr(tag: u8) -> Vec<u8> {
    format!("/ip4/10.0.0.{}/tcp/4001", tag).into_bytes()
}

#[test]
fn test_get_or_create_defaults() {
    let mut store = PeerStore::new();
    let info = store.get_or_create(&peer(1), 100);
    assert_eq!(info.last_seen, 100);
    assert!(info.addresses.is_empty());
    assert!(info.agent_version.is_none());
    assert!(info.protocols.is_empty());
    assert!(!store.is_peer_trusted(&peer(1), 101));
    // Getting again returns the existing record, untouched.
    let again = store.get_or_create(&peer(1), 999);
    assert_eq!(again.last_seen, 100);
    assert_eq!(store.list_peers().len(), 1);
}

#[test]
fn test_address_deduplication() {
    let mut store = PeerStore::new();
    store.add_peer_address(&peer(1), addr(1), 10);
    assert_eq!(store.get_or_create(&peer(1), 11).addresses.len(), 1);
    // The same address again leaves the count unchanged.
    store.add_peer_address(&peer(1), addr(1), 12);
    assert_eq!(store.get_or_create(&peer(1), 13).addresses.len(), 1);
    // A different address increases the count by one.
    store.add_peer_address(&peer(1), addr(2), 14);
    let info = store.get_or_create(&peer(1), 15);
    assert_eq!(info.addresses.len(), 2);
    assert_eq!(info.addresses[0], addr(1));
    assert_eq!(info.addresses[1], addr(2));
}

#[test]
fn test_freshness_refresh() {
    let mut store = PeerStore::new();
    store.add_peer_address(&peer(1), addr(1), 50);
    let before = store.get_or_create(&peer(1), 50).last_seen;
    store.add_peer_address(&peer(1), addr(1), 80);
    let after_address = store.get_or_create(&peer(1), 80).last_seen;
    assert!(after_address >= before);
    assert_eq!(after_address, 80);
    store.add_peer_identity(&peer(1), "agent/1".to_string(), vec![], 90);
    let after_identity = store.get_or_create(&peer(1), 90).last_seen;
    assert!(after_identity >= after_address);
    assert_eq!(after_identity, 90);
}

#[test]
fn test_freshness_survives_backward_clock() {
    let mut store = PeerStore::new();
    store.add_peer_address(&peer(1), addr(1), 80);
    // A clock step backwards never lowers the last-seen time.
    store.add_peer_address(&peer(1), addr(2), 60);
    assert_eq!(store.get_or_create(&peer(1), 60).last_seen, 80);
    store.add_peer_identity(&peer(1), "agent/1".to_string(), vec![], 55);
    assert_eq!(store.get_or_create(&peer(1), 55).last_seen, 80);
}

#[test]
fn test_add_peer_identity_overwrites() {
    let mut store = PeerStore::new();
    store.add_peer_identity(
        &peer(1),
        "agent/1".to_string(),
        vec!["/proto/1".to_string()],
        10,
    );
    store.add_peer_identity(
        &peer(1),
        "agent/2".to_string(),
        vec!["/proto/2".to_string(), "/proto/3".to_string()],
        20,
    );
    let info = store.get_or_create(&peer(1), 21);
    assert_eq!(info.agent_version, Some("agent/2".to_string()));
    assert_eq!(info.protocols, vec!["/proto/2".to_string(), "/proto/3".to_string()]);
    assert_eq!(store.list_peers().len(), 1);
}

#[test]
fn test_pruning_boundary() {
    let max_age: u64 = 1000;
    let now: u64 = 5000;

    // One unit older than the maximum age: removed.
    let mut store = PeerStore::new();
    store.insert_peer_info(peer(1), PeerInfo::new(now - max_age - 1));
    store.prune_stale(max_age, now);
    assert_eq!(store.list_peers().len(), 0);

    // Age exactly the maximum: survives (only an age that exceeds it is stale).
    let mut store = PeerStore::new();
    store.insert_peer_info(peer(1), PeerInfo::new(now - max_age));
    store.prune_stale(max_age, now);
    assert_eq!(store.list_peers().len(), 1);

    // One unit younger: survives.
    let mut store = PeerStore::new();
    store.insert_peer_info(peer(1), PeerInfo::new(now - max_age + 1));
    store.prune_stale(max_age, now);
    assert_eq!(store.list_peers().len(), 1);
    assert_eq!(store.list_peers()[0].0, peer(1));
}

#[test]
fn test_clock_skew_fail_safe() {
    let mut store = PeerStore::new();
    // Last seen in the future relative to now: removed, not kept indefinitely.
    store.insert_peer_info(peer(1), PeerInfo::new(9000));
    store.insert_peer_info(peer(2), PeerInfo::new(4999));
    store.prune_stale(1000, 5000);
    let remaining = store.list_peers();
    assert_eq!(remaining.len(), 1);
    assert_eq!(remaining[0].0, peer(2));
}

#[test]
fn test_prune_mixed_population() {
    let mut store = PeerStore::new();
    store.insert_peer_info(peer(1), PeerInfo::new(100));
    store.insert_peer_info(peer(2), PeerInfo::new(4500));
    store.insert_peer_info(peer(3), PeerInfo::new(4999));
    store.insert_peer_info(peer(4), PeerInfo::new(3999));
    store.prune_stale(1000, 5000);
    let mut keys: Vec<Vec<u8>> = store.list_peers().into_iter().map(|e| e.0).collect();
    keys.sort();
    assert_eq!(keys, vec![peer(2), peer(3)]);
}

#[test]
fn test_insert_peer_info_replaces() {
    let mut store = PeerStore::new();
    let mut info = PeerInfo::new(10);
    info.add_address(addr(1), 10);
    store.insert_peer_info(peer(1), info);
    assert_eq!(store.get_or_create(&peer(1), 11).addresses.len(), 1);
    store.insert_peer_info(peer(1), PeerInfo::new(20));
    let replaced = store.get_or_create(&peer(1), 21);
    assert_eq!(replaced.addresses.len(), 0);
    assert_eq!(replaced.last_seen, 20);
    assert_eq!(store.list_peers().len(), 1);
}

#[test]
fn test_list_peers_snapshot() {
    let mut store = PeerStore::new();
    store.add_peer_address(&peer(1), addr(1), 10);
    store.add_peer_address(&peer(2), addr(2), 20);
    let snapshot = store.list_peers();
    assert_eq!(snapshot.len(), 2);
    // Mutating the store afterwards does not change the snapshot.
    store.add_peer_address(&peer(3), addr(3), 30);
    assert_eq!(snapshot.len(), 2);
    let keys: Vec<&Vec<u8>> = snapshot.iter().map(|e| &e.0).collect();
    assert!(keys.contains(&&peer(1)));
    assert!(keys.contains(&&peer(2)));
}

#[test]
fn test_peer_info_seen_and_trusted() {
    let mut info = PeerInfo::new(5);
    info.seen(17);
    assert_eq!(info.last_seen, 17);
    assert!(!info.trusted());
}
