use dissonance::behaviour::BootstrapPlanner;
use dissonance::behaviour::DissonanceEvent;
use dissonance::behaviour::IdentifyEvent;
use dissonance::behaviour::KademliaEvent;
use dissonance::behaviour::MdnsEvent;
use dissonance::behaviour::NodeEvent;
use dissonance::dispatch::full_dialable_address;
use dissonance::dispatch::DispatchAction;
use dissonance::dispatch::EventDispatcher;
use dissonance::dispatch::OperatingMode;
use dissonance::store::PeerStore;
use dissonance::BootstrapError;
use dissonance::NodeIdentity;

fn peer(tag: u8) -> Vec<u8> {
    vec![tag; 8]
}

fn addr(tag: u8) -> Vec<u8> {
    format!("/ip4/10.0.0.{}/tcp/4001", tag).into_bytes()
}

fn dispatcher() -> EventDispatcher {
    EventDispatcher::new(PeerStore::new())
}

fn behaviour(ev: DissonanceEvent) -> NodeEvent {
    NodeEvent::Behaviour(ev)
}

#[test]
fn test_dispatch_routing_updated() {
    let mut d = dispatcher();
    let ev = behaviour(DissonanceEvent::Kademlia(KademliaEvent::RoutingUpdated {
        peer: peer(1),
        is_new_peer: true,
        addresses: vec![addr(1), addr(2), addr(1)],
        old_peer: Some(peer(9)),
    }));
    let action = d.handle_event(&ev, 100);
    assert_eq!(action, DispatchAction::RefreshedRoutingAddresses);
    let info = d.store.get_or_create(&peer(1), 101);
    assert_eq!(info.addresses, vec![addr(1), addr(2)]);
    assert_eq!(info.last_seen, 100);
    // The displaced peer's record is left in place (here: never created).
    assert_eq!(d.store.list_peers().len(), 1);
}

#[test]
fn test_dispatch_inbound_request_observes_only() {
    let mut d = dispatcher();
    let ev = behaviour(DissonanceEvent::Kademlia(KademliaEvent::InboundRequest));
    let action = d.handle_event(&ev, 100);
    assert_eq!(action, DispatchAction::ObservedInboundRequest);
    assert_eq!(d.store.list_peers().len(), 0);
}

#[test]
fn test_dispatch_query_progressed_observes_only() {
    let mut d = dispatcher();
    let ev = behaviour(DissonanceEvent::Kademlia(KademliaEvent::OutboundQueryProgressed {
        query_id: 7,
    }));
    let action = d.handle_event(&ev, 100);
    assert_eq!(action, DispatchAction::ObservedQueryProgress);
    assert_eq!(d.store.list_peers().len(), 0);
}

#[test]
fn test_dispatch_unroutable_peer_observes_only() {
    let mut d = dispatcher();
    let ev = behaviour(DissonanceEvent::Kademlia(KademliaEvent::UnroutablePeer {
        peer: peer(1),
    }));
    let action = d.handle_event(&ev, 100);
    assert_eq!(action, DispatchAction::ObservedUnroutablePeer);
    assert_eq!(d.store.list_peers().len(), 0);
}

#[test]
fn test_dispatch_routable_peers_refresh_address_book() {
    let mut d = dispatcher();
    let ev = behaviour(DissonanceEvent::Kademlia(KademliaEvent::RoutablePeer {
        peer: peer(1),
        address: addr(1),
    }));
    assert_eq!(d.handle_event(&ev, 100), DispatchAction::RefreshedRoutablePeer);
    let ev = behaviour(DissonanceEvent::Kademlia(KademliaEvent::PendingRoutablePeer {
        peer: peer(2),
        address: addr(2),
    }));
    assert_eq!(d.handle_event(&ev, 110), DispatchAction::RefreshedPendingPeer);
    assert_eq!(d.store.get_or_create(&peer(1), 111).addresses, vec![addr(1)]);
    assert_eq!(d.store.get_or_create(&peer(2), 111).addresses, vec![addr(2)]);
}

#[test]
fn test_dispatch_mode_changed() {
    let mut d = dispatcher();
    assert_eq!(d.mode, OperatingMode::Unknown);
    let ev = behaviour(DissonanceEvent::Kademlia(KademliaEvent::ModeChanged { server: true }));
    assert_eq!(d.handle_event(&ev, 100), DispatchAction::RecordedModeChange);
    assert_eq!(d.mode, OperatingMode::Server);
    let ev = behaviour(DissonanceEvent::Kademlia(KademliaEvent::ModeChanged { server: false }));
    assert_eq!(d.handle_event(&ev, 110), DispatchAction::RecordedModeChange);
    assert_eq!(d.mode, OperatingMode::Client);
}

#[test]
fn test_dispatch_identify_received() {
    let mut d = dispatcher();
    let ev = behaviour(DissonanceEvent::Identify(IdentifyEvent::Received {
        peer: peer(1),
        agent_version: "agent/1".to_string(),
        protocols: vec!["/proto/1".to_string()],
    }));
    assert_eq!(d.handle_event(&ev, 100), DispatchAction::RecordedIdentity);
    let info = d.store.get_or_create(&peer(1), 101);
    assert_eq!(info.agent_version, Some("agent/1".to_string()));
    assert_eq!(info.protocols, vec!["/proto/1".to_string()]);
}

#[test]
fn test_dispatch_identify_sent_observes_only() {
    let mut d = dispatcher();
    let ev = behaviour(DissonanceEvent::Identify(IdentifyEvent::Sent { peer: peer(1) }));
    assert_eq!(d.handle_event(&ev, 100), DispatchAction::ObservedIdentitySent);
    assert_eq!(d.store.list_peers().len(), 0);
}

#[test]
fn test_dispatch_identify_pushed_refreshes_without_duplicate() {
    let mut d = dispatcher();
    let received = behaviour(DissonanceEvent::Identify(IdentifyEvent::Received {
        peer: peer(1),
        agent_version: "agent/1".to_string(),
        protocols: vec![],
    }));
    d.handle_event(&received, 100);
    let pushed = behaviour(DissonanceEvent::Identify(IdentifyEvent::Pushed {
        peer: peer(1),
        agent_version: "agent/2".to_string(),
        protocols: vec!["/proto/2".to_string()],
    }));
    assert_eq!(d.handle_event(&pushed, 110), DispatchAction::RecordedPushedIdentity);
    // The existing record was refreshed, not duplicated.
    assert_eq!(d.store.list_peers().len(), 1);
    let info = d.store.get_or_create(&peer(1), 111);
    assert_eq!(info.agent_version, Some("agent/2".to_string()));
    assert_eq!(info.last_seen, 110);
}

#[test]
fn test_dispatch_identify_error_counted_per_peer() {
    let mut d = dispatcher();
    let err1 = behaviour(DissonanceEvent::Identify(IdentifyEvent::Error { peer: peer(1) }));
    let err2 = behaviour(DissonanceEvent::Identify(IdentifyEvent::Error { peer: peer(2) }));
    assert_eq!(d.handle_event(&err1, 100), DispatchAction::CountedIdentifyError);
    assert_eq!(d.handle_event(&err1, 110), DispatchAction::CountedIdentifyError);
    assert_eq!(d.handle_event(&err2, 120), DispatchAction::CountedIdentifyError);
    assert_eq!(d.identify_error_count(&peer(1)), 2);
    assert_eq!(d.identify_error_count(&peer(2)), 1);
    assert_eq!(d.identify_error_count(&peer(3)), 0);
    // Errors are observed, never abort the loop or touch the directory.
    assert_eq!(d.store.list_peers().len(), 0);
}

#[test]
fn test_dispatch_mdns_discovered_and_expired() {
    let mut d = dispatcher();
    let discovered = behaviour(DissonanceEvent::Mdns(MdnsEvent::Discovered {
        peers: vec![(peer(1), addr(1)), (peer(2), addr(2))],
    }));
    assert_eq!(d.handle_event(&discovered, 100), DispatchAction::RefreshedDiscoveredPeers);
    assert_eq!(d.store.list_peers().len(), 2);
    let expired = behaviour(DissonanceEvent::Mdns(MdnsEvent::Expired {
        peers: vec![(peer(1), addr(1))],
    }));
    assert_eq!(d.handle_event(&expired, 110), DispatchAction::ObservedExpiredPeers);
    // Expiry is observational; eviction is the directory's own pruning job.
    assert_eq!(d.store.list_peers().len(), 2);
}

#[test]
fn test_dispatch_connection_events_observe_only() {
    let mut d = dispatcher();
    assert_eq!(
        d.handle_event(&NodeEvent::IncomingConnection, 100),
        DispatchAction::ObservedIncomingConnection
    );
    assert_eq!(
        d.handle_event(&NodeEvent::ConnectionEstablished { peer: peer(1) }, 110),
        DispatchAction::ObservedConnectionEstablished
    );
    assert_eq!(
        d.handle_event(&NodeEvent::ConnectionClosed { peer: peer(1) }, 120),
        DispatchAction::ObservedConnectionClosed
    );
    assert_eq!(
        d.handle_event(&NodeEvent::NewListenAddr { address: addr(1) }, 130),
        DispatchAction::ObservedListenAddr
    );
    assert_eq!(d.store.list_peers().len(), 0);
}

#[test]
fn test_full_dialable_address() {
    let full = full_dialable_address(&b"/ip4/192.168.1.5/tcp/4001".to_vec(), &b"QmPeer".to_vec());
    assert_eq!(full, b"/ip4/192.168.1.5/tcp/4001/p2p/QmPeer".to_vec());
}

#[test]
fn test_bootstrap_planner() {
    let mut planner = BootstrapPlanner::new();
    let local = peer(7);
    let (q0, target) = planner.plan_bootstrap(&local, 3, 1024).unwrap();
    assert_eq!(q0, 0);
    assert_eq!(target, local);
    let (q1, _) = planner.plan_bootstrap(&local, 3, 1024).unwrap();
    assert_eq!(q1, 1);
    let full = planner.plan_bootstrap(&local, 1024, 1024);
    assert_eq!(full.unwrap_err(), BootstrapError::StoreCapacityExceeded);
    // A failed plan does not consume a query identifier.
    let (q2, _) = planner.plan_bootstrap(&local, 3, 1024).unwrap();
    assert_eq!(q2, 2);
}

#[test]
fn test_end_to_end_identity_and_directory() {
    // Fresh start: generate and persist an identity.
    let first = NodeIdentity::generate_ephemeral().expect("Could not generate identity");
    let persisted = first.save_to_bytes();

    // Restart: loading yields the same identifier.
    let second = NodeIdentity::load_from_bytes(&persisted).expect("Could not load identity");
    assert_eq!(first.peer_id(), second.peer_id());

    // A synthetic identity announcement for peer P reaches the directory.
    let mut d = dispatcher();
    let p = peer(42);
    let ev = behaviour(DissonanceEvent::Identify(IdentifyEvent::Received {
        peer: p.clone(),
        agent_version: "test/1.0".to_string(),
        protocols: vec!["/test/1.0.0".to_string()],
    }));
    d.handle_event(&ev, 1000);

    let peers = d.store.list_peers();
    assert_eq!(peers.len(), 1);
    assert_eq!(peers[0].0, p);
    assert_eq!(peers[0].1.agent_version, Some("test/1.0".to_string()));
    assert_eq!(peers[0].1.protocols, vec!["/test/1.0.0".to_string()]);
}

#[test]
fn test_collaborator_parameters() {
    assert_eq!(dissonance::behaviour::KAD_QUERY_TIMEOUT_SECS, 20);
    assert_eq!(dissonance::behaviour::KAD_REPLICATION_FACTOR, 20);
    assert_eq!(dissonance::behaviour::KAD_MAX_PACKET_SIZE, 16 * 1024);
    assert_eq!(dissonance::behaviour::IDENTIFY_INTERVAL_SECS, 30);
    assert!(dissonance::behaviour::IDENTIFY_PUSH_LISTEN_ADDR_UPDATES);
    assert_eq!(dissonance::behaviour::YAMUX_MAX_STREAMS, 256);
    assert_eq!(dissonance::behaviour::identify_protocol_version(), "/basic-p2p/1.0.0");
    assert_eq!(dissonance::behaviour::identify_agent_version(), "basic-p2p-node/0.1.0");
    assert_eq!(dissonance::behaviour::listen_address(), "/ip4/0.0.0.0/tcp/0");
    assert_eq!(dissonance::behaviour::identity_dir_name(), "dsn-chat");
    assert_eq!(dissonance::behaviour::identity_file_name(), "node-identity.json");
}
