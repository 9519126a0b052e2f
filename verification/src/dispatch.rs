use vstd::prelude::*;
use crate::behaviour::DissonanceEvent;
use crate::behaviour::IdentifyEvent;
use crate::behaviour::KademliaEvent;
use crate::behaviour::MdnsEvent;
use crate::behaviour::NodeEvent;
use crate::codec::clone_bytes;
use crate::store::PeerInfoView;
use crate::store::PeerStore;
use crate::store::spec_add_address;
use crate::store::spec_add_identity;

verus! {

/// The DHT engine's operating mode, as last reported.
#[derive(Clone, Copy, Debug, PartialEq, Eq, Structural)]
pub enum OperatingMode {
    Unknown,
    Client,
    Server,
}

/// The action the dispatcher took for an event; every event kind maps to one.
#[derive(Clone, Copy, Debug, PartialEq, Eq, Structural)]
pub enum DispatchAction {
    RefreshedRoutingAddresses,
    ObservedInboundRequest,
    ObservedQueryProgress,
    ObservedUnroutablePeer,
    RefreshedRoutablePeer,
    RefreshedPendingPeer,
    RecordedModeChange,
    RecordedIdentity,
    ObservedIdentitySent,
    RecordedPushedIdentity,
    CountedIdentifyError,
    RefreshedDiscoveredPeers,
    ObservedExpiredPeers,
    ObservedListenAddr,
    ObservedIncomingConnection,
    ObservedConnectionEstablished,
    ObservedConnectionClosed,
}

/// Records each address in turn for one peer.
pub open spec fn spec_add_addresses(
    m: Map<Seq<u8>, PeerInfoView>,
    peer: Seq<u8>,
    addrs: Seq<Seq<u8>>,
    now_ms: u64,
) -> Map<Seq<u8>, PeerInfoView>
    decreases addrs.len(),
{
    if addrs.len() == 0 {
        m
    } else {
        spec_add_addresses(spec_add_address(m, peer, addrs[0], now_ms), peer, addrs.skip(1), now_ms)
    }
}

/// Records each discovered (peer, address) pair in turn.
pub open spec fn spec_add_discovered(
    m: Map<Seq<u8>, PeerInfoView>,
    pairs: Seq<(Seq<u8>, Seq<u8>)>,
    now_ms: u64,
) -> Map<Seq<u8>, PeerInfoView>
    decreases pairs.len(),
{
    if pairs.len() == 0 {
        m
    } else {
        spec_add_discovered(
            spec_add_address(m, pairs[0].0, pairs[0].1, now_ms),
            pairs.skip(1),
            now_ms,
        )
    }
}

proof fn lemma_add_addresses_snoc(
    m: Map<Seq<u8>, PeerInfoView>,
    peer: Seq<u8>,
    addrs: Seq<Seq<u8>>,
    x: Seq<u8>,
    now_ms: u64,
)
    ensures
        spec_add_addresses(m, peer, addrs.push(x), now_ms) == spec_add_address(
            spec_add_addresses(m, peer, addrs, now_ms),
            peer,
            x,
            now_ms,
        ),
    decreases addrs.len(),
{
    reveal_with_fuel(spec_add_addresses, 2);
    let p = addrs.push(x);
    if addrs.len() == 0 {
        assert(p[0] == x);
        assert(p.skip(1) =~= Seq::<Seq<u8>>::empty());
    } else {
        assert(p[0] == addrs[0]);
        assert(p.skip(1) =~= addrs.skip(1).push(x));
        lemma_add_addresses_snoc(
            spec_add_address(m, peer, addrs[0], now_ms),
            peer,
            addrs.skip(1),
            x,
            now_ms,
        );
    }
}

proof fn lemma_add_discovered_snoc(
    m: Map<Seq<u8>, PeerInfoView>,
    pairs: Seq<(Seq<u8>, Seq<u8>)>,
    x: (Seq<u8>, Seq<u8>),
    now_ms: u64,
)
    ensures
        spec_add_discovered(m, pairs.push(x), now_ms) == spec_add_address(
            spec_add_discovered(m, pairs, now_ms),
            x.0,
            x.1,
            now_ms,
        ),
    decreases pairs.len(),
{
    reveal_with_fuel(spec_add_discovered, 2);
    let p = pairs.push(x);
    if pairs.len() == 0 {
        assert(p[0] == x);
        assert(p.skip(1) =~= Seq::<(Seq<u8>, Seq<u8>)>::empty());
    } else {
        assert(p[0] == pairs[0]);
        assert(p.skip(1) =~= pairs.skip(1).push(x));
        lemma_add_discovered_snoc(
            spec_add_address(m, pairs[0].0, pairs[0].1, now_ms),
            pairs.skip(1),
            x,
            now_ms,
        );
    }
}

/// The directory after one behaviour event: routing updates and reachable peers
/// refresh addresses, identity announcements (received or pushed) overwrite the
/// announced information, local discovery records discovered pairs; everything
/// else is observed without touching the directory.
pub open spec fn spec_dispatch_store(
    m: Map<Seq<u8>, PeerInfoView>,
    ev: DissonanceEvent,
    now_ms: u64,
) -> Map<Seq<u8>, PeerInfoView> {
    match ev {
        DissonanceEvent::Kademlia(k) => match k {
            KademliaEvent::RoutingUpdated { peer, addresses, .. } => spec_add_addresses(
                m,
                peer@,
                addresses.deep_view(),
                now_ms,
            ),
            KademliaEvent::RoutablePeer { peer, address } => spec_add_address(
                m,
                peer@,
                address@,
                now_ms,
            ),
            KademliaEvent::PendingRoutablePeer { peer, address } => spec_add_address(
                m,
                peer@,
                address@,
                now_ms,
            ),
            _ => m,
        },
        DissonanceEvent::Identify(i) => match i {
            IdentifyEvent::Received { peer, agent_version, protocols } => spec_add_identity(
                m,
                peer@,
                agent_version@,
                protocols.deep_view(),
                now_ms,
            ),
            IdentifyEvent::Pushed { peer, agent_version, protocols } => spec_add_identity(
                m,
                peer@,
                agent_version@,
                protocols.deep_view(),
                now_ms,
            ),
            _ => m,
        },
        DissonanceEvent::Mdns(md) => match md {
            MdnsEvent::Discovered { peers } => spec_add_discovered(
                m,
                peers.deep_view(),
                now_ms,
            ),
            MdnsEvent::Expired { .. } => m,
        },
    }
}

/// The directory after one node event: only behaviour events touch it.
pub open spec fn spec_dispatch_store_node(
    m: Map<Seq<u8>, PeerInfoView>,
    ev: NodeEvent,
    now_ms: u64,
) -> Map<Seq<u8>, PeerInfoView> {
    match ev {
        NodeEvent::Behaviour(b) => spec_dispatch_store(m, b, now_ms),
        _ => m,
    }
}

/// The action taken for each event kind; the match is total, so no kind can fall
/// through unhandled.
pub open spec fn spec_action_of(ev: NodeEvent) -> DispatchAction {
    match ev {
        NodeEvent::Behaviour(b) => match b {
            DissonanceEvent::Kademlia(k) => match k {
                KademliaEvent::RoutingUpdated { .. } => DispatchAction::RefreshedRoutingAddresses,
                KademliaEvent::InboundRequest => DispatchAction::ObservedInboundRequest,
                KademliaEvent::OutboundQueryProgressed { .. } => DispatchAction::ObservedQueryProgress,
                KademliaEvent::UnroutablePeer { .. } => DispatchAction::ObservedUnroutablePeer,
                KademliaEvent::RoutablePeer { .. } => DispatchAction::RefreshedRoutablePeer,
                KademliaEvent::PendingRoutablePeer { .. } => DispatchAction::RefreshedPendingPeer,
                KademliaEvent::ModeChanged { .. } => DispatchAction::RecordedModeChange,
            },
            DissonanceEvent::Identify(i) => match i {
                IdentifyEvent::Received { .. } => DispatchAction::RecordedIdentity,
                IdentifyEvent::Sent { .. } => DispatchAction::ObservedIdentitySent,
                IdentifyEvent::Pushed { .. } => DispatchAction::RecordedPushedIdentity,
                IdentifyEvent::Error { .. } => DispatchAction::CountedIdentifyError,
            },
            DissonanceEvent::Mdns(md) => match md {
                MdnsEvent::Discovered { .. } => DispatchAction::RefreshedDiscoveredPeers,
                MdnsEvent::Expired { .. } => DispatchAction::ObservedExpiredPeers,
            },
        },
        NodeEvent::NewListenAddr { .. } => DispatchAction::ObservedListenAddr,
        NodeEvent::IncomingConnection => DispatchAction::ObservedIncomingConnection,
        NodeEvent::ConnectionEstablished { .. } => DispatchAction::ObservedConnectionEstablished,
        NodeEvent::ConnectionClosed { .. } => DispatchAction::ObservedConnectionClosed,
    }
}

/// The operating mode after an event: only a mode-change report alters it.
pub open spec fn spec_mode_after(mode: OperatingMode, ev: NodeEvent) -> OperatingMode {
    match ev {
        NodeEvent::Behaviour(
            DissonanceEvent::Kademlia(KademliaEvent::ModeChanged { server }),
        ) => if server {
            OperatingMode::Server
        } else {
            OperatingMode::Client
        },
        _ => mode,
    }
}

/// The identity-exchange error log after an event: an error appends the peer.
pub open spec fn spec_error_log_after(log: Seq<Seq<u8>>, ev: NodeEvent) -> Seq<Seq<u8>> {
    match ev {
        NodeEvent::Behaviour(
            DissonanceEvent::Identify(IdentifyEvent::Error { peer }),
        ) => log.push(peer@),
        _ => log,
    }
}

/// How many identity-exchange errors the log holds for one peer.
pub open spec fn spec_error_count(log: Seq<Seq<u8>>, peer: Seq<u8>) -> nat
    decreases log.len(),
{
    if log.len() == 0 {
        0
    } else {
        spec_error_count(log.drop_last(), peer) + if log.last() == peer {
            1nat
        } else {
            0nat
        }
    }
}

/// The node's single control loop state: the peer directory it alone mutates, the
/// operating mode last reported, and the per-peer identity-exchange error log.
pub struct EventDispatcher {
    pub store: PeerStore,
    pub mode: OperatingMode,
    pub identify_errors: Vec<Vec<u8>>,
}

impl EventDispatcher {
    /// The log of peers whose identity exchange failed, in order of failure.
    pub closed spec fn error_log(self) -> Seq<Seq<u8>> {
        self.identify_errors.deep_view()
    }

    pub open spec fn wf(self) -> bool {
        self.store.wf()
    }

    /// A dispatcher over an existing directory, mode unknown, no errors seen.
    pub fn new(store: PeerStore) -> (r: EventDispatcher)
        requires
            store.wf(),
        ensures
            r.wf(),
            r.store == store,
            r.mode == OperatingMode::Unknown,
            r.error_log() == Seq::<Seq<u8>>::empty(),
    {
        let r = EventDispatcher { store, mode: OperatingMode::Unknown, identify_errors: Vec::new() };
        proof {
            assert(r.error_log() =~= Seq::<Seq<u8>>::empty());
        }
        r
    }

    /// Routes one event to its handler. Dispatch is exhaustive: every kind yields
    /// its defined action, the documented directory mutation, the documented mode
    /// update, and the documented error bookkeeping — nothing else changes.
    pub fn handle_event(&mut self, event: &NodeEvent, now_ms: u64) -> (action: DispatchAction)
        requires
            old(self).wf(),
        ensures
            final(self).wf(),
            action == spec_action_of(*event),
            final(self).store@ == spec_dispatch_store_node(old(self).store@, *event, now_ms),
            final(self).mode == spec_mode_after(old(self).mode, *event),
            final(self).error_log() == spec_error_log_after(old(self).error_log(), *event),
    {
        match event {
            NodeEvent::Behaviour(b) => match b {
                DissonanceEvent::Kademlia(k) => match k {
                    KademliaEvent::RoutingUpdated { peer, addresses, .. } => {
                        let ghost m0 = self.store@;
                        let ghost dv = addresses.deep_view();
                        let mut i: usize = 0;
                        proof {
                            assert(dv.take(0) =~= Seq::<Seq<u8>>::empty());
                        }
                        while i < addresses.len()
                            invariant
                                i <= addresses@.len(),
                                dv == addresses.deep_view(),
                                self.store.wf(),
                                self.store@ == spec_add_addresses(m0, peer@, dv.take(i as int), now_ms),
                                self.mode == old(self).mode,
                                self.identify_errors == old(self).identify_errors,
                            decreases addresses@.len() - i,
                        {
                            let addr = clone_bytes(&addresses[i]);
                            assert(addr@ == dv[i as int]);
                            self.store.add_peer_address(peer, addr, now_ms);
                            proof {
                                lemma_add_addresses_snoc(m0, peer@, dv.take(i as int), dv[i as int], now_ms);
                                assert(dv.take(i as int).push(dv[i as int]) =~= dv.take(i + 1));
                            }
                            i = i + 1;
                        }
                        proof {
                            assert(dv.take(addresses@.len() as int) =~= dv);
                        }
                        DispatchAction::RefreshedRoutingAddresses
                    },
                    KademliaEvent::InboundRequest => DispatchAction::ObservedInboundRequest,
                    KademliaEvent::OutboundQueryProgressed { .. } => DispatchAction::ObservedQueryProgress,
                    KademliaEvent::UnroutablePeer { .. } => DispatchAction::ObservedUnroutablePeer,
                    KademliaEvent::RoutablePeer { peer, address } => {
                        self.store.add_peer_address(peer, clone_bytes(address), now_ms);
                        DispatchAction::RefreshedRoutablePeer
                    },
                    KademliaEvent::PendingRoutablePeer { peer, address } => {
                        self.store.add_peer_address(peer, clone_bytes(address), now_ms);
                        DispatchAction::RefreshedPendingPeer
                    },
                    KademliaEvent::ModeChanged { server } => {
                        if *server {
                            self.mode = OperatingMode::Server;
                        } else {
                            self.mode = OperatingMode::Client;
                        }
                        DispatchAction::RecordedModeChange
                    },
                },
                DissonanceEvent::Identify(id_ev) => match id_ev {
                    IdentifyEvent::Received { peer, agent_version, protocols } => {
                        let agent = agent_version.clone();
                        let protos = clone_strings(protocols);
                        self.store.add_peer_identity(peer, agent, protos, now_ms);
                        DispatchAction::RecordedIdentity
                    },
                    IdentifyEvent::Sent { .. } => DispatchAction::ObservedIdentitySent,
                    IdentifyEvent::Pushed { peer, agent_version, protocols } => {
                        let agent = agent_version.clone();
                        let protos = clone_strings(protocols);
                        self.store.add_peer_identity(peer, agent, protos, now_ms);
                        DispatchAction::RecordedPushedIdentity
                    },
                    IdentifyEvent::Error { peer } => {
                        self.identify_errors.push(clone_bytes(peer));
                        proof {
                            assert(self.error_log() =~~= old(self).error_log().push(peer@));
                        }
                        DispatchAction::CountedIdentifyError
                    },
                },
                DissonanceEvent::Mdns(md) => match md {
                    MdnsEvent::Discovered { peers } => {
                        let ghost m0 = self.store@;
                        let ghost dv = peers.deep_view();
                        let mut i: usize = 0;
                        proof {
                            assert(dv.take(0) =~= Seq::<(Seq<u8>, Seq<u8>)>::empty());
                        }
                        while i < peers.len()
                            invariant
                                i <= peers@.len(),
                                dv == peers.deep_view(),
                                self.store.wf(),
                                self.store@ == spec_add_discovered(m0, dv.take(i as int), now_ms),
                                self.mode == old(self).mode,
                                self.identify_errors == old(self).identify_errors,
                            decreases peers@.len() - i,
                        {
                            let p = clone_bytes(&peers[i].0);
                            let a = clone_bytes(&peers[i].1);
                            assert(p@ == dv[i as int].0 && a@ == dv[i as int].1);
                            self.store.add_peer_address(&p, a, now_ms);
                            proof {
                                lemma_add_discovered_snoc(m0, dv.take(i as int), dv[i as int], now_ms);
                                assert(dv.take(i as int).push(dv[i as int]) =~= dv.take(i + 1));
                            }
                            i = i + 1;
                        }
                        proof {
                            assert(dv.take(peers@.len() as int) =~= dv);
                        }
                        DispatchAction::RefreshedDiscoveredPeers
                    },
                    MdnsEvent::Expired { .. } => DispatchAction::ObservedExpiredPeers,
                },
            },
            NodeEvent::NewListenAddr { .. } => DispatchAction::ObservedListenAddr,
            NodeEvent::IncomingConnection => DispatchAction::ObservedIncomingConnection,
            NodeEvent::ConnectionEstablished { .. } => DispatchAction::ObservedConnectionEstablished,
            NodeEvent::ConnectionClosed { .. } => DispatchAction::ObservedConnectionClosed,
        }
    }

    /// How many identity-exchange errors have been counted against `peer`.
    pub fn identify_error_count(&self, peer: &Vec<u8>) -> (r: usize)
        ensures
            r == spec_error_count(self.error_log(), peer@),
    {
        let mut count: usize = 0;
        let mut i: usize = 0;
        while i < self.identify_errors.len()
            invariant
                i <= self.identify_errors@.len(),
                count == spec_error_count(self.error_log().take(i as int), peer@),
                count <= i,
            decreases self.identify_errors@.len() - i,
        {
            proof {
                assert(self.error_log().take(i + 1).drop_last() =~= self.error_log().take(
                    i as int,
                ));
                assert(self.error_log().take(i + 1).last() == self.error_log()[i as int]);
                assert(self.error_log()[i as int] == self.identify_errors@[i as int]@);
            }
            if crate::codec::bytes_eq(&self.identify_errors[i], peer) {
                count = count + 1;
            }
            i = i + 1;
        }
        proof {
            assert(self.error_log().take(self.identify_errors@.len() as int) =~= self.error_log());
        }
        count
    }
}

/// Copies a list of protocol names.
fn clone_strings(v: &Vec<String>) -> (r: Vec<String>)
    ensures
        r.deep_view() == v.deep_view(),
{
    let mut r: Vec<String> = Vec::new();
    let mut i: usize = 0;
    while i < v.len()
        invariant
            i <= v@.len(),
            r@.len() == i,
            forall|m: int| 0 <= m < i ==> r@[m]@ == v@[m]@,
        decreases v@.len() - i,
    {
        let s = v[i].clone();
        assert(s@ == v@[i as int]@);
        r.push(s);
        i = i + 1;
    }
    proof {
        assert forall|m: int| 0 <= m < r@.len() implies r.deep_view()[m] == v.deep_view()[m] by {
            assert(r@[m]@ == v@[m]@);
        }
        assert(r.deep_view() =~~= v.deep_view());
    }
    r
}

/// The full dialable form of a listening address: the address, the path separator,
/// and the node's displayed identifier.
pub fn full_dialable_address(listen_addr: &Vec<u8>, peer_display: &Vec<u8>) -> (r: Vec<u8>)
    ensures
        r@ == listen_addr@ + p2p_suffix() + peer_display@,
{
    let mut r = clone_bytes(listen_addr);
    r.push(47);
    r.push(112);
    r.push(50);
    r.push(112);
    r.push(47);
    let mut i: usize = 0;
    while i < peer_display.len()
        invariant
            i <= peer_display@.len(),
            r@ == listen_addr@ + p2p_suffix() + peer_display@.take(i as int),
        decreases peer_display@.len() - i,
    {
        r.push(peer_display[i]);
        proof {
            assert(r@ =~= listen_addr@ + p2p_suffix() + peer_display@.take(i + 1));
        }
        i = i + 1;
    }
    proof {
        assert(r@ =~= listen_addr@ + p2p_suffix() + peer_display@);
    }
    r
}

/// The bytes of the textual path segment `/p2p/` that joins an address to an
/// identifier.
pub open spec fn p2p_suffix() -> Seq<u8> {
    seq![47u8, 112u8, 50u8, 112u8, 47u8]
}

/// The full dialable address of this node at a listening address: the address,
/// the path separator, and the identifier in its textual form; fails exactly when
/// the identifier bytes have no textual form.
pub fn dialable_address(listen_addr: &Vec<u8>, peer_id: &Vec<u8>) -> (r: Result<
    Vec<u8>,
    crate::errors::IdentityError,
>)
    ensures
        (r matches Ok(f) ==> crate::identity::peer_display_of(peer_id@) matches Some(d) && f@
            == listen_addr@ + p2p_suffix() + d),
        r is Err ==> r == Err::<Vec<u8>, crate::errors::IdentityError>(
            crate::errors::IdentityError::KeyConversionFailure,
        ) && crate::identity::peer_display_of(peer_id@) is None,
{
    match crate::identity::peer_id_base58(peer_id) {
        Ok(display) => Ok(full_dialable_address(listen_addr, &display)),
        Err(e) => Err(e),
    }
}

} // verus!
