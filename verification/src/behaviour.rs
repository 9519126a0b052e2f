use vstd::prelude::*;
use crate::errors::BootstrapError;
use crate::codec::clone_bytes;

verus! {

/// Query timeout for the DHT-routing engine, in seconds.
pub const KAD_QUERY_TIMEOUT_SECS: u64 = 20;

/// Replication factor for the DHT-routing engine.
pub const KAD_REPLICATION_FACTOR: usize = 20;

/// Maximum DHT message size, in bytes.
pub const KAD_MAX_PACKET_SIZE: usize = 16384;

/// Announcement interval of the identity-exchange engine, in seconds.
pub const IDENTIFY_INTERVAL_SECS: u64 = 30;

/// Whether the identity-exchange engine pushes on listen-address changes.
pub const IDENTIFY_PUSH_LISTEN_ADDR_UPDATES: bool = true;

/// Cap on concurrent streams per connection in the stream multiplexer.
pub const YAMUX_MAX_STREAMS: usize = 256;

/// The protocol-version string this node announces.
pub fn identify_protocol_version() -> (r: &'static str)
    ensures
        r@ == "/basic-p2p/1.0.0"@,
{
    "/basic-p2p/1.0.0"
}

/// The agent-version string this node announces.
pub fn identify_agent_version() -> (r: &'static str)
    ensures
        r@ == "basic-p2p-node/0.1.0"@,
{
    "basic-p2p-node/0.1.0"
}

/// The textual listening address the node binds: IPv4, TCP, ephemeral port.
pub fn listen_address() -> (r: &'static str)
    ensures
        r@ == "/ip4/0.0.0.0/tcp/0"@,
{
    "/ip4/0.0.0.0/tcp/0"
}

/// Name of the configuration subdirectory holding the identity file.
pub fn identity_dir_name() -> (r: &'static str)
    ensures
        r@ == "dsn-chat"@,
{
    "dsn-chat"
}

/// Name of the persisted identity file.
pub fn identity_file_name() -> (r: &'static str)
    ensures
        r@ == "node-identity.json"@,
{
    "node-identity.json"
}

/// Events of the DHT-routing engine, as the dispatcher consumes them: peer
/// identifiers as identifier bytes and addresses in their textual form.
pub enum KademliaEvent {
    /// The routing table gained or refreshed a peer; `old_peer` names a peer the
    /// new one displaced, if any.
    RoutingUpdated { peer: Vec<u8>, is_new_peer: bool, addresses: Vec<Vec<u8>>, old_peer: Option<Vec<u8>> },
    /// Another peer sent a DHT request.
    InboundRequest,
    /// A query this node issued made progress or finished.
    OutboundQueryProgressed { query_id: u64 },
    /// A peer cannot be routed to.
    UnroutablePeer { peer: Vec<u8> },
    /// A peer is confirmed routable at an address.
    RoutablePeer { peer: Vec<u8>, address: Vec<u8> },
    /// A peer looks routable at an address but is not yet confirmed.
    PendingRoutablePeer { peer: Vec<u8>, address: Vec<u8> },
    /// The engine switched between client and server mode.
    ModeChanged { server: bool },
}

/// Events of the identity-exchange engine.
pub enum IdentifyEvent {
    /// A peer announced its agent version and supported protocols.
    Received { peer: Vec<u8>, agent_version: String, protocols: Vec<String> },
    /// This node sent its own identity information to a peer.
    Sent { peer: Vec<u8> },
    /// A peer pushed an unsolicited identity update; it refreshes the existing
    /// record rather than creating a duplicate.
    Pushed { peer: Vec<u8>, agent_version: String, protocols: Vec<String> },
    /// Exchanging identity information with a peer failed.
    Error { peer: Vec<u8> },
}

/// Events of the local-discovery engine: peers appearing on and expiring from the
/// local network segment, as (peer, address) pairs.
pub enum MdnsEvent {
    Discovered { peers: Vec<(Vec<u8>, Vec<u8>)> },
    Expired { peers: Vec<(Vec<u8>, Vec<u8>)> },
}

/// The unified event type: one variant per sub-engine, each wrapping that engine's
/// own event shape, in arrival order.
pub enum DissonanceEvent {
    Kademlia(KademliaEvent),
    Identify(IdentifyEvent),
    Mdns(MdnsEvent),
}

/// Everything the control loop consumes: behaviour events plus the connection-level
/// observations the node reacts to.
pub enum NodeEvent {
    Behaviour(DissonanceEvent),
    /// The node bound a new local listening address (textual form).
    NewListenAddr { address: Vec<u8> },
    IncomingConnection,
    ConnectionEstablished { peer: Vec<u8> },
    ConnectionClosed { peer: Vec<u8> },
}

/// Hands out bootstrap query identifiers for the DHT-routing engine.
pub struct BootstrapPlanner {
    pub next_query_id: u64,
}

impl BootstrapPlanner {
    /// A planner whose first query identifier is zero.
    pub fn new() -> (r: BootstrapPlanner)
        ensures
            r.next_query_id == 0,
    {
        BootstrapPlanner { next_query_id: 0 }
    }

    /// Plans a bootstrap: a lookup for this node's own identifier under a fresh
    /// query identifier, returned immediately; fails exactly when the local
    /// routing/record store cannot accept more entries.
    pub fn plan_bootstrap(
        &mut self,
        local_peer_id: &Vec<u8>,
        store_len: usize,
        store_capacity: usize,
    ) -> (r: Result<(u64, Vec<u8>), BootstrapError>)
        requires
            old(self).next_query_id < u64::MAX,
        ensures
            store_len >= store_capacity ==> r == Err::<(u64, Vec<u8>), BootstrapError>(
                BootstrapError::StoreCapacityExceeded,
            ) && *final(self) == *old(self),
            store_len < store_capacity ==> (r matches Ok(q) && q.0 == old(self).next_query_id
                && q.1@ == local_peer_id@ && final(self).next_query_id == old(self).next_query_id
                + 1),
    {
        if store_len >= store_capacity {
            return Err(BootstrapError::StoreCapacityExceeded);
        }
        let query_id = self.next_query_id;
        self.next_query_id = self.next_query_id + 1;
        Ok((query_id, clone_bytes(local_peer_id)))
    }
}

} // verus!
