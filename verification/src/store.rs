use vstd::prelude::*;
use crate::codec::bytes_eq;
use crate::codec::clone_bytes;

verus! {

/// Ghost snapshot of one peer record.
#[verifier::ext_equal]
pub ghost struct PeerInfoView {
    pub last_seen: u64,
    pub addresses: Seq<Seq<u8>>,
    pub agent_version: Option<Seq<char>>,
    pub protocols: Seq<Seq<char>>,
    pub is_trusted: bool,
}

/// Metadata tracked for one known peer: when it was last observed, the network
/// addresses it was seen under (deduplicated, in insertion order), what it last
/// announced about itself, and whether it is trusted.
#[derive(Debug)]
pub struct PeerInfo {
    pub last_seen: u64,
    pub addresses: Vec<Vec<u8>>,
    pub agent_version: Option<String>,
    pub protocols: Vec<String>,
    is_trusted: bool,
}

impl View for PeerInfo {
    type V = PeerInfoView;

    closed spec fn view(&self) -> PeerInfoView {
        PeerInfoView {
            last_seen: self.last_seen,
            addresses: self.addresses.deep_view(),
            agent_version: self.agent_version.deep_view(),
            protocols: self.protocols.deep_view(),
            is_trusted: self.is_trusted,
        }
    }
}

/// A record created on first observation: just seen, nothing announced, untrusted.
pub open spec fn spec_fresh_info(now_ms: u64) -> PeerInfoView {
    PeerInfoView {
        last_seen: now_ms,
        addresses: Seq::empty(),
        agent_version: None,
        protocols: Seq::empty(),
        is_trusted: false,
    }
}

/// A refreshed last-seen time never moves backward: the new value is the clock
/// reading, unless the clock stepped back past the previous observation.
pub open spec fn spec_refreshed(prev: u64, now_ms: u64) -> u64 {
    if now_ms >= prev {
        now_ms
    } else {
        prev
    }
}

/// Appends `addr` unless already present (exact match) and refreshes the record.
pub open spec fn spec_add_address_info(v: PeerInfoView, addr: Seq<u8>, now_ms: u64) -> PeerInfoView {
    PeerInfoView {
        last_seen: spec_refreshed(v.last_seen, now_ms),
        addresses: if v.addresses.contains(addr) {
            v.addresses
        } else {
            v.addresses.push(addr)
        },
        ..v
    }
}

/// Overwrites the announced agent version and protocols and refreshes the record.
pub open spec fn spec_add_identity_info(
    v: PeerInfoView,
    agent: Seq<char>,
    protocols: Seq<Seq<char>>,
    now_ms: u64,
) -> PeerInfoView {
    PeerInfoView {
        last_seen: spec_refreshed(v.last_seen, now_ms),
        agent_version: Some(agent),
        protocols,
        ..v
    }
}

impl PeerInfo {
    /// Creates a fresh record, last seen now.
    pub fn new(now_ms: u64) -> (r: PeerInfo)
        ensures
            r@ == spec_fresh_info(now_ms),
    {
        let r = PeerInfo {
            last_seen: now_ms,
            addresses: Vec::new(),
            agent_version: None,
            protocols: Vec::new(),
            is_trusted: false,
        };
        proof {
            assert(r@ =~= spec_fresh_info(now_ms));
        }
        r
    }

    /// Refreshes the last-seen timestamp; it never moves backward.
    pub fn seen(&mut self, now_ms: u64)
        ensures
            final(self)@ == (PeerInfoView {
                last_seen: spec_refreshed(old(self)@.last_seen, now_ms),
                ..old(self)@
            }),
    {
        if now_ms >= self.last_seen {
            self.last_seen = now_ms;
        }
        proof {
            assert(self@ =~= (PeerInfoView {
                last_seen: spec_refreshed(old(self)@.last_seen, now_ms),
                ..old(self)@
            }));
        }
    }

    /// Whether `address` is already recorded, by exact match.
    pub fn contains_address(&self, address: &Vec<u8>) -> (r: bool)
        ensures
            r == self@.addresses.contains(address@),
    {
        let mut i: usize = 0;
        while i < self.addresses.len()
            invariant
                i <= self.addresses@.len(),
                forall|j: int| 0 <= j < i ==> self@.addresses[j] != address@,
            decreases self.addresses@.len() - i,
        {
            if bytes_eq(&self.addresses[i], address) {
                assert(self@.addresses[i as int] == address@);
                return true;
            }
            assert(self@.addresses[i as int] == self.addresses@[i as int]@);
            i = i + 1;
        }
        assert(forall|j: int| 0 <= j < self@.addresses.len() ==> self@.addresses[j] != address@);
        false
    }

    /// Appends `address` unless already present, and refreshes the record.
    pub fn add_address(&mut self, address: Vec<u8>, now_ms: u64)
        ensures
            final(self)@ == spec_add_address_info(old(self)@, address@, now_ms),
    {
        if !self.contains_address(&address) {
            self.addresses.push(address);
            proof {
                assert(self.addresses.deep_view() =~~= old(self).addresses.deep_view().push(
                    address@,
                ));
            }
        }
        self.seen(now_ms);
        proof {
            assert(self@ =~~= spec_add_address_info(old(self)@, address@, now_ms));
        }
    }

    /// Overwrites the announced identity information and refreshes the record.
    pub fn add_identity(&mut self, agent_version: String, protocols: Vec<String>, now_ms: u64)
        ensures
            final(self)@ == spec_add_identity_info(
                old(self)@,
                agent_version@,
                protocols.deep_view(),
                now_ms,
            ),
    {
        let ghost agent = agent_version@;
        let ghost protos = protocols.deep_view();
        self.agent_version = Some(agent_version);
        self.protocols = protocols;
        self.seen(now_ms);
        proof {
            assert(self@ =~= spec_add_identity_info(old(self)@, agent, protos, now_ms));
        }
    }

    /// The trust flag; no mutator exists yet, so it stays at its default.
    pub fn trusted(&self) -> (r: bool)
        ensures
            r == self@.is_trusted,
    {
        self.is_trusted
    }

    /// An owned copy of this record.
    pub fn snapshot(&self) -> (r: PeerInfo)
        ensures
            r@ == self@,
    {
        let mut addresses: Vec<Vec<u8>> = Vec::new();
        let mut i: usize = 0;
        while i < self.addresses.len()
            invariant
                i <= self.addresses@.len(),
                addresses@.len() == i,
                forall|m: int| 0 <= m < i ==> addresses@[m]@ == self.addresses@[m]@,
            decreases self.addresses@.len() - i,
        {
            addresses.push(clone_bytes(&self.addresses[i]));
            i = i + 1;
        }
        proof {
            assert forall|m: int| 0 <= m < addresses@.len() implies addresses.deep_view()[m]
                == self.addresses.deep_view()[m] by {
                assert(addresses@[m]@ == self.addresses@[m]@);
            }
            assert(addresses.deep_view() =~~= self.addresses.deep_view());
        }
        let agent_version: Option<String> = match &self.agent_version {
            Some(s) => Some(s.clone()),
            None => None,
        };
        let mut protocols: Vec<String> = Vec::new();
        let mut j: usize = 0;
        while j < self.protocols.len()
            invariant
                j <= self.protocols@.len(),
                protocols@.len() == j,
                forall|m: int| 0 <= m < j ==> protocols@[m]@ == self.protocols@[m]@,
            decreases self.protocols@.len() - j,
        {
            let p = self.protocols[j].clone();
            assert(p@ == self.protocols@[j as int]@);
            protocols.push(p);
            j = j + 1;
        }
        proof {
            assert forall|m: int| 0 <= m < protocols@.len() implies protocols.deep_view()[m]
                == self.protocols.deep_view()[m] by {
                assert(protocols@[m]@ == self.protocols@[m]@);
            }
            assert(protocols.deep_view() =~~= self.protocols.deep_view());
        }
        let r = PeerInfo {
            last_seen: self.last_seen,
            addresses,
            agent_version,
            protocols,
            is_trusted: self.is_trusted,
        };
        proof {
            assert(r.addresses.deep_view() =~~= self.addresses.deep_view());
            assert(r.protocols.deep_view() =~~= self.protocols.deep_view());
            assert(r@ =~~= self@);
        }
        r
    }
}

/// In-memory directory of known peers: a table from peer identifier bytes to the
/// metadata recorded for that peer, with unique keys.
#[derive(Debug)]
pub struct PeerStore {
    known_peers: Vec<(Vec<u8>, PeerInfo)>,
}

impl View for PeerStore {
    type V = Map<Seq<u8>, PeerInfoView>;

    closed spec fn view(&self) -> Map<Seq<u8>, PeerInfoView> {
        Map::new(|k: Seq<u8>| self.contains_peer(k), |k: Seq<u8>| self.peer_info(k))
    }
}

/// Creates the record if absent; an existing record is untouched.
pub open spec fn spec_get_or_create(
    m: Map<Seq<u8>, PeerInfoView>,
    peer: Seq<u8>,
    now_ms: u64,
) -> Map<Seq<u8>, PeerInfoView> {
    if m.contains_key(peer) {
        m
    } else {
        m.insert(peer, spec_fresh_info(now_ms))
    }
}

/// Get-or-create, then append the address unless present, refreshing the record.
pub open spec fn spec_add_address(
    m: Map<Seq<u8>, PeerInfoView>,
    peer: Seq<u8>,
    addr: Seq<u8>,
    now_ms: u64,
) -> Map<Seq<u8>, PeerInfoView> {
    let base = spec_get_or_create(m, peer, now_ms);
    base.insert(peer, spec_add_address_info(base[peer], addr, now_ms))
}

/// Get-or-create, then overwrite the announced identity, refreshing the record.
pub open spec fn spec_add_identity(
    m: Map<Seq<u8>, PeerInfoView>,
    peer: Seq<u8>,
    agent: Seq<char>,
    protocols: Seq<Seq<char>>,
    now_ms: u64,
) -> Map<Seq<u8>, PeerInfoView> {
    let base = spec_get_or_create(m, peer, now_ms);
    base.insert(peer, spec_add_identity_info(base[peer], agent, protocols, now_ms))
}

/// A record survives pruning exactly when its age is defined and does not exceed
/// the limit: a record of age exactly the limit survives.
pub open spec fn spec_keep(v: PeerInfoView, max_age_ms: u64, now_ms: u64) -> bool {
    v.last_seen <= now_ms && now_ms - v.last_seen <= max_age_ms
}

/// Removes every record whose age exceeds the limit, and every record whose
/// last-seen time lies in the future.
pub open spec fn spec_prune(
    m: Map<Seq<u8>, PeerInfoView>,
    max_age_ms: u64,
    now_ms: u64,
) -> Map<Seq<u8>, PeerInfoView> {
    Map::new(
        |k: Seq<u8>| m.contains_key(k) && spec_keep(m[k], max_age_ms, now_ms),
        |k: Seq<u8>| m[k],
    )
}

impl PeerStore {
    /// The directory's entries, in insertion order.
    pub closed spec fn entries(self) -> Seq<(Seq<u8>, PeerInfoView)> {
        self.known_peers@.map_values(|e: (Vec<u8>, PeerInfo)| (e.0@, e.1@))
    }

    /// Keys are unique.
    pub open spec fn wf(self) -> bool {
        forall|i: int, j: int|
            0 <= i < j < self.entries().len() ==> (#[trigger] self.entries()[i]).0 != (
            #[trigger] self.entries()[j]).0
    }

    /// Some entry holds `peer`.
    pub open spec fn contains_peer(self, peer: Seq<u8>) -> bool {
        exists|i: int| 0 <= i < self.entries().len() && (#[trigger] self.entries()[i]).0 == peer
    }

    /// The index of the entry holding `peer`.
    closed spec fn spec_index_of(self, peer: Seq<u8>) -> int {
        choose|i: int| 0 <= i < self.entries().len() && (#[trigger] self.entries()[i]).0 == peer
    }

    /// The record held for `peer`.
    pub closed spec fn peer_info(self, peer: Seq<u8>) -> PeerInfoView {
        self.entries()[self.spec_index_of(peer)].1
    }

    /// In a well-formed store, entry `i` is what the map view returns for its key.
    proof fn lemma_lookup(self, i: int)
        requires
            self.wf(),
            0 <= i < self.entries().len(),
        ensures
            self.contains_peer(self.entries()[i].0),
            self@.contains_key(self.entries()[i].0),
            self@[self.entries()[i].0] == self.entries()[i].1,
    {
        let k = self.entries()[i].0;
        assert(self.contains_peer(k));
        let j = self.spec_index_of(k);
        assert(0 <= j < self.entries().len() && self.entries()[j].0 == k);
        assert(j == i);
    }

    /// Appending an entry under a fresh key inserts it into the map view.
    proof fn lemma_push_entry(pre: PeerStore, post: PeerStore, k: Seq<u8>, v: PeerInfoView)
        requires
            pre.wf(),
            !pre.contains_peer(k),
            post.entries() == pre.entries().push((k, v)),
        ensures
            post.wf(),
            post@ == pre@.insert(k, v),
    {
        let n = pre.entries().len() as int;
        assert forall|i: int, j: int|
            0 <= i < j < post.entries().len() implies (#[trigger] post.entries()[i]).0 != (
        #[trigger] post.entries()[j]).0 by {
            if j < n {
                assert(post.entries()[i] == pre.entries()[i]);
                assert(post.entries()[j] == pre.entries()[j]);
            } else {
                assert(post.entries()[j] == (k, v));
                assert(post.entries()[i] == pre.entries()[i]);
                assert(pre.contains_peer(pre.entries()[i].0));
            }
        }
        assert forall|kk: Seq<u8>| post.contains_peer(kk) implies (kk == k || pre.contains_peer(
            kk,
        )) by {
            let i = choose|i: int|
                0 <= i < post.entries().len() && (#[trigger] post.entries()[i]).0 == kk;
            if i < n {
                assert(pre.entries()[i] == post.entries()[i]);
            }
        }
        assert forall|kk: Seq<u8>| pre.contains_peer(kk) implies post.contains_peer(kk) by {
            let i = choose|i: int|
                0 <= i < pre.entries().len() && (#[trigger] pre.entries()[i]).0 == kk;
            assert(post.entries()[i] == pre.entries()[i]);
        }
        assert(post.contains_peer(k)) by {
            assert(post.entries()[n] == (k, v));
        }
        assert forall|kk: Seq<u8>| #[trigger] post@.contains_key(kk) implies post@[kk]
            == pre@.insert(k, v)[kk] by {
            let i = post.spec_index_of(kk);
            assert(0 <= i <= n && post.entries()[i].0 == kk);
            if kk == k {
                assert(i == n) by {
                    if i < n {
                        assert(pre.entries()[i] == post.entries()[i]);
                        assert(pre.contains_peer(k));
                    }
                }
                assert(post@[kk] == v);
            } else {
                assert(i < n);
                assert(post.entries()[i] == pre.entries()[i]);
                pre.lemma_lookup(i);
                post.lemma_lookup(i);
            }
        }
        assert(post@ =~= pre@.insert(k, v));
    }

    /// Replacing the entry at a key's index updates the map view at that key.
    proof fn lemma_set_entry(pre: PeerStore, post: PeerStore, i: int, v: PeerInfoView)
        requires
            pre.wf(),
            0 <= i < pre.entries().len(),
            post.entries() == pre.entries().update(i, (pre.entries()[i].0, v)),
        ensures
            post.wf(),
            post@ == pre@.insert(pre.entries()[i].0, v),
    {
        let k = pre.entries()[i].0;
        assert(post.entries().len() == pre.entries().len());
        assert forall|a: int, b: int|
            0 <= a < b < post.entries().len() implies (#[trigger] post.entries()[a]).0 != (
        #[trigger] post.entries()[b]).0 by {
            assert(post.entries()[a].0 == pre.entries()[a].0);
            assert(post.entries()[b].0 == pre.entries()[b].0);
        }
        assert forall|kk: Seq<u8>| #[trigger] post.contains_peer(kk) <==> pre.contains_peer(
            kk,
        ) by {
            if post.contains_peer(kk) {
                let a = choose|a: int|
                    0 <= a < post.entries().len() && (#[trigger] post.entries()[a]).0 == kk;
                assert(pre.entries()[a].0 == kk);
            }
            if pre.contains_peer(kk) {
                let a = choose|a: int|
                    0 <= a < pre.entries().len() && (#[trigger] pre.entries()[a]).0 == kk;
                assert(post.entries()[a].0 == kk);
            }
        }
        assert forall|kk: Seq<u8>| #[trigger] post@.contains_key(kk) implies post@[kk]
            == pre@.insert(k, v)[kk] by {
            let a = post.spec_index_of(kk);
            assert(0 <= a < post.entries().len() && post.entries()[a].0 == kk);
            if kk == k {
                assert(a == i) by {
                    if a != i {
                        assert(pre.entries()[a].0 == kk);
                        assert(pre.entries()[i].0 == kk);
                    }
                }
                assert(post@[kk] == v);
            } else {
                assert(a != i);
                assert(post.entries()[a] == pre.entries()[a]);
                pre.lemma_lookup(a);
                post.lemma_lookup(a);
            }
        }
        assert(post@ =~= pre@.insert(k, v));
    }

    /// An empty directory.
    pub fn new() -> (r: PeerStore)
        ensures
            r.wf(),
            r@ == Map::<Seq<u8>, PeerInfoView>::empty(),
    {
        let r = PeerStore { known_peers: Vec::new() };
        proof {
            assert(r.entries().len() == 0);
            assert(r@ =~= Map::<Seq<u8>, PeerInfoView>::empty());
        }
        r
    }

    /// The index of the entry holding `peer`, if any.
    fn index_of(&self, peer: &Vec<u8>) -> (r: Option<usize>)
        ensures
            (r matches Some(i) ==> i < self.entries().len() && self.entries()[i as int].0
                == peer@),
            r is None ==> !self.contains_peer(peer@),
    {
        let mut i: usize = 0;
        while i < self.known_peers.len()
            invariant
                i <= self.known_peers@.len(),
                forall|j: int| 0 <= j < i ==> (#[trigger] self.entries()[j]).0 != peer@,
            decreases self.known_peers@.len() - i,
        {
            if bytes_eq(&self.known_peers[i].0, peer) {
                assert(self.entries()[i as int].0 == peer@);
                return Some(i);
            }
            assert(self.entries()[i as int].0 == self.known_peers@[i as int].0@);
            i = i + 1;
        }
        None
    }

    /// Returns a copy of the record for `peer`, creating a fresh record first if
    /// none exists; total, never fails.
    pub fn get_or_create(&mut self, peer: &Vec<u8>, now_ms: u64) -> (r: PeerInfo)
        requires
            old(self).wf(),
        ensures
            final(self).wf(),
            final(self)@ == spec_get_or_create(old(self)@, peer@, now_ms),
            final(self)@.contains_key(peer@),
            r@ == final(self)@[peer@],
    {
        match self.index_of(peer) {
            Some(i) => {
                proof {
                    self.lemma_lookup(i as int);
                }
                let r = self.known_peers[i].1.snapshot();
                proof {
                    assert(self.entries()[i as int].1 == self.known_peers@[i as int].1@);
                }
                r
            },
            None => {
                let info = PeerInfo::new(now_ms);
                let r = info.snapshot();
                let ghost pre = *self;
                self.known_peers.push((clone_bytes(peer), info));
                proof {
                    assert(self.entries() =~= pre.entries().push((peer@, spec_fresh_info(now_ms))));
                    Self::lemma_push_entry(pre, *self, peer@, spec_fresh_info(now_ms));
                    assert(self@[peer@] == spec_fresh_info(now_ms));
                }
                r
            },
        }
    }

    /// Records `address` for `peer`, creating the record if needed, deduplicating
    /// by exact match, and refreshing the last-seen time.
    pub fn add_peer_address(&mut self, peer: &Vec<u8>, address: Vec<u8>, now_ms: u64)
        requires
            old(self).wf(),
        ensures
            final(self).wf(),
            final(self)@ == spec_add_address(old(self)@, peer@, address@, now_ms),
    {
        let ghost pre = *self;
        match self.index_of(peer) {
            Some(i) => {
                proof {
                    pre.lemma_lookup(i as int);
                }
                self.known_peers[i].1.add_address(address, now_ms);
                proof {
                    assert(self.entries() =~= pre.entries().update(
                        i as int,
                        (peer@, spec_add_address_info(pre.entries()[i as int].1, address@, now_ms)),
                    ));
                    Self::lemma_set_entry(
                        pre,
                        *self,
                        i as int,
                        spec_add_address_info(pre.entries()[i as int].1, address@, now_ms),
                    );
                }
            },
            None => {
                let mut info = PeerInfo::new(now_ms);
                info.add_address(address, now_ms);
                self.known_peers.push((clone_bytes(peer), info));
                proof {
                    let v = spec_add_address_info(spec_fresh_info(now_ms), address@, now_ms);
                    assert(self.entries() =~= pre.entries().push((peer@, v)));
                    Self::lemma_push_entry(pre, *self, peer@, v);
                    assert(spec_get_or_create(pre@, peer@, now_ms)[peer@] == spec_fresh_info(
                        now_ms,
                    ));
                    assert(self@ =~= spec_add_address(pre@, peer@, address@, now_ms));
                }
            },
        }
    }

    /// Records the identity information `peer` announced, creating the record if
    /// needed, overwriting any earlier announcement, and refreshing the record.
    pub fn add_peer_identity(
        &mut self,
        peer: &Vec<u8>,
        agent_version: String,
        protocols: Vec<String>,
        now_ms: u64,
    )
        requires
            old(self).wf(),
        ensures
            final(self).wf(),
            final(self)@ == spec_add_identity(
                old(self)@,
                peer@,
                agent_version@,
                protocols.deep_view(),
                now_ms,
            ),
    {
        let ghost pre = *self;
        let ghost agent = agent_version@;
        let ghost protos = protocols.deep_view();
        match self.index_of(peer) {
            Some(i) => {
                proof {
                    pre.lemma_lookup(i as int);
                }
                self.known_peers[i].1.add_identity(agent_version, protocols, now_ms);
                proof {
                    assert(self.entries() =~= pre.entries().update(
                        i as int,
                        (peer@, spec_add_identity_info(pre.entries()[i as int].1, agent, protos, now_ms)),
                    ));
                    Self::lemma_set_entry(
                        pre,
                        *self,
                        i as int,
                        spec_add_identity_info(pre.entries()[i as int].1, agent, protos, now_ms),
                    );
                }
            },
            None => {
                let mut info = PeerInfo::new(now_ms);
                info.add_identity(agent_version, protocols, now_ms);
                self.known_peers.push((clone_bytes(peer), info));
                proof {
                    let v = spec_add_identity_info(spec_fresh_info(now_ms), agent, protos, now_ms);
                    assert(self.entries() =~= pre.entries().push((peer@, v)));
                    Self::lemma_push_entry(pre, *self, peer@, v);
                    assert(spec_get_or_create(pre@, peer@, now_ms)[peer@] == spec_fresh_info(
                        now_ms,
                    ));
                    assert(self@ =~= spec_add_identity(pre@, peer@, agent, protos, now_ms));
                }
            },
        }
    }

    /// The trust flag of `peer`'s record, creating the record first if none exists.
    pub fn is_peer_trusted(&mut self, peer: &Vec<u8>, now_ms: u64) -> (r: bool)
        requires
            old(self).wf(),
        ensures
            final(self).wf(),
            final(self)@ == spec_get_or_create(old(self)@, peer@, now_ms),
            r == final(self)@[peer@].is_trusted,
    {
        let info = self.get_or_create(peer, now_ms);
        info.trusted()
    }

    /// A snapshot of every (peer, record) pair at call time; no order is promised.
    /// On a well-formed directory the snapshot enumerates the map view exactly:
    /// every element is a (key, record) pair of the map, every key of the map
    /// appears, and no key appears twice.
    pub fn list_peers(&self) -> (r: Vec<(Vec<u8>, PeerInfo)>)
        ensures
            r@.len() == self.entries().len(),
            forall|i: int|
                0 <= i < r@.len() ==> ((#[trigger] r@[i]).0@, r@[i].1@) == self.entries()[i],
            self.wf() ==> forall|i: int|
                0 <= i < r@.len() ==> self@.contains_key((#[trigger] r@[i]).0@) && self@[r@[i].0@]
                    == r@[i].1@,
            self.wf() ==> forall|k: Seq<u8>| #[trigger]
                self@.contains_key(k) ==> exists|i: int|
                    0 <= i < r@.len() && (#[trigger] r@[i]).0@ == k,
            self.wf() ==> forall|i: int, j: int|
                0 <= i < j < r@.len() ==> (#[trigger] r@[i]).0@ != (#[trigger] r@[j]).0@,
    {
        let mut r: Vec<(Vec<u8>, PeerInfo)> = Vec::new();
        let mut i: usize = 0;
        while i < self.known_peers.len()
            invariant
                i <= self.known_peers@.len(),
                r@.len() == i,
                forall|j: int|
                    0 <= j < i ==> ((#[trigger] r@[j]).0@, r@[j].1@) == self.entries()[j],
            decreases self.known_peers@.len() - i,
        {
            let key = clone_bytes(&self.known_peers[i].0);
            let info = self.known_peers[i].1.snapshot();
            r.push((key, info));
            proof {
                assert(self.entries()[i as int] == (
                    self.known_peers@[i as int].0@,
                    self.known_peers@[i as int].1@,
                ));
            }
            i = i + 1;
        }
        proof {
            if self.wf() {
                assert forall|a: int| 0 <= a < r@.len() implies self@.contains_key(
                    (#[trigger] r@[a]).0@,
                ) && self@[r@[a].0@] == r@[a].1@ by {
                    self.lemma_lookup(a);
                }
                assert forall|k: Seq<u8>| #[trigger] self@.contains_key(k) implies exists|a: int|
                    0 <= a < r@.len() && (#[trigger] r@[a]).0@ == k by {
                    assert(self.contains_peer(k));
                    let a = choose|a: int|
                        0 <= a < self.entries().len() && (#[trigger] self.entries()[a]).0 == k;
                    assert(r@[a].0@ == k);
                }
            }
        }
        r
    }

    /// Stores `info` under `peer_id`, replacing any existing record.
    pub fn insert_peer_info(&mut self, peer_id: Vec<u8>, info: PeerInfo)
        requires
            old(self).wf(),
        ensures
            final(self).wf(),
            final(self)@ == old(self)@.insert(peer_id@, info@),
    {
        let ghost pre = *self;
        let ghost v = info@;
        match self.index_of(&peer_id) {
            Some(i) => {
                let ghost k = pre.entries()[i as int].0;
                self.known_peers[i] = (peer_id, info);
                proof {
                    assert(self.entries() =~= pre.entries().update(i as int, (k, v)));
                    Self::lemma_set_entry(pre, *self, i as int, v);
                }
            },
            None => {
                self.known_peers.push((peer_id, info));
                proof {
                    assert(self.entries() =~= pre.entries().push((peer_id@, v)));
                    Self::lemma_push_entry(pre, *self, peer_id@, v);
                }
            },
        }
    }

    /// Filtering a key-unique entry sequence keeps keys unique, and an element
    /// survives exactly when it was present and satisfies the predicate.
    proof fn lemma_filter_keyed(
        s: Seq<(Seq<u8>, PeerInfoView)>,
        pred: spec_fn((Seq<u8>, PeerInfoView)) -> bool,
    )
        requires
            forall|i: int, j: int| 0 <= i < j < s.len() ==> (#[trigger] s[i]).0 != (#[trigger] s[j]).0,
        ensures
            forall|i: int, j: int|
                0 <= i < j < s.filter(pred).len() ==> (#[trigger] s.filter(pred)[i]).0 != (
                #[trigger] s.filter(pred)[j]).0,
            forall|p: (Seq<u8>, PeerInfoView)| #[trigger]
                s.filter(pred).contains(p) <==> (s.contains(p) && pred(p)),
        decreases s.len(),
    {
        reveal(Seq::filter);
        if s.len() > 0 {
            let butlast = s.drop_last();
            assert forall|i: int, j: int|
                0 <= i < j < butlast.len() implies (#[trigger] butlast[i]).0 != (
            #[trigger] butlast[j]).0 by {
                assert(s[i] == butlast[i]);
                assert(s[j] == butlast[j]);
            }
            Self::lemma_filter_keyed(butlast, pred);
            let bf = butlast.filter(pred);
            assert forall|p: (Seq<u8>, PeerInfoView)| #[trigger]
                s.filter(pred).contains(p) <==> (s.contains(p) && pred(p)) by {
                if s.filter(pred).contains(p) {
                    if pred(s.last()) {
                        assert(s.filter(pred) == bf.push(s.last()));
                        let i = choose|i: int|
                            0 <= i < s.filter(pred).len() && s.filter(pred)[i] == p;
                        if i < bf.len() {
                            assert(bf.contains(p));
                            let j = choose|j: int| 0 <= j < butlast.len() && butlast[j] == p;
                            assert(s[j] == p);
                        } else {
                            assert(p == s.last());
                            assert(s[s.len() - 1] == p);
                        }
                    } else {
                        assert(s.filter(pred) == bf);
                        let j = choose|j: int| 0 <= j < butlast.len() && butlast[j] == p;
                        assert(s[j] == p);
                    }
                }
                if s.contains(p) && pred(p) {
                    let i = choose|i: int| 0 <= i < s.len() && s[i] == p;
                    if i < s.len() - 1 {
                        assert(butlast[i] == p);
                        assert(bf.contains(p));
                        let j = choose|j: int| 0 <= j < bf.len() && bf[j] == p;
                        if pred(s.last()) {
                            assert(s.filter(pred)[j] == p);
                        } else {
                            assert(s.filter(pred)[j] == p);
                        }
                    } else {
                        assert(p == s.last());
                        assert(s.filter(pred).last() == p);
                    }
                }
            }
            if pred(s.last()) {
                assert forall|i: int, j: int|
                    0 <= i < j < s.filter(pred).len() implies (#[trigger] s.filter(pred)[i]).0
                    != (#[trigger] s.filter(pred)[j]).0 by {
                    let f = s.filter(pred);
                    if j < f.len() - 1 {
                        assert(f[i] == bf[i] && f[j] == bf[j]);
                    } else {
                        assert(f[j] == s.last());
                        assert(f[i] == bf[i]);
                        assert(bf.contains(bf[i]));
                        assert(butlast.contains(bf[i]) && pred(bf[i]));
                        let a = choose|a: int| 0 <= a < butlast.len() && butlast[a] == bf[i];
                        assert(s[a] == bf[i]);
                        assert(s[a].0 != s[s.len() - 1].0);
                    }
                }
            }
        }
    }

    /// Removes every record whose age (now minus last-seen) exceeds `max_age_ms`;
    /// a record of age exactly `max_age_ms` survives, and a record last seen in
    /// the future is removed as stale.
    pub fn prune_stale(&mut self, max_age_ms: u64, now_ms: u64)
        requires
            old(self).wf(),
        ensures
            final(self).wf(),
            final(self)@ == spec_prune(old(self)@, max_age_ms, now_ms),
    {
        let ghost pre = *self;
        let ghost pred = |e: (Seq<u8>, PeerInfoView)| spec_keep(e.1, max_age_ms, now_ms);
        let mut i: usize = 0;
        let ghost j: int = 0;
        while i < self.known_peers.len()
            invariant
                0 <= j <= pre.entries().len(),
                i as int == pre.entries().take(j).filter(pred).len(),
                self.entries() =~= pre.entries().take(j).filter(pred) + pre.entries().skip(j),
                pre.wf(),
                pred == (|e: (Seq<u8>, PeerInfoView)| spec_keep(e.1, max_age_ms, now_ms)),
            decreases self.known_peers@.len() - i,
        {
            proof {
                reveal(Seq::filter);
            }
            let ghost cur = pre.entries()[j];
            assert(self.entries()[i as int] == cur);
            assert(self.entries()[i as int].1 == self.known_peers@[i as int].1@);
            let last_seen = self.known_peers[i].1.last_seen;
            assert(last_seen == cur.1.last_seen);
            let keep = last_seen <= now_ms && now_ms - last_seen <= max_age_ms;
            proof {
                assert(pre.entries().take(j + 1).drop_last() =~= pre.entries().take(j));
                assert(pre.entries().take(j + 1).last() == cur);
                assert(pre.entries().take(j + 1).filter(pred) == if pred(cur) {
                    pre.entries().take(j).filter(pred).push(cur)
                } else {
                    pre.entries().take(j).filter(pred)
                });
                assert(pre.entries().skip(j) =~= seq![cur] + pre.entries().skip(j + 1));
            }
            if keep {
                proof {
                    assert(pred(cur));
                    let a = pre.entries().take(j).filter(pred);
                    let b = pre.entries().skip(j + 1);
                    assert(self.entries() =~= a + (seq![cur] + b));
                    assert(a + (seq![cur] + b) =~= a.push(cur) + b);
                    assert(pre.entries().take(j + 1).filter(pred) =~= a.push(cur));
                    assert(self.entries() =~= pre.entries().take(j + 1).filter(pred) + b);
                }
                i = i + 1;
            } else {
                let ghost before = self.entries();
                self.known_peers.remove(i);
                proof {
                    assert(!pred(cur));
                    let a = pre.entries().take(j).filter(pred);
                    let b = pre.entries().skip(j + 1);
                    assert(self.entries() =~= before.remove(i as int));
                    assert(before =~= a + (seq![cur] + b));
                    assert(before.remove(i as int) =~= a + b);
                    assert(self.entries() =~= pre.entries().take(j + 1).filter(pred) + b);
                }
            }
            proof {
                j = j + 1;
            }
        }
        proof {
            assert(pre.entries().skip(j).len() == 0);
            assert(j == pre.entries().len());
            assert(pre.entries().take(j) =~= pre.entries());
            assert(self.entries() =~= pre.entries().filter(pred));
            Self::lemma_filter_keyed(pre.entries(), pred);
            let f = pre.entries().filter(pred);
            assert forall|kk: Seq<u8>| #[trigger]
                self@.contains_key(kk) <==> spec_prune(pre@, max_age_ms, now_ms).contains_key(
                kk,
            ) by {
                if self.contains_peer(kk) {
                    let a = self.spec_index_of(kk);
                    assert(f.contains(f[a]));
                    assert(pre.entries().contains(f[a]) && pred(f[a]));
                    let b = choose|b: int|
                        0 <= b < pre.entries().len() && pre.entries()[b] == f[a];
                    pre.lemma_lookup(b);
                }
                if pre@.contains_key(kk) && spec_keep(pre@[kk], max_age_ms, now_ms) {
                    let b = pre.spec_index_of(kk);
                    assert(pre.entries().contains(pre.entries()[b]));
                    assert(f.contains(pre.entries()[b]));
                    let a = choose|a: int| 0 <= a < f.len() && f[a] == pre.entries()[b];
                    assert(self.entries()[a].0 == kk);
                }
            }
            assert forall|kk: Seq<u8>| #[trigger] self@.contains_key(kk) implies self@[kk]
                == spec_prune(pre@, max_age_ms, now_ms)[kk] by {
                let a = self.spec_index_of(kk);
                assert(f.contains(f[a]));
                assert(pre.entries().contains(f[a]) && pred(f[a]));
                let b = choose|b: int| 0 <= b < pre.entries().len() && pre.entries()[b] == f[a];
                pre.lemma_lookup(b);
                self.lemma_lookup(a);
            }
            assert(self@ =~= spec_prune(pre@, max_age_ms, now_ms));
        }
    }
}

/// Address deduplication: adding an address a second time leaves the record's
/// address count unchanged; adding an address not yet present grows it by one.
pub proof fn lemma_address_deduplication(
    m: Map<Seq<u8>, PeerInfoView>,
    peer: Seq<u8>,
    addr: Seq<u8>,
    t1: u64,
    t2: u64,
)
    ensures
        spec_add_address(spec_add_address(m, peer, addr, t1), peer, addr, t2)[peer].addresses
            == spec_add_address(m, peer, addr, t1)[peer].addresses,
        !(m.contains_key(peer) && m[peer].addresses.contains(addr)) ==> spec_add_address(
            m,
            peer,
            addr,
            t1,
        )[peer].addresses.len() == (if m.contains_key(peer) {
            m[peer].addresses.len()
        } else {
            0
        }) + 1,
        forall|other: Seq<u8>|
            !spec_add_address(m, peer, addr, t1)[peer].addresses.contains(other)
                ==> #[trigger] spec_add_address(
                spec_add_address(m, peer, addr, t1),
                peer,
                other,
                t2,
            )[peer].addresses.len() == spec_add_address(m, peer, addr, t1)[peer].addresses.len()
                + 1,
{
    let m1 = spec_add_address(m, peer, addr, t1);
    assert(m1[peer].addresses.contains(addr)) by {
        let base = spec_get_or_create(m, peer, t1);
        if !base[peer].addresses.contains(addr) {
            assert(m1[peer].addresses.last() == addr);
        }
    }
}

/// Freshness refresh: recording an address or an identity announcement always
/// leaves the record's last-seen time at a value no earlier than the previous
/// one, and at the clock reading itself whenever the clock has not stepped back.
pub proof fn lemma_freshness_refresh(
    m: Map<Seq<u8>, PeerInfoView>,
    peer: Seq<u8>,
    addr: Seq<u8>,
    agent: Seq<char>,
    protocols: Seq<Seq<char>>,
    now: u64,
)
    ensures
        m.contains_key(peer) ==> spec_add_address(m, peer, addr, now)[peer].last_seen >= m[
            peer
        ].last_seen,
        m.contains_key(peer) ==> spec_add_identity(m, peer, agent, protocols, now)[peer].last_seen
            >= m[peer].last_seen,
        spec_add_address(m, peer, addr, now)[peer].last_seen >= now,
        spec_add_identity(m, peer, agent, protocols, now)[peer].last_seen >= now,
        (m.contains_key(peer) ==> m[peer].last_seen <= now) ==> spec_add_address(
            m,
            peer,
            addr,
            now,
        )[peer].last_seen == now && spec_add_identity(m, peer, agent, protocols, now)[
            peer
        ].last_seen == now,
{
}

/// Pruning boundary: a record one unit older than the maximum age is removed; a
/// record of age exactly the maximum, or one unit younger, survives unchanged.
pub proof fn lemma_pruning_boundary(
    m: Map<Seq<u8>, PeerInfoView>,
    peer: Seq<u8>,
    max_age_ms: u64,
    now_ms: u64,
)
    requires
        m.contains_key(peer),
    ensures
        m[peer].last_seen == now_ms - max_age_ms - 1 ==> !spec_prune(
            m,
            max_age_ms,
            now_ms,
        ).contains_key(peer),
        m[peer].last_seen == now_ms - max_age_ms && m[peer].last_seen <= now_ms ==> (spec_prune(
            m,
            max_age_ms,
            now_ms,
        ).contains_key(peer) && spec_prune(m, max_age_ms, now_ms)[peer] == m[peer]),
        m[peer].last_seen == now_ms - max_age_ms + 1 && m[peer].last_seen <= now_ms ==> (
        spec_prune(m, max_age_ms, now_ms).contains_key(peer) && spec_prune(
            m,
            max_age_ms,
            now_ms,
        )[peer] == m[peer]),
{
}

/// Clock-skew fail-safe: a record whose last-seen time lies in the future relative
/// to `now` is removed by pruning, never kept alive by the anomaly.
pub proof fn lemma_clock_skew_fail_safe(
    m: Map<Seq<u8>, PeerInfoView>,
    peer: Seq<u8>,
    max_age_ms: u64,
    now_ms: u64,
)
    requires
        m.contains_key(peer),
        m[peer].last_seen > now_ms,
    ensures
        !spec_prune(m, max_age_ms, now_ms).contains_key(peer),
{
}

} // verus!



