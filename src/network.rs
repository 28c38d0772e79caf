use vstd::prelude::*;

use crate::addr::{
    addrs_view, copy_addrs, copy_relay, relay_view, stun_port_of, NodeAddr, NodeAddrModel, RelayUrl,
    SocketAddress, SocketAddressModel,
};
use crate::address_book::{
    book_wf, by_recency, lemma_added_peer_is_known, lemma_by_recency_distinct, records_view, sources_of, spec_insert_or_merge, AddressBook, PeerRecord, PeerSource, PeerSources,
    RecordModel,
};
use crate::gossip_buffer::{
    holds_of, lemma_arrive_counts, lemma_hold_counts, lemma_release_counts, queue_of, spec_arrive,
    spec_hold, spec_release, BufferModel, GossipBuffer, GossipEntry,
    GossipEntryModel,
};
use crate::ids::{bytes_eq, copy_bytes, PeerId, Topic, TopicId, TopicModel};
use crate::protocols::{alpn_slot, ProtocolMap, Route};
use crate::registry::{overlay_joined, subs_view, TopicRegistry};
use crate::scheduler::{
    attempts_of, held_count, next_state, topic_view, scheduler_wf, holds_overlay, lemma_held_count_cancel, lemma_held_count_push,
    lemma_held_count_remove, lemma_held_count_update, cancelled_by, has_session, is_candidate, saturating_inc, HistoryModel, no_duplicate_in_flight, session_slot, spec_advance, spec_handshake,
    Direction, ResyncConfiguration, SchedulerModel, SessionEnd, SessionEvent, SessionModel,
    SessionState, StepModel, StepOutcome, SyncFailure, SyncScheduler,
};

verus! {

/// An event to be broadcast to the network.
#[derive(Clone, Debug, PartialEq, Eq)]
pub enum ToNetwork {
    Message { bytes: Vec<u8> },
}

/// An event received from the network.
#[derive(Clone, Debug, PartialEq, Eq)]
pub enum FromNetwork {
    GossipMessage { bytes: Vec<u8>, delivered_from: PeerId },
    SyncMessage { header: Vec<u8>, payload: Option<Vec<u8>>, delivered_from: PeerId },
}

pub enum FromNetworkModel {
    GossipMessage { bytes: Seq<u8>, delivered_from: Seq<u8> },
    SyncMessage { header: Seq<u8>, payload: Option<Seq<u8>>, delivered_from: Seq<u8> },
}

pub open spec fn payload_view(p: Option<Vec<u8>>) -> Option<Seq<u8>> {
    match p {
        Some(v) => Some(v@),
        None => None,
    }
}

impl View for FromNetwork {
    type V = FromNetworkModel;

    open spec fn view(&self) -> FromNetworkModel {
        match self {
            FromNetwork::GossipMessage { bytes, delivered_from } => FromNetworkModel::GossipMessage {
                bytes: bytes@,
                delivered_from: delivered_from@,
            },
            FromNetwork::SyncMessage { header, payload, delivered_from } => FromNetworkModel::SyncMessage {
                header: header@,
                payload: payload_view(*payload),
                delivered_from: delivered_from@,
            },
        }
    }
}

/// A relay node: its URL, whether it only offers STUN, and the port of its STUN service.
#[derive(Clone, Debug, PartialEq, Eq)]
pub struct RelayNode {
    pub url: RelayUrl,
    pub stun_only: bool,
    pub stun_port: u16,
}

/// Relay server configuration mode.
#[derive(Clone, Debug, PartialEq, Eq)]
pub enum RelayMode {
    /// No relay: a peer's direct address must be known to reach it.
    Disabled,
    /// A custom relay, used to find direct addresses and as a fallback route. Peers need
    /// to use the same relay to reach each other through it.
    Custom(RelayNode),
}

pub struct RelayNodeModel {
    pub url: (Seq<char>, Option<u16>),
    pub stun_only: bool,
    pub stun_port: u16,
}

pub open spec fn relay_mode_view(m: RelayMode) -> Option<RelayNodeModel> {
    match m {
        RelayMode::Disabled => None,
        RelayMode::Custom(n) => Some(RelayNodeModel { url: n.url@, stun_only: n.stun_only, stun_port: n.stun_port }),
    }
}

impl RelayNode {
    pub fn copy(&self) -> (r: RelayNode)
        ensures
            r.url@ == self.url@,
            r.stun_only == self.stun_only,
            r.stun_port == self.stun_port,
    {
        RelayNode { url: self.url.copy(), stun_only: self.stun_only, stun_port: self.stun_port }
    }
}

/// Sync settings: how many sessions may run at once and whether finished ones re-run.
#[derive(Clone, Copy, Debug, PartialEq, Eq, Structural)]
pub struct SyncConfiguration {
    pub max_concurrent: usize,
    pub resync: Option<ResyncConfiguration>,
}

/// Default bound on concurrent sync sessions.
pub const DEFAULT_MAX_CONCURRENT_SYNC_SESSIONS: usize = 128;

impl SyncConfiguration {
    pub fn new() -> (r: SyncConfiguration)
        ensures
            r.max_concurrent == DEFAULT_MAX_CONCURRENT_SYNC_SESSIONS,
            r.resync is None,
    {
        SyncConfiguration { max_concurrent: DEFAULT_MAX_CONCURRENT_SYNC_SESSIONS, resync: None }
    }

    /// Re-runs finished sessions after `interval`, up to `max_attempts` sessions.
    pub fn resync(self, interval: u64, max_attempts: u32) -> (r: SyncConfiguration)
        ensures
            r.max_concurrent == self.max_concurrent,
            r.resync == Some(ResyncConfiguration { interval, max_attempts }),
    {
        SyncConfiguration {
            resync: Some(ResyncConfiguration { interval, max_attempts }),
            ..self
        }
    }

    pub fn max_concurrent(self, n: usize) -> (r: SyncConfiguration)
        ensures
            r.max_concurrent == n,
            r.resync == self.resync,
    {
        SyncConfiguration { max_concurrent: n, ..self }
    }
}

/// Port the IPv4 socket binds to when none is set; IPv6 binds to the next one.
pub const DEFAULT_BIND_PORT: u16 = 2022;

/// A node's configuration.
pub struct Config {
    pub bind_port: u16,
    pub network_id: [u8; 32],
    /// Where the node's private key is kept.
    pub private_key: Option<String>,
    /// Peers to reach at start: id, direct addresses and relay.
    pub direct_node_addresses: Vec<(PeerId, Vec<SocketAddress>, Option<RelayUrl>)>,
    pub relay: Option<RelayUrl>,
}

pub open spec fn gossip_alpn_bytes() -> Seq<u8> {
    seq![47u8, 105, 114, 111, 104, 45, 103, 111, 115, 115, 105, 112, 47, 48]
}

pub open spec fn sync_alpn_bytes() -> Seq<u8> {
    seq![47u8, 112, 50, 112, 97, 110, 100, 97, 45, 110, 101, 116, 45, 115, 121, 110, 99, 47, 48]
}

/// ALPN of the gossip overlay: `/iroh-gossip/0`.
pub fn gossip_alpn() -> (r: Vec<u8>)
    ensures
        r@ == gossip_alpn_bytes(),
{
    let r: Vec<u8> = vec![47u8, 105, 114, 111, 104, 45, 103, 111, 115, 115, 105, 112, 47, 48];
    assert(r@ =~= seq![47u8, 105, 114, 111, 104, 45, 103, 111, 115, 115, 105, 112, 47, 48]);
    r
}

/// ALPN of sync sessions: `/p2panda-net-sync/0`.
pub fn sync_alpn() -> (r: Vec<u8>)
    ensures
        r@ == sync_alpn_bytes(),
{
    let r: Vec<u8> = vec![
        47u8, 112, 50, 112, 97, 110, 100, 97, 45, 110, 101, 116, 45, 115, 121, 110, 99, 47, 48,
    ];
    assert(r@ =~= seq![47u8, 112, 50, 112, 97, 110, 100, 97, 45, 110, 101, 116, 45, 115, 121, 110, 99, 47, 48]);
    r
}

pub open spec fn node_addrs_view(v: Seq<NodeAddr>) -> Seq<NodeAddrModel> {
    v.map_values(|a: NodeAddr| a@)
}

/// Builds a node for peers grouped under one network identifier.
pub struct NetworkBuilder {
    pub bind_port: Option<u16>,
    pub direct_node_addresses: Vec<NodeAddr>,
    pub network_id: [u8; 32],
    pub protocols: ProtocolMap,
    pub relay_mode: RelayMode,
    pub secret_key: Option<[u8; 32]>,
    pub sync_config: Option<SyncConfiguration>,
}

impl NetworkBuilder {
    /// A builder for the network `network_id`, with nothing else set.
    pub fn new(network_id: [u8; 32]) -> (r: NetworkBuilder)
        ensures
            r.bind_port is None,
            r.direct_node_addresses@.len() == 0,
            r.network_id == network_id,
            r.protocols.wf(),
            r.protocols@.len() == 0,
            r.relay_mode is Disabled,
            r.secret_key is None,
            r.sync_config is None,
    {
        NetworkBuilder {
            bind_port: None,
            direct_node_addresses: Vec::new(),
            network_id,
            protocols: ProtocolMap::new(),
            relay_mode: RelayMode::Disabled,
            secret_key: None,
            sync_config: None,
        }
    }

    /// A builder set up from `config`: its network, port, peers and relay. The relay's STUN
    /// service is taken at the URL's port, else at the default one.
    pub fn from_config(config: Config) -> (r: NetworkBuilder)
        ensures
            r.bind_port == Some(config.bind_port),
            r.network_id == config.network_id,
            r.secret_key is None,
            r.sync_config is None,
            r.protocols.wf(),
            r.protocols@.len() == 0,
            node_addrs_view(r.direct_node_addresses@) == config.direct_node_addresses@.map_values(
                |e: (PeerId, Vec<SocketAddress>, Option<RelayUrl>)|
                    NodeAddrModel { node_id: e.0@, relay_url: relay_view(e.2), direct_addresses: addrs_view(e.1@) },
            ),
            relay_mode_view(r.relay_mode) == match config.relay {
                None => None::<RelayNodeModel>,
                Some(u) => Some(RelayNodeModel { url: u@, stun_only: false, stun_port: stun_port_of(u@.1) }),
            },
    {
        let Config { bind_port, network_id, private_key: _, direct_node_addresses, relay } = config;
        let ghost f = |e: (PeerId, Vec<SocketAddress>, Option<RelayUrl>)|
            NodeAddrModel { node_id: e.0@, relay_url: relay_view(e.2), direct_addresses: addrs_view(e.1@) };
        let ghost entries = direct_node_addresses@;
        let mut b = NetworkBuilder::new(network_id).bind_port(bind_port);
        let mut i: usize = 0;
        assert(node_addrs_view(b.direct_node_addresses@) =~= entries.subrange(0, 0).map_values(f));
        while i < direct_node_addresses.len()
            invariant
                i <= entries.len(),
                entries == direct_node_addresses@,
                f == (|e: (PeerId, Vec<SocketAddress>, Option<RelayUrl>)|
                    NodeAddrModel { node_id: e.0@, relay_url: relay_view(e.2), direct_addresses: addrs_view(e.1@) }),
                b.bind_port == Some(bind_port),
                b.network_id == network_id,
                b.secret_key is None,
                b.sync_config is None,
                b.protocols.wf(),
                b.protocols@.len() == 0,
                b.relay_mode is Disabled,
                b.direct_node_addresses@.len() == i,
                node_addrs_view(b.direct_node_addresses@) == entries.subrange(0, i as int).map_values(f),
            decreases entries.len() - i,
        {
            let e = &direct_node_addresses[i];
            let ghost before = node_addrs_view(b.direct_node_addresses@);
            b = b.direct_address(e.0.copy(), copy_addrs(&e.1), copy_relay(&e.2));
            i = i + 1;
            proof {
                assert(node_addrs_view(b.direct_node_addresses@) =~= before.push(f(entries[i - 1])));
                assert(entries.subrange(0, i as int).map_values(f) =~= entries.subrange(
                    0,
                    i - 1,
                ).map_values(f).push(f(entries[i - 1])));
            }
        }
        assert(entries.subrange(0, entries.len() as int) =~= entries);
        match relay {
            Some(url) => {
                let port = url.stun_port();
                b = b.relay(url, false, port);
            },
            None => {},
        }
        b
    }

    /// Sets the private key of the node; without one a fresh key is made when it starts.
    pub fn private_key(self, private_key: [u8; 32]) -> (r: NetworkBuilder)
        ensures
            r.secret_key == Some(private_key),
            r.bind_port == self.bind_port,
            r.direct_node_addresses == self.direct_node_addresses,
            r.network_id == self.network_id,
            r.protocols == self.protocols,
            r.relay_mode == self.relay_mode,
            r.sync_config == self.sync_config,
    {
        NetworkBuilder { secret_key: Some(private_key), ..self }
    }

    /// Sets the relay that helps establishing connections, and relays traffic where no
    /// direct connection can be made.
    pub fn relay(self, url: RelayUrl, stun_only: bool, stun_port: u16) -> (r: NetworkBuilder)
        ensures
            relay_mode_view(r.relay_mode) == Some(RelayNodeModel { url: url@, stun_only, stun_port }),
            r.bind_port == self.bind_port,
            r.direct_node_addresses == self.direct_node_addresses,
            r.network_id == self.network_id,
            r.protocols == self.protocols,
            r.secret_key == self.secret_key,
            r.sync_config == self.sync_config,
    {
        NetworkBuilder { relay_mode: RelayMode::Custom(RelayNode { url, stun_only, stun_port }), ..self }
    }

    /// Adds the direct addresses, and the relay if any, of a peer to reach at start.
    pub fn direct_address(
        self,
        node_id: PeerId,
        addresses: Vec<SocketAddress>,
        relay_addr: Option<RelayUrl>,
    ) -> (r: NetworkBuilder)
        ensures
            node_addrs_view(r.direct_node_addresses@) == node_addrs_view(
                self.direct_node_addresses@,
            ).push(
                NodeAddrModel {
                    node_id: node_id@,
                    relay_url: relay_view(relay_addr),
                    direct_addresses: addrs_view(addresses@),
                },
            ),
            r.direct_node_addresses@.len() == self.direct_node_addresses@.len() + 1,
            r.bind_port == self.bind_port,
            r.network_id == self.network_id,
            r.protocols == self.protocols,
            r.relay_mode == self.relay_mode,
            r.secret_key == self.secret_key,
            r.sync_config == self.sync_config,
    {
        let mut b = self;
        let ghost before = node_addrs_view(b.direct_node_addresses@);
        b.direct_node_addresses.push(
            NodeAddr { node_id, relay_url: relay_addr, direct_addresses: addresses },
        );
        proof {
            assert(node_addrs_view(b.direct_node_addresses@) =~= before.push(
                b.direct_node_addresses@.last()@,
            ));
        }
        b
    }

    /// Turns sync on, with `config`.
    pub fn sync(self, config: SyncConfiguration) -> (r: NetworkBuilder)
        ensures
            r.sync_config == Some(config),
            r.bind_port == self.bind_port,
            r.direct_node_addresses == self.direct_node_addresses,
            r.network_id == self.network_id,
            r.protocols == self.protocols,
            r.relay_mode == self.relay_mode,
            r.secret_key == self.secret_key,
    {
        NetworkBuilder { sync_config: Some(config), ..self }
    }

    /// Registers a custom protocol under `protocol_name`; its handler is kept by the
    /// transport, in the slot that the protocol map gives the name.
    pub fn protocol(self, protocol_name: &[u8]) -> (r: NetworkBuilder)
        requires
            self.protocols.wf(),
        ensures
            r.protocols.wf(),
            alpn_slot(r.protocols@, protocol_name@) is Some,
            alpn_slot(self.protocols@, protocol_name@) is Some ==> r.protocols@ == self.protocols@,
            alpn_slot(self.protocols@, protocol_name@) is None ==> r.protocols@
                == self.protocols@.push(protocol_name@),
            r.bind_port == self.bind_port,
            r.direct_node_addresses == self.direct_node_addresses,
            r.network_id == self.network_id,
            r.relay_mode == self.relay_mode,
            r.secret_key == self.secret_key,
            r.sync_config == self.sync_config,
    {
        let mut b = self;
        b.protocols.insert(protocol_name);
        b
    }

    /// The node's engine, ready to run: the transport binds the IPv4 port (the default one
    /// where none is set) and the next port for IPv6; the gossip ALPN, and the sync ALPN
    /// where sync is on, join the custom protocols; and every configured peer enters the
    /// address book as a bootstrap peer, with this node's relay where it names none.
    /// `direct_addresses` are the first direct addresses that the bound transport reported
    /// within the startup wait; with none, the node does not start.
    pub fn build(self, node_id: PeerId, direct_addresses: Vec<SocketAddress>, now: u64) -> (r:
        Result<Network, NetworkError>)
        requires
            self.protocols.wf(),
        ensures
            effective_bind_port(self.bind_port) == u16::MAX ==> r == Err::<Network, NetworkError>(
                NetworkError::BindPortOutOfRange,
            ),
            effective_bind_port(self.bind_port) < u16::MAX && direct_addresses@.len() == 0 ==> r
                == Err::<Network, NetworkError>(NetworkError::NoDirectAddress),
            effective_bind_port(self.bind_port) < u16::MAX && direct_addresses@.len() > 0 ==> (
            r matches Ok(n) && {
                &&& n.wf()
                &&& n.is_running()
                &&& n.local_id() == node_id@
                &&& n.network() == self.network_id
                &&& n.ports() == (
                    effective_bind_port(self.bind_port),
                    (effective_bind_port(self.bind_port) + 1) as u16,
                )
                &&& n.subscriptions().len() == 0
                &&& n.sync_sessions().sessions.len() == 0
                &&& n.gossip_buffer().topics.len() == 0
                &&& n.local_addresses() == Some(addrs_view(direct_addresses@))
                &&& n.sync_sessions().next_id == 0
                &&& n.sync_sessions().history.len() == 0
                &&& n.sync_configuration() == self.sync_config
                &&& n.relay_url() == relay_url_of(self.relay_mode)
                &&& n.peers() == bootstrap_book(
                    node_addrs_view(self.direct_node_addresses@),
                    relay_url_of(self.relay_mode),
                    now,
                )
                &&& n.alpns().contains(gossip_alpn_bytes())
                &&& self.sync_config is Some ==> n.alpns().contains(sync_alpn_bytes())
                &&& forall|a: Seq<u8>|
                    #![trigger n.alpns().contains(a)]
                    n.alpns().contains(a) <==> (self.protocols@.contains(a) || a
                        == gossip_alpn_bytes() || (self.sync_config is Some && a
                        == sync_alpn_bytes()))
            }),
    {
        let port = match self.bind_port {
            Some(p) => p,
            None => DEFAULT_BIND_PORT,
        };
        if port == u16::MAX {
            return Err(NetworkError::BindPortOutOfRange);
        }
        if direct_addresses.len() == 0 {
            return Err(NetworkError::NoDirectAddress);
        }
        let NetworkBuilder {
            bind_port: _,
            direct_node_addresses,
            network_id,
            protocols,
            relay_mode,
            secret_key: _,
            sync_config,
        } = self;
        let ghost orig = protocols@;
        let mut protocols = protocols;
        let g = gossip_alpn();
        protocols.insert(g.as_slice());
        proof {
            assert(protocols@.contains(g@)) by {
                let w = choose|w: int| 0 <= w < protocols@.len() && protocols@[w] == g@;
            }
        }
        let ghost after_gossip = protocols@;
        if sync_config.is_some() {
            let sa = sync_alpn();
            protocols.insert(sa.as_slice());
            proof {
                assert(protocols@.contains(sa@)) by {
                    let w = choose|w: int| 0 <= w < protocols@.len() && protocols@[w] == sa@;
                }
                assert(protocols@.contains(g@)) by {
                    let w = choose|w: int| 0 <= w < after_gossip.len() && after_gossip[w] == g@;
                    assert(protocols@[w] == g@);
                }
            }
        }
        proof {
            lemma_push_contains(orig, g@);
            lemma_push_contains(after_gossip, sync_alpn_bytes());
            assert forall|a: Seq<u8>| #![trigger protocols@.contains(a)]
                protocols@.contains(a) <==> (orig.contains(a) || a == gossip_alpn_bytes() || (
                sync_config is Some && a == sync_alpn_bytes())) by {
                assert(after_gossip.contains(a) <==> (orig.contains(a) || a == g@));
                if sync_config is None {
                    assert(protocols@ == after_gossip);
                }
            }
        }
        let relay = match relay_mode {
            RelayMode::Disabled => None,
            RelayMode::Custom(n) => Some(n),
        };
        let ghost relay_m = node_url(relay);
        let ghost addrs = node_addrs_view(direct_node_addresses@);
        let mut book = AddressBook::new();
        let mut i: usize = 0;
        proof {
            assert(addrs.subrange(0, 0) =~= Seq::<NodeAddrModel>::empty());
        }
        while i < direct_node_addresses.len()
            invariant
                i <= direct_node_addresses@.len(),
                addrs == node_addrs_view(direct_node_addresses@),
                relay_m == node_url(relay),
                book.wf(),
                book@ == bootstrap_book(addrs.subrange(0, i as int), relay_m, now),
            decreases direct_node_addresses@.len() - i,
        {
            let a = direct_node_addresses[i].copy();
            let hint = match a.relay_url {
                Some(u) => Some(u),
                None => match &relay {
                    Some(n) => Some(n.url.copy()),
                    None => None,
                },
            };
            let rec = PeerRecord {
                peer_id: a.node_id,
                direct_addresses: a.direct_addresses,
                relay_hint: hint,
                last_seen: now,
                sources: PeerSources::of(PeerSource::Bootstrap),
            };
            proof {
                assert(addrs.subrange(0, i + 1).drop_last() =~= addrs.subrange(0, i as int));
                assert(addrs.subrange(0, i + 1).last() == addrs[i as int]);
                assert(addrs[i as int] == direct_node_addresses@[i as int]@);
                assert(rec@ == bootstrap_record(addrs[i as int], relay_m, now));
            }
            book.insert_or_merge(rec);
            i = i + 1;
        }
        proof {
            assert(addrs.subrange(0, addrs.len() as int) =~= addrs);
        }
        let n = Network {
            node_id,
            network_id,
            book,
            registry: TopicRegistry::new(),
            buffer: GossipBuffer::new(DEFAULT_MAX_BUFFERED_PER_TOPIC),
            scheduler: SyncScheduler::new(),
            protocols,
            sync_config,
            relay,
            bind_port_v4: port,
            bind_port_v6: port + 1,
            direct_addresses: Some(direct_addresses),
            live_overlays: Vec::new(),
            running: true,
        };
        Ok(n)
    }

    /// Sets the local bind port for IPv4 sockets; IPv6 binds to the next port.
    pub fn bind_port(self, port: u16) -> (r: NetworkBuilder)
        ensures
            r.bind_port == Some(port),
            r.direct_node_addresses == self.direct_node_addresses,
            r.network_id == self.network_id,
            r.protocols == self.protocols,
            r.relay_mode == self.relay_mode,
            r.secret_key == self.secret_key,
            r.sync_config == self.sync_config,
    {
        NetworkBuilder { bind_port: Some(port), ..self }
    }
}

} // verus!

verus! {

/// Why the node refused a request.
#[derive(Clone, Copy, Debug, PartialEq, Eq, Structural)]
pub enum NetworkError {
    /// The node was shut down.
    ShutDown,
    /// The topic is subscribed already.
    AlreadySubscribed,
    /// The topic is not subscribed.
    NotSubscribed,
    /// No sync protocol is configured.
    SyncDisabled,
    /// The IPv4 bind port leaves no port for IPv6 above it.
    BindPortOutOfRange,
    /// No session id is left.
    SessionsExhausted,
    /// The transport reported no direct address of this node in time.
    NoDirectAddress,
}

/// A message for the subscription to `topic`.
#[derive(Clone, Debug, PartialEq, Eq)]
pub struct Delivery {
    pub topic: Topic,
    pub event: FromNetwork,
}

pub struct DeliveryModel {
    pub topic: TopicModel,
    pub event: FromNetworkModel,
}

impl View for Delivery {
    type V = DeliveryModel;

    open spec fn view(&self) -> DeliveryModel {
        DeliveryModel { topic: self.topic@, event: self.event@ }
    }
}

pub open spec fn deliveries_view(v: Seq<Delivery>) -> Seq<DeliveryModel> {
    v.map_values(|d: Delivery| d@)
}

/// A live message `e` handed to each of `subs`, in order.
pub open spec fn fan(subs: Seq<TopicModel>, e: GossipEntryModel) -> Seq<DeliveryModel> {
    subs.map_values(
        |t: TopicModel|
            DeliveryModel {
                topic: t,
                event: FromNetworkModel::GossipMessage { bytes: e.bytes, delivered_from: e.delivered_from },
            },
    )
}

/// Live messages `es`, in order, each handed to each of `subs`.
pub open spec fn fan_all(subs: Seq<TopicModel>, es: Seq<GossipEntryModel>) -> Seq<DeliveryModel>
    decreases es.len(),
{
    if es.len() == 0 {
        Seq::empty()
    } else {
        fan_all(subs, es.drop_last()) + fan(subs, es.last())
    }
}

/// Subscriptions riding overlay `id`.
pub open spec fn riding(subs: Seq<TopicModel>, id: Seq<u8>) -> Seq<TopicModel> {
    subs.filter(|t: TopicModel| t.id == id)
}

/// Default bound on live messages held per overlay during sync.
pub const DEFAULT_MAX_BUFFERED_PER_TOPIC: usize = 1024;

/// A running node's engine: address book, subscriptions, gossip buffer, sync sessions and
/// registered protocols.
pub struct Network {
    node_id: PeerId,
    network_id: [u8; 32],
    book: AddressBook,
    registry: TopicRegistry,
    buffer: GossipBuffer,
    scheduler: SyncScheduler,
    protocols: ProtocolMap,
    sync_config: Option<SyncConfiguration>,
    relay: Option<RelayNode>,
    bind_port_v4: u16,
    bind_port_v6: u16,
    direct_addresses: Option<Vec<SocketAddress>>,
    /// Overlays that reported a first neighbour since they were joined.
    live_overlays: Vec<TopicId>,
    running: bool,
}

impl Network {
    pub closed spec fn wf(&self) -> bool {
        &&& self.parts_wf()
        &&& forall|id: Seq<u8>|
            #[trigger] holds_of(self.buffer@, id) == held_count(self.scheduler@.sessions, id)
    }

    /// Every part is well formed; the hold counts may lag behind the session table.
    closed spec fn parts_wf(&self) -> bool {
        &&& self.book.wf()
        &&& self.registry.wf()
        &&& self.buffer.wf()
        &&& self.scheduler.wf()
        &&& self.protocols.wf()
        &&& !self.running ==> self.scheduler@.sessions.len() == 0 && self.registry@.len() == 0
            && self.buffer@.topics.len() == 0
    }

    pub closed spec fn peers(&self) -> Seq<RecordModel> {
        self.book@
    }

    pub closed spec fn subscriptions(&self) -> Seq<TopicModel> {
        self.registry@
    }

    pub closed spec fn gossip_buffer(&self) -> BufferModel {
        self.buffer@
    }

    pub closed spec fn sync_sessions(&self) -> SchedulerModel {
        self.scheduler@
    }

    pub closed spec fn alpns(&self) -> Seq<Seq<u8>> {
        self.protocols@
    }

    /// Overlays that reported a first neighbour since they were joined.
    pub closed spec fn live(&self) -> Seq<Seq<u8>> {
        self.live_overlays@.map_values(|t: TopicId| t@)
    }

    pub closed spec fn is_running(&self) -> bool {
        self.running
    }

    pub closed spec fn local_id(&self) -> Seq<u8> {
        self.node_id@
    }

    pub closed spec fn local_addresses(&self) -> Option<Seq<SocketAddressModel>> {
        match self.direct_addresses {
            Some(v) => Some(addrs_view(v@)),
            None => None,
        }
    }

    /// Whether no further sync session can start now: the bound is reached, session ids
    /// ran out, an overlay holds as many sessions as it can count, or no pair of a known
    /// peer and a subscribed topic is a candidate.
    pub open spec fn nothing_to_start(&self, c: SyncConfiguration, now: u64) -> bool {
        ||| self.sync_sessions().sessions.len() >= c.max_concurrent
        ||| self.sync_sessions().next_id == u64::MAX
        ||| exists|ti: int|
            0 <= ti < self.subscriptions().len() && holds_of(
                self.gossip_buffer(),
                #[trigger] self.subscriptions()[ti].id,
            ) == usize::MAX
        ||| forall|ti: int, pi: int|
            0 <= ti < self.subscriptions().len() && 0 <= pi < by_recency(self.peers()).len()
                ==> !#[trigger] is_candidate(
                self.sync_sessions(),
                by_recency(self.peers())[pi].peer,
                self.subscriptions()[ti],
                c.resync,
                now,
            )
    }

    /// Every part of the state is as in `o`.
    pub open spec fn unchanged_from(&self, o: Network) -> bool {
        &&& self.peers() == o.peers()
        &&& self.subscriptions() == o.subscriptions()
        &&& self.gossip_buffer() == o.gossip_buffer()
        &&& self.sync_sessions() == o.sync_sessions()
        &&& self.alpns() == o.alpns()
        &&& self.live() == o.live()
        &&& self.is_running() == o.is_running()
        &&& self.local_id() == o.local_id()
        &&& self.local_addresses() == o.local_addresses()
    }

    pub closed spec fn network(&self) -> [u8; 32] {
        self.network_id
    }

    pub closed spec fn ports(&self) -> (u16, u16) {
        (self.bind_port_v4, self.bind_port_v6)
    }

    /// URL of the node's relay, if it has one.
    pub closed spec fn relay_url(&self) -> Option<(Seq<char>, Option<u16>)> {
        match self.relay {
            Some(n) => Some(n.url@),
            None => None,
        }
    }

    pub closed spec fn sync_configuration(&self) -> Option<SyncConfiguration> {
        self.sync_config
    }

    /// The public key of the node.
    pub fn node_id(&self) -> (r: PeerId)
        ensures
            r@ == self.local_id(),
    {
        self.node_id.copy()
    }

    /// The network this node belongs to.
    pub fn network_id(&self) -> (r: [u8; 32])
        ensures
            r == self.network(),
    {
        self.network_id
    }

    /// Whether `network_id` is this node's network: peers of other networks are ignored.
    pub fn same_network(&self, network_id: &[u8; 32]) -> (r: bool)
        ensures
            r == (network_id@ == self.network()@),
    {
        bytes_eq(network_id.as_slice(), self.network_id.as_slice())
    }

    /// Ports the transport binds to: IPv4, and IPv6 on the next port.
    pub fn bind_ports(&self) -> (r: (u16, u16))
        ensures
            r == self.ports(),
    {
        (self.bind_port_v4, self.bind_port_v6)
    }

    /// Adds a peer to the address book, as given by hand, seen at `now`.
    pub fn add_peer(&mut self, node_addr: NodeAddr, now: u64) -> (r: Result<(), NetworkError>)
        requires
            old(self).wf(),
        ensures
            final(self).wf(),
            !old(self).is_running() ==> r == Err::<(), NetworkError>(NetworkError::ShutDown)
                && *final(self) == *old(self),
            old(self).is_running() ==> r is Ok && final(self).peers() == spec_insert_or_merge(
                old(self).peers(),
                manual_record(node_addr@, now),
            ) && final(self).subscriptions() == old(self).subscriptions() && final(self).gossip_buffer()
                == old(self).gossip_buffer() && final(self).sync_sessions() == old(self).sync_sessions()
                && final(self).is_running(),
    {
        self.add_peer_from(node_addr, now, PeerSource::Manual)
    }

    /// Adds a peer to the address book, seen at `now` and learned from `source`: by hand,
    /// at bootstrap, from a discovery provider, or as a gossip neighbour.
    pub fn add_peer_from(&mut self, node_addr: NodeAddr, now: u64, source: PeerSource) -> (r: Result<
        (),
        NetworkError,
    >)
        requires
            old(self).wf(),
        ensures
            final(self).wf(),
            !old(self).is_running() ==> r == Err::<(), NetworkError>(NetworkError::ShutDown)
                && *final(self) == *old(self),
            old(self).is_running() ==> r is Ok && final(self).peers() == spec_insert_or_merge(
                old(self).peers(),
                source_record(node_addr@, now, source),
            ) && final(self).subscriptions() == old(self).subscriptions() && final(self).gossip_buffer()
                == old(self).gossip_buffer() && final(self).sync_sessions() == old(self).sync_sessions()
                && final(self).is_running(),
            final(self).live() == old(self).live(),
    {
        if !self.running {
            return Err(NetworkError::ShutDown);
        }
        let rec = PeerRecord::from_node_addr(node_addr, now, source);
        self.book.insert_or_merge(rec);
        Ok(())
    }

    /// Number of live messages dropped because an overlay's queue was full.
    pub fn dropped_gossip(&self) -> (r: u64)
        ensures
            r == self.gossip_buffer().dropped,
    {
        self.buffer.dropped()
    }

    /// Each of `entries`, in order, handed to every subscription riding overlay `id`.
    fn deliver_gossip(&self, id: &TopicId, entries: Vec<GossipEntry>) -> (r: Vec<Delivery>)
        requires
            self.parts_wf(),
        ensures
            deliveries_view(r@) == fan_all(
                riding(self.subscriptions(), id@),
                entries@.map_values(|e: GossipEntry| e@),
            ),
    {
        let subs = self.registry.fan_out(id);
        let ghost sv = riding(self.subscriptions(), id@);
        let ghost es = entries@.map_values(|e: GossipEntry| e@);
        let mut out: Vec<Delivery> = Vec::new();
        let mut i: usize = 0;
        assert(es.subrange(0, 0) =~= Seq::<GossipEntryModel>::empty());
        assert(deliveries_view(out@) =~= Seq::<DeliveryModel>::empty());
        while i < entries.len()
            invariant
                i <= entries@.len(),
                es == entries@.map_values(|e: GossipEntry| e@),
                subs_view(subs@) == sv,
                deliveries_view(out@) == fan_all(sv, es.subrange(0, i as int)),
            decreases entries@.len() - i,
        {
            let e = &entries[i];
            let ghost base = deliveries_view(out@);
            let mut j: usize = 0;
            assert(fan(sv, e@).subrange(0, 0) =~= Seq::<DeliveryModel>::empty());
            assert(base + fan(sv, e@).subrange(0, 0) =~= base);
            while j < subs.len()
                invariant
                    j <= subs@.len(),
                    subs_view(subs@) == sv,
                    deliveries_view(out@) == base + fan(sv, e@).subrange(0, j as int),
                decreases subs@.len() - j,
            {
                let ghost o0 = deliveries_view(out@);
                let d = Delivery {
                    topic: subs[j].copy(),
                    event: FromNetwork::GossipMessage {
                        bytes: copy_bytes(&e.bytes),
                        delivered_from: e.delivered_from.copy(),
                    },
                };
                out.push(d);
                j = j + 1;
                proof {
                    assert(sv[j - 1] == subs@[j - 1]@);
                    assert(deliveries_view(out@) =~= o0.push(fan(sv, e@)[j - 1]));
                    assert(fan(sv, e@).subrange(0, j as int) =~= fan(sv, e@).subrange(0, j - 1).push(
                        fan(sv, e@)[j - 1],
                    ));
                    assert(base + fan(sv, e@).subrange(0, j as int) =~= (base + fan(sv, e@).subrange(
                        0,
                        j - 1,
                    )).push(fan(sv, e@)[j - 1]));
                }
            }
            proof {
                assert(fan(sv, e@).subrange(0, subs@.len() as int) =~= fan(sv, e@));
                assert(es.subrange(0, i + 1).drop_last() =~= es.subrange(0, i as int));
                assert(es.subrange(0, i + 1).last() == e@);
            }
            i = i + 1;
        }
        proof {
            assert(es.subrange(0, es.len() as int) =~= es);
        }
        out
    }

    /// A session left the table: where it held its overlay, the hold ends, and the gossip
    /// held for the overlay, if this was the last hold, is handed out.
    fn finish(&mut self, topic: &Option<Topic>) -> (r: Vec<Delivery>)
        requires
            old(self).parts_wf(),
            topic matches Some(t) ==> holds_of(old(self).buffer@, t@.id) >= 1,
        ensures
            final(self).parts_wf(),
            final(self).scheduler@ == old(self).scheduler@,
            final(self).live() == old(self).live(),
            topic matches Some(t) ==> forall|x: Seq<u8>|
                #[trigger] holds_of(final(self).buffer@, x) + (if x == t@.id {
                    1nat
                } else {
                    0nat
                }) == holds_of(old(self).buffer@, x),
            topic is None ==> final(self).buffer@ == old(self).buffer@,
            topic matches Some(t) ==> final(self).gossip_buffer() == spec_release(
                old(self).gossip_buffer(),
                t@.id,
            ).0 && deliveries_view(r@) == fan_all(
                riding(old(self).subscriptions(), t@.id),
                spec_release(old(self).gossip_buffer(), t@.id).1,
            ),
            topic is None ==> final(self).gossip_buffer() == old(self).gossip_buffer() && r@.len()
                == 0,
            final(self).peers() == old(self).peers(),
            final(self).subscriptions() == old(self).subscriptions(),
            final(self).sync_sessions() == old(self).sync_sessions(),
            final(self).is_running() == old(self).is_running(),
            final(self).alpns() == old(self).alpns(),
    {
        match topic {
            Some(t) => {
                proof {
                    lemma_release_counts(self.buffer@, t@.id);
                }
                let flushed = self.buffer.release(&t.id);
                self.deliver_gossip(&t.id, flushed)
            },
            None => Vec::new(),
        }
    }

    fn live_index(&self, id: &TopicId) -> (r: Option<usize>)
        ensures
            r is None ==> !self.live().contains(id@),
            r matches Some(i) ==> i < self.live().len() && self.live()[i as int] == id@,
    {
        let mut i: usize = 0;
        while i < self.live_overlays.len()
            invariant
                i <= self.live_overlays@.len(),
                forall|k: int| 0 <= k < i ==> self.live()[k] != id@,
            decreases self.live_overlays@.len() - i,
        {
            assert(self.live()[i as int] == self.live_overlays@[i as int]@);
            if self.live_overlays[i].same(id) {
                return Some(i);
            }
            i = i + 1;
        }
        None
    }

    fn forget_live(&mut self, id: &TopicId)
        ensures
            !final(self).live().contains(id@),
            final(self).book == old(self).book,
            final(self).registry == old(self).registry,
            final(self).buffer == old(self).buffer,
            final(self).scheduler == old(self).scheduler,
            final(self).protocols == old(self).protocols,
            final(self).running == old(self).running,
            final(self).node_id == old(self).node_id,
            final(self).direct_addresses == old(self).direct_addresses,
            final(self).sync_config == old(self).sync_config,
        decreases old(self).live_overlays@.len(),
    {
        match self.live_index(id) {
            Some(i) => {
                self.live_overlays.remove(i);
                self.forget_live(id);
            },
            None => {},
        }
    }

    /// Whether overlay `id` reported a neighbour since it was joined: a new subscription
    /// riding it is ready at once.
    pub fn overlay_live(&self, id: &TopicId) -> (r: bool)
        ensures
            r == self.live().contains(id@),
    {
        self.live_index(id).is_some()
    }

    /// `peer` became a neighbour on overlay `id`. It enters the address book as a gossip
    /// neighbour seen at `now`. Where this is the overlay's first neighbour, every
    /// subscription riding it is ready: those topics are returned.
    pub fn on_neighbour(&mut self, id: &TopicId, peer: NodeAddr, now: u64) -> (r: Vec<Topic>)
        requires
            old(self).wf(),
        ensures
            final(self).wf(),
            !old(self).is_running() ==> r@.len() == 0 && *final(self) == *old(self),
            old(self).is_running() ==> final(self).peers() == spec_insert_or_merge(
                old(self).peers(),
                source_record(peer@, now, PeerSource::GossipNeighbour),
            ) && final(self).live().contains(id@) && (old(self).live().contains(id@) ==> r@.len()
                == 0 && final(self).live() == old(self).live()) && (!old(self).live().contains(id@)
                ==> subs_view(r@) == riding(old(self).subscriptions(), id@) && final(self).live()
                == old(self).live().push(id@)),
            final(self).subscriptions() == old(self).subscriptions(),
            final(self).gossip_buffer() == old(self).gossip_buffer(),
            final(self).sync_sessions() == old(self).sync_sessions(),
            final(self).is_running() == old(self).is_running(),
    {
        if !self.running {
            return Vec::new();
        }
        let _ = self.add_peer_from(peer, now, PeerSource::GossipNeighbour);
        match self.live_index(id) {
            Some(i) => {
                assert(self.live()[i as int] == id@);
                Vec::new()
            },
            None => {
                let ghost l0 = self.live();
                self.live_overlays.push(id.copy());
                proof {
                    assert(self.live() =~= l0.push(id@));
                    assert(self.live()[l0.len() as int] == id@);
                }
                self.registry.fan_out(id)
            },
        }
    }

    /// `finish` for a session that just left the table, bound to `topic`: the counts lagged
    /// behind by that session and agree again afterwards.
    fn finish_counted(&mut self, topic: &Option<Topic>, b0: Ghost<BufferModel>) -> (r: Vec<Delivery>)
        requires
            old(self).parts_wf(),
            old(self).buffer@ == b0@,
            forall|x: Seq<u8>|
                #[trigger] holds_of(b0@, x) == held_count(old(self).scheduler@.sessions, x) + held_by(
                    topic_view(*topic),
                    x,
                ),
        ensures
            final(self).wf(),
            final(self).scheduler@ == old(self).scheduler@,
            final(self).live() == old(self).live(),
            final(self).book@ == old(self).book@,
            final(self).registry@ == old(self).registry@,
            final(self).running == old(self).running,
            topic matches Some(t) ==> final(self).buffer@ == spec_release(old(self).buffer@, t@.id).0
                && deliveries_view(r@) == fan_all(
                riding(old(self).registry@, t@.id),
                spec_release(old(self).buffer@, t@.id).1,
            ),
            topic is None ==> final(self).buffer@ == old(self).buffer@ && r@.len() == 0,
    {
        proof {
            if let Some(t) = topic {
                assert(holds_of(b0@, t@.id) == held_count(old(self).scheduler@.sessions, t@.id) + 1);
            }
        }
        let r = self.finish(topic);
        proof {
            assert forall|x: Seq<u8>| #[trigger] holds_of(self.buffer@, x) == held_count(
                self.scheduler@.sessions,
                x,
            ) by {
                assert(holds_of(b0@, x) == held_count(old(self).scheduler@.sessions, x) + held_by(
                    topic_view(*topic),
                    x,
                ));
            }
        }
        r
    }

    /// Subscribes to `topic`. Returns whether the overlay of its topic id has to be joined.
    pub fn subscribe(&mut self, topic: Topic) -> (r: Result<bool, NetworkError>)
        requires
            old(self).wf(),
        ensures
            final(self).wf(),
            !old(self).is_running() ==> r == Err::<bool, NetworkError>(NetworkError::ShutDown)
                && *final(self) == *old(self),
            old(self).is_running() && old(self).subscriptions().contains(topic@) ==> r == Err::<
                bool,
                NetworkError,
            >(NetworkError::AlreadySubscribed) && final(self).unchanged_from(*old(self)),
            old(self).is_running() && !old(self).subscriptions().contains(topic@) ==> r == Ok::<
                bool,
                NetworkError,
            >(!overlay_joined(old(self).subscriptions(), topic@.id)) && final(self).subscriptions()
                == old(self).subscriptions().push(topic@),
            final(self).peers() == old(self).peers(),
            final(self).gossip_buffer() == old(self).gossip_buffer(),
            final(self).sync_sessions() == old(self).sync_sessions(),
            final(self).is_running() == old(self).is_running(),
    {
        if !self.running {
            return Err(NetworkError::ShutDown);
        }
        match self.registry.subscribe(topic) {
            Ok(join) => Ok(join),
            Err(_) => Err(NetworkError::AlreadySubscribed),
        }
    }

    /// A live message arrived on overlay `id`. Returns what reaches the subscriptions now:
    /// nothing while a sync session holds the overlay, else the message for every
    /// subscription riding it. Nothing reaches anyone once the node is shut down.
    pub fn on_gossip(&mut self, id: &TopicId, entry: GossipEntry) -> (r: Vec<Delivery>)
        requires
            old(self).wf(),
        ensures
            final(self).wf(),
            !old(self).is_running() ==> r@.len() == 0 && *final(self) == *old(self),
            old(self).is_running() ==> final(self).gossip_buffer() == spec_arrive(
                old(self).gossip_buffer(),
                id@,
                entry@,
            ).0 && deliveries_view(r@) == fan_all(
                riding(old(self).subscriptions(), id@),
                spec_arrive(old(self).gossip_buffer(), id@, entry@).1,
            ),
            final(self).peers() == old(self).peers(),
            final(self).subscriptions() == old(self).subscriptions(),
            final(self).sync_sessions() == old(self).sync_sessions(),
            final(self).is_running() == old(self).is_running(),
    {
        if !self.running {
            return Vec::new();
        }
        proof {
            lemma_arrive_counts(self.buffer@, id@, entry@);
        }
        match self.buffer.arrive(id, entry) {
            Some(e) => {
                let mut v: Vec<GossipEntry> = Vec::new();
                v.push(e);
                proof {
                    assert(v@.map_values(|x: GossipEntry| x@) =~= seq![e@]);
                }
                self.deliver_gossip(id, v)
            },
            None => {
                let v: Vec<GossipEntry> = Vec::new();
                proof {
                    assert(v@.map_values(|x: GossipEntry| x@) =~= Seq::<GossipEntryModel>::empty());
                }
                self.deliver_gossip(id, v)
            },
        }
    }

    /// Registers an inbound sync session from `peer`; its topic comes with the handshake.
    pub fn accept_session(&mut self, peer: PeerId, now: u64) -> (r: Result<u64, NetworkError>)
        requires
            old(self).wf(),
        ensures
            final(self).wf(),
            no_duplicate_in_flight(final(self).sync_sessions().sessions),
            !old(self).is_running() ==> r == Err::<u64, NetworkError>(NetworkError::ShutDown),
            old(self).is_running() && old(self).sync_configuration() is None ==> r == Err::<
                u64,
                NetworkError,
            >(NetworkError::SyncDisabled),
            old(self).is_running() && old(self).sync_configuration() is Some ==> (r is Ok
                <==> old(self).sync_sessions().next_id < u64::MAX),
            r is Err ==> final(self).unchanged_from(*old(self)),
            r matches Ok(id) ==> id == old(self).sync_sessions().next_id && final(self).sync_sessions().sessions == old(self).sync_sessions().sessions.push(
                SessionModel {
                    id,
                    peer: peer@,
                    topic: None,
                    direction: Direction::Acceptor,
                    state: SessionState::Pending,
                    started_at: now,
                    attempt: 1,
                },
            ),
            final(self).peers() == old(self).peers(),
            final(self).subscriptions() == old(self).subscriptions(),
            final(self).gossip_buffer() == old(self).gossip_buffer(),
            final(self).is_running() == old(self).is_running(),
    {
        if !self.running {
            return Err(NetworkError::ShutDown);
        }
        if self.sync_config.is_none() {
            return Err(NetworkError::SyncDisabled);
        }
        let ghost m0 = self.scheduler@;
        let ghost pm = peer@;
        let started = self.scheduler.start_acceptor(peer, now);
        proof {
            if started is Ok {
                assert forall|x: Seq<u8>| #[trigger] holds_of(self.buffer@, x) == held_count(
                    self.scheduler@.sessions,
                    x,
                ) by {
                    lemma_held_count_push(m0.sessions, self.scheduler@.sessions.last(), x);
                    assert(self.scheduler@.sessions == m0.sessions.push(self.scheduler@.sessions.last()));
                }
            }
        }
        match started {
            Ok(id) => Ok(id),
            Err(_) => Err(NetworkError::SessionsExhausted),
        }
    }

    /// The protocol reported `HandshakeSuccess(topic)` on session `id`. A session that goes
    /// on as acceptor starts holding the topic's overlay; a session that fails releases its
    /// hold. Returns the gossip that such a release hands out.
    pub fn on_handshake(&mut self, id: u64, topic: Topic, now: u64) -> (r: Vec<Delivery>)
        requires
            old(self).wf(),
        ensures
            final(self).wf(),
            no_duplicate_in_flight(final(self).sync_sessions().sessions),
            !old(self).is_running() ==> r@.len() == 0 && *final(self) == *old(self),
            old(self).is_running() && holds_of(old(self).gossip_buffer(), topic@.id) < usize::MAX
                && has_session(old(self).sync_sessions().sessions, id) ==> final(self).sync_sessions()
                == spec_handshake(old(self).sync_sessions(), id, topic@, now).0,
            old(self).is_running() && holds_of(old(self).gossip_buffer(), topic@.id) < usize::MAX
                && has_session(old(self).sync_sessions().sessions, id) ==> match spec_handshake(
                old(self).sync_sessions(),
                id,
                topic@,
                now,
            ).1 {
                StepModel::Ended(e) => match e.session.topic {
                    Some(t) => final(self).gossip_buffer() == spec_release(
                        old(self).gossip_buffer(),
                        t.id,
                    ).0 && deliveries_view(r@) == fan_all(
                        riding(old(self).subscriptions(), t.id),
                        spec_release(old(self).gossip_buffer(), t.id).1,
                    ),
                    None => final(self).gossip_buffer() == old(self).gossip_buffer() && r@.len() == 0,
                },
                _ => r@.len() == 0 && final(self).gossip_buffer() == if old(self).sync_sessions().sessions[session_slot(
                    old(self).sync_sessions().sessions,
                    id,
                )].direction == Direction::Acceptor {
                    spec_hold(old(self).gossip_buffer(), topic@.id)
                } else {
                    old(self).gossip_buffer()
                },
            },
            !has_session(old(self).sync_sessions().sessions, id) ==> r@.len() == 0 && final(self).unchanged_from(*old(self)),
            final(self).peers() == old(self).peers(),
            final(self).subscriptions() == old(self).subscriptions(),
            final(self).is_running() == old(self).is_running(),
    {
        if !self.running {
            return Vec::new();
        }
        let acceptor = match self.scheduler.session(id) {
            Some(s) => s.direction == Direction::Acceptor,
            None => false,
        };
        let ghost b0 = self.buffer@;
        let ghost m0 = self.scheduler@;
        if self.buffer.holds(&topic.id) == usize::MAX {
            proof {
                if has_session(m0.sessions, id) {
                    lemma_advance_counts(b0, m0, id, SessionEvent::Failed(SyncFailure::AlreadyActive), now);
                }
            }
            return match self.scheduler.advance(id, SessionEvent::Failed(SyncFailure::AlreadyActive), now) {
                Some(StepOutcome::Ended(e)) => self.finish_counted(&e.session.topic, Ghost(b0)),
                _ => Vec::new(),
            };
        }
        let tid = topic.id.copy();
        let ghost tm = topic@;
        proof {
            if has_session(m0.sessions, id) {
                lemma_handshake_counts(b0, m0, id, tm, now);
            }
        }
        match self.scheduler.handshake(id, topic, now) {
            None => Vec::new(),
            Some(StepOutcome::Ended(e)) => self.finish_counted(&e.session.topic, Ghost(b0)),
            Some(_) => {
                if acceptor {
                    proof {
                        lemma_hold_counts(b0, tid@);
                    }
                    self.buffer.hold(&tid);
                }
                proof {
                    assert forall|x: Seq<u8>| #[trigger] holds_of(self.buffer@, x) == held_count(
                        self.scheduler@.sessions,
                        x,
                    ) by {
                        assert(holds_of(b0, x) + (if m0.sessions[session_slot(m0.sessions, id)].direction
                            == Direction::Acceptor && x == tm.id {
                            1nat
                        } else {
                            0nat
                        }) == held_count(self.scheduler@.sessions, x));
                        if acceptor {
                            assert(holds_of(spec_hold(b0, tid@), x) == holds_of(b0, x) + if x == tid@ {
                                1nat
                            } else {
                                0nat
                            });
                        }
                    }
                }
                Vec::new()
            },
        }
    }

    /// The protocol emitted a message on session `id`. While the session transfers, the
    /// message goes straight to the subscription of the session's topic, tagged with the
    /// remote peer; any other state fails the session.
    pub fn on_sync_data(&mut self, id: u64, header: Vec<u8>, payload: Option<Vec<u8>>, now: u64) -> (r: Vec<Delivery>)
        requires
            old(self).wf(),
        ensures
            final(self).wf(),
            no_duplicate_in_flight(final(self).sync_sessions().sessions),
            !old(self).is_running() ==> r@.len() == 0 && *final(self) == *old(self),
            old(self).is_running() ==> final(self).sync_sessions() == spec_advance(
                old(self).sync_sessions(),
                id,
                SessionEvent::Data,
                now,
            ).0 || !has_session(old(self).sync_sessions().sessions, id),
            old(self).is_running() && has_session(old(self).sync_sessions().sessions, id)
                && spec_advance(old(self).sync_sessions(), id, SessionEvent::Data, now).1
                == StepModel::Deliver ==> ({
                let s = old(self).sync_sessions().sessions[session_slot(
                    old(self).sync_sessions().sessions,
                    id,
                )];
                deliveries_view(r@) == if old(self).subscriptions().contains(s.topic.unwrap()) {
                    seq![
                        DeliveryModel {
                            topic: s.topic.unwrap(),
                            event: FromNetworkModel::SyncMessage {
                                header: header@,
                                payload: payload_view(payload),
                                delivered_from: s.peer,
                            },
                        },
                    ]
                } else {
                    Seq::empty()
                }
            }) && final(self).gossip_buffer() == old(self).gossip_buffer(),
            old(self).is_running() && has_session(old(self).sync_sessions().sessions, id) ==> (
            match spec_advance(old(self).sync_sessions(), id, SessionEvent::Data, now).1 {
                StepModel::Ended(e) => match e.session.topic {
                    Some(t) => final(self).gossip_buffer() == spec_release(
                        old(self).gossip_buffer(),
                        t.id,
                    ).0 && deliveries_view(r@) == fan_all(
                        riding(old(self).subscriptions(), t.id),
                        spec_release(old(self).gossip_buffer(), t.id).1,
                    ),
                    None => final(self).gossip_buffer() == old(self).gossip_buffer() && r@.len() == 0,
                },
                _ => final(self).gossip_buffer() == old(self).gossip_buffer(),
            }),
            !has_session(old(self).sync_sessions().sessions, id) ==> r@.len() == 0 && final(self).unchanged_from(*old(self)),
            final(self).peers() == old(self).peers(),
            final(self).subscriptions() == old(self).subscriptions(),
            final(self).is_running() == old(self).is_running(),
    {
        if !self.running {
            return Vec::new();
        }
        let found = self.scheduler.session(id);
        let ghost b0 = self.buffer@;
        let ghost m0 = self.scheduler@;
        proof {
            if has_session(m0.sessions, id) {
                lemma_advance_counts(b0, m0, id, SessionEvent::Data, now);
            }
        }
        match found {
            None => Vec::new(),
            Some(s) => {
                let outcome = self.scheduler.advance(id, SessionEvent::Data, now);
                match outcome {
                    Some(StepOutcome::Deliver) => {
                        let mut out: Vec<Delivery> = Vec::new();
                        match s.topic {
                            Some(t) => {
                                if self.registry.contains(&t) {
                                    out.push(
                                        Delivery {
                                            topic: t,
                                            event: FromNetwork::SyncMessage {
                                                header,
                                                payload,
                                                delivered_from: s.peer,
                                            },
                                        },
                                    );
                                    proof {
                                        assert(deliveries_view(out@) =~= seq![out@[0]@]);
                                    }
                                } else {
                                    assert(deliveries_view(out@) =~= Seq::<DeliveryModel>::empty());
                                }
                            },
                            None => {},
                        }
                        out
                    },
                    Some(StepOutcome::Ended(e)) => self.finish_counted(&e.session.topic, Ghost(b0)),
                    _ => Vec::new(),
                }
            },
        }
    }

    /// Any other event on session `id`. A session that ends releases its hold and the gossip
    /// held meanwhile is returned, after everything the session delivered. Messages of the
    /// protocol go through `on_sync_data`.
    pub fn on_session_event(&mut self, id: u64, ev: SessionEvent, now: u64) -> (r: Vec<Delivery>)
        requires
            old(self).wf(),
        ensures
            final(self).wf(),
            no_duplicate_in_flight(final(self).sync_sessions().sessions),
            !old(self).is_running() ==> r@.len() == 0 && *final(self) == *old(self),
            old(self).is_running() && has_session(old(self).sync_sessions().sessions, id) ==> final(self).sync_sessions() == spec_advance(old(self).sync_sessions(), id, ev, now).0,
            old(self).is_running() && has_session(old(self).sync_sessions().sessions, id) ==> (
            match spec_advance(old(self).sync_sessions(), id, ev, now).1 {
                StepModel::Ended(e) => match e.session.topic {
                    Some(t) => final(self).gossip_buffer() == spec_release(
                        old(self).gossip_buffer(),
                        t.id,
                    ).0 && deliveries_view(r@) == fan_all(
                        riding(old(self).subscriptions(), t.id),
                        spec_release(old(self).gossip_buffer(), t.id).1,
                    ),
                    None => final(self).gossip_buffer() == old(self).gossip_buffer() && r@.len() == 0,
                },
                _ => final(self).gossip_buffer() == old(self).gossip_buffer() && r@.len() == 0,
            }),
            !has_session(old(self).sync_sessions().sessions, id) ==> r@.len() == 0 && final(self).unchanged_from(*old(self)),
            final(self).peers() == old(self).peers(),
            final(self).subscriptions() == old(self).subscriptions(),
            final(self).is_running() == old(self).is_running(),
    {
        if !self.running {
            return Vec::new();
        }
        let ghost b0 = self.buffer@;
        let ghost m0 = self.scheduler@;
        proof {
            if has_session(m0.sessions, id) {
                lemma_advance_counts(b0, m0, id, ev, now);
            }
        }
        match self.scheduler.advance(id, ev, now) {
            Some(StepOutcome::Ended(e)) => self.finish_counted(&e.session.topic, Ghost(b0)),
            _ => Vec::new(),
        }
    }

    /// Starts sync sessions while fewer than the configured maximum are in flight: each
    /// time the candidate that the promotion order puts first, over the known peers and the
    /// subscribed topics. Each started session holds its topic's overlay. Returns the
    /// sessions to dial.
    pub fn start_sessions(&mut self, now: u64) -> (r: Vec<SessionStart>)
        requires
            old(self).wf(),
        ensures
            final(self).wf(),
            no_duplicate_in_flight(final(self).sync_sessions().sessions),
            !old(self).is_running() || old(self).sync_configuration() is None ==> r@.len() == 0
                && *final(self) == *old(self),
            final(self).sync_sessions().sessions.len() == old(self).sync_sessions().sessions.len()
                + r@.len(),
            old(self).sync_configuration() matches Some(c) ==> r@.len() == 0 || final(self).sync_sessions().sessions.len() <= c.max_concurrent,
            forall|k: int|
                0 <= k < r@.len() ==> has_session(final(self).sync_sessions().sessions, #[trigger] r@[k].id),
            old(self).is_running() ==> (old(self).sync_configuration() matches Some(c)
                ==> final(self).nothing_to_start(c, now)),
            final(self).gossip_buffer() == hold_all(
                old(self).gossip_buffer(),
                r@.map_values(|x: SessionStart| x.topic@.id),
            ),
            final(self).sync_sessions().sessions == old(self).sync_sessions().sessions + r@.map_values(
                |x: SessionStart| started_session(old(self).sync_sessions().history, x, now),
            ),
            final(self).sync_sessions().history == old(self).sync_sessions().history,
            forall|k: int|
                0 <= k < r@.len() ==> record_addrs(by_recency(old(self).peers())).contains(#[trigger] r@[k].peer@) && old(self).subscriptions().contains(r@[k].topic@),
            final(self).peers() == old(self).peers(),
            final(self).subscriptions() == old(self).subscriptions(),
            final(self).is_running() == old(self).is_running(),
    {
        if !self.running {
            return Vec::new();
        }
        let config = match self.sync_config {
            Some(c) => c,
            None => {
                return Vec::new();
            },
        };
        let records = self.book.list();
        let ghost order = by_recency(self.book@);
        let mut peers: Vec<PeerId> = Vec::new();
        let mut k: usize = 0;
        while k < records.len()
            invariant
                k <= records@.len(),
                peers@.len() == k,
                order == records_view(records@),
                forall|j: int| 0 <= j < k ==> (#[trigger] peers@[j])@ == order[j].peer,
            decreases records@.len() - k,
        {
            peers.push(records[k].peer_id.copy());
            proof {
                assert(order[k as int] == records@[k as int]@);
            }
            k = k + 1;
        }
        let topics = self.registry.topics();
        let mut out: Vec<SessionStart> = Vec::new();
        proof {
            assert(out@.map_values(|x: SessionStart| x.topic@.id) =~= Seq::<Seq<u8>>::empty());
            assert(self.scheduler@.sessions =~= old(self).scheduler@.sessions + out@.map_values(
                |x: SessionStart| started_session(old(self).scheduler@.history, x, now),
            ));
        }
        let ghost n0 = self.scheduler@.sessions.len();
        while self.scheduler.active() < config.max_concurrent
            invariant
                self.wf(),
                peers@.len() == records@.len(),
                self.sync_config == Some(config),
                self.running,
                self.book@ == old(self).book@,
                self.registry@ == old(self).registry@,
                n0 == old(self).scheduler@.sessions.len(),
                self.scheduler@.sessions.len() == n0 + out@.len(),
                out@.len() == 0 || self.scheduler@.sessions.len() <= config.max_concurrent,
                forall|j: int|
                    0 <= j < out@.len() ==> has_session(self.scheduler@.sessions, #[trigger] out@[j].id),
                self.buffer@ == hold_all(old(self).buffer@, out@.map_values(|x: SessionStart| x.topic@.id)),
                self.scheduler@.sessions == old(self).scheduler@.sessions + out@.map_values(
                    |x: SessionStart| started_session(old(self).scheduler@.history, x, now),
                ),
                self.scheduler@.history == old(self).scheduler@.history,
                forall|k: int|
                    0 <= k < out@.len() ==> record_addrs(order).contains(
                        #[trigger] out@[k].peer@,
                    ) && self.registry@.contains(out@[k].topic@),
                order == by_recency(self.book@),
                order == records_view(records@),
                order.len() == peers@.len(),
                forall|j: int| 0 <= j < peers@.len() ==> (#[trigger] peers@[j])@ == order[j].peer,
                subs_view(topics@) == self.registry@,
            ensures
                self.nothing_to_start(config, now),
            decreases config.max_concurrent - self.scheduler@.sessions.len(),
        {
            let pick = self.scheduler.next_candidate(&peers, &topics, config.resync, now);
            let (ti, pi) = match pick {
                Some(p) => p,
                None => {
                    proof {
                        assert forall|a: int, b: int|
                            0 <= a < self.subscriptions().len() && 0 <= b < order.len() implies !is_candidate(
                            self.sync_sessions(),
                            order[b].peer,
                            self.subscriptions()[a],
                            config.resync,
                            now,
                        ) by {
                            assert(peers@[b]@ == order[b].peer);
                            assert(topics@[a]@ == self.subscriptions()[a]);
                            assert(!is_candidate(self.scheduler@, peers@[b]@, topics@[a]@, config.resync, now));
                        }
                    }
                    break;
                },
            };
            let topic = topics[ti].copy();
            let tid = topic.id.copy();
            if self.buffer.holds(&tid) == usize::MAX {
                proof {
                    assert(topics@[ti as int]@ == self.subscriptions()[ti as int]);
                }
                break;
            }
            let ghost before = self.scheduler@;
            let ghost buf0 = self.buffer@;
            let ghost out0 = out@;
            match self.scheduler.start_initiator(peers[pi].copy(), topic.copy(), config.resync, now) {
                Ok(id) => {
                    proof {
                        lemma_hold_counts(buf0, tid@);
                    }
                    self.buffer.hold(&tid);
                    proof {
                        assert forall|x: Seq<u8>| #[trigger] holds_of(self.buffer@, x) == held_count(
                            self.scheduler@.sessions,
                            x,
                        ) by {
                            lemma_held_count_push(before.sessions, self.scheduler@.sessions.last(), x);
                            assert(self.scheduler@.sessions == before.sessions.push(
                                self.scheduler@.sessions.last(),
                            ));
                            assert(holds_of(buf0, x) == held_count(before.sessions, x));
                        }
                    }
                    proof {
                        assert(topics@[ti as int]@ == self.registry@[ti as int]);
                        assert(peers@[pi as int]@ == order[pi as int].peer);
                        assert(self.scheduler@.sessions.last().id == id);
                        assert forall|j: int| 0 <= j < out@.len() implies has_session(
                            self.scheduler@.sessions,
                            #[trigger] out@[j].id,
                        ) by {
                            let w = choose|w: int|
                                0 <= w < before.sessions.len() && before.sessions[w].id == out@[j].id;
                            assert(self.scheduler@.sessions[w] == before.sessions[w]);
                        }
                        assert(has_session(
                            self.scheduler@.sessions,
                            id,
                        )) by {
                            let w = self.scheduler@.sessions.len() - 1;
                            assert(self.scheduler@.sessions[w].id == id);
                        }
                    }
                    let st = SessionStart { id, peer: records[pi].node_addr(), topic };
                    out.push(st);
                    proof {
                        assert(records_view(records@)[pi as int] == records@[pi as int]@);
                        assert(st.peer@.node_id == peers@[pi as int]@);
                        assert(self.scheduler@.sessions == before.sessions.push(
                            started_session(old(self).scheduler@.history, st, now),
                        ));
                        let f = |x: SessionStart| x.topic@.id;
                        let g = |x: SessionStart| started_session(old(self).scheduler@.history, x, now);
                        assert(out@.map_values(f) =~= out0.map_values(f).push(f(st)));
                        assert(out@.map_values(f).drop_last() =~= out0.map_values(f));
                        assert(out@.map_values(g) =~= out0.map_values(g).push(g(st)));
                        assert(self.scheduler@.sessions =~= old(self).scheduler@.sessions + out@.map_values(g));
                        let om = record_addrs(order);
                        assert(om[pi as int] == st.peer@);
                        assert forall|k: int| 0 <= k < out@.len() implies om.contains(#[trigger] out@[k].peer@)
                            && self.registry@.contains(out@[k].topic@) by {
                            if k < out0.len() {
                                assert(out@[k] == out0[k]);
                            } else {
                                assert(out@[k] == st);
                                assert(self.registry@[ti as int] == st.topic@);
                            }
                        }
                    }
                },
                Err(_) => {
                    proof {
                        assert(out@ == out0);
                        assert(self.buffer@ == buf0);
                        assert forall|k: int| 0 <= k < out@.len() implies record_addrs(order).contains(#[trigger] out@[k].peer@) && self.registry@.contains(
                            out@[k].topic@,
                        ) by {
                            assert(out@[k] == out0[k]);
                        }
                    }
                    break;
                },
            }
        }
        out
    }

    /// Unsubscribes from `topic`: its sessions in flight are cancelled and their holds end,
    /// one release for each. Gossip that those releases hand out goes to the subscriptions
    /// still riding the overlay; where none is left, the overlay is to be left and what it
    /// held reaches nobody.
    pub fn unsubscribe(&mut self, topic: &Topic, now: u64) -> (r: Result<(bool, Vec<Delivery>), NetworkError>)
        requires
            old(self).wf(),
        ensures
            final(self).wf(),
            no_duplicate_in_flight(final(self).sync_sessions().sessions),
            !old(self).is_running() ==> r == Err::<(bool, Vec<Delivery>), NetworkError>(NetworkError::ShutDown)
                && *final(self) == *old(self),
            old(self).is_running() && !old(self).subscriptions().contains(topic@) ==> r == Err::<
                (bool, Vec<Delivery>),
                NetworkError,
            >(NetworkError::NotSubscribed) && final(self).unchanged_from(*old(self)),
            old(self).is_running() && old(self).subscriptions().contains(topic@) ==> (r matches Ok(
                (leave, ds),
            ) && leave == !overlay_joined(final(self).subscriptions(), topic@.id) && final(self).subscriptions()
                == old(self).subscriptions().remove(old(self).subscriptions().index_of(topic@))
                && final(self).sync_sessions().sessions == old(self).sync_sessions().sessions.filter(
                |s: SessionModel| !cancelled_by(s, Some(topic@)),
            ) && (final(self).gossip_buffer(), deliveries_view(ds@)) == release_n(
                old(self).gossip_buffer(),
                final(self).subscriptions(),
                topic@.id,
                old(self).sync_sessions().sessions.filter(
                    |s: SessionModel| cancelled_by(s, Some(topic@)),
                ).len(),
            ) && (leave ==> ds@.len() == 0 && !final(self).live().contains(topic@.id))),
            final(self).peers() == old(self).peers(),
            final(self).is_running() == old(self).is_running(),
    {
        if !self.running {
            return Err(NetworkError::ShutDown);
        }
        let leave = match self.registry.unsubscribe(topic) {
            Ok(l) => l,
            Err(_) => {
                return Err(NetworkError::NotSubscribed);
            },
        };
        let ended = self.scheduler.cancel(Some(topic), now);
        let ghost gone = old(self).sync_sessions().sessions.filter(
            |s: SessionModel| cancelled_by(s, Some(topic@)),
        );
        assert(ended@.len() == gone.len()) by {
            assert(ended@.map_values(|e: SessionEnd| e@.session.id).len() == ended@.len());
            assert(gone.map_values(|s: SessionModel| s.id).len() == gone.len());
        }
        let mut out: Vec<Delivery> = Vec::new();
        let mut i: usize = 0;
        proof {
            assert(deliveries_view(out@) =~= Seq::<DeliveryModel>::empty());
        }
        proof {
            assert forall|x: Seq<u8>| #[trigger] holds_of(self.buffer@, x) == held_count(
                self.scheduler@.sessions,
                x,
            ) + if x == topic@.id {
                ended@.len() as nat
            } else {
                0nat
            } by {
                lemma_held_count_cancel(old(self).scheduler@.sessions, topic@, x);
                assert(holds_of(old(self).buffer@, x) == held_count(old(self).scheduler@.sessions, x));
            }
        }
        while i < ended.len()
            invariant
                self.parts_wf(),
                forall|x: Seq<u8>|
                    #[trigger] holds_of(self.buffer@, x) == held_count(self.scheduler@.sessions, x)
                        + if x == topic@.id {
                        (ended@.len() - i) as nat
                    } else {
                        0nat
                    },
                self.running,
                self.book@ == old(self).book@,
                leave == !overlay_joined(self.registry@, topic@.id),
                self.scheduler@.sessions == old(self).sync_sessions().sessions.filter(
                    |s: SessionModel| !cancelled_by(s, Some(topic@)),
                ),
                self.registry@ == old(self).subscriptions().remove(
                    old(self).subscriptions().index_of(topic@),
                ),
                i <= ended@.len(),
                (self.buffer@, deliveries_view(out@)) == release_n(
                    old(self).buffer@,
                    self.registry@,
                    topic@.id,
                    i as nat,
                ),
            decreases ended@.len() - i,
        {
            let ghost o0 = deliveries_view(out@);
            proof {
                assert(holds_of(self.buffer@, topic@.id) >= 1);
            }
            let mut flushed = self.finish(&Some(topic.copy()));
            let ghost f0 = deliveries_view(flushed@);
            out.append(&mut flushed);
            proof {
                assert(deliveries_view(out@) =~= o0 + f0);
            }
            i = i + 1;
        }
        proof {
            if leave {
                lemma_fan_all_none_riding(self.registry@, topic@.id, old(self).buffer@, ended@.len() as nat);
            }
        }
        if leave {
            self.forget_live(&topic.id);
        }
        Ok((leave, out))
    }

    /// Shuts the node down: every session in flight is cancelled, every subscription ends
    /// and every held message is discarded. From then on no message reaches a subscription
    /// and every request is refused. Returns the cancelled sessions; shutting down a node
    /// that is shut down already succeeds and changes nothing.
    pub fn shutdown(&mut self, now: u64) -> (r: Result<Vec<SessionEnd>, NetworkError>)
        requires
            old(self).wf(),
        ensures
            final(self).wf(),
            !old(self).is_running() ==> (r matches Ok(ends) && ends@.len() == 0) && *final(self)
                == *old(self),
            r is Ok,
            old(self).is_running() ==> (r matches Ok(ends) && ends@.map_values(
                |e: SessionEnd| e@.session.id,
            ) == old(self).sync_sessions().sessions.map_values(|s: SessionModel| s.id)),
            !final(self).is_running(),
            final(self).sync_sessions().sessions.len() == 0,
            final(self).subscriptions().len() == 0,
            forall|id: Seq<u8>|
                holds_of(#[trigger] final(self).gossip_buffer(), id) == 0 && queue_of(
                    final(self).gossip_buffer(),
                    id,
                ).len() == 0,
            final(self).peers() == old(self).peers(),
    {
        if !self.running {
            return Ok(Vec::new());
        }
        self.running = false;
        let ends = self.scheduler.cancel(None, now);
        proof {
            let os = old(self).sync_sessions().sessions;
            lemma_filter_all(os);
        }
        let cap = self.buffer.capacity();
        self.buffer = GossipBuffer::new(cap);
        self.registry = TopicRegistry::new();
        Ok(ends)
    }

    /// Where an inbound connection goes: to the handler of the ALPN its handshake
    /// negotiated, or dropped where the handshake failed or no handler speaks the ALPN.
    pub fn route(&self, alpn: Option<&[u8]>) -> (r: Route)
        requires
            self.wf(),
        ensures
            alpn is None ==> r == Route::DropHandshakeFailed,
            alpn matches Some(a) ==> match alpn_slot(self.alpns(), a@) {
                Some(i) => r == Route::Dispatch(i as usize),
                None => r == Route::DropUnknownAlpn,
            },
    {
        self.protocols.route(alpn)
    }

    /// How to reach every known peer, most recently seen first.
    pub fn known_peers(&self) -> (r: Result<Vec<NodeAddr>, NetworkError>)
        requires
            self.wf(),
        ensures
            !self.is_running() ==> r == Err::<Vec<NodeAddr>, NetworkError>(NetworkError::ShutDown),
            self.is_running() ==> (r matches Ok(v) && node_addrs_view(v@) == record_addrs(by_recency(
                self.peers(),
            ))),
            r matches Ok(v) ==> forall|i: int, j: int|
                #![trigger v@[i], v@[j]]
                0 <= i < v@.len() && 0 <= j < v@.len() && i != j ==> v@[i]@.node_id
                    != v@[j]@.node_id,
    {
        proof {
            lemma_by_recency_distinct(self.book@);
        }
        if !self.running {
            return Err(NetworkError::ShutDown);
        }
        let list = self.book.list();
        let mut out: Vec<NodeAddr> = Vec::new();
        let mut i: usize = 0;
        let ghost l = by_recency(self.book@);
        while i < list.len()
            invariant
                i <= list@.len(),
                l == list@.map_values(|r: PeerRecord| r@),
                out@.len() == i,
                node_addrs_view(out@) == record_addrs(l.subrange(0, i as int)),
            decreases list@.len() - i,
        {
            let ghost o0 = node_addrs_view(out@);
            let a = list[i].node_addr();
            out.push(a);
            i = i + 1;
            proof {
                assert(l[i - 1] == list@[i - 1]@);
                assert(node_addrs_view(out@) =~= o0.push(record_addr(l[i - 1])));
                assert(record_addrs(l.subrange(0, i as int))
                    =~= record_addrs(l.subrange(0, i - 1)).push(
                    record_addr(l[i - 1]),
                ));
            }
        }
        proof {
            assert(l.subrange(0, l.len() as int) =~= l);
            assert forall|i: int, j: int|
                #![trigger out@[i], out@[j]]
                0 <= i < out@.len() && 0 <= j < out@.len() && i != j implies out@[i]@.node_id
                != out@[j]@.node_id by {
                assert(node_addrs_view(out@)[i] == out@[i]@);
                assert(node_addrs_view(out@)[j] == out@[j]@);
            }
        }
        Ok(out)
    }

    /// The direct addresses of this node, once the transport reported them.
    pub fn direct_addresses(&self) -> (r: Option<Vec<SocketAddress>>)
        ensures
            r is Some <==> self.local_addresses() is Some,
            r matches Some(v) ==> Some(addrs_view(v@)) == self.local_addresses(),
    {
        match &self.direct_addresses {
            Some(v) => Some(copy_addrs(v)),
            None => None,
        }
    }

    /// The transport reported the node's direct addresses. Returns the address to announce
    /// to discovery providers: this node, these addresses and its relay.
    pub fn update_direct_addresses(&mut self, addrs: Vec<SocketAddress>) -> (r: NodeAddr)
        requires
            old(self).wf(),
        ensures
            final(self).wf(),
            final(self).local_addresses() == Some(addrs_view(addrs@)),
            r@.node_id == old(self).local_id(),
            r@.direct_addresses == addrs_view(addrs@),
            r@.relay_url == old(self).relay_url(),
            final(self).peers() == old(self).peers(),
            final(self).subscriptions() == old(self).subscriptions(),
            final(self).gossip_buffer() == old(self).gossip_buffer(),
            final(self).sync_sessions() == old(self).sync_sessions(),
            final(self).is_running() == old(self).is_running(),
            final(self).local_id() == old(self).local_id(),
    {
        let announced = copy_addrs(&addrs);
        self.direct_addresses = Some(addrs);
        let relay_url = match &self.relay {
            Some(n) => Some(n.url.copy()),
            None => None,
        };
        NodeAddr { node_id: self.node_id.copy(), relay_url, direct_addresses: announced }
    }
}

/// A sync session to dial: its id, how to reach the peer, and the topic.
#[derive(Clone, Debug, PartialEq, Eq)]
pub struct SessionStart {
    pub id: u64,
    pub peer: NodeAddr,
    pub topic: Topic,
}

proof fn lemma_riding_in(subs: Seq<TopicModel>, id: Seq<u8>)
    ensures
        forall|k: int|
            0 <= k < riding(subs, id).len() ==> subs.contains(#[trigger] riding(subs, id)[k]),
    decreases subs.len(),
{
    reveal(Seq::filter);
    if subs.len() > 0 {
        let d = subs.drop_last();
        lemma_riding_in(d, id);
        let r = riding(subs, id);
        let rd = riding(d, id);
        assert(r == rd || r == rd.push(subs.last()));
        assert forall|k: int| 0 <= k < r.len() implies subs.contains(#[trigger] r[k]) by {
            if k < rd.len() {
                assert(r[k] == rd[k]);
                assert(d.contains(rd[k]));
                let w = choose|w: int| 0 <= w < d.len() && d[w] == rd[k];
                assert(subs[w] == d[w]);
            } else {
                assert(r[k] == subs.last());
                assert(subs[subs.len() - 1] == subs.last());
            }
        }
    }
}

proof fn lemma_fan_all_topics(subs: Seq<TopicModel>, es: Seq<GossipEntryModel>)
    ensures
        forall|k: int|
            0 <= k < fan_all(subs, es).len() ==> subs.contains(#[trigger] fan_all(subs, es)[k].topic),
    decreases es.len(),
{
    if es.len() > 0 {
        lemma_fan_all_topics(subs, es.drop_last());
        let a = fan_all(subs, es.drop_last());
        let b = fan(subs, es.last());
        assert forall|k: int| 0 <= k < fan_all(subs, es).len() implies subs.contains(
            #[trigger] fan_all(subs, es)[k].topic,
        ) by {
            if k < a.len() {
                assert(fan_all(subs, es)[k] == a[k]);
            } else {
                assert(fan_all(subs, es)[k] == b[k - a.len()]);
                assert(b[k - a.len()].topic == subs[k - a.len()]);
            }
        }
    }
}

proof fn lemma_filter_all(s: Seq<SessionModel>)
    ensures
        s.filter(|x: SessionModel| cancelled_by(x, None)) == s,
        s.filter(|x: SessionModel| !cancelled_by(x, None)).len() == 0,
    decreases s.len(),
{
    reveal(Seq::filter);
    if s.len() > 0 {
        lemma_filter_all(s.drop_last());
        assert(s.drop_last().push(s.last()) =~= s);
    } else {
        assert(s.filter(|x: SessionModel| cancelled_by(x, None)) =~= s);
    }
}

pub open spec fn node_url(r: Option<RelayNode>) -> Option<(Seq<char>, Option<u16>)> {
    match r {
        Some(n) => Some(n.url@),
        None => None,
    }
}

/// Port the IPv4 socket binds to.
pub open spec fn effective_bind_port(p: Option<u16>) -> u16 {
    match p {
        Some(x) => x,
        None => DEFAULT_BIND_PORT,
    }
}

/// URL of the relay that a relay mode names.
pub open spec fn relay_url_of(m: RelayMode) -> Option<(Seq<char>, Option<u16>)> {
    match m {
        RelayMode::Disabled => None,
        RelayMode::Custom(n) => Some(n.url@),
    }
}

/// Record of a configured peer: its own relay, else this node's.
pub open spec fn bootstrap_record(
    a: NodeAddrModel,
    relay: Option<(Seq<char>, Option<u16>)>,
    now: u64,
) -> RecordModel {
    RecordModel {
        peer: a.node_id,
        addrs: a.direct_addresses,
        relay: if a.relay_url is Some {
            a.relay_url
        } else {
            relay
        },
        last_seen: now,
        sources: sources_of(PeerSource::Bootstrap),
    }
}

/// Address book holding the configured peers, added in order.
pub open spec fn bootstrap_book(
    addrs: Seq<NodeAddrModel>,
    relay: Option<(Seq<char>, Option<u16>)>,
    now: u64,
) -> Seq<RecordModel>
    decreases addrs.len(),
{
    if addrs.len() == 0 {
        Seq::empty()
    } else {
        spec_insert_or_merge(
            bootstrap_book(addrs.drop_last(), relay, now),
            bootstrap_record(addrs.last(), relay, now),
        )
    }
}

/// `k` releases of overlay `id`, one after the other: the buffer after them, and the gossip
/// they hand out, each message for every one of `subs` riding the overlay.
pub open spec fn release_n(b: BufferModel, subs: Seq<TopicModel>, id: Seq<u8>, k: nat) -> (
    BufferModel,
    Seq<DeliveryModel>,
)
    decreases k,
{
    if k == 0 {
        (b, Seq::empty())
    } else {
        let (b1, d1) = release_n(b, subs, id, (k - 1) as nat);
        let (b2, out) = spec_release(b1, id);
        (b2, d1 + fan_all(riding(subs, id), out))
    }
}

proof fn lemma_fan_all_none_riding(subs: Seq<TopicModel>, id: Seq<u8>, b: BufferModel, k: nat)
    requires
        !overlay_joined(subs, id),
    ensures
        release_n(b, subs, id, k).1.len() == 0,
    decreases k,
{
    if riding(subs, id).len() > 0 {
        lemma_riding_in(subs, id);
        let pred = |t: TopicModel| t.id == id;
        subs.lemma_filter_pred(pred, 0);
        let t = riding(subs, id)[0];
        let w = choose|w: int| 0 <= w < subs.len() && subs[w] == t;
        assert(subs[w].id == id);
    }
    if k > 0 {
        lemma_fan_all_none_riding(subs, id, b, (k - 1) as nat);
        let b1 = release_n(b, subs, id, (k - 1) as nat).0;
        lemma_fan_all_no_subs(riding(subs, id), spec_release(b1, id).1);
    }
}

proof fn lemma_fan_all_no_subs(subs: Seq<TopicModel>, es: Seq<GossipEntryModel>)
    requires
        subs.len() == 0,
    ensures
        fan_all(subs, es).len() == 0,
    decreases es.len(),
{
    if es.len() > 0 {
        lemma_fan_all_no_subs(subs, es.drop_last());
    }
}

/// The buffer after holding each overlay of `ids`, in order.
pub open spec fn hold_all(b: BufferModel, ids: Seq<Seq<u8>>) -> BufferModel
    decreases ids.len(),
{
    if ids.len() == 0 {
        b
    } else {
        spec_hold(hold_all(b, ids.drop_last()), ids.last())
    }
}

/// The pending initiator session that `start_sessions` opened for `x` at `now`.
pub open spec fn started_session(h: Seq<HistoryModel>, x: SessionStart, now: u64) -> SessionModel {
    SessionModel {
        id: x.id,
        peer: x.peer@.node_id,
        topic: Some(x.topic@),
        direction: Direction::Initiator,
        state: SessionState::Pending,
        started_at: now,
        attempt: saturating_inc(attempts_of(h, x.peer@.node_id, x.topic@)),
    }
}

/// Record of a peer learned from `source` at `now`.
pub open spec fn source_record(a: NodeAddrModel, now: u64, source: PeerSource) -> RecordModel {
    RecordModel {
        peer: a.node_id,
        addrs: a.direct_addresses,
        relay: a.relay_url,
        last_seen: now,
        sources: sources_of(source),
    }
}

/// Record of a peer added by hand at `now`.
pub open spec fn manual_record(a: NodeAddrModel, now: u64) -> RecordModel {
    source_record(a, now, PeerSource::Manual)
}

/// What `known_peers` returns after `add_peer(a, now)` on a node that knew `peers`.
pub open spec fn listed_after_add(peers: Seq<RecordModel>, a: NodeAddrModel, now: u64) -> Seq<NodeAddrModel> {
    record_addrs(by_recency(spec_insert_or_merge(peers, manual_record(a, now))))
}

/// A peer added with `add_peer` is among the addresses that `known_peers` returns next,
/// with at least the direct addresses it was added with.
pub proof fn lemma_added_peer_is_listed(n: Network, a: NodeAddrModel, now: u64)
    requires
        n.wf(),
    ensures
        exists|j: int|
            0 <= j < listed_after_add(n.peers(), a, now).len() && #[trigger] listed_after_add(
                n.peers(),
                a,
                now,
            )[j].node_id == a.node_id && forall|x: SocketAddressModel|
                a.direct_addresses.contains(x) ==> listed_after_add(n.peers(), a, now)[j].direct_addresses.contains(x),
{
    lemma_added_peer_is_known(n.peers(), manual_record(a, now));
    let l = by_recency(spec_insert_or_merge(n.peers(), manual_record(a, now)));
    let j = choose|j: int|
        0 <= j < l.len() && #[trigger] l[j].peer == a.node_id && forall|x: SocketAddressModel|
            a.direct_addresses.contains(x) ==> l[j].addrs.contains(x);
    let listed = listed_after_add(n.peers(), a, now);
    assert(listed.len() == l.len());
    assert(listed[j] == record_addr(l[j]));
    assert(listed[j].node_id == a.node_id);
    assert forall|x: SocketAddressModel| a.direct_addresses.contains(x) implies listed[j].direct_addresses.contains(
        x,
    ) by {
        assert(l[j].addrs.contains(x));
    }
}

/// The address book of a node holds one record per peer.
pub proof fn lemma_one_record_per_peer(n: Network)
    requires
        n.wf(),
    ensures
        book_wf(n.peers()),
{
}

/// A node that was shut down holds no subscription, no session and no held message: no
/// event can reach an application any more.
pub proof fn lemma_shut_down_node_is_empty(n: Network)
    requires
        n.wf(),
        !n.is_running(),
    ensures
        n.subscriptions().len() == 0,
        n.sync_sessions().sessions.len() == 0,
        forall|id: Seq<u8>|
            holds_of(#[trigger] n.gossip_buffer(), id) == 0 && queue_of(n.gossip_buffer(), id).len()
                == 0,
        forall|id: Seq<u8>, es: Seq<GossipEntryModel>|
            #![trigger fan_all(riding(n.subscriptions(), id), es)]
            fan_all(riding(n.subscriptions(), id), es).len() == 0,
{
    assert forall|id: Seq<u8>, es: Seq<GossipEntryModel>|
        #![trigger fan_all(riding(n.subscriptions(), id), es)]
        fan_all(riding(n.subscriptions(), id), es).len() == 0 by {
        lemma_fan_all_empty(n.subscriptions(), id, es);
    }
}

proof fn lemma_fan_all_empty(subs: Seq<TopicModel>, id: Seq<u8>, es: Seq<GossipEntryModel>)
    requires
        subs.len() == 0,
    ensures
        fan_all(riding(subs, id), es).len() == 0,
    decreases es.len(),
{
    reveal(Seq::filter);
    assert(riding(subs, id).len() == 0);
    if es.len() > 0 {
        lemma_fan_all_empty(subs, id, es.drop_last());
    }
}

proof fn lemma_push_contains(s: Seq<Seq<u8>>, x: Seq<u8>)
    ensures
        s.contains(x) ==> s.push(x).to_set() == s.to_set(),
        forall|a: Seq<u8>| #[trigger] s.push(x).contains(a) <==> (s.contains(a) || a == x),
{
    assert forall|a: Seq<u8>| #[trigger] s.push(x).contains(a) <==> (s.contains(a) || a == x) by {
        if s.push(x).contains(a) {
            let k = choose|k: int| 0 <= k < s.push(x).len() && s.push(x)[k] == a;
            if k < s.len() {
                assert(s[k] == a);
            }
        }
        if s.contains(a) {
            let k = choose|k: int| 0 <= k < s.len() && s[k] == a;
            assert(s.push(x)[k] == a);
        }
        if a == x {
            assert(s.push(x)[s.len() as int] == a);
        }
    }
    if s.contains(x) {
        assert(s.push(x).to_set() =~= s.to_set());
    }
}

/// 1 where a session bound to `topic` holds overlay `x`, else 0.
pub open spec fn held_by(topic: Option<TopicModel>, x: Seq<u8>) -> nat {
    match topic {
        Some(t) => if t.id == x {
            1nat
        } else {
            0nat
        },
        None => 0nat,
    }
}

/// After a session step, the hold counts lag behind the table only by a session that
/// ended bound to a topic.
proof fn lemma_advance_counts(b: BufferModel, m: SchedulerModel, id: u64, ev: SessionEvent, now: u64)
    requires
        scheduler_wf(m),
        has_session(m.sessions, id),
        forall|x: Seq<u8>| #[trigger] holds_of(b, x) == held_count(m.sessions, x),
    ensures
        match spec_advance(m, id, ev, now).1 {
            StepModel::Ended(e) => forall|x: Seq<u8>|
                #[trigger] holds_of(b, x) == held_count(spec_advance(m, id, ev, now).0.sessions, x)
                    + held_by(e.session.topic, x),
            _ => forall|x: Seq<u8>|
                #[trigger] holds_of(b, x) == held_count(spec_advance(m, id, ev, now).0.sessions, x),
        },
{
    let i = session_slot(m.sessions, id);
    let s = m.sessions[i];
    let st = next_state(s.state, ev);
    assert forall|x: Seq<u8>| #[trigger] holds_of(b, x) == held_count(m.sessions, x) implies true by {}
    if st == SessionState::Failed || st == SessionState::Done {
        assert forall|x: Seq<u8>| #[trigger] holds_of(b, x) == held_count(m.sessions.remove(i), x)
            + held_by(s.topic, x) by {
            lemma_held_count_remove(m.sessions, i, x);
        }
    } else {
        assert forall|x: Seq<u8>| #[trigger] holds_of(b, x) == held_count(
            m.sessions.update(i, SessionModel { state: st, ..s }),
            x,
        ) by {
            lemma_held_count_update(m.sessions, i, SessionModel { state: st, ..s }, x);
        }
    }
}

/// After a handshake, the hold counts lag behind the table by a session that ended bound
/// to a topic, or by the acceptor that took its topic on.
proof fn lemma_handshake_counts(b: BufferModel, m: SchedulerModel, id: u64, t: TopicModel, now: u64)
    requires
        scheduler_wf(m),
        has_session(m.sessions, id),
        forall|x: Seq<u8>| #[trigger] holds_of(b, x) == held_count(m.sessions, x),
    ensures
        match spec_handshake(m, id, t, now).1 {
            StepModel::Ended(e) => forall|x: Seq<u8>|
                #[trigger] holds_of(b, x) == held_count(spec_handshake(m, id, t, now).0.sessions, x)
                    + held_by(e.session.topic, x),
            _ => forall|x: Seq<u8>|
                #[trigger] holds_of(b, x) + (if m.sessions[session_slot(m.sessions, id)].direction
                    == Direction::Acceptor && x == t.id {
                    1nat
                } else {
                    0nat
                }) == held_count(spec_handshake(m, id, t, now).0.sessions, x),
        },
{
    let i = session_slot(m.sessions, id);
    let s = m.sessions[i];
    let r = spec_handshake(m, id, t, now);
    if r.1 is Ended {
        assert forall|x: Seq<u8>| #[trigger] holds_of(b, x) == held_count(m.sessions.remove(i), x)
            + held_by(s.topic, x) by {
            lemma_held_count_remove(m.sessions, i, x);
        }
    } else {
        let ns = SessionModel { state: SessionState::Transferring, topic: Some(t), ..s };
        assert forall|x: Seq<u8>| #[trigger] holds_of(b, x) + (if s.direction == Direction::Acceptor
            && x == t.id {
            1nat
        } else {
            0nat
        }) == held_count(m.sessions.update(i, ns), x) by {
            lemma_held_count_update(m.sessions, i, ns, x);
            assert(m.sessions[i] == s);
        }
    }
}

/// How to reach each of `s`'s peers.
pub open spec fn record_addrs(s: Seq<RecordModel>) -> Seq<NodeAddrModel> {
    s.map_values(|m: RecordModel| record_addr(m))
}

pub open spec fn record_addr(m: RecordModel) -> NodeAddrModel {
    NodeAddrModel { node_id: m.peer, relay_url: m.relay, direct_addresses: m.addrs }
}

} // verus!
