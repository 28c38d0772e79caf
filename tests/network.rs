use p2panda_core::{Body, Header, PrivateKey};
use p2panda_net::{
    Config, Delivery, FromNetwork, GossipEntry, Network, NetworkBuilder, NetworkError, NodeAddr,
    PeerId, RelayMode, RelayNode, RelayUrl, SessionEvent, SocketAddress, SyncConfiguration,
    SyncFailure, Topic, DEFAULT_BIND_PORT, DEFAULT_STUN_PORT,
};

fn peer(n: u8) -> PeerId {
    PeerId::from_bytes([n; 32])
}

fn local() -> Vec<SocketAddress> {
    vec![SocketAddress::v4([192, 168, 0, 4], 2022)]
}

fn test_topic(name: &str) -> Topic {
    Topic::new(name.as_bytes().to_vec(), [0; 32])
}

fn node(n: u8) -> Network {
    NetworkBuilder::new([1; 32]).build(peer(n), local(), 0).unwrap()
}

fn sync_node(n: u8) -> Network {
    NetworkBuilder::new([1; 32])
        .sync(SyncConfiguration::new())
        .build(peer(n), local(), 0)
        .unwrap()
}

fn gossip(bytes: &str, from: &PeerId) -> FromNetwork {
    FromNetwork::GossipMessage { bytes: bytes.as_bytes().to_vec(), delivered_from: from.clone() }
}

#[test]
fn config() {
    let direct_node_public_key = PrivateKey::new().public_key();
    let relay_address = RelayUrl::parse("https://example.net").unwrap();

    let config = Config {
        bind_port: 2024,
        network_id: [1; 32],
        private_key: Some("secret-key.txt".to_string()),
        direct_node_addresses: vec![(
            PeerId::from_bytes(*direct_node_public_key.as_bytes()),
            vec![SocketAddress::v4([0, 0, 0, 0], 2026)],
            None,
        )],
        relay: Some(relay_address.clone()),
    };

    let builder = NetworkBuilder::from_config(config);

    assert_eq!(builder.bind_port, Some(2024));
    assert_eq!(builder.network_id, [1; 32]);
    assert!(builder.secret_key.is_none());
    assert_eq!(builder.direct_node_addresses.len(), 1);
    let relay_node = RelayNode { url: relay_address, stun_only: false, stun_port: DEFAULT_STUN_PORT };
    assert_eq!(builder.relay_mode, RelayMode::Custom(relay_node));
}

#[test]
fn relay_port_from_url() {
    let url = RelayUrl::parse("https://relay.example:4443").unwrap();
    assert_eq!(url.port(), Some(4443));
    assert_eq!(url.stun_port(), 4443);
    let plain = RelayUrl::parse("https://example.net").unwrap();
    assert_eq!(plain.port(), None);
    assert_eq!(plain.stun_port(), 3478);
    assert_eq!(plain.as_str(), "https://example.net/");
    assert!(RelayUrl::parse("not a url").is_err());
}

#[test]
fn build_ports_and_alpns() {
    let n = NetworkBuilder::new([1; 32]).build(peer(1), local(), 0).unwrap();
    assert_eq!(n.bind_ports(), (DEFAULT_BIND_PORT, DEFAULT_BIND_PORT + 1));
    let n = NetworkBuilder::new([1; 32]).bind_port(2024).build(peer(1), local(), 0).unwrap();
    assert_eq!(n.bind_ports(), (2024, 2025));
    assert_eq!(n.node_id(), peer(1));
    assert_eq!(n.network_id(), [1; 32]);
    assert!(matches!(
        NetworkBuilder::new([1; 32]).bind_port(65535).build(peer(1), local(), 0),
        Err(NetworkError::BindPortOutOfRange)
    ));
}

#[test]
fn bootstrap_peers_get_our_relay() {
    let relay = RelayUrl::parse("https://example.net").unwrap();
    let other = RelayUrl::parse("https://other.example").unwrap();
    let n = NetworkBuilder::new([1; 32])
        .relay(relay.clone(), false, 3478)
        .direct_address(peer(2), vec![SocketAddress::v4([10, 0, 0, 2], 2022)], None)
        .direct_address(peer(3), vec![], Some(other.clone()))
        .build(peer(1), local(), 7)
        .unwrap();
    let known = n.known_peers().unwrap();
    assert_eq!(known.len(), 2);
    let two = known.iter().find(|a| a.node_id == peer(2)).unwrap();
    assert_eq!(two.relay_url, Some(relay));
    assert_eq!(two.direct_addresses, vec![SocketAddress::v4([10, 0, 0, 2], 2022)]);
    let three = known.iter().find(|a| a.node_id == peer(3)).unwrap();
    assert_eq!(three.relay_url, Some(other));
}

#[test]
fn join_gossip_overlay() {
    let a = peer(1);
    let mut node_b = node(2);
    node_b.add_peer(NodeAddr::new(a.clone()), 0).unwrap();
    let topic = test_topic("chat");
    assert_eq!(node_b.subscribe(topic.clone()), Ok(true));
    let received =
        node_b.on_gossip(&topic.topic_id(), GossipEntry::new(b"Hello, Node".to_vec(), a.clone()));
    assert_eq!(received, vec![Delivery { topic, event: gossip("Hello, Node", &a) }]);
}

#[test]
fn multi_hop_join_gossip_overlay() {
    let a = peer(1);
    let topic = test_topic("chat");
    let mut node_b = node(2);
    let mut node_c = node(3);
    node_b.add_peer(NodeAddr::new(a.clone()), 0).unwrap();
    node_c.add_peer(NodeAddr::new(peer(2)), 0).unwrap();
    node_b.subscribe(topic.clone()).unwrap();
    node_c.subscribe(topic.clone()).unwrap();
    let entry = GossipEntry::new(b"Hello, Node".to_vec(), a.clone());
    let at_b = node_b.on_gossip(&topic.topic_id(), entry.clone());
    let at_c = node_c.on_gossip(&topic.topic_id(), entry);
    assert_eq!(at_b, vec![Delivery { topic: topic.clone(), event: gossip("Hello, Node", &a) }]);
    assert_eq!(at_c, vec![Delivery { topic, event: gossip("Hello, Node", &a) }]);
}

#[test]
fn topics_sharing_an_overlay_each_get_a_copy() {
    let mut n = node(1);
    let chat = Topic::new(b"chat".to_vec(), [9; 32]);
    let logs = Topic::new(b"logs".to_vec(), [9; 32]);
    assert_eq!(n.subscribe(chat.clone()), Ok(true));
    assert_eq!(n.subscribe(logs.clone()), Ok(false));
    assert_eq!(n.subscribe(chat.clone()), Err(NetworkError::AlreadySubscribed));
    let got = n.on_gossip(&chat.topic_id(), GossipEntry::new(b"x".to_vec(), peer(2)));
    assert_eq!(
        got,
        vec![
            Delivery { topic: chat, event: gossip("x", &peer(2)) },
            Delivery { topic: logs, event: gossip("x", &peer(2)) },
        ]
    );
}

#[test]
fn ping_pong() {
    let topic = test_topic("ping_pong");
    let mut node_a = sync_node(1);
    let mut node_b = sync_node(2);
    node_a.add_peer(NodeAddr::new(peer(2)), 0).unwrap();
    node_b.add_peer(NodeAddr::new(peer(1)), 0).unwrap();
    node_a.subscribe(topic.clone()).unwrap();
    node_b.subscribe(topic.clone()).unwrap();

    let starts = node_a.start_sessions(1);
    assert_eq!(starts.len(), 1);
    let a_id = starts[0].id;
    assert_eq!(starts[0].peer.node_id, peer(2));
    assert_eq!(starts[0].topic, topic);
    let b_id = node_b.accept_session(peer(1), 1).unwrap();

    assert!(node_a.on_session_event(a_id, SessionEvent::Connected, 1).is_empty());
    assert!(node_b.on_session_event(b_id, SessionEvent::Connected, 1).is_empty());
    assert!(node_a.on_handshake(a_id, topic.clone(), 1).is_empty());
    assert!(node_b.on_handshake(b_id, topic.clone(), 1).is_empty());

    let at_b = node_b.on_sync_data(b_id, b"PING".to_vec(), None, 2);
    assert_eq!(
        at_b,
        vec![Delivery {
            topic: topic.clone(),
            event: FromNetwork::SyncMessage { header: b"PING".to_vec(), payload: None, delivered_from: peer(1) },
        }]
    );
    let at_a = node_a.on_sync_data(a_id, b"PONG".to_vec(), None, 2);
    assert_eq!(
        at_a,
        vec![Delivery {
            topic,
            event: FromNetwork::SyncMessage { header: b"PONG".to_vec(), payload: None, delivered_from: peer(2) },
        }]
    );
    for (n, id) in [(&mut node_a, a_id), (&mut node_b, b_id)] {
        assert!(n.on_session_event(id, SessionEvent::EndOfStream, 3).is_empty());
        assert!(n.on_session_event(id, SessionEvent::Finalised, 3).is_empty());
    }
    assert!(node_a.shutdown(4).unwrap().is_empty());
    assert!(node_b.shutdown(4).unwrap().is_empty());
}

fn create_operation(
    private_key: &PrivateKey,
    body: &Body,
    seq_num: u64,
    timestamp: u64,
    backlink: Option<p2panda_core::hash::Hash>,
) -> (p2panda_core::hash::Hash, Vec<u8>) {
    let mut header = Header::<()> {
        version: 1,
        public_key: private_key.public_key(),
        signature: None,
        payload_size: body.size(),
        payload_hash: Some(body.hash()),
        timestamp,
        seq_num,
        backlink,
        previous: vec![],
        extensions: None,
    };
    header.sign(private_key);
    (header.hash(), header.to_bytes())
}

#[test]
fn e2e_log_height_sync() {
    let peer_a_private_key = PrivateKey::new();
    let peer_b_private_key = PrivateKey::new();
    let peer_b = PeerId::from_bytes(*peer_b_private_key.public_key().as_bytes());
    let topic = test_topic("event_logs");

    let body = Body::new("Hello, Sloth!".as_bytes());
    let (hash_0, header_bytes_0) = create_operation(&peer_a_private_key, &body, 0, 0, None);
    let (hash_1, header_bytes_1) = create_operation(&peer_a_private_key, &body, 1, 100, Some(hash_0));
    let (_, header_bytes_2) = create_operation(&peer_a_private_key, &body, 2, 200, Some(hash_1));

    let mut node_a = NetworkBuilder::new([1; 32])
        .sync(SyncConfiguration::new())
        .private_key(*peer_a_private_key.as_bytes())
        .build(PeerId::from_bytes(*peer_a_private_key.public_key().as_bytes()), local(), 0)
        .unwrap();
    node_a.add_peer(NodeAddr::new(peer_b.clone()), 0).unwrap();
    node_a.subscribe(topic.clone()).unwrap();
    let id = node_a.start_sessions(0)[0].id;
    node_a.on_session_event(id, SessionEvent::Connected, 0);
    node_a.on_handshake(id, topic.clone(), 0);

    // B's store answers with its three operations, in log order.
    let mut from_sync_messages = Vec::new();
    for header in [&header_bytes_0, &header_bytes_1, &header_bytes_2] {
        from_sync_messages.extend(node_a.on_sync_data(id, header.clone(), Some(body.to_bytes()), 1));
    }

    let peer_a_expected_messages: Vec<Delivery> = [header_bytes_0, header_bytes_1, header_bytes_2]
        .into_iter()
        .map(|header| Delivery {
            topic: topic.clone(),
            event: FromNetwork::SyncMessage {
                header,
                payload: Some(body.to_bytes()),
                delivered_from: peer_b.clone(),
            },
        })
        .collect();
    assert_eq!(from_sync_messages, peer_a_expected_messages);
}

#[test]
fn multi_hop_topic_discovery_and_sync() {
    let topic = test_topic("chat");
    let mut nodes: Vec<Network> = (1..=4).map(sync_node).collect();
    nodes[0].add_peer(NodeAddr::new(peer(2)), 0).unwrap();
    nodes[1].add_peer(NodeAddr::new(peer(1)), 0).unwrap();
    nodes[2].add_peer(NodeAddr::new(peer(2)), 0).unwrap();
    nodes[3].add_peer(NodeAddr::new(peer(3)), 0).unwrap();
    for n in nodes.iter_mut() {
        n.subscribe(topic.clone()).unwrap();
        let starts = n.start_sessions(1);
        assert_eq!(starts.len(), 1);
        let id = starts[0].id;
        n.on_session_event(id, SessionEvent::Connected, 1);
        n.on_handshake(id, topic.clone(), 1);
        let got = n.on_sync_data(id, b"PONG".to_vec(), None, 1);
        assert_eq!(got.len(), 1);
        n.on_session_event(id, SessionEvent::EndOfStream, 2);
        n.on_session_event(id, SessionEvent::Finalised, 2);
        assert!(n.start_sessions(3).is_empty());
    }
}

#[test]
fn shutdown_stops_deliveries() {
    let topic = test_topic("chat");
    let mut node_a = node(1);
    let mut node_b = node(2);
    node_a.add_peer(NodeAddr::new(peer(2)), 0).unwrap();
    node_b.add_peer(NodeAddr::new(peer(1)), 0).unwrap();
    node_a.subscribe(topic.clone()).unwrap();
    node_b.subscribe(topic.clone()).unwrap();
    let entry = GossipEntry::new(b"Hello, Node".to_vec(), peer(1));
    assert_eq!(node_b.on_gossip(&topic.topic_id(), entry.clone()).len(), 1);
    assert!(node_b.shutdown(1).is_ok());
    assert!(node_b.on_gossip(&topic.topic_id(), entry.clone()).is_empty());
    assert_eq!(node_b.shutdown(2), Ok(Vec::new()));
    assert_eq!(node_b.add_peer(NodeAddr::new(peer(3)), 2), Err(NetworkError::ShutDown));
    assert_eq!(node_b.known_peers(), Err(NetworkError::ShutDown));
    assert_eq!(node_b.subscribe(topic.clone()), Err(NetworkError::ShutDown));
    let known = node_a.known_peers().unwrap();
    assert_eq!(known.len(), 1);
    assert_eq!(known[0].node_id, peer(2));
}

#[test]
fn sync_output_comes_before_held_gossip() {
    let topic = test_topic("chat");
    let b = peer(2);
    let mut n = sync_node(1);
    n.add_peer(NodeAddr::new(b.clone()), 0).unwrap();
    n.subscribe(topic.clone()).unwrap();
    let id = n.start_sessions(0)[0].id;
    let live = GossipEntry::new(b"live".to_vec(), peer(3));
    assert!(n.on_gossip(&topic.topic_id(), live).is_empty());
    n.on_session_event(id, SessionEvent::Connected, 0);
    n.on_handshake(id, topic.clone(), 0);
    let synced = n.on_sync_data(id, b"old".to_vec(), None, 0);
    assert_eq!(synced.len(), 1);
    n.on_session_event(id, SessionEvent::EndOfStream, 0);
    let released = n.on_session_event(id, SessionEvent::Finalised, 0);
    assert_eq!(released, vec![Delivery { topic: topic.clone(), event: gossip("live", &peer(3)) }]);
    let later = n.on_gossip(&topic.topic_id(), GossipEntry::new(b"next".to_vec(), peer(3)));
    assert_eq!(later, vec![Delivery { topic, event: gossip("next", &peer(3)) }]);
}

#[test]
fn topic_mismatch_fails_and_releases() {
    let topic = test_topic("chat");
    let mut n = NetworkBuilder::new([1; 32])
        .sync(SyncConfiguration::new().resync(10, 5))
        .build(peer(1), local(), 0)
        .unwrap();
    n.add_peer(NodeAddr::new(peer(2)), 0).unwrap();
    n.subscribe(topic.clone()).unwrap();
    let id = n.start_sessions(0)[0].id;
    assert!(n.on_gossip(&topic.topic_id(), GossipEntry::new(b"held".to_vec(), peer(2))).is_empty());
    n.on_session_event(id, SessionEvent::Connected, 0);
    let released = n.on_handshake(id, test_topic("other"), 0);
    assert_eq!(released, vec![Delivery { topic: topic.clone(), event: gossip("held", &peer(2)) }]);
    // re-runs are configured, yet a mismatch is never retried
    assert!(n.start_sessions(100).is_empty());
}

#[test]
fn unsubscribe_cancels_sessions() {
    let topic = test_topic("chat");
    let mut n = sync_node(1);
    n.add_peer(NodeAddr::new(peer(2)), 0).unwrap();
    n.subscribe(topic.clone()).unwrap();
    let id = n.start_sessions(0)[0].id;
    n.on_gossip(&topic.topic_id(), GossipEntry::new(b"held".to_vec(), peer(2)));
    let (leave, delivered) = n.unsubscribe(&topic, 1).unwrap();
    assert!(leave);
    assert!(delivered.is_empty());
    assert!(n.on_session_event(id, SessionEvent::Connected, 1).is_empty());
    assert!(matches!(n.unsubscribe(&topic, 1), Err(NetworkError::NotSubscribed)));
}

#[test]
fn sync_requires_configuration() {
    let mut n = node(1);
    assert_eq!(n.accept_session(peer(2), 0), Err(NetworkError::SyncDisabled));
    n.add_peer(NodeAddr::new(peer(2)), 0).unwrap();
    n.subscribe(test_topic("chat")).unwrap();
    assert!(n.start_sessions(0).is_empty());
}

#[test]
fn data_before_handshake_fails_session() {
    let mut n = sync_node(1);
    let id = n.accept_session(peer(2), 0).unwrap();
    n.on_session_event(id, SessionEvent::Connected, 0);
    assert!(n.on_sync_data(id, b"early".to_vec(), None, 0).is_empty());
    // the session is gone
    assert!(n.on_session_event(id, SessionEvent::Failed(SyncFailure::Transport), 0).is_empty());
}

#[test]
fn direct_addresses_reported() {
    let mut n = node(1);
    assert_eq!(n.direct_addresses(), Some(local()));
    let announced = n.update_direct_addresses(vec![SocketAddress::v4([10, 0, 0, 7], 2024)]);
    assert_eq!(announced.node_id, peer(1));
    assert_eq!(announced.relay_url, None);
    assert_eq!(announced.direct_addresses, vec![SocketAddress::v4([10, 0, 0, 7], 2024)]);
    assert_eq!(n.direct_addresses(), Some(vec![SocketAddress::v4([10, 0, 0, 7], 2024)]));
}

#[test]
fn build_needs_a_direct_address() {
    assert!(matches!(
        NetworkBuilder::new([1; 32]).build(peer(1), vec![], 0),
        Err(NetworkError::NoDirectAddress)
    ));
}

#[test]
fn fresh_node_accepts_sessions_from_id_zero() {
    let mut n = sync_node(1);
    assert_eq!(n.accept_session(peer(2), 0), Ok(0));
    assert_eq!(n.accept_session(peer(3), 0), Ok(1));
}

#[test]
fn ready_when_overlay_reports_first_neighbour() {
    let mut n = node(1);
    let chat = Topic::new(b"chat".to_vec(), [7; 32]);
    let logs = Topic::new(b"logs".to_vec(), [7; 32]);
    n.subscribe(chat.clone()).unwrap();
    n.subscribe(logs.clone()).unwrap();
    assert!(!n.overlay_live(&chat.topic_id()));
    let ready = n.on_neighbour(&chat.topic_id(), NodeAddr::new(peer(2)), 3);
    assert_eq!(ready, vec![chat.clone(), logs.clone()]);
    assert!(n.overlay_live(&chat.topic_id()));
    assert!(n.on_neighbour(&chat.topic_id(), NodeAddr::new(peer(3)), 4).is_empty());
    let known = n.known_peers().unwrap();
    assert_eq!(known.len(), 2);
    let (leave, _) = n.unsubscribe(&chat, 5).unwrap();
    assert!(!leave);
    let (leave, _) = n.unsubscribe(&logs, 5).unwrap();
    assert!(leave);
    assert!(!n.overlay_live(&chat.topic_id()));
}

#[test]
fn peers_are_listed_once_with_merged_addresses() {
    let mut n = node(1);
    let relay = RelayUrl::parse("https://relay.example").unwrap();
    let mut first = NodeAddr::new(peer(2));
    first.direct_addresses = vec![SocketAddress::v4([10, 0, 0, 2], 1)];
    let mut second = NodeAddr::new(peer(2));
    second.direct_addresses = vec![SocketAddress::v4([10, 0, 0, 2], 2)];
    second.relay_url = Some(relay.clone());
    n.add_peer(first, 1).unwrap();
    n.add_peer_from(second, 2, p2panda_net::PeerSource::Discovery).unwrap();
    let known = n.known_peers().unwrap();
    assert_eq!(known.len(), 1);
    assert_eq!(
        known[0].direct_addresses,
        vec![SocketAddress::v4([10, 0, 0, 2], 1), SocketAddress::v4([10, 0, 0, 2], 2)]
    );
    assert_eq!(known[0].relay_url, Some(relay));
}

#[test]
fn full_buffer_drops_are_counted() {
    let topic = test_topic("chat");
    let mut n = sync_node(1);
    n.add_peer(NodeAddr::new(peer(2)), 0).unwrap();
    n.subscribe(topic.clone()).unwrap();
    n.start_sessions(0);
    for k in 0..1030u32 {
        let bytes = k.to_be_bytes().to_vec();
        assert!(n.on_gossip(&topic.topic_id(), GossipEntry::new(bytes, peer(2))).is_empty());
    }
    assert_eq!(n.dropped_gossip(), 6);
}

#[test]
fn shutdown_cancels_sessions_in_flight() {
    let topic = test_topic("chat");
    let mut n = sync_node(1);
    n.add_peer(NodeAddr::new(peer(2)), 0).unwrap();
    n.subscribe(topic.clone()).unwrap();
    let id = n.start_sessions(0)[0].id;
    let ended = n.shutdown(1).unwrap();
    assert_eq!(ended.len(), 1);
    assert_eq!(ended[0].session.id, id);
    assert_eq!(ended[0].result, Err(SyncFailure::Cancelled));
    assert!(n.on_sync_data(id, b"late".to_vec(), None, 2).is_empty());
}

#[test]
fn inbound_connections_are_routed_by_alpn() {
    let n = NetworkBuilder::new([1; 32])
        .protocol(b"/custom/1")
        .sync(SyncConfiguration::new())
        .build(peer(1), local(), 0)
        .unwrap();
    assert_eq!(n.route(Some(&b"/custom/1"[..])), p2panda_net::Route::Dispatch(0));
    assert_eq!(n.route(Some(&b"/iroh-gossip/0"[..])), p2panda_net::Route::Dispatch(1));
    assert_eq!(n.route(Some(&b"/p2panda-net-sync/0"[..])), p2panda_net::Route::Dispatch(2));
    assert_eq!(n.route(Some(&b"/nobody/0"[..])), p2panda_net::Route::DropUnknownAlpn);
    assert_eq!(n.route(None), p2panda_net::Route::DropHandshakeFailed);
}
