use p2panda_net::{
    AddressBook, Branch, ChildExit, GossipBuffer, GossipEntry, LoopAction, LoopEvent, PeerId,
    PeerRecord, PeerSource, PeerSources, ProtocolMap, Ready, RelayUrl, ResyncConfiguration, Route,
    SessionEvent, SocketAddress, StartError, StepOutcome, SyncFailure, SyncScheduler, Topic,
    TopicId, TopicRegistry,
};
use p2panda_net::supervisor::{decide, pick};

fn peer(n: u8) -> PeerId {
    PeerId::from_bytes([n; 32])
}

fn record(n: u8, addrs: Vec<SocketAddress>, relay: Option<RelayUrl>, seen: u64, source: PeerSource) -> PeerRecord {
    PeerRecord {
        peer_id: peer(n),
        direct_addresses: addrs,
        relay_hint: relay,
        last_seen: seen,
        sources: PeerSources::of(source),
    }
}

fn addr(last: u8, port: u16) -> SocketAddress {
    SocketAddress::v4([10, 0, 0, last], port)
}

#[test]
fn address_book_merges_records() {
    let relay = RelayUrl::parse("https://relay.example").unwrap();
    let mut book = AddressBook::new();
    book.insert_or_merge(record(1, vec![addr(1, 1), addr(2, 2)], Some(relay.clone()), 5, PeerSource::Discovery));
    book.insert_or_merge(record(1, vec![addr(2, 2), addr(3, 3), addr(3, 3)], None, 3, PeerSource::Manual));
    assert_eq!(book.len(), 1);
    let r = book.get(&peer(1)).unwrap();
    assert_eq!(r.direct_addresses, vec![addr(1, 1), addr(2, 2), addr(3, 3)]);
    assert_eq!(r.relay_hint, Some(relay));
    assert_eq!(r.last_seen, 5);
    assert!(r.sources.manual && r.sources.discovery && !r.sources.bootstrap);
    assert_eq!(r.sources.display(), Some(PeerSource::Manual));
    let other = RelayUrl::parse("https://other.example").unwrap();
    book.insert_or_merge(record(1, vec![], Some(other.clone()), 9, PeerSource::GossipNeighbour));
    let r = book.get(&peer(1)).unwrap();
    assert_eq!(r.relay_hint, Some(other));
    assert_eq!(r.last_seen, 9);
}

#[test]
fn address_book_lists_most_recent_first() {
    let mut book = AddressBook::new();
    book.insert_or_merge(record(1, vec![], None, 10, PeerSource::Manual));
    book.insert_or_merge(record(2, vec![], None, 30, PeerSource::Manual));
    book.insert_or_merge(record(3, vec![], None, 20, PeerSource::Manual));
    book.insert_or_merge(record(4, vec![], None, 30, PeerSource::Manual));
    let ids: Vec<PeerId> = book.list().into_iter().map(|r| r.peer_id).collect();
    assert_eq!(ids, vec![peer(2), peer(4), peer(3), peer(1)]);
    book.forget(&peer(2));
    assert!(book.get(&peer(2)).is_none());
    assert_eq!(book.len(), 3);
}

#[test]
fn added_peer_is_known_with_its_addresses() {
    let mut book = AddressBook::new();
    book.insert_or_merge(record(7, vec![addr(1, 1)], None, 1, PeerSource::Bootstrap));
    book.insert_or_merge(record(7, vec![addr(9, 9)], None, 2, PeerSource::Manual));
    let listed = book.list();
    let r = listed.iter().find(|r| r.peer_id == peer(7)).unwrap();
    assert!(r.direct_addresses.contains(&addr(9, 9)));
    assert!(r.direct_addresses.contains(&addr(1, 1)));
}

#[test]
fn gossip_buffer_holds_and_releases_in_order() {
    let id = TopicId::from_bytes([4; 32]);
    let mut buf = GossipBuffer::new(8);
    let e = |b: &str| GossipEntry::new(b.as_bytes().to_vec(), peer(1));
    assert_eq!(buf.arrive(&id, e("now")), Some(e("now")));
    buf.hold(&id);
    buf.hold(&id);
    assert!(buf.is_holding(&id));
    assert_eq!(buf.arrive(&id, e("a")), None);
    assert_eq!(buf.arrive(&id, e("b")), None);
    assert!(buf.release(&id).is_empty());
    assert_eq!(buf.holds(&id), 1);
    assert_eq!(buf.release(&id), vec![e("a"), e("b")]);
    assert!(!buf.is_holding(&id));
    assert_eq!(buf.arrive(&id, e("c")), Some(e("c")));
}

#[test]
fn gossip_buffer_drops_oldest_when_full() {
    let id = TopicId::from_bytes([4; 32]);
    let mut buf = GossipBuffer::new(2);
    let e = |b: &str| GossipEntry::new(b.as_bytes().to_vec(), peer(1));
    buf.hold(&id);
    buf.arrive(&id, e("1"));
    buf.arrive(&id, e("2"));
    buf.arrive(&id, e("3"));
    assert_eq!(buf.dropped(), 1);
    assert_eq!(buf.capacity(), 2);
    assert_eq!(buf.release(&id), vec![e("2"), e("3")]);
}

#[test]
fn gossip_buffer_discard() {
    let id = TopicId::from_bytes([4; 32]);
    let other = TopicId::from_bytes([5; 32]);
    let mut buf = GossipBuffer::new(4);
    let e = |b: &str| GossipEntry::new(b.as_bytes().to_vec(), peer(1));
    buf.hold(&id);
    buf.hold(&other);
    buf.arrive(&id, e("x"));
    buf.discard(&id);
    assert!(!buf.is_holding(&id));
    assert!(buf.is_holding(&other));
    assert_eq!(buf.arrive(&id, e("y")), Some(e("y")));
}

#[test]
fn router_dispatches_known_alpns_only() {
    let mut map = ProtocolMap::new();
    let g = map.insert(b"/iroh-gossip/0");
    let s = map.insert(b"/p2panda-net-sync/0");
    assert_eq!(map.insert(b"/iroh-gossip/0"), g);
    assert_eq!(map.alpns(), vec![b"/iroh-gossip/0".to_vec(), b"/p2panda-net-sync/0".to_vec()]);
    assert_eq!(map.route(Some(&b"/p2panda-net-sync/0"[..])), Route::Dispatch(s));
    assert_eq!(map.route(Some(&b"/unknown/1"[..])), Route::DropUnknownAlpn);
    assert_eq!(map.route(None), Route::DropHandshakeFailed);
    assert_eq!(map.route(Some(&b"/iroh-gossip/0"[..])), Route::Dispatch(g));
}

#[test]
fn supervisor_priority_is_strict() {
    let all = Ready { shutdown: true, incoming: true, discovery: true, child: true };
    assert_eq!(pick(all), Branch::Shutdown);
    assert_eq!(pick(Ready { shutdown: false, ..all }), Branch::Incoming);
    assert_eq!(pick(Ready { shutdown: false, incoming: false, ..all }), Branch::Discovery);
    assert_eq!(pick(Ready { shutdown: false, incoming: false, discovery: false, child: true }), Branch::Child);
    assert_eq!(pick(Ready { shutdown: false, incoming: false, discovery: false, child: false }), Branch::Exhausted);
}

#[test]
fn supervisor_survives_provider_and_connection_errors() {
    assert_eq!(decide(LoopEvent::Discovered { ok: false }), LoopAction::Continue);
    assert_eq!(decide(LoopEvent::Discovered { ok: true }), LoopAction::AddPeer);
    assert_eq!(decide(LoopEvent::Incoming { accepted: false }), LoopAction::Continue);
    assert_eq!(decide(LoopEvent::Incoming { accepted: true }), LoopAction::HandleConnection);
    assert_eq!(decide(LoopEvent::ChildEnded(ChildExit::Errored)), LoopAction::Continue);
    assert_eq!(decide(LoopEvent::ChildEnded(ChildExit::Cancelled)), LoopAction::Continue);
    assert_eq!(decide(LoopEvent::ChildEnded(ChildExit::Panicked)), LoopAction::Fail);
    assert_eq!(decide(LoopEvent::Shutdown), LoopAction::Stop);
    assert_eq!(decide(LoopEvent::Exhausted), LoopAction::Stop);
}

#[test]
fn registry_tracks_overlays() {
    let mut reg = TopicRegistry::new();
    let a = Topic::new(b"a".to_vec(), [1; 32]);
    let b = Topic::new(b"b".to_vec(), [1; 32]);
    assert_eq!(reg.subscribe(a.clone()), Ok(true));
    assert_eq!(reg.subscribe(b.clone()), Ok(false));
    assert_eq!(reg.fan_out(&TopicId::from_bytes([1; 32])), vec![a.clone(), b.clone()]);
    assert_eq!(reg.unsubscribe(&a), Ok(false));
    assert_eq!(reg.unsubscribe(&b), Ok(true));
    assert!(reg.unsubscribe(&b).is_err());
    assert!(reg.topics().is_empty());
}

#[test]
fn no_two_sessions_in_flight_for_a_pair() {
    let t = Topic::new(b"chat".to_vec(), [0; 32]);
    let mut s = SyncScheduler::new();
    let id = s.start_initiator(peer(2), t.clone(), None, 0).unwrap();
    assert_eq!(s.start_initiator(peer(2), t.clone(), None, 0), Err(StartError::AlreadyActive));
    assert!(s.in_flight(&peer(2), &t));
    // an inbound session for the same pair cannot take the topic on
    let inbound = s.start_acceptor(peer(2), 0).unwrap();
    s.advance(inbound, SessionEvent::Connected, 0);
    match s.handshake(inbound, t.clone(), 0) {
        Some(StepOutcome::Ended(e)) => assert_eq!(e.result, Err(SyncFailure::AlreadyActive)),
        _ => panic!("expected the inbound session to end"),
    }
    assert_eq!(s.active(), 1);
    s.advance(id, SessionEvent::Failed(SyncFailure::Transport), 1);
    assert_eq!(s.active(), 0);
}

#[test]
fn retry_policy() {
    let t = Topic::new(b"chat".to_vec(), [0; 32]);
    let resync = Some(ResyncConfiguration { interval: 10, max_attempts: 2 });
    let mut s = SyncScheduler::new();
    let id = s.start_initiator(peer(2), t.clone(), resync, 0).unwrap();
    s.advance(id, SessionEvent::Failed(SyncFailure::Transport), 5);
    assert!(!s.may_start(&peer(2), &t, None, 100));
    assert!(!s.may_start(&peer(2), &t, resync, 14));
    assert!(s.may_start(&peer(2), &t, resync, 15));
    let id = s.start_initiator(peer(2), t.clone(), resync, 15).unwrap();
    assert_eq!(s.session(id).unwrap().attempt, 2);
    s.advance(id, SessionEvent::Failed(SyncFailure::Timeout), 20);
    assert_eq!(s.start_initiator(peer(2), t.clone(), resync, 100), Err(StartError::NotDue));
}

#[test]
fn selection_prefers_new_pairs_then_smallest_ids() {
    let t_low = Topic::new(b"low".to_vec(), [1; 32]);
    let t_high = Topic::new(b"high".to_vec(), [2; 32]);
    let peers = vec![peer(9), peer(3)];
    let topics = vec![t_high.clone(), t_low.clone()];
    let resync = Some(ResyncConfiguration { interval: 0, max_attempts: 10 });
    let mut s = SyncScheduler::new();
    assert_eq!(s.next_candidate(&peers, &topics, resync, 0), Some((1, 1)));
    let id = s.start_initiator(peer(3), t_low.clone(), resync, 0).unwrap();
    s.advance(id, SessionEvent::Connected, 0);
    s.handshake(id, t_low.clone(), 0);
    s.advance(id, SessionEvent::EndOfStream, 0);
    s.advance(id, SessionEvent::Finalised, 0);
    // the pair that ran already comes after every pair never tried
    assert_eq!(s.next_candidate(&peers, &topics, resync, 0), Some((1, 0)));
    assert_eq!(s.next_candidate(&peers, &Vec::new(), resync, 0), None);
}

#[test]
fn lifecycle_out_of_order_fails() {
    let t = Topic::new(b"chat".to_vec(), [0; 32]);
    let mut s = SyncScheduler::new();
    let id = s.start_initiator(peer(2), t, None, 0).unwrap();
    match s.advance(id, SessionEvent::Finalised, 0) {
        Some(StepOutcome::Ended(e)) => assert_eq!(e.result, Err(SyncFailure::Protocol)),
        _ => panic!("expected a failed session"),
    }
    assert!(s.advance(id, SessionEvent::Connected, 0).is_none());
}

#[test]
fn cancel_ends_sessions_of_a_topic() {
    let chat = Topic::new(b"chat".to_vec(), [0; 32]);
    let logs = Topic::new(b"logs".to_vec(), [0; 32]);
    let mut s = SyncScheduler::new();
    let a = s.start_initiator(peer(2), chat.clone(), None, 0).unwrap();
    let b = s.start_initiator(peer(2), logs.clone(), None, 0).unwrap();
    let c = s.start_initiator(peer(3), chat.clone(), None, 0).unwrap();
    let ended = s.cancel(Some(&chat), 1);
    assert_eq!(ended.iter().map(|e| e.session.id).collect::<Vec<_>>(), vec![a, c]);
    assert!(ended.iter().all(|e| e.result == Err(SyncFailure::Cancelled)));
    assert_eq!(s.active(), 1);
    assert!(s.session(b).is_some());
    let rest = s.cancel(None, 2);
    assert_eq!(rest.len(), 1);
    assert_eq!(s.active(), 0);
}
