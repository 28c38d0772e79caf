use vstd::prelude::*;

use crate::addr::{
    addrs_view, copy_addrs, copy_relay, relay_view, NodeAddr, RelayUrl, SocketAddress,
    SocketAddressModel,
};
use crate::ids::PeerId;

verus! {

/// Where the engine learned of a peer.
#[derive(Clone, Copy, Debug, PartialEq, Eq, Structural)]
pub enum PeerSource {
    Manual,
    Bootstrap,
    Discovery,
    GossipNeighbour,
}

/// Every source a peer was learned from.
#[derive(Clone, Copy, Debug, PartialEq, Eq, Structural)]
pub struct PeerSources {
    pub manual: bool,
    pub bootstrap: bool,
    pub discovery: bool,
    pub gossip_neighbour: bool,
}

pub open spec fn sources_of(s: PeerSource) -> PeerSources {
    PeerSources {
        manual: s == PeerSource::Manual,
        bootstrap: s == PeerSource::Bootstrap,
        discovery: s == PeerSource::Discovery,
        gossip_neighbour: s == PeerSource::GossipNeighbour,
    }
}

pub open spec fn sources_union(a: PeerSources, b: PeerSources) -> PeerSources {
    PeerSources {
        manual: a.manual || b.manual,
        bootstrap: a.bootstrap || b.bootstrap,
        discovery: a.discovery || b.discovery,
        gossip_neighbour: a.gossip_neighbour || b.gossip_neighbour,
    }
}

impl PeerSources {
    pub fn of(s: PeerSource) -> (r: PeerSources)
        ensures
            r == sources_of(s),
    {
        PeerSources {
            manual: s == PeerSource::Manual,
            bootstrap: s == PeerSource::Bootstrap,
            discovery: s == PeerSource::Discovery,
            gossip_neighbour: s == PeerSource::GossipNeighbour,
        }
    }

    pub fn union(&self, other: &PeerSources) -> (r: PeerSources)
        ensures
            r == sources_union(*self, *other),
    {
        PeerSources {
            manual: self.manual || other.manual,
            bootstrap: self.bootstrap || other.bootstrap,
            discovery: self.discovery || other.discovery,
            gossip_neighbour: self.gossip_neighbour || other.gossip_neighbour,
        }
    }

    /// The source shown for a peer: manual, then bootstrap, then discovery, then gossip
    /// neighbour; none where no source is recorded.
    pub fn display(&self) -> (r: Option<PeerSource>)
        ensures
            r == (if self.manual {
                Some(PeerSource::Manual)
            } else if self.bootstrap {
                Some(PeerSource::Bootstrap)
            } else if self.discovery {
                Some(PeerSource::Discovery)
            } else if self.gossip_neighbour {
                Some(PeerSource::GossipNeighbour)
            } else {
                None
            }),
    {
        if self.manual {
            Some(PeerSource::Manual)
        } else if self.bootstrap {
            Some(PeerSource::Bootstrap)
        } else if self.discovery {
            Some(PeerSource::Discovery)
        } else if self.gossip_neighbour {
            Some(PeerSource::GossipNeighbour)
        } else {
            None
        }
    }
}

/// What the engine knows of how to reach a peer.
#[derive(Clone, Debug, PartialEq, Eq)]
pub struct PeerRecord {
    pub peer_id: PeerId,
    pub direct_addresses: Vec<SocketAddress>,
    pub relay_hint: Option<RelayUrl>,
    pub last_seen: u64,
    pub sources: PeerSources,
}

pub struct RecordModel {
    pub peer: Seq<u8>,
    pub addrs: Seq<SocketAddressModel>,
    pub relay: Option<(Seq<char>, Option<u16>)>,
    pub last_seen: u64,
    pub sources: PeerSources,
}

impl View for PeerRecord {
    type V = RecordModel;

    open spec fn view(&self) -> RecordModel {
        RecordModel {
            peer: self.peer_id@,
            addrs: addrs_view(self.direct_addresses@),
            relay: relay_view(self.relay_hint),
            last_seen: self.last_seen,
            sources: self.sources,
        }
    }
}

impl PeerRecord {
    /// A record of `addr`, seen at `now`, learned from `source`.
    pub fn from_node_addr(addr: NodeAddr, now: u64, source: PeerSource) -> (r: PeerRecord)
        ensures
            r@.peer == addr@.node_id,
            r@.addrs == addr@.direct_addresses,
            r@.relay == addr@.relay_url,
            r@.last_seen == now,
            r@.sources == sources_of(source),
    {
        PeerRecord {
            peer_id: addr.node_id,
            direct_addresses: addr.direct_addresses,
            relay_hint: addr.relay_url,
            last_seen: now,
            sources: PeerSources::of(source),
        }
    }

    /// How to reach the peer.
    pub fn node_addr(&self) -> (r: NodeAddr)
        ensures
            r@.node_id == self@.peer,
            r@.direct_addresses == self@.addrs,
            r@.relay_url == self@.relay,
    {
        NodeAddr {
            node_id: self.peer_id.copy(),
            relay_url: copy_relay(&self.relay_hint),
            direct_addresses: copy_addrs(&self.direct_addresses),
        }
    }

    pub fn copy(&self) -> (r: PeerRecord)
        ensures
            r@ == self@,
    {
        PeerRecord {
            peer_id: self.peer_id.copy(),
            direct_addresses: copy_addrs(&self.direct_addresses),
            relay_hint: copy_relay(&self.relay_hint),
            last_seen: self.last_seen,
            sources: self.sources,
        }
    }
}

/// `a` followed by the addresses of `b` that it lacks, each once, in their order.
pub open spec fn add_addrs(a: Seq<SocketAddressModel>, b: Seq<SocketAddressModel>) -> Seq<
    SocketAddressModel,
>
    decreases b.len(),
{
    if b.len() == 0 {
        a
    } else {
        add_addrs(
            if a.contains(b[0]) {
                a
            } else {
                a.push(b[0])
            },
            b.drop_first(),
        )
    }
}

/// Union of the address lists, deduplicated by host and port, old addresses first.
pub proof fn lemma_add_addrs(a: Seq<SocketAddressModel>, b: Seq<SocketAddressModel>)
    requires
        a.no_duplicates(),
    ensures
        add_addrs(a, b).no_duplicates(),
        add_addrs(a, b).len() >= a.len(),
        add_addrs(a, b).subrange(0, a.len() as int) == a,
        forall|x: SocketAddressModel|
            #![trigger add_addrs(a, b).contains(x)]
            add_addrs(a, b).contains(x) <==> (a.contains(x) || b.contains(x)),
    decreases b.len(),
{
    if b.len() > 0 {
        let a1 = if a.contains(b[0]) {
            a
        } else {
            a.push(b[0])
        };
        assert(a1.no_duplicates()) by {
            if !a.contains(b[0]) {
                assert forall|i: int, j: int|
                    0 <= i < a1.len() && 0 <= j < a1.len() && i != j implies a1[i] != a1[j] by {
                    if i == a.len() {
                        assert(a.contains(a1[j]));
                    } else if j == a.len() {
                        assert(a.contains(a1[i]));
                    }
                }
            }
        }
        lemma_add_addrs(a1, b.drop_first());
        let r = add_addrs(a, b);
        assert(r == add_addrs(a1, b.drop_first()));
        assert(a1.subrange(0, a.len() as int) =~= a);
        assert(r.subrange(0, a.len() as int) =~= a1.subrange(0, a1.len() as int).subrange(
            0,
            a.len() as int,
        ));
        assert forall|x: SocketAddressModel| #![trigger r.contains(x)] r.contains(x) <==> (
        a.contains(x) || b.contains(x)) by {
            if a1.contains(x) && !a.contains(x) {
                assert(x == b[0]);
                assert(b.contains(x));
            }
            if a.contains(x) {
                let k = choose|k: int| 0 <= k < a.len() && a[k] == x;
                assert(a1[k] == x);
            }
            if b.contains(x) && !b.drop_first().contains(x) {
                let k = choose|k: int| 0 <= k < b.len() && b[k] == x;
                if k > 0 {
                    assert(b.drop_first()[k - 1] == x);
                }
                if !a.contains(x) {
                    assert(a1[a.len() as int] == x);
                }
            }
            if b.drop_first().contains(x) {
                let k = choose|k: int| 0 <= k < b.drop_first().len() && b.drop_first()[k] == x;
                assert(b[k + 1] == x);
            }
        }
    } else {
        assert(a.subrange(0, a.len() as int) =~= a);
    }
}

fn contains_addr(a: &Vec<SocketAddress>, x: &SocketAddress) -> (r: bool)
    ensures
        r == addrs_view(a@).contains(x@),
{
    let mut i: usize = 0;
    while i < a.len()
        invariant
            i <= a@.len(),
            forall|k: int| 0 <= k < i ==> a@[k]@ != x@,
        decreases a@.len() - i,
    {
        if a[i].same(x) {
            assert(addrs_view(a@)[i as int] == x@);
            return true;
        }
        i = i + 1;
    }
    assert(!addrs_view(a@).contains(x@)) by {
        if addrs_view(a@).contains(x@) {
            let k = choose|k: int| 0 <= k < addrs_view(a@).len() && addrs_view(a@)[k] == x@;
            assert(a@[k]@ == x@);
        }
    }
    false
}

/// Adds to `a` the addresses of `b` that it lacks.
fn merge_addresses(a: &mut Vec<SocketAddress>, b: &Vec<SocketAddress>)
    ensures
        addrs_view(final(a)@) == add_addrs(addrs_view(old(a)@), addrs_view(b@)),
{
    let ghost target = add_addrs(addrs_view(a@), addrs_view(b@));
    let ghost bv = addrs_view(b@);
    let mut i: usize = 0;
    assert(bv.subrange(0, bv.len() as int) =~= bv);
    while i < b.len()
        invariant
            i <= b@.len(),
            bv == addrs_view(b@),
            target == add_addrs(addrs_view(a@), bv.subrange(i as int, bv.len() as int)),
        decreases b@.len() - i,
    {
        let ghost before = addrs_view(a@);
        let ghost rest = bv.subrange(i as int, bv.len() as int);
        assert(rest[0] == b@[i as int]@);
        assert(rest.drop_first() =~= bv.subrange(i + 1, bv.len() as int));
        if !contains_addr(a, &b[i]) {
            let c = b[i].copy();
            a.push(c);
            assert(addrs_view(a@) =~= before.push(rest[0]));
        }
        i = i + 1;
    }
    assert(bv.subrange(i as int, bv.len() as int) =~= Seq::<SocketAddressModel>::empty());
}

pub open spec fn has_peer(m: Seq<RecordModel>, peer: Seq<u8>) -> bool {
    exists|i: int| 0 <= i < m.len() && m[i].peer == peer
}

pub open spec fn peer_slot(m: Seq<RecordModel>, peer: Seq<u8>) -> int {
    choose|i: int| 0 <= i < m.len() && m[i].peer == peer
}

pub open spec fn book_wf(m: Seq<RecordModel>) -> bool {
    &&& forall|i: int, j: int|
        0 <= i < m.len() && 0 <= j < m.len() && i != j ==> m[i].peer != m[j].peer
    &&& forall|i: int| 0 <= i < m.len() ==> m[i].addrs.no_duplicates()
}

/// Merge of a known record with a new one: addresses are united, the new relay hint wins
/// where there is one, `last_seen` only grows and every source is kept.
pub open spec fn merge_record(o: RecordModel, n: RecordModel) -> RecordModel {
    RecordModel {
        peer: o.peer,
        addrs: add_addrs(o.addrs, n.addrs),
        relay: if n.relay is Some {
            n.relay
        } else {
            o.relay
        },
        last_seen: if n.last_seen > o.last_seen {
            n.last_seen
        } else {
            o.last_seen
        },
        sources: sources_union(o.sources, n.sources),
    }
}

pub open spec fn spec_insert_or_merge(m: Seq<RecordModel>, n: RecordModel) -> Seq<RecordModel> {
    if has_peer(m, n.peer) {
        m.update(peer_slot(m, n.peer), merge_record(m[peer_slot(m, n.peer)], n))
    } else {
        m.push(RecordModel { addrs: add_addrs(Seq::empty(), n.addrs), ..n })
    }
}

pub open spec fn spec_forget(m: Seq<RecordModel>, peer: Seq<u8>) -> Seq<RecordModel> {
    if has_peer(m, peer) {
        m.remove(peer_slot(m, peer))
    } else {
        m
    }
}

/// `s` with `x` placed after every record seen at least as recently.
pub open spec fn insert_by_recency(s: Seq<RecordModel>, x: RecordModel) -> Seq<RecordModel>
    decreases s.len(),
{
    if s.len() == 0 {
        seq![x]
    } else if s[0].last_seen >= x.last_seen {
        seq![s[0]] + insert_by_recency(s.drop_first(), x)
    } else {
        seq![x] + s
    }
}

/// The records, most recently seen first; records seen at the same time keep their order.
pub open spec fn by_recency(s: Seq<RecordModel>) -> Seq<RecordModel>
    decreases s.len(),
{
    if s.len() == 0 {
        Seq::empty()
    } else {
        insert_by_recency(by_recency(s.drop_last()), s.last())
    }
}

proof fn lemma_insert_at(s: Seq<RecordModel>, x: RecordModel, p: int)
    requires
        0 <= p <= s.len(),
        forall|k: int| 0 <= k < p ==> s[k].last_seen >= x.last_seen,
        p < s.len() ==> s[p].last_seen < x.last_seen,
    ensures
        insert_by_recency(s, x) == s.insert(p, x),
    decreases s.len(),
{
    if s.len() == 0 {
        assert(s.insert(p, x) =~= seq![x]);
    } else if p == 0 {
        assert(s.insert(p, x) =~= seq![x] + s);
    } else {
        lemma_insert_at(s.drop_first(), x, p - 1);
        assert(s.insert(p, x) =~= seq![s[0]] + s.drop_first().insert(p - 1, x));
    }
}

proof fn lemma_insert_contains(s: Seq<RecordModel>, x: RecordModel)
    ensures
        insert_by_recency(s, x).len() == s.len() + 1,
        forall|r: RecordModel|
            #![trigger insert_by_recency(s, x).contains(r)]
            insert_by_recency(s, x).contains(r) <==> (s.contains(r) || r == x),
    decreases s.len(),
{
    if s.len() > 0 && s[0].last_seen >= x.last_seen {
        lemma_insert_contains(s.drop_first(), x);
        let t = insert_by_recency(s.drop_first(), x);
        let r0 = insert_by_recency(s, x);
        assert(r0 == seq![s[0]] + t);
        assert forall|r: RecordModel| #![trigger r0.contains(r)] r0.contains(r) <==> (s.contains(r)
            || r == x) by {
            if r0.contains(r) {
                let k = choose|k: int| 0 <= k < r0.len() && r0[k] == r;
                if k > 0 {
                    assert(t[k - 1] == r);
                    assert(t.contains(r));
                    if s.drop_first().contains(r) {
                        let j = choose|j: int|
                            0 <= j < s.drop_first().len() && s.drop_first()[j] == r;
                        assert(s[j + 1] == r);
                    }
                } else {
                    assert(s[0] == r);
                }
            }
            if s.contains(r) {
                let k = choose|k: int| 0 <= k < s.len() && s[k] == r;
                if k == 0 {
                    assert(r0[0] == r);
                } else {
                    assert(s.drop_first()[k - 1] == r);
                    assert(t.contains(r));
                    let j = choose|j: int| 0 <= j < t.len() && t[j] == r;
                    assert(r0[j + 1] == r);
                }
            }
            if r == x {
                assert(t.contains(x));
                let j = choose|j: int| 0 <= j < t.len() && t[j] == x;
                assert(r0[j + 1] == x);
            }
        }
    } else if s.len() > 0 {
        let r0 = insert_by_recency(s, x);
        assert(r0 == seq![x] + s);
        assert forall|r: RecordModel| #![trigger r0.contains(r)] r0.contains(r) <==> (s.contains(r)
            || r == x) by {
            if r0.contains(r) {
                let k = choose|k: int| 0 <= k < r0.len() && r0[k] == r;
                if k > 0 {
                    assert(s[k - 1] == r);
                }
            }
            if s.contains(r) {
                let k = choose|k: int| 0 <= k < s.len() && s[k] == r;
                assert(r0[k + 1] == r);
            }
            if r == x {
                assert(r0[0] == x);
            }
        }
    } else {
        let r0 = insert_by_recency(s, x);
        assert(r0 == seq![x]);
        assert forall|r: RecordModel| #![trigger r0.contains(r)] r0.contains(r) <==> (s.contains(r)
            || r == x) by {
            if r == x {
                assert(r0[0] == x);
            }
        }
    }
}

/// Ordering by recency keeps exactly the records it was given.
pub proof fn lemma_by_recency_contains(s: Seq<RecordModel>)
    ensures
        by_recency(s).len() == s.len(),
        forall|r: RecordModel|
            #![trigger by_recency(s).contains(r)]
            by_recency(s).contains(r) <==> s.contains(r),
    decreases s.len(),
{
    if s.len() > 0 {
        lemma_by_recency_contains(s.drop_last());
        lemma_insert_contains(by_recency(s.drop_last()), s.last());
        assert forall|r: RecordModel| #![trigger by_recency(s).contains(r)]
            by_recency(s).contains(r) <==> s.contains(r) by {
            assert(by_recency(s).contains(r) <==> (by_recency(s.drop_last()).contains(r) || r
                == s.last()));
            assert(by_recency(s.drop_last()).contains(r) <==> s.drop_last().contains(r));
            if s.drop_last().contains(r) {
                let k = choose|k: int| 0 <= k < s.drop_last().len() && s.drop_last()[k] == r;
                assert(s[k] == r);
            }
            if r == s.last() {
                assert(s[s.len() - 1] == r);
            }
            if s.contains(r) && r != s.last() {
                let k = choose|k: int| 0 <= k < s.len() && s[k] == r;
                assert(s.drop_last()[k] == r);
            }
        }
    }
}

pub open spec fn peers_distinct(s: Seq<RecordModel>) -> bool {
    forall|i: int, j: int| 0 <= i < s.len() && 0 <= j < s.len() && i != j ==> s[i].peer != s[j].peer
}

proof fn lemma_insert_distinct(t: Seq<RecordModel>, x: RecordModel)
    requires
        peers_distinct(t),
        forall|k: int| 0 <= k < t.len() ==> t[k].peer != x.peer,
    ensures
        peers_distinct(insert_by_recency(t, x)),
    decreases t.len(),
{
    let r = insert_by_recency(t, x);
    if t.len() > 0 && t[0].last_seen >= x.last_seen {
        let d = t.drop_first();
        assert forall|k: int| 0 <= k < d.len() implies d[k].peer != x.peer by {
            assert(d[k] == t[k + 1]);
        }
        assert(peers_distinct(d)) by {
            assert forall|i: int, j: int| 0 <= i < d.len() && 0 <= j < d.len() && i != j implies d[i].peer
                != d[j].peer by {
                assert(d[i] == t[i + 1] && d[j] == t[j + 1]);
            }
        }
        lemma_insert_distinct(d, x);
        lemma_insert_contains(d, x);
        let u = insert_by_recency(d, x);
        assert(r == seq![t[0]] + u);
        assert forall|i: int, j: int| 0 <= i < r.len() && 0 <= j < r.len() && i != j implies r[i].peer
            != r[j].peer by {
            if i == 0 || j == 0 {
                let k = if i == 0 { j } else { i };
                assert(r[k] == u[k - 1]);
                assert(u.contains(u[k - 1]));
                if u[k - 1] != x {
                    assert(d.contains(u[k - 1]));
                    let w = choose|w: int| 0 <= w < d.len() && d[w] == u[k - 1];
                    assert(d[w] == t[w + 1]);
                }
            } else {
                assert(r[i] == u[i - 1] && r[j] == u[j - 1]);
            }
        }
    } else if t.len() > 0 {
        assert(r == seq![x] + t);
        assert forall|i: int, j: int| 0 <= i < r.len() && 0 <= j < r.len() && i != j implies r[i].peer
            != r[j].peer by {
            if i > 0 {
                assert(r[i] == t[i - 1]);
            }
            if j > 0 {
                assert(r[j] == t[j - 1]);
            }
        }
    }
}

/// Ordering by recency keeps one record per peer.
pub proof fn lemma_by_recency_distinct(s: Seq<RecordModel>)
    requires
        peers_distinct(s),
    ensures
        peers_distinct(by_recency(s)),
    decreases s.len(),
{
    if s.len() > 0 {
        let d = s.drop_last();
        assert(peers_distinct(d)) by {
            assert forall|i: int, j: int| 0 <= i < d.len() && 0 <= j < d.len() && i != j implies d[i].peer
                != d[j].peer by {
                assert(d[i] == s[i] && d[j] == s[j]);
            }
        }
        lemma_by_recency_distinct(d);
        lemma_by_recency_contains(d);
        let t = by_recency(d);
        assert forall|k: int| 0 <= k < t.len() implies t[k].peer != s.last().peer by {
            assert(t.contains(t[k]));
            assert(d.contains(t[k]));
            let w = choose|w: int| 0 <= w < d.len() && d[w] == t[k];
            assert(s[w] == d[w]);
            assert(s[s.len() - 1] == s.last());
        }
        lemma_insert_distinct(t, s.last());
    }
}

pub open spec fn records_view(v: Seq<PeerRecord>) -> Seq<RecordModel> {
    v.map_values(|r: PeerRecord| r@)
}

/// The engine's catalogue of known peers: one record per peer id.
pub struct AddressBook {
    records: Vec<PeerRecord>,
}

impl View for AddressBook {
    type V = Seq<RecordModel>;

    closed spec fn view(&self) -> Seq<RecordModel> {
        records_view(self.records@)
    }
}

/// Every peer added to the address book is, afterwards, among the known peers with at
/// least the addresses it was added with.
pub proof fn lemma_added_peer_is_known(m: Seq<RecordModel>, n: RecordModel)
    requires
        book_wf(m),
    ensures
        exists|j: int|
            0 <= j < by_recency(spec_insert_or_merge(m, n)).len() && #[trigger] by_recency(
                spec_insert_or_merge(m, n),
            )[j].peer == n.peer && forall|x: SocketAddressModel|
                n.addrs.contains(x) ==> by_recency(spec_insert_or_merge(m, n))[j].addrs.contains(
                    x,
                ),
{
    let m1 = spec_insert_or_merge(m, n);
    let rec = if has_peer(m, n.peer) {
        let i = peer_slot(m, n.peer);
        lemma_add_addrs(m[i].addrs, n.addrs);
        assert(m1[i] == merge_record(m[i], n));
        m1[i]
    } else {
        lemma_add_addrs(Seq::empty(), n.addrs);
        m1[m.len() as int]
    };
    assert(m1.contains(rec));
    lemma_by_recency_contains(m1);
    let l = by_recency(m1);
    assert(l.contains(rec));
    let j = choose|j: int| 0 <= j < l.len() && l[j] == rec;
    assert(l[j].peer == n.peer);
}

impl AddressBook {
    pub open spec fn wf(&self) -> bool {
        book_wf(self@)
    }

    pub fn new() -> (r: AddressBook)
        ensures
            r.wf(),
            r@.len() == 0,
    {
        let r = AddressBook { records: Vec::new() };
        assert(r@ =~= Seq::<RecordModel>::empty());
        r
    }

    pub fn len(&self) -> (r: usize)
        ensures
            r == self@.len(),
    {
        self.records.len()
    }

    fn find(&self, peer: &PeerId) -> (r: Option<usize>)
        requires
            self.wf(),
        ensures
            r is None <==> !has_peer(self@, peer@),
            r matches Some(i) ==> i < self@.len() && i == peer_slot(self@, peer@),
    {
        let mut i: usize = 0;
        while i < self.records.len()
            invariant
                self.wf(),
                i <= self.records@.len(),
                forall|k: int| 0 <= k < i ==> self.records@[k].peer_id@ != peer@,
            decreases self.records@.len() - i,
        {
            if self.records[i].peer_id.same(peer) {
                assert(self@[i as int].peer == peer@);
                return Some(i);
            }
            i = i + 1;
        }
        assert forall|k: int| 0 <= k < self@.len() implies self@[k].peer != peer@ by {
            assert(self@[k] == self.records@[k]@);
        }
        None
    }

    /// The record of `peer`, if known.
    pub fn get(&self, peer: &PeerId) -> (r: Option<PeerRecord>)
        requires
            self.wf(),
        ensures
            r is Some <==> has_peer(self@, peer@),
            r matches Some(x) ==> x@ == self@[peer_slot(self@, peer@)],
    {
        match self.find(peer) {
            Some(i) => Some(self.records[i].copy()),
            None => None,
        }
    }

    /// Adds a record, or merges it into the known record of the same peer.
    pub fn insert_or_merge(&mut self, n: PeerRecord)
        requires
            old(self).wf(),
        ensures
            final(self).wf(),
            final(self)@ == spec_insert_or_merge(old(self)@, n@),
    {
        let ghost nm = n@;
        match self.find(&n.peer_id) {
            Some(i) => {
                let mut rec = self.records.remove(i);
                let ghost om = rec@;
                merge_addresses(&mut rec.direct_addresses, &n.direct_addresses);
                if n.relay_hint.is_some() {
                    rec.relay_hint = n.relay_hint;
                }
                if n.last_seen > rec.last_seen {
                    rec.last_seen = n.last_seen;
                }
                rec.sources = rec.sources.union(&n.sources);
                proof {
                    lemma_add_addrs(om.addrs, nm.addrs);
                    assert(rec@ == merge_record(om, nm));
                }
                self.records.insert(i, rec);
                proof {
                    assert(self@ =~= spec_insert_or_merge(old(self)@, nm));
                    assert forall|a: int, b: int|
                        0 <= a < self@.len() && 0 <= b < self@.len() && a != b implies self@[a].peer
                        != self@[b].peer by {
                        assert(self@[a].peer == old(self)@[a].peer);
                        assert(self@[b].peer == old(self)@[b].peer);
                    }
                }
            },
            None => {
                let mut addrs: Vec<SocketAddress> = Vec::new();
                proof {
                    assert(addrs_view(addrs@) =~= Seq::<SocketAddressModel>::empty());
                }
                merge_addresses(&mut addrs, &n.direct_addresses);
                proof {
                    lemma_add_addrs(Seq::empty(), nm.addrs);
                }
                let rec = PeerRecord {
                    peer_id: n.peer_id,
                    direct_addresses: addrs,
                    relay_hint: n.relay_hint,
                    last_seen: n.last_seen,
                    sources: n.sources,
                };
                self.records.push(rec);
                proof {
                    assert(self@ =~= spec_insert_or_merge(old(self)@, nm));
                    assert forall|a: int, b: int|
                        0 <= a < self@.len() && 0 <= b < self@.len() && a != b implies self@[a].peer
                        != self@[b].peer by {
                        if a == old(self)@.len() {
                            assert(old(self)@[b].peer != nm.peer);
                        } else if b == old(self)@.len() {
                            assert(old(self)@[a].peer != nm.peer);
                        }
                    }
                }
            },
        }
    }

    /// Removes the record of `peer`, if any.
    pub fn forget(&mut self, peer: &PeerId)
        requires
            old(self).wf(),
        ensures
            final(self).wf(),
            final(self)@ == spec_forget(old(self)@, peer@),
    {
        match self.find(peer) {
            Some(i) => {
                self.records.remove(i);
                proof {
                    let ts = old(self)@;
                    assert(self@ =~= ts.remove(i as int));
                    assert forall|a: int, b: int|
                        0 <= a < self@.len() && 0 <= b < self@.len() && a != b implies self@[a].peer
                        != self@[b].peer by {
                        let oa = if a < i { a } else { a + 1 };
                        let ob = if b < i { b } else { b + 1 };
                        assert(self@[a] == ts[oa]);
                        assert(self@[b] == ts[ob]);
                    }
                    assert forall|a: int| 0 <= a < self@.len() implies self@[a].addrs.no_duplicates() by {
                        let oa = if a < i { a } else { a + 1 };
                        assert(self@[a] == ts[oa]);
                    }
                }
            },
            None => {},
        }
    }

    /// Every known record, most recently seen first.
    pub fn list(&self) -> (r: Vec<PeerRecord>)
        ensures
            records_view(r@) == by_recency(self@),
    {
        let mut out: Vec<PeerRecord> = Vec::new();
        let mut i: usize = 0;
        assert(records_view(out@) =~= by_recency(self@.subrange(0, 0)));
        while i < self.records.len()
            invariant
                i <= self.records@.len(),
                self@ == records_view(self.records@),
                records_view(out@) == by_recency(self@.subrange(0, i as int)),
            decreases self.records@.len() - i,
        {
            let x = self.records[i].copy();
            let mut p: usize = 0;
            while p < out.len() && out[p].last_seen >= x.last_seen
                invariant
                    p <= out@.len(),
                    forall|k: int| 0 <= k < p ==> out@[k].last_seen >= x.last_seen,
                decreases out@.len() - p,
            {
                p = p + 1;
            }
            let ghost before = records_view(out@);
            proof {
                lemma_insert_at(before, x@, p as int);
                assert(self@.subrange(0, i + 1).drop_last() =~= self@.subrange(0, i as int));
                assert(self@.subrange(0, i + 1).last() == x@);
            }
            out.insert(p, x);
            i = i + 1;
            proof {
                assert(records_view(out@) =~= before.insert(p as int, x@));
            }
        }
        assert(self@.subrange(0, self@.len() as int) =~= self@);
        out
    }
}

} // verus!
