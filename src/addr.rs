use vstd::prelude::*;

use crate::ids::{bytes_eq, copy_bytes, PeerId};

verus! {

/// A transport address: the IP address's bytes (4 for IPv4, 16 for IPv6) and a port.
#[derive(Clone, Debug, PartialEq, Eq)]
pub struct SocketAddress {
    pub ip: Vec<u8>,
    pub port: u16,
}

pub struct SocketAddressModel {
    pub ip: Seq<u8>,
    pub port: u16,
}

impl View for SocketAddress {
    type V = SocketAddressModel;

    open spec fn view(&self) -> SocketAddressModel {
        SocketAddressModel { ip: self.ip@, port: self.port }
    }
}

impl SocketAddress {
    pub fn v4(ip: [u8; 4], port: u16) -> (r: SocketAddress)
        ensures
            r@.ip == ip@,
            r@.port == port,
    {
        let mut v: Vec<u8> = Vec::new();
        let mut i: usize = 0;
        while i < 4
            invariant
                i <= 4,
                v@ == ip@.subrange(0, i as int),
            decreases 4 - i,
        {
            v.push(ip[i]);
            i = i + 1;
            assert(v@ =~= ip@.subrange(0, i as int));
        }
        assert(ip@.subrange(0, 4) =~= ip@);
        SocketAddress { ip: v, port }
    }

    /// Whether both name the same host and port.
    pub fn same(&self, other: &SocketAddress) -> (r: bool)
        ensures
            r == (self@ == other@),
    {
        self.port == other.port && bytes_eq(self.ip.as_slice(), other.ip.as_slice())
    }

    pub fn copy(&self) -> (r: SocketAddress)
        ensures
            r@ == self@,
    {
        SocketAddress { ip: copy_bytes(&self.ip), port: self.port }
    }
}

/// Port of a relay's STUN service when its URL names none.
pub const DEFAULT_STUN_PORT: u16 = 3478;

/// What parsing `s` as an absolute URL gives: its normalised text and the port written in
/// it (none where the scheme's default applies), or nothing where `s` is no URL.
pub uninterp spec fn parsed_url(s: Seq<char>) -> Option<(Seq<char>, Option<u16>)>;

/// Relies on url::Url::parse, Url::as_str and Url::port: whether the text parses, the
/// normalised text and the explicit port depend on the text alone.
#[verifier::external_body]
fn parse_url(s: &str) -> (r: Option<(String, Option<u16>)>)
    ensures
        r is Some <==> parsed_url(s@) is Some,
        r matches Some(p) ==> parsed_url(s@) == Some((p.0@, p.1)),
{
    match url::Url::parse(s) {
        Ok(u) => Some((u.as_str().to_string(), u.port())),
        Err(_) => None,
    }
}

/// Why a text is not a relay URL.
#[derive(Clone, Copy, Debug, PartialEq, Eq, Structural)]
pub enum RelayUrlError {
    Invalid,
}

/// URL of a relay node.
#[derive(Clone, Debug, PartialEq, Eq)]
pub struct RelayUrl {
    text: String,
    port: Option<u16>,
}

impl View for RelayUrl {
    type V = (Seq<char>, Option<u16>);

    closed spec fn view(&self) -> (Seq<char>, Option<u16>) {
        (self.text@, self.port)
    }
}

impl RelayUrl {
    /// Parses an absolute URL.
    pub fn parse(s: &str) -> (r: Result<RelayUrl, RelayUrlError>)
        ensures
            r is Ok <==> parsed_url(s@) is Some,
            r matches Ok(u) ==> parsed_url(s@) == Some(u@),
    {
        match parse_url(s) {
            Some(p) => Ok(RelayUrl { text: p.0, port: p.1 }),
            None => Err(RelayUrlError::Invalid),
        }
    }

    /// The normalised text of the URL.
    pub fn as_str(&self) -> (r: &str)
        ensures
            r@ == self@.0,
    {
        self.text.as_str()
    }

    /// The port written in the URL, if any.
    pub fn port(&self) -> (r: Option<u16>)
        ensures
            r == self@.1,
    {
        self.port
    }

    /// Port of the relay's STUN service: the URL's own, else the default one.
    pub fn stun_port(&self) -> (r: u16)
        ensures
            r == stun_port_of(self@.1),
    {
        match self.port {
            Some(p) => p,
            None => DEFAULT_STUN_PORT,
        }
    }

    pub fn same(&self, other: &RelayUrl) -> (r: bool)
        ensures
            r == (self@ == other@),
    {
        self.port == other.port && self.text == other.text
    }

    pub fn copy(&self) -> (r: RelayUrl)
        ensures
            r@ == self@,
    {
        RelayUrl { text: self.text.clone(), port: self.port }
    }
}

pub open spec fn stun_port_of(port: Option<u16>) -> u16 {
    match port {
        Some(p) => p,
        None => DEFAULT_STUN_PORT,
    }
}

pub open spec fn relay_view(r: Option<RelayUrl>) -> Option<(Seq<char>, Option<u16>)> {
    match r {
        Some(u) => Some(u@),
        None => None,
    }
}

pub fn copy_relay(r: &Option<RelayUrl>) -> (c: Option<RelayUrl>)
    ensures
        relay_view(c) == relay_view(*r),
{
    match r {
        Some(u) => Some(u.copy()),
        None => None,
    }
}

pub open spec fn addrs_view(v: Seq<SocketAddress>) -> Seq<SocketAddressModel> {
    v.map_values(|a: SocketAddress| a@)
}

pub fn copy_addrs(v: &Vec<SocketAddress>) -> (r: Vec<SocketAddress>)
    ensures
        addrs_view(r@) == addrs_view(v@),
{
    let mut r: Vec<SocketAddress> = Vec::new();
    let mut i: usize = 0;
    while i < v.len()
        invariant
            i <= v@.len(),
            r@.len() == i,
            addrs_view(r@) == addrs_view(v@).subrange(0, i as int),
        decreases v@.len() - i,
    {
        let c = v[i].copy();
        let ghost r0 = r@;
        r.push(c);
        i = i + 1;
        assert(r@ == r0.push(c));
        assert forall|k: int| 0 <= k < i implies #[trigger] addrs_view(r@)[k] == addrs_view(
            v@,
        )[k] by {
            if k < i - 1 {
                assert(r@[k] == r0[k]);
                assert(addrs_view(r0)[k] == addrs_view(v@)[k]);
            }
        }
        assert(addrs_view(r@) =~= addrs_view(v@).subrange(0, i as int));
    }
    assert(addrs_view(v@).subrange(0, v@.len() as int) =~= addrs_view(v@));
    r
}

/// How to reach a peer: its id, its direct addresses and the relay it uses.
#[derive(Clone, Debug, PartialEq, Eq)]
pub struct NodeAddr {
    pub node_id: PeerId,
    pub relay_url: Option<RelayUrl>,
    pub direct_addresses: Vec<SocketAddress>,
}

pub struct NodeAddrModel {
    pub node_id: Seq<u8>,
    pub relay_url: Option<(Seq<char>, Option<u16>)>,
    pub direct_addresses: Seq<SocketAddressModel>,
}

impl View for NodeAddr {
    type V = NodeAddrModel;

    open spec fn view(&self) -> NodeAddrModel {
        NodeAddrModel {
            node_id: self.node_id@,
            relay_url: relay_view(self.relay_url),
            direct_addresses: addrs_view(self.direct_addresses@),
        }
    }
}

impl NodeAddr {
    pub fn new(node_id: PeerId) -> (r: NodeAddr)
        ensures
            r@.node_id == node_id@,
            r@.relay_url is None,
            r@.direct_addresses.len() == 0,
    {
        let r = NodeAddr { node_id, relay_url: None, direct_addresses: Vec::new() };
        assert(r@.direct_addresses =~= Seq::<SocketAddressModel>::empty());
        r
    }

    pub fn copy(&self) -> (r: NodeAddr)
        ensures
            r@ == self@,
    {
        NodeAddr {
            node_id: self.node_id.copy(),
            relay_url: copy_relay(&self.relay_url),
            direct_addresses: copy_addrs(&self.direct_addresses),
        }
    }
}

} // verus!
