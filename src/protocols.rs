use vstd::prelude::*;

use crate::ids::{bytes_eq, copy_bytes};

verus! {

/// Registered protocols, by ALPN. Each ALPN names the slot of its handler; handlers
/// themselves live with the transport.
pub struct ProtocolMap {
    alpns: Vec<Vec<u8>>,
}

pub open spec fn alpns_view(v: Seq<Vec<u8>>) -> Seq<Seq<u8>> {
    v.map_values(|a: Vec<u8>| a@)
}

/// Slot of `alpn` among the registered ones, if it is registered.
pub open spec fn alpn_slot(m: Seq<Seq<u8>>, alpn: Seq<u8>) -> Option<int> {
    if exists|i: int| 0 <= i < m.len() && m[i] == alpn {
        Some(choose|i: int| 0 <= i < m.len() && m[i] == alpn)
    } else {
        None
    }
}

/// What to do with an inbound connection.
#[derive(Clone, Copy, Debug, PartialEq, Eq, Structural)]
pub enum Route {
    /// Hand the connection to the handler in this slot.
    Dispatch(usize),
    /// The handshake failed: drop the connection.
    DropHandshakeFailed,
    /// No handler speaks this ALPN: drop the connection.
    DropUnknownAlpn,
}

impl View for ProtocolMap {
    type V = Seq<Seq<u8>>;

    closed spec fn view(&self) -> Seq<Seq<u8>> {
        alpns_view(self.alpns@)
    }
}

impl ProtocolMap {
    pub closed spec fn wf(&self) -> bool {
        self@.no_duplicates()
    }

    pub fn new() -> (r: ProtocolMap)
        ensures
            r.wf(),
            r@.len() == 0,
    {
        let r = ProtocolMap { alpns: Vec::new() };
        assert(r@ =~= Seq::<Seq<u8>>::empty());
        r
    }

    /// The slot of `alpn`, if registered.
    pub fn get(&self, alpn: &[u8]) -> (r: Option<usize>)
        requires
            self.wf(),
        ensures
            r matches Some(i) ==> alpn_slot(self@, alpn@) == Some(i as int),
            r is None ==> alpn_slot(self@, alpn@) is None,
    {
        let mut i: usize = 0;
        while i < self.alpns.len()
            invariant
                self.wf(),
                i <= self.alpns@.len(),
                forall|k: int| 0 <= k < i ==> self@[k] != alpn@,
            decreases self.alpns@.len() - i,
        {
            if bytes_eq(self.alpns[i].as_slice(), alpn) {
                proof {
                    assert(self@[i as int] == alpn@);
                    let c = choose|c: int| 0 <= c < self@.len() && self@[c] == alpn@;
                    assert(self@[c] == self@[i as int]);
                }
                return Some(i);
            }
            assert(self@[i as int] == self.alpns@[i as int]@);
            i = i + 1;
        }
        None
    }

    /// Registers `alpn` and returns its slot; an ALPN registered before keeps its slot, so
    /// its new handler replaces the old one.
    pub fn insert(&mut self, alpn: &[u8]) -> (r: usize)
        requires
            old(self).wf(),
        ensures
            final(self).wf(),
            alpn_slot(final(self)@, alpn@) == Some(r as int),
            alpn_slot(old(self)@, alpn@) matches Some(i) ==> r == i && final(self)@ == old(self)@,
            alpn_slot(old(self)@, alpn@) is None ==> final(self)@ == old(self)@.push(alpn@)
                && r == old(self)@.len(),
    {
        match self.get(alpn) {
            Some(i) => i,
            None => {
                let v = slice_to_vec(alpn);
                let n = self.alpns.len();
                self.alpns.push(v);
                proof {
                    let o = old(self)@;
                    assert(self@ =~= o.push(alpn@));
                    assert forall|a: int, b: int|
                        0 <= a < self@.len() && 0 <= b < self@.len() && a != b implies self@[a]
                        != self@[b] by {
                        if a == o.len() {
                            assert(o[b] != alpn@);
                        } else if b == o.len() {
                            assert(o[a] != alpn@);
                        }
                    }
                    assert(self@[n as int] == alpn@);
                    let c = choose|c: int| 0 <= c < self@.len() && self@[c] == alpn@;
                    assert(self@[c] == self@[n as int]);
                }
                n
            },
        }
    }

    /// Every registered ALPN, in slot order.
    pub fn alpns(&self) -> (r: Vec<Vec<u8>>)
        ensures
            alpns_view(r@) == self@,
    {
        let mut r: Vec<Vec<u8>> = Vec::new();
        let mut i: usize = 0;
        while i < self.alpns.len()
            invariant
                i <= self.alpns@.len(),
                r@.len() == i,
                alpns_view(r@) == self@.subrange(0, i as int),
            decreases self.alpns@.len() - i,
        {
            let ghost r0 = r@;
            r.push(copy_bytes(&self.alpns[i]));
            i = i + 1;
            proof {
                assert forall|k: int| 0 <= k < i implies #[trigger] alpns_view(r@)[k] == self@[k] by {
                    if k < i - 1 {
                        assert(r@[k] == r0[k]);
                        assert(alpns_view(r0)[k] == self@[k]);
                    }
                }
                assert(alpns_view(r@) =~= self@.subrange(0, i as int));
            }
        }
        assert(self@.subrange(0, self@.len() as int) =~= self@);
        r
    }

    /// Where an inbound connection goes: `alpn` is what its handshake negotiated, none where
    /// the handshake failed. Routing reads the map only, so one connection's fate never
    /// touches another's.
    pub fn route(&self, alpn: Option<&[u8]>) -> (r: Route)
        requires
            self.wf(),
        ensures
            alpn is None ==> r == Route::DropHandshakeFailed,
            alpn matches Some(a) ==> match alpn_slot(self@, a@) {
                Some(i) => r == Route::Dispatch(i as usize),
                None => r == Route::DropUnknownAlpn,
            },
    {
        match alpn {
            None => Route::DropHandshakeFailed,
            Some(a) => match self.get(a) {
                Some(i) => Route::Dispatch(i),
                None => Route::DropUnknownAlpn,
            },
        }
    }
}

/// Copy of a byte slice.
pub fn slice_to_vec(s: &[u8]) -> (r: Vec<u8>)
    ensures
        r@ == s@,
{
    let mut r: Vec<u8> = Vec::new();
    let mut i: usize = 0;
    while i < s.len()
        invariant
            i <= s@.len(),
            r@ == s@.subrange(0, i as int),
        decreases s@.len() - i,
    {
        r.push(s[i]);
        i = i + 1;
        assert(r@ =~= s@.subrange(0, i as int));
    }
    assert(s@.subrange(0, s@.len() as int) =~= s@);
    r
}

} // verus!
