//! Peers and the registry that owns them.
use vstd::prelude::*;
use crate::codec::copy_bytes;

verus! {

/// Where a peer is reached: an IPv6 transport address and a TCP port.
#[derive(Debug, Clone, PartialEq, Eq)]
pub struct Endpoint {
    pub address: Vec<u8>,
    pub port: u16,
}

pub struct EndpointView {
    pub address: Seq<u8>,
    pub port: u16,
}

impl View for Endpoint {
    type V = EndpointView;

    open spec fn view(&self) -> EndpointView {
        EndpointView { address: self.address@, port: self.port }
    }
}

impl Endpoint {
    /// Whether two endpoints are the same.
    pub fn same_as(&self, other: &Endpoint) -> (r: bool)
        ensures
            r == (self@ == other@),
    {
        if self.port != other.port || self.address.len() != other.address.len() {
            return false;
        }
        let mut i: usize = 0;
        while i < self.address.len()
            invariant
                self.address@.len() == other.address@.len(),
                i <= self.address@.len(),
                forall|k: int| 0 <= k < i ==> self.address@[k] == other.address@[k],
            decreases self.address@.len() - i,
        {
            if self.address[i] != other.address[i] {
                return false;
            }
            i = i + 1;
        }
        assert(self.address@ =~= other.address@);
        true
    }

    /// A copy of this endpoint.
    pub fn duplicate(&self) -> (r: Endpoint)
        ensures
            r@ == self@,
    {
        Endpoint { address: copy_bytes(&self.address), port: self.port }
    }
}

/// A directly connected neighbour, known by the id the registry gave it.
pub struct Peer {
    id: u64,
    endpoint: Endpoint,
    hello_seqno: u16,
}

pub struct PeerView {
    pub id: u64,
    pub endpoint: EndpointView,
    pub hello_seqno: u16,
}

impl View for Peer {
    type V = PeerView;

    closed spec fn view(&self) -> PeerView {
        PeerView { id: self.id, endpoint: self.endpoint@, hello_seqno: self.hello_seqno }
    }
}

impl Peer {
    /// A peer with the given id and endpoint, whose Hello counter starts at zero.
    pub fn new(id: u64, endpoint: Endpoint) -> (r: Peer)
        ensures
            r@ == (PeerView { id, endpoint: endpoint@, hello_seqno: 0 }),
    {
        Peer { id, endpoint, hello_seqno: 0 }
    }

    /// The id the registry gave this peer.
    pub fn id(&self) -> (r: u64)
        ensures
            r == self@.id,
    {
        self.id
    }

    /// The endpoint that identifies this peer's connection.
    pub fn connection_identifier(&self) -> (r: &Endpoint)
        ensures
            r@ == self@.endpoint,
    {
        &self.endpoint
    }

    /// The sequence number that the next Hello to this peer carries.
    pub fn hello_seqno(&self) -> (r: u16)
        ensures
            r == self@.hello_seqno,
    {
        self.hello_seqno
    }

    /// Advances the Hello counter by one, wrapping at the top of the space.
    pub fn increment_hello_seqno(&mut self)
        ensures
            final(self)@ == (PeerView {
                hello_seqno: ((old(self)@.hello_seqno as int + 1) % 65536) as u16,
                ..old(self)@
            }),
    {
        self.hello_seqno = self.hello_seqno.wrapping_add(1);
    }
}

/// Adding a peer whose endpoint is already registered.
#[derive(Debug, Clone, Copy, PartialEq, Eq, Structural)]
pub struct PeerExists;

/// Removing a peer whose endpoint is not registered.
#[derive(Debug, Clone, Copy, PartialEq, Eq, Structural)]
pub struct PeerNotFound;

/// Some peer of `reg` has endpoint `e`.
pub open spec fn registered(reg: Seq<PeerView>, e: EndpointView) -> bool {
    exists|i: int| 0 <= i < reg.len() && reg[i].endpoint == e
}

/// What adding a peer with endpoint `e` to `reg` returns.
pub open spec fn add_result(reg: Seq<PeerView>, e: EndpointView) -> Result<(), PeerExists> {
    if registered(reg, e) {
        Err(PeerExists)
    } else {
        Ok(())
    }
}

/// What removing the peer with endpoint `e` from `reg` returns.
pub open spec fn remove_result(reg: Seq<PeerView>, e: EndpointView) -> Result<(), PeerNotFound> {
    if registered(reg, e) {
        Ok(())
    } else {
        Err(PeerNotFound)
    }
}

/// Endpoints and ids are unique, and every id is below `next_id`.
pub open spec fn registry_wf(reg: Seq<PeerView>, next_id: u64) -> bool {
    &&& forall|i: int, j: int|
        0 <= i < reg.len() && 0 <= j < reg.len() && i != j ==> reg[i].endpoint != reg[j].endpoint
            && reg[i].id != reg[j].id
    &&& forall|i: int| 0 <= i < reg.len() ==> reg[i].id < next_id
}

/// The set of peers; the only owner of them.
pub struct PeerManager {
    peers: Vec<Peer>,
    next_id: u64,
}

impl View for PeerManager {
    type V = Seq<PeerView>;

    closed spec fn view(&self) -> Seq<PeerView> {
        self.peers@.map_values(|p: Peer| p@)
    }
}

impl PeerManager {
    /// The id the next added peer gets.
    pub closed spec fn next_id(&self) -> u64 {
        self.next_id
    }

    /// Endpoints and ids are unique, and all ids were issued.
    pub open spec fn wf(&self) -> bool {
        registry_wf(self@, self.next_id())
    }

    /// A registry with no peers.
    pub fn new() -> (r: PeerManager)
        ensures
            r@ == Seq::<PeerView>::empty(),
            r.next_id() == 0,
            r.wf(),
    {
        let r = PeerManager { peers: Vec::new(), next_id: 0 };
        assert(r@ =~= Seq::<PeerView>::empty());
        r
    }

    /// Whether another peer can still be given an id.
    pub fn has_free_id(&self) -> (r: bool)
        ensures
            r == (self.next_id() < u64::MAX),
    {
        self.next_id < u64::MAX
    }

    /// Number of registered peers.
    pub fn len(&self) -> (r: usize)
        ensures
            r == self@.len(),
    {
        self.peers.len()
    }

    /// Index of the peer with endpoint `e`.
    fn position(&self, e: &Endpoint) -> (r: Option<usize>)
        ensures
            match r {
                Some(i) => i < self@.len() && self@[i as int].endpoint == e@,
                None => !registered(self@, e@),
            },
    {
        let mut i: usize = 0;
        while i < self.peers.len()
            invariant
                i <= self@.len(),
                forall|k: int| 0 <= k < i ==> self@[k].endpoint != e@,
            decreases self@.len() - i,
        {
            if self.peers[i].endpoint.same_as(e) {
                return Some(i);
            }
            i = i + 1;
        }
        None
    }

    /// The id of the peer with endpoint `e`, if it is registered.
    pub fn peer_id(&self, e: &Endpoint) -> (r: Option<u64>)
        ensures
            match r {
                Some(id) => exists|i: int| 0 <= i < self@.len() && self@[i].endpoint == e@ && self@[i].id == id,
                None => !registered(self@, e@),
            },
    {
        match self.position(e) {
            Some(i) => Some(self.peers[i].id),
            None => None,
        }
    }

    /// The endpoint of the peer with id `id`, if one is registered.
    pub fn endpoint_of_id(&self, id: u64) -> (r: Option<Endpoint>)
        ensures
            match r {
                Some(e) => exists|i: int| 0 <= i < self@.len() && self@[i].id == id && self@[i].endpoint == e@,
                None => forall|i: int| 0 <= i < self@.len() ==> self@[i].id != id,
            },
    {
        let mut i: usize = 0;
        while i < self.peers.len()
            invariant
                i <= self@.len(),
                forall|k: int| 0 <= k < i ==> self@[k].id != id,
            decreases self@.len() - i,
        {
            if self.peers[i].id == id {
                let e = self.peers[i].endpoint.duplicate();
                assert(self@[i as int] == self.peers@[i as int]@);
                return Some(e);
            }
            i = i + 1;
        }
        None
    }

    /// Registers a peer for `endpoint` under the next free id; refused when a
    /// peer with that endpoint is already registered.
    pub fn add_peer(&mut self, endpoint: Endpoint) -> (r: Result<(), PeerExists>)
        requires
            old(self).wf(),
            old(self).next_id() < u64::MAX,
        ensures
            final(self).wf(),
            r == add_result(old(self)@, endpoint@),
            r is Ok ==> final(self)@ == old(self)@.push(
                PeerView { id: old(self).next_id(), endpoint: endpoint@, hello_seqno: 0 },
            ) && final(self).next_id() == old(self).next_id() + 1,
            r is Err ==> final(self)@ == old(self)@ && final(self).next_id() == old(self).next_id(),
            registered(final(self)@, endpoint@),
    {
        match self.position(&endpoint) {
            Some(_) => Err(PeerExists),
            None => {
                let p = Peer::new(self.next_id, endpoint);
                self.peers.push(p);
                self.next_id = self.next_id + 1;
                assert(self@ =~= old(self)@.push(p@));
                assert(self@[old(self)@.len() as int].endpoint == p@.endpoint);
                Ok(())
            },
        }
    }

    /// Removes the peer with endpoint `endpoint`, returning its id; refused
    /// when no such peer is registered.
    pub fn remove_peer(&mut self, endpoint: &Endpoint) -> (r: Result<u64, PeerNotFound>)
        requires
            old(self).wf(),
        ensures
            final(self).wf(),
            final(self).next_id() == old(self).next_id(),
            match r {
                Ok(_) => remove_result(old(self)@, endpoint@) == Ok::<(), PeerNotFound>(()),
                Err(e) => remove_result(old(self)@, endpoint@) == Err::<(), PeerNotFound>(e),
            },
            r is Err ==> final(self)@ == old(self)@,
            r is Ok ==> exists|i: int|
                0 <= i < old(self)@.len() && old(self)@[i].endpoint == endpoint@ && old(self)@[i].id == r->Ok_0
                    && final(self)@ == old(self)@.remove(i),
            !registered(final(self)@, endpoint@),
    {
        match self.position(endpoint) {
            None => Err(PeerNotFound),
            Some(i) => {
                let p = self.peers.remove(i);
                assert(self@ =~= old(self)@.remove(i as int));
                proof {
                    lemma_remove_peer_twice(old(self)@, old(self).next_id, endpoint@, i as int);
                }
                Ok(p.id)
            },
        }
    }

    /// A Hello for every peer, each stamped with that peer's counter, which
    /// then advances; paired with the id of the peer it is for.
    pub fn send_hello(&mut self, interval: u16) -> (r: Vec<(u64, crate::codec::ControlPacket)>)
        requires
            old(self).wf(),
        ensures
            final(self).wf(),
            final(self).next_id() == old(self).next_id(),
            final(self)@.len() == old(self)@.len(),
            r@.len() == old(self)@.len(),
            forall|i: int|
                0 <= i < old(self)@.len() ==> (#[trigger] final(self)@[i]) == (PeerView {
                    hello_seqno: ((old(self)@[i].hello_seqno as int + 1) % 65536) as u16,
                    ..old(self)@[i]
                }) && r@[i].0 == old(self)@[i].id && r@[i].1@ == (crate::codec::ControlPacketView::Hello {
                    seqno: old(self)@[i].hello_seqno,
                    interval,
                }),
    {
        let ghost v0 = self@;
        let mut out: Vec<(u64, crate::codec::ControlPacket)> = Vec::new();
        let mut i: usize = 0;
        while i < self.peers.len()
            invariant
                self@.len() == v0.len(),
                self.next_id == old(self).next_id,
                i <= v0.len(),
                out@.len() == i,
                forall|k: int| i <= k < v0.len() ==> #[trigger] self@[k] == v0[k],
                forall|k: int|
                    0 <= k < i ==> (#[trigger] self@[k]) == (PeerView {
                        hello_seqno: ((v0[k].hello_seqno as int + 1) % 65536) as u16,
                        ..v0[k]
                    }) && out@[k].0 == v0[k].id && out@[k].1@ == (crate::codec::ControlPacketView::Hello {
                        seqno: v0[k].hello_seqno,
                        interval,
                    }),
            decreases v0.len() - i,
        {
            let ghost before = self@;
            let ghost out0 = out@;
            assert(before[i as int] == v0[i as int]);
            assert(before[i as int] == self.peers@[i as int]@);
            let mut p = self.peers.remove(i);
            assert(p@ == v0[i as int]);
            let id = p.id;
            let hello = crate::codec::ControlPacket::new_hello(&mut p, interval);
            self.peers.insert(i, p);
            assert(self@ =~= before.update(i as int, p@));
            out.push((id, hello));
            assert(out@[i as int] == (id, hello));
            assert forall|k: int| 0 <= k < i implies out@[k] == out0[k] by {}
            i = i + 1;
        }
        assert(self@.len() == v0.len());
        assert forall|a: int, b: int|
            0 <= a < self@.len() && 0 <= b < self@.len() && a != b implies self@[a].endpoint != self@[b].endpoint
                && self@[a].id != self@[b].id by {
            assert(self@[a].endpoint == v0[a].endpoint && self@[b].endpoint == v0[b].endpoint);
        }
        out
    }
}

/// What the administrative interface learns of a peer.
pub struct PeerStats {
    pub id: u64,
    pub endpoint: Endpoint,
    pub hello_seqno: u16,
}

impl View for PeerStats {
    type V = PeerView;

    open spec fn view(&self) -> PeerView {
        PeerView { id: self.id, endpoint: self.endpoint@, hello_seqno: self.hello_seqno }
    }
}

impl PeerManager {
    /// A snapshot of every registered peer, in registry order.
    pub fn peer_info(&self) -> (r: Vec<PeerStats>)
        ensures
            r@.map_values(|s: PeerStats| s@) == self@,
    {
        let mut out: Vec<PeerStats> = Vec::new();
        let mut i: usize = 0;
        while i < self.peers.len()
            invariant
                i <= self@.len(),
                out@.map_values(|s: PeerStats| s@) == self@.subrange(0, i as int),
            decreases self@.len() - i,
        {
            let p = &self.peers[i];
            let st = PeerStats { id: p.id, endpoint: p.endpoint.duplicate(), hello_seqno: p.hello_seqno };
            let ghost before = out@;
            out.push(st);
            assert(out@.map_values(|s: PeerStats| s@) =~= before.map_values(|s: PeerStats| s@).push(st@));
            assert(self@.subrange(0, i + 1) =~= self@.subrange(0, i as int).push(self@[i as int]));
            i = i + 1;
        }
        assert(self@.subrange(0, self@.len() as int) =~= self@);
        out
    }
}

/// Adding the same endpoint twice in a row: the first add succeeds and the
/// second is refused with `PeerExists`.
pub proof fn lemma_add_peer_twice(reg: Seq<PeerView>, id: u64, e: EndpointView)
    requires
        !registered(reg, e),
    ensures
        add_result(reg, e) == Ok::<(), PeerExists>(()),
        add_result(reg.push(PeerView { id, endpoint: e, hello_seqno: 0 }), e) == Err::<(), PeerExists>(
            PeerExists,
        ),
{
    let r2 = reg.push(PeerView { id, endpoint: e, hello_seqno: 0 });
    assert(r2[reg.len() as int].endpoint == e);
}

/// Removing the same endpoint twice in a row: the first removal succeeds and
/// the second is refused with `PeerNotFound`.
pub proof fn lemma_remove_peer_twice(reg: Seq<PeerView>, next_id: u64, e: EndpointView, i: int)
    requires
        registry_wf(reg, next_id),
        0 <= i < reg.len(),
        reg[i].endpoint == e,
    ensures
        remove_result(reg, e) == Ok::<(), PeerNotFound>(()),
        remove_result(reg.remove(i), e) == Err::<(), PeerNotFound>(PeerNotFound),
{
    let r2 = reg.remove(i);
    assert forall|k: int| 0 <= k < r2.len() implies r2[k].endpoint != e by {
        if k < i {
            assert(r2[k] == reg[k]);
        } else {
            assert(r2[k] == reg[k + 1]);
        }
    }
}

} // verus!
