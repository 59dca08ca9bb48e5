//! The node: the peer registry and the route table together, and the
//! dispatch of packets between the local interface and the peers.
use vstd::prelude::*;
use crate::codec::{copy_bytes, mask_byte, subnet_wf, Subnet, ControlPacket, ControlPacketView, Update, packet_wf, update_wf, subnet_contains, bytes_eq};
use crate::peer::{registered, Endpoint, PeerExists, PeerNotFound, PeerManager, add_result, remove_result};
use crate::route::{retract_all_outcome, update_outcome, RouteTable, RouteView, table_wf, best_match};

verus! {

/// A data packet: opaque payload bytes with IPv6 destination and source.
#[derive(Debug, Clone, PartialEq, Eq)]
pub struct DataPacket {
    pub raw_data: Vec<u8>,
    pub dst_ip: Vec<u8>,
    pub src_ip: Vec<u8>,
}

pub struct DataPacketView {
    pub raw_data: Seq<u8>,
    pub dst_ip: Seq<u8>,
    pub src_ip: Seq<u8>,
}

impl View for DataPacket {
    type V = DataPacketView;

    open spec fn view(&self) -> DataPacketView {
        DataPacketView { raw_data: self.raw_data@, dst_ip: self.dst_ip@, src_ip: self.src_ip@ }
    }
}

/// Anything that travels over a peer link.
#[derive(Debug, Clone, PartialEq, Eq)]
pub enum Packet {
    DataPacket(DataPacket),
    ControlPacket(ControlPacket),
}

pub enum PacketView {
    DataPacket(DataPacketView),
    ControlPacket(ControlPacketView),
}

impl View for Packet {
    type V = PacketView;

    open spec fn view(&self) -> PacketView {
        match self {
            Packet::DataPacket(d) => PacketView::DataPacket(d@),
            Packet::ControlPacket(c) => PacketView::ControlPacket(c@),
        }
    }
}

/// The kind of a packet on a link.
#[derive(Debug, Clone, Copy, PartialEq, Eq, Structural)]
pub enum PacketType {
    DataPacket,
    ControlPacket,
}

/// Where a data packet goes.
#[derive(Debug, Clone, Copy, PartialEq, Eq, Structural)]
pub enum Dispatch {
    /// To this node's own interface.
    Local,
    /// To the neighbour with this id.
    Forward(u64),
    /// Nowhere: no route holds the destination.
    Drop,
}

/// The node's state.
pub struct Node {
    pub local_address: Vec<u8>,
    pub peers: PeerManager,
    pub router: RouteTable,
}

impl Node {
    /// The node invariant: a sixteen-byte address, a well-formed registry and
    /// a route table that keeps its invariant.
    pub open spec fn wf(&self) -> bool {
        &&& self.local_address@.len() == 16
        &&& self.peers.wf()
        &&& self.router.lens_ok()
        &&& table_wf(self.router@)
    }

    /// A node with overlay address `local_address`, no peers and no routes.
    pub fn new(local_address: Vec<u8>) -> (r: Node)
        requires
            local_address@.len() == 16,
        ensures
            r.wf(),
            r.local_address@ == local_address@,
            r.peers@.len() == 0,
            r.peers.next_id() == 0,
            r.router@.len() == 0,
    {
        Node { local_address, peers: PeerManager::new(), router: RouteTable::new() }
    }

    /// Registers a peer; refused with `PeerExists` when its endpoint is known.
    pub fn add_peer(&mut self, endpoint: Endpoint) -> (r: Result<(), PeerExists>)
        requires
            old(self).wf(),
            old(self).peers.next_id() < u64::MAX,
        ensures
            final(self).wf(),
            r == add_result(old(self).peers@, endpoint@),
            r is Ok ==> final(self).peers@ == old(self).peers@.push(
                crate::peer::PeerView { id: old(self).peers.next_id(), endpoint: endpoint@, hello_seqno: 0 },
            ),
            r is Err ==> final(self).peers@ == old(self).peers@ && final(self).peers.next_id() == old(self).peers.next_id(),
            r is Ok ==> final(self).peers.next_id() == old(self).peers.next_id() + 1,
            registered(final(self).peers@, endpoint@),
            final(self).router@ == old(self).router@,
            final(self).local_address@ == old(self).local_address@,
    {
        self.peers.add_peer(endpoint)
    }

    /// Removes a peer and retracts every route learned through it; refused
    /// with `PeerNotFound` when its endpoint is not known.
    pub fn remove_peer(&mut self, endpoint: &Endpoint) -> (r: Result<(), PeerNotFound>)
        requires
            old(self).wf(),
        ensures
            final(self).wf(),
            r == remove_result(old(self).peers@, endpoint@),
            !registered(final(self).peers@, endpoint@),
            r is Err ==> final(self).peers@ == old(self).peers@ && final(self).router@ == old(self).router@,
            r is Ok ==> exists|i: int|
                0 <= i < old(self).peers@.len() && old(self).peers@[i].endpoint == endpoint@ && final(self).peers@
                    == old(self).peers@.remove(i),
            final(self).peers.next_id() == old(self).peers.next_id(),
            r is Ok ==> exists|id: u64|
                registered_as(old(self).peers@, endpoint@, id) && retract_all_outcome(
                    old(self).router@,
                    final(self).router@,
                    id,
                ),
    {
        match self.peers.remove_peer(endpoint) {
            Err(e) => Err(e),
            Ok(id) => {
                assert(registered_as(old(self).peers@, endpoint@, id));
                self.router.retract_all(id);
                Ok(())
            },
        }
    }

    /// Acts on a control packet received from neighbour `from`, whose overlay
    /// address is `from_address`: a Hello is answered with an IHU, an Update
    /// goes to the route table, an IHU needs nothing.
    pub fn handle_control(&mut self, packet: ControlPacket, from: u64, from_address: Vec<u8>, interval: u16) -> (r:
        Option<ControlPacket>)
        requires
            old(self).wf(),
            packet_wf(packet@),
        ensures
            final(self).wf(),
            final(self).peers@ == old(self).peers@,
            match packet@ {
                ControlPacketView::Hello { .. } => r is Some && r->Some_0@ == (ControlPacketView::Ihu {
                    metric: 0,
                    interval,
                    address: Some(from_address@),
                }) && final(self).router@ == old(self).router@,
                ControlPacketView::Ihu { .. } => r is None && final(self).router@ == old(self).router@,
                ControlPacketView::Update(u) => r is None && update_outcome(
                    old(self).router@,
                    final(self).router@,
                    u,
                    from,
                ),
            },
    {
        match packet {
            ControlPacket::Hello { .. } => Some(ControlPacket::new_ihu(interval, from_address)),
            ControlPacket::Ihu { .. } => None,
            ControlPacket::Update(u) => {
                self.router.receive_update(u, from);
                None
            },
        }
    }

    /// The overlay subnet of this node: the 64-bit prefix of its address.
    pub fn node_subnet(&self) -> (r: Subnet)
        requires
            self.wf(),
        ensures
            subnet_wf(r@),
            r.prefix_len == 64,
            forall|i: int|
                0 <= i < 16 ==> #[trigger] r.address@[i] == (self.local_address@[i] & mask_byte(64, i)),
    {
        let a = copy_bytes(&self.local_address);
        match Subnet::new(a, 64) {
            Some(s) => s,
            None => Subnet { address: copy_bytes(&self.local_address), prefix_len: 64 },
        }
    }

    /// Where a data packet goes: to the local interface when it is addressed
    /// to this node, else to the neighbour of the selected route with the
    /// longest prefix holding its destination, else nowhere.
    pub fn route_packet(&self, packet: &DataPacket) -> (r: Dispatch)
        requires
            self.wf(),
            packet.dst_ip@.len() == 16,
        ensures
            dispatch_ok(self.router@, self.local_address@, packet.dst_ip@, r),
    {
        if bytes_eq(packet.dst_ip.as_slice(), self.local_address.as_slice()) {
            return Dispatch::Local;
        }
        match self.router.next_hop(packet.dst_ip.as_slice()) {
            Some(n) => Dispatch::Forward(n),
            None => Dispatch::Drop,
        }
    }
}

impl Node {
    /// The public key of the node that owns overlay address `ip`, as the
    /// selected route with the longest prefix holding it names it.
    pub fn get_pubkey_from_ip(&self, ip: &[u8]) -> (r: Option<Vec<u8>>)
        requires
            self.wf(),
            ip@.len() == 16,
        ensures
            r is None <==> forall|i: int|
                0 <= i < self.router@.len() ==> !(self.router@[i].selected && subnet_contains(
                    self.router@[i].subnet,
                    ip@,
                )),
            r is Some ==> exists|i: int|
                best_match(self.router@, ip@, i) && self.router@[i].router_id == r->Some_0@,
    {
        self.router.router_id_for(ip)
    }
}

/// Some peer of `reg` has endpoint `e` and id `id`.
pub open spec fn registered_as(reg: Seq<crate::peer::PeerView>, e: crate::peer::EndpointView, id: u64) -> bool {
    exists|i: int| 0 <= i < reg.len() && reg[i].endpoint == e && reg[i].id == id
}

/// `d` is where a packet for `dst` goes on a node with address `local` and
/// route table `t`.
pub open spec fn dispatch_ok(t: Seq<RouteView>, local: Seq<u8>, dst: Seq<u8>, d: Dispatch) -> bool {
    if dst == local {
        d == Dispatch::Local
    } else {
        match d {
            Dispatch::Local => false,
            Dispatch::Drop => forall|i: int|
                0 <= i < t.len() ==> !(t[i].selected && subnet_contains(t[i].subnet, dst)),
            Dispatch::Forward(n) => exists|i: int| best_match(t, dst, i) && t[i].neighbour == n,
        }
    }
}

} // verus!
