//! The control-packet wire format: a four-byte header followed by one TLV.
//!
//! Every multi-byte field is big-endian. Update TLVs carry only the bytes of
//! their prefix that the prefix length covers; decoding zero-extends them.
use vstd::prelude::*;
use crate::peer::{Peer, PeerView};

verus! {

/// First header byte of every control packet.
pub const MAGIC: u8 = 42;

/// Second header byte: the protocol version.
pub const VERSION: u8 = 2;

/// TLV type byte of a Hello.
pub const TLV_HELLO: u8 = 4;

/// TLV type byte of an IHU ("I heard you").
pub const TLV_IHU: u8 = 5;

/// TLV type byte of an Update.
pub const TLV_UPDATE: u8 = 8;

/// Length in bytes of a router id (the originating node's public key).
pub const ROUTER_ID_LEN: usize = 32;

/// Length in bytes of an overlay (IPv6) address.
pub const ADDRESS_LEN: usize = 16;

/// Why a byte sequence is not a control packet.
#[derive(Debug, Clone, Copy, PartialEq, Eq, Structural)]
pub enum CodecError {
    /// Too short for a header, or the magic or version byte is wrong.
    MalformedHeader,
    /// The declared body length exceeds the bytes that follow the header.
    TruncatedBody,
    /// The TLV type byte names no known TLV.
    UnknownTlvType,
    /// The TLV's length fields or payload do not fit its type's layout.
    MalformedTlv,
}

/// An IPv6 prefix: sixteen address bytes and a prefix length in bits.
#[derive(Debug, Clone, PartialEq, Eq)]
pub struct Subnet {
    pub address: Vec<u8>,
    pub prefix_len: u8,
}

pub struct SubnetView {
    pub address: Seq<u8>,
    pub prefix_len: u8,
}

impl View for Subnet {
    type V = SubnetView;

    open spec fn view(&self) -> SubnetView {
        SubnetView { address: self.address@, prefix_len: self.prefix_len }
    }
}

/// Number of address bytes that a prefix of `plen` bits touches.
pub open spec fn prefix_bytes(plen: int) -> int {
    (plen + 7) / 8
}

/// A well-formed subnet has sixteen address bytes, at most 128 prefix bits,
/// and zero bytes past the ones its prefix touches.
pub open spec fn subnet_wf(s: SubnetView) -> bool {
    &&& s.address.len() == ADDRESS_LEN
    &&& s.prefix_len <= 128
    &&& forall|i: int| prefix_bytes(s.prefix_len as int) <= i < ADDRESS_LEN ==> s.address[i] == 0
}

/// The announcement of a route: the fields of an Update TLV.
#[derive(Debug, Clone, PartialEq, Eq)]
pub struct Update {
    pub interval: u16,
    pub seqno: u16,
    pub metric: u16,
    pub subnet: Subnet,
    pub router_id: Vec<u8>,
}

pub struct UpdateView {
    pub interval: u16,
    pub seqno: u16,
    pub metric: u16,
    pub subnet: SubnetView,
    pub router_id: Seq<u8>,
}

impl View for Update {
    type V = UpdateView;

    open spec fn view(&self) -> UpdateView {
        UpdateView {
            interval: self.interval,
            seqno: self.seqno,
            metric: self.metric,
            subnet: self.subnet@,
            router_id: self.router_id@,
        }
    }
}

/// A well-formed update has a well-formed subnet and a full-length router id.
pub open spec fn update_wf(u: UpdateView) -> bool {
    subnet_wf(u.subnet) && u.router_id.len() == ROUTER_ID_LEN
}

/// A control packet: one of the three TLVs of the routing protocol.
#[derive(Debug, Clone, PartialEq, Eq)]
pub enum ControlPacket {
    Hello { seqno: u16, interval: u16 },
    Ihu { metric: u16, interval: u16, address: Option<Vec<u8>> },
    Update(Update),
}

pub enum ControlPacketView {
    Hello { seqno: u16, interval: u16 },
    Ihu { metric: u16, interval: u16, address: Option<Seq<u8>> },
    Update(UpdateView),
}

impl View for ControlPacket {
    type V = ControlPacketView;

    open spec fn view(&self) -> ControlPacketView {
        match self {
            ControlPacket::Hello { seqno, interval } => ControlPacketView::Hello {
                seqno: *seqno,
                interval: *interval,
            },
            ControlPacket::Ihu { metric, interval, address } => ControlPacketView::Ihu {
                metric: *metric,
                interval: *interval,
                address: match address {
                    Some(a) => Some(a@),
                    None => None,
                },
            },
            ControlPacket::Update(u) => ControlPacketView::Update(u@),
        }
    }
}

/// An IHU address, when present, is an IPv4 (4 bytes) or IPv6 (16 bytes) one.
pub open spec fn ihu_address_wf(a: Option<Seq<u8>>) -> bool {
    match a {
        Some(s) => s.len() == 4 || s.len() == ADDRESS_LEN,
        None => true,
    }
}

/// The packets that can be put on the wire.
pub open spec fn packet_wf(p: ControlPacketView) -> bool {
    match p {
        ControlPacketView::Hello { .. } => true,
        ControlPacketView::Ihu { address, .. } => ihu_address_wf(address),
        ControlPacketView::Update(u) => update_wf(u),
    }
}

/// Big-endian bytes of a 16-bit value.
pub open spec fn be16(x: u16) -> Seq<u8> {
    seq![(x / 256) as u8, (x % 256) as u8]
}

/// The 16-bit big-endian value at position `i`.
pub open spec fn read16(b: Seq<u8>, i: int) -> u16 {
    (b[i] as int * 256 + b[i + 1] as int) as u16
}

/// The TLV type byte of a packet.
pub open spec fn tlv_type_spec(p: ControlPacketView) -> u8 {
    match p {
        ControlPacketView::Hello { .. } => TLV_HELLO,
        ControlPacketView::Ihu { .. } => TLV_IHU,
        ControlPacketView::Update(_) => TLV_UPDATE,
    }
}

/// The TLV payload of a packet.
pub open spec fn payload_spec(p: ControlPacketView) -> Seq<u8> {
    match p {
        ControlPacketView::Hello { seqno, interval } => be16(seqno) + be16(interval),
        ControlPacketView::Ihu { metric, interval, address } => be16(metric) + be16(interval)
            + match address {
            Some(a) => a,
            None => Seq::<u8>::empty(),
        },
        ControlPacketView::Update(u) => seq![u.subnet.prefix_len, 0u8] + be16(u.interval) + be16(
            u.seqno,
        ) + be16(u.metric) + u.subnet.address.subrange(0, prefix_bytes(u.subnet.prefix_len as int))
            + u.router_id,
    }
}

/// The bytes of a packet on the wire: magic, version, body length, then the
/// TLV's type, its payload length and its payload.
pub open spec fn encode_spec(p: ControlPacketView) -> Seq<u8> {
    let payload = payload_spec(p);
    seq![MAGIC, VERSION] + be16((payload.len() + 2) as u16) + seq![
        tlv_type_spec(p),
        payload.len() as u8,
    ] + payload
}

/// The packet that a TLV payload of type `t` holds.
pub open spec fn decode_payload_spec(t: u8, p: Seq<u8>) -> Result<ControlPacketView, CodecError> {
    if t == TLV_HELLO {
        if p.len() == 4 {
            Ok(ControlPacketView::Hello { seqno: read16(p, 0), interval: read16(p, 2) })
        } else {
            Err(CodecError::MalformedTlv)
        }
    } else if t == TLV_IHU {
        if p.len() == 4 {
            Ok(ControlPacketView::Ihu { metric: read16(p, 0), interval: read16(p, 2), address: None })
        } else if p.len() == 8 || p.len() == 20 {
            Ok(
                ControlPacketView::Ihu {
                    metric: read16(p, 0),
                    interval: read16(p, 2),
                    address: Some(p.subrange(4, p.len() as int)),
                },
            )
        } else {
            Err(CodecError::MalformedTlv)
        }
    } else {
        if p.len() < 8 || p[0] > 128 || p.len() != 8 + prefix_bytes(p[0] as int) + ROUTER_ID_LEN {
            Err(CodecError::MalformedTlv)
        } else {
            let nb = prefix_bytes(p[0] as int);
            Ok(
                ControlPacketView::Update(
                    UpdateView {
                        interval: read16(p, 2),
                        seqno: read16(p, 4),
                        metric: read16(p, 6),
                        subnet: SubnetView {
                            address: p.subrange(8, 8 + nb) + Seq::new(
                                (ADDRESS_LEN - nb) as nat,
                                |i: int| 0u8,
                            ),
                            prefix_len: p[0],
                        },
                        router_id: p.subrange(8 + nb, p.len() as int),
                    },
                ),
            )
        }
    }
}

/// What the bytes `b` decode to. Bytes past the declared body are ignored.
pub open spec fn decode_spec(b: Seq<u8>) -> Result<ControlPacketView, CodecError> {
    if b.len() < 4 || b[0] != MAGIC || b[1] != VERSION {
        Err(CodecError::MalformedHeader)
    } else if read16(b, 2) > b.len() - 4 {
        Err(CodecError::TruncatedBody)
    } else if read16(b, 2) < 2 {
        Err(CodecError::MalformedTlv)
    } else if b[4] != TLV_HELLO && b[4] != TLV_IHU && b[4] != TLV_UPDATE {
        Err(CodecError::UnknownTlvType)
    } else if b[5] as int + 2 != read16(b, 2) {
        Err(CodecError::MalformedTlv)
    } else {
        decode_payload_spec(b[4], b.subrange(6, 6 + b[5] as int))
    }
}

pub(crate) proof fn lemma_read_be16(b: Seq<u8>, i: int, x: u16)
    requires
        0 <= i,
        i + 1 < b.len(),
        b[i] == (x / 256) as u8,
        b[i + 1] == (x % 256) as u8,
    ensures
        read16(b, i) == x,
{
}

/// Decoding the encoding of any well-formed control packet gives the packet back.
pub proof fn lemma_round_trip(p: ControlPacketView)
    requires
        packet_wf(p),
    ensures
        decode_spec(encode_spec(p)) == Ok::<ControlPacketView, CodecError>(p),
{
    let payload = payload_spec(p);
    let b = encode_spec(p);
    let n = payload.len();
    assert(n <= 56) by {
        match p {
            ControlPacketView::Update(u) => {
                assert(prefix_bytes(u.subnet.prefix_len as int) <= 16);
            },
            _ => {},
        }
    }
    assert(b.len() == n + 6);
    lemma_read_be16(b, 2, (n + 2) as u16);
    assert(b.subrange(6, 6 + n as int) =~= payload);
    match p {
        ControlPacketView::Hello { seqno, interval } => {
            lemma_read_be16(payload, 0, seqno);
            lemma_read_be16(payload, 2, interval);
        },
        ControlPacketView::Ihu { metric, interval, address } => {
            lemma_read_be16(payload, 0, metric);
            lemma_read_be16(payload, 2, interval);
            match address {
                Some(a) => {
                    assert(payload.subrange(4, n as int) =~= a);
                },
                None => {},
            }
        },
        ControlPacketView::Update(u) => {
            let nb = prefix_bytes(u.subnet.prefix_len as int);
            lemma_read_be16(payload, 2, u.interval);
            lemma_read_be16(payload, 4, u.seqno);
            lemma_read_be16(payload, 6, u.metric);
            assert(payload[0] == u.subnet.prefix_len);
            assert(payload.subrange(8, 8 + nb) + Seq::new((ADDRESS_LEN - nb) as nat, |i: int| 0u8)
                =~= u.subnet.address);
            assert(payload.subrange(8 + nb, n as int) =~= u.router_id);
            let d = decode_payload_spec(TLV_UPDATE, payload);
            assert(d == Ok::<ControlPacketView, CodecError>(p));
        },
    }
}

/// The view of a decoding result.
pub open spec fn decoded_view(r: Result<ControlPacket, CodecError>) -> Result<ControlPacketView, CodecError> {
    match r {
        Ok(p) => Ok(p@),
        Err(e) => Err(e),
    }
}

pub(crate) fn push_u16(v: &mut Vec<u8>, x: u16)
    ensures
        final(v)@ == old(v)@ + be16(x),
{
    v.push((x / 256) as u8);
    v.push((x % 256) as u8);
    assert(final(v)@ =~= old(v)@ + be16(x));
}

/// Appends `src[start..end]` to `v`.
pub(crate) fn push_range(v: &mut Vec<u8>, src: &[u8], start: usize, end: usize)
    requires
        start <= end <= src@.len(),
    ensures
        final(v)@ == old(v)@ + src@.subrange(start as int, end as int),
{
    let ghost v0 = v@;
    let mut i: usize = start;
    while i < end
        invariant
            start <= i <= end <= src@.len(),
            v@ == v0 + src@.subrange(start as int, i as int),
        decreases end - i,
    {
        v.push(src[i]);
        i = i + 1;
        assert(v@ =~= v0 + src@.subrange(start as int, i as int));
    }
}

/// A fresh vector holding `src[start..end]`.
pub(crate) fn copy_range(src: &[u8], start: usize, end: usize) -> (r: Vec<u8>)
    requires
        start <= end <= src@.len(),
    ensures
        r@ == src@.subrange(start as int, end as int),
{
    let mut v: Vec<u8> = Vec::new();
    push_range(&mut v, src, start, end);
    assert(v@ =~= src@.subrange(start as int, end as int));
    v
}

pub(crate) fn read_u16(b: &[u8], i: usize) -> (r: u16)
    requires
        i + 1 < b@.len(),
    ensures
        r == read16(b@, i as int),
{
    (b[i] as u16) * 256 + (b[i + 1] as u16)
}

impl ControlPacket {
    /// The TLV payload of this packet.
    fn payload(&self) -> (r: Vec<u8>)
        requires
            packet_wf(self@),
        ensures
            r@ == payload_spec(self@),
    {
        let mut v: Vec<u8> = Vec::new();
        match self {
            ControlPacket::Hello { seqno, interval } => {
                push_u16(&mut v, *seqno);
                push_u16(&mut v, *interval);
                assert(v@ =~= payload_spec(self@));
            },
            ControlPacket::Ihu { metric, interval, address } => {
                push_u16(&mut v, *metric);
                push_u16(&mut v, *interval);
                match address {
                    Some(a) => {
                        push_range(&mut v, a.as_slice(), 0, a.len());
                        assert(a@.subrange(0, a@.len() as int) =~= a@);
                    },
                    None => {},
                }
                assert(v@ =~= payload_spec(self@));
            },
            ControlPacket::Update(u) => {
                let plen = u.subnet.prefix_len;
                v.push(plen);
                v.push(0u8);
                push_u16(&mut v, u.interval);
                push_u16(&mut v, u.seqno);
                push_u16(&mut v, u.metric);
                let nb: usize = (plen as usize + 7) / 8;
                push_range(&mut v, u.subnet.address.as_slice(), 0, nb);
                push_range(&mut v, u.router_id.as_slice(), 0, u.router_id.len());
                assert(u.router_id@.subrange(0, u.router_id@.len() as int) =~= u.router_id@);
                assert(v@ =~= payload_spec(self@));
            },
        }
        v
    }

    /// The TLV type byte of this packet.
    pub fn tlv_type(&self) -> (r: u8)
        ensures
            r == tlv_type_spec(self@),
    {
        match self {
            ControlPacket::Hello { .. } => TLV_HELLO,
            ControlPacket::Ihu { .. } => TLV_IHU,
            ControlPacket::Update(_) => TLV_UPDATE,
        }
    }

    /// The wire bytes of this packet. The declared body length always equals
    /// the number of bytes that follow the header.
    pub fn encode(&self) -> (r: Vec<u8>)
        requires
            packet_wf(self@),
        ensures
            r@ == encode_spec(self@),
            r@.len() == read16(r@, 2) + 4,
    {
        let payload = self.payload();
        proof {
            match self@ {
                ControlPacketView::Update(u) => {
                    assert(prefix_bytes(u.subnet.prefix_len as int) <= 16);
                },
                _ => {},
            }
        }
        let n: usize = payload.len();
        assert(n <= 56);
        let mut v: Vec<u8> = Vec::new();
        v.push(MAGIC);
        v.push(VERSION);
        push_u16(&mut v, (n + 2) as u16);
        v.push(self.tlv_type());
        v.push(n as u8);
        push_range(&mut v, payload.as_slice(), 0, n);
        assert(payload@.subrange(0, n as int) =~= payload@);
        assert(v@ =~= encode_spec(self@));
        v
    }

    /// Parses the control packet at the start of `b`.
    pub fn decode(b: &[u8]) -> (r: Result<ControlPacket, CodecError>)
        ensures
            decoded_view(r) == decode_spec(b@),
            r is Ok ==> packet_wf(r->Ok_0@),
    {
        if b.len() < 4 || b[0] != MAGIC || b[1] != VERSION {
            return Err(CodecError::MalformedHeader);
        }
        let body_len = read_u16(b, 2);
        if body_len as usize > b.len() - 4 {
            return Err(CodecError::TruncatedBody);
        }
        if body_len < 2 {
            return Err(CodecError::MalformedTlv);
        }
        let t = b[4];
        if t != TLV_HELLO && t != TLV_IHU && t != TLV_UPDATE {
            return Err(CodecError::UnknownTlvType);
        }
        if b[5] as u16 + 2 != body_len {
            return Err(CodecError::MalformedTlv);
        }
        let n: usize = b[5] as usize;
        let payload = copy_range(b, 6, 6 + n);
        let r = Self::decode_payload(t, payload.as_slice());
        assert(payload@ == b@.subrange(6, 6 + b@[5] as int));
        r
    }

    fn decode_payload(t: u8, p: &[u8]) -> (r: Result<ControlPacket, CodecError>)
        ensures
            decoded_view(r) == decode_payload_spec(t, p@),
            r is Ok ==> packet_wf(r->Ok_0@),
    {
        let n = p.len();
        if t == TLV_HELLO {
            if n == 4 {
                Ok(ControlPacket::Hello { seqno: read_u16(p, 0), interval: read_u16(p, 2) })
            } else {
                Err(CodecError::MalformedTlv)
            }
        } else if t == TLV_IHU {
            if n == 4 {
                Ok(ControlPacket::Ihu { metric: read_u16(p, 0), interval: read_u16(p, 2), address: None })
            } else if n == 8 || n == 20 {
                let a = copy_range(p, 4, n);
                Ok(
                    ControlPacket::Ihu {
                        metric: read_u16(p, 0),
                        interval: read_u16(p, 2),
                        address: Some(a),
                    },
                )
            } else {
                Err(CodecError::MalformedTlv)
            }
        } else {
            if n < 8 || p[0] > 128 {
                return Err(CodecError::MalformedTlv);
            }
            let plen = p[0];
            let nb: usize = (plen as usize + 7) / 8;
            if n != 8 + nb + ROUTER_ID_LEN {
                return Err(CodecError::MalformedTlv);
            }
            let mut address = copy_range(p, 8, 8 + nb);
            let ghost prefix = address@;
            while address.len() < ADDRESS_LEN
                invariant
                    nb <= address@.len() <= ADDRESS_LEN,
                    address@ == prefix + Seq::new((address@.len() - nb) as nat, |i: int| 0u8),
                    prefix.len() == nb,
                decreases ADDRESS_LEN - address@.len(),
            {
                address.push(0u8);
                assert(address@ =~= prefix + Seq::new((address@.len() - nb) as nat, |i: int| 0u8));
            }
            let router_id = copy_range(p, 8 + nb, n);
            let u = Update {
                interval: read_u16(p, 2),
                seqno: read_u16(p, 4),
                metric: read_u16(p, 6),
                subnet: Subnet { address, prefix_len: plen },
                router_id,
            };
            assert(u@.subnet.address =~= p@.subrange(8, 8 + nb as int) + Seq::new(
                (ADDRESS_LEN - nb) as nat,
                |i: int| 0u8,
            ));
            Ok(ControlPacket::Update(u))
        }
    }
}

impl Subnet {
    /// A copy of this subnet.
    pub fn duplicate(&self) -> (r: Subnet)
        ensures
            r@ == self@,
    {
        let address = copy_range(self.address.as_slice(), 0, self.address.len());
        assert(self.address@.subrange(0, self.address@.len() as int) =~= self.address@);
        Subnet { address, prefix_len: self.prefix_len }
    }

    /// Whether two subnets are the same prefix.
    pub fn same_as(&self, other: &Subnet) -> (r: bool)
        ensures
            r == (self@ == other@),
    {
        if self.prefix_len != other.prefix_len || self.address.len() != other.address.len() {
            return false;
        }
        let mut i: usize = 0;
        while i < self.address.len()
            invariant
                self.address@.len() == other.address@.len(),
                i <= self.address@.len(),
                forall|k: int| 0 <= k < i ==> self.address@[k] == other.address@[k],
            decreases self.address@.len() - i,
        {
            if self.address[i] != other.address[i] {
                return false;
            }
            i = i + 1;
        }
        assert(self.address@ =~= other.address@);
        true
    }
}

/// A copy of a byte vector.
pub fn copy_bytes(v: &Vec<u8>) -> (r: Vec<u8>)
    ensures
        r@ == v@,
{
    let r = copy_range(v.as_slice(), 0, v.len());
    assert(v@.subrange(0, v@.len() as int) =~= v@);
    r
}

/// The mask of address byte `i` under a prefix of `plen` bits.
pub open spec fn mask_byte(plen: int, i: int) -> u8 {
    if (i + 1) * 8 <= plen {
        0xffu8
    } else if i * 8 >= plen {
        0u8
    } else {
        (0xffu8 << ((8 - (plen - i * 8)) as u8)) as u8
    }
}

/// Address `a` lies in subnet `s`: they agree on the first `prefix_len` bits.
pub open spec fn subnet_contains(s: SubnetView, a: Seq<u8>) -> bool {
    forall|i: int|
        0 <= i < ADDRESS_LEN ==> (a[i] & mask_byte(s.prefix_len as int, i)) == (s.address[i] & mask_byte(
            s.prefix_len as int,
            i,
        ))
}

fn mask_at(plen: u8, i: usize) -> (r: u8)
    requires
        i < ADDRESS_LEN,
    ensures
        r == mask_byte(plen as int, i as int),
{
    let p = plen as usize;
    if (i + 1) * 8 <= p {
        0xffu8
    } else if i * 8 >= p {
        0u8
    } else {
        0xffu8 << ((8 - (p - i * 8)) as u8)
    }
}

impl Subnet {
    /// Whether the address `a` lies in this subnet.
    pub fn contains(&self, a: &[u8]) -> (r: bool)
        requires
            subnet_wf(self@),
            a@.len() == ADDRESS_LEN,
        ensures
            r == subnet_contains(self@, a@),
    {
        let mut i: usize = 0;
        while i < ADDRESS_LEN
            invariant
                subnet_wf(self@),
                a@.len() == ADDRESS_LEN,
                i <= ADDRESS_LEN,
                forall|k: int|
                    0 <= k < i ==> (a@[k] & mask_byte(self.prefix_len as int, k)) == (self.address@[k]
                        & mask_byte(self.prefix_len as int, k)),
            decreases ADDRESS_LEN - i,
        {
            let m = mask_at(self.prefix_len, i);
            if a[i] & m != self.address[i] & m {
                return false;
            }
            i = i + 1;
        }
        true
    }
}

impl ControlPacket {
    /// A Hello for `dest_peer`, stamped with its Hello counter, which then
    /// advances by one.
    pub fn new_hello(dest_peer: &mut Peer, interval: u16) -> (r: ControlPacket)
        ensures
            r@ == (ControlPacketView::Hello { seqno: old(dest_peer)@.hello_seqno, interval }),
            final(dest_peer)@ == (PeerView {
                hello_seqno: ((old(dest_peer)@.hello_seqno as int + 1) % 65536) as u16,
                ..old(dest_peer)@
            }),
    {
        let tlv = ControlPacket::Hello { seqno: dest_peer.hello_seqno(), interval };
        dest_peer.increment_hello_seqno();
        tlv
    }

    /// An IHU for the neighbour at `dest_address`, with the initial metric 0.
    pub fn new_ihu(interval: u16, dest_address: Vec<u8>) -> (r: ControlPacket)
        ensures
            r@ == (ControlPacketView::Ihu { metric: 0, interval, address: Some(dest_address@) }),
    {
        ControlPacket::Ihu { metric: 0, interval, address: Some(dest_address) }
    }

    /// An Update announcing `subnet`, originated by `router_id`.
    pub fn new_update(interval: u16, seqno: u16, metric: u16, subnet: Subnet, router_id: Vec<u8>) -> (r:
        ControlPacket)
        ensures
            r@ == ControlPacketView::Update(
                UpdateView { interval, seqno, metric, subnet: subnet@, router_id: router_id@ },
            ),
    {
        ControlPacket::Update(Update { interval, seqno, metric, subnet, router_id })
    }
}

/// Whether two byte sequences are equal.
pub fn bytes_eq(a: &[u8], b: &[u8]) -> (r: bool)
    ensures
        r == (a@ == b@),
{
    if a.len() != b.len() {
        return false;
    }
    let mut i: usize = 0;
    while i < a.len()
        invariant
            a@.len() == b@.len(),
            i <= a@.len(),
            forall|k: int| 0 <= k < i ==> a@[k] == b@[k],
        decreases a@.len() - i,
    {
        if a[i] != b[i] {
            return false;
        }
        i = i + 1;
    }
    assert(a@ =~= b@);
    true
}

impl Subnet {
    /// The subnet of `prefix_len` bits around `address`, with the bits past
    /// the prefix cleared; none unless the address has sixteen bytes and the
    /// prefix at most 128 bits.
    pub fn new(address: Vec<u8>, prefix_len: u8) -> (r: Option<Subnet>)
        ensures
            r is Some <==> address@.len() == ADDRESS_LEN && prefix_len <= 128,
            r is Some ==> subnet_wf(r->Some_0@) && r->Some_0.prefix_len == prefix_len && r->Some_0.address@.len()
                == ADDRESS_LEN && forall|i: int|
                0 <= i < ADDRESS_LEN ==> #[trigger] r->Some_0.address@[i] == (address@[i] & mask_byte(
                    prefix_len as int,
                    i,
                )),
    {
        if address.len() != ADDRESS_LEN || prefix_len > 128 {
            return None;
        }
        let mut masked: Vec<u8> = Vec::new();
        let mut i: usize = 0;
        while i < ADDRESS_LEN
            invariant
                address@.len() == ADDRESS_LEN,
                i <= ADDRESS_LEN,
                masked@.len() == i,
                forall|k: int|
                    0 <= k < i ==> #[trigger] masked@[k] == (address@[k] & mask_byte(prefix_len as int, k)),
            decreases ADDRESS_LEN - i,
        {
            let m = mask_at(prefix_len, i);
            masked.push(address[i] & m);
            i = i + 1;
        }
        assert forall|k: int| prefix_bytes(prefix_len as int) <= k < ADDRESS_LEN implies masked@[k] == 0 by {
            assert(mask_byte(prefix_len as int, k) == 0u8);
            let x = address@[k];
            assert(x & 0u8 == 0u8) by (bit_vector);
        }
        Some(Subnet { address: masked, prefix_len })
    }
}

impl ControlPacket {
    /// Whether this packet can be put on the wire.
    pub fn is_well_formed(&self) -> (r: bool)
        ensures
            r == packet_wf(self@),
    {
        match self {
            ControlPacket::Hello { .. } => true,
            ControlPacket::Ihu { address, .. } => match address {
                Some(a) => a.len() == 4 || a.len() == ADDRESS_LEN,
                None => true,
            },
            ControlPacket::Update(u) => {
                if u.router_id.len() != ROUTER_ID_LEN || u.subnet.address.len() != ADDRESS_LEN
                    || u.subnet.prefix_len > 128 {
                    return false;
                }
                let nb: usize = (u.subnet.prefix_len as usize + 7) / 8;
                let mut i: usize = nb;
                while i < ADDRESS_LEN
                    invariant
                        u.subnet.address@.len() == ADDRESS_LEN,
                        packet_wf(self@) == update_wf(u@),
                        nb == prefix_bytes(u.subnet.prefix_len as int),
                        nb <= i <= ADDRESS_LEN,
                        forall|k: int| nb <= k < i ==> u.subnet.address@[k] == 0,
                    decreases ADDRESS_LEN - i,
                {
                    if u.subnet.address[i] != 0 {
                        assert(!subnet_wf(u.subnet@));
                        return false;
                    }
                    i = i + 1;
                }
                true
            },
        }
    }
}

} // verus!
