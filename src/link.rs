//! Peer links: the framing of packets on a connection, and the connection's
//! state machine (handshake, established, closed).
//!
//! A frame starts with a kind byte: 0 for a data packet, followed by the
//! destination and source addresses, a 16-bit payload length and the payload;
//! 1 for a control packet, followed by its encoding.
use vstd::prelude::*;
use crate::codec::{
    ControlPacket, CodecError, ControlPacketView, be16, read16, decode_spec, encode_spec, packet_wf,
    copy_range, push_u16, push_range, read_u16, ADDRESS_LEN, lemma_read_be16, lemma_round_trip,
};
use crate::node::{DataPacket, DataPacketView, Packet, PacketView};

verus! {

/// Kind byte of a data frame.
pub const FRAME_DATA: u8 = 0;

/// Kind byte of a control frame.
pub const FRAME_CONTROL: u8 = 1;

/// Length of a data frame's header: kind, two addresses, payload length.
pub const DATA_HEADER_LEN: usize = 35;

/// Length of the overlay address exchanged in the handshake.
pub const HANDSHAKE_ADDRESS_LEN: usize = 4;

/// A data packet that fits a frame: sixteen-byte addresses and a payload
/// whose length fits in 16 bits.
pub open spec fn data_wf(d: DataPacketView) -> bool {
    d.dst_ip.len() == ADDRESS_LEN && d.src_ip.len() == ADDRESS_LEN && d.raw_data.len() <= 0xFFFF
}

/// A packet that fits a frame.
pub open spec fn frame_wf(p: PacketView) -> bool {
    match p {
        PacketView::DataPacket(d) => data_wf(d),
        PacketView::ControlPacket(c) => packet_wf(c),
    }
}

/// The frame that carries `p`.
pub open spec fn frame_spec(p: PacketView) -> Seq<u8> {
    match p {
        PacketView::DataPacket(d) => seq![FRAME_DATA] + d.dst_ip + d.src_ip + be16(
            d.raw_data.len() as u16,
        ) + d.raw_data,
        PacketView::ControlPacket(c) => seq![FRAME_CONTROL] + encode_spec(c),
    }
}

/// What the frame at the start of `b` carries.
pub open spec fn decode_frame_spec(b: Seq<u8>) -> Result<PacketView, CodecError> {
    if b.len() == 0 {
        Err(CodecError::MalformedHeader)
    } else if b[0] == FRAME_DATA {
        if b.len() < DATA_HEADER_LEN || read16(b, 33) > b.len() - DATA_HEADER_LEN {
            Err(CodecError::TruncatedBody)
        } else {
            Ok(
                PacketView::DataPacket(
                    DataPacketView {
                        dst_ip: b.subrange(1, 17),
                        src_ip: b.subrange(17, 33),
                        raw_data: b.subrange(35, 35 + read16(b, 33)),
                    },
                ),
            )
        }
    } else if b[0] == FRAME_CONTROL {
        match decode_spec(b.subrange(1, b.len() as int)) {
            Ok(c) => Ok(PacketView::ControlPacket(c)),
            Err(e) => Err(e),
        }
    } else {
        Err(CodecError::MalformedHeader)
    }
}

/// Total length of the frame that `b` starts, once `b` holds enough of its
/// header to tell: none while more bytes are needed, an error for an
/// unknown kind byte.
pub open spec fn frame_size_spec(b: Seq<u8>) -> Result<Option<int>, CodecError> {
    if b.len() == 0 {
        Ok(None)
    } else if b[0] == FRAME_DATA {
        if b.len() < DATA_HEADER_LEN {
            Ok(None)
        } else {
            Ok(Some(DATA_HEADER_LEN + read16(b, 33)))
        }
    } else if b[0] == FRAME_CONTROL {
        if b.len() < 5 {
            Ok(None)
        } else {
            Ok(Some(5 + read16(b, 3)))
        }
    } else {
        Err(CodecError::MalformedHeader)
    }
}

/// The view of a frame decoding result.
pub open spec fn frame_view(r: Result<Packet, CodecError>) -> Result<PacketView, CodecError> {
    match r {
        Ok(p) => Ok(p@),
        Err(e) => Err(e),
    }
}

/// The bytes of the frame that carries `p`.
pub fn encode_frame(p: &Packet) -> (r: Vec<u8>)
    requires
        frame_wf(p@),
    ensures
        r@ == frame_spec(p@),
{
    let mut v: Vec<u8> = Vec::new();
    match p {
        Packet::DataPacket(d) => {
            v.push(FRAME_DATA);
            push_range(&mut v, d.dst_ip.as_slice(), 0, d.dst_ip.len());
            push_range(&mut v, d.src_ip.as_slice(), 0, d.src_ip.len());
            push_u16(&mut v, d.raw_data.len() as u16);
            push_range(&mut v, d.raw_data.as_slice(), 0, d.raw_data.len());
            assert(d.dst_ip@.subrange(0, 16) =~= d.dst_ip@);
            assert(d.src_ip@.subrange(0, 16) =~= d.src_ip@);
            assert(d.raw_data@.subrange(0, d.raw_data@.len() as int) =~= d.raw_data@);
            assert(v@ =~= frame_spec(p@));
        },
        Packet::ControlPacket(c) => {
            v.push(FRAME_CONTROL);
            let b = c.encode();
            push_range(&mut v, b.as_slice(), 0, b.len());
            assert(b@.subrange(0, b@.len() as int) =~= b@);
            assert(v@ =~= frame_spec(p@));
        },
    }
    v
}

/// Parses the frame at the start of `b`.
pub fn decode_frame(b: &[u8]) -> (r: Result<Packet, CodecError>)
    ensures
        frame_view(r) == decode_frame_spec(b@),
{
    if b.len() == 0 {
        return Err(CodecError::MalformedHeader);
    }
    if b[0] == FRAME_DATA {
        if b.len() < DATA_HEADER_LEN {
            return Err(CodecError::TruncatedBody);
        }
        let n = read_u16(b, 33) as usize;
        if n > b.len() - DATA_HEADER_LEN {
            return Err(CodecError::TruncatedBody);
        }
        let d = DataPacket {
            raw_data: copy_range(b, 35, 35 + n),
            dst_ip: copy_range(b, 1, 17),
            src_ip: copy_range(b, 17, 33),
        };
        Ok(Packet::DataPacket(d))
    } else if b[0] == FRAME_CONTROL {
        let rest = copy_range(b, 1, b.len());
        match ControlPacket::decode(rest.as_slice()) {
            Ok(c) => Ok(Packet::ControlPacket(c)),
            Err(e) => Err(e),
        }
    } else {
        Err(CodecError::MalformedHeader)
    }
}

/// How long the frame that `b` starts is, when `b` holds enough to tell.
pub fn frame_size(b: &[u8]) -> (r: Result<Option<usize>, CodecError>)
    ensures
        match r {
            Ok(Some(n)) => frame_size_spec(b@) == Ok::<Option<int>, CodecError>(Some(n as int)),
            Ok(None) => frame_size_spec(b@) == Ok::<Option<int>, CodecError>(None),
            Err(e) => frame_size_spec(b@) == Err::<Option<int>, CodecError>(e),
        },
{
    if b.len() == 0 {
        Ok(None)
    } else if b[0] == FRAME_DATA {
        if b.len() < DATA_HEADER_LEN {
            Ok(None)
        } else {
            Ok(Some(DATA_HEADER_LEN + read_u16(b, 33) as usize))
        }
    } else if b[0] == FRAME_CONTROL {
        if b.len() < 5 {
            Ok(None)
        } else {
            Ok(Some(5 + read_u16(b, 3) as usize))
        }
    } else {
        Err(CodecError::MalformedHeader)
    }
}

/// Decoding the frame of any packet that fits one gives the packet back.
pub proof fn lemma_frame_round_trip(p: PacketView)
    requires
        frame_wf(p),
    ensures
        decode_frame_spec(frame_spec(p)) == Ok::<PacketView, CodecError>(p),
{
    let b = frame_spec(p);
    match p {
        PacketView::DataPacket(d) => {
            lemma_read_be16(b, 33, d.raw_data.len() as u16);
            assert(b.subrange(1, 17) =~= d.dst_ip);
            assert(b.subrange(17, 33) =~= d.src_ip);
            assert(b.subrange(35, 35 + read16(b, 33)) =~= d.raw_data);
        },
        PacketView::ControlPacket(c) => {
            assert(b.subrange(1, b.len() as int) =~= encode_spec(c));
            lemma_round_trip(c);
        },
    }
}

/// The state of a peer link.
#[derive(Debug, Clone, PartialEq, Eq)]
pub enum LinkState {
    /// Connected; waiting for the neighbour's overlay address.
    Handshaking,
    /// The handshake is done; `remote` is the neighbour's overlay address.
    Established { remote: Vec<u8> },
    /// The connection is gone.
    Closed,
}

pub enum LinkStateView {
    Handshaking,
    Established { remote: Seq<u8> },
    Closed,
}

impl View for LinkState {
    type V = LinkStateView;

    open spec fn view(&self) -> LinkStateView {
        match self {
            LinkState::Handshaking => LinkStateView::Handshaking,
            LinkState::Established { remote } => LinkStateView::Established { remote: remote@ },
            LinkState::Closed => LinkStateView::Closed,
        }
    }
}

/// What the connection reports to its link.
#[derive(Debug, Clone, PartialEq, Eq)]
pub enum LinkEvent {
    /// The bytes read for the neighbour's handshake address.
    AddressRead(Vec<u8>),
    /// One frame read from the connection.
    FrameRead(Vec<u8>),
    /// A read or write on the connection failed.
    IoError,
}

pub enum LinkEventView {
    AddressRead(Seq<u8>),
    FrameRead(Seq<u8>),
    IoError,
}

impl View for LinkEvent {
    type V = LinkEventView;

    open spec fn view(&self) -> LinkEventView {
        match self {
            LinkEvent::AddressRead(a) => LinkEventView::AddressRead(a@),
            LinkEvent::FrameRead(b) => LinkEventView::FrameRead(b@),
            LinkEvent::IoError => LinkEventView::IoError,
        }
    }
}

/// What the link asks of its surroundings after an event.
#[derive(Debug, Clone, PartialEq, Eq)]
pub enum LinkAction {
    /// Nothing to do.
    Nothing,
    /// Hand the packet on: control packets to the route table, data packets
    /// to the dispatcher.
    Deliver(Packet),
    /// Drop the frame, which did not decode; the connection stays open.
    DropFrame(CodecError),
    /// Close the connection and remove the peer, retracting its routes.
    Close,
}

pub enum LinkActionView {
    Nothing,
    Deliver(PacketView),
    DropFrame(CodecError),
    Close,
}

impl View for LinkAction {
    type V = LinkActionView;

    open spec fn view(&self) -> LinkActionView {
        match self {
            LinkAction::Nothing => LinkActionView::Nothing,
            LinkAction::Deliver(p) => LinkActionView::Deliver(p@),
            LinkAction::DropFrame(e) => LinkActionView::DropFrame(*e),
            LinkAction::Close => LinkActionView::Close,
        }
    }
}

/// The link's next state and action. The handshake ends with a four-byte
/// address; a short one, an I/O error or a frame before the handshake
/// closes the link. An established link delivers each frame that decodes and
/// drops each that does not. A closed link stays closed.
pub open spec fn step_spec(s: LinkStateView, e: LinkEventView) -> (LinkStateView, LinkActionView) {
    match s {
        LinkStateView::Closed => (LinkStateView::Closed, LinkActionView::Nothing),
        LinkStateView::Handshaking => match e {
            LinkEventView::AddressRead(a) => if a.len() == HANDSHAKE_ADDRESS_LEN {
                (LinkStateView::Established { remote: a }, LinkActionView::Nothing)
            } else {
                (LinkStateView::Closed, LinkActionView::Close)
            },
            _ => (LinkStateView::Closed, LinkActionView::Close),
        },
        LinkStateView::Established { remote } => match e {
            LinkEventView::FrameRead(b) => match decode_frame_spec(b) {
                Ok(p) => (LinkStateView::Established { remote }, LinkActionView::Deliver(p)),
                Err(err) => (LinkStateView::Established { remote }, LinkActionView::DropFrame(err)),
            },
            _ => (LinkStateView::Closed, LinkActionView::Close),
        },
    }
}

/// Advances a link by one event.
pub fn step(state: LinkState, event: LinkEvent) -> (r: (LinkState, LinkAction))
    ensures
        (r.0@, r.1@) == step_spec(state@, event@),
{
    match state {
        LinkState::Closed => (LinkState::Closed, LinkAction::Nothing),
        LinkState::Handshaking => match event {
            LinkEvent::AddressRead(a) => {
                if a.len() == HANDSHAKE_ADDRESS_LEN {
                    (LinkState::Established { remote: a }, LinkAction::Nothing)
                } else {
                    (LinkState::Closed, LinkAction::Close)
                }
            },
            _ => (LinkState::Closed, LinkAction::Close),
        },
        LinkState::Established { remote } => match event {
            LinkEvent::FrameRead(b) => match decode_frame(b.as_slice()) {
                Ok(p) => (LinkState::Established { remote }, LinkAction::Deliver(p)),
                Err(err) => (LinkState::Established { remote }, LinkAction::DropFrame(err)),
            },
            _ => (LinkState::Closed, LinkAction::Close),
        },
    }
}

} // verus!
