use mycelium::codec::{CodecError, ControlPacket};
use mycelium::device::data_packet_from_device;
use mycelium::link::{decode_frame, encode_frame, frame_size, step, LinkAction, LinkEvent, LinkState};
use mycelium::node::{DataPacket, Packet};

fn data() -> DataPacket {
    DataPacket { raw_data: vec![9, 8, 7], dst_ip: vec![0xfd; 16], src_ip: vec![0xfe; 16] }
}

#[test]
fn data_frame_round_trip() {
    let p = Packet::DataPacket(data());
    let b = encode_frame(&p);
    assert_eq!(b.len(), 38);
    assert_eq!(b[0], 0);
    assert_eq!(&b[33..35], &[0, 3]);
    assert_eq!(frame_size(&b), Ok(Some(38)));
    assert_eq!(decode_frame(&b), Ok(p));
}

#[test]
fn control_frame_round_trip() {
    let p = Packet::ControlPacket(ControlPacket::Hello { seqno: 1, interval: 2 });
    let b = encode_frame(&p);
    assert_eq!(b, vec![1, 42, 2, 0, 6, 4, 4, 0, 1, 0, 2]);
    assert_eq!(frame_size(&b[..3]), Ok(None));
    assert_eq!(frame_size(&b), Ok(Some(11)));
    assert_eq!(decode_frame(&b), Ok(p));
}

#[test]
fn frame_errors() {
    assert_eq!(decode_frame(&[]), Err(CodecError::MalformedHeader));
    assert_eq!(decode_frame(&[7, 1, 2]), Err(CodecError::MalformedHeader));
    assert_eq!(frame_size(&[7]), Err(CodecError::MalformedHeader));
    assert_eq!(decode_frame(&[0, 1, 2]), Err(CodecError::TruncatedBody));
    let mut b = encode_frame(&Packet::DataPacket(data()));
    b.pop();
    assert_eq!(decode_frame(&b), Err(CodecError::TruncatedBody));
    assert_eq!(decode_frame(&[1, 42, 2, 0, 6, 9, 4, 0, 1, 0, 2]), Err(CodecError::UnknownTlvType));
}

#[test]
fn handshake_then_frames() {
    let (s, a) = step(LinkState::Handshaking, LinkEvent::AddressRead(vec![10, 0, 0, 1]));
    assert_eq!(s, LinkState::Established { remote: vec![10, 0, 0, 1] });
    assert_eq!(a, LinkAction::Nothing);
    let hello = Packet::ControlPacket(ControlPacket::Hello { seqno: 1, interval: 2 });
    let (s, a) = step(s, LinkEvent::FrameRead(encode_frame(&hello)));
    assert_eq!(a, LinkAction::Deliver(hello));
    let (s, a) = step(s, LinkEvent::FrameRead(vec![1, 42, 2, 0, 6, 9, 4, 0, 1, 0, 2]));
    assert_eq!(a, LinkAction::DropFrame(CodecError::UnknownTlvType));
    assert_eq!(s, LinkState::Established { remote: vec![10, 0, 0, 1] });
    let (s, a) = step(s, LinkEvent::IoError);
    assert_eq!((s.clone(), a), (LinkState::Closed, LinkAction::Close));
    let (s, a) = step(s, LinkEvent::FrameRead(vec![]));
    assert_eq!((s, a), (LinkState::Closed, LinkAction::Nothing));
}

#[test]
fn short_handshake_closes() {
    let (s, a) = step(LinkState::Handshaking, LinkEvent::AddressRead(vec![10, 0, 0]));
    assert_eq!((s, a), (LinkState::Closed, LinkAction::Close));
    let (s, a) = step(LinkState::Handshaking, LinkEvent::IoError);
    assert_eq!((s, a), (LinkState::Closed, LinkAction::Close));
}

#[test]
fn device_packet_addresses() {
    let mut raw = vec![0u8; 40];
    raw[0] = 0x60;
    raw[6] = 59;
    raw[7] = 64;
    for i in 8..24 {
        raw[i] = 0xaa;
    }
    for i in 24..40 {
        raw[i] = 0xbb;
    }
    let d = data_packet_from_device(raw.clone()).unwrap();
    assert_eq!(d.dst_ip, vec![0xbb; 16]);
    assert_eq!(d.src_ip, vec![0xaa; 16]);
    assert_eq!(d.raw_data, raw);
    assert!(data_packet_from_device(vec![0x60; 10]).is_none());
    let mut v4 = vec![0u8; 20];
    v4[0] = 0x45;
    assert!(data_packet_from_device(v4).is_none());
}
