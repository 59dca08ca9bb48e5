use mycelium::codec::{CodecError, ControlPacket, Subnet};

fn db8_subnet() -> Subnet {
    let mut a = vec![0u8; 16];
    a[0] = 0x20;
    a[1] = 0x01;
    a[2] = 0x0d;
    a[3] = 0xb8;
    a[10] = 0xff;
    Subnet::new(a, 32).unwrap()
}

fn key(b: u8) -> Vec<u8> {
    vec![b; 32]
}

#[test]
fn hello_exact_bytes() {
    let p = ControlPacket::Hello { seqno: 0x0102, interval: 0x0304 };
    assert_eq!(p.encode(), vec![42, 2, 0, 6, 4, 4, 1, 2, 3, 4]);
}

#[test]
fn hello_round_trip() {
    let p = ControlPacket::Hello { seqno: 65535, interval: 400 };
    assert_eq!(ControlPacket::decode(&p.encode()), Ok(p));
}

#[test]
fn ihu_round_trip_with_and_without_address() {
    let p = ControlPacket::new_ihu(10, vec![10, 0, 0, 1]);
    assert_eq!(p.encode().len(), 14);
    assert_eq!(ControlPacket::decode(&p.encode()), Ok(p));
    let q = ControlPacket::Ihu { metric: 7, interval: 20, address: None };
    assert_eq!(ControlPacket::decode(&q.encode()), Ok(q));
    let r = ControlPacket::new_ihu(10, vec![0xfe; 16]);
    assert_eq!(ControlPacket::decode(&r.encode()), Ok(r));
}

#[test]
fn update_omits_unused_prefix_bytes() {
    let p = ControlPacket::new_update(100, 5, 3, db8_subnet(), key(7));
    let b = p.encode();
    // header 4, tlv header 2, fixed fields 8, four prefix bytes, 32-byte key
    assert_eq!(b.len(), 50);
    assert_eq!(&b[0..6], &[42, 2, 0, 46, 8, 44]);
    assert_eq!(&b[6..14], &[32, 0, 0, 100, 0, 5, 0, 3]);
    assert_eq!(&b[14..18], &[0x20, 0x01, 0x0d, 0xb8]);
    assert_eq!(ControlPacket::decode(&b), Ok(p));
}

#[test]
fn update_round_trip_odd_prefix() {
    let s = Subnet::new(vec![0xab; 16], 61).unwrap();
    assert_eq!(s.address[7], 0xa8);
    assert_eq!(s.address[8], 0);
    let p = ControlPacket::new_update(1, 2, 0xffff, s, key(1));
    assert_eq!(p.encode().len(), 6 + 8 + 8 + 32);
    assert_eq!(ControlPacket::decode(&p.encode()), Ok(p));
}

#[test]
fn subnet_rejects_bad_input() {
    assert!(Subnet::new(vec![0; 15], 8).is_none());
    assert!(Subnet::new(vec![0; 16], 129).is_none());
    assert!(Subnet::new(vec![0; 16], 0).is_some());
}

#[test]
fn decode_errors() {
    assert_eq!(ControlPacket::decode(&[42, 2, 0]), Err(CodecError::MalformedHeader));
    assert_eq!(ControlPacket::decode(&[43, 2, 0, 6, 4, 4, 1, 2, 3, 4]), Err(CodecError::MalformedHeader));
    assert_eq!(ControlPacket::decode(&[42, 3, 0, 6, 4, 4, 1, 2, 3, 4]), Err(CodecError::MalformedHeader));
    assert_eq!(ControlPacket::decode(&[42, 2, 0, 7, 4, 4, 1, 2, 3, 4]), Err(CodecError::TruncatedBody));
    assert_eq!(ControlPacket::decode(&[42, 2, 0, 6, 9, 4, 1, 2, 3, 4]), Err(CodecError::UnknownTlvType));
    assert_eq!(ControlPacket::decode(&[42, 2, 0, 6, 4, 3, 1, 2, 3, 4]), Err(CodecError::MalformedTlv));
    assert_eq!(ControlPacket::decode(&[42, 2, 0, 5, 4, 3, 1, 2, 3]), Err(CodecError::MalformedTlv));
    assert_eq!(ControlPacket::decode(&[42, 2, 0, 1, 4]), Err(CodecError::MalformedTlv));
}

#[test]
fn decode_ignores_trailing_bytes() {
    assert_eq!(
        ControlPacket::decode(&[42, 2, 0, 6, 4, 4, 1, 2, 3, 4, 99, 99]),
        Ok(ControlPacket::Hello { seqno: 0x0102, interval: 0x0304 })
    );
}

#[test]
fn update_prefix_is_zero_extended() {
    let mut b = vec![42, 2, 0, 45, 8, 43, 24, 0, 0, 1, 0, 2, 0, 3, 1, 2, 3];
    b.extend_from_slice(&[9u8; 32]);
    match ControlPacket::decode(&b) {
        Ok(ControlPacket::Update(u)) => {
            assert_eq!(u.subnet.prefix_len, 24);
            assert_eq!(u.subnet.address, vec![1, 2, 3, 0, 0, 0, 0, 0, 0, 0, 0, 0, 0, 0, 0, 0]);
            assert_eq!(u.seqno, 2);
            assert_eq!(u.metric, 3);
            assert_eq!(u.interval, 1);
            assert_eq!(u.router_id, vec![9u8; 32]);
        }
        other => panic!("unexpected {:?}", other),
    }
}

#[test]
fn update_with_prefix_over_128_is_malformed() {
    let mut b = vec![42, 2, 0, 58, 8, 56, 129, 0, 0, 1, 0, 2, 0, 3];
    b.extend_from_slice(&[0u8; 48]);
    assert_eq!(ControlPacket::decode(&b), Err(CodecError::MalformedTlv));
}

#[test]
fn well_formedness_of_packets() {
    assert!(ControlPacket::Hello { seqno: 1, interval: 1 }.is_well_formed());
    assert!(!ControlPacket::Ihu { metric: 0, interval: 1, address: Some(vec![1, 2, 3]) }.is_well_formed());
    assert!(ControlPacket::new_update(1, 1, 1, db8_subnet(), key(3)).is_well_formed());
    assert!(!ControlPacket::new_update(1, 1, 1, db8_subnet(), vec![3; 31]).is_well_formed());
    let s = Subnet { address: vec![1; 16], prefix_len: 8 };
    assert!(!ControlPacket::new_update(1, 1, 1, s, key(3)).is_well_formed());
}
