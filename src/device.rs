//! Packets read from the local virtual interface.
use vstd::prelude::*;
use crate::node::DataPacket;

verus! {

/// Whether bytes parse as an IPv6 packet, extension and transport headers
/// included.
pub uninterp spec fn ipv6_parses(b: Seq<u8>) -> bool;

/// Relies on etherparse::PacketHeaders::from_ip_slice: it yields an IPv6
/// header only for a slice of at least 40 bytes, whose source address is read
/// from bytes 8..24 and destination address from bytes 24..40.
#[verifier::external_body]
fn ipv6_addresses(b: &[u8]) -> (r: Option<(Vec<u8>, Vec<u8>)>)
    ensures
        r is Some == ipv6_parses(b@),
        r is Some ==> b@.len() >= 40 && r->Some_0.0@ == b@.subrange(24, 40) && r->Some_0.1@
            == b@.subrange(8, 24),
{
    match etherparse::PacketHeaders::from_ip_slice(b) {
        Ok(headers) => match headers.ip {
            Some(etherparse::IpHeader::Version6(ip, _)) => Some((ip.destination.to_vec(), ip.source.to_vec())),
            _ => None,
        },
        Err(_) => None,
    }
}

/// The data packet for bytes read from the interface: addressed by the
/// destination and source of their IPv6 header; none when they do not parse
/// as an IPv6 packet.
pub fn data_packet_from_device(raw: Vec<u8>) -> (r: Option<DataPacket>)
    ensures
        r is Some == ipv6_parses(raw@),
        r is Some ==> r->Some_0.raw_data@ == raw@ && r->Some_0.dst_ip@ == raw@.subrange(24, 40)
            && r->Some_0.src_ip@ == raw@.subrange(8, 24),
{
    match ipv6_addresses(raw.as_slice()) {
        Some((dst_ip, src_ip)) => Some(DataPacket { raw_data: raw, dst_ip, src_ip }),
        None => None,
    }
}

} // verus!
