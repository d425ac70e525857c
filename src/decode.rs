//! Decoding of captured link-layer frames down to TCP segments.
use pnet::packet::ethernet::EthernetPacket;
use pnet::packet::ipv4::Ipv4Packet;
use pnet::packet::tcp::TcpPacket;
use pnet::packet::Packet;
use vstd::prelude::*;

verus! {

/// EtherType of IPv4.
pub const ETHERTYPE_IPV4: u16 = 0x0800;

/// IPv4 protocol number of TCP.
pub const PROTOCOL_TCP: u8 = 6;

/// TCP flag: no more data from the sender.
pub const TCP_FIN: u8 = 0x01;

/// TCP flag: reset the connection.
pub const TCP_RST: u8 = 0x04;

/// The big-endian 16-bit number at bytes `i` and `i + 1` of `b`.
pub open spec fn be16(b: Seq<u8>, i: int) -> int {
    b[i] as int * 256 + b[i + 1] as int
}

/// What follows the 14-byte Ethernet header.
pub open spec fn ethernet_payload(f: Seq<u8>) -> Seq<u8> {
    f.subrange(14, f.len() as int)
}

/// The payload of an IPv4 packet of at least 20 bytes: it starts after the
/// header (never before byte 20), is as long as the total length minus the
/// header length says, and is cut at the end of the buffer.
pub open spec fn ipv4_payload(b: Seq<u8>) -> Seq<u8> {
    let header = (b[0] as int % 16) * 4;
    let start = if header > 20 {
        header
    } else {
        20
    };
    let total = be16(b, 2);
    let len = if total > header {
        total - header
    } else {
        0
    };
    let end = if start + len < b.len() {
        start + len
    } else {
        b.len() as int
    };
    if b.len() <= start {
        Seq::empty()
    } else {
        b.subrange(start, end)
    }
}

/// The payload of a TCP segment of at least 20 bytes: everything after the
/// header, whose length is the data offset in words (never below 20 bytes).
pub open spec fn tcp_payload(t: Seq<u8>) -> Seq<u8> {
    let offset = t[12] as int / 16;
    let start = if offset > 5 {
        offset * 4
    } else {
        20
    };
    if t.len() <= start {
        Seq::empty()
    } else {
        t.subrange(start, t.len() as int)
    }
}

/// The bytes of the TCP segment inside an Ethernet frame carrying IPv4.
pub open spec fn tcp_bytes(f: Seq<u8>) -> Seq<u8> {
    ipv4_payload(ethernet_payload(f))
}

/// Whether `f` is an Ethernet frame that carries IPv4 that carries a whole TCP header.
pub open spec fn carries_tcp(f: Seq<u8>) -> bool {
    &&& f.len() >= 14
    &&& be16(f, 12) == ETHERTYPE_IPV4
    &&& ethernet_payload(f).len() >= 20
    &&& ethernet_payload(f)[9] == PROTOCOL_TCP
    &&& tcp_bytes(f).len() >= 20
}

/// The fields of a TCP segment that stream tracking reads.
#[derive(Clone, Debug)]
pub struct TcpSegment {
    pub source_port: u16,
    pub destination_port: u16,
    pub flags: u8,
    pub payload: Vec<u8>,
}

/// Relies on pnet's `EthernetPacket::new` (`None` below the 14-byte header),
/// `get_ethertype` (bytes 12 and 13, big-endian) and `payload` (all bytes after the header).
#[verifier::external_body]
fn ethernet_fields(frame: &[u8]) -> (r: Option<(u16, Vec<u8>)>)
    ensures
        r is None <==> frame@.len() < 14,
        r matches Some((t, p)) ==> t as int == be16(frame@, 12) && p@ == ethernet_payload(frame@),
{
    match EthernetPacket::new(frame) {
        Some(p) => Some((p.get_ethertype().0, p.payload().to_vec())),
        None => None,
    }
}

/// Relies on pnet's `Ipv4Packet::new` (`None` below the 20-byte fixed header),
/// `get_next_level_protocol` (byte 9) and `payload` (bounded by header and total length).
#[verifier::external_body]
fn ipv4_fields(bytes: &[u8]) -> (r: Option<(u8, Vec<u8>)>)
    ensures
        r is None <==> bytes@.len() < 20,
        r matches Some((proto, p)) ==> proto == bytes@[9] && p@ == ipv4_payload(bytes@),
{
    match Ipv4Packet::new(bytes) {
        Some(p) => Some((p.get_next_level_protocol().0, p.payload().to_vec())),
        None => None,
    }
}

/// Relies on pnet's `TcpPacket::new` (`None` below the 20-byte fixed header),
/// `get_source` and `get_destination` (bytes 0-1 and 2-3, big-endian),
/// `get_flags` (byte 13) and `payload` (all bytes after the data offset).
#[verifier::external_body]
fn tcp_fields(bytes: &[u8]) -> (r: Option<TcpSegment>)
    ensures
        r is None <==> bytes@.len() < 20,
        r matches Some(s) ==> {
            &&& s.source_port as int == be16(bytes@, 0)
            &&& s.destination_port as int == be16(bytes@, 2)
            &&& s.flags == bytes@[13]
            &&& s.payload@ == tcp_payload(bytes@)
        },
{
    match TcpPacket::new(bytes) {
        Some(p) => Some(
            TcpSegment {
                source_port: p.get_source(),
                destination_port: p.get_destination(),
                flags: p.get_flags(),
                payload: p.payload().to_vec(),
            },
        ),
        None => None,
    }
}

/// Decodes an Ethernet frame down to its TCP segment. Frames that are too
/// short, not IPv4, or not TCP give `None`.
pub fn decode_frame(frame: &[u8]) -> (r: Option<TcpSegment>)
    ensures
        r is Some <==> carries_tcp(frame@),
        r matches Some(s) ==> {
            &&& s.source_port as int == be16(tcp_bytes(frame@), 0)
            &&& s.destination_port as int == be16(tcp_bytes(frame@), 2)
            &&& s.flags == tcp_bytes(frame@)[13]
            &&& s.payload@ == tcp_payload(tcp_bytes(frame@))
        },
{
    let (ethertype, ip) = match ethernet_fields(frame) {
        Some(fields) => fields,
        None => return None,
    };
    if ethertype != ETHERTYPE_IPV4 {
        return None;
    }
    let (protocol, tcp) = match ipv4_fields(ip.as_slice()) {
        Some(fields) => fields,
        None => return None,
    };
    if protocol != PROTOCOL_TCP {
        return None;
    }
    tcp_fields(tcp.as_slice())
}

/// Whether the flags carry FIN or RST, which close a conversation.
pub open spec fn closes(flags: u8) -> bool {
    flags & TCP_FIN != 0 || flags & TCP_RST != 0
}

/// Whether the flags carry FIN or RST.
pub fn is_closing(flags: u8) -> (r: bool)
    ensures
        r == closes(flags),
{
    flags & TCP_FIN != 0 || flags & TCP_RST != 0
}

} // verus!
