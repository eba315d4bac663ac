use vstd::prelude::*;

verus! {

/// The five header fields that classification looks at.
#[derive(Debug, Clone, Copy, PartialEq, Eq, Default)]
pub struct FiveTuple {
    /// Source IPv4 address.
    pub src_ip: u32,
    /// Destination IPv4 address.
    pub dst_ip: u32,
    /// Source L4 port (0 when the protocol has none).
    pub src_port: u16,
    /// Destination L4 port (0 when the protocol has none).
    pub dst_port: u16,
    /// IP protocol number.
    pub proto: u8,
}

/// IPv4 header, reduced to the fields a simulation carries.
#[derive(Debug, Clone, Copy, Default)]
pub struct Ipv4Header {
    /// Source address.
    pub src: u32,
    /// Destination address.
    pub dst: u32,
    /// Protocol number: which L4 header follows.
    pub proto: u8,
    /// IP version.
    pub version: u8,
    /// Internet header length.
    pub ihl: u8,
    /// Time to live.
    pub ttl: u8,
}

/// TCP header.
#[derive(Debug, Clone, Copy, Default)]
pub struct TcpHeader {
    pub src_port: u16,
    pub dst_port: u16,
    pub sequence: u32,
    pub ack: u32,
    pub flags: u8,
}

/// UDP header.
#[derive(Debug, Clone, Copy, Default)]
pub struct UdpHeader {
    pub src_port: u16,
    pub dst_port: u16,
    pub length: u16,
}

/// IGMP header.
#[derive(Debug, Clone, Copy, Default)]
pub struct IgmpHeader {
    pub igmp_type: u8,
    pub max_resp_time: u8,
    pub checksum: u16,
    pub group_addr: u32,
}

/// A parsed packet: IP header and L4 header.
#[derive(Debug, Clone)]
pub struct Packet {
    pub ip: Ipv4Header,
    pub l4: L4Header,
}

/// The L4 header that follows the IP header.
#[derive(Debug, Clone, Copy)]
pub enum L4Header {
    Tcp(TcpHeader),
    Udp(UdpHeader),
    Igmp(IgmpHeader),
    Unknown,
}

impl Default for L4Header {
    fn default() -> (r: Self)
        ensures
            r is Unknown,
    {
        L4Header::Unknown
    }
}

/// Source and destination port of an L4 header; protocols without ports give zeros.
pub open spec fn spec_ports(l4: L4Header) -> (u16, u16) {
    match l4 {
        L4Header::Tcp(h) => (h.src_port, h.dst_port),
        L4Header::Udp(h) => (h.src_port, h.dst_port),
        _ => (0, 0),
    }
}

impl Packet {
    /// Extracts the five-tuple of the packet.
    pub fn to_5tuple(&self) -> (t: FiveTuple)
        ensures
            t.src_ip == self.ip.src,
            t.dst_ip == self.ip.dst,
            t.proto == self.ip.proto,
            (t.src_port, t.dst_port) == spec_ports(self.l4),
    {
        let (src_port, dst_port) = match self.l4 {
            L4Header::Tcp(h) => (h.src_port, h.dst_port),
            L4Header::Udp(h) => (h.src_port, h.dst_port),
            _ => (0, 0),
        };
        FiveTuple { src_ip: self.ip.src, dst_ip: self.ip.dst, proto: self.ip.proto, src_port, dst_port }
    }
}

pub const PROTO_TCP: u8 = 6;

pub const PROTO_UDP: u8 = 17;

pub const PROTO_IGMP: u8 = 2;

pub const PROTO_ICMP: u8 = 1;

} // verus!
