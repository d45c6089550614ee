use vstd::prelude::*;

use crate::protocol::PeerAddr;

verus! {

/// Size of the IPv4 part at the low end of an IPv4-mapped IPv6 address.
pub const IPV4_SPACE: u128 = 0x1_0000_0000;

/// The bits above the IPv4 part of an IPv4-mapped IPv6 address (`::ffff:a.b.c.d`).
pub const IPV4_MAPPED_PREFIX: u128 = 0xffff;

/// Whether an IPv6 address is of the form `::ffff:a.b.c.d`.
pub open spec fn is_ipv4_mapped(ip: u128) -> bool {
    ip / IPV4_SPACE == IPV4_MAPPED_PREFIX
}

/// The IPv6 address `::ffff:a.b.c.d` of an IPv4 address `a.b.c.d`.
pub open spec fn ipv6_mapped_of(ip: u32) -> int {
    IPV4_MAPPED_PREFIX * IPV4_SPACE + ip
}

/// The address recorded for a datagram's source: IPv4-mapped IPv6 addresses become IPv4.
pub open spec fn normalized(addr: PeerAddr) -> PeerAddr {
    match addr {
        PeerAddr::V6 { ipv6, port } => if is_ipv4_mapped(ipv6) {
            PeerAddr::V4 { ipv4: (ipv6 % IPV4_SPACE) as u32, port }
        } else {
            addr
        },
        PeerAddr::V4 { .. } => addr,
    }
}

/// The address a reply is sent to on a listener of the given family: unchanged on an
/// IPv4 listener, IPv4 addresses mapped into IPv6 on an IPv6 listener.
pub open spec fn reply_addr(listener_is_ipv4: bool, addr: PeerAddr) -> PeerAddr {
    if listener_is_ipv4 {
        addr
    } else {
        match addr {
            PeerAddr::V4 { ipv4, port } => PeerAddr::V6 { ipv6: ipv6_mapped_of(ipv4) as u128, port },
            PeerAddr::V6 { .. } => addr,
        }
    }
}

/// Normalizes a datagram's source address at ingress.
pub fn normalize_source(addr: PeerAddr) -> (r: PeerAddr)
    ensures
        r == normalized(addr),
{
    match addr {
        PeerAddr::V6 { ipv6, port } => {
            if ipv6 / IPV4_SPACE == IPV4_MAPPED_PREFIX {
                PeerAddr::V4 { ipv4: (ipv6 % IPV4_SPACE) as u32, port }
            } else {
                addr
            }
        },
        PeerAddr::V4 { .. } => addr,
    }
}

/// The address to send a reply to, in the family of the listening socket.
/// An IPv4 listener has only IPv4 peers.
pub fn reply_address(listener_is_ipv4: bool, addr: PeerAddr) -> (r: PeerAddr)
    requires
        listener_is_ipv4 ==> addr is V4,
    ensures
        r == reply_addr(listener_is_ipv4, addr),
        listener_is_ipv4 ==> r is V4,
        !listener_is_ipv4 ==> r is V6,
{
    if listener_is_ipv4 {
        addr
    } else {
        match addr {
            PeerAddr::V4 { ipv4, port } => PeerAddr::V6 {
                ipv6: IPV4_MAPPED_PREFIX * IPV4_SPACE + ipv4 as u128,
                port,
            },
            PeerAddr::V6 { .. } => addr,
        }
    }
}

/// An IPv4-mapped IPv6 source is recorded as the IPv4 address it carries; a reply to it
/// goes to that IPv4 address on an IPv4 listener, and to the mapped address it came from on
/// an IPv6 listener.
pub proof fn lemma_mapped_source_round_trip(ipv6: u128, port: u16)
    requires
        is_ipv4_mapped(ipv6),
    ensures
        normalized(PeerAddr::V6 { ipv6, port }) == (PeerAddr::V4 {
            ipv4: (ipv6 % IPV4_SPACE) as u32,
            port,
        }),
        reply_addr(true, normalized(PeerAddr::V6 { ipv6, port })) is V4,
        reply_addr(false, normalized(PeerAddr::V6 { ipv6, port })) == (PeerAddr::V6 { ipv6, port }),
{
    let low = ipv6 % IPV4_SPACE;
    assert(ipv6 == (ipv6 / IPV4_SPACE) * IPV4_SPACE + low);
    assert(0 <= low < IPV4_SPACE);
    assert(ipv6_mapped_of(low as u32) == ipv6);
}

/// Addresses that are not IPv4-mapped pass normalization unchanged.
pub proof fn lemma_other_sources_unchanged(addr: PeerAddr)
    requires
        !(addr matches PeerAddr::V6 { ipv6, .. } && is_ipv4_mapped(ipv6)),
    ensures
        normalized(addr) == addr,
{
}

} // verus!
