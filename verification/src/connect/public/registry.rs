//! The addresses that the special-purpose registries set apart.
use vstd::prelude::*;

verus! {

/// An IPv4 address that a special-purpose registry sets apart, or that is not unicast: this
/// network, private use, shared space, loopback, link local, protocol assignments, documentation,
/// benchmarking, retired relay space, multicast and reserved space. Two anycast addresses among
/// the protocol assignments are globally reachable.
pub open spec fn ipv4_is_special(o: Seq<u8>) -> bool {
    ||| o[0] == 0
    ||| o[0] == 10
    ||| o[0] == 100 && 64 <= o[1] < 128
    ||| o[0] == 127
    ||| o[0] == 169 && o[1] == 254
    ||| o[0] == 172 && 16 <= o[1] < 32
    ||| o[0] == 192 && o[1] == 0 && o[2] == 0 && o[3] != 9 && o[3] != 10
    ||| o[0] == 192 && o[1] == 0 && o[2] == 2
    ||| o[0] == 192 && o[1] == 88 && o[2] == 99
    ||| o[0] == 192 && o[1] == 168
    ||| o[0] == 198 && 18 <= o[1] < 20
    ||| o[0] == 198 && o[1] == 51 && o[2] == 100
    ||| o[0] == 203 && o[1] == 0 && o[2] == 113
    ||| o[0] >= 224
}

/// Whether an IPv4 address is globally reachable.
pub fn ipv4_is_global(o: &[u8; 4]) -> (r: bool)
    ensures
        r == !ipv4_is_special(o@),
{
    let a: u8 = o[0];
    let b: u8 = o[1];
    let c: u8 = o[2];
    let d: u8 = o[3];
    let special: bool = a == 0 || a == 10 || (a == 100 && 64 <= b && b < 128) || a == 127 || (a
        == 169 && b == 254) || (a == 172 && 16 <= b && b < 32) || (a == 192 && b == 0 && c == 0 && d
        != 9 && d != 10) || (a == 192 && b == 0 && c == 2) || (a == 192 && b == 88 && c == 99) || (a
        == 192 && b == 168) || (a == 198 && 18 <= b && b < 20) || (a == 198 && b == 51 && c == 100)
        || (a == 203 && b == 0 && c == 113) || a >= 224;
    !special
}

/// The blocks of 2001::/23 that are globally reachable: three anycast addresses, AMT, AS112 and
/// the two identifier blocks.
pub open spec fn ipv6_is_assigned_exception(g: Seq<u16>) -> bool {
    ||| g[1] == 1 && g[2] == 0 && g[3] == 0 && g[4] == 0 && g[5] == 0 && g[6] == 0 && 1 <= g[7] <= 3
    ||| g[1] == 3
    ||| g[1] == 4 && g[2] == 0x112
    ||| 0x20 <= g[1] < 0x40
}

/// An IPv6 address that a special-purpose registry sets apart, or that is not global unicast:
/// addresses with five leading zero groups (unspecified, loopback, and those that carry an IPv4
/// address), local translation, discard and dummy prefixes, protocol assignments, documentation,
/// 6to4, segment routing, unique local, link local, retired site local and multicast.
pub open spec fn ipv6_is_special(g: Seq<u16>) -> bool {
    ||| g[0] == 0 && g[1] == 0 && g[2] == 0 && g[3] == 0 && g[4] == 0
    ||| g[0] == 0x64 && g[1] == 0xff9b && g[2] == 1
    ||| g[0] == 0x100 && g[1] == 0 && g[2] == 0 && g[3] <= 1
    ||| g[0] == 0x2001 && g[1] < 0x200 && !ipv6_is_assigned_exception(g)
    ||| g[0] == 0x2001 && g[1] == 0xdb8
    ||| g[0] == 0x2002
    ||| g[0] == 0x3fff && g[1] < 0x1000
    ||| g[0] == 0x5f00
    ||| 0xfc00 <= g[0] < 0xfe00
    ||| g[0] >= 0xfe80
}

/// Whether an IPv6 address is globally reachable.
pub fn ipv6_is_global(g: &[u16; 8]) -> (r: bool)
    ensures
        r == !ipv6_is_special(g@),
{
    let a: u16 = g[0];
    let b: u16 = g[1];
    let c: u16 = g[2];
    let d: u16 = g[3];
    let exception: bool = (b == 1 && c == 0 && d == 0 && g[4] == 0 && g[5] == 0 && g[6] == 0 && 1
        <= g[7] && g[7] <= 3) || b == 3 || (b == 4 && c == 0x112) || (0x20 <= b && b < 0x40);
    let special: bool = (a == 0 && b == 0 && c == 0 && d == 0 && g[4] == 0) || (a == 0x64 && b
        == 0xff9b && c == 1) || (a == 0x100 && b == 0 && c == 0 && d <= 1) || (a == 0x2001 && b
        < 0x200 && !exception) || (a == 0x2001 && b == 0xdb8) || a == 0x2002 || (a == 0x3fff && b
        < 0x1000) || a == 0x5f00 || (0xfc00 <= a && a < 0xfe00) || a >= 0xfe80;
    !special
}

} // verus!
