//! The names under which TLS servers are verified.
use crate::domain::target;
use crate::domain::target::{LoopbackAuthority, LoopbackHost};
use crate::ip;
use crate::ip::IpAddress;
use crate::octets;
use crate::octets::ascii_text;
use crate::target::PublicTarget;
use vstd::prelude::*;
use vstd::utf8::*;

verus! {

/// The identity of a local TLS server.
#[derive(Debug, Clone, Copy, PartialEq, Eq)]
pub enum LocalTlsIdentity {
    DnsLocalhost,
    Ip(IpAddress),
}

/// The groups of `::1`.
pub open spec fn loopback_groups() -> Seq<u16> {
    ip::zeros(7).push(1u16)
}

/// The address of a loopback host, where it is one.
pub open spec fn identity_of(host: target::LoopbackHostModel) -> Option<ip::IpModel> {
    match host {
        target::LoopbackHostModel::Localhost => None,
        target::LoopbackHostModel::Ipv4(o) => Some(ip::IpModel::V4(o)),
        target::LoopbackHostModel::Ipv6Loopback => Some(ip::IpModel::V6(loopback_groups())),
    }
}

/// The identity that the server of a local authority is verified under.
pub fn tls_identity(authority: &LoopbackAuthority) -> (r: LocalTlsIdentity)
    ensures
        match r {
            LocalTlsIdentity::DnsLocalhost => identity_of(authority@.host) is None,
            LocalTlsIdentity::Ip(address) => identity_of(authority@.host) == Some(address@),
        },
{
    match authority.host() {
        LoopbackHost::Localhost => LocalTlsIdentity::DnsLocalhost,
        LoopbackHost::Ipv4(o) => LocalTlsIdentity::Ip(IpAddress::V4(o)),
        LoopbackHost::Ipv6Loopback => {
            let groups: [u16; 8] = [0, 0, 0, 0, 0, 0, 0, 1];
            assert(groups@ =~= loopback_groups());
            LocalTlsIdentity::Ip(IpAddress::V6(groups))
        },
    }
}

/// The server name that `rustls::pki_types` makes of a text, written out; `None` where it accepts
/// none.
pub uninterp spec fn server_name_text(name: Seq<char>) -> Option<Seq<char>>;

pub open spec fn optional(s: Option<String>) -> Option<Seq<char>> {
    match s {
        Some(s) => Some(s@),
        None => None,
    }
}

/// `rustls::pki_types::ServerName::try_from` with `ServerName::to_str`: parses a text as a DNS name
/// or an address and writes it out. The grammar is the crate's own and is named, not spelled out;
/// `localhost`, `::1` and every dotted quad without leading zeros are accepted as themselves.
#[verifier::external_body]
fn server_name(name: &str) -> (r: Option<String>)
    ensures
        optional(r) == server_name_text(name@),
        name@ == "localhost"@ || name@ == "::1"@ ==> optional(r) == Some(name@),
        ip::ipv4_of(octets::octets(name@)) is Some ==> optional(r) == Some(name@),
{
    match rustls::pki_types::ServerName::try_from(name) {
        Ok(server) => Some(server.to_str().into_owned()),
        Err(_) => None,
    }
}

/// The server name of a local authority: its host, without port and brackets.
pub open spec fn local_name(host: target::LoopbackHostModel) -> Seq<char> {
    match host {
        target::LoopbackHostModel::Localhost => "localhost"@,
        target::LoopbackHostModel::Ipv4(o) => octets::ascii_chars(ip::ipv4_text(o)),
        target::LoopbackHostModel::Ipv6Loopback => "::1"@,
    }
}

/// The server name that the server of a local authority is verified under. There always is one.
pub fn local_server_name(authority: &LoopbackAuthority) -> (r: Option<String>)
    ensures
        optional(r) == Some(local_name(authority@.host)),
        optional(r) == server_name_text(local_name(authority@.host)),
{
    match authority.host() {
        LoopbackHost::Localhost => server_name("localhost"),
        LoopbackHost::Ipv4(o) => {
            proof {
                ip::lemma_ipv4_text_ascii(o@);
                ip::ipv4_text_reads_back(o@);
            }
            server_name(ascii_text(ip::render_ipv4(&o).as_slice()).as_str())
        },
        LoopbackHost::Ipv6Loopback => server_name("::1"),
    }
}

/// The server name that a public server is verified under.
pub fn public_server_name(target: &PublicTarget) -> (r: Option<String>)
    ensures
        optional(r) == server_name_text(target@.host),
{
    server_name(target.host())
}

} // verus!
