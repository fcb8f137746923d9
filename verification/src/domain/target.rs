//! Request targets and canonical destinations.
use crate::domain::policy;
use crate::domain::policy::DomainName;
use crate::ip;
use crate::ip::{ipv4_mapped, ipv6_loopback, parse_ipv4, parse_ipv6, IpAddress, IpModel};
use crate::octets;
use crate::octets::{
    alnum, append, ascii, contains, copy, digit, digits, equal_ignore_case, find, hex, is_text,
    parse_decimal, part, render_decimal, rfind,
};
use crate::text;
use crate::text::characters;
use crate::unique::Same;
use vstd::prelude::*;
use vstd::utf8::*;

verus! {

/// Why an authority is refused.
#[derive(Debug, Clone, Copy, PartialEq, Eq, Structural)]
pub enum AuthorityParseError {
    InvalidHost,
    MissingPort,
    InvalidPort,
    NonLoopback,
}

impl AuthorityParseError {
    /// The message that describes the error.
    pub fn message(&self) -> (r: &'static str)
        ensures
            r@ == (match *self {
                AuthorityParseError::InvalidHost => "invalid authority host"@,
                AuthorityParseError::MissingPort => "authority is missing a port"@,
                AuthorityParseError::InvalidPort => "authority has an invalid port"@,
                AuthorityParseError::NonLoopback => "authority is not loopback"@,
            }),
    {
        match self {
            AuthorityParseError::InvalidHost => "invalid authority host",
            AuthorityParseError::MissingPort => "authority is missing a port",
            AuthorityParseError::InvalidPort => "authority has an invalid port",
            AuthorityParseError::NonLoopback => "authority is not loopback",
        }
    }
}

/// A host that is this machine.
#[derive(Debug, Clone, Copy, PartialEq, Eq, Hash)]
pub enum LoopbackHost {
    Localhost,
    Ipv4([u8; 4]),
    Ipv6Loopback,
}

/// A loopback host and port.
#[derive(Debug, Clone, Copy, PartialEq, Eq, Hash)]
pub struct LoopbackAuthority {
    host: LoopbackHost,
    port: u16,
}

/// A loopback host, with an address as its sequence of octets.
pub enum LoopbackHostModel {
    Localhost,
    Ipv4(Seq<u8>),
    Ipv6Loopback,
}

/// A loopback host and port, with an address as its sequence of octets.
pub struct LoopbackModel {
    pub host: LoopbackHostModel,
    pub port: u16,
}

impl View for LoopbackHost {
    type V = LoopbackHostModel;

    open spec fn view(&self) -> LoopbackHostModel {
        match self {
            LoopbackHost::Localhost => LoopbackHostModel::Localhost,
            LoopbackHost::Ipv4(o) => LoopbackHostModel::Ipv4(o@),
            LoopbackHost::Ipv6Loopback => LoopbackHostModel::Ipv6Loopback,
        }
    }
}

impl View for LoopbackAuthority {
    type V = LoopbackModel;

    closed spec fn view(&self) -> LoopbackModel {
        LoopbackModel { host: self.host@, port: self.port }
    }
}

/// A port number in decimal, from 1 to 65535. Leading zeros are allowed.
pub open spec fn port_of(s: Seq<u8>) -> Option<u16> {
    if s.len() > 0 && octets::all_digits(s) && 1 <= octets::decimal(s) <= 65535 {
        Some(octets::decimal(s) as u16)
    } else {
        None
    }
}

/// The loopback host that a host spelling names, or why there is none.
pub open spec fn loopback_host_of(h: Seq<u8>) -> Result<LoopbackHostModel, AuthorityParseError> {
    if octets::lower(h) == octets::octets("localhost"@) {
        Ok(LoopbackHostModel::Localhost)
    } else if h.len() >= 2 && h[0] == '[' as u8 && h.last() == ']' as u8 {
        match ip::ipv6_of(h.subrange(1, h.len() - 1)) {
            None => Err(AuthorityParseError::InvalidHost),
            Some(g) => if ip::is_ipv6_loopback(g) {
                Ok(LoopbackHostModel::Ipv6Loopback)
            } else {
                Err(AuthorityParseError::NonLoopback)
            },
        }
    } else {
        match ip::ipv4_of(h) {
            None => Err(AuthorityParseError::InvalidHost),
            Some(o) => if o[0] == 127 {
                Ok(LoopbackHostModel::Ipv4(o))
            } else {
                Err(AuthorityParseError::NonLoopback)
            },
        }
    }
}

/// The loopback authority that a text spells, or why there is none. The port is looked at before
/// the host.
pub open spec fn loopback_of(input: Seq<char>) -> Result<LoopbackModel, AuthorityParseError> {
    let b = octets::octets(input);
    let at = octets::last_before(b, ':' as u8, b.len() as int);
    if input.len() == 0 || !text::trimmed(input) || !is_ascii_chars(input) {
        Err(AuthorityParseError::InvalidHost)
    } else if at < 0 || at + 1 == b.len() {
        Err(AuthorityParseError::MissingPort)
    } else {
        match port_of(b.subrange(at + 1, b.len() as int)) {
            None => Err(AuthorityParseError::InvalidPort),
            Some(port) => match loopback_host_of(b.subrange(0, at)) {
                Ok(host) => Ok(LoopbackModel { host, port }),
                Err(error) => Err(error),
            },
        }
    }
}

/// The canonical spelling of a loopback authority.
pub open spec fn loopback_text(a: LoopbackModel) -> Seq<u8> {
    let port = octets::digits_of(a.port as nat);
    match a.host {
        LoopbackHostModel::Localhost => octets::octets("localhost:"@) + port,
        LoopbackHostModel::Ipv4(o) => ip::ipv4_text(o).push(':' as u8) + port,
        LoopbackHostModel::Ipv6Loopback => octets::octets("[::1]:"@) + port,
    }
}

/// What a diagnostic shows of a loopback host: the name of its form, and the octets of an address.
pub open spec fn loopback_host_debug(h: LoopbackHostModel) -> Seq<u8> {
    match h {
        LoopbackHostModel::Localhost => octets::octets("Localhost"@),
        LoopbackHostModel::Ipv4(o) => octets::octets("Ipv4(["@) + octets::digits_of(o[0] as nat)
            + octets::octets(", "@) + octets::digits_of(o[1] as nat) + octets::octets(", "@)
            + octets::digits_of(o[2] as nat) + octets::octets(", "@) + octets::digits_of(
            o[3] as nat,
        ) + octets::octets("])"@),
        LoopbackHostModel::Ipv6Loopback => octets::octets("Ipv6Loopback"@),
    }
}

/// What a diagnostic shows of a loopback authority: its two fields by name.
pub open spec fn loopback_debug(a: LoopbackModel) -> Seq<u8> {
    octets::octets("LoopbackAuthority { host: "@) + loopback_host_debug(a.host) + octets::octets(
        ", port: "@,
    ) + octets::digits_of(a.port as nat) + octets::octets(" }"@)
}

/// A value that parsing can produce: an IPv4 host has four octets of which the first is 127, and
/// the port is not zero.
pub open spec fn is_loopback(a: LoopbackModel) -> bool {
    &&& a.port >= 1
    &&& a.host matches LoopbackHostModel::Ipv4(o) ==> o.len() == 4 && o[0] == 127
}

impl LoopbackHost {
    /// What a diagnostic shows.
    pub fn debug_text(&self) -> (r: Vec<u8>)
        ensures
            r@ == loopback_host_debug(self@),
    {
        match self {
            LoopbackHost::Localhost => copy("Localhost".as_bytes()),
            LoopbackHost::Ipv4(o) => {
                let mut out: Vec<u8> = copy("Ipv4([".as_bytes());
                append(&mut out, &render_decimal(o[0] as u64));
                append(&mut out, ", ".as_bytes());
                append(&mut out, &render_decimal(o[1] as u64));
                append(&mut out, ", ".as_bytes());
                append(&mut out, &render_decimal(o[2] as u64));
                append(&mut out, ", ".as_bytes());
                append(&mut out, &render_decimal(o[3] as u64));
                append(&mut out, "])".as_bytes());
                out
            },
            LoopbackHost::Ipv6Loopback => copy("Ipv6Loopback".as_bytes()),
        }
    }
}

impl LoopbackAuthority {
    #[verifier::type_invariant]
    spec fn well_formed(self) -> bool {
        is_loopback(LoopbackModel { host: self.host@, port: self.port })
    }

    /// Reads an authority in text form.
    pub fn parse(input: &str) -> (r: Result<LoopbackAuthority, AuthorityParseError>)
        ensures
            match r {
                Ok(a) => loopback_of(input@) == Ok::<LoopbackModel, AuthorityParseError>(a@),
                Err(e) => loopback_of(input@) == Err::<LoopbackModel, AuthorityParseError>(e),
            },
    {
        LoopbackAuthority::parse_chars(characters(input).as_slice())
    }

    /// Reads an authority from the characters of its text form.
    pub fn parse_chars(input: &[char]) -> (r: Result<LoopbackAuthority, AuthorityParseError>)
        ensures
            match r {
                Ok(a) => loopback_of(input@) == Ok::<LoopbackModel, AuthorityParseError>(a@),
                Err(e) => loopback_of(input@) == Err::<LoopbackModel, AuthorityParseError>(e),
            },
    {
        if input.len() == 0 {
            return Err(AuthorityParseError::InvalidHost);
        }
        if text::is_whitespace(input[0]) || text::is_whitespace(input[input.len() - 1]) {
            return Err(AuthorityParseError::InvalidHost);
        }
        match text::ascii_octets(input) {
            None => Err(AuthorityParseError::InvalidHost),
            Some(b) => match rfind(b.as_slice(), ':' as u8) {
                None => Err(AuthorityParseError::MissingPort),
                Some(at) => {
                    let port: u16 = match parse_port(part(b.as_slice(), at + 1, b.len())) {
                        Ok(port) => port,
                        Err(error) => {
                            return Err(error);
                        },
                    };
                    match parse_loopback_host(part(b.as_slice(), 0, at)) {
                        Ok(host) => Ok(LoopbackAuthority { host, port }),
                        Err(error) => Err(error),
                    }
                },
            },
        }
    }

    /// The canonical spelling.
    pub fn text(&self) -> (r: Vec<u8>)
        ensures
            r@ == loopback_text(self@),
            octets::is_ascii(r@),
    {
        proof {
            use_type_invariant(self);
            lemma_loopback_text_ascii(self@);
        }
        let mut out: Vec<u8> = match &self.host {
            LoopbackHost::Localhost => copy("localhost:".as_bytes()),
            LoopbackHost::Ipv4(o) => {
                let mut quad = ip::render_ipv4(o);
                quad.push(':' as u8);
                quad
            },
            LoopbackHost::Ipv6Loopback => copy("[::1]:".as_bytes()),
        };
        append(&mut out, &render_decimal(self.port as u64));
        out
    }

    /// What a diagnostic shows.
    pub fn debug_text(&self) -> (r: Vec<u8>)
        ensures
            r@ == loopback_debug(self@),
    {
        let mut out: Vec<u8> = copy("LoopbackAuthority { host: ".as_bytes());
        append(&mut out, self.host.debug_text().as_slice());
        append(&mut out, ", port: ".as_bytes());
        append(&mut out, &render_decimal(self.port as u64));
        append(&mut out, " }".as_bytes());
        out
    }

    pub fn host(&self) -> (r: LoopbackHost)
        ensures
            r@ == self@.host,
    {
        self.host
    }

    pub fn port(&self) -> (r: u16)
        ensures
            r == self@.port,
    {
        self.port
    }
}

impl Same for LoopbackAuthority {
    fn same(&self, other: &LoopbackAuthority) -> (r: bool) {
        if self.port != other.port {
            return false;
        }
        match (&self.host, &other.host) {
            (LoopbackHost::Localhost, LoopbackHost::Localhost) => true,
            (LoopbackHost::Ipv6Loopback, LoopbackHost::Ipv6Loopback) => true,
            (LoopbackHost::Ipv4(a), LoopbackHost::Ipv4(b)) => {
                assert(a@ == b@ ==> *a =~= *b);
                ip::same_octets(a, b)
            },
            _ => false,
        }
    }
}

proof fn lemma_loopback_text_ascii(a: LoopbackModel)
    requires
        is_loopback(a),
    ensures
        octets::is_ascii(loopback_text(a)),
{
    reveal_strlit("localhost:");
    reveal_strlit("[::1]:");
    is_ascii_chars_encode_utf8("localhost:"@);
    is_ascii_chars_encode_utf8("[::1]:"@);
    octets::lemma_digits_of(a.port as nat);
    match a.host {
        LoopbackHostModel::Ipv4(o) => {
            ip::lemma_ipv4_text_ascii(o);
        },
        _ => {},
    }
}

/// The text of `[::1]` names the loopback host.
proof fn lemma_ipv6_loopback_text()
    ensures
        loopback_host_of(octets::octets("[::1]"@)) == Ok::<LoopbackHostModel, AuthorityParseError>(
            LoopbackHostModel::Ipv6Loopback,
        ),
{
    let h = octets::octets("[::1]"@);
    reveal_strlit("[::1]");
    reveal_strlit("localhost");
    is_ascii_chars_encode_utf8("[::1]"@);
    is_ascii_chars_encode_utf8("localhost"@);
    assert(octets::lower(h).len() == 5);
    let t = h.subrange(1, 4);
    assert(t =~= seq![':' as u8, ':' as u8, '1' as u8]);
    assert(ip::double_colon(t, 0) == 0);
    let one = t.subrange(2, 3);
    assert(one =~= seq!['1' as u8]);
    assert(t.subrange(0, 0) =~= Seq::empty());
    ip::lemma_pieces_single(one, ':' as u8);
    ip::lemma_pieces_single(Seq::empty(), ':' as u8);
    assert(one.drop_last() =~= Seq::empty());
    reveal_with_fuel(ip::hexadecimal, 2);
    assert(ip::group_value(one) == Some(1u16));
    reveal_with_fuel(ip::groups_of, 2);
    assert(octets::pieces(one, ':' as u8) =~= seq![one]);
    assert(ip::group_run(one, true) == Some(seq![1u16]));
    assert(ip::group_run(Seq::empty(), false) == Some(Seq::<u16>::empty()));
    assert(ip::ipv6_of(t)->0 =~= ip::zeros(7).push(1u16));
    assert(octets::octets("localhost"@).len() == 9);
}

/// A loopback authority is read back from its canonical spelling.
pub proof fn loopback_text_reads_back(a: LoopbackModel)
    requires
        is_loopback(a),
    ensures
        octets::is_ascii(loopback_text(a)),
        loopback_of(octets::ascii_chars(loopback_text(a))) == Ok::<
            LoopbackModel,
            AuthorityParseError,
        >(a),
{
    let t = loopback_text(a);
    let input = octets::ascii_chars(t);
    let port = octets::digits_of(a.port as nat);
    lemma_loopback_text_ascii(a);
    octets::lemma_ascii_text(t);
    octets::lemma_digits_of(a.port as nat);
    reveal_strlit("localhost:");
    reveal_strlit("localhost");
    reveal_strlit("[::1]:");
    reveal_strlit("[::1]");
    is_ascii_chars_encode_utf8("localhost:"@);
    is_ascii_chars_encode_utf8("localhost"@);
    is_ascii_chars_encode_utf8("[::1]:"@);
    is_ascii_chars_encode_utf8("[::1]"@);
    lemma_localhost_lower();
    lemma_ipv6_loopback_text();
    let at = t.len() - port.len() - 1;
    assert(t[at] == ':' as u8);
    assert(t.subrange(at + 1, t.len() as int) =~= port);
    octets::lemma_last_before_is(t, ':' as u8, t.len() as int, at);
    let host = t.subrange(0, at);
    match a.host {
        LoopbackHostModel::Localhost => {
            assert(host =~= octets::octets("localhost"@));
        },
        LoopbackHostModel::Ipv4(o) => {
            ip::ipv4_text_reads_back(o);
            octets::lemma_digits_of(o[0] as nat);
            assert(host =~= ip::ipv4_text(o));
            assert(octets::is_digit(host[0]));
            assert(octets::lower(host)[0] == host[0]);
            assert(octets::octets("localhost"@)[0] == 'l' as u8);
        },
        LoopbackHostModel::Ipv6Loopback => {
            assert(host =~= octets::octets("[::1]"@));
        },
    }
    assert(!text::white_space(input[0]));
    assert(octets::is_digit(t.last()));
    assert(!text::white_space(input.last()));
}

fn parse_loopback_host(h: &[u8]) -> (r: Result<LoopbackHost, AuthorityParseError>)
    ensures
        match r {
            Ok(host) => {
                &&& loopback_host_of(h@) == Ok::<LoopbackHostModel, AuthorityParseError>(host@)
                &&& host@ matches LoopbackHostModel::Ipv4(o) ==> o.len() == 4 && o[0] == 127
            },
            Err(e) => loopback_host_of(h@) == Err::<LoopbackHostModel, AuthorityParseError>(e),
        },
{
    proof {
        lemma_localhost_lower();
    }
    if equal_ignore_case(h, "localhost".as_bytes()) {
        return Ok(LoopbackHost::Localhost);
    }
    if h.len() >= 2 && h[0] == '[' as u8 && h[h.len() - 1] == ']' as u8 {
        return match parse_ipv6(part(h, 1, h.len() - 1)) {
            None => Err(AuthorityParseError::InvalidHost),
            Some(g) => if ipv6_loopback(&g) {
                Ok(LoopbackHost::Ipv6Loopback)
            } else {
                Err(AuthorityParseError::NonLoopback)
            },
        };
    }
    match parse_ipv4(h) {
        None => Err(AuthorityParseError::InvalidHost),
        Some(o) => if o[0] == 127 {
            Ok(LoopbackHost::Ipv4(o))
        } else {
            Err(AuthorityParseError::NonLoopback)
        },
    }
}

proof fn lemma_localhost_lower()
    ensures
        octets::lower(octets::octets("localhost"@)) == octets::octets("localhost"@),
{
    reveal_strlit("localhost");
    is_ascii_chars_encode_utf8("localhost"@);
    assert(octets::lower(octets::octets("localhost"@)) =~= octets::octets("localhost"@));
}

/// Reads a port number.
pub fn parse_port(value: &[u8]) -> (r: Result<u16, AuthorityParseError>)
    ensures
        r == (if value@.len() == 0 {
            Err::<u16, AuthorityParseError>(AuthorityParseError::MissingPort)
        } else {
            match port_of(value@) {
                Some(port) => Ok(port),
                None => Err(AuthorityParseError::InvalidPort),
            }
        }),
{
    if value.len() == 0 {
        return Err(AuthorityParseError::MissingPort);
    }
    match parse_decimal(value, 65535) {
        Some(port) => if port == 0 {
            Err(AuthorityParseError::InvalidPort)
        } else {
            Ok(port as u16)
        },
        None => Err(AuthorityParseError::InvalidPort),
    }
}

/// A destination host off this machine.
#[derive(Debug, PartialEq, Eq, Hash)]
pub enum PublicHost {
    Dns(DomainName),
    Ip(IpAddress),
}

/// A destination host as a name or an address.
pub enum HostModel {
    Dns(Seq<u8>),
    Ip(IpModel),
}

impl View for PublicHost {
    type V = HostModel;

    open spec fn view(&self) -> HostModel {
        match self {
            PublicHost::Dns(name) => HostModel::Dns(name@),
            PublicHost::Ip(address) => HostModel::Ip(address@),
        }
    }
}

/// The text of a host: its name or its canonical address, without brackets.
pub open spec fn host_text(h: HostModel) -> Seq<u8> {
    match h {
        HostModel::Dns(name) => name,
        HostModel::Ip(address) => ip::ip_text(address),
    }
}

impl Clone for PublicHost {
    fn clone(&self) -> (r: PublicHost)
        ensures
            r@ == self@,
    {
        match self {
            PublicHost::Dns(name) => PublicHost::Dns(name.clone()),
            PublicHost::Ip(address) => PublicHost::Ip(*address),
        }
    }
}

impl PublicHost {
    pub fn text(&self) -> (r: Vec<u8>)
        ensures
            r@ == host_text(self@),
    {
        match self {
            PublicHost::Dns(name) => copy(name.as_octets()),
            PublicHost::Ip(address) => address.text(),
        }
    }
}

/// What a request line asks for.
#[derive(Debug, Clone, PartialEq, Eq)]
pub enum Target {
    Direct(DirectTarget),
    Asterisk,
    PublicHttp(PublicTarget),
    LocalHttp(LocalTarget),
    PublicConnect(PublicTarget),
    LocalConnect(LocalTarget),
    HttpsAbsoluteRejected,
    Malformed,
}

/// A path on the proxy itself.
#[derive(Debug, Clone, PartialEq, Eq)]
pub struct DirectTarget {
    path_and_query: Vec<u8>,
}

/// A destination off this machine.
#[derive(Debug, Clone, PartialEq, Eq)]
pub struct PublicTarget {
    authority: Vec<u8>,
    host: PublicHost,
    port: u16,
    explicit_port: bool,
    path_and_query: Vec<u8>,
}

/// A destination on this machine.
#[derive(Debug, Clone, PartialEq, Eq)]
pub struct LocalTarget {
    canonical_authority: LoopbackAuthority,
    explicit_port: bool,
    path_and_query: Vec<u8>,
}

pub struct PublicModel {
    pub authority: Seq<u8>,
    pub host: HostModel,
    pub port: u16,
    pub explicit_port: bool,
    pub path_and_query: Seq<u8>,
}

pub struct LocalModel {
    pub authority: LoopbackModel,
    pub explicit_port: bool,
    pub path_and_query: Seq<u8>,
}

pub enum TargetModel {
    Direct(Seq<u8>),
    Asterisk,
    PublicHttp(PublicModel),
    LocalHttp(LocalModel),
    PublicConnect(PublicModel),
    LocalConnect(LocalModel),
    HttpsAbsoluteRejected,
    Malformed,
}

impl View for DirectTarget {
    type V = Seq<u8>;

    closed spec fn view(&self) -> Seq<u8> {
        self.path_and_query@
    }
}

impl View for PublicTarget {
    type V = PublicModel;

    closed spec fn view(&self) -> PublicModel {
        PublicModel {
            authority: self.authority@,
            host: self.host@,
            port: self.port,
            explicit_port: self.explicit_port,
            path_and_query: self.path_and_query@,
        }
    }
}

impl View for LocalTarget {
    type V = LocalModel;

    closed spec fn view(&self) -> LocalModel {
        LocalModel {
            authority: self.canonical_authority@,
            explicit_port: self.explicit_port,
            path_and_query: self.path_and_query@,
        }
    }
}

impl View for Target {
    type V = TargetModel;

    open spec fn view(&self) -> TargetModel {
        match self {
            Target::Direct(t) => TargetModel::Direct(t@),
            Target::Asterisk => TargetModel::Asterisk,
            Target::PublicHttp(t) => TargetModel::PublicHttp(t@),
            Target::LocalHttp(t) => TargetModel::LocalHttp(t@),
            Target::PublicConnect(t) => TargetModel::PublicConnect(t@),
            Target::LocalConnect(t) => TargetModel::LocalConnect(t@),
            Target::HttpsAbsoluteRejected => TargetModel::HttpsAbsoluteRejected,
            Target::Malformed => TargetModel::Malformed,
        }
    }
}

impl DirectTarget {
    pub fn path_and_query(&self) -> (r: &[u8])
        ensures
            r@ == self@,
    {
        self.path_and_query.as_slice()
    }
}

impl PublicTarget {
    pub fn authority(&self) -> (r: &[u8])
        ensures
            r@ == self@.authority,
    {
        self.authority.as_slice()
    }

    pub fn host(&self) -> (r: &PublicHost)
        ensures
            r@ == self@.host,
    {
        &self.host
    }

    pub fn port(&self) -> (r: u16)
        ensures
            r == self@.port,
    {
        self.port
    }

    pub fn explicit_port(&self) -> (r: bool)
        ensures
            r == self@.explicit_port,
    {
        self.explicit_port
    }

    pub fn path_and_query(&self) -> (r: &[u8])
        ensures
            r@ == self@.path_and_query,
    {
        self.path_and_query.as_slice()
    }
}

impl LocalTarget {
    pub fn canonical_authority(&self) -> (r: &LoopbackAuthority)
        ensures
            r@ == self@.authority,
    {
        &self.canonical_authority
    }

    pub fn explicit_port(&self) -> (r: bool)
        ensures
            r == self@.explicit_port,
    {
        self.explicit_port
    }

    pub fn path_and_query(&self) -> (r: &[u8])
        ensures
            r@ == self@.path_and_query,
    {
        self.path_and_query.as_slice()
    }
}

#[derive(Clone, Copy, PartialEq, Eq, Structural)]
pub enum RequestKind {
    Http,
    Connect,
}

#[derive(Clone, Copy, PartialEq, Eq, Structural)]
pub enum AbsoluteScheme {
    Http,
    Https,
}

/// An octet that may stand in a target by itself, outside a percent escape.
pub open spec fn is_uri_octet(b: u8) -> bool {
    ||| octets::is_alnum(b)
    ||| b == '!' as u8
    ||| b == '$' as u8
    ||| b == '&' as u8
    ||| b == '\'' as u8
    ||| b == '(' as u8
    ||| b == ')' as u8
    ||| b == '*' as u8
    ||| b == '+' as u8
    ||| b == ',' as u8
    ||| b == '-' as u8
    ||| b == '.' as u8
    ||| b == '/' as u8
    ||| b == ':' as u8
    ||| b == ';' as u8
    ||| b == '=' as u8
    ||| b == '?' as u8
    ||| b == '@' as u8
    ||| b == '_' as u8
    ||| b == '~' as u8
    ||| b == '[' as u8
    ||| b == ']' as u8
}

/// From index `i` on, every octet is allowed by itself or is part of a complete percent escape.
pub open spec fn uri_octets_from(s: Seq<u8>, i: int) -> bool
    decreases s.len() - i,
{
    if i < 0 || i >= s.len() {
        true
    } else if s[i] == '%' as u8 {
        &&& i + 2 < s.len()
        &&& octets::is_hex(s[i + 1])
        &&& octets::is_hex(s[i + 2])
        &&& uri_octets_from(s, i + 3)
    } else {
        is_uri_octet(s[i]) && uri_octets_from(s, i + 1)
    }
}

pub open spec fn is_path_and_query(s: Seq<u8>) -> bool {
    &&& !s.contains('#' as u8)
    &&& !s.contains('[' as u8)
    &&& !s.contains(']' as u8)
    &&& uri_octets_from(s, 0)
}

pub open spec fn is_absolute_path_and_query(s: Seq<u8>) -> bool {
    s.len() > 0 && (s[0] == '/' as u8 || s[0] == '?' as u8) && is_path_and_query(s)
}

/// An octet that no authority may hold.
pub open spec fn is_authority_breaker(b: u8) -> bool {
    ||| octets::is_white(b)
    ||| octets::is_control(b)
    ||| b == '@' as u8
    ||| b == '/' as u8
    ||| b == '?' as u8
    ||| b == '#' as u8
}

pub open spec fn has_authority_breaker(s: Seq<u8>) -> bool {
    exists|i: int| 0 <= i < s.len() && is_authority_breaker(#[trigger] s[i])
}

/// A host on this machine or off it.
pub enum ParsedHostModel {
    Local(LoopbackHostModel),
    Public(HostModel),
}

pub struct AuthorityModel {
    pub host: ParsedHostModel,
    pub port: u16,
    pub explicit_port: bool,
}

/// The port that follows a bracketed host: written out after a colon, or the default where it may
/// be left out.
pub open spec fn suffix_port(
    suffix: Seq<u8>,
    default_port: Option<u16>,
    port_required: bool,
) -> Option<(u16, bool)> {
    if suffix.len() > 0 && suffix[0] == ':' as u8 {
        match port_of(suffix.subrange(1, suffix.len() as int)) {
            Some(port) => Some((port, true)),
            None => None,
        }
    } else if suffix.len() == 0 && !port_required && default_port is Some {
        Some((default_port->0, false))
    } else {
        None
    }
}

/// The host that an IPv6 literal between brackets names. An IPv4-mapped address is refused.
pub open spec fn bracketed_host(h: Seq<u8>) -> Option<ParsedHostModel> {
    match ip::ipv6_of(h) {
        Some(g) => if h.contains('%' as u8) || ip::is_ipv4_mapped(g) {
            None
        } else if ip::is_ipv6_loopback(g) {
            Some(ParsedHostModel::Local(LoopbackHostModel::Ipv6Loopback))
        } else {
            Some(ParsedHostModel::Public(HostModel::Ip(IpModel::V6(g))))
        },
        None => None,
    }
}

/// Only digits and dots: a numeric spelling.
pub open spec fn is_numeric(h: Seq<u8>) -> bool {
    forall|i: int| 0 <= i < h.len() ==> octets::is_digit(#[trigger] h[i]) || h[i] == '.' as u8
}

/// The host that a name or dotted quad names. A numeric spelling that is no dotted quad is refused.
pub open spec fn plain_host(h: Seq<u8>) -> Option<ParsedHostModel> {
    match ip::ipv4_of(h) {
        Some(o) => if o[0] == 127 {
            Some(ParsedHostModel::Local(LoopbackHostModel::Ipv4(o)))
        } else {
            Some(ParsedHostModel::Public(HostModel::Ip(IpModel::V4(o))))
        },
        None => if is_numeric(h) {
            None
        } else {
            match policy::dns_name_of(h) {
                Some(name) => if name == octets::octets("localhost"@) {
                    Some(ParsedHostModel::Local(LoopbackHostModel::Localhost))
                } else {
                    Some(ParsedHostModel::Public(HostModel::Dns(name)))
                },
                None => None,
            }
        },
    }
}

/// The host and port that an authority names.
pub open spec fn authority_of(
    v: Seq<u8>,
    default_port: Option<u16>,
    port_required: bool,
) -> Option<AuthorityModel> {
    if v.len() == 0 || !octets::is_ascii(v) || has_authority_breaker(v) {
        None
    } else if v[0] == '[' as u8 {
        let close = octets::first_at(v, ']' as u8, 1);
        if close >= v.len() {
            None
        } else {
            match (
                suffix_port(v.subrange(close + 1, v.len() as int), default_port, port_required),
                bracketed_host(v.subrange(1, close)),
            ) {
                (Some((port, explicit_port)), Some(host)) => Some(
                    AuthorityModel { host, port, explicit_port },
                ),
                _ => None,
            }
        }
    } else {
        let colon = octets::first_at(v, ':' as u8, 0);
        if v.contains('[' as u8) || v.contains(']' as u8) || (colon < v.len() && octets::first_at(
            v,
            ':' as u8,
            colon + 1,
        ) < v.len()) || colon == 0 {
            None
        } else {
            match (
                suffix_port(v.subrange(colon, v.len() as int), default_port, port_required),
                plain_host(v.subrange(0, colon)),
            ) {
                (Some((port, explicit_port)), Some(host)) => Some(
                    AuthorityModel { host, port, explicit_port },
                ),
                _ => None,
            }
        }
    }
}

/// The canonical authority of a public host.
pub open spec fn public_authority_text(host: HostModel, port: u16, explicit_port: bool) -> Seq<
    u8,
> {
    let name = match host {
        HostModel::Ip(IpModel::V6(g)) => seq!['[' as u8] + ip::ipv6_text(g) + seq![']' as u8],
        _ => host_text(host),
    };
    if explicit_port {
        name.push(':' as u8) + octets::digits_of(port as nat)
    } else {
        name
    }
}

pub open spec fn scheme_port(scheme: Option<AbsoluteScheme>) -> Option<u16> {
    match scheme {
        Some(AbsoluteScheme::Http) => Some(80),
        Some(AbsoluteScheme::Https) => Some(443),
        None => None,
    }
}

/// The target that an authority stands for.
pub open spec fn authority_target(
    v: Seq<u8>,
    scheme: Option<AbsoluteScheme>,
    kind: RequestKind,
    path_and_query: Seq<u8>,
) -> TargetModel {
    match authority_of(v, scheme_port(scheme), kind == RequestKind::Connect) {
        None => TargetModel::Malformed,
        Some(a) => if scheme == Some(AbsoluteScheme::Https) {
            TargetModel::HttpsAbsoluteRejected
        } else {
            match a.host {
                ParsedHostModel::Local(host) => {
                    let target = LocalModel {
                        authority: LoopbackModel { host, port: a.port },
                        explicit_port: a.explicit_port,
                        path_and_query,
                    };
                    match kind {
                        RequestKind::Http => TargetModel::LocalHttp(target),
                        RequestKind::Connect => TargetModel::LocalConnect(target),
                    }
                },
                ParsedHostModel::Public(host) => {
                    let target = PublicModel {
                        authority: public_authority_text(host, a.port, a.explicit_port),
                        host,
                        port: a.port,
                        explicit_port: a.explicit_port,
                        path_and_query,
                    };
                    match kind {
                        RequestKind::Http => TargetModel::PublicHttp(target),
                        RequestKind::Connect => TargetModel::PublicConnect(target),
                    }
                },
            }
        },
    }
}

/// The scheme, of those the proxy knows, that a spelling names.
pub open spec fn scheme_of(s: Seq<u8>) -> Option<AbsoluteScheme> {
    if octets::lower(s) == octets::octets("http"@) {
        Some(AbsoluteScheme::Http)
    } else if octets::lower(s) == octets::octets("https"@) {
        Some(AbsoluteScheme::Https)
    } else {
        None
    }
}

/// The index of the first `/` or `?` at or after `i`, or the length.
pub open spec fn authority_end(s: Seq<u8>, i: int) -> int
    decreases s.len() - i,
{
    if i < 0 || i >= s.len() {
        s.len() as int
    } else if s[i] == '/' as u8 || s[i] == '?' as u8 {
        i
    } else {
        authority_end(s, i + 1)
    }
}

/// The target of an absolute-form request line.
pub open spec fn absolute_target(raw: Seq<u8>) -> TargetModel {
    let colon = octets::first_at(raw, ':' as u8, 0);
    let start = colon + 3;
    let end = authority_end(raw, start);
    if !uri_octets_from(raw, 0) || raw.contains('#' as u8) || colon >= raw.len() {
        TargetModel::Malformed
    } else if scheme_of(raw.subrange(0, colon)) is None {
        TargetModel::Malformed
    } else if start > raw.len() || raw[colon + 1] != '/' as u8 || raw[colon + 2] != '/' as u8 {
        TargetModel::Malformed
    } else {
        let authority = raw.subrange(start, end);
        let rest = raw.subrange(end, raw.len() as int);
        if authority.len() == 0 || (rest.len() > 0 && !is_absolute_path_and_query(rest)) {
            TargetModel::Malformed
        } else {
            authority_target(
                authority,
                scheme_of(raw.subrange(0, colon)),
                RequestKind::Http,
                rest,
            )
        }
    }
}

/// The target of a CONNECT request line.
pub open spec fn connect_target(raw: Seq<u8>) -> TargetModel {
    authority_target(raw, None, RequestKind::Connect, Seq::empty())
}

/// What a request line with this method and target asks for.
pub open spec fn target_of(method: Seq<u8>, raw: Seq<u8>) -> TargetModel {
    if method == octets::octets("CONNECT"@) {
        connect_target(raw)
    } else if raw == octets::octets("*"@) {
        TargetModel::Asterisk
    } else if raw.len() > 0 && raw[0] == '/' as u8 {
        if is_path_and_query(raw) {
            TargetModel::Direct(raw)
        } else {
            TargetModel::Malformed
        }
    } else {
        absolute_target(raw)
    }
}

fn uri_octet(b: u8) -> (r: bool)
    ensures
        r == is_uri_octet(b),
{
    alnum(b) || b == '!' as u8 || b == '$' as u8 || b == '&' as u8 || b == '\'' as u8 || b
        == '(' as u8 || b == ')' as u8 || b == '*' as u8 || b == '+' as u8 || b == ',' as u8 || b
        == '-' as u8 || b == '.' as u8 || b == '/' as u8 || b == ':' as u8 || b == ';' as u8 || b
        == '=' as u8 || b == '?' as u8 || b == '@' as u8 || b == '_' as u8 || b == '~' as u8 || b
        == '[' as u8 || b == ']' as u8
}

/// Whether the octets hold only allowed octets and complete percent escapes.
pub fn valid_uri_octets(value: &[u8]) -> (r: bool)
    ensures
        r == uri_octets_from(value@, 0),
{
    let mut index: usize = 0;
    while index < value.len()
        invariant
            uri_octets_from(value@, 0) == uri_octets_from(value@, index as int),
        decreases value.len() - index,
    {
        let byte: u8 = value[index];
        if byte == '%' as u8 {
            if value.len() - index <= 2 || !hex(value[index + 1]) || !hex(value[index + 2]) {
                return false;
            }
            index += 3;
            continue;
        }
        if !uri_octet(byte) {
            return false;
        }
        index += 1;
    }
    true
}

pub fn valid_path_and_query(value: &[u8]) -> (r: bool)
    ensures
        r == is_path_and_query(value@),
{
    !contains(value, '#' as u8) && !contains(value, '[' as u8) && !contains(value, ']' as u8)
        && valid_uri_octets(value)
}

pub fn valid_absolute_path_and_query(value: &[u8]) -> (r: bool)
    ensures
        r == is_absolute_path_and_query(value@),
{
    value.len() > 0 && (value[0] == '/' as u8 || value[0] == '?' as u8) && valid_path_and_query(
        value,
    )
}

fn breaks_authority(s: &[u8]) -> (r: bool)
    ensures
        r == has_authority_breaker(s@),
{
    let mut i: usize = 0;
    while i < s.len()
        invariant
            i <= s.len(),
            forall|j: int| 0 <= j < i ==> !is_authority_breaker(#[trigger] s@[j]),
        decreases s.len() - i,
    {
        let b: u8 = s[i];
        if b <= 32 || b == 127 || b == '@' as u8 || b == '/' as u8 || b == '?' as u8 || b
            == '#' as u8 {
            assert(is_authority_breaker(s@[i as int]));
            return true;
        }
        i += 1;
    }
    false
}

/// A host on this machine or off it.
pub enum ParsedHost {
    Local(LoopbackHost),
    Public(PublicHost),
}

pub struct ParsedAuthority {
    pub host: ParsedHost,
    pub port: u16,
    pub explicit_port: bool,
}

impl View for ParsedHost {
    type V = ParsedHostModel;

    open spec fn view(&self) -> ParsedHostModel {
        match self {
            ParsedHost::Local(host) => ParsedHostModel::Local(host@),
            ParsedHost::Public(host) => ParsedHostModel::Public(host@),
        }
    }
}

impl View for ParsedAuthority {
    type V = AuthorityModel;

    open spec fn view(&self) -> AuthorityModel {
        AuthorityModel {
            host: self.host@,
            port: self.port,
            explicit_port: self.explicit_port,
        }
    }
}

/// Reads the port that follows a host.
pub fn parse_authority_port(suffix: &[u8], default_port: Option<u16>, port_required: bool) -> (r:
    Option<(u16, bool)>)
    ensures
        r == suffix_port(suffix@, default_port, port_required),
{
    if suffix.len() > 0 && suffix[0] == ':' as u8 {
        match parse_port(part(suffix, 1, suffix.len())) {
            Ok(port) => Some((port, true)),
            Err(_) => None,
        }
    } else if suffix.len() == 0 && !port_required {
        match default_port {
            Some(port) => Some((port, false)),
            None => None,
        }
    } else {
        None
    }
}

fn parse_bracketed_host(h: &[u8]) -> (r: Option<ParsedHost>)
    ensures
        match r {
            Some(host) => bracketed_host(h@) == Some(host@) && (host@ matches ParsedHostModel::Local(
                l,
            ) ==> l !is Ipv4),
            None => bracketed_host(h@) is None,
        },
{
    if contains(h, '%' as u8) {
        return None;
    }
    match parse_ipv6(h) {
        None => None,
        Some(g) => {
            if ipv4_mapped(&g).is_some() {
                None
            } else if ipv6_loopback(&g) {
                Some(ParsedHost::Local(LoopbackHost::Ipv6Loopback))
            } else {
                Some(ParsedHost::Public(PublicHost::Ip(IpAddress::V6(g))))
            }
        },
    }
}

fn numeric(h: &[u8]) -> (r: bool)
    ensures
        r == is_numeric(h@),
{
    let mut i: usize = 0;
    while i < h.len()
        invariant
            i <= h.len(),
            forall|j: int|
                0 <= j < i ==> octets::is_digit(#[trigger] h@[j]) || h@[j] == '.' as u8,
        decreases h.len() - i,
    {
        if !digit(h[i]) && h[i] != '.' as u8 {
            assert(!octets::is_digit(h@[i as int]));
            return false;
        }
        i += 1;
    }
    true
}

fn parse_plain_host(h: &[u8]) -> (r: Option<ParsedHost>)
    ensures
        match r {
            Some(host) => plain_host(h@) == Some(host@) && (host@ matches ParsedHostModel::Local(
                LoopbackHostModel::Ipv4(o),
            ) ==> o.len() == 4 && o[0] == 127),
            None => plain_host(h@) is None,
        },
{
    match parse_ipv4(h) {
        Some(o) => {
            if o[0] == 127 {
                return Some(ParsedHost::Local(LoopbackHost::Ipv4(o)));
            }
            return Some(ParsedHost::Public(PublicHost::Ip(IpAddress::V4(o))));
        },
        None => {},
    }
    if numeric(h) {
        return None;
    }
    match DomainName::from_octets(h) {
        None => None,
        Some(name) => if is_text(name.as_octets(), "localhost") {
            Some(ParsedHost::Local(LoopbackHost::Localhost))
        } else {
            Some(ParsedHost::Public(PublicHost::Dns(name)))
        },
    }
}

/// Reads the host and port of an authority.
pub fn parse_authority(value: &[u8], default_port: Option<u16>, port_required: bool) -> (r: Option<
    ParsedAuthority,
>)
    ensures
        match r {
            Some(a) => {
                &&& authority_of(value@, default_port, port_required) == Some(a@)
                &&& a@.host matches ParsedHostModel::Local(LoopbackHostModel::Ipv4(o)) ==> o.len()
                    == 4 && o[0] == 127
            },
            None => authority_of(value@, default_port, port_required) is None,
        },
{
    if value.len() == 0 || !ascii(value) || breaks_authority(value) {
        return None;
    }
    if value[0] == '[' as u8 {
        let close: usize = find(value, ']' as u8, 1);
        if close >= value.len() {
            return None;
        }
        return match (
            parse_authority_port(
                part(value, close + 1, value.len()),
                default_port,
                port_required,
            ),
            parse_bracketed_host(part(value, 1, close)),
        ) {
            (Some((port, explicit_port)), Some(host)) => Some(
                ParsedAuthority { host, port, explicit_port },
            ),
            _ => None,
        };
    }
    let colon: usize = find(value, ':' as u8, 0);
    if contains(value, '[' as u8) || contains(value, ']' as u8) || colon == 0 {
        return None;
    }
    if colon < value.len() && find(value, ':' as u8, colon + 1) < value.len() {
        return None;
    }
    match (
        parse_authority_port(part(value, colon, value.len()), default_port, port_required),
        parse_plain_host(part(value, 0, colon)),
    ) {
        (Some((port, explicit_port)), Some(host)) => Some(
            ParsedAuthority { host, port, explicit_port },
        ),
        _ => None,
    }
}

/// The canonical authority of a public host, with the port where it was written out.
pub fn canonical_public_authority(host: &PublicHost, port: u16, explicit_port: bool) -> (r: Vec<u8>)
    ensures
        r@ == public_authority_text(host@, port, explicit_port),
{
    let mut out: Vec<u8> = match host {
        PublicHost::Ip(IpAddress::V6(g)) => {
            let mut name: Vec<u8> = Vec::new();
            name.push('[' as u8);
            append(&mut name, &ip::render_ipv6(g));
            name.push(']' as u8);
            assert(name@ =~= seq!['[' as u8] + ip::ipv6_text(g@) + seq![']' as u8]);
            name
        },
        _ => host.text(),
    };
    if explicit_port {
        out.push(':' as u8);
        append(&mut out, &render_decimal(port as u64));
    }
    out
}

/// The target that an authority stands for.
pub fn classify_authority(
    value: &[u8],
    scheme: Option<AbsoluteScheme>,
    kind: RequestKind,
    path_and_query: Vec<u8>,
) -> (r: Target)
    ensures
        r@ == authority_target(value@, scheme, kind, path_and_query@),
{
    let default_port: Option<u16> = match scheme {
        Some(AbsoluteScheme::Http) => Some(80),
        Some(AbsoluteScheme::Https) => Some(443),
        None => None,
    };
    let connect: bool = match kind {
        RequestKind::Http => false,
        RequestKind::Connect => true,
    };
    match parse_authority(value, default_port, connect) {
        None => Target::Malformed,
        Some(parsed) => {
            if let Some(AbsoluteScheme::Https) = scheme {
                return Target::HttpsAbsoluteRejected;
            }
            proof {
                lemma_authority_port(value@, default_port, connect);
            }
            match parsed.host {
                ParsedHost::Local(host) => {
                    let target = LocalTarget {
                        canonical_authority: LoopbackAuthority { host, port: parsed.port },
                        explicit_port: parsed.explicit_port,
                        path_and_query,
                    };
                    match kind {
                        RequestKind::Http => Target::LocalHttp(target),
                        RequestKind::Connect => Target::LocalConnect(target),
                    }
                },
                ParsedHost::Public(host) => {
                    let authority = canonical_public_authority(
                        &host,
                        parsed.port,
                        parsed.explicit_port,
                    );
                    let target = PublicTarget {
                        authority,
                        host,
                        port: parsed.port,
                        explicit_port: parsed.explicit_port,
                        path_and_query,
                    };
                    match kind {
                        RequestKind::Http => Target::PublicHttp(target),
                        RequestKind::Connect => Target::PublicConnect(target),
                    }
                },
            }
        },
    }
}

proof fn lemma_authority_port(v: Seq<u8>, default_port: Option<u16>, port_required: bool)
    requires
        default_port is Some ==> default_port->0 >= 1,
    ensures
        match authority_of(v, default_port, port_required) {
            Some(a) => a.port >= 1,
            None => true,
        },
{
}

fn known_scheme(s: &[u8]) -> (r: Option<AbsoluteScheme>)
    ensures
        r == scheme_of(s@),
{
    proof {
        reveal_strlit("http");
        reveal_strlit("https");
        is_ascii_chars_encode_utf8("http"@);
        is_ascii_chars_encode_utf8("https"@);
        assert(octets::lower(octets::octets("http"@)) =~= octets::octets("http"@));
        assert(octets::lower(octets::octets("https"@)) =~= octets::octets("https"@));
    }
    if equal_ignore_case(s, "http".as_bytes()) {
        Some(AbsoluteScheme::Http)
    } else if equal_ignore_case(s, "https".as_bytes()) {
        Some(AbsoluteScheme::Https)
    } else {
        None
    }
}

fn find_authority_end(s: &[u8], from: usize) -> (r: usize)
    requires
        from <= s@.len(),
    ensures
        r == authority_end(s@, from as int),
        from <= r <= s@.len(),
{
    let mut i: usize = from;
    while i < s.len()
        invariant
            from <= i <= s.len(),
            authority_end(s@, from as int) == authority_end(s@, i as int),
        decreases s.len() - i,
    {
        if s[i] == '/' as u8 || s[i] == '?' as u8 {
            return i;
        }
        i += 1;
    }
    i
}

/// The target of an absolute-form request line.
pub fn classify_absolute(raw_target: &[u8]) -> (r: Target)
    ensures
        r@ == absolute_target(raw_target@),
{
    if !valid_uri_octets(raw_target) || contains(raw_target, '#' as u8) {
        return Target::Malformed;
    }
    let colon: usize = find(raw_target, ':' as u8, 0);
    if colon >= raw_target.len() {
        return Target::Malformed;
    }
    let scheme: AbsoluteScheme = match known_scheme(part(raw_target, 0, colon)) {
        Some(scheme) => scheme,
        None => {
            return Target::Malformed;
        },
    };
    if raw_target.len() - colon < 3 || raw_target[colon + 1] != '/' as u8 || raw_target[colon + 2]
        != '/' as u8 {
        return Target::Malformed;
    }
    let start: usize = colon + 3;
    let end: usize = find_authority_end(raw_target, start);
    let authority = part(raw_target, start, end);
    let rest = part(raw_target, end, raw_target.len());
    if authority.len() == 0 || (rest.len() > 0 && !valid_absolute_path_and_query(rest)) {
        return Target::Malformed;
    }
    classify_authority(authority, Some(scheme), RequestKind::Http, copy(rest))
}

/// The target of a CONNECT request line.
pub fn classify_connect(raw_target: &[u8]) -> (r: Target)
    ensures
        r@ == connect_target(raw_target@),
{
    let none: Vec<u8> = Vec::new();
    assert(none@ =~= Seq::empty());
    classify_authority(raw_target, None, RequestKind::Connect, none)
}

/// What the octets of a request line ask for.
pub fn classify(method: &[u8], raw_target: &[u8]) -> (r: Target)
    ensures
        r@ == target_of(method@, raw_target@),
{
    if is_text(method, "CONNECT") {
        return classify_connect(raw_target);
    }
    if is_text(raw_target, "*") {
        return Target::Asterisk;
    }
    if raw_target.len() > 0 && raw_target[0] == '/' as u8 {
        return if valid_path_and_query(raw_target) {
            Target::Direct(DirectTarget { path_and_query: copy(raw_target) })
        } else {
            Target::Malformed
        };
    }
    classify_absolute(raw_target)
}

/// The parts of a parsed request URI.
#[derive(Debug)]
pub struct UriParts {
    pub scheme: Option<Vec<u8>>,
    pub authority: Option<Vec<u8>>,
    pub path_and_query: Option<Vec<u8>>,
}

pub struct UriModel {
    pub scheme: Option<Seq<u8>>,
    pub authority: Option<Seq<u8>>,
    pub path_and_query: Option<Seq<u8>>,
}

pub open spec fn optional_octets(v: Option<Vec<u8>>) -> Option<Seq<u8>> {
    match v {
        Some(v) => Some(v@),
        None => None,
    }
}

impl View for UriParts {
    type V = UriModel;

    open spec fn view(&self) -> UriModel {
        UriModel {
            scheme: optional_octets(self.scheme),
            authority: optional_octets(self.authority),
            path_and_query: optional_octets(self.path_and_query),
        }
    }
}

/// The target that the parts of a URI stand for. The parts of an absolute URI need a known scheme
/// and an authority.
pub open spec fn parts_target(method: Seq<u8>, parts: UriModel) -> TargetModel {
    if method == octets::octets("CONNECT"@) {
        match parts.authority {
            Some(authority) => if parts.scheme is None && parts.path_and_query is None {
                target_of(method, authority)
            } else {
                TargetModel::Malformed
            },
            None => TargetModel::Malformed,
        }
    } else if parts.scheme is None && parts.authority is None {
        match parts.path_and_query {
            Some(path) => target_of(method, path),
            None => TargetModel::Malformed,
        }
    } else {
        let path = match parts.path_and_query {
            Some(path) => path,
            None => Seq::empty(),
        };
        match (parts.scheme, parts.authority) {
            (Some(scheme), Some(authority)) => if scheme_of(scheme) is None || (path.len() > 0
                && !is_absolute_path_and_query(path)) {
                TargetModel::Malformed
            } else {
                authority_target(authority, scheme_of(scheme), RequestKind::Http, path)
            },
            _ => TargetModel::Malformed,
        }
    }
}

/// What the parts of a parsed URI ask for.
pub fn classify_parsed(method: &[u8], parts: UriParts) -> (r: Target)
    ensures
        r@ == parts_target(method@, parts@),
{
    if is_text(method, "CONNECT") {
        return match (&parts.scheme, &parts.authority, &parts.path_and_query) {
            (None, Some(authority), None) => classify(method, authority.as_slice()),
            _ => Target::Malformed,
        };
    }
    if parts.scheme.is_none() && parts.authority.is_none() {
        return match &parts.path_and_query {
            Some(value) => classify(method, value.as_slice()),
            None => Target::Malformed,
        };
    }
    let scheme: AbsoluteScheme = match &parts.scheme {
        Some(value) => match known_scheme(value.as_slice()) {
            Some(scheme) => scheme,
            None => {
                return Target::Malformed;
            },
        },
        None => {
            return Target::Malformed;
        },
    };
    let authority: &[u8] = match &parts.authority {
        Some(authority) => authority.as_slice(),
        None => {
            return Target::Malformed;
        },
    };
    let path_and_query: Vec<u8> = match &parts.path_and_query {
        Some(value) => copy(value.as_slice()),
        None => {
            let none: Vec<u8> = Vec::new();
            assert(none@ =~= Seq::empty());
            none
        },
    };
    if path_and_query.len() > 0 && !valid_absolute_path_and_query(path_and_query.as_slice()) {
        return Target::Malformed;
    }
    classify_authority(authority, Some(scheme), RequestKind::Http, path_and_query)
}

/// The parts that `http::Uri` finds in a text: the scheme, the authority, and the path with the
/// query. `None` where it accepts no such URI.
pub uninterp spec fn uri_parts_of(raw: Seq<u8>) -> Option<
    (Option<Seq<u8>>, Option<Seq<u8>>, Option<Seq<u8>>),
>;

/// The parts as `uri_parts_of` gives them.
pub open spec fn named_parts(parts: Option<UriParts>) -> Option<
    (Option<Seq<u8>>, Option<Seq<u8>>, Option<Seq<u8>>),
> {
    match parts {
        Some(parts) => Some((parts@.scheme, parts@.authority, parts@.path_and_query)),
        None => None,
    }
}

/// `http::Uri::try_from` with its accessors `scheme_str`, `authority` and `path_and_query`: parses
/// a text as a URI and takes it apart. What the parts are is named, not spelled out: the grammar is
/// the crate's own.
#[verifier::external_body]
fn uri_parts(raw: &[u8]) -> (r: Option<UriParts>)
    ensures
        named_parts(r) == uri_parts_of(raw@),
{
    match hyper::Uri::try_from(raw) {
        Ok(uri) => Some(
            UriParts {
                scheme: uri.scheme_str().map(|v| v.as_bytes().to_vec()),
                authority: uri.authority().map(|v| v.as_str().as_bytes().to_vec()),
                path_and_query: uri.path_and_query().map(|v| v.as_str().as_bytes().to_vec()),
            },
        ),
        Err(_) => None,
    }
}

/// Parses a URI and says what it asks for. What is no URI is malformed.
pub fn classify_uri(method: &[u8], raw: &[u8]) -> (r: Target)
    ensures
        r@ == (match uri_parts_of(raw@) {
            Some((scheme, authority, path_and_query)) => parts_target(
                method@,
                (UriModel { scheme, authority, path_and_query }),
            ),
            None => TargetModel::Malformed,
        }),
{
    match uri_parts(raw) {
        Some(parts) => classify_parsed(method, parts),
        None => Target::Malformed,
    }
}

/// A host off this machine in canonical form: a name other than `localhost` that is no number, or
/// an address that is neither loopback nor an IPv4 address in disguise.
pub open spec fn is_public_host(h: HostModel) -> bool {
    match h {
        HostModel::Dns(name) => policy::dns_name_of(name) == Some(name) && !is_numeric(name) && name
            != octets::octets("localhost"@),
        HostModel::Ip(IpModel::V4(o)) => o.len() == 4 && o[0] != 127,
        HostModel::Ip(IpModel::V6(g)) => g.len() == 8 && !ip::is_ipv4_mapped(g)
            && !ip::is_ipv6_loopback(g),
    }
}

/// A public target names a host off this machine in canonical form, a port that is not zero, and
/// the canonical authority of the two. Whatever names this machine is local or malformed.
pub proof fn a_public_target_is_no_loopback(
    v: Seq<u8>,
    scheme: Option<AbsoluteScheme>,
    kind: RequestKind,
    path: Seq<u8>,
)
    ensures
        match authority_target(v, scheme, kind, path) {
            TargetModel::PublicHttp(t) => is_public_host(t.host) && t.port >= 1 && t.authority
                == public_authority_text(t.host, t.port, t.explicit_port),
            TargetModel::PublicConnect(t) => is_public_host(t.host) && t.port >= 1 && t.authority
                == public_authority_text(t.host, t.port, t.explicit_port) && t.explicit_port,
            TargetModel::LocalHttp(t) => is_loopback(t.authority),
            TargetModel::LocalConnect(t) => is_loopback(t.authority) && t.explicit_port,
            _ => true,
        },
{
    let default_port = scheme_port(scheme);
    let connect = kind == RequestKind::Connect;
    lemma_authority_port(v, default_port, connect);
    match authority_of(v, default_port, connect) {
        Some(a) => {
            if v[0] == '[' as u8 {
                let close = octets::first_at(v, ']' as u8, 1);
                let h = v.subrange(1, close);
                lemma_ipv6_of_len(h);
            } else {
                let colon = octets::first_at(v, ':' as u8, 0);
                let h = v.subrange(0, colon);
                lemma_ipv4_of_len(h);
                if ip::ipv4_of(h) is None && !is_numeric(h) && policy::dns_name_of(h) is Some {
                    lemma_canonical_name(h);
                }
            }
        },
        None => {},
    }
}

proof fn lemma_ipv4_of_len(h: Seq<u8>)
    ensures
        ip::ipv4_of(h) matches Some(o) ==> o.len() == 4,
{
}

proof fn lemma_ipv6_of_len(h: Seq<u8>)
    ensures
        ip::ipv6_of(h) matches Some(g) ==> g.len() == 8,
{
}

/// The labels of a name in lower case are its labels in lower case.
pub proof fn lemma_lower_labels(s: Seq<u8>)
    ensures
        octets::pieces(octets::lower(s), '.' as u8).len() == octets::pieces(s, '.' as u8).len(),
        forall|i: int|
            0 <= i < octets::pieces(s, '.' as u8).len() ==> #[trigger] octets::pieces(
                octets::lower(s),
                '.' as u8,
            )[i] == octets::lower(octets::pieces(s, '.' as u8)[i]),
    decreases s.len(),
{
    let dot = '.' as u8;
    let l = octets::lower(s);
    let at = octets::first_at(s, dot, 0);
    octets::lemma_first_at(s, dot, 0);
    octets::lemma_first_at_is(l, dot, 0, at);
    if at < s.len() {
        let rest = s.subrange(at + 1, s.len() as int);
        lemma_lower_labels(rest);
        assert(l.subrange(at + 1, l.len() as int) =~= octets::lower(rest));
        assert(l.subrange(0, at) =~= octets::lower(s.subrange(0, at)));
        let a = octets::pieces(s, dot);
        let b = octets::pieces(l, dot);
        assert(a == seq![s.subrange(0, at)] + octets::pieces(rest, dot));
        assert(b == seq![l.subrange(0, at)] + octets::pieces(octets::lower(rest), dot));
        assert forall|i: int| 0 <= i < a.len() implies #[trigger] b[i] == octets::lower(a[i]) by {
            if i > 0 {
                assert(a[i] == octets::pieces(rest, dot)[i - 1]);
                assert(b[i] == octets::pieces(octets::lower(rest), dot)[i - 1]);
            }
        }
    } else {
        assert(octets::pieces(s, dot) =~= seq![s]);
        assert(octets::pieces(l, dot) =~= seq![l]);
    }
}

/// A name whose labels are valid is not empty and does not end in a dot.
proof fn lemma_name_ends(s: Seq<u8>)
    requires
        forall|i: int|
            0 <= i < octets::pieces(s, '.' as u8).len() ==> (#[trigger] octets::pieces(
                s,
                '.' as u8,
            )[i]).len() > 0,
    ensures
        s.len() > 0,
        s.last() != '.' as u8,
    decreases s.len(),
{
    let dot = '.' as u8;
    let at = octets::first_at(s, dot, 0);
    octets::lemma_first_at(s, dot, 0);
    let a = octets::pieces(s, dot);
    if at < s.len() {
        let rest = s.subrange(at + 1, s.len() as int);
        assert(a == seq![s.subrange(0, at)] + octets::pieces(rest, dot));
        let b = octets::pieces(rest, dot);
        assert forall|i: int| 0 <= i < b.len() implies (#[trigger] b[i]).len() > 0 by {
            assert(a[i + 1] == b[i]);
        }
        lemma_name_ends(rest);
    } else {
        assert(a =~= seq![s]);
        assert(a[0].len() > 0);
    }
}

/// The canonical form of a name is its own canonical form, and is no number where the name is none.
proof fn lemma_canonical_name(h: Seq<u8>)
    requires
        policy::dns_name_of(h) is Some,
        !is_numeric(h),
    ensures
        policy::dns_name_of(policy::dns_name_of(h)->0) == policy::dns_name_of(h),
        !is_numeric(policy::dns_name_of(h)->0),
{
    let dot = '.' as u8;
    let s = policy::without_root_dot(h);
    let name = octets::lower(s);
    let a = octets::pieces(s, dot);
    let b = octets::pieces(name, dot);
    lemma_lower_labels(s);
    assert forall|i: int| 0 <= i < b.len() implies policy::dns_label(#[trigger] b[i]) by {
        assert(policy::dns_label(a[i]));
        assert(b[i] == octets::lower(a[i]));
        let l = a[i];
        assert forall|j: int| 0 <= j < b[i].len() implies octets::is_alnum(#[trigger] b[i][j]) || b[i][j]
            == '-' as u8 by {
            assert(octets::is_alnum(l[j]) || l[j] == '-' as u8);
        }
        assert(octets::is_alnum(l[0]) || l[0] == '-' as u8);
        assert(octets::is_alnum(l[l.len() - 1]) || l[l.len() - 1] == '-' as u8);
    }
    assert(policy::valid_dns_name(name));
    assert forall|i: int| 0 <= i < b.len() implies (#[trigger] b[i]).len() > 0 by {
        assert(policy::dns_label(b[i]));
    }
    lemma_name_ends(name);
    assert(policy::without_root_dot(name) == name);
    assert(octets::lower(name) =~= name);
    let k = choose|k: int|
        0 <= k < h.len() && !(octets::is_digit(#[trigger] h[k]) || h[k] == dot);
    assert(k < s.len());
    assert(!(octets::is_digit(name[k]) || name[k] == dot));
}

/// The octets of a canonical name.
pub proof fn lemma_canonical_octets(name: Seq<u8>)
    requires
        policy::dns_name_of(name) == Some(name),
    ensures
        name.len() > 0,
        forall|i: int|
            0 <= i < name.len() ==> octets::is_alnum(#[trigger] name[i]) || name[i] == '-' as u8
                || name[i] == '.' as u8,
{
    let s = policy::without_root_dot(name);
    let a = octets::pieces(s, '.' as u8);
    assert forall|i: int| 0 <= i < a.len() implies (#[trigger] a[i]).len() > 0 by {
        assert(policy::dns_label(a[i]));
    }
    lemma_name_ends(s);
    lemma_label_octets(s);
}

pub proof fn lemma_label_octets(s: Seq<u8>)
    requires
        forall|i: int|
            0 <= i < octets::pieces(s, '.' as u8).len() ==> policy::dns_label(
                #[trigger] octets::pieces(s, '.' as u8)[i],
            ),
    ensures
        forall|i: int|
            0 <= i < s.len() ==> octets::is_alnum(#[trigger] s[i]) || s[i] == '-' as u8 || s[i]
                == '.' as u8,
    decreases s.len(),
{
    let dot = '.' as u8;
    let at = octets::first_at(s, dot, 0);
    octets::lemma_first_at(s, dot, 0);
    let a = octets::pieces(s, dot);
    if at < s.len() {
        let head = s.subrange(0, at);
        let rest = s.subrange(at + 1, s.len() as int);
        assert(a == seq![head] + octets::pieces(rest, dot));
        let b = octets::pieces(rest, dot);
        assert forall|i: int| 0 <= i < b.len() implies policy::dns_label(#[trigger] b[i]) by {
            assert(a[i + 1] == b[i]);
        }
        lemma_label_octets(rest);
        assert(policy::dns_label(a[0]));
        assert forall|i: int| 0 <= i < s.len() implies (octets::is_alnum(#[trigger] s[i]) || s[i]
            == '-' as u8 || s[i] == dot) by {
            if i < at {
                assert(s[i] == a[0][i]);
            } else if i > at {
                assert(s[i] == rest[i - at - 1]);
            }
        }
    } else {
        assert(a =~= seq![s]);
        assert(policy::dns_label(a[0]));
    }
}

/// Reading the canonical authority of a public host gives the host and the port back. A port that
/// is left out is the default one.
pub proof fn a_canonical_authority_reads_back(
    host: HostModel,
    port: u16,
    explicit_port: bool,
    default_port: Option<u16>,
    port_required: bool,
)
    requires
        is_public_host(host),
        port >= 1,
        explicit_port || (default_port == Some(port) && !port_required),
    ensures
        authority_of(
            public_authority_text(host, port, explicit_port),
            default_port,
            port_required,
        ) == Some(AuthorityModel { host: ParsedHostModel::Public(host), port, explicit_port }),
{
    let v = public_authority_text(host, port, explicit_port);
    let digits = octets::digits_of(port as nat);
    octets::lemma_digits_of(port as nat);
    let suffix = if explicit_port {
        seq![':' as u8] + digits
    } else {
        Seq::empty()
    };
    if explicit_port {
        assert(suffix.subrange(1, suffix.len() as int) =~= digits);
    }
    assert(suffix_port(suffix, default_port, port_required) == Some((port, explicit_port)));
    match host {
        HostModel::Ip(IpModel::V6(g)) => {
            let t = ip::ipv6_text(g);
            ip::ipv6_text_reads_back(g);
            ip::lemma_ip_text_plain(IpModel::V6(g));
            assert(v =~= seq!['[' as u8] + t + seq![']' as u8] + suffix);
            let close = t.len() as int + 1;
            assert forall|i: int| 0 <= i < t.len() implies t[i] != ']' as u8 && t[i] != '%' as u8
                && !is_authority_breaker(t[i]) && t[i] < 128 by {
                assert(ip::is_address_octet(ip::ip_text(IpModel::V6(g))[i]));
            }
            assert forall|i: int| 1 <= i < close implies v[i] != ']' as u8 by {
                assert(v[i] == t[i - 1]);
            }
            octets::lemma_first_at_is(v, ']' as u8, 1, close);
            assert(v.subrange(1, close) =~= t);
            assert(v.subrange(close + 1, v.len() as int) =~= suffix);
            assert forall|i: int| 0 <= i < v.len() implies !is_authority_breaker(#[trigger] v[i])
                && v[i] < 128 by {
                if 1 <= i < close {
                    assert(v[i] == t[i - 1]);
                } else if i > close + 1 {
                    assert(v[i] == digits[i - close - 2]);
                    assert(octets::is_digit(digits[i - close - 2]));
                }
            }
        },
        _ => {
            let name = host_text(host);
            match host {
                HostModel::Dns(n) => {
                    lemma_canonical_octets(n);
                },
                HostModel::Ip(a) => {
                    ip::lemma_ip_text_plain(a);
                },
            }
            assert(v =~= name + suffix);
            let colon = name.len() as int;
            assert forall|i: int| 0 <= i < name.len() implies (octets::is_alnum(#[trigger] name[i])
                || name[i] == '-' as u8 || name[i] == '.' as u8) by {
                match host {
                    HostModel::Dns(n) => {},
                    HostModel::Ip(a) => {
                        assert(octets::is_digit(ip::ip_text(a)[i]) || ip::ip_text(a)[i]
                            == '.' as u8);
                    },
                }
            }
            assert forall|i: int| 0 <= i < v.len() implies !is_authority_breaker(#[trigger] v[i])
                && v[i] < 128 && v[i] != '[' as u8 && v[i] != ']' as u8 && (i != colon ==> v[i]
                != ':' as u8) by {
                if i < colon {
                    assert(v[i] == name[i]);
                } else if i > colon {
                    assert(v[i] == digits[i - colon - 1]);
                    assert(octets::is_digit(digits[i - colon - 1]));
                }
            }
            octets::lemma_first_at_is(v, ':' as u8, 0, colon);
            if explicit_port {
                octets::lemma_first_at_is(v, ':' as u8, colon + 1, v.len() as int);
            }
            assert(v.subrange(0, colon) =~= name);
            assert(v.subrange(colon, v.len() as int) =~= suffix);
            match host {
                HostModel::Dns(n) => {
                    assert(ip::ipv4_of(n) is None) by {
                        if ip::ipv4_of(n) is Some {
                            lemma_quad_is_numeric(n);
                        }
                    }
                },
                HostModel::Ip(IpModel::V4(o)) => {
                    ip::ipv4_text_reads_back(o);
                },
                _ => {},
            }
        },
    }
}

/// A dotted quad is a numeric spelling.
pub proof fn lemma_quad_is_numeric(h: Seq<u8>)
    requires
        ip::ipv4_of(h) is Some,
    ensures
        is_numeric(h),
{
    let p = octets::pieces(h, '.' as u8);
    assert forall|i: int| 0 <= i < p.len() implies octets::all_digits(#[trigger] p[i]) by {
        assert(ip::octet_value(p[i]) is Some);
    }
    lemma_digit_pieces(h);
}

proof fn lemma_digit_pieces(h: Seq<u8>)
    requires
        forall|i: int|
            0 <= i < octets::pieces(h, '.' as u8).len() ==> octets::all_digits(
                #[trigger] octets::pieces(h, '.' as u8)[i],
            ),
    ensures
        is_numeric(h),
    decreases h.len(),
{
    let dot = '.' as u8;
    let at = octets::first_at(h, dot, 0);
    octets::lemma_first_at(h, dot, 0);
    let a = octets::pieces(h, dot);
    if at < h.len() {
        let head = h.subrange(0, at);
        let rest = h.subrange(at + 1, h.len() as int);
        assert(a == seq![head] + octets::pieces(rest, dot));
        let b = octets::pieces(rest, dot);
        assert forall|i: int| 0 <= i < b.len() implies octets::all_digits(#[trigger] b[i]) by {
            assert(a[i + 1] == b[i]);
        }
        lemma_digit_pieces(rest);
        assert(octets::all_digits(a[0]));
        assert forall|i: int| 0 <= i < h.len() implies (octets::is_digit(#[trigger] h[i]) || h[i]
            == dot) by {
            if i < at {
                assert(h[i] == a[0][i]);
            } else if i > at {
                assert(h[i] == rest[i - at - 1]);
            }
        }
    } else {
        assert(a =~= seq![h]);
        assert(octets::all_digits(a[0]));
    }
}

/// Only a CONNECT request leads to a tunnel, and a CONNECT request to nothing else.
pub proof fn connect_and_http_targets_stay_apart(method: Seq<u8>, raw: Seq<u8>)
    ensures
        method == octets::octets("CONNECT"@) ==> (match target_of(method, raw) {
            TargetModel::PublicConnect(_) | TargetModel::LocalConnect(_) | TargetModel::Malformed =>
                true,
            _ => false,
        }),
        method != octets::octets("CONNECT"@) ==> !(target_of(method, raw) is PublicConnect) && !(
        target_of(method, raw) is LocalConnect),
{
}

} // verus!
