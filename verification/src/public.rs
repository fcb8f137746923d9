//! Address checks and outbound requests of the text-based public connector.
use crate::fields;
use crate::fields::remove;
use crate::headers;
use crate::ip;
use crate::ip::{ipv4_mapped, ipv6_loopback, IpAddress};
use crate::octets;
use crate::octets::copy;
use crate::target::PublicTarget;
use crate::text::{same_text, string_of, characters};
use crate::unique::Same;
use hyper::HeaderMap;
use vstd::prelude::*;
use vstd::utf8::*;

verus! {

/// How long a resolution may take, in milliseconds.
pub const RESOLVE_TIMEOUT: u64 = 10_000;

/// How long a dial may take, in milliseconds.
pub const DIAL_TIMEOUT: u64 = 10_000;

/// How long an origin may take for a response, in milliseconds.
pub const HTTP_TIMEOUT: u64 = 30_000;

/// The most octets of a response body that is collected.
pub const MAX_RESPONSE_BYTES: usize = 8_388_608;

/// The identity of a public origin for a connection pool.
#[derive(Debug, Clone, PartialEq, Eq, Hash)]
pub struct OriginKey {
    secure: bool,
    host: String,
    port: u16,
}

impl View for OriginKey {
    type V = (bool, Seq<char>, u16);

    closed spec fn view(&self) -> (bool, Seq<char>, u16) {
        (self.secure, self.host@, self.port)
    }
}

impl OriginKey {
    pub fn from_target(target: &PublicTarget) -> (r: OriginKey)
        ensures
            r@ == (target@.secure, target@.host, target@.port),
    {
        OriginKey {
            secure: target.secure(),
            host: string_of(characters(target.host()).as_slice()),
            port: target.port(),
        }
    }

    pub fn scheme(&self) -> (r: &'static str)
        ensures
            r@ == (if self@.0 {
                "https"@
            } else {
                "http"@
            }),
    {
        if self.secure {
            "https"
        } else {
            "http"
        }
    }

    pub fn host(&self) -> (r: &str)
        ensures
            r@ == self@.1,
    {
        self.host.as_str()
    }

    pub fn port(&self) -> (r: u16)
        ensures
            r == self@.2,
    {
        self.port
    }
}

impl Same for OriginKey {
    fn same(&self, other: &OriginKey) -> (r: bool) {
        self.secure == other.secure && self.port == other.port && same_text(
            self.host.as_str(),
            other.host.as_str(),
        )
    }
}

/// Why the answers of a resolution cannot be used.
#[derive(Debug, Clone, Copy, PartialEq, Eq, Structural)]
pub enum AnswerError {
    Rejected,
    NoAddresses,
}

impl AnswerError {
    pub fn message(&self) -> (r: &'static str)
        ensures
            r@ == (match self {
                AnswerError::Rejected => "public address rejected"@,
                AnswerError::NoAddresses => "public name returned no addresses"@,
            }),
    {
        match self {
            AnswerError::Rejected => "public address rejected",
            AnswerError::NoAddresses => "public name returned no addresses",
        }
    }
}

/// An address that carries an IPv4 address stands for that address.
pub open spec fn canonical(a: ip::IpModel) -> ip::IpModel {
    match a {
        ip::IpModel::V6(g) => if ip::is_ipv4_mapped(g) {
            ip::IpModel::V4(ip::mapped_octets(g))
        } else {
            a
        },
        ip::IpModel::V4(_) => a,
    }
}

/// The shared address space 100.64.0.0/10.
pub open spec fn is_shared_space(o: Seq<u8>) -> bool {
    o[0] == 100 && 64 <= o[1] < 128
}

/// An address outside loopback, private, unspecified, link local, multicast, shared and unique
/// local space.
pub open spec fn is_public_address(a: ip::IpModel) -> bool {
    match a {
        ip::IpModel::V4(o) => {
            &&& o[0] != 127
            &&& o[0] != 10
            &&& !(o[0] == 172 && 16 <= o[1] < 32)
            &&& !(o[0] == 192 && o[1] == 168)
            &&& !(o[0] == 0 && o[1] == 0 && o[2] == 0 && o[3] == 0)
            &&& !(o[0] == 169 && o[1] == 254)
            &&& !(224 <= o[0] < 240)
            &&& !is_shared_space(o)
        },
        ip::IpModel::V6(g) => {
            &&& !ip::is_ipv6_loopback(g)
            &&& g != ip::zeros(8)
            &&& !(0xfe80 <= g[0] < 0xfec0)
            &&& g[0] < 0xff00
            &&& !(0xfc00 <= g[0] < 0xfe00)
        },
    }
}

/// The canonical form of an address.
pub fn canonical_ip(address: IpAddress) -> (r: IpAddress)
    ensures
        r@ == canonical(address@),
{
    match &address {
        IpAddress::V6(g) => match ipv4_mapped(g) {
            Some(o) => IpAddress::V4(o),
            None => address,
        },
        IpAddress::V4(_) => address,
    }
}

/// Whether an IPv4 address lies in the shared address space.
pub fn is_shared(o: &[u8; 4]) -> (r: bool)
    ensures
        r == is_shared_space(o@),
{
    o[0] == 100 && 64 <= o[1] && o[1] < 128
}

fn unspecified(g: &[u16; 8]) -> (r: bool)
    ensures
        r == (g@ == ip::zeros(8)),
{
    let r: bool = g[0] == 0 && g[1] == 0 && g[2] == 0 && g[3] == 0 && g[4] == 0 && g[5] == 0 && g[6]
        == 0 && g[7] == 0;
    proof {
        if r {
            assert(g@ =~= ip::zeros(8));
        } else if g@ == ip::zeros(8) {
            assert(forall|i: int| 0 <= i < 8 ==> g@[i] == 0);
        }
    }
    r
}

/// Whether an address is public.
pub fn is_public(address: &IpAddress) -> (r: bool)
    ensures
        r == is_public_address(address@),
{
    match address {
        IpAddress::V4(o) => {
            o[0] != 127 && o[0] != 10 && !(o[0] == 172 && 16 <= o[1] && o[1] < 32) && !(o[0] == 192
                && o[1] == 168) && !(o[0] == 0 && o[1] == 0 && o[2] == 0 && o[3] == 0) && !(o[0]
                == 169 && o[1] == 254) && !(224 <= o[0] && o[0] < 240) && !is_shared(o)
        },
        IpAddress::V6(g) => {
            !ipv6_loopback(g) && !unspecified(g) && !(0xfe80 <= g[0] && g[0] < 0xfec0) && g[0]
                < 0xff00 && !(0xfc00 <= g[0] && g[0] < 0xfe00)
        },
    }
}

/// The address that is dialled for a list of answers: the first, where all of them are public.
pub open spec fn first_answer(answers: Seq<IpAddress>) -> Result<ip::IpModel, AnswerError> {
    if exists|i: int|
        0 <= i < answers.len() && !is_public_address(canonical((#[trigger] answers[i])@)) {
        Err(AnswerError::Rejected)
    } else if answers.len() == 0 {
        Err(AnswerError::NoAddresses)
    } else {
        Ok(canonical(answers[0]@))
    }
}

/// Judges the answers of a resolution and picks the one that is dialled.
pub fn validated_answers(answers: &[IpAddress]) -> (r: Result<IpAddress, AnswerError>)
    ensures
        match r {
            Ok(address) => first_answer(answers@) == Ok::<ip::IpModel, AnswerError>(address@),
            Err(error) => first_answer(answers@) == Err::<ip::IpModel, AnswerError>(error),
        },
{
    let mut i: usize = 0;
    while i < answers.len()
        invariant
            i <= answers.len(),
            forall|j: int|
                0 <= j < i ==> is_public_address(canonical((#[trigger] answers@[j])@)),
        decreases answers.len() - i,
    {
        if !is_public(&canonical_ip(answers[i])) {
            assert(!is_public_address(canonical(answers@[i as int]@)));
            return Err(AnswerError::Rejected);
        }
        i += 1;
    }
    if answers.len() == 0 {
        return Err(AnswerError::NoAddresses);
    }
    Ok(canonical_ip(answers[0]))
}

/// An address is dialled only if every answer was public, and it is public itself.
pub proof fn a_dialled_answer_is_public(answers: Seq<IpAddress>)
    ensures
        first_answer(answers) matches Ok(address) ==> is_public_address(address) && forall|i: int|
            0 <= i < answers.len() ==> is_public_address(canonical((#[trigger] answers[i])@)),
{
    if answers.len() > 0 && first_answer(answers) is Ok {
        assert(is_public_address(canonical(answers[0]@)));
    }
}

pub open spec fn proxy_connection_name() -> Seq<u8> {
    octets::octets("proxy-connection"@)
}

pub open spec fn proxy_authorization_name() -> Seq<u8> {
    octets::octets("proxy-authorization"@)
}

/// Makes a request fit for a public origin: the two fields that are for the proxy leave, and the
/// target is the path alone.
pub fn outbound_request(headers: &mut HeaderMap, path_and_query: Option<&[u8]>) -> (r: Vec<u8>)
    ensures
        r@ == (match path_and_query {
            Some(path) => path@,
            None => octets::octets("/"@),
        }),
        fields::contents(*final(headers)) == fields::removed(
            fields::removed(fields::contents(*old(headers)), proxy_connection_name()),
            proxy_authorization_name(),
        ),
{
    proof {
        reveal_strlit("proxy-connection");
        reveal_strlit("proxy-authorization");
        headers::lemma_plain_name("proxy-connection"@);
        headers::lemma_plain_name("proxy-authorization"@);
    }
    remove(headers, "proxy-connection".as_bytes());
    remove(headers, "proxy-authorization".as_bytes());
    match path_and_query {
        Some(path) => copy(path),
        None => copy("/".as_bytes()),
    }
}

/// A body that is collected up to a limit.
#[derive(Debug)]
pub struct Collected {
    bytes: Vec<u8>,
    limit: usize,
}

impl View for Collected {
    type V = Seq<u8>;

    closed spec fn view(&self) -> Seq<u8> {
        self.bytes@
    }
}

impl Collected {
    #[verifier::type_invariant]
    spec fn well_formed(self) -> bool {
        self.bytes@.len() <= self.limit
    }

    pub closed spec fn spec_limit(&self) -> nat {
        self.limit as nat
    }

    pub fn new(limit: usize) -> (r: Collected)
        ensures
            r@ == Seq::<u8>::empty(),
            r.spec_limit() == limit,
    {
        Collected { bytes: Vec::new(), limit }
    }

    /// Takes a further frame of data. A frame that would exceed the limit is refused.
    pub fn push(&mut self, data: &[u8]) -> (r: bool)
        ensures
            r == (old(self)@.len() + data@.len() <= old(self).spec_limit()),
            final(self)@ == (if r {
                old(self)@ + data@
            } else {
                old(self)@
            }),
            final(self).spec_limit() == old(self).spec_limit(),
    {
        proof {
            use_type_invariant(&*self);
        }
        if data.len() > self.limit - self.bytes.len() {
            return false;
        }
        let mut bytes: Vec<u8> = Vec::new();
        std::mem::swap(&mut bytes, &mut self.bytes);
        octets::append(&mut bytes, data);
        self.bytes = bytes;
        true
    }

    pub fn into_bytes(self) -> (r: Vec<u8>)
        ensures
            r@ == self@,
            r@.len() <= self.spec_limit(),
    {
        proof {
            use_type_invariant(&self);
        }
        self.bytes
    }
}

/// All data frames of a body together.
pub open spec fn joined_frames(frames: Seq<Vec<u8>>) -> Seq<u8>
    decreases frames.len(),
{
    if frames.len() == 0 {
        Seq::empty()
    } else {
        joined_frames(frames.drop_last()) + frames.last()@
    }
}

/// Collects the data frames of a body, where they fit within the limit.
pub fn collect_limited(frames: &[Vec<u8>], limit: usize) -> (r: Option<Vec<u8>>)
    ensures
        match r {
            Some(bytes) => bytes@ == joined_frames(frames@) && bytes@.len() <= limit,
            None => joined_frames(frames@).len() > limit,
        },
{
    let mut out: Collected = Collected::new(limit);
    let mut i: usize = 0;
    assert(frames@.take(0) =~= Seq::empty());
    while i < frames.len()
        invariant
            i <= frames.len(),
            out@ == joined_frames(frames@.take(i as int)),
            out.spec_limit() == limit,
        decreases frames.len() - i,
    {
        proof {
            let next = frames@.take(i + 1);
            assert(next.drop_last() =~= frames@.take(i as int));
            lemma_joined_prefix(frames@, i + 1);
        }
        if !out.push(frames[i].as_slice()) {
            return None;
        }
        i += 1;
    }
    assert(frames@.take(i as int) =~= frames@);
    Some(out.into_bytes())
}

proof fn lemma_joined_prefix(frames: Seq<Vec<u8>>, i: int)
    requires
        0 <= i <= frames.len(),
    ensures
        joined_frames(frames.take(i)).len() <= joined_frames(frames).len(),
    decreases frames.len(),
{
    if i == frames.len() {
        assert(frames.take(i) =~= frames);
    } else {
        lemma_joined_prefix(frames.drop_last(), i);
        assert(frames.drop_last().take(i) =~= frames.take(i));
    }
}

} // verus!
