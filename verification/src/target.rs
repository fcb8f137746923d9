//! Request-target classification on text, with no connector capability.
use crate::boundary;
use crate::boundary::normalize_domain_host;
use crate::domain::target;
use crate::domain::target::{parse_port, LoopbackAuthority};
use crate::octets;
use crate::text;
use crate::text::{ascii_octets, characters, find_char, has_char, string_of};
use vstd::prelude::*;
use vstd::slice::*;
use vstd::utf8::*;

verus! {

/// What a request asks for.
#[derive(Debug, Clone, PartialEq, Eq)]
pub enum Target {
    PublicHttp(PublicTarget),
    PublicConnect(PublicTarget),
    LocalHttp(LocalTarget),
    LocalConnect(LocalTarget),
    Direct(String),
    Malformed,
}

/// A normalized public name and port.
#[derive(Debug, Clone, PartialEq, Eq)]
pub struct PublicTarget {
    authority: String,
    host: String,
    port: u16,
    secure: bool,
}

/// A canonical local authority and request scheme.
#[derive(Debug, Clone, PartialEq, Eq)]
pub struct LocalTarget {
    authority: String,
    canonical_authority: LoopbackAuthority,
    secure: bool,
}

pub struct PublicModel {
    pub authority: Seq<char>,
    pub host: Seq<char>,
    pub port: u16,
    pub secure: bool,
}

pub struct LocalModel {
    pub authority: Seq<char>,
    pub canonical: target::LoopbackModel,
    pub secure: bool,
}

pub enum TargetModel {
    PublicHttp(PublicModel),
    PublicConnect(PublicModel),
    LocalHttp(LocalModel),
    LocalConnect(LocalModel),
    Direct(Seq<char>),
    Malformed,
}

impl View for PublicTarget {
    type V = PublicModel;

    closed spec fn view(&self) -> PublicModel {
        PublicModel {
            authority: self.authority@,
            host: self.host@,
            port: self.port,
            secure: self.secure,
        }
    }
}

impl View for LocalTarget {
    type V = LocalModel;

    closed spec fn view(&self) -> LocalModel {
        LocalModel {
            authority: self.authority@,
            canonical: self.canonical_authority@,
            secure: self.secure,
        }
    }
}

impl View for Target {
    type V = TargetModel;

    open spec fn view(&self) -> TargetModel {
        match self {
            Target::PublicHttp(t) => TargetModel::PublicHttp(t@),
            Target::PublicConnect(t) => TargetModel::PublicConnect(t@),
            Target::LocalHttp(t) => TargetModel::LocalHttp(t@),
            Target::LocalConnect(t) => TargetModel::LocalConnect(t@),
            Target::Direct(path) => TargetModel::Direct(path@),
            Target::Malformed => TargetModel::Malformed,
        }
    }
}

impl PublicTarget {
    /// The authority as it was written.
    pub fn authority(&self) -> (r: &str)
        ensures
            r@ == self@.authority,
    {
        self.authority.as_str()
    }

    /// The normalized name.
    pub fn host(&self) -> (r: &str)
        ensures
            r@ == self@.host,
    {
        self.host.as_str()
    }

    pub fn port(&self) -> (r: u16)
        ensures
            r == self@.port,
    {
        self.port
    }

    pub fn secure(&self) -> (r: bool)
        ensures
            r == self@.secure,
    {
        self.secure
    }
}

impl LocalTarget {
    /// The authority as it was written.
    pub fn authority(&self) -> (r: &str)
        ensures
            r@ == self@.authority,
    {
        self.authority.as_str()
    }

    pub fn canonical_authority(&self) -> (r: &LoopbackAuthority)
        ensures
            r@ == self@.canonical,
    {
        &self.canonical_authority
    }

    pub fn secure(&self) -> (r: bool)
        ensures
            r == self@.secure,
    {
        self.secure
    }
}

/// The rest of a text behind a prefix.
pub open spec fn behind(s: Seq<char>, prefix: Seq<char>) -> Option<Seq<char>> {
    if prefix.len() <= s.len() && s.subrange(0, prefix.len() as int) == prefix {
        Some(s.subrange(prefix.len() as int, s.len() as int))
    } else {
        None
    }
}

/// The index of the last `c` before `end`, or a negative number.
pub open spec fn last_char(s: Seq<char>, c: char, end: int) -> int
    decreases end,
{
    if end <= 0 || end > s.len() {
        -1
    } else if s[end - 1] == c {
        end - 1
    } else {
        last_char(s, c, end - 1)
    }
}

/// The port that a text spells.
pub open spec fn port_of(s: Seq<char>) -> Option<u16> {
    if is_ascii_chars(s) {
        target::port_of(octets::octets(s))
    } else {
        None
    }
}

/// The normalized name and the port of a public authority.
pub open spec fn public_authority_of(value: Seq<char>, default_port: u16) -> Option<
    (Seq<char>, u16),
> {
    let at = last_char(value, ':', value.len() as int);
    if value.len() == 0 || value.contains('@') || value.contains('?') || value.contains('#') {
        None
    } else {
        let host = if at >= 0 {
            value.subrange(0, at)
        } else {
            value
        };
        let port = if at >= 0 {
            port_of(value.subrange(at + 1, value.len() as int))
        } else {
            Some(default_port)
        };
        match (port, boundary::host_name(host)) {
            (Some(port), Ok(name)) => if host.contains(':') {
                None
            } else {
                Some((name, port))
            },
            _ => None,
        }
    }
}

/// What an authority names.
pub open spec fn authority_target(
    authority: Seq<char>,
    default_port: u16,
    secure: bool,
    connect: bool,
) -> TargetModel {
    match target::loopback_of(authority) {
        Ok(canonical) => {
            let local = LocalModel { authority, canonical, secure };
            if connect {
                TargetModel::LocalConnect(local)
            } else {
                TargetModel::LocalHttp(local)
            }
        },
        Err(_) => match public_authority_of(authority, default_port) {
            Some((host, port)) => {
                let public = PublicModel { authority, host, port, secure };
                if connect {
                    TargetModel::PublicConnect(public)
                } else {
                    TargetModel::PublicHttp(public)
                }
            },
            None => TargetModel::Malformed,
        },
    }
}

/// The text before the first slash.
pub open spec fn before_slash(s: Seq<char>) -> Seq<char> {
    s.subrange(0, text::char_at(s, '/', 0))
}

/// What a method and a request target ask for.
pub open spec fn target_of(method: Seq<char>, request: Seq<char>) -> TargetModel {
    if is_connect(method) {
        authority_target(request, 443, false, true)
    } else if request.len() > 0 && request[0] == '/' {
        TargetModel::Direct(request)
    } else {
        match behind(request, "http://"@) {
            Some(rest) => authority_target(before_slash(rest), 80, false, false),
            None => match behind(request, "https://"@) {
                Some(rest) => authority_target(before_slash(rest), 443, true, false),
                None => TargetModel::Malformed,
            },
        }
    }
}

/// The method is CONNECT in any mix of cases.
pub open spec fn is_connect(method: Seq<char>) -> bool {
    octets::lower(octets::octets(method)) == octets::lower(octets::octets("CONNECT"@))
}

pub proof fn lemma_last_char_is(s: Seq<char>, c: char, end: int, at: int)
    requires
        -1 <= at < end <= s.len(),
        at >= 0 ==> s[at] == c,
        forall|j: int| at < j < end ==> s[j] != c,
    ensures
        last_char(s, c, end) == at,
    decreases end,
{
    if end - 1 > at {
        lemma_last_char_is(s, c, end - 1, at);
    }
}

fn find_last_char(s: &[char], c: char) -> (r: Option<usize>)
    ensures
        match r {
            Some(at) => at < s@.len() && last_char(s@, c, s@.len() as int) == at,
            None => last_char(s@, c, s@.len() as int) < 0,
        },
{
    let mut i: usize = s.len();
    while i > 0
        invariant
            i <= s.len(),
            forall|j: int| i <= j < s@.len() ==> s@[j] != c,
        decreases i,
    {
        if s[i - 1] == c {
            proof {
                lemma_last_char_is(s@, c, s@.len() as int, i - 1);
            }
            return Some(i - 1);
        }
        i -= 1;
    }
    proof {
        lemma_last_char_is(s@, c, s@.len() as int, -1);
    }
    None
}

fn strip_prefix<'a>(s: &'a [char], prefix: &str) -> (r: Option<&'a [char]>)
    ensures
        match r {
            Some(rest) => behind(s@, prefix@) == Some(rest@),
            None => behind(s@, prefix@) is None,
        },
{
    let p: Vec<char> = characters(prefix);
    if p.len() <= s.len() && text::same_chars(slice_subrange(s, 0, p.len()), p.as_slice()) {
        Some(slice_subrange(s, p.len(), s.len()))
    } else {
        None
    }
}

/// Reads a public authority: its normalized name and its port.
pub fn parse_public_authority(value: &[char], default_port: u16) -> (r: Option<(String, u16)>)
    ensures
        match r {
            Some((host, port)) => public_authority_of(value@, default_port) == Some((host@, port)),
            None => public_authority_of(value@, default_port) is None,
        },
{
    if value.len() == 0 || has_char(value, '@') || has_char(value, '?') || has_char(value, '#') {
        return None;
    }
    let (host, port): (&[char], u16) = match find_last_char(value, ':') {
        Some(at) => {
            let digits: &[char] = slice_subrange(value, at + 1, value.len());
            match ascii_octets(digits) {
                None => {
                    return None;
                },
                Some(b) => match parse_port(b.as_slice()) {
                    Ok(port) => (slice_subrange(value, 0, at), port),
                    Err(_) => {
                        return None;
                    },
                },
            }
        },
        None => (value, default_port),
    };
    if has_char(host, ':') {
        return None;
    }
    match normalize_domain_host(string_of(host).as_str()) {
        Ok(name) => Some((name, port)),
        Err(_) => None,
    }
}

fn classify_authority(authority: &[char], default_port: u16, secure: bool, connect: bool) -> (r:
    Target)
    ensures
        r@ == authority_target(authority@, default_port, secure, connect),
{
    match LoopbackAuthority::parse_chars(authority) {
        Ok(local) => {
            let target = LocalTarget {
                authority: string_of(authority),
                canonical_authority: local,
                secure,
            };
            if connect {
                Target::LocalConnect(target)
            } else {
                Target::LocalHttp(target)
            }
        },
        Err(_) => match parse_public_authority(authority, default_port) {
            Some((host, port)) => {
                let target = PublicTarget { authority: string_of(authority), host, port, secure };
                if connect {
                    Target::PublicConnect(target)
                } else {
                    Target::PublicHttp(target)
                }
            },
            None => Target::Malformed,
        },
    }
}

/// Classifies an HTTP request target and method.
pub fn classify(method: &str, request_target: &str) -> (r: Target)
    ensures
        r@ == target_of(method@, request_target@),
{
    let request: Vec<char> = characters(request_target);
    if octets::equal_ignore_case(method.as_bytes(), "CONNECT".as_bytes()) {
        return classify_authority(request.as_slice(), 443, false, true);
    }
    if request.len() > 0 && request[0] == '/' {
        return Target::Direct(string_of(request.as_slice()));
    }
    if let Some(rest) = strip_prefix(request.as_slice(), "http://") {
        let end: usize = find_char(rest, '/', 0);
        return classify_authority(slice_subrange(rest, 0, end), 80, false, false);
    }
    match strip_prefix(request.as_slice(), "https://") {
        Some(rest) => {
            let end: usize = find_char(rest, '/', 0);
            classify_authority(slice_subrange(rest, 0, end), 443, true, false)
        },
        None => Target::Malformed,
    }
}

/// Only a CONNECT request makes a tunnel, and no CONNECT request is anything else.
pub proof fn connect_and_http_stay_apart(method: Seq<char>, request: Seq<char>)
    ensures
        is_connect(method) ==> !(target_of(method, request) is PublicHttp) && !(target_of(
            method,
            request,
        ) is LocalHttp) && !(target_of(method, request) is Direct),
        !is_connect(method) ==> !(target_of(method, request) is PublicConnect) && !(target_of(
            method,
            request,
        ) is LocalConnect),
{
}

} // verus!
