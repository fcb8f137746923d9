//! Pure values used at the policy boundary.
use crate::domain::policy;
use crate::domain::policy::{strip_star_chars, trim_dot_chars, valid_policy_domain};
use crate::domain::target;
use crate::domain::target::LoopbackAuthority;
use crate::octets;
use crate::octets::{append, ascii, ascii_text, copy, equal, is_text, lowercase, part, split};
use crate::text;
use crate::text::{ascii_octets, characters, same_chars, trim_chars};
use vstd::prelude::*;
use vstd::slice::*;
use vstd::utf8::*;

verus! {

/// The most octets of a broker request, with its line feed.
pub const MAX_BROKER_FRAME_SIZE: usize = 256;

/// Why a domain entry or host cannot be normalized.
#[derive(Debug, Clone, Copy, PartialEq, Eq, Structural)]
pub enum DomainError {
    NonAscii,
    Invalid,
}

impl DomainError {
    pub fn message(&self) -> (r: &'static str)
        ensures
            r@ == (match self {
                DomainError::NonAscii => "domain must be ASCII"@,
                DomainError::Invalid => "invalid domain"@,
            }),
    {
        match self {
            DomainError::NonAscii => "domain must be ASCII",
            DomainError::Invalid => "invalid domain",
        }
    }
}

/// The canonical form of a name.
pub open spec fn normalized(t: Seq<char>) -> Result<Seq<char>, DomainError> {
    if !is_ascii_chars(t) {
        Err(DomainError::NonAscii)
    } else if !policy::valid_policy_name(octets::octets(t)) {
        Err(DomainError::Invalid)
    } else {
        Ok(octets::ascii_chars(octets::lower(octets::octets(t))))
    }
}

/// Without one dot at the end.
pub open spec fn without_last_dot(s: Seq<char>) -> Seq<char> {
    if s.len() > 0 && s.last() == '.' {
        s.drop_last()
    } else {
        s
    }
}

/// The canonical form of a stored entry: blanks, a leading `*.` and dots at either end are no part
/// of the name.
pub open spec fn entry_name(s: Seq<char>) -> Result<Seq<char>, DomainError> {
    normalized(policy::trim_dots(policy::strip_star(text::trim(s))))
}

/// The canonical form of a host: blanks and one dot at the end are no part of the name.
pub open spec fn host_name(s: Seq<char>) -> Result<Seq<char>, DomainError> {
    normalized(without_last_dot(text::trim(s)))
}

/// The text of a normalized name, or its error.
pub open spec fn name_result(r: Result<String, DomainError>) -> Result<Seq<char>, DomainError> {
    match r {
        Ok(name) => Ok(name@),
        Err(error) => Err(error),
    }
}

fn normalize_domain(value: &[char]) -> (r: Result<String, DomainError>)
    ensures
        name_result(r) == normalized(value@),
{
    match ascii_octets(value) {
        None => Err(DomainError::NonAscii),
        Some(b) => {
            if !valid_policy_domain(b.as_slice()) {
                return Err(DomainError::Invalid);
            }
            proof {
                assert(forall|i: int| 0 <= i < b@.len() ==> octets::lower(b@)[i] < 128) by {
                    assert forall|i: int| 0 <= i < b@.len() implies octets::lower(b@)[i] < 128 by {
                        assert(octets::is_alnum(b@[i]) || b@[i] == '-' as u8 || b@[i] == '_' as u8
                            || b@[i] == '.' as u8);
                    }
                }
            }
            Ok(ascii_text(lowercase(b.as_slice()).as_slice()))
        },
    }
}

/// Normalizes a domain entry for policy storage.
pub fn normalize_domain_entry(input: &str) -> (r: Result<String, DomainError>)
    ensures
        name_result(r) == entry_name(input@),
{
    let chars: Vec<char> = characters(input);
    normalize_domain(trim_dot_chars(strip_star_chars(trim_chars(chars.as_slice()))))
}

/// Normalizes a host for policy comparison.
pub fn normalize_domain_host(input: &str) -> (r: Result<String, DomainError>)
    ensures
        name_result(r) == host_name(input@),
{
    let chars: Vec<char> = characters(input);
    let value: &[char] = trim_chars(chars.as_slice());
    if value.len() > 0 && value[value.len() - 1] == '.' {
        let rest: &[char] = slice_subrange(value, 0, value.len() - 1);
        assert(rest@ =~= value@.drop_last());
        normalize_domain(rest)
    } else {
        normalize_domain(value)
    }
}

/// The entry is the host itself, or the host ends in a dot and the entry.
pub open spec fn entry_covers(entry: Seq<char>, host: Seq<char>) -> bool {
    ||| host == entry
    ||| entry.len() < host.len() && host.subrange(
        host.len() - entry.len(),
        host.len() as int,
    ) == entry && host[host.len() - entry.len() - 1] == '.'
}

/// Whether an entry permits exactly this host or one of its subdomains.
pub fn domain_entry_matches(entry: &str, host: &str) -> (r: bool)
    ensures
        r == entry_covers(entry@, host@),
{
    let e: Vec<char> = characters(entry);
    let h: Vec<char> = characters(host);
    if e.len() >= h.len() {
        return same_chars(h.as_slice(), e.as_slice());
    }
    let start: usize = h.len() - e.len();
    h[start - 1] == '.' && same_chars(
        slice_subrange(h.as_slice(), start, h.len()),
        e.as_slice(),
    )
}

/// A normalized name is its own normal form, both as an entry and as a host.
pub proof fn normalizing_is_idempotent(s: Seq<char>)
    ensures
        entry_name(s) matches Ok(name) ==> entry_name(name) == Ok::<Seq<char>, DomainError>(name)
            && host_name(name) == Ok::<Seq<char>, DomainError>(name),
        host_name(s) matches Ok(name) ==> entry_name(name) == Ok::<Seq<char>, DomainError>(name)
            && host_name(name) == Ok::<Seq<char>, DomainError>(name),
{
    let e = policy::trim_dots(policy::strip_star(text::trim(s)));
    let h = without_last_dot(text::trim(s));
    if normalized(e) is Ok {
        lemma_normalized_fixed(e);
    }
    if normalized(h) is Ok {
        lemma_normalized_fixed(h);
    }
}

/// The labels of a name are unchanged in number and length by lower case.
proof fn lemma_lower_pieces(s: Seq<u8>)
    ensures
        octets::pieces(octets::lower(s), '.' as u8).len() == octets::pieces(s, '.' as u8).len(),
        forall|i: int|
            0 <= i < octets::pieces(s, '.' as u8).len() ==> (#[trigger] octets::pieces(
                octets::lower(s),
                '.' as u8,
            )[i]).len() == octets::pieces(s, '.' as u8)[i].len(),
    decreases s.len(),
{
    let dot = '.' as u8;
    let l = octets::lower(s);
    let at = octets::first_at(s, dot, 0);
    octets::lemma_first_at(s, dot, 0);
    octets::lemma_first_at_is(l, dot, 0, at);
    if at < s.len() {
        let rest = s.subrange(at + 1, s.len() as int);
        lemma_lower_pieces(rest);
        assert(l.subrange(at + 1, l.len() as int) =~= octets::lower(rest));
        let a = octets::pieces(s, dot);
        let b = octets::pieces(l, dot);
        assert(a == seq![s.subrange(0, at)] + octets::pieces(rest, dot));
        assert(b == seq![l.subrange(0, at)] + octets::pieces(octets::lower(rest), dot));
        assert forall|i: int| 0 <= i < a.len() implies (#[trigger] b[i]).len() == a[i].len() by {
            if i > 0 {
                assert(a[i] == octets::pieces(rest, dot)[i - 1]);
                assert(b[i] == octets::pieces(octets::lower(rest), dot)[i - 1]);
            }
        }
    }
}

/// The first label begins the name and the last one ends it.
proof fn lemma_edge_dots(s: Seq<u8>)
    requires
        s.len() > 0,
        forall|i: int|
            0 <= i < octets::pieces(s, '.' as u8).len() ==> (#[trigger] octets::pieces(
                s,
                '.' as u8,
            )[i]).len() > 0,
    ensures
        s[0] != '.' as u8,
        s.last() != '.' as u8,
    decreases s.len(),
{
    let dot = '.' as u8;
    let at = octets::first_at(s, dot, 0);
    octets::lemma_first_at(s, dot, 0);
    let a = octets::pieces(s, dot);
    if at < s.len() {
        let rest = s.subrange(at + 1, s.len() as int);
        assert(a == seq![s.subrange(0, at)] + octets::pieces(rest, dot));
        assert(a[0].len() == at);
        let b = octets::pieces(rest, dot);
        assert forall|i: int| 0 <= i < b.len() implies (#[trigger] b[i]).len() > 0 by {
            assert(a[i + 1] == b[i]);
        }
        if rest.len() == 0 {
            assert(octets::first_at(rest, dot, 0) == 0);
            assert(b =~= seq![rest]);
            assert(b[0].len() == 0);
        }
        lemma_edge_dots(rest);
    }
}

proof fn lemma_normalized_fixed(t: Seq<char>)
    requires
        normalized(t) is Ok,
    ensures
        entry_name(normalized(t)->Ok_0) == normalized(t),
        host_name(normalized(t)->Ok_0) == normalized(t),
{
    let b = octets::octets(t);
    let l = octets::lower(b);
    let name = octets::ascii_chars(l);
    assert forall|i: int| 0 <= i < l.len() implies octets::lower_octet(#[trigger] l[i]) == l[i] && (
    octets::is_alnum(l[i]) || l[i] == '-' as u8 || l[i] == '_' as u8 || l[i] == '.' as u8) by {
        assert(octets::is_alnum(b[i]) || b[i] == '-' as u8 || b[i] == '_' as u8 || b[i]
            == '.' as u8);
    }
    octets::lemma_ascii_text(l);
    lemma_lower_pieces(b);
    let some = choose|i: int| 0 <= i < b.len() && octets::is_alnum(#[trigger] b[i]);
    assert(octets::is_alnum(l[some]));
    assert(policy::valid_policy_name(l));
    assert(octets::lower(l) =~= l);
    lemma_edge_dots(l);
    assert(name[0] == l[0] as char);
    assert(name.last() == l.last() as char);
    assert(!text::white_space(name[0]));
    assert(!text::white_space(name.last()));
    assert(text::trim_start(name) == name);
    assert(text::trim(name) == name);
    assert(policy::strip_star(name) == name);
    assert(policy::trim_dots(name) == name);
}

proof fn lemma_white_front(w: Seq<char>, s: Seq<char>)
    requires
        forall|i: int| 0 <= i < w.len() ==> text::white_space(#[trigger] w[i]),
    ensures
        text::trim_start(w + s) == text::trim_start(s),
    decreases w.len(),
{
    if w.len() == 0 {
        assert(w + s =~= s);
    } else {
        assert((w + s)[0] == w[0]);
        assert((w + s).drop_first() =~= w.drop_first() + s);
        lemma_white_front(w.drop_first(), s);
    }
}

proof fn lemma_white_back(s: Seq<char>, w: Seq<char>)
    requires
        forall|i: int| 0 <= i < w.len() ==> text::white_space(#[trigger] w[i]),
    ensures
        text::trim_end(s + w) == text::trim_end(s),
    decreases w.len(),
{
    if w.len() == 0 {
        assert(s + w =~= s);
    } else {
        assert((s + w).last() == w[w.len() - 1]);
        assert((s + w).drop_last() =~= s + w.drop_last());
        lemma_white_back(s, w.drop_last());
    }
}

proof fn lemma_dots_front(d: Seq<char>, s: Seq<char>)
    requires
        forall|i: int| 0 <= i < d.len() ==> #[trigger] d[i] == '.',
    ensures
        policy::trim_dots_start(d + s) == policy::trim_dots_start(s),
    decreases d.len(),
{
    if d.len() == 0 {
        assert(d + s =~= s);
    } else {
        assert((d + s)[0] == d[0]);
        assert((d + s).drop_first() =~= d.drop_first() + s);
        lemma_dots_front(d.drop_first(), s);
    }
}

proof fn lemma_dots_back(s: Seq<char>, d: Seq<char>)
    requires
        forall|i: int| 0 <= i < d.len() ==> #[trigger] d[i] == '.',
    ensures
        policy::trim_dots_end(s + d) == policy::trim_dots_end(s),
    decreases d.len(),
{
    if d.len() == 0 {
        assert(s + d =~= s);
    } else {
        assert((s + d).last() == d[d.len() - 1]);
        assert((s + d).drop_last() =~= s + d.drop_last());
        lemma_dots_back(s, d.drop_last());
    }
}

/// White space around text that has none at its ends is trimmed off.
pub proof fn lemma_padded(before: Seq<char>, s: Seq<char>, after: Seq<char>)
    requires
        forall|i: int| 0 <= i < before.len() ==> text::white_space(#[trigger] before[i]),
        forall|i: int| 0 <= i < after.len() ==> text::white_space(#[trigger] after[i]),
        s.len() > 0,
        text::trimmed(s),
    ensures
        text::trim(before + s + after) == s,
{
    assert(before + s + after =~= before + (s + after));
    lemma_white_front(before, s + after);
    assert((s + after)[0] == s[0]);
    lemma_white_back(s, after);
}

/// White space around an entry, a leading `*.`, dots at either end and the case of its letters make
/// no other domain of it.
pub proof fn spellings_of_an_entry_are_one(
    before: Seq<char>,
    front: Seq<char>,
    name: Seq<char>,
    back: Seq<char>,
    after: Seq<char>,
)
    requires
        normalized(name) is Ok,
        forall|i: int| 0 <= i < before.len() ==> text::white_space(#[trigger] before[i]),
        forall|i: int| 0 <= i < after.len() ==> text::white_space(#[trigger] after[i]),
        forall|i: int| 0 <= i < front.len() ==> #[trigger] front[i] == '.',
        forall|i: int| 0 <= i < back.len() ==> #[trigger] back[i] == '.',
    ensures
        entry_name(before + (front + name + back) + after) == normalized(name),
        entry_name(before + (seq!['*', '.'] + (front + name + back)) + after) == normalized(name),
{
    let dotted = front + name + back;
    let starred = seq!['*', '.'] + dotted;
    let b = octets::octets(name);
    octets::lemma_ascii_text(b);
    is_ascii_chars_encode_utf8(name);
    assert(b.len() == name.len());
    lemma_edge_dots(b);
    assert(b[0] == name[0] as u8 && b.last() == name.last() as u8);
    assert(!text::white_space(name[0]) && name[0] != '.' && name[0] != '*');
    assert(!text::white_space(name.last()) && name.last() != '.');
    assert(dotted[0] == (if front.len() > 0 {
        front[0]
    } else {
        name[0]
    }));
    assert(dotted.last() == (if back.len() > 0 {
        back[back.len() - 1]
    } else {
        name.last()
    }));
    lemma_padded(before, dotted, after);
    lemma_padded(before, starred, after);
    assert(starred.subrange(2, starred.len() as int) =~= dotted);
    assert(policy::strip_star(dotted) == dotted);
    assert(dotted =~= front + (name + back));
    lemma_dots_front(front, name + back);
    assert((name + back)[0] == name[0]);
    lemma_dots_back(name, back);
}

/// Why an authority is not an explicit loopback endpoint.
#[derive(Debug, Clone, Copy, PartialEq, Eq, Structural)]
pub struct LoopbackAuthorityError;

impl LoopbackAuthorityError {
    pub fn message(&self) -> (r: &'static str)
        ensures
            r@ == "invalid loopback authority"@,
    {
        "invalid loopback authority"
    }
}

/// Reads and canonicalizes an allowed loopback authority.
pub fn parse_loopback_authority(input: &str) -> (r: Result<
    LoopbackAuthority,
    LoopbackAuthorityError,
>)
    ensures
        match r {
            Ok(a) => target::loopback_of(input@) == Ok::<
                target::LoopbackModel,
                target::AuthorityParseError,
            >(a@),
            Err(_) => target::loopback_of(input@) is Err,
        },
{
    match LoopbackAuthority::parse(input) {
        Ok(authority) => Ok(authority),
        Err(_) => Err(LoopbackAuthorityError),
    }
}

/// A credential: 64 octets that are digits or letters from `a` to `f`.
pub open spec fn is_broker_token(s: Seq<u8>) -> bool {
    &&& s.len() == 64
    &&& forall|i: int|
        0 <= i < 64 ==> octets::is_digit(#[trigger] s[i]) || 'a' as u8 <= s[i] <= 'f' as u8
}

/// A broker credential. It has no debug form that shows it.
#[derive(PartialEq, Eq)]
pub struct BrokerToken {
    value: Vec<u8>,
}

impl View for BrokerToken {
    type V = Seq<u8>;

    closed spec fn view(&self) -> Seq<u8> {
        self.value@
    }
}

/// Why a broker credential is malformed.
#[derive(Debug, Clone, Copy, PartialEq, Eq, Structural)]
pub struct BrokerTokenError;

impl BrokerTokenError {
    pub fn message(&self) -> (r: &'static str)
        ensures
            r@ == "invalid broker token"@,
    {
        "invalid broker token"
    }
}

impl Clone for BrokerToken {
    fn clone(&self) -> (r: BrokerToken)
        ensures
            r@ == self@,
    {
        proof {
            use_type_invariant(self);
        }
        BrokerToken { value: copy(self.value.as_slice()) }
    }
}

impl BrokerToken {
    #[verifier::type_invariant]
    spec fn well_formed(self) -> bool {
        is_broker_token(self.value@)
    }

    /// Validates a credential received or generated at the host boundary.
    pub fn parse(value: &str) -> (r: Result<BrokerToken, BrokerTokenError>)
        ensures
            match r {
                Ok(token) => is_broker_token(octets::octets(value@)) && token@ == octets::octets(
                    value@,
                ),
                Err(_) => !is_broker_token(octets::octets(value@)),
            },
    {
        BrokerToken::from_octets(value.as_bytes())
    }

    /// Validates the octets of a credential.
    pub fn from_octets(value: &[u8]) -> (r: Result<BrokerToken, BrokerTokenError>)
        ensures
            match r {
                Ok(token) => is_broker_token(value@) && token@ == value@,
                Err(_) => !is_broker_token(value@),
            },
    {
        if value.len() != 64 {
            return Err(BrokerTokenError);
        }
        let mut i: usize = 0;
        while i < 64
            invariant
                i <= 64,
                value@.len() == 64,
                forall|j: int|
                    0 <= j < i ==> octets::is_digit(#[trigger] value@[j]) || 'a' as u8 <= value@[j]
                        <= 'f' as u8,
            decreases 64 - i,
        {
            let b: u8 = value[i];
            if !octets::digit(b) && !('a' as u8 <= b && b <= 'f' as u8) {
                assert(!(octets::is_digit(value@[i as int]) || 'a' as u8 <= value@[i as int]
                    <= 'f' as u8));
                return Err(BrokerTokenError);
            }
            i += 1;
        }
        Ok(BrokerToken { value: copy(value) })
    }

    /// The credential, for comparison at the host boundary and for the frames that carry it.
    pub fn as_bytes(&self) -> (r: &[u8])
        ensures
            r@ == self@,
            is_broker_token(r@),
    {
        proof {
            use_type_invariant(self);
        }
        self.value.as_slice()
    }

    /// What a diagnostic shows in place of the credential.
    pub fn debug_text(&self) -> (r: &'static str)
        ensures
            r@ == "BrokerToken([REDACTED])"@,
    {
        "BrokerToken([REDACTED])"
    }
}

/// A broker request that was read.
#[derive(Clone, PartialEq, Eq)]
pub enum BrokerRequest {
    Ready(BrokerToken),
    Connect { token: BrokerToken, authority: LoopbackAuthority },
}

pub enum RequestModel {
    Ready(Seq<u8>),
    Connect { token: Seq<u8>, authority: target::LoopbackModel },
}

impl View for BrokerRequest {
    type V = RequestModel;

    open spec fn view(&self) -> RequestModel {
        match self {
            BrokerRequest::Ready(token) => RequestModel::Ready(token@),
            BrokerRequest::Connect { token, authority } => RequestModel::Connect {
                token: token@,
                authority: authority@,
            },
        }
    }
}

/// Why a broker request frame is invalid.
#[derive(Debug, Clone, Copy, PartialEq, Eq, Structural)]
pub enum BrokerFrameError {
    Oversized,
    Malformed,
}

impl BrokerFrameError {
    pub fn message(&self) -> (r: &'static str)
        ensures
            r@ == "invalid broker frame"@,
    {
        "invalid broker frame"
    }
}

pub open spec fn protocol_name() -> Seq<u8> {
    octets::octets("VHRN-BROKER/1"@)
}

/// The request that the fields of a frame make.
pub open spec fn fields_request(f: Seq<Seq<u8>>) -> Option<RequestModel> {
    if f.len() == 3 && f[0] == protocol_name() && f[1] == octets::octets("READY"@)
        && is_broker_token(f[2]) {
        Some(RequestModel::Ready(f[2]))
    } else if f.len() == 4 && f[0] == protocol_name() && f[1] == octets::octets("CONNECT"@)
        && is_broker_token(f[2]) && octets::is_ascii(f[3]) {
        match target::loopback_of(octets::ascii_chars(f[3])) {
            Ok(authority) => if target::loopback_text(authority) == f[3] {
                Some(RequestModel::Connect { token: f[2], authority })
            } else {
                None
            },
            Err(_) => None,
        }
    } else {
        None
    }
}

/// The request in a frame: one line of fields with single spaces between them.
pub open spec fn request_of(frame: Seq<u8>) -> Result<RequestModel, BrokerFrameError> {
    if frame.len() > MAX_BROKER_FRAME_SIZE {
        Err(BrokerFrameError::Oversized)
    } else if frame.len() == 0 || frame.last() != 10 || frame.drop_last().contains(10u8) {
        Err(BrokerFrameError::Malformed)
    } else {
        match fields_request(octets::pieces(frame.drop_last(), ' ' as u8)) {
            Some(request) => Ok(request),
            None => Err(BrokerFrameError::Malformed),
        }
    }
}

/// Reads one complete newline-terminated broker request frame.
pub fn parse_broker_request(frame: &[u8]) -> (r: Result<BrokerRequest, BrokerFrameError>)
    ensures
        match r {
            Ok(request) => request_of(frame@) == Ok::<RequestModel, BrokerFrameError>(request@),
            Err(error) => request_of(frame@) == Err::<RequestModel, BrokerFrameError>(error),
        },
{
    let n: usize = frame.len();
    if n > MAX_BROKER_FRAME_SIZE {
        return Err(BrokerFrameError::Oversized);
    }
    if n == 0 || frame[n - 1] != 10 {
        return Err(BrokerFrameError::Malformed);
    }
    let line: &[u8] = part(frame, 0, n - 1);
    assert(line@ =~= frame@.drop_last());
    if octets::contains(line, 10) {
        return Err(BrokerFrameError::Malformed);
    }
    let fields: Vec<Vec<u8>> = split(line, ' ' as u8);
    let ghost f = octets::pieces(line@, ' ' as u8);
    assert(f == octets::views(fields@));
    assert(f.len() == fields@.len());
    if fields.len() == 3 {
        assert(f[0] == fields@[0]@ && f[1] == fields@[1]@ && f[2] == fields@[2]@);
        if !is_text(fields[0].as_slice(), "VHRN-BROKER/1") || !is_text(
            fields[1].as_slice(),
            "READY",
        ) {
            return Err(BrokerFrameError::Malformed);
        }
        return match BrokerToken::from_octets(fields[2].as_slice()) {
            Ok(token) => Ok(BrokerRequest::Ready(token)),
            Err(_) => Err(BrokerFrameError::Malformed),
        };
    }
    if fields.len() != 4 {
        return Err(BrokerFrameError::Malformed);
    }
    assert(f[0] == fields@[0]@ && f[1] == fields@[1]@ && f[2] == fields@[2]@ && f[3]
        == fields@[3]@);
    if !is_text(fields[0].as_slice(), "VHRN-BROKER/1") || !is_text(fields[1].as_slice(), "CONNECT")
        || !ascii(fields[3].as_slice()) {
        return Err(BrokerFrameError::Malformed);
    }
    let raw: String = ascii_text(fields[3].as_slice());
    let authority: LoopbackAuthority = match LoopbackAuthority::parse(raw.as_str()) {
        Ok(authority) => authority,
        Err(_) => {
            return Err(BrokerFrameError::Malformed);
        },
    };
    if !equal(authority.text().as_slice(), fields[3].as_slice()) {
        return Err(BrokerFrameError::Malformed);
    }
    match BrokerToken::from_octets(fields[2].as_slice()) {
        Ok(token) => Ok(BrokerRequest::Connect { token, authority }),
        Err(_) => Err(BrokerFrameError::Malformed),
    }
}

/// What a diagnostic shows of a request.
pub open spec fn request_debug(request: RequestModel) -> Seq<u8> {
    match request {
        RequestModel::Ready(_) => octets::octets("Ready(BrokerToken([REDACTED]))"@),
        RequestModel::Connect { authority, .. } => octets::octets(
            "Connect { token: BrokerToken([REDACTED]), authority: "@,
        ) + target::loopback_debug(authority) + octets::octets(" }"@),
    }
}

/// What is shown of a request does not depend on its credential.
pub proof fn a_credential_is_never_shown(
    token: Seq<u8>,
    other: Seq<u8>,
    authority: target::LoopbackModel,
)
    ensures
        request_debug(RequestModel::Ready(token)) == request_debug(RequestModel::Ready(other)),
        request_debug(RequestModel::Connect { token, authority }) == request_debug(
            RequestModel::Connect { token: other, authority },
        ),
{
}

impl BrokerRequest {
    /// What a diagnostic shows of a request: never its credential.
    pub fn debug_text(&self) -> (r: Vec<u8>)
        ensures
            r@ == request_debug(self@),
    {
        match self {
            BrokerRequest::Ready(_) => copy("Ready(BrokerToken([REDACTED]))".as_bytes()),
            BrokerRequest::Connect { authority, .. } => {
                let mut out: Vec<u8> = copy(
                    "Connect { token: BrokerToken([REDACTED]), authority: ".as_bytes(),
                );
                append(&mut out, authority.debug_text().as_slice());
                append(&mut out, " }".as_bytes());
                out
            },
        }
    }
}

} // verus!
