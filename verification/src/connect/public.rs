//! Validated numeric public connection setup.
pub mod registry;

use crate::domain::target;
use crate::domain::target::{PublicHost, PublicTarget};
use crate::ip;
use crate::ip::IpAddress;
use crate::octets;
use crate::unique::Same;
use registry::{ipv4_is_global, ipv6_is_global};
use vstd::prelude::*;

verus! {

/// How long resolution and all dials together may take, in milliseconds.
pub const CONNECT_DEADLINE: u64 = 10_000;

/// The most answers that a resolution may give.
pub const MAX_DNS_ANSWERS: usize = 64;

/// Why a public destination could not be reached.
#[derive(Debug, Clone, Copy, PartialEq, Eq, Structural)]
pub enum PublicConnectError {
    PolicyDenied,
    Unavailable,
    DeadlineExceeded,
    Cancelled,
    Exhausted,
}

impl PublicConnectError {
    pub fn is_policy_denial(self) -> (r: bool)
        ensures
            r == (self == PublicConnectError::PolicyDenied),
    {
        matches!(self, PublicConnectError::PolicyDenied)
    }

    pub fn message(self) -> (r: &'static str)
        ensures
            r@ == (match self {
                PublicConnectError::PolicyDenied => "public address rejected"@,
                PublicConnectError::Unavailable => "public destination unavailable"@,
                PublicConnectError::DeadlineExceeded => "public connection deadline exceeded"@,
                PublicConnectError::Cancelled => "public connection cancelled"@,
                PublicConnectError::Exhausted => "public connection capacity exhausted"@,
            }),
    {
        match self {
            PublicConnectError::PolicyDenied => "public address rejected",
            PublicConnectError::Unavailable => "public destination unavailable",
            PublicConnectError::DeadlineExceeded => "public connection deadline exceeded",
            PublicConnectError::Cancelled => "public connection cancelled",
            PublicConnectError::Exhausted => "public connection capacity exhausted",
        }
    }
}

/// One answer of a resolver, with the scope that came with it.
#[derive(Debug, Clone, Copy, PartialEq, Eq)]
pub struct ResolvedAddress {
    pub address: IpAddress,
    pub scope_id: u32,
}

impl ResolvedAddress {
    pub fn unscoped(address: IpAddress) -> (r: ResolvedAddress)
        ensures
            r == (ResolvedAddress { address, scope_id: 0 }),
    {
        ResolvedAddress { address, scope_id: 0 }
    }

    pub fn scoped(address: IpAddress, scope_id: u32) -> (r: ResolvedAddress)
        ensures
            r == (ResolvedAddress { address, scope_id }),
    {
        ResolvedAddress { address, scope_id }
    }
}

/// The identity of a pooled public connection.
#[derive(Debug, Clone, PartialEq, Eq, Hash)]
pub struct OriginKey {
    host: PublicHost,
    port: u16,
}

impl View for OriginKey {
    type V = (target::HostModel, u16);

    closed spec fn view(&self) -> (target::HostModel, u16) {
        (self.host@, self.port)
    }
}

impl OriginKey {
    /// The key of a destination: its normalized host and its port.
    pub fn from_target(target: &PublicTarget) -> (r: OriginKey)
        ensures
            r@ == (target@.host, target@.port),
    {
        OriginKey { host: target.host().clone(), port: target.port() }
    }
}

impl Same for OriginKey {
    fn same(&self, other: &OriginKey) -> (r: bool) {
        if self.port != other.port {
            return false;
        }
        match (&self.host, &other.host) {
            (PublicHost::Dns(a), PublicHost::Dns(b)) => octets::equal(a.as_octets(), b.as_octets()),
            (PublicHost::Ip(a), PublicHost::Ip(b)) => {
                proof {
                    lemma_address_view(*a, *b);
                }
                a.same(b)
            },
            _ => false,
        }
    }
}

/// Two addresses with the same model are the same.
proof fn lemma_address_view(a: IpAddress, b: IpAddress)
    ensures
        a@ == b@ ==> a == b,
{
    if a@ == b@ {
        match (a, b) {
            (IpAddress::V4(x), IpAddress::V4(y)) => {
                assert(x =~= y);
            },
            (IpAddress::V6(x), IpAddress::V6(y)) => {
                assert(x =~= y);
            },
            _ => {},
        }
    }
}

/// The address is globally reachable.
pub open spec fn is_global(a: ip::IpModel) -> bool {
    match a {
        ip::IpModel::V4(o) => !registry::ipv4_is_special(o),
        ip::IpModel::V6(g) => !registry::ipv6_is_special(g),
    }
}

/// An address that may be dialled for a public origin.
#[derive(Debug, Clone, Copy, PartialEq, Eq)]
pub struct GloballyRoutableIp {
    address: IpAddress,
}

impl View for GloballyRoutableIp {
    type V = ip::IpModel;

    closed spec fn view(&self) -> ip::IpModel {
        self.address@
    }
}

impl GloballyRoutableIp {
    #[verifier::type_invariant]
    spec fn well_formed(self) -> bool {
        is_global(self.address@)
    }

    pub fn new(address: IpAddress) -> (r: Option<GloballyRoutableIp>)
        ensures
            match r {
                Some(routable) => is_global(address@) && routable@ == address@,
                None => !is_global(address@),
            },
    {
        let eligible: bool = match &address {
            IpAddress::V4(o) => ipv4_is_global(o),
            IpAddress::V6(g) => ipv6_is_global(g),
        };
        if eligible {
            Some(GloballyRoutableIp { address })
        } else {
            None
        }
    }

    pub fn address(&self) -> (r: IpAddress)
        ensures
            r@ == self@,
            is_global(r@),
    {
        proof {
            use_type_invariant(self);
        }
        self.address
    }
}

/// What a resolution comes to: at least one and at most 64 answers, each without a scope and
/// globally reachable, in their order; or why not.
pub open spec fn dns_answers(answers: Seq<ResolvedAddress>) -> Result<
    Seq<ip::IpModel>,
    PublicConnectError,
> {
    if answers.len() == 0 {
        Err(PublicConnectError::Unavailable)
    } else if answers.len() > MAX_DNS_ANSWERS || exists|i: int|
        0 <= i < answers.len() && !answer_eligible(#[trigger] answers[i]) {
        Err(PublicConnectError::PolicyDenied)
    } else {
        Ok(Seq::new(answers.len(), |i: int| answers[i].address@))
    }
}

pub open spec fn answer_eligible(answer: ResolvedAddress) -> bool {
    answer.scope_id == 0 && is_global(answer.address@)
}

pub open spec fn literal_answer(address: ip::IpModel) -> Result<
    Seq<ip::IpModel>,
    PublicConnectError,
> {
    if is_global(address) {
        Ok(seq![address])
    } else {
        Err(PublicConnectError::PolicyDenied)
    }
}

pub open spec fn routable_models(s: Seq<GloballyRoutableIp>) -> Seq<ip::IpModel> {
    Seq::new(s.len(), |i: int| s[i]@)
}

/// The addresses that may be dialled for one destination.
#[derive(Debug, Clone, PartialEq, Eq)]
pub struct ValidatedAnswers {
    addresses: Vec<GloballyRoutableIp>,
}

impl View for ValidatedAnswers {
    type V = Seq<ip::IpModel>;

    closed spec fn view(&self) -> Seq<ip::IpModel> {
        routable_models(self.addresses@)
    }
}

impl ValidatedAnswers {
    /// Judges the answers of a resolution. One answer that may not be dialled refuses them all.
    pub fn from_dns(answers: &[ResolvedAddress]) -> (r: Result<ValidatedAnswers, PublicConnectError>)
        ensures
            match r {
                Ok(valid) => dns_answers(answers@) == Ok::<Seq<ip::IpModel>, PublicConnectError>(
                    valid@,
                ),
                Err(error) => dns_answers(answers@) == Err::<Seq<ip::IpModel>, PublicConnectError>(
                    error,
                ),
            },
    {
        if answers.len() == 0 {
            return Err(PublicConnectError::Unavailable);
        }
        if answers.len() > MAX_DNS_ANSWERS {
            return Err(PublicConnectError::PolicyDenied);
        }
        let mut addresses: Vec<GloballyRoutableIp> = Vec::new();
        let mut i: usize = 0;
        while i < answers.len()
            invariant
                i <= answers.len(),
                addresses@.len() == i,
                forall|j: int| 0 <= j < i ==> answer_eligible(#[trigger] answers@[j]),
                forall|j: int| 0 <= j < i ==> (#[trigger] addresses@[j])@ == answers@[j].address@,
                0 < answers@.len() <= MAX_DNS_ANSWERS,
            decreases answers.len() - i,
        {
            let answer: ResolvedAddress = answers[i];
            if answer.scope_id != 0 {
                assert(!answer_eligible(answers@[i as int]));
                return Err(PublicConnectError::PolicyDenied);
            }
            match GloballyRoutableIp::new(answer.address) {
                Some(address) => addresses.push(address),
                None => {
                    assert(!answer_eligible(answers@[i as int]));
                    return Err(PublicConnectError::PolicyDenied);
                },
            }
            i += 1;
        }
        let valid = ValidatedAnswers { addresses };
        assert(valid@ =~= Seq::new(answers@.len(), |i: int| answers@[i].address@));
        Ok(valid)
    }

    /// Judges an address that was given as a number.
    pub fn from_literal(address: IpAddress) -> (r: Result<ValidatedAnswers, PublicConnectError>)
        ensures
            match r {
                Ok(valid) => literal_answer(address@) == Ok::<
                    Seq<ip::IpModel>,
                    PublicConnectError,
                >(valid@),
                Err(error) => literal_answer(address@) == Err::<
                    Seq<ip::IpModel>,
                    PublicConnectError,
                >(error),
            },
    {
        match GloballyRoutableIp::new(address) {
            Some(routable) => {
                let mut addresses: Vec<GloballyRoutableIp> = Vec::new();
                addresses.push(routable);
                let valid = ValidatedAnswers { addresses };
                assert(valid@ =~= seq![address@]);
                Ok(valid)
            },
            None => Err(PublicConnectError::PolicyDenied),
        }
    }

    pub fn len(&self) -> (r: usize)
        ensures
            r == self@.len(),
    {
        self.addresses.len()
    }

    /// The address at a place. Every one may be dialled.
    pub fn get(&self, i: usize) -> (r: IpAddress)
        requires
            i < self@.len(),
        ensures
            r@ == self@[i as int],
            is_global(r@),
    {
        self.addresses[i].address()
    }
}

/// What the connection setup does next.
#[derive(Debug, PartialEq, Eq)]
pub enum OpenAction {
    /// Resolve the name, and stop at the deadline or on cancellation.
    Resolve { host: Vec<u8>, port: u16 },
    /// Dial the address, and stop at the deadline or on cancellation.
    Dial { address: IpAddress, port: u16 },
    Connected,
    Failed(PublicConnectError),
}

/// What became of the last action.
#[derive(Debug)]
pub enum OpenEvent {
    Cancelled,
    DeadlineExceeded,
    ResolutionFailed,
    Resolved(Vec<ResolvedAddress>),
    DialFailed,
    Dialled,
}

pub enum EventModel {
    Cancelled,
    DeadlineExceeded,
    ResolutionFailed,
    Resolved(Seq<ResolvedAddress>),
    DialFailed,
    Dialled,
}

impl View for OpenEvent {
    type V = EventModel;

    open spec fn view(&self) -> EventModel {
        match self {
            OpenEvent::Cancelled => EventModel::Cancelled,
            OpenEvent::DeadlineExceeded => EventModel::DeadlineExceeded,
            OpenEvent::ResolutionFailed => EventModel::ResolutionFailed,
            OpenEvent::Resolved(answers) => EventModel::Resolved(answers@),
            OpenEvent::DialFailed => EventModel::DialFailed,
            OpenEvent::Dialled => EventModel::Dialled,
        }
    }
}

/// How far the setup of one connection has come.
#[derive(Debug)]
enum OpenState {
    Resolving(Vec<u8>),
    Dialling(ValidatedAnswers, usize),
    Connected,
    Failed(PublicConnectError),
}

pub enum OpenModel {
    Resolving(Seq<u8>),
    /// The addresses that have not been dialled, the next one first.
    Dialling(Seq<ip::IpModel>),
    Connected,
    Failed(PublicConnectError),
}

/// The state in which validated answers are dialled, or the error.
pub open spec fn answered(answers: Result<Seq<ip::IpModel>, PublicConnectError>) -> OpenModel {
    match answers {
        Ok(addresses) => OpenModel::Dialling(addresses),
        Err(error) => OpenModel::Failed(error),
    }
}

/// The first state for a host.
pub open spec fn opening(host: target::HostModel) -> OpenModel {
    match host {
        target::HostModel::Ip(address) => answered(literal_answer(address)),
        target::HostModel::Dns(name) => OpenModel::Resolving(name),
    }
}

/// The state after an event. An event that does not belong to the state changes nothing.
pub open spec fn opened(state: OpenModel, event: EventModel) -> OpenModel {
    match state {
        OpenModel::Resolving(_) => match event {
            EventModel::Cancelled => OpenModel::Failed(PublicConnectError::Cancelled),
            EventModel::DeadlineExceeded => OpenModel::Failed(PublicConnectError::DeadlineExceeded),
            EventModel::ResolutionFailed => OpenModel::Failed(PublicConnectError::Unavailable),
            EventModel::Resolved(answers) => answered(dns_answers(answers)),
            _ => state,
        },
        OpenModel::Dialling(rest) => match event {
            EventModel::Cancelled => OpenModel::Failed(PublicConnectError::Cancelled),
            EventModel::DeadlineExceeded => OpenModel::Failed(PublicConnectError::DeadlineExceeded),
            EventModel::Dialled => OpenModel::Connected,
            EventModel::DialFailed => if rest.len() > 1 {
                OpenModel::Dialling(rest.drop_first())
            } else {
                OpenModel::Failed(PublicConnectError::Unavailable)
            },
            _ => state,
        },
        _ => state,
    }
}

/// Every address that is still to be dialled is globally reachable, and there is one.
pub open spec fn opening_valid(state: OpenModel) -> bool {
    match state {
        OpenModel::Dialling(rest) => rest.len() >= 1 && forall|i: int|
            0 <= i < rest.len() ==> is_global(#[trigger] rest[i]),
        _ => true,
    }
}

/// The setup of one connection: at most one resolution, then one dial after the other until one
/// succeeds.
#[derive(Debug)]
pub struct Opening {
    state: OpenState,
    port: u16,
}

impl View for Opening {
    type V = OpenModel;

    closed spec fn view(&self) -> OpenModel {
        match self.state {
            OpenState::Resolving(host) => OpenModel::Resolving(host@),
            OpenState::Dialling(answers, next) => OpenModel::Dialling(answers@.skip(next as int)),
            OpenState::Connected => OpenModel::Connected,
            OpenState::Failed(error) => OpenModel::Failed(error),
        }
    }
}

impl Opening {
    #[verifier::type_invariant]
    spec fn well_formed(self) -> bool {
        match self.state {
            OpenState::Dialling(answers, next) => next < answers@.len(),
            _ => true,
        }
    }

    pub closed spec fn spec_port(&self) -> u16 {
        self.port
    }

    /// Starts the setup for a destination.
    pub fn begin(target: &PublicTarget) -> (r: Opening)
        ensures
            r@ == opening(target@.host),
            r.spec_port() == target@.port,
    {
        let port: u16 = target.port();
        match target.host() {
            PublicHost::Dns(name) => Opening {
                state: OpenState::Resolving(octets::copy(name.as_octets())),
                port,
            },
            PublicHost::Ip(address) => Opening::dialling(
                ValidatedAnswers::from_literal(*address),
                port,
            ),
        }
    }

    fn dialling(answers: Result<ValidatedAnswers, PublicConnectError>, port: u16) -> (r: Opening)
        requires
            answers matches Ok(valid) ==> valid@.len() >= 1,
        ensures
            r@ == (match answers {
                Ok(valid) => OpenModel::Dialling(valid@),
                Err(error) => OpenModel::Failed(error),
            }),
            r.spec_port() == port,
    {
        match answers {
            Ok(valid) => {
                assert(valid@.skip(0) =~= valid@);
                Opening { state: OpenState::Dialling(valid, 0), port }
            },
            Err(error) => Opening { state: OpenState::Failed(error), port },
        }
    }

    /// What to do next. No address is dialled that is not globally reachable.
    pub fn action(&self) -> (r: OpenAction)
        ensures
            match self@ {
                OpenModel::Resolving(host) => r matches OpenAction::Resolve { host: name, port }
                    && name@ == host && port == self.spec_port(),
                OpenModel::Dialling(rest) => r matches OpenAction::Dial { address, port }
                    && rest.len() >= 1 && address@ == rest[0] && is_global(address@) && port
                    == self.spec_port(),
                OpenModel::Connected => r is Connected,
                OpenModel::Failed(error) => r == OpenAction::Failed(error),
            },
    {
        proof {
            use_type_invariant(self);
        }
        match &self.state {
            OpenState::Resolving(host) => OpenAction::Resolve {
                host: octets::copy(host.as_slice()),
                port: self.port,
            },
            OpenState::Dialling(answers, next) => OpenAction::Dial {
                address: answers.get(*next),
                port: self.port,
            },
            OpenState::Connected => OpenAction::Connected,
            OpenState::Failed(error) => OpenAction::Failed(*error),
        }
    }

    /// Takes note of what became of the action.
    pub fn happened(self, event: OpenEvent) -> (r: Opening)
        ensures
            r@ == opened(self@, event@),
            r.spec_port() == self.spec_port(),
    {
        proof {
            use_type_invariant(&self);
        }
        let ghost before = self@;
        let port: u16 = self.port;
        match self.state {
            OpenState::Resolving(host) => match event {
                OpenEvent::Cancelled => Opening {
                    state: OpenState::Failed(PublicConnectError::Cancelled),
                    port,
                },
                OpenEvent::DeadlineExceeded => Opening {
                    state: OpenState::Failed(PublicConnectError::DeadlineExceeded),
                    port,
                },
                OpenEvent::ResolutionFailed => Opening {
                    state: OpenState::Failed(PublicConnectError::Unavailable),
                    port,
                },
                OpenEvent::Resolved(answers) => Opening::dialling(
                    ValidatedAnswers::from_dns(answers.as_slice()),
                    port,
                ),
                _ => Opening { state: OpenState::Resolving(host), port },
            },
            OpenState::Dialling(answers, next) => match event {
                OpenEvent::Cancelled => Opening {
                    state: OpenState::Failed(PublicConnectError::Cancelled),
                    port,
                },
                OpenEvent::DeadlineExceeded => Opening {
                    state: OpenState::Failed(PublicConnectError::DeadlineExceeded),
                    port,
                },
                OpenEvent::Dialled => Opening { state: OpenState::Connected, port },
                OpenEvent::DialFailed => {
                    let total: usize = answers.len();
                    if next < total - 1 {
                        assert(answers@.skip(next as int).drop_first() =~= answers@.skip(next + 1));
                        Opening { state: OpenState::Dialling(answers, next + 1), port }
                    } else {
                        Opening { state: OpenState::Failed(PublicConnectError::Unavailable), port }
                    }
                },
                _ => Opening { state: OpenState::Dialling(answers, next), port },
            },
            OpenState::Connected => Opening { state: OpenState::Connected, port },
            OpenState::Failed(error) => Opening { state: OpenState::Failed(error), port },
        }
    }
}

/// No event leads to a state in which an address that is not globally reachable would be dialled.
pub proof fn only_global_addresses_are_dialled(
    host: target::HostModel,
    state: OpenModel,
    event: EventModel,
)
    requires
        opening_valid(state),
    ensures
        opening_valid(opening(host)),
        opening_valid(opened(state, event)),
{
    match state {
        OpenModel::Dialling(rest) => {
            if rest.len() > 1 {
                let next = rest.drop_first();
                assert forall|i: int| 0 <= i < next.len() implies is_global(#[trigger] next[i]) by {
                    assert(next[i] == rest[i + 1]);
                }
            }
        },
        OpenModel::Resolving(_) => {
            match event {
                EventModel::Resolved(answers) => {
                    if dns_answers(answers) is Ok {
                        let all = dns_answers(answers)->Ok_0;
                        assert forall|i: int| 0 <= i < all.len() implies is_global(
                            #[trigger] all[i],
                        ) by {
                            assert(answer_eligible(answers[i]));
                        }
                    }
                },
                _ => {},
            }
        },
        _ => {},
    }
}

/// One answer that may not be dialled refuses the whole resolution, whatever the other answers.
pub proof fn one_bad_answer_refuses_all(answers: Seq<ResolvedAddress>, at: int)
    requires
        0 <= at < answers.len(),
        !answer_eligible(answers[at]),
    ensures
        dns_answers(answers) == Err::<Seq<ip::IpModel>, PublicConnectError>(
            PublicConnectError::PolicyDenied,
        ),
{
}

/// A bound on the steps that a setup still takes.
pub open spec fn remaining_steps(state: OpenModel) -> nat {
    match state {
        OpenModel::Resolving(_) => (MAX_DNS_ANSWERS + 1) as nat,
        OpenModel::Dialling(rest) => rest.len(),
        _ => 0,
    }
}

/// A setup asks for at most one resolution and at most 64 dials: each step that belongs to its
/// state brings the number of further steps down.
pub proof fn a_setup_ends(state: OpenModel, event: EventModel)
    requires
        opening_valid(state),
        opened(state, event) != state,
    ensures
        remaining_steps(opened(state, event)) < remaining_steps(state),
{
}

} // verus!
