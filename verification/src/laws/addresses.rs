//! Which addresses may be dialled.
use crate::connect::public as dialling;
use crate::connect::public::registry;
use crate::connect::public::{
    EventModel, OpenModel, PublicConnectError, ResolvedAddress,
};
use crate::domain::target::HostModel;
use crate::ip;
use crate::ip::{IpAddress, IpModel};
use crate::public;
use vstd::prelude::*;

verus! {

/// An IPv4 address as one number.
pub open spec fn number_of(o: Seq<u8>) -> int {
    o[0] * 0x100_0000 + o[1] * 0x1_0000 + o[2] * 0x100 + o[3]
}

/// The number lies in the block of addresses from `first` on of which `size` are in it.
pub open spec fn within(n: int, first: int, size: int) -> bool {
    first <= n < first + size
}

/// The IPv4 addresses that are not globally reachable, block by block, each by its first address
/// and its size.
pub proof fn special_ipv4_blocks(o: Seq<u8>)
    requires
        o.len() == 4,
    ensures
        registry::ipv4_is_special(o) <==> {
            let n = number_of(o);
            // 0.0.0.0/8, 10.0.0.0/8, 100.64.0.0/10, 127.0.0.0/8, 169.254.0.0/16, 172.16.0.0/12
            ||| within(n, 0, 0x100_0000)
            ||| within(n, 0x0a00_0000, 0x100_0000)
            ||| within(n, 0x6440_0000, 0x40_0000)
            ||| within(n, 0x7f00_0000, 0x100_0000)
            ||| within(n, 0xa9fe_0000, 0x1_0000)
            ||| within(n, 0xac10_0000, 0x10_0000)
            // 192.0.0.0/24 without 192.0.0.9 and 192.0.0.10, 192.0.2.0/24, 192.88.99.0/24
            ||| within(n, 0xc000_0000, 0x100) && n != 0xc000_0009 && n != 0xc000_000a
            ||| within(n, 0xc000_0200, 0x100)
            ||| within(n, 0xc058_6300, 0x100)
            // 192.168.0.0/16, 198.18.0.0/15, 198.51.100.0/24, 203.0.113.0/24, 224.0.0.0 and above
            ||| within(n, 0xc0a8_0000, 0x1_0000)
            ||| within(n, 0xc612_0000, 0x2_0000)
            ||| within(n, 0xc633_6400, 0x100)
            ||| within(n, 0xcb00_7100, 0x100)
            ||| n >= 0xe000_0000
        },
{
}

/// The IPv4 addresses that are not public in the sense of the plain connector.
pub proof fn private_ipv4_blocks(o: Seq<u8>)
    requires
        o.len() == 4,
    ensures
        public::is_public_address(IpModel::V4(o)) <==> {
            let n = number_of(o);
            &&& n != 0
            &&& !within(n, 0x0a00_0000, 0x100_0000)
            &&& !within(n, 0x6440_0000, 0x40_0000)
            &&& !within(n, 0x7f00_0000, 0x100_0000)
            &&& !within(n, 0xa9fe_0000, 0x1_0000)
            &&& !within(n, 0xac10_0000, 0x10_0000)
            &&& !within(n, 0xc0a8_0000, 0x1_0000)
            &&& !within(n, 0xe000_0000, 0x1000_0000)
        },
{
}

/// The first bits of an IPv6 group.
pub open spec fn begins_with(g: u16, first: u16, size: int) -> bool {
    first <= g < first + size
}

/// The IPv6 addresses that are not globally reachable, block by block.
pub proof fn special_ipv6_blocks(g: Seq<u16>)
    requires
        g.len() == 8,
    ensures
        registry::ipv6_is_special(g) <==> {
            let low = g[0] == 0 && g[1] == 0 && g[2] == 0 && g[3] == 0 && g[4] == 0;
            // 2001::/23 but for 2001:1::1 to 2001:1::3, 2001:3::/32, 2001:4:112::/48,
            // 2001:20::/28 and 2001:30::/28
            let assigned = g[0] == 0x2001 && g[1] < 0x200 && !(g[1] == 3) && !(g[1] == 4 && g[2]
                == 0x112) && !begins_with(g[1], 0x20, 0x10) && !begins_with(g[1], 0x30, 0x10) && !(
            g[1] == 1 && g[2] == 0 && g[3] == 0 && g[4] == 0 && g[5] == 0 && g[6] == 0 && (g[7] == 1
                || g[7] == 2 || g[7] == 3));
            // ::/80, 64:ff9b:1::/48, 100::/64 and 100:0:0:1::/64, 2001:db8::/32, 2002::/16
            ||| low
            ||| g[0] == 0x64 && g[1] == 0xff9b && g[2] == 1
            ||| g[0] == 0x100 && g[1] == 0 && g[2] == 0 && (g[3] == 0 || g[3] == 1)
            ||| assigned
            ||| g[0] == 0x2001 && g[1] == 0xdb8
            ||| g[0] == 0x2002
            // 3fff::/20, 5f00::/16, fc00::/7, fe80::/10 and all above
            ||| g[0] == 0x3fff && begins_with(g[1], 0, 0x1000)
            ||| g[0] == 0x5f00
            ||| begins_with(g[0], 0xfc00, 0x200)
            ||| begins_with(g[0], 0xfe80, 0x180)
        },
{
}

/// The IPv6 addresses that are not public in the sense of the plain connector. An address that
/// carries an IPv4 address is judged as that address.
pub proof fn private_ipv6_blocks(g: Seq<u16>)
    requires
        g.len() == 8,
    ensures
        public::is_public_address(IpModel::V6(g)) <==> {
            let low = g[0] == 0 && g[1] == 0 && g[2] == 0 && g[3] == 0 && g[4] == 0 && g[5] == 0
                && g[6] == 0;
            &&& !(low && (g[7] == 0 || g[7] == 1))
            &&& !begins_with(g[0], 0xfc00, 0x200)
            &&& !begins_with(g[0], 0xfe80, 0x40)
            &&& !begins_with(g[0], 0xff00, 0x100)
        },
        g[0] == 0 && g[1] == 0 && g[2] == 0 && g[3] == 0 && g[4] == 0 && g[5] == 0xffff
            ==> public::canonical(IpModel::V6(g)) == IpModel::V4(
            seq![(g[6] / 256) as u8, (g[6] % 256) as u8, (g[7] / 256) as u8, (g[7] % 256) as u8],
        ),
        !(g[0] == 0 && g[1] == 0 && g[2] == 0 && g[3] == 0 && g[4] == 0 && g[5] == 0xffff)
            ==> public::canonical(IpModel::V6(g)) == IpModel::V6(g),
{
    let one = ip::zeros(7).push(1u16);
    if g[0] == 0 && g[1] == 0 && g[2] == 0 && g[3] == 0 && g[4] == 0 && g[5] == 0 && g[6] == 0 {
        if g[7] == 0 {
            assert(g =~= ip::zeros(8));
        }
        if g[7] == 1 {
            assert(g =~= one);
        }
    }
    if g == ip::zeros(8) {
        assert(g[0] == 0 && g[1] == 0 && g[2] == 0 && g[3] == 0 && g[4] == 0 && g[5] == 0 && g[6]
            == 0 && g[7] == 0);
    }
    if g == one {
        assert(g[0] == 0 && g[1] == 0 && g[2] == 0 && g[3] == 0 && g[4] == 0 && g[5] == 0 && g[6]
            == 0 && g[7] == 1);
    }
}

/// The plain connector dials the first answer, and only where all answers are public.
pub proof fn the_first_of_public_answers_is_dialled(answers: Seq<IpAddress>, at: int)
    ensures
        answers.len() == 0 ==> public::first_answer(answers) == Err::<IpModel, public::AnswerError>(
            public::AnswerError::NoAddresses,
        ),
        0 <= at < answers.len() && !public::is_public_address(public::canonical(answers[at]@))
            ==> public::first_answer(answers) == Err::<IpModel, public::AnswerError>(
            public::AnswerError::Rejected,
        ),
        answers.len() > 0 && (forall|i: int|
            0 <= i < answers.len() ==> public::is_public_address(
                public::canonical((#[trigger] answers[i])@),
            )) ==> public::first_answer(answers) == Ok::<IpModel, public::AnswerError>(
            public::canonical(answers[0]@),
        ),
{
}

/// The state after that many dials failed one after the other.
pub open spec fn after_failures(state: OpenModel, n: nat) -> OpenModel
    decreases n,
{
    if n == 0 {
        state
    } else {
        dialling::opened(after_failures(state, (n - 1) as nat), EventModel::DialFailed)
    }
}

/// Every answer is dialled in turn before a setup gives up: after `n` failures the rest is left, and
/// after the last one nothing is.
pub proof fn every_answer_gets_its_turn(addresses: Seq<IpModel>, n: nat)
    requires
        addresses.len() > 0,
    ensures
        n < addresses.len() ==> after_failures(OpenModel::Dialling(addresses), n)
            == OpenModel::Dialling(addresses.skip(n as int)),
        n >= addresses.len() ==> after_failures(OpenModel::Dialling(addresses), n)
            == OpenModel::Failed(PublicConnectError::Unavailable),
    decreases n,
{
    if n == 0 {
        assert(addresses.skip(0) =~= addresses);
    } else {
        every_answer_gets_its_turn(addresses, (n - 1) as nat);
        if n <= addresses.len() {
            let rest = addresses.skip(n - 1);
            assert(rest.drop_first() =~= addresses.skip(n as int));
        }
    }
}

/// A name is resolved and then all its answers are dialled in the order in which they came, as long
/// as there are between 1 and 64 of them, none has a scope, and all are globally reachable.
pub proof fn global_answers_are_dialled_in_order(name: Seq<u8>, answers: Seq<ResolvedAddress>)
    requires
        1 <= answers.len() <= 64,
        forall|i: int|
            0 <= i < answers.len() ==> (#[trigger] answers[i]).scope_id == 0 && dialling::is_global(
                answers[i].address@,
            ),
    ensures
        dialling::opened(
            dialling::opening(HostModel::Dns(name)),
            EventModel::Resolved(answers),
        ) == OpenModel::Dialling(Seq::new(answers.len(), |i: int| answers[i].address@)),
{
}

/// No answer, too many answers, and one answer that may not be dialled each end the setup.
pub proof fn other_answers_end_the_setup(name: Seq<u8>, answers: Seq<ResolvedAddress>, at: int)
    ensures
        ({
            let next = dialling::opened(
                dialling::opening(HostModel::Dns(name)),
                EventModel::Resolved(answers),
            );
            &&& answers.len() == 0 ==> next == OpenModel::Failed(PublicConnectError::Unavailable)
            &&& answers.len() > 64 ==> next == OpenModel::Failed(PublicConnectError::PolicyDenied)
            &&& 0 <= at < answers.len() && (answers[at].scope_id != 0 || !dialling::is_global(
                answers[at].address@,
            )) ==> next == OpenModel::Failed(PublicConnectError::PolicyDenied)
        }),
{
    if 0 <= at < answers.len() && (answers[at].scope_id != 0 || !dialling::is_global(
        answers[at].address@,
    )) {
        assert(!dialling::answer_eligible(answers[at]));
    }
}

/// An address in place of a name is dialled without a resolution, and only where it is globally
/// reachable.
pub proof fn a_literal_address_is_dialled_itself(a: IpModel)
    ensures
        dialling::opening(HostModel::Ip(a)) == (if dialling::is_global(a) {
            OpenModel::Dialling(seq![a])
        } else {
            OpenModel::Failed(PublicConnectError::PolicyDenied)
        }),
        dialling::is_global(a) <==> match a {
            IpModel::V4(o) => !registry::ipv4_is_special(o),
            IpModel::V6(g) => !registry::ipv6_is_special(g),
        },
{
}

/// Giving up and running out of time end a setup wherever it stands, each with its own reason; a
/// dial that succeeds ends it well.
pub proof fn a_setup_ends_for_its_reason(name: Seq<u8>, rest: Seq<IpModel>)
    ensures
        dialling::opened(OpenModel::Resolving(name), EventModel::Cancelled) == OpenModel::Failed(
            PublicConnectError::Cancelled,
        ),
        dialling::opened(OpenModel::Dialling(rest), EventModel::Cancelled) == OpenModel::Failed(
            PublicConnectError::Cancelled,
        ),
        dialling::opened(OpenModel::Resolving(name), EventModel::DeadlineExceeded)
            == OpenModel::Failed(PublicConnectError::DeadlineExceeded),
        dialling::opened(OpenModel::Dialling(rest), EventModel::DeadlineExceeded)
            == OpenModel::Failed(PublicConnectError::DeadlineExceeded),
        dialling::opened(OpenModel::Resolving(name), EventModel::ResolutionFailed)
            == OpenModel::Failed(PublicConnectError::Unavailable),
        dialling::opened(OpenModel::Dialling(rest), EventModel::Dialled) is Connected,
{
}

} // verus!
