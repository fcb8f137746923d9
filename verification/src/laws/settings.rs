//! What the settings of the proxy mean.
use crate::config;
use crate::config::{
    ConfigError, EndpointModel, Environment, ListenerError, LocalPathsError, PolicyPathsError,
};
use crate::domain::policy;
use crate::ip;
use crate::ip::{IpModel, SocketModel};
use crate::octets;
use crate::text;
use vstd::prelude::*;
use vstd::utf8::*;

verus! {

proof fn lemma_port_digits(port: u16)
    ensures
        octets::spec_parse_decimal(octets::digits_of(port as nat), 65535) == Some(port as u64),
        !octets::digits_of(port as nat).contains(58u8),
{
    let d = octets::digits_of(port as nat);
    octets::lemma_digits_of(port as nat);
    if d.contains(58u8) {
        let i = choose|i: int| 0 <= i < d.len() && d[i] == 58u8;
        assert(octets::is_digit(d[i]));
    }
}

/// A dotted quad, a colon and a port spell the socket of the two.
pub proof fn a_written_ipv4_socket_reads_back(o: Seq<u8>, port: u16)
    requires
        o.len() == 4,
    ensures
        ip::socket_of(ip::ipv4_text(o).push(':' as u8) + octets::digits_of(port as nat)) == Some(
            SocketModel { address: IpModel::V4(o), scope_id: 0, port },
        ),
{
    let t = ip::ipv4_text(o);
    let d = octets::digits_of(port as nat);
    let s = t.push(58u8) + d;
    let n = t.len() as int;
    ip::ipv4_text_reads_back(o);
    ip::lemma_ip_text_plain(IpModel::V4(o));
    lemma_port_digits(port);
    octets::lemma_digits_of(o[0] as nat);
    assert forall|i: int| 0 <= i < n implies octets::is_digit(#[trigger] s[i]) || s[i] == 46 by {
        assert(s[i] == t[i]);
        assert(octets::is_digit(ip::ip_text(IpModel::V4(o))[i]) || ip::ip_text(IpModel::V4(o))[i]
            == 46);
    }
    assert(s[n] == 58);
    octets::lemma_first_at_is(s, 58u8, 0, n);
    assert(s.subrange(0, n) =~= t);
    assert(s.subrange(n + 1, s.len() as int) =~= d);
    assert(octets::is_digit(s[0]) || s[0] == 46);
}

/// An IPv6 address in brackets, a colon and a port spell the socket of the two; a scope may follow
/// the address behind a percent sign.
pub proof fn a_written_ipv6_socket_reads_back(g: Seq<u16>, port: u16, scope: u32)
    requires
        g.len() == 8,
    ensures
        ip::socket_of(
            seq!['[' as u8] + ip::ipv6_text(g) + seq![']' as u8, ':' as u8] + octets::digits_of(
                port as nat,
            ),
        ) == Some(SocketModel { address: IpModel::V6(g), scope_id: 0, port }),
        ip::socket_of(
            seq!['[' as u8] + (ip::ipv6_text(g) + seq!['%' as u8] + octets::digits_of(scope as nat))
                + seq![']' as u8, ':' as u8] + octets::digits_of(port as nat),
        ) == Some(SocketModel { address: IpModel::V6(g), scope_id: scope, port }),
{
    let t = ip::ipv6_text(g);
    let z = octets::digits_of(scope as nat);
    let u = t + seq![37u8] + z;
    ip::ipv6_text_reads_back(g);
    ip::lemma_ip_text_plain(IpModel::V6(g));
    octets::lemma_digits_of(scope as nat);
    assert forall|i: int| 0 <= i < t.len() implies #[trigger] t[i] != 93 && t[i] != 37 by {
        assert(ip::is_address_octet(ip::ip_text(IpModel::V6(g))[i]));
    }
    octets::lemma_first_at_is(t, 37u8, 0, t.len() as int);
    assert(t.subrange(0, t.len() as int) =~= t);
    assert(ip::scoped_of(t) == Some((g, 0u32)));
    assert forall|i: int| 0 <= i < t.len() implies u[i] != 37 by {
        assert(u[i] == t[i]);
    }
    assert(u[t.len() as int] == 37);
    octets::lemma_first_at_is(u, 37u8, 0, t.len() as int);
    assert(u.subrange(0, t.len() as int) =~= t);
    assert(u.subrange(t.len() as int + 1, u.len() as int) =~= z);
    assert(ip::scoped_of(u) == Some((g, scope)));
    assert forall|i: int| 0 <= i < u.len() implies #[trigger] u[i] != 93 by {
        if i < t.len() {
            assert(u[i] == t[i]);
        } else if i > t.len() {
            assert(u[i] == z[i - t.len() - 1]);
            assert(octets::is_digit(z[i - t.len() - 1]));
        }
    }
    lemma_bracketed(t, g, 0, port);
    lemma_bracketed(u, g, scope, port);
}

proof fn lemma_bracketed(t: Seq<u8>, g: Seq<u16>, scope: u32, port: u16)
    requires
        ip::scoped_of(t) == Some((g, scope)),
        forall|i: int| 0 <= i < t.len() ==> #[trigger] t[i] != 93,
    ensures
        ip::socket_of(seq![91u8] + t + seq![93u8, 58u8] + octets::digits_of(port as nat)) == Some(
            SocketModel { address: IpModel::V6(g), scope_id: scope, port },
        ),
{
    let d = octets::digits_of(port as nat);
    let s = seq![91u8] + t + seq![93u8, 58u8] + d;
    let close = t.len() as int + 1;
    lemma_port_digits(port);
    assert forall|i: int| 0 <= i < close implies s[i] != 93 by {
        if i > 0 {
            assert(s[i] == t[i - 1]);
        }
    }
    assert(s[close] == 93 && s[close + 1] == 58);
    octets::lemma_first_at_is(s, 93u8, 0, close);
    assert(s.subrange(1, close) =~= t);
    assert(s.subrange(close + 2, s.len() as int) =~= d);
}

/// A port alone listens on it on every IPv4 address of the machine, and a socket listens where it
/// says. Port zero is refused as such.
pub proof fn a_listener_is_a_port_or_a_socket(o: Seq<u8>, port: u16)
    requires
        o.len() == 4,
    ensures
        port >= 1 ==> config::listener_of(seq![':' as u8] + octets::digits_of(port as nat)) == Ok::<
            SocketModel,
            ListenerError,
        >(
            (SocketModel {
                address: IpModel::V4(seq![0u8, 0u8, 0u8, 0u8]),
                scope_id: 0,
                port,
            }),
        ),
        port >= 1 ==> config::listener_of(
            ip::ipv4_text(o).push(':' as u8) + octets::digits_of(port as nat),
        ) == Ok::<SocketModel, ListenerError>(
            (SocketModel { address: IpModel::V4(o), scope_id: 0, port }),
        ),
        config::listener_of(ip::ipv4_text(o).push(':' as u8) + octets::digits_of(0)) == Err::<
            SocketModel,
            ListenerError,
        >(ListenerError::ZeroPort),
{
    reveal_strlit("0.0.0.0");
    is_ascii_chars_encode_utf8("0.0.0.0"@);
    let any = seq![0u8, 0u8, 0u8, 0u8];
    let d = octets::digits_of(port as nat);
    a_written_ipv4_socket_reads_back(any, port);
    a_written_ipv4_socket_reads_back(o, port);
    a_written_ipv4_socket_reads_back(o, 0);
    assert(octets::digits_of(0) =~= seq![48u8]);
    assert(ip::ipv4_text(any) =~= octets::octets("0.0.0.0"@));
    let bare = seq![58u8] + d;
    assert(octets::octets("0.0.0.0"@) + bare =~= ip::ipv4_text(any).push(58u8) + d);
    octets::lemma_digits_of(o[0] as nat);
    let t = ip::ipv4_text(o);
    assert(t[0] == octets::digits_of(o[0] as nat)[0]);
    assert(octets::is_digit(octets::digits_of(o[0] as nat)[0]));
    assert((t.push(58u8) + d)[0] == t[0]);
    assert((t.push(58u8) + octets::digits_of(0))[0] == t[0]);
}

/// The broker is at a socket or at a name with a port. The name is kept in lower case, and the port
/// is never zero.
pub proof fn a_broker_is_at_a_socket_or_a_name(o: Seq<u8>, name: Seq<u8>, port: u16)
    requires
        o.len() == 4,
        policy::valid_dns_name(name),
        name.len() > 0,
        ip::ipv4_of(name) is None,
    ensures
        config::endpoint_of(ip::ipv4_text(o).push(':' as u8) + octets::digits_of(port as nat)) == (
        if port >= 1 {
            Ok::<EndpointModel, config::BrokerAddressError>(
                EndpointModel::Socket((SocketModel { address: IpModel::V4(o), scope_id: 0, port })),
            )
        } else {
            Err(config::BrokerAddressError)
        }),
        config::endpoint_of(name.push(':' as u8) + octets::digits_of(port as nat)) == (if port >= 1 {
            Ok::<EndpointModel, config::BrokerAddressError>(
                EndpointModel::Host { host: octets::lower(name), port },
            )
        } else {
            Err(config::BrokerAddressError)
        }),
{
    a_written_ipv4_socket_reads_back(o, port);
    let d = octets::digits_of(port as nat);
    lemma_port_digits(port);
    octets::lemma_digits_of(port as nat);
    let s = name.push(58u8) + d;
    let n = name.len() as int;
    crate::domain::target::lemma_label_octets(name);
    assert forall|i: int| 0 <= i < n implies (octets::is_alnum(#[trigger] s[i]) || s[i] == 45 || s[i]
        == 46) by {
        assert(s[i] == name[i]);
    }
    assert(s[n] == 58);
    octets::lemma_first_at_is(s, 58u8, 0, n);
    assert forall|i: int| n < i < s.len() implies s[i] != 58 by {
        assert(s[i] == d[i - n - 1]);
        assert(d.contains(d[i - n - 1]));
    }
    octets::lemma_last_before_is(s, 58u8, s.len() as int, n);
    assert(s.subrange(0, n) =~= name);
    assert(s.subrange(n + 1, s.len() as int) =~= d);
    assert(octets::is_alnum(s[0]) || s[0] == 45 || s[0] == 46);
}

proof fn lemma_comma(a: Seq<char>, rest: Seq<char>)
    requires
        !a.contains(','),
    ensures
        text::char_pieces(a.push(',') + rest, ',') == seq![a] + text::char_pieces(rest, ','),
        text::char_pieces(a, ',') == seq![a],
{
    let s = a.push(',') + rest;
    let n = a.len() as int;
    assert forall|i: int| 0 <= i < n implies s[i] != ',' && a[i] != ',' by {
        assert(s[i] == a[i]);
        assert(a.contains(a[i]));
    }
    assert(s[n] == ',');
    text::lemma_char_at_is(s, ',', 0, n);
    text::lemma_char_at_is(a, ',', 0, n);
    assert(s.subrange(0, n) =~= a);
    assert(s.subrange(n + 1, s.len() as int) =~= rest);
}

/// The policy files are the paths between the commas, in their order; an empty path refuses the
/// whole list.
pub proof fn paths_stand_between_commas(a: Seq<char>, b: Seq<char>, c: Seq<char>)
    requires
        !a.contains(','),
        !b.contains(','),
        !c.contains(','),
    ensures
        ({
            let some_empty = a.len() == 0 || b.len() == 0 || c.len() == 0;
            let three = a.push(',') + (b.push(',') + c);
            &&& a.len() > 0 ==> config::paths_of(a) == Ok::<Seq<Seq<char>>, PolicyPathsError>(
                seq![a],
            )
            &&& config::paths_of(three) == (if some_empty {
                Err(PolicyPathsError)
            } else {
                Ok::<Seq<Seq<char>>, PolicyPathsError>(seq![a, b, c])
            })
            &&& config::local_paths_of(three) == (if some_empty {
                Err(LocalPathsError::Empty)
            } else {
                Ok::<Seq<Seq<char>>, LocalPathsError>(seq![a, b, c])
            })
            &&& config::local_paths_of(a.push(',') + b) == Err::<Seq<Seq<char>>, LocalPathsError>(
                LocalPathsError::Count,
            )
        }),
{
    let two = b.push(',') + c;
    let three = a.push(',') + two;
    lemma_comma(a, two);
    lemma_comma(b, c);
    lemma_comma(c, c);
    lemma_comma(a, b);
    let p = text::char_pieces(three, ',');
    assert(p =~= seq![a, b, c]);
    let q = text::char_pieces(a.push(',') + b, ',');
    assert(q =~= seq![a, b]);
    assert(p[0] == a && p[1] == b && p[2] == c);
    let one = text::char_pieces(a, ',');
    assert(one[0] == a);
    if config::some_empty(p) {
        let i = choose|i: int| 0 <= i < p.len() && (#[trigger] p[i]).len() == 0;
        assert(i == 0 || i == 1 || i == 2);
    }
}

/// Each variable sets its own part of the configuration, and an empty one is as good as none: the
/// list of policy files goes before the single file, and what is not set has its default.
pub proof fn each_variable_sets_its_part(e: Environment)
    ensures
        config::config_of(e) matches Ok(c) ==> {
            &&& c.mode_file == (match config::setting(e.mode_file) {
                Some(path) => path,
                None => "/etc/vhrn/mode"@,
            })
            &&& c.deny_log == config::setting(e.deny_log)
            &&& match config::setting(e.allowlists) {
                Some(list) => config::paths_of(list) == Ok::<Seq<Seq<char>>, PolicyPathsError>(
                    c.allowlists,
                ),
                None => c.allowlists == seq![
                    match config::setting(e.allowlist) {
                        Some(path) => path,
                        None => "/etc/vhrn/allowlist"@,
                    },
                ],
            }
            &&& config::listener_of(
                octets::octets(
                    match config::setting(e.proxy_listen) {
                        Some(socket) => socket,
                        None => ":8080"@,
                    },
                ),
            ) == Ok::<SocketModel, ListenerError>(c.listen)
            &&& match c.local {
                Some(local) => config::setting(e.broker_token_file) == Some(local.token_file) && (
                config::setting(e.broker_addr) matches Some(addr) && config::endpoint_of(
                    octets::octets(addr),
                ) == Ok::<EndpointModel, config::BrokerAddressError>(local.broker_addr)) && (
                config::setting(e.loopback_allowlists) matches Some(paths)
                    && config::local_paths_of(paths) == Ok::<Seq<Seq<char>>, LocalPathsError>(
                    local.policy_paths,
                )),
                None => config::setting(e.loopback_allowlists) is None && config::setting(
                    e.broker_addr,
                ) is None && config::setting(e.broker_token_file) is None,
            }
        },
        config::setting(e.mode_file) is Some <==> (e.mode_file matches Some(v) && v@.len() > 0),
{
}

/// The first setting that is wrong is the one that is told: the policy files before local routing,
/// and both before the listener.
pub proof fn the_first_wrong_setting_is_told(e: Environment)
    ensures
        config::allowlists_of(e) matches Err(error) ==> config::config_of(e) == Err::<
            config::ConfigModel,
            ConfigError,
        >(error),
        config::allowlists_of(e) is Ok && (config::local_of(e) is Err) ==> config::config_of(e)
            == Err::<config::ConfigModel, ConfigError>(config::local_of(e)->Err_0),
        config::allowlists_of(e) is Ok && config::local_of(e) is Ok ==> (config::config_of(e) matches Err(
            error,
        ) ==> error is ProxyListen),
        config::config_of(e) is Ok <==> config::allowlists_of(e) is Ok && config::local_of(e) is Ok
            && config::listener_of(
            octets::octets(config::setting_or(e.proxy_listen, ":8080"@)),
        ) is Ok,
{
}

} // verus!
