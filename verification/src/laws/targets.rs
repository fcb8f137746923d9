//! What a request line asks for.
use crate::domain::policy;
use crate::domain::target;
use crate::domain::target::{
    AbsoluteScheme, AuthorityModel, HostModel, LocalModel, LoopbackHostModel, LoopbackModel,
    ParsedHostModel, PublicModel, RequestKind, TargetModel,
};
use crate::ip;
use crate::ip::IpModel;
use crate::octets;
use vstd::prelude::*;
use vstd::utf8::*;

verus! {

/// The octet at the index stands for itself or begins a percent sign with two hexadecimal digits.
pub open spec fn stands_in_a_target(s: Seq<u8>, i: int) -> bool {
    if s[i] == '%' as u8 {
        i + 2 < s.len() && octets::is_hex(s[i + 1]) && octets::is_hex(s[i + 2])
    } else {
        target::is_uri_octet(s[i])
    }
}

/// Every octet from the index on stands for itself or begins a complete escape.
pub open spec fn all_stand_in_a_target(s: Seq<u8>, from: int) -> bool {
    forall|i: int| from <= i < s.len() ==> #[trigger] stands_in_a_target(s, i)
}

/// A target is made of octets that stand for themselves and of complete percent escapes, wherever
/// these stand.
pub proof fn a_target_is_octets_and_escapes(s: Seq<u8>, from: int)
    requires
        0 <= from <= s.len(),
    ensures
        target::uri_octets_from(s, from) <==> all_stand_in_a_target(s, from),
    decreases s.len() - from,
{
    if from < s.len() {
        if s[from] == '%' as u8 {
            if from + 2 < s.len() && octets::is_hex(s[from + 1]) && octets::is_hex(s[from + 2]) {
                a_target_is_octets_and_escapes(s, from + 3);
                assert(stands_in_a_target(s, from));
                assert(stands_in_a_target(s, from + 1));
                assert(stands_in_a_target(s, from + 2));
            } else {
                assert(!stands_in_a_target(s, from));
            }
        } else {
            a_target_is_octets_and_escapes(s, from + 1);
            assert(stands_in_a_target(s, from) == target::is_uri_octet(s[from]));
        }
    }
}

/// An escape may stand between any two parts that are accepted by themselves.
pub proof fn an_escape_may_stand_anywhere(a: Seq<u8>, high: u8, low: u8, b: Seq<u8>)
    requires
        target::uri_octets_from(a, 0),
        target::uri_octets_from(b, 0),
        octets::is_hex(high),
        octets::is_hex(low),
    ensures
        target::uri_octets_from(a + seq!['%' as u8, high, low] + b, 0),
{
    let s = a + seq!['%' as u8, high, low] + b;
    a_target_is_octets_and_escapes(a, 0);
    a_target_is_octets_and_escapes(b, 0);
    let n = a.len() as int;
    assert forall|i: int| 0 <= i < s.len() implies #[trigger] stands_in_a_target(s, i) by {
        if i < n {
            assert(stands_in_a_target(a, i));
            if s[i] == '%' as u8 {
                assert(s[i + 1] == a[i + 1] && s[i + 2] == a[i + 2]);
            }
        } else if i >= n + 3 {
            assert(stands_in_a_target(b, i - n - 3));
            if s[i] == '%' as u8 {
                assert(s[i + 1] == b[i - n - 2] && s[i + 2] == b[i - n - 1]);
            }
        } else {
            assert(s[n + 1] == high && s[n + 2] == low);
        }
    }
    a_target_is_octets_and_escapes(s, 0);
}

/// A path with its query as a request line may hold it: empty, or from a slash or a question mark
/// on, of octets that stand for themselves and complete escapes, without square brackets.
pub open spec fn is_path(p: Seq<u8>) -> bool {
    p.len() > 0 ==> {
        &&& p[0] == '/' as u8 || p[0] == '?' as u8
        &&& all_stand_in_a_target(p, 0)
        &&& forall|i: int| 0 <= i < p.len() ==> #[trigger] p[i] != '[' as u8 && p[i] != ']' as u8
    }
}

/// The octets that an authority may hold: letters, digits, hyphens, dots, colons and brackets.
pub open spec fn is_authority_text(v: Seq<u8>) -> bool {
    v.len() > 0 && forall|i: int|
        0 <= i < v.len() ==> octets::is_alnum(#[trigger] v[i]) || v[i] == '-' as u8 || v[i]
            == '.' as u8 || v[i] == ':' as u8 || v[i] == '[' as u8 || v[i] == ']' as u8
}

proof fn lemma_path(p: Seq<u8>)
    requires
        is_path(p),
    ensures
        !p.contains('#' as u8),
        p.len() > 0 ==> target::is_absolute_path_and_query(p),
{
    if p.len() > 0 {
        a_target_is_octets_and_escapes(p, 0);
        if p.contains('#' as u8) {
            let i = choose|i: int| 0 <= i < p.len() && p[i] == '#' as u8;
            assert(stands_in_a_target(p, i));
        }
        if p.contains('[' as u8) {
            let i = choose|i: int| 0 <= i < p.len() && p[i] == '[' as u8;
        }
        if p.contains(']' as u8) {
            let i = choose|i: int| 0 <= i < p.len() && p[i] == ']' as u8;
        }
    }
}

proof fn lemma_authority_end(s: Seq<u8>, from: int, end: int)
    requires
        0 <= from <= end <= s.len(),
        forall|i: int| from <= i < end ==> #[trigger] s[i] != '/' as u8 && s[i] != '?' as u8,
        end < s.len() ==> s[end] == '/' as u8 || s[end] == '?' as u8,
    ensures
        target::authority_end(s, from) == end,
    decreases end - from,
{
    if from < end {
        lemma_authority_end(s, from + 1, end);
    }
}

/// The parts of an absolute target are what stands before the colon, between the slashes, and from
/// the next slash or question mark on.
proof fn lemma_absolute(scheme: Seq<u8>, v: Seq<u8>, path: Seq<u8>)
    requires
        target::scheme_of(scheme) is Some,
        forall|i: int| 0 <= i < scheme.len() ==> octets::is_alpha(#[trigger] scheme[i]),
        is_authority_text(v),
        is_path(path),
    ensures
        target::absolute_target(scheme + seq![58u8, 47u8, 47u8] + v + path)
            == target::authority_target(v, target::scheme_of(scheme), RequestKind::Http, path),
{
    let raw = scheme + seq![58u8, 47u8, 47u8] + v + path;
    let colon = scheme.len() as int;
    let start = colon + 3;
    let end = start + v.len();
    lemma_path(path);
    assert forall|i: int| 0 <= i < raw.len() implies #[trigger] stands_in_a_target(raw, i) && raw[i]
        != '#' as u8 by {
        if i < colon {
            assert(raw[i] == scheme[i]);
        } else if start <= i < end {
            assert(raw[i] == v[i - start]);
        } else if i >= end {
            let j = i - end;
            assert(raw[i] == path[j]);
            assert(stands_in_a_target(path, j));
            if path[j] == '%' as u8 {
                assert(raw[i + 1] == path[j + 1] && raw[i + 2] == path[j + 2]);
            }
        }
    }
    a_target_is_octets_and_escapes(raw, 0);
    assert(!raw.contains('#' as u8)) by {
        if raw.contains('#' as u8) {
            let i = choose|i: int| 0 <= i < raw.len() && raw[i] == '#' as u8;
            assert(stands_in_a_target(raw, i));
        }
    }
    assert forall|i: int| 0 <= i < colon implies raw[i] != 58u8 by {
        assert(raw[i] == scheme[i]);
    }
    octets::lemma_first_at_is(raw, 58u8, 0, colon);
    assert(raw.subrange(0, colon) =~= scheme);
    assert forall|i: int| start <= i < end implies #[trigger] raw[i] != '/' as u8 && raw[i]
        != '?' as u8 by {
        assert(raw[i] == v[i - start]);
    }
    if path.len() > 0 {
        assert(raw[end] == path[0]);
    }
    lemma_authority_end(raw, start, end);
    assert(raw.subrange(start, end) =~= v);
    assert(raw.subrange(end, raw.len() as int) =~= path);
}

proof fn lemma_schemes()
    ensures
        octets::octets("http://"@) =~= octets::octets("http"@) + seq![58u8, 47u8, 47u8],
        octets::octets("https://"@) =~= octets::octets("https"@) + seq![58u8, 47u8, 47u8],
        octets::octets("http"@).len() == 4,
        octets::octets("https"@).len() == 5,
        octets::octets("CONNECT"@).len() == 7,
        octets::octets("*"@) =~= seq![42u8],
        octets::octets("localhost"@).len() == 9,
        octets::lower(octets::octets("http"@)) =~= octets::octets("http"@),
        octets::lower(octets::octets("https"@)) =~= octets::octets("https"@),
        forall|i: int| 0 <= i < 4 ==> octets::is_alpha(#[trigger] octets::octets("http"@)[i]),
        forall|i: int| 0 <= i < 5 ==> octets::is_alpha(#[trigger] octets::octets("https"@)[i]),
        octets::octets("http"@)[0] == 104,
        octets::octets("https"@)[0] == 104,
{
    reveal_strlit("http://");
    reveal_strlit("https://");
    reveal_strlit("http");
    reveal_strlit("https");
    reveal_strlit("CONNECT");
    reveal_strlit("*");
    reveal_strlit("localhost");
    is_ascii_chars_encode_utf8("http://"@);
    is_ascii_chars_encode_utf8("https://"@);
    is_ascii_chars_encode_utf8("http"@);
    is_ascii_chars_encode_utf8("https"@);
    is_ascii_chars_encode_utf8("CONNECT"@);
    is_ascii_chars_encode_utf8("*"@);
    is_ascii_chars_encode_utf8("localhost"@);
}

/// The authority of a public host holds only octets of an authority.
proof fn lemma_public_text(host: HostModel, port: u16, explicit_port: bool)
    requires
        target::is_public_host(host),
    ensures
        is_authority_text(target::public_authority_text(host, port, explicit_port)),
{
    let v = target::public_authority_text(host, port, explicit_port);
    let digits = octets::digits_of(port as nat);
    octets::lemma_digits_of(port as nat);
    let name = match host {
        HostModel::Ip(IpModel::V6(g)) => seq!['[' as u8] + ip::ipv6_text(g) + seq![']' as u8],
        _ => target::host_text(host),
    };
    assert(is_authority_text(name)) by {
        match host {
            HostModel::Dns(n) => {
                target::lemma_canonical_octets(n);
            },
            HostModel::Ip(IpModel::V4(o)) => {
                ip::lemma_ip_text_plain(IpModel::V4(o));
                assert(ip::ip_text(IpModel::V4(o)) == name);
                assert(name.len() > 0) by {
                    ip::ipv4_text_reads_back(o);
                    octets::lemma_digits_of(o[0] as nat);
                }
            },
            HostModel::Ip(IpModel::V6(g)) => {
                ip::lemma_ip_text_plain(IpModel::V6(g));
                let t = ip::ipv6_text(g);
                assert forall|i: int| 0 <= i < name.len() implies octets::is_alnum(
                    #[trigger] name[i],
                ) || name[i] == '-' as u8 || name[i] == '.' as u8 || name[i] == ':' as u8 || name[i]
                    == '[' as u8 || name[i] == ']' as u8 by {
                    if 1 <= i < name.len() - 1 {
                        assert(name[i] == t[i - 1]);
                        assert(ip::is_address_octet(ip::ip_text(IpModel::V6(g))[i - 1]));
                    }
                }
            },
        }
    }
    if explicit_port {
        assert(v =~= name.push(':' as u8) + digits);
        assert forall|i: int| 0 <= i < v.len() implies octets::is_alnum(#[trigger] v[i]) || v[i]
            == '-' as u8 || v[i] == '.' as u8 || v[i] == ':' as u8 || v[i] == '[' as u8 || v[i]
            == ']' as u8 by {
            if i < name.len() {
                assert(v[i] == name[i]);
            } else if i > name.len() {
                assert(v[i] == digits[i - name.len() - 1]);
                assert(octets::is_digit(digits[i - name.len() - 1]));
            }
        }
    } else {
        assert(v == name);
    }
}

/// A plain request for a public host goes to that host, on the port that is written or on port 80,
/// for the path and the query as they are written, percent escapes and all.
pub proof fn a_public_request_keeps_host_port_and_path(
    method: Seq<u8>,
    host: HostModel,
    port: u16,
    explicit_port: bool,
    path: Seq<u8>,
)
    requires
        method != octets::octets("CONNECT"@),
        target::is_public_host(host),
        port >= 1,
        explicit_port || port == 80,
        is_path(path),
    ensures
        ({
            let authority = target::public_authority_text(host, port, explicit_port);
            target::target_of(method, octets::octets("http://"@) + authority + path)
                == TargetModel::PublicHttp(
                PublicModel { authority, host, port, explicit_port, path_and_query: path },
            )
        }),
{
    lemma_schemes();
    let v = target::public_authority_text(host, port, explicit_port);
    lemma_public_text(host, port, explicit_port);
    let raw = octets::octets("http://"@) + v + path;
    let http = octets::octets("http"@);
    assert(raw =~= http + seq![58u8, 47u8, 47u8] + v + path);
    lemma_absolute(http, v, path);
    target::a_canonical_authority_reads_back(host, port, explicit_port, Some(80u16), false);
    assert(raw[0] == 104);
    assert(raw.len() > 1);
}

/// A tunnel request for a public host goes to that host on the port that is written.
pub proof fn a_tunnel_request_keeps_host_and_port(host: HostModel, port: u16)
    requires
        target::is_public_host(host),
        port >= 1,
    ensures
        ({
            let authority = target::public_authority_text(host, port, true);
            target::target_of(octets::octets("CONNECT"@), authority) == TargetModel::PublicConnect(
                PublicModel {
                    authority,
                    host,
                    port,
                    explicit_port: true,
                    path_and_query: Seq::empty(),
                },
            )
        }),
        target::target_of(
            octets::octets("CONNECT"@),
            target::public_authority_text(host, port, false),
        ) is Malformed,
{
    target::a_canonical_authority_reads_back(host, port, true, None, true);
    target::a_canonical_authority_reads_back(host, port, false, Some(port), false);
    let v = target::public_authority_text(host, port, false);
    lemma_public_text(host, port, false);
    match host {
        HostModel::Ip(IpModel::V6(g)) => {
            let t = ip::ipv6_text(g);
            ip::lemma_ip_text_plain(IpModel::V6(g));
            let close = t.len() as int + 1;
            assert forall|i: int| 1 <= i < close implies v[i] != ']' as u8 by {
                assert(v[i] == t[i - 1]);
                assert(ip::is_address_octet(ip::ip_text(IpModel::V6(g))[i - 1]));
            }
            octets::lemma_first_at_is(v, ']' as u8, 1, close);
            assert(v.subrange(close + 1, v.len() as int) =~= Seq::empty());
        },
        _ => {
            assert forall|i: int| 0 <= i < v.len() implies v[i] != ':' as u8 by {
                match host {
                    HostModel::Dns(n) => {
                        target::lemma_canonical_octets(n);
                    },
                    HostModel::Ip(a) => {
                        ip::lemma_ip_text_plain(a);
                        assert(octets::is_digit(ip::ip_text(a)[i]) || ip::ip_text(a)[i] == '.' as u8);
                    },
                }
            }
            octets::lemma_first_at_is(v, ':' as u8, 0, v.len() as int);
            assert(v.subrange(v.len() as int, v.len() as int) =~= Seq::empty());
        },
    }
}

/// A request for an `https` address outside a tunnel is turned away, whatever the host.
pub proof fn an_https_address_needs_a_tunnel(
    method: Seq<u8>,
    host: HostModel,
    port: u16,
    explicit_port: bool,
    path: Seq<u8>,
)
    requires
        method != octets::octets("CONNECT"@),
        target::is_public_host(host),
        port >= 1,
        explicit_port || port == 443,
        is_path(path),
    ensures
        target::target_of(
            method,
            octets::octets("https://"@) + target::public_authority_text(host, port, explicit_port)
                + path,
        ) is HttpsAbsoluteRejected,
{
    lemma_schemes();
    let v = target::public_authority_text(host, port, explicit_port);
    lemma_public_text(host, port, explicit_port);
    let raw = octets::octets("https://"@) + v + path;
    let https = octets::octets("https"@);
    assert(raw =~= https + seq![58u8, 47u8, 47u8] + v + path);
    lemma_absolute(https, v, path);
    target::a_canonical_authority_reads_back(host, port, explicit_port, Some(443u16), false);
    assert(raw[0] == 104);
    assert(target::scheme_of(https) == Some(AbsoluteScheme::Https)) by {
        assert(octets::lower(https).len() == 5);
    }
}

/// The authority is the loopback host with its port, whether a port may be left out or not.
spec fn reads_as_loopback(v: Seq<u8>, a: LoopbackModel) -> bool {
    let read = Some(
        AuthorityModel {
            host: ParsedHostModel::Local(a.host),
            port: a.port,
            explicit_port: true,
        },
    );
    &&& is_authority_text(v)
    &&& target::authority_of(v, Some(80u16), false) == read
    &&& target::authority_of(v, None, true) == read
}

proof fn lemma_port_suffix(port: u16)
    requires
        port >= 1,
    ensures
        octets::all_digits(octets::digits_of(port as nat)),
        target::suffix_port(seq![58u8] + octets::digits_of(port as nat), Some(80u16), false)
            == Some((port, true)),
        target::suffix_port(seq![58u8] + octets::digits_of(port as nat), None, true) == Some(
            (port, true),
        ),
{
    let digits = octets::digits_of(port as nat);
    octets::lemma_digits_of(port as nat);
    let suffix = seq![58u8] + digits;
    assert(suffix.subrange(1, suffix.len() as int) =~= digits);
}

/// A plain host of this machine with a port.
proof fn lemma_plain_loopback(name: Seq<u8>, host: LoopbackHostModel, port: u16)
    requires
        port >= 1,
        name.len() > 0,
        forall|i: int| 0 <= i < name.len() ==> octets::is_alnum(#[trigger] name[i]) || name[i] == 46,
        target::plain_host(name) == Some(ParsedHostModel::Local(host)),
    ensures
        reads_as_loopback(
            name + (seq![58u8] + octets::digits_of(port as nat)),
            LoopbackModel { host, port },
        ),
{
    let digits = octets::digits_of(port as nat);
    lemma_port_suffix(port);
    let suffix = seq![58u8] + digits;
    let v = name + suffix;
    let n = name.len() as int;
    assert(v.subrange(0, n) =~= name);
    assert(v.subrange(n, v.len() as int) =~= suffix);
    assert forall|i: int| 0 <= i < n implies octets::is_alnum(#[trigger] v[i]) || v[i] == 46 by {
        assert(v[i] == name[i]);
    }
    lemma_plain_octets(v, n, digits);
    octets::lemma_first_at_is(v, 58u8, 0, n);
    octets::lemma_first_at_is(v, 58u8, n + 1, v.len() as int);
    assert(!v.contains(91u8));
    assert(!v.contains(93u8));
    assert(octets::is_alnum(v[0]) || v[0] == 46);
}

proof fn lemma_bracket_loopback(port: u16)
    requires
        port >= 1,
    ensures
        reads_as_loopback(
            seq![91u8, 58u8, 58u8, 49u8, 93u8] + (seq![58u8] + octets::digits_of(port as nat)),
            LoopbackModel { host: LoopbackHostModel::Ipv6Loopback, port },
        ),
{
    let digits = octets::digits_of(port as nat);
    lemma_port_suffix(port);
    let suffix = seq![58u8] + digits;
    let t = seq![58u8, 58u8, 49u8];
    let v = seq![91u8, 58u8, 58u8, 49u8, 93u8] + suffix;
    assert(v.subrange(5, v.len() as int) =~= suffix);
    octets::lemma_first_at_is(v, 93u8, 1, 4);
    assert(v.subrange(1, 4) =~= t);
    lemma_one(t);
    lemma_plain_octets(v, 5, digits);
}

proof fn lemma_loopback_text(a: LoopbackModel)
    requires
        target::is_loopback(a),
    ensures
        reads_as_loopback(target::loopback_text(a), a),
{
    let v = target::loopback_text(a);
    let suffix = seq![58u8] + octets::digits_of(a.port as nat);
    match a.host {
        LoopbackHostModel::Ipv6Loopback => {
            reveal_strlit("[::1]:");
            is_ascii_chars_encode_utf8("[::1]:"@);
            lemma_bracket_loopback(a.port);
            assert(v =~= seq![91u8, 58u8, 58u8, 49u8, 93u8] + suffix);
        },
        LoopbackHostModel::Localhost => {
            reveal_strlit("localhost");
            reveal_strlit("localhost:");
            is_ascii_chars_encode_utf8("localhost"@);
            is_ascii_chars_encode_utf8("localhost:"@);
            let name = octets::octets("localhost"@);
            lemma_localhost_is_local();
            lemma_plain_loopback(name, a.host, a.port);
            assert(v =~= name + suffix);
        },
        LoopbackHostModel::Ipv4(o) => {
            let name = ip::ipv4_text(o);
            ip::ipv4_text_reads_back(o);
            ip::lemma_ip_text_plain(IpModel::V4(o));
            octets::lemma_digits_of(o[0] as nat);
            assert forall|i: int| 0 <= i < name.len() implies octets::is_alnum(#[trigger] name[i])
                || name[i] == 46 by {
                assert(octets::is_digit(ip::ip_text(IpModel::V4(o))[i]) || ip::ip_text(
                    IpModel::V4(o),
                )[i] == 46);
            }
            lemma_plain_loopback(name, a.host, a.port);
            assert(v =~= name + suffix);
        },
    }
}

/// Plain octets, then a colon and digits.
proof fn lemma_plain_octets(v: Seq<u8>, n: int, digits: Seq<u8>)
    requires
        0 < n < v.len(),
        v.subrange(n, v.len() as int) == seq![58u8] + digits,
        octets::all_digits(digits),
        forall|i: int|
            0 <= i < n ==> octets::is_alnum(#[trigger] v[i]) || v[i] == 46 || v[i] == 58 || v[i] == 91
                || v[i] == 93,
    ensures
        is_authority_text(v),
        octets::is_ascii(v),
        !target::has_authority_breaker(v),
        forall|i: int| n < i < v.len() ==> octets::is_digit(#[trigger] v[i]),
        v[n] == 58,
{
    let s = v.subrange(n, v.len() as int);
    assert(s[0] == v[n]);
    assert(s.len() == 1 + digits.len());
    assert forall|i: int| n < i < v.len() implies octets::is_digit(#[trigger] v[i]) by {
        assert(s[i - n] == v[i]);
        assert(octets::is_digit(digits[i - n - 1]));
    }
    assert forall|i: int| 0 <= i < v.len() implies octets::is_alnum(#[trigger] v[i]) || v[i]
        == '-' as u8 || v[i] == '.' as u8 || v[i] == ':' as u8 || v[i] == '[' as u8 || v[i]
        == ']' as u8 by {
        if i > n {
            assert(octets::is_digit(v[i]));
        }
    }
}

proof fn lemma_one(t: Seq<u8>)
    requires
        t == seq![58u8, 58u8, 49u8],
    ensures
        ip::ipv6_of(t) == Some(ip::zeros(7).push(1u16)),
        !t.contains(37u8),
        !ip::is_ipv4_mapped(ip::zeros(7).push(1u16)),
{
    let one = seq![49u8];
    assert(ip::double_colon(t, 0) == 0);
    assert(t.subrange(0, 0) =~= Seq::empty());
    assert(t.subrange(2, 3) =~= one);
    ip::lemma_pieces_single(one, 58u8);
    assert(one.drop_last() =~= Seq::empty());
    assert(ip::hexadecimal(one.drop_last()) == 0);
    assert(ip::hexadecimal(one) == 1);
    assert(ip::group_value(one) == Some(1u16));
    let p = seq![one];
    assert(p.drop_first() =~= Seq::empty());
    assert(ip::groups_of(p.drop_first(), true) == Some(Seq::<u16>::empty()));
    assert(p[0] == one);
    assert(ip::groups_of(p, true) =~= Some(seq![1u16] + Seq::<u16>::empty()));
    assert(seq![1u16] + Seq::<u16>::empty() =~= seq![1u16]);
    assert(Seq::<u16>::empty() + ip::zeros(7) + seq![1u16] =~= ip::zeros(7).push(1u16));
    assert(ip::zeros(7).push(1u16)[5] == 0);
}

/// The name `localhost` is this machine.
proof fn lemma_localhost_is_local()
    ensures
        target::plain_host(octets::octets("localhost"@)) == Some(
            ParsedHostModel::Local(LoopbackHostModel::Localhost),
        ),
{
    reveal_strlit("localhost");
    is_ascii_chars_encode_utf8("localhost"@);
    let name = octets::octets("localhost"@);
    ip::lemma_pieces_single(name, 46u8);
    assert(octets::pieces(name, '.' as u8).len() == 1);
    assert(ip::ipv4_of(name) is None);
    assert(!octets::is_digit(name[0]));
    assert(policy::dns_label(name)) by {
        assert forall|i: int| 0 <= i < name.len() implies octets::is_alnum(#[trigger] name[i]) by {}
    }
    assert(policy::valid_dns_name(name));
    assert(octets::lower(name) =~= name);
    assert(policy::dns_name_of(name) == Some(name));
}

/// A request for a loopback address is local: a plain one to that address and port for its path,
/// and a tunnel to that address and port.
pub proof fn a_loopback_request_is_local(method: Seq<u8>, a: LoopbackModel, path: Seq<u8>)
    requires
        method != octets::octets("CONNECT"@),
        target::is_loopback(a),
        is_path(path),
    ensures
        target::target_of(method, octets::octets("http://"@) + target::loopback_text(a) + path)
            == TargetModel::LocalHttp(
            LocalModel { authority: a, explicit_port: true, path_and_query: path },
        ),
        target::target_of(octets::octets("CONNECT"@), target::loopback_text(a))
            == TargetModel::LocalConnect(
            LocalModel { authority: a, explicit_port: true, path_and_query: Seq::empty() },
        ),
{
    lemma_schemes();
    let v = target::loopback_text(a);
    lemma_loopback_text(a);
    let raw = octets::octets("http://"@) + v + path;
    let http = octets::octets("http"@);
    assert(raw =~= http + seq![58u8, 47u8, 47u8] + v + path);
    lemma_absolute(http, v, path);
    assert(raw[0] == 104);
}

/// A target from a slash on is for the proxy itself, as it is; an asterisk is for the proxy as a
/// whole; and every other target of the first form is malformed.
pub proof fn a_path_alone_is_for_the_proxy(method: Seq<u8>, raw: Seq<u8>)
    requires
        method != octets::octets("CONNECT"@),
        raw.len() > 0,
        raw[0] == '/' as u8,
    ensures
        is_path(raw) ==> target::target_of(method, raw) == TargetModel::Direct(raw),
        !is_path(raw) ==> target::target_of(method, raw) is Malformed,
        target::target_of(method, seq!['*' as u8]) is Asterisk,
{
    lemma_schemes();
    assert(raw != seq![42u8]);
    if is_path(raw) {
        lemma_path(raw);
    } else {
        a_target_is_octets_and_escapes(raw, 0);
    }
}

/// The scheme is read in any mix of cases.
pub proof fn a_scheme_ignores_case(s: Seq<u8>)
    ensures
        target::scheme_of(octets::lower(s)) == target::scheme_of(s),
        octets::lower(s) == octets::octets("http"@) <==> target::scheme_of(s) == Some(
            AbsoluteScheme::Http,
        ),
        octets::lower(s) == octets::octets("https"@) <==> target::scheme_of(s) == Some(
            AbsoluteScheme::Https,
        ),
{
    lemma_schemes();
    assert(octets::lower(octets::lower(s)) =~= octets::lower(s));
}

/// A host name is read in any mix of cases, and a dot at its end changes nothing.
pub proof fn a_host_name_ignores_case_and_the_root_dot(h: Seq<u8>)
    requires
        h.len() > 0,
    ensures
        target::plain_host(octets::lower(h)) == target::plain_host(h),
        policy::dns_name_of(h) is Some && h.last() != '.' as u8 && !target::is_numeric(h)
            ==> target::plain_host(h.push('.' as u8)) == target::plain_host(h),
{
    let l = octets::lower(h);
    assert(target::is_numeric(l) <==> target::is_numeric(h)) by {
        assert forall|i: int| 0 <= i < h.len() implies ((octets::is_digit(l[i]) || l[i] == '.' as u8)
            <==> (octets::is_digit(h[i]) || h[i] == '.' as u8)) by {}
        if target::is_numeric(l) {
            assert forall|i: int| 0 <= i < h.len() implies octets::is_digit(#[trigger] h[i]) || h[i]
                == '.' as u8 by {
                assert(octets::is_digit(l[i]) || l[i] == '.' as u8);
            }
        }
        if target::is_numeric(h) {
            assert forall|i: int| 0 <= i < l.len() implies octets::is_digit(#[trigger] l[i]) || l[i]
                == '.' as u8 by {
                assert(octets::is_digit(h[i]) || h[i] == '.' as u8);
            }
        }
    }
    if target::is_numeric(h) {
        assert forall|i: int| 0 <= i < h.len() implies l[i] == h[i] by {
            assert(octets::is_digit(h[i]) || h[i] == '.' as u8);
        }
        assert(l =~= h);
    } else {
        if ip::ipv4_of(h) is Some {
            target::lemma_quad_is_numeric(h);
        }
        if ip::ipv4_of(l) is Some {
            target::lemma_quad_is_numeric(l);
        }
        lemma_name_ignores_case(h);
        if policy::dns_name_of(h) is Some && h.last() != '.' as u8 {
            let d = h.push('.' as u8);
            assert(d.drop_last() =~= h);
            assert(!target::is_numeric(d)) by {
                let k = choose|k: int|
                    0 <= k < h.len() && !(octets::is_digit(#[trigger] h[k]) || h[k] == '.' as u8);
                assert(d[k] == h[k]);
            }
            if ip::ipv4_of(d) is Some {
                target::lemma_quad_is_numeric(d);
            }
        }
    }
}

proof fn lemma_name_ignores_case(h: Seq<u8>)
    requires
        h.len() > 0,
    ensures
        policy::dns_name_of(octets::lower(h)) == policy::dns_name_of(h),
{
    let l = octets::lower(h);
    let s = policy::without_root_dot(h);
    let t = policy::without_root_dot(l);
    assert(t =~= octets::lower(s));
    target::lemma_lower_labels(s);
    let a = octets::pieces(s, '.' as u8);
    let b = octets::pieces(t, '.' as u8);
    assert forall|i: int| 0 <= i < a.len() implies policy::dns_label(#[trigger] b[i])
        == policy::dns_label(a[i]) by {
        lemma_label_ignores_case(a[i]);
        assert(b[i] == octets::lower(a[i]));
    }
    assert(policy::valid_dns_name(t) ==> policy::valid_dns_name(s)) by {
        if policy::valid_dns_name(t) {
            assert forall|i: int| 0 <= i < a.len() implies policy::dns_label(#[trigger] a[i]) by {
                assert(policy::dns_label(b[i]));
            }
        }
    }
    assert(policy::valid_dns_name(s) ==> policy::valid_dns_name(t));
    assert(octets::lower(t) =~= octets::lower(s));
}

proof fn lemma_label_ignores_case(l: Seq<u8>)
    ensures
        policy::dns_label(octets::lower(l)) == policy::dns_label(l),
{
    let m = octets::lower(l);
    assert forall|i: int| 0 <= i < l.len() implies ((octets::is_alnum(m[i]) || m[i] == '-' as u8)
        <==> (octets::is_alnum(l[i]) || l[i] == '-' as u8)) by {}
    if policy::dns_label(m) {
        assert forall|i: int| 0 <= i < l.len() implies octets::is_alnum(#[trigger] l[i]) || l[i]
            == '-' as u8 by {
            assert(octets::is_alnum(m[i]) || m[i] == '-' as u8);
        }
    }
    if policy::dns_label(l) {
        assert forall|i: int| 0 <= i < m.len() implies octets::is_alnum(#[trigger] m[i]) || m[i]
            == '-' as u8 by {
            assert(octets::is_alnum(l[i]) || l[i] == '-' as u8);
        }
    }
}

/// A label as a name on the wire may have it.
pub open spec fn is_label(l: Seq<u8>) -> bool {
    &&& 1 <= l.len() <= 63
    &&& l[0] != 45 && l[l.len() - 1] != 45
    &&& forall|i: int|
        0 <= i < l.len() ==> 48 <= #[trigger] l[i] <= 57 || 65 <= l[i] <= 90 || 97 <= l[i] <= 122
            || l[i] == 45
}

/// A name is one label, or a label, a dot and a name, in at most 253 octets.
pub proof fn a_name_is_labels_with_dots(l: Seq<u8>, n: Seq<u8>)
    requires
        !l.contains('.' as u8),
    ensures
        policy::valid_dns_name(l) <==> is_label(l),
        l.len() + 1 + n.len() <= 253 ==> (policy::valid_dns_name(l.push('.' as u8) + n) <==> is_label(
            l,
        ) && policy::valid_dns_name(n)),
        l.len() + 1 + n.len() > 253 ==> !policy::valid_dns_name(l.push('.' as u8) + n),
{
    let dot = '.' as u8;
    ip::lemma_pieces_single(l, dot);
    assert(policy::dns_label(l) <==> is_label(l)) by {
        if policy::dns_label(l) {
            assert forall|i: int| 0 <= i < l.len() implies 48 <= #[trigger] l[i] <= 57 || 65 <= l[i]
                <= 90 || 97 <= l[i] <= 122 || l[i] == 45 by {
                assert(octets::is_alnum(l[i]) || l[i] == '-' as u8);
            }
        }
        if is_label(l) {
            assert forall|i: int| 0 <= i < l.len() implies octets::is_alnum(#[trigger] l[i]) || l[i]
                == '-' as u8 by {}
        }
    }
    let one = octets::pieces(l, dot);
    assert(one[0] == l);
    let s = l.push(dot) + n;
    ip::lemma_pieces_split(l, dot, n);
    let a = octets::pieces(s, dot);
    let b = octets::pieces(n, dot);
    assert(a == seq![l] + b);
    assert(a[0] == l);
    if policy::valid_dns_name(s) {
        assert(policy::dns_label(a[0]));
        assert forall|i: int| 0 <= i < b.len() implies policy::dns_label(#[trigger] b[i]) by {
            assert(a[i + 1] == b[i]);
        }
    }
    if s.len() <= 253 && is_label(l) && policy::valid_dns_name(n) {
        assert forall|i: int| 0 <= i < a.len() implies policy::dns_label(#[trigger] a[i]) by {
            if i > 0 {
                assert(a[i] == b[i - 1]);
            }
        }
    }
}

/// The parts of a URI ask for what its text asks for.
pub proof fn a_parsed_uri_asks_for_what_its_text_asks_for(
    method: Seq<u8>,
    secure: bool,
    v: Seq<u8>,
    path: Seq<u8>,
)
    requires
        method != octets::octets("CONNECT"@),
        is_authority_text(v),
        is_path(path),
    ensures
        ({
            let scheme = if secure {
                octets::octets("https"@)
            } else {
                octets::octets("http"@)
            };
            let parts = target::UriModel {
                scheme: Some(scheme),
                authority: Some(v),
                path_and_query: Some(path),
            };
            target::parts_target(method, parts) == target::target_of(
                method,
                scheme + seq![':' as u8, '/' as u8, '/' as u8] + v + path,
            )
        }),
        path.len() > 0 ==> target::parts_target(
            method,
            (target::UriModel { scheme: None, authority: None, path_and_query: Some(path) }),
        ) == target::target_of(method, path),
        target::parts_target(
            octets::octets("CONNECT"@),
            (target::UriModel { scheme: None, authority: Some(v), path_and_query: None }),
        ) == target::target_of(octets::octets("CONNECT"@), v),
{
    lemma_schemes();
    lemma_path(path);
    let scheme = if secure {
        octets::octets("https"@)
    } else {
        octets::octets("http"@)
    };
    assert(octets::lower(scheme).len() == scheme.len());
    lemma_absolute(scheme, v, path);
    let raw = scheme + seq![58u8, 47u8, 47u8] + v + path;
    assert(raw[0] == 104);
}

/// A port is its number, from 1 to 65535, with any number of zeros in front.
pub proof fn a_port_is_its_number(n: nat, s: Seq<u8>)
    ensures
        target::port_of(octets::digits_of(n)) == (if 1 <= n <= 65535 {
            Some(n as u16)
        } else {
            None
        }),
        s.len() > 0 ==> target::port_of(seq!['0' as u8] + s) == target::port_of(s),
        target::port_of(s) is Some ==> s.len() > 0 && octets::all_digits(s),
{
    octets::lemma_digits_of(n);
    if s.len() > 0 {
        let z = seq![48u8] + s;
        lemma_leading_zero(s);
        if octets::all_digits(s) {
            assert forall|i: int| 0 <= i < z.len() implies octets::is_digit(#[trigger] z[i]) by {
                if i > 0 {
                    assert(octets::is_digit(s[i - 1]));
                }
            }
        }
        if octets::all_digits(z) {
            assert forall|i: int| 0 <= i < s.len() implies octets::is_digit(#[trigger] s[i]) by {
                assert(octets::is_digit(z[i + 1]));
            }
        }
    }
}

proof fn lemma_leading_zero(s: Seq<u8>)
    ensures
        octets::decimal(seq![48u8] + s) == octets::decimal(s),
    decreases s.len(),
{
    let z = seq![48u8] + s;
    if s.len() > 0 {
        lemma_leading_zero(s.drop_last());
        assert(z.drop_last() =~= seq![48u8] + s.drop_last());
    } else {
        assert(z.drop_last() =~= Seq::empty());
        assert(octets::decimal(z.drop_last()) == 0);
    }
}

} // verus!
