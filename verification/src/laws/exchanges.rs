//! What one side of an exchange writes and the other side makes of it.
use crate::cli::installed;
use crate::cli::registry;
use crate::cli::registry::ChallengeModel;
use crate::connect::broker;
use crate::connect::forward;
use crate::connect::pool;
use crate::connect::pool::Held;
use crate::diagnostics;
use crate::fields;
use crate::headers::HttpVersion;
use crate::laws::forwarding;
use crate::laws::responses;
use crate::octets;
use crate::server::framing;
use crate::server::http1;
use crate::server::http1::IngressError;
use crate::server::listener;
use crate::server::listener::{DrainSummary, TunnelOutcome};
use crate::server::response::ProxyResponse;
use crate::server::router;
use crate::server::router::{DirectAnswer, Http1Outcome, Reply};
use crate::server::streaming;
use crate::text;
use vstd::prelude::*;
use vstd::utf8::*;

verus! {

/// A request head that was written is read with its method, its target, its version and all its
/// fields. It is refused only for what its fields say, and as a bad request.
pub proof fn a_written_head_reads_back(
    method: Seq<u8>,
    target: Seq<u8>,
    version: HttpVersion,
    listed: Seq<(Seq<u8>, Seq<u8>)>,
)
    requires
        fields::is_token(method),
        forwarding::unbroken(target),
        forall|i: int| 0 <= i < listed.len() ==> framing::plain_field(#[trigger] listed[i]),
    ensures
        ({
            let line = method + octets::octets(" "@) + target + (match version {
                HttpVersion::Http10 => octets::octets(" HTTP/1.0\r\n"@),
                HttpVersion::Http11 => octets::octets(" HTTP/1.1\r\n"@),
            });
            let section = forward::field_wire(listed) + octets::octets("\r\n"@);
            let f = http1::collected(listed);
            let hosts = fields::values_of(f, octets::octets("host"@));
            let made = http1::head_with(
                method,
                target,
                version,
                f,
                forall|i: int| 0 <= i < hosts.len() ==> http1::authority_accepted(#[trigger] hosts[i]),
            );
            match http1::head_of(line, section) {
                Ok(h) => made == Some(h) && h.method == method && h.raw_target == target && h.version
                    == version && h.fields == f,
                Err(e) => made is None && e == IngressError::BadRequest,
            }
        }),
{
    forwarding::a_written_request_line_reads_back(method, target, version);
    forwarding::a_written_section_reads_back(listed);
    forwarding::lemma_keys();
}

/// A response head that was written is read with its version, its status and all its fields, and a
/// HEAD request alone makes its body empty.
pub proof fn a_written_response_head_reads_back(
    version: HttpVersion,
    status: u16,
    reason: Seq<u8>,
    listed: Seq<(Seq<u8>, Seq<u8>)>,
    method: Seq<u8>,
)
    requires
        100 <= status <= 599,
        fields::is_field_value(reason),
        forall|i: int| 0 <= i < listed.len() ==> framing::plain_field(#[trigger] listed[i]),
    ensures
        http1::origin_head_of(
            responses::version_text(version) + octets::digits_of(status as nat) + seq![32u8]
                + reason + seq![13u8, 10u8],
            forward::field_wire(listed) + octets::octets("\r\n"@),
            method,
        ) == http1::origin_head_with(
            version,
            status,
            http1::collected(listed),
            method == octets::octets("HEAD"@),
        ),
{
    responses::a_written_status_line_reads_back(version, status, reason);
    forwarding::a_written_section_reads_back(listed);
}

/// A line asks for a head alone where `HEAD` is all that stands before its first space.
pub proof fn only_head_asks_for_a_head_alone(method: Seq<u8>, rest: Seq<u8>)
    requires
        fields::is_token(method),
    ensures
        http1::line_is_head(method.push(32u8) + rest) <==> method == octets::octets("HEAD"@),
{
    let line = method.push(32u8) + rest;
    assert forall|i: int| 0 <= i < method.len() implies #[trigger] line[i] != 32 by {
        assert(line[i] == method[i]);
        assert(fields::is_token_octet(method[i]));
    }
    lemma_first_space(line, method.len() as int, 0);
    assert(line.subrange(0, method.len() as int) =~= method);
}

proof fn lemma_first_space(line: Seq<u8>, at: int, from: int)
    requires
        0 <= from <= at < line.len(),
        line[at] == 32,
        forall|i: int| from <= i < at ==> #[trigger] line[i] != 32,
    ensures
        octets::first_at(line, ' ' as u8, from) == at,
    decreases at - from,
{
    if from < at {
        assert(line[from] != 32);
        lemma_first_space(line, at, from + 1);
    }
}

/// The end of a chunked body is a chunk of no octets, and behind it the trailers as they were.
pub proof fn the_end_of_a_body_reads_back(f: fields::Fields)
    requires
        forall|i: int|
            0 <= i < fields::listing(f, f.order).len() ==> framing::plain_field(
                #[trigger] fields::listing(f, f.order)[i],
            ),
    ensures
        ({
            let end = streaming::body_end(Some(f));
            &&& end.subrange(0, 3) == seq!['0' as u8, 13u8, 10u8]
            &&& http1::section_fields(end.skip(3)) == Some(fields::listing(f, f.order))
            &&& streaming::body_end(None).subrange(0, 3) == seq!['0' as u8, 13u8, 10u8]
            &&& http1::section_fields(streaming::body_end(None).skip(3)) == Some(
                Seq::<(Seq<u8>, Seq<u8>)>::empty(),
            )
        }),
{
    let listed = fields::listing(f, f.order);
    forwarding::lemma_line_literals();
    forwarding::a_written_section_reads_back(listed);
    let none = Seq::<(Seq<u8>, Seq<u8>)>::empty();
    forwarding::a_written_section_reads_back(none);
    reveal_strlit("0\r\n");
    reveal_strlit("0\r\n\r\n");
    is_ascii_chars_encode_utf8("0\r\n"@);
    is_ascii_chars_encode_utf8("0\r\n\r\n"@);
    let end = streaming::body_end(Some(f));
    assert(octets::octets("0\r\n"@) =~= seq![48u8, 13u8, 10u8]);
    assert(octets::octets("0\r\n\r\n"@) =~= seq![48u8, 13u8, 10u8, 13u8, 10u8]);
    assert(end.skip(3) =~= forward::field_wire(listed) + octets::octets("\r\n"@));
    assert(end.subrange(0, 3) =~= seq![48u8, 13u8, 10u8]);
    assert(streaming::body_end(None).subrange(0, 3) =~= seq![48u8, 13u8, 10u8]);
    assert(forward::field_wire(none) =~= Seq::empty());
    assert(streaming::body_end(None).skip(3) =~= forward::field_wire(none) + octets::octets(
        "\r\n"@,
    ));
}

/// Up to the deadline of a pool all that it keeps lives, and at the deadline something is dead.
pub proof fn a_pool_wakes_for_its_first_death<K, V>(
    s: Seq<Held<K, V>>,
    lifetime: u64,
    at: u64,
    now: u64,
)
    requires
        pool::is_deadline(s, lifetime, Some(at)),
    ensures
        s.len() > 0,
        now < at ==> forall|i: int|
            0 <= i < s.len() ==> pool::is_live((#[trigger] s[i]).idle_since, lifetime, now),
        at < u64::MAX && now >= at ==> exists|i: int|
            0 <= i < s.len() && !pool::is_live((#[trigger] s[i]).idle_since, lifetime, now),
        pool::is_deadline(s, lifetime, None) <==> s.len() == 0,
{
    let i = choose|i: int|
        0 <= i < s.len() && at == pool::clamped_sum((#[trigger] s[i]).idle_since, lifetime);
    assert(0 <= i < s.len());
    if at < u64::MAX && now >= at {
        assert(!pool::is_live(s[i].idle_since, lifetime, now));
    }
    if now < at {
        assert forall|j: int| 0 <= j < s.len() implies pool::is_live(
            (#[trigger] s[j]).idle_since,
            lifetime,
            now,
        ) by {
            assert(at <= pool::clamped_sum(s[j].idle_since, lifetime));
        }
    }
}

/// Each outcome is counted once, under its own name.
pub proof fn an_outcome_is_counted_once(s: DrainSummary, outcome: TunnelOutcome)
    requires
        listener::counted(s) < usize::MAX,
    ensures
        ({
            let r = listener::recorded(s, outcome);
            &&& listener::counted(r) == listener::counted(s) + 1
            &&& r.completed == s.completed + (if outcome is Completed { 1int } else { 0 })
            &&& r.failed == s.failed + (if outcome is Failed { 1int } else { 0 })
            &&& r.join_failed == s.join_failed + (if outcome is JoinFailed { 1int } else { 0 })
            &&& r.aborted == s.aborted + (if outcome is Aborted { 1int } else { 0 })
        }),
{
}

/// A moment has one date and one time of day, and they belong to no other moment.
pub proof fn a_moment_has_one_time_of_day(
    seconds: nat,
    year: nat,
    month: nat,
    day: nat,
    hour: nat,
    minute: nat,
    second: nat,
    other: nat,
)
    requires
        diagnostics::is_time(seconds, year, month, day, hour, minute, second),
    ensures
        hour < 24,
        minute < 60,
        second < 60,
        seconds == diagnostics::day_number(year as int, month as int, day as int) * 86400 + hour
            * 3600 + minute * 60 + second,
        diagnostics::is_time(other, year, month, day, hour, minute, second) ==> other == seconds,
{
}

/// A registry is its host and, behind the first slash, a namespace. An image is asked for under the
/// namespace.
pub proof fn a_registry_is_a_host_and_a_namespace(
    host: Seq<char>,
    namespace: Seq<char>,
    image: Seq<char>,
)
    requires
        !host.contains('/'),
    ensures
        registry::registry_host(host) == host,
        registry::registry_namespace(host) == Seq::<char>::empty(),
        registry::registry_host(host + seq!['/'] + namespace) == host,
        registry::registry_namespace(host + seq!['/'] + namespace) == namespace,
        registry::repository(host, image) == image,
        namespace.len() > 0 ==> registry::repository(host + seq!['/'] + namespace, image)
            == namespace + seq!['/'] + image,
        namespace.len() == 0 ==> registry::repository(host + seq!['/'] + namespace, image) == image,
{
    let base = host + seq!['/'] + namespace;
    lemma_first_slash(host, 0, host.len() as int);
    assert forall|i: int| 0 <= i < host.len() implies #[trigger] base[i] != '/' by {
        assert(host.contains(host[i]));
    }
    lemma_first_slash(base, 0, host.len() as int);
    assert(host.subrange(0, host.len() as int) =~= host);
    assert(base.subrange(0, host.len() as int) =~= host);
    assert(base.subrange(host.len() as int + 1, base.len() as int) =~= namespace);
    reveal_strlit("/");
    assert("/"@ =~= seq!['/']);
}

proof fn lemma_first_slash(s: Seq<char>, from: int, at: int)
    requires
        0 <= from <= at <= s.len(),
        at < s.len() ==> s[at] == '/',
        forall|i: int| from <= i < at ==> #[trigger] s[i] != '/',
    ensures
        text::char_at(s, '/', from) == at,
    decreases at - from,
{
    if from < at {
        assert(s[from] != '/');
        lemma_first_slash(s, from + 1, at);
    }
}

/// A token is asked for at the realm of the challenge. Its service and its scope go there as
/// parameters, in this order, and only where the challenge has them.
pub proof fn a_token_is_asked_for_as_challenged(c: ChallengeModel)
    ensures
        ({
            let a = registry::token_address(c);
            let service = "service="@ + c.service;
            let scope = "scope="@ + c.scope;
            &&& a.subrange(0, c.realm.len() as int) == c.realm
            &&& a.skip(c.realm.len() as int) == (if c.service.len() > 0 && c.scope.len() > 0 {
                seq!['?'] + service + seq!['&'] + scope
            } else if c.service.len() > 0 {
                seq!['?'] + service
            } else if c.scope.len() > 0 {
                seq!['?'] + scope
            } else {
                Seq::empty()
            })
        }),
{
    reveal_strlit("?");
    reveal_strlit("&");
    assert("?"@ =~= seq!['?']);
    assert("&"@ =~= seq!['&']);
    let a = registry::token_address(c);
    let service = "service="@ + c.service;
    let scope = "scope="@ + c.scope;
    assert(a.subrange(0, c.realm.len() as int) =~= c.realm);
    assert(a.skip(c.realm.len() as int) =~= (if c.service.len() > 0 && c.scope.len() > 0 {
        seq!['?'] + service + seq!['&'] + scope
    } else if c.service.len() > 0 {
        seq!['?'] + service
    } else if c.scope.len() > 0 {
        seq!['?'] + scope
    } else {
        Seq::empty()
    }));
}

/// A local request goes on with its path and query, and without one asks for the root.
pub proof fn a_local_request_keeps_its_path(path: Seq<u8>)
    ensures
        broker::outbound_path(Some(path)) == path,
        broker::outbound_path(None) == seq!['/' as u8],
{
    forwarding::lemma_line_literals();
}

/// Of a list of harnesses every name is written, with the version that stands first under it, and
/// `latest` where that is empty. Nothing else is written.
pub proof fn each_name_is_written_once(l: Seq<(Seq<char>, Seq<char>)>, name: Seq<char>)
    ensures
        installed::written_entries(l).dom().contains(name) <==> name.len() > 0 && exists|i: int|
            0 <= i < l.len() && (#[trigger] l[i]).0 == name,
        forall|i: int|
            0 <= i < l.len() && name.len() > 0 && (#[trigger] l[i]).0 == name && (forall|j: int|
                0 <= j < i ==> (#[trigger] l[j]).0 != name)
                ==> installed::written_entries(l)[name] == (if l[i].1.len() == 0 {
                "latest"@
            } else {
                l[i].1
            }),
    decreases l.len(),
{
    if l.len() > 0 {
        let front = l.drop_last();
        each_name_is_written_once(front, name);
        assert(forall|i: int| 0 <= i < front.len() ==> #[trigger] front[i] == l[i]);
        assert(l.last() == l[l.len() - 1]);
        assert((exists|i: int| 0 <= i < l.len() && (#[trigger] l[i]).0 == name) <==> (exists|i: int|
            0 <= i < front.len() && (#[trigger] front[i]).0 == name) || l.last().0 == name) by {
            if exists|i: int| 0 <= i < l.len() && (#[trigger] l[i]).0 == name {
                let i = choose|i: int| 0 <= i < l.len() && (#[trigger] l[i]).0 == name;
                if i < front.len() {
                    assert(front[i].0 == name);
                }
            }
            if exists|i: int| 0 <= i < front.len() && (#[trigger] front[i]).0 == name {
                let i = choose|i: int| 0 <= i < front.len() && (#[trigger] front[i]).0 == name;
                assert(l[i].0 == name);
            }
        }
        assert forall|i: int|
            0 <= i < l.len() && name.len() > 0 && (#[trigger] l[i]).0 == name && (forall|j: int|
                0 <= j < i ==> (#[trigger] l[j]).0 != name) implies installed::written_entries(
            l,
        )[name] == (if l[i].1.len() == 0 {
            "latest"@
        } else {
            l[i].1
        }) by {
            if i < front.len() {
                assert(front[i] == l[i]);
                assert(forall|j: int| 0 <= j < i ==> (#[trigger] front[j]).0 != name);
            } else {
                assert(forall|j: int| 0 <= j < front.len() ==> (#[trigger] front[j]).0 != name);
            }
        }
    }
}

/// An asterisk is answered to an OPTIONS request alone, with the methods that the proxy knows and
/// without a body.
pub proof fn an_asterisk_is_for_options(r: ProxyResponse, method: Seq<u8>)
    requires
        router::is_asterisk_response(r, method),
    ensures
        method == octets::octets("OPTIONS"@) ==> r.status == 204 && r.body@.len() == 0
            && fields::values_of(fields::contents(r.headers), octets::octets("allow"@)) == seq![
            octets::octets("GET, HEAD, OPTIONS, CONNECT"@),
        ],
        method != octets::octets("OPTIONS"@) ==> r.status == 400,
{
}

/// An answer of the proxy itself has the status, the kind and the text that were meant, counts its
/// text, and names the methods that it takes where it refuses one.
pub proof fn an_answer_says_what_it_means(r: ProxyResponse, a: DirectAnswer)
    requires
        router::is_direct_response(r, a),
    ensures
        r.status == a.status,
        a.body ==> r.body@ == a.text,
        !a.body ==> r.body@.len() == 0,
        fields::values_of(fields::contents(r.headers), octets::octets("content-length"@)) == seq![
            octets::digits_of(a.text.len()),
        ],
        fields::values_of(fields::contents(r.headers), octets::octets("content-type"@)) == seq![
            a.kind,
        ],
        fields::values_of(fields::contents(r.headers), octets::octets("allow"@)) == (if a.allow {
            seq![octets::octets("GET, HEAD"@)]
        } else {
            Seq::empty()
        }),
{
    reveal_strlit("content-length");
    reveal_strlit("content-type");
    reveal_strlit("allow");
    is_ascii_chars_encode_utf8("content-length"@);
    is_ascii_chars_encode_utf8("content-type"@);
    is_ascii_chars_encode_utf8("allow"@);
    assert(octets::octets("content-length"@).len() == 14);
    assert(octets::octets("content-type"@).len() == 12);
    assert(octets::octets("allow"@).len() == 5);
}

/// What the origin answered reaches the client under its own status, without the fields of the hop
/// and, to a HEAD request, without a body. The connection is kept where the request was sent whole.
pub proof fn what_the_origin_answered_goes_on(
    o: Http1Outcome,
    status: u16,
    headers: fields::Fields,
    complete: bool,
    head: bool,
    name: Seq<u8>,
)
    requires
        router::is_forwarded(o, status, headers, complete, head),
        crate::headers::nominations_of(headers) is Some,
    ensures
        o.reusable == complete,
        o.body_consumed == complete,
        o.reply matches Reply::Origin { status: sent, headers: kept, body } && sent == status && body
            == !head && fields::values_of(fields::contents(kept), name) == (if
        forwarding::stays_on_its_hop(name) || crate::headers::nominations_of(headers)->0.contains(
            name,
        ) {
            Seq::<Seq<u8>>::empty()
        } else {
            fields::values_of(headers, name)
        }),
{
    forwarding::lemma_sanitized(headers, name);
}

} // verus!
