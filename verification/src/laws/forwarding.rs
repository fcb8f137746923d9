//! What an origin gets of a request.
use crate::connect::forward;
use crate::fields;
use crate::fields::Fields;
use crate::headers;
use crate::headers::HttpVersion;
use crate::ip;
use crate::octets;
use crate::server::framing;
use crate::server::http1;
use crate::server::http1::{BodyFraming, HeadModel};
use vstd::prelude::*;
use vstd::utf8::*;

verus! {

/// Octets that can stand between the spaces of a request line.
pub open spec fn unbroken(s: Seq<u8>) -> bool {
    s.len() > 0 && forall|i: int| 0 <= i < s.len() ==> #[trigger] s[i] > 32 && s[i] != 127
}

/// The first line of what is on the wire, with its ending.
pub open spec fn first_line(wire: Seq<u8>) -> Seq<u8> {
    wire.subrange(0, http1::crlf_at(wire, 0) + 2)
}

/// The literals of a request line.
pub proof fn lemma_line_literals()
    ensures
        octets::octets("HTTP/1.0"@) =~= seq![72u8, 84u8, 84u8, 80u8, 47u8, 49u8, 46u8, 48u8],
        octets::octets("HTTP/1.1"@) =~= seq![72u8, 84u8, 84u8, 80u8, 47u8, 49u8, 46u8, 49u8],
        octets::octets("\r\n"@) =~= seq![13u8, 10u8],
        octets::octets(" "@) =~= seq![32u8],
        octets::octets(": "@) =~= seq![58u8, 32u8],
        octets::octets("/"@) =~= seq![47u8],
        octets::octets("*"@) =~= seq![42u8],
        octets::octets(" HTTP/1.1\r\n"@) =~= seq![32u8] + octets::octets("HTTP/1.1"@) + seq![
            13u8,
            10u8,
        ],
        octets::octets(" HTTP/1.0\r\n"@) =~= seq![32u8] + octets::octets("HTTP/1.0"@) + seq![
            13u8,
            10u8,
        ],
{
    reveal_strlit("HTTP/1.0");
    reveal_strlit("HTTP/1.1");
    reveal_strlit("\r\n");
    reveal_strlit(" ");
    reveal_strlit(": ");
    reveal_strlit("/");
    reveal_strlit("*");
    reveal_strlit(" HTTP/1.1\r\n");
    reveal_strlit(" HTTP/1.0\r\n");
    is_ascii_chars_encode_utf8("HTTP/1.0"@);
    is_ascii_chars_encode_utf8("HTTP/1.1"@);
    is_ascii_chars_encode_utf8("\r\n"@);
    is_ascii_chars_encode_utf8(" "@);
    is_ascii_chars_encode_utf8(": "@);
    is_ascii_chars_encode_utf8("/"@);
    is_ascii_chars_encode_utf8("*"@);
    is_ascii_chars_encode_utf8(" HTTP/1.1\r\n"@);
    is_ascii_chars_encode_utf8(" HTTP/1.0\r\n"@);
}

/// A request line that is written reads back: the method, the target and the version.
pub proof fn a_written_request_line_reads_back(
    method: Seq<u8>,
    target: Seq<u8>,
    version: HttpVersion,
)
    requires
        fields::is_token(method),
        unbroken(target),
    ensures
        http1::request_line_of(
            method + octets::octets(" "@) + target + (match version {
                HttpVersion::Http10 => octets::octets(" HTTP/1.0\r\n"@),
                HttpVersion::Http11 => octets::octets(" HTTP/1.1\r\n"@),
            }),
        ) == Ok::<(Seq<u8>, Seq<u8>, HttpVersion), http1::IngressError>((method, target, version)),
{
    lemma_line_literals();
    let named = match version {
        HttpVersion::Http10 => octets::octets("HTTP/1.0"@),
        HttpVersion::Http11 => octets::octets("HTTP/1.1"@),
    };
    let line = method + octets::octets(" "@) + target + (match version {
        HttpVersion::Http10 => octets::octets(" HTTP/1.0\r\n"@),
        HttpVersion::Http11 => octets::octets(" HTTP/1.1\r\n"@),
    });
    let text = method.push(32u8) + (target.push(32u8) + named);
    assert(line =~= text + seq![13u8, 10u8]);
    assert(line.subrange(0, line.len() - 2) =~= text);
    assert(http1::without_crlf(line) == Some(text));
    assert(!method.contains(32u8)) by {
        if method.contains(32u8) {
            let i = choose|i: int| 0 <= i < method.len() && method[i] == 32u8;
            assert(fields::is_token_octet(method[i]));
        }
    }
    ip::lemma_pieces_split(method, 32u8, target.push(32u8) + named);
    ip::lemma_pieces_split(target, 32u8, named);
    ip::lemma_pieces_single(named, 32u8);
    let p = octets::pieces(text, ' ' as u8);
    assert(p =~= seq![method, target, named]);
    assert(named[7] == (if version == HttpVersion::Http10 { 48u8 } else { 49u8 }));
    assert(!http1::has_control(target)) by {
        if http1::has_control(target) {
            let i = choose|i: int| 0 <= i < target.len() && octets::is_control(#[trigger] target[i]);
            assert(target[i] > 32);
        }
    }
}

/// Any other version than HTTP/1.0 and HTTP/1.1 is refused as one that is not supported.
pub proof fn another_version_is_not_supported(method: Seq<u8>, target: Seq<u8>, major: u8, minor: u8)
    requires
        fields::is_token(method),
        unbroken(target),
        48 <= major <= 57,
        48 <= minor <= 57,
        major != 49 || minor > 49,
    ensures
        http1::request_line_of(
            method + octets::octets(" "@) + target + octets::octets(" "@) + octets::octets("HTTP/"@)
                + seq![major, '.' as u8, minor] + octets::octets("\r\n"@),
        ) == Err::<(Seq<u8>, Seq<u8>, HttpVersion), http1::IngressError>(
            http1::IngressError::UnsupportedVersion,
        ),
{
    lemma_line_literals();
    reveal_strlit("HTTP/");
    is_ascii_chars_encode_utf8("HTTP/"@);
    let named = octets::octets("HTTP/"@) + seq![major, 46u8, minor];
    let line = method + octets::octets(" "@) + target + octets::octets(" "@) + octets::octets(
        "HTTP/"@,
    ) + seq![major, '.' as u8, minor] + octets::octets("\r\n"@);
    let text = method.push(32u8) + (target.push(32u8) + named);
    assert(line =~= text + seq![13u8, 10u8]);
    assert(line.subrange(0, line.len() - 2) =~= text);
    assert(http1::without_crlf(line) == Some(text));
    assert(!method.contains(32u8)) by {
        if method.contains(32u8) {
            let i = choose|i: int| 0 <= i < method.len() && method[i] == 32u8;
            assert(fields::is_token_octet(method[i]));
        }
    }
    assert(!target.contains(32u8));
    assert(!named.contains(32u8)) by {
        assert(octets::octets("HTTP/"@) =~= seq![72u8, 84u8, 84u8, 80u8, 47u8]);
    }
    ip::lemma_pieces_split(method, 32u8, target.push(32u8) + named);
    ip::lemma_pieces_split(target, 32u8, named);
    ip::lemma_pieces_single(named, 32u8);
    let p = octets::pieces(text, ' ' as u8);
    assert(p =~= seq![method, target, named]);
    assert(named.subrange(0, 5) =~= octets::octets("HTTP/"@));
    assert(named[5] == major && named[6] == 46 && named[7] == minor);
    assert(octets::octets("HTTP/1.0"@)[5] == 49 && octets::octets("HTTP/1.0"@)[7] == 48);
    assert(octets::octets("HTTP/1.1"@)[5] == 49 && octets::octets("HTTP/1.1"@)[7] == 49);
}

/// The line of a text without line endings, whatever follows it.
pub proof fn lemma_first_line(line: Seq<u8>, rest: Seq<u8>)
    requires
        forall|i: int| 0 <= i < line.len() ==> #[trigger] line[i] != 13 && line[i] != 10,
    ensures
        http1::crlf_at(line + seq![13u8, 10u8] + rest, 0) == line.len(),
        first_line(line + seq![13u8, 10u8] + rest) == line + seq![13u8, 10u8],
        (line + seq![13u8, 10u8] + rest).skip(line.len() as int + 2) == rest,
{
    framing::lemma_line_end(line, rest, 0);
    let s = line + seq![13u8, 10u8] + rest;
    assert(s.subrange(0, line.len() as int + 2) =~= line + seq![13u8, 10u8]);
    assert(s.skip(line.len() as int + 2) =~= rest);
}

/// The path and the query that the client asked for arrive at the origin octet by octet: the
/// forwarded request line has the client's method, and a target that ends in the whole of them,
/// and that is nothing else where they begin with a slash.
pub proof fn a_path_and_its_query_arrive_whole(head: HeadModel, path: Seq<u8>, sent: Fields)
    requires
        fields::is_token(head.method),
        unbroken(path),
    ensures
        http1::request_line_of(first_line(forward::request_wire(head, path, sent))) matches Ok(
            (method, target, version),
        ) && {
            &&& method == head.method
            &&& version == HttpVersion::Http11
            &&& target.len() >= path.len()
            &&& target.skip(target.len() - path.len()) == path
            &&& path[0] == '/' as u8 ==> target == path
            &&& path[0] == '?' as u8 ==> target == seq!['/' as u8] + path
        },
{
    lemma_line_literals();
    let target = if path[0] == '?' as u8 {
        seq![47u8] + path
    } else {
        path
    };
    assert(forward::origin_form(head.method, path) =~= target);
    lemma_forwarded_line(head, path, target, sent);
    assert(target.skip(target.len() - path.len()) =~= path);
}

/// A request without a path asks the origin for its root, and an OPTIONS request for the origin as
/// a whole.
pub proof fn a_missing_path_is_the_root(head: HeadModel, sent: Fields)
    requires
        fields::is_token(head.method),
    ensures
        http1::request_line_of(
            first_line(forward::request_wire(head, Seq::empty(), sent)),
        ) == Ok::<(Seq<u8>, Seq<u8>, HttpVersion), http1::IngressError>(
            (
                head.method,
                if head.method == octets::octets("OPTIONS"@) {
                    seq!['*' as u8]
                } else {
                    seq!['/' as u8]
                },
                HttpVersion::Http11,
            ),
        ),
{
    lemma_line_literals();
    let target = if head.method == octets::octets("OPTIONS"@) {
        seq![42u8]
    } else {
        seq![47u8]
    };
    assert(forward::origin_form(head.method, Seq::empty()) =~= target);
    lemma_forwarded_line(head, Seq::empty(), target, sent);
}

proof fn lemma_forwarded_line(head: HeadModel, path: Seq<u8>, target: Seq<u8>, sent: Fields)
    requires
        fields::is_token(head.method),
        unbroken(target),
        forward::origin_form(head.method, path) == target,
    ensures
        http1::request_line_of(first_line(forward::request_wire(head, path, sent))) == Ok::<
            (Seq<u8>, Seq<u8>, HttpVersion),
            http1::IngressError,
        >((head.method, target, HttpVersion::Http11)),
{
    lemma_line_literals();
    let wire = forward::request_wire(head, path, sent);
    let line = head.method + seq![32u8] + target + seq![32u8] + octets::octets("HTTP/1.1"@);
    let rest = forward::field_wire(fields::listing(sent, sent.order)) + octets::octets("\r\n"@);
    assert(wire =~= line + seq![13u8, 10u8] + rest);
    let n = head.method.len() as int;
    let m = target.len() as int;
    assert forall|i: int| 0 <= i < line.len() implies #[trigger] line[i] != 13 && line[i] != 10 by {
        if i < n {
            assert(fields::is_token_octet(head.method[i]));
            assert(line[i] == head.method[i]);
        } else if n < i < n + 1 + m {
            assert(line[i] == target[i - n - 1]);
        } else if i > n + 1 + m {
            assert(line[i] == octets::octets("HTTP/1.1"@)[i - n - m - 2]);
        }
    }
    lemma_first_line(line, rest);
    a_written_request_line_reads_back(head.method, target, HttpVersion::Http11);
    assert(line + seq![13u8, 10u8] =~= head.method + octets::octets(" "@) + target + octets::octets(
        " HTTP/1.1\r\n"@,
    ));
}

/// Field lines behind each other, from the front.
proof fn lemma_wire_front(listed: Seq<(Seq<u8>, Seq<u8>)>)
    ensures
        forward::field_wire(listed) + octets::octets("\r\n"@) == forward::trailer_wire(listed),
    decreases listed.len(),
{
    if listed.len() > 0 {
        lemma_wire_split(listed);
        lemma_wire_front(listed.drop_first());
        assert(forward::field_wire(listed) + octets::octets("\r\n"@) =~= listed[0].0
            + octets::octets(": "@) + listed[0].1 + octets::octets("\r\n"@) + (forward::field_wire(
            listed.drop_first(),
        ) + octets::octets("\r\n"@)));
    } else {
        assert(forward::field_wire(listed) + octets::octets("\r\n"@) =~= octets::octets("\r\n"@));
    }
}

proof fn lemma_wire_split(listed: Seq<(Seq<u8>, Seq<u8>)>)
    requires
        listed.len() > 0,
    ensures
        forward::field_wire(listed) == listed[0].0 + octets::octets(": "@) + listed[0].1
            + octets::octets("\r\n"@) + forward::field_wire(listed.drop_first()),
    decreases listed.len(),
{
    if listed.len() == 1 {
        assert(listed.drop_last() =~= Seq::empty());
        assert(listed.drop_first() =~= Seq::empty());
        assert(forward::field_wire(listed) =~= listed[0].0 + octets::octets(": "@) + listed[0].1
            + octets::octets("\r\n"@) + forward::field_wire(listed.drop_first()));
    } else {
        lemma_wire_split(listed.drop_last());
        assert(listed.drop_last().drop_first() =~= listed.drop_first().drop_last());
        assert(forward::field_wire(listed) =~= listed[0].0 + octets::octets(": "@) + listed[0].1
            + octets::octets("\r\n"@) + forward::field_wire(listed.drop_first()));
    }
}

proof fn lemma_lines_from(before: Seq<u8>, listed: Seq<(Seq<u8>, Seq<u8>)>)
    requires
        forall|i: int| 0 <= i < listed.len() ==> framing::plain_field(#[trigger] listed[i]),
    ensures
        http1::field_lines(before + forward::trailer_wire(listed), before.len() as int) == Some(
            listed,
        ),
    decreases listed.len(),
{
    lemma_line_literals();
    let crlf = seq![13u8, 10u8];
    let s = before + forward::trailer_wire(listed);
    let at = before.len() as int;
    if listed.len() == 0 {
        assert(s =~= before + crlf);
        assert(s[at] == 13 && s[at + 1] == 10);
        assert(http1::crlf_at(s, at) == at);
        assert(listed =~= Seq::empty());
    } else {
        let line = listed[0].0 + seq![58u8, 32u8] + listed[0].1;
        let others = listed.drop_first();
        framing::lemma_plain_line(listed[0]);
        let tail = forward::trailer_wire(others);
        assert(forward::trailer_wire(listed) =~= line + crlf + tail);
        lemma_crlf_behind(before, line, tail, 0);
        let end = at + line.len();
        assert(line.len() >= 2);
        assert(http1::crlf_at(s, at) == end);
        assert(s.subrange(at, end) =~= line);
        let next = before + line + crlf;
        assert(s =~= next + tail);
        lemma_lines_from(next, others);
        assert(next.len() == end + 2);
        assert(seq![listed[0]] + others =~= listed);
    }
}

proof fn lemma_crlf_behind(before: Seq<u8>, line: Seq<u8>, tail: Seq<u8>, from: int)
    requires
        0 <= from <= line.len(),
        forall|i: int| 0 <= i < line.len() ==> #[trigger] line[i] != 13 && line[i] != 10,
    ensures
        http1::crlf_at(before + (line + seq![13u8, 10u8] + tail), before.len() + from)
            == before.len() + line.len(),
    decreases line.len() - from,
{
    let s = before + (line + seq![13u8, 10u8] + tail);
    if from < line.len() {
        assert(s[before.len() + from] == line[from]);
        lemma_crlf_behind(before, line, tail, from + 1);
    } else {
        assert(s[before.len() + from] == 13);
        assert(s[before.len() + from + 1] == 10);
    }
}

/// A header section that is written reads back: field by field, in order, with nothing added and
/// nothing lost.
pub proof fn a_written_section_reads_back(listed: Seq<(Seq<u8>, Seq<u8>)>)
    requires
        forall|i: int| 0 <= i < listed.len() ==> framing::plain_field(#[trigger] listed[i]),
    ensures
        http1::section_fields(forward::field_wire(listed) + octets::octets("\r\n"@)) == Some(listed),
{
    lemma_line_literals();
    lemma_wire_front(listed);
    let none = Seq::<u8>::empty();
    lemma_lines_from(none, listed);
    assert(none + forward::trailer_wire(listed) =~= forward::trailer_wire(listed));
}

/// The keys of the names that forwarding replaces are the names themselves, and all differ.
pub proof fn lemma_keys()
    ensures
        http1::key("host"@) == octets::octets("host"@),
        http1::key("expect"@) == octets::octets("expect"@),
        http1::key("content-length"@) == octets::octets("content-length"@),
        http1::key("transfer-encoding"@) == octets::octets("transfer-encoding"@),
        octets::octets("host"@).len() == 4,
        octets::octets("expect"@).len() == 6,
        octets::octets("content-length"@).len() == 14,
        octets::octets("transfer-encoding"@).len() == 17,
        octets::octets("via"@).len() == 3,
        octets::octets("connection"@).len() == 10,
        octets::octets("keep-alive"@).len() == 10,
        octets::octets("proxy-connection"@).len() == 16,
        octets::octets("proxy-authenticate"@).len() == 18,
        octets::octets("proxy-authorization"@).len() == 19,
        octets::octets("te"@).len() == 2,
        octets::octets("trailer"@).len() == 7,
        octets::octets("upgrade"@).len() == 7,
{
    reveal_strlit("host");
    reveal_strlit("expect");
    reveal_strlit("content-length");
    reveal_strlit("transfer-encoding");
    reveal_strlit("via");
    reveal_strlit("connection");
    reveal_strlit("keep-alive");
    reveal_strlit("proxy-connection");
    reveal_strlit("proxy-authenticate");
    reveal_strlit("proxy-authorization");
    reveal_strlit("te");
    reveal_strlit("trailer");
    reveal_strlit("upgrade");
    headers::lemma_plain_name("host"@);
    headers::lemma_plain_name("expect"@);
    headers::lemma_plain_name("content-length"@);
    headers::lemma_plain_name("transfer-encoding"@);
    headers::lemma_plain_name("via"@);
    headers::lemma_plain_name("connection"@);
    headers::lemma_plain_name("keep-alive"@);
    headers::lemma_plain_name("proxy-connection"@);
    headers::lemma_plain_name("proxy-authenticate"@);
    headers::lemma_plain_name("proxy-authorization"@);
    headers::lemma_plain_name("te"@);
    headers::lemma_plain_name("trailer"@);
    headers::lemma_plain_name("upgrade"@);
}

/// The names that never go further than one hop.
pub open spec fn stays_on_its_hop(name: Seq<u8>) -> bool {
    ||| name == octets::octets("connection"@)
    ||| name == octets::octets("keep-alive"@)
    ||| name == octets::octets("proxy-connection"@)
    ||| name == octets::octets("proxy-authenticate"@)
    ||| name == octets::octets("proxy-authorization"@)
    ||| name == octets::octets("te"@)
    ||| name == octets::octets("trailer"@)
    ||| name == octets::octets("transfer-encoding"@)
    ||| name == octets::octets("upgrade"@)
}

/// What is left of a name once the fields of the hop are gone.
pub proof fn lemma_sanitized(f: Fields, name: Seq<u8>)
    requires
        headers::nominations_of(f) is Some,
    ensures
        fields::values_of(headers::sanitized(f, headers::nominations_of(f)->0), name) == (if
        stays_on_its_hop(name) || headers::nominations_of(f)->0.contains(name) {
            Seq::<Seq<u8>>::empty()
        } else {
            fields::values_of(f, name)
        }),
{
    headers::sanitizing_removes_hop_fields_only(f, name);
    let h = headers::fixed_hop_names();
    assert(h.contains(name) <==> stays_on_its_hop(name) && name != octets::octets("connection"@)) by {
        lemma_keys();
        assert(h[0] == octets::octets("keep-alive"@));
        assert(h[1] == octets::octets("proxy-connection"@));
        assert(h[2] == octets::octets("proxy-authenticate"@));
        assert(h[3] == octets::octets("proxy-authorization"@));
        assert(h[4] == octets::octets("te"@));
        assert(h[5] == octets::octets("trailer"@));
        assert(h[6] == octets::octets("transfer-encoding"@));
        assert(h[7] == octets::octets("upgrade"@));
        assert(h.len() == 8);
        assert(octets::octets("connection"@)[0] != octets::octets("keep-alive"@)[0]) by {
            reveal_strlit("connection");
            reveal_strlit("keep-alive");
            headers::lemma_plain_name("connection"@);
            headers::lemma_plain_name("keep-alive"@);
            assert("connection"@[0] == 'c');
            assert("keep-alive"@[0] == 'k');
        }
    }
}

pub proof fn lemma_appended_all(f: Fields, name: Seq<u8>, values: Seq<Seq<u8>>, other: Seq<u8>)
    ensures
        fields::values_of(forward::appended_all(f, name, values), name) == fields::values_of(f, name)
            + values,
        other != name ==> fields::values_of(forward::appended_all(f, name, values), other)
            == fields::values_of(f, other),
    decreases values.len(),
{
    if values.len() > 0 {
        lemma_appended_all(f, name, values.drop_last(), other);
        assert(values =~= values.drop_last().push(values.last()));
        assert((fields::values_of(f, name) + values.drop_last()).push(values.last())
            =~= fields::values_of(f, name) + values);
    } else {
        assert(fields::values_of(f, name) + values =~= fields::values_of(f, name));
    }
}

/// What a forwarded request says under each name. It names the canonical host and no other. It
/// adds the version that the client spoke to the `Via` chain. It has the framing that its body was
/// read by. Nothing of the client's hop and nothing that the client nominated goes on, an
/// expectation goes on in HTTP/1.1 only, and everything else goes on value by value.
pub proof fn a_forwarded_request_keeps_its_fields(head: HeadModel, host: Seq<u8>, name: Seq<u8>)
    requires
        headers::nominations_of(head.fields) is Some,
    ensures
        ({
            let nominated = headers::nominations_of(head.fields)->0;
            let sent = forward::request_fields(head, nominated, host);
            let kept = if stays_on_its_hop(name) || nominated.contains(name) {
                Seq::<Seq<u8>>::empty()
            } else {
                fields::values_of(head.fields, name)
            };
            fields::values_of(sent, name) == (if name == octets::octets("host"@) {
                seq![host]
            } else if name == octets::octets("content-length"@) {
                match head.framing {
                    BodyFraming::ContentLength(n) => seq![octets::digits_of(n as nat)],
                    _ => Seq::empty(),
                }
            } else if name == octets::octets("transfer-encoding"@) {
                match head.framing {
                    BodyFraming::Chunked => fields::values_of(head.fields, name),
                    _ => Seq::empty(),
                }
            } else if name == octets::octets("via"@) {
                kept.push(
                    match head.version {
                        HttpVersion::Http10 => octets::octets("1.0 vhrn"@),
                        HttpVersion::Http11 => octets::octets("1.1 vhrn"@),
                    },
                )
            } else if name == octets::octets("expect"@) && head.version == HttpVersion::Http10 {
                Seq::empty()
            } else {
                kept
            })
        }),
{
    lemma_keys();
    let nominated = headers::nominations_of(head.fields)->0;
    let te = octets::octets("transfer-encoding"@);
    lemma_sanitized(head.fields, name);
    let base = forward::request_base(head, nominated);
    let named = fields::appended(
        fields::appended(base, octets::octets("host"@), host),
        octets::octets("via"@),
        headers::via_entry(head.version),
    );
    lemma_appended_all(named, te, fields::values_of(head.fields, te), name);
    let sent = forward::request_fields(head, nominated, host);
    assert(fields::values_of(base, octets::octets("host"@)) =~= Seq::empty());
    assert(fields::values_of(base, te) =~= Seq::empty());
    assert(fields::values_of(base, octets::octets("content-length"@)) =~= Seq::empty());
    assert(Seq::<Seq<u8>>::empty().push(host) =~= seq![host]);
    assert(Seq::<Seq<u8>>::empty() + fields::values_of(head.fields, te) =~= fields::values_of(
        head.fields,
        te,
    ));
    match head.framing {
        BodyFraming::ContentLength(n) => {
            assert(Seq::<Seq<u8>>::empty().push(octets::digits_of(n as nat)) =~= seq![
                octets::digits_of(n as nat),
            ]);
        },
        _ => {},
    }
}

} // verus!
