//! What a client gets of an origin's response.
use crate::connect::forward;
use crate::fields;
use crate::fields::Fields;
use crate::headers;
use crate::headers::HttpVersion;
use crate::laws::forwarding;
use crate::octets;
use crate::server::http1;
use crate::server::http1::{OriginBodyFraming, OriginHeadModel, OriginTransferCoding};
use crate::server::streaming;
use vstd::prelude::*;
use vstd::utf8::*;

verus! {

/// The octets of a version in front of a status.
pub open spec fn version_text(version: HttpVersion) -> Seq<u8> {
    match version {
        HttpVersion::Http10 => octets::octets("HTTP/1.0 "@),
        HttpVersion::Http11 => octets::octets("HTTP/1.1 "@),
    }
}

proof fn lemma_version_text(version: HttpVersion)
    ensures
        version_text(version).len() == 9,
        version_text(version) =~= (match version {
            HttpVersion::Http10 => octets::octets("HTTP/1.0"@),
            HttpVersion::Http11 => octets::octets("HTTP/1.1"@),
        }).push(32u8),
        octets::octets("HTTP/1.0 "@)[7] == 48,
        octets::octets("HTTP/1.1 "@)[7] == 49,
        octets::octets("HTTP/1.0 "@).len() == 9,
{
    forwarding::lemma_line_literals();
    reveal_strlit("HTTP/1.0 ");
    reveal_strlit("HTTP/1.1 ");
    is_ascii_chars_encode_utf8("HTTP/1.0 "@);
    is_ascii_chars_encode_utf8("HTTP/1.1 "@);
}

/// Every status from 100 to 599 that an origin may send is read as it was written, in either
/// version and with any reason, an empty one included.
pub proof fn a_written_status_line_reads_back(version: HttpVersion, status: u16, reason: Seq<u8>)
    requires
        100 <= status <= 599,
        fields::is_field_value(reason),
    ensures
        http1::status_line_of(
            version_text(version) + octets::digits_of(status as nat) + seq![32u8] + reason + seq![
                13u8,
                10u8,
            ],
        ) == Some((version, status)),
{
    lemma_version_text(version);
    let digits = octets::digits_of(status as nat);
    octets::lemma_digits_of(status as nat);
    lemma_three_digits(status);
    let text = version_text(version) + digits + seq![32u8] + reason;
    let line = version_text(version) + digits + seq![32u8] + reason + seq![13u8, 10u8];
    assert(line =~= text + seq![13u8, 10u8]);
    assert(line.subrange(0, line.len() - 2) =~= text);
    assert(http1::without_crlf(line) == Some(text));
    assert(text.subrange(0, 9) =~= version_text(version));
    assert(text.subrange(0, 9)[7] == version_text(version)[7]);
    let rest = text.subrange(9, text.len() as int);
    assert(rest =~= digits + seq![32u8] + reason);
    assert(rest.subrange(0, 3) =~= digits);
    assert(rest.subrange(4, rest.len() as int) =~= reason);
}

proof fn lemma_three_digits(status: u16)
    requires
        100 <= status <= 599,
    ensures
        octets::digits_of(status as nat).len() == 3,
{
    reveal_with_fuel(octets::digits_of, 4);
}

/// No other status is taken from an origin: three digits spell it, and it lies between 100 and 599.
pub proof fn only_three_digits_spell_a_status(line: Seq<u8>)
    ensures
        http1::status_line_of(line) matches Some((version, status)) ==> {
            &&& 100 <= status <= 599
            &&& line.len() >= 15
            &&& line.subrange(0, 9) == version_text(version)
            &&& octets::is_digit(line[9]) && octets::is_digit(line[10]) && octets::is_digit(line[11])
            &&& status == (line[9] - 48) * 100 + (line[10] - 48) * 10 + (line[11] - 48)
            &&& line[12] == 32
            &&& line[line.len() - 2] == 13 && line[line.len() - 1] == 10
        },
{
    if http1::status_line_of(line) is Some {
        let text = line.subrange(0, line.len() - 2);
        let rest = text.subrange(9, text.len() as int);
        let d = rest.subrange(0, 3);
        assert(text.subrange(0, 9) =~= line.subrange(0, 9));
        assert(d[0] == line[9] && d[1] == line[10] && d[2] == line[11]);
        assert(octets::is_digit(d[0]) && octets::is_digit(d[1]) && octets::is_digit(d[2]));
        assert(d.drop_last().drop_last().drop_last() =~= Seq::empty());
        reveal_with_fuel(octets::decimal, 4);
        assert(octets::decimal(d) == (line[9] - 48) * 100 + (line[10] - 48) * 10 + (line[11] - 48));
        assert(rest[3] == line[12]);
    }
}

/// The head that goes to the client reads back: the version and the status that were meant, and
/// each field as it was.
pub proof fn a_relayed_head_reads_back(
    version: HttpVersion,
    status: u16,
    reason: Seq<char>,
    headers: Fields,
    close: bool,
)
    requires
        100 <= status <= 599,
        fields::is_field_value(octets::octets(reason)),
    ensures
        http1::status_line_of(
            forwarding::first_line(
                streaming::head_wire(version, status, reason, headers, close),
            ),
        ) == Some((version, status)),
{
    forwarding::lemma_line_literals();
    lemma_version_text(version);
    let wire = streaming::head_wire(version, status, reason, headers, close);
    let digits = octets::digits_of(status as nat);
    octets::lemma_digits_of(status as nat);
    let r = octets::octets(reason);
    let line = version_text(version) + digits + seq![32u8] + r;
    let rest = wire.skip(line.len() as int + 2);
    assert(wire =~= line + seq![13u8, 10u8] + rest);
    let n = digits.len() as int;
    assert forall|i: int| 0 <= i < line.len() implies #[trigger] line[i] != 13 && line[i] != 10 by {
        if i < 9 {
            assert(line[i] == version_text(version)[i]);
        } else if i < 9 + n {
            assert(octets::is_digit(digits[i - 9]));
        } else if i > 9 + n {
            assert(line[i] == r[i - n - 10]);
            assert(fields::is_value_octet(r[i - n - 10]));
        }
    }
    forwarding::lemma_first_line(line, rest);
    a_written_status_line_reads_back(version, status, r);
}

/// The fields of the head that goes to the client read back one by one. Where the connection
/// closes and the fields do not say so, one line more says it.
pub proof fn relayed_fields_read_back(
    version: HttpVersion,
    status: u16,
    reason: Seq<char>,
    headers: Fields,
    close: bool,
)
    requires
        forall|i: int|
            0 <= i < fields::listing(headers, headers.order).len()
                ==> crate::server::framing::plain_field(
                #[trigger] fields::listing(headers, headers.order)[i],
            ),
    ensures
        ({
            let wire = streaming::head_wire(version, status, reason, headers, close);
            let line = streaming::status_line(version, status, reason);
            http1::section_fields(wire.skip(line.len() as int)) == Some(
                if close && !fields::has(headers, octets::octets("connection"@)) {
                    fields::listing(headers, headers.order).push(
                        (octets::octets("connection"@), octets::octets("close"@)),
                    )
                } else {
                    fields::listing(headers, headers.order)
                },
            )
        }),
{
    forwarding::lemma_line_literals();
    reveal_strlit("connection");
    reveal_strlit("close");
    reveal_strlit("connection: close\r\n\r\n");
    is_ascii_chars_encode_utf8("connection: close\r\n\r\n"@);
    headers::lemma_plain_name("connection"@);
    headers::lemma_plain_name("close"@);
    let listed = fields::listing(headers, headers.order);
    let c = (octets::octets("connection"@), octets::octets("close"@));
    let wire = streaming::head_wire(version, status, reason, headers, close);
    let line = streaming::status_line(version, status, reason);
    let section = wire.skip(line.len() as int);
    if close && !fields::has(headers, octets::octets("connection"@)) {
        let all = listed.push(c);
        is_ascii_chars_encode_utf8("connection"@);
        is_ascii_chars_encode_utf8("close"@);
        assert(c.0 =~= seq![99u8, 111u8, 110u8, 110u8, 101u8, 99u8, 116u8, 105u8, 111u8, 110u8]);
        assert(c.1 =~= seq![99u8, 108u8, 111u8, 115u8, 101u8]);
        assert(octets::octets("connection: close\r\n\r\n"@) =~= c.0 + octets::octets(": "@) + c.1
            + octets::octets("\r\n"@) + octets::octets("\r\n"@));
        assert(all.drop_last() =~= listed);
        assert(section =~= forward::field_wire(all) + octets::octets("\r\n"@));
        assert(fields::trim_blank(c.1) == c.1) by {
            assert(c.1[0] == "close"@[0] as u8);
            assert(c.1[4] == "close"@[4] as u8);
        }
        assert(fields::is_field_value(c.1)) by {
            assert forall|i: int| 0 <= i < c.1.len() implies fields::is_value_octet(
                #[trigger] c.1[i],
            ) by {
                assert(fields::is_token_octet(c.1[i]));
            }
        }
        assert forall|i: int| 0 <= i < all.len() implies crate::server::framing::plain_field(
            #[trigger] all[i],
        ) by {
            if i < listed.len() {
                assert(all[i] == listed[i]);
            }
        }
        forwarding::a_written_section_reads_back(all);
    } else {
        assert(section =~= forward::field_wire(listed) + octets::octets("\r\n"@));
        forwarding::a_written_section_reads_back(listed);
    }
}

/// One value of digits is read as the number.
pub proof fn lemma_one_length(n: u64)
    ensures
        http1::content_length(fields::all_members(seq![octets::digits_of(n as nat)])) == Some(
            Some(n),
        ),
{
    let d = octets::digits_of(n as nat);
    octets::lemma_digits_of(n as nat);
    let v = seq![d];
    assert(!d.contains(44u8)) by {
        if d.contains(44u8) {
            let i = choose|i: int| 0 <= i < d.len() && d[i] == 44u8;
            assert(octets::is_digit(d[i]));
        }
    }
    crate::ip::lemma_pieces_single(d, 44u8);
    assert(octets::is_digit(d[0]) && octets::is_digit(d[d.len() - 1]));
    assert(fields::trim_blank(d) == d);
    assert(fields::list_members(d) =~= seq![d]);
    assert(v.drop_first() =~= Seq::empty());
    assert(fields::all_members(v.drop_first()) =~= Seq::empty());
    assert(v[0] == d);
    assert(fields::all_members(v) =~= seq![d]);
    assert(octets::spec_parse_decimal(d, u64::MAX) == Some(n));
}

/// The one value `chunked`, in lower case, is the chunked coding alone.
pub proof fn lemma_chunked_alone()
    ensures
        http1::codings_of(seq![octets::octets("chunked"@)]) == Some(seq![octets::octets("chunked"@)]),
        http1::is_chunked(octets::octets("chunked"@)),
        http1::codings_ordered(seq![octets::octets("chunked"@)]),
{
    reveal_strlit("chunked");
    headers::lemma_plain_name("chunked"@);
    let c = octets::octets("chunked"@);
    assert forall|i: int| 0 <= i < c.len() implies 97 <= #[trigger] c[i] <= 122 by {
        assert(c[i] == "chunked"@[i] as u8);
    }
    crate::server::framing::lemma_one_piece(c, 44, 0);
    crate::server::framing::lemma_one_piece(c, 59, 0);
    assert(fields::trim_blank(c) == c);
    let v = seq![c];
    assert(http1::split_outside_quotes(c, ',' as u8) == Some(seq![c]));
    assert(v.drop_first() =~= Seq::empty());
    let p = seq![c];
    assert(v[0] == c);
    assert(http1::codings_of(v.drop_first()) == Some(Seq::<Seq<u8>>::empty()));
    assert(Seq::new(p.len(), |i: int| fields::trim_blank(p[i])) + Seq::<Seq<u8>>::empty() =~= seq![c]);
    octets::lemma_first_at_is(c, 59, 0, c.len() as int);
    assert(c.subrange(0, c.len() as int) =~= c);
    assert(fields::is_token(c)) by {
        assert forall|i: int| 0 <= i < c.len() implies fields::is_token_octet(#[trigger] c[i]) by {}
    }
    assert(http1::split_outside_quotes(c, ';' as u8) == Some(seq![c]));
    assert(http1::is_transfer_coding(c));
    assert(!c.contains(59u8));
}

/// How the end of a response body is found. A HEAD request, a 1xx, a 204 and a 304 have no body.
/// Else chunks end themselves, a length counts octets, and without either the end of the connection
/// is the end of the body. The connection closes where the response says so, and where nothing else
/// ends the body.
pub proof fn the_end_of_a_response_is_found(
    version: HttpVersion,
    status: u16,
    f: Fields,
    head_request: bool,
    n: u64,
)
    requires
        fields::values_of(f, octets::octets("connection"@)) == Seq::<Seq<u8>>::empty(),
    ensures
        ({
            let length = fields::values_of(f, octets::octets("content-length"@));
            let coding = fields::values_of(f, octets::octets("transfer-encoding"@));
            let none = Seq::<Seq<u8>>::empty();
            let bodyless = head_request || 100 <= status < 200 || status == 204 || status == 304;
            let r = http1::origin_head_with(version, status, f, head_request);
            let stays = version == HttpVersion::Http11;
            &&& length == none && coding == none ==> (r matches Some(h) && h.status == status
                && h.version == version && h.fields == f && h.framing == (if bodyless {
                OriginBodyFraming::NoBody
            } else {
                OriginBodyFraming::CloseDelimited
            }) && h.close == (!stays || !bodyless))
            &&& length == seq![octets::digits_of(n as nat)] && coding == none && !(100 <= status
                < 200) && status != 204 ==> (r matches Some(h) && h.status == status && h.version
                == version && h.fields == f && h.framing == (if bodyless {
                OriginBodyFraming::NoBody
            } else {
                OriginBodyFraming::ContentLength(n)
            }) && h.close == !stays)
            &&& length == none && coding == seq![octets::octets("chunked"@)] && stays && !(100
                <= status < 200) && status != 204 ==> (r matches Some(h) && h.status == status
                && h.version == version && h.fields == f && h.framing == (if bodyless {
                OriginBodyFraming::NoBody
            } else {
                OriginBodyFraming::Chunked
            }) && h.transfer_coding == (OriginTransferCoding::FinalChunked { has_prior: false })
                && !h.close)
            &&& length == seq![octets::digits_of(n as nat)] && coding == seq![
                octets::octets("chunked"@),
            ] ==> r is None
            &&& coding == seq![octets::octets("chunked"@)] && !stays ==> r is None
            &&& (length == seq![octets::digits_of(n as nat)] || coding == seq![
                octets::octets("chunked"@),
            ]) && (100 <= status < 200 || status == 204) ==> r is None
        }),
{
    lemma_message_keys();
    lemma_one_length(n);
    lemma_chunked_alone();
    let length = fields::values_of(f, octets::octets("content-length"@));
    let coding = fields::values_of(f, octets::octets("transfer-encoding"@));
    let none = Seq::<Seq<u8>>::empty();
    assert(fields::all_members(none) == none);
    assert(seq![octets::octets("chunked"@)].last() == octets::octets("chunked"@));
    assert(!http1::lists(none, "keep-alive"@));
    assert(!http1::lists(none, "close"@));
    assert(http1::tokens_of(f, http1::key("connection"@)) == Some(none));
    assert(coding == none ==> http1::origin_coding(coding) == Some(OriginTransferCoding::Absent));
    assert(coding == seq![octets::octets("chunked"@)] ==> http1::origin_coding(coding) == Some(
        OriginTransferCoding::FinalChunked { has_prior: false },
    ));
}

/// The names that message framing looks at are their own keys.
pub proof fn lemma_message_keys()
    ensures
        http1::key("connection"@) == octets::octets("connection"@),
        http1::key("content-length"@) == octets::octets("content-length"@),
        http1::key("transfer-encoding"@) == octets::octets("transfer-encoding"@),
        http1::key("host"@) == octets::octets("host"@),
        http1::key("expect"@) == octets::octets("expect"@),
        http1::key("upgrade"@) == octets::octets("upgrade"@),
        http1::key("close"@) == octets::octets("close"@),
        http1::key("keep-alive"@) == octets::octets("keep-alive"@),
        http1::key("chunked"@) == octets::octets("chunked"@),
{
    reveal_strlit("connection");
    reveal_strlit("content-length");
    reveal_strlit("transfer-encoding");
    reveal_strlit("host");
    reveal_strlit("expect");
    reveal_strlit("upgrade");
    reveal_strlit("close");
    reveal_strlit("keep-alive");
    reveal_strlit("chunked");
    headers::lemma_plain_name("connection"@);
    headers::lemma_plain_name("content-length"@);
    headers::lemma_plain_name("transfer-encoding"@);
    headers::lemma_plain_name("host"@);
    headers::lemma_plain_name("expect"@);
    headers::lemma_plain_name("upgrade"@);
    headers::lemma_plain_name("close"@);
    headers::lemma_plain_name("keep-alive"@);
    headers::lemma_plain_name("chunked"@);
}

/// What a response says to the client under each name. Nothing of the origin's hop and nothing that
/// the origin nominated goes on; the codings go on to an HTTP/1.1 client, with `chunked` behind them
/// where the body had no end of its own; the origin's version joins the `Via` chain; everything else
/// goes on value by value.
pub proof fn a_relayed_response_keeps_its_fields(
    client: HttpVersion,
    response: OriginHeadModel,
    name: Seq<u8>,
)
    requires
        headers::nominations_of(response.fields) is Some,
    ensures
        ({
            let nominated = headers::nominations_of(response.fields)->0;
            let sent = forward::response_fields(client, response, nominated);
            let kept = if forwarding::stays_on_its_hop(name) || nominated.contains(name) {
                Seq::<Seq<u8>>::empty()
            } else {
                fields::values_of(response.fields, name)
            };
            fields::values_of(sent, name) == (if name == octets::octets("via"@) {
                kept.push(
                    match response.version {
                        HttpVersion::Http10 => octets::octets("1.0 vhrn"@),
                        HttpVersion::Http11 => octets::octets("1.1 vhrn"@),
                    },
                )
            } else if name == octets::octets("transfer-encoding"@) && client
                == HttpVersion::Http11 {
                if response.transfer_coding == OriginTransferCoding::FinalNonChunked
                    && response.framing != OriginBodyFraming::NoBody {
                    fields::values_of(response.fields, name).push(octets::octets("chunked"@))
                } else {
                    fields::values_of(response.fields, name)
                }
            } else {
                kept
            })
        }),
{
    lemma_message_keys();
    forwarding::lemma_keys();
    let nominated = headers::nominations_of(response.fields)->0;
    let te = octets::octets("transfer-encoding"@);
    let clean = headers::sanitized(response.fields, nominated);
    forwarding::lemma_sanitized(response.fields, name);
    forwarding::lemma_sanitized(response.fields, te);
    let values = fields::values_of(response.fields, te);
    forwarding::lemma_appended_all(clean, te, values, name);
    assert(Seq::<Seq<u8>>::empty() + values =~= values);
}

} // verus!
