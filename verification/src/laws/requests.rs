//! What a request head says.
use crate::fields;
use crate::fields::Fields;
use crate::headers;
use crate::headers::HttpVersion;
use crate::laws::responses;
use crate::octets;
use crate::server::http1;
use crate::server::http1::{BodyFraming, HeadModel};
use vstd::prelude::*;
use vstd::utf8::*;

verus! {

/// How the end of a request body is found: by a length, or by chunks, and without either there is
/// no body. Both at once are refused, and so are chunks in HTTP/1.0.
pub proof fn the_end_of_a_request_is_found(f: Fields, n: u64)
    ensures
        ({
            let length = fields::values_of(f, octets::octets("content-length"@));
            let coding = fields::values_of(f, octets::octets("transfer-encoding"@));
            let none = Seq::<Seq<u8>>::empty();
            let chunked = seq![octets::octets("chunked"@)];
            let counted = seq![octets::digits_of(n as nat)];
            &&& length == none && coding == none ==> http1::framing_of(f) == Some(
                BodyFraming::NoBody,
            )
            &&& length == counted && coding == none ==> http1::framing_of(f) == Some(
                BodyFraming::ContentLength(n),
            )
            &&& length == none && coding == chunked ==> http1::framing_of(f) == Some(
                BodyFraming::Chunked,
            )
            &&& length == counted && coding == chunked ==> http1::framing_of(f) is None
        }),
{
    responses::lemma_message_keys();
    responses::lemma_one_length(n);
    responses::lemma_chunked_alone();
    let none = Seq::<Seq<u8>>::empty();
    assert(fields::all_members(none) == none);
    assert(seq![octets::octets("chunked"@)].last() == octets::octets("chunked"@));
    assert(http1::request_chunked(none) == Some(false));
    assert(http1::request_chunked(seq![octets::octets("chunked"@)]) == Some(true));
    assert(http1::content_length(none) == Some(None::<u64>));
}

/// Lengths that do not agree delimit nothing, and lengths that agree are one length.
pub proof fn lengths_must_agree(members: Seq<Seq<u8>>, n: u64, m: u64)
    requires
        members.len() == 2,
        members[0] == octets::digits_of(n as nat),
        members[1] == octets::digits_of(m as nat),
    ensures
        n == m ==> http1::content_length(members) == Some(Some(n)),
        n != m ==> http1::content_length(members) is None,
{
    octets::lemma_digits_of(n as nat);
    octets::lemma_digits_of(m as nat);
    assert(octets::spec_parse_decimal(members[0], u64::MAX) == Some(n));
    assert(octets::spec_parse_decimal(members[1], u64::MAX) == Some(m));
}

/// A list field gives its members one by one, without the blanks around them.
pub proof fn a_list_gives_its_members(a: Seq<u8>, b: Seq<u8>)
    requires
        !a.contains(',' as u8),
        !b.contains(',' as u8),
    ensures
        fields::list_members(a) == seq![fields::trim_blank(a)],
        fields::list_members(a.push(',' as u8) + b) == seq![
            fields::trim_blank(a),
            fields::trim_blank(b),
        ],
{
    crate::ip::lemma_pieces_single(a, 44u8);
    crate::ip::lemma_pieces_single(b, 44u8);
    crate::ip::lemma_pieces_split(a, 44u8, b);
    let s = a.push(44u8) + b;
    assert(octets::pieces(s, 44u8) =~= seq![a, b]);
    assert(fields::list_members(a) =~= seq![fields::trim_blank(a)]);
    assert(fields::list_members(s) =~= seq![fields::trim_blank(a), fields::trim_blank(b)]);
}

/// Blanks around a value do not count, however many there are, and nothing else is taken off.
pub proof fn blanks_around_a_value_do_not_count(before: Seq<u8>, s: Seq<u8>, after: Seq<u8>)
    requires
        forall|i: int| 0 <= i < before.len() ==> #[trigger] before[i] == 32 || before[i] == 9,
        forall|i: int| 0 <= i < after.len() ==> #[trigger] after[i] == 32 || after[i] == 9,
        s.len() > 0,
        s[0] != 32 && s[0] != 9,
        s.last() != 32 && s.last() != 9,
    ensures
        fields::trim_blank(before + s + after) == s,
{
    lemma_blank_front(before, s + after);
    assert(before + s + after =~= before + (s + after));
    assert((s + after)[0] == s[0]);
    lemma_blank_back(s, after);
}

proof fn lemma_blank_front(w: Seq<u8>, s: Seq<u8>)
    requires
        forall|i: int| 0 <= i < w.len() ==> #[trigger] w[i] == 32 || w[i] == 9,
    ensures
        fields::trim_blank_start(w + s) == fields::trim_blank_start(s),
    decreases w.len(),
{
    if w.len() == 0 {
        assert(w + s =~= s);
    } else {
        assert((w + s)[0] == w[0]);
        assert((w + s).drop_first() =~= w.drop_first() + s);
        lemma_blank_front(w.drop_first(), s);
    }
}

proof fn lemma_blank_back(s: Seq<u8>, w: Seq<u8>)
    requires
        forall|i: int| 0 <= i < w.len() ==> #[trigger] w[i] == 32 || w[i] == 9,
    ensures
        fields::trim_blank_end(s + w) == fields::trim_blank_end(s),
    decreases w.len(),
{
    if w.len() == 0 {
        assert(s + w =~= s);
    } else {
        assert((s + w).last() == w[w.len() - 1]);
        assert((s + w).drop_last() =~= s + w.drop_last());
        lemma_blank_back(s, w.drop_last());
    }
}

/// A field line gives its name in lower case and its value without the blanks around it, in any mix
/// of cases and with any blanks.
pub proof fn a_field_line_gives_name_and_value(
    name: Seq<u8>,
    before: Seq<u8>,
    value: Seq<u8>,
    after: Seq<u8>,
)
    requires
        fields::is_field_name(name),
        fields::is_field_value(value),
        value.len() > 0,
        value[0] != 32 && value[0] != 9,
        value.last() != 32 && value.last() != 9,
        forall|i: int| 0 <= i < before.len() ==> #[trigger] before[i] == 32 || before[i] == 9,
        forall|i: int| 0 <= i < after.len() ==> #[trigger] after[i] == 32 || after[i] == 9,
    ensures
        http1::field_line(name + seq![':' as u8] + (before + value + after)) == Some(
            (octets::lower(name), value),
        ),
{
    let line = name + seq![58u8] + (before + value + after);
    let n = name.len() as int;
    assert forall|i: int| 0 <= i < n implies line[i] != 58 by {
        assert(line[i] == name[i]);
        assert(fields::is_token_octet(name[i]));
    }
    assert(line[n] == 58);
    octets::lemma_first_at_is(line, 58u8, 0, n);
    assert(line.subrange(0, n) =~= name);
    assert(line.subrange(n + 1, line.len() as int) =~= before + value + after);
    blanks_around_a_value_do_not_count(before, value, after);
}

/// A line without a colon, or with anything but a token before it, is no field.
pub proof fn a_field_has_a_name(line: Seq<u8>)
    ensures
        http1::field_line(line) matches Some((name, value)) ==> {
            let colon = octets::first_at(line, ':' as u8, 0);
            &&& 0 < colon < line.len()
            &&& name == octets::lower(line.subrange(0, colon))
            &&& fields::is_token(line.subrange(0, colon))
            &&& fields::is_field_value(value)
        },
{
    octets::lemma_first_at(line, ':' as u8, 0);
}

proof fn lemma_no_token_listed()
    ensures
        !http1::lists(Seq::<Seq<u8>>::empty(), "keep-alive"@),
        !http1::lists(Seq::<Seq<u8>>::empty(), "close"@),
        !http1::lists(Seq::<Seq<u8>>::empty(), "upgrade"@),
{
}

/// A connection stays open behind an HTTP/1.1 request unless the request asks for its end, and
/// behind an HTTP/1.0 request only where the request asks for that. The words are read in any mix
/// of cases and may stand anywhere in the list.
pub proof fn a_connection_stays_open_by_version_and_word(
    version: HttpVersion,
    tokens: Seq<Seq<u8>>,
    at: int,
)
    ensures
        tokens.len() == 0 ==> http1::closes(version, tokens) == (version == HttpVersion::Http10),
        0 <= at < tokens.len() && octets::lower(tokens[at]) == octets::octets("close"@) && version
            == HttpVersion::Http11 ==> http1::closes(version, tokens),
        0 <= at < tokens.len() && octets::lower(tokens[at]) == octets::octets("keep-alive"@)
            && version == HttpVersion::Http10 ==> !http1::closes(version, tokens),
        (forall|i: int|
            0 <= i < tokens.len() ==> octets::lower(#[trigger] tokens[i]) != octets::octets(
                "close"@,
            ) && octets::lower(tokens[i]) != octets::octets("keep-alive"@)) ==> http1::closes(
            version,
            tokens,
        ) == (version == HttpVersion::Http10),
{
    responses::lemma_message_keys();
}

/// What a head says beyond its line: it needs its one host in HTTP/1.1, it is expected, upgraded and
/// closed by its fields, and it carries its fields whole.
pub proof fn a_head_says_what_its_fields_say(
    method: Seq<u8>,
    raw_target: Seq<u8>,
    version: HttpVersion,
    f: Fields,
    host: Seq<u8>,
)
    requires
        fields::values_of(f, octets::octets("host"@)) == seq![host],
        fields::values_of(f, octets::octets("connection"@)) == Seq::<Seq<u8>>::empty(),
        http1::is_host_text(host),
        http1::framing_of(f) is Some,
        version == HttpVersion::Http10 ==> !fields::has(f, octets::octets("transfer-encoding"@)),
    ensures
        http1::head_with(method, raw_target, version, f, true) == Some(
            HeadModel {
                method,
                raw_target,
                version,
                fields: f,
                framing: http1::framing_of(f)->0,
                close: version == HttpVersion::Http10,
                upgrade: fields::has(f, octets::octets("upgrade"@)),
                expect: fields::has(f, octets::octets("expect"@)),
            },
        ),
        http1::head_with(method, raw_target, version, f, false) is None,
{
    responses::lemma_message_keys();
    let none = Seq::<Seq<u8>>::empty();
    assert(fields::all_members(none) == none);
    assert(http1::tokens_of(f, http1::key("connection"@)) == Some(none));
    lemma_no_token_listed();
}

/// An HTTP/1.1 request without a host, or with two, is refused, and so is any request whose host
/// holds a character that no host holds, and one in HTTP/1.0 with a transfer coding.
pub proof fn a_head_without_its_host_is_refused(
    method: Seq<u8>,
    raw_target: Seq<u8>,
    version: HttpVersion,
    f: Fields,
    parse: bool,
)
    ensures
        ({
            let hosts = fields::values_of(f, octets::octets("host"@));
            let r = http1::head_with(method, raw_target, version, f, parse);
            &&& version == HttpVersion::Http11 && hosts.len() != 1 ==> r is None
            &&& (exists|i: int, j: int|
                0 <= i < hosts.len() && 0 <= j < hosts[i].len() && (#[trigger] hosts[i][j] <= 32
                    || hosts[i][j] >= 127 || hosts[i][j] == '@' as u8 || hosts[i][j] == '/' as u8
                    || hosts[i][j] == '?' as u8 || hosts[i][j] == '#' as u8 || hosts[i][j]
                    == ',' as u8)) ==> r is None
            &&& version == HttpVersion::Http10 && fields::has(
                f,
                octets::octets("transfer-encoding"@),
            ) ==> r is None
            &&& http1::framing_of(f) is None ==> r is None
        }),
{
    responses::lemma_message_keys();
    let hosts = fields::values_of(f, octets::octets("host"@));
    if exists|i: int, j: int|
        0 <= i < hosts.len() && 0 <= j < hosts[i].len() && (#[trigger] hosts[i][j] <= 32
            || hosts[i][j] >= 127 || hosts[i][j] == '@' as u8 || hosts[i][j] == '/' as u8
            || hosts[i][j] == '?' as u8 || hosts[i][j] == '#' as u8 || hosts[i][j] == ',' as u8) {
        let (i, j) = choose|i: int, j: int|
            0 <= i < hosts.len() && 0 <= j < hosts[i].len() && (#[trigger] hosts[i][j] <= 32
                || hosts[i][j] >= 127 || hosts[i][j] == '@' as u8 || hosts[i][j] == '/' as u8
                || hosts[i][j] == '?' as u8 || hosts[i][j] == '#' as u8 || hosts[i][j] == ',' as u8);
        assert(!http1::is_host_text(hosts[i]));
    }
}

/// The octets of a host in a `Host` field.
pub proof fn a_host_holds_visible_octets(b: u8)
    ensures
        http1::is_host_text(seq![b]) <==> 0x21 <= b <= 0x7e && b != 0x23 && b != 0x2c && b != 0x2f && b
            != 0x3f && b != 0x40,
{
    let s = seq![b];
    assert(s[0] == b);
    if http1::is_host_text(s) {
        assert(33 <= s[0] <= 126);
    }
}

/// The `Connection` field nominates its members in lower case, wherever they stand in its values.
pub proof fn a_connection_field_nominates_its_members(f: Fields, a: Seq<u8>, b: Seq<u8>)
    requires
        fields::is_field_name(a),
        fields::is_field_name(b),
        fields::values_of(f, octets::octets("connection"@)) == seq![
            a.push(',' as u8) + seq![' ' as u8] + b,
        ],
    ensures
        headers::nominations_of(f) == Some(seq![octets::lower(a), octets::lower(b)]),
{
    let v = a.push(44u8) + seq![32u8] + b;
    let c = seq![32u8] + b;
    assert(v =~= a.push(44u8) + c);
    lemma_token_plain(a);
    lemma_token_plain(b);
    assert(!c.contains(44u8)) by {
        if c.contains(44u8) {
            let i = choose|i: int| 0 <= i < c.len() && c[i] == 44u8;
            assert(b[i - 1] == 44u8);
            assert(b.contains(44u8));
        }
    }
    a_list_gives_its_members(a, c);
    let nothing = Seq::<u8>::empty();
    blanks_around_a_value_do_not_count(nothing, a, nothing);
    assert(nothing + a + nothing =~= a);
    blanks_around_a_value_do_not_count(seq![32u8], b, nothing);
    assert(seq![32u8] + b + nothing =~= c);
    let vs = seq![v];
    assert(vs.drop_first() =~= Seq::empty());
    assert(fields::all_members(vs.drop_first()) =~= Seq::empty());
    assert(vs[0] == v);
    let m = fields::all_members(vs);
    assert(m =~= seq![a, b]);
    assert(headers::lower_all(m) =~= seq![octets::lower(a), octets::lower(b)]);
}

proof fn lemma_token_plain(a: Seq<u8>)
    requires
        fields::is_field_name(a),
    ensures
        a.len() > 0,
        !a.contains(44u8),
        a[0] != 32 && a[0] != 9,
        a.last() != 32 && a.last() != 9,
{
    assert(fields::is_token_octet(a[0]));
    assert(fields::is_token_octet(a[a.len() - 1]));
    if a.contains(44u8) {
        let i = choose|i: int| 0 <= i < a.len() && a[i] == 44u8;
        assert(fields::is_token_octet(a[i]));
    }
}

} // verus!
