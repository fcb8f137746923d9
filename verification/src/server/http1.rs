//! Bounded HTTP/1 head parsing and message framing.
use crate::fields;
use crate::fields::{
    contains_key, get_all, keys, members, new_map, pairs, trim_ows, try_append, valid_field_value,
    valid_token, Fields,
};
use crate::headers::HttpVersion;
use crate::ip;
use crate::ip::hex_digit_value;
use crate::octets;
use crate::octets::{
    contains, copy, digit, equal_ignore_case, find, hex, is_text, parse_decimal, part, split,
};
use hyper::HeaderMap;
use vstd::prelude::*;

verus! {

/// The most octets of a request line, with its line ending.
pub const REQUEST_LINE_LIMIT: usize = 8192;

/// The most octets of a header section, with its final empty line.
pub const HEADER_SECTION_LIMIT: usize = 65536;

/// The most octets that one exchange may hold in memory in one direction.
pub const APPLICATION_BUFFER_LIMIT: usize = 65536;

/// The most octets of one frame of a request body.
pub const REQUEST_BODY_FRAME_LIMIT: usize = 32768;

/// The most octets of a chunk-size line that frames a piece of memory.
pub const CHUNK_PREFIX_LIMIT: usize = 18;

/// The most octets of one frame of a response body.
pub const RESPONSE_BODY_FRAME_LIMIT: usize = 65518;

/// The size of the buffer of one connection: a request line and a header section.
pub const CONNECTION_BUFFER_LIMIT: usize = 73728;

/// The most octets of a chunk-size line on the wire.
pub const CHUNK_LINE_LIMIT: usize = 8192;

/// Why a request cannot be taken in.
#[derive(Debug, Clone, Copy, PartialEq, Eq, Structural)]
pub enum IngressError {
    BadRequest,
    HeadersTooLarge,
    UnsupportedVersion,
    Incomplete,
}

/// How a request body is delimited.
#[derive(Debug, Clone, Copy, PartialEq, Eq, Structural)]
pub enum BodyFraming {
    NoBody,
    ContentLength(u64),
    Chunked,
}

/// Why a response cannot be taken in.
#[derive(Debug, Clone, Copy, PartialEq, Eq, Structural)]
pub enum OriginError {
    Invalid,
    HeadersTooLarge,
    Incomplete,
}

/// How a response body is delimited.
#[derive(Debug, Clone, Copy, PartialEq, Eq, Structural)]
pub enum OriginBodyFraming {
    NoBody,
    ContentLength(u64),
    Chunked,
    CloseDelimited,
}

/// The transfer codings of a response.
#[derive(Debug, Clone, Copy, PartialEq, Eq, Structural)]
pub enum OriginTransferCoding {
    Absent,
    FinalChunked { has_prior: bool },
    FinalNonChunked,
}

impl BodyFraming {
    pub fn has_body(self) -> (r: bool)
        ensures
            r == !(self is NoBody || self == BodyFraming::ContentLength(0)),
    {
        match self {
            BodyFraming::NoBody => false,
            BodyFraming::ContentLength(length) => length != 0,
            BodyFraming::Chunked => true,
        }
    }
}

/// The key of a header name: its octets in lower case.
pub open spec fn key(name: Seq<char>) -> Seq<u8> {
    octets::lower(octets::octets(name))
}

/// The index of the first carriage return and line feed at or after `from`, or the length.
pub open spec fn crlf_at(s: Seq<u8>, from: int) -> int
    decreases s.len() - from,
{
    if from < 0 || from + 1 >= s.len() {
        s.len() as int
    } else if s[from] == 13 && s[from + 1] == 10 {
        from
    } else {
        crlf_at(s, from + 1)
    }
}

pub proof fn lemma_crlf_at(s: Seq<u8>, from: int)
    requires
        0 <= from <= s.len(),
    ensures
        from <= crlf_at(s, from) <= s.len(),
        crlf_at(s, from) < s.len() ==> crlf_at(s, from) + 2 <= s.len() && s[crlf_at(s, from)] == 13
            && s[crlf_at(s, from) + 1] == 10,
    decreases s.len() - from,
{
    if from + 1 < s.len() && !(s[from] == 13 && s[from + 1] == 10) {
        lemma_crlf_at(s, from + 1);
    }
}

/// The name, in lower case, and the value of one field line.
pub open spec fn field_line(line: Seq<u8>) -> Option<(Seq<u8>, Seq<u8>)> {
    let colon = octets::first_at(line, ':' as u8, 0);
    let name = line.subrange(0, colon);
    let value = fields::trim_blank(line.subrange(colon + 1, line.len() as int));
    if colon < line.len() && fields::is_field_name(name) && fields::is_field_value(value) {
        Some((octets::lower(name), value))
    } else {
        None
    }
}

/// The field lines from index `cursor` on, up to an empty line that must be the last.
pub open spec fn field_lines(s: Seq<u8>, cursor: int) -> Option<Seq<(Seq<u8>, Seq<u8>)>>
    decreases s.len() - cursor,
{
    let end = crlf_at(s, cursor);
    if cursor < 0 || cursor >= s.len() {
        Some(Seq::empty())
    } else if end < cursor || end + 2 > s.len() {
        None
    } else if end == cursor {
        if cursor + 2 == s.len() {
            Some(Seq::empty())
        } else {
            None
        }
    } else {
        match (field_line(s.subrange(cursor, end)), field_lines(s, end + 2)) {
            (Some(field), Some(rest)) => Some(seq![field] + rest),
            _ => None,
        }
    }
}

/// The fields of a header section. The section is not empty.
pub open spec fn section_fields(s: Seq<u8>) -> Option<Seq<(Seq<u8>, Seq<u8>)>> {
    if s.len() == 0 {
        None
    } else {
        field_lines(s, 0)
    }
}

/// What a map holds once the fields were appended to it in turn.
pub open spec fn collected(pairs: Seq<(Seq<u8>, Seq<u8>)>) -> Fields
    decreases pairs.len(),
{
    if pairs.len() == 0 {
        fields::no_fields()
    } else {
        fields::appended(collected(pairs.drop_last()), pairs.last().0, pairs.last().1)
    }
}

/// The section has more different names than a header map is sure to hold.
pub open spec fn crowded(s: Seq<u8>) -> bool {
    section_fields(s) matches Some(p) && collected(p).order.len() >= fields::SURE_NAMES
}

/// The fields that a section puts into a map.
pub open spec fn map_of(s: Seq<u8>) -> Option<Fields> {
    match section_fields(s) {
        Some(p) => Some(collected(p)),
        None => None,
    }
}

/// Each field adds at most one name and takes none away.
proof fn lemma_collected_grows(p: Seq<(Seq<u8>, Seq<u8>)>, q: Seq<(Seq<u8>, Seq<u8>)>)
    ensures
        collected(p).order.len() <= collected(p + q).order.len(),
    decreases q.len(),
{
    if q.len() == 0 {
        assert(p + q =~= p);
    } else {
        lemma_collected_grows(p, q.drop_last());
        assert((p + q).drop_last() =~= p + q.drop_last());
    }
}

/// Finds the first carriage return and line feed at or after `from`; the length where there is
/// none.
pub fn find_crlf(bytes: &[u8], from: usize) -> (r: usize)
    requires
        from <= bytes@.len(),
    ensures
        r == crlf_at(bytes@, from as int),
        from <= r <= bytes@.len(),
        r < bytes@.len() ==> r + 2 <= bytes@.len() && bytes@[r as int] == 13 && bytes@[r + 1] == 10,
{
    let mut i: usize = from;
    while bytes.len() >= 2 && i <= bytes.len() - 2
        invariant
            from <= i <= bytes@.len(),
            crlf_at(bytes@, from as int) == crlf_at(bytes@, i as int),
        decreases bytes@.len() - i,
    {
        if bytes[i] == 13 && bytes[i + 1] == 10 {
            return i;
        }
        i += 1;
    }
    bytes.len()
}

/// Adds one field line to a map.
pub fn append_field_line(headers: &mut HeaderMap, line: &[u8]) -> (r: Result<(), IngressError>)
    ensures
        match r {
            Ok(_) => field_line(line@) matches Some((name, value)) && fields::contents(
                *final(headers),
            ) == fields::appended(fields::contents(*old(headers)), name, value),
            Err(e) => e == IngressError::BadRequest && fields::contents(*final(headers))
                == fields::contents(*old(headers)) && (field_line(line@) is None
                || fields::contents(*old(headers)).order.len() >= fields::SURE_NAMES),
        },
{
    let colon: usize = find(line, ':' as u8, 0);
    if colon >= line.len() {
        return Err(IngressError::BadRequest);
    }
    let name = part(line, 0, colon);
    let value = trim_ows(part(line, colon + 1, line.len()));
    if name.len() > 65535 || !valid_token(name) || !valid_field_value(value) {
        return Err(IngressError::BadRequest);
    }
    if try_append(headers, name, value) {
        Ok(())
    } else {
        Err(IngressError::BadRequest)
    }
}

/// Reads a header section. A section with very many different names may be refused.
pub fn parse_fields(section: &[u8]) -> (r: Result<HeaderMap, IngressError>)
    ensures
        match r {
            Ok(headers) => map_of(section@) == Some(fields::contents(headers)),
            Err(e) => e == IngressError::BadRequest && (map_of(section@) is None || crowded(
                section@,
            )),
        },
{
    let mut headers: HeaderMap = new_map();
    if section.len() == 0 {
        return Err(IngressError::BadRequest);
    }
    let ghost mut done: Seq<(Seq<u8>, Seq<u8>)> = Seq::empty();
    let mut cursor: usize = 0;
    proof {
        match field_lines(section@, 0) {
            Some(rest) => {
                assert(done + rest =~= rest);
            },
            None => {},
        }
    }
    while cursor < section.len()
        invariant
            cursor <= section@.len(),
            section@.len() > 0,
            fields::contents(headers) == collected(done),
            match field_lines(section@, cursor as int) {
                Some(rest) => section_fields(section@) == Some(done + rest),
                None => section_fields(section@) is None,
            },
        decreases section@.len() - cursor,
    {
        let end: usize = find_crlf(section, cursor);
        if end >= section.len() {
            return Err(IngressError::BadRequest);
        }
        if end == cursor {
            if cursor + 2 != section.len() {
                return Err(IngressError::BadRequest);
            }
            assert(done + Seq::<(Seq<u8>, Seq<u8>)>::empty() =~= done);
            return Ok(headers);
        }
        let line = part(section, cursor, end);
        match append_field_line(&mut headers, line) {
            Err(error) => {
                proof {
                    if field_line(line@) is Some {
                        match field_lines(section@, cursor as int) {
                            Some(rest) => {
                                lemma_collected_grows(done, rest);
                            },
                            None => {},
                        }
                    }
                }
                return Err(error);
            },
            Ok(_) => {
                proof {
                    let field = field_line(line@)->0;
                    let next = done.push(field);
                    assert(next.drop_last() =~= done);
                    match field_lines(section@, end + 2) {
                        Some(rest) => {
                            assert(done + (seq![field] + rest) =~= next + rest);
                        },
                        None => {},
                    }
                    done = next;
                }
            },
        }
        cursor = end + 2;
    }
    assert(done + Seq::<(Seq<u8>, Seq<u8>)>::empty() =~= done);
    Ok(headers)
}

/// The octets of all names and values together.
pub open spec fn field_octets(p: Seq<(Seq<u8>, Seq<u8>)>) -> nat
    decreases p.len(),
{
    if p.len() == 0 {
        0
    } else {
        field_octets(p.drop_last()) + p.last().0.len() + p.last().1.len()
    }
}

/// How many octets the names and values of a map hold, or the largest number that fits.
pub fn header_field_bytes(headers: &HeaderMap) -> (r: usize)
    ensures
        ({
            let f = fields::contents(*headers);
            let total = field_octets(fields::listing(f, f.order));
            r == if total <= usize::MAX {
                total
            } else {
                usize::MAX as nat
            }
        }),
{
    let listed = pairs(headers);
    let ghost all = fields::listing(fields::contents(*headers), fields::contents(*headers).order);
    let mut total: usize = 0;
    let mut i: usize = 0;
    assert(fields::pair_views(listed@).len() == listed@.len());
    while i < listed.len()
        invariant
            i <= listed@.len(),
            fields::pair_views(listed@) == all,
            all.len() == listed@.len(),
            total == (if field_octets(all.subrange(0, i as int)) <= usize::MAX {
                field_octets(all.subrange(0, i as int))
            } else {
                usize::MAX as nat
            }),
        decreases listed@.len() - i,
    {
        proof {
            assert(fields::pair_views(listed@)[i as int] == (
                listed@[i as int].0@,
                listed@[i as int].1@,
            ));
            assert(all.subrange(0, i + 1).drop_last() =~= all.subrange(0, i as int));
        }
        total = total.saturating_add(listed[i].0.len());
        total = total.saturating_add(listed[i].1.len());
        i += 1;
    }
    assert(all.subrange(0, i as int) =~= all);
    total
}

/// Splits a value at a delimiter outside quoted strings: from index `i` on, with the current piece
/// starting at `start`, inside a quoted string where `quoted`, after a backslash where `escaped`.
pub open spec fn quoted_pieces(
    s: Seq<u8>,
    delimiter: u8,
    start: int,
    i: int,
    quoted: bool,
    escaped: bool,
) -> Option<Seq<Seq<u8>>>
    decreases s.len() - i,
{
    if i < 0 || i >= s.len() {
        if quoted || escaped {
            None
        } else {
            Some(seq![s.subrange(start, s.len() as int)])
        }
    } else if escaped {
        quoted_pieces(s, delimiter, start, i + 1, quoted, false)
    } else if quoted && s[i] == '\\' as u8 {
        quoted_pieces(s, delimiter, start, i + 1, quoted, true)
    } else if s[i] == '"' as u8 {
        quoted_pieces(s, delimiter, start, i + 1, !quoted, false)
    } else if s[i] == delimiter && !quoted {
        match quoted_pieces(s, delimiter, i + 1, i + 1, false, false) {
            Some(rest) => Some(seq![s.subrange(start, i)] + rest),
            None => None,
        }
    } else {
        quoted_pieces(s, delimiter, start, i + 1, quoted, false)
    }
}

/// The pieces of a value between delimiters outside quoted strings. Every quoted string must end.
pub open spec fn split_outside_quotes(s: Seq<u8>, delimiter: u8) -> Option<Seq<Seq<u8>>> {
    quoted_pieces(s, delimiter, 0, 0, false, false)
}

/// Splits a value at a delimiter outside quoted strings.
pub fn split_quoted(value: &[u8], delimiter: u8) -> (r: Result<Vec<Vec<u8>>, IngressError>)
    ensures
        match r {
            Ok(p) => split_outside_quotes(value@, delimiter) == Some(octets::views(p@)) && p@.len()
                >= 1,
            Err(e) => e == IngressError::BadRequest && split_outside_quotes(value@, delimiter)
                is None,
        },
{
    let mut out: Vec<Vec<u8>> = Vec::new();
    let mut start: usize = 0;
    let mut quoted: bool = false;
    let mut escaped: bool = false;
    let mut i: usize = 0;
    let ghost whole = split_outside_quotes(value@, delimiter);
    proof {
        match whole {
            Some(rest) => {
                assert(octets::views(out@) + rest =~= rest);
            },
            None => {},
        }
    }
    while i < value.len()
        invariant
            start <= i <= value@.len(),
            whole == split_outside_quotes(value@, delimiter),
            match quoted_pieces(value@, delimiter, start as int, i as int, quoted, escaped) {
                Some(rest) => whole == Some(octets::views(out@) + rest),
                None => whole is None,
            },
        decreases value@.len() - i,
    {
        let byte: u8 = value[i];
        if escaped {
            escaped = false;
        } else if quoted && byte == '\\' as u8 {
            escaped = true;
        } else if byte == '"' as u8 {
            quoted = !quoted;
        } else if byte == delimiter && !quoted {
            let ghost was = octets::views(out@);
            out.push(copy(part(value, start, i)));
            proof {
                let piece = value@.subrange(start as int, i as int);
                assert(octets::views(out@) =~= was.push(piece));
                match quoted_pieces(value@, delimiter, i + 1, i + 1, false, false) {
                    Some(rest) => {
                        assert(was + (seq![piece] + rest) =~= octets::views(out@) + rest);
                    },
                    None => {},
                }
            }
            start = i + 1;
        }
        i += 1;
    }
    if quoted || escaped {
        return Err(IngressError::BadRequest);
    }
    let ghost was = octets::views(out@);
    out.push(copy(part(value, start, value.len())));
    proof {
        let piece = value@.subrange(start as int, value@.len() as int);
        assert(octets::views(out@) =~= was + seq![piece]);
    }
    Ok(out)
}

/// An octet that may stand in a quoted string, by itself or after a backslash.
pub open spec fn is_quoted_octet(b: u8) -> bool {
    b == 9 || b == 32 || 0x21 <= b <= 0x7e || b >= 0x80
}

pub fn quoted_octet(byte: u8) -> (r: bool)
    ensures
        r == is_quoted_octet(byte),
{
    byte == 9 || byte == 32 || (byte >= 0x21 && byte <= 0x7e) || byte >= 0x80
}

/// From index `i` on, the inside of a quoted string is valid and ends outside an escape.
pub open spec fn quoted_inside(s: Seq<u8>, i: int, escaped: bool) -> bool
    decreases s.len() - i,
{
    if i < 0 || i >= s.len() {
        !escaped
    } else if escaped {
        is_quoted_octet(s[i]) && quoted_inside(s, i + 1, false)
    } else if s[i] == '\\' as u8 {
        quoted_inside(s, i + 1, true)
    } else {
        s[i] != '"' as u8 && is_quoted_octet(s[i]) && quoted_inside(s, i + 1, false)
    }
}

/// A parameter value: a token or a quoted string.
pub open spec fn is_parameter_value(v: Seq<u8>) -> bool {
    ||| fields::is_token(v)
    ||| v.len() >= 2 && v[0] == '"' as u8 && v.last() == '"' as u8 && quoted_inside(
        v.subrange(1, v.len() - 1),
        0,
        false,
    )
}

/// Whether the value is a token or a quoted string.
pub fn valid_parameter_value(value: &[u8]) -> (r: bool)
    ensures
        r == is_parameter_value(value@),
{
    if valid_token(value) {
        return true;
    }
    if value.len() < 2 || value[0] != '"' as u8 || value[value.len() - 1] != '"' as u8 {
        return false;
    }
    let inner = part(value, 1, value.len() - 1);
    let mut escaped: bool = false;
    let mut i: usize = 0;
    while i < inner.len()
        invariant
            i <= inner@.len(),
            quoted_inside(inner@, 0, false) == quoted_inside(inner@, i as int, escaped),
            inner@ == value@.subrange(1, value@.len() - 1),
            value@.len() >= 2,
            value@[0] == '"' as u8,
            value@.last() == '"' as u8,
            !fields::is_token(value@),
        decreases inner@.len() - i,
    {
        let byte: u8 = inner[i];
        if escaped {
            if !quoted_octet(byte) {
                return false;
            }
            escaped = false;
        } else if byte == '\\' as u8 {
            escaped = true;
        } else if byte == '"' as u8 || !quoted_octet(byte) {
            return false;
        }
        i += 1;
    }
    !escaped
}

/// A parameter: a token, `=` and a value, with blanks around each.
pub open spec fn is_parameter(p: Seq<u8>) -> bool {
    split_outside_quotes(fields::trim_blank(p), '=' as u8) matches Some(f) && f.len() == 2
        && fields::is_token(fields::trim_blank(f[0])) && is_parameter_value(
        fields::trim_blank(f[1]),
    )
}

/// A transfer coding: a token with parameters.
pub open spec fn is_transfer_coding(v: Seq<u8>) -> bool {
    split_outside_quotes(v, ';' as u8) matches Some(p) && fields::is_token(
        fields::trim_blank(p[0]),
    ) && forall|i: int| 1 <= i < p.len() ==> is_parameter(#[trigger] p[i])
}

/// The name of a transfer coding, without parameters.
pub open spec fn coding_name(v: Seq<u8>) -> Seq<u8> {
    fields::trim_blank(v.subrange(0, octets::first_at(v, ';' as u8, 0)))
}

pub open spec fn is_chunked(v: Seq<u8>) -> bool {
    octets::lower(coding_name(v)) == key("chunked"@)
}

fn valid_parameter(p: &[u8]) -> (r: bool)
    ensures
        r == is_parameter(p@),
{
    match split_quoted(trim_ows(p), '=' as u8) {
        Err(_) => false,
        Ok(f) => {
            proof {
                assert forall|i: int| 0 <= i < f@.len() implies octets::views(f@)[i]
                    == #[trigger] f@[i]@ by {}
            }
            f.len() == 2 && valid_token(trim_ows(f[0].as_slice())) && valid_parameter_value(
                trim_ows(f[1].as_slice()),
            )
        },
    }
}

/// Whether the value is a transfer coding.
pub fn valid_transfer_coding(value: &[u8]) -> (r: bool)
    ensures
        r == is_transfer_coding(value@),
{
    match split_quoted(value, ';' as u8) {
        Err(_) => false,
        Ok(parts) => {
            let ghost p = octets::views(parts@);
            assert(p[0] == parts@[0]@);
            if !valid_token(trim_ows(parts[0].as_slice())) {
                return false;
            }
            let mut i: usize = 1;
            while i < parts.len()
                invariant
                    1 <= i <= parts@.len(),
                    p == octets::views(parts@),
                    split_outside_quotes(value@, ';' as u8) == Some(p),
                    fields::is_token(fields::trim_blank(p[0])),
                    forall|j: int| 1 <= j < i ==> is_parameter(#[trigger] p[j]),
                decreases parts@.len() - i,
            {
                assert(p[i as int] == parts@[i as int]@);
                if !valid_parameter(parts[i].as_slice()) {
                    assert(!is_parameter(p[i as int]));
                    return false;
                }
                i += 1;
            }
            true
        },
    }
}

/// The name of a transfer coding.
pub fn transfer_coding_name(value: &[u8]) -> (r: &[u8])
    ensures
        r@ == coding_name(value@),
{
    trim_ows(part(value, 0, find(value, ';' as u8, 0)))
}

fn chunked(value: &[u8]) -> (r: bool)
    ensures
        r == is_chunked(value@),
{
    equal_ignore_case(transfer_coding_name(value), "chunked".as_bytes())
}

/// The transfer codings that several field values list, without blanks around them.
pub open spec fn codings_of(values: Seq<Seq<u8>>) -> Option<Seq<Seq<u8>>>
    decreases values.len(),
{
    if values.len() == 0 {
        Some(Seq::empty())
    } else {
        match (split_outside_quotes(values[0], ',' as u8), codings_of(values.drop_first())) {
            (Some(p), Some(rest)) => Some(
                Seq::new(p.len(), |i: int| fields::trim_blank(p[i])) + rest,
            ),
            _ => None,
        }
    }
}

fn list_codings(values: &Vec<Vec<u8>>) -> (r: Option<Vec<Vec<u8>>>)
    ensures
        match r {
            Some(codings) => codings_of(octets::views(values@)) == Some(octets::views(codings@)),
            None => codings_of(octets::views(values@)) is None,
        },
{
    let mut out: Vec<Vec<u8>> = Vec::new();
    let ghost all = octets::views(values@);
    let mut i: usize = 0;
    proof {
        assert(all.subrange(0, all.len() as int) =~= all);
        match codings_of(all) {
            Some(rest) => {
                assert(octets::views(out@) + rest =~= rest);
            },
            None => {},
        }
    }
    while i < values.len()
        invariant
            i <= values@.len(),
            all == octets::views(values@),
            match codings_of(all.subrange(i as int, all.len() as int)) {
                Some(rest) => codings_of(all) == Some(octets::views(out@) + rest),
                None => codings_of(all) is None,
            },
        decreases values@.len() - i,
    {
        let ghost rest = all.subrange(i as int, all.len() as int);
        proof {
            assert(rest[0] == values@[i as int]@);
            assert(rest.drop_first() =~= all.subrange(i + 1, all.len() as int));
        }
        match split_quoted(values[i].as_slice(), ',' as u8) {
            Err(_) => {
                return None;
            },
            Ok(p) => {
                let ghost was = octets::views(out@);
                let ghost list = Seq::new(
                    octets::views(p@).len(),
                    |j: int| fields::trim_blank(octets::views(p@)[j]),
                );
                let mut k: usize = 0;
                assert(was + list.subrange(0, 0) =~= was);
                while k < p.len()
                    invariant
                        k <= p@.len(),
                        list == Seq::new(
                            octets::views(p@).len(),
                            |j: int| fields::trim_blank(octets::views(p@)[j]),
                        ),
                        octets::views(out@) == was + list.subrange(0, k as int),
                    decreases p@.len() - k,
                {
                    let ghost before = octets::views(out@);
                    out.push(copy(trim_ows(p[k].as_slice())));
                    proof {
                        assert(octets::views(p@)[k as int] == p@[k as int]@);
                        assert(octets::views(out@) =~= before.push(list[k as int]));
                        assert(list.subrange(0, k + 1) =~= list.subrange(0, k as int).push(
                            list[k as int],
                        ));
                    }
                    k += 1;
                }
                proof {
                    assert(list.subrange(0, k as int) =~= list);
                    match codings_of(rest.drop_first()) {
                        Some(tail) => {
                            assert(was + (list + tail) =~= octets::views(out@) + tail);
                        },
                        None => {},
                    }
                }
            },
        }
        i += 1;
    }
    proof {
        assert(all.subrange(i as int, all.len() as int) =~= Seq::empty());
        assert(octets::views(out@) + Seq::<Seq<u8>>::empty() =~= octets::views(out@));
    }
    Some(out)
}

/// The codings are valid, and `chunked` stands at most at the end, without parameters.
pub open spec fn codings_ordered(codings: Seq<Seq<u8>>) -> bool {
    &&& forall|i: int| 0 <= i < codings.len() ==> is_transfer_coding(#[trigger] codings[i])
    &&& forall|i: int| 0 <= i < codings.len() - 1 ==> !is_chunked(#[trigger] codings[i])
    &&& forall|i: int|
        0 <= i < codings.len() ==> !(is_chunked(#[trigger] codings[i]) && codings[i].contains(
            ';' as u8,
        ))
}

fn ordered(codings: &Vec<Vec<u8>>) -> (r: bool)
    ensures
        r == codings_ordered(octets::views(codings@)),
{
    let ghost all = octets::views(codings@);
    let mut i: usize = 0;
    while i < codings.len()
        invariant
            i <= codings@.len(),
            all == octets::views(codings@),
            forall|j: int| 0 <= j < i ==> is_transfer_coding(#[trigger] all[j]),
            forall|j: int| 0 <= j < i && j < all.len() - 1 ==> !is_chunked(#[trigger] all[j]),
            forall|j: int|
                0 <= j < i ==> !(is_chunked(#[trigger] all[j]) && all[j].contains(';' as u8)),
        decreases codings@.len() - i,
    {
        assert(all[i as int] == codings@[i as int]@);
        let coding = codings[i].as_slice();
        if !valid_transfer_coding(coding) {
            assert(!is_transfer_coding(all[i as int]));
            return false;
        }
        if chunked(coding) && (i + 1 < codings.len() || contains(coding, ';' as u8)) {
            assert(is_chunked(all[i as int]));
            return false;
        }
        i += 1;
    }
    true
}

/// Whether a request has a chunked body: no coding at all, or valid codings that end in `chunked`.
pub open spec fn request_chunked(values: Seq<Seq<u8>>) -> Option<bool> {
    match codings_of(values) {
        None => None,
        Some(codings) => if codings.len() == 0 {
            Some(false)
        } else if codings_ordered(codings) && is_chunked(codings.last()) {
            Some(true)
        } else {
            None
        },
    }
}

/// Reads the transfer codings of a request.
pub fn parse_transfer_encoding(headers: &HeaderMap) -> (r: Result<bool, IngressError>)
    ensures
        r == (match request_chunked(
            fields::values_of(fields::contents(*headers), key("transfer-encoding"@)),
        ) {
            Some(chunked) => Ok::<bool, IngressError>(chunked),
            None => Err(IngressError::BadRequest),
        }),
{
    let values = get_all(headers, "transfer-encoding");
    match list_codings(&values) {
        None => Err(IngressError::BadRequest),
        Some(codings) => {
            let n: usize = codings.len();
            if n == 0 {
                return Ok(false);
            }
            assert(octets::views(codings@).last() == codings@[n - 1]@);
            if ordered(&codings) && chunked(codings[n - 1].as_slice()) {
                Ok(true)
            } else {
                Err(IngressError::BadRequest)
            }
        },
    }
}

/// The transfer codings of a response, which need not end in `chunked`.
pub open spec fn origin_coding(values: Seq<Seq<u8>>) -> Option<OriginTransferCoding> {
    match codings_of(values) {
        None => None,
        Some(codings) => if codings.len() == 0 {
            Some(OriginTransferCoding::Absent)
        } else if !codings_ordered(codings) {
            None
        } else if is_chunked(codings.last()) {
            Some(OriginTransferCoding::FinalChunked { has_prior: codings.len() > 1 })
        } else {
            Some(OriginTransferCoding::FinalNonChunked)
        },
    }
}

/// Reads the transfer codings of a response.
pub fn parse_origin_transfer_encoding(headers: &HeaderMap) -> (r: Result<
    OriginTransferCoding,
    IngressError,
>)
    ensures
        r == (match origin_coding(
            fields::values_of(fields::contents(*headers), key("transfer-encoding"@)),
        ) {
            Some(coding) => Ok::<OriginTransferCoding, IngressError>(coding),
            None => Err(IngressError::BadRequest),
        }),
{
    let values = get_all(headers, "transfer-encoding");
    match list_codings(&values) {
        None => Err(IngressError::BadRequest),
        Some(codings) => {
            let n: usize = codings.len();
            if n == 0 {
                return Ok(OriginTransferCoding::Absent);
            }
            assert(octets::views(codings@).last() == codings@[n - 1]@);
            if !ordered(&codings) {
                return Err(IngressError::BadRequest);
            }
            if chunked(codings[n - 1].as_slice()) {
                Ok(OriginTransferCoding::FinalChunked { has_prior: n > 1 })
            } else {
                Ok(OriginTransferCoding::FinalNonChunked)
            }
        },
    }
}

/// The length that the members of the `Content-Length` fields agree on: every member is a decimal
/// number below 2^64, and all are equal.
pub open spec fn content_length(members: Seq<Seq<u8>>) -> Option<Option<u64>> {
    if members.len() == 0 {
        Some(None)
    } else if forall|i: int|
        0 <= i < members.len() ==> octets::spec_parse_decimal(#[trigger] members[i], u64::MAX)
            is Some && octets::spec_parse_decimal(members[i], u64::MAX)
            == octets::spec_parse_decimal(members[0], u64::MAX) {
        Some(octets::spec_parse_decimal(members[0], u64::MAX))
    } else {
        None
    }
}

/// Reads the body length.
pub fn parse_content_length(headers: &HeaderMap) -> (r: Result<Option<u64>, IngressError>)
    ensures
        r == (match content_length(
            fields::all_members(
                fields::values_of(fields::contents(*headers), key("content-length"@)),
            ),
        ) {
            Some(length) => Ok::<Option<u64>, IngressError>(length),
            None => Err(IngressError::BadRequest),
        }),
{
    let listed = members(&get_all(headers, "content-length"));
    let ghost all = octets::views(listed@);
    let mut parsed: Option<u64> = None;
    let mut i: usize = 0;
    while i < listed.len()
        invariant
            i <= listed@.len(),
            all == octets::views(listed@),
            all == fields::all_members(
                fields::values_of(fields::contents(*headers), key("content-length"@)),
            ),
            i == 0 ==> parsed is None,
            i > 0 ==> parsed is Some && parsed == octets::spec_parse_decimal(all[0], u64::MAX),
            forall|j: int|
                0 <= j < i ==> octets::spec_parse_decimal(#[trigger] all[j], u64::MAX) is Some
                    && octets::spec_parse_decimal(all[j], u64::MAX) == octets::spec_parse_decimal(
                    all[0],
                    u64::MAX,
                ),
        decreases listed@.len() - i,
    {
        assert(all[i as int] == listed@[i as int]@);
        match parse_decimal(listed[i].as_slice(), u64::MAX) {
            None => {
                assert(octets::spec_parse_decimal(all[i as int], u64::MAX) is None);
                return Err(IngressError::BadRequest);
            },
            Some(length) => {
                match parsed {
                    Some(previous) => {
                        if previous != length {
                            assert(octets::spec_parse_decimal(all[i as int], u64::MAX)
                                != octets::spec_parse_decimal(all[0], u64::MAX));
                            return Err(IngressError::BadRequest);
                        }
                    },
                    None => {},
                }
                parsed = Some(length);
            },
        }
        i += 1;
    }
    Ok(parsed)
}

/// Whether `http::uri::Authority` accepts the octets as an authority.
pub uninterp spec fn authority_accepted(value: Seq<u8>) -> bool;

/// `http::uri::Authority::try_from`: parses the octets as an authority. Whether they are one is
/// named, not spelled out: the grammar is the crate's own.
#[verifier::external_body]
fn accepts_authority(value: &[u8]) -> (r: bool)
    ensures
        r == authority_accepted(value@),
{
    hyper::http::uri::Authority::try_from(value).is_ok()
}

/// The octets of a `Host` value are visible ASCII without separators that a host cannot hold.
pub open spec fn is_host_text(v: Seq<u8>) -> bool {
    &&& v.len() > 0
    &&& forall|i: int|
        0 <= i < v.len() ==> 33 <= #[trigger] v[i] <= 126 && v[i] != ',' as u8 && v[i] != '@' as u8
            && v[i] != '/' as u8 && v[i] != '?' as u8 && v[i] != '#' as u8
}

/// Whether a `Host` value holds only octets that a host can hold.
pub fn valid_host_text(value: &[u8]) -> (r: bool)
    ensures
        r == is_host_text(value@),
{
    if value.len() == 0 {
        return false;
    }
    let mut i: usize = 0;
    while i < value.len()
        invariant
            i <= value@.len(),
            forall|j: int|
                0 <= j < i ==> 33 <= #[trigger] value@[j] <= 126 && value@[j] != ',' as u8
                    && value@[j] != '@' as u8 && value@[j] != '/' as u8 && value@[j] != '?' as u8
                    && value@[j] != '#' as u8,
        decreases value@.len() - i,
    {
        let b: u8 = value[i];
        if b < 33 || b > 126 || b == ',' as u8 || b == '@' as u8 || b == '/' as u8 || b
            == '?' as u8 || b == '#' as u8 {
            assert(value@[i as int] == b);
            return false;
        }
        i += 1;
    }
    true
}

/// Every value is an authority.
pub open spec fn all_authorities(values: Seq<Seq<u8>>) -> bool {
    forall|i: int| 0 <= i < values.len() ==> authority_accepted(#[trigger] values[i])
}

/// The `Host` values are acceptable: exactly one in HTTP/1.1, each of host text and an authority.
pub open spec fn hosts_valid(version: HttpVersion, hosts: Seq<Seq<u8>>, parse: bool) -> bool {
    &&& version == HttpVersion::Http11 ==> hosts.len() == 1
    &&& forall|i: int| 0 <= i < hosts.len() ==> is_host_text(#[trigger] hosts[i])
    &&& parse
}

/// Whether every `Host` value is an authority.
pub fn hosts_parse(headers: &HeaderMap) -> (r: bool)
    ensures
        r == all_authorities(fields::values_of(fields::contents(*headers), key("host"@))),
{
    let hosts = get_all(headers, "host");
    let ghost all = octets::views(hosts@);
    let mut i: usize = 0;
    while i < hosts.len()
        invariant
            i <= hosts@.len(),
            all == octets::views(hosts@),
            all == fields::values_of(fields::contents(*headers), key("host"@)),
            forall|j: int| 0 <= j < i ==> authority_accepted(#[trigger] all[j]),
        decreases hosts@.len() - i,
    {
        assert(all[i as int] == hosts@[i as int]@);
        if !accepts_authority(hosts[i].as_slice()) {
            assert(!authority_accepted(all[i as int]));
            return false;
        }
        i += 1;
    }
    true
}

/// Checks the `Host` fields, given whether all of them are authorities.
pub fn validate_host(version: HttpVersion, headers: &HeaderMap, parse: bool) -> (r: Result<
    (),
    IngressError,
>)
    ensures
        r == (if hosts_valid(
            version,
            fields::values_of(fields::contents(*headers), key("host"@)),
            parse,
        ) {
            Ok::<(), IngressError>(())
        } else {
            Err(IngressError::BadRequest)
        }),
{
    let hosts = get_all(headers, "host");
    let ghost all = octets::views(hosts@);
    assert(all.len() == hosts@.len());
    if let HttpVersion::Http11 = version {
        if hosts.len() != 1 {
            return Err(IngressError::BadRequest);
        }
    }
    let mut i: usize = 0;
    while i < hosts.len()
        invariant
            i <= hosts@.len(),
            all == octets::views(hosts@),
            all == fields::values_of(fields::contents(*headers), key("host"@)),
            forall|j: int| 0 <= j < i ==> is_host_text(#[trigger] all[j]),
        decreases hosts@.len() - i,
    {
        assert(all[i as int] == hosts@[i as int]@);
        if !valid_host_text(hosts[i].as_slice()) {
            assert(!is_host_text(all[i as int]));
            return Err(IngressError::BadRequest);
        }
        i += 1;
    }
    if parse {
        Ok(())
    } else {
        Err(IngressError::BadRequest)
    }
}

/// How the fields delimit a request body. A length and a transfer coding exclude each other.
pub open spec fn framing_of(f: Fields) -> Option<BodyFraming> {
    match (
        content_length(fields::all_members(fields::values_of(f, key("content-length"@)))),
        request_chunked(fields::values_of(f, key("transfer-encoding"@))),
    ) {
        (Some(Some(length)), Some(false)) => Some(BodyFraming::ContentLength(length)),
        (Some(None), Some(true)) => Some(BodyFraming::Chunked),
        (Some(None), Some(false)) => Some(BodyFraming::NoBody),
        _ => None,
    }
}

/// Reads how a request body is delimited.
pub fn parse_framing(headers: &HeaderMap) -> (r: Result<BodyFraming, IngressError>)
    ensures
        r == (match framing_of(fields::contents(*headers)) {
            Some(framing) => Ok::<BodyFraming, IngressError>(framing),
            None => Err(IngressError::BadRequest),
        }),
{
    match (parse_content_length(headers), parse_transfer_encoding(headers)) {
        (Ok(Some(length)), Ok(false)) => Ok(BodyFraming::ContentLength(length)),
        (Ok(None), Ok(true)) => Ok(BodyFraming::Chunked),
        (Ok(None), Ok(false)) => Ok(BodyFraming::NoBody),
        _ => Err(IngressError::BadRequest),
    }
}

/// The members of a list field, all of which must be tokens.
pub open spec fn tokens_of(f: Fields, name: Seq<u8>) -> Option<Seq<Seq<u8>>> {
    let listed = fields::all_members(fields::values_of(f, name));
    if forall|i: int| 0 <= i < listed.len() ==> fields::is_token(#[trigger] listed[i]) {
        Some(listed)
    } else {
        None
    }
}

/// Reads the members of a list field.
pub fn comma_tokens(headers: &HeaderMap, name: &str) -> (r: Result<Vec<Vec<u8>>, IngressError>)
    ensures
        match r {
            Ok(tokens) => tokens_of(fields::contents(*headers), key(name@)) == Some(
                octets::views(tokens@),
            ),
            Err(e) => e == IngressError::BadRequest && tokens_of(
                fields::contents(*headers),
                key(name@),
            ) is None,
        },
{
    let listed = members(&get_all(headers, name));
    let ghost all = octets::views(listed@);
    let mut i: usize = 0;
    while i < listed.len()
        invariant
            i <= listed@.len(),
            all == octets::views(listed@),
            all == fields::all_members(fields::values_of(fields::contents(*headers), key(name@))),
            forall|j: int| 0 <= j < i ==> fields::is_token(#[trigger] all[j]),
        decreases listed@.len() - i,
    {
        assert(all[i as int] == listed@[i as int]@);
        if !valid_token(listed[i].as_slice()) {
            assert(!fields::is_token(all[i as int]));
            return Err(IngressError::BadRequest);
        }
        i += 1;
    }
    Ok(listed)
}

/// One of the tokens is the word, in any case.
pub open spec fn lists(tokens: Seq<Seq<u8>>, word: Seq<char>) -> bool {
    exists|i: int| 0 <= i < tokens.len() && octets::lower(#[trigger] tokens[i]) == key(word)
}

/// Whether one of the tokens is the word.
pub fn listed(tokens: &Vec<Vec<u8>>, word: &str) -> (r: bool)
    ensures
        r == lists(octets::views(tokens@), word@),
{
    let ghost all = octets::views(tokens@);
    let mut i: usize = 0;
    while i < tokens.len()
        invariant
            i <= tokens@.len(),
            all == octets::views(tokens@),
            forall|j: int| 0 <= j < i ==> octets::lower(#[trigger] all[j]) != key(word@),
        decreases tokens@.len() - i,
    {
        assert(all[i as int] == tokens@[i as int]@);
        if equal_ignore_case(tokens[i].as_slice(), word.as_bytes()) {
            assert(octets::lower(all[i as int]) == key(word@));
            return true;
        }
        i += 1;
    }
    false
}

/// Whether the connection ends with this message: in HTTP/1.0 unless it asks to stay, in HTTP/1.1
/// where it says so.
pub open spec fn closes(version: HttpVersion, tokens: Seq<Seq<u8>>) -> bool {
    match version {
        HttpVersion::Http10 => !lists(tokens, "keep-alive"@),
        HttpVersion::Http11 => lists(tokens, "close"@),
    }
}

fn message_closes(version: HttpVersion, tokens: &Vec<Vec<u8>>) -> (r: bool)
    ensures
        r == closes(version, octets::views(tokens@)),
{
    match version {
        HttpVersion::Http10 => !listed(tokens, "keep-alive"),
        HttpVersion::Http11 => listed(tokens, "close"),
    }
}

/// A request head.
#[derive(Debug)]
pub struct RequestHead {
    pub method: Vec<u8>,
    pub raw_target: Vec<u8>,
    pub version: HttpVersion,
    pub headers: HeaderMap,
    pub framing: BodyFraming,
    pub close: bool,
    pub upgrade: bool,
    pub expect: bool,
}

pub struct HeadModel {
    pub method: Seq<u8>,
    pub raw_target: Seq<u8>,
    pub version: HttpVersion,
    pub fields: Fields,
    pub framing: BodyFraming,
    pub close: bool,
    pub upgrade: bool,
    pub expect: bool,
}

impl View for RequestHead {
    type V = HeadModel;

    open spec fn view(&self) -> HeadModel {
        HeadModel {
            method: self.method@,
            raw_target: self.raw_target@,
            version: self.version,
            fields: fields::contents(self.headers),
            framing: self.framing,
            close: self.close,
            upgrade: self.upgrade,
            expect: self.expect,
        }
    }
}

/// A line without its carriage return and line feed.
pub open spec fn without_crlf(s: Seq<u8>) -> Option<Seq<u8>> {
    if s.len() >= 2 && s[s.len() - 2] == 13 && s[s.len() - 1] == 10 {
        Some(s.subrange(0, s.len() - 2))
    } else {
        None
    }
}

/// The version that a request line names.
pub open spec fn version_of(s: Seq<u8>) -> Result<HttpVersion, IngressError> {
    if s == octets::octets("HTTP/1.0"@) {
        Ok(HttpVersion::Http10)
    } else if s == octets::octets("HTTP/1.1"@) {
        Ok(HttpVersion::Http11)
    } else if s.len() == 8 && s.subrange(0, 5) == octets::octets("HTTP/"@) && octets::is_digit(s[5])
        && s[6] == '.' as u8 && octets::is_digit(s[7]) {
        Err(IngressError::UnsupportedVersion)
    } else {
        Err(IngressError::BadRequest)
    }
}

pub open spec fn has_control(s: Seq<u8>) -> bool {
    exists|i: int| 0 <= i < s.len() && octets::is_control(#[trigger] s[i])
}

/// The method, target and version of a request line.
pub open spec fn request_line_of(line: Seq<u8>) -> Result<
    (Seq<u8>, Seq<u8>, HttpVersion),
    IngressError,
> {
    match without_crlf(line) {
        None => Err(IngressError::BadRequest),
        Some(text) => {
            let p = octets::pieces(text, ' ' as u8);
            if p.len() != 3 || !fields::is_token(p[0]) || p[1].len() == 0 || has_control(p[1]) {
                Err(IngressError::BadRequest)
            } else {
                match version_of(p[2]) {
                    Ok(version) => Ok((p[0], p[1], version)),
                    Err(error) => Err(error),
                }
            }
        },
    }
}

/// The head that a request line and its fields make, given whether every `Host` value is an
/// authority.
pub open spec fn head_with(
    method: Seq<u8>,
    raw_target: Seq<u8>,
    version: HttpVersion,
    f: Fields,
    parse: bool,
) -> Option<HeadModel> {
    match (framing_of(f), tokens_of(f, key("connection"@))) {
        (Some(framing), Some(tokens)) => if hosts_valid(
            version,
            fields::values_of(f, key("host"@)),
            parse,
        ) && !(version == HttpVersion::Http10 && fields::has(f, key("transfer-encoding"@))) {
            Some(
                HeadModel {
                    method,
                    raw_target,
                    version,
                    fields: f,
                    framing,
                    close: closes(version, tokens),
                    upgrade: fields::has(f, key("upgrade"@)) || lists(tokens, "upgrade"@),
                    expect: fields::has(f, key("expect"@)),
                },
            )
        } else {
            None
        },
        _ => None,
    }
}

/// The head that a request line and a header section spell.
pub open spec fn head_of(line: Seq<u8>, section: Seq<u8>) -> Result<HeadModel, IngressError> {
    match request_line_of(line) {
        Err(error) => Err(error),
        Ok((method, raw_target, version)) => match map_of(section) {
            None => Err(IngressError::BadRequest),
            Some(f) => match head_with(
                method,
                raw_target,
                version,
                f,
                all_authorities(fields::values_of(f, key("host"@))),
            ) {
                Some(head) => Ok(head),
                None => Err(IngressError::BadRequest),
            },
        },
    }
}

fn parse_version(s: &[u8]) -> (r: Result<HttpVersion, IngressError>)
    ensures
        r == version_of(s@),
{
    if is_text(s, "HTTP/1.0") {
        return Ok(HttpVersion::Http10);
    }
    if is_text(s, "HTTP/1.1") {
        return Ok(HttpVersion::Http11);
    }
    if s.len() == 8 && is_text(part(s, 0, 5), "HTTP/") && digit(s[5]) && s[6] == '.' as u8 && digit(
        s[7],
    ) {
        return Err(IngressError::UnsupportedVersion);
    }
    Err(IngressError::BadRequest)
}

fn control_in(s: &[u8]) -> (r: bool)
    ensures
        r == has_control(s@),
{
    let mut i: usize = 0;
    while i < s.len()
        invariant
            i <= s@.len(),
            forall|j: int| 0 <= j < i ==> !octets::is_control(#[trigger] s@[j]),
        decreases s@.len() - i,
    {
        if s[i] < 32 || s[i] == 127 {
            assert(octets::is_control(s@[i as int]));
            return true;
        }
        i += 1;
    }
    false
}

fn strip_crlf(s: &[u8]) -> (r: Option<&[u8]>)
    ensures
        match r {
            Some(text) => without_crlf(s@) == Some(text@),
            None => without_crlf(s@) is None,
        },
{
    let n: usize = s.len();
    if n >= 2 && s[n - 2] == 13 && s[n - 1] == 10 {
        Some(part(s, 0, n - 2))
    } else {
        None
    }
}

/// Reads a request line.
pub fn parse_request_line(line: &[u8]) -> (r: Result<
    (Vec<u8>, Vec<u8>, HttpVersion),
    IngressError,
>)
    ensures
        match r {
            Ok((method, target, version)) => request_line_of(line@) == Ok::<
                (Seq<u8>, Seq<u8>, HttpVersion),
                IngressError,
            >((method@, target@, version)),
            Err(e) => request_line_of(line@) == Err::<
                (Seq<u8>, Seq<u8>, HttpVersion),
                IngressError,
            >(e),
        },
{
    match strip_crlf(line) {
        None => Err(IngressError::BadRequest),
        Some(text) => {
            let p = split(text, ' ' as u8);
            let ghost all = octets::pieces(text@, ' ' as u8);
            proof {
                assert(octets::views(p@).len() == p@.len());
                assert forall|i: int| 0 <= i < p@.len() implies all[i] == #[trigger] p@[i]@ by {
                    assert(octets::views(p@)[i] == p@[i]@);
                }
            }
            if p.len() != 3 {
                return Err(IngressError::BadRequest);
            }
            if !valid_token(p[0].as_slice()) || p[1].len() == 0 || control_in(p[1].as_slice()) {
                return Err(IngressError::BadRequest);
            }
            match parse_version(p[2].as_slice()) {
                Err(error) => Err(error),
                Ok(version) => Ok((copy(p[0].as_slice()), copy(p[1].as_slice()), version)),
            }
        },
    }
}

/// Makes a head of a request line and its fields, given whether every `Host` value is an
/// authority.
pub fn finish_head(
    method: Vec<u8>,
    raw_target: Vec<u8>,
    version: HttpVersion,
    headers: HeaderMap,
    parse: bool,
) -> (r: Result<RequestHead, IngressError>)
    ensures
        match r {
            Ok(head) => head_with(
                method@,
                raw_target@,
                version,
                fields::contents(headers),
                parse,
            ) == Some(head@),
            Err(e) => e == IngressError::BadRequest && head_with(
                method@,
                raw_target@,
                version,
                fields::contents(headers),
                parse,
            ) is None,
        },
{
    match validate_host(version, &headers, parse) {
        Err(error) => {
            return Err(error);
        },
        Ok(_) => {},
    }
    if let HttpVersion::Http10 = version {
        if contains_key(&headers, "transfer-encoding") {
            return Err(IngressError::BadRequest);
        }
    }
    match (parse_framing(&headers), comma_tokens(&headers, "connection")) {
        (Ok(framing), Ok(tokens)) => {
            let close: bool = message_closes(version, &tokens);
            let upgrade: bool = contains_key(&headers, "upgrade") || listed(&tokens, "upgrade");
            let expect: bool = contains_key(&headers, "expect");
            Ok(
                RequestHead {
                    method,
                    raw_target,
                    version,
                    headers,
                    framing,
                    close,
                    upgrade,
                    expect,
                },
            )
        },
        _ => Err(IngressError::BadRequest),
    }
}

/// Reads a request head from its request line and header section.
pub fn parse_head(request_line: &[u8], header_section: &[u8]) -> (r: Result<
    RequestHead,
    IngressError,
>)
    ensures
        match r {
            Ok(head) => head_of(request_line@, header_section@) == Ok::<HeadModel, IngressError>(
                head@,
            ),
            Err(e) => head_of(request_line@, header_section@) == Err::<HeadModel, IngressError>(e)
                || (e == IngressError::BadRequest && crowded(header_section@)),
        },
{
    match parse_request_line(request_line) {
        Err(error) => Err(error),
        Ok((method, raw_target, version)) => match parse_fields(header_section) {
            Err(error) => Err(error),
            Ok(headers) => {
                let parse: bool = hosts_parse(&headers);
                finish_head(method, raw_target, version, headers, parse)
            },
        },
    }
}

/// A response head.
#[derive(Debug)]
pub struct OriginResponseHead {
    pub version: HttpVersion,
    pub status: u16,
    pub headers: HeaderMap,
    pub framing: OriginBodyFraming,
    pub transfer_coding: OriginTransferCoding,
    pub close: bool,
}

pub struct OriginHeadModel {
    pub version: HttpVersion,
    pub status: u16,
    pub fields: Fields,
    pub framing: OriginBodyFraming,
    pub transfer_coding: OriginTransferCoding,
    pub close: bool,
}

impl View for OriginResponseHead {
    type V = OriginHeadModel;

    open spec fn view(&self) -> OriginHeadModel {
        OriginHeadModel {
            version: self.version,
            status: self.status,
            fields: fields::contents(self.headers),
            framing: self.framing,
            transfer_coding: self.transfer_coding,
            close: self.close,
        }
    }
}

/// The version that starts a status line.
pub open spec fn status_version(text: Seq<u8>) -> Option<HttpVersion> {
    if text.len() >= 9 && text.subrange(0, 9) == octets::octets("HTTP/1.0 "@) {
        Some(HttpVersion::Http10)
    } else if text.len() >= 9 && text.subrange(0, 9) == octets::octets("HTTP/1.1 "@) {
        Some(HttpVersion::Http11)
    } else {
        None
    }
}

/// The version and the status of a status line: three digits from 100 to 599, a space, and a
/// reason without control characters other than tabs.
pub open spec fn status_line_of(line: Seq<u8>) -> Option<(HttpVersion, u16)> {
    match without_crlf(line) {
        None => None,
        Some(text) => match status_version(text) {
            None => None,
            Some(version) => {
                let rest = text.subrange(9, text.len() as int);
                let number = octets::decimal(rest.subrange(0, 3));
                if rest.len() >= 4 && octets::all_digits(rest.subrange(0, 3)) && rest[3] == 32
                    && fields::is_field_value(rest.subrange(4, rest.len() as int)) && 100 <= number
                    <= 599 {
                    Some((version, number as u16))
                } else {
                    None
                }
            },
        },
    }
}

pub open spec fn is_informational(status: u16) -> bool {
    100 <= status < 200
}

/// The response has no body whatever its fields say.
pub open spec fn is_bodyless(head_request: bool, status: u16) -> bool {
    head_request || is_informational(status) || status == 204 || status == 304
}

/// How a response body is delimited.
pub open spec fn origin_framing(
    bodyless: bool,
    coding: OriginTransferCoding,
    length: Option<u64>,
) -> OriginBodyFraming {
    if bodyless {
        OriginBodyFraming::NoBody
    } else {
        match coding {
            OriginTransferCoding::FinalChunked { .. } => OriginBodyFraming::Chunked,
            OriginTransferCoding::FinalNonChunked => OriginBodyFraming::CloseDelimited,
            OriginTransferCoding::Absent => match length {
                Some(length) => OriginBodyFraming::ContentLength(length),
                None => OriginBodyFraming::CloseDelimited,
            },
        }
    }
}

/// The response head that a status line and its fields make, for a request that was or was not a
/// HEAD request.
pub open spec fn origin_head_with(
    version: HttpVersion,
    status: u16,
    f: Fields,
    head_request: bool,
) -> Option<OriginHeadModel> {
    match (
        content_length(fields::all_members(fields::values_of(f, key("content-length"@)))),
        origin_coding(fields::values_of(f, key("transfer-encoding"@))),
        tokens_of(f, key("connection"@)),
    ) {
        (Some(length), Some(coding), Some(tokens)) => {
            let coded = coding != OriginTransferCoding::Absent;
            let framing = origin_framing(is_bodyless(head_request, status), coding, length);
            if (version == HttpVersion::Http10 && coded) || (length is Some && coded) || ((
            is_informational(status) || status == 204) && (length is Some || coded)) {
                None
            } else {
                Some(
                    OriginHeadModel {
                        version,
                        status,
                        fields: f,
                        framing,
                        transfer_coding: coding,
                        close: closes(version, tokens) || framing
                            == OriginBodyFraming::CloseDelimited,
                    },
                )
            }
        },
        _ => None,
    }
}

/// The response head that a status line and a header section spell.
pub open spec fn origin_head_of(
    line: Seq<u8>,
    section: Seq<u8>,
    method: Seq<u8>,
) -> Option<OriginHeadModel> {
    match (status_line_of(line), map_of(section)) {
        (Some((version, status)), Some(f)) => origin_head_with(
            version,
            status,
            f,
            method == octets::octets("HEAD"@),
        ),
        _ => None,
    }
}

/// Reads a status line.
pub fn parse_status_line(status_line: &[u8]) -> (r: Option<(HttpVersion, u16)>)
    ensures
        r == status_line_of(status_line@),
{
    match strip_crlf(status_line) {
        None => None,
        Some(text) => {
            if text.len() < 9 {
                return None;
            }
            let version: HttpVersion = if is_text(part(text, 0, 9), "HTTP/1.0 ") {
                HttpVersion::Http10
            } else if is_text(part(text, 0, 9), "HTTP/1.1 ") {
                HttpVersion::Http11
            } else {
                return None;
            };
            let rest = part(text, 9, text.len());
            if rest.len() < 4 || rest[3] != 32 || !valid_field_value(part(rest, 4, rest.len())) {
                return None;
            }
            match parse_decimal(part(rest, 0, 3), 599) {
                None => None,
                Some(number) => if number < 100 {
                    None
                } else {
                    Some((version, number as u16))
                },
            }
        },
    }
}

/// Reads a response head from its status line and header section, for the method of the request.
pub fn parse_origin_response_head(
    status_line: &[u8],
    header_section: &[u8],
    request_method: &[u8],
) -> (r: Result<OriginResponseHead, OriginError>)
    ensures
        match r {
            Ok(head) => origin_head_of(status_line@, header_section@, request_method@) == Some(
                head@,
            ),
            Err(e) => e == OriginError::Invalid && (origin_head_of(
                status_line@,
                header_section@,
                request_method@,
            ) is None || crowded(header_section@)),
        },
{
    let (version, status): (HttpVersion, u16) = match parse_status_line(status_line) {
        Some(parsed) => parsed,
        None => {
            return Err(OriginError::Invalid);
        },
    };
    let headers: HeaderMap = match parse_fields(header_section) {
        Ok(headers) => headers,
        Err(_) => {
            return Err(OriginError::Invalid);
        },
    };
    match (
        parse_content_length(&headers),
        parse_origin_transfer_encoding(&headers),
        comma_tokens(&headers, "connection"),
    ) {
        (Ok(length), Ok(coding), Ok(tokens)) => {
            let coded: bool = match coding {
                OriginTransferCoding::Absent => false,
                _ => true,
            };
            let http10: bool = match version {
                HttpVersion::Http10 => true,
                HttpVersion::Http11 => false,
            };
            let informational: bool = status >= 100 && status < 200;
            if (http10 && coded) || (length.is_some() && coded) || ((informational || status == 204)
                && (length.is_some() || coded)) {
                return Err(OriginError::Invalid);
            }
            let bodyless: bool = is_text(request_method, "HEAD") || informational || status == 204
                || status == 304;
            let mut close: bool = message_closes(version, &tokens);
            let framing: OriginBodyFraming = if bodyless {
                OriginBodyFraming::NoBody
            } else {
                match coding {
                    OriginTransferCoding::FinalChunked { .. } => OriginBodyFraming::Chunked,
                    OriginTransferCoding::FinalNonChunked => {
                        close = true;
                        OriginBodyFraming::CloseDelimited
                    },
                    OriginTransferCoding::Absent => match length {
                        Some(length) => OriginBodyFraming::ContentLength(length),
                        None => {
                            close = true;
                            OriginBodyFraming::CloseDelimited
                        },
                    },
                }
            };
            Ok(
                OriginResponseHead {
                    version,
                    status,
                    headers,
                    framing,
                    transfer_coding: coding,
                    close,
                },
            )
        },
        _ => Err(OriginError::Invalid),
    }
}

/// Carriage returns and line feeds come in pairs only. A carriage return may be last, as its line
/// feed may still be on its way.
pub open spec fn line_endings_paired(s: Seq<u8>) -> bool {
    &&& forall|i: int| 0 <= i < s.len() && #[trigger] s[i] == 10 ==> i > 0 && s[i - 1] == 13
    &&& forall|i: int| 0 <= i < s.len() - 1 && #[trigger] s[i] == 13 ==> s[i + 1] == 10
}

/// Checks that carriage returns and line feeds come in pairs.
pub fn validate_line_endings(bytes: &[u8]) -> (r: Result<(), IngressError>)
    ensures
        r == (if line_endings_paired(bytes@) {
            Ok::<(), IngressError>(())
        } else {
            Err(IngressError::BadRequest)
        }),
{
    let mut i: usize = 0;
    while i < bytes.len()
        invariant
            i <= bytes@.len(),
            forall|j: int|
                0 <= j < i && #[trigger] bytes@[j] == 10 ==> j > 0 && bytes@[j - 1] == 13,
            forall|j: int|
                0 <= j < i && j < bytes@.len() - 1 && #[trigger] bytes@[j] == 13 ==> bytes@[j + 1]
                    == 10,
        decreases bytes@.len() - i,
    {
        let byte: u8 = bytes[i];
        if byte == 10 && (i == 0 || bytes[i - 1] != 13) {
            assert(bytes@[i as int] == 10);
            return Err(IngressError::BadRequest);
        }
        if byte == 13 && i < bytes.len() - 1 && bytes[i + 1] != 10 {
            assert(bytes@[i as int] == 13);
            return Err(IngressError::BadRequest);
        }
        i += 1;
    }
    Ok(())
}

/// Only visible ASCII and spaces.
pub open spec fn is_printable(s: Seq<u8>) -> bool {
    forall|i: int| 0 <= i < s.len() ==> 32 <= #[trigger] s[i] < 127
}

/// Checks that what has arrived of a request line is visible ASCII.
pub fn validate_request_line_prefix(bytes: &[u8]) -> (r: Result<(), IngressError>)
    ensures
        r == (if is_printable(bytes@) {
            Ok::<(), IngressError>(())
        } else {
            Err(IngressError::BadRequest)
        }),
{
    let mut i: usize = 0;
    while i < bytes.len()
        invariant
            i <= bytes@.len(),
            forall|j: int| 0 <= j < i ==> 32 <= #[trigger] bytes@[j] < 127,
        decreases bytes@.len() - i,
    {
        if bytes[i] < 32 || bytes[i] >= 127 {
            assert(!(32 <= bytes@[i as int] < 127));
            return Err(IngressError::BadRequest);
        }
        i += 1;
    }
    Ok(())
}

/// A request line whose method is HEAD.
pub open spec fn line_is_head(line: Seq<u8>) -> bool {
    line.subrange(0, octets::first_at(line, ' ' as u8, 0)) == octets::octets("HEAD"@)
}

pub fn request_line_is_head(bytes: &[u8]) -> (r: bool)
    ensures
        r == line_is_head(bytes@),
{
    is_text(part(bytes, 0, find(bytes, ' ' as u8, 0)), "HEAD")
}

/// The index of the first two line endings in a row at or after `from`, or the length.
pub open spec fn blank_line_at(s: Seq<u8>, from: int) -> int
    decreases s.len() - from,
{
    if from < 0 || from + 3 >= s.len() {
        s.len() as int
    } else if s[from] == 13 && s[from + 1] == 10 && s[from + 2] == 13 && s[from + 3] == 10 {
        from
    } else {
        blank_line_at(s, from + 1)
    }
}

/// Where a head ends whose first line has the given length, if all of it is there.
pub open spec fn head_end(s: Seq<u8>, line_len: int) -> Option<int> {
    if line_len + 2 <= s.len() && s[line_len] == 13 && s[line_len + 1] == 10 {
        Some(line_len + 2)
    } else if blank_line_at(s, line_len) < s.len() {
        Some(blank_line_at(s, line_len) + 4)
    } else {
        None
    }
}

/// Finds where a head ends.
pub fn find_head_end(bytes: &[u8], line_len: usize) -> (r: Option<usize>)
    requires
        line_len <= bytes@.len(),
    ensures
        match r {
            Some(end) => head_end(bytes@, line_len as int) == Some(end as int) && line_len + 2
                <= end <= bytes@.len(),
            None => head_end(bytes@, line_len as int) is None,
        },
{
    if bytes.len() - line_len >= 2 && bytes[line_len] == 13 && bytes[line_len + 1] == 10 {
        return Some(line_len + 2);
    }
    let mut i: usize = line_len;
    while bytes.len() >= 4 && i <= bytes.len() - 4
        invariant
            line_len <= i <= bytes@.len(),
            blank_line_at(bytes@, line_len as int) == blank_line_at(bytes@, i as int),
            !(line_len + 2 <= bytes@.len() && bytes@[line_len as int] == 13 && bytes@[line_len + 1]
                == 10),
        decreases bytes@.len() - i,
    {
        if bytes[i] == 13 && bytes[i + 1] == 10 && bytes[i + 2] == 13 && bytes[i + 3] == 10 {
            return Some(i + 4);
        }
        i += 1;
    }
    None
}

/// The value of a string of hexadecimal digits grows with every digit.
proof fn lemma_hex_prefix(s: Seq<u8>, i: int)
    requires
        ip::all_hex(s),
        0 <= i <= s.len(),
    ensures
        ip::hexadecimal(s.subrange(0, i)) <= ip::hexadecimal(s),
    decreases s.len(),
{
    if i == s.len() {
        assert(s.subrange(0, i) =~= s);
    } else {
        lemma_hex_prefix(s.drop_last(), i);
        assert(s.drop_last().subrange(0, i) =~= s.subrange(0, i));
    }
}

/// The number that a nonempty string of hexadecimal digits denotes, where it fits in 64 bits.
pub open spec fn hex_number(s: Seq<u8>) -> Option<u64> {
    if s.len() > 0 && ip::all_hex(s) && ip::hexadecimal(s) <= u64::MAX {
        Some(ip::hexadecimal(s) as u64)
    } else {
        None
    }
}

fn parse_hex(s: &[u8]) -> (r: Option<u64>)
    ensures
        r == hex_number(s@),
{
    if s.len() == 0 {
        return None;
    }
    let mut k: usize = 0;
    while k < s.len()
        invariant
            k <= s@.len(),
            forall|j: int| 0 <= j < k ==> octets::is_hex(#[trigger] s@[j]),
        decreases s@.len() - k,
    {
        if !hex(s[k]) {
            assert(!octets::is_hex(s@[k as int]));
            return None;
        }
        k += 1;
    }
    let mut value: u64 = 0;
    let mut i: usize = 0;
    while i < s.len()
        invariant
            i <= s@.len(),
            ip::all_hex(s@),
            value == ip::hexadecimal(s@.subrange(0, i as int)),
        decreases s@.len() - i,
    {
        let d: u64 = hex_digit_value(s[i]) as u64;
        proof {
            let next = s@.subrange(0, i + 1);
            assert(next.drop_last() =~= s@.subrange(0, i as int));
            lemma_hex_prefix(s@, i + 1);
        }
        if value > 0x0fff_ffff_ffff_ffff {
            return None;
        }
        value = value * 16 + d;
        i += 1;
    }
    assert(s@.subrange(0, i as int) =~= s@);
    Some(value)
}

/// A chunk extension: a token, alone or with `=` and a value, with blanks around each.
pub open spec fn is_chunk_extension(e: Seq<u8>) -> bool {
    let t = fields::trim_blank(e);
    t.len() > 0 && match split_outside_quotes(t, '=' as u8) {
        Some(f) => if f.len() == 1 {
            fields::is_token(fields::trim_blank(f[0]))
        } else {
            f.len() == 2 && fields::is_token(fields::trim_blank(f[0])) && is_parameter_value(
                fields::trim_blank(f[1]),
            )
        },
        None => false,
    }
}

/// The size that a chunk-size line gives.
pub open spec fn chunk_size_of(line: Seq<u8>) -> Option<u64> {
    match split_outside_quotes(line, ';' as u8) {
        None => None,
        Some(p) => if forall|i: int| 1 <= i < p.len() ==> is_chunk_extension(#[trigger] p[i]) {
            hex_number(p[0])
        } else {
            None
        },
    }
}

fn valid_chunk_extension(e: &[u8]) -> (r: bool)
    ensures
        r == is_chunk_extension(e@),
{
    let t = trim_ows(e);
    if t.len() == 0 {
        return false;
    }
    match split_quoted(t, '=' as u8) {
        Err(_) => false,
        Ok(f) => {
            proof {
                assert forall|i: int| 0 <= i < f@.len() implies octets::views(f@)[i]
                    == #[trigger] f@[i]@ by {}
            }
            if f.len() == 1 {
                valid_token(trim_ows(f[0].as_slice()))
            } else {
                f.len() == 2 && valid_token(trim_ows(f[0].as_slice())) && valid_parameter_value(
                    trim_ows(f[1].as_slice()),
                )
            }
        },
    }
}

/// Reads a chunk-size line.
pub fn parse_chunk_size(line: &[u8]) -> (r: Result<u64, IngressError>)
    ensures
        r == (match chunk_size_of(line@) {
            Some(size) => Ok::<u64, IngressError>(size),
            None => Err(IngressError::BadRequest),
        }),
{
    match split_quoted(line, ';' as u8) {
        Err(error) => Err(error),
        Ok(parts) => {
            let ghost p = octets::views(parts@);
            let mut i: usize = 1;
            while i < parts.len()
                invariant
                    1 <= i <= parts@.len(),
                    p == octets::views(parts@),
                    split_outside_quotes(line@, ';' as u8) == Some(p),
                    forall|j: int| 1 <= j < i ==> is_chunk_extension(#[trigger] p[j]),
                decreases parts@.len() - i,
            {
                assert(p[i as int] == parts@[i as int]@);
                if !valid_chunk_extension(parts[i].as_slice()) {
                    assert(!is_chunk_extension(p[i as int]));
                    return Err(IngressError::BadRequest);
                }
                i += 1;
            }
            assert(p[0] == parts@[0]@);
            match parse_hex(parts[0].as_slice()) {
                Some(size) => Ok(size),
                None => Err(IngressError::BadRequest),
            }
        },
    }
}

/// The names that no trailer of a request may have.
pub open spec fn forbidden_trailers() -> Seq<Seq<u8>> {
    seq![
        octets::octets("connection"@),
        octets::octets("content-length"@),
        octets::octets("host"@),
        octets::octets("proxy-authorization"@),
        octets::octets("proxy-authenticate"@),
        octets::octets("te"@),
        octets::octets("trailer"@),
        octets::octets("transfer-encoding"@),
    ]
}

/// None of the names occurs among the fields.
pub open spec fn free_of(f: Fields, names: Seq<Seq<u8>>) -> bool {
    forall|i: int| 0 <= i < names.len() ==> !fields::has(f, #[trigger] names[i])
}

/// Checks that no field has one of the names.
pub fn names_absent(headers: &HeaderMap, names: &Vec<Vec<u8>>) -> (r: bool)
    ensures
        r == free_of(fields::contents(*headers), octets::views(names@)),
{
    let found = keys(headers);
    let ghost all = octets::views(found@);
    let ghost banned = octets::views(names@);
    let ghost f = fields::contents(*headers);
    let mut i: usize = 0;
    while i < found.len()
        invariant
            i <= found@.len(),
            all == octets::views(found@),
            banned == octets::views(names@),
            f == fields::contents(*headers),
            forall|name: Seq<u8>|
                all.contains(name) <==> #[trigger] f.values.dom().contains(name),
            forall|j: int, k: int|
                0 <= j < i && 0 <= k < banned.len() ==> #[trigger] all[j] != #[trigger] banned[k],
        decreases found@.len() - i,
    {
        let mut k: usize = 0;
        assert(all[i as int] == found@[i as int]@);
        while k < names.len()
            invariant
                i < found@.len(),
                k <= names@.len(),
                all == octets::views(found@),
                all[i as int] == found@[i as int]@,
                banned == octets::views(names@),
                f == fields::contents(*headers),
                forall|name: Seq<u8>|
                    all.contains(name) <==> #[trigger] f.values.dom().contains(name),
                forall|m: int| 0 <= m < k ==> all[i as int] != #[trigger] banned[m],
            decreases names@.len() - k,
        {
            assert(banned[k as int] == names@[k as int]@);
            if octets::equal(found[i].as_slice(), names[k].as_slice()) {
                assert(all.contains(all[i as int]));
                assert(fields::has(f, banned[k as int]));
                return false;
            }
            k += 1;
        }
        i += 1;
    }
    proof {
        assert forall|k: int| 0 <= k < banned.len() implies !fields::has(f, #[trigger] banned[k]) by {
            if fields::has(f, banned[k]) {
                assert(all.contains(banned[k]));
                let j = all.index_of(banned[k]);
                assert(all[j] == banned[k]);
            }
        }
    }
    true
}

/// Checks the trailers of a request.
pub fn validate_trailers(trailers: &HeaderMap) -> (r: Result<(), IngressError>)
    ensures
        r == (if free_of(fields::contents(*trailers), forbidden_trailers()) {
            Ok::<(), IngressError>(())
        } else {
            Err(IngressError::BadRequest)
        }),
{
    let mut names: Vec<Vec<u8>> = Vec::new();
    names.push(copy("connection".as_bytes()));
    names.push(copy("content-length".as_bytes()));
    names.push(copy("host".as_bytes()));
    names.push(copy("proxy-authorization".as_bytes()));
    names.push(copy("proxy-authenticate".as_bytes()));
    names.push(copy("te".as_bytes()));
    names.push(copy("trailer".as_bytes()));
    names.push(copy("transfer-encoding".as_bytes()));
    assert(octets::views(names@) =~= forbidden_trailers());
    if names_absent(trailers, &names) {
        Ok(())
    } else {
        Err(IngressError::BadRequest)
    }
}

} // verus!
