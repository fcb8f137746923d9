//! One streaming HTTP/1 exchange over a checked origin stream.
use crate::fields;
use crate::fields::{
    duplicate, get_all, pairs, remove, try_append, valid_field_value, Fields,
};
use crate::headers;
use crate::headers::{append_via, connection_nominations, sanitize_hop_by_hop, HttpVersion};
use crate::ip;
use crate::ip::render_hex;
use crate::octets;
use crate::octets::{append, append_text, copy, is_text, part, render_decimal};
use crate::server::http1;
use crate::server::http1::{
    BodyFraming, HeadModel, OriginBodyFraming, OriginError, OriginHeadModel, OriginResponseHead,
    OriginTransferCoding, RequestHead, APPLICATION_BUFFER_LIMIT, REQUEST_BODY_FRAME_LIMIT,
};
use crate::server::ingress;
use crate::server::ingress::{
    BodyDecoder, BodyFrame, BodyStep, ConnectionModel, Http1Connection,
};
use crate::weight;
use crate::window::Window;
use hyper::HeaderMap;
use vstd::prelude::*;
use vstd::utf8::*;

verus! {

/// Why an exchange ended without a response to hand on.
#[derive(Debug, Clone, Copy, PartialEq, Eq, Structural)]
pub enum ForwardErrorKind {
    BadRequest,
    BadGateway,
    Cancelled,
    ClientDisconnected,
}

/// Why an exchange failed, and whether the request had been sent in full.
#[derive(Debug, Clone, Copy, PartialEq, Eq, Structural)]
pub struct ForwardError {
    pub kind: ForwardErrorKind,
    pub request_complete: bool,
}

pub fn forward_error(kind: ForwardErrorKind, request_complete: bool) -> (r: ForwardError)
    ensures
        r == (ForwardError { kind, request_complete }),
{
    ForwardError { kind, request_complete }
}

/// The target of the forwarded request line: `*` for an OPTIONS request without a path, else an
/// absolute path.
pub open spec fn origin_form(method: Seq<u8>, path_and_query: Seq<u8>) -> Seq<u8> {
    if path_and_query.len() == 0 {
        if method == octets::octets("OPTIONS"@) {
            octets::octets("*"@)
        } else {
            octets::octets("/"@)
        }
    } else if path_and_query[0] == '?' as u8 {
        octets::octets("/"@) + path_and_query
    } else {
        path_and_query
    }
}

/// The values appended in turn under one name.
pub open spec fn appended_all(f: Fields, name: Seq<u8>, values: Seq<Seq<u8>>) -> Fields
    decreases values.len(),
{
    if values.len() == 0 {
        f
    } else {
        fields::appended(
            appended_all(f, name, values.drop_last()),
            name,
            values.last(),
        )
    }
}

/// The fields that are taken out of a request once hop fields are gone.
pub open spec fn request_base(head: HeadModel, nominated: Seq<Seq<u8>>) -> Fields {
    let clean = headers::sanitized(head.fields, nominated);
    let expected = match head.version {
        HttpVersion::Http10 => fields::removed(clean, http1::key("expect"@)),
        HttpVersion::Http11 => clean,
    };
    fields::removed(
        fields::removed(
            fields::removed(expected, http1::key("host"@)),
            http1::key("content-length"@),
        ),
        http1::key("transfer-encoding"@),
    )
}

/// The fields of the forwarded request: no hop fields, the canonical host, the proxy in the `Via`
/// chain, and the framing of the request.
pub open spec fn request_fields(head: HeadModel, nominated: Seq<Seq<u8>>, host: Seq<u8>) -> Fields {
    let named = fields::appended(
        fields::appended(request_base(head, nominated), http1::key("host"@), host),
        headers::via_name(),
        headers::via_entry(head.version),
    );
    match head.framing {
        BodyFraming::NoBody => named,
        BodyFraming::ContentLength(length) => fields::appended(
            named,
            http1::key("content-length"@),
            octets::digits_of(length as nat),
        ),
        BodyFraming::Chunked => appended_all(
            named,
            http1::key("transfer-encoding"@),
            fields::values_of(head.fields, http1::key("transfer-encoding"@)),
        ),
    }
}

/// The field lines of a header section, without the final empty line.
pub open spec fn field_wire(listed: Seq<(Seq<u8>, Seq<u8>)>) -> Seq<u8>
    decreases listed.len(),
{
    if listed.len() == 0 {
        Seq::empty()
    } else {
        field_wire(listed.drop_last()) + listed.last().0 + octets::octets(": "@) + listed.last().1
            + octets::octets("\r\n"@)
    }
}

/// A forwarded request head.
pub open spec fn request_wire(head: HeadModel, path_and_query: Seq<u8>, sent: Fields) -> Seq<u8> {
    head.method + octets::octets(" "@) + origin_form(head.method, path_and_query) + octets::octets(
        " HTTP/1.1\r\n"@,
    ) + field_wire(fields::listing(sent, sent.order)) + octets::octets("\r\n"@)
}

/// The map may refuse to hold `extra` more names.
pub open spec fn near_full(f: Fields, extra: nat) -> bool {
    f.order.len() + extra >= fields::SURE_NAMES
}

proof fn lemma_removed_len(f: Fields, name: Seq<u8>)
    ensures
        fields::removed(f, name).order.len() <= f.order.len(),
{
}

proof fn lemma_removed_all_len(f: Fields, names: Seq<Seq<u8>>)
    ensures
        headers::removed_all(f, names).order.len() <= f.order.len(),
    decreases names.len(),
{
    if names.len() > 0 {
        lemma_removed_len(f, names[0]);
        lemma_removed_all_len(fields::removed(f, names[0]), names.drop_first());
    }
}

proof fn lemma_sanitized_len(f: Fields, nominated: Seq<Seq<u8>>)
    ensures
        headers::sanitized(f, nominated).order.len() <= f.order.len(),
{
    let g = fields::removed(f, headers::connection_name());
    lemma_removed_len(f, headers::connection_name());
    lemma_removed_all_len(g, nominated);
    lemma_removed_all_len(headers::removed_all(g, nominated), headers::fixed_hop_names());
}

proof fn lemma_appended_all_len(f: Fields, name: Seq<u8>, values: Seq<Seq<u8>>)
    ensures
        appended_all(f, name, values).order.len() <= f.order.len() + 1,
        values.len() > 0 ==> fields::has(appended_all(f, name, values), name),
    decreases values.len(),
{
    if values.len() > 0 {
        lemma_appended_all_len(f, name, values.drop_last());
    }
}

/// Literal names are field names in lower case.
proof fn lemma_names()
    ensures
        fields::is_field_name(octets::octets("host"@)),
        fields::is_field_name(octets::octets("expect"@)),
        fields::is_field_name(octets::octets("content-length"@)),
        fields::is_field_name(octets::octets("transfer-encoding"@)),
        fields::is_field_value(octets::octets("chunked"@)),
{
    reveal_strlit("host");
    reveal_strlit("expect");
    reveal_strlit("content-length");
    reveal_strlit("transfer-encoding");
    reveal_strlit("chunked");
    headers::lemma_plain_name("host"@);
    headers::lemma_plain_name("expect"@);
    headers::lemma_plain_name("content-length"@);
    headers::lemma_plain_name("transfer-encoding"@);
    headers::lemma_plain_name("chunked"@);
}

proof fn lemma_digits_value(n: nat)
    ensures
        fields::is_field_value(octets::digits_of(n)),
{
    octets::lemma_digits_of(n);
}

/// Appends every value under one name; stops where the map refuses.
fn append_values(headers: &mut HeaderMap, name: &str, values: &Vec<Vec<u8>>) -> (r: bool)
    requires
        fields::is_field_name(octets::octets(name@)),
        forall|i: int| 0 <= i < values@.len() ==> fields::is_field_value(#[trigger] values@[i]@),
    ensures
        r ==> fields::contents(*final(headers)) == appended_all(
            fields::contents(*old(headers)),
            http1::key(name@),
            octets::views(values@),
        ),
        !r ==> near_full(fields::contents(*old(headers)), 1),
{
    let ghost start = fields::contents(*headers);
    let ghost all = octets::views(values@);
    let mut i: usize = 0;
    assert(all.subrange(0, 0) =~= Seq::empty());
    while i < values.len()
        invariant
            i <= values@.len(),
            all == octets::views(values@),
            fields::is_field_name(octets::octets(name@)),
            start == fields::contents(*old(headers)),
            forall|j: int|
                0 <= j < values@.len() ==> fields::is_field_value(#[trigger] values@[j]@),
            fields::contents(*headers) == appended_all(
                start,
                http1::key(name@),
                all.subrange(0, i as int),
            ),
        decreases values@.len() - i,
    {
        proof {
            lemma_appended_all_len(start, http1::key(name@), all.subrange(0, i as int));
            assert(all.subrange(0, i + 1).drop_last() =~= all.subrange(0, i as int));
            assert(all.subrange(0, i + 1).last() == values@[i as int]@);
        }
        if !try_append(headers, name.as_bytes(), values[i].as_slice()) {
            return false;
        }
        i += 1;
    }
    assert(all.subrange(0, i as int) =~= all);
    true
}

/// Writes the field lines of a map.
pub fn serialize_fields(bytes: &mut Vec<u8>, headers: &HeaderMap)
    ensures
        final(bytes)@ == old(bytes)@ + field_wire(
            fields::listing(fields::contents(*headers), fields::contents(*headers).order),
        ),
{
    let listed = pairs(headers);
    let ghost all = fields::listing(fields::contents(*headers), fields::contents(*headers).order);
    let ghost start = bytes@;
    let mut i: usize = 0;
    proof {
        assert(fields::pair_views(listed@).len() == listed@.len());
        assert(all.subrange(0, 0) =~= Seq::empty());
        assert(start + field_wire(all.subrange(0, 0)) =~= start);
    }
    while i < listed.len()
        invariant
            i <= listed@.len(),
            fields::pair_views(listed@) == all,
            bytes@ == start + field_wire(all.subrange(0, i as int)),
        decreases listed@.len() - i,
    {
        let ghost before = bytes@;
        append(bytes, listed[i].0.as_slice());
        append_text(bytes, ": ");
        append(bytes, listed[i].1.as_slice());
        append_text(bytes, "\r\n");
        proof {
            assert(fields::pair_views(listed@)[i as int] == (
                listed@[i as int].0@,
                listed@[i as int].1@,
            ));
            let next = all.subrange(0, i + 1);
            assert(next.drop_last() =~= all.subrange(0, i as int));
            assert(bytes@ =~= start + field_wire(next));
        }
        i += 1;
    }
    assert(all.subrange(0, i as int) =~= all);
}

/// Takes out of a request what the forwarded request replaces.
fn strip_request_fields(head: &RequestHead) -> (r: Result<HeaderMap, ()>)
    ensures
        match r {
            Ok(sent) => headers::nominations_of(head@.fields) matches Some(nominated)
                && fields::contents(sent) == request_base(head@, nominated) && fields::contents(
                sent,
            ).order.len() <= head@.fields.order.len(),
            Err(_) => headers::nominations_of(head@.fields) is None,
        },
{
    proof {
        lemma_names();
    }
    let mut sent: HeaderMap = duplicate(&head.headers);
    assert(fields::contents(sent) == head@.fields);
    if sanitize_hop_by_hop(&mut sent).is_err() {
        return Err(());
    }
    let ghost nominated = headers::nominations_of(head@.fields)->0;
    let ghost clean = headers::sanitized(head@.fields, nominated);
    assert(fields::contents(sent) == clean);
    if let HttpVersion::Http10 = head.version {
        remove(&mut sent, "expect".as_bytes());
    }
    let ghost expected = fields::contents(sent);
    remove(&mut sent, "host".as_bytes());
    let ghost unhosted = fields::contents(sent);
    remove(&mut sent, "content-length".as_bytes());
    let ghost without_length = fields::contents(sent);
    remove(&mut sent, "transfer-encoding".as_bytes());
    proof {
        lemma_sanitized_len(head@.fields, nominated);
        lemma_removed_len(clean, http1::key("expect"@));
        lemma_removed_len(expected, http1::key("host"@));
        lemma_removed_len(unhosted, http1::key("content-length"@));
        lemma_removed_len(without_length, http1::key("transfer-encoding"@));
    }
    Ok(sent)
}

/// Makes the fields of the forwarded request.
fn prepare_request_fields(head: &RequestHead, host: &[u8]) -> (r: Result<HeaderMap, ()>)
    ensures
        match r {
            Ok(sent) => headers::nominations_of(head@.fields) matches Some(nominated)
                && fields::is_field_value(host@) && fields::contents(sent) == request_fields(
                head@,
                nominated,
                host@,
            ),
            Err(_) => headers::nominations_of(head@.fields) is None || !fields::is_field_value(
                host@,
            ) || near_full(head@.fields, 3),
        },
{
    proof {
        lemma_names();
    }
    if !valid_field_value(host) {
        return Err(());
    }
    let mut sent: HeaderMap = match strip_request_fields(head) {
        Ok(sent) => sent,
        Err(_) => {
            return Err(());
        },
    };
    if !try_append(&mut sent, "host".as_bytes(), host) {
        return Err(());
    }
    if !append_via(&mut sent, head.version) {
        return Err(());
    }
    match head.framing {
        BodyFraming::NoBody => {},
        BodyFraming::ContentLength(length) => {
            proof {
                lemma_digits_value(length as nat);
            }
            if !try_append(
                &mut sent,
                "content-length".as_bytes(),
                render_decimal(length).as_slice(),
            ) {
                return Err(());
            }
        },
        BodyFraming::Chunked => {
            let codings = get_all(&head.headers, "transfer-encoding");
            if !append_values(&mut sent, "transfer-encoding", &codings) {
                return Err(());
            }
        },
    }
    Ok(sent)
}

/// Writes the head of the forwarded request: origin form, the canonical host, no hop fields. Fails
/// where a `Connection` field or the host cannot stand in a head, and may fail where the request
/// has very many different names.
pub fn serialize_request_head(head: &RequestHead, path_and_query: &[u8], host: &[u8]) -> (r: Result<
    Vec<u8>,
    (),
>)
    ensures
        match r {
            Ok(bytes) => headers::nominations_of(head@.fields) matches Some(nominated)
                && fields::is_field_value(host@) && bytes@ == request_wire(
                head@,
                path_and_query@,
                request_fields(head@, nominated, host@),
            ),
            Err(_) => headers::nominations_of(head@.fields) is None || !fields::is_field_value(
                host@,
            ) || near_full(head@.fields, 3),
        },
{
    match prepare_request_fields(head, host) {
        Err(_) => Err(()),
        Ok(sent) => {
            let mut bytes: Vec<u8> = copy(head.method.as_slice());
            append_text(&mut bytes, " ");
            let ghost before = bytes@;
            if path_and_query.len() == 0 {
                if is_text(head.method.as_slice(), "OPTIONS") {
                    append_text(&mut bytes, "*");
                } else {
                    append_text(&mut bytes, "/");
                }
            } else if path_and_query[0] == '?' as u8 {
                append_text(&mut bytes, "/");
                append(&mut bytes, path_and_query);
            } else {
                append(&mut bytes, path_and_query);
            }
            assert(bytes@ =~= before + origin_form(head@.method, path_and_query@));
            append_text(&mut bytes, " HTTP/1.1\r\n");
            serialize_fields(&mut bytes, &sent);
            append_text(&mut bytes, "\r\n");
            Ok(bytes)
        },
    }
}

/// What is left to write of a piece of the request, piece by piece.
#[derive(Debug)]
pub enum RequestState {
    NeedFrame,
    ChunkData(Vec<u8>),
    ChunkEnd,
    TrailerFields(Vec<(Vec<u8>, Vec<u8>)>),
    TrailerValuePrefix(Vec<u8>, Vec<(Vec<u8>, Vec<u8>)>),
    TrailerValue(Vec<u8>, Vec<(Vec<u8>, Vec<u8>)>),
    TrailerLineEnd(Vec<(Vec<u8>, Vec<u8>)>),
    Flush,
}

/// Field lines from the first on, then the empty line.
pub open spec fn trailer_wire(listed: Seq<(Seq<u8>, Seq<u8>)>) -> Seq<u8>
    decreases listed.len(),
{
    if listed.len() == 0 {
        octets::octets("\r\n"@)
    } else {
        listed[0].0 + octets::octets(": "@) + listed[0].1 + octets::octets("\r\n"@) + trailer_wire(
            listed.drop_first(),
        )
    }
}

/// The same as pieces, each of which is written by itself.
pub open spec fn trailer_pieces(listed: Seq<(Seq<u8>, Seq<u8>)>) -> Seq<Seq<u8>>
    decreases listed.len(),
{
    if listed.len() == 0 {
        seq![octets::octets("\r\n"@)]
    } else {
        seq![listed[0].0, octets::octets(": "@), listed[0].1, octets::octets("\r\n"@)]
            + trailer_pieces(listed.drop_first())
    }
}

/// The pieces that a state still has to write.
pub open spec fn state_pieces(state: RequestState) -> Seq<Seq<u8>> {
    let line_end = octets::octets("\r\n"@);
    match state {
        RequestState::NeedFrame => Seq::empty(),
        RequestState::ChunkData(data) => seq![data@, line_end],
        RequestState::ChunkEnd => seq![line_end],
        RequestState::TrailerFields(listed) => trailer_pieces(fields::pair_views(listed@)),
        RequestState::TrailerValuePrefix(value, listed) => seq![
            octets::octets(": "@),
            value@,
            line_end,
        ] + trailer_pieces(fields::pair_views(listed@)),
        RequestState::TrailerValue(value, listed) => seq![value@, line_end] + trailer_pieces(
            fields::pair_views(listed@),
        ),
        RequestState::TrailerLineEnd(listed) => seq![line_end] + trailer_pieces(
            fields::pair_views(listed@),
        ),
        RequestState::Flush => Seq::empty(),
    }
}

/// What a state holds is within its limits: data fits in a frame, and trailers leave room for the
/// octets that frame them.
pub open spec fn state_bounded(state: RequestState) -> bool {
    match state {
        RequestState::NeedFrame | RequestState::ChunkEnd | RequestState::Flush => true,
        RequestState::ChunkData(data) => 0 < data@.len() <= REQUEST_BODY_FRAME_LIMIT,
        RequestState::TrailerFields(listed) | RequestState::TrailerValuePrefix(_, listed)
        | RequestState::TrailerValue(_, listed) | RequestState::TrailerLineEnd(listed) => {
            &&& state_octets(state) + 5 <= APPLICATION_BUFFER_LIMIT
            &&& weight::named(fields::pair_views(listed@))
        },
    }
}

/// The state ends the body: once its octets are written, the request is flushed.
pub open spec fn state_ends(state: RequestState) -> bool {
    match state {
        RequestState::NeedFrame | RequestState::ChunkData(_) | RequestState::ChunkEnd => false,
        _ => true,
    }
}

/// The octets of all names and values, or the largest number that fits.
fn listed_octets(listed: &Vec<(Vec<u8>, Vec<u8>)>) -> (r: usize)
    ensures
        r == clamp(http1::field_octets(fields::pair_views(listed@))),
{
    let ghost all = fields::pair_views(listed@);
    let mut total: usize = 0;
    let mut i: usize = 0;
    assert(all.subrange(0, 0) =~= Seq::empty());
    while i < listed.len()
        invariant
            i <= listed@.len(),
            all == fields::pair_views(listed@),
            total == clamp(http1::field_octets(all.subrange(0, i as int))),
        decreases listed@.len() - i,
    {
        proof {
            assert(all[i as int] == (listed@[i as int].0@, listed@[i as int].1@));
            assert(all.subrange(0, i + 1).drop_last() =~= all.subrange(0, i as int));
        }
        total = total.saturating_add(listed[i].0.len());
        total = total.saturating_add(listed[i].1.len());
        i += 1;
    }
    assert(all.subrange(0, i as int) =~= all);
    total
}

/// The number, or the largest that fits.
pub open spec fn clamp(n: nat) -> nat {
    if n <= usize::MAX {
        n
    } else {
        usize::MAX as nat
    }
}

/// The octets that a state holds.
pub open spec fn state_octets(state: RequestState) -> nat {
    match state {
        RequestState::ChunkData(data) => data@.len(),
        RequestState::TrailerFields(listed) => http1::field_octets(fields::pair_views(listed@)),
        RequestState::TrailerLineEnd(listed) => http1::field_octets(fields::pair_views(listed@)),
        RequestState::TrailerValuePrefix(value, listed) => value@.len() + http1::field_octets(
            fields::pair_views(listed@),
        ),
        RequestState::TrailerValue(value, listed) => value@.len() + http1::field_octets(
            fields::pair_views(listed@),
        ),
        _ => 0,
    }
}

impl RequestState {
    pub fn buffered_bytes(&self) -> (r: usize)
        ensures
            r == clamp(state_octets(*self)),
    {
        match self {
            RequestState::ChunkData(data) => data.len(),
            RequestState::TrailerFields(listed) => listed_octets(listed),
            RequestState::TrailerLineEnd(listed) => listed_octets(listed),
            RequestState::TrailerValuePrefix(value, listed) => value.len().saturating_add(
                listed_octets(listed),
            ),
            RequestState::TrailerValue(value, listed) => value.len().saturating_add(
                listed_octets(listed),
            ),
            RequestState::NeedFrame | RequestState::ChunkEnd | RequestState::Flush => 0,
        }
    }
}

/// Octets on their way to the origin, and what comes after them.
#[derive(Debug)]
pub struct PendingWrite {
    bytes: Vec<u8>,
    offset: usize,
    next: RequestState,
}

/// Sends a request body on, one bounded piece at a time.
#[derive(Debug)]
pub struct RequestWriter {
    decoder: BodyDecoder,
    chunked: bool,
    state: RequestState,
    pending: Option<PendingWrite>,
    nominations: Vec<Vec<u8>>,
    complete: bool,
}

/// A step on the downstream side.
#[derive(Debug, Clone, Copy, PartialEq, Eq, Structural)]
pub enum StageStep {
    /// Something is now waiting to be written or flushed.
    Staged,
    /// At most so many octets may be read from the client next.
    NeedInput(usize),
    Failed(ForwardErrorKind),
}

/// One chunk on the wire.
pub open spec fn chunk_wire(data: Seq<u8>) -> Seq<u8> {
    ip::hex_digits_of(data.len()) + octets::octets("\r\n"@) + data + octets::octets("\r\n"@)
}

/// The trailers of a request that go on: without hop fields and without the names that the head
/// nominated.
pub open spec fn request_trailers(f: Fields, nominations: Seq<Seq<u8>>) -> Option<Fields> {
    match headers::nominations_of(f) {
        Some(nominated) => Some(
            headers::removed_all(headers::sanitized(f, nominated), headers::lower_all(nominations)),
        ),
        None => None,
    }
}

/// What a piece of the body becomes on the wire, and whether it ends the body.
pub open spec fn framed(
    step: ingress::StepModel,
    chunked: bool,
    nominations: Seq<Seq<u8>>,
) -> Option<(Seq<u8>, bool)> {
    match step {
        ingress::StepModel::Data(data) => Some(
            (
                if chunked {
                    chunk_wire(data)
                } else {
                    data
                },
                false,
            ),
        ),
        ingress::StepModel::Trailers(f) => match request_trailers(f, nominations) {
            Some(kept) => Some(
                (
                    octets::octets("0\r\n"@) + trailer_wire(fields::listing(kept, kept.order)),
                    true,
                ),
            ),
            None => None,
        },
        ingress::StepModel::Complete => Some(
            (
                if chunked {
                    octets::octets("0\r\n\r\n"@)
                } else {
                    Seq::empty()
                },
                true,
            ),
        ),
        _ => None,
    }
}

/// The same as pieces, each of which is written by itself.
pub open spec fn framed_pieces(
    step: ingress::StepModel,
    chunked: bool,
    nominations: Seq<Seq<u8>>,
) -> Option<(Seq<Seq<u8>>, bool)> {
    match step {
        ingress::StepModel::Data(data) => Some(
            (
                if chunked {
                    seq![
                        ip::hex_digits_of(data.len()) + octets::octets("\r\n"@),
                        data,
                        octets::octets("\r\n"@),
                    ]
                } else {
                    seq![data]
                },
                false,
            ),
        ),
        ingress::StepModel::Trailers(f) => match request_trailers(f, nominations) {
            Some(kept) => Some(
                (
                    seq![octets::octets("0\r\n"@)] + trailer_pieces(
                        fields::listing(kept, kept.order),
                    ),
                    true,
                ),
            ),
            None => None,
        },
        ingress::StepModel::Complete => Some(
            (
                if chunked {
                    seq![octets::octets("0\r\n\r\n"@)]
                } else {
                    Seq::empty()
                },
                true,
            ),
        ),
        _ => None,
    }
}

proof fn lemma_trailer_pieces(listed: Seq<(Seq<u8>, Seq<u8>)>)
    ensures
        octets::joined(trailer_pieces(listed)) == trailer_wire(listed),
    decreases listed.len(),
{
    let line_end = octets::octets("\r\n"@);
    if listed.len() == 0 {
        lemma_one(line_end);
    } else {
        let rest = trailer_pieces(listed.drop_first());
        let first = seq![listed[0].0, octets::octets(": "@), listed[0].1, line_end];
        lemma_trailer_pieces(listed.drop_first());
        octets::lemma_joined(first, rest);
        lemma_four(listed[0].0, octets::octets(": "@), listed[0].1, line_end);
    }
}

proof fn lemma_one(a: Seq<u8>)
    ensures
        octets::joined(seq![a]) == a,
{
    assert(seq![a].drop_first() =~= Seq::empty());
    assert(octets::joined(Seq::<Seq<u8>>::empty()) =~= Seq::empty());
    assert(octets::joined(seq![a]) =~= a);
}

proof fn lemma_three(a: Seq<u8>, b: Seq<u8>, c: Seq<u8>)
    ensures
        octets::joined(seq![a, b, c]) == a + b + c,
{
    assert(seq![a, b, c] =~= seq![a] + seq![b] + seq![c]);
    octets::lemma_joined(seq![a] + seq![b], seq![c]);
    octets::lemma_joined(seq![a], seq![b]);
    lemma_one(a);
    lemma_one(b);
    lemma_one(c);
}

proof fn lemma_four(a: Seq<u8>, b: Seq<u8>, c: Seq<u8>, d: Seq<u8>)
    ensures
        octets::joined(seq![a, b, c, d]) == a + b + c + d,
{
    assert(seq![a, b, c, d] =~= seq![a, b, c] + seq![d]);
    octets::lemma_joined(seq![a, b, c], seq![d]);
    lemma_three(a, b, c);
    lemma_one(d);
}

/// The pieces of a frame make up what the frame becomes on the wire.
pub proof fn a_frame_is_its_pieces(
    step: ingress::StepModel,
    chunked: bool,
    nominations: Seq<Seq<u8>>,
)
    ensures
        match (framed(step, chunked, nominations), framed_pieces(step, chunked, nominations)) {
            (Some((wire, ends)), Some((pieces, last))) => octets::joined(pieces) == wire && ends
                == last,
            (None, None) => true,
            _ => false,
        },
{
    match step {
        ingress::StepModel::Data(data) => {
            let size = ip::hex_digits_of(data.len()) + octets::octets("\r\n"@);
            lemma_three(size, data, octets::octets("\r\n"@));
            lemma_one(data);
        },
        ingress::StepModel::Trailers(f) => match request_trailers(f, nominations) {
            Some(kept) => {
                let listed = fields::listing(kept, kept.order);
                let zero = octets::octets("0\r\n"@);
                octets::lemma_joined(seq![zero], trailer_pieces(listed));
                lemma_one(zero);
                lemma_trailer_pieces(listed);
            },
            None => {},
        },
        ingress::StepModel::Complete => {
            lemma_one(octets::octets("0\r\n\r\n"@));
        },
        _ => {},
    }
}

/// What it is to stage the next frame of the client: the decoder takes its next step on what is
/// pending, and the frame that comes out is on its way.
pub open spec fn frame_staged(
    before: RequestWriter,
    client: ConnectionModel,
    r: StageStep,
    after: RequestWriter,
    left: ConnectionModel,
) -> bool {
    let t = ingress::decode(before.spec_decoder(), client.pending);
    let taken = ConnectionModel { pending: t.rest, ..client };
    match r {
        StageStep::NeedInput(max) => {
            &&& t.step == Some(ingress::StepModel::NeedInput(max as nat))
            &&& after.starved()
            &&& after.spec_decoder() == t.decoder
            &&& left == taken
        },
        StageStep::Staged => {
            &&& t.step matches Some(step)
            &&& framed_pieces(step, before.spec_chunked(), before.spec_nominations()) == Some(
                (after.pieces(), after.ending()),
            )
            &&& framed(step, before.spec_chunked(), before.spec_nominations()) == Some(
                (after.outstanding(), after.ending()),
            )
            &&& after.writing() == (after.pieces().len() > 0)
            &&& after.flushing() == (after.pieces().len() == 0)
            &&& after.spec_decoder() == t.decoder
            &&& left == taken
        },
        StageStep::Failed(kind) => {
            &&& kind == ForwardErrorKind::BadRequest
            &&& match t.step {
                Some(ingress::StepModel::Failed(_)) => true,
                Some(ingress::StepModel::Trailers(f)) => request_trailers(
                    f,
                    before.spec_nominations(),
                ) is None,
                _ => false,
            } || ingress::decode_crowded(before.spec_decoder(), client.pending)
        },
    }
}

proof fn lemma_framing()
    ensures
        octets::octets("\r\n"@).len() == 2,
        octets::octets(": "@).len() == 2,
        octets::octets("0\r\n"@).len() == 3,
        octets::octets("0\r\n\r\n"@).len() == 5,
{
    reveal_strlit("\r\n");
    reveal_strlit(": ");
    reveal_strlit("0\r\n");
    reveal_strlit("0\r\n\r\n");
    is_ascii_chars_encode_utf8("\r\n"@);
    is_ascii_chars_encode_utf8(": "@);
    is_ascii_chars_encode_utf8("0\r\n"@);
    is_ascii_chars_encode_utf8("0\r\n\r\n"@);
}

/// A size has as many digits as it needs.
proof fn lemma_hex_digits(n: nat)
    ensures
        1 <= ip::hex_digits_of(n).len() <= 1 + n / 16,
    decreases n,
{
    if n >= 16 {
        lemma_hex_digits(n / 16);
    }
}

/// With some octets of the first piece gone, they are gone from the whole.
proof fn lemma_front_written(pieces: Seq<Seq<u8>>, count: nat)
    requires
        pieces.len() > 0,
        count <= pieces[0].len(),
    ensures
        octets::joined(pieces).subrange(count as int, octets::joined(pieces).len() as int)
            == pieces[0].subrange(count as int, pieces[0].len() as int) + octets::joined(
            pieces.drop_first(),
        ),
        count == pieces[0].len() ==> octets::joined(pieces).subrange(
            count as int,
            octets::joined(pieces).len() as int,
        ) == octets::joined(pieces.drop_first()),
{
    let all = octets::joined(pieces);
    let rest = octets::joined(pieces.drop_first());
    let left = pieces[0].subrange(count as int, pieces[0].len() as int);
    assert(all.subrange(count as int, all.len() as int) =~= left + rest);
    if count == pieces[0].len() {
        assert(left + rest =~= rest);
    }
}

/// A state without octets to write waits for a frame or for the flush.
proof fn lemma_state_rests(state: RequestState)
    ensures
        octets::joined(state_pieces(state)).len() == 0 <==> (state is NeedFrame || state is Flush),
{
    lemma_framing();
    let line_end = octets::octets("\r\n"@);
    match state {
        RequestState::ChunkData(data) => {
            octets::lemma_joined(seq![data@], seq![line_end]);
            assert(seq![data@, line_end] =~= seq![data@] + seq![line_end]);
            lemma_one(line_end);
        },
        RequestState::ChunkEnd => {
            lemma_one(line_end);
        },
        RequestState::TrailerFields(listed) => {
            lemma_trailers_left(fields::pair_views(listed@));
        },
        RequestState::TrailerValuePrefix(value, listed) => {
            let rest = trailer_pieces(fields::pair_views(listed@));
            octets::lemma_joined(seq![octets::octets(": "@), value@, line_end], rest);
            lemma_trailers_left(fields::pair_views(listed@));
        },
        RequestState::TrailerValue(value, listed) => {
            let rest = trailer_pieces(fields::pair_views(listed@));
            octets::lemma_joined(seq![value@, line_end], rest);
            lemma_trailers_left(fields::pair_views(listed@));
        },
        RequestState::TrailerLineEnd(listed) => {
            let rest = trailer_pieces(fields::pair_views(listed@));
            octets::lemma_joined(seq![line_end], rest);
            lemma_trailers_left(fields::pair_views(listed@));
        },
        _ => {},
    }
}

proof fn lemma_trailers_left(listed: Seq<(Seq<u8>, Seq<u8>)>)
    ensures
        octets::joined(trailer_pieces(listed)).len() >= 2,
    decreases listed.len(),
{
    lemma_framing();
    if listed.len() == 0 {
        lemma_one(octets::octets("\r\n"@));
    } else {
        let first = seq![
            listed[0].0,
            octets::octets(": "@),
            listed[0].1,
            octets::octets("\r\n"@),
        ];
        octets::lemma_joined(first, trailer_pieces(listed.drop_first()));
        lemma_trailers_left(listed.drop_first());
    }
}

/// What it is to stage the next piece of a frame: it is the first of the pieces that were left.
pub open spec fn piece_staged(before: RequestWriter, after: RequestWriter) -> bool {
    &&& after.writing()
    &&& after.current() == before.next_piece()
    &&& after.pieces() == before.pieces()
    &&& after.outstanding() == before.outstanding()
    &&& after.ending() == before.ending()
    &&& after.spec_decoder() == before.spec_decoder()
}

/// What it is to have written so many octets of the current piece: the rest of the piece is left,
/// or the pieces behind it. Once none is left, the body waits for its next frame or for the flush.
pub open spec fn piece_written(before: RequestWriter, count: nat, after: RequestWriter) -> bool {
    &&& after.pieces() == (if count < before.current().len() {
        before.pieces().update(
            0,
            before.current().subrange(count as int, before.current().len() as int),
        )
    } else {
        before.pieces().drop_first()
    })
    &&& after.outstanding() == before.outstanding().subrange(
        count as int,
        before.outstanding().len() as int,
    )
    &&& after.writing() == (count < before.current().len())
    &&& after.starved() == (after.outstanding().len() == 0 && !after.ending())
    &&& after.flushing() == (after.outstanding().len() == 0 && after.ending())
    &&& after.ending() == before.ending()
    &&& after.spec_decoder() == before.spec_decoder()
}

/// What stays the same of a writer for as long as it writes one body.
pub open spec fn same_body(before: RequestWriter, after: RequestWriter) -> bool {
    &&& after.spec_chunked() == before.spec_chunked()
    &&& after.spec_nominations() == before.spec_nominations()
}

impl RequestWriter {
    #[verifier::type_invariant]
    spec fn well_formed(self) -> bool {
        &&& headers::all_field_names(octets::views(self.nominations@))
        &&& ingress::decoder_valid(self.decoder@)
        &&& ingress::decoder_holds(self.decoder@)
        &&& state_bounded(self.state)
        &&& self.starved() || self.decoder@.trailers == fields::no_fields()
        &&& self.pending matches Some(p) ==> {
            &&& p.offset <= p.bytes@.len()
            &&& p.offset < p.bytes@.len() || p.next is TrailerLineEnd
            &&& self.state is NeedFrame
            &&& state_bounded(p.next)
            &&& p.bytes@.len() + state_octets(p.next) <= APPLICATION_BUFFER_LIMIT
        }
    }

    /// The pieces that were staged and not yet written, the rest of the current one first.
    pub closed spec fn pieces(&self) -> Seq<Seq<u8>> {
        match self.pending {
            Some(p) => seq![p.bytes@.subrange(p.offset as int, p.bytes@.len() as int)]
                + state_pieces(p.next),
            None => state_pieces(self.state),
        }
    }

    /// The octets that were staged and not yet written.
    pub open spec fn outstanding(&self) -> Seq<u8> {
        octets::joined(self.pieces())
    }

    /// The piece that comes next, empty where none is left.
    pub open spec fn next_piece(&self) -> Seq<u8> {
        if self.pieces().len() > 0 {
            self.pieces()[0]
        } else {
            Seq::empty()
        }
    }

    /// The octets of the piece that is being written.
    pub open spec fn current(&self) -> Seq<u8> {
        if self.writing() {
            self.next_piece()
        } else {
            Seq::empty()
        }
    }

    /// The piece that is being written is the value of a trailer, the one piece that may be empty.
    pub closed spec fn value_current(&self) -> bool {
        self.pending matches Some(p) && p.next is TrailerLineEnd
    }

    /// The body has ended; what is outstanding is the last of it.
    pub closed spec fn ending(&self) -> bool {
        match self.pending {
            Some(p) => state_ends(p.next),
            None => state_ends(self.state),
        }
    }

    /// A piece is being written.
    pub closed spec fn writing(&self) -> bool {
        self.pending is Some
    }

    /// Everything is written and only the flush is left.
    pub closed spec fn flushing(&self) -> bool {
        self.pending is None && self.state is Flush
    }

    /// The next piece has to come from the client.
    pub closed spec fn starved(&self) -> bool {
        self.pending is None && self.state is NeedFrame
    }

    pub closed spec fn spec_complete(&self) -> bool {
        self.complete
    }

    pub closed spec fn spec_chunked(&self) -> bool {
        self.chunked
    }

    pub closed spec fn spec_nominations(&self) -> Seq<Seq<u8>> {
        octets::views(self.nominations@)
    }

    pub closed spec fn spec_decoder(&self) -> ingress::DecoderModel {
        self.decoder@
    }

    /// A writer for a body, with the field names that the request head nominated for its hop.
    pub fn new(framing: BodyFraming, nominations: Vec<Vec<u8>>) -> (r: RequestWriter)
        requires
            headers::all_field_names(octets::views(nominations@)),
        ensures
            r.starved(),
            r.pieces() == Seq::<Seq<u8>>::empty(),
            r.outstanding() == Seq::<u8>::empty(),
            !r.ending(),
            r.held() == 0,
            !r.spec_complete(),
            r.spec_chunked() == (framing is Chunked),
            r.spec_nominations() == octets::views(nominations@),
            r.spec_decoder() == ingress::initial_decoder(framing),
    {
        let chunked: bool = match framing {
            BodyFraming::Chunked => true,
            _ => false,
        };
        proof {
            weight::lemma_nothing();
        }
        RequestWriter {
            decoder: BodyDecoder::new(framing),
            chunked,
            state: RequestState::NeedFrame,
            pending: None,
            nominations,
            complete: false,
        }
    }

    pub fn complete(&self) -> (r: bool)
        ensures
            r == self.spec_complete(),
    {
        self.complete
    }

    /// Whether the origin has to take something before the client is read again.
    pub fn waiting_on_upstream(&self) -> (r: bool)
        ensures
            r == (self.writing() || self.flushing()),
    {
        if self.pending.is_some() {
            return true;
        }
        match self.state {
            RequestState::Flush => true,
            _ => false,
        }
    }

    /// The octets to write next; none means that the stream is to be flushed.
    pub fn next_write(&self) -> (r: Option<&[u8]>)
        ensures
            match r {
                Some(bytes) => self.writing() && bytes@ == self.current() && (bytes@.len() == 0
                    ==> self.value_current()),
                None => !self.writing(),
            },
    {
        proof {
            use_type_invariant(self);
        }
        match &self.pending {
            Some(p) => Some(part(p.bytes.as_slice(), p.offset, p.bytes.len())),
            None => None,
        }
    }

    /// Takes note that so many octets of the current piece were written. Writing nothing is a
    /// failure of the origin.
    pub fn written(&mut self, count: usize) -> (r: Result<(), ForwardErrorKind>)
        requires
            old(self).writing(),
            count <= old(self).current().len(),
        ensures
            if count == 0 {
                r == Err::<(), ForwardErrorKind>(ForwardErrorKind::BadGateway) && *final(self)
                    == *old(self)
            } else {
                r is Ok && piece_written(*old(self), count as nat, *final(self))
            },
            same_body(*old(self), *final(self)),
            final(self).spec_complete() == old(self).spec_complete(),
            final(self).held() <= APPLICATION_BUFFER_LIMIT,
    {
        proof {
            use_type_invariant(&*self);
            weight::lemma_nothing();
        }
        if count == 0 {
            return Err(ForwardErrorKind::BadGateway);
        }
        let ghost pieces = self.pieces();
        let ghost first = self.current();
        let mut taken: Option<PendingWrite> = None;
        std::mem::swap(&mut taken, &mut self.pending);
        match taken {
            Some(p) => {
                let PendingWrite { bytes, offset, next } = p;
                let total: usize = bytes.len();
                assert(offset + count <= total);
                let offset: usize = offset + count;
                proof {
                    assert(pieces.drop_first() =~= state_pieces(next));
                    lemma_front_written(pieces, count as nat);
                    lemma_state_rests(next);
                }
                if offset == bytes.len() {
                    self.state = next;
                } else {
                    self.pending = Some(PendingWrite { bytes, offset, next });
                    proof {
                        let rest = bytes@.subrange(offset as int, bytes@.len() as int);
                        assert(rest =~= first.subrange(count as int, first.len() as int));
                        assert(self.pieces() =~= pieces.update(0, rest));
                        octets::lemma_joined(seq![rest], state_pieces(next));
                        lemma_one(rest);
                    }
                }
            },
            None => {},
        }
        Ok(())
    }

    /// Takes note that the stream was flushed after the last piece.
    pub fn flushed(&mut self)
        requires
            old(self).flushing(),
        ensures
            final(self).spec_complete(),
            final(self).pieces() == old(self).pieces(),
            final(self).held() == old(self).held(),
            final(self).flushing(),
            final(self).ending() == old(self).ending(),
            final(self).spec_chunked() == old(self).spec_chunked(),
            final(self).spec_nominations() == old(self).spec_nominations(),
            final(self).spec_decoder() == old(self).spec_decoder(),
    {
        proof {
            use_type_invariant(&*self);
        }
        self.complete = true;
    }

    fn queue(&mut self, bytes: Vec<u8>, next: RequestState)
        requires
            old(self).starved(),
            old(self).spec_decoder().trailers == fields::no_fields(),
            bytes@.len() > 0 || next is TrailerLineEnd,
            state_bounded(next),
            bytes@.len() + state_octets(next) <= APPLICATION_BUFFER_LIMIT,
        ensures
            final(self).writing(),
            final(self).pieces() == seq![bytes@] + state_pieces(next),
            final(self).current() == bytes@,
            final(self).value_current() == (next is TrailerLineEnd),
            final(self).ending() == state_ends(next),
            final(self).spec_complete() == old(self).spec_complete(),
            same_body(*old(self), *final(self)),
            final(self).spec_decoder() == old(self).spec_decoder(),
            final(self).held() <= APPLICATION_BUFFER_LIMIT,
    {
        proof {
            use_type_invariant(&*self);
            weight::lemma_nothing();
        }
        self.pending = Some(PendingWrite { bytes, offset: 0, next });
        assert(bytes@.subrange(0, bytes@.len() as int) =~= bytes@);
    }

    /// Stages the next piece. Where the body needs it, the next frame is taken from the client.
    pub fn step_downstream(&mut self, downstream: &mut Http1Connection) -> (r: StageStep)
        requires
            !old(self).writing(),
            !old(self).flushing(),
        ensures
            if old(self).starved() {
                frame_staged(*old(self), old(downstream)@, r, *final(self), final(downstream)@)
            } else {
                &&& r == StageStep::Staged
                &&& piece_staged(*old(self), *final(self))
                &&& final(downstream)@ == old(downstream)@
            },
            final(self).writing() && final(self).current().len() == 0 ==> final(self).value_current(),
            same_body(*old(self), *final(self)),
            final(self).spec_complete() == old(self).spec_complete(),
            final(self).held() <= APPLICATION_BUFFER_LIMIT,
    {
        proof {
            use_type_invariant(&*self);
            weight::lemma_nothing();
            lemma_framing();
        }
        let ghost pieces = self.pieces();
        let mut state: RequestState = RequestState::NeedFrame;
        std::mem::swap(&mut state, &mut self.state);
        match state {
            RequestState::NeedFrame => {
                return self.stage_frame(downstream);
            },
            RequestState::ChunkData(data) => {
                self.queue(data, RequestState::ChunkEnd);
            },
            RequestState::ChunkEnd => {
                self.queue(copy("\r\n".as_bytes()), RequestState::NeedFrame);
            },
            RequestState::TrailerFields(listed) => {
                let mut listed = listed;
                let ghost all = fields::pair_views(listed@);
                if listed.len() == 0 {
                    self.queue(copy("\r\n".as_bytes()), RequestState::Flush);
                } else {
                    let (name, value) = listed.remove(0);
                    proof {
                        assert(all[0] == (name@, value@));
                        assert(fields::pair_views(listed@) =~= all.drop_first());
                        weight::lemma_octets_first(all);
                        assert(weight::named(fields::pair_views(listed@))) by {
                            assert forall|i: int| 0 <= i < all.drop_first().len() implies (
                            #[trigger] all.drop_first()[i]).0.len() > 0 by {
                                assert(all.drop_first()[i] == all[i + 1]);
                            }
                        }
                    }
                    self.queue(name, RequestState::TrailerValuePrefix(value, listed));
                }
            },
            RequestState::TrailerValuePrefix(value, listed) => {
                self.queue(copy(": ".as_bytes()), RequestState::TrailerValue(value, listed));
            },
            RequestState::TrailerValue(value, listed) => {
                self.queue(value, RequestState::TrailerLineEnd(listed));
            },
            RequestState::TrailerLineEnd(listed) => {
                self.queue(copy("\r\n".as_bytes()), RequestState::TrailerFields(listed));
            },
            RequestState::Flush => {},
        }
        assert(self.pieces() =~= pieces);
        StageStep::Staged
    }

    fn stage_frame(&mut self, downstream: &mut Http1Connection) -> (r: StageStep)
        requires
            old(self).starved(),
        ensures
            frame_staged(*old(self), old(downstream)@, r, *final(self), final(downstream)@),
            final(self).writing() ==> final(self).current().len() > 0,
            same_body(*old(self), *final(self)),
            final(self).spec_complete() == old(self).spec_complete(),
            final(self).held() <= APPLICATION_BUFFER_LIMIT,
    {
        proof {
            use_type_invariant(&*self);
            weight::lemma_nothing();
            lemma_framing();
            ingress::lemma_decode_holds(self.decoder@, downstream@.pending);
        }
        let ghost before = *self;
        let mut decoder = BodyDecoder::new(BodyFraming::NoBody);
        std::mem::swap(&mut decoder, &mut self.decoder);
        let step = decoder.next_frame(downstream);
        std::mem::swap(&mut decoder, &mut self.decoder);
        proof {
            a_frame_is_its_pieces(step@, before.spec_chunked(), before.spec_nominations());
        }
        match step {
            BodyStep::NeedInput(max) => StageStep::NeedInput(max),
            BodyStep::Failed(_) => StageStep::Failed(ForwardErrorKind::BadRequest),
            BodyStep::Frame(BodyFrame::Data(data)) => {
                if self.chunked {
                    let mut size = render_hex(data.len() as u64);
                    proof {
                        lemma_hex_digits(data@.len());
                    }
                    append_text(&mut size, "\r\n");
                    let ghost pieces = seq![size@, data@, octets::octets("\r\n"@)];
                    self.queue(size, RequestState::ChunkData(data));
                    assert(self.pieces() =~= pieces);
                } else {
                    let ghost pieces = seq![data@];
                    self.queue(data, RequestState::NeedFrame);
                    assert(self.pieces() =~= pieces);
                }
                StageStep::Staged
            },
            BodyStep::Frame(BodyFrame::Trailers(trailers)) => {
                let mut trailers = trailers;
                let ghost read = fields::contents(trailers);
                if sanitize_hop_by_hop(&mut trailers).is_err() {
                    return StageStep::Failed(ForwardErrorKind::BadRequest);
                }
                let ghost clean = fields::contents(trailers);
                headers::remove_names(&mut trailers, &self.nominations);
                let listed = pairs(&trailers);
                proof {
                    let kept = fields::contents(trailers);
                    weight::lemma_sanitized(read, headers::nominations_of(read)->0);
                    weight::lemma_removed_all(
                        clean,
                        headers::lower_all(octets::views(self.nominations@)),
                    );
                    weight::lemma_named(kept, kept.order);
                }
                self.queue(copy("0\r\n".as_bytes()), RequestState::TrailerFields(listed));
                StageStep::Staged
            },
            BodyStep::Complete => {
                if self.chunked {
                    self.queue(copy("0\r\n\r\n".as_bytes()), RequestState::Flush);
                    assert(self.pieces() =~= seq![octets::octets("0\r\n\r\n"@)]);
                } else {
                    self.state = RequestState::Flush;
                }
                StageStep::Staged
            },
        }
    }

    /// The octets that the writer holds: in its decoder, in its state and on their way.
    pub closed spec fn held(&self) -> nat {
        weight::weight(self.decoder@.trailers) + state_octets(self.state) + match self.pending {
            Some(p) => (p.bytes@.len() - p.offset) as nat + state_octets(p.next),
            None => 0,
        }
    }

    /// The octets that the writer holds, never more than one exchange may hold.
    pub fn buffered_bytes(&self) -> (r: usize)
        ensures
            r == self.held(),
            r <= APPLICATION_BUFFER_LIMIT,
    {
        proof {
            use_type_invariant(self);
            weight::lemma_nothing();
        }
        let mut total: usize = self.decoder.buffered_bytes();
        total = total.saturating_add(self.state.buffered_bytes());
        match &self.pending {
            Some(p) => {
                total = total.saturating_add(p.bytes.len() - p.offset);
                total = total.saturating_add(p.next.buffered_bytes());
            },
            None => {},
        }
        total
    }
}

/// The octets of the piece that is being written come first of all that is outstanding.
pub proof fn the_current_piece_comes_first(writer: RequestWriter)
    ensures
        writer.current().len() <= writer.outstanding().len(),
        writer.outstanding().subrange(0, writer.current().len() as int) == writer.current(),
{
    let front = writer.current();
    if writer.writing() {
        assert(writer.outstanding() =~= front + octets::joined(writer.pieces().drop_first()));
    }
    assert(writer.outstanding().subrange(0, front.len() as int) =~= front);
}

/// A writer that waits for its client or for the flush has no piece left; the body has ended in the
/// second case alone.
pub proof fn a_resting_writer_has_written_all(writer: RequestWriter)
    ensures
        writer.starved() ==> writer.pieces().len() == 0 && !writer.ending() && !writer.writing()
            && !writer.flushing(),
        writer.flushing() ==> writer.pieces().len() == 0 && writer.ending() && !writer.writing(),
{
}

/// A response as it goes on to the client.
#[derive(Debug)]
pub struct ForwardedHead {
    pub status: u16,
    pub headers: HeaderMap,
    pub framing: OriginBodyFraming,
    /// The names that the response head nominated, for the trailers.
    pub nominations: Vec<Vec<u8>>,
    /// Whether the stream may be kept once the body is through.
    pub poolable: bool,
    pub request_complete: bool,
}

/// What a response head from the origin leads to.
#[derive(Debug)]
pub enum ExchangeStep {
    /// An interim response, which is written to the client only where `forward` holds.
    Informational { status: u16, headers: HeaderMap, forward: bool },
    Response(ForwardedHead),
}

/// A response that cannot go on: it switches protocols, or its codings cannot be told to an
/// HTTP/1.0 client.
pub open spec fn unforwardable(client: HttpVersion, response: OriginHeadModel) -> bool {
    ||| response.status == 101
    ||| client == HttpVersion::Http10 && response.framing != OriginBodyFraming::NoBody && (
    response.transfer_coding == OriginTransferCoding::FinalNonChunked || response.transfer_coding
        == (OriginTransferCoding::FinalChunked { has_prior: true }))
}

/// The fields of a response as they go on: no hop fields; the transfer codings again for an
/// HTTP/1.1 client, ending in `chunked` where the body had no such end; the proxy in the `Via`
/// chain.
pub open spec fn response_fields(
    client: HttpVersion,
    response: OriginHeadModel,
    nominated: Seq<Seq<u8>>,
) -> Fields {
    let te = http1::key("transfer-encoding"@);
    let clean = headers::sanitized(response.fields, nominated);
    let coded = match client {
        HttpVersion::Http10 => clean,
        HttpVersion::Http11 => {
            let kept = appended_all(clean, te, fields::values_of(response.fields, te));
            if response.transfer_coding == OriginTransferCoding::FinalNonChunked
                && response.framing != OriginBodyFraming::NoBody {
                fields::appended(kept, te, octets::octets("chunked"@))
            } else {
                kept
            }
        },
    };
    fields::appended(coded, headers::via_name(), headers::via_entry(response.version))
}

fn prepare_response_fields(client: HttpVersion, response: &OriginResponseHead) -> (r: Result<
    HeaderMap,
    (),
>)
    ensures
        match r {
            Ok(sent) => headers::nominations_of(response@.fields) matches Some(nominated)
                && fields::contents(sent) == response_fields(client, response@, nominated),
            Err(_) => headers::nominations_of(response@.fields) is None || near_full(
                response@.fields,
                2,
            ),
        },
{
    proof {
        lemma_names();
    }
    let mut sent: HeaderMap = duplicate(&response.headers);
    assert(fields::contents(sent) == response@.fields);
    if sanitize_hop_by_hop(&mut sent).is_err() {
        return Err(());
    }
    let ghost nominated = headers::nominations_of(response@.fields)->0;
    let ghost clean = fields::contents(sent);
    let ghost te = http1::key("transfer-encoding"@);
    proof {
        lemma_sanitized_len(response@.fields, nominated);
    }
    if let HttpVersion::Http11 = client {
        let codings = get_all(&response.headers, "transfer-encoding");
        if !append_values(&mut sent, "transfer-encoding", &codings) {
            return Err(());
        }
        proof {
            lemma_appended_all_len(clean, te, fields::values_of(response@.fields, te));
        }
        let coded: bool = match response.transfer_coding {
            OriginTransferCoding::FinalNonChunked => true,
            _ => false,
        };
        let body: bool = match response.framing {
            OriginBodyFraming::NoBody => false,
            _ => true,
        };
        if coded && body {
            let ghost kept = fields::contents(sent);
            if !try_append(&mut sent, "transfer-encoding".as_bytes(), "chunked".as_bytes()) {
                return Err(());
            }
            proof {
                let all = fields::values_of(response@.fields, te).push(octets::octets("chunked"@));
                assert(all.drop_last() =~= fields::values_of(response@.fields, te));
                lemma_appended_all_len(clean, te, all);
                assert(fields::contents(sent) == appended_all(clean, te, all));
            }
        }
    }
    if !append_via(&mut sent, response.version) {
        return Err(());
    }
    Ok(sent)
}

/// Decides what becomes of a response head. The stream is kept only after a complete request, a
/// response that does not close it, and a body with an end of its own. A response with very many
/// different names may be refused.
pub fn respond(client: HttpVersion, response: OriginResponseHead, request_complete: bool) -> (r:
    Result<ExchangeStep, ForwardError>)
    ensures
        match r {
            Err(e) => e == (ForwardError { kind: ForwardErrorKind::BadGateway, request_complete })
                && (unforwardable(client, response@) || headers::nominations_of(response@.fields)
                is None || near_full(response@.fields, 2)),
            Ok(step) => {
                &&& !unforwardable(client, response@)
                &&& headers::nominations_of(response@.fields) matches Some(nominated)
                &&& match step {
                    ExchangeStep::Informational { status, headers, forward } => {
                        &&& http1::is_informational(status)
                        &&& status == response@.status
                        &&& fields::contents(headers) == response_fields(
                            client,
                            response@,
                            nominated,
                        )
                        &&& forward == (client == HttpVersion::Http11)
                    },
                    ExchangeStep::Response(head) => {
                        &&& !http1::is_informational(head.status)
                        &&& head.status == response@.status
                        &&& fields::contents(head.headers) == response_fields(
                            client,
                            response@,
                            nominated,
                        )
                        &&& head.framing == response@.framing
                        &&& octets::views(head.nominations@) == nominated
                        &&& headers::all_field_names(octets::views(head.nominations@))
                        &&& head.poolable == (request_complete && !response@.close
                            && response@.framing != OriginBodyFraming::CloseDelimited)
                        &&& head.request_complete == request_complete
                    },
                }
            },
        },
{
    let failed: ForwardError = forward_error(ForwardErrorKind::BadGateway, request_complete);
    if response.status == 101 {
        return Err(failed);
    }
    let body: bool = match response.framing {
        OriginBodyFraming::NoBody => false,
        _ => true,
    };
    let coded: bool = match response.transfer_coding {
        OriginTransferCoding::FinalNonChunked => true,
        OriginTransferCoding::FinalChunked { has_prior } => has_prior,
        OriginTransferCoding::Absent => false,
    };
    let forward: bool = match client {
        HttpVersion::Http10 => false,
        HttpVersion::Http11 => true,
    };
    if !forward && body && coded {
        return Err(failed);
    }
    let nominations: Vec<Vec<u8>> = match connection_nominations(&response.headers) {
        Ok(nominations) => nominations,
        Err(_) => {
            return Err(failed);
        },
    };
    let sent: HeaderMap = match prepare_response_fields(client, &response) {
        Ok(sent) => sent,
        Err(_) => {
            return Err(failed);
        },
    };
    if response.status >= 100 && response.status < 200 {
        return Ok(
            ExchangeStep::Informational { status: response.status, headers: sent, forward },
        );
    }
    let ended: bool = match response.framing {
        OriginBodyFraming::CloseDelimited => false,
        _ => true,
    };
    proof {
        headers::lemma_nominations_lower(response@.fields);
    }
    Ok(
        ExchangeStep::Response(
            ForwardedHead {
                status: response.status,
                headers: sent,
                framing: response.framing,
                nominations,
                poolable: request_complete && !response.close && ended,
                request_complete,
            },
        ),
    )
}

/// What an exchange waits for. A cancellation always comes first; the end of the client's stream
/// counts last, and not while the client is being read.
#[derive(Debug, Clone, Copy, PartialEq, Eq, Structural)]
pub enum ExchangeWait {
    /// The request head is being written.
    WriteHead,
    FlushHead,
    /// The request is out; only the response head is awaited.
    Response,
    /// The response head, or room for the next piece of the request.
    ResponseOrUpstream,
    /// The response head, or more of the request from the client.
    ResponseOrDownstream,
}

/// Something that ends an exchange from outside.
#[derive(Debug, Clone, Copy, PartialEq, Eq, Structural)]
pub enum Interruption {
    Cancelled,
    PeerClosed,
    UpstreamFailed,
}

/// One request on its way to an origin and the responses on their way back.
#[derive(Debug)]
pub struct Exchange {
    client: HttpVersion,
    method: Vec<u8>,
    head: Window,
    head_flushed: bool,
    request: RequestWriter,
}

impl Exchange {
    /// What is left to write of the request head.
    pub closed spec fn head_left(&self) -> Seq<u8> {
        self.head@
    }

    pub closed spec fn spec_head_flushed(&self) -> bool {
        self.head_flushed
    }

    pub closed spec fn writer(&self) -> RequestWriter {
        self.request
    }

    pub closed spec fn spec_client(&self) -> HttpVersion {
        self.client
    }

    pub closed spec fn spec_method(&self) -> Seq<u8> {
        self.method@
    }

    /// Starts an exchange. A request that cannot be put into a head for the origin is a bad
    /// request.
    pub fn begin(head: &RequestHead, path_and_query: &[u8], host: &[u8]) -> (r: Result<
        Exchange,
        ForwardError,
    >)
        ensures
            match r {
                Ok(exchange) => {
                    &&& headers::nominations_of(head@.fields) matches Some(nominated)
                    &&& fields::is_field_value(host@)
                    &&& exchange.head_left() == request_wire(
                        head@,
                        path_and_query@,
                        request_fields(head@, nominated, host@),
                    )
                    &&& !exchange.spec_head_flushed()
                    &&& exchange.writer().starved()
                    &&& !exchange.writer().spec_complete()
                    &&& exchange.writer().spec_chunked() == (head@.framing is Chunked)
                    &&& exchange.writer().spec_nominations() == nominated
                    &&& exchange.writer().spec_decoder() == ingress::initial_decoder(head@.framing)
                    &&& exchange.spec_client() == head@.version
                    &&& exchange.spec_method() == head@.method
                },
                Err(e) => e == (ForwardError {
                    kind: ForwardErrorKind::BadRequest,
                    request_complete: false,
                }) && (headers::nominations_of(head@.fields) is None || !fields::is_field_value(
                    host@,
                ) || near_full(head@.fields, 3)),
            },
    {
        let nominations: Vec<Vec<u8>> = match connection_nominations(&head.headers) {
            Ok(nominations) => nominations,
            Err(_) => {
                return Err(forward_error(ForwardErrorKind::BadRequest, false));
            },
        };
        let bytes: Vec<u8> = match serialize_request_head(head, path_and_query, host) {
            Ok(bytes) => bytes,
            Err(_) => {
                return Err(forward_error(ForwardErrorKind::BadRequest, false));
            },
        };
        proof {
            headers::lemma_nominations_lower(head@.fields);
        }
        let mut window = Window::new();
        window.fill(bytes.as_slice());
        assert(window@ =~= bytes@);
        Ok(
            Exchange {
                client: head.version,
                method: copy(head.method.as_slice()),
                head: window,
                head_flushed: false,
                request: RequestWriter::new(head.framing, nominations),
            },
        )
    }

    /// What the exchange waits for.
    pub fn wait(&self) -> (r: ExchangeWait)
        ensures
            r == (if !self.spec_head_flushed() {
                if self.head_left().len() > 0 {
                    ExchangeWait::WriteHead
                } else {
                    ExchangeWait::FlushHead
                }
            } else if self.writer().spec_complete() {
                ExchangeWait::Response
            } else if self.writer().writing() || self.writer().flushing() {
                ExchangeWait::ResponseOrUpstream
            } else {
                ExchangeWait::ResponseOrDownstream
            }),
    {
        if !self.head_flushed {
            if self.head.len() > 0 {
                ExchangeWait::WriteHead
            } else {
                ExchangeWait::FlushHead
            }
        } else if self.request.complete() {
            ExchangeWait::Response
        } else if self.request.waiting_on_upstream() {
            ExchangeWait::ResponseOrUpstream
        } else {
            ExchangeWait::ResponseOrDownstream
        }
    }

    /// The octets of the request head that are to be written next.
    pub fn head_bytes(&self) -> (r: &[u8])
        ensures
            r@ == self.head_left(),
    {
        self.head.available()
    }

    /// Takes note that so many octets of the head were written. Writing nothing is a failure of
    /// the origin.
    pub fn head_written(&mut self, count: usize) -> (r: Result<(), ForwardError>)
        requires
            count <= old(self).head_left().len(),
        ensures
            if count == 0 {
                r == Err::<(), ForwardError>(
                    (ForwardError {
                        kind: ForwardErrorKind::BadGateway,
                        request_complete: old(self).writer().spec_complete(),
                    }),
                ) && *final(self) == *old(self)
            } else {
                r is Ok && final(self).head_left() == old(self).head_left().subrange(
                    count as int,
                    old(self).head_left().len() as int,
                )
            },
            final(self).writer() == old(self).writer(),
            final(self).spec_head_flushed() == old(self).spec_head_flushed(),
            final(self).spec_client() == old(self).spec_client(),
            final(self).spec_method() == old(self).spec_method(),
    {
        if count == 0 {
            return Err(forward_error(ForwardErrorKind::BadGateway, self.request.complete()));
        }
        self.head.consume(count);
        Ok(())
    }

    /// Takes note that the head was flushed.
    pub fn head_sent(&mut self)
        ensures
            final(self).spec_head_flushed(),
            final(self).head_left() == old(self).head_left(),
            final(self).writer() == old(self).writer(),
            final(self).spec_client() == old(self).spec_client(),
            final(self).spec_method() == old(self).spec_method(),
    {
        self.head_flushed = true;
    }

    /// The method of the request, by which a response head is read.
    pub fn method(&self) -> (r: &[u8])
        ensures
            r@ == self.spec_method(),
    {
        self.method.as_slice()
    }

    pub fn request_complete(&self) -> (r: bool)
        ensures
            r == self.writer().spec_complete(),
    {
        self.request.complete()
    }

    /// The piece of the body that is to be written next; none means that the stream is to be
    /// flushed.
    pub fn body_bytes(&self) -> (r: Option<&[u8]>)
        ensures
            match r {
                Some(bytes) => self.writer().writing() && bytes@ == self.writer().current() && (
                bytes@.len() == 0 ==> self.writer().value_current()),
                None => !self.writer().writing(),
            },
    {
        self.request.next_write()
    }

    /// The error that an interruption ends the exchange with.
    pub fn interrupted(&self, by: Interruption) -> (r: ForwardError)
        ensures
            r == (ForwardError {
                kind: match by {
                    Interruption::Cancelled => ForwardErrorKind::Cancelled,
                    Interruption::PeerClosed => ForwardErrorKind::ClientDisconnected,
                    Interruption::UpstreamFailed => ForwardErrorKind::BadGateway,
                },
                request_complete: self.writer().spec_complete(),
            }),
    {
        let kind: ForwardErrorKind = match by {
            Interruption::Cancelled => ForwardErrorKind::Cancelled,
            Interruption::PeerClosed => ForwardErrorKind::ClientDisconnected,
            Interruption::UpstreamFailed => ForwardErrorKind::BadGateway,
        };
        forward_error(kind, self.request.complete())
    }

    /// Takes note that so many octets of the current piece of the body were written.
    pub fn body_written(&mut self, count: usize) -> (r: Result<(), ForwardError>)
        requires
            old(self).writer().writing(),
            count <= old(self).writer().current().len(),
        ensures
            if count == 0 {
                r == Err::<(), ForwardError>(
                    (ForwardError {
                        kind: ForwardErrorKind::BadGateway,
                        request_complete: old(self).writer().spec_complete(),
                    }),
                ) && final(self).writer() == old(self).writer()
            } else {
                r is Ok && piece_written(old(self).writer(), count as nat, final(self).writer())
            },
            same_body(old(self).writer(), final(self).writer()),
            final(self).writer().spec_complete() == old(self).writer().spec_complete(),
            final(self).writer().held() <= APPLICATION_BUFFER_LIMIT,
            final(self).head_left() == old(self).head_left(),
            final(self).spec_client() == old(self).spec_client(),
            final(self).spec_method() == old(self).spec_method(),
            final(self).spec_head_flushed() == old(self).spec_head_flushed(),
    {
        let complete: bool = self.request.complete();
        match self.request.written(count) {
            Ok(_) => Ok(()),
            Err(kind) => Err(forward_error(kind, complete)),
        }
    }

    /// Takes note that the body was flushed: the request is out.
    pub fn body_sent(&mut self)
        requires
            old(self).writer().flushing(),
        ensures
            final(self).writer().spec_complete(),
            final(self).writer().flushing(),
            final(self).writer().pieces() == old(self).writer().pieces(),
            final(self).writer().held() == old(self).writer().held(),
            final(self).writer().ending() == old(self).writer().ending(),
            final(self).writer().spec_decoder() == old(self).writer().spec_decoder(),
            final(self).writer().spec_chunked() == old(self).writer().spec_chunked(),
            final(self).writer().spec_nominations() == old(self).writer().spec_nominations(),
            final(self).head_left() == old(self).head_left(),
            final(self).spec_client() == old(self).spec_client(),
            final(self).spec_method() == old(self).spec_method(),
            final(self).spec_head_flushed() == old(self).spec_head_flushed(),
    {
        self.request.flushed();
    }

    /// Stages the next piece of the body.
    pub fn stage_body(&mut self, downstream: &mut Http1Connection) -> (r: StageStep)
        requires
            !old(self).writer().writing(),
            !old(self).writer().flushing(),
        ensures
            final(self).writer().spec_complete() == old(self).writer().spec_complete(),
            final(self).spec_client() == old(self).spec_client(),
            final(self).spec_method() == old(self).spec_method(),
            final(self).spec_head_flushed() == old(self).spec_head_flushed(),
            final(self).head_left() == old(self).head_left(),
            if old(self).writer().starved() {
                frame_staged(
                    old(self).writer(),
                    old(downstream)@,
                    r,
                    final(self).writer(),
                    final(downstream)@,
                )
            } else {
                &&& r == StageStep::Staged
                &&& piece_staged(old(self).writer(), final(self).writer())
                &&& final(downstream)@ == old(downstream)@
            },
            final(self).writer().writing() && final(self).writer().current().len() == 0 ==> final(self).writer().value_current(),
            same_body(old(self).writer(), final(self).writer()),
            final(self).writer().held() <= APPLICATION_BUFFER_LIMIT,
    {
        self.request.step_downstream(downstream)
    }

    /// Decides what becomes of a response head, or of its failure.
    pub fn respond(&self, response: Result<OriginResponseHead, OriginError>) -> (r: Result<
        ExchangeStep,
        ForwardError,
    >)
        ensures
            match r {
                Err(e) => e == (ForwardError {
                    kind: ForwardErrorKind::BadGateway,
                    request_complete: self.writer().spec_complete(),
                }) && match response {
                    Ok(head) => unforwardable(self.spec_client(), head@) || headers::nominations_of(
                        head@.fields,
                    ) is None || near_full(head@.fields, 2),
                    Err(_) => true,
                },
                Ok(step) => {
                    &&& response matches Ok(head)
                    &&& !unforwardable(self.spec_client(), head@)
                    &&& headers::nominations_of(head@.fields) matches Some(nominated)
                    &&& match step {
                        ExchangeStep::Informational { status, headers, forward } => {
                            &&& http1::is_informational(status)
                            &&& status == head@.status
                            &&& fields::contents(headers) == response_fields(
                                self.spec_client(),
                                head@,
                                nominated,
                            )
                            &&& forward == (self.spec_client() == HttpVersion::Http11)
                        },
                        ExchangeStep::Response(sent) => {
                            &&& !http1::is_informational(sent.status)
                            &&& sent.status == head@.status
                            &&& fields::contents(sent.headers) == response_fields(
                                self.spec_client(),
                                head@,
                                nominated,
                            )
                            &&& sent.framing == head@.framing
                            &&& octets::views(sent.nominations@) == nominated
                            &&& headers::all_field_names(octets::views(sent.nominations@))
                            &&& sent.poolable == (self.writer().spec_complete() && !head@.close
                                && head@.framing != OriginBodyFraming::CloseDelimited)
                            &&& sent.request_complete == self.writer().spec_complete()
                        },
                    }
                },
            },
    {
        match response {
            Err(_) => Err(forward_error(ForwardErrorKind::BadGateway, self.request.complete())),
            Ok(head) => respond(self.client, head, self.request.complete()),
        }
    }
}

} // verus!
