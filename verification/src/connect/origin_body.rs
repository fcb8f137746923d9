//! Response heads and bodies of an origin.
//!
//! As on the downstream side, nothing here reads from a socket: each step looks at the octets that
//! have arrived.
use crate::fields;
use crate::fields::{keys, new_map, Fields};
use crate::headers;
use crate::headers::sanitize_hop_by_hop;
use crate::octets;
use crate::octets::{copy, part};
use crate::server::http1;
use crate::server::http1::{
    append_field_line, find_crlf, find_head_end, names_absent, parse_chunk_size,
    parse_origin_response_head, validate_line_endings, OriginBodyFraming, OriginError,
    OriginResponseHead, HEADER_SECTION_LIMIT, REQUEST_LINE_LIMIT, RESPONSE_BODY_FRAME_LIMIT,
};
use crate::server::ingress;
use crate::server::ingress::room;
use crate::window::Window;
use hyper::HeaderMap;
use vstd::prelude::*;

verus! {

impl OriginError {
    pub fn message(&self) -> (r: &'static str)
        ensures
            r@ == (match *self {
                OriginError::Invalid => "invalid origin response"@,
                OriginError::HeadersTooLarge => "origin response headers too large"@,
                OriginError::Incomplete => "incomplete origin response"@,
            }),
    {
        match self {
            OriginError::Invalid => "invalid origin response",
            OriginError::HeadersTooLarge => "origin response headers too large",
            OriginError::Incomplete => "incomplete origin response",
        }
    }
}

/// What the octets at the front of an origin stream amount to.
#[derive(Debug, Clone, Copy, PartialEq, Eq, Structural)]
pub enum OriginScan {
    Failed(OriginError),
    /// So many octets may be buffered before the next look.
    NeedMore(usize),
    /// The status line and the whole head have these lengths.
    Complete(usize, usize),
}

/// A status line of at most 8192 octets and a header section of at most 65536 octets, with paired
/// line endings.
pub open spec fn origin_scan(a: Seq<u8>) -> OriginScan {
    let crlf = http1::crlf_at(a, 0);
    let line_len = crlf + 2;
    if crlf >= a.len() {
        if !http1::line_endings_paired(a) || a.len() >= REQUEST_LINE_LIMIT {
            OriginScan::Failed(OriginError::Invalid)
        } else {
            OriginScan::NeedMore(REQUEST_LINE_LIMIT)
        }
    } else if !http1::line_endings_paired(a.subrange(0, line_len)) || line_len
        > REQUEST_LINE_LIMIT {
        OriginScan::Failed(OriginError::Invalid)
    } else {
        match http1::head_end(a, line_len) {
            Some(end) => if !http1::line_endings_paired(a.subrange(0, end)) {
                OriginScan::Failed(OriginError::Invalid)
            } else if end - line_len > HEADER_SECTION_LIMIT {
                OriginScan::Failed(OriginError::HeadersTooLarge)
            } else {
                OriginScan::Complete(line_len as usize, end as usize)
            },
            None => if !http1::line_endings_paired(a) {
                OriginScan::Failed(OriginError::Invalid)
            } else if a.len() - line_len >= HEADER_SECTION_LIMIT {
                OriginScan::Failed(OriginError::HeadersTooLarge)
            } else {
                OriginScan::NeedMore((line_len + HEADER_SECTION_LIMIT) as usize)
            },
        }
    }
}

/// Looks for a response head at the front of what has arrived.
pub fn scan_origin_head(available: &[u8]) -> (r: OriginScan)
    ensures
        r == origin_scan(available@),
        match r {
            OriginScan::Complete(line, end) => 2 <= line <= end <= available@.len(),
            OriginScan::NeedMore(limit) => available@.len() < limit
                <= http1::CONNECTION_BUFFER_LIMIT,
            OriginScan::Failed(_) => true,
        },
{
    let crlf: usize = find_crlf(available, 0);
    if crlf >= available.len() {
        if validate_line_endings(available).is_err() || available.len() >= REQUEST_LINE_LIMIT {
            return OriginScan::Failed(OriginError::Invalid);
        }
        return OriginScan::NeedMore(REQUEST_LINE_LIMIT);
    }
    let line_len: usize = crlf + 2;
    if validate_line_endings(part(available, 0, line_len)).is_err() || line_len
        > REQUEST_LINE_LIMIT {
        return OriginScan::Failed(OriginError::Invalid);
    }
    match find_head_end(available, line_len) {
        Some(end) => {
            if validate_line_endings(part(available, 0, end)).is_err() {
                return OriginScan::Failed(OriginError::Invalid);
            }
            if end - line_len > HEADER_SECTION_LIMIT {
                return OriginScan::Failed(OriginError::HeadersTooLarge);
            }
            OriginScan::Complete(line_len, end)
        },
        None => {
            if validate_line_endings(available).is_err() {
                return OriginScan::Failed(OriginError::Invalid);
            }
            if available.len() - line_len >= HEADER_SECTION_LIMIT {
                return OriginScan::Failed(OriginError::HeadersTooLarge);
            }
            OriginScan::NeedMore(line_len + HEADER_SECTION_LIMIT)
        },
    }
}

/// A step towards a response head.
#[derive(Debug)]
pub enum OriginHeadStep {
    /// At most so many octets may be read next. The end of input is an incomplete response.
    NeedInput(usize),
    Failed(OriginError),
    Ready(OriginResponseHead),
}

/// The read side of one origin stream.
#[derive(Debug)]
pub struct OriginReader {
    pending: Window,
}

impl View for OriginReader {
    type V = Seq<u8>;

    closed spec fn view(&self) -> Seq<u8> {
        self.pending@
    }
}

impl OriginReader {
    pub fn new() -> (r: OriginReader)
        ensures
            r@ == Seq::<u8>::empty(),
    {
        OriginReader { pending: Window::new() }
    }

    /// Takes in octets that were read.
    pub fn fill(&mut self, bytes: &[u8])
        ensures
            final(self)@ == old(self)@ + bytes@,
    {
        self.pending.fill(bytes);
    }

    pub fn buffered(&self) -> (r: usize)
        ensures
            r == self@.len(),
    {
        self.pending.len()
    }

    /// Whether the stream may serve another exchange: nothing is left over on it.
    pub fn reusable(&self) -> (r: bool)
        ensures
            r == (self@.len() == 0),
    {
        self.pending.len() == 0
    }

    /// Looks for the response head for a request with the given method.
    pub fn read_response_head(&mut self, method: &[u8]) -> (r: OriginHeadStep)
        ensures
            ({
                let a = old(self)@;
                match r {
                    OriginHeadStep::Ready(head) => origin_scan(a) matches OriginScan::Complete(
                        line,
                        end,
                    ) && http1::origin_head_of(
                        a.subrange(0, line as int),
                        a.subrange(line as int, end as int),
                        method@,
                    ) == Some(head@) && final(self)@ == a.subrange(end as int, a.len() as int),
                    OriginHeadStep::NeedInput(max) => origin_scan(a) matches OriginScan::NeedMore(
                        limit,
                    ) && max == ingress::read_room(a.len(), limit as nat) && max > 0 && final(
                        self
                    )@ == a,
                    OriginHeadStep::Failed(error) => final(self)@ == a && match origin_scan(a) {
                        OriginScan::Failed(e) => error == e,
                        OriginScan::Complete(line, end) => {
                            let section = a.subrange(line as int, end as int);
                            error == OriginError::Invalid && (http1::origin_head_of(
                                a.subrange(0, line as int),
                                section,
                                method@,
                            ) is None || http1::crowded(section))
                        },
                        OriginScan::NeedMore(_) => false,
                    },
                }
            }),
    {
        self.pending.compact();
        let available = self.pending.available();
        match scan_origin_head(available) {
            OriginScan::Failed(error) => OriginHeadStep::Failed(error),
            OriginScan::NeedMore(limit) => OriginHeadStep::NeedInput(
                room(available.len(), limit),
            ),
            OriginScan::Complete(line, end) => {
                match parse_origin_response_head(
                    part(available, 0, line),
                    part(available, line, end),
                    method,
                ) {
                    Err(error) => OriginHeadStep::Failed(error),
                    Ok(head) => {
                        self.pending.consume(end);
                        OriginHeadStep::Ready(head)
                    },
                }
            },
        }
    }
}

/// The names that no trailer of a response may have.
pub open spec fn forbidden_origin_trailers() -> Seq<Seq<u8>> {
    seq![
        octets::octets("connection"@),
        octets::octets("content-length"@),
        octets::octets("host"@),
        octets::octets("keep-alive"@),
        octets::octets("proxy-authenticate"@),
        octets::octets("proxy-authorization"@),
        octets::octets("proxy-connection"@),
        octets::octets("te"@),
        octets::octets("trailer"@),
        octets::octets("transfer-encoding"@),
        octets::octets("upgrade"@),
        octets::octets("via"@),
    ]
}

/// Checks the trailers of a response.
pub fn validate_origin_trailers(trailers: &HeaderMap) -> (r: Result<(), OriginError>)
    ensures
        r == (if http1::free_of(fields::contents(*trailers), forbidden_origin_trailers()) {
            Ok::<(), OriginError>(())
        } else {
            Err(OriginError::Invalid)
        }),
{
    let mut names: Vec<Vec<u8>> = Vec::new();
    names.push(copy("connection".as_bytes()));
    names.push(copy("content-length".as_bytes()));
    names.push(copy("host".as_bytes()));
    names.push(copy("keep-alive".as_bytes()));
    names.push(copy("proxy-authenticate".as_bytes()));
    names.push(copy("proxy-authorization".as_bytes()));
    names.push(copy("proxy-connection".as_bytes()));
    names.push(copy("te".as_bytes()));
    names.push(copy("trailer".as_bytes()));
    names.push(copy("transfer-encoding".as_bytes()));
    names.push(copy("upgrade".as_bytes()));
    names.push(copy("via".as_bytes()));
    assert(octets::views(names@) =~= forbidden_origin_trailers());
    if names_absent(trailers, &names) {
        Ok(())
    } else {
        Err(OriginError::Invalid)
    }
}

/// What a response body decoder is waiting for.
#[derive(Debug, Clone, Copy, PartialEq, Eq, Structural)]
pub enum OriginState {
    Complete,
    Fixed { remaining: u64 },
    ChunkSize,
    ChunkData { remaining: u64 },
    ChunkDataEnd,
    Trailers,
    CloseDelimited,
}

/// A piece of a response body.
#[derive(Debug, PartialEq, Eq)]
pub enum OriginFrame {
    Data(Vec<u8>),
    Trailers(HeaderMap),
}

/// A step of a response body.
#[derive(Debug, PartialEq, Eq)]
pub enum OriginStep {
    /// At most so many octets may be read next.
    NeedInput(usize),
    Failed(OriginError),
    Frame(OriginFrame),
    Complete,
}

/// Takes a response body apart. Trailers that the head nominated for its hop are dropped.
#[derive(Debug)]
pub struct OriginDecoder {
    state: OriginState,
    nominations: Vec<Vec<u8>>,
    trailer_headers: HeaderMap,
    trailer_octets: usize,
}

pub struct OriginDecoderModel {
    pub state: OriginState,
    pub nominations: Seq<Seq<u8>>,
    pub trailers: Fields,
    pub octets: nat,
}

impl View for OriginDecoder {
    type V = OriginDecoderModel;

    closed spec fn view(&self) -> OriginDecoderModel {
        OriginDecoderModel {
            state: self.state,
            nominations: octets::views(self.nominations@),
            trailers: fields::contents(self.trailer_headers),
            octets: self.trailer_octets as nat,
        }
    }
}

pub enum OriginStepModel {
    NeedInput(nat),
    Failed(OriginError),
    Data(Seq<u8>),
    Trailers(Fields),
    Complete,
}

impl View for OriginStep {
    type V = OriginStepModel;

    open spec fn view(&self) -> OriginStepModel {
        match self {
            OriginStep::NeedInput(max) => OriginStepModel::NeedInput(*max as nat),
            OriginStep::Failed(error) => OriginStepModel::Failed(*error),
            OriginStep::Frame(OriginFrame::Data(data)) => OriginStepModel::Data(data@),
            OriginStep::Frame(OriginFrame::Trailers(trailers)) => OriginStepModel::Trailers(
                fields::contents(*trailers),
            ),
            OriginStep::Complete => OriginStepModel::Complete,
        }
    }
}

pub open spec fn initial_origin_state(framing: OriginBodyFraming) -> OriginState {
    match framing {
        OriginBodyFraming::NoBody => OriginState::Complete,
        OriginBodyFraming::ContentLength(remaining) => OriginState::Fixed { remaining },
        OriginBodyFraming::Chunked => OriginState::ChunkSize,
        OriginBodyFraming::CloseDelimited => OriginState::CloseDelimited,
    }
}

pub struct OriginTransition {
    pub decoder: OriginDecoderModel,
    pub rest: Seq<u8>,
    pub step: Option<OriginStepModel>,
}

pub open spec fn origin_stays(d: OriginDecoderModel, a: Seq<u8>, step: OriginStepModel) -> OriginTransition {
    OriginTransition { decoder: d, rest: a, step: Some(step) }
}

/// Data is handed out as it arrives, in frames that leave room for chunk framing in 65536 octets.
pub open spec fn origin_data_transition(
    d: OriginDecoderModel,
    a: Seq<u8>,
    remaining: u64,
) -> OriginTransition {
    let max = ingress::least(remaining as nat, RESPONSE_BODY_FRAME_LIMIT as nat);
    let count = ingress::least(max, a.len());
    let left = (remaining - count) as u64;
    if a.len() == 0 {
        origin_stays(d, a, OriginStepModel::NeedInput(max))
    } else {
        OriginTransition {
            decoder: OriginDecoderModel {
                state: match d.state {
                    OriginState::Fixed { .. } => OriginState::Fixed { remaining: left },
                    _ => if left == 0 {
                        OriginState::ChunkDataEnd
                    } else {
                        OriginState::ChunkData { remaining: left }
                    },
                },
                ..d
            },
            rest: a.subrange(count as int, a.len() as int),
            step: Some(OriginStepModel::Data(a.subrange(0, count as int))),
        }
    }
}

/// A body that ends with the stream hands out whatever arrives.
pub open spec fn close_delimited_transition(d: OriginDecoderModel, a: Seq<u8>) -> OriginTransition {
    let count = ingress::least(RESPONSE_BODY_FRAME_LIMIT as nat, a.len());
    if a.len() == 0 {
        origin_stays(d, a, OriginStepModel::NeedInput(RESPONSE_BODY_FRAME_LIMIT as nat))
    } else {
        OriginTransition {
            decoder: d,
            rest: a.subrange(count as int, a.len() as int),
            step: Some(OriginStepModel::Data(a.subrange(0, count as int))),
        }
    }
}

pub open spec fn origin_size_transition(d: OriginDecoderModel, a: Seq<u8>) -> OriginTransition {
    let end = http1::crlf_at(a, 0);
    if end < a.len() {
        if !http1::line_endings_paired(a.subrange(0, end + 2)) || end + 2 > REQUEST_LINE_LIMIT {
            origin_stays(d, a, OriginStepModel::Failed(OriginError::Invalid))
        } else {
            match http1::chunk_size_of(a.subrange(0, end)) {
                None => origin_stays(d, a, OriginStepModel::Failed(OriginError::Invalid)),
                Some(size) => OriginTransition {
                    decoder: OriginDecoderModel {
                        state: if size == 0 {
                            OriginState::Trailers
                        } else {
                            OriginState::ChunkData { remaining: size }
                        },
                        ..d
                    },
                    rest: a.subrange(end + 2, a.len() as int),
                    step: None,
                },
            }
        }
    } else if !http1::line_endings_paired(a) || a.len() >= REQUEST_LINE_LIMIT {
        origin_stays(d, a, OriginStepModel::Failed(OriginError::Invalid))
    } else {
        origin_stays(
            d,
            a,
            OriginStepModel::NeedInput(ingress::read_room(a.len(), REQUEST_LINE_LIMIT as nat)),
        )
    }
}

pub open spec fn origin_data_end_transition(d: OriginDecoderModel, a: Seq<u8>) -> OriginTransition {
    if a.len() < 2 {
        origin_stays(d, a, OriginStepModel::NeedInput((2 - a.len()) as nat))
    } else if a[0] == 13 && a[1] == 10 {
        OriginTransition {
            decoder: OriginDecoderModel { state: OriginState::ChunkSize, ..d },
            rest: a.subrange(2, a.len() as int),
            step: None,
        }
    } else {
        origin_stays(d, a, OriginStepModel::Failed(OriginError::Invalid))
    }
}

/// The trailers that go on: without hop fields and without the names that the head nominated.
pub open spec fn forwarded_trailers(f: Fields, nominations: Seq<Seq<u8>>) -> Fields {
    headers::removed_all(
        headers::sanitized(f, headers::nominations_of(f)->0),
        headers::lower_all(nominations),
    )
}

/// Trailer lines of at most 65536 octets in all, up to an empty line.
pub open spec fn origin_trailer_transition(d: OriginDecoderModel, a: Seq<u8>) -> OriginTransition {
    let end = http1::crlf_at(a, 0);
    let rest = a.subrange(end + 2, a.len() as int);
    if end < a.len() {
        if !http1::line_endings_paired(a.subrange(0, end + 2)) {
            origin_stays(d, a, OriginStepModel::Failed(OriginError::Invalid))
        } else if d.octets + end + 2 > HEADER_SECTION_LIMIT {
            origin_stays(d, a, OriginStepModel::Failed(OriginError::HeadersTooLarge))
        } else if end == 0 {
            if !http1::free_of(d.trailers, forbidden_origin_trailers()) || headers::nominations_of(
                d.trailers,
            ) is None {
                origin_stays(d, a, OriginStepModel::Failed(OriginError::Invalid))
            } else {
                let kept = forwarded_trailers(d.trailers, d.nominations);
                OriginTransition {
                    decoder: OriginDecoderModel {
                        state: OriginState::Complete,
                        trailers: fields::no_fields(),
                        octets: d.octets + 2,
                        ..d
                    },
                    rest,
                    step: Some(
                        if kept.order.len() == 0 {
                            OriginStepModel::Complete
                        } else {
                            OriginStepModel::Trailers(kept)
                        },
                    ),
                }
            }
        } else {
            match http1::field_line(a.subrange(0, end)) {
                None => origin_stays(d, a, OriginStepModel::Failed(OriginError::Invalid)),
                Some((name, value)) => OriginTransition {
                    decoder: OriginDecoderModel {
                        trailers: fields::appended(d.trailers, name, value),
                        octets: (d.octets + end + 2) as nat,
                        ..d
                    },
                    rest,
                    step: None,
                },
            }
        }
    } else if !http1::line_endings_paired(a) {
        origin_stays(d, a, OriginStepModel::Failed(OriginError::Invalid))
    } else if d.octets + a.len() >= HEADER_SECTION_LIMIT {
        origin_stays(d, a, OriginStepModel::Failed(OriginError::HeadersTooLarge))
    } else {
        origin_stays(
            d,
            a,
            OriginStepModel::NeedInput(
                ingress::read_room(a.len(), (HEADER_SECTION_LIMIT - d.octets) as nat),
            ),
        )
    }
}

/// One transition of a decoder on the octets at hand.
pub open spec fn origin_transition(d: OriginDecoderModel, a: Seq<u8>) -> OriginTransition {
    match d.state {
        OriginState::Complete => origin_stays(d, a, OriginStepModel::Complete),
        OriginState::Fixed { remaining } => if remaining == 0 {
            OriginTransition {
                decoder: OriginDecoderModel { state: OriginState::Complete, ..d },
                rest: a,
                step: None,
            }
        } else {
            origin_data_transition(d, a, remaining)
        },
        OriginState::ChunkSize => origin_size_transition(d, a),
        OriginState::ChunkData { remaining } => origin_data_transition(d, a, remaining),
        OriginState::ChunkDataEnd => origin_data_end_transition(d, a),
        OriginState::Trailers => origin_trailer_transition(d, a),
        OriginState::CloseDelimited => close_delimited_transition(d, a),
    }
}

pub open spec fn origin_rank(d: OriginDecoderModel) -> nat {
    if d.state is Fixed {
        1
    } else {
        0
    }
}

/// The transitions up to the first that hands something out.
pub open spec fn origin_decode(d: OriginDecoderModel, a: Seq<u8>) -> OriginTransition
    decreases a.len(), origin_rank(d),
{
    let t = origin_transition(d, a);
    if t.step is None && (t.rest.len() < a.len() || (t.rest.len() == a.len() && origin_rank(
        t.decoder,
    ) < origin_rank(d))) {
        origin_decode(t.decoder, t.rest)
    } else {
        t
    }
}

/// On the way, a trailer line meets a map with more names than it is sure to hold.
pub open spec fn origin_decode_crowded(d: OriginDecoderModel, a: Seq<u8>) -> bool
    decreases a.len(), origin_rank(d),
{
    let t = origin_transition(d, a);
    if t.step is None && (t.rest.len() < a.len() || (t.rest.len() == a.len() && origin_rank(
        t.decoder,
    ) < origin_rank(d))) {
        (d.state is Trailers && d.trailers.order.len() >= fields::SURE_NAMES)
            || origin_decode_crowded(t.decoder, t.rest)
    } else {
        false
    }
}

impl OriginDecoder {
    #[verifier::type_invariant]
    spec fn well_formed(self) -> bool {
        &&& self.trailer_octets <= HEADER_SECTION_LIMIT
        &&& self.state matches OriginState::ChunkData { remaining } ==> remaining > 0
        &&& headers::all_field_names(octets::views(self.nominations@))
    }

    /// A decoder for a body, with the field names that the response head nominated for its hop.
    pub fn new(framing: OriginBodyFraming, nominations: Vec<Vec<u8>>) -> (r: OriginDecoder)
        requires
            headers::all_field_names(octets::views(nominations@)),
        ensures
            r@ == (OriginDecoderModel {
                state: initial_origin_state(framing),
                nominations: octets::views(nominations@),
                trailers: fields::no_fields(),
                octets: 0,
            }),
    {
        let state: OriginState = match framing {
            OriginBodyFraming::NoBody => OriginState::Complete,
            OriginBodyFraming::ContentLength(remaining) => OriginState::Fixed { remaining },
            OriginBodyFraming::Chunked => OriginState::ChunkSize,
            OriginBodyFraming::CloseDelimited => OriginState::CloseDelimited,
        };
        OriginDecoder { state, nominations, trailer_headers: new_map(), trailer_octets: 0 }
    }

    /// Takes in the end of input: a body that ends with the stream is complete, any other is not.
    pub fn end_of_input(&mut self) -> (r: Result<(), OriginError>)
        ensures
            if old(self)@.state is CloseDelimited {
                r is Ok && final(self)@ == (OriginDecoderModel {
                    state: OriginState::Complete,
                    ..old(self)@
                })
            } else {
                r == Err::<(), OriginError>(OriginError::Incomplete) && final(self)@ == old(self)@
            },
    {
        proof {
            use_type_invariant(&*self);
        }
        if let OriginState::CloseDelimited = self.state {
            self.state = OriginState::Complete;
            Ok(())
        } else {
            Err(OriginError::Incomplete)
        }
    }

    fn take_data(&mut self, reader: &mut OriginReader, remaining: u64) -> (r: OriginStep)
        requires
            remaining > 0,
            old(self)@.state == (OriginState::Fixed { remaining }) || old(self)@.state == (
            OriginState::ChunkData { remaining }),
        ensures
            ({
                let t = origin_data_transition(old(self)@, old(reader)@, remaining);
                &&& t.step == Some(r@)
                &&& !(r is Failed)
                &&& final(self)@ == t.decoder
                &&& final(reader)@ == t.rest
            }),
    {
        proof {
            use_type_invariant(&*self);
        }
        let max: usize = if remaining < RESPONSE_BODY_FRAME_LIMIT as u64 {
            remaining as usize
        } else {
            RESPONSE_BODY_FRAME_LIMIT
        };
        let n: usize = reader.pending.len();
        if n == 0 {
            return OriginStep::NeedInput(max);
        }
        let count: usize = if max < n {
            max
        } else {
            n
        };
        let data = reader.pending.take(count);
        let left: u64 = remaining - count as u64;
        self.state = match self.state {
            OriginState::Fixed { .. } => OriginState::Fixed { remaining: left },
            _ => if left == 0 {
                OriginState::ChunkDataEnd
            } else {
                OriginState::ChunkData { remaining: left }
            },
        };
        OriginStep::Frame(OriginFrame::Data(data))
    }

    fn take_rest(&self, reader: &mut OriginReader) -> (r: OriginStep)
        requires
            self@.state is CloseDelimited,
        ensures
            ({
                let t = close_delimited_transition(self@, old(reader)@);
                &&& t.step == Some(r@)
                &&& !(r is Failed)
                &&& final(reader)@ == t.rest
            }),
    {
        let n: usize = reader.pending.len();
        if n == 0 {
            return OriginStep::NeedInput(RESPONSE_BODY_FRAME_LIMIT);
        }
        let count: usize = if RESPONSE_BODY_FRAME_LIMIT < n {
            RESPONSE_BODY_FRAME_LIMIT
        } else {
            n
        };
        OriginStep::Frame(OriginFrame::Data(reader.pending.take(count)))
    }

    fn take_size(&mut self, reader: &mut OriginReader) -> (r: Option<OriginStep>)
        requires
            old(self)@.state is ChunkSize,
        ensures
            ({
                let t = origin_size_transition(old(self)@, old(reader)@);
                match r {
                    Some(OriginStep::Failed(error)) => t.step == Some(
                        OriginStepModel::Failed(error),
                    ),
                    Some(step) => t.step == Some(step@) && final(self)@ == t.decoder && final(
                        reader
                    )@ == t.rest,
                    None => t.step is None && final(self)@ == t.decoder && final(reader)@ == t.rest
                        && t.rest.len() < old(reader)@.len(),
                }
            }),
    {
        proof {
            use_type_invariant(&*self);
        }
        let available = reader.pending.available();
        let end: usize = find_crlf(available, 0);
        if end >= available.len() {
            if validate_line_endings(available).is_err() || available.len() >= REQUEST_LINE_LIMIT {
                return Some(OriginStep::Failed(OriginError::Invalid));
            }
            return Some(OriginStep::NeedInput(room(available.len(), REQUEST_LINE_LIMIT)));
        }
        if validate_line_endings(part(available, 0, end + 2)).is_err() || end + 2
            > REQUEST_LINE_LIMIT {
            return Some(OriginStep::Failed(OriginError::Invalid));
        }
        match parse_chunk_size(part(available, 0, end)) {
            Err(_) => Some(OriginStep::Failed(OriginError::Invalid)),
            Ok(size) => {
                reader.pending.consume(end + 2);
                self.state = if size == 0 {
                    OriginState::Trailers
                } else {
                    OriginState::ChunkData { remaining: size }
                };
                None
            },
        }
    }

    fn take_trailer(&mut self, reader: &mut OriginReader) -> (r: Option<OriginStep>)
        requires
            old(self)@.state is Trailers,
        ensures
            ({
                let t = origin_trailer_transition(old(self)@, old(reader)@);
                match r {
                    Some(OriginStep::Failed(error)) => t.step == Some(
                        OriginStepModel::Failed(error),
                    ) || (t.step is None && t.rest.len() < old(reader)@.len() && error
                        == OriginError::Invalid && old(self)@.trailers.order.len()
                        >= fields::SURE_NAMES),
                    Some(step) => t.step == Some(step@) && final(self)@ == t.decoder && final(
                        reader
                    )@ == t.rest,
                    None => t.step is None && final(self)@ == t.decoder && final(reader)@ == t.rest
                        && t.rest.len() < old(reader)@.len(),
                }
            }),
    {
        proof {
            use_type_invariant(&*self);
        }
        let available = reader.pending.available();
        let end: usize = find_crlf(available, 0);
        if end >= available.len() {
            if validate_line_endings(available).is_err() {
                return Some(OriginStep::Failed(OriginError::Invalid));
            }
            if available.len() >= HEADER_SECTION_LIMIT - self.trailer_octets {
                return Some(OriginStep::Failed(OriginError::HeadersTooLarge));
            }
            let max: usize = room(available.len(), HEADER_SECTION_LIMIT - self.trailer_octets);
            return Some(OriginStep::NeedInput(max));
        }
        if validate_line_endings(part(available, 0, end + 2)).is_err() {
            return Some(OriginStep::Failed(OriginError::Invalid));
        }
        if end + 2 > HEADER_SECTION_LIMIT - self.trailer_octets {
            return Some(OriginStep::Failed(OriginError::HeadersTooLarge));
        }
        let mut trailers: HeaderMap = new_map();
        std::mem::swap(&mut trailers, &mut self.trailer_headers);
        if end == 0 {
            if validate_origin_trailers(&trailers).is_err() || sanitize_hop_by_hop(
                &mut trailers,
            ).is_err() {
                return Some(OriginStep::Failed(OriginError::Invalid));
            }
            headers::remove_names(&mut trailers, &self.nominations);
            reader.pending.consume(2);
            self.trailer_octets = self.trailer_octets + 2;
            self.state = OriginState::Complete;
            let found = keys(&trailers);
            assert(octets::views(found@).len() == found@.len());
            if found.len() == 0 {
                return Some(OriginStep::Complete);
            }
            return Some(OriginStep::Frame(OriginFrame::Trailers(trailers)));
        }
        let appended = append_field_line(&mut trailers, part(available, 0, end));
        std::mem::swap(&mut trailers, &mut self.trailer_headers);
        match appended {
            Err(_) => Some(OriginStep::Failed(OriginError::Invalid)),
            Ok(_) => {
                self.trailer_octets = self.trailer_octets + end + 2;
                reader.pending.consume(end + 2);
                None
            },
        }
    }

    fn advance(&mut self, reader: &mut OriginReader) -> (r: Option<OriginStep>)
        ensures
            ({
                let t = origin_transition(old(self)@, old(reader)@);
                match r {
                    Some(OriginStep::Failed(error)) => t.step == Some(
                        OriginStepModel::Failed(error),
                    ) || (t.step is None && t.rest.len() < old(reader)@.len() && error
                        == OriginError::Invalid && old(self)@.state is Trailers
                        && old(self)@.trailers.order.len() >= fields::SURE_NAMES),
                    Some(step) => t.step == Some(step@) && final(self)@ == t.decoder && final(
                        reader
                    )@ == t.rest,
                    None => t.step is None && final(self)@ == t.decoder && final(reader)@ == t.rest
                        && (t.rest.len() < old(reader)@.len() || (t.rest.len() == old(
                        reader
                    )@.len() && origin_rank(t.decoder) < origin_rank(old(self)@))),
                }
            }),
    {
        proof {
            use_type_invariant(&*self);
        }
        match self.state {
            OriginState::Complete => Some(OriginStep::Complete),
            OriginState::Fixed { remaining } => {
                if remaining == 0 {
                    self.state = OriginState::Complete;
                    return None;
                }
                Some(self.take_data(reader, remaining))
            },
            OriginState::ChunkData { remaining } => Some(self.take_data(reader, remaining)),
            OriginState::ChunkSize => self.take_size(reader),
            OriginState::ChunkDataEnd => {
                let available = reader.pending.available();
                if available.len() < 2 {
                    return Some(OriginStep::NeedInput(2 - available.len()));
                }
                if available[0] == 13 && available[1] == 10 {
                    reader.pending.consume(2);
                    self.state = OriginState::ChunkSize;
                    return None;
                }
                Some(OriginStep::Failed(OriginError::Invalid))
            },
            OriginState::Trailers => self.take_trailer(reader),
            OriginState::CloseDelimited => Some(self.take_rest(reader)),
        }
    }

    /// Hands out the next piece of the body, or says how many octets may be read for it.
    pub fn next_frame(&mut self, reader: &mut OriginReader) -> (r: OriginStep)
        ensures
            ({
                let t = origin_decode(old(self)@, old(reader)@);
                match r {
                    OriginStep::Failed(error) => t.step == Some(OriginStepModel::Failed(error)) || (
                    error == OriginError::Invalid && origin_decode_crowded(
                        old(self)@,
                        old(reader)@,
                    )),
                    _ => t.step == Some(r@) && final(self)@ == t.decoder && final(reader)@
                        == t.rest,
                }
            }),
    {
        loop
            invariant
                origin_decode(old(self)@, old(reader)@) == origin_decode(self@, reader@),
                origin_decode_crowded(self@, reader@) ==> origin_decode_crowded(
                    old(self)@,
                    old(reader)@,
                ),
            decreases reader@.len(), origin_rank(self@),
        {
            match self.advance(reader) {
                Some(step) => {
                    return step;
                },
                None => {},
            }
        }
    }
}

/// Whether a finished exchange gives its stream back: it may be kept and nothing is left over.
pub fn returns_to_pool(poolable: bool, reader: &OriginReader) -> (r: bool)
    ensures
        r == (poolable && reader@.len() == 0),
{
    poolable && reader.reusable()
}

} // verus!
