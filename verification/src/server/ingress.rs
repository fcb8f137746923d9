//! One downstream connection: its read buffer, request heads and request bodies.
//!
//! Nothing here reads from a socket. Each step looks at the octets that have arrived and either
//! gives a result or says how many more octets may be read.
use crate::fields;
use crate::fields::{new_map, Fields};
use crate::octets;
use crate::octets::part;
use crate::server::http1;
use crate::server::http1::{
    append_field_line, find_crlf, find_head_end, header_field_bytes, parse_chunk_size, parse_head,
    request_line_is_head, validate_line_endings, validate_request_line_prefix, validate_trailers,
    BodyFraming, HeadModel, IngressError, RequestHead, APPLICATION_BUFFER_LIMIT, CHUNK_LINE_LIMIT,
    CONNECTION_BUFFER_LIMIT, HEADER_SECTION_LIMIT, REQUEST_BODY_FRAME_LIMIT, REQUEST_LINE_LIMIT,
};
use crate::weight;
use crate::window::Window;
use hyper::HeaderMap;
use vstd::prelude::*;

verus! {

/// What the octets at the front of a connection amount to.
#[derive(Debug, Clone, Copy, PartialEq, Eq, Structural)]
pub enum HeadScan {
    /// No head can come of them.
    Failed(IngressError),
    /// The head is not complete; so many octets may be buffered before the next look.
    NeedMore(usize),
    /// The request line and the whole head have these lengths.
    Complete(usize, usize),
}

/// What has arrived of the request line without its ending.
pub open spec fn line_prefix(a: Seq<u8>) -> Seq<u8> {
    let end = http1::crlf_at(a, 0);
    if end < a.len() {
        a.subrange(0, end)
    } else if a.len() > 0 && a.last() == 13 {
        a.drop_last()
    } else {
        a
    }
}

/// The request line has arrived, and it and its length are in order.
pub open spec fn line_ready(a: Seq<u8>) -> bool {
    let end = http1::crlf_at(a, 0);
    &&& end < a.len()
    &&& http1::line_endings_paired(a.subrange(0, end + 2))
    &&& http1::is_printable(line_prefix(a))
    &&& end + 2 <= REQUEST_LINE_LIMIT
}

/// What the octets at the front of a connection amount to: a request line of at most 8192 octets
/// and a header section of at most 65536 octets, with paired line endings.
pub open spec fn head_scan(a: Seq<u8>) -> HeadScan {
    let line_len = http1::crlf_at(a, 0) + 2;
    if http1::crlf_at(a, 0) >= a.len() {
        if !http1::line_endings_paired(a) || !http1::is_printable(line_prefix(a)) || a.len()
            >= REQUEST_LINE_LIMIT {
            HeadScan::Failed(IngressError::BadRequest)
        } else {
            HeadScan::NeedMore(REQUEST_LINE_LIMIT)
        }
    } else if !line_ready(a) {
        HeadScan::Failed(IngressError::BadRequest)
    } else {
        match http1::head_end(a, line_len) {
            Some(end) => if !http1::line_endings_paired(a.subrange(0, end)) {
                HeadScan::Failed(IngressError::BadRequest)
            } else if end - line_len > HEADER_SECTION_LIMIT {
                HeadScan::Failed(IngressError::HeadersTooLarge)
            } else {
                HeadScan::Complete(line_len as usize, end as usize)
            },
            None => if !http1::line_endings_paired(a) {
                HeadScan::Failed(IngressError::BadRequest)
            } else if a.len() - line_len >= HEADER_SECTION_LIMIT {
                HeadScan::Failed(IngressError::HeadersTooLarge)
            } else {
                HeadScan::NeedMore((line_len + HEADER_SECTION_LIMIT) as usize)
            },
        }
    }
}

/// Looks for a request head at the front of what has arrived.
pub fn scan_head(available: &[u8]) -> (r: HeadScan)
    ensures
        r == head_scan(available@),
        match r {
            HeadScan::Complete(line, end) => line_ready(available@) && 2 <= line <= end
                <= available@.len() && line == http1::crlf_at(available@, 0) + 2,
            HeadScan::NeedMore(limit) => available@.len() < limit <= CONNECTION_BUFFER_LIMIT,
            HeadScan::Failed(_) => true,
        },
{
    let crlf: usize = find_crlf(available, 0);
    if crlf >= available.len() {
        if validate_line_endings(available).is_err() {
            return HeadScan::Failed(IngressError::BadRequest);
        }
        let n: usize = available.len();
        let prefix = if n > 0 && available[n - 1] == 13 {
            assert(available@.subrange(0, n - 1) =~= available@.drop_last());
            part(available, 0, n - 1)
        } else {
            available
        };
        if validate_request_line_prefix(prefix).is_err() || n >= REQUEST_LINE_LIMIT {
            return HeadScan::Failed(IngressError::BadRequest);
        }
        return HeadScan::NeedMore(REQUEST_LINE_LIMIT);
    }
    let line_len: usize = crlf + 2;
    if validate_line_endings(part(available, 0, line_len)).is_err() {
        return HeadScan::Failed(IngressError::BadRequest);
    }
    if validate_request_line_prefix(part(available, 0, crlf)).is_err() {
        return HeadScan::Failed(IngressError::BadRequest);
    }
    if line_len > REQUEST_LINE_LIMIT {
        return HeadScan::Failed(IngressError::BadRequest);
    }
    match find_head_end(available, line_len) {
        Some(end) => {
            if validate_line_endings(part(available, 0, end)).is_err() {
                return HeadScan::Failed(IngressError::BadRequest);
            }
            if end - line_len > HEADER_SECTION_LIMIT {
                return HeadScan::Failed(IngressError::HeadersTooLarge);
            }
            HeadScan::Complete(line_len, end)
        },
        None => {
            if validate_line_endings(available).is_err() {
                return HeadScan::Failed(IngressError::BadRequest);
            }
            if available.len() - line_len >= HEADER_SECTION_LIMIT {
                return HeadScan::Failed(IngressError::HeadersTooLarge);
            }
            HeadScan::NeedMore(line_len + HEADER_SECTION_LIMIT)
        },
    }
}

/// How many octets may be read so that no more than `limit` are buffered, in steps of at most 8192.
pub open spec fn read_room(buffered: nat, limit: nat) -> nat {
    let cap = if limit < CONNECTION_BUFFER_LIMIT {
        limit
    } else {
        CONNECTION_BUFFER_LIMIT as nat
    };
    if buffered >= cap {
        0
    } else if cap - buffered > REQUEST_LINE_LIMIT {
        REQUEST_LINE_LIMIT as nat
    } else {
        (cap - buffered) as nat
    }
}

/// How many octets may be read so that no more than `limit` are buffered.
pub fn room(buffered: usize, limit: usize) -> (r: usize)
    ensures
        r == read_room(buffered as nat, limit as nat),
{
    let cap: usize = if limit < CONNECTION_BUFFER_LIMIT {
        limit
    } else {
        CONNECTION_BUFFER_LIMIT
    };
    if buffered >= cap {
        0
    } else if cap - buffered > REQUEST_LINE_LIMIT {
        REQUEST_LINE_LIMIT
    } else {
        cap - buffered
    }
}

/// A step towards a request head.
#[derive(Debug)]
pub enum HeadStep {
    /// At most so many octets may be read next.
    NeedInput(usize),
    Failed(IngressError),
    Ready(RequestHead),
}

/// The read side of one downstream connection.
#[derive(Debug)]
pub struct Http1Connection {
    pending: Window,
    request_is_head: bool,
    prefetched_error: Option<(IngressError, bool)>,
}

pub struct ConnectionModel {
    pub pending: Seq<u8>,
    pub request_is_head: bool,
    pub prefetched_error: Option<(IngressError, bool)>,
}

impl View for Http1Connection {
    type V = ConnectionModel;

    closed spec fn view(&self) -> ConnectionModel {
        ConnectionModel {
            pending: self.pending@,
            request_is_head: self.request_is_head,
            prefetched_error: self.prefetched_error,
        }
    }
}

/// The limit for octets read ahead during a response, or the error that they already amount to,
/// with whether the next request is a HEAD request.
pub open spec fn prefetch(a: Seq<u8>) -> Result<Option<usize>, (IngressError, bool)> {
    let line_len = http1::crlf_at(a, 0) + 2;
    if http1::crlf_at(a, 0) < a.len() {
        if http1::head_end(a, line_len) is Some {
            Ok(None)
        } else if a.len() >= line_len + HEADER_SECTION_LIMIT {
            Err((IngressError::HeadersTooLarge, http1::line_is_head(a)))
        } else {
            Ok(Some((line_len + HEADER_SECTION_LIMIT) as usize))
        }
    } else if a.len() >= REQUEST_LINE_LIMIT {
        Err((IngressError::BadRequest, http1::line_is_head(a)))
    } else {
        Ok(Some(REQUEST_LINE_LIMIT))
    }
}

/// How many octets may be read ahead so that no more than `limit` are buffered.
pub open spec fn prefetch_octets(buffered: nat, limit: nat) -> nat {
    let cap = least(limit, CONNECTION_BUFFER_LIMIT as nat);
    if buffered >= cap {
        0
    } else {
        least((cap - buffered) as nat, APPLICATION_BUFFER_LIMIT as nat)
    }
}

impl Http1Connection {
    pub fn new() -> (r: Http1Connection)
        ensures
            r@ == (ConnectionModel {
                pending: Seq::empty(),
                request_is_head: false,
                prefetched_error: None,
            }),
    {
        Http1Connection {
            pending: Window::new(),
            request_is_head: false,
            prefetched_error: None,
        }
    }

    /// Takes in octets that were read.
    pub fn fill(&mut self, bytes: &[u8])
        ensures
            final(self)@ == (ConnectionModel { pending: old(self)@.pending + bytes@, ..old(self)@ }),
    {
        self.pending.fill(bytes);
    }

    /// Whether the next request has begun to arrive.
    pub fn has_head_start(&self) -> (r: bool)
        ensures
            r == (self@.pending.len() > 0),
    {
        self.pending.len() > 0
    }

    /// What the end of input means while a head is awaited: nothing where no octet of it arrived.
    pub fn head_at_end(&self) -> (r: Option<IngressError>)
        ensures
            r == (if self@.pending.len() == 0 {
                None::<IngressError>
            } else {
                Some(IngressError::Incomplete)
            }),
    {
        if self.pending.len() == 0 {
            None
        } else {
            Some(IngressError::Incomplete)
        }
    }

    /// Looks for the next request head. An error that reading ahead ran into comes first.
    pub fn read_head(&mut self) -> (r: HeadStep)
        ensures
            match old(self)@.prefetched_error {
                Some((error, is_head)) => {
                    &&& r == HeadStep::Failed(error)
                    &&& final(self)@ == (ConnectionModel {
                        request_is_head: is_head,
                        prefetched_error: None,
                        ..old(self)@
                    })
                },
                None => {
                    let a = old(self)@.pending;
                    let scan = head_scan(a);
                    let is_head = line_ready(a) && http1::line_is_head(
                        a.subrange(0, http1::crlf_at(a, 0) + 2),
                    );
                    match r {
                        HeadStep::Ready(head) => scan matches HeadScan::Complete(line, end)
                            && http1::head_of(
                            a.subrange(0, line as int),
                            a.subrange(line as int, end as int),
                        ) == Ok::<HeadModel, IngressError>(head@) && final(self)@ == (
                        ConnectionModel {
                            pending: a.subrange(end as int, a.len() as int),
                            request_is_head: is_head,
                            prefetched_error: None,
                        }),
                        HeadStep::NeedInput(max) => scan matches HeadScan::NeedMore(limit) && max
                            == read_room(a.len(), limit as nat) && max > 0 && final(self)@ == (
                        ConnectionModel {
                            pending: a,
                            request_is_head: is_head,
                            prefetched_error: None,
                        }),
                        HeadStep::Failed(error) => final(self)@ == (ConnectionModel {
                            pending: a,
                            request_is_head: is_head,
                            prefetched_error: None,
                        }) && match scan {
                            HeadScan::Failed(e) => error == e,
                            HeadScan::Complete(line, end) => {
                                let section = a.subrange(line as int, end as int);
                                http1::head_of(a.subrange(0, line as int), section) == Err::<
                                    HeadModel,
                                    IngressError,
                                >(error) || (error == IngressError::BadRequest && http1::crowded(
                                    section,
                                ))
                            },
                            HeadScan::NeedMore(_) => false,
                        },
                    }
                },
            },
    {
        match self.prefetched_error {
            Some((error, is_head)) => {
                self.prefetched_error = None;
                self.request_is_head = is_head;
                return HeadStep::Failed(error);
            },
            None => {},
        }
        self.pending.compact();
        self.request_is_head = false;
        let available = self.pending.available();
        let ghost a = available@;
        let scan: HeadScan = scan_head(available);
        let crlf: usize = find_crlf(available, 0);
        let ready: bool = crlf < available.len() && validate_line_endings(
            part(available, 0, crlf + 2),
        ).is_ok() && validate_request_line_prefix(part(available, 0, crlf)).is_ok() && crlf + 2
            <= REQUEST_LINE_LIMIT;
        let is_head: bool = ready && request_line_is_head(part(available, 0, crlf + 2));
        match scan {
            HeadScan::Failed(error) => {
                self.request_is_head = is_head;
                HeadStep::Failed(error)
            },
            HeadScan::NeedMore(limit) => {
                let max: usize = room(available.len(), limit);
                self.request_is_head = is_head;
                HeadStep::NeedInput(max)
            },
            HeadScan::Complete(line, end) => {
                match parse_head(part(available, 0, line), part(available, line, end)) {
                    Err(error) => {
                        self.request_is_head = is_head;
                        HeadStep::Failed(error)
                    },
                    Ok(head) => {
                        self.request_is_head = is_head;
                        self.pending.consume(end);
                        HeadStep::Ready(head)
                    },
                }
            },
        }
    }

    pub fn request_is_head(&self) -> (r: bool)
        ensures
            r == self@.request_is_head,
    {
        self.request_is_head
    }

    pub fn buffered(&self) -> (r: usize)
        ensures
            r == self@.pending.len(),
    {
        self.pending.len()
    }

    /// How many octets may be buffered while a response is under way. An input that no request can
    /// come of is noted as the error of the next head.
    pub fn prefetch_limit(&mut self) -> (r: Option<usize>)
        requires
            old(self)@.pending.len() <= CONNECTION_BUFFER_LIMIT,
        ensures
            match prefetch(old(self)@.pending) {
                Ok(limit) => r == limit && final(self)@ == old(self)@,
                Err(error) => r is None && final(self)@ == (ConnectionModel {
                    prefetched_error: Some(error),
                    ..old(self)@
                }),
            },
    {
        let available = self.pending.available();
        let crlf: usize = find_crlf(available, 0);
        if crlf < available.len() {
            let line_len: usize = crlf + 2;
            if find_head_end(available, line_len).is_some() {
                return None;
            }
            if available.len() - line_len >= HEADER_SECTION_LIMIT {
                let is_head: bool = request_line_is_head(available);
                self.prefetched_error = Some((IngressError::HeadersTooLarge, is_head));
                return None;
            }
            return Some(line_len + HEADER_SECTION_LIMIT);
        }
        if available.len() >= REQUEST_LINE_LIMIT {
            let is_head: bool = request_line_is_head(available);
            self.prefetched_error = Some((IngressError::BadRequest, is_head));
            return None;
        }
        Some(REQUEST_LINE_LIMIT)
    }

    /// How many octets may be read while a response is under way, or none where the next head is
    /// complete or no request can come of what has arrived.
    pub fn prefetch_room(&mut self) -> (r: Option<usize>)
        requires
            old(self)@.pending.len() <= CONNECTION_BUFFER_LIMIT,
        ensures
            match (old(self)@.prefetched_error, prefetch(old(self)@.pending)) {
                (None, Ok(Some(limit))) => r == Some(
                    prefetch_octets(old(self)@.pending.len(), limit as nat) as usize,
                ) && final(self)@ == old(self)@,
                (None, Err(error)) => r is None && final(self)@ == (ConnectionModel {
                    prefetched_error: Some(error),
                    ..old(self)@
                }),
                _ => r is None && final(self)@ == old(self)@,
            },
            r matches Some(count) ==> old(self)@.pending.len() + count <= CONNECTION_BUFFER_LIMIT,
    {
        if self.prefetched_error.is_some() {
            return None;
        }
        let buffered: usize = self.pending.len();
        match self.prefetch_limit() {
            None => None,
            Some(limit) => {
                let cap: usize = if limit < CONNECTION_BUFFER_LIMIT {
                    limit
                } else {
                    CONNECTION_BUFFER_LIMIT
                };
                if buffered >= cap {
                    Some(0)
                } else if cap - buffered > APPLICATION_BUFFER_LIMIT {
                    Some(APPLICATION_BUFFER_LIMIT)
                } else {
                    Some(cap - buffered)
                }
            },
        }
    }

    /// The octets that arrived beyond the head, for a tunnel.
    pub fn into_prefix(self) -> (r: Vec<u8>)
        ensures
            r@ == self@.pending,
    {
        octets::copy(self.pending.available())
    }
}

/// What a request body decoder is waiting for.
#[derive(Debug, Clone, Copy, PartialEq, Eq, Structural)]
pub enum DecoderState {
    Complete,
    Fixed { remaining: u64 },
    ChunkSize,
    ChunkData { remaining: u64 },
    ChunkDataEnd,
    Trailers,
}

/// A piece of a request body.
#[derive(Debug, PartialEq, Eq)]
pub enum BodyFrame {
    Data(Vec<u8>),
    Trailers(HeaderMap),
}

/// A step of a request body.
#[derive(Debug, PartialEq, Eq)]
pub enum BodyStep {
    /// At most so many octets may be read next. The end of input is an incomplete body.
    NeedInput(usize),
    Failed(IngressError),
    Frame(BodyFrame),
    Complete,
}

/// Takes a request body apart.
#[derive(Debug)]
pub struct BodyDecoder {
    state: DecoderState,
    trailer_headers: HeaderMap,
    trailer_octets: usize,
}

pub struct DecoderModel {
    pub state: DecoderState,
    pub trailers: Fields,
    pub octets: nat,
}

impl View for BodyDecoder {
    type V = DecoderModel;

    closed spec fn view(&self) -> DecoderModel {
        DecoderModel {
            state: self.state,
            trailers: fields::contents(self.trailer_headers),
            octets: self.trailer_octets as nat,
        }
    }
}

pub enum StepModel {
    NeedInput(nat),
    Failed(IngressError),
    Data(Seq<u8>),
    Trailers(Fields),
    Complete,
}

impl View for BodyStep {
    type V = StepModel;

    open spec fn view(&self) -> StepModel {
        match self {
            BodyStep::NeedInput(max) => StepModel::NeedInput(*max as nat),
            BodyStep::Failed(error) => StepModel::Failed(*error),
            BodyStep::Frame(BodyFrame::Data(data)) => StepModel::Data(data@),
            BodyStep::Frame(BodyFrame::Trailers(trailers)) => StepModel::Trailers(
                fields::contents(*trailers),
            ),
            BodyStep::Complete => StepModel::Complete,
        }
    }
}

pub open spec fn initial_decoder(framing: BodyFraming) -> DecoderModel {
    DecoderModel {
        state: match framing {
            BodyFraming::NoBody => DecoderState::Complete,
            BodyFraming::ContentLength(remaining) => DecoderState::Fixed { remaining },
            BodyFraming::Chunked => DecoderState::ChunkSize,
        },
        trailers: fields::no_fields(),
        octets: 0,
    }
}

/// The smaller of two numbers.
pub open spec fn least(a: nat, b: nat) -> nat {
    if a < b {
        a
    } else {
        b
    }
}

/// The result of one transition: the decoder after it, the octets left, and what it hands out.
pub struct Transition {
    pub decoder: DecoderModel,
    pub rest: Seq<u8>,
    pub step: Option<StepModel>,
}

pub open spec fn stays(d: DecoderModel, a: Seq<u8>, step: StepModel) -> Transition {
    Transition { decoder: d, rest: a, step: Some(step) }
}

/// Data is handed out as it arrives, in frames of at most 32768 octets.
pub open spec fn data_transition(d: DecoderModel, a: Seq<u8>, remaining: u64) -> Transition {
    let max = least(remaining as nat, REQUEST_BODY_FRAME_LIMIT as nat);
    let count = least(max, a.len());
    let left = (remaining - count) as u64;
    if a.len() == 0 {
        stays(d, a, StepModel::NeedInput(max))
    } else {
        Transition {
            decoder: DecoderModel {
                state: match d.state {
                    DecoderState::Fixed { .. } => DecoderState::Fixed { remaining: left },
                    _ => if left == 0 {
                        DecoderState::ChunkDataEnd
                    } else {
                        DecoderState::ChunkData { remaining: left }
                    },
                },
                ..d
            },
            rest: a.subrange(count as int, a.len() as int),
            step: Some(StepModel::Data(a.subrange(0, count as int))),
        }
    }
}

/// A chunk-size line of at most 8192 octets starts the next chunk or, with size zero, the trailers.
pub open spec fn size_transition(d: DecoderModel, a: Seq<u8>) -> Transition {
    let end = http1::crlf_at(a, 0);
    if end < a.len() {
        if !http1::line_endings_paired(a.subrange(0, end + 2)) || end + 2 > CHUNK_LINE_LIMIT {
            stays(d, a, StepModel::Failed(IngressError::BadRequest))
        } else {
            match http1::chunk_size_of(a.subrange(0, end)) {
                None => stays(d, a, StepModel::Failed(IngressError::BadRequest)),
                Some(size) => Transition {
                    decoder: DecoderModel {
                        state: if size == 0 {
                            DecoderState::Trailers
                        } else {
                            DecoderState::ChunkData { remaining: size }
                        },
                        ..d
                    },
                    rest: a.subrange(end + 2, a.len() as int),
                    step: None,
                },
            }
        }
    } else if !http1::line_endings_paired(a) || a.len() >= CHUNK_LINE_LIMIT {
        stays(d, a, StepModel::Failed(IngressError::BadRequest))
    } else {
        stays(d, a, StepModel::NeedInput(read_room(a.len(), CHUNK_LINE_LIMIT as nat)))
    }
}

/// Chunk data ends in a line ending.
pub open spec fn data_end_transition(d: DecoderModel, a: Seq<u8>) -> Transition {
    if a.len() < 2 {
        stays(d, a, StepModel::NeedInput((2 - a.len()) as nat))
    } else if a[0] == 13 && a[1] == 10 {
        Transition {
            decoder: DecoderModel { state: DecoderState::ChunkSize, ..d },
            rest: a.subrange(2, a.len() as int),
            step: None,
        }
    } else {
        stays(d, a, StepModel::Failed(IngressError::BadRequest))
    }
}

/// Trailer lines of at most 65536 octets in all, up to an empty line.
pub open spec fn trailer_transition(d: DecoderModel, a: Seq<u8>) -> Transition {
    let end = http1::crlf_at(a, 0);
    let rest = a.subrange(end + 2, a.len() as int);
    if end < a.len() {
        if !http1::line_endings_paired(a.subrange(0, end + 2)) {
            stays(d, a, StepModel::Failed(IngressError::BadRequest))
        } else if d.octets + end + 2 > HEADER_SECTION_LIMIT {
            stays(d, a, StepModel::Failed(IngressError::HeadersTooLarge))
        } else if end == 0 {
            if !http1::free_of(d.trailers, http1::forbidden_trailers()) {
                stays(d, a, StepModel::Failed(IngressError::BadRequest))
            } else {
                Transition {
                    decoder: DecoderModel {
                        state: DecoderState::Complete,
                        trailers: fields::no_fields(),
                        octets: d.octets + 2,
                    },
                    rest,
                    step: Some(
                        if d.trailers.order.len() == 0 {
                            StepModel::Complete
                        } else {
                            StepModel::Trailers(d.trailers)
                        },
                    ),
                }
            }
        } else {
            match http1::field_line(a.subrange(0, end)) {
                None => stays(d, a, StepModel::Failed(IngressError::BadRequest)),
                Some((name, value)) => Transition {
                    decoder: DecoderModel {
                        trailers: fields::appended(d.trailers, name, value),
                        octets: (d.octets + end + 2) as nat,
                        ..d
                    },
                    rest,
                    step: None,
                },
            }
        }
    } else if !http1::line_endings_paired(a) {
        stays(d, a, StepModel::Failed(IngressError::BadRequest))
    } else if d.octets + a.len() >= HEADER_SECTION_LIMIT {
        stays(d, a, StepModel::Failed(IngressError::HeadersTooLarge))
    } else {
        stays(
            d,
            a,
            StepModel::NeedInput(
                read_room(a.len(), (HEADER_SECTION_LIMIT - d.octets) as nat),
            ),
        )
    }
}

/// One transition of a decoder on the octets at hand.
pub open spec fn transition(d: DecoderModel, a: Seq<u8>) -> Transition {
    match d.state {
        DecoderState::Complete => stays(d, a, StepModel::Complete),
        DecoderState::Fixed { remaining } => if remaining == 0 {
            Transition {
                decoder: DecoderModel { state: DecoderState::Complete, ..d },
                rest: a,
                step: None,
            }
        } else {
            data_transition(d, a, remaining)
        },
        DecoderState::ChunkSize => size_transition(d, a),
        DecoderState::ChunkData { remaining } => data_transition(d, a, remaining),
        DecoderState::ChunkDataEnd => data_end_transition(d, a),
        DecoderState::Trailers => trailer_transition(d, a),
    }
}

/// What orders the transitions that hand out nothing: each uses octets up, or leaves `Fixed`.
pub open spec fn rank(d: DecoderModel) -> nat {
    if d.state is Fixed {
        1
    } else {
        0
    }
}

/// The transitions up to the first that hands something out.
pub open spec fn decode(d: DecoderModel, a: Seq<u8>) -> Transition
    decreases a.len(), rank(d),
{
    let t = transition(d, a);
    if t.step is None && (t.rest.len() < a.len() || (t.rest.len() == a.len() && rank(t.decoder)
        < rank(d))) {
        decode(t.decoder, t.rest)
    } else {
        t
    }
}

/// On the way, a trailer line meets a map with more names than it is sure to hold.
pub open spec fn decode_crowded(d: DecoderModel, a: Seq<u8>) -> bool
    decreases a.len(), rank(d),
{
    let t = transition(d, a);
    if t.step is None && (t.rest.len() < a.len() || (t.rest.len() == a.len() && rank(t.decoder)
        < rank(d))) {
        (d.state is Trailers && d.trailers.order.len() >= fields::SURE_NAMES) || decode_crowded(
            t.decoder,
            t.rest,
        )
    } else {
        false
    }
}

/// The decoder's counters are in range.
pub open spec fn decoder_valid(d: DecoderModel) -> bool {
    &&& d.octets <= HEADER_SECTION_LIMIT
    &&& d.state matches DecoderState::ChunkData { remaining } ==> remaining > 0
}

/// What a decoder holds of the trailers weighs less than the lines that it read, and before and
/// after the trailers it holds nothing.
pub open spec fn decoder_holds(d: DecoderModel) -> bool {
    &&& weight::ordered(d.trailers)
    &&& if d.state is Trailers {
        weight::weight(d.trailers) + (if d.trailers.order.len() > 0 {
            3nat
        } else {
            0nat
        }) <= d.octets
    } else {
        d.trailers == fields::no_fields()
    }
}

/// The piece of a body that a step hands out is within its limits: data is not empty and fits in a
/// frame, and trailers fit in a header section with the lines that frame them.
pub open spec fn piece_bounded(step: Option<StepModel>) -> bool {
    match step {
        Some(StepModel::Data(data)) => 0 < data.len() <= REQUEST_BODY_FRAME_LIMIT,
        Some(StepModel::Trailers(f)) => weight::ordered(f) && weight::weight(f) + 5
            <= HEADER_SECTION_LIMIT,
        _ => true,
    }
}

/// A step after which nothing of the body is left.
pub open spec fn ends_body(step: Option<StepModel>) -> bool {
    match step {
        Some(StepModel::Trailers(_)) | Some(StepModel::Complete) => true,
        _ => false,
    }
}

pub proof fn lemma_transition_holds(d: DecoderModel, a: Seq<u8>)
    requires
        decoder_valid(d),
        decoder_holds(d),
    ensures
        decoder_valid(transition(d, a).decoder),
        decoder_holds(transition(d, a).decoder),
        piece_bounded(transition(d, a).step),
        is_piece(transition(d, a).step) ==> !(transition(d, a).decoder.state is Trailers),
        ends_body(transition(d, a).step) ==> transition(d, a).decoder.state is Complete,
{
    weight::lemma_nothing();
    http1::lemma_crlf_at(a, 0);
    if d.state is Trailers {
        let end = http1::crlf_at(a, 0);
        if 0 < end < a.len() {
            let line = a.subrange(0, end);
            weight::lemma_field_line(line);
            match http1::field_line(line) {
                Some((name, value)) => {
                    weight::lemma_appended(d.trailers, name, value);
                },
                None => {},
            }
        }
    }
}

/// A decoder stays within its limits, and so does what it hands out.
pub proof fn lemma_decode_holds(d: DecoderModel, a: Seq<u8>)
    requires
        decoder_valid(d),
        decoder_holds(d),
    ensures
        decoder_valid(decode(d, a).decoder),
        decoder_holds(decode(d, a).decoder),
        piece_bounded(decode(d, a).step),
        is_piece(decode(d, a).step) ==> !(decode(d, a).decoder.state is Trailers),
        ends_body(decode(d, a).step) ==> decode(d, a).decoder.state is Complete,
    decreases a.len(), rank(d),
{
    let t = transition(d, a);
    lemma_transition_holds(d, a);
    if t.step is None && (t.rest.len() < a.len() || (t.rest.len() == a.len() && rank(t.decoder)
        < rank(d))) {
        lemma_decode_holds(t.decoder, t.rest);
    }
}

impl BodyDecoder {
    #[verifier::type_invariant]
    spec fn well_formed(self) -> bool {
        &&& decoder_holds(self@)
        &&& self.trailer_octets <= HEADER_SECTION_LIMIT
        &&& self.state matches DecoderState::ChunkData { remaining } ==> remaining > 0
    }

    pub fn new(framing: BodyFraming) -> (r: BodyDecoder)
        ensures
            r@ == initial_decoder(framing),
            decoder_valid(r@),
            decoder_holds(r@),
    {
        proof {
            weight::lemma_nothing();
        }
        let state: DecoderState = match framing {
            BodyFraming::NoBody => DecoderState::Complete,
            BodyFraming::ContentLength(remaining) => DecoderState::Fixed { remaining },
            BodyFraming::Chunked => DecoderState::ChunkSize,
        };
        BodyDecoder { state, trailer_headers: new_map(), trailer_octets: 0 }
    }

    /// The octets that the decoder holds besides the connection's buffer.
    pub fn buffered_bytes(&self) -> (r: usize)
        ensures
            r == weight::weight(self@.trailers),
            r <= HEADER_SECTION_LIMIT,
    {
        proof {
            use_type_invariant(self);
            weight::lemma_nothing();
        }
        header_field_bytes(&self.trailer_headers)
    }

    /// Makes one transition.
    fn advance(&mut self, connection: &mut Http1Connection) -> (r: Option<BodyStep>)
        ensures
            ({
                let t = transition(old(self)@, old(connection)@.pending);
                &&& final(connection)@ == (ConnectionModel {
                    pending: final(connection)@.pending,
                    ..old(connection)@
                })
                &&& match r {
                    Some(BodyStep::Failed(error)) => t.step == Some(StepModel::Failed(error)) || (
                    t.step is None && t.rest.len() < old(connection)@.pending.len() && error
                        == IngressError::BadRequest && old(self)@.state is Trailers
                        && old(self)@.trailers.order.len() >= fields::SURE_NAMES),
                    Some(step) => t.step == Some(step@) && final(self)@ == t.decoder && final(connection)@.pending == t.rest,
                    None => t.step is None && final(self)@ == t.decoder && final(connection)@.pending == t.rest && (t.rest.len() < old(connection)@.pending.len() || (
                    t.rest.len() == old(connection)@.pending.len() && rank(t.decoder) < rank(
                        old(self)@,
                    ))),
                }
            }),
    {
        proof {
            use_type_invariant(&*self);
        }
        match self.state {
            DecoderState::Complete => Some(BodyStep::Complete),
            DecoderState::Fixed { remaining } => {
                if remaining == 0 {
                    proof {
                        weight::lemma_nothing();
                    }
                    self.state = DecoderState::Complete;
                    return None;
                }
                Some(self.take_data(connection, remaining))
            },
            DecoderState::ChunkData { remaining } => Some(self.take_data(connection, remaining)),
            DecoderState::ChunkSize => self.take_size(connection),
            DecoderState::ChunkDataEnd => {
                let available = connection.pending.available();
                if available.len() < 2 {
                    return Some(BodyStep::NeedInput(2 - available.len()));
                }
                if available[0] == 13 && available[1] == 10 {
                    connection.pending.consume(2);
                    self.state = DecoderState::ChunkSize;
                    return None;
                }
                Some(BodyStep::Failed(IngressError::BadRequest))
            },
            DecoderState::Trailers => self.take_trailer(connection),
        }
    }

    fn take_data(&mut self, connection: &mut Http1Connection, remaining: u64) -> (r: BodyStep)
        requires
            remaining > 0,
            old(self)@.state == (DecoderState::Fixed { remaining }) || old(self)@.state == (
            DecoderState::ChunkData { remaining }),
        ensures
            ({
                let t = data_transition(old(self)@, old(connection)@.pending, remaining);
                &&& t.step == Some(r@)
                &&& !(r is Failed)
                &&& final(self)@ == t.decoder
                &&& final(connection)@ == (ConnectionModel {
                    pending: t.rest,
                    ..old(connection)@
                })
            }),
    {
        proof {
            use_type_invariant(&*self);
        }
        let max: usize = if remaining < REQUEST_BODY_FRAME_LIMIT as u64 {
            remaining as usize
        } else {
            REQUEST_BODY_FRAME_LIMIT
        };
        let n: usize = connection.pending.len();
        if n == 0 {
            return BodyStep::NeedInput(max);
        }
        let count: usize = if max < n {
            max
        } else {
            n
        };
        let data = connection.pending.take(count);
        let left: u64 = remaining - count as u64;
        self.state = match self.state {
            DecoderState::Fixed { .. } => DecoderState::Fixed { remaining: left },
            _ => if left == 0 {
                DecoderState::ChunkDataEnd
            } else {
                DecoderState::ChunkData { remaining: left }
            },
        };
        BodyStep::Frame(BodyFrame::Data(data))
    }

    fn take_size(&mut self, connection: &mut Http1Connection) -> (r: Option<BodyStep>)
        requires
            old(self)@.state is ChunkSize,
        ensures
            ({
                let t = size_transition(old(self)@, old(connection)@.pending);
                &&& final(connection)@ == (ConnectionModel {
                    pending: final(connection)@.pending,
                    ..old(connection)@
                })
                &&& match r {
                    Some(BodyStep::Failed(error)) => t.step == Some(StepModel::Failed(error)),
                    Some(step) => t.step == Some(step@) && final(self)@ == t.decoder && final(connection)@.pending == t.rest,
                    None => t.step is None && final(self)@ == t.decoder && final(connection)@.pending == t.rest && t.rest.len() < old(connection)@.pending.len(),
                }
            }),
    {
        proof {
            use_type_invariant(&*self);
        }
        let available = connection.pending.available();
        let end: usize = find_crlf(available, 0);
        if end >= available.len() {
            if validate_line_endings(available).is_err() || available.len() >= CHUNK_LINE_LIMIT {
                return Some(BodyStep::Failed(IngressError::BadRequest));
            }
            return Some(BodyStep::NeedInput(room(available.len(), CHUNK_LINE_LIMIT)));
        }
        if validate_line_endings(part(available, 0, end + 2)).is_err() || end + 2
            > CHUNK_LINE_LIMIT {
            return Some(BodyStep::Failed(IngressError::BadRequest));
        }
        match parse_chunk_size(part(available, 0, end)) {
            Err(error) => Some(BodyStep::Failed(error)),
            Ok(size) => {
                proof {
                    weight::lemma_nothing();
                }
                connection.pending.consume(end + 2);
                self.state = if size == 0 {
                    DecoderState::Trailers
                } else {
                    DecoderState::ChunkData { remaining: size }
                };
                None
            },
        }
    }

    fn take_trailer(&mut self, connection: &mut Http1Connection) -> (r: Option<BodyStep>)
        requires
            old(self)@.state is Trailers,
        ensures
            ({
                let t = trailer_transition(old(self)@, old(connection)@.pending);
                &&& final(connection)@ == (ConnectionModel {
                    pending: final(connection)@.pending,
                    ..old(connection)@
                })
                &&& match r {
                    Some(BodyStep::Failed(error)) => t.step == Some(StepModel::Failed(error)) || (
                    t.step is None && t.rest.len() < old(connection)@.pending.len() && error
                        == IngressError::BadRequest && old(self)@.trailers.order.len()
                        >= fields::SURE_NAMES),
                    Some(step) => t.step == Some(step@) && final(self)@ == t.decoder && final(connection)@.pending == t.rest,
                    None => t.step is None && final(self)@ == t.decoder && final(connection)@.pending == t.rest && t.rest.len() < old(connection)@.pending.len(),
                }
            }),
    {
        proof {
            use_type_invariant(&*self);
        }
        let available = connection.pending.available();
        let end: usize = find_crlf(available, 0);
        if end >= available.len() {
            if validate_line_endings(available).is_err() {
                return Some(BodyStep::Failed(IngressError::BadRequest));
            }
            if available.len() >= HEADER_SECTION_LIMIT - self.trailer_octets {
                return Some(BodyStep::Failed(IngressError::HeadersTooLarge));
            }
            let max: usize = room(available.len(), HEADER_SECTION_LIMIT - self.trailer_octets);
            return Some(BodyStep::NeedInput(max));
        }
        if validate_line_endings(part(available, 0, end + 2)).is_err() {
            return Some(BodyStep::Failed(IngressError::BadRequest));
        }
        if end + 2 > HEADER_SECTION_LIMIT - self.trailer_octets {
            return Some(BodyStep::Failed(IngressError::HeadersTooLarge));
        }
        if end == 0 {
            if validate_trailers(&self.trailer_headers).is_err() {
                return Some(BodyStep::Failed(IngressError::BadRequest));
            }
            connection.pending.consume(2);
            proof {
                weight::lemma_nothing();
            }
            let mut trailers: HeaderMap = new_map();
            std::mem::swap(&mut trailers, &mut self.trailer_headers);
            self.trailer_octets = self.trailer_octets + 2;
            self.state = DecoderState::Complete;
            let found = crate::fields::keys(&trailers);
            assert(octets::views(found@).len() == found@.len());
            if found.len() == 0 {
                return Some(BodyStep::Complete);
            }
            return Some(BodyStep::Frame(BodyFrame::Trailers(trailers)));
        }
        proof {
            weight::lemma_nothing();
            let line = available@.subrange(0, end as int);
            weight::lemma_field_line(line);
            if let Some((name, value)) = http1::field_line(line) {
                weight::lemma_appended(self@.trailers, name, value);
            }
        }
        let mut trailers: HeaderMap = new_map();
        std::mem::swap(&mut trailers, &mut self.trailer_headers);
        self.trailer_octets = self.trailer_octets + end + 2;
        let appended = append_field_line(&mut trailers, part(available, 0, end));
        std::mem::swap(&mut trailers, &mut self.trailer_headers);
        match appended {
            Err(error) => Some(BodyStep::Failed(error)),
            Ok(_) => {
                connection.pending.consume(end + 2);
                None
            },
        }
    }

    /// Hands out the next piece of the body, or says how many octets may be read for it.
    pub fn next_frame(&mut self, connection: &mut Http1Connection) -> (r: BodyStep)
        ensures
            ({
                let t = decode(old(self)@, old(connection)@.pending);
                match r {
                    BodyStep::Failed(error) => t.step == Some(StepModel::Failed(error)) || (error
                        == IngressError::BadRequest && decode_crowded(
                        old(self)@,
                        old(connection)@.pending,
                    )),
                    _ => t.step == Some(r@) && final(self)@ == t.decoder && final(connection)@ == (
                    ConnectionModel { pending: t.rest, ..old(connection)@ }),
                }
            }),
            final(connection)@ == (ConnectionModel {
                pending: final(connection)@.pending,
                ..old(connection)@
            }),
            decoder_valid(final(self)@),
            decoder_holds(final(self)@),
    {
        loop
            invariant
                decode(old(self)@, old(connection)@.pending) == decode(self@, connection@.pending),
                decode_crowded(self@, connection@.pending) ==> decode_crowded(
                    old(self)@,
                    old(connection)@.pending,
                ),
                connection@ == (ConnectionModel {
                    pending: connection@.pending,
                    ..old(connection)@
                }),
            decreases connection@.pending.len(), rank(self@),
        {
            match self.advance(connection) {
                Some(step) => {
                    proof {
                        use_type_invariant(&*self);
                    }
                    return step;
                },
                None => {},
            }
        }
    }
}

/// What is left of a body when its pieces are thrown away as far as the octets at hand go.
pub open spec fn drained(d: DecoderModel, a: Seq<u8>) -> Transition
    decreases a.len(),
{
    let t = decode(d, a);
    if is_piece(t.step) && t.rest.len() < a.len() {
        drained(t.decoder, t.rest)
    } else {
        t
    }
}

/// A step that hands out a piece of a body.
pub open spec fn is_piece(step: Option<StepModel>) -> bool {
    match step {
        Some(StepModel::Data(_)) | Some(StepModel::Trailers(_)) => true,
        _ => false,
    }
}

/// On the way, a trailer line meets a map with more names than it is sure to hold.
pub open spec fn drained_crowded(d: DecoderModel, a: Seq<u8>) -> bool
    decreases a.len(),
{
    let t = decode(d, a);
    decode_crowded(d, a) || (is_piece(t.step) && t.rest.len() < a.len() && drained_crowded(
        t.decoder,
        t.rest,
    ))
}

/// A piece uses octets up.
pub proof fn lemma_decode_progress(d: DecoderModel, a: Seq<u8>)
    requires
        decoder_valid(d),
    ensures
        decode(d, a).rest.len() <= a.len(),
        is_piece(decode(d, a).step) ==> decode(d, a).rest.len() < a.len(),
    decreases a.len(), rank(d),
{
    let t = transition(d, a);
    http1::lemma_crlf_at(a, 0);
    if t.step is None && (t.rest.len() < a.len() || (t.rest.len() == a.len() && rank(t.decoder)
        < rank(d))) {
        lemma_decode_progress(t.decoder, t.rest);
    }
}

impl BodyDecoder {
    /// Throws the rest of a body away, as far as the octets at hand go.
    pub fn drain(&mut self, connection: &mut Http1Connection) -> (r: BodyStep)
        ensures
            ({
                let t = drained(old(self)@, old(connection)@.pending);
                match r {
                    BodyStep::Failed(error) => t.step == Some(StepModel::Failed(error)) || (error
                        == IngressError::BadRequest && drained_crowded(
                        old(self)@,
                        old(connection)@.pending,
                    )),
                    _ => t.step == Some(r@) && !(r is Frame) && final(self)@ == t.decoder
                        && final(connection)@ == (ConnectionModel {
                        pending: t.rest,
                        ..old(connection)@
                    }),
                }
            }),
    {
        loop
            invariant
                drained(old(self)@, old(connection)@.pending) == drained(
                    self@,
                    connection@.pending,
                ),
                drained_crowded(self@, connection@.pending) ==> drained_crowded(
                    old(self)@,
                    old(connection)@.pending,
                ),
                connection@ == (ConnectionModel {
                    pending: connection@.pending,
                    ..old(connection)@
                }),
            decreases connection@.pending.len(),
        {
            proof {
                use_type_invariant(&*self);
                lemma_decode_progress(self@, connection@.pending);
            }
            match self.next_frame(connection) {
                BodyStep::Frame(_) => {},
                step => {
                    return step;
                },
            }
        }
    }
}

} // verus!
