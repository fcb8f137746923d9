//! Laws of response framing: what an origin stream delivers does not depend on how its octets arrive
//! in parts, and a body of announced length is exactly its octets.
use crate::connect::origin_body;
use crate::connect::origin_body::{
    OriginDecoderModel, OriginState, OriginStepModel, OriginTransition,
};
use crate::fields;
use crate::fields::Fields;
use crate::headers;
use crate::server::framing;
use crate::server::http1;
use crate::server::http1::{
    APPLICATION_BUFFER_LIMIT, CHUNK_PREFIX_LIMIT, HEADER_SECTION_LIMIT, REQUEST_LINE_LIMIT,
    RESPONSE_BODY_FRAME_LIMIT,
};
use crate::server::ingress;
use crate::weight;
use vstd::prelude::*;

verus! {

/// The decoder's counters are in range.
pub open spec fn origin_valid(d: OriginDecoderModel) -> bool {
    &&& d.octets <= HEADER_SECTION_LIMIT
    &&& d.state matches OriginState::ChunkData { remaining } ==> remaining > 0
}

/// A step that hands out a piece of a body.
pub open spec fn is_origin_piece(step: Option<OriginStepModel>) -> bool {
    match step {
        Some(OriginStepModel::Data(_)) | Some(OriginStepModel::Trailers(_)) => true,
        _ => false,
    }
}

/// What is left of a body when its pieces are taken as far as the octets at hand go.
pub open spec fn origin_drained(d: OriginDecoderModel, a: Seq<u8>) -> OriginTransition
    decreases a.len(),
{
    let t = origin_body::origin_decode(d, a);
    if is_origin_piece(t.step) && t.rest.len() < a.len() {
        origin_drained(t.decoder, t.rest)
    } else {
        t
    }
}

/// A piece uses octets up.
proof fn lemma_decode_progress(d: OriginDecoderModel, a: Seq<u8>)
    requires
        origin_valid(d),
    ensures
        origin_body::origin_decode(d, a).rest.len() <= a.len(),
        is_origin_piece(origin_body::origin_decode(d, a).step) ==> origin_body::origin_decode(
            d,
            a,
        ).rest.len() < a.len(),
    decreases a.len(), origin_body::origin_rank(d),
{
    let t = origin_body::origin_transition(d, a);
    http1::lemma_crlf_at(a, 0);
    if t.step is None && (t.rest.len() < a.len() || (t.rest.len() == a.len()
        && origin_body::origin_rank(t.decoder) < origin_body::origin_rank(d))) {
        lemma_decode_progress(t.decoder, t.rest);
    }
}

/// The data that a decoder hands out in all on the octets at hand.
pub open spec fn origin_data(d: OriginDecoderModel, a: Seq<u8>) -> Seq<u8>
    decreases a.len(),
{
    let t = origin_body::origin_decode(d, a);
    if is_origin_piece(t.step) && t.rest.len() < a.len() {
        piece_data(t.step) + origin_data(t.decoder, t.rest)
    } else {
        Seq::empty()
    }
}

pub open spec fn piece_data(step: Option<OriginStepModel>) -> Seq<u8> {
    match step {
        Some(OriginStepModel::Data(data)) => data,
        _ => Seq::empty(),
    }
}

/// The trailers that a decoder hands out on the octets at hand.
pub open spec fn origin_trailers(d: OriginDecoderModel, a: Seq<u8>) -> Seq<Fields>
    decreases a.len(),
{
    let t = origin_body::origin_decode(d, a);
    if is_origin_piece(t.step) && t.rest.len() < a.len() {
        piece_trailers(t.step) + origin_trailers(t.decoder, t.rest)
    } else {
        Seq::empty()
    }
}

pub open spec fn piece_trailers(step: Option<OriginStepModel>) -> Seq<Fields> {
    match step {
        Some(OriginStepModel::Trailers(f)) => seq![f],
        _ => Seq::empty(),
    }
}

/// The transition hands nothing out and comes closer to the end.
spec fn moves(d: OriginDecoderModel, a: Seq<u8>) -> bool {
    let t = origin_body::origin_transition(d, a);
    t.step is None && (t.rest.len() < a.len() || (t.rest.len() == a.len() && origin_body::origin_rank(
        t.decoder,
    ) < origin_body::origin_rank(d)))
}

proof fn lemma_transition_valid(d: OriginDecoderModel, a: Seq<u8>)
    requires
        origin_valid(d),
    ensures
        origin_valid(origin_body::origin_transition(d, a).decoder),
        origin_body::origin_transition(d, a).rest.len() <= a.len(),
        origin_body::origin_transition(d, a).step is None ==> moves(d, a),
        is_origin_piece(origin_body::origin_transition(d, a).step) ==> origin_body::origin_transition(d, a).rest.len()
            < a.len(),
{
    http1::lemma_crlf_at(a, 0);
}

/// A transition on the way or one that hands a piece out: what is delivered from here is what it
/// hands out and then what is delivered from there.
proof fn lemma_unfold(d: OriginDecoderModel, a: Seq<u8>)
    requires
        origin_valid(d),
    ensures
        ({
            let t = origin_body::origin_transition(d, a);
            t.step is None || is_origin_piece(t.step) ==> {
                &&& origin_drained(d, a) == origin_drained(t.decoder, t.rest)
                &&& origin_data(d, a) == piece_data(t.step) + origin_data(t.decoder, t.rest)
                &&& origin_trailers(d, a) == piece_trailers(t.step) + origin_trailers(
                    t.decoder,
                    t.rest,
                )
            }
        }),
        ({
            let t = origin_body::origin_transition(d, a);
            !(t.step is None || is_origin_piece(t.step)) ==> {
                &&& origin_drained(d, a) == t
                &&& origin_data(d, a) == Seq::<u8>::empty()
                &&& origin_trailers(d, a) == Seq::<Fields>::empty()
            }
        }),
{
    let t = origin_body::origin_transition(d, a);
    lemma_transition_valid(d, a);
    if t.step is None {
        lemma_decode_progress(d, a);
        lemma_decode_progress(t.decoder, t.rest);
        assert(origin_body::origin_decode(d, a) == origin_body::origin_decode(t.decoder, t.rest));
        assert(piece_data(t.step) + origin_data(t.decoder, t.rest) =~= origin_data(t.decoder, t.rest));
        assert(piece_trailers(t.step) + origin_trailers(t.decoder, t.rest)
            =~= origin_trailers(t.decoder, t.rest));
    }
}

/// The decoder waits for data.
spec fn in_data(d: OriginDecoderModel) -> bool {
    ||| d.state matches OriginState::Fixed { remaining } && remaining > 0
    ||| d.state is ChunkData
    ||| d.state is CloseDelimited
}

/// How many of the next octets are data.
spec fn data_among(d: OriginDecoderModel, count: nat) -> nat {
    match d.state {
        OriginState::Fixed { remaining } => ingress::least(remaining as nat, count),
        OriginState::ChunkData { remaining } => ingress::least(remaining as nat, count),
        OriginState::CloseDelimited => count,
        _ => 0,
    }
}

/// The decoder once so much of the data was handed out.
spec fn after_data(d: OriginDecoderModel, count: nat) -> OriginDecoderModel {
    OriginDecoderModel {
        state: match d.state {
            OriginState::Fixed { remaining } => OriginState::Fixed {
                remaining: (remaining - count) as u64,
            },
            OriginState::ChunkData { remaining } => if remaining == count {
                OriginState::ChunkDataEnd
            } else {
                OriginState::ChunkData { remaining: (remaining - count) as u64 }
            },
            other => other,
        },
        ..d
    }
}

/// Where data is cut does not matter to what is delivered in all.
proof fn lemma_data_cut(d: OriginDecoderModel, s: Seq<u8>, k: nat)
    requires
        origin_valid(d),
        in_data(d),
        0 < k <= s.len(),
        k <= data_among(d, s.len()),
    ensures
        ({
            let next = after_data(d, k);
            let rest = s.subrange(k as int, s.len() as int);
            &&& origin_drained(d, s) == origin_drained(next, rest)
            &&& origin_data(d, s) == s.subrange(0, k as int) + origin_data(next, rest)
            &&& origin_trailers(d, s) == origin_trailers(next, rest)
        }),
    decreases s.len(),
{
    let t = origin_body::origin_transition(d, s);
    let c = ingress::least(data_among(d, s.len()), RESPONSE_BODY_FRAME_LIMIT as nat);
    let next = after_data(d, k);
    let rest = s.subrange(k as int, s.len() as int);
    lemma_data_step(d, s);
    if k < c {
        let m = (c - k) as nat;
        lemma_data_cut(next, rest, m);
        assert(after_data(next, m) == t.decoder);
        assert(rest.subrange(m as int, rest.len() as int) =~= t.rest);
        lemma_cut_joined(s, k as int, c as int, origin_data(t.decoder, t.rest));
    } else if k > c {
        let m = (k - c) as nat;
        lemma_data_cut(t.decoder, t.rest, m);
        assert(after_data(t.decoder, m) == next);
        assert(t.rest.subrange(m as int, t.rest.len() as int) =~= rest);
        lemma_cut_joined(s, c as int, k as int, origin_data(next, rest));
    }
}

/// One frame of data is handed out, as large as it can be.
proof fn lemma_data_step(d: OriginDecoderModel, s: Seq<u8>)
    requires
        origin_valid(d),
        in_data(d),
        s.len() > 0,
    ensures
        ({
            let c = ingress::least(data_among(d, s.len()), RESPONSE_BODY_FRAME_LIMIT as nat);
            let next = after_data(d, c);
            let rest = s.subrange(c as int, s.len() as int);
            &&& origin_body::origin_transition(d, s).decoder == next
            &&& origin_body::origin_transition(d, s).rest == rest
            &&& origin_valid(next)
            &&& origin_drained(d, s) == origin_drained(next, rest)
            &&& origin_data(d, s) == s.subrange(0, c as int) + origin_data(next, rest)
            &&& origin_trailers(d, s) == origin_trailers(next, rest)
        }),
{
    let t = origin_body::origin_transition(d, s);
    lemma_unfold(d, s);
    lemma_transition_valid(d, s);
    assert(piece_trailers(t.step) + origin_trailers(t.decoder, t.rest) =~= origin_trailers(
        t.decoder,
        t.rest,
    ));
}

/// A front that is cut once more is the same front.
proof fn lemma_cut_joined(s: Seq<u8>, i: int, j: int, after: Seq<u8>)
    requires
        0 <= i <= j <= s.len(),
    ensures
        s.subrange(0, i) + (s.subrange(i, s.len() as int).subrange(0, j - i) + after)
            == s.subrange(0, j) + after,
{
    assert(s.subrange(0, i) + (s.subrange(i, s.len() as int).subrange(0, j - i) + after)
        =~= s.subrange(0, j) + after);
}

/// What a transition outside data does, it does whatever follows. One that waits may do anything
/// when more comes; one that fails still fails.
proof fn lemma_transition_extends(d: OriginDecoderModel, a: Seq<u8>, b: Seq<u8>)
    requires
        origin_valid(d),
        !in_data(d),
    ensures
        ({
            let t = origin_body::origin_transition(d, a);
            let u = origin_body::origin_transition(d, a + b);
            match t.step {
                Some(OriginStepModel::NeedInput(_)) => true,
                Some(OriginStepModel::Failed(_)) => u.step is Some && u.step->0 is Failed,
                _ => u == (OriginTransition { rest: t.rest + b, ..t }),
            }
        }),
{
    let s = a + b;
    let t = origin_body::origin_transition(d, a);
    let at = http1::crlf_at(a, 0);
    let end = http1::crlf_at(s, 0);
    http1::lemma_crlf_at(a, 0);
    http1::lemma_crlf_at(s, 0);
    framing::lemma_crlf_extends(a, b, 0);
    if d.state is ChunkSize || d.state is Trailers {
        if at < a.len() {
            assert(a.subrange(0, at + 2) =~= s.subrange(0, at + 2));
            assert(a.subrange(0, at) =~= s.subrange(0, at));
            assert(a.subrange(at + 2, a.len() as int) + b =~= s.subrange(at + 2, s.len() as int));
        } else if !http1::line_endings_paired(a) {
            framing::lemma_unpaired_extends(a, b);
            if end < s.len() {
                let tail = s.subrange(a.len() as int, end + 2);
                framing::lemma_unpaired_extends(a, tail);
                assert(a + tail =~= s.subrange(0, end + 2));
            }
        }
    } else if d.state is ChunkDataEnd {
        if a.len() >= 2 {
            assert(a.subrange(2, a.len() as int) + b =~= s.subrange(2, s.len() as int));
        }
    }
}

/// Reading on with what follows, after all at hand was read, is as reading it all at once.
pub open spec fn origin_reads_on(d: OriginDecoderModel, a: Seq<u8>, b: Seq<u8>) -> bool {
    let t = origin_drained(d, a);
    match t.step {
        Some(OriginStepModel::NeedInput(_)) => {
            &&& origin_drained(d, a + b) == origin_drained(t.decoder, t.rest + b)
            &&& origin_data(d, a + b) == origin_data(d, a) + origin_data(t.decoder, t.rest + b)
            &&& origin_trailers(d, a + b) == origin_trailers(d, a) + origin_trailers(
                t.decoder,
                t.rest + b,
            )
        },
        Some(OriginStepModel::Complete) => {
            &&& origin_drained(d, a + b).step == t.step
            &&& origin_drained(d, a + b).rest == t.rest + b
            &&& origin_data(d, a + b) == origin_data(d, a)
            &&& origin_trailers(d, a + b) == origin_trailers(d, a)
        },
        Some(OriginStepModel::Failed(_)) => {
            &&& origin_drained(d, a + b).step is Some
            &&& origin_drained(d, a + b).step->0 is Failed
            &&& origin_data(d, a + b) == origin_data(d, a)
            &&& origin_trailers(d, a + b) == origin_trailers(d, a)
        },
        _ => false,
    }
}

/// Two states, the second reached from the first on either reading with the same pieces on the way.
proof fn lemma_reads_on_from(
    d: OriginDecoderModel,
    a: Seq<u8>,
    b: Seq<u8>,
    next: OriginDecoderModel,
    rest: Seq<u8>,
    data: Seq<u8>,
    trailers: Seq<Fields>,
)
    requires
        origin_reads_on(next, rest, b),
        origin_drained(d, a) == origin_drained(next, rest),
        origin_drained(d, a + b) == origin_drained(next, rest + b),
        origin_data(d, a) == data + origin_data(next, rest),
        origin_data(d, a + b) == data + origin_data(next, rest + b),
        origin_trailers(d, a) == trailers + origin_trailers(next, rest),
        origin_trailers(d, a + b) == trailers + origin_trailers(next, rest + b),
    ensures
        origin_reads_on(d, a, b),
{
    let e = origin_drained(d, a);
    let x = origin_data(next, rest);
    let y = origin_data(e.decoder, e.rest + b);
    assert(data + (x + y) =~= (data + x) + y);
    let f = origin_trailers(next, rest);
    let g = origin_trailers(e.decoder, e.rest + b);
    assert(trailers + (f + g) =~= (trailers + f) + g);
}

/// A transition that hands nothing out and uses nothing up ends the reading for now.
proof fn lemma_reads_on_here(d: OriginDecoderModel, a: Seq<u8>, b: Seq<u8>)
    requires
        origin_valid(d),
        !(in_data(d) && a.len() > 0),
        ({
            let t = origin_body::origin_transition(d, a);
            !(t.step is None || is_origin_piece(t.step))
        }),
        origin_drained(d, a).decoder == d,
        origin_drained(d, a).rest == a,
    ensures
        origin_reads_on(d, a, b),
{
    lemma_unfold(d, a);
    lemma_unfold(d, a + b);
    if !in_data(d) {
        lemma_transition_extends(d, a, b);
    }
    assert(Seq::<u8>::empty() + origin_data(d, a + b) =~= origin_data(d, a + b));
    assert(Seq::<Fields>::empty() + origin_trailers(d, a + b) =~= origin_trailers(d, a + b));
}

/// Data that is at hand is handed out, and the reading goes on behind it.
#[verifier::rlimit(40)]
proof fn lemma_reads_on_in_data(d: OriginDecoderModel, a: Seq<u8>, b: Seq<u8>)
    requires
        origin_valid(d),
        in_data(d),
        a.len() > 0,
        origin_reads_on(origin_body::origin_transition(d, a).decoder, origin_body::origin_transition(d, a).rest, b),
    ensures
        origin_reads_on(d, a, b),
{
    let s = a + b;
    let t = origin_body::origin_transition(d, a);
    let c = ingress::least(data_among(d, a.len()), RESPONSE_BODY_FRAME_LIMIT as nat);
    lemma_data_step(d, a);
    lemma_data_cut(d, a, c);
    lemma_data_cut(d, s, c);
    assert(s.subrange(c as int, s.len() as int) =~= t.rest + b);
    assert(s.subrange(0, c as int) =~= a.subrange(0, c as int));
    let none = Seq::<Fields>::empty();
    assert(none + origin_trailers(t.decoder, t.rest) =~= origin_trailers(t.decoder, t.rest));
    assert(none + origin_trailers(t.decoder, t.rest + b) =~= origin_trailers(
        t.decoder,
        t.rest + b,
    ));
    lemma_reads_on_from(d, a, b, t.decoder, t.rest, a.subrange(0, c as int), none);
}

/// A transition outside data that hands something out, or goes on by itself.
#[verifier::rlimit(40)]
proof fn lemma_reads_on_after(d: OriginDecoderModel, a: Seq<u8>, b: Seq<u8>)
    requires
        origin_valid(d),
        !in_data(d),
        origin_body::origin_transition(d, a).step is None || is_origin_piece(origin_body::origin_transition(d, a).step),
        origin_reads_on(origin_body::origin_transition(d, a).decoder, origin_body::origin_transition(d, a).rest, b),
    ensures
        origin_reads_on(d, a, b),
{
    let t = origin_body::origin_transition(d, a);
    lemma_unfold(d, a);
    lemma_unfold(d, a + b);
    lemma_transition_extends(d, a, b);
    lemma_reads_on_from(
        d,
        a,
        b,
        t.decoder,
        t.rest,
        piece_data(t.step),
        piece_trailers(t.step),
    );
}

/// A body that is complete behind its trailers stays complete.
#[verifier::rlimit(40)]
proof fn lemma_reads_on_complete(d: OriginDecoderModel, a: Seq<u8>, b: Seq<u8>)
    requires
        origin_valid(d),
        d.state is Trailers,
        origin_body::origin_transition(d, a).step == Some(OriginStepModel::Complete),
    ensures
        origin_reads_on(d, a, b),
{
    lemma_unfold(d, a);
    lemma_unfold(d, a + b);
    lemma_transition_extends(d, a, b);
}

/// A response body reads the same in parts as in one piece: when the octets at hand are used up and more are
/// needed, reading on with what follows delivers the rest and ends as reading it all at once; a body
/// that is complete stays so, and what follows it is left; a refused body stays refused.
pub proof fn a_response_body_reads_the_same_in_parts(d: OriginDecoderModel, a: Seq<u8>, b: Seq<u8>)
    requires
        origin_valid(d),
    ensures
        origin_reads_on(d, a, b),
    decreases a.len(), origin_body::origin_rank(d),
{
    let t = origin_body::origin_transition(d, a);
    lemma_transition_valid(d, a);
    if in_data(d) && a.len() > 0 {
        a_response_body_reads_the_same_in_parts(t.decoder, t.rest, b);
        lemma_reads_on_in_data(d, a, b);
    } else if t.step is None || is_origin_piece(t.step) {
        a_response_body_reads_the_same_in_parts(t.decoder, t.rest, b);
        lemma_reads_on_after(d, a, b);
    } else if d.state is Trailers && t.step == Some(OriginStepModel::Complete) {
        lemma_reads_on_complete(d, a, b);
    } else {
        lemma_unfold(d, a);
        lemma_reads_on_here(d, a, b);
    }
}

/// Once a response head is complete, or can no longer become one, more octets do not change that.
pub proof fn a_response_head_is_found_whatever_follows(a: Seq<u8>, b: Seq<u8>)
    ensures
        origin_body::origin_scan(a) is Complete ==> origin_body::origin_scan(a + b)
            == origin_body::origin_scan(a),
        origin_body::origin_scan(a) is Failed ==> origin_body::origin_scan(a + b) is Failed,
{
    let s = a + b;
    let at = http1::crlf_at(a, 0);
    let end = http1::crlf_at(s, 0);
    http1::lemma_crlf_at(a, 0);
    http1::lemma_crlf_at(s, 0);
    framing::lemma_crlf_extends(a, b, 0);
    if at >= a.len() {
        if !http1::line_endings_paired(a) {
            framing::lemma_unpaired_extends(a, b);
            if end < s.len() {
                let tail = s.subrange(a.len() as int, end + 2);
                framing::lemma_unpaired_extends(a, tail);
                assert(a + tail =~= s.subrange(0, end + 2));
            }
        }
    } else {
        let line_len = at + 2;
        assert(a.subrange(0, line_len) =~= s.subrange(0, line_len));
        framing::lemma_blank_extends(a, b, line_len);
        framing::lemma_blank_extends(s, Seq::empty(), line_len);
        match (http1::head_end(a, line_len), http1::head_end(s, line_len)) {
            (Some(stop), _) => {
                assert(http1::head_end(s, line_len) == Some(stop));
                assert(a.subrange(0, stop) =~= s.subrange(0, stop));
            },
            (None, Some(stop)) => {
                assert(stop > a.len());
                if !http1::line_endings_paired(a) {
                    let tail = s.subrange(a.len() as int, stop);
                    framing::lemma_unpaired_extends(a, tail);
                    assert(a + tail =~= s.subrange(0, stop));
                }
            },
            (None, None) => {
                if !http1::line_endings_paired(a) {
                    framing::lemma_unpaired_extends(a, b);
                }
            },
        }
    }
}

/// What a decoder holds of the trailers weighs less than the lines that it read, and before and
/// after the trailers it holds nothing.
pub open spec fn origin_holds(d: OriginDecoderModel) -> bool {
    &&& weight::ordered(d.trailers)
    &&& if d.state is Trailers {
        weight::weight(d.trailers) <= d.octets
    } else {
        d.trailers == fields::no_fields()
    }
}

/// What is buffered for a decoder is no more than reading within the room that it announced leaves.
pub open spec fn origin_room_kept(d: OriginDecoderModel, pending: Seq<u8>) -> bool {
    match d.state {
        OriginState::Trailers | OriginState::Complete => d.octets + pending.len()
            <= HEADER_SECTION_LIMIT,
        OriginState::Fixed { remaining } | OriginState::ChunkData { remaining } => d.octets == 0 && (
        pending.len() <= REQUEST_LINE_LIMIT || pending.len() <= ingress::least(
            remaining as nat,
            RESPONSE_BODY_FRAME_LIMIT as nat,
        )),
        OriginState::CloseDelimited => d.octets == 0 && pending.len() <= RESPONSE_BODY_FRAME_LIMIT,
        _ => d.octets == 0 && pending.len() <= REQUEST_LINE_LIMIT,
    }
}

proof fn lemma_transition_holds(d: OriginDecoderModel, a: Seq<u8>)
    requires
        origin_valid(d),
        origin_holds(d),
    ensures
        origin_holds(origin_body::origin_transition(d, a).decoder),
        match origin_body::origin_transition(d, a).step {
            Some(OriginStepModel::Trailers(f)) => d.state is Trailers && weight::weight(f)
                <= d.octets,
            _ => true,
        },
{
    weight::lemma_nothing();
    http1::lemma_crlf_at(a, 0);
    if d.state is Trailers {
        let end = http1::crlf_at(a, 0);
        if end == 0 && headers::nominations_of(d.trailers) is Some {
            let nominated = headers::nominations_of(d.trailers)->0;
            weight::lemma_sanitized(d.trailers, nominated);
            weight::lemma_removed_all(
                headers::sanitized(d.trailers, nominated),
                headers::lower_all(d.nominations),
            );
        } else if 0 < end < a.len() {
            let line = a.subrange(0, end);
            weight::lemma_field_line(line);
            match http1::field_line(line) {
                Some((name, value)) => {
                    weight::lemma_appended(d.trailers, name, value);
                },
                None => {},
            }
        }
    }
}

/// One exchange holds no more than its limit of a response body: as long as no more is read than the
/// decoder asks for, what is buffered, what the decoder keeps of the trailers, and the frame that it
/// hands out with the octets that frame it stay within the limit together.
pub proof fn a_response_stays_within_its_buffer(d: OriginDecoderModel, a: Seq<u8>, more: Seq<u8>)
    requires
        origin_valid(d),
        origin_holds(d),
        origin_room_kept(d, a),
    ensures
        ({
            let t = origin_body::origin_decode(d, a);
            &&& origin_valid(t.decoder)
            &&& origin_holds(t.decoder)
            &&& weight::weight(t.decoder.trailers) + t.rest.len() <= APPLICATION_BUFFER_LIMIT
            &&& match t.step {
                Some(OriginStepModel::NeedInput(max)) => more.len() <= max ==> origin_room_kept(
                    t.decoder,
                    t.rest + more,
                ),
                Some(OriginStepModel::Data(data)) => data.len() + CHUNK_PREFIX_LIMIT + t.rest.len()
                    <= APPLICATION_BUFFER_LIMIT && origin_room_kept(t.decoder, t.rest),
                Some(OriginStepModel::Trailers(f)) => weight::weight(f) + t.rest.len()
                    <= APPLICATION_BUFFER_LIMIT && origin_room_kept(t.decoder, t.rest),
                Some(OriginStepModel::Complete) => origin_room_kept(t.decoder, t.rest),
                _ => true,
            }
        }),
    decreases a.len(), origin_body::origin_rank(d),
{
    let t = origin_body::origin_transition(d, a);
    http1::lemma_crlf_at(a, 0);
    weight::lemma_nothing();
    lemma_transition_valid(d, a);
    lemma_transition_holds(d, a);
    if moves(d, a) {
        a_response_stays_within_its_buffer(t.decoder, t.rest, more);
    }
}

/// A decoder for a body of so many octets.
pub open spec fn fixed_decoder(n: u64, nominations: Seq<Seq<u8>>) -> OriginDecoderModel {
    OriginDecoderModel {
        state: origin_body::initial_origin_state(http1::OriginBodyFraming::ContentLength(n)),
        nominations,
        trailers: fields::no_fields(),
        octets: 0,
    }
}

/// A response of announced length delivers exactly its octets. Where enough are at hand, the data is
/// the first of them, the body is complete, and the rest stays unread. Where too few are at hand, all
/// of them are data and the body waits, so that the end of the stream leaves it incomplete.
pub proof fn a_fixed_response_is_its_octets(n: u64, nominations: Seq<Seq<u8>>, b: Seq<u8>)
    ensures
        ({
            let d = fixed_decoder(n, nominations);
            let t = origin_drained(d, b);
            &&& origin_trailers(d, b) == Seq::<Fields>::empty()
            &&& b.len() >= n ==> {
                &&& origin_data(d, b) == b.subrange(0, n as int)
                &&& t.step == Some(OriginStepModel::Complete)
                &&& t.rest == b.subrange(n as int, b.len() as int)
            }
            &&& b.len() < n ==> {
                &&& origin_data(d, b) == b
                &&& t.step matches Some(OriginStepModel::NeedInput(_))
                &&& t.rest == Seq::<u8>::empty()
                &&& t.decoder.state == (OriginState::Fixed { remaining: (n - b.len()) as u64 })
            }
        }),
{
    let d = fixed_decoder(n, nominations);
    let k = ingress::least(n as nat, b.len());
    let rest = b.subrange(k as int, b.len() as int);
    if k == 0 {
        assert(rest =~= b);
        lemma_fixed_rest(d, b);
    } else {
        lemma_data_cut(d, b, k);
        lemma_fixed_rest(after_data(d, k), rest);
        assert(b.subrange(0, k as int) + Seq::<u8>::empty() =~= b.subrange(0, k as int));
    }
    assert(b.subrange(0, b.len() as int) =~= b);
    if b.len() < n {
        assert(rest =~= Seq::empty());
    }
}

/// A body of announced length with nothing left, or with nothing at hand.
proof fn lemma_fixed_rest(d: OriginDecoderModel, a: Seq<u8>)
    requires
        origin_valid(d),
        d.state matches OriginState::Fixed { remaining } && (remaining == 0 || a.len() == 0),
    ensures
        origin_data(d, a) == Seq::<u8>::empty(),
        origin_trailers(d, a) == Seq::<Fields>::empty(),
        origin_drained(d, a).rest == a,
        d.state == (OriginState::Fixed { remaining: 0 }) ==> origin_drained(d, a).step == Some(
            OriginStepModel::Complete,
        ),
        d.state != (OriginState::Fixed { remaining: 0 }) ==> origin_drained(d, a).decoder == d && (
        origin_drained(d, a).step matches Some(OriginStepModel::NeedInput(_))),
{
    let t = origin_body::origin_transition(d, a);
    lemma_unfold(d, a);
    if t.step is None {
        lemma_unfold(t.decoder, a);
        assert(Seq::<u8>::empty() + Seq::<u8>::empty() =~= Seq::<u8>::empty());
        assert(Seq::<Fields>::empty() + Seq::<Fields>::empty() =~= Seq::<Fields>::empty());
    }
}

/// A decoder and the octets that came from the origin and are not used yet.
pub struct Reading {
    pub decoder: OriginDecoderModel,
    pub pending: Seq<u8>,
}

/// What may happen next while a response body is read.
pub enum ReadStep {
    /// Octets come from the origin.
    Arrive(Seq<u8>),
    /// The decoder hands out the next frame, asks for octets, or is complete.
    Next(OriginStepModel),
}

/// One step, as the decoder makes it.
pub open spec fn reads(s: Reading, step: ReadStep, n: Reading) -> bool {
    match step {
        ReadStep::Arrive(more) => n == (Reading { pending: s.pending + more, ..s }),
        ReadStep::Next(r) => {
            let t = origin_body::origin_decode(s.decoder, s.pending);
            t.step == Some(r) && n == (Reading { decoder: t.decoder, pending: t.rest })
        },
    }
}

/// Where a run has led.
pub open spec fn read_to(s: Reading, run: Seq<(ReadStep, Reading)>) -> Reading {
    if run.len() == 0 {
        s
    } else {
        run.last().1
    }
}

/// Every step of a run is one that may happen.
pub open spec fn is_reading(s: Reading, run: Seq<(ReadStep, Reading)>) -> bool
    decreases run.len(),
{
    run.len() == 0 || {
        let before = run.drop_last();
        is_reading(s, before) && reads(read_to(s, before), run.last().0, run.last().1)
    }
}

/// The octets that came from the origin in a run.
pub open spec fn came(s: Reading, run: Seq<(ReadStep, Reading)>) -> Seq<u8>
    decreases run.len(),
{
    if run.len() == 0 {
        s.pending
    } else {
        match run.last().0 {
            ReadStep::Arrive(more) => came(s, run.drop_last()) + more,
            _ => came(s, run.drop_last()),
        }
    }
}

/// The data that was handed out in a run.
pub open spec fn handed_out(run: Seq<(ReadStep, Reading)>) -> Seq<u8>
    decreases run.len(),
{
    if run.len() == 0 {
        Seq::empty()
    } else {
        match run.last().0 {
            ReadStep::Next(r) => handed_out(run.drop_last()) + piece_data(Some(r)),
            _ => handed_out(run.drop_last()),
        }
    }
}

/// A response of announced length, however its octets arrive: what is handed out is the front of
/// what came, never more than announced, and the rest is unread. Each step hands out data that is
/// not empty and fits in a frame, asks for octets only where all that came is handed out and more is
/// announced, or is complete with all that was announced; it does not fail, and once complete it
/// stays so.
pub proof fn a_fixed_response_is_read_exactly(
    n: u64,
    nominations: Seq<Seq<u8>>,
    first: Seq<u8>,
    run: Seq<(ReadStep, Reading)>,
)
    requires
        is_reading(Reading { decoder: fixed_decoder(n, nominations), pending: first }, run),
    ensures
        ({
            let s = Reading { decoder: fixed_decoder(n, nominations), pending: first };
            let all = came(s, run);
            let out = handed_out(run);
            let at = read_to(s, run);
            &&& out.len() <= n
            &&& out.len() <= all.len()
            &&& out == all.subrange(0, out.len() as int)
            &&& at.pending == all.subrange(out.len() as int, all.len() as int)
            &&& at.decoder.state == (OriginState::Fixed { remaining: (n - out.len()) as u64 }) || (
            at.decoder.state is Complete && out.len() == n)
            &&& run.len() > 0 ==> match run.last().0 {
                ReadStep::Arrive(_) => true,
                ReadStep::Next(OriginStepModel::Data(data)) => 0 < data.len()
                    <= RESPONSE_BODY_FRAME_LIMIT,
                ReadStep::Next(OriginStepModel::NeedInput(_)) => out == all && all.len() < n,
                ReadStep::Next(OriginStepModel::Complete) => out.len() == n
                    && at.decoder.state is Complete,
                ReadStep::Next(_) => false,
            }
        }),
    decreases run.len(),
{
    let s = Reading { decoder: fixed_decoder(n, nominations), pending: first };
    if run.len() == 0 {
        assert(first.subrange(0, 0) =~= Seq::empty());
        assert(first.subrange(0, first.len() as int) =~= first);
    } else {
        let before = run.drop_last();
        a_fixed_response_is_read_exactly(n, nominations, first, before);
        let m = read_to(s, before);
        let all = came(s, before);
        let out = handed_out(before);
        match run.last().0 {
            ReadStep::Arrive(more) => {
                let now = all + more;
                assert(now.subrange(0, out.len() as int) =~= out);
                assert(now.subrange(out.len() as int, now.len() as int) =~= m.pending + more);
            },
            ReadStep::Next(r) => {
                let t = origin_body::origin_transition(m.decoder, m.pending);
                if m.decoder.state == (OriginState::Fixed { remaining: 0 }) {
                    assert(origin_body::origin_transition(t.decoder, t.rest)
                        == origin_body::origin_stays(
                        t.decoder,
                        t.rest,
                        OriginStepModel::Complete,
                    ));
                    assert(origin_body::origin_decode(t.decoder, t.rest)
                        == origin_body::origin_transition(t.decoder, t.rest));
                } else {
                    assert(origin_body::origin_decode(m.decoder, m.pending) == t);
                }
                match r {
                    OriginStepModel::Data(data) => {
                        let k = (out.len() + data.len()) as int;
                        assert(out + data =~= all.subrange(0, k));
                        assert(m.pending.subrange(data.len() as int, m.pending.len() as int)
                            =~= all.subrange(k, all.len() as int));
                    },
                    _ => {
                        assert(out + piece_data(Some(r)) =~= out);
                        if m.pending.len() == 0 {
                            assert(all =~= out);
                        }
                    },
                }
            },
        }
    }
}

} // verus!
