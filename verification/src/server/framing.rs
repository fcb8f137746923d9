//! Laws of framing: what a connection reads does not depend on how its octets arrive in parts, what is
//! sent in chunks reads back, and what is held stays within its limit.
use crate::connect::forward;
use crate::fields;
use crate::fields::Fields;
use crate::ip;
use crate::octets;
use crate::server::http1;
use crate::server::http1::{
    APPLICATION_BUFFER_LIMIT, CHUNK_PREFIX_LIMIT, HEADER_SECTION_LIMIT, REQUEST_BODY_FRAME_LIMIT,
    REQUEST_LINE_LIMIT,
};
use crate::server::ingress;
use crate::server::ingress::{DecoderModel, DecoderState, StepModel, Transition};
use crate::weight;
use vstd::prelude::*;
use vstd::utf8::*;

verus! {

/// A line ending stays where it is when more octets come. One that was not there is at the end of
/// the old octets or after it.
pub proof fn lemma_crlf_extends(a: Seq<u8>, b: Seq<u8>, from: int)
    requires
        0 <= from <= a.len(),
    ensures
        http1::crlf_at(a, from) < a.len() ==> http1::crlf_at(a + b, from) == http1::crlf_at(
            a,
            from,
        ),
        http1::crlf_at(a, from) >= a.len() ==> http1::crlf_at(a + b, from) >= a.len() - 1,
        http1::crlf_at(a, from) >= a.len() && (a.len() == 0 || a.last() != 13)
            ==> http1::crlf_at(a + b, from) >= a.len(),
    decreases a.len() - from,
{
    let s = a + b;
    http1::lemma_crlf_at(s, from);
    http1::lemma_crlf_at(a, from);
    if from + 1 < a.len() {
        assert(s[from] == a[from] && s[from + 1] == a[from + 1]);
        if !(a[from] == 13 && a[from + 1] == 10) {
            lemma_crlf_extends(a, b, from + 1);
        }
    } else if from + 1 == a.len() {
        assert(s[from] == a.last());
        if from + 1 < s.len() && a.last() != 13 {
            http1::lemma_crlf_at(s, from + 1);
        }
    }
}

/// Line endings that do not come in pairs are not mended by more octets.
pub proof fn lemma_unpaired_extends(a: Seq<u8>, b: Seq<u8>)
    requires
        !http1::line_endings_paired(a),
    ensures
        !http1::line_endings_paired(a + b),
{
    let s = a + b;
    if exists|i: int| 0 <= i < a.len() && #[trigger] a[i] == 10 && !(i > 0 && a[i - 1] == 13) {
        let i = choose|i: int|
            0 <= i < a.len() && #[trigger] a[i] == 10 && !(i > 0 && a[i - 1] == 13);
        assert(s[i] == 10);
        if i > 0 {
            assert(s[i - 1] == a[i - 1]);
        }
    } else {
        let i = choose|i: int| 0 <= i < a.len() - 1 && #[trigger] a[i] == 13 && a[i + 1] != 10;
        assert(s[i] == 13);
        assert(s[i + 1] == a[i + 1]);
    }
}

/// A blank line stays where it is when more octets come. One that was not there ends after the old
/// octets.
pub proof fn lemma_blank_extends(a: Seq<u8>, b: Seq<u8>, from: int)
    requires
        0 <= from <= a.len(),
    ensures
        from <= http1::blank_line_at(a, from),
        http1::blank_line_at(a, from) < a.len() ==> http1::blank_line_at(a, from) + 4 <= a.len(),
        http1::blank_line_at(a, from) < a.len() ==> http1::blank_line_at(a + b, from)
            == http1::blank_line_at(a, from),
        http1::blank_line_at(a, from) >= a.len() ==> http1::blank_line_at(a + b, from) + 4
            > a.len(),
    decreases a.len() - from,
{
    let s = a + b;
    if from + 3 < a.len() {
        assert(s[from] == a[from] && s[from + 1] == a[from + 1] && s[from + 2] == a[from + 2]
            && s[from + 3] == a[from + 3]);
        lemma_blank_extends(a, b, from + 1);
    } else {
        lemma_blank_from(s, from);
    }
}

proof fn lemma_blank_from(s: Seq<u8>, from: int)
    requires
        0 <= from <= s.len(),
    ensures
        from <= http1::blank_line_at(s, from),
    decreases s.len() - from,
{
    if from + 3 < s.len() {
        lemma_blank_from(s, from + 1);
    }
}

/// Once a request head is complete, or can no longer become one, more octets do not change that: the
/// head ends where it ended, and a refused head stays refused.
pub proof fn a_head_is_found_whatever_follows(a: Seq<u8>, b: Seq<u8>)
    ensures
        ingress::head_scan(a) is Complete ==> ingress::head_scan(a + b) == ingress::head_scan(a),
        ingress::head_scan(a) is Failed ==> ingress::head_scan(a + b) is Failed,
{
    let s = a + b;
    let at = http1::crlf_at(a, 0);
    let end = http1::crlf_at(s, 0);
    http1::lemma_crlf_at(a, 0);
    http1::lemma_crlf_at(s, 0);
    lemma_crlf_extends(a, b, 0);
    if at >= a.len() {
        if !http1::line_endings_paired(a) {
            lemma_unpaired_extends(a, b);
            if end < s.len() {
                let tail = s.subrange(a.len() as int, end + 2);
                lemma_unpaired_extends(a, tail);
                assert(a + tail =~= s.subrange(0, end + 2));
            }
        } else if !http1::is_printable(ingress::line_prefix(a)) {
            let p = ingress::line_prefix(a);
            let q = ingress::line_prefix(s);
            let i = choose|i: int| 0 <= i < p.len() && !(32 <= #[trigger] p[i] < 127);
            assert(s[i] == p[i]);
            if i >= q.len() {
                assert(end >= s.len());
                assert(i == s.len() - 1 && s.last() == 13);
                assert(s.len() == a.len());
                assert(false);
            }
            assert(q[i] == p[i]);
        }
    } else {
        let line_len = at + 2;
        assert(a.subrange(0, line_len) =~= s.subrange(0, line_len));
        assert(a.subrange(0, at) =~= s.subrange(0, at));
        if ingress::line_ready(a) {
            lemma_blank_extends(a, b, line_len);
            match http1::head_end(a, line_len) {
                Some(stop) => {
                    assert(http1::head_end(s, line_len) == Some(stop));
                    assert(a.subrange(0, stop) =~= s.subrange(0, stop));
                },
                None => {
                    match http1::head_end(s, line_len) {
                        Some(stop) => {
                            assert(stop > a.len());
                            if !http1::line_endings_paired(a) {
                                lemma_blank_extends(s, Seq::empty(), line_len);
                                let tail = s.subrange(a.len() as int, stop);
                                lemma_unpaired_extends(a, tail);
                                assert(a + tail =~= s.subrange(0, stop));
                            }
                        },
                        None => {
                            if !http1::line_endings_paired(a) {
                                lemma_unpaired_extends(a, b);
                            }
                        },
                    }
                },
            }
        }
    }
}

/// The data that a decoder hands out in all on the octets at hand.
pub open spec fn delivered(d: DecoderModel, a: Seq<u8>) -> Seq<u8>
    decreases a.len(),
{
    let t = ingress::decode(d, a);
    if ingress::is_piece(t.step) && t.rest.len() < a.len() {
        piece_data(t.step) + delivered(t.decoder, t.rest)
    } else {
        Seq::empty()
    }
}

pub open spec fn piece_data(step: Option<StepModel>) -> Seq<u8> {
    match step {
        Some(StepModel::Data(data)) => data,
        _ => Seq::empty(),
    }
}

/// The trailers that a decoder hands out on the octets at hand.
pub open spec fn delivered_trailers(d: DecoderModel, a: Seq<u8>) -> Seq<Fields>
    decreases a.len(),
{
    let t = ingress::decode(d, a);
    if ingress::is_piece(t.step) && t.rest.len() < a.len() {
        piece_trailers(t.step) + delivered_trailers(t.decoder, t.rest)
    } else {
        Seq::empty()
    }
}

pub open spec fn piece_trailers(step: Option<StepModel>) -> Seq<Fields> {
    match step {
        Some(StepModel::Trailers(f)) => seq![f],
        _ => Seq::empty(),
    }
}

/// The transition hands nothing out and comes closer to the end.
spec fn moves(d: DecoderModel, a: Seq<u8>) -> bool {
    let t = ingress::transition(d, a);
    t.step is None && (t.rest.len() < a.len() || (t.rest.len() == a.len() && ingress::rank(
        t.decoder,
    ) < ingress::rank(d)))
}

proof fn lemma_transition_valid(d: DecoderModel, a: Seq<u8>)
    requires
        ingress::decoder_valid(d),
    ensures
        ingress::decoder_valid(ingress::transition(d, a).decoder),
        ingress::transition(d, a).rest.len() <= a.len(),
        ingress::transition(d, a).step is None ==> moves(d, a),
        ingress::is_piece(ingress::transition(d, a).step) ==> ingress::transition(d, a).rest.len()
            < a.len(),
{
    http1::lemma_crlf_at(a, 0);
}

/// A transition on the way or one that hands a piece out: what is delivered from here is what it
/// hands out and then what is delivered from there.
proof fn lemma_unfold(d: DecoderModel, a: Seq<u8>)
    requires
        ingress::decoder_valid(d),
    ensures
        ({
            let t = ingress::transition(d, a);
            t.step is None || ingress::is_piece(t.step) ==> {
                &&& ingress::drained(d, a) == ingress::drained(t.decoder, t.rest)
                &&& delivered(d, a) == piece_data(t.step) + delivered(t.decoder, t.rest)
                &&& delivered_trailers(d, a) == piece_trailers(t.step) + delivered_trailers(
                    t.decoder,
                    t.rest,
                )
            }
        }),
        ({
            let t = ingress::transition(d, a);
            !(t.step is None || ingress::is_piece(t.step)) ==> {
                &&& ingress::drained(d, a) == t
                &&& delivered(d, a) == Seq::<u8>::empty()
                &&& delivered_trailers(d, a) == Seq::<Fields>::empty()
            }
        }),
{
    let t = ingress::transition(d, a);
    lemma_transition_valid(d, a);
    if t.step is None {
        ingress::lemma_decode_progress(d, a);
        ingress::lemma_decode_progress(t.decoder, t.rest);
        assert(ingress::decode(d, a) == ingress::decode(t.decoder, t.rest));
        assert(piece_data(t.step) + delivered(t.decoder, t.rest) =~= delivered(t.decoder, t.rest));
        assert(piece_trailers(t.step) + delivered_trailers(t.decoder, t.rest)
            =~= delivered_trailers(t.decoder, t.rest));
    }
}

/// The decoder waits for data.
spec fn in_data(d: DecoderModel) -> bool {
    d.state matches DecoderState::Fixed { remaining } && remaining > 0 || d.state is ChunkData
}

spec fn data_left(d: DecoderModel) -> nat {
    match d.state {
        DecoderState::Fixed { remaining } => remaining as nat,
        DecoderState::ChunkData { remaining } => remaining as nat,
        _ => 0,
    }
}

/// The decoder once so much of the data was handed out.
spec fn after_data(d: DecoderModel, count: nat) -> DecoderModel {
    let left = (data_left(d) - count) as u64;
    DecoderModel {
        state: match d.state {
            DecoderState::Fixed { .. } => DecoderState::Fixed { remaining: left },
            _ => if left == 0 {
                DecoderState::ChunkDataEnd
            } else {
                DecoderState::ChunkData { remaining: left }
            },
        },
        ..d
    }
}

/// Where data is cut does not matter to what is delivered in all.
proof fn lemma_data_cut(d: DecoderModel, s: Seq<u8>, k: nat)
    requires
        ingress::decoder_valid(d),
        in_data(d),
        0 < k <= s.len(),
        k <= data_left(d),
    ensures
        ({
            let next = after_data(d, k);
            let rest = s.subrange(k as int, s.len() as int);
            &&& ingress::drained(d, s) == ingress::drained(next, rest)
            &&& delivered(d, s) == s.subrange(0, k as int) + delivered(next, rest)
            &&& delivered_trailers(d, s) == delivered_trailers(next, rest)
        }),
    decreases s.len(),
{
    let t = ingress::transition(d, s);
    let c = ingress::least(
        ingress::least(data_left(d), REQUEST_BODY_FRAME_LIMIT as nat),
        s.len(),
    );
    let next = after_data(d, k);
    let rest = s.subrange(k as int, s.len() as int);
    lemma_data_step(d, s);
    if k < c {
        let m = (c - k) as nat;
        lemma_data_cut(next, rest, m);
        assert(after_data(next, m) == t.decoder);
        assert(rest.subrange(m as int, rest.len() as int) =~= t.rest);
        lemma_cut_joined(s, k as int, c as int, delivered(t.decoder, t.rest));
    } else if k > c {
        let m = (k - c) as nat;
        lemma_data_cut(t.decoder, t.rest, m);
        assert(after_data(t.decoder, m) == next);
        assert(t.rest.subrange(m as int, t.rest.len() as int) =~= rest);
        lemma_cut_joined(s, c as int, k as int, delivered(next, rest));
    }
}

/// One frame of data is handed out, as large as it can be.
proof fn lemma_data_step(d: DecoderModel, s: Seq<u8>)
    requires
        ingress::decoder_valid(d),
        in_data(d),
        s.len() > 0,
    ensures
        ({
            let c = ingress::least(
                ingress::least(data_left(d), REQUEST_BODY_FRAME_LIMIT as nat),
                s.len(),
            );
            let next = after_data(d, c);
            let rest = s.subrange(c as int, s.len() as int);
            &&& ingress::transition(d, s).decoder == next
            &&& ingress::transition(d, s).rest == rest
            &&& ingress::decoder_valid(next)
            &&& ingress::drained(d, s) == ingress::drained(next, rest)
            &&& delivered(d, s) == s.subrange(0, c as int) + delivered(next, rest)
            &&& delivered_trailers(d, s) == delivered_trailers(next, rest)
        }),
{
    let t = ingress::transition(d, s);
    lemma_unfold(d, s);
    lemma_transition_valid(d, s);
    assert(piece_trailers(t.step) + delivered_trailers(t.decoder, t.rest) =~= delivered_trailers(
        t.decoder,
        t.rest,
    ));
}

/// A front that is cut once more is the same front.
proof fn lemma_cut_joined(s: Seq<u8>, i: int, j: int, after: Seq<u8>)
    requires
        0 <= i <= j <= s.len(),
    ensures
        s.subrange(0, i) + (s.subrange(i, s.len() as int).subrange(0, j - i) + after)
            == s.subrange(0, j) + after,
{
    assert(s.subrange(0, i) + (s.subrange(i, s.len() as int).subrange(0, j - i) + after)
        =~= s.subrange(0, j) + after);
}

/// What a transition outside data does, it does whatever follows. One that waits may do anything
/// when more comes; one that fails still fails.
proof fn lemma_transition_extends(d: DecoderModel, a: Seq<u8>, b: Seq<u8>)
    requires
        ingress::decoder_valid(d),
        !in_data(d),
    ensures
        ({
            let t = ingress::transition(d, a);
            let u = ingress::transition(d, a + b);
            match t.step {
                Some(StepModel::NeedInput(_)) => true,
                Some(StepModel::Failed(_)) => u.step is Some && u.step->0 is Failed,
                _ => u == (Transition { rest: t.rest + b, ..t }),
            }
        }),
{
    let s = a + b;
    let t = ingress::transition(d, a);
    let at = http1::crlf_at(a, 0);
    let end = http1::crlf_at(s, 0);
    http1::lemma_crlf_at(a, 0);
    http1::lemma_crlf_at(s, 0);
    lemma_crlf_extends(a, b, 0);
    if d.state is ChunkSize || d.state is Trailers {
        if at < a.len() {
            assert(a.subrange(0, at + 2) =~= s.subrange(0, at + 2));
            assert(a.subrange(0, at) =~= s.subrange(0, at));
            assert(a.subrange(at + 2, a.len() as int) + b =~= s.subrange(at + 2, s.len() as int));
        } else if !http1::line_endings_paired(a) {
            lemma_unpaired_extends(a, b);
            if end < s.len() {
                let tail = s.subrange(a.len() as int, end + 2);
                lemma_unpaired_extends(a, tail);
                assert(a + tail =~= s.subrange(0, end + 2));
            }
        }
    } else if d.state is ChunkDataEnd {
        if a.len() >= 2 {
            assert(a.subrange(2, a.len() as int) + b =~= s.subrange(2, s.len() as int));
        }
    }
}

/// Reading on with what follows, after all at hand was read, is as reading it all at once.
pub open spec fn reads_on(d: DecoderModel, a: Seq<u8>, b: Seq<u8>) -> bool {
    let t = ingress::drained(d, a);
    match t.step {
        Some(StepModel::NeedInput(_)) => {
            &&& ingress::drained(d, a + b) == ingress::drained(t.decoder, t.rest + b)
            &&& delivered(d, a + b) == delivered(d, a) + delivered(t.decoder, t.rest + b)
            &&& delivered_trailers(d, a + b) == delivered_trailers(d, a) + delivered_trailers(
                t.decoder,
                t.rest + b,
            )
        },
        Some(StepModel::Complete) => {
            &&& ingress::drained(d, a + b).step == t.step
            &&& ingress::drained(d, a + b).rest == t.rest + b
            &&& delivered(d, a + b) == delivered(d, a)
            &&& delivered_trailers(d, a + b) == delivered_trailers(d, a)
        },
        Some(StepModel::Failed(_)) => {
            &&& ingress::drained(d, a + b).step is Some
            &&& ingress::drained(d, a + b).step->0 is Failed
            &&& delivered(d, a + b) == delivered(d, a)
            &&& delivered_trailers(d, a + b) == delivered_trailers(d, a)
        },
        _ => false,
    }
}

/// Two states, the second reached from the first on either reading with the same pieces on the way.
proof fn lemma_reads_on_from(
    d: DecoderModel,
    a: Seq<u8>,
    b: Seq<u8>,
    next: DecoderModel,
    rest: Seq<u8>,
    data: Seq<u8>,
    trailers: Seq<Fields>,
)
    requires
        reads_on(next, rest, b),
        ingress::drained(d, a) == ingress::drained(next, rest),
        ingress::drained(d, a + b) == ingress::drained(next, rest + b),
        delivered(d, a) == data + delivered(next, rest),
        delivered(d, a + b) == data + delivered(next, rest + b),
        delivered_trailers(d, a) == trailers + delivered_trailers(next, rest),
        delivered_trailers(d, a + b) == trailers + delivered_trailers(next, rest + b),
    ensures
        reads_on(d, a, b),
{
    let e = ingress::drained(d, a);
    let x = delivered(next, rest);
    let y = delivered(e.decoder, e.rest + b);
    assert(data + (x + y) =~= (data + x) + y);
    let f = delivered_trailers(next, rest);
    let g = delivered_trailers(e.decoder, e.rest + b);
    assert(trailers + (f + g) =~= (trailers + f) + g);
}

/// A transition that hands nothing out and uses nothing up ends the reading for now.
proof fn lemma_reads_on_here(d: DecoderModel, a: Seq<u8>, b: Seq<u8>)
    requires
        ingress::decoder_valid(d),
        !(in_data(d) && a.len() > 0),
        ({
            let t = ingress::transition(d, a);
            !(t.step is None || ingress::is_piece(t.step))
        }),
        ingress::drained(d, a).decoder == d,
        ingress::drained(d, a).rest == a,
    ensures
        reads_on(d, a, b),
{
    lemma_unfold(d, a);
    lemma_unfold(d, a + b);
    if !in_data(d) {
        lemma_transition_extends(d, a, b);
    }
    assert(Seq::<u8>::empty() + delivered(d, a + b) =~= delivered(d, a + b));
    assert(Seq::<Fields>::empty() + delivered_trailers(d, a + b) =~= delivered_trailers(d, a + b));
}

/// Data that is at hand is handed out, and the reading goes on behind it.
#[verifier::rlimit(40)]
proof fn lemma_reads_on_in_data(d: DecoderModel, a: Seq<u8>, b: Seq<u8>)
    requires
        ingress::decoder_valid(d),
        in_data(d),
        a.len() > 0,
        reads_on(ingress::transition(d, a).decoder, ingress::transition(d, a).rest, b),
    ensures
        reads_on(d, a, b),
{
    let s = a + b;
    let t = ingress::transition(d, a);
    let c = ingress::least(
        ingress::least(data_left(d), REQUEST_BODY_FRAME_LIMIT as nat),
        a.len(),
    );
    lemma_data_step(d, a);
    lemma_data_cut(d, a, c);
    lemma_data_cut(d, s, c);
    assert(s.subrange(c as int, s.len() as int) =~= t.rest + b);
    assert(s.subrange(0, c as int) =~= a.subrange(0, c as int));
    let none = Seq::<Fields>::empty();
    assert(none + delivered_trailers(t.decoder, t.rest) =~= delivered_trailers(t.decoder, t.rest));
    assert(none + delivered_trailers(t.decoder, t.rest + b) =~= delivered_trailers(
        t.decoder,
        t.rest + b,
    ));
    lemma_reads_on_from(d, a, b, t.decoder, t.rest, a.subrange(0, c as int), none);
}

/// A transition outside data that hands something out, or goes on by itself.
#[verifier::rlimit(40)]
proof fn lemma_reads_on_after(d: DecoderModel, a: Seq<u8>, b: Seq<u8>)
    requires
        ingress::decoder_valid(d),
        !in_data(d),
        ingress::transition(d, a).step is None || ingress::is_piece(ingress::transition(d, a).step),
        reads_on(ingress::transition(d, a).decoder, ingress::transition(d, a).rest, b),
    ensures
        reads_on(d, a, b),
{
    let t = ingress::transition(d, a);
    lemma_unfold(d, a);
    lemma_unfold(d, a + b);
    lemma_transition_extends(d, a, b);
    lemma_reads_on_from(
        d,
        a,
        b,
        t.decoder,
        t.rest,
        piece_data(t.step),
        piece_trailers(t.step),
    );
}

/// A body that is complete behind its trailers stays complete.
#[verifier::rlimit(40)]
proof fn lemma_reads_on_complete(d: DecoderModel, a: Seq<u8>, b: Seq<u8>)
    requires
        ingress::decoder_valid(d),
        d.state is Trailers,
        ingress::transition(d, a).step == Some(StepModel::Complete),
    ensures
        reads_on(d, a, b),
{
    lemma_unfold(d, a);
    lemma_unfold(d, a + b);
    lemma_transition_extends(d, a, b);
}

/// A body reads the same in parts as in one piece: when the octets at hand are used up and more are
/// needed, reading on with what follows delivers the rest and ends as reading it all at once; a body
/// that is complete stays so, and what follows it is left; a refused body stays refused.
pub proof fn a_body_reads_the_same_in_parts(d: DecoderModel, a: Seq<u8>, b: Seq<u8>)
    requires
        ingress::decoder_valid(d),
    ensures
        reads_on(d, a, b),
    decreases a.len(), ingress::rank(d),
{
    let t = ingress::transition(d, a);
    lemma_transition_valid(d, a);
    if in_data(d) && a.len() > 0 {
        a_body_reads_the_same_in_parts(t.decoder, t.rest, b);
        lemma_reads_on_in_data(d, a, b);
    } else if t.step is None || ingress::is_piece(t.step) {
        a_body_reads_the_same_in_parts(t.decoder, t.rest, b);
        lemma_reads_on_after(d, a, b);
    } else if d.state is Trailers && t.step == Some(StepModel::Complete) {
        lemma_reads_on_complete(d, a, b);
    } else {
        lemma_unfold(d, a);
        lemma_reads_on_here(d, a, b);
    }
}

/// What is buffered for a decoder is no more than reading within the room that it announced leaves.
pub open spec fn room_kept(d: DecoderModel, pending: Seq<u8>) -> bool {
    match d.state {
        DecoderState::Trailers | DecoderState::Complete => d.octets + pending.len()
            <= HEADER_SECTION_LIMIT,
        DecoderState::Fixed { remaining } | DecoderState::ChunkData { remaining } => d.octets == 0
            && (pending.len() <= REQUEST_LINE_LIMIT || pending.len() <= ingress::least(
            remaining as nat,
            REQUEST_BODY_FRAME_LIMIT as nat,
        )),
        _ => d.octets == 0 && pending.len() <= REQUEST_LINE_LIMIT,
    }
}

/// One exchange holds no more than its limit of a request body: as long as no more is read than the
/// decoder asks for, what is buffered, what the decoder keeps of the trailers, and the frame that it
/// hands out with the octets that frame it stay within the limit together.
pub proof fn a_request_stays_within_its_buffer(d: DecoderModel, a: Seq<u8>, more: Seq<u8>)
    requires
        ingress::decoder_valid(d),
        ingress::decoder_holds(d),
        room_kept(d, a),
    ensures
        ({
            let t = ingress::decode(d, a);
            &&& ingress::decoder_valid(t.decoder)
            &&& ingress::decoder_holds(t.decoder)
            &&& weight::weight(t.decoder.trailers) + t.rest.len() <= APPLICATION_BUFFER_LIMIT
            &&& match t.step {
                Some(StepModel::NeedInput(max)) => more.len() <= max ==> room_kept(
                    t.decoder,
                    t.rest + more,
                ),
                Some(StepModel::Data(data)) => data.len() + CHUNK_PREFIX_LIMIT + t.rest.len()
                    <= APPLICATION_BUFFER_LIMIT && room_kept(t.decoder, t.rest),
                Some(StepModel::Trailers(f)) => weight::weight(f) + 5 + t.rest.len()
                    <= APPLICATION_BUFFER_LIMIT && room_kept(t.decoder, t.rest),
                Some(StepModel::Complete) => room_kept(t.decoder, t.rest),
                _ => true,
            }
        }),
    decreases a.len(), ingress::rank(d),
{
    let t = ingress::transition(d, a);
    http1::lemma_crlf_at(a, 0);
    weight::lemma_nothing();
    lemma_transition_valid(d, a);
    ingress::lemma_transition_holds(d, a);
    if moves(d, a) {
        a_request_stays_within_its_buffer(t.decoder, t.rest, more);
    }
}

/// A request body of announced length is exactly its octets. Where enough are at hand, the data is
/// the first of them, the body is complete, and the rest stays unread; where too few are at hand, all
/// of them are data and the body waits for the others.
pub proof fn a_fixed_body_is_its_octets(n: u64, b: Seq<u8>)
    ensures
        ({
            let d = ingress::initial_decoder(http1::BodyFraming::ContentLength(n));
            let t = ingress::drained(d, b);
            &&& delivered_trailers(d, b) == Seq::<Fields>::empty()
            &&& b.len() >= n ==> {
                &&& delivered(d, b) == b.subrange(0, n as int)
                &&& t.step == Some(StepModel::Complete)
                &&& t.rest == b.subrange(n as int, b.len() as int)
            }
            &&& b.len() < n ==> {
                &&& delivered(d, b) == b
                &&& t.step matches Some(StepModel::NeedInput(_))
                &&& t.rest == Seq::<u8>::empty()
            }
        }),
{
    let d = ingress::initial_decoder(http1::BodyFraming::ContentLength(n));
    let k = ingress::least(n as nat, b.len());
    let rest = b.subrange(k as int, b.len() as int);
    if k == 0 {
        assert(rest =~= b);
        lemma_fixed_rest(d, b);
    } else {
        lemma_data_cut(d, b, k);
        lemma_fixed_rest(after_data(d, k), rest);
        assert(b.subrange(0, k as int) + Seq::<u8>::empty() =~= b.subrange(0, k as int));
    }
    assert(b.subrange(0, b.len() as int) =~= b);
    if b.len() < n {
        assert(rest =~= Seq::empty());
    }
}

/// A body of announced length with nothing left, or with nothing at hand.
proof fn lemma_fixed_rest(d: DecoderModel, a: Seq<u8>)
    requires
        ingress::decoder_valid(d),
        d.state matches DecoderState::Fixed { remaining } && (remaining == 0 || a.len() == 0),
    ensures
        delivered(d, a) == Seq::<u8>::empty(),
        delivered_trailers(d, a) == Seq::<Fields>::empty(),
        ingress::drained(d, a).rest == a,
        d.state == (DecoderState::Fixed { remaining: 0 }) ==> ingress::drained(d, a).step == Some(
            StepModel::Complete,
        ),
        d.state != (DecoderState::Fixed { remaining: 0 }) ==> (ingress::drained(d, a).step matches Some(
            StepModel::NeedInput(_),
        )),
{
    let t = ingress::transition(d, a);
    lemma_unfold(d, a);
    if t.step is None {
        lemma_unfold(t.decoder, a);
        assert(Seq::<u8>::empty() + Seq::<u8>::empty() =~= Seq::<u8>::empty());
        assert(Seq::<Fields>::empty() + Seq::<Fields>::empty() =~= Seq::<Fields>::empty());
    }
}

/// What one step of a decoder hands out is what reading on hands out first, whatever follows.
pub proof fn lemma_decode_then(d: DecoderModel, a: Seq<u8>, b: Seq<u8>)
    requires
        ingress::decoder_valid(d),
        ingress::decode(d, a).step is Some,
        !(ingress::decode(d, a).step->0 is Failed),
    ensures
        ({
            let t = ingress::decode(d, a);
            &&& delivered(d, a + b) == piece_data(t.step) + delivered(t.decoder, t.rest + b)
            &&& delivered_trailers(d, a + b) == piece_trailers(t.step) + delivered_trailers(
                t.decoder,
                t.rest + b,
            )
        }),
{
    let t = ingress::decode(d, a);
    let x = piece_data(t.step);
    let y = piece_trailers(t.step);
    ingress::lemma_decode_progress(d, a);
    lemma_decode_valid(d, a);
    a_body_reads_the_same_in_parts(d, a, b);
    if ingress::is_piece(t.step) {
        a_body_reads_the_same_in_parts(t.decoder, t.rest, b);
        let e = ingress::drained(d, a);
        assert(e == ingress::drained(t.decoder, t.rest));
        let p = delivered(t.decoder, t.rest);
        let q = delivered(e.decoder, e.rest + b);
        assert((x + p) + q =~= x + (p + q));
        let f = delivered_trailers(t.decoder, t.rest);
        let g = delivered_trailers(e.decoder, e.rest + b);
        assert((y + f) + g =~= y + (f + g));
    } else {
        assert(x + delivered(t.decoder, t.rest + b) =~= delivered(t.decoder, t.rest + b));
        assert(y + delivered_trailers(t.decoder, t.rest + b) =~= delivered_trailers(
            t.decoder,
            t.rest + b,
        ));
        assert(delivered(d, a) =~= Seq::empty());
        assert(delivered_trailers(d, a) =~= Seq::empty());
        assert(delivered(d, a) + delivered(t.decoder, t.rest + b) =~= delivered(
            t.decoder,
            t.rest + b,
        ));
        assert(delivered_trailers(d, a) + delivered_trailers(t.decoder, t.rest + b)
            =~= delivered_trailers(t.decoder, t.rest + b));
        if t.step == Some(StepModel::Complete) {
            lemma_complete_state(d, a);
            lemma_unfold(t.decoder, t.rest + b);
        }
    }
}

proof fn lemma_decode_valid(d: DecoderModel, a: Seq<u8>)
    requires
        ingress::decoder_valid(d),
    ensures
        ingress::decoder_valid(ingress::decode(d, a).decoder),
    decreases a.len(), ingress::rank(d),
{
    lemma_transition_valid(d, a);
    if moves(d, a) {
        let t = ingress::transition(d, a);
        lemma_decode_valid(t.decoder, t.rest);
    }
}

proof fn lemma_complete_state(d: DecoderModel, a: Seq<u8>)
    requires
        ingress::decoder_valid(d),
        ingress::decode(d, a).step == Some(StepModel::Complete),
    ensures
        ingress::decode(d, a).decoder.state is Complete,
        ingress::decoder_valid(ingress::decode(d, a).decoder),
    decreases a.len(), ingress::rank(d),
{
    lemma_transition_valid(d, a);
    if moves(d, a) {
        let t = ingress::transition(d, a);
        lemma_complete_state(t.decoder, t.rest);
    }
}

/// A line ending on the wire.
proof fn lemma_line_ending()
    ensures
        octets::octets("\r\n"@) =~= seq![13u8, 10u8],
        octets::octets(": "@) =~= seq![58u8, 32u8],
        octets::octets("0\r\n"@) =~= seq![48u8, 13u8, 10u8],
        octets::octets("0\r\n\r\n"@) =~= seq![48u8, 13u8, 10u8, 13u8, 10u8],
{
    reveal_strlit("\r\n");
    reveal_strlit(": ");
    reveal_strlit("0\r\n");
    reveal_strlit("0\r\n\r\n");
    is_ascii_chars_encode_utf8("\r\n"@);
    is_ascii_chars_encode_utf8(": "@);
    is_ascii_chars_encode_utf8("0\r\n"@);
    is_ascii_chars_encode_utf8("0\r\n\r\n"@);
}

/// A size in hexadecimal has few digits.
pub proof fn lemma_hex_short(n: nat)
    ensures
        ip::hex_digits_of(n).len() <= 1 + n / 16,
    decreases n,
{
    if n >= 16 {
        lemma_hex_short(n / 16);
    }
}

/// A line without line endings ends at the first line ending after it.
pub proof fn lemma_line_end(line: Seq<u8>, rest: Seq<u8>, from: int)
    requires
        0 <= from <= line.len(),
        forall|i: int| 0 <= i < line.len() ==> #[trigger] line[i] != 13 && line[i] != 10,
    ensures
        http1::crlf_at(line + seq![13u8, 10u8] + rest, from) == line.len(),
        http1::line_endings_paired(
            (line + seq![13u8, 10u8] + rest).subrange(0, line.len() as int + 2),
        ),
        (line + seq![13u8, 10u8] + rest).subrange(0, line.len() as int) == line,
        (line + seq![13u8, 10u8] + rest).subrange(
            line.len() as int + 2,
            (line + seq![13u8, 10u8] + rest).len() as int,
        ) == rest,
    decreases line.len() - from,
{
    let s = line + seq![13u8, 10u8] + rest;
    assert(s.subrange(0, line.len() as int) =~= line);
    assert(s.subrange(line.len() as int + 2, s.len() as int) =~= rest);
    if from < line.len() {
        assert(s[from] == line[from]);
        lemma_line_end(line, rest, from + 1);
    } else {
        let h = s.subrange(0, line.len() as int + 2);
        assert(h[line.len() as int] == 13 && h[line.len() as int + 1] == 10);
        assert forall|i: int| 0 <= i < h.len() && #[trigger] h[i] == 10 implies i > 0 && h[i - 1]
            == 13 by {
            if i < line.len() {
                assert(h[i] == line[i]);
            }
        }
        assert forall|i: int| 0 <= i < h.len() - 1 && #[trigger] h[i] == 13 implies h[i + 1]
            == 10 by {
            if i < line.len() {
                assert(h[i] == line[i]);
            }
        }
    }
}

/// Without a delimiter and without quotation marks a value is one piece.
pub proof fn lemma_one_piece(s: Seq<u8>, delimiter: u8, i: int)
    requires
        0 <= i <= s.len(),
        forall|j: int| 0 <= j < s.len() ==> #[trigger] s[j] != delimiter && s[j] != 34,
    ensures
        http1::quoted_pieces(s, delimiter, 0, i, false, false) == Some(seq![s]),
    decreases s.len() - i,
{
    if i < s.len() {
        lemma_one_piece(s, delimiter, i + 1);
    } else {
        assert(s.subrange(0, s.len() as int) =~= s);
    }
}

/// The size line of a chunk gives the chunk's size.
proof fn lemma_size_line(d: DecoderModel, size: nat, rest: Seq<u8>)
    requires
        d.state is ChunkSize,
        size <= REQUEST_BODY_FRAME_LIMIT,
    ensures
        ingress::transition(d, ip::hex_digits_of(size) + seq![13u8, 10u8] + rest) == (Transition {
            decoder: DecoderModel {
                state: if size == 0 {
                    DecoderState::Trailers
                } else {
                    DecoderState::ChunkData { remaining: size as u64 }
                },
                ..d
            },
            rest,
            step: None,
        }),
{
    let digits = ip::hex_digits_of(size);
    ip::lemma_hex_digits_of(size);
    lemma_hex_short(size);
    assert forall|i: int| 0 <= i < digits.len() implies #[trigger] digits[i] != 13 && digits[i] != 10
        && digits[i] != 59 && digits[i] != 34 by {
        assert(octets::is_hex(digits[i]));
    }
    lemma_line_end(digits, rest, 0);
    lemma_one_piece(digits, 59, 0);
    assert(http1::split_outside_quotes(digits, ';' as u8) == Some(seq![digits]));
    assert(seq![digits][0] == digits);
    assert(http1::hex_number(digits) == Some(size as u64));
    assert(http1::chunk_size_of(digits) == Some(size as u64));
}

/// A chunk that is sent reads back: a decoder that waits for a chunk hands out the chunk's data, and
/// then reads on from what follows the chunk.
pub proof fn a_chunk_reads_back(d: DecoderModel, data: Seq<u8>, rest: Seq<u8>)
    requires
        d.state is ChunkSize,
        0 < data.len() <= REQUEST_BODY_FRAME_LIMIT,
    ensures
        ({
            let t = ingress::decode(d, forward::chunk_wire(data) + rest);
            &&& t.step == Some(StepModel::Data(data))
            &&& ingress::decode(t.decoder, t.rest) == ingress::decode(d, rest)
        }),
{
    lemma_line_ending();
    let crlf = seq![13u8, 10u8];
    let a = forward::chunk_wire(data) + rest;
    let tail = data + crlf + rest;
    assert(a =~= ip::hex_digits_of(data.len()) + crlf + tail);
    lemma_size_line(d, data.len(), tail);
    let waiting = DecoderModel {
        state: DecoderState::ChunkData { remaining: data.len() as u64 },
        ..d
    };
    assert(ingress::decode(d, a) == ingress::decode(waiting, tail));
    let t = ingress::transition(waiting, tail);
    assert(tail.subrange(0, data.len() as int) =~= data);
    assert(tail.subrange(data.len() as int, tail.len() as int) =~= crlf + rest);
    assert(t.step == Some(StepModel::Data(data)));
    let u = ingress::transition(t.decoder, t.rest);
    assert(t.rest.subrange(2, t.rest.len() as int) =~= rest);
    assert(u.decoder == d);
}

/// A field that a trailer line can carry as it is: a name in lower case and a value without blanks
/// around it.
pub open spec fn plain_field(field: (Seq<u8>, Seq<u8>)) -> bool {
    &&& fields::is_field_name(field.0)
    &&& octets::lower(field.0) == field.0
    &&& fields::is_field_value(field.1)
    &&& fields::trim_blank(field.1) == field.1
}

/// The line of a plain field gives the field.
pub proof fn lemma_plain_line(field: (Seq<u8>, Seq<u8>))
    requires
        plain_field(field),
    ensures
        ({
            let line = field.0 + seq![58u8, 32u8] + field.1;
            &&& http1::field_line(line) == Some(field)
            &&& forall|i: int| 0 <= i < line.len() ==> #[trigger] line[i] != 13 && line[i] != 10
        }),
{
    let line = field.0 + seq![58u8, 32u8] + field.1;
    let n = field.0.len() as int;
    assert forall|i: int| 0 <= i < line.len() implies #[trigger] line[i] != 13 && line[i] != 10 by {
        if i < n {
            assert(fields::is_token_octet(field.0[i]));
        } else if i >= n + 2 {
            assert(fields::is_value_octet(field.1[i - n - 2]));
        }
    }
    assert forall|i: int| 0 <= i < n implies #[trigger] line[i] != 58 by {
        assert(fields::is_token_octet(field.0[i]));
    }
    octets::lemma_first_at_is(line, 58, 0, n);
    assert(line.subrange(0, n) =~= field.0);
    let value = line.subrange(n + 1, line.len() as int);
    assert(value =~= seq![32u8] + field.1);
    assert(value.drop_first() =~= field.1);
    assert(fields::trim_blank_start(value) == fields::trim_blank_start(field.1));
}

/// Trailer lines read back, once the fields `done` were read.
proof fn lemma_trailers_read(
    d: DecoderModel,
    done: Seq<(Seq<u8>, Seq<u8>)>,
    todo: Seq<(Seq<u8>, Seq<u8>)>,
    rest: Seq<u8>,
)
    requires
        d.state is Trailers,
        d.trailers == http1::collected(done),
        forall|i: int| 0 <= i < todo.len() ==> plain_field(#[trigger] todo[i]),
        d.octets + forward::trailer_wire(todo).len() <= HEADER_SECTION_LIMIT,
        http1::free_of(http1::collected(done + todo), http1::forbidden_trailers()),
    ensures
        ({
            let t = ingress::decode(d, forward::trailer_wire(todo) + rest);
            let all = http1::collected(done + todo);
            &&& t.step == Some(
                if all.order.len() == 0 {
                    StepModel::Complete
                } else {
                    StepModel::Trailers(all)
                },
            )
            &&& t.rest == rest
            &&& t.decoder.state is Complete
        }),
    decreases todo.len(),
{
    lemma_line_ending();
    let crlf = seq![13u8, 10u8];
    let a = forward::trailer_wire(todo) + rest;
    if todo.len() == 0 {
        let none = Seq::<u8>::empty();
        assert(a =~= none + crlf + rest);
        lemma_line_end(none, rest, 0);
        assert(done + todo =~= done);
    } else {
        let line = todo[0].0 + seq![58u8, 32u8] + todo[0].1;
        let others = todo.drop_first();
        let tail = forward::trailer_wire(others) + rest;
        lemma_plain_line(todo[0]);
        assert(a =~= line + crlf + tail);
        lemma_line_end(line, tail, 0);
        let t = ingress::transition(d, a);
        assert(forward::trailer_wire(todo).len() == line.len() + 2 + forward::trailer_wire(
            others,
        ).len());
        assert(t.rest == tail);
        let seen = done.push(todo[0]);
        assert(seen.drop_last() =~= done);
        assert(t.decoder.trailers == http1::collected(seen));
        assert(seen + others =~= done + todo);
        lemma_trailers_read(t.decoder, seen, others, rest);
    }
}

/// The end of a body in chunks reads back: the last chunk, the trailer fields and the empty line
/// hand out exactly the fields, or complete the body where there are none, and leave what follows.
pub proof fn trailers_read_back(d: DecoderModel, listed: Seq<(Seq<u8>, Seq<u8>)>, rest: Seq<u8>)
    requires
        d.state is ChunkSize,
        d.trailers == fields::no_fields(),
        d.octets + forward::trailer_wire(listed).len() <= HEADER_SECTION_LIMIT,
        forall|i: int| 0 <= i < listed.len() ==> plain_field(#[trigger] listed[i]),
        http1::free_of(http1::collected(listed), http1::forbidden_trailers()),
    ensures
        ({
            let t = ingress::decode(
                d,
                octets::octets("0\r\n"@) + forward::trailer_wire(listed) + rest,
            );
            let all = http1::collected(listed);
            &&& t.step == Some(
                if all.order.len() == 0 {
                    StepModel::Complete
                } else {
                    StepModel::Trailers(all)
                },
            )
            &&& t.rest == rest
            &&& t.decoder.state is Complete
        }),
{
    lemma_line_ending();
    let tail = forward::trailer_wire(listed) + rest;
    let a = octets::octets("0\r\n"@) + forward::trailer_wire(listed) + rest;
    assert(ip::hex_digits_of(0) =~= seq![48u8]);
    assert(a =~= ip::hex_digits_of(0) + seq![13u8, 10u8] + tail);
    lemma_size_line(d, 0, tail);
    let none = Seq::<(Seq<u8>, Seq<u8>)>::empty();
    assert(none + listed =~= listed);
    lemma_trailers_read(ingress::transition(d, a).decoder, none, listed, rest);
}

} // verus!
