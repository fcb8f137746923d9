//! Where messages and their parts begin and end.
use crate::connect::forward;
use crate::connect::origin_body;
use crate::connect::origin_body::{OriginDecoderModel, OriginScan, OriginState, OriginStepModel};
use crate::connect::origin_framing;
use crate::fields;
use crate::fields::Fields;
use crate::headers;
use crate::ip;
use crate::laws::forwarding;
use crate::octets;
use crate::server::framing;
use crate::server::http1;
use crate::server::ingress;
use crate::server::ingress::HeadScan;
use vstd::prelude::*;

verus! {

/// Octets without line endings.
pub open spec fn one_line(s: Seq<u8>) -> bool {
    forall|i: int| 0 <= i < s.len() ==> #[trigger] s[i] != 13 && s[i] != 10
}

/// Carriage returns and line feeds come in pairs, and two pairs in a row stand at the end only.
spec fn ends_once(w: Seq<u8>) -> bool {
    &&& w.len() >= 2
    &&& w[w.len() - 2] == 13 && w[w.len() - 1] == 10
    &&& forall|i: int| 0 <= i < w.len() && #[trigger] w[i] == 10 ==> i > 0 && w[i - 1] == 13
    &&& forall|i: int| 0 <= i < w.len() && #[trigger] w[i] == 13 ==> i + 1 < w.len() && w[i + 1] == 10
    &&& forall|i: int|
        0 <= i < w.len() - 2 && #[trigger] w[i] == 13 && w[i + 2] == 13 ==> i == w.len() - 4
}

proof fn lemma_section_ends_once(listed: Seq<(Seq<u8>, Seq<u8>)>)
    requires
        forall|i: int| 0 <= i < listed.len() ==> framing::plain_field(#[trigger] listed[i]),
    ensures
        ends_once(forward::trailer_wire(listed)),
        listed.len() > 0 ==> {
            let w = forward::trailer_wire(listed);
            &&& w.len() >= 4
            &&& w[w.len() - 4] == 13 && w[w.len() - 3] == 10
            &&& w[0] != 13
        },
        listed.len() == 0 ==> forward::trailer_wire(listed) == seq![13u8, 10u8],
    decreases listed.len(),
{
    forwarding::lemma_line_literals();
    let w = forward::trailer_wire(listed);
    if listed.len() > 0 {
        let line = listed[0].0 + seq![58u8, 32u8] + listed[0].1;
        let others = listed.drop_first();
        framing::lemma_plain_line(listed[0]);
        lemma_section_ends_once(others);
        let tail = forward::trailer_wire(others);
        let n = line.len() as int;
        assert(w =~= line + seq![13u8, 10u8] + tail);
        assert forall|i: int| 0 <= i < w.len() && #[trigger] w[i] == 10 implies i > 0 && w[i - 1]
            == 13 by {
            if i < n {
                assert(w[i] == line[i]);
            } else if i > n + 1 {
                assert(w[i] == tail[i - n - 2]);
                assert(w[i - 1] == tail[i - n - 3]);
            }
        }
        assert forall|i: int| 0 <= i < w.len() && #[trigger] w[i] == 13 implies i + 1 < w.len()
            && w[i + 1] == 10 by {
            if i < n {
                assert(w[i] == line[i]);
            } else if i > n + 1 {
                assert(w[i] == tail[i - n - 2]);
                assert(w[i + 1] == tail[i - n - 1]);
            }
        }
        assert forall|i: int| 0 <= i < w.len() - 2 && #[trigger] w[i] == 13 && w[i + 2] == 13 implies i
            == w.len() - 4 by {
            if i < n {
                assert(w[i] == line[i]);
            } else if i == n {
                assert(w[i + 2] == tail[0]);
            } else if i > n + 1 {
                assert(w[i] == tail[i - n - 2]);
                assert(w[i + 2] == tail[i - n]);
            }
        }
        assert(w[0] == line[0]);
        let m = tail.len() as int;
        assert(w[w.len() - 1] == tail[m - 1] && w[w.len() - 2] == tail[m - 2]);
        if others.len() > 0 {
            assert(w[w.len() - 4] == tail[m - 4] && w[w.len() - 3] == tail[m - 3]);
        }
    } else {
        assert(w =~= seq![13u8, 10u8]);
    }
}

proof fn lemma_blank_is(s: Seq<u8>, from: int, at: int)
    requires
        0 <= from <= at,
        at + 4 <= s.len(),
        s[at] == 13 && s[at + 1] == 10 && s[at + 2] == 13 && s[at + 3] == 10,
        forall|i: int| from <= i < at ==> !(#[trigger] s[i] == 13 && s[i + 2] == 13),
    ensures
        http1::blank_line_at(s, from) == at,
    decreases at - from,
{
    if from < at {
        assert(!(s[from] == 13 && s[from + 2] == 13));
        lemma_blank_is(s, from + 1, at);
    }
}

proof fn lemma_head(line: Seq<u8>, listed: Seq<(Seq<u8>, Seq<u8>)>)
    requires
        one_line(line),
        forall|i: int| 0 <= i < listed.len() ==> framing::plain_field(#[trigger] listed[i]),
    ensures
        ({
            let a = line + seq![13u8, 10u8] + forward::trailer_wire(listed);
            let n = line.len() as int;
            &&& http1::crlf_at(a, 0) == n
            &&& http1::line_endings_paired(a.subrange(0, n + 2))
            &&& a.subrange(0, n) == line
            &&& http1::head_end(a, n + 2) == Some(a.len() as int)
            &&& http1::line_endings_paired(a)
            &&& a.subrange(0, a.len() as int) == a
        }),
{
    let w = forward::trailer_wire(listed);
    let a = line + seq![13u8, 10u8] + w;
    let n = line.len() as int;
    framing::lemma_line_end(line, w, 0);
    lemma_section_ends_once(listed);
    assert forall|i: int| 0 <= i < a.len() && #[trigger] a[i] == 10 implies i > 0 && a[i - 1] == 13 by {
        if i < n {
            assert(a[i] == line[i]);
        } else if i > n + 1 {
            assert(a[i] == w[i - n - 2]);
            assert(a[i - 1] == w[i - n - 3]);
        }
    }
    assert forall|i: int| 0 <= i < a.len() - 1 && #[trigger] a[i] == 13 implies a[i + 1] == 10 by {
        if i < n {
            assert(a[i] == line[i]);
        } else if i > n + 1 {
            assert(a[i] == w[i - n - 2]);
            assert(a[i + 1] == w[i - n - 1]);
        }
    }
    assert(a.subrange(0, a.len() as int) =~= a);
    if listed.len() == 0 {
        assert(a[n + 2] == w[0] && a[n + 3] == w[1]);
    } else {
        assert(a[n + 2] == w[0]);
        let at = a.len() - 4;
        let m = w.len() as int;
        assert(a[at] == w[m - 4] && a[at + 1] == w[m - 3] && a[at + 2] == w[m - 2] && a[at + 3]
            == w[m - 1]);
        assert forall|i: int| n + 2 <= i < at implies !(#[trigger] a[i] == 13 && a[i + 2] == 13) by {
            assert(a[i] == w[i - n - 2] && a[i + 2] == w[i - n]);
        }
        lemma_blank_is(a, n + 2, at);
    }
}

/// A written request head is found whole, whatever follows it: its line of visible octets and spaces
/// may have up to 8192 octets with its ending, and its fields up to 65536.
pub proof fn a_written_request_head_is_found(
    line: Seq<u8>,
    listed: Seq<(Seq<u8>, Seq<u8>)>,
    rest: Seq<u8>,
)
    requires
        forall|i: int| 0 <= i < line.len() ==> 32 <= #[trigger] line[i] <= 126,
        forall|i: int| 0 <= i < listed.len() ==> framing::plain_field(#[trigger] listed[i]),
        line.len() + 2 <= 8192,
        forward::trailer_wire(listed).len() <= 65536,
    ensures
        ingress::head_scan(line + seq![13u8, 10u8] + forward::trailer_wire(listed) + rest)
            == HeadScan::Complete(
            (line.len() + 2) as usize,
            (line.len() + 2 + forward::trailer_wire(listed).len()) as usize,
        ),
{
    let w = forward::trailer_wire(listed);
    let a = line + seq![13u8, 10u8] + w;
    lemma_head(line, listed);
    lemma_section_ends_once(listed);
    assert(ingress::line_prefix(a) == line);
    assert(ingress::head_scan(a) == HeadScan::Complete(
        (line.len() + 2) as usize,
        a.len() as usize,
    ));
    framing::a_head_is_found_whatever_follows(a, rest);
}

/// A request head over its limits is refused: a line that is too long as a bad request, and fields
/// that are too long as such.
pub proof fn an_oversized_request_head_is_refused(
    line: Seq<u8>,
    listed: Seq<(Seq<u8>, Seq<u8>)>,
    rest: Seq<u8>,
)
    requires
        forall|i: int| 0 <= i < line.len() ==> 32 <= #[trigger] line[i] <= 126,
        forall|i: int| 0 <= i < listed.len() ==> framing::plain_field(#[trigger] listed[i]),
    ensures
        ({
            let a = line + seq![13u8, 10u8] + forward::trailer_wire(listed);
            &&& line.len() + 2 > 8192 ==> ingress::head_scan(a) == HeadScan::Failed(
                http1::IngressError::BadRequest,
            ) && ingress::head_scan(a + rest) is Failed
            &&& line.len() + 2 <= 8192 && forward::trailer_wire(listed).len() > 65536
                ==> ingress::head_scan(a) == HeadScan::Failed(http1::IngressError::HeadersTooLarge)
                && ingress::head_scan(a + rest) is Failed
        }),
{
    let w = forward::trailer_wire(listed);
    let a = line + seq![13u8, 10u8] + w;
    lemma_head(line, listed);
    lemma_section_ends_once(listed);
    assert(ingress::line_prefix(a) == line);
    framing::a_head_is_found_whatever_follows(a, rest);
}

/// A written response head is found whole, whatever follows it, within the same limits.
pub proof fn a_written_response_head_is_found(
    line: Seq<u8>,
    listed: Seq<(Seq<u8>, Seq<u8>)>,
    rest: Seq<u8>,
)
    requires
        one_line(line),
        forall|i: int| 0 <= i < listed.len() ==> framing::plain_field(#[trigger] listed[i]),
        line.len() + 2 <= 8192,
        forward::trailer_wire(listed).len() <= 65536,
    ensures
        origin_body::origin_scan(line + seq![13u8, 10u8] + forward::trailer_wire(listed) + rest)
            == OriginScan::Complete(
            (line.len() + 2) as usize,
            (line.len() + 2 + forward::trailer_wire(listed).len()) as usize,
        ),
{
    let w = forward::trailer_wire(listed);
    let a = line + seq![13u8, 10u8] + w;
    lemma_head(line, listed);
    lemma_section_ends_once(listed);
    assert(origin_body::origin_scan(a) == OriginScan::Complete(
        (line.len() + 2) as usize,
        a.len() as usize,
    ));
    origin_framing::a_response_head_is_found_whatever_follows(a, rest);
}

/// Whatever stands before a value does not change how the value is split.
proof fn lemma_pieces_shift(
    a: Seq<u8>,
    b: Seq<u8>,
    delimiter: u8,
    start: int,
    i: int,
    quoted: bool,
    escaped: bool,
)
    requires
        0 <= start <= i <= b.len(),
    ensures
        http1::quoted_pieces(a + b, delimiter, a.len() + start, a.len() + i, quoted, escaped)
            == http1::quoted_pieces(b, delimiter, start, i, quoted, escaped),
    decreases b.len() - i,
{
    let s = a + b;
    let n = a.len() as int;
    if i < b.len() {
        assert(s[n + i] == b[i]);
        lemma_pieces_shift(a, b, delimiter, start, i + 1, quoted, false);
        lemma_pieces_shift(a, b, delimiter, start, i + 1, quoted, true);
        lemma_pieces_shift(a, b, delimiter, start, i + 1, !quoted, false);
        lemma_pieces_shift(a, b, delimiter, i + 1, i + 1, false, false);
        assert(s.subrange(n + start, n + i) =~= b.subrange(start, i));
    } else {
        assert(s.subrange(n + start, s.len() as int) =~= b.subrange(start, b.len() as int));
    }
}

proof fn lemma_plain_run(s: Seq<u8>, delimiter: u8, start: int, i: int, at: int, quoted: bool)
    requires
        0 <= i <= at <= s.len(),
        forall|j: int| i <= j < at ==> #[trigger] s[j] != 34,
        quoted ==> forall|j: int| i <= j < at ==> #[trigger] s[j] != 92,
        !quoted ==> forall|j: int| i <= j < at ==> #[trigger] s[j] != delimiter,
    ensures
        http1::quoted_pieces(s, delimiter, start, i, quoted, false) == http1::quoted_pieces(
            s,
            delimiter,
            start,
            at,
            quoted,
            false,
        ),
    decreases at - i,
{
    if i < at {
        lemma_plain_run(s, delimiter, start, i + 1, at, quoted);
    }
}

/// A value is split at its first delimiter outside quotes, and the rest is split in the same way.
pub proof fn a_value_is_split_at_its_delimiters(a: Seq<u8>, delimiter: u8, b: Seq<u8>)
    requires
        delimiter != 34,
        forall|i: int| 0 <= i < a.len() ==> #[trigger] a[i] != 34 && a[i] != delimiter,
    ensures
        http1::split_outside_quotes(a, delimiter) == Some(seq![a]),
        http1::split_outside_quotes(a.push(delimiter) + b, delimiter) == (
        match http1::split_outside_quotes(b, delimiter) {
            Some(rest) => Some(seq![a] + rest),
            None => None,
        }),
{
    let s = a.push(delimiter) + b;
    let n = a.len() as int;
    framing::lemma_one_piece(a, delimiter, 0);
    assert forall|j: int| 0 <= j < n implies #[trigger] s[j] != 34 && s[j] != delimiter by {
        assert(s[j] == a[j]);
    }
    lemma_plain_run(s, delimiter, 0, 0, n, false);
    assert(s[n] == delimiter);
    lemma_pieces_shift(a.push(delimiter), b, delimiter, 0, 0, false, false);
    assert(s.subrange(0, n) =~= a);
}

/// Quotes hide what they hold: a delimiter between them splits nothing. A quote that nothing closes
/// spoils the value.
pub proof fn quotes_hide_what_they_hold(a: Seq<u8>, q: Seq<u8>, b: Seq<u8>, delimiter: u8)
    requires
        delimiter != 34,
        forall|i: int| 0 <= i < a.len() ==> #[trigger] a[i] != 34 && a[i] != delimiter,
        forall|i: int| 0 <= i < q.len() ==> #[trigger] q[i] != 34 && q[i] != 92,
        forall|i: int| 0 <= i < b.len() ==> #[trigger] b[i] != 34 && b[i] != delimiter,
    ensures
        http1::split_outside_quotes(a + seq![34u8] + q + seq![34u8] + b, delimiter) == Some(
            seq![a + seq![34u8] + q + seq![34u8] + b],
        ),
        http1::split_outside_quotes(a + seq![34u8] + q, delimiter) is None,
{
    let s = a + seq![34u8] + q + seq![34u8] + b;
    let n = a.len() as int;
    let m = n + 1 + q.len();
    assert forall|j: int| 0 <= j < n implies #[trigger] s[j] != 34 && s[j] != delimiter by {
        assert(s[j] == a[j]);
    }
    assert forall|j: int| n + 1 <= j < m implies #[trigger] s[j] != 34 && s[j] != 92 by {
        assert(s[j] == q[j - n - 1]);
    }
    assert forall|j: int| m + 1 <= j < s.len() implies #[trigger] s[j] != 34 && s[j] != delimiter by {
        assert(s[j] == b[j - m - 1]);
    }
    assert(s[n] == 34 && s[m] == 34);
    lemma_plain_run(s, delimiter, 0, 0, n, false);
    lemma_plain_run(s, delimiter, 0, n + 1, m, true);
    lemma_plain_run(s, delimiter, 0, m + 1, s.len() as int, false);
    assert(s.subrange(0, s.len() as int) =~= s);
    let t = a + seq![34u8] + q;
    assert forall|j: int| 0 <= j < n implies #[trigger] t[j] != 34 && t[j] != delimiter by {
        assert(t[j] == a[j]);
    }
    assert forall|j: int| n + 1 <= j < t.len() implies #[trigger] t[j] != 34 && t[j] != 92 by {
        assert(t[j] == q[j - n - 1]);
    }
    assert(t[n] == 34);
    lemma_plain_run(t, delimiter, 0, 0, n, false);
    lemma_plain_run(t, delimiter, 0, n + 1, t.len() as int, true);
}

/// A chunk size is a hexadecimal number in either case, with or without an extension behind a
/// semicolon.
pub proof fn a_chunk_size_is_its_number(d: Seq<u8>, extension: Seq<u8>, n: u64)
    requires
        d.len() > 0,
        ip::all_hex(d),
        ip::hexadecimal(d) == n,
        fields::is_token(extension),
    ensures
        http1::chunk_size_of(d) == Some(n),
        http1::chunk_size_of(d.push(';' as u8) + extension) == Some(n),
{
    assert forall|i: int| 0 <= i < d.len() implies #[trigger] d[i] != 34 && d[i] != 59 by {
        assert(octets::is_hex(d[i]));
    }
    assert forall|i: int| 0 <= i < extension.len() implies #[trigger] extension[i] != 34
        && extension[i] != 59 && extension[i] != 61 && extension[i] != 32 && extension[i] != 9 by {
        assert(fields::is_token_octet(extension[i]));
    }
    a_value_is_split_at_its_delimiters(d, 59u8, extension);
    a_value_is_split_at_its_delimiters(extension, 59u8, extension);
    a_value_is_split_at_its_delimiters(extension, 61u8, extension);
    let p = seq![d] + seq![extension];
    assert(http1::split_outside_quotes(d.push(59u8) + extension, ';' as u8) == Some(p));
    assert(p[0] == d && p[1] == extension && p.len() == 2);
    assert(fields::trim_blank(extension) == extension);
    assert(http1::is_chunk_extension(extension)) by {
        let f = seq![extension];
        assert(f[0] == extension);
    }
    assert(seq![d][0] == d);
}

proof fn lemma_response_size(d: OriginDecoderModel, size: nat, tail: Seq<u8>)
    requires
        d.state is ChunkSize,
        0 < size <= 32768,
    ensures
        ({
            let t = origin_body::origin_transition(
                d,
                ip::hex_digits_of(size) + seq![13u8, 10u8] + tail,
            );
            &&& t.decoder == (OriginDecoderModel {
                state: OriginState::ChunkData { remaining: size as u64 },
                ..d
            })
            &&& t.rest == tail
            &&& t.step is None
        }),
{
    let digits = ip::hex_digits_of(size);
    ip::lemma_hex_digits_of(size);
    framing::lemma_hex_short(size);
    assert forall|i: int| 0 <= i < digits.len() implies #[trigger] digits[i] != 13 && digits[i] != 10 by {
        assert(octets::is_hex(digits[i]));
    }
    framing::lemma_line_end(digits, tail, 0);
    assert(fields::is_token(seq![97u8])) by {
        assert(fields::is_token_octet(seq![97u8][0]));
    }
    a_chunk_size_is_its_number(digits, seq![97u8], size as u64);
}

/// A chunk of a response reads back: its data is handed out, and reading goes on behind it.
pub proof fn a_response_chunk_reads_back(d: OriginDecoderModel, data: Seq<u8>, rest: Seq<u8>)
    requires
        d.state is ChunkSize,
        0 < data.len() <= 32768,
    ensures
        ({
            let t = origin_body::origin_decode(d, forward::chunk_wire(data) + rest);
            &&& t.step == Some(OriginStepModel::Data(data))
            &&& origin_body::origin_decode(t.decoder, t.rest) == origin_body::origin_decode(d, rest)
        }),
{
    forwarding::lemma_line_literals();
    let crlf = seq![13u8, 10u8];
    let a = forward::chunk_wire(data) + rest;
    let tail = data + crlf + rest;
    assert(a =~= ip::hex_digits_of(data.len()) + crlf + tail);
    lemma_response_size(d, data.len(), tail);
    let waiting = OriginDecoderModel {
        state: OriginState::ChunkData { remaining: data.len() as u64 },
        ..d
    };
    assert(tail.len() < a.len());
    assert(origin_body::origin_decode(d, a) == origin_body::origin_decode(waiting, tail));
    let t = origin_body::origin_data_transition(waiting, tail, data.len() as u64);
    assert(origin_body::origin_transition(waiting, tail) == t);
    assert(tail.subrange(0, data.len() as int) =~= data);
    assert(tail.subrange(data.len() as int, tail.len() as int) =~= crlf + rest);
    assert(t.step == Some(OriginStepModel::Data(data)));
    assert(origin_body::origin_decode(waiting, tail) == t);
    let u = origin_body::origin_data_end_transition(t.decoder, t.rest);
    assert(origin_body::origin_transition(t.decoder, t.rest) == u);
    assert(t.rest.subrange(2, t.rest.len() as int) =~= rest);
    assert(u.decoder == d);
}

/// A body that ends with its connection is all that arrives, and never complete by itself.
pub proof fn a_body_until_the_end_is_all_that_arrives(d: OriginDecoderModel, b: Seq<u8>)
    requires
        d.state is CloseDelimited,
    ensures
        origin_framing::origin_data(d, b) == b,
        origin_framing::origin_drained(d, b).step matches Some(OriginStepModel::NeedInput(_)),
    decreases b.len(),
{
    if b.len() > 0 {
        let t = origin_body::origin_transition(d, b);
        assert(origin_body::origin_decode(d, b) == t);
        a_body_until_the_end_is_all_that_arrives(t.decoder, t.rest);
        let count = ingress::least(http1::RESPONSE_BODY_FRAME_LIMIT as nat, b.len()) as int;
        assert(b.subrange(0, count) + b.subrange(count, b.len() as int) =~= b);
    }
}

/// What goes on of the trailers of a message: not what belongs to a hop, not what the trailers or
/// the head nominated, and everything else value by value.
pub proof fn trailers_go_on_without_hop_fields(
    f: Fields,
    nominations: Seq<Seq<u8>>,
    name: Seq<u8>,
)
    requires
        headers::nominations_of(f) is Some,
    ensures
        ({
            let gone = forwarding::stays_on_its_hop(name) || headers::nominations_of(f)->0.contains(
                name,
            ) || headers::lower_all(nominations).contains(name);
            let kept = if gone {
                Seq::<Seq<u8>>::empty()
            } else {
                fields::values_of(f, name)
            };
            &&& fields::values_of(origin_body::forwarded_trailers(f, nominations), name) == kept
            &&& forward::request_trailers(f, nominations) matches Some(sent) && fields::values_of(
                sent,
                name,
            ) == kept
        }),
{
    forwarding::lemma_sanitized(f, name);
    let clean = headers::sanitized(f, headers::nominations_of(f)->0);
    headers::lemma_removed_all(clean, headers::lower_all(nominations), name);
}

/// No trailer may change where a message ends or where it goes.
pub proof fn no_trailer_frames_a_message(f: Fields)
    ensures
        http1::free_of(f, http1::forbidden_trailers()) <==> !fields::has(
            f,
            octets::octets("content-length"@),
        ) && !fields::has(f, octets::octets("transfer-encoding"@)) && !fields::has(
            f,
            octets::octets("host"@),
        ) && !fields::has(f, octets::octets("connection"@)) && !fields::has(
            f,
            octets::octets("trailer"@),
        ) && !fields::has(f, octets::octets("te"@)) && !fields::has(
            f,
            octets::octets("proxy-authorization"@),
        ) && !fields::has(f, octets::octets("proxy-authenticate"@)),
{
    let n = http1::forbidden_trailers();
    if http1::free_of(f, n) {
        assert(!fields::has(f, n[0]) && !fields::has(f, n[1]) && !fields::has(f, n[2])
            && !fields::has(f, n[3]) && !fields::has(f, n[4]) && !fields::has(f, n[5])
            && !fields::has(f, n[6]) && !fields::has(f, n[7]));
    }
}

/// No trailer of a response may either, and none may add to the `Via` chain.
pub proof fn no_response_trailer_frames_a_message(f: Fields)
    ensures
        http1::free_of(f, origin_body::forbidden_origin_trailers()) <==> http1::free_of(
            f,
            http1::forbidden_trailers(),
        ) && !fields::has(f, octets::octets("keep-alive"@)) && !fields::has(
            f,
            octets::octets("proxy-connection"@),
        ) && !fields::has(f, octets::octets("upgrade"@)) && !fields::has(f, octets::octets("via"@)),
{
    no_trailer_frames_a_message(f);
    let n = origin_body::forbidden_origin_trailers();
    if http1::free_of(f, n) {
        assert(!fields::has(f, n[0]) && !fields::has(f, n[1]) && !fields::has(f, n[2])
            && !fields::has(f, n[3]) && !fields::has(f, n[4]) && !fields::has(f, n[5])
            && !fields::has(f, n[6]) && !fields::has(f, n[7]) && !fields::has(f, n[8])
            && !fields::has(f, n[9]) && !fields::has(f, n[10]) && !fields::has(f, n[11]));
    }
}

/// The name of a coding other than `chunked`, as a field may hold it.
pub open spec fn is_other_coding(x: Seq<u8>) -> bool {
    fields::is_token(x) && octets::lower(x) != octets::octets("chunked"@)
}

proof fn lemma_coding(x: Seq<u8>)
    requires
        fields::is_token(x),
    ensures
        forall|i: int|
            0 <= i < x.len() ==> #[trigger] x[i] != 34 && x[i] != 44 && x[i] != 59 && x[i] != 32 && x[i]
                != 9,
        fields::trim_blank(x) == x,
        http1::is_transfer_coding(x),
        !x.contains(59u8),
        http1::is_chunked(x) <==> octets::lower(x) == octets::octets("chunked"@),
{
    crate::laws::responses::lemma_message_keys();
    assert forall|i: int| 0 <= i < x.len() implies #[trigger] x[i] != 34 && x[i] != 44 && x[i] != 59
        && x[i] != 32 && x[i] != 9 by {
        assert(fields::is_token_octet(x[i]));
    }
    assert(fields::trim_blank(x) == x);
    a_value_is_split_at_its_delimiters(x, 59u8, x);
    let p = seq![x];
    assert(p[0] == x);
    octets::lemma_first_at_is(x, 59u8, 0, x.len() as int);
    assert(x.subrange(0, x.len() as int) =~= x);
}

proof fn lemma_two_codings(x: Seq<u8>, y: Seq<u8>)
    requires
        fields::is_token(x),
        fields::is_token(y),
    ensures
        http1::codings_of(seq![x]) == Some(seq![x]),
        http1::codings_of(seq![x.push(44u8) + (seq![32u8] + y)]) == Some(seq![x, y]),
{
    lemma_coding(x);
    lemma_coding(y);
    let b = seq![32u8] + y;
    let v = x.push(44u8) + b;
    a_value_is_split_at_its_delimiters(x, 44u8, b);
    assert forall|i: int| 0 <= i < b.len() implies #[trigger] b[i] != 34 && b[i] != 44 by {
        if i > 0 {
            assert(b[i] == y[i - 1]);
        }
    }
    a_value_is_split_at_its_delimiters(b, 44u8, x);
    let p = seq![x] + seq![b];
    assert(b.drop_first() =~= y);
    assert(fields::trim_blank_start(b) == fields::trim_blank_start(y));
    assert(fields::trim_blank(b) == y);
    let none = Seq::<Seq<u8>>::empty();
    assert(http1::codings_of(none) == Some(none));
    let one = seq![x];
    assert(one.drop_first() =~= none);
    assert(one[0] == x);
    let px = seq![x];
    assert(Seq::new(px.len(), |i: int| fields::trim_blank(px[i])) + none =~= seq![x]);
    let vs = seq![v];
    assert(vs.drop_first() =~= none);
    assert(vs[0] == v);
    assert(http1::split_outside_quotes(v, ',' as u8) == Some(p));
    assert(Seq::new(p.len(), |i: int| fields::trim_blank(p[i])) + none =~= seq![x, y]);
}

/// A body in other codings is in chunks where `chunked` is the last of them. A request must end so; a
/// response need not, and then ends with its connection.
pub proof fn chunked_comes_last(x: Seq<u8>)
    requires
        is_other_coding(x),
    ensures
        ({
            let chunked = octets::octets("chunked"@);
            let first = chunked.push(',' as u8) + (seq![' ' as u8] + x);
            let last = x.push(',' as u8) + (seq![' ' as u8] + chunked);
            let twice = chunked.push(',' as u8) + (seq![' ' as u8] + chunked);
            &&& http1::request_chunked(seq![last]) == Some(true)
            &&& http1::request_chunked(seq![first]) is None
            &&& http1::request_chunked(seq![twice]) is None
            &&& http1::request_chunked(seq![x]) is None
            &&& http1::origin_coding(seq![last]) == Some(
                http1::OriginTransferCoding::FinalChunked { has_prior: true },
            )
            &&& http1::origin_coding(seq![first]) is None
            &&& http1::origin_coding(seq![twice]) is None
            &&& http1::origin_coding(seq![x]) == Some(http1::OriginTransferCoding::FinalNonChunked)
        }),
{
    reveal_strlit("chunked");
    headers::lemma_plain_name("chunked"@);
    let chunked = octets::octets("chunked"@);
    lemma_coding(chunked);
    lemma_coding(x);
    lemma_two_codings(x, chunked);
    lemma_two_codings(chunked, x);
    lemma_two_codings(chunked, chunked);
    let a = seq![x, chunked];
    let b = seq![chunked, x];
    let c = seq![chunked, chunked];
    let d = seq![x];
    assert(a.last() == chunked && b.last() == x && c.last() == chunked && d.last() == x);
    assert(b[0] == chunked && c[0] == chunked);
    assert(http1::codings_ordered(a)) by {
        assert(a[0] == x && a[1] == chunked);
    }
    assert(http1::codings_ordered(d)) by {
        assert(d[0] == x);
    }
    assert(!http1::codings_ordered(b));
    assert(!http1::codings_ordered(c));
}

} // verus!
