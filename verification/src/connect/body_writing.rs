//! Laws of a request body on its way: it goes on whole, in the frames that it came in.
use crate::connect::forward;
use crate::connect::forward::{RequestWriter, StageStep};
use crate::fields::Fields;
use crate::octets;
use crate::server::framing;
use crate::server::http1::{BodyFraming, REQUEST_BODY_FRAME_LIMIT};
use crate::server::ingress;
use crate::server::ingress::{ConnectionModel, DecoderState, StepModel};
use vstd::prelude::*;

verus! {

/// A writer and the client whose body it writes.
pub struct Sending {
    pub writer: RequestWriter,
    pub client: ConnectionModel,
}

/// What may happen next while a body is sent on.
pub enum SendStep {
    /// Octets come from the client.
    Arrive(Seq<u8>),
    /// The writer stages a piece, or asks for octets.
    Stage(StageStep),
    /// The origin takes so many octets of the current piece.
    Write(nat),
    /// The origin is flushed.
    Flush,
}

/// One step, as the operations of a writer make it. A step that fails is none.
pub open spec fn takes(s: Sending, step: SendStep, n: Sending) -> bool {
    match step {
        SendStep::Arrive(more) => {
            &&& n.writer == s.writer
            &&& n.client == (ConnectionModel { pending: s.client.pending + more, ..s.client })
        },
        SendStep::Stage(r) => {
            &&& !s.writer.writing()
            &&& !s.writer.flushing()
            &&& !(r is Failed)
            &&& forward::same_body(s.writer, n.writer)
            &&& n.writer.spec_complete() == s.writer.spec_complete()
            &&& if s.writer.starved() {
                forward::frame_staged(s.writer, s.client, r, n.writer, n.client)
            } else {
                forward::piece_staged(s.writer, n.writer) && n.client == s.client
            }
        },
        SendStep::Write(count) => {
            &&& s.writer.writing()
            &&& 0 < count <= s.writer.current().len()
            &&& forward::same_body(s.writer, n.writer)
            &&& n.writer.spec_complete() == s.writer.spec_complete()
            &&& forward::piece_written(s.writer, count, n.writer)
            &&& n.client == s.client
        },
        SendStep::Flush => {
            &&& s.writer.flushing()
            &&& n.writer.flushing()
            &&& n.writer.spec_complete()
            &&& forward::same_body(s.writer, n.writer)
            &&& n.writer.pieces() == s.writer.pieces()
            &&& n.writer.ending() == s.writer.ending()
            &&& n.writer.spec_decoder() == s.writer.spec_decoder()
            &&& n.client == s.client
        },
    }
}

/// Where a run has led.
pub open spec fn reached(s: Sending, run: Seq<(SendStep, Sending)>) -> Sending {
    if run.len() == 0 {
        s
    } else {
        run.last().1
    }
}

/// Every step of a run is one that may happen.
pub open spec fn runs(s: Sending, run: Seq<(SendStep, Sending)>) -> bool
    decreases run.len(),
{
    run.len() == 0 || {
        let before = run.drop_last();
        runs(s, before) && takes(reached(s, before), run.last().0, run.last().1)
    }
}

/// The octets that the origin took in a run.
pub open spec fn written(s: Sending, run: Seq<(SendStep, Sending)>) -> Seq<u8>
    decreases run.len(),
{
    if run.len() == 0 {
        Seq::empty()
    } else {
        let before = run.drop_last();
        match run.last().0 {
            SendStep::Write(count) => written(s, before) + reached(
                s,
                before,
            ).writer.current().subrange(0, count as int),
            _ => written(s, before),
        }
    }
}

/// The octets that came from the client in a run.
pub open spec fn arrived(s: Sending, run: Seq<(SendStep, Sending)>) -> Seq<u8>
    decreases run.len(),
{
    if run.len() == 0 {
        s.client.pending
    } else {
        match run.last().0 {
            SendStep::Arrive(more) => arrived(s, run.drop_last()) + more,
            _ => arrived(s, run.drop_last()),
        }
    }
}

/// The frames that were taken from the client in a run, the end of the body as the last.
pub open spec fn frames(s: Sending, run: Seq<(SendStep, Sending)>) -> Seq<StepModel>
    decreases run.len(),
{
    if run.len() == 0 {
        Seq::empty()
    } else {
        let before = run.drop_last();
        let at = reached(s, before);
        match run.last().0 {
            SendStep::Stage(StageStep::Staged) => if at.writer.starved() {
                frames(s, before).push(
                    ingress::decode(at.writer.spec_decoder(), at.client.pending).step->0,
                )
            } else {
                frames(s, before)
            },
            _ => frames(s, before),
        }
    }
}

/// What frames become on the wire, one behind the other.
pub open spec fn wire_of(
    frames: Seq<StepModel>,
    chunked: bool,
    nominations: Seq<Seq<u8>>,
) -> Seq<u8>
    decreases frames.len(),
{
    if frames.len() == 0 {
        Seq::empty()
    } else {
        wire_of(frames.drop_last(), chunked, nominations) + (forward::framed(
            frames.last(),
            chunked,
            nominations,
        )->0).0
    }
}

/// The data of frames, one behind the other.
pub open spec fn data_of(frames: Seq<StepModel>) -> Seq<u8>
    decreases frames.len(),
{
    if frames.len() == 0 {
        Seq::empty()
    } else {
        data_of(frames.drop_last()) + framing::piece_data(Some(frames.last()))
    }
}

/// The trailers of frames.
pub open spec fn trailers_of(frames: Seq<StepModel>) -> Seq<Fields>
    decreases frames.len(),
{
    if frames.len() == 0 {
        Seq::empty()
    } else {
        trailers_of(frames.drop_last()) + framing::piece_trailers(Some(frames.last()))
    }
}

/// The frames of a body: data that is not empty and fits in a frame, and then the end, with or
/// without trailers, where the body has ended.
pub open spec fn are_frames(frames: Seq<StepModel>, ended: bool) -> bool {
    &&& ended ==> frames.len() > 0 && ingress::ends_body(Some(frames.last()))
    &&& forall|i: int|
        0 <= i < frames.len() - (if ended {
            1int
        } else {
            0int
        }) ==> (#[trigger] frames[i] matches StepModel::Data(data) && 0 < data.len()
            <= REQUEST_BODY_FRAME_LIMIT)
}

/// What has been read of the body and what is still to come are the body, whatever comes.
spec fn reads_whole(
    start: ingress::DecoderModel,
    came: Seq<u8>,
    data: Seq<u8>,
    trailers: Seq<Fields>,
    at: ingress::DecoderModel,
    pending: Seq<u8>,
) -> bool {
    forall|b: Seq<u8>|
        {
            &&& framing::delivered(start, #[trigger] (came + b)) == data + framing::delivered(
                at,
                pending + b,
            )
            &&& framing::delivered_trailers(start, came + b) == trailers
                + framing::delivered_trailers(at, pending + b)
        }
}

proof fn lemma_more_arrives(
    start: ingress::DecoderModel,
    came: Seq<u8>,
    data: Seq<u8>,
    trailers: Seq<Fields>,
    at: ingress::DecoderModel,
    pending: Seq<u8>,
    more: Seq<u8>,
)
    requires
        reads_whole(start, came, data, trailers, at, pending),
    ensures
        reads_whole(start, came + more, data, trailers, at, pending + more),
{
    assert forall|b: Seq<u8>|
        {
            &&& framing::delivered(start, #[trigger] (came + more + b)) == data
                + framing::delivered(at, pending + more + b)
            &&& framing::delivered_trailers(start, came + more + b) == trailers
                + framing::delivered_trailers(at, pending + more + b)
        } by {
        assert(came + more + b =~= came + (more + b));
        assert(pending + more + b =~= pending + (more + b));
    }
}

/// A step of the decoder hands out what would be read in any case.
proof fn lemma_frame_read(
    start: ingress::DecoderModel,
    came: Seq<u8>,
    data: Seq<u8>,
    trailers: Seq<Fields>,
    at: ingress::DecoderModel,
    pending: Seq<u8>,
)
    requires
        reads_whole(start, came, data, trailers, at, pending),
        ingress::decoder_valid(at),
        ingress::decode(at, pending).step is Some,
        !(ingress::decode(at, pending).step->0 is Failed),
    ensures
        ({
            let t = ingress::decode(at, pending);
            reads_whole(
                start,
                came,
                data + framing::piece_data(t.step),
                trailers + framing::piece_trailers(t.step),
                t.decoder,
                t.rest,
            )
        }),
{
    let t = ingress::decode(at, pending);
    let x = framing::piece_data(t.step);
    let y = framing::piece_trailers(t.step);
    assert forall|b: Seq<u8>|
        {
            &&& framing::delivered(start, #[trigger] (came + b)) == data + x
                + framing::delivered(t.decoder, t.rest + b)
            &&& framing::delivered_trailers(start, came + b) == trailers + y
                + framing::delivered_trailers(t.decoder, t.rest + b)
        } by {
        framing::lemma_decode_then(at, pending, b);
        assert(data + (x + framing::delivered(t.decoder, t.rest + b)) =~= data + x
            + framing::delivered(t.decoder, t.rest + b));
        assert(trailers + (y + framing::delivered_trailers(t.decoder, t.rest + b)) =~= trailers + y
            + framing::delivered_trailers(t.decoder, t.rest + b));
    }
}

/// What holds of a run at each of its steps.
spec fn on_the_way(s: Sending, run: Seq<(SendStep, Sending)>) -> bool {
    let n = reached(s, run);
    let all = frames(s, run);
    let chunked = s.writer.spec_chunked();
    let nominations = s.writer.spec_nominations();
    &&& n.writer.spec_chunked() == chunked
    &&& n.writer.spec_nominations() == nominations
    &&& written(s, run) + n.writer.outstanding() == wire_of(all, chunked, nominations)
    &&& are_frames(all, n.writer.ending())
    &&& n.writer.ending() ==> n.writer.spec_decoder().state is Complete
    &&& ingress::decoder_valid(n.writer.spec_decoder())
    &&& ingress::decoder_holds(n.writer.spec_decoder())
    &&& n.writer.spec_complete() ==> n.writer.flushing()
    &&& reads_whole(
        s.writer.spec_decoder(),
        arrived(s, run),
        data_of(all),
        trailers_of(all),
        n.writer.spec_decoder(),
        n.client.pending,
    )
}

/// A writer that has not begun.
pub open spec fn fresh(s: Sending, framing: BodyFraming) -> bool {
    &&& s.writer.starved()
    &&& !s.writer.spec_complete()
    &&& s.writer.spec_chunked() == (framing is Chunked)
    &&& s.writer.spec_decoder() == ingress::initial_decoder(framing)
}

proof fn lemma_start(s: Sending, framing: BodyFraming)
    requires
        fresh(s, framing),
    ensures
        on_the_way(s, Seq::empty()),
{
    let run = Seq::<(SendStep, Sending)>::empty();
    forward::a_resting_writer_has_written_all(s.writer);
    crate::weight::lemma_nothing();
    assert(s.writer.pieces() =~= Seq::empty());
    assert(written(s, run) + s.writer.outstanding() =~= Seq::empty());
    let d = s.writer.spec_decoder();
    assert forall|b: Seq<u8>|
        {
            &&& framing::delivered(d, #[trigger] (s.client.pending + b)) == Seq::<u8>::empty()
                + framing::delivered(d, s.client.pending + b)
            &&& framing::delivered_trailers(d, s.client.pending + b) == Seq::<Fields>::empty()
                + framing::delivered_trailers(d, s.client.pending + b)
        } by {
        let a = s.client.pending + b;
        assert(Seq::<u8>::empty() + framing::delivered(d, a) =~= framing::delivered(d, a));
        assert(Seq::<Fields>::empty() + framing::delivered_trailers(d, a)
            =~= framing::delivered_trailers(d, a));
    }
}

/// A frame that is staged joins the frames of the run.
proof fn lemma_frame_step(s: Sending, run: Seq<(SendStep, Sending)>)
    requires
        run.len() > 0,
        runs(s, run),
        on_the_way(s, run.drop_last()),
        run.last().0 == SendStep::Stage(StageStep::Staged),
        reached(s, run.drop_last()).writer.starved(),
    ensures
        on_the_way(s, run),
{
    let before = run.drop_last();
    let m = reached(s, before);
    let n = run.last().1;
    let old = frames(s, before);
    let all = frames(s, run);
    let t = ingress::decode(m.writer.spec_decoder(), m.client.pending);
    let step = t.step->0;
    forward::a_resting_writer_has_written_all(m.writer);
    ingress::lemma_decode_holds(m.writer.spec_decoder(), m.client.pending);
    assert(m.writer.outstanding() =~= Seq::empty());
    assert(all == old.push(step));
    assert(all.drop_last() =~= old);
    assert(written(s, before) + m.writer.outstanding() =~= written(s, before));
    assert(written(s, run) == written(s, before));
    lemma_frame_read(
        s.writer.spec_decoder(),
        arrived(s, before),
        data_of(old),
        trailers_of(old),
        m.writer.spec_decoder(),
        m.client.pending,
    );
    assert forall|i: int|
        0 <= i < all.len() - (if n.writer.ending() {
            1int
        } else {
            0int
        }) implies (#[trigger] all[i] matches StepModel::Data(data) && 0 < data.len()
        <= REQUEST_BODY_FRAME_LIMIT) by {
        if i < old.len() {
            assert(all[i] == old[i]);
        }
    }
}

/// A step that is no new frame.
proof fn lemma_other_step(s: Sending, run: Seq<(SendStep, Sending)>)
    requires
        run.len() > 0,
        runs(s, run),
        on_the_way(s, run.drop_last()),
        !(run.last().0 == SendStep::Stage(StageStep::Staged) && reached(
            s,
            run.drop_last(),
        ).writer.starved()),
    ensures
        on_the_way(s, run),
{
    let before = run.drop_last();
    let m = reached(s, before);
    let n = run.last().1;
    let all = frames(s, before);
    assert(frames(s, run) == all);
    match run.last().0 {
        SendStep::Arrive(more) => {
            lemma_more_arrives(
                s.writer.spec_decoder(),
                arrived(s, before),
                data_of(all),
                trailers_of(all),
                m.writer.spec_decoder(),
                m.client.pending,
                more,
            );
        },
        SendStep::Stage(r) => {
            forward::a_resting_writer_has_written_all(m.writer);
            if m.writer.starved() {
                let t = ingress::decode(m.writer.spec_decoder(), m.client.pending);
                ingress::lemma_decode_holds(m.writer.spec_decoder(), m.client.pending);
                forward::a_resting_writer_has_written_all(n.writer);
                assert(n.writer.pieces() =~= m.writer.pieces());
                lemma_frame_read(
                    s.writer.spec_decoder(),
                    arrived(s, before),
                    data_of(all),
                    trailers_of(all),
                    m.writer.spec_decoder(),
                    m.client.pending,
                );
                assert(data_of(all) + framing::piece_data(t.step) =~= data_of(all));
                assert(trailers_of(all) + framing::piece_trailers(t.step) =~= trailers_of(all));
            }
        },
        SendStep::Write(count) => {
            forward::the_current_piece_comes_first(m.writer);
            forward::a_resting_writer_has_written_all(m.writer);
            let left = m.writer.outstanding();
            let gone = m.writer.current().subrange(0, count as int);
            assert(gone =~= left.subrange(0, count as int));
            assert(gone + left.subrange(count as int, left.len() as int) =~= left);
            assert(written(s, before) + gone + n.writer.outstanding() =~= written(s, before) + left);
        },
        SendStep::Flush => {},
    }
}

proof fn lemma_on_the_way(s: Sending, framing: BodyFraming, run: Seq<(SendStep, Sending)>)
    requires
        fresh(s, framing),
        runs(s, run),
    ensures
        on_the_way(s, run),
    decreases run.len(),
{
    if run.len() == 0 {
        lemma_start(s, framing);
        assert(run =~= Seq::empty());
    } else {
        lemma_on_the_way(s, framing, run.drop_last());
        if run.last().0 == SendStep::Stage(StageStep::Staged) && reached(
            s,
            run.drop_last(),
        ).writer.starved() {
            lemma_frame_step(s, run);
        } else {
            lemma_other_step(s, run);
        }
    }
}

/// At every moment of a run, what the origin took and what is staged are the frames that were taken
/// from the client, in the framing of the request.
pub proof fn nothing_is_lost_on_the_way(
    s: Sending,
    framing: BodyFraming,
    run: Seq<(SendStep, Sending)>,
)
    requires
        fresh(s, framing),
        runs(s, run),
    ensures
        written(s, run) + reached(s, run).writer.outstanding() == wire_of(
            frames(s, run),
            framing is Chunked,
            s.writer.spec_nominations(),
        ),
{
    lemma_on_the_way(s, framing, run);
}

/// A request body goes on whole. Once the writer is complete, the origin took the frames that the
/// body decodes to, in the framing of the request: their data is all the data of what the client
/// sent, and their trailers are its trailers. A body that is not chunked goes on as the octets that it
/// announced, the first that came.
pub proof fn a_request_body_goes_on_whole(
    s: Sending,
    framing: BodyFraming,
    run: Seq<(SendStep, Sending)>,
)
    requires
        fresh(s, framing),
        runs(s, run),
        reached(s, run).writer.spec_complete(),
    ensures
        are_frames(frames(s, run), true),
        written(s, run) == wire_of(
            frames(s, run),
            framing is Chunked,
            s.writer.spec_nominations(),
        ),
        data_of(frames(s, run)) == framing::delivered(
            ingress::initial_decoder(framing),
            arrived(s, run),
        ),
        trailers_of(frames(s, run)) == framing::delivered_trailers(
            ingress::initial_decoder(framing),
            arrived(s, run),
        ),
        !(framing is Chunked) ==> announced(framing) <= arrived(s, run).len() && written(s, run)
            == arrived(s, run).subrange(0, announced(framing) as int),
{
    lemma_on_the_way(s, framing, run);
    let n = reached(s, run);
    let all = frames(s, run);
    let none = Seq::<u8>::empty();
    let came = arrived(s, run);
    let at = n.writer.spec_decoder();
    forward::a_resting_writer_has_written_all(n.writer);
    assert(n.writer.pieces() =~= Seq::empty());
    assert(written(s, run) + n.writer.outstanding() =~= written(s, run));
    assert(came + none =~= came);
    let left = n.client.pending + none;
    assert(ingress::transition(at, left) == ingress::stays(at, left, StepModel::Complete));
    assert(ingress::decode(at, left) == ingress::transition(at, left));
    assert(framing::delivered(s.writer.spec_decoder(), came + none) == data_of(all)
        + framing::delivered(at, left));
    assert(data_of(all) + framing::delivered(at, left) =~= data_of(all));
    assert(trailers_of(all) + framing::delivered_trailers(at, left) =~= trailers_of(all));
    if !(framing is Chunked) {
        lemma_unchunked(s, framing, run);
        lemma_plain_wire(all, s.writer.spec_nominations());
        match framing {
            BodyFraming::ContentLength(n) => {
                framing::a_fixed_body_is_its_octets(n, came);
            },
            _ => {
                assert(written(s, run) =~= came.subrange(0, 0));
            },
        }
    }
}

/// How many octets a body without chunks announces.
pub open spec fn announced(framing: BodyFraming) -> nat {
    match framing {
        BodyFraming::ContentLength(n) => n as nat,
        _ => 0,
    }
}

/// The decoder of a body without chunks has handed out so much of what was announced.
spec fn counts(d: ingress::DecoderModel, framing: BodyFraming, out: nat) -> bool {
    ||| d.state matches DecoderState::Fixed { remaining } && remaining + out == announced(framing)
    ||| d.state is Complete && out == announced(framing)
}

/// Only a chunked body has trailers; another counts its octets.
proof fn lemma_unchunked(s: Sending, framing: BodyFraming, run: Seq<(SendStep, Sending)>)
    requires
        fresh(s, framing),
        runs(s, run),
        !(framing is Chunked),
    ensures
        counts(
            reached(s, run).writer.spec_decoder(),
            framing,
            data_of(frames(s, run)).len(),
        ),
        forall|i: int| 0 <= i < frames(s, run).len() ==> !(#[trigger] frames(s, run)[i] is Trailers),
    decreases run.len(),
{
    if run.len() > 0 {
        let before = run.drop_last();
        let m = reached(s, before);
        lemma_unchunked(s, framing, before);
        lemma_plain_decode(m.writer.spec_decoder(), m.client.pending);
        assert(frames(s, run) == frames(s, before) || frames(s, run).drop_last() =~= frames(
            s,
            before,
        ));
    }
}

proof fn lemma_plain_decode(d: ingress::DecoderModel, a: Seq<u8>)
    requires
        d.state is Fixed || d.state is Complete,
    ensures
        ({
            let t = ingress::decode(d, a);
            match t.step {
                Some(StepModel::Data(data)) => d.state matches DecoderState::Fixed { remaining }
                    && data.len() <= remaining && t.decoder.state == (DecoderState::Fixed {
                    remaining: (remaining - data.len()) as u64,
                }),
                Some(StepModel::Complete) => (d.state is Complete || d.state == (
                DecoderState::Fixed { remaining: 0 })) && t.decoder.state is Complete,
                Some(StepModel::NeedInput(_)) => t.decoder == d,
                _ => false,
            }
        }),
{
    let t = ingress::transition(d, a);
    if d.state == (DecoderState::Fixed { remaining: 0 }) {
        assert(t.decoder.state is Complete);
        assert(ingress::transition(t.decoder, a) == ingress::stays(
            t.decoder,
            a,
            StepModel::Complete,
        ));
        assert(ingress::decode(t.decoder, a) == ingress::transition(t.decoder, a));
        assert(ingress::decode(d, a) == ingress::decode(t.decoder, a));
    } else {
        assert(t.step is Some);
        assert(ingress::decode(d, a) == t);
    }
}

/// Frames without chunks and without trailers are their data on the wire.
proof fn lemma_plain_wire(all: Seq<StepModel>, nominations: Seq<Seq<u8>>)
    requires
        forall|i: int|
            0 <= i < all.len() ==> (#[trigger] all[i] is Data || all[i] is Complete),
    ensures
        wire_of(all, false, nominations) == data_of(all),
    decreases all.len(),
{
    if all.len() > 0 {
        assert forall|i: int| 0 <= i < all.drop_last().len() implies (#[trigger] all.drop_last()[i]
            is Data || all.drop_last()[i] is Complete) by {
            assert(all.drop_last()[i] == all[i]);
        }
        lemma_plain_wire(all.drop_last(), nominations);
        assert(all.last() == all[all.len() - 1]);
    }
}

} // verus!
