//! Relaying the octets of a tunnel.
use crate::octets;
use vstd::prelude::*;

verus! {

/// The most octets that one read of a tunnel takes.
pub const RELAY_BUFFER_BYTES: usize = 32_768;

/// The most octets that one direction of a tunnel holds.
pub const MAX_DIRECTION_BUFFER_BYTES: usize = 65_536;

/// The most octets that may have been read ahead in one direction.
pub const MAX_PREFIX_BYTES: usize = 32_768;

/// A tunnel failed. Nothing else is told of it.
#[derive(Debug, Clone, Copy, PartialEq, Eq, Structural)]
pub struct RelayError;

impl RelayError {
    pub fn message(&self) -> (r: &'static str)
        ensures
            r@ == "CONNECT tunnel I/O failure"@,
    {
        "CONNECT tunnel I/O failure"
    }
}

/// How a tunnel starts.
pub enum RelayStart {
    /// Shutdown was requested: the tunnel ends at once, and well.
    Cancelled,
    /// Relay both directions.
    Relay { upward: Direction, downward: Direction },
}

/// Starts a tunnel with the octets that were read ahead on either side.
pub fn relay(shutdown_requested: bool, downstream_prefix: Vec<u8>, upstream_prefix: Vec<u8>) -> (r:
    Result<RelayStart, RelayError>)
    ensures
        if shutdown_requested {
            r matches Ok(RelayStart::Cancelled)
        } else if downstream_prefix@.len() > MAX_PREFIX_BYTES || upstream_prefix@.len()
            > MAX_PREFIX_BYTES {
            r is Err
        } else {
            r matches Ok(RelayStart::Relay { upward, downward }) && upward@ == started(
                downstream_prefix@,
            ) && downward@ == started(upstream_prefix@)
        },
{
    if shutdown_requested {
        return Ok(RelayStart::Cancelled);
    }
    if downstream_prefix.len() > MAX_PREFIX_BYTES || upstream_prefix.len() > MAX_PREFIX_BYTES {
        return Err(RelayError);
    }
    Ok(
        RelayStart::Relay {
            upward: Direction::new(downstream_prefix),
            downward: Direction::new(upstream_prefix),
        },
    )
}

/// What one direction of a tunnel does next.
#[derive(Debug, Clone, Copy, PartialEq, Eq, Structural)]
pub enum CopyAction {
    /// Write all octets that are held.
    Write,
    /// Read at most 32768 octets.
    Read,
    /// Flush and shut the writing side down.
    Finish,
    Done,
}

/// One direction of a tunnel.
pub struct Direction {
    pending: Vec<u8>,
    ended: bool,
    finished: bool,
    taken: Ghost<Seq<u8>>,
    given: Ghost<Seq<u8>>,
}

/// The octets held, those taken in and those given out so far, and how far the direction has come.
pub struct DirectionModel {
    pub pending: Seq<u8>,
    pub taken: Seq<u8>,
    pub given: Seq<u8>,
    pub ended: bool,
    pub finished: bool,
}

pub open spec fn started(prefix: Seq<u8>) -> DirectionModel {
    DirectionModel {
        pending: prefix,
        taken: prefix,
        given: Seq::empty(),
        ended: false,
        finished: false,
    }
}

/// What a direction does next.
pub open spec fn copy_action(d: DirectionModel) -> CopyAction {
    if d.finished {
        CopyAction::Done
    } else if d.pending.len() > 0 {
        CopyAction::Write
    } else if d.ended {
        CopyAction::Finish
    } else {
        CopyAction::Read
    }
}

impl View for Direction {
    type V = DirectionModel;

    closed spec fn view(&self) -> DirectionModel {
        DirectionModel {
            pending: self.pending@,
            taken: self.taken@,
            given: self.given@,
            ended: self.ended,
            finished: self.finished,
        }
    }
}

impl Direction {
    #[verifier::type_invariant]
    spec fn well_formed(self) -> bool {
        &&& self.given@ + self.pending@ == self.taken@
        &&& self.pending@.len() <= MAX_DIRECTION_BUFFER_BYTES
        &&& self.finished ==> self.ended && self.pending@.len() == 0
    }

    /// A direction that begins with the octets that were read ahead.
    pub fn new(prefix: Vec<u8>) -> (r: Direction)
        requires
            prefix@.len() <= MAX_PREFIX_BYTES,
        ensures
            r@ == started(prefix@),
    {
        let ghost bytes = prefix@;
        assert(Seq::<u8>::empty() + bytes =~= bytes);
        Direction {
            pending: prefix,
            ended: false,
            finished: false,
            taken: Ghost(bytes),
            given: Ghost(Seq::empty()),
        }
    }

    pub fn action(&self) -> (r: CopyAction)
        ensures
            r == copy_action(self@),
    {
        if self.finished {
            CopyAction::Done
        } else if self.pending.len() > 0 {
            CopyAction::Write
        } else if self.ended {
            CopyAction::Finish
        } else {
            CopyAction::Read
        }
    }

    /// The octets to write.
    pub fn bytes(&self) -> (r: &[u8])
        ensures
            r@ == self@.pending,
            r@.len() <= MAX_DIRECTION_BUFFER_BYTES,
    {
        proof {
            use_type_invariant(self);
        }
        self.pending.as_slice()
    }

    /// All octets that were held have been written.
    pub fn written(self) -> (r: Direction)
        ensures
            r@ == (DirectionModel {
                pending: Seq::empty(),
                given: self@.given + self@.pending,
                ..self@
            }),
    {
        proof {
            use_type_invariant(&self);
        }
        let ghost given = self.given@ + self.pending@;
        let pending: Vec<u8> = Vec::new();
        assert(given + pending@ =~= self.taken@);
        Direction {
            pending,
            ended: self.ended,
            finished: self.finished,
            taken: self.taken,
            given: Ghost(given),
        }
    }

    /// A read ended. No octets mean that there are no more.
    pub fn read(self, bytes: &[u8]) -> (r: Direction)
        requires
            copy_action(self@) == CopyAction::Read,
            bytes@.len() <= RELAY_BUFFER_BYTES,
        ensures
            r@ == (if bytes@.len() == 0 {
                DirectionModel { ended: true, ..self@ }
            } else {
                DirectionModel { pending: bytes@, taken: self@.taken + bytes@, ..self@ }
            }),
    {
        proof {
            use_type_invariant(&self);
        }
        if bytes.len() == 0 {
            return Direction {
                pending: self.pending,
                ended: true,
                finished: self.finished,
                taken: self.taken,
                given: self.given,
            };
        }
        let ghost taken = self.taken@ + bytes@;
        proof {
            assert(self.given@ + self.pending@ =~= self.given@);
        }
        Direction {
            pending: octets::copy(bytes),
            ended: self.ended,
            finished: self.finished,
            taken: Ghost(taken),
            given: self.given,
        }
    }

    /// The writing side was flushed and shut down.
    pub fn shut_down(self) -> (r: Direction)
        requires
            copy_action(self@) == CopyAction::Finish,
        ensures
            r@ == (DirectionModel { finished: true, ..self@ }),
            r@.given == r@.taken,
    {
        proof {
            use_type_invariant(&self);
            assert(self.given@ + self.pending@ =~= self.given@);
        }
        Direction {
            pending: self.pending,
            ended: true,
            finished: true,
            taken: self.taken,
            given: self.given,
        }
    }
}

/// What a direction took in is what it gave out followed by what it holds, and at the end it gave
/// out all of it.
pub open spec fn lossless(d: DirectionModel) -> bool {
    &&& d.given + d.pending == d.taken
    &&& d.finished ==> d.given == d.taken
}

/// A tunnel loses, adds and reorders nothing: each step of a direction keeps that what came in is
/// what went out followed by what is held, and at the end all of it went out.
pub proof fn a_tunnel_is_lossless(prefix: Seq<u8>, d: DirectionModel, bytes: Seq<u8>)
    requires
        lossless(d),
    ensures
        lossless(started(prefix)),
        lossless(
            DirectionModel { pending: Seq::empty(), given: d.given + d.pending, ..d },
        ),
        copy_action(d) == CopyAction::Read ==> lossless(
            DirectionModel { pending: bytes, taken: d.taken + bytes, ..d },
        ),
        copy_action(d) == CopyAction::Finish ==> lossless(DirectionModel { finished: true, ..d }),
{
    assert(Seq::<u8>::empty() + prefix =~= prefix);
    assert((d.given + d.pending) + Seq::<u8>::empty() =~= d.given + d.pending);
    if d.pending.len() == 0 {
        assert(d.given + d.pending =~= d.given);
    }
}

} // verus!
