//! A buffer of octets that were read and not yet used.
use crate::octets;
use crate::octets::{append, copy, part};
use vstd::prelude::*;

verus! {

/// Octets that arrive at the back and leave at the front.
#[derive(Debug)]
pub struct Window {
    bytes: Vec<u8>,
    start: usize,
}

impl View for Window {
    type V = Seq<u8>;

    closed spec fn view(&self) -> Seq<u8> {
        self.bytes@.subrange(self.start as int, self.bytes@.len() as int)
    }
}

impl Window {
    #[verifier::type_invariant]
    spec fn well_formed(self) -> bool {
        self.start <= self.bytes@.len()
    }

    /// How many used octets still take up room at the front.
    pub closed spec fn used(&self) -> nat {
        self.start as nat
    }

    pub fn new() -> (r: Window)
        ensures
            r@ == Seq::<u8>::empty(),
            r.used() == 0,
    {
        let r = Window { bytes: Vec::new(), start: 0 };
        assert(r@ =~= Seq::empty());
        r
    }

    pub fn len(&self) -> (r: usize)
        ensures
            r == self@.len(),
    {
        proof {
            use_type_invariant(self);
        }
        self.bytes.len() - self.start
    }

    /// The unused octets.
    pub fn available(&self) -> (r: &[u8])
        ensures
            r@ == self@,
    {
        proof {
            use_type_invariant(self);
        }
        part(self.bytes.as_slice(), self.start, self.bytes.len())
    }

    /// Gives the room of the used octets back; the unused octets stay.
    pub fn compact(&mut self)
        ensures
            final(self)@ == old(self)@,
            final(self).used() == 0,
    {
        let kept = copy(self.available());
        let ghost before = self@;
        self.start = 0;
        self.bytes = kept;
        assert(self@ =~= before);
    }

    /// Adds octets at the back, and gives the room of the used octets back.
    pub fn fill(&mut self, more: &[u8])
        ensures
            final(self)@ == old(self)@ + more@,
            final(self).used() == 0,
    {
        let mut kept = copy(self.available());
        let ghost before = self@;
        append(&mut kept, more);
        self.start = 0;
        self.bytes = kept;
        assert(self@ =~= before + more@);
    }

    /// Drops octets at the front.
    pub fn consume(&mut self, count: usize)
        requires
            count <= old(self)@.len(),
        ensures
            final(self)@ == old(self)@.subrange(count as int, old(self)@.len() as int),
            final(self).used() == old(self).used() + count,
    {
        proof {
            use_type_invariant(&*self);
        }
        let ghost before = self@;
        let total: usize = self.bytes.len();
        assert(self.start + count <= total);
        self.start = self.start + count;
        assert(self@ =~= before.subrange(count as int, before.len() as int));
    }

    /// Takes octets off the front.
    pub fn take(&mut self, count: usize) -> (r: Vec<u8>)
        requires
            count <= old(self)@.len(),
        ensures
            r@ == old(self)@.subrange(0, count as int),
            final(self)@ == old(self)@.subrange(count as int, old(self)@.len() as int),
            final(self).used() == old(self).used() + count,
    {
        let out = copy(part(self.available(), 0, count));
        self.consume(count);
        out
    }
}

} // verus!
