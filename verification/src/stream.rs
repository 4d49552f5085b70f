//! The bytes that were read from a stream, kept until the next split.

use vstd::prelude::*;
use vstd::slice::slice_subrange;

verus! {

/// The buffer of an input that reads from a stream.
///
/// All bytes that were taken from the stream are kept. Those that were
/// asked for are counted by the position. A byte may be taken ahead of
/// being asked for, to see whether the stream has ended.
pub struct StreamBuffer {
    data: Vec<u8>,
    pos: usize,
}

impl StreamBuffer {
    /// The invariant of the buffer: the position lies within the bytes
    /// that are kept.
    pub closed spec fn valid(&self) -> bool {
        self.pos <= self.data@.len()
    }

    /// All bytes that were taken from the stream since the last split.
    pub closed spec fn taken(&self) -> Seq<u8> {
        self.data@
    }

    /// The number of bytes that were asked for since the last split.
    pub closed spec fn position(&self) -> nat {
        self.pos as nat
    }

    /// A buffer that holds nothing.
    pub fn new() -> (r: Self)
        ensures
            r.valid(),
            r.taken() == Seq::<u8>::empty(),
            r.position() == 0,
    {
        StreamBuffer { data: Vec::new(), pos: 0 }
    }

    /// The number of bytes that were asked for.
    pub fn pos(&self) -> (r: usize)
        requires
            self.valid(),
        ensures
            r == self.position(),
            self.position() <= self.taken().len(),
    {
        self.pos
    }

    /// The bytes that were asked for.
    pub fn bytes(&self) -> (r: &[u8])
        requires
            self.valid(),
        ensures
            r@ == self.taken().take(self.position() as int),
    {
        let r = slice_subrange(self.data.as_slice(), 0, self.pos);
        assert(r@ =~= self.taken().take(self.position() as int));
        r
    }

    /// The number of bytes that were taken from the stream but not asked
    /// for yet.
    pub fn ahead(&self) -> (r: usize)
        requires
            self.valid(),
        ensures
            r == self.taken().len() - self.position(),
    {
        self.data.len() - self.pos
    }

    /// The number of bytes that must be taken from the stream before `n`
    /// more bytes can be handed out.
    pub fn missing(&self, n: usize) -> (r: usize)
        requires
            self.valid(),
        ensures
            r == if n <= self.taken().len() - self.position() {
                0
            } else {
                n - (self.taken().len() - self.position())
            },
    {
        let ahead = self.ahead();
        if n <= ahead {
            0
        } else {
            n - ahead
        }
    }

    /// Keeps bytes that were taken from the stream.
    pub fn supply(&mut self, bytes: &mut Vec<u8>)
        requires
            old(self).valid(),
        ensures
            final(self).valid(),
            final(self).taken() == old(self).taken() + old(bytes)@,
            final(self).position() == old(self).position(),
            final(bytes)@ == Seq::<u8>::empty(),
    {
        self.data.append(bytes);
    }

    /// Keeps one byte that was taken from the stream.
    pub fn supply_one(&mut self, byte: u8)
        requires
            old(self).valid(),
        ensures
            final(self).valid(),
            final(self).taken() == old(self).taken().push(byte),
            final(self).position() == old(self).position(),
    {
        self.data.push(byte);
    }

    /// Hands out `n` more of the bytes that are kept, if there are as
    /// many.
    pub fn advance(&mut self, n: usize) -> (r: bool)
        requires
            old(self).valid(),
        ensures
            final(self).valid(),
            final(self).taken() == old(self).taken(),
            r == (n <= old(self).taken().len() - old(self).position()),
            r ==> final(self).position() == old(self).position() + n,
            !r ==> final(self).position() == old(self).position(),
    {
        if n <= self.data.len() - self.pos {
            self.pos = self.pos + n;
            true
        } else {
            false
        }
    }

    /// Returns the bytes that were asked for and forgets about them. The
    /// bytes that were taken ahead are kept.
    pub fn split_here(&mut self) -> (r: Vec<u8>)
        requires
            old(self).valid(),
        ensures
            final(self).valid(),
            r@ == old(self).taken().take(old(self).position() as int),
            final(self).taken() == old(self).taken().skip(old(self).position() as int),
            final(self).position() == 0,
    {
        let ghost before = self.data@;
        let rest = self.data.split_off(self.pos);
        let ghost head = self.data@;
        let mut taken = Vec::new();
        taken.append(&mut self.data);
        let mut rest = rest;
        self.data.append(&mut rest);
        self.pos = 0;
        proof {
            assert(taken@ =~= before.take(old(self).position() as int));
            assert(self.data@ =~= before.skip(old(self).position() as int));
        }
        taken
    }
}

} // verus!
