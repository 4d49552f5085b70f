//! Byte sources that a reader parses from.

use vstd::prelude::*;
use vstd::slice::slice_subrange;
use crate::error::{ParserError, ParserResult};

verus! {

/// The bytes that a record keeps: borrowed from the caller or owned.
pub trait Data {
    /// The bytes held.
    spec fn content(&self) -> Seq<u8>;

    /// A slice of all bytes held.
    fn bytes(&self) -> (s: &[u8])
        ensures
            s@ == self.content(),
    ;
}

impl<'a> Data for &'a [u8] {
    open spec fn content(&self) -> Seq<u8> {
        self@
    }

    fn bytes(&self) -> (s: &[u8]) {
        *self
    }
}

impl Data for Vec<u8> {
    open spec fn content(&self) -> Seq<u8> {
        self@
    }

    fn bytes(&self) -> (s: &[u8]) {
        self.as_slice()
    }
}

/// A replaceable type to provide input to a `Reader`.
///
/// An input hands out the bytes of its source one after the other. What it
/// has handed out since it was last split is kept and can be looked at.
///
/// What the functions of an input do is stated over four descriptions of
/// it, which each implementation gives for itself: whether it is in order,
/// the bytes of its source, how many of them were read, and whether
/// reading may fail. As they stand here they describe an empty source.
pub trait Input: Sized {
    /// The input type.
    type Source;

    /// The type that is used to store the input data.
    type Data: Data;

    /// The invariant of the input.
    open spec fn valid(&self) -> bool {
        true
    }

    /// All bytes that the source holds from the last split on: those read
    /// and those still to come.
    open spec fn source(&self) -> Seq<u8> {
        Seq::empty()
    }

    /// The number of bytes read since the last split.
    open spec fn position(&self) -> nat {
        0
    }

    /// Whether reading may fail for a reason other than the end of the
    /// source.
    open spec fn fallible(&self) -> bool {
        true
    }

    /// Creates a new `Input` from `Source`.
    fn new(input: Self::Source) -> (r: Self)
        ensures
            r.valid(),
            r.position() == 0,
    ;

    /// Returns the current position of the reader.
    ///
    /// This is equivalent to the number of bytes read.
    fn pos(&self) -> (p: usize)
        requires
            self.valid(),
        ensures
            p == self.position(),
    ;

    /// Returns a slice of all read bytes.
    fn bytes(&self) -> (s: &[u8])
        requires
            self.valid(),
        ensures
            s@ == self.source().take(self.position() as int),
    ;

    /// Reads the next byte.
    fn read_next(&mut self) -> (r: ParserResult<()>)
        requires
            old(self).valid(),
        ensures
            match r {
                Ok(_) => {
                    &&& final(self).valid()
                    &&& final(self).source() == old(self).source()
                    &&& final(self).fallible() == old(self).fallible()
                    &&& final(self).position() == old(self).position() + 1
                    &&& final(self).position() <= final(self).source().len()
                },
                Err(e) => {
                    ||| e@ is UnexpectedEof && old(self).position() == old(self).source().len()
                    ||| e@ is IoError && old(self).fallible()
                },
            },
    ;

    /// Reads `n` bytes.
    fn read_n(&mut self, n: usize) -> (r: ParserResult<()>)
        requires
            old(self).valid(),
        ensures
            match r {
                Ok(_) => {
                    &&& final(self).valid()
                    &&& final(self).source() == old(self).source()
                    &&& final(self).fallible() == old(self).fallible()
                    &&& final(self).position() == old(self).position() + n
                    &&& final(self).position() <= final(self).source().len()
                },
                Err(e) => {
                    ||| e@ is UnexpectedEof && old(self).position() + n > old(self).source().len()
                    ||| e@ is IoError && old(self).fallible()
                },
            },
    ;

    /// Checks whether there are more bytes to read.
    ///
    /// Internal data might be modified by calling this, but nothing that
    /// the other functions show.
    fn is_empty(&mut self) -> (r: ParserResult<bool>)
        requires
            old(self).valid(),
        ensures
            match r {
                Ok(b) => {
                    &&& final(self).valid()
                    &&& final(self).source() == old(self).source()
                    &&& final(self).fallible() == old(self).fallible()
                    &&& final(self).position() == old(self).position()
                    &&& b == (old(self).position() == old(self).source().len())
                },
                Err(e) => e@ is IoError && old(self).fallible(),
            },
    ;

    /// Returns and forgets about the data read until now.
    ///
    /// Leaves itself as if newly created, but keeps the `Source`.
    fn split_here(&mut self) -> (r: Self::Data)
        requires
            old(self).valid(),
        ensures
            r.content() == old(self).source().take(old(self).position() as int),
            final(self).valid(),
            final(self).fallible() == old(self).fallible(),
            final(self).position() == 0,
            final(self).source() == old(self).source().skip(old(self).position() as int),
    ;
}

/// `Input` implementation for byte array.
pub struct ArrayInput<'a> {
    input: &'a [u8],
    start: usize,
    pos: usize,
}

impl<'a> ArrayInput<'a> {
    /// The whole array that the input reads from.
    pub closed spec fn array(&self) -> Seq<u8> {
        self.input@
    }

    /// The number of bytes of the array that were split off.
    pub closed spec fn offset(&self) -> nat {
        self.start as nat
    }
}

impl<'a> Input for ArrayInput<'a> {
    type Source = &'a [u8];

    type Data = &'a [u8];

    closed spec fn valid(&self) -> bool {
        self.start <= self.pos <= self.input@.len()
    }

    closed spec fn source(&self) -> Seq<u8> {
        self.input@.skip(self.start as int)
    }

    closed spec fn position(&self) -> nat {
        (self.pos - self.start) as nat
    }

    open spec fn fallible(&self) -> bool {
        false
    }

    fn new(input: &'a [u8]) -> (r: Self)
        ensures
            r.source() == input@,
            r.array() == input@,
            r.offset() == 0,
    {
        ArrayInput { input, start: 0, pos: 0 }
    }

    fn pos(&self) -> (p: usize) {
        self.pos - self.start
    }

    fn bytes(&self) -> (s: &[u8]) {
        slice_subrange(self.input, self.start, self.pos)
    }

    fn read_next(&mut self) -> (r: ParserResult<()>)
        ensures
            r is Err ==> *final(self) == *old(self),
    {
        if self.pos >= self.input.len() {
            Err(ParserError::UnexpectedEof)
        } else {
            self.pos += 1;
            Ok(())
        }
    }

    fn read_n(&mut self, n: usize) -> (r: ParserResult<()>)
        ensures
            r is Err ==> *final(self) == *old(self),
    {
        if n > self.input.len() - self.pos {
            Err(ParserError::UnexpectedEof)
        } else {
            self.pos += n;
            Ok(())
        }
    }

    fn is_empty(&mut self) -> (r: ParserResult<bool>)
        ensures
            r is Ok,
            *final(self) == *old(self),
    {
        Ok(self.pos == self.input.len())
    }

    fn split_here(&mut self) -> (r: &'a [u8])
        ensures
            final(self).array() == old(self).array(),
    {
        let ret = slice_subrange(self.input, self.start, self.pos);
        self.start = self.pos;
        ret
    }
}

} // verus!
