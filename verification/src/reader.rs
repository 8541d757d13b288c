//! A bounds-checked forward cursor over a borrowed byte buffer.

use crate::endian::{read_u16_le, read_u32_be, read_u32_le, u16_from_le, u32_from_be, u32_from_le};
use crate::error::Error;
use vstd::prelude::*;
use vstd::slice::slice_subrange;

verus! {

/// The `n` bytes that start `at` bytes into `bytes`.
pub open spec fn window(bytes: Seq<u8>, at: int, n: int) -> Seq<u8> {
    bytes.subrange(at, at + n)
}

/// A read position in a byte buffer that the reader borrows and never
/// changes. The position never passes the end of the buffer: a read that
/// asks for more than is left fails and leaves the position where it was.
pub struct Reader<'d> {
    data: &'d [u8],
    offset: usize,
}

/// `TryFrom<&[u8]>` for `&[u8; N]` of the standard library: the slice seen
/// as an array when it holds exactly `N` bytes, and nothing otherwise.
#[verifier::external_body]
fn as_array<'a, const N: usize>(slice: &'a [u8]) -> (array: Option<&'a [u8; N]>)
    ensures
        array is Some <==> slice@.len() == N,
        array is Some ==> array->0@ == slice@,
{
    slice.try_into().ok()
}

impl<'d> Reader<'d> {
    #[verifier::type_invariant]
    spec fn in_bounds(self) -> bool {
        self.offset <= self.data@.len()
    }

    /// The whole buffer, read and unread.
    pub closed spec fn bytes(&self) -> Seq<u8> {
        self.data@
    }

    /// How many bytes of the buffer have been read.
    pub closed spec fn position(&self) -> int {
        self.offset as int
    }

    /// The bytes that have not been read yet.
    pub open spec fn unread(&self) -> Seq<u8> {
        self.bytes().skip(self.position())
    }

    /// A reader at the start of `data`.
    pub fn new(data: &'d [u8]) -> (reader: Self)
        ensures
            reader.bytes() == data@,
            reader.position() == 0,
    {
        Self { data, offset: 0 }
    }

    /// The unread bytes, without reading them.
    pub fn remainder(&self) -> (rest: &'d [u8])
        ensures
            0 <= self.position() <= self.bytes().len(),
            rest@ == self.unread(),
    {
        proof {
            use_type_invariant(self);
        }
        slice_subrange(self.data, self.offset, self.data.len())
    }

    /// The next `n` bytes, without reading them; `OutOfData` when fewer
    /// than `n` are left.
    pub fn peek_slice(&self, n: usize) -> (r: Result<&'d [u8], Error>)
        ensures
            0 <= self.position() <= self.bytes().len(),
            match r {
                Ok(slice) => {
                    &&& self.position() + n <= self.bytes().len()
                    &&& slice@ == window(self.bytes(), self.position(), n as int)
                },
                Err(e) => e == Error::OutOfData && self.position() + n > self.bytes().len(),
            },
    {
        proof {
            use_type_invariant(self);
        }
        if n <= self.data.len() - self.offset {
            Ok(slice_subrange(self.data, self.offset, self.offset + n))
        } else {
            Err(Error::OutOfData)
        }
    }

    /// Reads the next `n` bytes; `OutOfData` when fewer than `n` are left,
    /// and then nothing is read.
    pub fn read_slice(&mut self, n: usize) -> (r: Result<&'d [u8], Error>)
        ensures
            final(self).bytes() == old(self).bytes(),
            0 <= old(self).position() <= final(self).position() <= old(self).bytes().len(),
            match r {
                Ok(slice) => {
                    &&& final(self).position() == old(self).position() + n
                    &&& slice@ == window(old(self).bytes(), old(self).position(), n as int)
                },
                Err(e) => {
                    &&& e == Error::OutOfData
                    &&& old(self).position() + n > old(self).bytes().len()
                    &&& final(self).position() == old(self).position()
                },
            },
    {
        let slice = self.peek_slice(n)?;
        assert(self.offset + n <= self.data.len());
        self.offset = self.offset + n;
        Ok(slice)
    }

    /// The next `N` bytes as an array, without reading them; `OutOfData`
    /// when fewer than `N` are left.
    pub fn peek_n<const N: usize>(&mut self) -> (r: Result<&'d [u8; N], Error>)
        ensures
            final(self).bytes() == old(self).bytes(),
            final(self).position() == old(self).position(),
            0 <= old(self).position() <= old(self).bytes().len(),
            match r {
                Ok(array) => {
                    &&& old(self).position() + N <= old(self).bytes().len()
                    &&& array@ == window(old(self).bytes(), old(self).position(), N as int)
                },
                Err(e) => e == Error::OutOfData && old(self).position() + N > old(self).bytes().len(),
            },
    {
        let slice = self.peek_slice(N)?;
        match as_array::<N>(slice) {
            Some(array) => Ok(array),
            None => Err(Error::OutOfData),
        }
    }

    /// Reads the next `N` bytes as an array; `OutOfData` when fewer than `N`
    /// are left, and then nothing is read.
    pub fn read_n<const N: usize>(&mut self) -> (r: Result<&'d [u8; N], Error>)
        ensures
            final(self).bytes() == old(self).bytes(),
            0 <= old(self).position() <= final(self).position() <= old(self).bytes().len(),
            match r {
                Ok(array) => {
                    &&& final(self).position() == old(self).position() + N
                    &&& array@ == window(old(self).bytes(), old(self).position(), N as int)
                },
                Err(e) => {
                    &&& e == Error::OutOfData
                    &&& old(self).position() + N > old(self).bytes().len()
                    &&& final(self).position() == old(self).position()
                },
            },
    {
        let slice = self.read_slice(N)?;
        match as_array::<N>(slice) {
            Some(array) => Ok(array),
            None => Err(Error::OutOfData),
        }
    }

    /// Whether `f` can answer `verdict` when it is shown the `N` bytes that
    /// start `at` bytes into `bytes`.
    pub open spec fn answers<const N: usize, F: Fn(&[u8; N]) -> bool>(
        f: F,
        bytes: Seq<u8>,
        at: int,
        verdict: bool,
    ) -> bool {
        exists|w: &[u8; N]|
            w@ == window(bytes, at, N as int) && #[trigger] f.ensures((w,), verdict)
    }

    /// Moves forward one byte at a time for as long as more than `N` bytes
    /// are left and `f` accepts the next `N` of them: the reader stops at
    /// the first position whose window `f` turns down, or where no more
    /// than `N` bytes are left.
    pub fn ignore_while<const N: usize, F: Fn(&[u8; N]) -> bool>(&mut self, f: F)
        requires
            forall|w: &[u8; N]| f.requires((w,)),
        ensures
            final(self).bytes() == old(self).bytes(),
            0 <= old(self).position() <= final(self).position() <= old(self).bytes().len(),
            final(self).position() == old(self).position() || final(self).position() + N <= old(
                self,
            ).bytes().len(),
            forall|p: int|
                old(self).position() <= p < final(self).position() ==> #[trigger] Self::answers(
                    f,
                    old(self).bytes(),
                    p,
                    true,
                ),
            final(self).position() + N >= old(self).bytes().len() || Self::answers(
                f,
                old(self).bytes(),
                final(self).position(),
                false,
            ),
    {
        proof {
            use_type_invariant(&*self);
        }
        let mut going = true;
        while going && N < self.data.len() - self.offset
            invariant
                self.data == old(self).data,
                old(self).offset <= self.offset <= self.data@.len(),
                forall|w: &[u8; N]| f.requires((w,)),
                self.offset == old(self).offset || self.offset + N <= self.data@.len(),
                forall|p: int|
                    old(self).offset <= p < self.offset ==> #[trigger] Self::answers(
                        f,
                        self.data@,
                        p,
                        true,
                    ),
                !going ==> Self::answers(f, self.data@, self.offset as int, false),
            decreases self.data@.len() - self.offset + if going { 1int } else { 0int },
        {
            let next = slice_subrange(self.data, self.offset, self.offset + N);
            match as_array::<N>(next) {
                Some(w) => {
                    if f(w) {
                        assert(Self::answers(f, self.data@, self.offset as int, true));
                        self.offset = self.offset + 1;
                    } else {
                        going = false;
                    }
                },
                None => {
                    going = false;
                },
            }
        }
    }

    /// Reads a little-endian 32-bit integer.
    pub fn read_u32(&mut self) -> (r: Result<u32, Error>)
        ensures
            final(self).bytes() == old(self).bytes(),
            0 <= old(self).position() <= final(self).position() <= old(self).bytes().len(),
            match r {
                Ok(x) => {
                    &&& final(self).position() == old(self).position() + 4
                    &&& x == u32_from_le(window(old(self).bytes(), old(self).position(), 4))
                },
                Err(e) => {
                    &&& e == Error::OutOfData
                    &&& old(self).position() + 4 > old(self).bytes().len()
                    &&& final(self).position() == old(self).position()
                },
            },
    {
        let bytes = self.read_n::<4>()?;
        Ok(read_u32_le(bytes))
    }

    /// Reads a big-endian 32-bit integer.
    pub fn read_u32_be(&mut self) -> (r: Result<u32, Error>)
        ensures
            final(self).bytes() == old(self).bytes(),
            0 <= old(self).position() <= final(self).position() <= old(self).bytes().len(),
            match r {
                Ok(x) => {
                    &&& final(self).position() == old(self).position() + 4
                    &&& x == u32_from_be(window(old(self).bytes(), old(self).position(), 4))
                },
                Err(e) => {
                    &&& e == Error::OutOfData
                    &&& old(self).position() + 4 > old(self).bytes().len()
                    &&& final(self).position() == old(self).position()
                },
            },
    {
        let bytes = self.read_n::<4>()?;
        Ok(read_u32_be(bytes))
    }

    /// Reads a little-endian 16-bit integer.
    pub fn read_u16(&mut self) -> (r: Result<u16, Error>)
        ensures
            final(self).bytes() == old(self).bytes(),
            0 <= old(self).position() <= final(self).position() <= old(self).bytes().len(),
            match r {
                Ok(x) => {
                    &&& final(self).position() == old(self).position() + 2
                    &&& x == u16_from_le(window(old(self).bytes(), old(self).position(), 2))
                },
                Err(e) => {
                    &&& e == Error::OutOfData
                    &&& old(self).position() + 2 > old(self).bytes().len()
                    &&& final(self).position() == old(self).position()
                },
            },
    {
        let bytes = self.read_n::<2>()?;
        Ok(read_u16_le(bytes))
    }
}

} // verus!
