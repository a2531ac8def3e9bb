//! Fixed-width integer reads over an in-memory byte source.
//!
//! A [`ByteReader`] is a cursor over a borrowed byte slice. Every read either
//! succeeds and advances the cursor by exactly the width of the field, or fails
//! with [`ReadError::UnexpectedEof`] and leaves the cursor at the end of the
//! data, so that nothing remains to be read after a truncated field.

use vstd::prelude::*;
use vstd::slice::slice_subrange;

verus! {

/// Why a read from a byte source failed.
#[derive(Clone, Copy, Debug, PartialEq, Eq, Structural)]
pub enum ReadError {
    /// The source ended before the requested field was complete.
    UnexpectedEof,
}

impl ReadError {
    /// A human-readable description of the error.
    pub fn message(&self) -> (s: String)
        ensures
            s@ == "failed to fill whole buffer"@,
    {
        "failed to fill whole buffer".to_string()
    }
}

/// The unsigned little-endian 16-bit value stored at `s[at..at + 2]`.
pub open spec fn le_u16_at(s: Seq<u8>, at: int) -> int {
    s[at] as int + 0x100 * (s[at + 1] as int)
}

/// The unsigned little-endian 24-bit value stored at `s[at..at + 3]`.
pub open spec fn le_u24_at(s: Seq<u8>, at: int) -> int {
    s[at] as int + 0x100 * (s[at + 1] as int) + 0x1_0000 * (s[at + 2] as int)
}

/// The unsigned little-endian 32-bit value stored at `s[at..at + 4]`.
pub open spec fn le_u32_at(s: Seq<u8>, at: int) -> int {
    s[at] as int + 0x100 * (s[at + 1] as int) + 0x1_0000 * (s[at + 2] as int) + 0x100_0000 * (s[at
        + 3] as int)
}

/// The two's-complement little-endian 16-bit value stored at `s[at..at + 2]`.
pub open spec fn le_i16_at(s: Seq<u8>, at: int) -> int {
    if le_u16_at(s, at) >= 0x8000 {
        le_u16_at(s, at) - 0x1_0000
    } else {
        le_u16_at(s, at)
    }
}

/// The unsigned big-endian 16-bit value stored at `s[at..at + 2]`.
pub open spec fn be_u16_at(s: Seq<u8>, at: int) -> int {
    0x100 * (s[at] as int) + s[at + 1] as int
}

/// The unsigned big-endian 32-bit value stored at `s[at..at + 4]`.
pub open spec fn be_u32_at(s: Seq<u8>, at: int) -> int {
    0x100_0000 * (s[at] as int) + 0x1_0000 * (s[at + 1] as int) + 0x100 * (s[at + 2] as int) + s[at
        + 3] as int
}

/// The byte at `at`, or zero where `at` lies past the end of `s`.
pub open spec fn byte_or_zero(s: Seq<u8>, at: int) -> int {
    if 0 <= at < s.len() {
        s[at] as int
    } else {
        0
    }
}

/// A read cursor over a borrowed byte slice.
#[derive(Clone, Copy, Debug)]
pub struct ByteReader<'a> {
    data: &'a [u8],
    pos: usize,
}

impl<'a> ByteReader<'a> {
    /// All the bytes of the source, read or not.
    pub closed spec fn data(&self) -> Seq<u8> {
        self.data@
    }

    /// The number of bytes consumed so far.
    pub closed spec fn pos(&self) -> nat {
        self.pos as nat
    }

    /// The cursor never stands past the end of the data.
    pub open spec fn wf(&self) -> bool {
        self.pos() <= self.data().len()
    }

    /// Whether `n` more bytes are available.
    pub open spec fn can_read(&self, n: nat) -> bool {
        self.pos() + n <= self.data().len()
    }

    /// The bytes that have not been consumed yet.
    pub open spec fn remaining(&self) -> Seq<u8> {
        self.data().subrange(self.pos() as int, self.data().len() as int)
    }

    /// A reader positioned at the start of `data`.
    pub fn new(data: &'a [u8]) -> (r: Self)
        ensures
            r.wf(),
            r.data() == data@,
            r.pos() == 0,
    {
        ByteReader { data, pos: 0 }
    }

    /// The number of bytes consumed so far.
    pub fn position(&self) -> (p: usize)
        ensures
            p == self.pos(),
    {
        self.pos
    }

    /// The total number of bytes in the source.
    pub fn len(&self) -> (n: usize)
        ensures
            n == self.data().len(),
    {
        self.data.len()
    }

    /// Moves the cursor to `pos`, clamped to the end of the data.
    pub fn seek(&mut self, pos: usize)
        ensures
            final(self).wf(),
            final(self).data() == old(self).data(),
            final(self).pos() == if pos <= old(self).data().len() {
                pos as nat
            } else {
                old(self).data().len()
            },
    {
        if pos <= self.data.len() {
            self.pos = pos;
        } else {
            self.pos = self.data.len();
        }
    }

    /// Consumes `n` bytes and returns the index of the first of them.
    fn advance(&mut self, n: usize) -> (r: Result<usize, ReadError>)
        requires
            old(self).wf(),
        ensures
            final(self).wf(),
            final(self).data() == old(self).data(),
            old(self).can_read(n as nat) ==> r == Ok::<usize, ReadError>(old(self).pos() as usize)
                && final(self).pos() == old(self).pos() + n,
            !old(self).can_read(n as nat) ==> r == Err::<usize, ReadError>(ReadError::UnexpectedEof)
                && final(self).pos() == old(self).data().len(),
    {
        let start: usize = self.pos;
        if n <= self.data.len() - start {
            self.pos = start + n;
            Ok(start)
        } else {
            self.pos = self.data.len();
            Err(ReadError::UnexpectedEof)
        }
    }

    /// Reads one byte.
    pub fn read_u8(&mut self) -> (r: Result<u8, ReadError>)
        requires
            old(self).wf(),
        ensures
            final(self).wf(),
            final(self).data() == old(self).data(),
            old(self).can_read(1) ==> r == Ok::<u8, ReadError>(old(self).data()[old(self).pos() as int])
                && final(self).pos() == old(self).pos() + 1,
            !old(self).can_read(1) ==> r == Err::<u8, ReadError>(ReadError::UnexpectedEof)
                && final(self).pos() == old(self).data().len(),
    {
        match self.advance(1) {
            Ok(at) => Ok(self.data[at]),
            Err(e) => Err(e),
        }
    }

    /// Reads one byte, or yields zero without moving where the source is exhausted.
    pub fn read_u8_or_zero(&mut self) -> (b: u8)
        requires
            old(self).wf(),
        ensures
            final(self).wf(),
            final(self).data() == old(self).data(),
            b == byte_or_zero(old(self).data(), old(self).pos() as int),
            final(self).pos() == if old(self).can_read(1) {
                old(self).pos() + 1
            } else {
                old(self).pos()
            },
    {
        if self.pos < self.data.len() {
            let b: u8 = self.data[self.pos];
            self.pos = self.pos + 1;
            b
        } else {
            0
        }
    }

    /// The byte `offset` places past the cursor, or zero where the source ends
    /// before it. The cursor does not move.
    pub fn peek_u8_or_zero(&self, offset: usize) -> (b: u8)
        requires
            self.wf(),
        ensures
            b == byte_or_zero(self.data(), self.pos() + offset),
    {
        if offset < self.data.len() - self.pos {
            self.data[self.pos + offset]
        } else {
            0
        }
    }

    /// Reads exactly `n` bytes.
    pub fn read_exact(&mut self, n: usize) -> (r: Result<&'a [u8], ReadError>)
        requires
            old(self).wf(),
        ensures
            final(self).wf(),
            final(self).data() == old(self).data(),
            old(self).can_read(n as nat) ==> r.is_ok() && r.unwrap()@ == old(self).data().subrange(
                old(self).pos() as int,
                old(self).pos() + n,
            ) && final(self).pos() == old(self).pos() + n,
            !old(self).can_read(n as nat) ==> r.is_err() && r->Err_0 == ReadError::UnexpectedEof && final(self).pos() == old(
                self,
            ).data().len(),
    {
        match self.advance(n) {
            Ok(at) => Ok(slice_subrange(self.data, at, at + n)),
            Err(e) => Err(e),
        }
    }

    /// Consumes and returns everything that is left.
    pub fn read_to_end(&mut self) -> (r: &'a [u8])
        requires
            old(self).wf(),
        ensures
            final(self).wf(),
            final(self).data() == old(self).data(),
            final(self).pos() == old(self).data().len(),
            r@ == old(self).remaining(),
    {
        let start: usize = self.pos;
        self.pos = self.data.len();
        slice_subrange(self.data, start, self.data.len())
    }

    /// Reads an unsigned little-endian 16-bit integer.
    pub fn read_le_u16(&mut self) -> (r: Result<u16, ReadError>)
        requires
            old(self).wf(),
        ensures
            final(self).wf(),
            final(self).data() == old(self).data(),
            old(self).can_read(2) ==> r.is_ok() && r.unwrap() == le_u16_at(
                old(self).data(),
                old(self).pos() as int,
            ) && final(self).pos() == old(self).pos() + 2,
            !old(self).can_read(2) ==> r.is_err() && r->Err_0 == ReadError::UnexpectedEof && final(self).pos() == old(self).data().len(),
    {
        match self.advance(2) {
            Ok(at) => {
                let b0: u16 = self.data[at] as u16;
                let b1: u16 = self.data[at + 1] as u16;
                Ok(b0 + 0x100 * b1)
            },
            Err(e) => Err(e),
        }
    }

    /// Reads a two's-complement little-endian 16-bit integer.
    pub fn read_le_i16(&mut self) -> (r: Result<i16, ReadError>)
        requires
            old(self).wf(),
        ensures
            final(self).wf(),
            final(self).data() == old(self).data(),
            old(self).can_read(2) ==> r.is_ok() && r.unwrap() == le_i16_at(
                old(self).data(),
                old(self).pos() as int,
            ) && final(self).pos() == old(self).pos() + 2,
            !old(self).can_read(2) ==> r.is_err() && r->Err_0 == ReadError::UnexpectedEof && final(self).pos() == old(self).data().len(),
    {
        match self.advance(2) {
            Ok(at) => {
                let b0: i32 = self.data[at] as i32;
                let b1: i32 = self.data[at + 1] as i32;
                let v: i32 = b0 + 0x100 * b1;
                if v >= 0x8000 {
                    Ok((v - 0x1_0000) as i16)
                } else {
                    Ok(v as i16)
                }
            },
            Err(e) => Err(e),
        }
    }

    /// Reads an unsigned little-endian 24-bit integer.
    pub fn read_le_u24(&mut self) -> (r: Result<u32, ReadError>)
        requires
            old(self).wf(),
        ensures
            final(self).wf(),
            final(self).data() == old(self).data(),
            old(self).can_read(3) ==> r.is_ok() && r.unwrap() == le_u24_at(
                old(self).data(),
                old(self).pos() as int,
            ) && final(self).pos() == old(self).pos() + 3,
            !old(self).can_read(3) ==> r.is_err() && r->Err_0 == ReadError::UnexpectedEof && final(self).pos() == old(self).data().len(),
    {
        match self.advance(3) {
            Ok(at) => {
                let b0: u32 = self.data[at] as u32;
                let b1: u32 = self.data[at + 1] as u32;
                let b2: u32 = self.data[at + 2] as u32;
                Ok(b0 + 0x100 * b1 + 0x1_0000 * b2)
            },
            Err(e) => Err(e),
        }
    }

    /// Reads an unsigned little-endian 32-bit integer.
    pub fn read_le_u32(&mut self) -> (r: Result<u32, ReadError>)
        requires
            old(self).wf(),
        ensures
            final(self).wf(),
            final(self).data() == old(self).data(),
            old(self).can_read(4) ==> r.is_ok() && r.unwrap() == le_u32_at(
                old(self).data(),
                old(self).pos() as int,
            ) && final(self).pos() == old(self).pos() + 4,
            !old(self).can_read(4) ==> r.is_err() && r->Err_0 == ReadError::UnexpectedEof && final(self).pos() == old(self).data().len(),
    {
        match self.advance(4) {
            Ok(at) => {
                let b0: u32 = self.data[at] as u32;
                let b1: u32 = self.data[at + 1] as u32;
                let b2: u32 = self.data[at + 2] as u32;
                let b3: u32 = self.data[at + 3] as u32;
                Ok(b0 + 0x100 * b1 + 0x1_0000 * b2 + 0x100_0000 * b3)
            },
            Err(e) => Err(e),
        }
    }

    /// Reads an unsigned big-endian 16-bit integer.
    pub fn read_be_u16(&mut self) -> (r: Result<u16, ReadError>)
        requires
            old(self).wf(),
        ensures
            final(self).wf(),
            final(self).data() == old(self).data(),
            old(self).can_read(2) ==> r.is_ok() && r.unwrap() == be_u16_at(
                old(self).data(),
                old(self).pos() as int,
            ) && final(self).pos() == old(self).pos() + 2,
            !old(self).can_read(2) ==> r.is_err() && r->Err_0 == ReadError::UnexpectedEof && final(self).pos() == old(self).data().len(),
    {
        match self.advance(2) {
            Ok(at) => {
                let b0: u16 = self.data[at] as u16;
                let b1: u16 = self.data[at + 1] as u16;
                Ok(0x100 * b0 + b1)
            },
            Err(e) => Err(e),
        }
    }

    /// Reads an unsigned big-endian 32-bit integer.
    pub fn read_be_u32(&mut self) -> (r: Result<u32, ReadError>)
        requires
            old(self).wf(),
        ensures
            final(self).wf(),
            final(self).data() == old(self).data(),
            old(self).can_read(4) ==> r.is_ok() && r.unwrap() == be_u32_at(
                old(self).data(),
                old(self).pos() as int,
            ) && final(self).pos() == old(self).pos() + 4,
            !old(self).can_read(4) ==> r.is_err() && r->Err_0 == ReadError::UnexpectedEof && final(self).pos() == old(self).data().len(),
    {
        match self.advance(4) {
            Ok(at) => {
                let b0: u32 = self.data[at] as u32;
                let b1: u32 = self.data[at + 1] as u32;
                let b2: u32 = self.data[at + 2] as u32;
                let b3: u32 = self.data[at + 3] as u32;
                Ok(0x100_0000 * b0 + 0x1_0000 * b1 + 0x100 * b2 + b3)
            },
            Err(e) => Err(e),
        }
    }
}

/// The two bytes of `v`, low byte first.
pub open spec fn le_bytes_u16(v: u16) -> Seq<u8> {
    seq![(v % 0x100) as u8, (v / 0x100) as u8]
}

/// The four bytes of `v`, low byte first.
pub open spec fn le_bytes_u32(v: u32) -> Seq<u8> {
    seq![
        (v % 0x100) as u8,
        ((v / 0x100) % 0x100) as u8,
        ((v / 0x1_0000) % 0x100) as u8,
        (v / 0x100_0000) as u8,
    ]
}

/// Reading back what was written gives the value that was written.
pub proof fn lemma_le_round_trip(v16: u16, v32: u32)
    ensures
        le_u16_at(le_bytes_u16(v16), 0) == v16,
        le_u32_at(le_bytes_u32(v32), 0) == v32,
{
}

/// Appends `v` to `out` as two bytes, low byte first.
pub fn write_le_u16(out: &mut Vec<u8>, v: u16)
    ensures
        final(out)@ == old(out)@ + le_bytes_u16(v),
{
    out.push((v % 0x100) as u8);
    out.push((v / 0x100) as u8);
}

/// Appends `v` to `out` as four bytes, low byte first.
pub fn write_le_u32(out: &mut Vec<u8>, v: u32)
    ensures
        final(out)@ == old(out)@ + le_bytes_u32(v),
{
    out.push((v % 0x100) as u8);
    out.push(((v / 0x100) % 0x100) as u8);
    out.push(((v / 0x1_0000) % 0x100) as u8);
    out.push((v / 0x100_0000) as u8);
}

} // verus!
