//! The in-memory byte source and the big-endian primitive readers.
//!
//! A trajectory is decoded from a [`ByteReader`]: the whole stream held in
//! memory with a cursor over it.  Seeking past the end is allowed, as it is
//! for a file; every read checks that its bytes are present and reports
//! [`XTCError::UnexpectedEof`] otherwise, leaving the cursor where it was.
use vstd::prelude::*;

use crate::{spec_padding, XTCError};

verus! {

/// The whole byte stream of a trajectory, with a read cursor.
#[derive(Debug, Clone)]
pub struct ByteReader {
    /// The bytes of the stream.
    pub data: Vec<u8>,
    /// The cursor: the position the next read starts at.  May point past
    /// the end of `data`, in which case every read fails.
    pub pos: u64,
}

/// The value of the four big-endian bytes of `d` starting at `p`.
pub open spec fn spec_be_u32(d: Seq<u8>, p: int) -> u32 {
    (d[p] * 0x1000000 + d[p + 1] * 0x10000 + d[p + 2] * 0x100 + d[p + 3]) as u32
}

/// The two's-complement reading of a 32-bit word.
pub open spec fn spec_u32_as_i32(v: u32) -> i32 {
    if v < 0x80000000 {
        v as i32
    } else {
        (v - 0x100000000) as i32
    }
}

/// The value of the four big-endian bytes of `d` starting at `p`, read as a
/// signed integer.
pub open spec fn spec_be_i32(d: Seq<u8>, p: int) -> i32 {
    spec_u32_as_i32(spec_be_u32(d, p))
}

impl ByteReader {
    /// Wrap a byte stream, with the cursor at its start.
    pub fn new(data: Vec<u8>) -> (r: Self)
        ensures
            r.data@ == data@,
            r.pos == 0,
    {
        ByteReader { data, pos: 0 }
    }

    /// The number of bytes that remain in front of the cursor (negative
    /// when the cursor was seeked past the end).
    pub open spec fn spec_remaining(&self) -> int {
        self.data@.len() - self.pos
    }

    /// Move the cursor to an absolute position.
    pub fn seek(&mut self, pos: u64)
        ensures
            final(self).data@ == old(self).data@,
            final(self).pos == pos,
    {
        self.pos = pos;
    }

    /// The current cursor position.
    pub fn stream_position(&self) -> (r: u64)
        ensures
            r == self.pos,
    {
        self.pos
    }

    /// The length of the underlying stream.
    pub fn len(&self) -> (r: usize)
        ensures
            r == self.data@.len(),
    {
        self.data.len()
    }
}

/// Read four bytes as a big-endian unsigned integer, advancing the cursor.
/// Fails with [`XTCError::UnexpectedEof`], moving nothing, when fewer than
/// four bytes remain.
pub fn read_u32(file: &mut ByteReader) -> (r: Result<u32, XTCError>)
    ensures
        final(file).data@ == old(file).data@,
        match r {
            Ok(v) => {
                &&& old(file).spec_remaining() >= 4
                &&& v == spec_be_u32(old(file).data@, old(file).pos as int)
                &&& final(file).pos == old(file).pos + 4
            },
            Err(e) => {
                &&& e == XTCError::UnexpectedEof
                &&& old(file).spec_remaining() < 4
                &&& final(file).pos == old(file).pos
            },
        },
{
    let len = file.data.len();
    if file.pos >= len as u64 || (len as u64 - file.pos) < 4 {
        return Err(XTCError::UnexpectedEof);
    }
    let p = file.pos as usize;
    let b0 = file.data[p] as u32;
    let b1 = file.data[p + 1] as u32;
    let b2 = file.data[p + 2] as u32;
    let b3 = file.data[p + 3] as u32;
    file.pos = file.pos + 4;
    Ok(b0 * 0x1000000 + b1 * 0x10000 + b2 * 0x100 + b3)
}

/// Read four bytes as a big-endian signed integer, advancing the cursor.
/// Fails with [`XTCError::UnexpectedEof`], moving nothing, when fewer than
/// four bytes remain.
pub fn read_i32(file: &mut ByteReader) -> (r: Result<i32, XTCError>)
    ensures
        final(file).data@ == old(file).data@,
        match r {
            Ok(v) => {
                &&& old(file).spec_remaining() >= 4
                &&& v == spec_be_i32(old(file).data@, old(file).pos as int)
                &&& final(file).pos == old(file).pos + 4
            },
            Err(e) => {
                &&& e == XTCError::UnexpectedEof
                &&& old(file).spec_remaining() < 4
                &&& final(file).pos == old(file).pos
            },
        },
{
    let v = read_u32(file)?;
    if v < 0x80000000 {
        Ok(v as i32)
    } else {
        let neg = 0x100000000u64 - v as u64;
        Ok((-(neg as i64)) as i32)
    }
}

/// Read an XDR opaque blob: a four-byte big-endian count `n`, then `n`
/// bytes, then the padding that rounds the blob out to a four-byte
/// boundary.  On success `data` holds the `n + padding` blob bytes and the
/// cursor stands just past them; on failure nothing moves and `data` is
/// unspecified.
#[verifier::loop_isolation(false)]
pub fn read_opaque(file: &mut ByteReader, data: &mut Vec<u8>) -> (r: Result<usize, XTCError>)
    ensures
        final(file).data@ == old(file).data@,
        match r {
            Ok(n) => {
                let padded = n + spec_padding(n as nat);
                &&& n == spec_be_u32(old(file).data@, old(file).pos as int)
                &&& old(file).spec_remaining() >= 4 + padded
                &&& final(data)@ == old(file).data@.subrange(
                    old(file).pos + 4,
                    old(file).pos + 4 + padded,
                )
                &&& final(file).pos == old(file).pos + 4 + padded
            },
            Err(e) => {
                &&& e == XTCError::UnexpectedEof
                &&& old(file).spec_remaining() < 4 + (
                if old(file).spec_remaining() >= 4 {
                    let n = spec_be_u32(old(file).data@, old(file).pos as int);
                    n + spec_padding(n as nat)
                } else {
                    0
                })
                &&& final(file).pos == old(file).pos
            },
        },
{
    let start = file.pos;
    let count = read_u32(file)?;
    let pad = crate::padding(count as usize);
    let need: u64 = count as u64 + pad as u64;
    let len = file.data.len();
    if (len as u64 - file.pos) < need {
        file.pos = start;
        return Err(XTCError::UnexpectedEof);
    }
    let padded = count as usize + pad;
    let base = file.pos as usize;
    data.clear();
    let mut i: usize = 0;
    while i < padded
        invariant
            i <= padded,
            base + padded <= file.data@.len(),
            data@ == file.data@.subrange(base as int, base + i),
            file.data@ == old(file).data@,
            file.pos == base,
            base == start + 4,
        decreases padded - i,
    {
        let b = file.data[base + i];
        data.push(b);
        proof {
            assert(data@ =~= file.data@.subrange(base as int, base + i + 1));
        }
        i += 1;
    }
    file.pos = file.pos + need;
    Ok(count as usize)
}

} // verus!
