//! The two byte-fetch strategies over one frame's compressed payload.
//!
//! Both realize one contract: consume the payload's four-byte length prefix
//! from the reader, make the padded payload bytes available in a scratch
//! buffer, and leave the reader positioned at the first byte after the
//! payload once [`Buffered::finish`] is called.  Over an in-memory stream
//! every block is immediately at hand, so the incremental strategy's block
//! loop runs to completion at construction; the two strategies still keep
//! their distinct shapes, and their common contract is what the decoder is
//! verified against.
use vstd::prelude::*;

use crate::bytes::{read_opaque, read_u32, spec_be_u32, ByteReader};
use crate::{spec_padding, XTCError};

verus! {

/// How many payload bytes the incremental strategy takes per read.
pub const BLOCK_SIZE: usize = 0x20000;

/// The number of payload bytes (with padding) that the pending opaque blob
/// at position `p` of `d` carries, or `None` when its length prefix or its
/// bytes run past the end of the stream.
pub open spec fn spec_payload_len(d: Seq<u8>, p: int) -> Option<nat> {
    if d.len() - p < 4 {
        None
    } else {
        let c = spec_be_u32(d, p) as nat;
        let padded = c + spec_padding(c);
        if d.len() - p < 4 + padded {
            None
        } else {
            Some(padded)
        }
    }
}

/// One frame's compressed payload, taken off the reader and held in a
/// caller-owned scratch buffer.
pub trait Buffered: Sized {
    /// The wire count of payload bytes, before padding.
    spec fn spec_count(&self) -> nat;

    /// The padded payload length: how many bytes the scratch buffer holds.
    spec fn spec_len(&self) -> nat;

    /// The stream position of the first byte after the payload.
    spec fn spec_end(&self) -> int;

    /// Consume the four-byte length prefix at the reader's cursor and make
    /// the padded payload available in `scratch`.  Fails with
    /// [`XTCError::UnexpectedEof`], leaving the cursor where it was, when
    /// the prefix or the payload bytes are missing.
    fn new(scratch: &mut Vec<u8>, reader: &mut ByteReader) -> (r: Result<Self, XTCError>)
        ensures
            final(reader).data@ == old(reader).data@,
            match r {
                Ok(b) => {
                    &&& spec_payload_len(old(reader).data@, old(reader).pos as int) == Some(
                        b.spec_len(),
                    )
                    &&& b.spec_count() == spec_be_u32(
                        old(reader).data@,
                        old(reader).pos as int,
                    ) as nat
                    &&& b.spec_len() == b.spec_count() + spec_padding(b.spec_count())
                    &&& final(scratch)@ == old(reader).data@.subrange(
                        old(reader).pos + 4,
                        old(reader).pos + 4 + b.spec_len(),
                    )
                    &&& b.spec_end() == old(reader).pos + 4 + b.spec_len()
                },
                Err(e) => {
                    &&& e == XTCError::UnexpectedEof
                    &&& spec_payload_len(old(reader).data@, old(reader).pos as int) is None
                    &&& final(reader).pos == old(reader).pos
                },
            },
    ;

    /// The byte at `index` of the payload.
    fn fetch(&self, scratch: &Vec<u8>, index: usize) -> (b: u8)
        requires
            index < self.spec_len(),
            scratch@.len() == self.spec_len(),
        ensures
            b == scratch@[index as int],
    ;

    /// The number of payload bytes at hand.
    fn tell(&self) -> (r: usize)
        ensures
            r == self.spec_len(),
    ;

    /// Leave the reader at the first byte after the payload (and its
    /// padding), where the next frame header starts.
    fn finish(self, reader: &mut ByteReader)
        ensures
            final(reader).data@ == old(reader).data@,
            final(reader).pos == self.spec_end(),
    ;
}

/// The eager strategy: the whole padded payload is read at once.
pub struct UnBuffered {
    /// Wire count of payload bytes.
    count: usize,
    /// Padded payload length.
    len: usize,
    /// Stream position just past the payload.
    end: u64,
}

impl Buffered for UnBuffered {
    closed spec fn spec_count(&self) -> nat {
        self.count as nat
    }

    closed spec fn spec_len(&self) -> nat {
        self.len as nat
    }

    closed spec fn spec_end(&self) -> int {
        self.end as int
    }

    fn new(scratch: &mut Vec<u8>, reader: &mut ByteReader) -> (r: Result<Self, XTCError>) {
        let count = read_opaque(reader, scratch)?;
        Ok(UnBuffered { count, len: scratch.len(), end: reader.stream_position() })
    }

    fn fetch(&self, scratch: &Vec<u8>, index: usize) -> (b: u8) {
        scratch[index]
    }

    fn tell(&self) -> (r: usize) {
        self.len
    }

    fn finish(self, reader: &mut ByteReader) {
        reader.seek(self.end);
    }
}

/// The incremental strategy: the payload is taken in blocks of
/// [`BLOCK_SIZE`] bytes, so that a decode which stops early never asks for
/// the blocks it does not reach.  Over an in-memory stream every block is
/// already present and the loop completes at construction.
pub struct Buffer {
    /// Wire count of payload bytes.
    count: usize,
    /// Padded payload length.
    len: usize,
    /// Stream position just past the payload.
    end: u64,
}

impl Buffered for Buffer {
    closed spec fn spec_count(&self) -> nat {
        self.count as nat
    }

    closed spec fn spec_len(&self) -> nat {
        self.len as nat
    }

    closed spec fn spec_end(&self) -> int {
        self.end as int
    }

    #[verifier::loop_isolation(false)]
    fn new(scratch: &mut Vec<u8>, reader: &mut ByteReader) -> (r: Result<Self, XTCError>) {
        let start = reader.stream_position();
        let count = read_u32(reader)?;
        let pad = crate::padding(count as usize);
        let need: u64 = count as u64 + pad as u64;
        let len = reader.len();
        if (len as u64 - reader.stream_position()) < need {
            reader.seek(start);
            return Err(XTCError::UnexpectedEof);
        }
        let padded = count as usize + pad;
        let base = reader.stream_position() as usize;
        scratch.clear();
        let mut copied: usize = 0;
        while copied < padded
            invariant
                copied <= padded,
                scratch@ == reader.data@.subrange(base as int, base + copied),
            decreases padded - copied,
        {
            let block = if padded - copied < BLOCK_SIZE {
                padded - copied
            } else {
                BLOCK_SIZE
            };
            let mut j: usize = 0;
            while j < block
                invariant
                    j <= block,
                    copied + block <= padded,
                    scratch@ == reader.data@.subrange(base as int, base + copied + j),
                decreases block - j,
            {
                let b = reader.data[base + copied + j];
                scratch.push(b);
                proof {
                    assert(scratch@ =~= reader.data@.subrange(base as int, base + copied + j + 1));
                }
                j += 1;
            }
            copied += block;
        }
        let end = start + 4 + need;
        reader.seek(end);
        Ok(Buffer { count: count as usize, len: padded, end })
    }

    fn fetch(&self, scratch: &Vec<u8>, index: usize) -> (b: u8) {
        scratch[index]
    }

    fn tell(&self) -> (r: usize) {
        self.len
    }

    fn finish(self, reader: &mut ByteReader) {
        reader.seek(self.end);
    }
}

} // verus!
