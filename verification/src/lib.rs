//! A reader for the xtc molecular-dynamics trajectory format: an XDR-framed
//! binary format whose per-frame payload is a bit-packed, delta-encoded
//! position stream.
//!
//! The library decodes from an in-memory byte stream ([`ByteReader`]).  All
//! quantities that the wire carries as IEEE 754 words (time, box vectors,
//! precision, uncompressed positions) are kept as their raw 32-bit bit
//! patterns, and decoded coordinates are kept as the raw signed integers the
//! stream encodes; turning those into floating-point nanometers is left to
//! the caller, since it is a single multiplication by `1 / precision`.
use vstd::prelude::*;

use crate::selection::AtomSelection;

pub mod bits;
pub mod buffer;
pub mod bytes;
pub mod reader;
pub mod selection;

verus! {

/// The magic number that opens every frame header.
pub const MAGIC: i32 = 1995;

/// The ways reading a trajectory can fail.
#[derive(Debug, Clone, Copy, PartialEq, Eq, Structural)]
pub enum XTCError {
    /// The stream ended in the middle of a record.  At the start of a frame
    /// header this is the clean end-of-trajectory signal.
    UnexpectedEof,
    /// A frame header did not open with [`MAGIC`].
    InvalidMagic,
    /// A numeric header field was out of range (for instance a negative atom
    /// count, or a repeated atom count that does not match the first).
    InvalidNumericField,
    /// The compressed position stream is malformed.
    CorruptCompressedStream,
    /// A selection was constructed with a step of zero.
    InvalidSelection,
}

/// The number of bytes needed to pad `n` bytes out to a four-byte boundary,
/// as the XDR opaque encoding demands.
pub open spec fn spec_padding(n: nat) -> nat {
    ((4 - n % 4) % 4) as nat
}

/// Pad `n` out to a four-byte boundary.
pub fn padding(n: usize) -> (r: usize)
    ensures
        r == spec_padding(n as nat),
{
    (4 - n % 4) % 4
}

/// The serialized size of a frame header in bytes.
pub const HEADER_SIZE: u64 = 56;

/// The positions of one frame.  The wire stores them two ways, and the
/// reader hands both out raw: a frame of at most nine atoms carries plain
/// IEEE 754 words, while a compressed frame decodes to integer coordinates
/// that the caller divides by the frame's precision to obtain nanometers.
#[derive(Debug, Clone)]
pub enum Positions {
    /// IEEE 754 words straight from the wire, three per atom.
    Words(Vec<u32>),
    /// Integer coordinates, three per atom; the coordinate in nanometers
    /// is the integer times `1 / precision`.
    Ints(Vec<i32>),
}

impl Positions {
    /// The number of stored coordinate components.
    pub open spec fn spec_len(&self) -> nat {
        match self {
            Positions::Words(w) => w@.len(),
            Positions::Ints(v) => v@.len(),
        }
    }

    /// The number of stored coordinate components.
    pub fn len(&self) -> (r: usize)
        ensures
            r == self.spec_len(),
    {
        match self {
            Positions::Words(w) => w.len(),
            Positions::Ints(v) => v.len(),
        }
    }
}

/// The header of a single xtc frame.
pub struct Header {
    /// Must equal [`MAGIC`].
    pub magic: i32,
    /// The number of atoms in the frame.
    pub natoms: usize,
    /// The simulation step of the frame.
    pub step: u32,
    /// The simulation time in picoseconds, as its IEEE 754 bits.
    pub time: u32,
    /// The nine box-vector words in wire order (row by row), each the
    /// IEEE 754 bits of one matrix entry.
    pub boxvec: [u32; 9],
    /// The atom count repeated; must equal `natoms`.
    pub natoms_repeated: usize,
}

/// The error that stops reading a frame header at position `p` of `d`, or
/// `None` when a well-formed header lies there.
pub open spec fn spec_header_err(d: Seq<u8>, p: int) -> Option<XTCError> {
    if d.len() - p < 4 {
        Some(XTCError::UnexpectedEof)
    } else if crate::bytes::spec_be_i32(d, p) != MAGIC {
        Some(XTCError::InvalidMagic)
    } else if d.len() - p < 8 {
        Some(XTCError::UnexpectedEof)
    } else if crate::bytes::spec_be_i32(d, p + 4) < 0 {
        Some(XTCError::InvalidNumericField)
    } else if d.len() - p < 12 {
        Some(XTCError::UnexpectedEof)
    } else if crate::bytes::spec_be_i32(d, p + 8) < 0 {
        Some(XTCError::InvalidNumericField)
    } else if d.len() - p < 56 {
        Some(XTCError::UnexpectedEof)
    } else if crate::bytes::spec_be_i32(d, p + 52) != crate::bytes::spec_be_i32(d, p + 4) {
        Some(XTCError::InvalidNumericField)
    } else {
        None
    }
}

/// The atom count a well-formed header at `p` declares.
pub open spec fn spec_header_natoms(d: Seq<u8>, p: int) -> int {
    crate::bytes::spec_be_i32(d, p + 4) as int
}

/// A header value holds exactly the fields of the wire header at `p`.
pub open spec fn spec_header_matches(h: Header, d: Seq<u8>, p: int) -> bool {
    &&& h.magic == MAGIC
    &&& h.natoms == spec_header_natoms(d, p)
    &&& h.step == crate::bytes::spec_be_u32(d, p + 8)
    &&& h.time == crate::bytes::spec_be_u32(d, p + 12)
    &&& h.boxvec@ == Seq::new(9, |i: int| crate::bytes::spec_be_u32(d, p + 16 + 4 * i))
    &&& h.natoms_repeated == h.natoms
}

impl Header {
    /// Read and validate the fixed 56-byte frame header at the reader's
    /// cursor.  On success the cursor stands just past it; the error cases
    /// are exactly those of [`spec_header_err`].
    pub fn read(file: &mut crate::bytes::ByteReader) -> (r: Result<Header, XTCError>)
        ensures
            final(file).data@ == old(file).data@,
            match r {
                Ok(h) => {
                    &&& spec_header_err(old(file).data@, old(file).pos as int) is None
                    &&& spec_header_matches(h, old(file).data@, old(file).pos as int)
                    &&& final(file).pos == old(file).pos + 56
                    &&& h.natoms < 0x80000000
                },
                Err(e) => spec_header_err(old(file).data@, old(file).pos as int) == Some(e),
            },
    {
        let magic = crate::bytes::read_i32(file)?;
        if magic != MAGIC {
            return Err(XTCError::InvalidMagic);
        }
        let natoms_raw = crate::bytes::read_i32(file)?;
        if natoms_raw < 0 {
            return Err(XTCError::InvalidNumericField);
        }
        let step_raw = crate::bytes::read_i32(file)?;
        if step_raw < 0 {
            return Err(XTCError::InvalidNumericField);
        }
        let time = crate::bytes::read_u32(file)?;
        let boxvec = crate::reader::read_boxvec(file)?;
        let natoms_repeated_raw = crate::bytes::read_i32(file)?;
        if natoms_repeated_raw < 0 || natoms_repeated_raw != natoms_raw {
            return Err(XTCError::InvalidNumericField);
        }
        proof {
            assert(boxvec@ =~= Seq::new(
                9,
                |i: int|
                    crate::bytes::spec_be_u32(
                        old(file).data@,
                        old(file).pos + 16 + 4 * i,
                    ),
            ));
        }
        Ok(
            Header {
                magic,
                natoms: natoms_raw as usize,
                step: step_raw as u32,
                time,
                boxvec,
                natoms_repeated: natoms_repeated_raw as usize,
            },
        )
    }
}

/// One simulation snapshot: time, step, box and positions.  Created empty
/// by the caller and reused across reads; each successful frame read
/// rewrites its fields.
#[derive(Debug, Clone)]
pub struct Frame {
    /// The simulation step of the frame.
    pub step: u32,
    /// The simulation time in picoseconds, as its IEEE 754 bits.
    pub time: u32,
    /// The nine box-vector words in wire order, each the IEEE 754 bits of
    /// one matrix entry in nanometers.
    pub boxvec: [u32; 9],
    /// The precision of the compressed positions, as its IEEE 754 bits;
    /// untouched by a frame of at most nine atoms, whose positions were
    /// never compressed.
    pub precision: u32,
    /// The frame's positions; always a whole number of atoms (three
    /// components each).
    pub positions: Positions,
}

impl Frame {
    /// The number of atoms stored in this [`Frame`].
    pub fn natoms(&self) -> (r: usize)
        ensures
            r == self.positions.spec_len() / 3,
    {
        self.positions.len() / 3
    }
}

impl Default for Frame {
    /// An empty frame, ready to be read into.
    fn default() -> (r: Self)
        ensures
            r.step == 0u32,
            r.time == 0u32,
            r.boxvec@ == Seq::new(9, |i: int| 0u32),
            r.precision == 0u32,
            r.positions.spec_len() == 0,
    {
        let boxvec = [0u32, 0, 0, 0, 0, 0, 0, 0, 0];
        proof {
            assert(boxvec@ =~= Seq::new(9, |i: int| 0u32));
        }
        Frame { step: 0, time: 0, boxvec, precision: 0, positions: Positions::Ints(Vec::new()) }
    }
}

/// The uncompressed positions of a tiny frame (at most nine atoms),
/// filtered through the selection: atom `i` contributes its three wire
/// words iff the selection answers `Some(true)` at `i`.
pub open spec fn spec_smol_filter(d: Seq<u8>, p: int, sel: AtomSelection, natoms: nat) -> Seq<
    u32,
>
    decreases natoms,
{
    if natoms == 0 {
        Seq::empty()
    } else {
        let prev = spec_smol_filter(d, p, sel, (natoms - 1) as nat);
        if sel.spec_is_included((natoms - 1) as nat) == Some(true) {
            prev + seq![
                crate::bytes::spec_be_u32(d, p + 12 * (natoms - 1)),
                crate::bytes::spec_be_u32(d, p + 12 * (natoms - 1) + 4),
                crate::bytes::spec_be_u32(d, p + 12 * (natoms - 1) + 8),
            ]
        } else {
            prev
        }
    }
}

/// The number of atoms a selection asks for, before clamping to the
/// frame's own atom count.
pub open spec fn spec_natoms_selected(sel: AtomSelection, natoms: nat) -> nat {
    match sel {
        AtomSelection::All => natoms,
        AtomSelection::Mask(_) => sel.spec_selected_upto(natoms),
        AtomSelection::Until(k) => k as nat,
    }
}

/// What reading the positions section of a compressed frame (everything
/// after the header) yields: the precision word, the decoded integer
/// coordinates, and the stream position after the payload.
pub open spec fn spec_read_positions(d: Seq<u8>, p: int, natoms: nat, sel: AtomSelection) -> Result<
    (u32, Seq<i32>, int),
    XTCError,
> {
    let selected = spec_natoms_selected(sel, natoms);
    let n = if natoms <= selected {
        natoms
    } else {
        selected
    };
    if 3 * n > usize::MAX {
        Err(XTCError::InvalidNumericField)
    } else if d.len() - p < 4 {
        Err(XTCError::UnexpectedEof)
    } else {
        match crate::reader::spec_decode_positions(d, p + 4, n, sel) {
            Err(e) => Err(e),
            Ok(pr) => Ok((crate::bytes::spec_be_u32(d, p), pr.0, pr.1)),
        }
    }
}

/// The positions of a frame, at the spec level.
pub ghost enum PosOut {
    /// IEEE words of a tiny frame.
    Words(Seq<u32>),
    /// Integer coordinates of a compressed frame.
    Ints(Seq<i32>),
}

/// Everything one frame read yields, at the spec level.
pub ghost struct FrameOut {
    /// The header's step field.
    pub step: u32,
    /// The header's time word.
    pub time: u32,
    /// The nine box-vector words.
    pub boxvec: Seq<u32>,
    /// The precision word, or `None` for a tiny frame, which leaves the
    /// caller's previous value in place.
    pub precision: Option<u32>,
    /// The positions.
    pub positions: PosOut,
    /// The stream position just past the frame.
    pub end: int,
}

/// What reading one whole frame at position `p` yields.
#[verifier::opaque]
pub open spec fn spec_read_frame(d: Seq<u8>, p: int, sel: AtomSelection) -> Result<
    FrameOut,
    XTCError,
> {
    match spec_header_err(d, p) {
        Some(e) => Err(e),
        None => {
            let natoms = spec_header_natoms(d, p) as nat;
            let step = crate::bytes::spec_be_u32(d, p + 8);
            let time = crate::bytes::spec_be_u32(d, p + 12);
            let boxvec = Seq::new(9, |i: int| crate::bytes::spec_be_u32(d, p + 16 + 4 * i));
            if natoms <= 9 {
                if d.len() - (p + 56) < 12 * natoms {
                    Err(XTCError::UnexpectedEof)
                } else {
                    Ok(
                        FrameOut {
                            step,
                            time,
                            boxvec,
                            precision: None,
                            positions: PosOut::Words(spec_smol_filter(d, p + 56, sel, natoms)),
                            end: p + 56 + 12 * natoms,
                        },
                    )
                }
            } else {
                match spec_read_positions(d, p + 56, natoms, sel) {
                    Err(e) => Err(e),
                    Ok((prec, ps, end)) => Ok(
                        FrameOut {
                            step,
                            time,
                            boxvec,
                            precision: Some(prec),
                            positions: PosOut::Ints(ps),
                            end,
                        },
                    ),
                }
            }
        },
    }
}

/// A frame value holds what a spec-level frame read yielded, given the
/// precision the frame held before the read.
pub open spec fn spec_frame_matches(f: Frame, fo: FrameOut, old_precision: u32) -> bool {
    &&& f.step == fo.step
    &&& f.time == fo.time
    &&& f.boxvec@ == fo.boxvec
    &&& f.precision == (match fo.precision {
        Some(pr) => pr,
        None => old_precision,
    })
    &&& (match (f.positions, fo.positions) {
        (Positions::Words(v), PosOut::Words(s)) => v@ == s,
        (Positions::Ints(v), PosOut::Ints(s)) => v@ == s,
        _ => false,
    })
}

/// Read the positions section of a compressed frame: the precision word,
/// then the compressed coordinates, filtered through the selection.  The
/// number of decoded atoms is the frame's count clamped to what the
/// selection asks for.  Returns the padded payload size in bytes.
#[verifier::loop_isolation(false)]
pub fn read_positions<B: buffer::Buffered>(
    file: &mut crate::bytes::ByteReader,
    natoms: usize,
    scratch: &mut Vec<u8>,
    frame: &mut Frame,
    atom_selection: &AtomSelection,
) -> (r: Result<usize, XTCError>)
    ensures
        final(file).data@ == old(file).data@,
        match r {
            Ok(nb) => {
                &&& spec_read_positions(
                    old(file).data@,
                    old(file).pos as int,
                    natoms as nat,
                    *atom_selection,
                ) matches Ok((prec, ps, end))
                &&& final(frame).precision == spec_read_positions(
                    old(file).data@,
                    old(file).pos as int,
                    natoms as nat,
                    *atom_selection,
                )->Ok_0.0
                &&& (final(frame).positions matches Positions::Ints(v) && v@
                    == spec_read_positions(
                    old(file).data@,
                    old(file).pos as int,
                    natoms as nat,
                    *atom_selection,
                )->Ok_0.1)
                &&& final(file).pos == spec_read_positions(
                    old(file).data@,
                    old(file).pos as int,
                    natoms as nat,
                    *atom_selection,
                )->Ok_0.2
                &&& final(frame).step == old(frame).step
                &&& final(frame).time == old(frame).time
                &&& final(frame).boxvec == old(frame).boxvec
                &&& final(frame).positions.spec_len() % 3 == 0
            },
            Err(e) => spec_read_positions(
                old(file).data@,
                old(file).pos as int,
                natoms as nat,
                *atom_selection,
            ) == Err::<(u32, Seq<i32>, int), XTCError>(e),
        },
{
    let natoms_selected: usize = match atom_selection {
        AtomSelection::All => natoms,
        AtomSelection::Mask(mask) => {
            let mut cnt: usize = 0;
            let mut i: usize = 0;
            while i < natoms
                invariant
                    i <= natoms,
                    cnt <= i,
                    cnt == atom_selection.spec_selected_upto(i as nat),
                decreases natoms - i,
            {
                if i < mask.len() && mask[i] {
                    cnt += 1;
                }
                i += 1;
            }
            cnt
        },
        AtomSelection::Until(end) => *end as usize,
    };
    let n = if natoms <= natoms_selected {
        natoms
    } else {
        natoms_selected
    };
    if n > usize::MAX / 3 {
        proof {
            assert(3 * (n as int) > usize::MAX);
        }
        return Err(XTCError::InvalidNumericField);
    }
    proof {
        assert(3 * (n as int) <= usize::MAX);
    }
    let mut positions: Vec<i32> = Vec::new();
    let mut i: usize = 0;
    while i < 3 * n
        invariant
            i <= 3 * n,
            positions@.len() == i,
            forall|j: int| 0 <= j < i ==> positions@[j] == 0,
        decreases 3 * n - i,
    {
        positions.push(0);
        i += 1;
    }
    frame.precision = crate::bytes::read_u32(file)?;
    match crate::reader::read_compressed_positions::<B>(
        file,
        &mut positions,
        scratch,
        atom_selection,
    ) {
        Ok(nb) => {
            frame.positions = Positions::Ints(positions);
            Ok(nb)
        },
        Err(e) => Err(e),
    }
}

/// A reader over one xtc trajectory held in memory.
#[derive(Debug, Clone)]
pub struct XTCReader {
    /// The byte stream and its cursor.
    pub file: crate::bytes::ByteReader,
    /// The number of frames read so far.
    pub step: usize,
}

impl XTCReader {
    /// Wrap a byte stream in a reader, at its first frame.
    pub fn new(file: crate::bytes::ByteReader) -> (r: Self)
        ensures
            r.file == file,
            r.step == 0,
    {
        XTCReader { file, step: 0 }
    }

    /// Read the header at the start of a frame.
    ///
    /// Assumes the internal reader is at the start of a new frame header.
    pub fn read_header(&mut self) -> (r: Result<Header, XTCError>)
        ensures
            final(self).file.data@ == old(self).file.data@,
            final(self).step == old(self).step,
            match r {
                Ok(h) => {
                    &&& spec_header_err(old(self).file.data@, old(self).file.pos as int) is None
                    &&& spec_header_matches(h, old(self).file.data@, old(self).file.pos as int)
                    &&& final(self).file.pos == old(self).file.pos + 56
                    &&& h.natoms < 0x80000000
                },
                Err(e) => spec_header_err(old(self).file.data@, old(self).file.pos as int)
                    == Some(e),
            },
    {
        Header::read(&mut self.file)
    }

    /// Read the uncompressed positions of a tiny frame (at most nine
    /// atoms) through the selection.  Returns the number of position bytes
    /// read.
    #[verifier::loop_isolation(false)]
    pub fn read_smol_positions(
        &mut self,
        natoms: usize,
        frame: &mut Frame,
        atom_selection: &AtomSelection,
    ) -> (r: Result<usize, XTCError>)
        requires
            natoms <= 9,
        ensures
            final(self).file.data@ == old(self).file.data@,
            final(self).step == old(self).step,
            final(frame).step == old(frame).step,
            final(frame).time == old(frame).time,
            final(frame).boxvec == old(frame).boxvec,
            final(frame).precision == old(frame).precision,
            match r {
                Ok(nb) => {
                    &&& natoms > 0 ==> old(self).file.spec_remaining() >= 12 * natoms
                    &&& (final(frame).positions matches Positions::Words(w) && w@
                        == spec_smol_filter(
                        old(self).file.data@,
                        old(self).file.pos as int,
                        *atom_selection,
                        natoms as nat,
                    ))
                    &&& final(frame).positions.spec_len() % 3 == 0
                    &&& final(self).file.pos == old(self).file.pos + 12 * natoms
                    &&& nb == 12 * natoms
                },
                Err(e) => {
                    &&& e == XTCError::UnexpectedEof
                    &&& old(self).file.spec_remaining() < 12 * natoms
                    &&& final(frame).positions == old(frame).positions
                },
            },
    {
        let ghost d = self.file.data@;
        let ghost p = self.file.pos as int;
        let mut out: Vec<u32> = Vec::new();
        let mut idx: usize = 0;
        while idx < natoms
            invariant
                idx <= natoms,
                self.file.data@ == d,
                self.file.pos == p + 12 * idx,
                self.step == old(self).step,
                out@ == spec_smol_filter(d, p, *atom_selection, idx as nat),
                out@.len() % 3 == 0,
                idx > 0 ==> self.file.pos <= self.file.data@.len(),
            decreases natoms - idx,
        {
            let atom_start = self.file.stream_position();
            let w0 = match crate::bytes::read_u32(&mut self.file) {
                Ok(w) => w,
                Err(e) => {
                    self.file.seek(atom_start);
                    return Err(e);
                },
            };
            let w1 = match crate::bytes::read_u32(&mut self.file) {
                Ok(w) => w,
                Err(e) => {
                    self.file.seek(atom_start);
                    return Err(e);
                },
            };
            let w2 = match crate::bytes::read_u32(&mut self.file) {
                Ok(w) => w,
                Err(e) => {
                    self.file.seek(atom_start);
                    return Err(e);
                },
            };
            match atom_selection.is_included(idx) {
                Some(true) => {
                    out.push(w0);
                    out.push(w1);
                    out.push(w2);
                },
                _ => {},
            }
            idx += 1;
        }
        frame.positions = Positions::Words(out);
        proof {
            if natoms > 0 {
                assert(12 * natoms <= old(self).file.spec_remaining()) by {
                    assert(self.file.pos == p + 12 * natoms);
                }
            }
        }
        Ok(12 * natoms)
    }

    /// Reads the next [`Frame`] whole and advances one step.
    pub fn read_frame(&mut self, frame: &mut Frame) -> (r: Result<(), XTCError>)
        ensures
            read_frame_post(*old(self), *final(self), *old(frame), *final(frame), AtomSelection::All, r),
    {
        self.read_frame_with_selection(frame, &AtomSelection::All)
    }

    /// Reads the next [`Frame`] according to the [`AtomSelection`], and
    /// advances one step.
    pub fn read_frame_with_selection(
        &mut self,
        frame: &mut Frame,
        atom_selection: &AtomSelection,
    ) -> (r: Result<(), XTCError>)
        ensures
            read_frame_post(*old(self), *final(self), *old(frame), *final(frame), *atom_selection, r),
    {
        let mut scratch: Vec<u8> = Vec::new();
        self.read_frame_with_scratch(frame, &mut scratch, atom_selection)
    }

    /// Reads the next [`Frame`], decoding the compressed payload through a
    /// caller-owned scratch buffer.
    pub fn read_frame_with_scratch(
        &mut self,
        frame: &mut Frame,
        scratch: &mut Vec<u8>,
        atom_selection: &AtomSelection,
    ) -> (r: Result<(), XTCError>)
        ensures
            read_frame_post(*old(self), *final(self), *old(frame), *final(frame), *atom_selection, r),
    {
        self.read_frame_with_scratch_impl::<crate::buffer::UnBuffered>(
            frame,
            scratch,
            atom_selection,
        )
    }

    /// Reads the next [`Frame`] with the incremental byte-fetch strategy.
    pub fn read_frame_with_selection_buffered(
        &mut self,
        frame: &mut Frame,
        atom_selection: &AtomSelection,
    ) -> (r: Result<(), XTCError>)
        ensures
            read_frame_post(*old(self), *final(self), *old(frame), *final(frame), *atom_selection, r),
    {
        let mut scratch: Vec<u8> = Vec::new();
        self.read_frame_with_scratch_buffered(frame, &mut scratch, atom_selection)
    }

    /// Reads the next [`Frame`] with the incremental byte-fetch strategy,
    /// decoding through a caller-owned scratch buffer.
    pub fn read_frame_with_scratch_buffered(
        &mut self,
        frame: &mut Frame,
        scratch: &mut Vec<u8>,
        atom_selection: &AtomSelection,
    ) -> (r: Result<(), XTCError>)
        ensures
            read_frame_post(*old(self), *final(self), *old(frame), *final(frame), *atom_selection, r),
    {
        self.read_frame_with_scratch_impl::<crate::buffer::Buffer>(frame, scratch, atom_selection)
    }

    /// Implementation of reading a frame with a scratch buffer, generic
    /// over the byte-fetch strategy.  Both strategies meet one contract,
    /// so the decoded frame is the same whichever is chosen.
    fn read_frame_with_scratch_impl<B: crate::buffer::Buffered>(
        &mut self,
        frame: &mut Frame,
        scratch: &mut Vec<u8>,
        atom_selection: &AtomSelection,
    ) -> (r: Result<(), XTCError>)
        ensures
            read_frame_post(*old(self), *final(self), *old(frame), *final(frame), *atom_selection, r),
    {
        proof {
            reveal(spec_read_frame);
        }
        let header = Header::read(&mut self.file)?;
        let natoms = header.natoms;
        if natoms <= 9 {
            match self.read_smol_positions(natoms, frame, atom_selection) {
                Ok(_) => {},
                Err(e) => {
                    return Err(e);
                },
            }
        } else {
            scratch.clear();
            match read_positions::<B>(&mut self.file, natoms, scratch, frame, atom_selection) {
                Ok(_) => {},
                Err(e) => {
                    return Err(e);
                },
            }
        }
        self.step = self.step.wrapping_add(1);
        frame.step = header.step;
        frame.time = header.time;
        frame.boxvec = header.boxvec;
        proof {
            let d = old(self).file.data@;
            let p = old(self).file.pos as int;
            let fo = spec_read_frame(d, p, *atom_selection)->Ok_0;
            assert(spec_header_err(d, p) is None);
            assert(natoms == spec_header_natoms(d, p));
            if natoms <= 9 {
                assert(!(d.len() - (p + 56) < 12 * (spec_header_natoms(d, p) as nat)));
                assert(spec_read_frame(d, p, *atom_selection) is Ok);
            } else {
                assert(spec_read_frame(d, p, *atom_selection) is Ok);
            }
            assert(frame.boxvec@ == fo.boxvec);
            assert(spec_frame_matches(*frame, fo, old(frame).precision));
        }
        Ok(())
    }
}

impl XTCReader {
    /// Reset the reader to its initial position: back to the first frame.
    ///
    /// The stream itself is untouched, so every read after `home` yields
    /// byte for byte what a fresh reader over the same stream would.
    pub fn home(&mut self)
        ensures
            final(self).file.data@ == old(self).file.data@,
            final(self).file.pos == 0,
            final(self).step == 0,
    {
        self.file.seek(0);
        self.step = 0;
    }

    /// Enumerate the end offset of each frame from the cursor's position
    /// on, by walking the headers: the offset after frame `i` is the start
    /// of frame `i + 1`, and the last one points one past the final frame.
    /// The cursor is restored afterwards.  `until` bounds how many offsets
    /// are gathered.
    ///
    /// The walk assumes the compressed frame layout, as the format's own
    /// indexing convention does; a trajectory of tiny (at most nine atom)
    /// frames cannot be walked this way.
    #[verifier::loop_isolation(false)]
    pub fn determine_offsets_exclusive(&mut self, until: Option<usize>) -> (r: Result<
        Vec<u64>,
        XTCError,
    >)
        requires
            old(self).file.data@.len() < 0x7fffffff00000000,
        ensures
            final(self).file.data@ == old(self).file.data@,
            final(self).file.pos == old(self).file.pos,
            final(self).step == old(self).step,
            match r {
                Ok(v) => spec_offsets_walk(
                    old(self).file.data@,
                    old(self).file.pos as int,
                    match until {
                        Some(u) => Some(u as nat),
                        None => None,
                    },
                ) == Ok::<Seq<u64>, XTCError>(v@),
                Err(e) => spec_offsets_walk(
                    old(self).file.data@,
                    old(self).file.pos as int,
                    match until {
                        Some(u) => Some(u as nat),
                        None => None,
                    },
                ) == Err::<Seq<u64>, XTCError>(e),
            },
    {
        let ghost d = self.file.data@;
        let ghost p0 = self.file.pos as int;
        let ghost limit0: Option<nat> = match until {
            Some(u) => Some(u as nat),
            None => None,
        };
        let start = self.file.stream_position();
        let len = self.file.len();
        let mut offsets: Vec<u64> = Vec::new();
        let mut done = false;
        let mut more = match until {
            Some(u) => 0 < u,
            None => true,
        };
        while !done && more
            invariant
                more == (match until {
                    Some(u) => offsets@.len() < u,
                    None => true,
                }),
                self.file.data@ == d,
                self.step == old(self).step,
                start == p0,
                len == d.len(),
                match until {
                    Some(u) => offsets@.len() <= u,
                    None => true,
                },
                !done ==> spec_offsets_walk(d, p0, limit0) == (match spec_offsets_walk(
                    d,
                    self.file.pos as int,
                    match until {
                        Some(u) => Some((u - offsets@.len()) as nat),
                        None => None,
                    },
                ) {
                    Ok(rest) => Ok::<Seq<u64>, XTCError>(offsets@ + rest),
                    Err(e) => Err::<Seq<u64>, XTCError>(e),
                }),
                done ==> spec_offsets_walk(d, p0, limit0) == Ok::<Seq<u64>, XTCError>(offsets@),
            decreases crate::reader::nat_sub(d.len() as int + 93, self.file.pos as int) as int + (if done {
                0int
            } else {
                1int
            }),
        {
            let p = self.file.stream_position();
            let magic = match crate::bytes::read_i32(&mut self.file) {
                Ok(m) => m,
                Err(_) => {
                    // Clean end of the trajectory.
                    done = true;
                    proof {
                        assert(match until {
                            Some(u) => offsets@.len() < u,
                            None => true,
                        });
                        assert(spec_offsets_walk(
                            d,
                            p as int,
                            match until {
                                Some(u) => Some((u - offsets@.len()) as nat),
                                None => None,
                            },
                        ) == Ok::<Seq<u64>, XTCError>(Seq::empty()));
                        assert(offsets@ + Seq::<u64>::empty() =~= offsets@);
                    }
                    continue ;
                },
            };
            if magic != MAGIC {
                self.file.seek(start);
                return Err(XTCError::InvalidMagic);
            }
            self.file.seek(p + 88);
            let skip = match crate::bytes::read_i32(&mut self.file) {
                Ok(v) => v,
                Err(e) => {
                    self.file.seek(start);
                    return Err(e);
                },
            };
            if skip < 0 {
                self.file.seek(start);
                return Err(XTCError::InvalidNumericField);
            }
            let pad = crate::padding(skip as usize);
            let offset: u64 = p + 92 + skip as u64 + pad as u64;
            let ghost offs_before = offsets@;
            offsets.push(offset);
            self.file.seek(offset);
            more = match until {
                Some(u) => offsets.len() < u,
                None => true,
            };
            proof {
                assert forall|rest: Seq<u64>|
                    (offs_before + (seq![offset] + rest)) =~= (offsets@ + rest) by {}
            }
        }
        self.file.seek(start);
        Ok(offsets)
    }

    /// Enumerate the start offset of each frame from the cursor's position
    /// on: zero, then the end offsets of all but the last frame.  The
    /// cursor is restored afterwards.
    #[verifier::loop_isolation(false)]
    pub fn determine_offsets(&mut self, until: Option<usize>) -> (r: Result<Vec<u64>, XTCError>)
        requires
            old(self).file.data@.len() < 0x7fffffff00000000,
        ensures
            final(self).file.data@ == old(self).file.data@,
            final(self).file.pos == old(self).file.pos,
            final(self).step == old(self).step,
            match r {
                Ok(v) => {
                    &&& spec_offsets_walk(
                        old(self).file.data@,
                        old(self).file.pos as int,
                        match until {
                            Some(u) => Some(u as nat),
                            None => None,
                        },
                    ) matches Ok(w)
                    &&& v@ == spec_start_offsets(
                        spec_offsets_walk(
                            old(self).file.data@,
                            old(self).file.pos as int,
                            match until {
                                Some(u) => Some(u as nat),
                                None => None,
                            },
                        )->Ok_0,
                    )
                    &&& v@[0] == 0u64
                    &&& v@.len() >= 1
                },
                Err(e) => spec_offsets_walk(
                    old(self).file.data@,
                    old(self).file.pos as int,
                    match until {
                        Some(u) => Some(u as nat),
                        None => None,
                    },
                ) == Err::<Seq<u64>, XTCError>(e),
            },
    {
        let exclusive = self.determine_offsets_exclusive(until)?;
        let mut offsets: Vec<u64> = Vec::new();
        offsets.push(0);
        let keep = if exclusive.len() == 0 {
            0
        } else {
            exclusive.len() - 1
        };
        let mut i: usize = 0;
        while i < keep
            invariant
                i <= keep,
                keep == (if exclusive@.len() == 0 {
                    0int
                } else {
                    exclusive@.len() - 1
                }),
                offsets@.len() == i + 1,
                offsets@[0] == 0u64,
                forall|j: int| 1 <= j <= i ==> offsets@[j] == exclusive@[j - 1],
            decreases keep - i,
        {
            let v = exclusive[i];
            offsets.push(v);
            i += 1;
        }
        proof {
            assert(offsets@ =~= spec_start_offsets(exclusive@));
        }
        Ok(offsets)
    }

    /// The byte size of each fully walked frame: the difference of
    /// consecutive end offsets.  The cursor is restored afterwards.
    #[verifier::loop_isolation(false)]
    pub fn determine_frame_sizes(&mut self, until: Option<usize>) -> (r: Result<
        Vec<u64>,
        XTCError,
    >)
        requires
            old(self).file.data@.len() < 0x7fffffff00000000,
        ensures
            final(self).file.data@ == old(self).file.data@,
            final(self).file.pos == old(self).file.pos,
            final(self).step == old(self).step,
            match r {
                Ok(v) => {
                    &&& spec_offsets_walk(
                        old(self).file.data@,
                        old(self).file.pos as int,
                        match until {
                            Some(u) => Some(u as nat),
                            None => None,
                        },
                    ) matches Ok(w) && v@.len() == crate::reader::nat_sub(w.len() as int, 1) && (forall|i: int|
                        0 <= i < v@.len() ==> v@[i] == w[i + 1] - w[i])
                },
                Err(e) => spec_offsets_walk(
                    old(self).file.data@,
                    old(self).file.pos as int,
                    match until {
                        Some(u) => Some(u as nat),
                        None => None,
                    },
                ) == Err::<Seq<u64>, XTCError>(e),
            },
    {
        let ghost d = self.file.data@;
        let ghost p0 = self.file.pos as int;
        let starts = self.determine_offsets_exclusive(until)?;
        proof {
            let lim: Option<nat> = match until {
                Some(u) => Some(u as nat),
                None => None,
            };
            lemma_offsets_walk_increasing(d, p0, lim);
            let w = spec_offsets_walk(d, p0, lim)->Ok_0;
            assert(w == starts@);
            assert forall|a: int, b: int|
                0 <= a < b < starts@.len() implies starts@[a] < starts@[b] by {
                assert(starts@[a] == w[a] && starts@[b] == w[b]);
                assert(w[a] < w[b]);
            }
        }
        let mut sizes: Vec<u64> = Vec::new();
        let n = starts.len();
        if n == 0 {
            return Ok(sizes);
        }
        let mut i: usize = 0;
        while i < n - 1
            invariant
                i <= n - 1,
                n == starts@.len() >= 1,
                sizes@.len() == i,
                forall|a: int, b: int| 0 <= a < b < n ==> starts@[a] < starts@[b],
                forall|j: int| 0 <= j < i ==> sizes@[j] == starts@[j + 1] - starts@[j],
            decreases n - i,
        {
            let s = starts[i];
            let e = starts[i + 1];
            sizes.push(e - s);
            i += 1;
        }
        Ok(sizes)
    }
}

/// The start offsets of the frames, given their end offsets: zero, then
/// every end but the last.
pub open spec fn spec_start_offsets(ends: Seq<u64>) -> Seq<u64> {
    seq![0u64] + (if ends.len() == 0 {
        ends
    } else {
        ends.take(ends.len() - 1)
    })
}

/// The start offsets number exactly the walked frames: one per frame, the
/// first at zero.  (An empty walk still yields the single offset zero.)
pub proof fn lemma_start_offsets_count(ends: Seq<u64>)
    ensures
        ends.len() > 0 ==> spec_start_offsets(ends).len() == ends.len(),
        spec_start_offsets(ends).len() >= 1,
        spec_start_offsets(ends)[0] == 0u64,
{
}

/// The frame-end offsets reachable from position `p` by walking headers,
/// taking at most `limit` of them: each frame contributes the position
/// just past its padded payload.  A missing magic word is the clean end of
/// the walk; a wrong one, a missing byte count, or a negative one stops it
/// with the corresponding error.
pub open spec fn spec_offsets_walk(d: Seq<u8>, p: int, limit: Option<nat>) -> Result<
    Seq<u64>,
    XTCError,
>
    decreases crate::reader::nat_sub(d.len() as int + 93, p),
{
    if limit == Some(0nat) {
        Ok(Seq::empty())
    } else if d.len() - p < 4 {
        Ok(Seq::empty())
    } else if crate::bytes::spec_be_i32(d, p) != MAGIC {
        Err(XTCError::InvalidMagic)
    } else if d.len() - (p + 88) < 4 {
        Err(XTCError::UnexpectedEof)
    } else {
        let skip = crate::bytes::spec_be_i32(d, p + 88);
        if skip < 0 {
            Err(XTCError::InvalidNumericField)
        } else {
            let next = p + 92 + skip + spec_padding(skip as nat);
            match spec_offsets_walk(
                d,
                next,
                match limit {
                    Some(u) => Some((u - 1) as nat),
                    None => None,
                },
            ) {
                Err(e) => Err(e),
                Ok(rest) => Ok(seq![next as u64] + rest),
            }
        }
    }
}

/// The offsets a walk gathers lie strictly beyond its start, in strictly
/// increasing order.
pub proof fn lemma_offsets_walk_increasing(d: Seq<u8>, p: int, limit: Option<nat>)
    requires
        0 <= p,
        d.len() < 0x7fffffff00000000,
    ensures
        spec_offsets_walk(d, p, limit) matches Ok(w) ==> (forall|i: int|
            0 <= i < w.len() ==> p < #[trigger] w[i]) && (forall|a: int, b: int|
            0 <= a < b < w.len() ==> w[a] < w[b]),
    decreases crate::reader::nat_sub(d.len() as int + 93, p),
{
    if limit == Some(0nat) || d.len() - p < 4 || crate::bytes::spec_be_i32(d, p) != MAGIC
        || d.len() - (p + 88) < 4 {
    } else {
        let skip = crate::bytes::spec_be_i32(d, p + 88);
        if skip >= 0 {
            let next = p + 92 + skip + spec_padding(skip as nat);
            let l2: Option<nat> = match limit {
                Some(u) => Some((u - 1) as nat),
                None => None,
            };
            lemma_offsets_walk_increasing(d, next, l2);
            match spec_offsets_walk(d, next, l2) {
                Ok(rest) => {
                    let w = seq![next as u64] + rest;
                    assert(spec_offsets_walk(d, p, limit) == Ok::<Seq<u64>, XTCError>(w));
                    assert(w[0] == next as u64);
                    assert forall|i: int| 0 <= i < w.len() implies p < #[trigger] w[i] by {
                        if i > 0 {
                            assert(w[i] == rest[i - 1]);
                            assert(next < rest[i - 1]);
                        }
                    }
                    assert forall|a: int, b: int| 0 <= a < b < w.len() implies w[a] < w[b] by {
                        if a == 0 {
                            assert(w[b] == rest[b - 1]);
                            assert(next < rest[b - 1]);
                        } else {
                            assert(w[a] == rest[a - 1] && w[b] == rest[b - 1]);
                        }
                    }
                },
                Err(_) => {},
            }
        }
    }
}

/// The frames a selection picks out of the trajectory, walking the start
/// offsets from index `idx` on: a skipped frame is passed over, an
/// included one is read whole, and the terminal verdict ends the walk.
pub open spec fn spec_frames_loop(
    d: Seq<u8>,
    offs: Seq<u64>,
    idx: int,
    fsel: crate::selection::FrameSelection,
    asel: AtomSelection,
) -> Result<Seq<FrameOut>, XTCError>
    decreases crate::reader::nat_sub(offs.len() as int, idx),
{
    if idx < 0 || idx >= offs.len() {
        Ok(Seq::empty())
    } else {
        match fsel.spec_is_included(idx as nat) {
            None => Ok(Seq::empty()),
            Some(false) => spec_frames_loop(d, offs, idx + 1, fsel, asel),
            Some(true) => match spec_read_frame(d, offs[idx] as int, asel) {
                Err(e) => Err(e),
                Ok(fo) => match spec_frames_loop(d, offs, idx + 1, fsel, asel) {
                    Err(e) => Err(e),
                    Ok(rest) => Ok(seq![fo] + rest),
                },
            },
        }
    }
}

/// Reading frames until the stream's clean end: a header that is missing
/// outright ends the walk with what was gathered, any other failure is an
/// error.  `fuel` only bounds the recursion; it is chosen larger than any
/// possible frame count.
pub open spec fn spec_read_all(d: Seq<u8>, p: int, fuel: nat) -> Result<Seq<FrameOut>, XTCError>
    decreases fuel,
{
    if fuel == 0 {
        Ok(Seq::empty())
    } else {
        match spec_read_frame(d, p, AtomSelection::All) {
            Err(XTCError::UnexpectedEof) => Ok(Seq::empty()),
            Err(e) => Err(e),
            Ok(fo) => match spec_read_all(d, fo.end, (fuel - 1) as nat) {
                Err(e) => Err(e),
                Ok(rest) => Ok(seq![fo] + rest),
            },
        }
    }
}

/// The fuel that always suffices for [`spec_read_all`]: more than one unit
/// per byte of the stream.
pub open spec fn spec_all_fuel(d: Seq<u8>, p: int) -> nat {
    crate::reader::nat_sub(d.len() as int + 1, p) + 1
}

/// A successful frame read consumes at least the 56 header bytes and never
/// runs past the end of the stream.
pub proof fn lemma_read_frame_advances(d: Seq<u8>, p: int, sel: AtomSelection)
    requires
        spec_read_frame(d, p, sel) is Ok,
    ensures
        p + 56 <= spec_read_frame(d, p, sel)->Ok_0.end <= d.len(),
{
    reveal(spec_read_frame);
    reveal(crate::reader::spec_decode_positions);
}

impl XTCReader {
    /// Seek to `offset`, then read one [`Frame`] there, advancing one
    /// step.  The `BUFFERED` flag picks the byte-fetch strategy; both meet
    /// one contract, so the decoded frame does not depend on it.
    pub fn read_frame_at_offset<const BUFFERED: bool>(
        &mut self,
        frame: &mut Frame,
        offset: u64,
        atom_selection: &AtomSelection,
    ) -> (r: Result<(), XTCError>)
        ensures
            final(self).file.data@ == old(self).file.data@,
            match r {
                Ok(u) => {
                    &&& spec_read_frame(
                        old(self).file.data@,
                        offset as int,
                        *atom_selection,
                    ) matches Ok(fo)
                    &&& spec_frame_matches(
                        *final(frame),
                        spec_read_frame(old(self).file.data@, offset as int, *atom_selection)->Ok_0,
                        old(frame).precision,
                    )
                    &&& final(self).file.pos == spec_read_frame(
                        old(self).file.data@,
                        offset as int,
                        *atom_selection,
                    )->Ok_0.end
                    &&& final(frame).positions.spec_len() % 3 == 0
                },
                Err(e) => spec_read_frame(old(self).file.data@, offset as int, *atom_selection)
                    == Err::<FrameOut, XTCError>(e),
            },
    {
        self.file.seek(offset);
        if BUFFERED {
            self.read_frame_with_selection_buffered(frame, atom_selection)
        } else {
            self.read_frame_with_selection(frame, atom_selection)
        }
    }

    /// Append the frames a [`FrameSelection`] picks to `frames`, reading
    /// each through the [`AtomSelection`].  Returns how many frames were
    /// appended.  The `BUFFERED` flag picks the byte-fetch strategy.
    #[verifier::loop_isolation(false)]
    #[verifier::rlimit(30)]
    pub fn read_frames<const BUFFERED: bool>(
        &mut self,
        frames: &mut Vec<Frame>,
        frame_selection: &crate::selection::FrameSelection,
        atom_selection: &AtomSelection,
    ) -> (r: Result<usize, XTCError>)
        requires
            frame_selection.wf(),
            old(self).file.data@.len() < 0x7fffffff00000000,
            old(frames)@.len() + old(self).file.data@.len() <= usize::MAX,
        ensures
            final(self).file.data@ == old(self).file.data@,
            match r {
                Ok(n) => {
                    let w = spec_offsets_walk(
                        old(self).file.data@,
                        old(self).file.pos as int,
                        match frame_selection.spec_until() {
                            Some(u) => Some(u as nat),
                            None => None,
                        },
                    );
                    let offs = spec_start_offsets(w->Ok_0);
                    let fos = spec_frames_loop(
                        old(self).file.data@,
                        offs,
                        0,
                        *frame_selection,
                        *atom_selection,
                    );
                    &&& w is Ok
                    &&& fos is Ok
                    &&& n == fos->Ok_0.len()
                    &&& final(frames)@.len() == old(frames)@.len() + n
                    &&& final(frames)@.subrange(0, old(frames)@.len() as int) == old(frames)@
                    &&& forall|j: int|
                        0 <= j < n ==> spec_frame_matches(
                            #[trigger] final(frames)@[old(frames)@.len() + j],
                            fos->Ok_0[j],
                            0u32,
                        )
                    &&& forall|j: int|
                        0 <= j < n ==> (#[trigger] final(frames)@[old(frames)@.len() + j]).positions.spec_len()
                            % 3 == 0
                },
                Err(e) => {
                    let w = spec_offsets_walk(
                        old(self).file.data@,
                        old(self).file.pos as int,
                        match frame_selection.spec_until() {
                            Some(u) => Some(u as nat),
                            None => None,
                        },
                    );
                    w == Err::<Seq<u64>, XTCError>(e) || (w is Ok && spec_frames_loop(
                        old(self).file.data@,
                        spec_start_offsets(w->Ok_0),
                        0,
                        *frame_selection,
                        *atom_selection,
                    ) == Err::<Seq<FrameOut>, XTCError>(e))
                },
            },
    {
        let ghost d = self.file.data@;
        let until = frame_selection.until();
        let offsets = self.determine_offsets(until)?;
        let ghost offs = offsets@;
        let ghost fsel = *frame_selection;
        let ghost asel = *atom_selection;
        let ghost total = spec_frames_loop(d, offs, 0, fsel, asel);
        let mut n: usize = 0;
        let mut idx: usize = 0;
        let mut done = false;
        let ghost base = old(frames)@.len() as int;
        let mut taken: Ghost<Seq<FrameOut>> = Ghost(Seq::empty());
        proof {
            assert(old(frames)@ + Seq::<Frame>::empty() =~= old(frames)@);
        }
        while idx < offsets.len() && !done
            invariant
                self.file.data@ == d,
                offsets@ == offs,
                idx <= offs.len(),
                n <= idx,
                frames@.len() == base + n,
                frames@.subrange(0, base) == old(frames)@,
                taken@.len() == n,
                forall|j: int|
                    0 <= j < n ==> spec_frame_matches(#[trigger] frames@[base + j], taken@[j], 0u32),
                forall|j: int|
                    0 <= j < n ==> (#[trigger] frames@[base + j]).positions.spec_len() % 3 == 0,
                !done ==> total == (match spec_frames_loop(d, offs, idx as int, fsel, asel) {
                    Ok(rest) => Ok::<Seq<FrameOut>, XTCError>(taken@ + rest),
                    Err(e) => Err::<Seq<FrameOut>, XTCError>(e),
                }),
                done ==> total == Ok::<Seq<FrameOut>, XTCError>(taken@),
            decreases offs.len() - idx + (if done {
                0int
            } else {
                1int
            }),
        {
            match frame_selection.is_included(idx) {
                None => {
                    done = true;
                    proof {
                        assert(taken@ + Seq::<FrameOut>::empty() =~= taken@);
                    }
                },
                Some(false) => {
                    idx += 1;
                },
                Some(true) => {
                    let mut frame = Frame::default();
                    let offset = offsets[idx];
                    match self.read_frame_at_offset::<BUFFERED>(
                        &mut frame,
                        offset,
                        atom_selection,
                    ) {
                        Ok(_) => {},
                        Err(e) => {
                            return Err(e);
                        },
                    }
                    let ghost fo = spec_read_frame(d, offs[idx as int] as int, asel)->Ok_0;
                    frames.push(frame);
                    n += 1;
                    idx += 1;
                    let ghost old_taken = taken@;
                    taken = Ghost(taken@ + seq![fo]);
                    proof {
                        assert(frames@.subrange(0, base) =~= old(frames)@);
                        assert forall|rest: Seq<FrameOut>|
                            (old_taken + (seq![fo] + rest)) =~= (taken@ + rest) by {}
                        assert(old_taken + seq![fo] =~= taken@);
                    }
                },
            }
        }
        proof {
            if !done {
                assert(spec_frames_loop(d, offs, idx as int, fsel, asel) == Ok::<
                    Seq<FrameOut>,
                    XTCError,
                >(Seq::empty()));
                assert(taken@ + Seq::<FrameOut>::empty() =~= taken@);
            }
        }
        Ok(n)
    }

    /// A convenience function to read every frame in the trajectory, from
    /// the cursor's position to the stream's clean end.
    #[verifier::rlimit(100)]
    pub fn read_all_frames(&mut self) -> (r: Result<Vec<Frame>, XTCError>)
        ensures
            final(self).file.data@ == old(self).file.data@,
            match r {
                Ok(v) => {
                    let fos = spec_read_all(
                        old(self).file.data@,
                        old(self).file.pos as int,
                        spec_all_fuel(old(self).file.data@, old(self).file.pos as int),
                    );
                    &&& fos is Ok
                    &&& v@.len() == fos->Ok_0.len()
                    &&& forall|j: int|
                        0 <= j < v@.len() ==> spec_frame_matches(
                            #[trigger] v@[j],
                            fos->Ok_0[j],
                            0u32,
                        )
                },
                Err(e) => e != XTCError::UnexpectedEof && spec_read_all(
                    old(self).file.data@,
                    old(self).file.pos as int,
                    spec_all_fuel(old(self).file.data@, old(self).file.pos as int),
                ) == Err::<Seq<FrameOut>, XTCError>(e),
            },
    {
        let ghost d = self.file.data@;
        let ghost p0 = self.file.pos as int;
        let ghost fuel0 = spec_all_fuel(d, p0);
        let mut frames: Vec<Frame> = Vec::new();
        let mut taken: Ghost<Seq<FrameOut>> = Ghost(Seq::empty());
        loop
            invariant_except_break
                frames@.len() == 0 ==> self.file.pos == p0,
                frames@.len() > 0 ==> p0 + 56 * frames@.len() <= self.file.pos <= d.len(),
                spec_read_all(d, p0, fuel0) == (match spec_read_all(
                    d,
                    self.file.pos as int,
                    (fuel0 - frames@.len()) as nat,
                ) {
                    Ok(rest) => Ok::<Seq<FrameOut>, XTCError>(taken@ + rest),
                    Err(e) => Err::<Seq<FrameOut>, XTCError>(e),
                }),
                frames@.len() < fuel0,
            invariant
                self.file.data@ == d,
                d == old(self).file.data@,
                p0 == old(self).file.pos as int,
                p0 >= 0,
                fuel0 == spec_all_fuel(d, p0),
                frames@.len() == taken@.len(),
                forall|j: int|
                    0 <= j < frames@.len() ==> spec_frame_matches(
                        #[trigger] frames@[j],
                        taken@[j],
                        0u32,
                    ),
            ensures
                self.file.data@ == d,
                frames@.len() == taken@.len(),
                forall|j: int|
                    0 <= j < frames@.len() ==> spec_frame_matches(
                        #[trigger] frames@[j],
                        taken@[j],
                        0u32,
                    ),
                spec_read_all(d, p0, fuel0) == Ok::<Seq<FrameOut>, XTCError>(taken@),
            decreases crate::reader::nat_sub(d.len() as int + 1, self.file.pos as int),
        {
            let ghost p_cur = self.file.pos as int;
            let mut frame = Frame::default();
            match self.read_frame(&mut frame) {
                Ok(_) => {
                    let ghost fo = spec_read_frame(d, p_cur, AtomSelection::All)->Ok_0;
                    let ghost old_taken = taken@;
                    taken = Ghost(taken@ + seq![fo]);
                    proof {
                        lemma_read_frame_advances(d, p_cur, AtomSelection::All);
                        assert forall|rest: Seq<FrameOut>|
                            (old_taken + (seq![fo] + rest)) =~= (taken@ + rest) by {}
                    }
                    frames.push(frame);
                },
                Err(e) => {
                    if matches!(e, XTCError::UnexpectedEof) {
                        proof {
                            assert(taken@ + Seq::<FrameOut>::empty() =~= taken@);
                        }
                        break ;
                    } else {
                        return Err(e);
                    }
                },
            }
        }
        Ok(frames)
    }
}

/// The byte-fetch strategy cannot change what is decoded: the eager and
/// the incremental read paths are both pinned to [`spec_read_frame`], so
/// any two frames that satisfy the read contract for the same stream,
/// position and selection hold identical step, time, box and positions.
pub proof fn lemma_byte_fetch_agreement(
    d: Seq<u8>,
    p: int,
    sel: AtomSelection,
    f1: Frame,
    f2: Frame,
    pr1: u32,
    pr2: u32,
)
    requires
        spec_read_frame(d, p, sel) is Ok,
        spec_frame_matches(f1, spec_read_frame(d, p, sel)->Ok_0, pr1),
        spec_frame_matches(f2, spec_read_frame(d, p, sel)->Ok_0, pr2),
    ensures
        f1.step == f2.step,
        f1.time == f2.time,
        f1.boxvec@ == f2.boxvec@,
        match (f1.positions, f2.positions) {
            (Positions::Words(a), Positions::Words(b)) => a@ == b@,
            (Positions::Ints(a), Positions::Ints(b)) => a@ == b@,
            _ => false,
        },
{
}

/// What every frame-reading entry point guarantees: on success the frame
/// holds exactly what [`spec_read_frame`] yields at the old cursor, the
/// cursor stands just past the frame, and the step counter advanced; on
/// failure the error is exactly the spec-level one.  The frame's position
/// count is always a whole number of atoms.
pub open spec fn read_frame_post(
    old_self: XTCReader,
    new_self: XTCReader,
    old_frame: Frame,
    new_frame: Frame,
    sel: AtomSelection,
    r: Result<(), XTCError>,
) -> bool {
    &&& new_self.file.data@ == old_self.file.data@
    &&& match r {
        Ok(u) => {
            &&& spec_read_frame(old_self.file.data@, old_self.file.pos as int, sel) matches Ok(fo)
            &&& spec_frame_matches(
                new_frame,
                spec_read_frame(old_self.file.data@, old_self.file.pos as int, sel)->Ok_0,
                old_frame.precision,
            )
            &&& new_self.file.pos == spec_read_frame(
                old_self.file.data@,
                old_self.file.pos as int,
                sel,
            )->Ok_0.end
            &&& new_self.step == vstd::wrapping::usize_specs::wrapping_add(old_self.step, 1)
            &&& new_frame.positions.spec_len() % 3 == 0
        },
        Err(e) => {
            &&& spec_read_frame(old_self.file.data@, old_self.file.pos as int, sel) == Err::<
                FrameOut,
                XTCError,
            >(e)
            &&& new_self.step == old_self.step
        },
    }
}

} // verus!
