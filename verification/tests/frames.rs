//! Scenario tests over hand-built xtc byte streams: the tiny uncompressed
//! path, the compressed decoder against hand-computed values, the water
//! swap, truncation, offsets, and the error cases.
use molly::selection::AtomSelection as AS;
use molly::selection::FrameSelection as FS;
use molly::{Frame, Positions, XTCError, XTCReader};

pub const UNIT_BOX: [f32; 9] = [1.0, 0.0, 0.0, 0.0, 1.0, 0.0, 0.0, 0.0, 1.0];

pub fn be(out: &mut Vec<u8>, v: u32) {
    out.extend_from_slice(&v.to_be_bytes());
}

pub struct BitWriter {
    bytes: Vec<u8>,
    acc: u32,
    used: u32,
}

impl BitWriter {
    pub fn new() -> Self {
        BitWriter { bytes: Vec::new(), acc: 0, used: 0 }
    }

    pub fn push(&mut self, val: u32, n: u32) {
        for i in (0..n).rev() {
            self.acc = (self.acc << 1) | ((val >> i) & 1);
            self.used += 1;
            if self.used == 8 {
                self.bytes.push(self.acc as u8);
                self.acc = 0;
                self.used = 0;
            }
        }
    }

    pub fn push_le(&mut self, mut val: u64, mut n: u32) {
        while n >= 8 {
            self.push((val & 0xff) as u32, 8);
            val >>= 8;
            n -= 8;
        }
        if n > 0 {
            self.push((val & ((1 << n) - 1)) as u32, n);
        }
    }

    pub fn finish(mut self) -> Vec<u8> {
        if self.used > 0 {
            self.bytes.push((self.acc << (8 - self.used)) as u8);
        }
        self.bytes
    }
}

pub fn header(out: &mut Vec<u8>, natoms: u32, step: u32, time: f32, boxv: [f32; 9]) {
    be(out, 1995);
    be(out, natoms);
    be(out, step);
    be(out, time.to_bits());
    for w in boxv {
        be(out, w.to_bits());
    }
    be(out, natoms);
}

pub fn opaque(out: &mut Vec<u8>, payload: &[u8]) {
    be(out, payload.len() as u32);
    out.extend_from_slice(payload);
    let pad = (4 - payload.len() % 4) % 4;
    for _ in 0..pad {
        out.push(0);
    }
}

/// A compressed frame whose atom `i` decodes to the integer triple of
/// `i % 1331` in mixed radix 11.
pub fn varied_frame(out: &mut Vec<u8>, natoms: u32, step: u32, time: f32) {
    header(out, natoms, step, time, UNIT_BOX);
    be(out, 1000.0f32.to_bits());
    for _ in 0..3 {
        be(out, 0);
    }
    for _ in 0..3 {
        be(out, 10);
    }
    be(out, 9);
    let mut w = BitWriter::new();
    for i in 0..natoms {
        w.push_le((i % 1331) as u64, 11);
        w.push(0, 1);
    }
    opaque(out, &w.finish());
}

pub fn varied_atom(i: u32) -> [i32; 3] {
    let v = (i % 1331) as i32;
    [v / 121, (v % 121) / 11, v % 11]
}

pub fn tiny_frame(out: &mut Vec<u8>, step: u32, time: f32, positions: &[f32]) {
    assert!(positions.len() % 3 == 0 && positions.len() <= 27);
    header(out, (positions.len() / 3) as u32, step, time, UNIT_BOX);
    for p in positions {
        be(out, p.to_bits());
    }
}


fn reader_over(data: Vec<u8>) -> XTCReader {
    XTCReader::new(molly::bytes::ByteReader::new(data))
}

fn ints_of(frame: &Frame) -> Vec<i32> {
    match &frame.positions {
        Positions::Ints(v) => v.clone(),
        Positions::Words(_) => panic!("expected decoded integer positions"),
    }
}

/// A frame of three atoms stores its nine position words raw; reading it
/// back yields exactly the written nanometer values.
#[test]
fn tiny_frame_roundtrip() {
    let written = [0.0f32, 0.0, 0.0, 1.0, 1.0, 1.0, 2.0, 2.0, 2.0];
    let mut data = Vec::new();
    tiny_frame(&mut data, 0, 0.0, &written);
    let mut reader = reader_over(data);
    let mut frame = Frame::default();
    reader.read_frame(&mut frame).unwrap();
    assert_eq!(frame.step, 0);
    assert_eq!(f32::from_bits(frame.time), 0.0);
    match &frame.positions {
        Positions::Words(w) => {
            let back: Vec<f32> = w.iter().map(|b| f32::from_bits(*b)).collect();
            assert_eq!(back, written.to_vec());
        },
        _ => panic!("expected raw words"),
    }
    assert_eq!(frame.natoms(), 3);
    assert_eq!(f32::from_bits(frame.boxvec[0]), 1.0);
    assert_eq!(f32::from_bits(frame.boxvec[4]), 1.0);
}

/// The compressed decoder reconstructs exactly the hand-computed integer
/// coordinates, and the positions in nanometers follow as `int / precision`.
#[test]
fn compressed_decode_matches_reference() {
    let mut data = Vec::new();
    varied_frame(&mut data, 2000, 7, 0.25);
    let mut reader = reader_over(data);
    let mut frame = Frame::default();
    reader.read_frame(&mut frame).unwrap();
    assert_eq!(frame.step, 7);
    assert_eq!(f32::from_bits(frame.precision), 1000.0);
    let ints = ints_of(&frame);
    assert_eq!(ints.len(), 3 * 2000);
    for i in 0..2000u32 {
        let expect = varied_atom(i);
        assert_eq!(&ints[3 * i as usize..3 * i as usize + 3], &expect);
    }
    // The nanometer value of the very first nonzero coordinate.
    let precision = f32::from_bits(frame.precision);
    assert_eq!(ints[5] as f32 / precision, 0.001);
}

/// Truncating with `Until(10)` yields thirty components that match the
/// first thirty of an unrestricted read.
#[test]
fn truncation_by_until() {
    let mut data = Vec::new();
    varied_frame(&mut data, 1000, 0, 0.0);
    let mut reader = reader_over(data.clone());
    let mut full = Frame::default();
    reader.read_frame(&mut full).unwrap();
    let mut reader = reader_over(data);
    let mut cut = Frame::default();
    reader.read_frame_with_selection(&mut cut, &AS::Until(10)).unwrap();
    let full = ints_of(&full);
    let cut = ints_of(&cut);
    assert_eq!(cut.len(), 30);
    assert_eq!(&full[..30], &cut[..]);
}

/// A run of three reorders its first pair: the first small atom comes out
/// before the header atom it was encoded after.
#[test]
fn water_swap_order() {
    let mut data = Vec::new();
    header(&mut data, 10, 0, 0.0, UNIT_BOX);
    be(&mut data, 1000.0f32.to_bits());
    for _ in 0..3 {
        be(&mut data, 0); // minint
    }
    for _ in 0..3 {
        be(&mut data, 10); // maxint
    }
    be(&mut data, 9); // smallidx
    let mut w = BitWriter::new();
    // Header atom (5, 6, 7) in mixed radix 11.
    w.push_le((5 * 121 + 6 * 11 + 7) as u64, 11);
    w.push(1, 1); // run flag
    w.push(4, 5); // run descriptor: run = 3, scale unchanged
    // One small triple (5, 6, 3) in mixed radix 8, 9 bits wide.
    w.push_le((5 * 64 + 6 * 8 + 3) as u64, 9);
    // Eight plain atoms (i, 0, 0) to fill the frame out.
    for i in 0..8u64 {
        w.push_le(i * 121, 11);
        w.push(0, 1);
    }
    let payload = w.finish();
    opaque(&mut data, &payload);

    let mut reader = reader_over(data);
    let mut frame = Frame::default();
    reader.read_frame(&mut frame).unwrap();
    let ints = ints_of(&frame);
    // The small atom is the header atom plus the delta minus half the cube
    // size (4): (5+5-4, 6+6-4, 7+3-4) = (6, 8, 6); it is emitted before
    // the header atom it followed on the wire.
    let mut expect = vec![6, 8, 6, 5, 6, 7];
    for i in 0..8i32 {
        expect.extend_from_slice(&[i, 0, 0]);
    }
    assert_eq!(ints, expect);
}

/// After the last frame a fresh read reports the clean end of the
/// trajectory, and a bulk read returns the true count.
#[test]
fn eof_on_trajectory_end() {
    let mut data = Vec::new();
    for f in 0..5 {
        varied_frame(&mut data, 20, f, f as f32);
    }
    let mut reader = reader_over(data);
    let mut frame = Frame::default();
    for _ in 0..5 {
        reader.read_frame(&mut frame).unwrap();
    }
    assert_eq!(reader.read_frame(&mut frame).unwrap_err(), XTCError::UnexpectedEof);
    reader.home();
    let frames = reader.read_all_frames().unwrap();
    assert_eq!(frames.len(), 5);
    for (i, f) in frames.iter().enumerate() {
        assert_eq!(f.step, i as u32);
    }
}

/// Both byte-fetch strategies decode identical positions from identical
/// input and selection.
#[test]
fn buffered_equals_unbuffered() {
    let mut data = Vec::new();
    varied_frame(&mut data, 777, 3, 1.5);
    for sel in [AS::All, AS::Until(100), AS::Mask(vec![true, false, true, true])] {
        let mut r1 = reader_over(data.clone());
        let mut f1 = Frame::default();
        r1.read_frame_with_selection(&mut f1, &sel).unwrap();
        let mut r2 = reader_over(data.clone());
        let mut f2 = Frame::default();
        r2.read_frame_with_selection_buffered(&mut f2, &sel).unwrap();
        assert_eq!(ints_of(&f1), ints_of(&f2));
        assert_eq!(f1.step, f2.step);
        assert_eq!(f1.time, f2.time);
    }
}

/// The offset walk counts every frame and starts at zero.
#[test]
fn offsets_count_frames() {
    let mut data = Vec::new();
    for f in 0..17 {
        varied_frame(&mut data, 50, f, 0.0);
    }
    let frame_size = (data.len() / 17) as u64;
    let mut reader = reader_over(data);
    let offsets = reader.determine_offsets(None).unwrap();
    assert_eq!(offsets.len(), 17);
    assert_eq!(offsets[0], 0);
    for (i, o) in offsets.iter().enumerate() {
        assert_eq!(*o, i as u64 * frame_size);
    }
    let sizes = reader.determine_frame_sizes(None).unwrap();
    assert_eq!(sizes.len(), 16);
    assert!(sizes.iter().all(|s| *s == frame_size));
}

/// `home` restores the read sequence byte for byte: the frames read after
/// it equal the frames read before it.
#[test]
fn home_restores_sequence() {
    let mut data = Vec::new();
    for f in 0..9 {
        varied_frame(&mut data, 30, f, 0.0);
    }
    let mut reader = reader_over(data);
    let mut first = Vec::new();
    let mut frame = Frame::default();
    while reader.read_frame(&mut frame).is_ok() {
        first.push((frame.step, ints_of(&frame)));
    }
    reader.home();
    let mut second = Vec::new();
    while reader.read_frame(&mut frame).is_ok() {
        second.push((frame.step, ints_of(&frame)));
    }
    assert_eq!(first.len(), 9);
    assert_eq!(first, second);
}

/// `read_frames` over everything returns the same frames in the same
/// order as iterated `read_frame`.
#[test]
fn read_frames_matches_iterated_reads() {
    let mut data = Vec::new();
    for f in 0..11 {
        varied_frame(&mut data, 40, f, 0.0);
    }
    let mut reader = reader_over(data);
    let mut bulk = Vec::new();
    let n = reader.read_frames::<false>(&mut bulk, &FS::All, &AS::All).unwrap();
    assert_eq!(n, 11);
    reader.home();
    let mut frame = Frame::default();
    let mut k = 0;
    while reader.read_frame(&mut frame).is_ok() {
        assert_eq!(frame.step, bulk[k].step);
        assert_eq!(frame.time, bulk[k].time);
        assert_eq!(ints_of(&frame), ints_of(&bulk[k]));
        k += 1;
    }
    assert_eq!(k, n);
}

/// Restricting a full read to the first `k` positions yields the same
/// prefix as reading with `Until(k)` directly.
#[test]
fn all_then_until_prefix() {
    let mut data = Vec::new();
    varied_frame(&mut data, 500, 0, 0.0);
    let mut full = Frame::default();
    reader_over(data.clone()).read_frame(&mut full).unwrap();
    let full = ints_of(&full);
    for k in [0usize, 1, 7, 250, 500] {
        let mut cut = Frame::default();
        reader_over(data.clone())
            .read_frame_with_selection(&mut cut, &AS::Until(k as u32))
            .unwrap();
        assert_eq!(ints_of(&cut), full[..3 * k].to_vec());
    }
}

/// Range stepping: a thousand-and-one frames strided by two give exactly
/// five hundred and one, with monotone step fields.
#[test]
fn range_stepping_steps_monotone() {
    let mut data = Vec::new();
    for f in 0..1001u32 {
        varied_frame(&mut data, 12, f, 0.0);
    }
    let mut reader = reader_over(data);
    let mut frames = Vec::new();
    let sel = FS::Range(molly::selection::Range::new(None, None, Some(2)).unwrap());
    let n = reader.read_frames::<true>(&mut frames, &sel, &AS::All).unwrap();
    assert_eq!(n, 501);
    for w in frames.windows(2) {
        assert!(w[0].step < w[1].step);
    }
}

/// Error cases: a wrong magic word, a mismatched repeated atom count, an
/// invalid table index, and a truncated stream each report their kind.
#[test]
fn error_kinds() {
    // Wrong magic.
    let mut data = Vec::new();
    tiny_frame(&mut data, 0, 0.0, &[0.0, 0.0, 0.0]);
    data[3] = 0;
    let mut frame = Frame::default();
    assert_eq!(
        reader_over(data).read_frame(&mut frame).unwrap_err(),
        XTCError::InvalidMagic
    );

    // Repeated atom count differs.
    let mut data = Vec::new();
    tiny_frame(&mut data, 0, 0.0, &[0.0, 0.0, 0.0]);
    data[55] = 9;
    assert_eq!(
        reader_over(data).read_frame(&mut frame).unwrap_err(),
        XTCError::InvalidNumericField
    );

    // A table index outside the nonzero range of the cube-size table.
    let mut data = Vec::new();
    varied_frame(&mut data, 100, 0, 0.0);
    data[87] = 3; // smallidx word: 9 -> 3, whose cube size is zero
    assert_eq!(
        reader_over(data).read_frame(&mut frame).unwrap_err(),
        XTCError::CorruptCompressedStream
    );

    // A payload cut short.
    let mut data = Vec::new();
    varied_frame(&mut data, 100, 0, 0.0);
    data.truncate(data.len() - 8);
    assert_eq!(
        reader_over(data).read_frame(&mut frame).unwrap_err(),
        XTCError::UnexpectedEof
    );
}

/// The arithmetic helpers against hand-computed values.
#[test]
fn decoder_arithmetic() {
    assert_eq!(molly::reader::sizeofint(0), 0);
    assert_eq!(molly::reader::sizeofint(1), 1);
    assert_eq!(molly::reader::sizeofint(7), 3);
    assert_eq!(molly::reader::sizeofint(8), 4);
    assert_eq!(molly::reader::sizeofint(0xffffff), 24);
    assert_eq!(molly::reader::sizeofint(u32::MAX), 32);
    assert_eq!(molly::reader::sizeofints([11, 11, 11]), 11);
    assert_eq!(molly::reader::sizeofints([1, 1, 1]), 1);
    assert_eq!(molly::reader::sizeofints([0xffffff, 0xffffff, 0xffffff]), 72);
    assert_eq!(molly::padding(0), 0);
    assert_eq!(molly::padding(1), 3);
    assert_eq!(molly::padding(4), 0);
    assert_eq!(molly::padding(6), 2);

    let info = molly::reader::calc_sizeint([0, 0, 0], [10, 10, 10]);
    assert_eq!(info.sizeint, [11, 11, 11]);
    assert_eq!(info.bitsize, 11);
    let large = molly::reader::calc_sizeint([0, 0, 0], [0x1000000, 0, 0]);
    assert_eq!(large.bitsize, 0);
    assert_eq!(large.bitsizeint[0], 25);

    assert_eq!(molly::reader::u32_as_i32(5), 5);
    assert_eq!(molly::reader::u32_as_i32(u32::MAX), -1);
    assert_eq!(molly::reader::u32_as_i32(0x80000000), i32::MIN);
}

/// The bit cursor returns exactly the fields packed most significant bit
/// first, and the packed-integer reader undoes the mixed-radix packing.
#[test]
fn bit_cursor_fields() {
    let buf: Vec<u8> = vec![0b1011_0011, 0b0100_0001, 0xff, 0x00];
    let mut state = molly::bits::DecodeState::new();
    assert_eq!(molly::bits::decodebits(&buf, &mut state, 3), 0b101);
    assert_eq!(molly::bits::decodebits(&buf, &mut state, 5), 0b10011);
    assert_eq!(molly::bits::decodebyte(&buf, &mut state), 0b0100_0001);
    assert_eq!(molly::bits::decodebits(&buf, &mut state, 12), 0xff0);

    let mut w = BitWriter::new();
    w.push_le((5 * 121 + 6 * 11 + 7) as u64, 11);
    let packed = w.finish();
    let mut state = molly::bits::DecodeState::new();
    let nums = molly::reader::decodeints(&packed, &mut state, 11, [11, 11, 11]);
    assert_eq!(nums, [5, 6, 7]);

    let mut w = BitWriter::new();
    w.push_le(0x1234_5678_9abc_def0_u64, 64);
    w.push_le(0x0fff_ffff_ffff_ffff_u64, 60); // a 60-bit field after it
    let packed = w.finish();
    let mut state = molly::bits::DecodeState::new();
    let nums = molly::reader::unpack_from_int_into_u64(&packed, &mut state, 64, [1, 1, 2]);
    // radix (1, 2): x = v / 2, z = v % 2
    assert_eq!(nums[0], (0x1234_5678_9abc_def0_u64 / 2) as u32 as i32);
    assert_eq!(nums[2], 0);
}
