//! Frame- and atom-selection counting over a synthetic trajectory,
//! read with the incremental byte-fetch strategy.
use molly::selection::{AtomSelection as AS, FrameSelection as FS, Range};
use molly::{Frame, XTCReader};


pub const UNIT_BOX: [f32; 9] = [1.0, 0.0, 0.0, 0.0, 1.0, 0.0, 0.0, 0.0, 1.0];

pub fn be(out: &mut Vec<u8>, v: u32) {
    out.extend_from_slice(&v.to_be_bytes());
}

/// Writes bit fields most significant bit first, as the wire packs them.
pub struct BitWriter {
    bytes: Vec<u8>,
    acc: u32,
    used: u32,
}

impl BitWriter {
    pub fn new() -> Self {
        BitWriter { bytes: Vec::new(), acc: 0, used: 0 }
    }

    pub fn push(&mut self, val: u32, n: u32) {
        for i in (0..n).rev() {
            self.acc = (self.acc << 1) | ((val >> i) & 1);
            self.used += 1;
            if self.used == 8 {
                self.bytes.push(self.acc as u8);
                self.acc = 0;
                self.used = 0;
            }
        }
    }

    /// A packed integer field: whole bytes least significant first,
    /// the partial top chunk last.
    pub fn push_le(&mut self, mut val: u64, mut n: u32) {
        while n >= 8 {
            self.push((val & 0xff) as u32, 8);
            val >>= 8;
            n -= 8;
        }
        if n > 0 {
            self.push((val & ((1 << n) - 1)) as u32, n);
        }
    }

    pub fn finish(mut self) -> Vec<u8> {
        if self.used > 0 {
            self.bytes.push((self.acc << (8 - self.used)) as u8);
        }
        self.bytes
    }
}

pub fn header(out: &mut Vec<u8>, natoms: u32, step: u32, time: f32, boxv: [f32; 9]) {
    be(out, 1995);
    be(out, natoms);
    be(out, step);
    be(out, time.to_bits());
    for w in boxv {
        be(out, w.to_bits());
    }
    be(out, natoms);
}

pub fn opaque(out: &mut Vec<u8>, payload: &[u8]) {
    be(out, payload.len() as u32);
    out.extend_from_slice(payload);
    let pad = (4 - payload.len() % 4) % 4;
    for _ in 0..pad {
        out.push(0);
    }
}

/// A compressed frame whose atom `i` decodes to the integer triple of
/// `i % 1331` in mixed radix 11: bounds `[0, 10]` per axis, packed
/// field width 11 bits, no runs.
pub fn varied_frame(out: &mut Vec<u8>, natoms: u32, step: u32, time: f32) {
    header(out, natoms, step, time, UNIT_BOX);
    be(out, 1000.0f32.to_bits());
    for _ in 0..3 {
        be(out, 0);
    }
    for _ in 0..3 {
        be(out, 10);
    }
    be(out, 9);
    let mut w = BitWriter::new();
    for i in 0..natoms {
        w.push_le((i % 1331) as u64, 11);
        w.push(0, 1);
    }
    opaque(out, &w.finish());
}

/// The integer triple atom `i` of a varied frame decodes to.
pub fn varied_atom(i: u32) -> [i32; 3] {
    let v = (i % 1331) as i32;
    [v / 121, (v % 121) / 11, v % 11]
}

pub fn trajectory(nframes: u32, natoms: u32) -> Vec<u8> {
    let mut out = Vec::new();
    for f in 0..nframes {
        varied_frame(&mut out, natoms, f, f as f32);
    }
    out
}


fn reader_over(data: Vec<u8>) -> XTCReader {
    XTCReader::new(molly::bytes::ByteReader::new(data))
}

fn count_frames(
    reader: &mut XTCReader,
    frames: &mut Vec<Frame>,
    frame_selection: FS,
    atom_selection: AS,
) -> Result<usize, molly::XTCError> {
    let n = reader.read_frames::<true>(frames, &frame_selection, &atom_selection)?;
    assert_eq!(n, frames.len());
    frames.clear();
    reader.home();
    Ok(n)
}

fn count_atoms(reader: &mut XTCReader, atom_selection: AS) -> Result<usize, molly::XTCError> {
    let mut frame = Frame::default();
    reader.read_frame_with_selection(&mut frame, &atom_selection)?;
    reader.home();
    Ok(frame.natoms())
}

const NFRAMES: usize = 1001;
const NATOMS: usize = 24316;

fn assert_frames(frame_selection: FS, atom_selection: AS, expected: usize) {
    let mut reader = reader_over(trajectory(NFRAMES as u32, 12));
    let mut frames = Vec::new();
    assert_eq!(
        count_frames(&mut reader, &mut frames, frame_selection, atom_selection).unwrap(),
        expected
    );
}

fn assert_atoms(atom_selection: AS, expected: usize) {
    let mut reader = reader_over(trajectory(1, NATOMS as u32));
    assert_eq!(count_atoms(&mut reader, atom_selection).unwrap(), expected);
}

#[test]
fn selections_all_frames() {
    assert_frames(FS::All, AS::All, NFRAMES);
}

#[test]
fn selections_all_frames_with_atom_selection() {
    assert_frames(FS::All, AS::Until(100), NFRAMES);
}

#[test]
fn selections_range_all() {
    assert_frames(FS::Range(Range::new(None, None, None).unwrap()), AS::All, NFRAMES);
}

#[test]
fn selections_range_half() {
    assert_frames(FS::Range(Range::new(None, None, Some(2)).unwrap()), AS::All, 501);
}

#[test]
fn selections_range_huge_step() {
    assert_frames(FS::Range(Range::new(None, None, Some(2000)).unwrap()), AS::All, 1);
}

#[test]
fn selections_range_last_frames() {
    assert_frames(
        FS::Range(Range::new(Some(NFRAMES as u64 - 20), None, None).unwrap()),
        AS::All,
        20,
    );
}

#[test]
fn selections_range_last_frames_step() {
    assert_frames(FS::Range(Range::new(Some(981), None, Some(3)).unwrap()), AS::All, 7);
}

#[test]
fn selections_range_clamped() {
    assert_frames(FS::Range(Range::new(Some(500), Some(750), None).unwrap()), AS::All, 250);
}

#[test]
fn selections_range_clamped_step() {
    assert_frames(FS::Range(Range::new(Some(500), Some(750), Some(5)).unwrap()), AS::All, 50);
}

#[test]
fn selections_indices() {
    assert_frames(FS::FrameList(vec![0, 1, 500]), AS::All, 3);
}

#[test]
fn selections_indices_first_frame() {
    assert_frames(FS::FrameList(vec![0]), AS::All, 1);
}

#[test]
fn selections_indices_single_frame() {
    assert_frames(FS::FrameList(vec![100]), AS::All, 1);
}

#[test]
fn selections_indices_last_frame() {
    assert_frames(FS::FrameList(vec![NFRAMES - 1]), AS::All, 1);
}

#[test]
fn selections_indices_after_last_frame() {
    assert_frames(FS::FrameList(vec![NFRAMES]), AS::All, 0);
}

#[test]
fn selections_indices_within_range_and_outside() {
    assert_frames(FS::FrameList(vec![0, 1, 500, NFRAMES * 2]), AS::All, 3);
}

#[test]
fn selections_indices_empty_list() {
    assert_frames(FS::FrameList(vec![]), AS::All, 0);
}

#[test]
fn selections_all_atoms() {
    assert_atoms(AS::All, NATOMS);
}

#[test]
fn selections_until_zero() {
    assert_atoms(AS::Until(0), 0);
}

#[test]
fn selections_until_first() {
    assert_atoms(AS::Until(1), 1);
}

#[test]
fn selections_until_half() {
    assert_atoms(AS::Until(NATOMS as u32 / 2), NATOMS / 2);
}

#[test]
fn selections_until_up_to_end() {
    assert_atoms(AS::Until(NATOMS as u32), NATOMS);
}

#[test]
fn selections_until_just_beyond() {
    assert_atoms(AS::Until(NATOMS as u32 + 1), NATOMS);
}

#[test]
fn selections_until_far_beyond() {
    assert_atoms(AS::Until(NATOMS as u32 + 1000), NATOMS);
}

#[test]
fn selections_indices_atoms() {
    assert_atoms(AS::from_index_list(&[0, 1, 500]), 3);
}

#[test]
fn selections_indices_empty_list_atoms() {
    assert_atoms(AS::from_index_list(&[]), 0);
}

#[test]
fn selections_indices_first_atom() {
    assert_atoms(AS::from_index_list(&[0]), 1);
}

#[test]
fn selections_indices_single_atom() {
    assert_atoms(AS::from_index_list(&[100]), 1);
}

#[test]
fn selections_indices_last_atom() {
    assert_atoms(AS::from_index_list(&[NATOMS as u32 - 1]), 1);
}

#[test]
fn selections_indices_after_last_atom() {
    assert_atoms(AS::from_index_list(&[NATOMS as u32]), 0);
}

#[test]
fn selections_indices_far_beyond_last_atom() {
    assert_atoms(AS::from_index_list(&[NATOMS as u32 + 1000]), 0);
}

#[test]
fn selections_indices_within_range_and_outside_atoms() {
    assert_atoms(AS::from_index_list(&[0, 1, 500, NATOMS as u32 + 1000]), 3);
}

#[test]
fn selections_mask() {
    assert_atoms(AS::Mask(vec![true, false, false, true, false, true]), 3);
}

#[test]
fn selections_mask_empty_list() {
    assert_atoms(AS::Mask(vec![]), 0);
}

#[test]
fn selections_mask_first_atom() {
    assert_atoms(AS::Mask(vec![true]), 1);
}

#[test]
fn selections_mask_single_atom() {
    assert_atoms(AS::Mask([vec![false; 100], vec![true]].concat()), 1);
}

#[test]
fn selections_mask_last_atom() {
    let n = NATOMS;
    let mut mask = vec![false; n];
    mask[n - 1] = true;
    assert_atoms(AS::Mask(mask), 1);
}

#[test]
fn selections_mask_after_last_atom() {
    let n = NATOMS + 1;
    let mut mask = vec![false; n];
    mask[n - 1] = true;
    assert_atoms(AS::Mask(mask), 0);
}

#[test]
fn selections_mask_far_beyond_last_atom() {
    let n = NATOMS + 1000;
    let mut mask = vec![false; n];
    mask[n - 1] = true;
    assert_atoms(AS::Mask(mask), 0);
}

#[test]
fn selections_mask_within_range_and_outside() {
    let n = NATOMS + 1000;
    let mut mask = vec![false; n];
    mask[0] = true;
    mask[1] = true;
    mask[500] = true;
    mask[n - 500] = true;
    mask[n - 1] = true;
    assert_atoms(AS::Mask(mask), 3);
}
