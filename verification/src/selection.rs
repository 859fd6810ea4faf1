//! Selectors for atoms within a frame and for frames within a trajectory.
//!
//! Both selectors answer the ternary question `is_included(idx)`:
//! `Some(true)` means include, `Some(false)` means skip, and `None` means
//! that no index at or beyond `idx` can ever be included, so the caller may
//! stop early.  `None` is terminal: once it is returned for some index it is
//! returned for every later one.
use vstd::prelude::*;

use crate::XTCError;

verus! {

/// A selection of atoms within one frame.
#[derive(Debug, Clone)]
pub enum AtomSelection {
    /// Include every atom.
    All,
    /// Include the atom at index `i` iff the mask holds `true` at `i`;
    /// indices past the end of the mask are out of scope.
    Mask(Vec<bool>),
    /// Include exactly the atoms at indices `0 .. k`.
    Until(u32),
}

impl AtomSelection {
    /// The verdict for atom index `idx`.
    pub open spec fn spec_is_included(&self, idx: nat) -> Option<bool> {
        match self {
            AtomSelection::All => Some(true),
            AtomSelection::Mask(mask) => if idx < mask@.len() {
                Some(mask@[idx as int])
            } else {
                None
            },
            AtomSelection::Until(k) => if idx < *k {
                Some(true)
            } else {
                None
            },
        }
    }

    /// The number of atoms this selection lets through, out of the first
    /// `natoms` offered.
    pub open spec fn spec_selected_upto(&self, natoms: nat) -> nat
        decreases natoms,
    {
        if natoms == 0 {
            0
        } else {
            self.spec_selected_upto((natoms - 1) as nat) + if self.spec_is_included(
                (natoms - 1) as nat,
            ) == Some(true) {
                1nat
            } else {
                0nat
            }
        }
    }

    /// Determine whether the atom at index `idx` is included in this
    /// [`AtomSelection`].
    ///
    /// Returns [`None`] once `idx` is beyond the scope of the selection.
    pub fn is_included(&self, idx: usize) -> (r: Option<bool>)
        ensures
            r == self.spec_is_included(idx as nat),
    {
        match self {
            AtomSelection::All => Some(true),
            AtomSelection::Mask(mask) => if idx < mask.len() {
                Some(mask[idx])
            } else {
                None
            },
            AtomSelection::Until(k) => if (idx as u64) < (*k as u64) {
                Some(true)
            } else {
                None
            },
        }
    }

    /// The largest value in `indices`, or `None` if it is empty.
    pub open spec fn spec_max(indices: Seq<u32>) -> Option<u32>
        decreases indices.len(),
    {
        if indices.len() == 0 {
            None
        } else {
            match Self::spec_max(indices.drop_last()) {
                None => Some(indices.last()),
                Some(m) => if indices.last() > m {
                    Some(indices.last())
                } else {
                    Some(m)
                },
            }
        }
    }

    /// Create a boolean mask from a list of atom indices.
    ///
    /// The mask runs up to the largest listed index, holds `true` exactly at
    /// the listed indices, and is out of scope beyond that: `is_included(i)`
    /// is `Some(i ∈ indices)` for `i <= max(indices)` and `None` for every
    /// larger `i`.  An empty list gives an empty mask, out of scope
    /// everywhere.
    pub fn from_index_list(indices: &[u32]) -> (r: Self)
        requires
            forall|j: int|
                0 <= j < indices@.len() ==> indices@[j] as nat + 1 <= usize::MAX as nat,
        ensures
            r matches AtomSelection::Mask(mask) && {
                &&& mask@.len() == (match Self::spec_max(indices@) {
                    None => 0nat,
                    Some(m) => m as nat + 1,
                })
                &&& forall|i: nat|
                    i < mask@.len() ==> r.spec_is_included(i) == Some(
                        indices@.contains(i as u32),
                    )
                &&& forall|i: nat| i >= mask@.len() ==> r.spec_is_included(i) is None
            },
    {
        let n = indices.len();
        if n == 0 {
            return AtomSelection::Mask(Vec::new());
        }
        let mut max: u32 = 0;
        let mut j: usize = 0;
        let mut seen_any = false;
        while j < n
            invariant
                0 <= j <= n,
                n == indices@.len(),
                j > 0 ==> Self::spec_max(indices@.take(j as int)) == Some(max),
                j == 0 ==> max == 0,
            decreases n - j,
        {
            let v = indices[j];
            proof {
                assert(indices@.take(j as int + 1).drop_last() =~= indices@.take(j as int));
                assert(indices@.take(j as int + 1).last() == indices@[j as int]);
            }
            if j == 0 || v > max {
                max = v;
            }
            j += 1;
        }
        proof {
            assert(indices@.take(n as int) =~= indices@);
            Self::lemma_max_is_element(indices@);
            let w = choose|w: int| 0 <= w < indices@.len() && #[trigger] indices@[w] == max;
            assert(indices@[w] as nat + 1 <= usize::MAX as nat);
        }
        let len = max as usize + 1;
        let mut mask: Vec<bool> = Vec::new();
        let mut i: usize = 0;
        while i < len
            invariant
                0 <= i <= len,
                mask@.len() == i,
                forall|t: int| 0 <= t < i ==> mask@[t] == false,
            decreases len - i,
        {
            mask.push(false);
            i += 1;
        }
        let mut j: usize = 0;
        while j < n
            invariant
                0 <= j <= n,
                n == indices@.len(),
                mask@.len() == len,
                len == max as usize + 1,
                Self::spec_max(indices@) == Some(max),
                forall|t: int|
                    0 <= t < len ==> mask@[t] == indices@.take(j as int).contains(t as u32),
            decreases n - j,
        {
            let v = indices[j];
            proof {
                Self::lemma_max_bounds(indices@);
                assert(indices@.contains(indices@[j as int]));
            }
            mask.set(v as usize, true);
            proof {
                assert forall|t: int| 0 <= t < len implies mask@[t] == indices@.take(
                    j as int + 1,
                ).contains(t as u32) by {
                    assert(indices@.take(j as int + 1) =~= indices@.take(j as int).push(
                        indices@[j as int],
                    ));
                    if mask@[t] {
                        if t == v as int {
                            assert(indices@.take(j as int + 1)[j as int] == v);
                        } else {
                            let w = choose|w: int|
                                0 <= w < j && indices@.take(j as int)[w] == t as u32;
                            assert(indices@.take(j as int + 1)[w] == t as u32);
                        }
                    } else {
                        if indices@.take(j as int + 1).contains(t as u32) {
                            let w = choose|w: int|
                                0 <= w < j + 1 && #[trigger] indices@.take(j as int + 1)[w]
                                    == t as u32;
                            assert(w < j);
                            assert(indices@.take(j as int)[w] == t as u32);
                        }
                    }
                }
            }
            j += 1;
        }
        proof {
            assert(indices@.take(n as int) =~= indices@);
        }
        AtomSelection::Mask(mask)
    }

    /// A nonempty sequence contains its maximum.
    pub proof fn lemma_max_is_element(indices: Seq<u32>)
        requires
            indices.len() > 0,
        ensures
            Self::spec_max(indices) matches Some(m) && indices.contains(m),
        decreases indices.len(),
    {
        if indices.len() > 1 {
            Self::lemma_max_is_element(indices.drop_last());
            let m0 = Self::spec_max(indices.drop_last())->Some_0;
            let w = choose|w: int|
                0 <= w < indices.drop_last().len() && #[trigger] indices.drop_last()[w] == m0;
            assert(indices[w] == m0);
            assert(indices[indices.len() - 1] == indices.last());
        } else {
            assert(indices[0] == indices.last());
        }
    }

    /// Every element of a sequence is at most its maximum.
    pub proof fn lemma_max_bounds(indices: Seq<u32>)
        ensures
            forall|j: int|
                0 <= j < indices.len() ==> (Self::spec_max(indices) matches Some(m)
                    && #[trigger] indices[j] <= m),
        decreases indices.len(),
    {
        if indices.len() > 0 {
            Self::lemma_max_bounds(indices.drop_last());
            assert forall|j: int|
                0 <= j < indices.len() implies (Self::spec_max(indices) matches Some(m)
                && #[trigger] indices[j] <= m) by {
                if j < indices.len() - 1 {
                    assert(indices.drop_last()[j] == indices[j]);
                }
            }
        }
    }
}

impl Default for AtomSelection {
    /// By default every atom is included.
    fn default() -> (r: Self)
        ensures
            r is All,
    {
        AtomSelection::All
    }
}

/// A selection of frames within a trajectory.
#[derive(Debug, Clone)]
pub enum FrameSelection {
    /// Include every frame in the trajectory.
    All,
    /// Include the frames that lie within a [`Range`].
    Range(Range),
    /// Include the frames whose indices are listed.
    ///
    /// The list must be strictly increasing; see [`FrameSelection::wf`].
    FrameList(Vec<usize>),
}

impl FrameSelection {
    /// A frame list must be strictly increasing, so that its last entry is
    /// its maximum and the terminal verdict is reached exactly past it.
    pub open spec fn wf(&self) -> bool {
        match self {
            FrameSelection::FrameList(l) => forall|a: int, b: int|
                0 <= a < b < l@.len() ==> l@[a] < l@[b],
            FrameSelection::Range(r) => r.wf(),
            FrameSelection::All => true,
        }
    }

    /// The verdict for frame index `idx`.
    pub open spec fn spec_is_included(&self, idx: nat) -> Option<bool> {
        match self {
            FrameSelection::All => Some(true),
            FrameSelection::Range(r) => r.spec_is_included(idx),
            FrameSelection::FrameList(l) => if l@.len() == 0 || l@.last() < idx {
                None
            } else {
                Some(l@.contains(idx as usize))
            },
        }
    }

    /// Determine whether the frame at index `idx` is included in this
    /// [`FrameSelection`].
    ///
    /// Returns [`None`] once `idx` is beyond the scope of the selection.
    pub fn is_included(&self, idx: usize) -> (r: Option<bool>)
        requires
            self.wf(),
        ensures
            r == self.spec_is_included(idx as nat),
    {
        match self {
            FrameSelection::All => Some(true),
            FrameSelection::Range(range) => range.is_included(idx as u64),
            FrameSelection::FrameList(indices) => {
                let n = indices.len();
                if n == 0 || indices[n - 1] < idx {
                    None
                } else {
                    let mut j: usize = 0;
                    let mut found = false;
                    while j < n
                        invariant
                            0 <= j <= n,
                            n == indices@.len(),
                            found == indices@.take(j as int).contains(idx),
                        decreases n - j,
                    {
                        if indices[j] == idx {
                            found = true;
                        }
                        proof {
                            assert(indices@.take(j as int + 1) =~= indices@.take(j as int).push(
                                indices@[j as int],
                            ));
                            if found {
                                if indices@[j as int] == idx {
                                    assert(indices@.take(j as int + 1)[j as int] == idx);
                                } else {
                                    let w = choose|w: int|
                                        0 <= w < j && #[trigger] indices@.take(j as int)[w] == idx;
                                    assert(indices@.take(j as int + 1)[w] == idx);
                                }
                            } else {
                                if indices@.take(j as int + 1).contains(idx) {
                                    let w = choose|w: int|
                                        0 <= w < j + 1 && #[trigger] indices@.take(
                                            j as int + 1,
                                        )[w] == idx;
                                    assert(indices@.take(j as int)[w] == idx);
                                }
                            }
                        }
                        j += 1;
                    }
                    proof {
                        assert(indices@.take(n as int) =~= indices@);
                    }
                    Some(found)
                }
            },
        }
    }

    /// The number of frames the offset walk needs before this selection can
    /// never include another frame: `None` asks for all of them.
    pub open spec fn spec_until(&self) -> Option<usize> {
        match self {
            FrameSelection::All => None,
            FrameSelection::Range(r) => match r.end {
                None => None,
                Some(e) => if e <= usize::MAX as u64 {
                    Some(e as usize)
                } else {
                    None
                },
            },
            FrameSelection::FrameList(l) => if l@.len() == 0 {
                Some(0)
            } else if l@.last() as nat + 1 <= usize::MAX as nat {
                Some((l@.last() + 1) as usize)
            } else {
                None
            },
        }
    }

    /// A hint for how many frame offsets must be enumerated to serve this
    /// selection: past this many frames every verdict is terminal.
    pub fn until(&self) -> (r: Option<usize>)
        ensures
            r == self.spec_until(),
    {
        match self {
            FrameSelection::All => None,
            FrameSelection::Range(range) => match range.end {
                None => None,
                Some(e) => if e <= usize::MAX as u64 {
                    Some(e as usize)
                } else {
                    None
                },
            },
            FrameSelection::FrameList(indices) => {
                let n = indices.len();
                if n == 0 {
                    Some(0)
                } else if indices[n - 1] < usize::MAX {
                    Some(indices[n - 1] + 1)
                } else {
                    None
                }
            },
        }
    }
}

impl Default for FrameSelection {
    /// By default every frame is included.
    fn default() -> (r: Self)
        ensures
            r is All,
    {
        FrameSelection::All
    }
}

/// A contiguous, optionally stepped, range of frame indices.
///
/// `start` is inclusive and zero by default.  `end` is exclusive; when it is
/// [`None`] the range runs to the end of the trajectory.  `step` is the
/// stride: of each `step` consecutive frames from `start` on, the first is
/// included.
#[derive(Debug, Clone, Copy)]
pub struct Range {
    /// First frame index that can be included.
    pub start: u64,
    /// Exclusive upper bound, or [`None`] for unbounded.
    pub end: Option<u64>,
    /// The stride; always at least 1.
    pub step: u64,
}

impl Range {
    /// A step of zero is rejected at construction, so a well-formed range
    /// always has a positive stride.
    pub open spec fn wf(&self) -> bool {
        self.step >= 1
    }

    /// The verdict for frame index `idx`: out of scope from `end` on,
    /// included iff `idx` lies at a whole number of strides past `start`.
    pub open spec fn spec_is_included(&self, idx: nat) -> Option<bool> {
        match self.end {
            Some(e) if idx >= e => None,
            _ => Some(
                self.start <= idx && (idx - self.start as int) % (self.step as int) == 0,
            ),
        }
    }

    /// Build a range from optional components; missing components default to
    /// `start = 0`, `end` unbounded, `step = 1`.
    ///
    /// A step of zero yields [`XTCError::InvalidSelection`]; every other
    /// input yields the range with the given components.
    pub fn new(start: Option<u64>, end: Option<u64>, step: Option<u64>) -> (r: Result<
        Self,
        XTCError,
    >)
        ensures
            match r {
                Ok(rg) => {
                    &&& step != Some(0u64)
                    &&& rg.start == (match start {
                        Some(s) => s,
                        None => 0u64,
                    })
                    &&& rg.end == end
                    &&& rg.step == (match step {
                        Some(s) => s,
                        None => 1u64,
                    })
                    &&& rg.wf()
                },
                Err(e) => step == Some(0u64) && e == XTCError::InvalidSelection,
            },
    {
        let step = match step {
            Some(0) => {
                return Err(XTCError::InvalidSelection);
            },
            Some(s) => s,
            None => 1,
        };
        let start = match start {
            Some(s) => s,
            None => 0,
        };
        Ok(Range { start, end, step })
    }

    /// Determine whether the frame at index `idx` is included in this
    /// [`Range`].
    ///
    /// Returns [`None`] once `idx` has reached the exclusive `end`.
    pub fn is_included(&self, idx: u64) -> (r: Option<bool>)
        requires
            self.wf(),
        ensures
            r == self.spec_is_included(idx as nat),
    {
        if let Some(end) = self.end {
            if end <= idx {
                return None;
            }
        }
        let in_range = self.start <= idx;
        let in_step = in_range && (idx - self.start) % self.step == 0;
        Some(in_range && in_step)
    }
}

impl Default for Range {
    /// The default range includes every frame: it starts at zero, never
    /// ends, and strides by one.
    fn default() -> (r: Self)
        ensures
            r.start == 0u64,
            r.end is None,
            r.step == 1u64,
            r.wf(),
    {
        Range { start: 0, end: None, step: 1 }
    }
}

} // verus!
