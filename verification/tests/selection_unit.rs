//! Unit tests for the frame and atom selections.
use molly::selection::{AtomSelection, FrameSelection, Range};

#[test]
fn selection_zero_selection() {
    let list_empty = FrameSelection::FrameList(vec![]);
    let list_zero = FrameSelection::FrameList(vec![0]);
    let range_empty = FrameSelection::Range(Range::new(None, Some(0), None).unwrap());

    for idx in 0..1000 {
        assert!(list_empty.is_included(idx).is_none());
        if idx > 0 {
            assert!(list_zero.is_included(idx).is_none());
        }
        assert!(range_empty.is_included(idx).is_none());
    }
}

#[test]
fn selection_first_n() {
    let n: usize = 100;
    let step: u64 = 17;

    let list = FrameSelection::FrameList((0..=n).collect());
    let until = FrameSelection::Range(Range::new(None, Some(n as u64), None).unwrap());
    let from_n = FrameSelection::Range(Range::new(Some(n as u64), None, None).unwrap());
    let until_stepped =
        FrameSelection::Range(Range::new(None, Some(n as u64), Some(step)).unwrap());
    let from_n_stepped =
        FrameSelection::Range(Range::new(Some(n as u64), None, Some(step)).unwrap());
    let all = FrameSelection::All;

    for idx in 0..2 * n {
        if idx < n {
            assert_eq!(list.is_included(idx), Some(true));
            assert_eq!(until.is_included(idx), Some(true));
            assert_eq!(until_stepped.is_included(idx), Some(idx as u64 % step == 0));
        } else {
            assert!(until.is_included(idx).is_none());
            assert!(until_stepped.is_included(idx).is_none());
        }
        let from_n_included = idx >= n;
        assert_eq!(from_n.is_included(idx), Some(from_n_included));
        // A stride counts from `start`: included iff the distance from
        // `start` is a whole number of strides.
        assert_eq!(
            from_n_stepped.is_included(idx),
            Some(from_n_included && (idx as u64 - n as u64) % step == 0),
        );
        assert_eq!(all.is_included(idx), Some(true));
    }
}

#[test]
fn zero_selection() {
    let m = 100;

    let mask_empty = AtomSelection::Mask(vec![]);
    let mask_false = AtomSelection::Mask(vec![false; m]);
    let list_empty = AtomSelection::from_index_list(&[]);
    let list_zero = AtomSelection::from_index_list(&[0]);
    let until_zero = AtomSelection::Until(0);

    for idx in 0..1000 {
        assert!(mask_empty.is_included(idx).is_none());
        if idx < m {
            assert_eq!(mask_false.is_included(idx), Some(false));
        } else {
            assert!(mask_false.is_included(idx).is_none());
        }
        assert!(list_empty.is_included(idx).is_none());
        // `Until(k)` includes exactly the indices below `k`, so `Until(0)`
        // includes nothing.
        assert!(until_zero.is_included(idx).is_none());
        if idx > 0 {
            assert!(list_zero.is_included(idx).is_none());
        } else {
            assert_eq!(list_zero.is_included(idx), Some(true));
        }
    }
}

#[test]
fn first_n() {
    let n: usize = 100;
    let mask = AtomSelection::Mask(vec![true; n]);
    let mask_trailing_false = AtomSelection::Mask([vec![true; n], vec![false; n]].concat());
    let list = AtomSelection::from_index_list(&(0..n as u32).collect::<Vec<_>>());
    let until = AtomSelection::Until(n as u32);
    let all = AtomSelection::All;

    for idx in 0..2 * n {
        if idx < n {
            assert_eq!(mask.is_included(idx), Some(true));
            assert_eq!(list.is_included(idx), Some(true));
            assert_eq!(until.is_included(idx), Some(true));
        } else {
            assert!(mask.is_included(idx).is_none());
            assert!(list.is_included(idx).is_none());
            assert!(until.is_included(idx).is_none());
        }
        assert_eq!(mask_trailing_false.is_included(idx), Some(idx < n));
        assert_eq!(all.is_included(idx), Some(true));
    }
}

#[test]
fn range_rejects_zero_step() {
    assert_eq!(
        Range::new(None, None, Some(0)).unwrap_err(),
        molly::XTCError::InvalidSelection
    );
    assert!(Range::new(Some(3), Some(14), Some(1)).is_ok());
}

#[test]
fn from_index_list_shape() {
    // The mask runs up to the largest listed index and is true exactly at
    // the listed ones.
    let sel = AtomSelection::from_index_list(&[1, 4]);
    match sel {
        AtomSelection::Mask(ref m) => assert_eq!(m, &vec![false, true, false, false, true]),
        _ => panic!("expected a mask"),
    }
    assert_eq!(sel.is_included(0), Some(false));
    assert_eq!(sel.is_included(1), Some(true));
    assert_eq!(sel.is_included(4), Some(true));
    assert_eq!(sel.is_included(5), None);
}
