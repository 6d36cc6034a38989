use fixedbitset::FixedBitSet;
use furlock::puzzle::{LInd, PuzzleCellSelection, UpdateCellIndexOperation};

fn full_bitset(n: usize) -> FixedBitSet {
    let mut b = FixedBitSet::with_capacity(n);
    b.insert_range(..);
    b
}

fn fresh_cell(n: usize) -> PuzzleCellSelection {
    PuzzleCellSelection::new(full_bitset(n))
}

#[test]
fn fresh_cell_has_everything_enabled() {
    let sel = fresh_cell(5);
    assert_eq!(sel.width(), 5);
    assert_eq!(sel.count_ones(), 5);
    for i in 0..5 {
        assert!(sel.is_enabled(LInd(i)));
        assert!(!sel.is_solo(LInd(i)));
    }
    assert!(!sel.is_enabled(LInd(5)));
    assert!(sel.is_any_solo().is_none());
    assert!(!sel.is_void());
}

#[test]
fn iter_ones_is_ascending_and_complete() {
    let mut sel = fresh_cell(5);
    assert_eq!(sel.apply(LInd(1), UpdateCellIndexOperation::Clear), 1);
    assert_eq!(sel.apply(LInd(3), UpdateCellIndexOperation::Clear), 1);
    let ones: Vec<usize> = sel.iter_ones().into_iter().map(|i| i.0).collect();
    assert_eq!(ones, vec![0, 2, 4]);
}

#[test]
fn clear_put_toggle_report_changed_bits() {
    let mut sel = fresh_cell(4);
    // clearing an absent bit is a no-op reporting zero
    assert_eq!(sel.apply(LInd(2), UpdateCellIndexOperation::Clear), 1);
    assert_eq!(sel.apply(LInd(2), UpdateCellIndexOperation::Clear), 0);
    // putting it back reports one change, then none
    assert_eq!(sel.apply(LInd(2), UpdateCellIndexOperation::Put), 1);
    assert_eq!(sel.apply(LInd(2), UpdateCellIndexOperation::Put), 0);
    // toggling always reports one change; twice restores the bit
    assert_eq!(sel.apply(LInd(0), UpdateCellIndexOperation::Toggle), 1);
    assert!(!sel.is_enabled(LInd(0)));
    assert_eq!(sel.apply(LInd(0), UpdateCellIndexOperation::Toggle), 1);
    assert!(sel.is_enabled(LInd(0)));
    assert_eq!(sel.count_ones(), 4);
}

#[test]
fn solo_pins_and_reports_count_delta() {
    let mut sel = fresh_cell(5);
    // pinning an enabled candidate clears the other four bits
    assert_eq!(sel.apply(LInd(3), UpdateCellIndexOperation::Solo), 4);
    assert!(sel.is_solo(LInd(3)));
    assert!(sel.is_enabled(LInd(3)));
    assert_eq!(sel.count_ones(), 1);
    assert_eq!(sel.width(), 5);
    assert_eq!(sel.is_any_solo(), Some(LInd(3)));
    for i in 0..5 {
        if i != 3 {
            assert!(!sel.is_enabled(LInd(i)));
        }
    }
}

#[test]
fn solo_then_solo_again_reports_repin() {
    let mut sel = fresh_cell(5);
    assert_eq!(sel.apply(LInd(3), UpdateCellIndexOperation::Solo), 4);
    // pinning the same slot again changes nothing
    assert_eq!(sel.apply(LInd(3), UpdateCellIndexOperation::Solo), 0);
    // pinning another slot drops the old bit and raises the new one
    assert_eq!(sel.apply(LInd(1), UpdateCellIndexOperation::Solo), 2);
    assert!(sel.is_solo(LInd(1)));
    assert!(!sel.is_enabled(LInd(3)));
}

#[test]
fn unpin_preserves_the_solo_bit() {
    let mut sel = fresh_cell(5);
    sel.apply(LInd(2), UpdateCellIndexOperation::Solo);
    // an ordinary operation on a pinned cell first unpins it back to the
    // single-bit state it stood for, then applies
    assert_eq!(sel.apply(LInd(4), UpdateCellIndexOperation::Put), 1);
    assert!(sel.is_enabled(LInd(2)));
    assert!(sel.is_enabled(LInd(4)));
    assert_eq!(sel.count_ones(), 2);
    assert_eq!(sel.width(), 5);
    for i in [0usize, 1, 3] {
        assert!(!sel.is_enabled(LInd(i)));
    }
}

#[test]
fn solo_implies_enabled_and_count_one() {
    let mut sel = fresh_cell(4);
    sel.apply(LInd(0), UpdateCellIndexOperation::Clear);
    sel.apply(LInd(1), UpdateCellIndexOperation::Clear);
    sel.apply(LInd(3), UpdateCellIndexOperation::Clear);
    // a single-bit enabled state answers solo queries like a pinned cell
    assert!(sel.is_solo(LInd(2)));
    assert!(sel.is_enabled(LInd(2)));
    assert_eq!(sel.count_ones(), 1);
    assert_eq!(sel.is_any_solo(), Some(LInd(2)));
}

#[test]
fn void_absorbs_every_query_and_operation() {
    let mut sel = PuzzleCellSelection::Void;
    assert!(sel.is_void());
    assert_eq!(sel.width(), 0);
    assert_eq!(sel.count_ones(), 0);
    assert!(!sel.is_enabled(LInd(0)));
    assert!(!sel.is_solo(LInd(0)));
    assert!(sel.is_any_solo().is_none());
    assert!(sel.iter_ones().is_empty());
    for op in [
        UpdateCellIndexOperation::Clear,
        UpdateCellIndexOperation::Put,
        UpdateCellIndexOperation::Toggle,
        UpdateCellIndexOperation::Solo,
    ] {
        assert_eq!(sel.apply(LInd(0), op), 0);
        assert!(sel.is_void());
    }
}

#[test]
fn clone_is_independent() {
    let mut sel = fresh_cell(3);
    let copy = sel.clone();
    sel.apply(LInd(1), UpdateCellIndexOperation::Clear);
    assert!(!sel.is_enabled(LInd(1)));
    assert!(copy.is_enabled(LInd(1)));
    assert_eq!(copy.count_ones(), 3);
}
