use fixedbitset::FixedBitSet;
use furlock::puzzle::{
    CellLoc, CellLocIndex, LAns, LCol, LInd, LRow, Puzzle, PuzzleCellSelection, PuzzleRow,
    UpdateCellIndexOperation,
};
use furlock::rng::rng_from_seed;

fn full_bitset(n: usize) -> FixedBitSet {
    let mut b = FixedBitSet::with_capacity(n);
    b.insert_range(..);
    b
}

fn row_with_answers(answers: &[usize]) -> PuzzleRow {
    let n = answers.len();
    PuzzleRow {
        cell_selection: (0..n).map(|_| PuzzleCellSelection::new(full_bitset(n))).collect(),
        cell_answers: answers.iter().map(|&a| LAns(a)).collect(),
    }
}

fn loc(row: usize, col: isize) -> CellLoc {
    CellLoc { row: LRow(row), col: LCol(col) }
}

fn cli(row: usize, col: isize, index: usize) -> CellLocIndex {
    CellLocIndex { loc: loc(row, col), index: LInd(index) }
}

fn total_count(p: &Puzzle) -> usize {
    let mut total = 0;
    for r in 0..p.n_rows() {
        for c in 0..=(p.max_column().0 as usize) {
            total += p.cell_selection(loc(r, c as isize)).count_ones();
        }
    }
    total
}

#[test]
fn add_row_widens_the_grid() {
    let mut p = Puzzle::new();
    assert_eq!(p.n_rows(), 0);
    let r0 = p.add_row(row_with_answers(&[0, 1, 2]));
    assert_eq!(r0, LRow(0));
    assert_eq!(p.max_column(), LCol(2));
    let r1 = p.add_row(row_with_answers(&[1, 0, 3, 2, 4]));
    assert_eq!(r1, LRow(1));
    assert_eq!(p.max_column(), LCol(4));
    assert_eq!(p.n_rows(), 2);
    assert_eq!(p.row_at(LRow(0)).len(), 3);
}

#[test]
fn out_of_range_lookups_are_void() {
    let mut p = Puzzle::new();
    p.add_row(row_with_answers(&[0, 1, 2]));
    p.add_row(row_with_answers(&[2, 1, 0, 3]));
    // past the left edge, past the row, and past the ragged row's width
    assert!(p.cell_selection(loc(0, -1)).is_void());
    assert!(p.cell_selection(loc(0, 3)).is_void());
    assert!(!p.cell_selection(loc(1, 3)).is_void());
    // operations against a void location change nothing and report zero
    let before = total_count(&p);
    assert_eq!(p.apply_at(cli(0, 3, 1), UpdateCellIndexOperation::Clear), 0);
    assert_eq!(p.apply_at(cli(0, -1, 0), UpdateCellIndexOperation::Solo), 0);
    assert_eq!(total_count(&p), before);
}

#[test]
fn answer_at_reads_the_hidden_permutation() {
    let mut p = Puzzle::new();
    p.add_row(row_with_answers(&[2, 0, 1]));
    let ans = p.answer_at(loc(0, 0));
    assert_eq!(ans.loc, loc(0, 0));
    assert_eq!(ans.index, LAns(2));
    assert_eq!(ans.decay_to_ind(), cli(0, 0, 2));
}

#[test]
fn hidden_single_is_pinned_and_inference_is_idempotent() {
    let mut p = Puzzle::new();
    p.add_row(row_with_answers(&[0, 1, 2]));
    // value 2 becomes impossible everywhere but column 1
    p.apply_at(cli(0, 0, 2), UpdateCellIndexOperation::Clear);
    p.apply_at(cli(0, 2, 2), UpdateCellIndexOperation::Clear);
    let mut to_update = vec![loc(0, 1)];
    let flips = p.run_inference(&mut to_update);
    // column 1 is pinned to 2; its other two candidates were cleared
    assert!(p.cell_selection(loc(0, 1)).is_solo(LInd(2)));
    assert_eq!(flips, 2);
    // pinning column 1 removed its other values, leaving naked pairs only;
    // a second pass finds nothing further to do
    let mut again = vec![loc(0, 0), loc(0, 1), loc(0, 2)];
    assert_eq!(p.run_inference(&mut again), 0);
    assert_eq!(again.len(), 3);
}

#[test]
fn naked_single_clears_its_value_from_the_row() {
    let mut p = Puzzle::new();
    p.add_row(row_with_answers(&[0, 1, 2, 3]));
    // column 0 keeps only value 3
    p.apply_at(cli(0, 0, 0), UpdateCellIndexOperation::Clear);
    p.apply_at(cli(0, 0, 1), UpdateCellIndexOperation::Clear);
    p.apply_at(cli(0, 0, 2), UpdateCellIndexOperation::Clear);
    let before = total_count(&p);
    let mut to_update = vec![loc(0, 0)];
    let flips = p.run_inference(&mut to_update);
    assert!(p.cell_selection(loc(0, 0)).is_solo(LInd(3)));
    for c in 1..4 {
        assert!(!p.cell_selection(loc(0, c)).is_enabled(LInd(3)));
    }
    // the number of cleared bits is exactly the drop in the total count
    assert_eq!(total_count(&p) + flips, before);
    // every changed location was reported
    for c in 1..4 {
        assert!(to_update.contains(&loc(0, c)));
    }
}

#[test]
fn inference_cascades_within_a_row() {
    let mut p = Puzzle::new();
    p.add_row(row_with_answers(&[0, 1, 2]));
    // column 0 keeps only value 0; inference pins it, clears 0 elsewhere,
    // and keeps going until the whole row is forced
    p.apply_at(cli(0, 0, 1), UpdateCellIndexOperation::Clear);
    p.apply_at(cli(0, 0, 2), UpdateCellIndexOperation::Clear);
    p.apply_at(cli(0, 1, 2), UpdateCellIndexOperation::Clear);
    let mut to_update = vec![loc(0, 0), loc(0, 1)];
    p.run_inference(&mut to_update);
    assert!(p.cell_selection(loc(0, 0)).is_solo(LInd(0)));
    assert!(p.cell_selection(loc(0, 1)).is_solo(LInd(1)));
    assert!(p.cell_selection(loc(0, 2)).is_solo(LInd(2)));
    assert_eq!(total_count(&p), 3);
}

#[test]
fn inference_never_increases_the_candidate_count() {
    let mut p = Puzzle::new();
    p.add_row(row_with_answers(&[3, 0, 2, 1]));
    p.add_row(row_with_answers(&[1, 2, 0, 3]));
    p.apply_at(cli(0, 2, 0), UpdateCellIndexOperation::Clear);
    p.apply_at(cli(0, 2, 1), UpdateCellIndexOperation::Clear);
    p.apply_at(cli(1, 0, 3), UpdateCellIndexOperation::Solo);
    let before = total_count(&p);
    let mut to_update = vec![loc(0, 2), loc(1, 0)];
    let flips = p.run_inference(&mut to_update);
    let after = total_count(&p);
    assert!(after <= before);
    assert_eq!(before - after, flips);
}

#[test]
fn apply_update_runs_inference_and_reports_changes() {
    let mut p = Puzzle::new();
    p.add_row(row_with_answers(&[0, 1, 2]));
    p.apply_at(cli(0, 0, 2), UpdateCellIndexOperation::Clear);
    // the update that makes value 2 a hidden single at column 1
    let (update_count, inferred_count, changed) =
        p.apply_update(cli(0, 2, 2), UpdateCellIndexOperation::Clear);
    assert_eq!(update_count, 1);
    assert_eq!(inferred_count, 2);
    assert!(changed.contains(&loc(0, 2)));
    assert!(changed.contains(&loc(0, 1)));
    assert!(p.cell_selection(loc(0, 1)).is_solo(LInd(2)));
    // repeating the same update is a no-op that reports nothing
    let (u2, i2, c2) = p.apply_update(cli(0, 2, 2), UpdateCellIndexOperation::Clear);
    assert_eq!((u2, i2), (0, 0));
    assert!(c2.is_empty());
}

#[test]
fn new_shuffled_rows_are_full_and_answers_permute() {
    let mut rng = rng_from_seed(7);
    let row = PuzzleRow::new_shuffled(&mut rng, 6);
    assert_eq!(row.len(), 6);
    assert_eq!(row.max_column(), LCol(5));
    let mut seen = [false; 6];
    for c in 0..6 {
        let a = row.answer_at(LCol(c as isize));
        assert!(a.0 < 6);
        assert!(!seen[a.0]);
        seen[a.0] = true;
        let sel = row.selection_at(LCol(c as isize)).unwrap();
        assert_eq!(sel.count_ones(), 6);
    }
    assert!(row.selection_at(LCol(6)).is_none());
    assert!(row.selection_at(LCol(-1)).is_none());
}

#[test]
fn shuffled_rows_and_cols_are_permutations() {
    let mut rng = rng_from_seed(99);
    let mut p = Puzzle::new();
    for _ in 0..5 {
        p.add_row(PuzzleRow::new_shuffled(&mut rng, 4));
    }
    let rows = p.shuffled_rows(&mut rng);
    assert_eq!(rows.len(), 5);
    let mut seen_rows = [false; 5];
    for r in &rows {
        assert!(!seen_rows[r.0]);
        seen_rows[r.0] = true;
    }
    let cols = p.shuffled_cols(&mut rng);
    assert_eq!(cols.len(), 4);
    let mut seen_cols = [false; 4];
    for c in &cols {
        assert!(0 <= c.0 && c.0 < 4);
        assert!(!seen_cols[c.0 as usize]);
        seen_cols[c.0 as usize] = true;
    }
    for _ in 0..8 {
        assert!(p.random_row(&mut rng).0 < 5);
        let c = p.random_column(&mut rng);
        assert!(0 <= c.0 && c.0 <= 3);
    }
}

#[test]
fn iter_helpers_enumerate_expected_ranges() {
    let mut p = Puzzle::new();
    p.add_row(row_with_answers(&[0, 1, 2, 3]));
    let rows: Vec<LRow> = p.iter_rows();
    assert_eq!(rows, vec![LRow(0)]);
    let cols: Vec<LCol> = p.iter_cols();
    assert_eq!(cols, vec![LCol(0), LCol(1), LCol(2), LCol(3)]);
    let indices: Vec<LInd> = p.row_at(LRow(0)).iter_indices();
    assert_eq!(indices.len(), 4);
    assert_eq!(indices[3], LInd(3));
}

#[test]
fn column_arithmetic_shifts_and_reflects() {
    let a = cli(0, 5, 1);
    let b = cli(0, 2, 4);
    assert_eq!(a.shift_column(-3).loc.col, LCol(2));
    // the mirror of b about a: twice a's column minus b's
    let m = b.reflect_loc_about(&a);
    assert_eq!(m.loc.col, LCol(8));
    assert_eq!(m.index, LInd(4));
    assert_eq!(a.loc.columns_between(&b.loc), 2);
    assert_eq!(LCol(4).delta(&LCol(7)), -3);
    assert_eq!(LCol(4).columns_between(&LCol(5)), 0);
}
