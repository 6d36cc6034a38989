use fixedbitset::FixedBitSet;
use furlock::clues::{
    AdjacentColumnClue, BetweenColumnsClue, Clue, ImplicationResolver, SameColumnClue,
    UpdateCellIndex,
};
use furlock::puzzle::{
    CellLoc, CellLocIndex, LAns, LCol, LInd, LRow, Puzzle, PuzzleCellSelection, PuzzleRow,
    UpdateCellIndexOperation,
};
use furlock::rng::rng_from_seed;

fn full_bitset(n: usize) -> FixedBitSet {
    let mut b = FixedBitSet::with_capacity(n);
    b.insert_range(..);
    b
}

fn row_with_answers(answers: &[usize]) -> PuzzleRow {
    let n = answers.len();
    PuzzleRow {
        cell_selection: (0..n).map(|_| PuzzleCellSelection::new(full_bitset(n))).collect(),
        cell_answers: answers.iter().map(|&a| LAns(a)).collect(),
    }
}

fn loc(row: usize, col: isize) -> CellLoc {
    CellLoc { row: LRow(row), col: LCol(col) }
}

fn cli(row: usize, col: isize, index: usize) -> CellLocIndex {
    CellLocIndex { loc: loc(row, col), index: LInd(index) }
}

/// A 2-row, width-5 grid whose hidden answers both place identity 3 in
/// column 2: the shape a same-column clue at column 2 describes.
fn two_row_grid() -> Puzzle {
    let mut p = Puzzle::new();
    p.add_row(row_with_answers(&[0, 1, 3, 2, 4]));
    p.add_row(row_with_answers(&[1, 0, 3, 4, 2]));
    p
}

#[test]
fn same_column_scenario_forces_the_partner_solo() {
    // a row of width 5 with candidates 0..4 and a same-column clue between
    // rows 0 and 1 at column 2; pinning (row 1, column 2) to slot 3 forces
    // (row 0, column 2) to slot 3 as well
    let mut p = two_row_grid();
    p.apply_at(cli(1, 2, 3), UpdateCellIndexOperation::Solo);
    let clue = SameColumnClue { loc: loc(0, 2), row2: LRow(1), row3: None };
    let advance = clue.advance_puzzle(&p).unwrap();
    let update = advance.expect("a forced update");
    assert_eq!(update.index, cli(0, 2, 3));
    assert_eq!(update.op, UpdateCellIndexOperation::Solo);
}

#[test]
fn same_column_clears_when_the_partner_is_impossible() {
    let mut p = two_row_grid();
    // identity 3 impossible at (row 1, column 2): the clue rules out 3 at
    // (row 0, column 2) since both would have to share that column
    p.apply_at(cli(1, 2, 3), UpdateCellIndexOperation::Clear);
    let clue = SameColumnClue { loc: loc(0, 2), row2: LRow(1), row3: None };
    let update = clue.advance_puzzle(&p).unwrap().expect("a forced update");
    assert_eq!(update.index, cli(0, 2, 3));
    assert_eq!(update.op, UpdateCellIndexOperation::Clear);
}

#[test]
fn same_column_reports_nothing_on_a_fresh_grid() {
    let p = two_row_grid();
    let clue = SameColumnClue { loc: loc(0, 2), row2: LRow(1), row3: None };
    assert_eq!(clue.advance_puzzle(&p).unwrap(), None);
}

#[test]
fn same_column_detects_a_contradiction() {
    let mut p = two_row_grid();
    // (row 1, column 2) pinned to 3 while 3 is impossible at (row 0,
    // column 2): a corrupted state the clue must refuse to advance
    p.apply_at(cli(0, 2, 3), UpdateCellIndexOperation::Clear);
    p.apply_at(cli(1, 2, 3), UpdateCellIndexOperation::Solo);
    let clue = SameColumnClue { loc: loc(0, 2), row2: LRow(1), row3: None };
    let err = clue.advance_puzzle(&p).unwrap_err();
    assert_eq!(err.loc1, cli(0, 2, 3));
    assert_eq!(err.loc2, cli(1, 2, 3));
}

#[test]
fn clue_updates_only_narrow() {
    let mut p = two_row_grid();
    p.apply_at(cli(1, 2, 3), UpdateCellIndexOperation::Solo);
    let clue = Clue::SameColumn(SameColumnClue { loc: loc(0, 2), row2: LRow(1), row3: None });
    let update = clue.advance_puzzle(&p).unwrap().expect("a forced update");
    // the forced update targets a still-open candidate and only narrows
    assert!(p.cell_selection(update.index.loc).is_enabled(update.index.index));
    assert!(!p.cell_selection(update.index.loc).is_solo(update.index.index));
    assert!(matches!(
        update.op,
        UpdateCellIndexOperation::Clear | UpdateCellIndexOperation::Solo
    ));
    let before = p.cell_selection(update.index.loc).count_ones();
    p.apply_at(update.index, update.op);
    assert!(p.cell_selection(update.index.loc).count_ones() < before);
}

#[test]
fn adjacent_column_clears_when_both_sides_are_impossible() {
    // answers: identity 0 of row 0 in column 1, identity 2 of row 1 in
    // column 3: two columns apart
    let mut p = Puzzle::new();
    p.add_row(row_with_answers(&[1, 0, 2, 3, 4]));
    p.add_row(row_with_answers(&[0, 1, 3, 2, 4]));
    let clue = AdjacentColumnClue { loc1: loc(0, 1), loc2: loc(1, 3) };
    // candidate 0 at (row 0, column 0) needs partner 2 of row 1 enabled two
    // columns away: at column 2 or, mirrored, at column -2 (void); kill
    // column 2 and the clue clears (row 0, column 0)'s slot 0
    p.apply_at(cli(1, 2, 2), UpdateCellIndexOperation::Clear);
    let update = clue.advance_puzzle(&p).expect("a forced update");
    assert_eq!(update.index, cli(0, 0, 0));
    assert_eq!(update.op, UpdateCellIndexOperation::Clear);
}

#[test]
fn adjacent_column_reports_nothing_on_a_fresh_grid() {
    let p = two_row_grid();
    let clue = AdjacentColumnClue { loc1: loc(0, 1), loc2: loc(1, 3) };
    assert_eq!(clue.advance_puzzle(&p), None);
    assert_eq!(clue.colspan(), 1);
}

#[test]
fn between_columns_clears_an_unsupported_centre() {
    let mut p = Puzzle::new();
    p.add_row(row_with_answers(&[0, 1, 2]));
    let clue =
        BetweenColumnsClue { loc1: loc(0, 0), loc2: loc(0, 1), loc3: loc(0, 2) };
    // candidate 1 (the centre identity) at column 0 has no room for both
    // outer identities on either side once identity 0 cannot sit at column 1
    p.apply_at(cli(0, 1, 0), UpdateCellIndexOperation::Clear);
    let update = clue.advance_puzzle(&p).expect("a forced update");
    // first firing window: the template shifted one left, pivoting on the
    // centre identity at column 0, whose mirrored reading needs the now
    // impossible identity 0 at column 1
    assert_eq!(update.index, cli(0, 0, 1));
    assert_eq!(update.op, UpdateCellIndexOperation::Clear);
    assert!(!p.cell_selection(update.index.loc).is_void());
}

#[test]
fn resolver_colspan_and_shift_enumeration() {
    let p = two_row_grid();
    let mut resolver = ImplicationResolver::new_unit();
    resolver.add_answer(&p, loc(0, 1));
    resolver.add_answer(&p, loc(1, 3));
    let span = resolver.colspan();
    assert_eq!(span.min, LCol(1));
    assert_eq!(span.max, LCol(3));
    assert_eq!(span.abs_diff, 2);
    // shifts slide the window's left edge from -abs_diff through the
    // grid's last column
    let shifts = p.iter_col_shift(span);
    assert_eq!(shifts, vec![-3, -2, -1, 0, 1, 2, 3]);
    let subs = resolver.iter_all_cols(&p);
    assert_eq!(subs.len(), 7);
    assert_eq!(subs[0].cells[0].loc.col, LCol(-2));
    assert_eq!(subs[6].cells[1].loc.col, LCol(6));
}

#[test]
fn reflected_windows_mirror_about_the_pivot() {
    let p = two_row_grid();
    let mut resolver = ImplicationResolver::new_unit();
    resolver.add_answer(&p, loc(0, 1));
    resolver.add_answer(&p, loc(1, 3));
    let windows = resolver.iter_reflected_2s(&p);
    assert_eq!(windows.len(), 2);
    for w in &windows {
        // the mirror image sits at twice the pivot's column minus the
        // partner's
        assert_eq!(
            w.loc2_p.index_.loc.col.0,
            2 * w.loc1.index_.loc.col.0 - w.loc2.index_.loc.col.0
        );
        assert_eq!(w.loc2_p.index_.loc.row, w.loc2.index_.loc.row);
        assert_eq!(w.loc2_p.index_.index, w.loc2.index_.index);
    }
    assert_eq!(windows[0].colspan(), 1);
    let triple_resolver = {
        let mut r = ImplicationResolver::new_unit();
        r.add_answer(&p, loc(0, 0));
        r.add_answer(&p, loc(0, 2));
        r.add_answer(&p, loc(1, 4));
        r
    };
    for w in &triple_resolver.iter_reflected_3s(&p) {
        assert_eq!(
            w.loc2_p.index_.loc.col.0,
            2 * w.loc1.index_.loc.col.0 - w.loc2.index_.loc.col.0
        );
        assert_eq!(
            w.loc3_p.index_.loc.col.0,
            2 * w.loc1.index_.loc.col.0 - w.loc3.index_.loc.col.0
        );
        let (fwd, mirrored) = w.as_3s();
        assert_eq!(fwd.loc2.index_, w.loc2.index_);
        assert_eq!(mirrored.loc2.index_, w.loc2_p.index_);
    }
}

#[test]
fn update_builders_carry_location_and_operation() {
    let index = cli(0, 2, 3);
    let clear: UpdateCellIndex = index.as_clear();
    assert_eq!(clear.index, index);
    assert_eq!(clear.op, UpdateCellIndexOperation::Clear);
    assert!(clear.explanation.is_none());
    let solo = index.as_solo();
    assert_eq!(solo.op, UpdateCellIndexOperation::Solo);
}

#[test]
fn random_clue_generation_stays_in_range() {
    let mut rng = rng_from_seed(11);
    let mut p = Puzzle::new();
    for _ in 0..4 {
        p.add_row(PuzzleRow::new_shuffled(&mut rng, 5));
    }
    for seed in 0..10u64 {
        let mut rng2 = rng_from_seed(seed);
        let same = SameColumnClue::new_random(&mut rng2, &p).expect("two rows exist");
        assert!(same.loc.row.0 < 4);
        assert!(same.row2.0 < 4);
        assert_ne!(same.row2, same.loc.row);
        if let Some(r3) = same.row3 {
            assert_ne!(r3, same.loc.row);
            assert_ne!(r3, same.row2);
        }
        assert!(0 <= same.loc.col.0 && same.loc.col.0 <= 4);
        let adj = AdjacentColumnClue::new_random(&mut rng2, &p).expect("always some");
        assert!(adj.loc1.row.0 < 4 && adj.loc2.row.0 < 4);
        assert_ne!(adj.loc1.col, adj.loc2.col);
        let between = BetweenColumnsClue::new_random(&mut rng2, &p).expect("grid is wide");
        assert!(between.loc1.col.0 < between.loc2.col.0);
        assert!(between.loc2.col.0 < between.loc3.col.0);
        assert!(between.loc3.col.0 <= 4);
    }
}

#[test]
fn random_clue_generation_refuses_small_grids() {
    let mut rng = rng_from_seed(3);
    let mut p = Puzzle::new();
    p.add_row(row_with_answers(&[1, 0]));
    // one row: a same-column clue has no second row to tie to
    assert!(SameColumnClue::new_random(&mut rng, &p).is_none());
    // two columns: a between clue has no room for three distinct columns
    assert!(BetweenColumnsClue::new_random(&mut rng, &p).is_none());
    // one column: an adjacent clue has no second column to pair with
    let mut narrow = Puzzle::new();
    narrow.add_row(row_with_answers(&[0]));
    assert!(AdjacentColumnClue::new_random(&mut rng, &narrow).is_none());
}
