use fixedbitset::FixedBitSet;
use furlock::clues::UpdateCellIndex;
use furlock::puzzle::{
    CellLoc, CellLocIndex, LAns, LCol, LInd, LRow, Puzzle, PuzzleCellSelection, PuzzleRow,
    UpdateCellIndexOperation,
};
use furlock::undo::{Action, UndoTree};

fn full_bitset(n: usize) -> FixedBitSet {
    let mut b = FixedBitSet::with_capacity(n);
    b.insert_range(..);
    b
}

fn row_with_answers(answers: &[usize]) -> PuzzleRow {
    let n = answers.len();
    PuzzleRow {
        cell_selection: (0..n).map(|_| PuzzleCellSelection::new(full_bitset(n))).collect(),
        cell_answers: answers.iter().map(|&a| LAns(a)).collect(),
    }
}

fn loc(row: usize, col: isize) -> CellLoc {
    CellLoc { row: LRow(row), col: LCol(col) }
}

fn cli(row: usize, col: isize, index: usize) -> CellLocIndex {
    CellLocIndex { loc: loc(row, col), index: LInd(index) }
}

fn action(update: UpdateCellIndex, update_count: usize, inferred_count: usize) -> Action {
    Action { update, update_count, inferred_count }
}

/// Field-for-field comparison of two grids through their public queries.
fn assert_same_grid(a: &Puzzle, b: &Puzzle) {
    assert_eq!(a.n_rows(), b.n_rows());
    assert_eq!(a.max_column(), b.max_column());
    for r in 0..a.n_rows() {
        for c in 0..=(a.max_column().0 as usize) {
            let l = loc(r, c as isize);
            let sa = a.cell_selection(l);
            let sb = b.cell_selection(l);
            assert_eq!(sa.is_void(), sb.is_void());
            assert_eq!(sa.width(), sb.width());
            assert_eq!(sa.count_ones(), sb.count_ones());
            for i in 0..sa.width() {
                assert_eq!(sa.is_enabled(LInd(i)), sb.is_enabled(LInd(i)));
            }
        }
    }
}

fn playing_grid() -> Puzzle {
    let mut p = Puzzle::new();
    p.add_row(row_with_answers(&[0, 1, 2]));
    p.add_row(row_with_answers(&[2, 0, 1]));
    p
}

#[test]
fn undo_twice_restores_the_root_snapshot() {
    let mut puzzle = playing_grid();
    let original = puzzle.clone();
    let (mut tree, mut cursor) = UndoTree::new(puzzle.clone());

    let u1 = cli(0, 0, 1);
    let c1 = puzzle.apply_at(u1, UpdateCellIndexOperation::Clear);
    tree.push(&mut cursor, puzzle.clone(), action(u1.as_clear(), c1, 0));

    let u2 = cli(1, 2, 0);
    let c2 = puzzle.apply_at(u2, UpdateCellIndexOperation::Clear);
    tree.push(&mut cursor, puzzle.clone(), action(u2.as_clear(), c2, 0));

    assert!(tree.undo(&mut cursor));
    assert!(tree.undo(&mut cursor));
    assert_same_grid(tree.current_state(&cursor), &original);
    // at the root there is nothing left to undo; the cursor stays put
    let at_root = cursor;
    assert!(!tree.undo(&mut cursor));
    assert_eq!(cursor, at_root);
}

#[test]
fn undo_then_redo_restores_the_pushed_snapshot() {
    let mut puzzle = playing_grid();
    let (mut tree, mut cursor) = UndoTree::new(puzzle.clone());

    let u1 = cli(0, 1, 2);
    puzzle.apply_at(u1, UpdateCellIndexOperation::Clear);
    let s1 = puzzle.clone();
    tree.push(&mut cursor, puzzle.clone(), action(u1.as_clear(), 1, 0));

    assert!(tree.undo(&mut cursor));
    assert!(tree.redo(&mut cursor));
    assert_same_grid(tree.current_state(&cursor), &s1);
    // with no further future recorded, redo is refused
    let here = cursor;
    assert!(!tree.redo(&mut cursor));
    assert_eq!(cursor, here);
}

#[test]
fn redo_is_refused_once_history_branches() {
    let mut puzzle = playing_grid();
    let (mut tree, mut cursor) = UndoTree::new(puzzle.clone());

    let mut branch_a = puzzle.clone();
    branch_a.apply_at(cli(0, 0, 0), UpdateCellIndexOperation::Clear);
    tree.push(&mut cursor, branch_a, action(cli(0, 0, 0).as_clear(), 1, 0));

    assert!(tree.undo(&mut cursor));

    let mut branch_b = puzzle.clone();
    branch_b.apply_at(cli(0, 0, 1), UpdateCellIndexOperation::Clear);
    tree.push(&mut cursor, branch_b, action(cli(0, 0, 1).as_clear(), 1, 0));

    assert!(tree.undo(&mut cursor));
    // two futures exist from here; redo refuses to guess
    let here = cursor;
    assert!(!tree.redo(&mut cursor));
    assert_eq!(cursor, here);
}

#[test]
fn actions_record_what_happened() {
    let mut puzzle = playing_grid();
    let (mut tree, mut cursor) = UndoTree::new(puzzle.clone());
    let u = cli(0, 2, 2);
    let (update_count, inferred_count, _changed) =
        puzzle.apply_update(u, UpdateCellIndexOperation::Solo);
    let recorded = action(u.as_solo(), update_count, inferred_count);
    tree.push(&mut cursor, puzzle.clone(), recorded);
    let node = &tree.nodes[cursor.current];
    let stored = node.action.expect("pushed nodes carry their action");
    assert_eq!(stored.update.index, u);
    assert_eq!(stored.update.op, UpdateCellIndexOperation::Solo);
    assert_eq!(stored.update_count, update_count);
    assert_eq!(stored.inferred_count, inferred_count);
    assert_same_grid(&node.state, &puzzle);
}
