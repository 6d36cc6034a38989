//! Clue evaluation: the implication resolver that slides a clue's geometric
//! template across every column alignment of the grid, the proxy snapshots
//! rules are allowed to inspect, and the three clue shapes built on top of
//! it.  A clue's `advance_puzzle` yields at most one forced update: the
//! first its rules prove, in window order, pair order, rule order.

use vstd::prelude::*;

verus! {

use rand_chacha::ChaCha8Rng;
use crate::puzzle::{
    CellLoc, CellLocIndex, LCol, LColspan, LRow, LInd, Puzzle, UpdateCellIndexOperation, MAX_DIM,
    col_gap,
};
use crate::rng::{random_ratio, sample_three_distinct};

/// Why a clue could not lawfully advance: a cell its rules prove impossible
/// is pinned elsewhere.  This marks a corrupted grid, never a reachable
/// state of correct play.
#[derive(Clone, Copy, Debug, PartialEq, Eq, Structural)]
pub struct ClueContradiction {
    pub loc1: CellLocIndex,
    pub loc2: CellLocIndex,
}

/// Which rule forced an update, and on which cells; carried for display
/// only and never inspected by the engine.
#[derive(Clone, Copy, Debug, PartialEq, Eq, Structural)]
pub enum ClueExplanation {
    SameColumnSolo { loc1: CellLocIndex, loc2: CellLocIndex },
    SameColumnClear { loc1: CellLocIndex, loc2: CellLocIndex },
    AdjacentColumnClear { loc1: CellLocIndex, loc2: CellLocIndex, loc2_p: CellLocIndex },
}

/// The sole mutation request the grid accepts from outside.
#[derive(Clone, Copy, Debug, PartialEq, Eq, Structural)]
pub struct UpdateCellIndex {
    pub index: CellLocIndex,
    pub op: UpdateCellIndexOperation,
    pub explanation: Option<ClueExplanation>,
}

pub type PuzzleAdvance = Option<UpdateCellIndex>;

impl UpdateCellIndex {
    pub fn with_explanation(self, explanation: ClueExplanation) -> (r: UpdateCellIndex)
        ensures
            r.index == self.index,
            r.op == self.op,
            r.explanation == Some(explanation),
    {
        UpdateCellIndex { explanation: Some(explanation), ..self }
    }
}

impl CellLocIndex {
    pub fn as_update(&self, op: UpdateCellIndexOperation) -> (r: UpdateCellIndex)
        ensures
            r == (UpdateCellIndex { index: *self, op, explanation: None }),
    {
        UpdateCellIndex { index: *self, op, explanation: None }
    }

    pub fn as_clear(&self) -> (r: UpdateCellIndex)
        ensures
            r == (UpdateCellIndex {
                index: *self,
                op: UpdateCellIndexOperation::Clear,
                explanation: None,
            }),
    {
        self.as_update(UpdateCellIndexOperation::Clear)
    }

    pub fn as_solo(&self) -> (r: UpdateCellIndex)
        ensures
            r == (UpdateCellIndex {
                index: *self,
                op: UpdateCellIndexOperation::Solo,
                explanation: None,
            }),
    {
        self.as_update(UpdateCellIndexOperation::Solo)
    }
}

/// The read-only snapshot of one (location, candidate) pair; the only view
/// of the grid a clue rule may inspect.
#[derive(Clone, Copy, Debug)]
pub struct SelectionProxy {
    pub index_: CellLocIndex,
    pub is_enabled: bool,
    pub is_solo: bool,
    pub is_void: bool,
}

/// What the proxy of a given cell must hold.
pub open spec fn proxy_spec(p: Puzzle, index: CellLocIndex) -> SelectionProxy {
    SelectionProxy {
        index_: index,
        is_enabled: p.enabled_at(index),
        is_solo: p.solo_at(index),
        is_void: p.void_at(index.loc),
    }
}

impl SelectionProxy {
    pub fn from_puzzle_and_index(puzzle: &Puzzle, index: CellLocIndex) -> (r: SelectionProxy)
        requires
            puzzle.wf(),
            (index.loc.row.0 as int) < puzzle.n_rows_spec(),
        ensures
            r == proxy_spec(*puzzle, index),
    {
        let sel = puzzle.cell_selection(index.loc);
        let is_enabled = sel.is_enabled(index.index);
        let is_solo = sel.is_solo(index.index);
        let is_void = sel.is_void();
        SelectionProxy { index_: index, is_enabled, is_solo, is_void }
    }

    pub fn is_enabled_not_solo(&self) -> (r: bool)
        ensures
            r == (self.is_enabled && !self.is_solo),
    {
        self.is_enabled && !self.is_solo
    }
}

/// A 2-cell window instantiation.
#[derive(Clone, Copy, Debug)]
pub struct Loc2 {
    pub loc1: SelectionProxy,
    pub loc2: SelectionProxy,
}

/// A 2-cell window with the second cell also reflected about the first.
#[derive(Clone, Copy, Debug)]
pub struct Loc2Mirrored {
    pub loc1: SelectionProxy,
    pub loc2: SelectionProxy,
    pub loc2_p: SelectionProxy,
}

impl Loc2Mirrored {
    pub fn colspan(&self) -> (r: usize)
        requires
            col_gap(self.loc1.index_.loc.col.0 as int, self.loc2.index_.loc.col.0 as int)
                <= isize::MAX,
        ensures
            r == if col_gap(
                self.loc1.index_.loc.col.0 as int,
                self.loc2.index_.loc.col.0 as int,
            ) >= 1 {
                col_gap(self.loc1.index_.loc.col.0 as int, self.loc2.index_.loc.col.0 as int) - 1
            } else {
                0int
            },
    {
        self.loc1.index_.loc.columns_between(&self.loc2.index_.loc)
    }
}

/// A 3-cell window instantiation.
#[derive(Clone, Copy, Debug)]
pub struct Loc3 {
    pub loc1: SelectionProxy,
    pub loc2: SelectionProxy,
    pub loc3: SelectionProxy,
}

/// A 3-cell window with the second and third cells also reflected about the
/// first.
#[derive(Clone, Copy, Debug)]
pub struct Loc3Mirrored {
    pub loc1: SelectionProxy,
    pub loc2: SelectionProxy,
    pub loc2_p: SelectionProxy,
    pub loc3: SelectionProxy,
    pub loc3_p: SelectionProxy,
}

impl Loc3Mirrored {
    /// The window split in its forward and mirrored readings.
    pub fn as_3s(&self) -> (r: (Loc3, Loc3))
        ensures
            r.0 == (Loc3 { loc1: self.loc1, loc2: self.loc2, loc3: self.loc3 }),
            r.1 == (Loc3 { loc1: self.loc1, loc2: self.loc2_p, loc3: self.loc3_p }),
    {
        (
            Loc3 { loc1: self.loc1, loc2: self.loc2, loc3: self.loc3 },
            Loc3 { loc1: self.loc1, loc2: self.loc2_p, loc3: self.loc3_p },
        )
    }
}

/// The cell a window cell lands on after a horizontal shift.
pub open spec fn cell_shifted(c: CellLocIndex, s: int) -> CellLocIndex {
    CellLocIndex {
        loc: CellLoc { row: c.loc.row, col: LCol((c.loc.col.0 + s) as isize) },
        index: c.index,
    }
}

/// The mirror image of window cell `c` about window cell `m`.
pub open spec fn cell_reflected(c: CellLocIndex, m: CellLocIndex) -> CellLocIndex {
    CellLocIndex {
        loc: CellLoc { row: c.loc.row, col: LCol((2 * m.loc.col.0 - c.loc.col.0) as isize) },
        index: c.index,
    }
}

/// The leftmost column of a nonempty window.
pub open spec fn cells_min_col(s: Seq<CellLocIndex>) -> int
    decreases s.len(),
{
    if s.len() <= 1 {
        s[0].loc.col.0 as int
    } else {
        let m = cells_min_col(s.drop_last());
        if (s.last().loc.col.0 as int) < m {
            s.last().loc.col.0 as int
        } else {
            m
        }
    }
}

/// The rightmost column of a nonempty window.
pub open spec fn cells_max_col(s: Seq<CellLocIndex>) -> int
    decreases s.len(),
{
    if s.len() <= 1 {
        s[0].loc.col.0 as int
    } else {
        let m = cells_max_col(s.drop_last());
        if (s.last().loc.col.0 as int) > m {
            s.last().loc.col.0 as int
        } else {
            m
        }
    }
}

/// The generic windowing combinator: an ordered geometric template of cells,
/// decayed from answer space, which the evaluation strategies slide and
/// reflect over the grid.
#[derive(Debug)]
pub struct ImplicationResolver {
    pub cells: Vec<CellLocIndex>,
}

impl ImplicationResolver {
    /// Window cells stay over meaningful coordinates of the puzzle: rows in
    /// range, columns within one window's reach of the grid, slots within
    /// their row.
    pub open spec fn cells_ok(&self, p: Puzzle) -> bool {
        forall|m: int|
            0 <= m < self.cells@.len() ==> {
                let c = #[trigger] self.cells@[m];
                &&& (c.loc.row.0 as int) < p.n_rows_spec()
                &&& -3 * (MAX_DIM as int) <= c.loc.col.0 <= 3 * (MAX_DIM as int)
                &&& (c.index.0 as int) < p.rows@[c.loc.row.0 as int].len_spec()
            }
    }

    pub fn new_unit() -> (r: ImplicationResolver)
        ensures
            r.cells@.len() == 0,
    {
        ImplicationResolver { cells: Vec::new() }
    }

    /// Appends the grid's hidden answer at `loc`, decayed to slot space, to
    /// the window.
    pub fn add_answer(&mut self, puzzle: &Puzzle, loc: CellLoc)
        requires
            puzzle.wf(),
            (loc.row.0 as int) < puzzle.n_rows_spec(),
            0 <= loc.col.0 < puzzle.rows@[loc.row.0 as int].len_spec(),
        ensures
            final(self).cells@ == old(self).cells@.push(
                CellLocIndex {
                    loc,
                    index: LInd(
                        puzzle.rows@[loc.row.0 as int].answers()[loc.col.0 as int].0,
                    ),
                },
            ),
            old(self).cells_ok(*puzzle) ==> final(self).cells_ok(*puzzle),
    {
        let cell = puzzle.answer_at(loc).decay_to_ind();
        self.cells.push(cell);
    }

    /// The inclusive column extent of the window.
    pub fn colspan(&self) -> (r: LColspan)
        requires
            self.cells@.len() >= 1,
            forall|m: int|
                0 <= m < self.cells@.len() ==> -3 * (MAX_DIM as int) <= (#[trigger] self.cells@[m]).loc.col.0
                    <= 3 * (MAX_DIM as int),
        ensures
            r.min.0 == cells_min_col(self.cells@),
            r.max.0 == cells_max_col(self.cells@),
            r.min.0 <= r.max.0,
            r.abs_diff == r.max.0 - r.min.0,
            forall|m: int|
                0 <= m < self.cells@.len() ==> r.min.0 <= (#[trigger] self.cells@[m]).loc.col.0
                    <= r.max.0,
            exists|m: int| 0 <= m < self.cells@.len() && (#[trigger] self.cells@[m]).loc.col.0
                == r.min.0,
            exists|m: int| 0 <= m < self.cells@.len() && (#[trigger] self.cells@[m]).loc.col.0
                == r.max.0,
    {
        let mut min = self.cells[0].loc.col;
        let mut max = self.cells[0].loc.col;
        let mut m: usize = 1;
        while m < self.cells.len()
            invariant
                1 <= m <= self.cells@.len(),
                forall|x: int|
                    0 <= x < self.cells@.len() ==> -3 * (MAX_DIM as int) <= (
                    #[trigger] self.cells@[x]).loc.col.0 <= 3 * (MAX_DIM as int),
                min.0 == cells_min_col(self.cells@.subrange(0, m as int)),
                max.0 == cells_max_col(self.cells@.subrange(0, m as int)),
                min.0 <= max.0,
                -3 * (MAX_DIM as int) <= min.0 <= 3 * (MAX_DIM as int),
                -3 * (MAX_DIM as int) <= max.0 <= 3 * (MAX_DIM as int),
                forall|x: int|
                    0 <= x < m ==> min.0 <= (#[trigger] self.cells@[x]).loc.col.0 <= max.0,
                exists|x: int| 0 <= x < m && (#[trigger] self.cells@[x]).loc.col.0 == min.0,
                exists|x: int| 0 <= x < m && (#[trigger] self.cells@[x]).loc.col.0 == max.0,
            decreases self.cells@.len() - m,
        {
            proof {
                assert(self.cells@.subrange(0, m + 1).drop_last() =~= self.cells@.subrange(
                    0,
                    m as int,
                ));
            }
            let c = self.cells[m].loc.col;
            if c.0 < min.0 {
                min = c;
            }
            if c.0 > max.0 {
                max = c;
            }
            m += 1;
        }
        proof {
            assert(self.cells@.subrange(0, self.cells@.len() as int) =~= self.cells@);
        }
        LColspan { min, max, abs_diff: (max.0 - min.0) as usize }
    }

    /// One resolver per valid horizontal shift of the whole window: every
    /// alignment at which the clue's pattern could sit over the grid,
    /// including ones that push cells into void territory.
    pub fn iter_all_cols(&self, puzzle: &Puzzle) -> (r: Vec<ImplicationResolver>)
        requires
            puzzle.wf(),
            self.cells@.len() >= 1,
            self.cells_ok(*puzzle),
            forall|m: int|
                0 <= m < self.cells@.len() ==> 0 <= (#[trigger] self.cells@[m]).loc.col.0
                    <= MAX_DIM,
        ensures
            r@.len() == cells_max_col(self.cells@) - cells_min_col(self.cells@)
                + puzzle.max_column.0 + 1,
            forall|k: int|
                0 <= k < r@.len() ==> (#[trigger] r@[k]).cells@ == Seq::new(
                    self.cells@.len(),
                    |m: int|
                        cell_shifted(
                            self.cells@[m],
                            k - (cells_max_col(self.cells@) - cells_min_col(self.cells@))
                                - cells_min_col(self.cells@),
                        ),
                ),
            forall|k: int| 0 <= k < r@.len() ==> (#[trigger] r@[k]).cells_ok(*puzzle),
    {
        let span = self.colspan();
        let shifts = puzzle.iter_col_shift(span);
        let ghost base = span.abs_diff + span.min.0;
        let mut r: Vec<ImplicationResolver> = Vec::new();
        let mut k: usize = 0;
        while k < shifts.len()
            invariant
                k <= shifts@.len(),
                puzzle.wf(),
                self.cells@.len() >= 1,
                self.cells_ok(*puzzle),
                forall|m: int|
                    0 <= m < self.cells@.len() ==> 0 <= (#[trigger] self.cells@[m]).loc.col.0
                        <= MAX_DIM,
                span.min.0 == cells_min_col(self.cells@),
                span.max.0 == cells_max_col(self.cells@),
                span.abs_diff == span.max.0 - span.min.0,
                0 <= span.min.0 <= MAX_DIM,
                0 <= span.max.0 <= MAX_DIM,
                shifts@.len() == span.abs_diff + puzzle.max_column.0 + 1,
                forall|x: int|
                    0 <= x < shifts@.len() ==> #[trigger] shifts@[x] == x - span.abs_diff
                        - span.min.0,
                r@.len() == k,
                forall|x: int|
                    0 <= x < k ==> (#[trigger] r@[x]).cells@ == Seq::new(
                        self.cells@.len(),
                        |m: int| cell_shifted(self.cells@[m], x - span.abs_diff - span.min.0),
                    ),
                forall|x: int| 0 <= x < k ==> (#[trigger] r@[x]).cells_ok(*puzzle),
            decreases shifts@.len() - k,
        {
            let shift = shifts[k];
            let mut cells: Vec<CellLocIndex> = Vec::new();
            let mut m: usize = 0;
            while m < self.cells.len()
                invariant
                    m <= self.cells@.len(),
                    puzzle.wf(),
                    self.cells_ok(*puzzle),
                    forall|x: int|
                        0 <= x < self.cells@.len() ==> 0 <= (#[trigger] self.cells@[x]).loc.col.0
                            <= MAX_DIM,
                    -2 * (MAX_DIM as int) <= shift <= 2 * (MAX_DIM as int),
                    cells@.len() == m,
                    forall|x: int|
                        0 <= x < m ==> #[trigger] cells@[x] == cell_shifted(
                            self.cells@[x],
                            shift as int,
                        ),
                    forall|x: int|
                        0 <= x < m ==> {
                            let c = #[trigger] cells@[x];
                            &&& (c.loc.row.0 as int) < puzzle.n_rows_spec()
                            &&& -3 * (MAX_DIM as int) <= c.loc.col.0 <= 3 * (MAX_DIM as int)
                            &&& (c.index.0 as int) < puzzle.rows@[c.loc.row.0 as int].len_spec()
                        },
                decreases self.cells@.len() - m,
            {
                let c = self.cells[m];
                cells.push(c.shift_column(shift));
                m += 1;
            }
            r.push(ImplicationResolver { cells });
            k += 1;
        }
        r
    }
}

/// The ordered pairs of distinct positions of a 2- or 3-cell window, first
/// position varying slowest: the order in which pair rules are tried.
pub open spec fn pairs_of(n: int) -> Seq<(int, int)> {
    if n == 2 {
        seq![(0int, 1int), (1int, 0int)]
    } else {
        seq![(0int, 1int), (0int, 2int), (1int, 0int), (1int, 2int), (2int, 0int), (2int, 1int)]
    }
}

/// The ordered triples of distinct positions of a 3-cell window, in
/// lexicographic order: the order in which triple rules are tried.
pub open spec fn triples_of_3() -> Seq<(int, int, int)> {
    seq![
        (0int, 1int, 2int),
        (0int, 2int, 1int),
        (1int, 0int, 2int),
        (1int, 2int, 0int),
        (2int, 0int, 1int),
        (2int, 1int, 0int),
    ]
}

impl ImplicationResolver {
    fn make_loc2(&self, puzzle: &Puzzle, i: usize, j: usize) -> (r: Loc2)
        requires
            puzzle.wf(),
            self.cells_ok(*puzzle),
            i < self.cells@.len(),
            j < self.cells@.len(),
        ensures
            r == (Loc2 {
                loc1: proxy_spec(*puzzle, self.cells@[i as int]),
                loc2: proxy_spec(*puzzle, self.cells@[j as int]),
            }),
    {
        Loc2 {
            loc1: SelectionProxy::from_puzzle_and_index(puzzle, self.cells[i]),
            loc2: SelectionProxy::from_puzzle_and_index(puzzle, self.cells[j]),
        }
    }

    fn make_loc2m(&self, puzzle: &Puzzle, i: usize, j: usize) -> (r: Loc2Mirrored)
        requires
            puzzle.wf(),
            self.cells_ok(*puzzle),
            i < self.cells@.len(),
            j < self.cells@.len(),
        ensures
            r == (Loc2Mirrored {
                loc1: proxy_spec(*puzzle, self.cells@[i as int]),
                loc2: proxy_spec(*puzzle, self.cells@[j as int]),
                loc2_p: proxy_spec(
                    *puzzle,
                    cell_reflected(self.cells@[j as int], self.cells@[i as int]),
                ),
            }),
    {
        let c1 = self.cells[i];
        let c2 = self.cells[j];
        let c2p = c2.reflect_loc_about(&c1);
        Loc2Mirrored {
            loc1: SelectionProxy::from_puzzle_and_index(puzzle, c1),
            loc2: SelectionProxy::from_puzzle_and_index(puzzle, c2),
            loc2_p: SelectionProxy::from_puzzle_and_index(puzzle, c2p),
        }
    }

    fn make_loc3m(&self, puzzle: &Puzzle, a: usize, b: usize, c: usize) -> (r: Loc3Mirrored)
        requires
            puzzle.wf(),
            self.cells_ok(*puzzle),
            a < self.cells@.len(),
            b < self.cells@.len(),
            c < self.cells@.len(),
        ensures
            r == (Loc3Mirrored {
                loc1: proxy_spec(*puzzle, self.cells@[a as int]),
                loc2: proxy_spec(*puzzle, self.cells@[b as int]),
                loc2_p: proxy_spec(
                    *puzzle,
                    cell_reflected(self.cells@[b as int], self.cells@[a as int]),
                ),
                loc3: proxy_spec(*puzzle, self.cells@[c as int]),
                loc3_p: proxy_spec(
                    *puzzle,
                    cell_reflected(self.cells@[c as int], self.cells@[a as int]),
                ),
            }),
    {
        let c1 = self.cells[a];
        let c2 = self.cells[b];
        let c3 = self.cells[c];
        let c2p = c2.reflect_loc_about(&c1);
        let c3p = c3.reflect_loc_about(&c1);
        Loc3Mirrored {
            loc1: SelectionProxy::from_puzzle_and_index(puzzle, c1),
            loc2: SelectionProxy::from_puzzle_and_index(puzzle, c2),
            loc2_p: SelectionProxy::from_puzzle_and_index(puzzle, c2p),
            loc3: SelectionProxy::from_puzzle_and_index(puzzle, c3),
            loc3_p: SelectionProxy::from_puzzle_and_index(puzzle, c3p),
        }
    }

    /// Every ordered pair of distinct window cells, as proxy snapshots, in
    /// rule-evaluation order.
    pub fn iter_perm_2s(&self, puzzle: &Puzzle) -> (r: Vec<Loc2>)
        requires
            puzzle.wf(),
            self.cells_ok(*puzzle),
            self.cells@.len() == 2 || self.cells@.len() == 3,
        ensures
            r@.len() == pairs_of(self.cells@.len() as int).len(),
            forall|k: int|
                0 <= k < r@.len() ==> #[trigger] r@[k] == (Loc2 {
                    loc1: proxy_spec(
                        *puzzle,
                        self.cells@[pairs_of(self.cells@.len() as int)[k].0],
                    ),
                    loc2: proxy_spec(
                        *puzzle,
                        self.cells@[pairs_of(self.cells@.len() as int)[k].1],
                    ),
                }),
    {
        let mut r: Vec<Loc2> = Vec::new();
        if self.cells.len() == 2 {
            r.push(self.make_loc2(puzzle, 0, 1));
            r.push(self.make_loc2(puzzle, 1, 0));
        } else {
            r.push(self.make_loc2(puzzle, 0, 1));
            r.push(self.make_loc2(puzzle, 0, 2));
            r.push(self.make_loc2(puzzle, 1, 0));
            r.push(self.make_loc2(puzzle, 1, 2));
            r.push(self.make_loc2(puzzle, 2, 0));
            r.push(self.make_loc2(puzzle, 2, 1));
        }
        r
    }

    /// Both ordered pairs of a 2-cell window, each with the second cell also
    /// reflected about the first.
    pub fn iter_reflected_2s(&self, puzzle: &Puzzle) -> (r: Vec<Loc2Mirrored>)
        requires
            puzzle.wf(),
            self.cells_ok(*puzzle),
            self.cells@.len() == 2,
        ensures
            r@.len() == 2,
            forall|k: int|
                0 <= k < 2 ==> #[trigger] r@[k] == (Loc2Mirrored {
                    loc1: proxy_spec(*puzzle, self.cells@[pairs_of(2)[k].0]),
                    loc2: proxy_spec(*puzzle, self.cells@[pairs_of(2)[k].1]),
                    loc2_p: proxy_spec(
                        *puzzle,
                        cell_reflected(
                            self.cells@[pairs_of(2)[k].1],
                            self.cells@[pairs_of(2)[k].0],
                        ),
                    ),
                }),
    {
        let mut r: Vec<Loc2Mirrored> = Vec::new();
        r.push(self.make_loc2m(puzzle, 0, 1));
        r.push(self.make_loc2m(puzzle, 1, 0));
        r
    }

    /// Every ordered triple of distinct cells of a 3-cell window, each with
    /// the second and third cells also reflected about the first.
    #[verifier::rlimit(60)]
    pub fn iter_reflected_3s(&self, puzzle: &Puzzle) -> (r: Vec<Loc3Mirrored>)
        requires
            puzzle.wf(),
            self.cells_ok(*puzzle),
            self.cells@.len() == 3,
        ensures
            r@.len() == 6,
            forall|k: int|
                0 <= k < 6 ==> #[trigger] r@[k] == (Loc3Mirrored {
                    loc1: proxy_spec(*puzzle, self.cells@[triples_of_3()[k].0]),
                    loc2: proxy_spec(*puzzle, self.cells@[triples_of_3()[k].1]),
                    loc2_p: proxy_spec(
                        *puzzle,
                        cell_reflected(
                            self.cells@[triples_of_3()[k].1],
                            self.cells@[triples_of_3()[k].0],
                        ),
                    ),
                    loc3: proxy_spec(*puzzle, self.cells@[triples_of_3()[k].2]),
                    loc3_p: proxy_spec(
                        *puzzle,
                        cell_reflected(
                            self.cells@[triples_of_3()[k].2],
                            self.cells@[triples_of_3()[k].0],
                        ),
                    ),
                }),
    {
        let mut r: Vec<Loc3Mirrored> = Vec::new();
        r.push(self.make_loc3m(puzzle, 0, 1, 2));
        r.push(self.make_loc3m(puzzle, 0, 2, 1));
        r.push(self.make_loc3m(puzzle, 1, 0, 2));
        r.push(self.make_loc3m(puzzle, 1, 2, 0));
        r.push(self.make_loc3m(puzzle, 2, 0, 1));
        r.push(self.make_loc3m(puzzle, 2, 1, 0));
        r
    }
}

/// What one clue evaluation step concludes: a provably impossible state, a
/// forced update, or nothing.
pub enum ClueOutcome {
    Contradiction(ClueContradiction),
    Forced(UpdateCellIndex),
    Nothing,
}

/// The first conclusive outcome of an ordered list of evaluations.
pub open spec fn first_outcome(s: Seq<ClueOutcome>) -> ClueOutcome
    decreases s.len(),
{
    if s.len() == 0 {
        ClueOutcome::Nothing
    } else if !(s[0] is Nothing) {
        s[0]
    } else {
        first_outcome(s.drop_first())
    }
}

pub proof fn lemma_first_outcome_skip(s: Seq<ClueOutcome>, i: int)
    requires
        0 <= i <= s.len(),
        forall|k: int| 0 <= k < i ==> (#[trigger] s[k]) is Nothing,
    ensures
        first_outcome(s) == first_outcome(s.skip(i)),
    decreases i,
{
    if i > 0 {
        assert(s.skip(0) =~= s);
        lemma_first_outcome_skip(s.drop_first(), i - 1);
        assert(s.drop_first().skip(i - 1) =~= s.skip(i));
    } else {
        assert(s.skip(0) =~= s);
    }
}

pub proof fn lemma_first_outcome_at(s: Seq<ClueOutcome>, i: int)
    requires
        0 <= i < s.len(),
        forall|k: int| 0 <= k < i ==> (#[trigger] s[k]) is Nothing,
        !((s[i]) is Nothing),
    ensures
        first_outcome(s) == s[i],
{
    lemma_first_outcome_skip(s, i);
    assert(s.skip(i)[0] == s[i]);
}

pub proof fn lemma_first_outcome_no_contradiction(s: Seq<ClueOutcome>)
    requires
        forall|k: int| 0 <= k < s.len() ==> !((#[trigger] s[k]) is Contradiction),
    ensures
        !(first_outcome(s) is Contradiction),
    decreases s.len(),
{
    if s.len() > 0 && (s[0]) is Nothing {
        lemma_first_outcome_no_contradiction(s.drop_first());
    }
}

pub proof fn lemma_first_outcome_mem(s: Seq<ClueOutcome>)
    requires
        !(first_outcome(s) is Nothing),
    ensures
        exists|k: int| 0 <= k < s.len() && #[trigger] s[k] == first_outcome(s),
    decreases s.len(),
{
    if s.len() > 0 {
        if !(s[0] is Nothing) {
            assert(s[0] == first_outcome(s));
        } else {
            lemma_first_outcome_mem(s.drop_first());
            let k = choose|k: int|
                0 <= k < s.drop_first().len() && #[trigger] s.drop_first()[k] == first_outcome(
                    s.drop_first(),
                );
            assert(s[k + 1] == first_outcome(s));
        }
    }
}

pub proof fn lemma_first_outcome_none(s: Seq<ClueOutcome>)
    requires
        forall|k: int| 0 <= k < s.len() ==> (#[trigger] s[k]) is Nothing,
    ensures
        first_outcome(s) is Nothing,
{
    lemma_first_outcome_skip(s, s.len() as int);
    assert(s.skip(s.len() as int) =~= Seq::<ClueOutcome>::empty());
}

/// The whole window slid by a shift.
pub open spec fn shifted_cells(cells: Seq<CellLocIndex>, s: int) -> Seq<CellLocIndex> {
    Seq::new(cells.len(), |m: int| cell_shifted(cells[m], s))
}

/// The shift at enumeration position `k` for a window of the given extent:
/// window left edges visit every column from `-(max-min)` through the
/// grid's rightmost column.
pub open spec fn shift_at(cells: Seq<CellLocIndex>, k: int) -> int {
    k - (cells_max_col(cells) - cells_min_col(cells)) - cells_min_col(cells)
}

/// How many shifts are enumerated for a window over a grid.
pub open spec fn shift_count(p: Puzzle, cells: Seq<CellLocIndex>) -> int {
    cells_max_col(cells) - cells_min_col(cells) + p.max_column.0 + 1
}

/// How a clue's result relates to the evaluation outcome it must equal.
pub open spec fn advance_matches(
    r: Result<PuzzleAdvance, ClueContradiction>,
    o: ClueOutcome,
) -> bool {
    match o {
        ClueOutcome::Contradiction(c) => r == Err::<PuzzleAdvance, ClueContradiction>(c),
        ClueOutcome::Forced(u) => r == Ok::<PuzzleAdvance, ClueContradiction>(Some(u)),
        ClueOutcome::Nothing => r == Ok::<PuzzleAdvance, ClueContradiction>(
            None::<UpdateCellIndex>,
        ),
    }
}

/// A forced update a clue returns names a real row, and a slot within that
/// row's width, so the grid can apply it.
pub open spec fn forced_in_range(r: Result<PuzzleAdvance, ClueContradiction>, p: Puzzle) -> bool {
    r matches Ok(Some(u)) ==> (u.index.loc.row.0 as int) < p.n_rows_spec() && (u.index.index.0
        as int) < p.rows@[u.index.loc.row.0 as int].len_spec()
}

/// The ordered rules of the same-column clue on one ordered pair: a pinned
/// partner of a disabled cell is a contradiction; a pinned partner forces a
/// pin; a fully impossible partner forces a clear.
pub open spec fn same_column_pair_outcome(l1: SelectionProxy, l2: SelectionProxy) -> ClueOutcome {
    if !l1.is_enabled && l2.is_solo {
        ClueOutcome::Contradiction(ClueContradiction { loc1: l1.index_, loc2: l2.index_ })
    } else if l1.is_enabled && !l1.is_solo && l2.is_solo {
        ClueOutcome::Forced(
            UpdateCellIndex {
                index: l1.index_,
                op: UpdateCellIndexOperation::Solo,
                explanation: Some(
                    ClueExplanation::SameColumnSolo { loc1: l1.index_, loc2: l2.index_ },
                ),
            },
        )
    } else if l1.is_enabled && !l1.is_solo && !l2.is_enabled {
        ClueOutcome::Forced(
            UpdateCellIndex {
                index: l1.index_,
                op: UpdateCellIndexOperation::Clear,
                explanation: Some(
                    ClueExplanation::SameColumnClear { loc1: l1.index_, loc2: l2.index_ },
                ),
            },
        )
    } else {
        ClueOutcome::Nothing
    }
}

/// The same-column rules over every ordered pair of one window
/// instantiation, in evaluation order.
pub open spec fn same_column_window_outcomes(p: Puzzle, cells: Seq<CellLocIndex>) -> Seq<
    ClueOutcome,
> {
    Seq::new(
        pairs_of(cells.len() as int).len(),
        |k: int|
            same_column_pair_outcome(
                proxy_spec(p, cells[pairs_of(cells.len() as int)[k].0]),
                proxy_spec(p, cells[pairs_of(cells.len() as int)[k].1]),
            ),
    )
}

/// The same-column clue's conclusion at the window's `k`-th shift.
pub open spec fn same_column_shift_outcome(
    p: Puzzle,
    cells0: Seq<CellLocIndex>,
    k: int,
) -> ClueOutcome {
    first_outcome(same_column_window_outcomes(p, shifted_cells(cells0, shift_at(cells0, k))))
}

/// The same-column clue's overall conclusion: the first conclusive outcome
/// over all shifts, pairs and rules, in order.
pub open spec fn same_column_outcome(p: Puzzle, cells0: Seq<CellLocIndex>) -> ClueOutcome {
    first_outcome(
        Seq::new(
            shift_count(p, cells0) as nat,
            |k: int| same_column_shift_outcome(p, cells0, k),
        ),
    )
}

/// A clue that two or three cells, one per named row, share one column.
#[derive(Clone, Copy, Debug, PartialEq, Eq, Structural)]
pub struct SameColumnClue {
    pub loc: CellLoc,
    pub row2: LRow,
    pub row3: Option<LRow>,
}

impl SameColumnClue {
    pub open spec fn wf(&self, p: Puzzle) -> bool {
        &&& (self.loc.row.0 as int) < p.n_rows_spec()
        &&& (self.row2.0 as int) < p.n_rows_spec()
        &&& (self.row3 matches Some(r3) ==> (r3.0 as int) < p.n_rows_spec())
        &&& 0 <= self.loc.col.0
        &&& self.loc.col.0 < p.rows@[self.loc.row.0 as int].len_spec()
        &&& self.loc.col.0 < p.rows@[self.row2.0 as int].len_spec()
        &&& (self.row3 matches Some(r3) ==> self.loc.col.0 < p.rows@[r3.0 as int].len_spec())
    }

    /// The clue's geometric template: the hidden answers at its locations,
    /// decayed to slot space.
    pub open spec fn base_cells(&self, p: Puzzle) -> Seq<CellLocIndex> {
        let c1 = CellLocIndex {
            loc: self.loc,
            index: LInd(p.rows@[self.loc.row.0 as int].answers()[self.loc.col.0 as int].0),
        };
        let c2 = CellLocIndex {
            loc: CellLoc { row: self.row2, col: self.loc.col },
            index: LInd(p.rows@[self.row2.0 as int].answers()[self.loc.col.0 as int].0),
        };
        match self.row3 {
            Some(r3) => {
                let c3 = CellLocIndex {
                    loc: CellLoc { row: r3, col: self.loc.col },
                    index: LInd(p.rows@[r3.0 as int].answers()[self.loc.col.0 as int].0),
                };
                seq![c1, c2, c3]
            },
            None => seq![c1, c2],
        }
    }

    /// A clue over two or three distinct random rows at one random column;
    /// nothing when the grid has fewer than two rows.
    pub fn new_random(rng: &mut ChaCha8Rng, puzzle: &Puzzle) -> (r: Option<SameColumnClue>)
        requires
            puzzle.wf(),
            puzzle.full_width(),
        ensures
            (r is Some) <==> puzzle.n_rows_spec() >= 2,
            r matches Some(c) ==> c.wf(*puzzle) && c.row2 != c.loc.row,
            r matches Some(c) ==> (c.row3 matches Some(r3) ==> r3 != c.loc.row && r3 != c.row2),
    {
        let rows = puzzle.shuffled_rows(rng);
        if rows.len() == 0 {
            return None;
        }
        let first_row = rows[0];
        let col = puzzle.random_column(rng);
        let loc = CellLoc { row: first_row, col };
        if rows.len() < 2 {
            return None;
        }
        let row2 = rows[1];
        let row3 = if random_ratio(rng, 1, 3) {
            if rows.len() >= 3 {
                Some(rows[2])
            } else {
                None
            }
        } else {
            None
        };
        Some(SameColumnClue { loc, row2, row3 })
    }

    fn loc2(&self) -> (r: CellLoc)
        ensures
            r == (CellLoc { row: self.row2, col: self.loc.col }),
    {
        CellLoc { row: self.row2, ..self.loc }
    }

    fn loc3(&self) -> (r: Option<CellLoc>)
        ensures
            match self.row3 {
                Some(r3) => r == Some(CellLoc { row: r3, col: self.loc.col }),
                None => r is None,
            },
    {
        match self.row3 {
            Some(r3) => Some(CellLoc { row: r3, ..self.loc }),
            None => None,
        }
    }

    /// The clue's deduction step: the first forced update its rules prove
    /// at any shift of its template, or the first contradiction met on the
    /// way, or nothing.
    pub fn advance_puzzle(&self, puzzle: &Puzzle) -> (r: Result<PuzzleAdvance, ClueContradiction>)
        requires
            puzzle.wf(),
            self.wf(*puzzle),
        ensures
            advance_matches(r, same_column_outcome(*puzzle, self.base_cells(*puzzle))),
            forced_in_range(r, *puzzle),
    {
        let ghost cells0 = self.base_cells(*puzzle);
        let mut resolver = ImplicationResolver::new_unit();
        resolver.add_answer(puzzle, self.loc);
        resolver.add_answer(puzzle, self.loc2());
        if let Some(loc3) = self.loc3() {
            resolver.add_answer(puzzle, loc3);
        }
        proof {
            assert(resolver.cells@ =~= cells0);
            assert forall|m: int| 0 <= m < resolver.cells@.len() implies {
                let c = #[trigger] resolver.cells@[m];
                &&& (c.loc.row.0 as int) < puzzle.n_rows_spec()
                &&& -3 * (MAX_DIM as int) <= c.loc.col.0 <= 3 * (MAX_DIM as int)
                &&& (c.index.0 as int) < puzzle.rows@[c.loc.row.0 as int].len_spec()
                &&& 0 <= c.loc.col.0 <= MAX_DIM
            } by {
                assert(puzzle.rows@[self.loc.row.0 as int].wf());
            }
        }
        let subs = resolver.iter_all_cols(puzzle);
        let ghost nshifts = shift_count(*puzzle, cells0);
        let ghost shiftouts = Seq::new(
            nshifts as nat,
            |k: int| same_column_shift_outcome(*puzzle, cells0, k),
        );
        let mut k: usize = 0;
        while k < subs.len()
            invariant
                puzzle.wf(),
                self.wf(*puzzle),
                cells0 == self.base_cells(*puzzle),
                cells0.len() == 2 || cells0.len() == 3,
                nshifts == shift_count(*puzzle, cells0),
                shiftouts == Seq::new(
                    nshifts as nat,
                    |x: int| same_column_shift_outcome(*puzzle, cells0, x),
                ),
                subs@.len() == nshifts,
                forall|x: int|
                    0 <= x < subs@.len() ==> (#[trigger] subs@[x]).cells@ == shifted_cells(
                        cells0,
                        shift_at(cells0, x),
                    ) && subs@[x].cells_ok(*puzzle),
                k <= subs@.len(),
                forall|x: int|
                    0 <= x < k ==> (#[trigger] same_column_shift_outcome(
                        *puzzle,
                        cells0,
                        x,
                    )) is Nothing,
            decreases subs@.len() - k,
        {
            let sub = &subs[k];
            let pairs = sub.iter_perm_2s(puzzle);
            let ghost wcells = subs@[k as int].cells@;
            let ghost wouts = same_column_window_outcomes(*puzzle, wcells);
            let mut pk: usize = 0;
            while pk < pairs.len()
                invariant
                    puzzle.wf(),
                    self.wf(*puzzle),
                    cells0 == self.base_cells(*puzzle),
                    nshifts == shift_count(*puzzle, cells0),
                    shiftouts == Seq::new(
                        nshifts as nat,
                        |x: int| same_column_shift_outcome(*puzzle, cells0, x),
                    ),
                    subs@.len() == nshifts,
                    forall|x: int|
                        0 <= x < k ==> (#[trigger] same_column_shift_outcome(
                            *puzzle,
                            cells0,
                            x,
                        )) is Nothing,
                    sub == &subs@[k as int],
                    0 <= k < subs@.len(),
                    wcells == subs@[k as int].cells@,
                    wcells == shifted_cells(cells0, shift_at(cells0, k as int)),
                    subs@[k as int].cells_ok(*puzzle),
                    wouts == same_column_window_outcomes(*puzzle, wcells),
                    wcells.len() == 2 || wcells.len() == 3,
                    pairs@.len() == pairs_of(wcells.len() as int).len(),
                    wouts.len() == pairs@.len(),
                    forall|x: int|
                        0 <= x < pairs@.len() ==> #[trigger] pairs@[x] == (Loc2 {
                            loc1: proxy_spec(
                                *puzzle,
                                wcells[pairs_of(wcells.len() as int)[x].0],
                            ),
                            loc2: proxy_spec(
                                *puzzle,
                                wcells[pairs_of(wcells.len() as int)[x].1],
                            ),
                        }),
                    pk <= pairs@.len(),
                    forall|x: int| 0 <= x < pk ==> (#[trigger] wouts[x]) is Nothing,
                decreases pairs@.len() - pk,
            {
                let l = pairs[pk];
                proof {
                    assert(wouts[pk as int] == same_column_pair_outcome(l.loc1, l.loc2));
                }
                if !l.loc1.is_enabled && l.loc2.is_solo {
                    let c = ClueContradiction { loc1: l.loc1.index_, loc2: l.loc2.index_ };
                    proof {
                        lemma_first_outcome_at(wouts, pk as int);
                        lemma_first_outcome_at(shiftouts, k as int);
                    }
                    return Err(c);
                }
                if l.loc1.is_enabled_not_solo() && l.loc2.is_solo {
                    let u = l.loc1.index_.as_solo().with_explanation(
                        ClueExplanation::SameColumnSolo { loc1: l.loc1.index_, loc2: l.loc2.index_ },
                    );
                    proof {
                        lemma_first_outcome_at(wouts, pk as int);
                        lemma_first_outcome_at(shiftouts, k as int);
                        let i = pairs_of(wcells.len() as int)[pk as int].0;
                        assert(subs@[k as int].cells_ok(*puzzle));
                        assert(l.loc1.index_ == wcells[i]);
                    }
                    return Ok(Some(u));
                }
                if l.loc1.is_enabled_not_solo() && !l.loc2.is_enabled {
                    let u = l.loc1.index_.as_clear().with_explanation(
                        ClueExplanation::SameColumnClear {
                            loc1: l.loc1.index_,
                            loc2: l.loc2.index_,
                        },
                    );
                    proof {
                        lemma_first_outcome_at(wouts, pk as int);
                        lemma_first_outcome_at(shiftouts, k as int);
                        let i = pairs_of(wcells.len() as int)[pk as int].0;
                        assert(subs@[k as int].cells_ok(*puzzle));
                        assert(l.loc1.index_ == wcells[i]);
                    }
                    return Ok(Some(u));
                }
                proof {
                    assert((wouts[pk as int]) is Nothing);
                }
                pk += 1;
            }
            proof {
                lemma_first_outcome_none(wouts);
                assert((same_column_shift_outcome(*puzzle, cells0, k as int)) is Nothing);
            }
            k += 1;
        }
        proof {
            lemma_first_outcome_none(shiftouts);
        }
        Ok(None)
    }
}

/// How a clue's optional result relates to the evaluation outcome it must
/// equal, for clues whose rules cannot meet a contradiction.
pub open spec fn option_matches(r: PuzzleAdvance, o: ClueOutcome) -> bool {
    match o {
        ClueOutcome::Forced(u) => r == Some(u),
        _ => r is None,
    }
}

pub open spec fn forced_option_in_range(r: PuzzleAdvance, p: Puzzle) -> bool {
    r matches Some(u) ==> (u.index.loc.row.0 as int) < p.n_rows_spec() && (u.index.index.0
        as int) < p.rows@[u.index.loc.row.0 as int].len_spec()
}

/// The adjacent-column rule on one ordered pair with its mirror: when the
/// candidate at the pivot would need a partner at the clue's distance on
/// one side or the other and both sides are impossible, the pivot clears.
pub open spec fn adjacent_pair_outcome(
    l1: SelectionProxy,
    l2: SelectionProxy,
    l2p: SelectionProxy,
) -> ClueOutcome {
    if l1.is_enabled && !l1.is_solo && !l2.is_enabled && !l2p.is_enabled {
        ClueOutcome::Forced(
            UpdateCellIndex {
                index: l1.index_,
                op: UpdateCellIndexOperation::Clear,
                explanation: Some(
                    ClueExplanation::AdjacentColumnClear {
                        loc1: l1.index_,
                        loc2: l2.index_,
                        loc2_p: l2p.index_,
                    },
                ),
            },
        )
    } else {
        ClueOutcome::Nothing
    }
}

pub open spec fn adjacent_window_outcomes(p: Puzzle, cells: Seq<CellLocIndex>) -> Seq<
    ClueOutcome,
> {
    Seq::new(
        2,
        |k: int|
            adjacent_pair_outcome(
                proxy_spec(p, cells[pairs_of(2)[k].0]),
                proxy_spec(p, cells[pairs_of(2)[k].1]),
                proxy_spec(p, cell_reflected(cells[pairs_of(2)[k].1], cells[pairs_of(2)[k].0])),
            ),
    )
}

pub open spec fn adjacent_shift_outcome(
    p: Puzzle,
    cells0: Seq<CellLocIndex>,
    k: int,
) -> ClueOutcome {
    first_outcome(adjacent_window_outcomes(p, shifted_cells(cells0, shift_at(cells0, k))))
}

pub open spec fn adjacent_outcome(p: Puzzle, cells0: Seq<CellLocIndex>) -> ClueOutcome {
    first_outcome(
        Seq::new(shift_count(p, cells0) as nat, |k: int| adjacent_shift_outcome(p, cells0, k)),
    )
}

/// A clue that two cells sit a fixed number of columns apart, on either
/// side.
#[derive(Clone, Copy, Debug, PartialEq, Eq, Structural)]
pub struct AdjacentColumnClue {
    pub loc1: CellLoc,
    pub loc2: CellLoc,
}

impl AdjacentColumnClue {
    pub open spec fn wf(&self, p: Puzzle) -> bool {
        &&& (self.loc1.row.0 as int) < p.n_rows_spec()
        &&& (self.loc2.row.0 as int) < p.n_rows_spec()
        &&& 0 <= self.loc1.col.0 < p.rows@[self.loc1.row.0 as int].len_spec()
        &&& 0 <= self.loc2.col.0 < p.rows@[self.loc2.row.0 as int].len_spec()
    }

    pub open spec fn base_cells(&self, p: Puzzle) -> Seq<CellLocIndex> {
        seq![
            CellLocIndex {
                loc: self.loc1,
                index: LInd(
                    p.rows@[self.loc1.row.0 as int].answers()[self.loc1.col.0 as int].0,
                ),
            },
            CellLocIndex {
                loc: self.loc2,
                index: LInd(
                    p.rows@[self.loc2.row.0 as int].answers()[self.loc2.col.0 as int].0,
                ),
            },
        ]
    }

    /// A clue over two distinct random columns, each in a random row.
    pub fn new_random(rng: &mut ChaCha8Rng, puzzle: &Puzzle) -> (r: Option<AdjacentColumnClue>)
        requires
            puzzle.wf(),
            puzzle.full_width(),
            puzzle.n_rows_spec() >= 1,
        ensures
            (r is Some) <==> puzzle.max_column.0 >= 1,
            r matches Some(c) ==> c.wf(*puzzle) && c.loc1.col != c.loc2.col,
    {
        let cols = puzzle.shuffled_cols(rng);
        if cols.len() < 2 {
            return None;
        }
        Some(
            AdjacentColumnClue {
                loc1: CellLoc { row: puzzle.random_row(rng), col: cols[0] },
                loc2: CellLoc { row: puzzle.random_row(rng), col: cols[1] },
            },
        )
    }

    /// The number of whole columns between the clue's two locations.
    pub fn colspan(&self) -> (r: usize)
        requires
            col_gap(self.loc1.col.0 as int, self.loc2.col.0 as int) <= isize::MAX,
        ensures
            r == if col_gap(self.loc1.col.0 as int, self.loc2.col.0 as int) >= 1 {
                col_gap(self.loc1.col.0 as int, self.loc2.col.0 as int) - 1
            } else {
                0int
            },
    {
        self.loc1.columns_between(&self.loc2)
    }

    /// The clue's deduction step: the first forced clear its rule proves at
    /// any shift of its template, or nothing.
    pub fn advance_puzzle(&self, puzzle: &Puzzle) -> (r: PuzzleAdvance)
        requires
            puzzle.wf(),
            self.wf(*puzzle),
        ensures
            option_matches(r, adjacent_outcome(*puzzle, self.base_cells(*puzzle))),
            forced_option_in_range(r, *puzzle),
    {
        let ghost cells0 = self.base_cells(*puzzle);
        let mut resolver = ImplicationResolver::new_unit();
        resolver.add_answer(puzzle, self.loc1);
        resolver.add_answer(puzzle, self.loc2);
        proof {
            assert(resolver.cells@ =~= cells0);
            assert forall|m: int| 0 <= m < resolver.cells@.len() implies {
                let c = #[trigger] resolver.cells@[m];
                &&& (c.loc.row.0 as int) < puzzle.n_rows_spec()
                &&& -3 * (MAX_DIM as int) <= c.loc.col.0 <= 3 * (MAX_DIM as int)
                &&& (c.index.0 as int) < puzzle.rows@[c.loc.row.0 as int].len_spec()
                &&& 0 <= c.loc.col.0 <= MAX_DIM
            } by {
                assert(puzzle.rows@[self.loc1.row.0 as int].wf());
                assert(puzzle.rows@[self.loc2.row.0 as int].wf());
            }
        }
        let subs = resolver.iter_all_cols(puzzle);
        let ghost nshifts = shift_count(*puzzle, cells0);
        let ghost shiftouts = Seq::new(
            nshifts as nat,
            |k: int| adjacent_shift_outcome(*puzzle, cells0, k),
        );
        let mut k: usize = 0;
        while k < subs.len()
            invariant
                puzzle.wf(),
                self.wf(*puzzle),
                cells0 == self.base_cells(*puzzle),
                cells0.len() == 2,
                nshifts == shift_count(*puzzle, cells0),
                shiftouts == Seq::new(
                    nshifts as nat,
                    |x: int| adjacent_shift_outcome(*puzzle, cells0, x),
                ),
                subs@.len() == nshifts,
                forall|x: int|
                    0 <= x < subs@.len() ==> (#[trigger] subs@[x]).cells@ == shifted_cells(
                        cells0,
                        shift_at(cells0, x),
                    ) && subs@[x].cells_ok(*puzzle),
                k <= subs@.len(),
                forall|x: int|
                    0 <= x < k ==> (#[trigger] adjacent_shift_outcome(
                        *puzzle,
                        cells0,
                        x,
                    )) is Nothing,
            decreases subs@.len() - k,
        {
            let sub = &subs[k];
            let pairs = sub.iter_reflected_2s(puzzle);
            let ghost wcells = subs@[k as int].cells@;
            let ghost wouts = adjacent_window_outcomes(*puzzle, wcells);
            let mut pk: usize = 0;
            while pk < pairs.len()
                invariant
                    puzzle.wf(),
                    self.wf(*puzzle),
                    cells0 == self.base_cells(*puzzle),
                    nshifts == shift_count(*puzzle, cells0),
                    shiftouts == Seq::new(
                        nshifts as nat,
                        |x: int| adjacent_shift_outcome(*puzzle, cells0, x),
                    ),
                    subs@.len() == nshifts,
                    forall|x: int|
                        0 <= x < k ==> (#[trigger] adjacent_shift_outcome(
                            *puzzle,
                            cells0,
                            x,
                        )) is Nothing,
                    0 <= k < subs@.len(),
                    wcells == subs@[k as int].cells@,
                    wcells == shifted_cells(cells0, shift_at(cells0, k as int)),
                    subs@[k as int].cells_ok(*puzzle),
                    wouts == adjacent_window_outcomes(*puzzle, wcells),
                    wcells.len() == 2,
                    pairs@.len() == 2,
                    wouts.len() == 2,
                    forall|x: int|
                        0 <= x < 2 ==> #[trigger] pairs@[x] == (Loc2Mirrored {
                            loc1: proxy_spec(*puzzle, wcells[pairs_of(2)[x].0]),
                            loc2: proxy_spec(*puzzle, wcells[pairs_of(2)[x].1]),
                            loc2_p: proxy_spec(
                                *puzzle,
                                cell_reflected(wcells[pairs_of(2)[x].1], wcells[pairs_of(2)[x].0]),
                            ),
                        }),
                    pk <= 2,
                    forall|x: int| 0 <= x < pk ==> (#[trigger] wouts[x]) is Nothing,
                decreases pairs@.len() - pk,
            {
                let l = pairs[pk];
                proof {
                    assert(wouts[pk as int] == adjacent_pair_outcome(l.loc1, l.loc2, l.loc2_p));
                }
                if l.loc1.is_enabled_not_solo() && !l.loc2.is_enabled && !l.loc2_p.is_enabled {
                    let u = l.loc1.index_.as_clear().with_explanation(
                        ClueExplanation::AdjacentColumnClear {
                            loc1: l.loc1.index_,
                            loc2: l.loc2.index_,
                            loc2_p: l.loc2_p.index_,
                        },
                    );
                    proof {
                        lemma_first_outcome_at(wouts, pk as int);
                        lemma_first_outcome_at(shiftouts, k as int);
                        let i = pairs_of(2)[pk as int].0;
                        assert(subs@[k as int].cells_ok(*puzzle));
                        assert(l.loc1.index_ == wcells[i]);
                    }
                    return Some(u);
                }
                proof {
                    assert((wouts[pk as int]) is Nothing);
                }
                pk += 1;
            }
            proof {
                lemma_first_outcome_none(wouts);
                assert((adjacent_shift_outcome(*puzzle, cells0, k as int)) is Nothing);
            }
            k += 1;
        }
        proof {
            lemma_first_outcome_none(shiftouts);
        }
        None
    }
}

/// The between-columns rule on one ordered triple with its mirror: when the
/// centre candidate would need both outer partners on one side or the
/// other, and neither reading has both enabled, the centre clears.
pub open spec fn between_triple_outcome(
    l1: SelectionProxy,
    l2: SelectionProxy,
    l2p: SelectionProxy,
    l3: SelectionProxy,
    l3p: SelectionProxy,
) -> ClueOutcome {
    if l1.is_enabled && !l1.is_solo && (!l2.is_enabled || !l3.is_enabled) && (!l2p.is_enabled
        || !l3p.is_enabled) {
        ClueOutcome::Forced(
            UpdateCellIndex {
                index: l1.index_,
                op: UpdateCellIndexOperation::Clear,
                explanation: None,
            },
        )
    } else {
        ClueOutcome::Nothing
    }
}

pub open spec fn between_window_outcomes(p: Puzzle, cells: Seq<CellLocIndex>) -> Seq<ClueOutcome> {
    Seq::new(
        6,
        |k: int|
            between_triple_outcome(
                proxy_spec(p, cells[triples_of_3()[k].0]),
                proxy_spec(p, cells[triples_of_3()[k].1]),
                proxy_spec(
                    p,
                    cell_reflected(cells[triples_of_3()[k].1], cells[triples_of_3()[k].0]),
                ),
                proxy_spec(p, cells[triples_of_3()[k].2]),
                proxy_spec(
                    p,
                    cell_reflected(cells[triples_of_3()[k].2], cells[triples_of_3()[k].0]),
                ),
            ),
    )
}

pub open spec fn between_shift_outcome(
    p: Puzzle,
    cells0: Seq<CellLocIndex>,
    k: int,
) -> ClueOutcome {
    first_outcome(between_window_outcomes(p, shifted_cells(cells0, shift_at(cells0, k))))
}

pub open spec fn between_outcome(p: Puzzle, cells0: Seq<CellLocIndex>) -> ClueOutcome {
    first_outcome(
        Seq::new(shift_count(p, cells0) as nat, |k: int| between_shift_outcome(p, cells0, k)),
    )
}

/// A clue that one cell sits in a column strictly between two others'.
#[derive(Clone, Copy, Debug, PartialEq, Eq, Structural)]
pub struct BetweenColumnsClue {
    pub loc1: CellLoc,
    pub loc2: CellLoc,
    pub loc3: CellLoc,
}

impl BetweenColumnsClue {
    pub open spec fn wf(&self, p: Puzzle) -> bool {
        &&& (self.loc1.row.0 as int) < p.n_rows_spec()
        &&& (self.loc2.row.0 as int) < p.n_rows_spec()
        &&& (self.loc3.row.0 as int) < p.n_rows_spec()
        &&& 0 <= self.loc1.col.0 < p.rows@[self.loc1.row.0 as int].len_spec()
        &&& 0 <= self.loc2.col.0 < p.rows@[self.loc2.row.0 as int].len_spec()
        &&& 0 <= self.loc3.col.0 < p.rows@[self.loc3.row.0 as int].len_spec()
    }

    pub open spec fn base_cells(&self, p: Puzzle) -> Seq<CellLocIndex> {
        seq![
            CellLocIndex {
                loc: self.loc1,
                index: LInd(
                    p.rows@[self.loc1.row.0 as int].answers()[self.loc1.col.0 as int].0,
                ),
            },
            CellLocIndex {
                loc: self.loc2,
                index: LInd(
                    p.rows@[self.loc2.row.0 as int].answers()[self.loc2.col.0 as int].0,
                ),
            },
            CellLocIndex {
                loc: self.loc3,
                index: LInd(
                    p.rows@[self.loc3.row.0 as int].answers()[self.loc3.col.0 as int].0,
                ),
            },
        ]
    }

    /// A clue over three distinct random columns in ascending order, each
    /// in a random row; nothing when the grid is under three columns wide.
    pub fn new_random(rng: &mut ChaCha8Rng, puzzle: &Puzzle) -> (r: Option<BetweenColumnsClue>)
        requires
            puzzle.wf(),
            puzzle.full_width(),
            puzzle.n_rows_spec() >= 1,
        ensures
            (r is Some) <==> puzzle.max_column.0 + 1 >= 3,
            r matches Some(c) ==> c.wf(*puzzle) && c.loc1.col.0 < c.loc2.col.0 < c.loc3.col.0,
    {
        let n_cols = (puzzle.max_column().0 as usize) + 1;
        let sampled = sample_three_distinct(rng, n_cols);
        match sampled {
            None => None,
            Some((a, b, c)) => {
                let (a, b) = if a <= b {
                    (a, b)
                } else {
                    (b, a)
                };
                let (b, c) = if b <= c {
                    (b, c)
                } else {
                    (c, b)
                };
                let (a, b) = if a <= b {
                    (a, b)
                } else {
                    (b, a)
                };
                Some(
                    BetweenColumnsClue {
                        loc1: CellLoc { row: puzzle.random_row(rng), col: LCol(a as isize) },
                        loc2: CellLoc { row: puzzle.random_row(rng), col: LCol(b as isize) },
                        loc3: CellLoc { row: puzzle.random_row(rng), col: LCol(c as isize) },
                    },
                )
            },
        }
    }

    /// The clue's deduction step: the first forced clear its rule proves at
    /// any shift of its template, or nothing.
    #[verifier::rlimit(60)]
    pub fn advance_puzzle(&self, puzzle: &Puzzle) -> (r: PuzzleAdvance)
        requires
            puzzle.wf(),
            self.wf(*puzzle),
        ensures
            option_matches(r, between_outcome(*puzzle, self.base_cells(*puzzle))),
            forced_option_in_range(r, *puzzle),
    {
        let ghost cells0 = self.base_cells(*puzzle);
        let mut resolver = ImplicationResolver::new_unit();
        resolver.add_answer(puzzle, self.loc1);
        resolver.add_answer(puzzle, self.loc2);
        resolver.add_answer(puzzle, self.loc3);
        proof {
            assert(resolver.cells@ =~= cells0);
            assert forall|m: int| 0 <= m < resolver.cells@.len() implies {
                let c = #[trigger] resolver.cells@[m];
                &&& (c.loc.row.0 as int) < puzzle.n_rows_spec()
                &&& -3 * (MAX_DIM as int) <= c.loc.col.0 <= 3 * (MAX_DIM as int)
                &&& (c.index.0 as int) < puzzle.rows@[c.loc.row.0 as int].len_spec()
                &&& 0 <= c.loc.col.0 <= MAX_DIM
            } by {
                assert(puzzle.rows@[self.loc1.row.0 as int].wf());
                assert(puzzle.rows@[self.loc2.row.0 as int].wf());
                assert(puzzle.rows@[self.loc3.row.0 as int].wf());
            }
        }
        let subs = resolver.iter_all_cols(puzzle);
        let ghost nshifts = shift_count(*puzzle, cells0);
        let ghost shiftouts = Seq::new(
            nshifts as nat,
            |k: int| between_shift_outcome(*puzzle, cells0, k),
        );
        let mut k: usize = 0;
        while k < subs.len()
            invariant
                puzzle.wf(),
                self.wf(*puzzle),
                cells0 == self.base_cells(*puzzle),
                cells0.len() == 3,
                nshifts == shift_count(*puzzle, cells0),
                shiftouts == Seq::new(
                    nshifts as nat,
                    |x: int| between_shift_outcome(*puzzle, cells0, x),
                ),
                subs@.len() == nshifts,
                forall|x: int|
                    0 <= x < subs@.len() ==> (#[trigger] subs@[x]).cells@ == shifted_cells(
                        cells0,
                        shift_at(cells0, x),
                    ) && subs@[x].cells_ok(*puzzle),
                k <= subs@.len(),
                forall|x: int|
                    0 <= x < k ==> (#[trigger] between_shift_outcome(
                        *puzzle,
                        cells0,
                        x,
                    )) is Nothing,
            decreases subs@.len() - k,
        {
            let sub = &subs[k];
            let triples = sub.iter_reflected_3s(puzzle);
            let ghost wcells = subs@[k as int].cells@;
            let ghost wouts = between_window_outcomes(*puzzle, wcells);
            let mut pk: usize = 0;
            while pk < triples.len()
                invariant
                    puzzle.wf(),
                    self.wf(*puzzle),
                    cells0 == self.base_cells(*puzzle),
                    nshifts == shift_count(*puzzle, cells0),
                    shiftouts == Seq::new(
                        nshifts as nat,
                        |x: int| between_shift_outcome(*puzzle, cells0, x),
                    ),
                    subs@.len() == nshifts,
                    forall|x: int|
                        0 <= x < k ==> (#[trigger] between_shift_outcome(
                            *puzzle,
                            cells0,
                            x,
                        )) is Nothing,
                    0 <= k < subs@.len(),
                    wcells == subs@[k as int].cells@,
                    wcells == shifted_cells(cells0, shift_at(cells0, k as int)),
                    subs@[k as int].cells_ok(*puzzle),
                    wouts == between_window_outcomes(*puzzle, wcells),
                    wcells.len() == 3,
                    triples@.len() == 6,
                    wouts.len() == 6,
                    forall|x: int|
                        0 <= x < 6 ==> #[trigger] triples@[x] == (Loc3Mirrored {
                            loc1: proxy_spec(*puzzle, wcells[triples_of_3()[x].0]),
                            loc2: proxy_spec(*puzzle, wcells[triples_of_3()[x].1]),
                            loc2_p: proxy_spec(
                                *puzzle,
                                cell_reflected(
                                    wcells[triples_of_3()[x].1],
                                    wcells[triples_of_3()[x].0],
                                ),
                            ),
                            loc3: proxy_spec(*puzzle, wcells[triples_of_3()[x].2]),
                            loc3_p: proxy_spec(
                                *puzzle,
                                cell_reflected(
                                    wcells[triples_of_3()[x].2],
                                    wcells[triples_of_3()[x].0],
                                ),
                            ),
                        }),
                    pk <= 6,
                    forall|x: int| 0 <= x < pk ==> (#[trigger] wouts[x]) is Nothing,
                decreases triples@.len() - pk,
            {
                let l = triples[pk];
                proof {
                    assert(wouts[pk as int] == between_triple_outcome(
                        l.loc1,
                        l.loc2,
                        l.loc2_p,
                        l.loc3,
                        l.loc3_p,
                    ));
                }
                let fwd = l.as_3s();
                if l.loc1.is_enabled_not_solo() && (!fwd.0.loc2.is_enabled
                    || !fwd.0.loc3.is_enabled) && (!fwd.1.loc2.is_enabled
                    || !fwd.1.loc3.is_enabled) {
                    let u = l.loc1.index_.as_clear();
                    proof {
                        lemma_first_outcome_at(wouts, pk as int);
                        lemma_first_outcome_at(shiftouts, k as int);
                        let i = triples_of_3()[pk as int].0;
                        assert(subs@[k as int].cells_ok(*puzzle));
                        assert(l.loc1.index_ == wcells[i]);
                    }
                    return Some(u);
                }
                proof {
                    assert((wouts[pk as int]) is Nothing);
                }
                pk += 1;
            }
            proof {
                lemma_first_outcome_none(wouts);
                assert((between_shift_outcome(*puzzle, cells0, k as int)) is Nothing);
            }
            k += 1;
        }
        proof {
            lemma_first_outcome_none(shiftouts);
        }
        None
    }
}

/// Reflection symmetry: mirroring a window cell about a pivot lands on the
/// column at the pivot's distance on the opposite side — twice the pivot's
/// column minus the cell's — in the cell's own row, with its slot kept.
pub proof fn lemma_reflection_symmetry(pivot: CellLocIndex, cell: CellLocIndex)
    requires
        -3 * (MAX_DIM as int) <= pivot.loc.col.0 <= 3 * (MAX_DIM as int),
        -3 * (MAX_DIM as int) <= cell.loc.col.0 <= 3 * (MAX_DIM as int),
    ensures
        cell_reflected(cell, pivot).loc.col.0 == 2 * pivot.loc.col.0 - cell.loc.col.0,
        cell_reflected(cell, pivot).loc.row == cell.loc.row,
        cell_reflected(cell, pivot).index == cell.index,
{
}

/// Clues only ever narrow: an update a clue forces is always a clear or a
/// pin, and always targets a candidate still open — enabled and not yet
/// pinned — so applying it strictly shrinks that cell's candidate set.
pub proof fn lemma_clue_narrows(clue: Clue, p: Puzzle, u: UpdateCellIndex)
    requires
        clue.outcome(p) == ClueOutcome::Forced(u),
    ensures
        p.enabled_at(u.index),
        !p.solo_at(u.index),
        u.op == UpdateCellIndexOperation::Clear || u.op == UpdateCellIndexOperation::Solo,
{
    match clue {
        Clue::SameColumn(c) => {
            let cells0 = c.base_cells(p);
            let souts = Seq::new(
                shift_count(p, cells0) as nat,
                |k: int| same_column_shift_outcome(p, cells0, k),
            );
            lemma_first_outcome_mem(souts);
            let k = choose|k: int| 0 <= k < souts.len() && #[trigger] souts[k] == first_outcome(
                souts,
            );
            let wouts = same_column_window_outcomes(
                p,
                shifted_cells(cells0, shift_at(cells0, k)),
            );
            lemma_first_outcome_mem(wouts);
            let k2 = choose|k2: int|
                0 <= k2 < wouts.len() && #[trigger] wouts[k2] == first_outcome(wouts);
            assert(wouts[k2] == ClueOutcome::Forced(u));
        },
        Clue::AdjacentColumn(c) => {
            let cells0 = c.base_cells(p);
            let souts = Seq::new(
                shift_count(p, cells0) as nat,
                |k: int| adjacent_shift_outcome(p, cells0, k),
            );
            lemma_first_outcome_mem(souts);
            let k = choose|k: int| 0 <= k < souts.len() && #[trigger] souts[k] == first_outcome(
                souts,
            );
            let wouts = adjacent_window_outcomes(p, shifted_cells(cells0, shift_at(cells0, k)));
            lemma_first_outcome_mem(wouts);
            let k2 = choose|k2: int|
                0 <= k2 < wouts.len() && #[trigger] wouts[k2] == first_outcome(wouts);
            assert(wouts[k2] == ClueOutcome::Forced(u));
        },
        Clue::BetweenColumns(c) => {
            let cells0 = c.base_cells(p);
            let souts = Seq::new(
                shift_count(p, cells0) as nat,
                |k: int| between_shift_outcome(p, cells0, k),
            );
            lemma_first_outcome_mem(souts);
            let k = choose|k: int| 0 <= k < souts.len() && #[trigger] souts[k] == first_outcome(
                souts,
            );
            let wouts = between_window_outcomes(p, shifted_cells(cells0, shift_at(cells0, k)));
            lemma_first_outcome_mem(wouts);
            let k2 = choose|k2: int|
                0 <= k2 < wouts.len() && #[trigger] wouts[k2] == first_outcome(wouts);
            assert(wouts[k2] == ClueOutcome::Forced(u));
        },
    }
}

/// The closed set of clue shapes, dispatched as one tagged value.
#[derive(Clone, Copy, Debug, PartialEq, Eq, Structural)]
pub enum Clue {
    SameColumn(SameColumnClue),
    AdjacentColumn(AdjacentColumnClue),
    BetweenColumns(BetweenColumnsClue),
}

impl Clue {
    pub open spec fn wf(&self, p: Puzzle) -> bool {
        match self {
            Clue::SameColumn(c) => c.wf(p),
            Clue::AdjacentColumn(c) => c.wf(p),
            Clue::BetweenColumns(c) => c.wf(p),
        }
    }

    /// What this clue's evaluation concludes on the given grid.
    pub open spec fn outcome(&self, p: Puzzle) -> ClueOutcome {
        match self {
            Clue::SameColumn(c) => same_column_outcome(p, c.base_cells(p)),
            Clue::AdjacentColumn(c) => adjacent_outcome(p, c.base_cells(p)),
            Clue::BetweenColumns(c) => between_outcome(p, c.base_cells(p)),
        }
    }

    /// The deduction step of whichever clue shape this is.
    pub fn advance_puzzle(&self, puzzle: &Puzzle) -> (r: Result<
        PuzzleAdvance,
        ClueContradiction,
    >)
        requires
            puzzle.wf(),
            self.wf(*puzzle),
        ensures
            advance_matches(r, self.outcome(*puzzle)),
            forced_in_range(r, *puzzle),
    {
        match self {
            Clue::SameColumn(c) => c.advance_puzzle(puzzle),
            Clue::AdjacentColumn(c) => {
                let r = c.advance_puzzle(puzzle);
                proof {
                    let cells0 = c.base_cells(*puzzle);
                    let shiftouts = Seq::new(
                        shift_count(*puzzle, cells0) as nat,
                        |k: int| adjacent_shift_outcome(*puzzle, cells0, k),
                    );
                    assert forall|k: int| 0 <= k < shiftouts.len() implies !((
                    #[trigger] shiftouts[k]) is Contradiction) by {
                        lemma_first_outcome_no_contradiction(
                            adjacent_window_outcomes(
                                *puzzle,
                                shifted_cells(cells0, shift_at(cells0, k)),
                            ),
                        );
                    }
                    lemma_first_outcome_no_contradiction(shiftouts);
                }
                Ok(r)
            },
            Clue::BetweenColumns(c) => {
                let r = c.advance_puzzle(puzzle);
                proof {
                    let cells0 = c.base_cells(*puzzle);
                    let shiftouts = Seq::new(
                        shift_count(*puzzle, cells0) as nat,
                        |k: int| between_shift_outcome(*puzzle, cells0, k),
                    );
                    assert forall|k: int| 0 <= k < shiftouts.len() implies !((
                    #[trigger] shiftouts[k]) is Contradiction) by {
                        lemma_first_outcome_no_contradiction(
                            between_window_outcomes(
                                *puzzle,
                                shifted_cells(cells0, shift_at(cells0, k)),
                            ),
                        );
                    }
                    lemma_first_outcome_no_contradiction(shiftouts);
                }
                Ok(r)
            },
        }
    }
}

} // verus!
