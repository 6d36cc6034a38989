//! The grid model: typed row/column/slot/answer indices, the per-cell
//! candidate state machine, rows with their hidden answer permutation, the
//! ragged grid, and the row-local single-candidate inference pass.
//!
//! Columns are signed: a column outside `[0, max_column]` names a void
//! location, so windows shifted or reflected past the grid's edges degrade to
//! "no constraint" instead of needing bounds branches everywhere.  Slot
//! indices (`LInd`) and answer indices (`LAns`) both range over the row's
//! width but are distinct types; only the one-way decay from answer to slot
//! space exists.

use vstd::prelude::*;

verus! {

use fixedbitset::FixedBitSet;
use rand_chacha::ChaCha8Rng;
use crate::bitset::{
    bits_of, count_trues, bitset_with_capacity, bitset_len, bitset_contains, bitset_insert,
    bitset_remove, bitset_put, bitset_toggle, bitset_fill, bitset_count_ones, bitset_ones,
    bitset_clone, lemma_count_le_len, lemma_count_update, lemma_count_zero, lemma_count_full,
    lemma_count_pos, lemma_count_single, lemma_two_trues,
};
use crate::rng::{shuffle_indices, random_below};

/// Upper bound on the number of rows of a grid and on the width of a row;
/// generous for a human-scale puzzle, and small enough that every column
/// computation (shifts, reflections) stays far inside `isize` and every
/// grid-wide candidate count inside `usize`.
pub const MAX_DIM: usize = 0x100;

#[derive(Clone, Copy, Debug, PartialEq, Eq, Structural)]
pub struct LRow(pub usize);

#[derive(Clone, Copy, Debug, PartialEq, Eq, Structural)]
pub struct LCol(pub isize);

#[derive(Clone, Copy, Debug, PartialEq, Eq, Structural)]
pub struct LInd(pub usize);

#[derive(Clone, Copy, Debug, PartialEq, Eq, Structural)]
pub struct LAns(pub usize);

/// The magnitude of the difference of two column numbers.
pub open spec fn col_gap(a: int, b: int) -> int {
    if a >= b {
        a - b
    } else {
        b - a
    }
}

impl LCol {
    pub fn shift(&self, shift: isize) -> (r: LCol)
        requires
            isize::MIN <= self.0 + shift <= isize::MAX,
        ensures
            r.0 == self.0 + shift,
    {
        LCol(self.0 + shift)
    }

    pub fn delta(&self, other: &LCol) -> (r: isize)
        requires
            isize::MIN <= self.0 - other.0 <= isize::MAX,
        ensures
            r == self.0 - other.0,
    {
        self.0 - other.0
    }

    /// The number of whole columns strictly between the two columns.
    pub fn columns_between(&self, other: &LCol) -> (r: usize)
        requires
            col_gap(self.0 as int, other.0 as int) <= isize::MAX,
        ensures
            r == if col_gap(self.0 as int, other.0 as int) >= 1 {
                col_gap(self.0 as int, other.0 as int) - 1
            } else {
                0int
            },
    {
        let d: isize = if self.0 >= other.0 {
            self.0 - other.0
        } else {
            other.0 - self.0
        };
        if d >= 1 {
            (d - 1) as usize
        } else {
            0
        }
    }
}

impl LAns {
    pub fn decay_to_ind(&self) -> (r: LInd)
        ensures
            r.0 == self.0,
    {
        LInd(self.0)
    }
}

#[derive(Clone, Copy, Debug, PartialEq, Eq, Structural)]
pub struct CellLoc {
    pub row: LRow,
    pub col: LCol,
}

impl CellLoc {
    pub fn shift_column(&self, shift: isize) -> (r: CellLoc)
        requires
            isize::MIN <= self.col.0 + shift <= isize::MAX,
        ensures
            r.row == self.row,
            r.col.0 == self.col.0 + shift,
    {
        let col = self.col.shift(shift);
        CellLoc { col, ..*self }
    }

    /// The mirror image of this location about `mirror`, in the same row.
    pub fn reflect_about(&self, mirror: &CellLoc) -> (r: CellLoc)
        requires
            isize::MIN <= mirror.col.0 - self.col.0 <= isize::MAX,
            isize::MIN <= (mirror.col.0 - self.col.0) * 2 <= isize::MAX,
            isize::MIN <= 2 * mirror.col.0 - self.col.0 <= isize::MAX,
        ensures
            r.row == self.row,
            r.col.0 == 2 * mirror.col.0 - self.col.0,
    {
        let shift = mirror.col.delta(&self.col) * 2;
        self.shift_column(shift)
    }

    pub fn columns_between(&self, other: &CellLoc) -> (r: usize)
        requires
            col_gap(self.col.0 as int, other.col.0 as int) <= isize::MAX,
        ensures
            r == if col_gap(self.col.0 as int, other.col.0 as int) >= 1 {
                col_gap(self.col.0 as int, other.col.0 as int) - 1
            } else {
                0int
            },
    {
        self.col.columns_between(&other.col)
    }
}

#[derive(Clone, Copy, Debug, PartialEq, Eq, Structural)]
pub struct CellLocIndexed<I> {
    pub loc: CellLoc,
    pub index: I,
}

pub type CellLocIndex = CellLocIndexed<LInd>;

pub type CellLocAnswer = CellLocIndexed<LAns>;

impl CellLocIndex {
    pub fn shift_column(&self, shift: isize) -> (r: CellLocIndex)
        requires
            isize::MIN <= self.loc.col.0 + shift <= isize::MAX,
        ensures
            r.loc.row == self.loc.row,
            r.loc.col.0 == self.loc.col.0 + shift,
            r.index == self.index,
    {
        CellLocIndex { loc: self.loc.shift_column(shift), ..*self }
    }

    pub fn reflect_loc_about(&self, mirror: &CellLocIndex) -> (r: CellLocIndex)
        requires
            isize::MIN <= mirror.loc.col.0 - self.loc.col.0 <= isize::MAX,
            isize::MIN <= (mirror.loc.col.0 - self.loc.col.0) * 2 <= isize::MAX,
            isize::MIN <= 2 * mirror.loc.col.0 - self.loc.col.0 <= isize::MAX,
        ensures
            r.loc.row == self.loc.row,
            r.loc.col.0 == 2 * mirror.loc.col.0 - self.loc.col.0,
            r.index == self.index,
    {
        CellLocIndex { loc: self.loc.reflect_about(&mirror.loc), ..*self }
    }
}

impl CellLocAnswer {
    pub fn decay_to_ind(&self) -> (r: CellLocIndex)
        ensures
            r.loc == self.loc,
            r.index.0 == self.index.0,
    {
        CellLocIndex { loc: self.loc, index: self.index.decay_to_ind() }
    }
}

#[derive(Clone, Copy, Debug, PartialEq, Eq, Structural)]
pub struct RowIndexed<I> {
    pub row: LRow,
    pub index: I,
}

pub type RowIndex = RowIndexed<LInd>;

pub type RowAnswer = RowIndexed<LAns>;

impl<I: Copy> CellLocIndexed<I> {
    pub fn decay_column(&self) -> (r: RowIndexed<I>)
        ensures
            r.row == self.loc.row,
            r.index == self.index,
    {
        RowIndexed { row: self.loc.row, index: self.index }
    }
}

impl RowIndex {
    pub fn upgrade_to_answer(&self) -> (r: RowAnswer)
        ensures
            r.row == self.row,
            r.index.0 == self.index.0,
    {
        RowAnswer { row: self.row, index: LAns(self.index.0) }
    }
}

/// The four primitive mutations of a cell's candidate set.
#[derive(Clone, Copy, Debug, PartialEq, Eq, Structural)]
pub enum UpdateCellIndexOperation {
    Clear,
    Put,
    Toggle,
    Solo,
}

/// The state of one cell's remaining candidates: a bit vector over slot
/// indices, a cell pinned to exactly one candidate (the width is retained so
/// the pin can later be undone), or the void sentinel for locations that do
/// not exist.
#[derive(Debug)]
pub enum PuzzleCellSelection {
    Enabled(FixedBitSet),
    Solo { width: usize, index: LInd },
    Void,
}

impl PuzzleCellSelection {
    pub open spec fn is_void_spec(&self) -> bool {
        self is Void
    }

    pub open spec fn width_spec(&self) -> nat {
        match self {
            PuzzleCellSelection::Enabled(s) => bits_of(*s).len(),
            PuzzleCellSelection::Solo { width, .. } => *width as nat,
            PuzzleCellSelection::Void => 0,
        }
    }

    /// Whether slot `i` is still a possible candidate.
    pub open spec fn enabled_spec(&self, i: int) -> bool {
        match self {
            PuzzleCellSelection::Enabled(s) => 0 <= i < bits_of(*s).len() && bits_of(*s)[i],
            PuzzleCellSelection::Solo { index, .. } => i == index.0,
            PuzzleCellSelection::Void => false,
        }
    }

    /// How many candidates are still possible.
    pub open spec fn count_spec(&self) -> nat {
        match self {
            PuzzleCellSelection::Enabled(s) => count_trues(bits_of(*s)),
            PuzzleCellSelection::Solo { .. } => 1,
            PuzzleCellSelection::Void => 0,
        }
    }

    /// Whether the cell is pinned to slot `i`: `i` is possible and nothing
    /// else is.
    pub open spec fn solo_spec(&self, i: int) -> bool {
        self.enabled_spec(i) && self.count_spec() == 1
    }

    pub open spec fn wf(&self) -> bool {
        match self {
            PuzzleCellSelection::Solo { width, index } => (index.0 as nat) < (*width as nat),
            _ => true,
        }
    }

    pub fn new(enabled: FixedBitSet) -> (r: Self)
        ensures
            r == PuzzleCellSelection::Enabled(enabled),
    {
        PuzzleCellSelection::Enabled(enabled)
    }

    pub fn is_void(&self) -> (r: bool)
        ensures
            r == self.is_void_spec(),
    {
        matches!(self, PuzzleCellSelection::Void)
    }

    pub fn is_enabled(&self, index: LInd) -> (r: bool)
        ensures
            r == self.enabled_spec(index.0 as int),
    {
        match self {
            PuzzleCellSelection::Enabled(s) => bitset_contains(s, index.0),
            PuzzleCellSelection::Solo { index: i, .. } => index == *i,
            PuzzleCellSelection::Void => false,
        }
    }

    pub fn is_solo(&self, index: LInd) -> (r: bool)
        ensures
            r == self.solo_spec(index.0 as int),
    {
        match self {
            PuzzleCellSelection::Enabled(s) => {
                bitset_contains(s, index.0) && bitset_count_ones(s) == 1
            }
            PuzzleCellSelection::Solo { index: i, .. } => index == *i,
            PuzzleCellSelection::Void => false,
        }
    }

    pub fn width(&self) -> (r: usize)
        ensures
            r == self.width_spec(),
    {
        match self {
            PuzzleCellSelection::Enabled(s) => bitset_len(s),
            PuzzleCellSelection::Solo { width, .. } => *width,
            PuzzleCellSelection::Void => 0,
        }
    }

    pub fn count_ones(&self) -> (r: usize)
        ensures
            r == self.count_spec(),
    {
        match self {
            PuzzleCellSelection::Enabled(s) => bitset_count_ones(s),
            PuzzleCellSelection::Solo { .. } => 1,
            PuzzleCellSelection::Void => 0,
        }
    }

    /// The slot the cell is pinned to, if it is pinned to exactly one.
    pub fn is_any_solo(&self) -> (r: Option<LInd>)
        ensures
            r matches Some(i) ==> self.solo_spec(i.0 as int),
            r is None ==> forall|j: int| !self.solo_spec(j),
    {
        match self {
            PuzzleCellSelection::Enabled(s) => {
                if bitset_count_ones(s) == 1 {
                    let ones = bitset_ones(s);
                    proof {
                        lemma_count_zero(bits_of(*s));
                        let w = choose|j: int| 0 <= j < bits_of(*s).len() && bits_of(*s)[j];
                        assert(exists|k: int| 0 <= k < ones@.len() && ones@[k] == w);
                    }
                    Some(LInd(ones[0]))
                } else {
                    None
                }
            }
            PuzzleCellSelection::Solo { index, .. } => Some(*index),
            PuzzleCellSelection::Void => None,
        }
    }

    /// The slots still possible, in ascending order, each exactly once.
    pub fn iter_ones(&self) -> (r: Vec<LInd>)
        ensures
            forall|k: int| #![trigger r@[k]] 0 <= k < r@.len() ==> self.enabled_spec(
                r@[k].0 as int,
            ),
            forall|k1: int, k2: int| 0 <= k1 < k2 < r@.len() ==> r@[k1].0 < r@[k2].0,
            forall|j: int| #[trigger] self.enabled_spec(j) ==> exists|k: int|
                0 <= k < r@.len() && r@[k].0 == j,
    {
        match self {
            PuzzleCellSelection::Enabled(s) => {
                let ones = bitset_ones(s);
                let mut r: Vec<LInd> = Vec::new();
                let mut k: usize = 0;
                while k < ones.len()
                    invariant
                        k <= ones@.len(),
                        r@.len() == k,
                        forall|m: int| #![trigger r@[m]] 0 <= m < k ==> r@[m].0 == ones@[m],
                        forall|m1: int, m2: int|
                            0 <= m1 < m2 < ones@.len() ==> ones@[m1] < ones@[m2],
                        forall|m: int|
                            0 <= m < ones@.len() ==> #[trigger] ones@[m] < bits_of(*s).len()
                                && bits_of(*s)[ones@[m] as int],
                    decreases ones@.len() - k,
                {
                    r.push(LInd(ones[k]));
                    k += 1;
                }
                proof {
                    assert forall|k2: int| 0 <= k2 < r@.len() implies self.enabled_spec(
                        #[trigger] r@[k2].0 as int,
                    ) by {
                        assert(r@[k2].0 == ones@[k2]);
                    }
                    assert forall|j: int| #[trigger] self.enabled_spec(j) implies exists|k2: int|
                        0 <= k2 < r@.len() && r@[k2].0 == j by {
                        assert(0 <= j < bits_of(*s).len() && bits_of(*s)[j]);
                        assert(exists|m: int| 0 <= m < ones@.len() && ones@[m] == j);
                        let m = choose|m: int| 0 <= m < ones@.len() && ones@[m] == j;
                        assert(r@[m].0 == j);
                        assert(0 <= m < r@.len() && r@[m].0 == j);
                    }
                }
                r
            }
            PuzzleCellSelection::Solo { index, .. } => {
                let mut r: Vec<LInd> = Vec::new();
                r.push(*index);
                proof {
                    assert(r@[0].0 == index.0);
                }
                r
            }
            PuzzleCellSelection::Void => Vec::new(),
        }
    }
}

/// What one primitive operation does to a non-void cell: how the enabled set,
/// the candidate count, the width, and the reported number of changed bits of
/// the new state relate to the old.
pub open spec fn sel_after_op(
    pre: PuzzleCellSelection,
    i: int,
    op: UpdateCellIndexOperation,
    post: PuzzleCellSelection,
    r: int,
) -> bool {
    &&& post.width_spec() == pre.width_spec()
    &&& !post.is_void_spec()
    &&& match op {
        UpdateCellIndexOperation::Clear => {
            &&& forall|j: int|
                #![trigger post.enabled_spec(j)]
                #![trigger pre.enabled_spec(j)]
                post.enabled_spec(j) <==> (pre.enabled_spec(j) && j != i)
            &&& r == if pre.enabled_spec(i) {
                1int
            } else {
                0int
            }
            &&& post.count_spec() == pre.count_spec() - r
        },
        UpdateCellIndexOperation::Put => {
            &&& forall|j: int|
                #![trigger post.enabled_spec(j)]
                #![trigger pre.enabled_spec(j)]
                post.enabled_spec(j) <==> (pre.enabled_spec(j) || j == i)
            &&& r == if pre.enabled_spec(i) {
                0int
            } else {
                1int
            }
            &&& post.count_spec() == pre.count_spec() + r
        },
        UpdateCellIndexOperation::Toggle => {
            &&& forall|j: int|
                #![trigger post.enabled_spec(j)]
                #![trigger pre.enabled_spec(j)]
                post.enabled_spec(j) <==> (if j == i {
                    !pre.enabled_spec(j)
                } else {
                    pre.enabled_spec(j)
                })
            &&& r == 1
            &&& post.count_spec() == pre.count_spec() + (if pre.enabled_spec(i) {
                -1int
            } else {
                1int
            })
        },
        UpdateCellIndexOperation::Solo => {
            &&& forall|j: int|
                #![trigger post.enabled_spec(j)]
                post.enabled_spec(j) <==> j == i
            &&& post.count_spec() == 1
            &&& r == if pre.enabled_spec(i) {
                pre.count_spec() - 1
            } else if pre.count_spec() == usize::MAX as nat {
                usize::MAX as int
            } else {
                pre.count_spec() + 1int
            }
        },
    }
}

/// Exactly how many candidate bits one primitive operation changes on a
/// non-void cell.
pub open spec fn op_flips(pre: PuzzleCellSelection, i: int, op: UpdateCellIndexOperation) -> int {
    match op {
        UpdateCellIndexOperation::Clear => if pre.enabled_spec(i) {
            1int
        } else {
            0int
        },
        UpdateCellIndexOperation::Put => if pre.enabled_spec(i) {
            0int
        } else {
            1int
        },
        UpdateCellIndexOperation::Toggle => 1int,
        UpdateCellIndexOperation::Solo => if pre.enabled_spec(i) {
            pre.count_spec() - 1
        } else if pre.count_spec() == usize::MAX as nat {
            usize::MAX as int
        } else {
            pre.count_spec() + 1int
        },
    }
}

/// Exactly the candidate count a non-void cell holds right after one
/// primitive operation.
pub open spec fn count_after_op(
    pre: PuzzleCellSelection,
    i: int,
    op: UpdateCellIndexOperation,
) -> int {
    match op {
        UpdateCellIndexOperation::Clear => pre.count_spec() - op_flips(pre, i, op),
        UpdateCellIndexOperation::Put => pre.count_spec() + op_flips(pre, i, op),
        UpdateCellIndexOperation::Toggle => if pre.enabled_spec(i) {
            pre.count_spec() - 1
        } else {
            pre.count_spec() + 1int
        },
        UpdateCellIndexOperation::Solo => 1int,
    }
}

impl PuzzleCellSelection {
    /// Applies one primitive operation to this cell and reports how many
    /// candidate bits changed.  On a void cell every operation is a no-op
    /// reporting zero changes.  A `Solo` always pins the cell; a non-`Solo`
    /// operation on a pinned cell first unpins it back to the single-bit
    /// enabled state it stood for.
    pub fn apply(&mut self, index: LInd, op: UpdateCellIndexOperation) -> (r: usize)
        requires
            old(self).wf(),
            old(self).is_void_spec() || (index.0 as int) < old(self).width_spec(),
        ensures
            final(self).wf(),
            old(self).is_void_spec() ==> *final(self) == *old(self) && r == 0,
            !old(self).is_void_spec() ==> sel_after_op(
                *old(self),
                index.0 as int,
                op,
                *final(self),
                r as int,
            ),
    {
        if self.is_void() {
            return 0;
        }
        if matches!(op, UpdateCellIndexOperation::Solo) {
            let width = self.width();
            let count = self.count_ones();
            let was = self.is_enabled(index);
            proof {
                if was && (*self) is Enabled {
                    lemma_count_pos(bits_of((*self)->Enabled_0), index.0 as int);
                }
            }
            let r: usize = if was {
                count - 1
            } else if count == usize::MAX {
                usize::MAX
            } else {
                count + 1
            };
            *self = PuzzleCellSelection::Solo { width, index };
            return r;
        }
        let unpin: Option<(usize, LInd)> = match &*self {
            PuzzleCellSelection::Solo { width, index: i } => Some((*width, *i)),
            _ => None,
        };
        if let Some((w, i)) = unpin {
            let mut b = bitset_with_capacity(w);
            bitset_insert(&mut b, i.0);
            proof {
                lemma_count_zero(Seq::new(w as nat, |x: int| false));
                lemma_count_update(Seq::new(w as nat, |x: int| false), i.0 as int, true);
            }
            *self = PuzzleCellSelection::Enabled(b);
        }
        let ghost mid = *self;
        let r: usize;
        match self {
            PuzzleCellSelection::Enabled(b) => {
                let ghost prebits = bits_of(*b);
                match op {
                    UpdateCellIndexOperation::Clear => {
                        let had = bitset_contains(b, index.0);
                        bitset_remove(b, index.0);
                        r = if had {
                            1
                        } else {
                            0
                        };
                        proof {
                            lemma_count_update(prebits, index.0 as int, false);
                        }
                    },
                    UpdateCellIndexOperation::Put => {
                        let had = bitset_put(b, index.0);
                        r = if had {
                            0
                        } else {
                            1
                        };
                        proof {
                            lemma_count_update(prebits, index.0 as int, true);
                        }
                    },
                    UpdateCellIndexOperation::Toggle => {
                        bitset_toggle(b, index.0);
                        r = 1;
                        proof {
                            lemma_count_update(prebits, index.0 as int, !prebits[index.0 as int]);
                        }
                    },
                    UpdateCellIndexOperation::Solo => {
                        proof {
                            assert(false);
                        }
                        r = 0;
                    },
                }
            },
            _ => {
                proof {
                    assert(false);
                }
                r = 0;
            },
        }
        r
    }
}

/// Observational equality of two cell states: same voidness, width, count,
/// and candidate set.  A pinned cell and the single-bit vector it stands for
/// are equivalent, as the state machine requires.
pub open spec fn sel_equiv(a: PuzzleCellSelection, b: PuzzleCellSelection) -> bool {
    &&& a.is_void_spec() == b.is_void_spec()
    &&& a.width_spec() == b.width_spec()
    &&& a.count_spec() == b.count_spec()
    &&& a.wf() == b.wf()
    &&& forall|j: int|
        #![trigger a.enabled_spec(j)]
        #![trigger b.enabled_spec(j)]
        a.enabled_spec(j) == b.enabled_spec(j)
}

impl Clone for PuzzleCellSelection {
    fn clone(&self) -> (r: Self)
        ensures
            sel_equiv(*self, r),
    {
        match self {
            PuzzleCellSelection::Enabled(s) => PuzzleCellSelection::Enabled(bitset_clone(s)),
            PuzzleCellSelection::Solo { width, index } => PuzzleCellSelection::Solo {
                width: *width,
                index: *index,
            },
            PuzzleCellSelection::Void => PuzzleCellSelection::Void,
        }
    }
}

/// One row of the grid: candidate state per column, and the hidden answer
/// permutation assigned at generation and fixed for the row's lifetime.
#[derive(Debug)]
pub struct PuzzleRow {
    pub cell_selection: Vec<PuzzleCellSelection>,
    pub cell_answers: Vec<LAns>,
}

impl PuzzleRow {
    pub open spec fn sels(&self) -> Seq<PuzzleCellSelection> {
        self.cell_selection@
    }

    pub open spec fn answers(&self) -> Seq<LAns> {
        self.cell_answers@
    }

    pub open spec fn len_spec(&self) -> nat {
        self.cell_selection@.len()
    }

    pub open spec fn wf(&self) -> bool {
        &&& self.cell_answers@.len() == self.len_spec()
        &&& self.len_spec() <= MAX_DIM
        &&& forall|c: int|
            0 <= c < self.len_spec() ==> (#[trigger] self.sels()[c]).wf()
                && !self.sels()[c].is_void_spec() && self.sels()[c].width_spec()
                == self.len_spec()
        &&& forall|c: int|
            0 <= c < self.len_spec() ==> (#[trigger] self.answers()[c]).0 < self.len_spec()
        &&& forall|c1: int, c2: int|
            0 <= c1 < c2 < self.len_spec() ==> self.answers()[c1] != self.answers()[c2]
    }

    pub fn len(&self) -> (r: usize)
        ensures
            r == self.len_spec(),
    {
        self.cell_selection.len()
    }

    /// The rightmost column of the row; zero for an empty row.
    pub fn max_column(&self) -> (r: LCol)
        requires
            self.len_spec() <= MAX_DIM,
        ensures
            r.0 == if self.len_spec() >= 1 {
                self.len_spec() - 1
            } else {
                0int
            },
    {
        let n = self.cell_selection.len();
        if n >= 1 {
            LCol((n - 1) as isize)
        } else {
            LCol(0)
        }
    }

    pub fn iter_cols(&self) -> (r: Vec<LCol>)
        requires
            self.len_spec() <= MAX_DIM,
        ensures
            r@.len() == self.len_spec(),
            forall|k: int| 0 <= k < r@.len() ==> (#[trigger] r@[k]).0 == k,
    {
        let n = self.cell_selection.len();
        let mut r: Vec<LCol> = Vec::new();
        let mut c: usize = 0;
        while c < n
            invariant
                c <= n,
                n <= MAX_DIM,
                r@.len() == c,
                forall|k: int| 0 <= k < c ==> (#[trigger] r@[k]).0 == k,
            decreases n - c,
        {
            r.push(LCol(c as isize));
            c += 1;
        }
        r
    }

    pub fn iter_indices(&self) -> (r: Vec<LInd>)
        ensures
            r@.len() == self.len_spec(),
            forall|k: int| 0 <= k < r@.len() ==> (#[trigger] r@[k]).0 == k,
    {
        let n = self.cell_selection.len();
        let mut r: Vec<LInd> = Vec::new();
        let mut c: usize = 0;
        while c < n
            invariant
                c <= n,
                r@.len() == c,
                forall|k: int| 0 <= k < c ==> (#[trigger] r@[k]).0 == k,
            decreases n - c,
        {
            r.push(LInd(c));
            c += 1;
        }
        r
    }

    pub fn selection_at(&self, col: LCol) -> (r: Option<&PuzzleCellSelection>)
        ensures
            (r is Some) <==> 0 <= col.0 < self.len_spec(),
            r matches Some(sel) ==> *sel == self.sels()[col.0 as int],
    {
        if col.0 < 0 {
            return None;
        }
        let c = col.0 as usize;
        if c < self.cell_selection.len() {
            Some(&self.cell_selection[c])
        } else {
            None
        }
    }

    pub fn answer_at(&self, col: LCol) -> (r: LAns)
        requires
            0 <= col.0 < self.answers().len(),
        ensures
            r == self.answers()[col.0 as int],
    {
        self.cell_answers[col.0 as usize]
    }

    /// A freshly generated row of width `len`: every candidate possible in
    /// every cell, and the answers a random permutation of the slot space.
    pub fn new_shuffled(rng: &mut ChaCha8Rng, len: usize) -> (r: PuzzleRow)
        requires
            len <= MAX_DIM,
        ensures
            r.wf(),
            r.len_spec() == len,
            forall|c: int, i: int|
                0 <= c < len && 0 <= i < len ==> #[trigger] r.sels()[c].enabled_spec(i),
            forall|c: int| 0 <= c < len ==> (#[trigger] r.sels()[c]).count_spec() == len,
    {
        let raw = shuffled_range(rng, len);
        let mut cell_answers: Vec<LAns> = Vec::new();
        let mut c: usize = 0;
        while c < len
            invariant
                c <= len,
                raw@.len() == len,
                forall|k: int| 0 <= k < len ==> #[trigger] raw@[k] < len,
                forall|k1: int, k2: int| 0 <= k1 < k2 < len ==> raw@[k1] != raw@[k2],
                cell_answers@.len() == c,
                forall|k: int| 0 <= k < c ==> (#[trigger] cell_answers@[k]).0 == raw@[k],
            decreases len - c,
        {
            cell_answers.push(LAns(raw[c]));
            c += 1;
        }
        let mut bitset = bitset_with_capacity(len);
        bitset_fill(&mut bitset);
        proof {
            lemma_count_full(bits_of(bitset));
        }
        let mut cell_selection: Vec<PuzzleCellSelection> = Vec::new();
        let mut c2: usize = 0;
        while c2 < len
            invariant
                c2 <= len,
                bits_of(bitset).len() == len,
                forall|j: int| 0 <= j < len ==> bits_of(bitset)[j],
                count_trues(bits_of(bitset)) == len,
                cell_selection@.len() == c2,
                forall|k: int|
                    0 <= k < c2 ==> {
                        &&& !(#[trigger] cell_selection@[k]).is_void_spec()
                        &&& cell_selection@[k].wf()
                        &&& cell_selection@[k].width_spec() == len
                        &&& cell_selection@[k].count_spec() == len
                        &&& forall|j: int| 0 <= j < len ==> cell_selection@[k].enabled_spec(j)
                    },
            decreases len - c2,
        {
            cell_selection.push(PuzzleCellSelection::new(bitset_clone(&bitset)));
            c2 += 1;
        }
        PuzzleRow { cell_selection, cell_answers }
    }
}

/// A sequence with the multiset of `0 .. len` holds each value below `len`,
/// each exactly once: shuffling the identity yields a permutation.
proof fn lemma_shuffled_identity_is_permutation(s: Seq<usize>, len: nat)
    requires
        len <= usize::MAX,
        s.len() == len,
        s.to_multiset() == Seq::new(len, |k: int| k as usize).to_multiset(),
    ensures
        forall|k: int| 0 <= k < len ==> #[trigger] s[k] < len,
        forall|k1: int, k2: int| 0 <= k1 < k2 < len ==> s[k1] != s[k2],
{
    broadcast use vstd::seq_lib::group_to_multiset_ensures;

    let ident = Seq::new(len, |k: int| k as usize);
    assert(ident.no_duplicates());
    ident.lemma_multiset_has_no_duplicates();
    s.lemma_multiset_has_no_duplicates_conv();
    assert forall|k: int| 0 <= k < len implies #[trigger] s[k] < len by {
        assert(s.contains(s[k]));
        assert(s.to_multiset().count(s[k]) > 0);
        assert(ident.contains(s[k]));
        let m = choose|m: int| 0 <= m < len && ident[m] == s[k];
        assert(s[k] == m as usize);
    }
    assert forall|k1: int, k2: int| 0 <= k1 < k2 < len implies s[k1] != s[k2] by {
        assert(s.no_duplicates());
    }
}

impl Clone for PuzzleRow {
    fn clone(&self) -> (r: Self)
        ensures
            r.len_spec() == self.len_spec(),
            r.answers() == self.answers(),
            forall|c: int|
                0 <= c < self.len_spec() ==> sel_equiv(
                    self.sels()[c],
                    #[trigger] r.sels()[c],
                ),
    {
        let n = self.cell_selection.len();
        let mut cell_selection: Vec<PuzzleCellSelection> = Vec::new();
        let mut c: usize = 0;
        while c < n
            invariant
                c <= n,
                n == self.len_spec(),
                cell_selection@.len() == c,
                forall|k: int|
                    0 <= k < c ==> sel_equiv(self.sels()[k], #[trigger] cell_selection@[k]),
            decreases n - c,
        {
            cell_selection.push(self.cell_selection[c].clone());
            c += 1;
        }
        let m = self.cell_answers.len();
        let mut cell_answers: Vec<LAns> = Vec::new();
        let mut a: usize = 0;
        while a < m
            invariant
                a <= m,
                m == self.answers().len(),
                cell_answers@.len() == a,
                forall|k: int| 0 <= k < a ==> #[trigger] cell_answers@[k] == self.answers()[k],
            decreases m - a,
        {
            cell_answers.push(self.cell_answers[a]);
            a += 1;
        }
        proof {
            assert(cell_answers@ =~= self.answers());
        }
        PuzzleRow { cell_selection, cell_answers }
    }
}

/// An inclusive column span: leftmost and rightmost column of a window, and
/// the magnitude of their difference.
#[derive(Clone, Copy, Debug, PartialEq, Eq, Structural)]
pub struct LColspan {
    pub min: LCol,
    pub max: LCol,
    pub abs_diff: usize,
}

fn vec_mut_at<T>(v: &mut Vec<T>, i: usize) -> (element: &mut T)
    requires
        i < old(v)@.len(),
    ensures
        *element == old(v)@[i as int],
        final(v)@ == old(v)@.update(i as int, *final(element)),
{
    &mut v[i]
}

/// The grid: rows added during generation, widened as they come, plus one
/// shared void cell handed out for out-of-range lookups.
#[derive(Debug)]
pub struct Puzzle {
    pub rows: Vec<PuzzleRow>,
    pub max_column: LCol,
    pub void: PuzzleCellSelection,
}

impl Puzzle {
    pub open spec fn n_rows_spec(&self) -> nat {
        self.rows@.len()
    }

    pub open spec fn wf(&self) -> bool {
        &&& self.rows@.len() <= MAX_DIM
        &&& forall|r: int| 0 <= r < self.rows@.len() ==> (#[trigger] self.rows@[r]).wf()
        &&& self.void is Void
        &&& 0 <= self.max_column.0 <= MAX_DIM
        &&& forall|r: int|
            0 <= r < self.rows@.len() ==> (#[trigger] self.rows@[r]).len_spec()
                <= self.max_column.0 + 1
    }

    /// Every row spans the full grid width: the shape clue generation
    /// expects.
    pub open spec fn full_width(&self) -> bool {
        forall|r: int|
            0 <= r < self.rows@.len() ==> (#[trigger] self.rows@[r]).len_spec()
                == self.max_column.0 + 1
    }

    /// The state of the cell at `loc`; the void state when the location is
    /// outside the grid.
    pub open spec fn sel_at(&self, loc: CellLoc) -> PuzzleCellSelection {
        if 0 <= (loc.row.0 as int) < self.rows@.len() && 0 <= loc.col.0
            < self.rows@[loc.row.0 as int].len_spec() {
            self.rows@[loc.row.0 as int].sels()[loc.col.0 as int]
        } else {
            PuzzleCellSelection::Void
        }
    }

    pub open spec fn enabled_at(&self, idx: CellLocIndex) -> bool {
        self.sel_at(idx.loc).enabled_spec(idx.index.0 as int)
    }

    pub open spec fn solo_at(&self, idx: CellLocIndex) -> bool {
        self.sel_at(idx.loc).solo_spec(idx.index.0 as int)
    }

    pub open spec fn void_at(&self, loc: CellLoc) -> bool {
        self.sel_at(loc).is_void_spec()
    }

    pub fn new() -> (r: Puzzle)
        ensures
            r.wf(),
            r.rows@.len() == 0,
            r.max_column.0 == 0,
    {
        Puzzle { rows: Vec::new(), max_column: LCol(0), void: PuzzleCellSelection::Void }
    }

    pub fn n_rows(&self) -> (r: usize)
        ensures
            r == self.n_rows_spec(),
    {
        self.rows.len()
    }

    pub fn max_column(&self) -> (r: LCol)
        ensures
            r == self.max_column,
    {
        self.max_column
    }

    /// Appends a row, widening the grid if the row reaches further right
    /// than any before it, and names the new row.
    pub fn add_row(&mut self, row: PuzzleRow) -> (r: LRow)
        requires
            old(self).wf(),
            row.wf(),
            old(self).n_rows_spec() < MAX_DIM,
        ensures
            final(self).wf(),
            r.0 == old(self).n_rows_spec(),
            final(self).rows@ == old(self).rows@.push(row),
            final(self).max_column.0 == if row.len_spec() >= 1 && row.len_spec() - 1
                > old(self).max_column.0 {
                row.len_spec() - 1
            } else {
                old(self).max_column.0 as int
            },
    {
        let ret = LRow(self.rows.len());
        let rm = row.max_column();
        if rm.0 > self.max_column.0 {
            self.max_column = rm;
        }
        self.rows.push(row);
        ret
    }

    pub fn row_at(&self, row: LRow) -> (r: &PuzzleRow)
        requires
            (row.0 as int) < self.n_rows_spec(),
        ensures
            *r == self.rows@[row.0 as int],
    {
        &self.rows[row.0]
    }

    /// The hidden answer at a grid location, kept in answer index space.
    pub fn answer_at(&self, loc: CellLoc) -> (r: CellLocAnswer)
        requires
            (loc.row.0 as int) < self.n_rows_spec(),
            0 <= loc.col.0 < self.rows@[loc.row.0 as int].answers().len(),
        ensures
            r.loc == loc,
            r.index == self.rows@[loc.row.0 as int].answers()[loc.col.0 as int],
    {
        let index = self.row_at(loc.row).answer_at(loc.col);
        CellLocAnswer { loc, index }
    }

    /// A reference to the cell's state, or to the shared void cell when the
    /// column lies outside the row.
    pub fn cell_selection(&self, loc: CellLoc) -> (r: &PuzzleCellSelection)
        requires
            self.wf(),
            (loc.row.0 as int) < self.n_rows_spec(),
        ensures
            *r == self.sel_at(loc),
    {
        let row = &self.rows[loc.row.0];
        if loc.col.0 >= 0 && (loc.col.0 as usize) < row.cell_selection.len() {
            &row.cell_selection[loc.col.0 as usize]
        } else {
            &self.void
        }
    }

    /// Applies one primitive operation to the cell named by `index` and
    /// reports how many candidate bits changed; a void target absorbs the
    /// operation.  Everything else in the grid is untouched.
    pub fn apply_at(&mut self, index: CellLocIndex, op: UpdateCellIndexOperation) -> (r: usize)
        requires
            old(self).wf(),
            (index.loc.row.0 as int) < old(self).n_rows_spec(),
            old(self).sel_at(index.loc).is_void_spec() || (index.index.0 as int) < old(
                self,
            ).sel_at(index.loc).width_spec(),
        ensures
            final(self).wf(),
            final(self).rows@.len() == old(self).rows@.len(),
            final(self).max_column == old(self).max_column,
            forall|rr: int|
                0 <= rr < old(self).rows@.len() ==> (#[trigger] final(self).rows@[rr]).len_spec()
                    == old(self).rows@[rr].len_spec() && final(self).rows@[rr].answers() == old(
                    self,
                ).rows@[rr].answers(),
            forall|l: CellLoc|
                #![trigger final(self).sel_at(l)]
                l != index.loc ==> final(self).sel_at(l) == old(self).sel_at(l),
            forall|rx: int|
                0 <= rx < old(self).rows@.len() && rx != index.loc.row.0 as int
                    ==> final(self).rows@[rx] == old(self).rows@[rx],
            forall|c: int|
                0 <= c < old(self).rows@[index.loc.row.0 as int].len_spec() && c
                    != index.loc.col.0 ==> final(self).rows@[index.loc.row.0 as int].sels()[c]
                    == old(self).rows@[index.loc.row.0 as int].sels()[c],
            !(0 <= index.loc.col.0 < old(self).rows@[index.loc.row.0 as int].len_spec())
                ==> final(self).rows@ == old(self).rows@,
            old(self).sel_at(index.loc).is_void_spec() ==> r == 0 && final(self).sel_at(index.loc)
                == old(self).sel_at(index.loc),
            !old(self).sel_at(index.loc).is_void_spec() ==> sel_after_op(
                old(self).sel_at(index.loc),
                index.index.0 as int,
                op,
                final(self).sel_at(index.loc),
                r as int,
            ),
    {
        let rr = index.loc.row.0;
        let rlen = self.rows[rr].cell_selection.len();
        if index.loc.col.0 >= 0 && (index.loc.col.0 as usize) < rlen {
            let cc = index.loc.col.0 as usize;
            let row = vec_mut_at(&mut self.rows, rr);
            let sel = vec_mut_at(&mut row.cell_selection, cc);
            let r = sel.apply(index.index, op);
            proof {
                assert(self.rows@ =~= old(self).rows@.update(rr as int, self.rows@[rr as int]));
                assert(self.rows@[rr as int].sels() =~= old(self).rows@[rr as int].sels().update(
                    cc as int,
                    self.rows@[rr as int].sels()[cc as int],
                ));
                assert forall|rx: int| 0 <= rx < self.rows@.len() implies (
                #[trigger] self.rows@[rx]).wf() by {
                    if rx != rr as int {
                        assert(self.rows@[rx] == old(self).rows@[rx]);
                    } else {
                        let oldrow = old(self).rows@[rx];
                        let newrow = self.rows@[rx];
                        assert(newrow.cell_answers@ == oldrow.cell_answers@);
                        assert(newrow.len_spec() == oldrow.len_spec());
                        assert forall|c: int| 0 <= c < newrow.len_spec() implies (
                        #[trigger] newrow.sels()[c]).wf() && !newrow.sels()[c].is_void_spec()
                            && newrow.sels()[c].width_spec() == newrow.len_spec() by {
                            if c != cc as int {
                                assert(newrow.sels()[c] == oldrow.sels()[c]);
                            } else {
                                assert(sel_after_op(
                                    oldrow.sels()[c],
                                    index.index.0 as int,
                                    op,
                                    newrow.sels()[c],
                                    r as int,
                                ));
                            }
                        }
                        assert(newrow.answers() =~= oldrow.answers());
                        assert(newrow.wf());
                    }
                }
            }
            r
        } else {
            self.void.apply(index.index, op)
        }
    }
}

impl Puzzle {
    pub fn iter_rows(&self) -> (r: Vec<LRow>)
        requires
            self.wf(),
        ensures
            r@.len() == self.n_rows_spec(),
            forall|k: int| 0 <= k < r@.len() ==> (#[trigger] r@[k]).0 == k,
    {
        let n = self.rows.len();
        let mut r: Vec<LRow> = Vec::new();
        let mut k: usize = 0;
        while k < n
            invariant
                k <= n,
                r@.len() == k,
                forall|m: int| 0 <= m < k ==> (#[trigger] r@[m]).0 == m,
            decreases n - k,
        {
            r.push(LRow(k));
            k += 1;
        }
        r
    }

    pub fn iter_cols(&self) -> (r: Vec<LCol>)
        requires
            self.wf(),
        ensures
            r@.len() == self.max_column.0 + 1,
            forall|k: int| 0 <= k < r@.len() ==> (#[trigger] r@[k]).0 == k,
    {
        let n = (self.max_column.0 as usize) + 1;
        let mut r: Vec<LCol> = Vec::new();
        let mut k: usize = 0;
        while k < n
            invariant
                k <= n,
                n <= MAX_DIM + 1,
                r@.len() == k,
                forall|m: int| 0 <= m < k ==> (#[trigger] r@[m]).0 == m,
            decreases n - k,
        {
            r.push(LCol(k as isize));
            k += 1;
        }
        r
    }

    /// Every horizontal shift that keeps some part of a window of the given
    /// span over the grid, each expressed relative to the window's leftmost
    /// column: the window's left edge visits every column from
    /// `-abs_diff` up to `max_column`.
    pub fn iter_col_shift(&self, from_span: LColspan) -> (r: Vec<isize>)
        requires
            self.wf(),
            from_span.abs_diff <= 2 * MAX_DIM,
            -2 * (MAX_DIM as int) <= from_span.min.0 <= 2 * MAX_DIM,
        ensures
            r@.len() == from_span.abs_diff + self.max_column.0 + 1,
            forall|k: int|
                0 <= k < r@.len() ==> #[trigger] r@[k] == k - from_span.abs_diff
                    - from_span.min.0,
    {
        let n = from_span.abs_diff + (self.max_column.0 as usize) + 1;
        let mut r: Vec<isize> = Vec::new();
        let mut k: usize = 0;
        while k < n
            invariant
                k <= n,
                n <= 3 * MAX_DIM + 1,
                from_span.abs_diff <= 2 * MAX_DIM,
                -2 * (MAX_DIM as int) <= from_span.min.0 <= 2 * MAX_DIM,
                r@.len() == k,
                forall|m: int|
                    0 <= m < k ==> #[trigger] r@[m] == m - from_span.abs_diff - from_span.min.0,
            decreases n - k,
        {
            r.push(k as isize - from_span.abs_diff as isize - from_span.min.0);
            k += 1;
        }
        r
    }

    /// The row numbers in a random order.
    pub fn shuffled_rows(&self, rng: &mut ChaCha8Rng) -> (r: Vec<LRow>)
        requires
            self.wf(),
        ensures
            r@.len() == self.n_rows_spec(),
            forall|k: int| 0 <= k < r@.len() ==> (#[trigger] r@[k]).0 < self.n_rows_spec(),
            forall|k1: int, k2: int| 0 <= k1 < k2 < r@.len() ==> r@[k1] != r@[k2],
    {
        let n = self.rows.len();
        let raw = shuffled_range(rng, n);
        let mut r: Vec<LRow> = Vec::new();
        let mut k: usize = 0;
        while k < n
            invariant
                k <= n,
                raw@.len() == n,
                forall|m: int| 0 <= m < n ==> #[trigger] raw@[m] < n,
                forall|m1: int, m2: int| 0 <= m1 < m2 < n ==> raw@[m1] != raw@[m2],
                r@.len() == k,
                forall|m: int| 0 <= m < k ==> (#[trigger] r@[m]).0 == raw@[m],
            decreases n - k,
        {
            r.push(LRow(raw[k]));
            k += 1;
        }
        r
    }

    /// The column numbers in a random order.
    pub fn shuffled_cols(&self, rng: &mut ChaCha8Rng) -> (r: Vec<LCol>)
        requires
            self.wf(),
        ensures
            r@.len() == self.max_column.0 + 1,
            forall|k: int|
                0 <= k < r@.len() ==> 0 <= (#[trigger] r@[k]).0 <= self.max_column.0,
            forall|k1: int, k2: int| 0 <= k1 < k2 < r@.len() ==> r@[k1] != r@[k2],
    {
        let n = (self.max_column.0 as usize) + 1;
        let raw = shuffled_range(rng, n);
        let mut r: Vec<LCol> = Vec::new();
        let mut k: usize = 0;
        while k < n
            invariant
                k <= n,
                n <= MAX_DIM + 1,
                raw@.len() == n,
                forall|m: int| 0 <= m < n ==> #[trigger] raw@[m] < n,
                forall|m1: int, m2: int| 0 <= m1 < m2 < n ==> raw@[m1] != raw@[m2],
                r@.len() == k,
                forall|m: int| 0 <= m < k ==> (#[trigger] r@[m]).0 == raw@[m],
            decreases n - k,
        {
            r.push(LCol(raw[k] as isize));
            k += 1;
        }
        r
    }

    pub fn random_row(&self, rng: &mut ChaCha8Rng) -> (r: LRow)
        requires
            self.n_rows_spec() >= 1,
        ensures
            (r.0 as int) < self.n_rows_spec(),
    {
        LRow(random_below(rng, self.rows.len()))
    }

    pub fn random_column(&self, rng: &mut ChaCha8Rng) -> (r: LCol)
        requires
            self.wf(),
        ensures
            0 <= r.0 <= self.max_column.0,
    {
        LCol(random_below(rng, (self.max_column.0 as usize) + 1) as isize)
    }
}

/// The numbers `0 .. n` in a random order.
fn shuffled_range(rng: &mut ChaCha8Rng, n: usize) -> (r: Vec<usize>)
    ensures
        r@.len() == n,
        forall|k: int| 0 <= k < n ==> #[trigger] r@[k] < n,
        forall|k1: int, k2: int| 0 <= k1 < k2 < n ==> r@[k1] != r@[k2],
{
    let mut raw: Vec<usize> = Vec::new();
    let mut i: usize = 0;
    while i < n
        invariant
            i <= n,
            raw@.len() == i,
            forall|k: int| 0 <= k < i ==> #[trigger] raw@[k] == k,
        decreases n - i,
    {
        raw.push(i);
        i += 1;
    }
    proof {
        assert(raw@ =~= Seq::new(n as nat, |k: int| k as usize));
    }
    shuffle_indices(rng, &mut raw);
    proof {
        lemma_shuffled_identity_is_permutation(raw@, n as nat);
    }
    raw
}

/// A pinned candidate is always an enabled one, and pinning leaves exactly
/// one candidate in the cell: the pinned state and the single-bit enabled
/// state describe the same situation.
pub proof fn lemma_solo_implies_enabled(sel: PuzzleCellSelection, i: int)
    requires
        sel.solo_spec(i),
    ensures
        sel.enabled_spec(i),
        sel.count_spec() == 1,
{
}

/// Unpinning a pinned cell to apply an ordinary operation keeps the
/// originally pinned candidate, and only the operation's own slot can
/// differ from that single-bit state.
pub proof fn lemma_unpin_preserves_solo_bit(
    width: usize,
    pinned: LInd,
    j: int,
    op: UpdateCellIndexOperation,
    post: PuzzleCellSelection,
    r: int,
)
    requires
        op != UpdateCellIndexOperation::Solo,
        sel_after_op(PuzzleCellSelection::Solo { width, index: pinned }, j, op, post, r),
    ensures
        forall|k: int| k != j ==> (post.enabled_spec(k) <==> k == pinned.0),
{
    let pre = PuzzleCellSelection::Solo { width, index: pinned };
    assert(forall|k: int| pre.enabled_spec(k) <==> k == pinned.0);
}

/// Every query against the void cell answers in the negative.
pub proof fn lemma_void_absorbs(sel: PuzzleCellSelection, i: int)
    requires
        sel.is_void_spec(),
    ensures
        !sel.enabled_spec(i),
        !sel.solo_spec(i),
        sel.count_spec() == 0,
        sel.width_spec() == 0,
{
}

/// An enabled candidate puts the cell's count at one or more.
pub proof fn lemma_enabled_count_pos(sel: PuzzleCellSelection, i: int)
    requires
        sel.enabled_spec(i),
    ensures
        sel.count_spec() >= 1,
{
    match sel {
        PuzzleCellSelection::Enabled(b) => {
            lemma_count_pos(bits_of(b), i);
        },
        _ => {},
    }
}

/// A clear or a pin against a cell that is still open — enabled there, not
/// yet pinned — strictly decreases the cell's candidate count: such updates
/// only ever narrow.
pub proof fn lemma_narrowing_update_decreases(
    pre: PuzzleCellSelection,
    i: int,
    op: UpdateCellIndexOperation,
    post: PuzzleCellSelection,
    r: int,
)
    requires
        pre.enabled_spec(i),
        !pre.solo_spec(i),
        op == UpdateCellIndexOperation::Clear || op == UpdateCellIndexOperation::Solo,
        sel_after_op(pre, i, op, post, r),
    ensures
        post.count_spec() < pre.count_spec(),
{
    lemma_enabled_count_pos(pre, i);
}

/// The candidate count of the first `c` cells of a row.
pub open spec fn row_count_to(row: PuzzleRow, c: int) -> int
    decreases c,
{
    if c <= 0 {
        0
    } else {
        row_count_to(row, c - 1) + row.sels()[c - 1].count_spec()
    }
}

pub open spec fn row_count(row: PuzzleRow) -> int {
    row_count_to(row, row.len_spec() as int)
}

/// The candidate count of the first `r` rows.
pub open spec fn rows_count_to(rows: Seq<PuzzleRow>, r: int) -> int
    decreases r,
{
    if r <= 0 {
        0
    } else {
        rows_count_to(rows, r - 1) + row_count(rows[r - 1])
    }
}

/// The number of enabled candidate bits across the whole grid; the measure
/// that inference can only ever shrink.
pub open spec fn rows_count(rows: Seq<PuzzleRow>) -> int {
    rows_count_to(rows, rows.len() as int)
}

pub proof fn lemma_sel_count_le_width(sel: PuzzleCellSelection)
    requires
        sel.wf(),
    ensures
        sel.count_spec() <= sel.width_spec(),
{
    match sel {
        PuzzleCellSelection::Enabled(b) => {
            lemma_count_le_len(bits_of(b));
        },
        _ => {},
    }
}

/// A candidate that is enabled lies below the cell's width.
pub proof fn lemma_enabled_lt_width(sel: PuzzleCellSelection, i: int)
    requires
        sel.wf(),
        sel.enabled_spec(i),
    ensures
        0 <= i < sel.width_spec(),
{
}

/// A cell with a positive count has some enabled candidate.
pub proof fn lemma_count_nonzero_exists(sel: PuzzleCellSelection)
    requires
        sel.count_spec() >= 1,
    ensures
        exists|i: int| sel.enabled_spec(i),
{
    match sel {
        PuzzleCellSelection::Enabled(b) => {
            lemma_count_zero(bits_of(b));
            let i = choose|i: int| 0 <= i < bits_of(b).len() && bits_of(b)[i];
            assert(sel.enabled_spec(i));
        },
        PuzzleCellSelection::Solo { index, .. } => {
            assert(sel.enabled_spec(index.0 as int));
        },
        PuzzleCellSelection::Void => {},
    }
}

/// Two candidates enabled in one cell put its count at two or more.
pub proof fn lemma_sel_two_enabled(sel: PuzzleCellSelection, i: int, j: int)
    requires
        sel.enabled_spec(i),
        sel.enabled_spec(j),
        i != j,
    ensures
        sel.count_spec() >= 2,
{
    match sel {
        PuzzleCellSelection::Enabled(b) => {
            lemma_two_trues(bits_of(b), i, j);
        },
        _ => {},
    }
}

proof fn lemma_row_count_to_nonneg(row: PuzzleRow, c: int)
    ensures
        row_count_to(row, c) >= 0,
    decreases c,
{
    if c > 0 {
        lemma_row_count_to_nonneg(row, c - 1);
    }
}

proof fn lemma_row_count_to_bound(row: PuzzleRow, c: int)
    requires
        row.wf(),
        0 <= c <= row.len_spec(),
    ensures
        0 <= row_count_to(row, c) <= c * MAX_DIM,
    decreases c,
{
    if c > 0 {
        lemma_row_count_to_bound(row, c - 1);
        lemma_sel_count_le_width(row.sels()[c - 1]);
    }
}

proof fn lemma_row_count_to_except(a: PuzzleRow, b: PuzzleRow, cc: int, c: int)
    requires
        a.len_spec() == b.len_spec(),
        forall|x: int|
            0 <= x < c && x != cc ==> (#[trigger] b.sels()[x]).count_spec()
                == a.sels()[x].count_spec(),
        c <= a.len_spec(),
    ensures
        row_count_to(b, c) == row_count_to(a, c) + (if 0 <= cc < c {
            b.sels()[cc].count_spec() - a.sels()[cc].count_spec()
        } else {
            0int
        }),
    decreases c,
{
    if c > 0 {
        lemma_row_count_to_except(a, b, cc, c - 1);
    }
}

proof fn lemma_rows_count_to_nonneg(rows: Seq<PuzzleRow>, r: int)
    ensures
        rows_count_to(rows, r) >= 0,
    decreases r,
{
    if r > 0 {
        lemma_rows_count_to_nonneg(rows, r - 1);
        lemma_row_count_to_nonneg(rows[r - 1], rows[r - 1].len_spec() as int);
    }
}

pub proof fn lemma_rows_count_bound(rows: Seq<PuzzleRow>)
    requires
        forall|x: int| 0 <= x < rows.len() ==> (#[trigger] rows[x]).wf(),
        rows.len() <= MAX_DIM,
    ensures
        0 <= rows_count(rows) <= MAX_DIM * MAX_DIM * MAX_DIM,
{
    lemma_rows_count_to_bound(rows, rows.len() as int);
}

proof fn lemma_rows_count_to_bound(rows: Seq<PuzzleRow>, r: int)
    requires
        forall|x: int| 0 <= x < rows.len() ==> (#[trigger] rows[x]).wf(),
        0 <= r <= rows.len(),
    ensures
        0 <= rows_count_to(rows, r) <= r * MAX_DIM * MAX_DIM,
    decreases r,
{
    if r > 0 {
        lemma_rows_count_to_bound(rows, r - 1);
        lemma_row_count_to_bound(rows[r - 1], rows[r - 1].len_spec() as int);
        assert(rows[r - 1].len_spec() * MAX_DIM <= MAX_DIM * MAX_DIM) by (nonlinear_arith)
            requires
                rows[r - 1].len_spec() <= MAX_DIM,
        ;
    }
}

proof fn lemma_rows_count_to_except(a: Seq<PuzzleRow>, b: Seq<PuzzleRow>, rr: int, r: int)
    requires
        a.len() == b.len(),
        forall|x: int| 0 <= x < r && x != rr ==> b[x] == a[x],
        r <= a.len(),
    ensures
        rows_count_to(b, r) == rows_count_to(a, r) + (if 0 <= rr < r {
            row_count(b[rr]) - row_count(a[rr])
        } else {
            0int
        }),
    decreases r,
{
    if r > 0 {
        lemma_rows_count_to_except(a, b, rr, r - 1);
    }
}

/// Effect on the grid-wide count of changing one cell: the whole difference
/// is that cell's count difference.
proof fn lemma_rows_count_change(a: Seq<PuzzleRow>, b: Seq<PuzzleRow>, loc: CellLoc)
    requires
        a.len() == b.len(),
        0 <= (loc.row.0 as int) < a.len(),
        forall|rx: int| 0 <= rx < a.len() && rx != loc.row.0 as int ==> b[rx] == a[rx],
        b[loc.row.0 as int].len_spec() == a[loc.row.0 as int].len_spec(),
        forall|c: int|
            0 <= c < a[loc.row.0 as int].len_spec() && c != loc.col.0 ==> (#[trigger] b[loc.row.0
                as int].sels()[c]) == a[loc.row.0 as int].sels()[c],
    ensures
        rows_count(b) == rows_count(a) + (if 0 <= loc.col.0 < a[loc.row.0 as int].len_spec() {
            b[loc.row.0 as int].sels()[loc.col.0 as int].count_spec() - a[loc.row.0
                as int].sels()[loc.col.0 as int].count_spec()
        } else {
            0int
        }),
{
    let rr = loc.row.0 as int;
    lemma_row_count_to_except(a[rr], b[rr], loc.col.0 as int, a[rr].len_spec() as int);
    lemma_rows_count_to_except(a, b, rr, a.len() as int);
}

fn contains_loc(v: &Vec<CellLoc>, x: CellLoc) -> (r: bool)
    ensures
        r == v@.contains(x),
{
    let mut k: usize = 0;
    while k < v.len()
        invariant
            k <= v@.len(),
            forall|m: int| 0 <= m < k ==> v@[m] != x,
        decreases v@.len() - k,
    {
        if v[k] == x {
            return true;
        }
        k += 1;
    }
    false
}

fn contains_row(v: &Vec<LRow>, x: LRow) -> (r: bool)
    ensures
        r == v@.contains(x),
{
    let mut k: usize = 0;
    while k < v.len()
        invariant
            k <= v@.len(),
            forall|m: int| 0 <= m < k ==> v@[m] != x,
        decreases v@.len() - k,
    {
        if v[k] == x {
            return true;
        }
        k += 1;
    }
    false
}

fn contains_cli(v: &Vec<CellLocIndex>, x: CellLocIndex) -> (r: bool)
    ensures
        r == v@.contains(x),
{
    let mut k: usize = 0;
    while k < v.len()
        invariant
            k <= v@.len(),
            forall|m: int| 0 <= m < k ==> v@[m] != x,
        decreases v@.len() - k,
    {
        if v[k] == x {
            return true;
        }
        k += 1;
    }
    false
}

/// The columns of the first `c` where slot `i` is still possible, one
/// boolean per column.
pub open spec fn enabled_cols_to(row: PuzzleRow, i: int, c: int) -> Seq<bool> {
    Seq::new(c as nat, |x: int| row.sels()[x].enabled_spec(i))
}

/// Slot `i` is possible in exactly one column of the row: at `c`.
pub open spec fn hidden_single(row: PuzzleRow, i: int, c: int) -> bool {
    &&& 0 <= c < row.len_spec()
    &&& row.sels()[c].enabled_spec(i)
    &&& forall|c2: int|
        0 <= c2 < row.len_spec() && c2 != c ==> !row.sels()[c2].enabled_spec(i)
}

/// The cell at column `c` has exactly one possible slot left: `i`.
pub open spec fn naked_single(row: PuzzleRow, c: int, i: int) -> bool {
    &&& 0 <= c < row.len_spec()
    &&& row.sels()[c].enabled_spec(i)
    &&& row.sels()[c].count_spec() == 1
}

/// A forced pin of slot `i` at column `c`, applied together with the clears
/// it implies, would change nothing of the row.
pub open spec fn single_settled(row: PuzzleRow, c: int, i: int) -> bool {
    &&& row.sels()[c].count_spec() == 1
    &&& forall|c2: int|
        0 <= c2 < row.len_spec() && c2 != c ==> !row.sels()[c2].enabled_spec(i)
}

/// No single-candidate elimination is left to do in the row: every naked
/// and every hidden single is already pinned and cleared from the rest of
/// its row.
pub open spec fn row_stable(row: PuzzleRow) -> bool {
    &&& forall|c: int, i: int| naked_single(row, c, i) ==> single_settled(row, c, i)
    &&& forall|i: int, c: int| hidden_single(row, i, c) ==> single_settled(row, c, i)
}

/// Row single-candidate fixed point.  Take a row where value `i` was
/// possible in exactly one column, `c`, and the row after an inference pass
/// that left it possible there (inference never pins two rival values into
/// one cell unless the row was already contradictory, which is what the
/// third premise rules out).  The pass has pinned column `c` to `i` — one
/// candidate left, still `i` — and `i` is impossible in every other column.
pub proof fn lemma_hidden_single_resolved(pre: PuzzleRow, post: PuzzleRow, i: int, c: int)
    requires
        hidden_single(pre, i, c),
        post.len_spec() == pre.len_spec(),
        forall|c2: int, j: int|
            0 <= c2 < post.len_spec() && #[trigger] post.sels()[c2].enabled_spec(j)
                ==> pre.sels()[c2].enabled_spec(j),
        post.sels()[c].enabled_spec(i),
        row_stable(post),
    ensures
        post.sels()[c].solo_spec(i),
        forall|c2: int|
            0 <= c2 < post.len_spec() && c2 != c ==> !post.sels()[c2].enabled_spec(i),
{
    assert forall|c2: int|
        0 <= c2 < post.len_spec() && c2 != c implies !post.sels()[c2].enabled_spec(i) by {
        if post.sels()[c2].enabled_spec(i) {
            assert(pre.sels()[c2].enabled_spec(i));
        }
    }
    assert(hidden_single(post, i, c));
    assert(single_settled(post, c, i));
}

/// Observational equality of cells chains.
pub proof fn lemma_sel_equiv_trans(
    a: PuzzleCellSelection,
    b: PuzzleCellSelection,
    c: PuzzleCellSelection,
)
    requires
        sel_equiv(a, b),
        sel_equiv(b, c),
    ensures
        sel_equiv(a, c),
{
    assert forall|j: int| a.enabled_spec(j) == c.enabled_spec(j) by {
        assert(a.enabled_spec(j) == b.enabled_spec(j));
    }
}

/// Within one batch of forced pins, the pin of slot `i` at column `c` is
/// undisturbed: every target aimed at column `c` pins that same slot, no
/// target elsewhere carries slot `i` (so nothing clears it at `c`), and at
/// least one target performs the pin.
pub open spec fn pin_isolated(targets: Seq<CellLocIndex>, c: int, i: int) -> bool {
    &&& exists|m: int|
        0 <= m < targets.len() && (#[trigger] targets[m]).loc.col.0 == c && targets[m].index.0
            == i
    &&& forall|m: int|
        0 <= m < targets.len() && (#[trigger] targets[m]).loc.col.0 == c ==> targets[m].index.0
            == i
    &&& forall|m: int|
        0 <= m < targets.len() && (#[trigger] targets[m]).index.0 == i ==> targets[m].loc.col.0
            == c
}

/// Stability is a property of the observable candidate state, so it carries
/// across observationally equal rows.
pub proof fn lemma_row_stable_equiv(a: PuzzleRow, b: PuzzleRow)
    requires
        a.len_spec() == b.len_spec(),
        forall|c: int| 0 <= c < a.len_spec() ==> sel_equiv(a.sels()[c], #[trigger] b.sels()[c]),
        row_stable(a),
    ensures
        row_stable(b),
{
    assert forall|c: int, i: int| naked_single(b, c, i) implies single_settled(b, c, i) by {
        assert(sel_equiv(a.sels()[c], b.sels()[c]));
        assert(naked_single(a, c, i));
        assert forall|c2: int|
            0 <= c2 < b.len_spec() && c2 != c implies !b.sels()[c2].enabled_spec(i) by {
            assert(sel_equiv(a.sels()[c2], b.sels()[c2]));
        }
    }
    assert forall|i: int, c: int| hidden_single(b, i, c) implies single_settled(b, c, i) by {
        assert(sel_equiv(a.sels()[c], b.sels()[c]));
        assert forall|c2: int|
            0 <= c2 < a.len_spec() && c2 != c implies !a.sels()[c2].enabled_spec(i) by {
            assert(sel_equiv(a.sels()[c2], b.sels()[c2]));
        }
        assert(hidden_single(a, i, c));
        assert forall|c2: int|
            0 <= c2 < b.len_spec() && c2 != c implies !b.sels()[c2].enabled_spec(i) by {
            assert(sel_equiv(a.sels()[c2], b.sels()[c2]));
        }
    }
}

/// Appends the target unless it is already present; either way it is
/// contained afterwards, everything contained stays contained, and nothing
/// else appears.
fn insert_cli(v: &mut Vec<CellLocIndex>, t: CellLocIndex)
    ensures
        final(v)@.contains(t),
        forall|x: CellLocIndex| old(v)@.contains(x) ==> final(v)@.contains(x),
        forall|m: int|
            0 <= m < final(v)@.len() ==> old(v)@.contains(#[trigger] final(v)@[m])
                || final(v)@[m] == t,
{
    if !contains_cli(v, t) {
        let ghost pre = v@;
        v.push(t);
        proof {
            assert(v@[v@.len() - 1] == t);
            assert forall|x: CellLocIndex| pre.contains(x) implies v@.contains(x) by {
                let k = choose|k: int| 0 <= k < pre.len() && pre[k] == x;
                assert(v@[k] == x);
            }
            assert forall|m: int| 0 <= m < v@.len() implies pre.contains(#[trigger] v@[m]) || v@[m]
                == t by {
                if m < pre.len() {
                    assert(pre[m] == v@[m]);
                }
            }
        }
    }
}

impl Puzzle {
    /// Scans one row for forced pins: a cell with exactly one candidate left
    /// (a naked single) or a candidate left in exactly one column (a hidden
    /// single).  Each yields the cell and slot to pin.
    fn collect_row_targets(&self, row: LRow) -> (targets: Vec<CellLocIndex>)
        requires
            self.wf(),
            (row.0 as int) < self.n_rows_spec(),
        ensures
            forall|m: int|
                0 <= m < targets@.len() ==> {
                    let t = #[trigger] targets@[m];
                    &&& t.loc.row == row
                    &&& 0 <= t.loc.col.0 < self.rows@[row.0 as int].len_spec()
                    &&& (t.index.0 as int) < self.rows@[row.0 as int].len_spec()
                    &&& (naked_single(self.rows@[row.0 as int], t.loc.col.0 as int, t.index.0 as int)
                        || hidden_single(self.rows@[row.0 as int], t.index.0 as int, t.loc.col.0 as int))
                },
            forall|c: int, i: int|
                naked_single(self.rows@[row.0 as int], c, i) ==> targets@.contains(
                    CellLocIndex { loc: CellLoc { row, col: LCol(c as isize) }, index: LInd(i as usize) },
                ),
            forall|i: int, c: int|
                hidden_single(self.rows@[row.0 as int], i, c) ==> targets@.contains(
                    CellLocIndex { loc: CellLoc { row, col: LCol(c as isize) }, index: LInd(i as usize) },
                ),
    {
        let ghost rr = row.0 as int;
        let ghost rowv = self.rows@[rr];
        let row_len = self.rows[row.0].cell_selection.len();
        let mut count_per: Vec<usize> = Vec::new();
        let mut col_per: Vec<usize> = Vec::new();
        let mut z: usize = 0;
        while z < row_len
            invariant
                z <= row_len,
                count_per@.len() == z,
                col_per@.len() == z,
                forall|i: int| 0 <= i < z ==> #[trigger] count_per@[i] == 0,
                forall|i: int| 0 <= i < z ==> #[trigger] col_per@[i] == 0,
            decreases row_len - z,
        {
            count_per.push(0);
            col_per.push(0);
            z += 1;
        }
        let mut targets: Vec<CellLocIndex> = Vec::new();
        let mut c: usize = 0;
        proof {
            assert(forall|i: int|
                0 <= i < row_len ==> enabled_cols_to(rowv, i, 0) =~= Seq::<bool>::empty());
        }
        while c < row_len
            invariant
                self.wf(),
                rr == row.0 as int,
                0 <= rr < self.n_rows_spec(),
                rowv == self.rows@[rr],
                c <= row_len,
                row_len == rowv.len_spec(),
                row_len <= MAX_DIM,
                count_per@.len() == row_len,
                col_per@.len() == row_len,
                forall|i: int|
                    0 <= i < row_len ==> #[trigger] count_per@[i] == count_trues(
                        enabled_cols_to(rowv, i, c as int),
                    ),
                forall|i: int|
                    0 <= i < row_len && count_per@[i] >= 1 ==> (#[trigger] col_per@[i]) < row_len
                        && rowv.sels()[col_per@[i] as int].enabled_spec(i),
                forall|m: int|
                    0 <= m < targets@.len() ==> {
                        let t = #[trigger] targets@[m];
                        &&& t.loc.row == row
                        &&& 0 <= t.loc.col.0 < row_len
                        &&& (t.index.0 as int) < row_len
                        &&& naked_single(rowv, t.loc.col.0 as int, t.index.0 as int)
                    },
                forall|c2: int, i: int|
                    0 <= c2 < c && naked_single(rowv, c2, i) ==> targets@.contains(
                        CellLocIndex {
                            loc: CellLoc { row, col: LCol(c2 as isize) },
                            index: LInd(i as usize),
                        },
                    ),
            decreases row_len - c,
        {
            let loc = CellLoc { row, col: LCol(c as isize) };
            let cnt = self.cell_selection(loc).count_ones();
            let ones = self.cell_selection(loc).iter_ones();
            proof {
                assert(self.sel_at(loc) == rowv.sels()[c as int]);
                assert forall|m: int| 0 <= m < ones@.len() implies (#[trigger] ones@[m]).0
                    < row_len by {
                    lemma_enabled_lt_width(self.sel_at(loc), ones@[m].0 as int);
                }
            }
            if cnt == 1 {
                proof {
                    lemma_count_nonzero_exists(self.sel_at(loc));
                    let j = choose|j: int| self.sel_at(loc).enabled_spec(j);
                    assert(exists|k: int| 0 <= k < ones@.len() && ones@[k].0 == j);
                }
                let t = CellLocIndex { loc, index: ones[0] };
                proof {
                    assert forall|j: int| rowv.sels()[c as int].enabled_spec(j) implies j
                        == ones@[0].0 by {
                        if j != ones@[0].0 {
                            lemma_sel_two_enabled(rowv.sels()[c as int], ones@[0].0 as int, j);
                        }
                    }
                }
                insert_cli(&mut targets, t);
            }
            let ghost count_pre = count_per@;
            let mut m: usize = 0;
            while m < ones.len()
                invariant
                    m <= ones@.len(),
                    row_len <= MAX_DIM,
                    c < row_len,
                    rowv.len_spec() == row_len,
                    count_per@.len() == row_len,
                    col_per@.len() == row_len,
                    count_pre.len() == row_len,
                    forall|k: int| 0 <= k < ones@.len() ==> (#[trigger] ones@[k]).0 < row_len,
                    forall|k: int|
                        0 <= k < ones@.len() ==> rowv.sels()[c as int].enabled_spec(
                            (#[trigger] ones@[k]).0 as int,
                        ),
                    forall|k1: int, k2: int|
                        0 <= k1 < k2 < ones@.len() ==> ones@[k1].0 < ones@[k2].0,
                    forall|j: int| #[trigger] rowv.sels()[c as int].enabled_spec(j) ==> exists|k: int|
                        0 <= k < ones@.len() && ones@[k].0 == j,
                    forall|i: int|
                        0 <= i < row_len ==> #[trigger] count_pre[i] == count_trues(
                            enabled_cols_to(rowv, i, c as int),
                        ),
                    forall|i: int|
                        0 <= i < row_len ==> #[trigger] count_per@[i] == count_pre[i] + (
                        if exists|k: int| 0 <= k < m && (#[trigger] ones@[k]).0 == i {
                            1int
                        } else {
                            0int
                        }),
                    forall|i: int|
                        0 <= i < row_len && count_per@[i] >= 1 ==> (#[trigger] col_per@[i])
                            < row_len && rowv.sels()[col_per@[i] as int].enabled_spec(i),
                decreases ones@.len() - m,
            {
                let o = ones[m];
                proof {
                    lemma_count_le_len(enabled_cols_to(rowv, o.0 as int, c as int));
                    assert forall|k: int| 0 <= k < m implies (#[trigger] ones@[k]).0 != o.0 by {}
                }
                let cur = count_per[o.0];
                *vec_mut_at(&mut count_per, o.0) = cur + 1;
                *vec_mut_at(&mut col_per, o.0) = c;
                m += 1;
            }
            proof {
                assert forall|i: int| 0 <= i < row_len implies #[trigger] count_per@[i]
                    == count_trues(enabled_cols_to(rowv, i, c + 1)) by {
                    assert(enabled_cols_to(rowv, i, c + 1).drop_last() =~= enabled_cols_to(
                        rowv,
                        i,
                        c as int,
                    ));
                    if rowv.sels()[c as int].enabled_spec(i) {
                        assert(exists|k: int| 0 <= k < ones@.len() && (#[trigger] ones@[k]).0 == i);
                    } else {
                        assert(forall|k: int|
                            0 <= k < ones@.len() ==> (#[trigger] ones@[k]).0 != i);
                    }
                }
            }
            c += 1;
        }
        let mut i2: usize = 0;
        while i2 < row_len
            invariant
                self.wf(),
                0 <= rr < self.n_rows_spec(),
                rr == row.0 as int,
                rowv == self.rows@[rr],
                i2 <= row_len,
                row_len <= MAX_DIM,
                count_per@.len() == row_len,
                col_per@.len() == row_len,
                row_len == rowv.len_spec(),
                forall|i: int|
                    0 <= i < row_len ==> #[trigger] count_per@[i] == count_trues(
                        enabled_cols_to(rowv, i, row_len as int),
                    ),
                forall|i: int|
                    0 <= i < row_len && count_per@[i] >= 1 ==> (#[trigger] col_per@[i]) < row_len
                        && rowv.sels()[col_per@[i] as int].enabled_spec(i),
                forall|m: int|
                    0 <= m < targets@.len() ==> {
                        let t = #[trigger] targets@[m];
                        &&& t.loc.row == row
                        &&& 0 <= t.loc.col.0 < row_len
                        &&& (t.index.0 as int) < row_len
                        &&& (naked_single(rowv, t.loc.col.0 as int, t.index.0 as int)
                            || hidden_single(rowv, t.index.0 as int, t.loc.col.0 as int))
                    },
                forall|c2: int, i: int|
                    naked_single(rowv, c2, i) ==> targets@.contains(
                        CellLocIndex {
                            loc: CellLoc { row, col: LCol(c2 as isize) },
                            index: LInd(i as usize),
                        },
                    ),
                forall|i: int, c2: int|
                    0 <= i < i2 && hidden_single(rowv, i, c2) ==> targets@.contains(
                        CellLocIndex {
                            loc: CellLoc { row, col: LCol(c2 as isize) },
                            index: LInd(i as usize),
                        },
                    ),
            decreases row_len - i2,
        {
            if count_per[i2] == 1 {
                let cp = col_per[i2];
                let t = CellLocIndex {
                    loc: CellLoc { row, col: LCol(cp as isize) },
                    index: LInd(i2),
                };
                proof {
                    assert forall|c2: int|
                        0 <= c2 < row_len && c2 != cp as int implies !rowv.sels()[c2].enabled_spec(
                        i2 as int,
                    ) by {
                        if rowv.sels()[c2].enabled_spec(i2 as int) {
                            lemma_two_trues(
                                enabled_cols_to(rowv, i2 as int, row_len as int),
                                cp as int,
                                c2,
                            );
                        }
                    }
                    assert(hidden_single(rowv, i2 as int, cp as int));
                }
                insert_cli(&mut targets, t);
            }
            proof {
                assert forall|c2: int| hidden_single(rowv, i2 as int, c2) implies targets@.contains(
                    CellLocIndex {
                        loc: CellLoc { row, col: LCol(c2 as isize) },
                        index: LInd(i2),
                    },
                ) by {
                    lemma_count_single(enabled_cols_to(rowv, i2 as int, row_len as int), c2);
                    assert(count_per@[i2 as int] == 1);
                    assert(rowv.sels()[col_per@[i2 as int] as int].enabled_spec(i2 as int));
                    assert(col_per@[i2 as int] == c2);
                }
            }
            i2 += 1;
        }
        targets
    }

    /// Applies one row's forced pins: for each target, pin its cell and
    /// clear its slot from every other column of the row.  A pin is applied
    /// only while its candidate is still enabled; in a consistent grid that
    /// guard never fires, since nothing clears a forced candidate from its
    /// own column.  Reports the number of candidate bits cleared.
    fn apply_row_targets(
        &mut self,
        row: LRow,
        targets: &Vec<CellLocIndex>,
        to_update: &mut Vec<CellLoc>,
    ) -> (flips: usize)
        requires
            old(self).wf(),
            (row.0 as int) < old(self).n_rows_spec(),
            forall|m: int|
                0 <= m < targets@.len() ==> {
                    let t = #[trigger] targets@[m];
                    &&& t.loc.row == row
                    &&& 0 <= t.loc.col.0 < old(self).rows@[row.0 as int].len_spec()
                    &&& (t.index.0 as int) < old(self).rows@[row.0 as int].len_spec()
                    &&& (naked_single(
                        old(self).rows@[row.0 as int],
                        t.loc.col.0 as int,
                        t.index.0 as int,
                    ) || hidden_single(
                        old(self).rows@[row.0 as int],
                        t.index.0 as int,
                        t.loc.col.0 as int,
                    ))
                },
        ensures
            final(self).wf(),
            final(self).rows@.len() == old(self).rows@.len(),
            final(self).max_column == old(self).max_column,
            forall|rx: int|
                0 <= rx < old(self).rows@.len() ==> (#[trigger] final(self).rows@[rx]).len_spec()
                    == old(self).rows@[rx].len_spec() && final(self).rows@[rx].answers() == old(
                    self,
                ).rows@[rx].answers(),
            forall|rx: int|
                0 <= rx < old(self).rows@.len() && rx != row.0 as int
                    ==> final(self).rows@[rx] == old(self).rows@[rx],
            forall|idx: CellLocIndex| #[trigger]
                final(self).enabled_at(idx) ==> old(self).enabled_at(idx),
            flips == rows_count(old(self).rows@) - rows_count(final(self).rows@),
            final(to_update)@.len() >= old(to_update)@.len(),
            forall|k: int|
                0 <= k < old(to_update)@.len() ==> #[trigger] final(to_update)@[k] == old(
                    to_update,
                )@[k],
            forall|k: int|
                old(to_update)@.len() <= k < final(to_update)@.len()
                    ==> (#[trigger] final(to_update)@[k]).row == row,
            forall|idx: CellLocIndex|
                old(self).enabled_at(idx) && !final(self).enabled_at(idx)
                    ==> final(to_update)@.contains(idx.loc),
            flips == 0 ==> forall|c2: int|
                0 <= c2 < old(self).rows@[row.0 as int].len_spec() ==> sel_equiv(
                    old(self).rows@[row.0 as int].sels()[c2],
                    #[trigger] final(self).rows@[row.0 as int].sels()[c2],
                ),
            flips == 0 ==> forall|m: int|
                0 <= m < targets@.len() ==> single_settled(
                    final(self).rows@[row.0 as int],
                    (#[trigger] targets@[m]).loc.col.0 as int,
                    targets@[m].index.0 as int,
                ),
            (forall|m: int|
                0 <= m < targets@.len() ==> single_settled(
                    old(self).rows@[row.0 as int],
                    (#[trigger] targets@[m]).loc.col.0 as int,
                    targets@[m].index.0 as int,
                )) ==> flips == 0,
            flips == 0 ==> final(to_update)@ == old(to_update)@,
            forall|c: int, i: int|
                0 <= c < old(self).rows@[row.0 as int].len_spec() && #[trigger] pin_isolated(
                    targets@,
                    c,
                    i,
                ) && old(self).rows@[row.0 as int].sels()[c].enabled_spec(i)
                    ==> final(self).rows@[row.0 as int].sels()[c].solo_spec(i),
    {
        let ghost rr = row.0 as int;
        let ghost row_len = old(self).rows@[rr].len_spec() as int;
        let ghost oldrow = old(self).rows@[rr];
        let ghost settled_hyp: bool = forall|m: int|
            0 <= m < targets@.len() ==> single_settled(
                oldrow,
                (#[trigger] targets@[m]).loc.col.0 as int,
                targets@[m].index.0 as int,
            );
        proof {
            lemma_rows_count_to_bound(old(self).rows@, old(self).rows@.len() as int);
        }
        let mut flips: usize = 0;
        let ncols = (self.max_column.0 as usize) + 1;
        let mut col2: usize = 0;
        while col2 < ncols
            invariant
                self.wf(),
                0 <= rr < old(self).n_rows_spec(),
                rr == row.0 as int,
                row_len == old(self).rows@[rr].len_spec(),
                oldrow == old(self).rows@[rr],
                settled_hyp == forall|m: int|
                    0 <= m < targets@.len() ==> single_settled(
                        oldrow,
                        (#[trigger] targets@[m]).loc.col.0 as int,
                        targets@[m].index.0 as int,
                    ),
                ncols <= MAX_DIM + 1,
                ncols == old(self).max_column.0 + 1,
                row_len <= ncols,
                col2 <= ncols,
                self.rows@.len() == old(self).rows@.len(),
                self.max_column == old(self).max_column,
                forall|rx: int|
                    0 <= rx < old(self).rows@.len() ==> (#[trigger] self.rows@[rx]).len_spec()
                        == old(self).rows@[rx].len_spec() && self.rows@[rx].answers() == old(
                        self,
                    ).rows@[rx].answers(),
                forall|rx: int|
                    0 <= rx < old(self).rows@.len() && rx != rr ==> #[trigger] self.rows@[rx]
                        == old(self).rows@[rx],
                forall|idx: CellLocIndex| #[trigger]
                    self.enabled_at(idx) ==> old(self).enabled_at(idx),
                flips == rows_count(old(self).rows@) - rows_count(self.rows@),
                rows_count(old(self).rows@) <= MAX_DIM * MAX_DIM * MAX_DIM,
                forall|m: int|
                    0 <= m < targets@.len() ==> {
                        let t = #[trigger] targets@[m];
                        &&& t.loc.row == row
                        &&& 0 <= t.loc.col.0 < row_len
                        &&& (t.index.0 as int) < row_len
                        &&& (naked_single(oldrow, t.loc.col.0 as int, t.index.0 as int)
                            || hidden_single(oldrow, t.index.0 as int, t.loc.col.0 as int))
                    },
                to_update@.len() >= old(to_update)@.len(),
                forall|k: int|
                    0 <= k < old(to_update)@.len() ==> #[trigger] to_update@[k] == old(
                        to_update,
                    )@[k],
                forall|k: int|
                    old(to_update)@.len() <= k < to_update@.len() ==> (#[trigger] to_update@[k]).row
                        == row,
                forall|idx: CellLocIndex|
                    old(self).enabled_at(idx) && !self.enabled_at(idx) ==> to_update@.contains(
                        idx.loc,
                    ),
                flips == 0 ==> forall|c2: int|
                    0 <= c2 < row_len ==> sel_equiv(
                        oldrow.sels()[c2],
                        #[trigger] self.rows@[rr].sels()[c2],
                    ),
                flips == 0 ==> forall|m: int, c2: int|
                    0 <= m < targets@.len() && 0 <= c2 < row_len && c2 < col2 && c2 != (
                    #[trigger] targets@[m]).loc.col.0 ==> !(
                    #[trigger] self.rows@[rr].sels()[c2]).enabled_spec(
                        targets@[m].index.0 as int,
                    ),
                flips == 0 ==> forall|m: int|
                    0 <= m < targets@.len() && (#[trigger] targets@[m]).loc.col.0 < col2
                        ==> self.rows@[rr].sels()[targets@[m].loc.col.0 as int].count_spec() == 1,
                settled_hyp ==> flips == 0,
                flips == 0 ==> to_update@ == old(to_update)@,
                forall|c: int, i: int|
                    0 <= c < row_len && #[trigger] pin_isolated(targets@, c, i)
                        && oldrow.sels()[c].enabled_spec(i) && c >= col2
                        ==> self.rows@[rr].sels()[c].enabled_spec(i),
                forall|c: int, i: int|
                    0 <= c < row_len && #[trigger] pin_isolated(targets@, c, i)
                        && oldrow.sels()[c].enabled_spec(i) && c < col2
                        ==> self.rows@[rr].sels()[c].solo_spec(i),
            decreases ncols - col2,
        {
            let loc = CellLoc { row, col: LCol(col2 as isize) };
            let mut ti: usize = 0;
            while ti < targets.len()
                invariant
                    self.wf(),
                    0 <= rr < old(self).n_rows_spec(),
                    rr == row.0 as int,
                    row_len == old(self).rows@[rr].len_spec(),
                    oldrow == old(self).rows@[rr],
                    settled_hyp == forall|m: int|
                        0 <= m < targets@.len() ==> single_settled(
                            oldrow,
                            (#[trigger] targets@[m]).loc.col.0 as int,
                            targets@[m].index.0 as int,
                        ),
                    loc.row == row,
                    loc.col.0 == col2 as int,
                    col2 < ncols,
                    ncols == old(self).max_column.0 + 1,
                    row_len <= ncols,
                    ti <= targets@.len(),
                    self.rows@.len() == old(self).rows@.len(),
                    self.max_column == old(self).max_column,
                    forall|rx: int|
                        0 <= rx < old(self).rows@.len() ==> (#[trigger] self.rows@[rx]).len_spec()
                            == old(self).rows@[rx].len_spec() && self.rows@[rx].answers() == old(
                            self,
                        ).rows@[rx].answers(),
                    forall|rx: int|
                        0 <= rx < old(self).rows@.len() && rx != rr ==> #[trigger] self.rows@[rx]
                            == old(self).rows@[rx],
                    forall|idx: CellLocIndex| #[trigger]
                        self.enabled_at(idx) ==> old(self).enabled_at(idx),
                    flips == rows_count(old(self).rows@) - rows_count(self.rows@),
                    rows_count(old(self).rows@) <= MAX_DIM * MAX_DIM * MAX_DIM,
                    forall|m: int|
                        0 <= m < targets@.len() ==> {
                            let t = #[trigger] targets@[m];
                            &&& t.loc.row == row
                            &&& 0 <= t.loc.col.0 < row_len
                            &&& (t.index.0 as int) < row_len
                            &&& (naked_single(oldrow, t.loc.col.0 as int, t.index.0 as int)
                                || hidden_single(oldrow, t.index.0 as int, t.loc.col.0 as int))
                        },
                    to_update@.len() >= old(to_update)@.len(),
                    forall|k: int|
                        0 <= k < old(to_update)@.len() ==> #[trigger] to_update@[k] == old(
                            to_update,
                        )@[k],
                    forall|k: int|
                        old(to_update)@.len() <= k < to_update@.len() ==> (#[trigger] to_update@[k]).row
                            == row,
                    forall|idx: CellLocIndex|
                        old(self).enabled_at(idx) && !self.enabled_at(idx) ==> to_update@.contains(
                            idx.loc,
                        ),
                    flips == 0 ==> forall|c2: int|
                        0 <= c2 < row_len ==> sel_equiv(
                            oldrow.sels()[c2],
                            #[trigger] self.rows@[rr].sels()[c2],
                        ),
                    flips == 0 ==> forall|m: int, c2: int|
                        0 <= m < targets@.len() && 0 <= c2 < row_len && c2 < col2 && c2 != (
                        #[trigger] targets@[m]).loc.col.0 ==> !(
                        #[trigger] self.rows@[rr].sels()[c2]).enabled_spec(
                            targets@[m].index.0 as int,
                        ),
                    flips == 0 ==> forall|m: int|
                        0 <= m < targets@.len() && (#[trigger] targets@[m]).loc.col.0 < col2
                            ==> self.rows@[rr].sels()[targets@[m].loc.col.0 as int].count_spec()
                            == 1,
                    flips == 0 ==> forall|m: int|
                        0 <= m < ti && (col2 as int) < row_len && col2 as int != (
                        #[trigger] targets@[m]).loc.col.0
                            ==> !self.rows@[rr].sels()[col2 as int].enabled_spec(
                            targets@[m].index.0 as int,
                        ),
                    flips == 0 ==> forall|m: int|
                        0 <= m < ti && (#[trigger] targets@[m]).loc.col.0 == col2 as int
                            ==> self.rows@[rr].sels()[col2 as int].count_spec() == 1,
                    settled_hyp ==> flips == 0,
                    flips == 0 ==> to_update@ == old(to_update)@,
                    forall|c: int, i: int|
                        0 <= c < row_len && #[trigger] pin_isolated(targets@, c, i)
                            && oldrow.sels()[c].enabled_spec(i) && c >= col2 as int
                            ==> self.rows@[rr].sels()[c].enabled_spec(i),
                    forall|c: int, i: int|
                        0 <= c < row_len && #[trigger] pin_isolated(targets@, c, i)
                            && oldrow.sels()[c].enabled_spec(i) && c < col2 as int
                            ==> self.rows@[rr].sels()[c].solo_spec(i),
                    forall|c: int, i: int|
                        0 <= c < row_len && #[trigger] pin_isolated(targets@, c, i)
                            && oldrow.sels()[c].enabled_spec(i) && c == col2 as int && (exists|m: int|
                            0 <= m < ti && (#[trigger] targets@[m]).loc.col.0 == c
                                && targets@[m].index.0 == i)
                            ==> self.rows@[rr].sels()[c].solo_spec(i),
                decreases targets@.len() - ti,
            {
                let t = targets[ti];
                let cli = CellLocIndex { loc, index: t.index };
                let ghost prev = *self;
                let ghost flips0 = flips;
                let ghost tu0 = to_update@;
                let mut ch: usize = 0;
                let mut acted = false;
                if loc == t.loc {
                    let en = self.cell_selection(loc).is_enabled(t.index);
                    if en {
                        ch = self.apply_at(cli, UpdateCellIndexOperation::Solo);
                        acted = true;
                    }
                } else {
                    ch = self.apply_at(cli, UpdateCellIndexOperation::Clear);
                    acted = true;
                }
                proof {
                    lemma_rows_count_to_nonneg(self.rows@, self.rows@.len() as int);
                    if acted {
                        if 0 <= loc.col.0 < row_len {
                            lemma_rows_count_change(prev.rows@, self.rows@, loc);
                            assert(prev.sel_at(loc) == prev.rows@[rr].sels()[loc.col.0 as int]);
                            assert(self.sel_at(loc) == self.rows@[rr].sels()[loc.col.0 as int]);
                        } else {
                            assert(self.rows@ == prev.rows@);
                        }
                        assert(rows_count(self.rows@) == rows_count(prev.rows@) - ch);
                    } else {
                        assert(self.rows@ == prev.rows@);
                    }
                    assert forall|idx: CellLocIndex| #[trigger]
                        self.enabled_at(idx) implies old(self).enabled_at(idx) by {
                        if self.enabled_at(idx) {
                            if acted && idx.loc == loc {
                                assert(prev.enabled_at(idx));
                            } else {
                                assert(self.sel_at(idx.loc) == prev.sel_at(idx.loc));
                            }
                            assert(prev.enabled_at(idx));
                        }
                    }
                    // while nothing has changed, the row still reads as it
                    // did on entry, and each vacuous operation is evidence
                    // that its target is settled
                    if flips0 == 0 && ch == 0 {
                        if acted && 0 <= loc.col.0 < row_len {
                            let presel = prev.rows@[rr].sels()[loc.col.0 as int];
                            let postsel = self.rows@[rr].sels()[loc.col.0 as int];
                            if loc == t.loc {
                                assert(presel.enabled_spec(t.index.0 as int));
                                assert forall|j: int| presel.enabled_spec(j)
                                    == postsel.enabled_spec(j) by {
                                    if j != t.index.0 as int && presel.enabled_spec(j) {
                                        lemma_sel_two_enabled(presel, t.index.0 as int, j);
                                    }
                                }
                            }
                            assert(sel_equiv(presel, postsel));
                        }
                        assert forall|c2: int| 0 <= c2 < row_len implies sel_equiv(
                            oldrow.sels()[c2],
                            #[trigger] self.rows@[rr].sels()[c2],
                        ) by {
                            assert(sel_equiv(oldrow.sels()[c2], prev.rows@[rr].sels()[c2]));
                            if !(acted && 0 <= loc.col.0 < row_len && c2 == loc.col.0 as int) {
                                assert(self.rows@[rr].sels()[c2] == prev.rows@[rr].sels()[c2]);
                            }
                        }
                        if !acted {
                            // the guard saw the pin's candidate disabled; a
                            // sound target is a single of the entry state,
                            // so with the row unchanged this cannot happen
                            assert(oldrow.sels()[t.loc.col.0 as int].enabled_spec(
                                t.index.0 as int,
                            ));
                            assert(sel_equiv(
                                oldrow.sels()[t.loc.col.0 as int],
                                self.rows@[rr].sels()[t.loc.col.0 as int],
                            ));
                            assert(false);
                        }
                    }
                    if settled_hyp {
                        assert(flips0 == 0);
                        assert(single_settled(oldrow, t.loc.col.0 as int, t.index.0 as int));
                        if acted {
                            if 0 <= loc.col.0 < row_len {
                                let presel = prev.rows@[rr].sels()[loc.col.0 as int];
                                assert(sel_equiv(oldrow.sels()[loc.col.0 as int], presel));
                                if loc == t.loc {
                                    assert(presel.count_spec() == 1);
                                } else {
                                    assert(!oldrow.sels()[loc.col.0 as int].enabled_spec(
                                        t.index.0 as int,
                                    ));
                                }
                            }
                            assert(ch == 0);
                        }
                    }
                }
                flips = flips + ch;
                if ch > 0 {
                    if !contains_loc(to_update, loc) {
                        to_update.push(loc);
                        proof {
                            assert(to_update@[to_update@.len() - 1] == loc);
                        }
                    }
                    proof {
                        assert(to_update@.contains(loc));
                    }
                }
                proof {
                    assert forall|idx: CellLocIndex|
                        old(self).enabled_at(idx) && !self.enabled_at(idx) implies to_update@.contains(
                        idx.loc,
                    ) by {
                        if old(self).enabled_at(idx) && !self.enabled_at(idx) {
                            if prev.enabled_at(idx) {
                                // the candidate was lost in this very step
                                assert(idx.loc == loc);
                                assert(acted);
                                let i = cli.index.0 as int;
                                let j = idx.index.0 as int;
                                let presel = prev.sel_at(loc);
                                let postsel = self.sel_at(loc);
                                assert(sel_after_op(presel, i, if loc == t.loc {
                                    UpdateCellIndexOperation::Solo
                                } else {
                                    UpdateCellIndexOperation::Clear
                                }, postsel, ch as int));
                                if loc == t.loc {
                                    if j != i {
                                        lemma_sel_two_enabled(presel, i, j);
                                    }
                                }
                                assert(ch > 0);
                                assert(to_update@.contains(loc));
                            } else {
                                // already recorded before this step
                                assert(tu0.contains(idx.loc));
                                let w = choose|w: int| 0 <= w < tu0.len() && tu0[w] == idx.loc;
                                assert(to_update@[w] == idx.loc);
                            }
                        }
                    }
                    // evidence gathered by this vacuous operation
                    if flips == 0 {
                        if (col2 as int) < row_len {
                            if loc == t.loc {
                                assert(self.rows@[rr].sels()[col2 as int].count_spec() == 1);
                            } else {
                                assert(!self.rows@[rr].sels()[col2 as int].enabled_spec(
                                    t.index.0 as int,
                                ));
                            }
                        }
                    }
                    // an isolated pin is never disturbed: clears at its
                    // column carry other slots, and its own pin lands
                    let colj = col2 as int;
                    assert forall|c: int, i: int|
                        0 <= c < row_len && #[trigger] pin_isolated(targets@, c, i)
                            && oldrow.sels()[c].enabled_spec(i) && c >= colj implies self.rows@[rr].sels()[c].enabled_spec(
                        i,
                    ) by {
                        assert(prev.rows@[rr].sels()[c].enabled_spec(i));
                        if acted && c == loc.col.0 as int {
                            if loc == t.loc {
                                assert(targets@[ti as int].index.0 == i);
                            } else {
                                assert(targets@[ti as int].loc.col.0 != c);
                                assert(targets@[ti as int].index.0 != i);
                            }
                        } else {
                            assert(self.rows@[rr].sels()[c] == prev.rows@[rr].sels()[c]);
                        }
                    }
                    assert forall|c: int, i: int|
                        0 <= c < row_len && #[trigger] pin_isolated(targets@, c, i)
                            && oldrow.sels()[c].enabled_spec(i) && c < colj implies self.rows@[rr].sels()[c].solo_spec(
                        i,
                    ) by {
                        assert(prev.rows@[rr].sels()[c].solo_spec(i));
                        assert(self.rows@[rr].sels()[c] == prev.rows@[rr].sels()[c]);
                    }
                    assert forall|c: int, i: int|
                        0 <= c < row_len && #[trigger] pin_isolated(targets@, c, i)
                            && oldrow.sels()[c].enabled_spec(i) && c == colj && (exists|m: int|
                            0 <= m < ti + 1 && (#[trigger] targets@[m]).loc.col.0 == c
                                && targets@[m].index.0 == i) implies self.rows@[rr].sels()[c].solo_spec(
                        i,
                    ) by {
                        let m = choose|m: int|
                            0 <= m < ti + 1 && (#[trigger] targets@[m]).loc.col.0 == c
                                && targets@[m].index.0 == i;
                        if m < ti {
                            // pinned earlier in this pass; this operation
                            // kept the cell's single candidate
                            assert(prev.rows@[rr].sels()[c].solo_spec(i));
                            if acted && c == loc.col.0 as int {
                                if loc == t.loc {
                                    assert(targets@[ti as int].index.0 == i);
                                } else {
                                    assert(targets@[ti as int].index.0 != i);
                                    if prev.rows@[rr].sels()[c].enabled_spec(t.index.0 as int) {
                                        lemma_sel_two_enabled(
                                            prev.rows@[rr].sels()[c],
                                            i,
                                            t.index.0 as int,
                                        );
                                    }
                                }
                            } else {
                                assert(self.rows@[rr].sels()[c] == prev.rows@[rr].sels()[c]);
                            }
                        } else {
                            // this very operation was the pin
                            assert(targets@[ti as int].loc.col.0 == c);
                            assert(loc == t.loc);
                            assert(t.index.0 == i);
                            assert(prev.rows@[rr].sels()[c].enabled_spec(i));
                            assert(acted);
                        }
                    }
                }
                ti += 1;
            }
            proof {
                assert forall|c: int, i: int|
                    0 <= c < row_len && #[trigger] pin_isolated(targets@, c, i)
                        && oldrow.sels()[c].enabled_spec(i) && c == col2 as int implies self.rows@[rr].sels()[c].solo_spec(
                    i,
                ) by {
                    let m = choose|m: int|
                        0 <= m < targets@.len() && (#[trigger] targets@[m]).loc.col.0 == c
                            && targets@[m].index.0 == i;
                    assert(exists|m2: int|
                        0 <= m2 < targets@.len() && (#[trigger] targets@[m2]).loc.col.0 == c
                            && targets@[m2].index.0 == i);
                }
            }
            col2 += 1;
        }
        proof {
            if flips == 0 {
                assert forall|m: int| 0 <= m < targets@.len() implies single_settled(
                    self.rows@[rr],
                    (#[trigger] targets@[m]).loc.col.0 as int,
                    targets@[m].index.0 as int,
                ) by {
                    let t = targets@[m];
                    assert(t.loc.col.0 < ncols);
                    assert(self.rows@[rr].sels()[t.loc.col.0 as int].count_spec() == 1);
                }
            }
        }
        flips
    }
}

impl Puzzle {
    /// Row-local fixed-point elimination.  Starting from the rows named in
    /// `to_update`, repeatedly pins naked and hidden singles and clears the
    /// pinned slots from the rest of their rows, re-examining a row as long
    /// as it keeps changing.  Candidates are only ever removed, never added;
    /// the returned number of cleared bits is exactly the drop in the
    /// grid-wide candidate count.  Every location whose state changed is
    /// appended to `to_update`.
    pub fn run_inference(&mut self, to_update: &mut Vec<CellLoc>) -> (r: usize)
        requires
            old(self).wf(),
            forall|k: int|
                0 <= k < old(to_update)@.len() ==> ((#[trigger] old(to_update)@[k]).row.0 as int)
                    < old(self).n_rows_spec(),
        ensures
            final(self).wf(),
            final(self).rows@.len() == old(self).rows@.len(),
            final(self).max_column == old(self).max_column,
            forall|rx: int|
                0 <= rx < old(self).rows@.len() ==> (#[trigger] final(self).rows@[rx]).len_spec()
                    == old(self).rows@[rx].len_spec() && final(self).rows@[rx].answers() == old(
                    self,
                ).rows@[rx].answers(),
            forall|idx: CellLocIndex| #[trigger]
                final(self).enabled_at(idx) ==> old(self).enabled_at(idx),
            r == rows_count(old(self).rows@) - rows_count(final(self).rows@),
            final(to_update)@.len() >= old(to_update)@.len(),
            forall|k: int|
                0 <= k < old(to_update)@.len() ==> #[trigger] final(to_update)@[k] == old(
                    to_update,
                )@[k],
            forall|k: int|
                0 <= k < final(to_update)@.len() ==> ((#[trigger] final(to_update)@[k]).row.0
                    as int) < old(self).n_rows_spec(),
            forall|idx: CellLocIndex|
                old(self).enabled_at(idx) && !final(self).enabled_at(idx)
                    ==> final(to_update)@.contains(idx.loc),
            forall|k: int|
                0 <= k < final(to_update)@.len() ==> row_stable(
                    final(self).rows@[(#[trigger] final(to_update)@[k]).row.0 as int],
                ),
            (forall|k: int|
                0 <= k < old(to_update)@.len() ==> row_stable(
                    old(self).rows@[(#[trigger] old(to_update)@[k]).row.0 as int],
                )) ==> r == 0,
            r == 0 ==> final(to_update)@ == old(to_update)@,
            r == 0 ==> forall|l: CellLoc|
                sel_equiv(old(self).sel_at(l), #[trigger] final(self).sel_at(l)),
            forall|k: int, i: int, c: int|
                0 <= k < old(to_update)@.len() && #[trigger] hidden_single(
                    old(self).rows@[(old(to_update)@[k]).row.0 as int],
                    i,
                    c,
                ) && (forall|j: int|
                    j != i ==> !hidden_single(
                        old(self).rows@[(old(to_update)@[k]).row.0 as int],
                        j,
                        c,
                    )) ==> final(self).rows@[(old(to_update)@[k]).row.0 as int].sels()[c].solo_spec(
                    i,
                ) && (forall|c2: int|
                    0 <= c2 < old(self).rows@[(old(to_update)@[k]).row.0 as int].len_spec() && c2
                        != c ==> !final(self).rows@[(old(to_update)@[k]).row.0
                        as int].sels()[c2].enabled_spec(i)),
    {
        let mut considering: Vec<LRow> = Vec::new();
        let mut k: usize = 0;
        while k < to_update.len()
            invariant
                k <= to_update@.len(),
                *self == *old(self),
                to_update@ == old(to_update)@,
                forall|km: int|
                    0 <= km < old(to_update)@.len() ==> ((#[trigger] old(to_update)@[km]).row.0
                        as int) < old(self).n_rows_spec(),
                forall|m: int|
                    0 <= m < considering@.len() ==> ((#[trigger] considering@[m]).0 as int) < old(
                        self,
                    ).n_rows_spec(),
                forall|km: int|
                    0 <= km < k ==> considering@.contains((#[trigger] to_update@[km]).row),
                forall|j: int|
                    0 <= j < considering@.len() ==> exists|km: int|
                        0 <= km < to_update@.len() && (#[trigger] considering@[j])
                            == to_update@[km].row,
            decreases to_update@.len() - k,
        {
            let loc = to_update[k];
            let ghost cons0 = considering@;
            if !contains_row(&considering, loc.row) {
                considering.push(loc.row);
                proof {
                    assert(considering@[considering@.len() - 1] == loc.row);
                    assert forall|km: int| 0 <= km < k implies considering@.contains(
                        (#[trigger] to_update@[km]).row,
                    ) by {
                        let w = choose|w: int|
                            0 <= w < cons0.len() && cons0[w] == to_update@[km].row;
                        assert(considering@[w] == to_update@[km].row);
                    }
                }
            }
            k += 1;
        }
        let ghost stable_seeds: bool = forall|km: int|
            0 <= km < old(to_update)@.len() ==> row_stable(
                old(self).rows@[(#[trigger] old(to_update)@[km]).row.0 as int],
            );
        proof {
            lemma_rows_count_to_bound(old(self).rows@, old(self).rows@.len() as int);
        }
        let mut flips: usize = 0;
        while considering.len() > 0
            invariant
                self.wf(),
                old(self).wf(),
                self.rows@.len() == old(self).rows@.len(),
                self.max_column == old(self).max_column,
                stable_seeds == (forall|km: int|
                    0 <= km < old(to_update)@.len() ==> row_stable(
                        old(self).rows@[(#[trigger] old(to_update)@[km]).row.0 as int],
                    )),
                forall|rx: int|
                    0 <= rx < old(self).rows@.len() ==> (#[trigger] self.rows@[rx]).len_spec()
                        == old(self).rows@[rx].len_spec() && self.rows@[rx].answers() == old(
                        self,
                    ).rows@[rx].answers(),
                forall|idx: CellLocIndex| #[trigger]
                    self.enabled_at(idx) ==> old(self).enabled_at(idx),
                flips == rows_count(old(self).rows@) - rows_count(self.rows@),
                rows_count(old(self).rows@) <= MAX_DIM * MAX_DIM * MAX_DIM,
                forall|m: int|
                    0 <= m < considering@.len() ==> ((#[trigger] considering@[m]).0 as int) < old(
                        self,
                    ).n_rows_spec(),
                to_update@.len() >= old(to_update)@.len(),
                forall|km: int|
                    0 <= km < old(to_update)@.len() ==> #[trigger] to_update@[km] == old(
                        to_update,
                    )@[km],
                forall|km: int|
                    0 <= km < to_update@.len() ==> ((#[trigger] to_update@[km]).row.0 as int)
                        < old(self).n_rows_spec(),
                forall|idx: CellLocIndex|
                    old(self).enabled_at(idx) && !self.enabled_at(idx) ==> to_update@.contains(
                        idx.loc,
                    ),
                forall|km: int|
                    0 <= km < to_update@.len() ==> (considering@.contains(
                        (#[trigger] to_update@[km]).row,
                    ) || row_stable(self.rows@[to_update@[km].row.0 as int])),
                stable_seeds ==> flips == 0,
                stable_seeds ==> forall|j: int|
                    0 <= j < considering@.len() ==> row_stable(
                        self.rows@[(#[trigger] considering@[j]).0 as int],
                    ),
                flips == 0 ==> to_update@ == old(to_update)@,
                flips == 0 ==> forall|l: CellLoc|
                    sel_equiv(old(self).sel_at(l), #[trigger] self.sel_at(l)),
                forall|k: int, i: int, c: int|
                    0 <= k < old(to_update)@.len() && #[trigger] hidden_single(
                        old(self).rows@[(old(to_update)@[k]).row.0 as int],
                        i,
                        c,
                    ) && (forall|j: int|
                        j != i ==> !hidden_single(
                            old(self).rows@[(old(to_update)@[k]).row.0 as int],
                            j,
                            c,
                        )) ==> (self.rows@[(old(to_update)@[k]).row.0 as int].sels()[c].solo_spec(
                        i,
                    ) || (self.rows@[(old(to_update)@[k]).row.0 as int] == old(self).rows@[(old(
                        to_update,
                    )@[k]).row.0 as int] && considering@.contains((old(to_update)@[k]).row))),
            decreases rows_count(self.rows@), considering@.len(),
        {
            let ghost cons_pre = considering@;
            let row = match considering.pop() {
                Some(x) => x,
                None => {
                    proof {
                        assert(false);
                    }
                    LRow(0)
                },
            };
            let ghost rrow = row.0 as int;
            let targets = self.collect_row_targets(row);
            let ghost pre = *self;
            let ghost tu0 = to_update@;
            proof {
                if stable_seeds {
                    assert(cons_pre[cons_pre.len() - 1] == row);
                    assert(row_stable(pre.rows@[rrow]));
                    assert forall|m: int| 0 <= m < targets@.len() implies single_settled(
                        pre.rows@[rrow],
                        (#[trigger] targets@[m]).loc.col.0 as int,
                        targets@[m].index.0 as int,
                    ) by {
                        let t = targets@[m];
                        assert(naked_single(pre.rows@[rrow], t.loc.col.0 as int, t.index.0 as int)
                            || hidden_single(
                            pre.rows@[rrow],
                            t.index.0 as int,
                            t.loc.col.0 as int,
                        ));
                    }
                }
            }
            let f = self.apply_row_targets(row, &targets, to_update);
            proof {
                lemma_rows_count_to_nonneg(self.rows@, self.rows@.len() as int);
                assert forall|idx: CellLocIndex| #[trigger]
                    self.enabled_at(idx) implies old(self).enabled_at(idx) by {
                    if self.enabled_at(idx) {
                        assert(pre.enabled_at(idx));
                    }
                }
                assert forall|idx: CellLocIndex|
                    old(self).enabled_at(idx) && !self.enabled_at(idx) implies to_update@.contains(
                    idx.loc,
                ) by {
                    if old(self).enabled_at(idx) && !self.enabled_at(idx) {
                        if pre.enabled_at(idx) {
                            assert(to_update@.contains(idx.loc));
                        } else {
                            assert(tu0.contains(idx.loc));
                            let w = choose|w: int| 0 <= w < tu0.len() && tu0[w] == idx.loc;
                            assert(to_update@[w] == idx.loc);
                        }
                    }
                }
                if f == 0 {
                    // nothing moved: the processed row, unchanged in every
                    // observable way, has all its singles already settled
                    assert forall|c: int, i: int| naked_single(
                        self.rows@[rrow],
                        c,
                        i,
                    ) implies single_settled(self.rows@[rrow], c, i) by {
                        assert(sel_equiv(pre.rows@[rrow].sels()[c], self.rows@[rrow].sels()[c]));
                        assert(naked_single(pre.rows@[rrow], c, i));
                        let t = CellLocIndex {
                            loc: CellLoc { row, col: LCol(c as isize) },
                            index: LInd(i as usize),
                        };
                        assert(targets@.contains(t));
                        let m = choose|m: int| 0 <= m < targets@.len() && targets@[m] == t;
                        assert(single_settled(self.rows@[rrow], c, i));
                    }
                    assert forall|i: int, c: int| hidden_single(
                        self.rows@[rrow],
                        i,
                        c,
                    ) implies single_settled(self.rows@[rrow], c, i) by {
                        assert(sel_equiv(pre.rows@[rrow].sels()[c], self.rows@[rrow].sels()[c]));
                        assert forall|c2: int|
                            0 <= c2 < pre.rows@[rrow].len_spec() && c2 != c implies !pre.rows@[rrow].sels()[c2].enabled_spec(
                            i,
                        ) by {
                            assert(sel_equiv(
                                pre.rows@[rrow].sels()[c2],
                                self.rows@[rrow].sels()[c2],
                            ));
                        }
                        assert(hidden_single(pre.rows@[rrow], i, c));
                        let t = CellLocIndex {
                            loc: CellLoc { row, col: LCol(c as isize) },
                            index: LInd(i as usize),
                        };
                        assert(targets@.contains(t));
                        let m = choose|m: int| 0 <= m < targets@.len() && targets@[m] == t;
                        assert(single_settled(self.rows@[rrow], c, i));
                    }
                    assert(row_stable(self.rows@[rrow]));
                }
                if stable_seeds {
                    assert(f == 0);
                }
            }
            flips = flips + f;
            if f > 0 {
                considering.push(row);
                proof {
                    assert(considering@[considering@.len() - 1] == row);
                }
            }
            proof {
                assert forall|km: int| 0 <= km < to_update@.len() implies (considering@.contains(
                    (#[trigger] to_update@[km]).row,
                ) || row_stable(self.rows@[to_update@[km].row.0 as int])) by {
                    let r2 = to_update@[km].row;
                    if r2 == row {
                        if f > 0 {
                            assert(considering@[considering@.len() - 1] == r2);
                        } else {
                            assert(row_stable(self.rows@[r2.0 as int]));
                        }
                    } else {
                        if km < tu0.len() {
                            if cons_pre.contains(r2) {
                                let w = choose|w: int|
                                    0 <= w < cons_pre.len() && cons_pre[w] == r2;
                                assert(w < cons_pre.len() - 1);
                                assert(considering@[w] == r2);
                            } else {
                                assert(row_stable(pre.rows@[r2.0 as int]));
                                assert(self.rows@[r2.0 as int] == pre.rows@[r2.0 as int]);
                            }
                        }
                    }
                }
                if stable_seeds {
                    assert forall|j: int| 0 <= j < considering@.len() implies row_stable(
                        self.rows@[(#[trigger] considering@[j]).0 as int],
                    ) by {
                        let r2 = considering@[j];
                        if r2 == row {
                            assert(row_stable(self.rows@[rrow]));
                        } else {
                            assert(cons_pre[j] == r2);
                            assert(row_stable(pre.rows@[r2.0 as int]));
                            assert(self.rows@[r2.0 as int] == pre.rows@[r2.0 as int]);
                        }
                    }
                }
                if flips == 0 {
                    assert(to_update@ == old(to_update)@);
                    assert forall|l: CellLoc| sel_equiv(
                        old(self).sel_at(l),
                        #[trigger] self.sel_at(l),
                    ) by {
                        assert(sel_equiv(old(self).sel_at(l), pre.sel_at(l)));
                        if 0 <= (l.row.0 as int) < self.rows@.len() {
                            if l.row.0 as int == rrow {
                                if 0 <= l.col.0 < pre.rows@[rrow].len_spec() {
                                    assert(sel_equiv(
                                        pre.rows@[rrow].sels()[l.col.0 as int],
                                        self.rows@[rrow].sels()[l.col.0 as int],
                                    ));
                                    assert(pre.sel_at(l) == pre.rows@[rrow].sels()[l.col.0
                                        as int]);
                                    assert(self.sel_at(l) == self.rows@[rrow].sels()[l.col.0
                                        as int]);
                                } else {
                                    assert(pre.sel_at(l) == self.sel_at(l));
                                }
                            } else {
                                assert(self.rows@[l.row.0 as int] == pre.rows@[l.row.0 as int]);
                                assert(pre.sel_at(l) == self.sel_at(l));
                            }
                        } else {
                            assert(pre.sel_at(l) == self.sel_at(l));
                        }
                        lemma_sel_equiv_trans(old(self).sel_at(l), pre.sel_at(l), self.sel_at(l));
                    }
                }
                assert forall|k: int, i: int, c: int|
                    0 <= k < old(to_update)@.len() && #[trigger] hidden_single(
                        old(self).rows@[(old(to_update)@[k]).row.0 as int],
                        i,
                        c,
                    ) && (forall|j: int|
                        j != i ==> !hidden_single(
                            old(self).rows@[(old(to_update)@[k]).row.0 as int],
                            j,
                            c,
                        )) implies (self.rows@[(old(to_update)@[k]).row.0 as int].sels()[c].solo_spec(
                    i,
                ) || (self.rows@[(old(to_update)@[k]).row.0 as int] == old(self).rows@[(old(
                    to_update,
                )@[k]).row.0 as int] && considering@.contains((old(to_update)@[k]).row))) by {
                    let r2 = (old(to_update)@[k]).row;
                    let rseed = r2.0 as int;
                    assert(to_update@[k] == old(to_update)@[k]);
                    assert(0 <= rseed < old(self).rows@.len());
                    let oldrowk = old(self).rows@[rseed];
                    assert(oldrowk.wf());
                    lemma_enabled_lt_width(oldrowk.sels()[c], i);
                    if rseed == rrow {
                        // this very row was just processed; the hidden
                        // single's pin is isolated in the batch, so it lands
                        // (or was already placed) and survives
                        if !pre.rows@[rrow].sels()[c].solo_spec(i) {
                            assert(pre.rows@[rrow] == oldrowk);
                        }
                        assert(pre.rows@[rrow].sels()[c].enabled_spec(i));
                        assert forall|m: int|
                            0 <= m < targets@.len() && (#[trigger] targets@[m]).loc.col.0
                                == c implies targets@[m].index.0 == i by {
                            let j = targets@[m].index.0 as int;
                            if j != i {
                                if pre.rows@[rrow].sels()[c].solo_spec(i) {
                                    assert(pre.rows@[rrow].sels()[c].enabled_spec(j));
                                    lemma_sel_two_enabled(pre.rows@[rrow].sels()[c], i, j);
                                } else {
                                    if naked_single(pre.rows@[rrow], c, j) {
                                        lemma_sel_two_enabled(pre.rows@[rrow].sels()[c], i, j);
                                    } else {
                                        assert(hidden_single(oldrowk, j, c));
                                    }
                                }
                            }
                        }
                        assert forall|m: int|
                            0 <= m < targets@.len() && (#[trigger] targets@[m]).index.0
                                == i implies targets@[m].loc.col.0 == c by {
                            let c2 = targets@[m].loc.col.0 as int;
                            if c2 != c {
                                assert(pre.rows@[rrow].sels()[c2].enabled_spec(i));
                                let idx2 = CellLocIndex {
                                    loc: CellLoc { row, col: LCol(c2 as isize) },
                                    index: LInd(i as usize),
                                };
                                assert(targets@[m].loc == idx2.loc);
                                assert(pre.sel_at(idx2.loc) == pre.rows@[rrow].sels()[c2]);
                                assert(pre.enabled_at(idx2));
                                assert(old(self).enabled_at(idx2));
                                assert(old(self).sel_at(idx2.loc) == oldrowk.sels()[c2]);
                                assert(false);
                            }
                        }
                        let t3 = CellLocIndex {
                            loc: CellLoc { row, col: LCol(c as isize) },
                            index: LInd(i as usize),
                        };
                        if pre.rows@[rrow].sels()[c].solo_spec(i) {
                            assert(naked_single(pre.rows@[rrow], c, i));
                        } else {
                            assert(hidden_single(pre.rows@[rrow], i, c));
                        }
                        assert(targets@.contains(t3));
                        let w = choose|w: int| 0 <= w < targets@.len() && targets@[w] == t3;
                        assert((targets@[w]).loc.col.0 == c && targets@[w].index.0 == i);
                        assert(pin_isolated(targets@, c, i));
                        assert(self.rows@[rrow].sels()[c].solo_spec(i));
                    } else {
                        assert(self.rows@[rseed] == pre.rows@[rseed]);
                        if !pre.rows@[rseed].sels()[c].solo_spec(i) {
                            assert(r2 != row);
                            assert(cons_pre.contains(r2));
                            let w = choose|w: int| 0 <= w < cons_pre.len() && cons_pre[w] == r2;
                            assert(w < cons_pre.len() - 1);
                            assert(considering@[w] == r2);
                        }
                    }
                }
            }
        }
        proof {
            assert forall|k: int, i: int, c: int|
                0 <= k < old(to_update)@.len() && #[trigger] hidden_single(
                    old(self).rows@[(old(to_update)@[k]).row.0 as int],
                    i,
                    c,
                ) && (forall|j: int|
                    j != i ==> !hidden_single(
                        old(self).rows@[(old(to_update)@[k]).row.0 as int],
                        j,
                        c,
                    )) implies (self.rows@[(old(to_update)@[k]).row.0 as int].sels()[c].solo_spec(
                i,
            ) && (forall|c2: int|
                0 <= c2 < old(self).rows@[(old(to_update)@[k]).row.0 as int].len_spec() && c2 != c
                    ==> !self.rows@[(old(to_update)@[k]).row.0 as int].sels()[c2].enabled_spec(
                    i,
                ))) by {
                let r2 = (old(to_update)@[k]).row;
                let rseed = r2.0 as int;
                lemma_enabled_lt_width(old(self).rows@[rseed].sels()[c], i);
                assert(!considering@.contains(r2));
                assert(self.rows@[rseed].sels()[c].solo_spec(i));
                assert forall|c2: int|
                    0 <= c2 < old(self).rows@[rseed].len_spec() && c2
                        != c implies !self.rows@[rseed].sels()[c2].enabled_spec(i) by {
                    if self.rows@[rseed].sels()[c2].enabled_spec(i) {
                        let idx2 = CellLocIndex {
                            loc: CellLoc { row: r2, col: LCol(c2 as isize) },
                            index: LInd(i as usize),
                        };
                        assert(self.sel_at(idx2.loc) == self.rows@[rseed].sels()[c2]);
                        assert(self.enabled_at(idx2));
                        assert(old(self).enabled_at(idx2));
                        assert(old(self).sel_at(idx2.loc) == old(self).rows@[rseed].sels()[c2]);
                        assert(false);
                    }
                }
            }
        }
        flips
    }
}

/// Observational equality of two grids: same shape, same answers, same
/// candidate state everywhere.
pub open spec fn puzzle_equiv(a: Puzzle, b: Puzzle) -> bool {
    &&& b.rows@.len() == a.rows@.len()
    &&& b.max_column == a.max_column
    &&& forall|r: int|
        0 <= r < a.rows@.len() ==> (#[trigger] b.rows@[r]).len_spec() == a.rows@[r].len_spec()
            && b.rows@[r].answers() == a.rows@[r].answers()
    &&& forall|r: int, c: int|
        0 <= r < a.rows@.len() && 0 <= c < a.rows@[r].len_spec() ==> sel_equiv(
            a.rows@[r].sels()[c],
            #[trigger] b.rows@[r].sels()[c],
        )
    &&& sel_equiv(a.void, b.void)
}

/// Observational equality carries well-formedness across.
pub proof fn lemma_puzzle_equiv_wf(a: Puzzle, b: Puzzle)
    requires
        puzzle_equiv(a, b),
        a.wf(),
    ensures
        b.wf(),
{
    assert forall|r: int| 0 <= r < b.rows@.len() implies (#[trigger] b.rows@[r]).wf() by {
        assert(a.rows@[r].wf());
        assert forall|c: int| 0 <= c < b.rows@[r].len_spec() implies (
        #[trigger] b.rows@[r].sels()[c]).wf() && !b.rows@[r].sels()[c].is_void_spec()
            && b.rows@[r].sels()[c].width_spec() == b.rows@[r].len_spec() by {
            assert(sel_equiv(a.rows@[r].sels()[c], b.rows@[r].sels()[c]));
        }
    }
}

impl Clone for Puzzle {
    fn clone(&self) -> (r: Self)
        ensures
            puzzle_equiv(*self, r),
    {
        let n = self.rows.len();
        let mut rows: Vec<PuzzleRow> = Vec::new();
        let mut k: usize = 0;
        while k < n
            invariant
                k <= n,
                n == self.rows@.len(),
                rows@.len() == k,
                forall|x: int|
                    0 <= x < k ==> (#[trigger] rows@[x]).len_spec() == self.rows@[x].len_spec()
                        && rows@[x].answers() == self.rows@[x].answers(),
                forall|x: int, c: int|
                    0 <= x < k && 0 <= c < self.rows@[x].len_spec() ==> sel_equiv(
                        self.rows@[x].sels()[c],
                        #[trigger] rows@[x].sels()[c],
                    ),
            decreases n - k,
        {
            rows.push(self.rows[k].clone());
            k += 1;
        }
        let void = self.void.clone();
        Puzzle { rows, max_column: self.max_column, void }
    }
}

impl Puzzle {
    /// One accepted update from outside: applies the operation to its cell
    /// and, when anything changed, runs inference to the fixed point.
    /// Returns how many bits the update itself flipped, how many more
    /// inference cleared, and every location whose state changed.
    ///
    /// The first count is exactly the operation's own effect (`op_flips`),
    /// and together with the second it accounts for the whole drop in the
    /// grid-wide candidate count, the cell standing at `count_after_op`
    /// between the two phases.
    pub fn apply_update(&mut self, index: CellLocIndex, op: UpdateCellIndexOperation) -> (r: (
        usize,
        usize,
        Vec<CellLoc>,
    ))
        requires
            old(self).wf(),
            (index.loc.row.0 as int) < old(self).n_rows_spec(),
            old(self).sel_at(index.loc).is_void_spec() || (index.index.0 as int) < old(
                self,
            ).sel_at(index.loc).width_spec(),
        ensures
            final(self).wf(),
            final(self).rows@.len() == old(self).rows@.len(),
            final(self).max_column == old(self).max_column,
            forall|rx: int|
                0 <= rx < old(self).rows@.len() ==> (#[trigger] final(self).rows@[rx]).len_spec()
                    == old(self).rows@[rx].len_spec() && final(self).rows@[rx].answers() == old(
                    self,
                ).rows@[rx].answers(),
            old(self).sel_at(index.loc).is_void_spec() ==> r.0 == 0,
            !old(self).sel_at(index.loc).is_void_spec() ==> r.0 == op_flips(
                old(self).sel_at(index.loc),
                index.index.0 as int,
                op,
            ),
            !old(self).sel_at(index.loc).is_void_spec() ==> rows_count(old(self).rows@)
                - rows_count(final(self).rows@) == old(self).sel_at(index.loc).count_spec()
                - count_after_op(old(self).sel_at(index.loc), index.index.0 as int, op) + r.1,
            op == UpdateCellIndexOperation::Clear && !old(self).sel_at(index.loc).is_void_spec()
                ==> !final(self).enabled_at(index),
            r.0 == 0 ==> r.1 == 0 && r.2@.len() == 0 && (forall|l: CellLoc|
                sel_equiv(old(self).sel_at(l), #[trigger] final(self).sel_at(l))),
            r.0 > 0 ==> r.2@.contains(index.loc),
            forall|idx2: CellLocIndex|
                old(self).enabled_at(idx2) != final(self).enabled_at(idx2) ==> r.2@.contains(
                    idx2.loc,
                ),
            forall|k: int|
                0 <= k < r.2@.len() ==> ((#[trigger] r.2@[k]).row.0 as int) < old(
                    self,
                ).n_rows_spec(),
    {
        let ghost p0 = *self;
        let ch = self.apply_at(index, op);
        if ch == 0 {
            proof {
                assert forall|l: CellLoc| sel_equiv(
                    old(self).sel_at(l),
                    #[trigger] self.sel_at(l),
                ) by {
                    if l != index.loc {
                        assert(self.sel_at(l) == old(self).sel_at(l));
                    } else {
                        let pre = old(self).sel_at(l);
                        let post = self.sel_at(l);
                        let i = index.index.0 as int;
                        if !pre.is_void_spec() {
                            assert(old(self).rows@[l.row.0 as int].wf());
                            assert(sel_after_op(pre, i, op, post, 0));
                            match op {
                                UpdateCellIndexOperation::Solo => {
                                    // a vanishing report means the sole
                                    // candidate was already the pinned one
                                    assert(pre.enabled_spec(i));
                                    assert forall|j: int| pre.enabled_spec(j) == post.enabled_spec(
                                        j,
                                    ) by {
                                        if j != i && pre.enabled_spec(j) {
                                            lemma_sel_two_enabled(pre, i, j);
                                        }
                                    }
                                },
                                _ => {},
                            }
                        }
                    }
                }
                if !old(self).sel_at(index.loc).is_void_spec() {
                    let pre = old(self).sel_at(index.loc);
                    let midsel = self.sel_at(index.loc);
                    assert(sel_after_op(pre, index.index.0 as int, op, midsel, 0));
                    lemma_rows_count_change(old(self).rows@, self.rows@, index.loc);
                    assert(pre == old(self).rows@[index.loc.row.0 as int].sels()[index.loc.col.0
                        as int]);
                    assert(midsel == self.rows@[index.loc.row.0 as int].sels()[index.loc.col.0
                        as int]);
                    assert(rows_count(old(self).rows@) - rows_count(self.rows@) == pre.count_spec()
                        - midsel.count_spec() + 0);
                    assert(ch == op_flips(pre, index.index.0 as int, op));
                    assert(midsel.count_spec() == count_after_op(pre, index.index.0 as int, op));
                }
            }
            return (ch, 0, Vec::new());
        }
        let ghost mid = *self;
        let mut tu: Vec<CellLoc> = Vec::new();
        tu.push(index.loc);
        let inf = self.run_inference(&mut tu);
        proof {
            assert(tu@[0] == index.loc);
            assert(tu@.contains(index.loc));
            assert forall|idx2: CellLocIndex|
                old(self).enabled_at(idx2) != self.enabled_at(idx2) implies tu@.contains(
                idx2.loc,
            ) by {
                if idx2.loc == index.loc {
                    assert(tu@[0] == idx2.loc);
                } else {
                    assert(mid.sel_at(idx2.loc) == old(self).sel_at(idx2.loc));
                    assert(mid.enabled_at(idx2) && !self.enabled_at(idx2));
                }
            }
            let pre = old(self).sel_at(index.loc);
            let midsel = mid.sel_at(index.loc);
            assert(!pre.is_void_spec());
            assert(sel_after_op(pre, index.index.0 as int, op, midsel, ch as int));
            lemma_rows_count_change(old(self).rows@, mid.rows@, index.loc);
            assert(pre == old(self).rows@[index.loc.row.0 as int].sels()[index.loc.col.0 as int]);
            assert(midsel == mid.rows@[index.loc.row.0 as int].sels()[index.loc.col.0 as int]);
            assert(rows_count(old(self).rows@) - rows_count(self.rows@) == pre.count_spec()
                - midsel.count_spec() + inf);
            assert(ch == op_flips(pre, index.index.0 as int, op));
            assert(midsel.count_spec() == count_after_op(pre, index.index.0 as int, op));
            if op == UpdateCellIndexOperation::Clear {
                assert(!midsel.enabled_spec(index.index.0 as int));
                assert(!mid.enabled_at(index));
                assert(!self.enabled_at(index));
            }
        }
        (ch, inf, tu)
    }
}

impl Default for Puzzle {
    fn default() -> (r: Puzzle)
        ensures
            r.wf(),
            r.rows@.len() == 0,
            r.max_column.0 == 0,
    {
        Puzzle::new()
    }
}

} // verus!
