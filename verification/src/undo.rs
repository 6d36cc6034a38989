//! Branching undo history: an arena of whole-grid snapshots, each non-root
//! node keeping the index of the node it was reached from and the action
//! that produced it.  The cursor walks parent edges on undo, and child
//! edges on redo — but only while exactly one child exists, so a history
//! that has branched refuses to guess which future to restore.

use vstd::prelude::*;

verus! {

use crate::puzzle::Puzzle;
use crate::clues::UpdateCellIndex;

/// One recorded transition: the update that was applied, how many bits it
/// changed directly, and how many more inference cleared.
#[derive(Clone, Copy, Debug, PartialEq, Eq, Structural)]
pub struct Action {
    pub update: UpdateCellIndex,
    pub update_count: usize,
    pub inferred_count: usize,
}

/// One snapshot node; the root carries no parent and no action.
#[derive(Debug, Clone)]
pub struct UndoNode {
    pub state: Puzzle,
    pub parent: Option<usize>,
    pub action: Option<Action>,
}

/// The cursor naming the node that is "now".
#[derive(Clone, Copy, Debug, PartialEq, Eq, Structural)]
pub struct UndoTreeLocation {
    pub current: usize,
}

/// Whether node `i` was reached from node `p`.
pub open spec fn is_child(nodes: Seq<UndoNode>, p: usize, i: int) -> bool {
    0 <= i < nodes.len() && nodes[i].parent == Some(p)
}

/// How many of the first `n` nodes were reached from node `p`.
pub open spec fn children_to(nodes: Seq<UndoNode>, p: usize, n: int) -> int
    decreases n,
{
    if n <= 0 {
        0
    } else {
        children_to(nodes, p, n - 1) + if nodes[n - 1].parent == Some(p) {
            1int
        } else {
            0int
        }
    }
}

/// How many nodes were reached from node `p`.
pub open spec fn num_children(nodes: Seq<UndoNode>, p: usize) -> int {
    children_to(nodes, p, nodes.len() as int)
}

/// What a push does: one node appended, reached from the cursor, and the
/// cursor moved onto it.
pub open spec fn push_spec(nodes: Seq<UndoNode>, cur: usize, state: Puzzle, action: Action) -> (
    Seq<UndoNode>,
    usize,
) {
    (
        nodes.push(UndoNode { state, parent: Some(cur), action: Some(action) }),
        nodes.len() as usize,
    )
}

/// What an undo does: the cursor moves to the parent when one exists, and
/// stays put, refused, at the root.
pub open spec fn undo_spec(nodes: Seq<UndoNode>, cur: usize) -> (usize, bool) {
    match nodes[cur as int].parent {
        Some(p) => (p, true),
        None => (cur, false),
    }
}

/// What a redo does: the cursor moves to the unique child when exactly one
/// exists, and stays put, refused, otherwise.
pub open spec fn redo_spec(nodes: Seq<UndoNode>, cur: usize) -> (usize, bool) {
    if num_children(nodes, cur) == 1 {
        ((choose|i: int| is_child(nodes, cur, i)) as usize, true)
    } else {
        (cur, false)
    }
}

proof fn lemma_children_bounds(nodes: Seq<UndoNode>, p: usize, n: int)
    requires
        n <= nodes.len(),
    ensures
        0 <= children_to(nodes, p, n),
        n >= 0 ==> children_to(nodes, p, n) <= n,
    decreases n,
{
    if n > 0 {
        lemma_children_bounds(nodes, p, n - 1);
    }
}

proof fn lemma_child_counted(nodes: Seq<UndoNode>, p: usize, i: int, n: int)
    requires
        is_child(nodes, p, i),
        i < n <= nodes.len(),
    ensures
        children_to(nodes, p, n) >= 1,
    decreases n,
{
    if i < n - 1 {
        lemma_child_counted(nodes, p, i, n - 1);
    } else {
        lemma_children_bounds(nodes, p, n - 1);
    }
}

proof fn lemma_two_children(nodes: Seq<UndoNode>, p: usize, i: int, j: int)
    requires
        is_child(nodes, p, i),
        is_child(nodes, p, j),
        i != j,
    ensures
        num_children(nodes, p) >= 2,
{
    lemma_two_children_to(nodes, p, i, j, nodes.len() as int);
}

proof fn lemma_two_children_to(nodes: Seq<UndoNode>, p: usize, i: int, j: int, n: int)
    requires
        is_child(nodes, p, i),
        is_child(nodes, p, j),
        i != j,
        i < n <= nodes.len(),
        j < n,
    ensures
        children_to(nodes, p, n) >= 2,
    decreases n,
{
    if i == n - 1 {
        lemma_child_counted(nodes, p, j, n - 1);
    } else if j == n - 1 {
        lemma_child_counted(nodes, p, i, n - 1);
    } else {
        lemma_two_children_to(nodes, p, i, j, n - 1);
    }
}

/// With exactly one child counted, every child is that one.
proof fn lemma_unique_child(nodes: Seq<UndoNode>, p: usize, i: int, j: int)
    requires
        num_children(nodes, p) == 1,
        is_child(nodes, p, i),
        is_child(nodes, p, j),
    ensures
        i == j,
{
    if i != j {
        lemma_two_children(nodes, p, i, j);
    }
}

/// Appending a node counts one more child for its parent, none for others.
proof fn lemma_children_push(nodes: Seq<UndoNode>, p: usize, node: UndoNode, n: int)
    requires
        0 <= n <= nodes.len(),
    ensures
        children_to(nodes.push(node), p, n) == children_to(nodes, p, n),
    decreases n,
{
    if n > 0 {
        lemma_children_push(nodes, p, node, n - 1);
    }
}

/// The snapshot history: a tree of grid states grown one accepted update at
/// a time.
#[derive(Debug)]
pub struct UndoTree {
    pub nodes: Vec<UndoNode>,
    pub root: usize,
}

impl UndoTree {
    pub open spec fn wf(&self) -> bool {
        &&& self.nodes@.len() >= 1
        &&& self.root == 0
        &&& self.nodes@[0].parent is None
        &&& forall|i: int|
            1 <= i < self.nodes@.len() ==> ((#[trigger] self.nodes@[i]).parent matches Some(pp)
                && (pp as int) < i)
    }

    pub open spec fn loc_wf(&self, loc: UndoTreeLocation) -> bool {
        (loc.current as int) < self.nodes@.len()
    }

    /// A history holding only the given starting state, with the cursor on
    /// it.
    pub fn new(initial: Puzzle) -> (r: (UndoTree, UndoTreeLocation))
        ensures
            r.0.wf(),
            r.0.loc_wf(r.1),
            r.0.nodes@.len() == 1,
            r.0.nodes@[0].state == initial,
            r.1.current == 0,
    {
        let mut nodes: Vec<UndoNode> = Vec::new();
        nodes.push(UndoNode { state: initial, parent: None, action: None });
        (UndoTree { nodes, root: 0 }, UndoTreeLocation { current: 0 })
    }

    pub fn current_state(&self, loc: &UndoTreeLocation) -> (r: &Puzzle)
        requires
            self.loc_wf(*loc),
        ensures
            *r == self.nodes@[loc.current as int].state,
    {
        &self.nodes[loc.current].state
    }

    /// Records an accepted update: a new node holding the snapshot, an edge
    /// back to the cursor labelled with the action, and the cursor moved to
    /// the new node.
    pub fn push(&mut self, loc: &mut UndoTreeLocation, new_state: Puzzle, action: Action)
        requires
            old(self).wf(),
            old(self).loc_wf(*old(loc)),
            old(self).nodes@.len() < usize::MAX,
        ensures
            final(self).wf(),
            final(self).loc_wf(*final(loc)),
            (final(self).nodes@, final(loc).current) == push_spec(
                old(self).nodes@,
                old(loc).current,
                new_state,
                action,
            ),
    {
        let new_index = self.nodes.len();
        self.nodes.push(
            UndoNode { state: new_state, parent: Some(loc.current), action: Some(action) },
        );
        loc.current = new_index;
    }

    /// Moves the cursor to the parent node; refused, with the grid left
    /// alone, when the cursor already stands at the root.
    pub fn undo(&self, loc: &mut UndoTreeLocation) -> (r: bool)
        requires
            self.wf(),
            self.loc_wf(*old(loc)),
        ensures
            self.loc_wf(*final(loc)),
            (final(loc).current, r) == undo_spec(self.nodes@, old(loc).current),
    {
        match self.nodes[loc.current].parent {
            Some(p) => {
                loc.current = p;
                true
            },
            None => false,
        }
    }

    /// Moves the cursor along the unique forward edge; refused when there
    /// is none, or when the history has branched and more than one future
    /// exists.
    pub fn redo(&self, loc: &mut UndoTreeLocation) -> (r: bool)
        requires
            self.wf(),
            self.loc_wf(*old(loc)),
        ensures
            self.loc_wf(*final(loc)),
            (final(loc).current, r) == redo_spec(self.nodes@, old(loc).current),
    {
        let cur = loc.current;
        let n = self.nodes.len();
        let mut found: usize = 0;
        let mut idx: usize = 0;
        let mut i: usize = 0;
        while i < n
            invariant
                i <= n,
                n == self.nodes@.len(),
                (cur as int) < self.nodes@.len(),
                found == children_to(self.nodes@, cur, i as int),
                found >= 1 ==> is_child(self.nodes@, cur, idx as int),
            decreases n - i,
        {
            let ic = match self.nodes[i].parent {
                Some(p) => p == cur,
                None => false,
            };
            proof {
                lemma_children_bounds(self.nodes@, cur, i as int);
            }
            if ic {
                found += 1;
                idx = i;
            }
            i += 1;
        }
        if found == 1 {
            proof {
                let w = choose|x: int| is_child(self.nodes@, cur, x);
                lemma_unique_child(self.nodes@, cur, idx as int, w);
            }
            loc.current = idx;
            true
        } else {
            false
        }
    }
}

/// Undo and redo round-trip through pushed snapshots.  After recording two
/// snapshots, two undos put the cursor back on the starting node, whose
/// snapshot is untouched; from there one redo is accepted and lands on the
/// first recorded snapshot; but once a second, divergent snapshot has been
/// recorded from the same starting node, redo is refused rather than
/// guessing a branch.
pub proof fn lemma_undo_redo_round_trip(
    nodes: Seq<UndoNode>,
    cur: usize,
    s1: Puzzle,
    a1: Action,
    s2: Puzzle,
    a2: Action,
)
    requires
        0 <= (cur as int) < nodes.len(),
        nodes.len() + 2 < usize::MAX,
        num_children(nodes, cur) == 0,
    ensures
        ({
            let (n1, c1) = push_spec(nodes, cur, s1, a1);
            let (n2, c2) = push_spec(n1, c1, s2, a2);
            let (u1, ok1) = undo_spec(n2, c2);
            let (u2, ok2) = undo_spec(n2, u1);
            &&& ok1 && u1 == c1
            &&& ok2 && u2 == cur
            &&& n2[cur as int] == nodes[cur as int]
            &&& n2[c1 as int].state == s1
            &&& n2[c2 as int].state == s2
            &&& redo_spec(n2, u2) == (c1, true)
            &&& n2[redo_spec(n2, u2).0 as int].state == s1
        }),
        ({
            let (n1, c1) = push_spec(nodes, cur, s1, a1);
            let (n3, c3) = push_spec(n1, cur, s2, a2);
            redo_spec(n3, cur) == (cur, false)
        }),
{
    let (n1, c1) = push_spec(nodes, cur, s1, a1);
    let (n2, c2) = push_spec(n1, c1, s2, a2);
    let node1 = UndoNode { state: s1, parent: Some(cur), action: Some(a1) };
    let node2 = UndoNode { state: s2, parent: Some(c1), action: Some(a2) };
    // round trip: the two parent edges lead back where the pushes started
    assert(n2[c2 as int].parent == Some(c1));
    assert(n2[c1 as int].parent == Some(cur));
    // one child of cur exists in n2: the first push; the second hangs off c1
    lemma_children_push(nodes, cur, node1, nodes.len() as int);
    lemma_children_push(n1, cur, node2, nodes.len() as int);
    assert(children_to(n2, cur, nodes.len() as int) == 0);
    assert(children_to(n2, cur, n1.len() as int) == 1);
    assert(num_children(n2, cur) == 1);
    assert(is_child(n2, cur, c1 as int));
    let w = choose|i: int| is_child(n2, cur, i);
    lemma_unique_child(n2, cur, w, c1 as int);
    // divergence: two pushes from cur give it two children, so redo refuses
    let (n3, c3) = push_spec(n1, cur, s2, a2);
    let node3 = UndoNode { state: s2, parent: Some(cur), action: Some(a2) };
    assert(is_child(n3, cur, c1 as int));
    assert(is_child(n3, cur, c3 as int));
    lemma_two_children(n3, cur, c1 as int, c3 as int);
}

} // verus!
