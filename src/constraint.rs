use vstd::prelude::*;
use crate::grid::Grid;

verus! {

/// A placement rule made of built-in uniqueness rules, combined by AND: a value
/// may not repeat in a row (`rows`), a column (`columns`) or a block (`blocks`).
#[derive(Debug, Clone, Copy, PartialEq, Eq, Structural)]
pub struct Constraint {
    pub rows: bool,
    pub columns: bool,
    pub blocks: bool,
}

impl Constraint {
    /// Classic Sudoku: rows, columns and blocks.
    /// The rules of `classic`.
    pub open spec fn classic_spec() -> Constraint {
        Constraint { rows: true, columns: true, blocks: true }
    }

    pub fn classic() -> (r: Constraint)
        ensures
            r == Self::classic_spec(),
    {
        Constraint { rows: true, columns: true, blocks: true }
    }

    /// Cells `i` and `j` of a grid of shape `sh` may not hold the same value
    /// under this constraint. `sh` is a grid's shape `(size, block_width, block_height)`.
    pub open spec fn linked(self, sh: (usize, usize, usize), i: int, j: int) -> bool {
        let s = sh.0 as int;
        ||| self.rows && i / s == j / s
        ||| self.columns && i % s == j % s
        ||| self.blocks && (i % s) / (sh.1 as int) == (j % s) / (sh.1 as int) && (i / s) / (
        sh.2 as int) == (j / s) / (sh.2 as int)
    }

    /// Value `v` may stand at cell `p` given the other cells of `s`.
    pub open spec fn allows(self, sh: (usize, usize, usize), s: Seq<usize>, p: int, v: usize) -> bool {
        forall|j: int|
            0 <= j < s.len() && j != p && #[trigger] self.linked(sh, p, j) ==> s[j] != v
    }

    /// No two linked filled cells of `s` hold the same value.
    pub open spec fn consistent(self, sh: (usize, usize, usize), s: Seq<usize>) -> bool {
        forall|i: int, j: int|
            0 <= i < s.len() && 0 <= j < s.len() && i != j && #[trigger] self.linked(sh, i, j)
                && s[i] != 0 ==> s[i] != s[j]
    }

    /// `s` is a full, consistent grid that agrees with every filled cell of `g`.
    pub open spec fn solves(self, g: &Grid, s: Seq<usize>) -> bool {
        &&& g.extended_by(s)
        &&& g.full_cells(s)
        &&& self.consistent(g.shape(), s)
    }

    /// Whether placing `value` at flat index `pos` is consistent with the
    /// other filled cells of `g`.
    pub fn check(&self, g: &Grid, pos: usize, value: usize) -> (r: bool)
        requires
            g.wf(),
            pos < g.cells@.len(),
        ensures
            r == self.allows(g.shape(), g.cells@, pos as int, value),
    {
        let size = g.size;
        let pr = pos / size;
        let pc = pos % size;
        let pbc = pc / g.block_width;
        let pbr = pr / g.block_height;
        let mut j: usize = 0;
        while j < g.cells.len()
            invariant
                g.wf(),
                pos < g.cells@.len(),
                size == g.size,
                pr == pos / size,
                pc == pos % size,
                pbc == pc / g.block_width,
                pbr == pr / g.block_height,
                j <= g.cells@.len(),
                forall|k: int|
                    0 <= k < j && k != pos && #[trigger] self.linked(g.shape(), pos as int, k)
                        ==> g.cells@[k] != value,
            decreases g.cells@.len() - j,
        {
            if j != pos && g.cells[j] == value {
                let r = j / size;
                let c = j % size;
                if (self.rows && r == pr) || (self.columns && c == pc) || (self.blocks && c
                    / g.block_width == pbc && r / g.block_height == pbr) {
                    assert(self.linked(g.shape(), pos as int, j as int));
                    return false;
                }
            }
            j += 1;
        }
        true
    }

    /// Whether the filled cells of `g` are mutually consistent.
    pub fn is_consistent(&self, g: &Grid) -> (r: bool)
        requires
            g.wf(),
        ensures
            r == self.consistent(g.shape(), g.cells@),
    {
        let mut i: usize = 0;
        while i < g.cells.len()
            invariant
                g.wf(),
                i <= g.cells@.len(),
                forall|a: int, b: int|
                    0 <= a < i && 0 <= b < g.cells@.len() && a != b && #[trigger] self.linked(g.shape(), a, b) && g.cells@[a] != 0 ==> g.cells@[a] != g.cells@[b],
            decreases g.cells@.len() - i,
        {
            let v = g.cells[i];
            if v != 0 && !self.check(g, i, v) {
                return false;
            }
            i += 1;
        }
        true
    }
}

/// Linking is symmetric.
pub proof fn lemma_linked_symmetric(c: Constraint, sh: (usize, usize, usize), i: int, j: int)
    ensures
        c.linked(sh, i, j) == c.linked(sh, j, i),
{
}

/// A consistent grid stays consistent after an allowed placement in an empty cell.
pub proof fn lemma_place_keeps_consistent(
    c: Constraint,
    sh: (usize, usize, usize),
    s: Seq<usize>,
    p: int,
    v: usize,
)
    requires
        c.consistent(sh, s),
        0 <= p < s.len(),
        s[p] == 0,
        c.allows(sh, s, p, v),
    ensures
        c.consistent(sh, s.update(p, v)),
{
    let t = s.update(p, v);
    assert forall|i: int, j: int|
        0 <= i < t.len() && 0 <= j < t.len() && i != j && #[trigger] c.linked(sh, i, j) && t[i]
            != 0 implies t[i] != t[j] by {
        lemma_linked_symmetric(c, sh, i, j);
        if i == p {
        } else if j == p {
            assert(c.linked(sh, p, i));
        } else {
        }
    }
}

} // verus!
