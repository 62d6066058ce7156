use vstd::prelude::*;
use crate::constraint::Constraint;
use crate::grid::Grid;

verus! {

/// How many solutions a grid has, counted up to two.
#[derive(Debug, Clone)]
pub enum SolutionCount {
    /// No full consistent grid extends it.
    Zero,
    /// Exactly one does, and here it is.
    One(Grid),
    /// At least two do.
    MoreThanOne,
}

/// `order` holds each value of `1..=size`, and nothing else.
pub open spec fn is_candidate_order(order: Seq<usize>, size: usize) -> bool {
    &&& forall|k: int| 0 <= k < order.len() ==> 1 <= #[trigger] order[k] <= size
    &&& forall|v: usize| 1 <= v <= size ==> #[trigger] order.contains(v)
    &&& order.no_duplicates()
}

/// `a` comes before `b` in the search order of `order`: at the first cell
/// where they differ, `a`'s value stands earlier in `order` than `b`'s.
pub open spec fn earlier(order: Seq<usize>, a: Seq<usize>, b: Seq<usize>) -> bool {
    exists|i: int, ta: int, tb: int|
        #![trigger a[i], order[ta], order[tb]]
        0 <= i < a.len() && 0 <= ta < tb < order.len() && (forall|j: int|
            0 <= j < i ==> a[j] == b[j]) && order[ta] == a[i] && order[tb] == b[i]
}

/// `s` is the only solution of `g` under `c`.
pub open spec fn unique_solution(c: Constraint, g: &Grid, s: Seq<usize>) -> bool {
    &&& c.solves(g, s)
    &&& forall|t: Seq<usize>| #[trigger] c.solves(g, t) ==> t == s
}

impl SolutionCount {
    /// This count is the true classification of `g`'s solutions under `c`.
    pub open spec fn describes(&self, c: Constraint, g: &Grid) -> bool {
        match self {
            SolutionCount::Zero => forall|s: Seq<usize>| !#[trigger] c.solves(g, s),
            SolutionCount::One(t) => {
                &&& t.wf()
                &&& t.same_shape(g)
                &&& unique_solution(c, g, t.cells@)
            },
            SolutionCount::MoreThanOne => exists|s: Seq<usize>, t: Seq<usize>|
                #[trigger] c.solves(g, s) && #[trigger] c.solves(g, t) && s != t,
        }
    }
}

/// Filling an empty cell with `v` keeps exactly the solutions that hold `v` there.
pub proof fn lemma_solves_place(c: Constraint, g: &Grid, h: &Grid, p: int, v: usize)
    requires
        g.wf(),
        h.same_shape(g),
        0 <= p < g.len(),
        g.cells@[p] == 0,
        1 <= v <= g.size,
        h.cells@ == g.cells@.update(p, v),
    ensures
        forall|s: Seq<usize>| #[trigger] c.solves(h, s) <==> (c.solves(g, s) && s[p] == v),
{
    assert forall|s: Seq<usize>| #[trigger] c.solves(h, s) <==> (c.solves(g, s) && s[p] == v) by {
        if c.solves(h, s) {
            assert(h.cells@[p] == v);
            assert(s[p] == v);
            assert forall|i: int| 0 <= i < s.len() && g.cells@[i] != 0 implies #[trigger] s[i]
                == g.cells@[i] by {
                assert(h.cells@[i] == g.cells@[i]);
            }
        }
        if c.solves(g, s) && s[p] == v {
            assert forall|i: int| 0 <= i < s.len() && h.cells@[i] != 0 implies #[trigger] s[i]
                == h.cells@[i] by {
                if i != p {
                    assert(h.cells@[i] == g.cells@[i]);
                }
            }
        }
    }
}

/// A value the constraint refuses at an empty cell appears there in no solution.
pub proof fn lemma_refused_in_no_solution(c: Constraint, g: &Grid, p: int, v: usize)
    requires
        0 <= p < g.len(),
        !c.allows(g.shape(), g.cells@, p, v),
        1 <= v,
    ensures
        forall|s: Seq<usize>| #[trigger] c.solves(g, s) ==> s[p] != v,
{
    let j = choose|j: int|
        0 <= j < g.len() && j != p && #[trigger] c.linked(g.shape(), p, j) && g.cells@[j] == v;
    assert forall|s: Seq<usize>| #[trigger] c.solves(g, s) implies s[p] != v by {
        assert(s[j] == g.cells@[j]);
    }
}

/// A grid whose filled cells conflict has no solution.
pub proof fn lemma_inconsistent_no_solution(c: Constraint, g: &Grid)
    requires
        !c.consistent(g.shape(), g.cells@),
    ensures
        forall|s: Seq<usize>| !#[trigger] c.solves(g, s),
{
    let (i, j) = choose|i: int, j: int|
        0 <= i < g.len() && 0 <= j < g.len() && i != j && #[trigger] c.linked(g.shape(), i, j)
            && g.cells@[i] != 0 && g.cells@[i] == g.cells@[j];
    assert forall|s: Seq<usize>| !#[trigger] c.solves(g, s) by {
        if c.solves(g, s) {
            assert(s[i] == g.cells@[i]);
            assert(s[j] == g.cells@[j]);
        }
    }
}

/// A full consistent grid is its own only solution.
pub proof fn lemma_full_unique(c: Constraint, g: &Grid)
    requires
        g.wf(),
        g.full_cells(g.cells@),
        c.consistent(g.shape(), g.cells@),
    ensures
        unique_solution(c, g, g.cells@),
{
    assert forall|t: Seq<usize>| #[trigger] c.solves(g, t) implies t == g.cells@ by {
        assert forall|i: int| 0 <= i < t.len() implies t[i] == g.cells@[i] by {
            assert(1 <= g.cells@[i]);
        }
        assert(t =~= g.cells@);
    }
}

/// Grids with the same shape and cells have the same solutions.
pub proof fn lemma_solves_equals(c: Constraint, g: &Grid, h: &Grid)
    requires
        g.equals(h),
    ensures
        forall|s: Seq<usize>| #[trigger] c.solves(g, s) == c.solves(h, s),
{
    assert forall|s: Seq<usize>| #[trigger] c.solves(g, s) == c.solves(h, s) by {
        assert(g.shape() == h.shape());
    }
}

/// Depth-first search for the first solution, trying values in `order` at each
/// empty cell from `pos` on.
fn solve_from(g: &mut Grid, c: &Constraint, order: &Vec<usize>, pos: usize) -> (found: bool)
    requires
        old(g).wf(),
        c.consistent(old(g).shape(), old(g).cells@),
        pos <= old(g).len(),
        forall|i: int| 0 <= i < pos ==> #[trigger] old(g).cells@[i] != 0,
        is_candidate_order(order@, old(g).size),
    ensures
        final(g).wf(),
        final(g).same_shape(old(g)),
        found ==> c.solves(old(g), final(g).cells@),
        found ==> forall|s: Seq<usize>|
            #[trigger] c.solves(old(g), s) ==> !earlier(order@, s, final(g).cells@),
        !found ==> final(g).cells@ == old(g).cells@,
        !found ==> forall|s: Seq<usize>| !#[trigger] c.solves(old(g), s),
    decreases old(g).len() - pos,
{
    if pos == g.cells.len() {
        proof {
            assert forall|i: int| 0 <= i < g.len() implies 1 <= #[trigger] g.cells@[i] <= g.size by {
                assert(g.cells@[i] != 0);
            }
            lemma_full_unique(*c, g);
            assert forall|s: Seq<usize>| #[trigger] c.solves(old(g), s) implies !earlier(
                order@,
                s,
                g.cells@,
            ) by {
                if earlier(order@, s, g.cells@) {
                    let (i, ta, tb) = choose|i: int, ta: int, tb: int|
                        #![trigger s[i], order@[ta], order@[tb]]
                        0 <= i < s.len() && 0 <= ta < tb < order@.len() && (forall|j: int|
                            0 <= j < i ==> s[j] == g.cells@[j]) && order@[ta] == s[i] && order@[tb]
                            == g.cells@[i];
                    assert(c.solves(g, s));
                    assert(s[i] == g.cells@[i]);
                }
            }
        }
        return true;
    }
    if g.cells[pos] != 0 {
        return solve_from(g, c, order, pos + 1);
    }
    let ghost g0 = *g;
    assert(g0.equals(old(g)));
    proof {
        lemma_solves_equals(*c, &g0, old(g));
    }
    let mut k: usize = 0;
    while k < order.len()
        invariant
            g.wf(),
            g.same_shape(&g0),
            g.cells@ == g0.cells@,
            g0.wf(),
            g0.equals(old(g)),
            pos < g.cells.len(),
            c.consistent(g0.shape(), g0.cells@),
            pos < g0.len(),
            g0.cells@[pos as int] == 0,
            forall|i: int| 0 <= i < pos ==> #[trigger] g0.cells@[i] != 0,
            is_candidate_order(order@, g0.size),
            k <= order@.len(),
            forall|s: Seq<usize>, t: int|
                0 <= t < k && #[trigger] c.solves(&g0, s) ==> s[pos as int] != #[trigger] order@[t],
        decreases order@.len() - k,
    {
        let v = order[k];
        if c.check(g, pos, v) {
            g.cells.set(pos, v);
            proof {
                crate::constraint::lemma_place_keeps_consistent(*c, g0.shape(), g0.cells@, pos as int, v);
                lemma_solves_place(*c, &g0, g, pos as int, v);
            }
            let ghost g1 = *g;
            if solve_from(g, c, order, pos + 1) {
                proof {
                    let r = g.cells@;
                    assert forall|s: Seq<usize>| #[trigger] c.solves(old(g), s) implies !earlier(
                        order@,
                        s,
                        r,
                    ) by {
                        if earlier(order@, s, r) {
                            let (i, ta, tb) = choose|i: int, ta: int, tb: int|
                                #![trigger s[i], order@[ta], order@[tb]]
                                0 <= i < s.len() && 0 <= ta < tb < order@.len() && (forall|j: int|
                                    0 <= j < i ==> s[j] == r[j]) && order@[ta] == s[i] && order@[tb]
                                    == r[i];
                            assert(c.solves(&g0, s));
                            assert(c.solves(&g1, r));
                            if i < pos {
                                assert(s[i] == g0.cells@[i]);
                                assert(r[i] == g1.cells@[i]);
                            } else if i == pos {
                                assert(order@[k as int] == r[i]);
                                assert(tb == k);
                                assert(s[pos as int] != order@[ta]);
                            } else {
                                assert(s[pos as int] == r[pos as int]);
                                assert(c.solves(&g1, s));
                            }
                        }
                    }
                }
                return true;
            }
            assert forall|s: Seq<usize>| #[trigger] c.solves(&g0, s) implies s[pos as int] != v by {
                if s[pos as int] == v {
                    assert(c.solves(&g1, s));
                }
            }
            g.cells.set(pos, 0);
            assert(g.cells@ =~= g0.cells@);
        } else {
            proof {
                lemma_refused_in_no_solution(*c, &g0, pos as int, v);
            }
        }
        k += 1;
    }
    proof {
        assert forall|s: Seq<usize>| !#[trigger] c.solves(&g0, s) by {
            if c.solves(&g0, s) {
                let v = s[pos as int];
                assert(order@.contains(v));
                let t = choose|t: int| 0 <= t < order@.len() && order@[t] == v;
                assert(s[pos as int] != order@[t]);
            }
        }
    }
    false
}

/// The first solution of `grid` under `constraint` when the values of each
/// empty cell are tried in `order` (no solution comes `earlier`); `None`
/// exactly when it has none.
pub fn solve_first(grid: &Grid, constraint: &Constraint, order: &Vec<usize>) -> (r: Option<Grid>)
    requires
        grid.wf(),
        is_candidate_order(order@, grid.size),
    ensures
        r is None <==> forall|s: Seq<usize>| !#[trigger] constraint.solves(grid, s),
        r matches Some(t) ==> t.wf() && t.same_shape(grid) && constraint.solves(grid, t.cells@),
        r matches Some(t) ==> forall|s: Seq<usize>|
            #[trigger] constraint.solves(grid, s) ==> !earlier(order@, s, t.cells@),
{
    if !constraint.is_consistent(grid) {
        proof {
            lemma_inconsistent_no_solution(*constraint, grid);
        }
        return None;
    }
    let mut g = grid.snapshot();
    proof {
        lemma_solves_equals(*constraint, &g, grid);
    }
    let ghost g0 = g;
    if solve_from(&mut g, constraint, order, 0) {
        assert(constraint.solves(grid, g.cells@));
        assert forall|s: Seq<usize>| #[trigger] constraint.solves(grid, s) implies !earlier(
            order@,
            s,
            g.cells@,
        ) by {
            assert(constraint.solves(&g0, s));
        }
        Some(g)
    } else {
        assert forall|s: Seq<usize>| !#[trigger] constraint.solves(grid, s) by {
            assert(!constraint.solves(&g0, s));
        }
        None
    }
}

/// Counts, up to two, the solutions of `g` whose empty cells from `pos` on are
/// filled by search, trying values in ascending order.
fn count_from(g: &mut Grid, c: &Constraint, pos: usize) -> (r: SolutionCount)
    requires
        old(g).wf(),
        c.consistent(old(g).shape(), old(g).cells@),
        pos <= old(g).len(),
        forall|i: int| 0 <= i < pos ==> #[trigger] old(g).cells@[i] != 0,
    ensures
        final(g).wf(),
        final(g).equals(old(g)),
        r.describes(*c, old(g)),
    decreases old(g).len() - pos,
{
    if pos == g.cells.len() {
        proof {
            assert forall|i: int| 0 <= i < g.len() implies 1 <= #[trigger] g.cells@[i] <= g.size by {
                assert(g.cells@[i] != 0);
            }
            lemma_full_unique(*c, g);
        }
        return SolutionCount::One(g.snapshot());
    }
    if g.cells[pos] != 0 {
        return count_from(g, c, pos + 1);
    }
    let ghost g0 = *g;
    assert(g0.equals(old(g)));
    proof {
        lemma_solves_equals(*c, &g0, old(g));
    }
    let mut acc = SolutionCount::Zero;
    let mut v: usize = 1;
    while v <= g.size
        invariant
            g.wf(),
            g.equals(&g0),
            g0.wf(),
            g0.equals(old(g)),
            pos < g.cells.len(),
            c.consistent(g0.shape(), g0.cells@),
            g0.cells@[pos as int] == 0,
            forall|i: int| 0 <= i < pos ==> #[trigger] g0.cells@[i] != 0,
            1 <= v <= g0.size + 1,
            match acc {
                SolutionCount::Zero => forall|s: Seq<usize>|
                    #[trigger] c.solves(&g0, s) ==> s[pos as int] >= v,
                SolutionCount::One(t) => {
                    &&& t.wf()
                    &&& t.same_shape(&g0)
                    &&& c.solves(&g0, t.cells@)
                    &&& t.cells@[pos as int] < v
                    &&& forall|s: Seq<usize>|
                        #[trigger] c.solves(&g0, s) && s[pos as int] < v ==> s == t.cells@
                },
                SolutionCount::MoreThanOne => false,
            },
        decreases g0.size + 1 - v,
    {
        if c.check(g, pos, v) {
            g.cells.set(pos, v);
            proof {
                crate::constraint::lemma_place_keeps_consistent(*c, g0.shape(), g0.cells@, pos as int, v);
                lemma_solves_place(*c, &g0, g, pos as int, v);
            }
            let ghost g1 = *g;
            let sub = count_from(g, c, pos + 1);
            g.cells.set(pos, 0);
            assert(g.cells@ =~= g0.cells@);
            match sub {
                SolutionCount::Zero => {
                    assert forall|s: Seq<usize>| #[trigger] c.solves(&g0, s) implies s[pos as int]
                        != v by {
                        if s[pos as int] == v {
                            assert(c.solves(&g1, s));
                        }
                    }
                },
                SolutionCount::One(t) => {
                    match acc {
                        SolutionCount::One(t0) => {
                            assert(c.solves(&g0, t0.cells@));
                            assert(c.solves(&g0, t.cells@));
                            assert(t0.cells@[pos as int] != t.cells@[pos as int]);
                            assert(c.solves(old(g), t0.cells@) && c.solves(old(g), t.cells@));
                            return SolutionCount::MoreThanOne;
                        },
                        _ => {
                            assert forall|s: Seq<usize>|
                                #[trigger] c.solves(&g0, s) && s[pos as int] < v + 1 implies s
                                == t.cells@ by {
                                if s[pos as int] == v {
                                    assert(c.solves(&g1, s));
                                }
                            }
                            acc = SolutionCount::One(t);
                        },
                    }
                },
                SolutionCount::MoreThanOne => {
                    let ghost (s1, s2) = choose|s1: Seq<usize>, s2: Seq<usize>|
                        #[trigger] c.solves(&g1, s1) && #[trigger] c.solves(&g1, s2) && s1 != s2;
                    assert(c.solves(&g0, s1) && c.solves(&g0, s2));
                    assert(c.solves(old(g), s1) && c.solves(old(g), s2));
                    return SolutionCount::MoreThanOne;
                },
            }
        } else {
            proof {
                lemma_refused_in_no_solution(*c, &g0, pos as int, v);
            }
        }
        v += 1;
    }
    proof {
        assert forall|s: Seq<usize>| #[trigger] c.solves(&g0, s) implies s[pos as int] < v by {
            assert(s[pos as int] <= g0.size);
        }
    }
    acc
}

/// Classifies the solutions of `grid` under `constraint` as none, exactly one
/// (which is returned), or more than one, stopping at the second.
pub fn count_up_to_two(grid: &Grid, constraint: &Constraint) -> (r: SolutionCount)
    requires
        grid.wf(),
    ensures
        r.describes(*constraint, grid),
{
    if !constraint.is_consistent(grid) {
        proof {
            lemma_inconsistent_no_solution(*constraint, grid);
        }
        return SolutionCount::Zero;
    }
    let mut g = grid.snapshot();
    proof {
        lemma_solves_equals(*constraint, &g, grid);
    }
    let ghost g0 = g;
    let r = count_from(&mut g, constraint, 0);
    proof {
        if r is Zero {
            assert forall|s: Seq<usize>| !#[trigger] constraint.solves(grid, s) by {
                assert(!constraint.solves(&g0, s));
            }
        } else if r is One {
            assert forall|s: Seq<usize>| #[trigger] constraint.solves(grid, s) implies s
                == r->One_0.cells@ by {
                assert(constraint.solves(&g0, s));
            }
        } else {
            let (s1, s2) = choose|s1: Seq<usize>, s2: Seq<usize>|
                #[trigger] constraint.solves(&g0, s1) && #[trigger] constraint.solves(&g0, s2)
                    && s1 != s2;
            assert(constraint.solves(grid, s1) && constraint.solves(grid, s2));
        }
    }
    r
}

/// Counting is deterministic: any two results that describe the solutions of
/// the same grid under the same constraint are the same classification, and
/// agree on the solution when there is exactly one.
pub proof fn lemma_count_deterministic(c: Constraint, g: &Grid, r1: SolutionCount, r2: SolutionCount)
    requires
        r1.describes(c, g),
        r2.describes(c, g),
    ensures
        r1 is Zero <==> r2 is Zero,
        r1 is One <==> r2 is One,
        r1 is MoreThanOne <==> r2 is MoreThanOne,
        r1 is One ==> r1->One_0.cells@ == r2->One_0.cells@,
{
    if r1 is One {
        assert(c.solves(g, r1->One_0.cells@));
    }
    if r2 is One {
        assert(c.solves(g, r2->One_0.cells@));
    }
    if r1 is MoreThanOne {
        let (s1, s2) = choose|s1: Seq<usize>, s2: Seq<usize>|
            #[trigger] c.solves(g, s1) && #[trigger] c.solves(g, s2) && s1 != s2;
    }
    if r2 is MoreThanOne {
        let (s1, s2) = choose|s1: Seq<usize>, s2: Seq<usize>|
            #[trigger] c.solves(g, s1) && #[trigger] c.solves(g, s2) && s1 != s2;
    }
}

/// Counting the solutions of a grid whose only solution is `s` gives exactly
/// one, and that one is `s`.
pub proof fn lemma_count_of_unique(c: Constraint, g: &Grid, s: Seq<usize>, r: SolutionCount)
    requires
        unique_solution(c, g, s),
        r.describes(c, g),
    ensures
        r is One,
        r->One_0.cells@ == s,
{
    if r is Zero {
        assert(!c.solves(g, s));
    }
    if r is MoreThanOne {
        let (s1, s2) = choose|s1: Seq<usize>, s2: Seq<usize>|
            #[trigger] c.solves(g, s1) && #[trigger] c.solves(g, s2) && s1 != s2;
    }
    if r is One {
        assert(c.solves(g, r->One_0.cells@));
    }
}

} // verus!
