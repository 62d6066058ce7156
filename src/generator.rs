use vstd::prelude::*;
use crate::constraint::Constraint;
use crate::grid::{valid_dims, Grid, SudokuError};
use crate::solver::{count_up_to_two, earlier, is_candidate_order, solve_first, unique_solution, SolutionCount};

verus! {

/// `s` is a full grid of shape `sh` that `c` accepts everywhere.
pub open spec fn is_full_grid(c: Constraint, sh: (usize, usize, usize), s: Seq<usize>) -> bool {
    &&& s.len() == sh.0 * sh.0
    &&& forall|i: int| 0 <= i < s.len() ==> 1 <= #[trigger] s[i] <= sh.0
    &&& c.consistent(sh, s)
}

/// Some full grid other than `full` agrees with it everywhere but at cell `p`.
pub open spec fn other_completion(c: Constraint, full: &Grid, p: int) -> bool {
    exists|t: Seq<usize>|
        #[trigger] is_full_grid(c, full.shape(), t) && t != full.cells@ && forall|i: int|
            0 <= i < t.len() && i != p ==> t[i] == full.cells@[i]
}

/// `sub` keeps some of the values of `s` and clears the others.
pub open spec fn is_sub_grid(sub: Seq<usize>, s: Seq<usize>) -> bool {
    &&& sub.len() == s.len()
    &&& forall|i: int| 0 <= i < s.len() ==> #[trigger] sub[i] == 0 || sub[i] == s[i]
}

/// `s` holds every filled value of `puzzle`, except perhaps at cell `p`.
pub open spec fn agrees_except(puzzle: Seq<usize>, s: Seq<usize>, p: int) -> bool {
    &&& s.len() == puzzle.len()
    &&& forall|j: int| 0 <= j < s.len() && j != p && puzzle[j] != 0 ==> #[trigger] s[j] == puzzle[j]
}

/// With cell `p` cleared, `puzzle` would have two or more full grids of shape
/// `sh` that `c` accepts: the clue at `p` cannot be removed.
pub open spec fn ambiguous_without(c: Constraint, sh: (usize, usize, usize), puzzle: Seq<usize>, p: int) -> bool {
    exists|s: Seq<usize>, t: Seq<usize>|
        #[trigger] is_full_grid(c, sh, s) && #[trigger] is_full_grid(c, sh, t) && s != t
            && agrees_except(puzzle, s, p) && agrees_except(puzzle, t, p)
}

/// At most one full grid of shape `sh` that `c` accepts holds every clue of
/// `cells`.
pub open spec fn single_completion(c: Constraint, sh: (usize, usize, usize), cells: Seq<usize>) -> bool {
    forall|s: Seq<usize>, t: Seq<usize>|
        #[trigger] is_full_grid(c, sh, s) && #[trigger] is_full_grid(c, sh, t) && agrees_except(
            cells,
            s,
            -1,
        ) && agrees_except(cells, t, -1) ==> s == t
}

/// The clues left by one pass over `positions`: in turn, each filled cell is
/// cleared when a single completion remains without it.
pub open spec fn one_pass(c: Constraint, sh: (usize, usize, usize), cells: Seq<usize>, positions: Seq<usize>) -> Seq<usize>
    decreases positions.len(),
{
    if positions.len() == 0 {
        cells
    } else {
        let before = one_pass(c, sh, cells, positions.drop_last());
        let p = positions.last() as int;
        if before[p] != 0 && single_completion(c, sh, before.update(p, 0)) {
            before.update(p, 0)
        } else {
            before
        }
    }
}

/// Clearing more clues keeps a clue that was needed needed.
pub proof fn lemma_ambiguous_sub(c: Constraint, sh: (usize, usize, usize), a: Seq<usize>, b: Seq<usize>, p: int)
    requires
        is_sub_grid(b, a),
        ambiguous_without(c, sh, a, p),
    ensures
        ambiguous_without(c, sh, b, p),
{
    let (s, t) = choose|s: Seq<usize>, t: Seq<usize>|
        #[trigger] is_full_grid(c, sh, s) && #[trigger] is_full_grid(c, sh, t) && s != t
            && agrees_except(a, s, p) && agrees_except(a, t, p);
    assert forall|j: int| 0 <= j < s.len() && j != p && b[j] != 0 implies #[trigger] s[j] == b[j] by {
        assert(b[j] == 0 || b[j] == a[j]);
    }
    assert forall|j: int| 0 <= j < t.len() && j != p && b[j] != 0 implies #[trigger] t[j] == b[j] by {
        assert(b[j] == 0 || b[j] == a[j]);
    }
    assert(agrees_except(b, s, p) && agrees_except(b, t, p));
}

/// A full grid of the given block dimensions that `constraint` accepts at
/// every cell: the first such grid when the values of each cell are tried in
/// `order`. `InvalidSize` for unsupported dimensions; `Unsatisfiable` exactly
/// when no such grid exists.
pub fn generate(block_width: usize, block_height: usize, constraint: &Constraint, order: &Vec<usize>) -> (r:
    Result<Grid, SudokuError>)
    requires
        valid_dims(block_width as int, block_height as int) ==> is_candidate_order(
            order@,
            (block_width * block_height) as usize,
        ),
    ensures
        !valid_dims(block_width as int, block_height as int) ==> r == Err::<Grid, SudokuError>(
            SudokuError::InvalidSize,
        ),
        valid_dims(block_width as int, block_height as int) ==> match r {
            Ok(g) => {
                &&& g.wf()
                &&& g.block_width == block_width
                &&& g.block_height == block_height
                &&& is_full_grid(*constraint, g.shape(), g.cells@)
                &&& forall|s: Seq<usize>|
                    #[trigger] is_full_grid(*constraint, g.shape(), s) ==> !earlier(order@, s, g.cells@)
                &&& forall|i: int|
                    0 <= i < g.len() ==> #[trigger] constraint.allows(
                        g.shape(),
                        g.cells@,
                        i,
                        g.cells@[i],
                    )
            },
            Err(e) => e == SudokuError::Unsatisfiable && forall|s: Seq<usize>|
                !#[trigger] is_full_grid(
                    *constraint,
                    ((block_width * block_height) as usize, block_width, block_height),
                    s,
                ),
        },
{
    let empty = match Grid::new(block_width, block_height) {
        Ok(g) => g,
        Err(e) => {
            return Err(e);
        },
    };
    assert(empty.shape() == ((block_width * block_height) as usize, block_width, block_height));
    match solve_first(&empty, constraint, order) {
        Some(g) => {
            assert(constraint.solves(&empty, g.cells@));
            assert(g.full_cells(g.cells@));
            assert(is_full_grid(*constraint, g.shape(), g.cells@));
            assert forall|s: Seq<usize>| #[trigger] is_full_grid(*constraint, g.shape(), s) implies !earlier(
                order@,
                s,
                g.cells@,
            ) by {
                assert(constraint.solves(&empty, s));
            }
            assert forall|i: int| 0 <= i < g.len() implies #[trigger] constraint.allows(
                g.shape(),
                g.cells@,
                i,
                g.cells@[i],
            ) by {
                assert forall|j: int|
                    0 <= j < g.len() && j != i && #[trigger] constraint.linked(
                        g.shape(),
                        i,
                        j,
                    ) implies g.cells@[j] != g.cells@[i] by {
                    assert(g.cells@[i] != 0);
                }
            }
            Ok(g)
        },
        None => {
            assert forall|s: Seq<usize>|
                !#[trigger] is_full_grid(*constraint, empty.shape(), s) by {
                if is_full_grid(*constraint, empty.shape(), s) {
                    assert(constraint.solves(&empty, s));
                }
            }
            Err(SudokuError::Unsatisfiable)
        },
    }
}

/// Clearing cells never adds filled ones; clearing a filled cell removes one.
pub proof fn lemma_filled_prefix_sub(sub: Seq<usize>, s: Seq<usize>, n: int, p: int)
    requires
        is_sub_grid(sub, s),
        0 <= n <= s.len(),
    ensures
        Grid::filled_prefix(sub, n) <= Grid::filled_prefix(s, n),
        0 <= p < n && sub[p] == 0 && s[p] != 0 ==> Grid::filled_prefix(sub, n) < Grid::filled_prefix(
            s,
            n,
        ),
    decreases n,
{
    if n > 0 {
        lemma_filled_prefix_sub(sub, s, n - 1, p);
        assert(sub[n - 1] == 0 || sub[n - 1] == s[n - 1]);
    }
}

/// Removes clues from the full grid `puzzle`, one pass over `positions` in
/// order: each filled cell is cleared, and restored unless the grid then
/// still has exactly one solution.
pub fn reduce(puzzle: &mut Grid, constraint: &Constraint, positions: &Vec<usize>)
    requires
        old(puzzle).wf(),
        is_full_grid(*constraint, old(puzzle).shape(), old(puzzle).cells@),
        forall|k: int| 0 <= k < positions@.len() ==> #[trigger] positions@[k] < old(puzzle).len(),
    ensures
        final(puzzle).wf(),
        final(puzzle).same_shape(old(puzzle)),
        final(puzzle).cells@ == one_pass(*constraint, old(puzzle).shape(), old(puzzle).cells@, positions@),
        is_sub_grid(final(puzzle).cells@, old(puzzle).cells@),
        unique_solution(*constraint, final(puzzle), old(puzzle).cells@),
        forall|i: int|
            0 <= i < old(puzzle).len() && !positions@.contains(i as usize) ==> #[trigger] final(puzzle).cells@[i]
                == old(puzzle).cells@[i],
        forall|k: int|
            0 <= k < positions@.len() && #[trigger] final(puzzle).cells@[positions@[k] as int] != 0
                ==> ambiguous_without(
                *constraint,
                old(puzzle).shape(),
                final(puzzle).cells@,
                positions@[k] as int,
            ),
        positions@.len() > 0 && final(puzzle).cells@[positions@[0] as int] != 0 ==> other_completion(
            *constraint,
            old(puzzle),
            positions@[0] as int,
        ),
{
    let ghost full = *puzzle;
    proof {
        crate::solver::lemma_full_unique(*constraint, &full);
    }
    let mut k: usize = 0;
    while k < positions.len()
        invariant
            full.wf(),
            full.equals(old(puzzle)),
            is_full_grid(*constraint, full.shape(), full.cells@),
            puzzle.wf(),
            puzzle.same_shape(&full),
            is_sub_grid(puzzle.cells@, full.cells@),
            puzzle.cells@ == one_pass(*constraint, full.shape(), full.cells@, positions@.subrange(0, k as int)),
            unique_solution(*constraint, puzzle, full.cells@),
            forall|k: int| 0 <= k < positions@.len() ==> #[trigger] positions@[k] < full.len(),
            k <= positions@.len(),
            forall|i: int|
                0 <= i < full.len() && !positions@.subrange(0, k as int).contains(i as usize)
                    ==> #[trigger] puzzle.cells@[i] == full.cells@[i],
            forall|t: int|
                0 <= t < k && #[trigger] puzzle.cells@[positions@[t] as int] != 0 ==> ambiguous_without(
                    *constraint,
                    full.shape(),
                    puzzle.cells@,
                    positions@[t] as int,
                ),
            k > 0 && puzzle.cells@[positions@[0] as int] != 0 ==> other_completion(
                *constraint,
                &full,
                positions@[0] as int,
            ),
        decreases positions@.len() - k,
    {
        let p = positions[k];
        let v = puzzle.cells[p];
        let ghost before = *puzzle;
        assert(positions@.subrange(0, k + 1).drop_last() =~= positions@.subrange(0, k as int));
        assert(positions@.subrange(0, k + 1).last() == p);
        if v != 0 {
            puzzle.cells.set(p, 0);
            assert(constraint.solves(puzzle, full.cells@));
            let count = count_up_to_two(puzzle, constraint);
            let unique = match count {
                SolutionCount::One(t) => {
                    assert(constraint.solves(puzzle, t.cells@));
                    assert(full.cells@ == t.cells@);
                    proof {
                        assert forall|t: int|
                            0 <= t < k && #[trigger] puzzle.cells@[positions@[t] as int] != 0
                                implies ambiguous_without(
                            *constraint,
                            full.shape(),
                            puzzle.cells@,
                            positions@[t] as int,
                        ) by {
                            lemma_ambiguous_sub(
                                *constraint,
                                full.shape(),
                                before.cells@,
                                puzzle.cells@,
                                positions@[t] as int,
                            );
                        }
                        assert forall|s1: Seq<usize>, s2: Seq<usize>|
                            #[trigger] is_full_grid(*constraint, full.shape(), s1) && #[trigger] is_full_grid(
                                *constraint,
                                full.shape(),
                                s2,
                            ) && agrees_except(puzzle.cells@, s1, -1) && agrees_except(puzzle.cells@, s2, -1)
                                implies s1 == s2 by {
                            assert(constraint.solves(puzzle, s1));
                            assert(constraint.solves(puzzle, s2));
                        }
                        assert(puzzle.cells@ =~= before.cells@.update(p as int, 0));
                    }
                    true
                },
                _ => false,
            };
            if !unique {
                proof {
                    let (s1, s2) = choose|s1: Seq<usize>, s2: Seq<usize>|
                        #[trigger] constraint.solves(puzzle, s1) && #[trigger] constraint.solves(
                            puzzle,
                            s2,
                        ) && s1 != s2;
                    assert(is_full_grid(*constraint, full.shape(), s1));
                    assert(is_full_grid(*constraint, full.shape(), s2));
                    assert(puzzle.cells@ =~= before.cells@.update(p as int, 0));
                    assert(agrees_except(puzzle.cells@, s1, -1));
                    assert(agrees_except(puzzle.cells@, s2, -1));
                    assert(!single_completion(*constraint, full.shape(), puzzle.cells@));
                    assert forall|j: int| 0 <= j < s1.len() && j != p && before.cells@[j] != 0 implies #[trigger] s1[j]
                        == before.cells@[j] by {
                        assert(puzzle.cells@[j] == before.cells@[j]);
                    }
                    assert forall|j: int| 0 <= j < s2.len() && j != p && before.cells@[j] != 0 implies #[trigger] s2[j]
                        == before.cells@[j] by {
                        assert(puzzle.cells@[j] == before.cells@[j]);
                    }
                    assert(ambiguous_without(*constraint, full.shape(), before.cells@, p as int));
                    if k == 0 {
                        let t = if s1 != full.cells@ { s1 } else { s2 };
                        assert(constraint.solves(puzzle, t));
                        assert(is_full_grid(*constraint, full.shape(), t));
                        assert forall|i: int| 0 <= i < t.len() && i != p implies t[i]
                            == full.cells@[i] by {
                            assert(puzzle.cells@[i] == before.cells@[i]);
                            assert(before.cells@[i] != 0);
                        }
                    }
                }
                puzzle.cells.set(p, v);
                assert(puzzle.cells@ =~= before.cells@);
                proof {
                    crate::solver::lemma_solves_equals(*constraint, puzzle, &before);
                }
            }
        }
        proof {
            assert forall|i: int|
                0 <= i < full.len() && !positions@.subrange(0, k + 1).contains(
                    i as usize,
                ) implies #[trigger] puzzle.cells@[i] == full.cells@[i] by {
                assert(positions@.subrange(0, k + 1)[k as int] == p);
                if positions@.subrange(0, k as int).contains(i as usize) {
                    let j = choose|j: int|
                        0 <= j < k && positions@.subrange(0, k as int)[j] == i as usize;
                    assert(positions@.subrange(0, k + 1)[j] == i as usize);
                }
            }
        }
        k += 1;
    }
    assert(positions@.subrange(0, k as int) =~= positions@);
}

/// Under a constraint with the row rule, a full grid's value at `p` is forced
/// by the rest of its row: no other full grid differs from it at `p` alone.
pub proof fn lemma_row_forces_cell(c: Constraint, full: &Grid, p: int)
    requires
        c.rows,
        full.wf(),
        is_full_grid(c, full.shape(), full.cells@),
        0 <= p < full.len(),
    ensures
        !other_completion(c, full, p),
{
    let n = full.size as int;
    let s = full.cells@;
    let row = p / n;
    assert(0 <= row < n) by {
        vstd::arithmetic::div_mod::lemma_fundamental_div_mod(p, n);
        assert(p == n * (p / n) + p % n);
        assert(0 <= p % n < n);
        if row >= n {
            assert(n * row >= n * n) by (nonlinear_arith)
                requires row >= n, n >= 1;
        }
        if row < 0 {
            assert(n * row < 0) by (nonlinear_arith)
                requires row < 0, n >= 1;
        }
    }
    let q = Seq::new(n as nat, |k: int| s[row * n + k] as int);
    assert forall|a: int, b: int| 0 <= a < q.len() && 0 <= b < q.len() && a != b implies q[a]
        != q[b] by {
        crate::grid::lemma_index(n, a, row);
        crate::grid::lemma_index(n, b, row);
        assert(c.linked(full.shape(), row * n + a, row * n + b));
        assert(s[row * n + a] != 0);
    }
    assert(q.no_duplicates());
    q.unique_seq_to_set();
    if other_completion(c, full, p) {
        let t = choose|t: Seq<usize>|
            #[trigger] is_full_grid(c, full.shape(), t) && t != full.cells@ && forall|i: int|
                0 <= i < t.len() && i != p ==> t[i] == full.cells@[i];
        if t[p] == s[p] {
            assert(t =~= s);
        }
        let w = t[p] as int;
        vstd::set_lib::lemma_int_range(1, n + 1);
        if !q.to_set().contains(w) {
            let r = vstd::set_lib::set_int_range(1, n + 1).remove(w);
            assert(vstd::set_lib::set_int_range(1, n + 1).contains(w));
            assert(r.len() == n - 1);
            assert forall|x: int| q.to_set().contains(x) implies r.contains(x) by {
                let k = choose|k: int| 0 <= k < q.len() && q[k] == x;
                crate::grid::lemma_index(n, k, row);
            }
            vstd::set_lib::lemma_len_subset(q.to_set(), r);
        }
        let k = choose|k: int| 0 <= k < q.len() && q[k] == w;
        crate::grid::lemma_index(n, k, row);
        let j = row * n + k;
        crate::grid::lemma_index(n, p % n, row);
        vstd::arithmetic::div_mod::lemma_fundamental_div_mod(p, n);
        assert(c.linked(full.shape(), p, j));
        assert(t[j] == s[j]);
    }
}

/// A reduced puzzle has no more clues than its full grid, and strictly fewer
/// unless clearing the first attempted cell alone leaves another completion.
pub proof fn lemma_reduce_monotone(c: Constraint, full: &Grid, puzzle: &Grid, first: int)
    requires
        full.wf(),
        is_full_grid(c, full.shape(), full.cells@),
        is_sub_grid(puzzle.cells@, full.cells@),
        0 <= first < full.len(),
        puzzle.cells@[first] != 0 ==> other_completion(c, full, first),
    ensures
        puzzle.filled_count() <= full.filled_count(),
        !other_completion(c, full, first) ==> puzzle.filled_count() < full.filled_count(),
{
    lemma_filled_prefix_sub(puzzle.cells@, full.cells@, full.len(), first);
}

/// The value a pattern grid holds in row `r`, column `c` of a 9x9 grid.
pub open spec fn pattern_value(r: int, c: int) -> int {
    (3 * (r % 3) + r / 3 + c) % 9 + 1
}

/// A full classic 9x9 grid exists: the shifted-row pattern.
pub proof fn lemma_classic_grid_exists()
    ensures
        is_full_grid(
            Constraint::classic_spec(),
            (9, 3, 3),
            Seq::new(81, |i: int| pattern_value(i / 9, i % 9) as usize),
        ),
{
    let s = Seq::new(81, |i: int| pattern_value(i / 9, i % 9) as usize);
    let c = Constraint::classic_spec();
    assert forall|i: int| 0 <= i < s.len() implies 1 <= #[trigger] s[i] <= 9 by {}
    assert forall|i: int, j: int|
        0 <= i < s.len() && 0 <= j < s.len() && i != j && #[trigger] c.linked((9, 3, 3), i, j)
            && s[i] != 0 implies s[i] != s[j] by {
        vstd::arithmetic::div_mod::lemma_fundamental_div_mod(i, 9);
        vstd::arithmetic::div_mod::lemma_fundamental_div_mod(j, 9);
        lemma_pattern_distinct(i / 9, i % 9, j / 9, j % 9);
    }
}

/// Two linked cells of the pattern grid hold different values.
proof fn lemma_pattern_distinct(r1: int, c1: int, r2: int, c2: int)
    requires
        0 <= r1 < 9 && 0 <= r2 < 9 && 0 <= c1 < 9 && 0 <= c2 < 9,
        r1 != r2 || c1 != c2,
        r1 == r2 || c1 == c2 || (c1 / 3 == c2 / 3 && r1 / 3 == r2 / 3),
    ensures
        pattern_value(r1, c1) != pattern_value(r2, c2),
{
    let k1 = 3 * (r1 % 3) + r1 / 3;
    let k2 = 3 * (r2 % 3) + r2 / 3;
    assert(0 <= k1 < 9 && 0 <= k2 < 9);
    if r1 == r2 {
        assert((k1 + c1) % 9 != (k1 + c2) % 9);
    } else if c1 == c2 {
        assert(k1 != k2);
        assert((k1 + c1) % 9 != (k2 + c1) % 9);
    } else {
        assert(r1 / 3 == r2 / 3);
        assert(r1 % 3 != r2 % 3);
        assert((k1 + c1) % 9 != (k2 + c2) % 9);
    }
}

/// A classic 9x9 puzzle and its solution: the solution is generated trying
/// values in `candidate_order`, then reduced in one pass over `cell_order`,
/// which visits every cell. It always succeeds. The puzzle has a single
/// solution, at least one empty cell, and no clue that could be cleared alone.
#[verifier::rlimit(30)]
pub fn generate_sudoku(candidate_order: &Vec<usize>, cell_order: &Vec<usize>) -> (r: Result<
    (Grid, Grid),
    SudokuError,
>)
    requires
        is_candidate_order(candidate_order@, 9),
        forall|k: int| 0 <= k < cell_order@.len() ==> #[trigger] cell_order@[k] < 81,
        forall|i: usize| i < 81 ==> #[trigger] cell_order@.contains(i),
    ensures
        r is Ok,
        r matches Ok((puzzle, solution)) ==> {
                &&& solution.wf()
                &&& solution.block_width == 3 && solution.block_height == 3
                &&& is_full_grid(Constraint::classic_spec(), solution.shape(), solution.cells@)
                &&& puzzle.wf()
                &&& puzzle.same_shape(&solution)
                &&& is_sub_grid(puzzle.cells@, solution.cells@)
                &&& forall|i: int|
                    0 <= i < solution.len() ==> #[trigger] Constraint::classic_spec().allows(
                        solution.shape(),
                        solution.cells@,
                        i,
                        solution.cells@[i],
                    )
                &&& unique_solution(Constraint::classic_spec(), &puzzle, solution.cells@)
                &&& exists|i: int| 0 <= i < puzzle.len() && #[trigger] puzzle.cells@[i] == 0
                &&& puzzle.filled_count() < solution.filled_count()
                &&& forall|i: int|
                    0 <= i < puzzle.len() && #[trigger] puzzle.cells@[i] != 0 ==> ambiguous_without(
                        Constraint::classic_spec(),
                        solution.shape(),
                        puzzle.cells@,
                        i,
                    )
            },
{
    let constraint = Constraint::classic();
    let solution = match generate(3, 3, &constraint, candidate_order) {
        Ok(g) => g,
        Err(e) => {
            proof {
                lemma_classic_grid_exists();
            }
            return Err(e);
        },
    };
    let mut puzzle = solution.snapshot();
    let ghost full = puzzle;
    reduce(&mut puzzle, &constraint, cell_order);
    proof {
        assert(cell_order@.contains(0usize));
        let first = cell_order@[0] as int;
        lemma_row_forces_cell(constraint, &full, first);
        assert(puzzle.cells@[first] == 0);
        lemma_reduce_monotone(constraint, &full, &puzzle, first);
        assert forall|i: int|
            0 <= i < puzzle.len() && #[trigger] puzzle.cells@[i] != 0 implies ambiguous_without(
            constraint,
            solution.shape(),
            puzzle.cells@,
            i,
        ) by {
            assert(cell_order@.contains(i as usize));
            let k = choose|k: int| 0 <= k < cell_order@.len() && cell_order@[k] == i as usize;
            assert(puzzle.cells@[cell_order@[k] as int] != 0);
        }
        assert(puzzle.cells@[first] == 0);
        assert(exists|i: int| 0 <= i < puzzle.len() && #[trigger] puzzle.cells@[i] == 0);
        assert(puzzle.filled_count() < solution.filled_count());
        assert(is_sub_grid(puzzle.cells@, solution.cells@));
        assert(unique_solution(constraint, &puzzle, solution.cells@));
    }
    Ok((puzzle, solution))
}

} // verus!
