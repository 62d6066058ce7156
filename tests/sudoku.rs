use sudokuh::constraint::Constraint;
use sudokuh::generator::{generate, generate_sudoku, reduce};
use sudokuh::grid::{Grid, SudokuError};
use sudokuh::json::sudoku_json;
use sudokuh::solver::{count_up_to_two, solve_first, SolutionCount};

fn ascending(size: usize) -> Vec<usize> {
    (1..=size).collect()
}

fn all_positions(n: usize) -> Vec<usize> {
    (0..n).collect()
}

fn filled(g: &Grid) -> usize {
    g.cells.iter().filter(|v| **v != 0).count()
}

fn classic_valid(g: &Grid) -> bool {
    let s = g.size;
    for i in 0..s * s {
        for j in 0..s * s {
            if i == j {
                continue;
            }
            let (ri, ci, rj, cj) = (i / s, i % s, j / s, j % s);
            let linked = ri == rj
                || ci == cj
                || (ci / g.block_width == cj / g.block_width && ri / g.block_height == rj / g.block_height);
            if linked && g.cells[i] == g.cells[j] {
                return false;
            }
        }
    }
    true
}

fn rotated(order: &[usize], k: usize) -> Vec<usize> {
    let mut v = order[k..].to_vec();
    v.extend_from_slice(&order[..k]);
    v
}

#[test]
fn new_grid_is_empty() {
    let g = Grid::new(2, 3).unwrap();
    assert_eq!(g.size, 6);
    assert_eq!(g.cells.len(), 36);
    assert!(g.cells.iter().all(|v| *v == 0));
    assert!(!g.is_full());
}

#[test]
fn new_grid_rejects_bad_sizes() {
    assert_eq!(Grid::new(0, 3).err(), Some(SudokuError::InvalidSize));
    assert_eq!(Grid::new(3, 0).err(), Some(SudokuError::InvalidSize));
    assert_eq!(Grid::new(6, 5).err(), Some(SudokuError::InvalidSize));
    assert!(Grid::new(5, 5).is_ok());
}

#[test]
fn get_and_set_cells() {
    let mut g = Grid::new(2, 2).unwrap();
    assert_eq!(g.get(1, 2), Ok(None));
    assert_eq!(g.set(1, 2, Some(3)), Ok(()));
    assert_eq!(g.get(1, 2), Ok(Some(3)));
    assert_eq!(g.cells[2 * 4 + 1], 3);
    assert_eq!(g.set(1, 2, None), Ok(()));
    assert_eq!(g.get(1, 2), Ok(None));
}

#[test]
fn get_and_set_report_errors() {
    let mut g = Grid::new(2, 2).unwrap();
    assert_eq!(g.get(4, 0), Err(SudokuError::OutOfBounds));
    assert_eq!(g.get(0, 4), Err(SudokuError::OutOfBounds));
    assert_eq!(g.set(4, 0, Some(1)), Err(SudokuError::OutOfBounds));
    assert_eq!(g.set(0, 0, Some(5)), Err(SudokuError::InvalidNumber));
    assert_eq!(g.set(0, 0, Some(0)), Err(SudokuError::InvalidNumber));
    assert!(g.cells.iter().all(|v| *v == 0));
}

#[test]
fn check_looks_at_row_column_and_block() {
    let mut g = Grid::new(2, 2).unwrap();
    g.set(0, 0, Some(1)).unwrap();
    let c = Constraint::classic();
    assert!(!c.check(&g, 3, 1)); // same row
    assert!(!c.check(&g, 12, 1)); // same column
    assert!(!c.check(&g, 5, 1)); // same block
    assert!(c.check(&g, 10, 1)); // unrelated cell
    assert!(c.check(&g, 3, 2));
    let rows_only = Constraint { rows: true, columns: false, blocks: false };
    assert!(rows_only.check(&g, 12, 1));
    assert!(!rows_only.check(&g, 3, 1));
}

#[test]
fn consistency_of_filled_cells() {
    let c = Constraint::classic();
    let mut g = Grid::new(2, 2).unwrap();
    g.set(0, 0, Some(2)).unwrap();
    g.set(3, 3, Some(2)).unwrap();
    assert!(c.is_consistent(&g));
    g.set(3, 0, Some(2)).unwrap();
    assert!(!c.is_consistent(&g));
}

#[test]
fn flat_round_trip() {
    let values = vec![1, 2, 3, 4, 3, 4, 1, 2, 2, 1, 4, 3, 4, 3, 0, 0];
    let g = Grid::from_flat(2, 2, &values).unwrap();
    assert_eq!(g.get(2, 3), Ok(None));
    assert_eq!(g.get(1, 2), Ok(Some(1)));
    let flat = g.to_flat();
    assert_eq!(flat, values);
    let h = Grid::from_flat(g.block_width, g.block_height, &flat).unwrap();
    assert_eq!(h.block_width, g.block_width);
    assert_eq!(h.block_height, g.block_height);
    assert_eq!(h.cells, g.cells);
}

#[test]
fn from_flat_reports_errors() {
    assert_eq!(Grid::from_flat(2, 2, &vec![0; 15]).err(), Some(SudokuError::InvalidSize));
    assert_eq!(Grid::from_flat(0, 2, &vec![]).err(), Some(SudokuError::InvalidSize));
    let mut values = vec![0; 16];
    values[7] = 5;
    assert_eq!(Grid::from_flat(2, 2, &values).err(), Some(SudokuError::InvalidNumber));
}

#[test]
fn solve_first_completes_a_puzzle() {
    let values = vec![1, 0, 0, 4, 0, 4, 1, 0, 0, 1, 4, 0, 4, 0, 0, 1];
    let g = Grid::from_flat(2, 2, &values).unwrap();
    let c = Constraint::classic();
    let s = solve_first(&g, &c, &ascending(4)).unwrap();
    assert!(s.is_full());
    assert!(classic_valid(&s));
    for i in 0..16 {
        if values[i] != 0 {
            assert_eq!(s.cells[i], values[i]);
        }
    }
}

#[test]
fn solve_first_none_for_conflicting_clues() {
    let mut g = Grid::new(2, 2).unwrap();
    g.set(0, 0, Some(1)).unwrap();
    g.set(0, 1, Some(1)).unwrap();
    assert!(solve_first(&g, &Constraint::classic(), &ascending(4)).is_none());
    assert!(matches!(count_up_to_two(&g, &Constraint::classic()), SolutionCount::Zero));
}

#[test]
fn count_empty_grid_is_ambiguous() {
    let g = Grid::new(2, 2).unwrap();
    assert!(matches!(count_up_to_two(&g, &Constraint::classic()), SolutionCount::MoreThanOne));
}

#[test]
fn count_full_grid_is_one() {
    let values = vec![1, 2, 3, 4, 3, 4, 1, 2, 2, 1, 4, 3, 4, 3, 2, 1];
    let g = Grid::from_flat(2, 2, &values).unwrap();
    match count_up_to_two(&g, &Constraint::classic()) {
        SolutionCount::One(s) => assert_eq!(s.cells, values),
        other => panic!("expected one solution, got {:?}", other),
    }
}

#[test]
fn count_one_missing_cell() {
    let mut values = vec![1, 2, 3, 4, 3, 4, 1, 2, 2, 1, 4, 3, 4, 3, 2, 1];
    let full = values.clone();
    values[5] = 0;
    let g = Grid::from_flat(2, 2, &values).unwrap();
    match count_up_to_two(&g, &Constraint::classic()) {
        SolutionCount::One(s) => assert_eq!(s.cells, full),
        other => panic!("expected one solution, got {:?}", other),
    }
}

#[test]
fn generate_fills_and_satisfies() {
    for (bw, bh) in [(1, 1), (2, 1), (2, 2), (3, 2), (2, 3), (3, 3)] {
        let size = bw * bh;
        for k in 0..size {
            let order = rotated(&ascending(size), k);
            let g = generate(bw, bh, &Constraint::classic(), &order).unwrap();
            assert_eq!(g.cells.len(), size * size);
            assert!(g.is_full());
            assert!(classic_valid(&g));
            let c = Constraint::classic();
            for i in 0..size * size {
                assert!(c.check(&g, i, g.cells[i]));
            }
        }
    }
}

#[test]
fn generate_rejects_bad_sizes() {
    assert_eq!(generate(0, 3, &Constraint::classic(), &vec![]).err(), Some(SudokuError::InvalidSize));
    assert_eq!(generate(5, 6, &Constraint::classic(), &vec![]).err(), Some(SudokuError::InvalidSize));
}

#[test]
fn generate_follows_candidate_order() {
    let g = generate(2, 2, &Constraint::classic(), &vec![4, 3, 2, 1]).unwrap();
    assert_eq!(&g.cells[0..4], &[4, 3, 2, 1]);
}

#[test]
fn reduced_puzzle_has_unique_solution() {
    let c = Constraint::classic();
    let full = generate(2, 2, &c, &vec![2, 4, 1, 3]).unwrap();
    let mut puzzle = full.snapshot();
    reduce(&mut puzzle, &c, &all_positions(16));
    match count_up_to_two(&puzzle, &c) {
        SolutionCount::One(s) => assert_eq!(s.cells, full.cells),
        other => panic!("expected one solution, got {:?}", other),
    }
    for i in 0..16 {
        assert!(puzzle.cells[i] == 0 || puzzle.cells[i] == full.cells[i]);
    }
}

#[test]
fn count_is_repeatable() {
    let c = Constraint::classic();
    let full = generate(2, 3, &c, &vec![6, 1, 5, 2, 4, 3]).unwrap();
    let mut puzzle = full.snapshot();
    reduce(&mut puzzle, &c, &all_positions(36).into_iter().rev().collect());
    for _ in 0..3 {
        match count_up_to_two(&puzzle, &c) {
            SolutionCount::One(s) => assert_eq!(s.cells, full.cells),
            other => panic!("expected one solution, got {:?}", other),
        }
    }
}

#[test]
fn reduce_removes_clues() {
    let c = Constraint::classic();
    let full = generate(3, 3, &c, &ascending(9)).unwrap();
    let mut puzzle = full.snapshot();
    let positions: Vec<usize> = (0..81).map(|i| (i * 7) % 81).collect();
    reduce(&mut puzzle, &c, &positions);
    assert!(filled(&puzzle) <= filled(&full));
    assert!(filled(&puzzle) < filled(&full));
    assert_eq!(puzzle.cells[positions[0]], 0);
}

#[test]
fn reduce_keeps_cells_it_does_not_visit() {
    let c = Constraint::classic();
    let full = generate(2, 2, &c, &ascending(4)).unwrap();
    let mut puzzle = full.snapshot();
    reduce(&mut puzzle, &c, &vec![0, 5]);
    assert_eq!(puzzle.cells[0], 0);
    assert_eq!(puzzle.cells[5], 0);
    for i in 0..16 {
        if i != 0 && i != 5 {
            assert_eq!(puzzle.cells[i], full.cells[i]);
        }
    }
}

#[test]
fn reduce_without_rules_keeps_first_cell() {
    let none = Constraint { rows: false, columns: false, blocks: false };
    let full = Grid::from_flat(1, 2, &vec![1, 2, 2, 1]).unwrap();
    let mut puzzle = full.snapshot();
    reduce(&mut puzzle, &none, &all_positions(4));
    assert_eq!(puzzle.cells, full.cells);
}

#[test]
fn classic_nine_by_nine_scenario() {
    let candidates = vec![5, 3, 8, 1, 9, 2, 7, 4, 6];
    let positions: Vec<usize> = (0..81).map(|i| (i * 31 + 4) % 81).collect();
    let (puzzle, solution) = generate_sudoku(&candidates, &positions).unwrap();
    assert_eq!(solution.size, 9);
    assert_eq!(solution.cells.len(), 81);
    assert!(solution.cells.iter().all(|v| (1..=9).contains(v)));
    assert!(classic_valid(&solution));
    assert!(puzzle.cells.iter().any(|v| *v == 0));
    match count_up_to_two(&puzzle, &Constraint::classic()) {
        SolutionCount::One(s) => assert_eq!(s.cells, solution.cells),
        other => panic!("expected one solution, got {:?}", other),
    }
}

#[test]
fn one_by_one_grid() {
    let c = Constraint::classic();
    let full = generate(1, 1, &c, &vec![1]).unwrap();
    assert_eq!(full.cells, vec![1]);
    let mut puzzle = full.snapshot();
    reduce(&mut puzzle, &c, &vec![0]);
    assert_eq!(puzzle.cells, vec![0]);
    match count_up_to_two(&puzzle, &c) {
        SolutionCount::One(s) => assert_eq!(s.cells, vec![1]),
        other => panic!("expected one solution, got {:?}", other),
    }
}

#[test]
fn rows_and_json() {
    let g = Grid::from_flat(1, 2, &vec![1, 2, 2, 0]).unwrap();
    assert_eq!(g.to_rows(), vec![vec![1i8, 2], vec![2, 0]]);
    let p = Grid::from_flat(1, 1, &vec![0]).unwrap();
    let s = Grid::from_flat(1, 1, &vec![1]).unwrap();
    assert_eq!(sudoku_json(&p, &s), "[[[0]],[[1]]]");
    assert_eq!(sudoku_json(&g, &g), "[[[1,2],[2,0]],[[1,2],[2,0]]]");
}

#[test]
fn reduced_puzzle_is_locally_minimal() {
    let c = Constraint::classic();
    let full = generate(2, 2, &c, &vec![3, 1, 4, 2]).unwrap();
    let mut puzzle = full.snapshot();
    let positions: Vec<usize> = (0..16).map(|i| (i * 5 + 3) % 16).collect();
    reduce(&mut puzzle, &c, &positions);
    assert!(filled(&puzzle) < 16);
    for i in 0..16 {
        if puzzle.cells[i] != 0 {
            let mut cleared = puzzle.snapshot();
            cleared.cells[i] = 0;
            assert!(matches!(count_up_to_two(&cleared, &c), SolutionCount::MoreThanOne));
        }
    }
}

#[test]
fn solve_first_gives_first_in_order() {
    let g = Grid::new(2, 2).unwrap();
    let c = Constraint::classic();
    let s = solve_first(&g, &c, &vec![1, 2, 3, 4]).unwrap();
    assert_eq!(s.cells, vec![1, 2, 3, 4, 3, 4, 1, 2, 2, 1, 4, 3, 4, 3, 2, 1]);
}

#[test]
fn nine_by_nine_json_is_complete() {
    let candidates: Vec<usize> = (1..=9).rev().collect();
    let positions: Vec<usize> = (0..81).collect();
    let (puzzle, solution) = generate_sudoku(&candidates, &positions).unwrap();
    let text = sudoku_json(&puzzle, &solution);
    assert!(text.starts_with("[[["));
    assert_ne!(text, "serde error");
    assert!(puzzle.cells.iter().any(|v| *v == 0));
}
