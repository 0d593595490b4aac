use sudoku_solver::grid::Grid;
use sudoku_solver::utility::{CellPossibleValues, SudokuError};

/// A complete valid solution with value 1 at (0, 0): row `r` holds the
/// digits shifted so that cell (r, c) = (r * 3 + r / 3 + c) % 9 + 1.
fn solution_value(r: usize, c: usize) -> u8 {
    ((r * 3 + r / 3 + c) % 9 + 1) as u8
}

fn solution_lines() -> Vec<Vec<u8>> {
    let mut lines = Vec::new();
    for r in 0..9 {
        let mut line = Vec::new();
        for c in 0..9 {
            line.push(b'0' + solution_value(r, c));
        }
        lines.push(line);
    }
    lines
}

#[test]
fn load_round_trip_of_complete_solution() {
    let mut grid = Grid::default();
    assert!(grid.load_from_lines(&solution_lines()).is_ok());
    assert!(grid.is_complete());
    let mut remaining: Vec<CellPossibleValues> = Vec::new();
    grid.get_remaining_values(&mut remaining);
    assert!(remaining.is_empty());
    let snapshot = grid.get_grid_cell_values();
    for r in 0..9 {
        for c in 0..9 {
            assert_eq!(snapshot[r][c].value, solution_value(r, c));
            assert!(snapshot[r][c].is_given);
        }
    }
}

#[test]
fn every_house_of_the_loaded_solution_is_unique() {
    let mut grid = Grid::default();
    assert!(grid.load_from_lines(&solution_lines()).is_ok());
    let snapshot = grid.get_grid_cell_values();
    for i in 0..9 {
        let mut row_seen = [false; 10];
        let mut col_seen = [false; 10];
        let mut block_seen = [false; 10];
        for j in 0..9 {
            let rv = snapshot[i][j].value as usize;
            let cv = snapshot[j][i].value as usize;
            let bv = snapshot[(i / 3) * 3 + j / 3][(i % 3) * 3 + j % 3].value as usize;
            assert!(!row_seen[rv]);
            assert!(!col_seen[cv]);
            assert!(!block_seen[bv]);
            row_seen[rv] = true;
            col_seen[cv] = true;
            block_seen[bv] = true;
        }
    }
}

#[test]
fn candidates_equal_nine_minus_house_values() {
    let mut grid = Grid::default();
    // place 1 at (0,0), 5 at (0,4), 7 at (4,0), 9 at (1,1)
    assert!(grid.set_value(0, 0, 1, true).is_ok());
    assert!(grid.set_value(0, 4, 5, true).is_ok());
    assert!(grid.set_value(4, 0, 7, true).is_ok());
    assert!(grid.set_value(1, 1, 9, true).is_ok());
    // cell (0,1): row 0 has 1 and 5, column 1 has 9, block 0 has 1 and 9
    let vals = grid.sudoku_group[0][0].cells[0][1].get_possible_values();
    assert_eq!(vals, vec![2, 3, 4, 6, 7, 8]);
    // cell (8,8) shares nothing with the four givens
    let vals = grid.sudoku_group[2][2].cells[2][2].get_possible_values();
    assert_eq!(vals, vec![1, 2, 3, 4, 5, 6, 7, 8, 9]);
}

#[test]
fn second_assign_on_filled_cell_is_rejected() {
    let mut grid = Grid::default();
    assert!(grid.set_value(3, 3, 2, true).is_ok());
    assert_eq!(
        grid.set_value(3, 3, 4, false),
        Err(SudokuError::ConsistencyViolation)
    );
    // the grid is unchanged by the rejected call
    let snapshot = grid.get_grid_cell_values();
    assert_eq!(snapshot[3][3].value, 2);
}

#[test]
fn assign_of_value_already_in_block_is_rejected() {
    let mut grid = Grid::default();
    assert!(grid.set_value(0, 0, 8, true).is_ok());
    assert_eq!(
        grid.set_value(2, 2, 8, false),
        Err(SudokuError::ConsistencyViolation)
    );
}

#[test]
fn conflicting_given_in_same_row_is_rejected() {
    let mut grid = Grid::default();
    // two 5s in row 0: the second cell's candidate bit is already gone
    let lines = vec![b"500050000".to_vec()];
    assert_eq!(
        grid.load_from_lines(&lines),
        Err(SudokuError::ConsistencyViolation)
    );
}

#[test]
fn solve_on_complete_grid_is_zero_work() {
    let mut grid = Grid::default();
    assert!(grid.load_from_lines(&solution_lines()).is_ok());
    let before = grid.get_grid_cell_values();
    assert_eq!(grid.solve(), Ok((true, 0)));
    let after = grid.get_grid_cell_values();
    assert_eq!(before, after);
}

#[test]
fn puzzle_of_scattered_naked_singles_is_solved() {
    // blank one cell per row and per column of the solution
    let blanks = [
        (0usize, 0usize),
        (1, 3),
        (2, 6),
        (3, 1),
        (4, 4),
        (5, 7),
        (6, 2),
        (7, 5),
        (8, 8),
    ];
    let mut lines = solution_lines();
    for &(r, c) in blanks.iter() {
        lines[r][c] = b'0';
    }
    let mut grid = Grid::default();
    assert!(grid.load_from_lines(&lines).is_ok());
    assert!(!grid.is_complete());
    let (solved, iterations) = grid.solve().unwrap();
    assert!(solved);
    assert!(iterations <= 30);
    let snapshot = grid.get_grid_cell_values();
    for &(r, c) in blanks.iter() {
        assert_eq!(snapshot[r][c].value, solution_value(r, c));
        // deduced, not given
        assert!(!snapshot[r][c].is_given);
    }
}

#[test]
fn naked_single_at_origin_is_deduced_in_one_pass() {
    // every cell but (0,0) is given; value 1 is absent from row 0,
    // column 0 and the first block, so (0,0) must become 1
    let mut lines = solution_lines();
    lines[0][0] = b'0';
    let mut grid = Grid::default();
    assert!(grid.load_from_lines(&lines).is_ok());
    let (solved, iterations) = grid.solve().unwrap();
    assert!(solved);
    assert_eq!(iterations, 1);
    let snapshot = grid.get_grid_cell_values();
    assert_eq!(snapshot[0][0].value, 1);
    assert!(!snapshot[0][0].is_given);
}

#[test]
fn underdetermined_puzzle_stalls_with_diagnostics() {
    let mut grid = Grid::default();
    assert!(grid.set_value(0, 0, 5, true).is_ok());
    assert!(grid.set_value(8, 8, 6, true).is_ok());
    let before = grid.get_grid_cell_values();
    let (solved, iterations) = grid.solve().unwrap();
    assert!(!solved);
    // nothing is deducible here, so the first pass already stalls and
    // the grid is left exactly as it was
    assert_eq!(iterations, 1);
    assert_eq!(grid.get_grid_cell_values(), before);
    let mut remaining: Vec<CellPossibleValues> = Vec::new();
    grid.get_remaining_values(&mut remaining);
    assert_eq!(remaining.len(), 79);
    assert!(remaining.iter().any(|e| e.value.len() >= 2));
    // exactly one entry per empty cell, block-major and row-major within
    // each block, the filled cells (0,0) and (8,8) contributing nothing
    assert_eq!((remaining[0].row, remaining[0].column), (0, 1));
    assert_eq!((remaining[78].row, remaining[78].column), (8, 7));
    let mut seen = [[false; 9]; 9];
    for e in remaining.iter() {
        assert!(!seen[e.row][e.column]);
        seen[e.row][e.column] = true;
        assert!(!(e.row == 0 && e.column == 0) && !(e.row == 8 && e.column == 8));
    }
}

#[test]
fn hidden_single_is_assigned_by_solve() {
    let mut grid = Grid::default();
    // four 5s leave block (0,0) exactly one cell that still admits 5
    assert!(grid.set_value(0, 3, 5, true).is_ok());
    assert!(grid.set_value(1, 6, 5, true).is_ok());
    assert!(grid.set_value(3, 0, 5, true).is_ok());
    assert!(grid.set_value(7, 1, 5, true).is_ok());
    let (solved, _iterations) = grid.solve().unwrap();
    assert!(!solved);
    let snapshot = grid.get_grid_cell_values();
    assert_eq!(snapshot[2][2].value, 5);
    assert!(!snapshot[2][2].is_given);
}

#[test]
fn solve_applies_pointing_eliminations_across_blocks() {
    let mut grid = Grid::default();
    // within block (0,0) value 1 is confined to absolute row 0
    assert!(grid.set_value(1, 4, 1, true).is_ok());
    assert!(grid.set_value(2, 7, 1, true).is_ok());
    let (solved, iterations) = grid.solve().unwrap();
    assert!(!solved);
    // pointing keeps firing without progress, so the iteration cap ends the loop
    assert_eq!(iterations, 31);
    // value 1 was eliminated from row 0 outside the originating block
    for c in 3..9 {
        let vals = grid.sudoku_group[0][c / 3].cells[0][c % 3].get_possible_values();
        assert!(!vals.contains(&1));
    }
    // and survives inside the originating block's row 0
    for c in 0..3 {
        let vals = grid.sudoku_group[0][0].cells[0][c].get_possible_values();
        assert!(vals.contains(&1));
    }
}

#[test]
fn pointing_candidate_clears_the_shared_row_in_sibling_blocks() {
    let mut grid = Grid::default();
    // in block (0,0), value 7 becomes impossible on internal rows 1 and 2
    grid.sudoku_group[0][0].recive_propagation(Some(1), None, 7);
    grid.sudoku_group[0][0].recive_propagation(Some(2), None, 7);
    let mut queue = Vec::new();
    grid.sudoku_group[0][0].get_directional_candidates(&mut queue, 0, 0);
    let dc = queue
        .iter()
        .find(|d| d.value == 7)
        .expect("value 7 must be confined to one internal row");
    assert_eq!(dc.index, 0);
    // propagate to the two sibling blocks on absolute row 0
    grid.sudoku_group[0][1].recive_propagation(Some(dc.index % 3), None, dc.value);
    grid.sudoku_group[0][2].recive_propagation(Some(dc.index % 3), None, dc.value);
    // every cell of row 0 outside the originating block lost candidate 7
    for c in 3..9 {
        let vals = grid.sudoku_group[0][c / 3].cells[0][c % 3].get_possible_values();
        assert!(!vals.contains(&7));
    }
    // the originating block's internal row 0 is untouched by this step
    for c in 0..3 {
        let vals = grid.sudoku_group[0][0].cells[0][c].get_possible_values();
        assert!(vals.contains(&7));
    }
}
