use sudoku_solver::cell::Cell;
use sudoku_solver::group::Group;
use sudoku_solver::utility::{Directional, SingleCandidate, SudokuError};

#[test]
fn fresh_cell_has_all_nine_candidates() {
    let cell = Cell::default();
    assert!(!cell.has_value());
    assert_eq!(cell.get_number_of_candidates(), 9);
    assert_eq!(cell.get_possible_values(), vec![1, 2, 3, 4, 5, 6, 7, 8, 9]);
    assert_eq!(cell.get_value(), None);
    assert!(!cell.is_given);
}

#[test]
fn set_value_clears_candidates() {
    let mut cell = Cell::default();
    cell.set_value(5, true);
    assert!(cell.has_value());
    assert_eq!(cell.get_value(), Some(5));
    assert!(cell.is_given);
    assert_eq!(cell.get_number_of_candidates(), 0);
    assert_eq!(cell.get_possible_values(), Vec::<u8>::new());
}

#[test]
fn clear_candidate_removes_exactly_one_value() {
    let mut cell = Cell::default();
    cell.clear_candidate(4);
    assert_eq!(cell.get_number_of_candidates(), 8);
    assert_eq!(cell.get_possible_values(), vec![1, 2, 3, 5, 6, 7, 8, 9]);
    assert!(!cell.can_set_value(4));
    assert!(cell.can_set_value(5));
    // clearing again changes nothing
    cell.clear_candidate(4);
    assert_eq!(cell.get_number_of_candidates(), 8);
}

#[test]
fn single_candidate_needs_exactly_one_bit() {
    let mut cell = Cell::default();
    assert_eq!(cell.is_single_candidate(), None);
    for v in 1..9 {
        cell.clear_candidate(v);
    }
    assert_eq!(cell.get_possible_values(), vec![9]);
    assert_eq!(cell.is_single_candidate(), Some(9));
    cell.set_value(9, false);
    // a filled cell is never reported as a naked single
    assert_eq!(cell.is_single_candidate(), None);
}

#[test]
fn group_set_value_propagates_within_block() {
    let mut group = Group::default();
    assert!(group.set_value(1, 1, 7, true).is_ok());
    assert!(!group.is_complete());
    // every other cell lost candidate 7
    for r in 0..3 {
        for c in 0..3 {
            if r == 1 && c == 1 {
                continue;
            }
            assert!(!group.cells[r][c].can_set_value(7));
            assert!(group.cells[r][c].can_set_value(8));
        }
    }
}

#[test]
fn group_rejects_duplicate_value() {
    let mut group = Group::default();
    assert!(group.set_value(0, 0, 3, true).is_ok());
    assert_eq!(
        group.set_value(2, 2, 3, false),
        Err(SudokuError::ConsistencyViolation)
    );
}

#[test]
fn group_rejects_filled_cell() {
    let mut group = Group::default();
    assert!(group.set_value(0, 0, 3, true).is_ok());
    assert_eq!(
        group.set_value(0, 0, 4, false),
        Err(SudokuError::ConsistencyViolation)
    );
}

#[test]
fn group_complete_after_nine_values() {
    let mut group = Group::default();
    let order = [
        (0usize, 0usize, 1u8),
        (0, 1, 2),
        (0, 2, 3),
        (1, 0, 4),
        (1, 1, 5),
        (1, 2, 6),
        (2, 0, 7),
        (2, 1, 8),
        (2, 2, 9),
    ];
    for (r, c, v) in order {
        assert!(group.set_value(r, c, v, true).is_ok());
    }
    assert!(group.is_complete());
    // anything further is a consistency violation
    assert_eq!(
        group.set_value(0, 0, 1, false),
        Err(SudokuError::ConsistencyViolation)
    );
}

#[test]
fn naked_single_is_queued_with_absolute_coordinates() {
    let mut group = Group::default();
    // leave only value 9 possible at local cell (2, 1)
    for v in 1..9 {
        group.cells[2][1].clear_candidate(v);
    }
    let mut queue: Vec<SingleCandidate> = Vec::new();
    group.get_single_candidates(&mut queue, 2, 1);
    assert_eq!(queue.len(), 1);
    assert_eq!(queue[0].row, 2 * 3 + 2);
    assert_eq!(queue[0].column, 1 * 3 + 1);
    assert_eq!(queue[0].value, 9);
}

#[test]
fn hidden_single_found_and_not_queued_twice() {
    let mut group = Group::default();
    // value 5 stays possible only in local cell (0, 2)
    for r in 0..3 {
        for c in 0..3 {
            if r == 0 && c == 2 {
                continue;
            }
            group.cells[r][c].clear_candidate(5);
        }
    }
    let mut queue: Vec<SingleCandidate> = Vec::new();
    group.get_single_candidate_possible_cell_value(&mut queue, 0, 0);
    let hits: Vec<&SingleCandidate> = queue.iter().filter(|e| e.value == 5).collect();
    assert_eq!(hits.len(), 1);
    assert_eq!(hits[0].row, 0);
    assert_eq!(hits[0].column, 2);
    // a second scan against the same queue adds no duplicate
    group.get_single_candidate_possible_cell_value(&mut queue, 0, 0);
    let hits_after: Vec<&SingleCandidate> = queue.iter().filter(|e| e.value == 5).collect();
    assert_eq!(hits_after.len(), 1);
}

#[test]
fn pointing_candidate_emitted_for_confined_value() {
    let mut group = Group::default();
    // value 7 becomes impossible on internal rows 1 and 2
    group.recive_propagation(Some(1), None, 7);
    group.recive_propagation(Some(2), None, 7);
    let mut queue = Vec::new();
    group.get_directional_candidates(&mut queue, 1, 2);
    let hits: Vec<_> = queue
        .iter()
        .filter(|d| d.value == 7 && d.direction == Directional::Row)
        .collect();
    assert_eq!(hits.len(), 1);
    // absolute line index: internal row 0 of block row 1
    assert_eq!(hits[0].index, 3);
    assert_eq!(hits[0].grid_row, 1);
    assert_eq!(hits[0].grid_col, 2);
}
