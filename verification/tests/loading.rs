use sudoku_solver::loader::parse_given_cells;

#[test]
fn digits_map_to_columns_in_order_of_appearance() {
    let lines = vec![b"1 2|3x4".to_vec()];
    let givens = parse_given_cells(&lines);
    assert_eq!(givens.len(), 4);
    for (i, g) in givens.iter().enumerate() {
        assert_eq!(g.row, 0);
        assert_eq!(g.column, i);
        assert_eq!(g.value, (i + 1) as u8);
    }
}

#[test]
fn zero_consumes_a_column_but_assigns_nothing() {
    let lines = vec![b"102".to_vec()];
    let givens = parse_given_cells(&lines);
    assert_eq!(givens.len(), 2);
    assert_eq!((givens[0].column, givens[0].value), (0, 1));
    assert_eq!((givens[1].column, givens[1].value), (2, 2));
}

#[test]
fn blank_lines_do_not_consume_a_row() {
    let lines = vec![
        b"1".to_vec(),
        b"   ".to_vec(),
        b"\t".to_vec(),
        b"2".to_vec(),
    ];
    let givens = parse_given_cells(&lines);
    assert_eq!(givens.len(), 2);
    assert_eq!((givens[0].row, givens[0].value), (0, 1));
    assert_eq!((givens[1].row, givens[1].value), (1, 2));
}

#[test]
fn line_without_digits_does_not_consume_a_row() {
    let lines = vec![b"abc".to_vec(), b"7".to_vec()];
    let givens = parse_given_cells(&lines);
    assert_eq!(givens.len(), 1);
    assert_eq!((givens[0].row, givens[0].column, givens[0].value), (0, 0, 7));
}

#[test]
fn at_most_nine_digits_per_line_are_read() {
    let lines = vec![b"12345678912".to_vec()];
    let givens = parse_given_cells(&lines);
    assert_eq!(givens.len(), 9);
    assert_eq!(givens[8].column, 8);
    assert_eq!(givens[8].value, 9);
}

#[test]
fn at_most_nine_rows_are_read() {
    let mut lines = Vec::new();
    for _ in 0..12 {
        lines.push(b"1".to_vec());
    }
    let givens = parse_given_cells(&lines);
    assert_eq!(givens.len(), 9);
    assert_eq!(givens[8].row, 8);
}
