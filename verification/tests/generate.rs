use solver::generate::lay_out;

const IN_ORDER: [[usize; 3]; 3] = [[0, 1, 2]; 3];

const TURNED: [u8; 81] = [
    1, 2, 3, 4, 5, 6, 7, 8, 9,
    4, 5, 6, 7, 8, 9, 1, 2, 3,
    7, 8, 9, 1, 2, 3, 4, 5, 6,
    8, 9, 1, 2, 3, 4, 5, 6, 7,
    2, 3, 4, 5, 6, 7, 8, 9, 1,
    5, 6, 7, 8, 9, 1, 2, 3, 4,
    6, 7, 8, 9, 1, 2, 3, 4, 5,
    9, 1, 2, 3, 4, 5, 6, 7, 8,
    3, 4, 5, 6, 7, 8, 9, 1, 2,
];

fn row(cells: &[u8; 81], r: usize) -> Vec<u8> {
    cells[r * 9..r * 9 + 9].to_vec()
}

fn column(cells: &[u8; 81], c: usize) -> Vec<u8> {
    (0..9).map(|r| cells[r * 9 + c]).collect()
}

#[test]
fn the_first_row_is_turned_from_row_to_row() {
    let first = [1, 2, 3, 4, 5, 6, 7, 8, 9];
    assert_eq!(lay_out(&first, &IN_ORDER, &IN_ORDER), TURNED);
    let first = [9, 8, 7, 6, 5, 4, 3, 2, 1];
    let cells = lay_out(&first, &IN_ORDER, &IN_ORDER);
    assert_eq!(row(&cells, 0), vec![9, 8, 7, 6, 5, 4, 3, 2, 1]);
    assert_eq!(row(&cells, 1), vec![6, 5, 4, 3, 2, 1, 9, 8, 7]);
    assert_eq!(row(&cells, 3), vec![2, 1, 9, 8, 7, 6, 5, 4, 3]);
    assert_eq!(row(&cells, 8), vec![7, 6, 5, 4, 3, 2, 1, 9, 8]);
}

#[test]
fn the_rows_of_a_band_change_places() {
    let first = [1, 2, 3, 4, 5, 6, 7, 8, 9];
    // In the first band the row at place 0 goes to place 1, the row at
    // place 1 to place 2, and the row at place 2 to place 0.
    let cells = lay_out(&first, &[[1, 2, 0], [0, 1, 2], [0, 2, 1]], &IN_ORDER);
    assert_eq!(row(&cells, 0), row(&TURNED, 2));
    assert_eq!(row(&cells, 1), row(&TURNED, 0));
    assert_eq!(row(&cells, 2), row(&TURNED, 1));
    for r in 3..7 {
        assert_eq!(row(&cells, r), row(&TURNED, r));
    }
    assert_eq!(row(&cells, 7), row(&TURNED, 8));
    assert_eq!(row(&cells, 8), row(&TURNED, 7));
}

#[test]
fn the_columns_of_a_stack_change_places() {
    let first = [1, 2, 3, 4, 5, 6, 7, 8, 9];
    // In the last stack the column at place 0 goes to place 2, the column
    // at place 1 to place 0, and the column at place 2 to place 1.
    let cells = lay_out(&first, &IN_ORDER, &[[0, 1, 2], [1, 0, 2], [2, 0, 1]]);
    assert_eq!(column(&cells, 0), column(&TURNED, 0));
    assert_eq!(column(&cells, 3), column(&TURNED, 4));
    assert_eq!(column(&cells, 4), column(&TURNED, 3));
    assert_eq!(column(&cells, 5), column(&TURNED, 5));
    assert_eq!(column(&cells, 6), column(&TURNED, 7));
    assert_eq!(column(&cells, 7), column(&TURNED, 8));
    assert_eq!(column(&cells, 8), column(&TURNED, 6));
}

#[test]
fn rows_change_places_before_columns() {
    let first = [1, 2, 3, 4, 5, 6, 7, 8, 9];
    let rows = [[2, 1, 0], [0, 1, 2], [0, 1, 2]];
    let columns = [[1, 0, 2], [0, 1, 2], [0, 1, 2]];
    let cells = lay_out(&first, &rows, &columns);
    // Row 0 is the old row 2 with its first two cells exchanged.
    assert_eq!(row(&cells, 0), vec![8, 7, 9, 1, 2, 3, 4, 5, 6]);
    assert_eq!(row(&cells, 2), vec![2, 1, 3, 4, 5, 6, 7, 8, 9]);
    assert_eq!(row(&cells, 4), vec![3, 2, 4, 5, 6, 7, 8, 9, 1]);
}

#[test]
fn a_first_row_that_is_no_row_of_digits_is_laid_out_all_the_same() {
    let cells = lay_out(&[0; 9], &IN_ORDER, &IN_ORDER);
    assert_eq!(cells, [0u8; 81]);
    let first = [7, 7, 7, 1, 1, 1, 0, 0, 0];
    let cells = lay_out(&first, &IN_ORDER, &IN_ORDER);
    assert_eq!(row(&cells, 1), vec![1, 1, 1, 0, 0, 0, 7, 7, 7]);
}
