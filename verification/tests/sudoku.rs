use scicomp::sudoku::SudokuPuzzle;

const PUZZLE: &str = "53..7....6..195....98....6.8...6...34..8.3..17...2...6.6....28....419..5....8..79";
const SOLUTION: &str = "534678912672195348198342567859761423426853791713924856961537284287419635345286179";

#[test]
fn solves_a_classic_puzzle() {
    let mut p = SudokuPuzzle::from_string(PUZZLE).unwrap();
    assert!(p.solve());
    assert_eq!(p.to_string(), SOLUTION);
}

#[test]
fn parses_with_surrounding_white_space_and_zeros() {
    let line = format!("  {}\n", PUZZLE.replace('.', "0"));
    let p = SudokuPuzzle::from_string(&line).unwrap();
    assert_eq!(p.to_string(), PUZZLE);
}

#[test]
fn rejects_wrong_length() {
    match SudokuPuzzle::from_string("123") {
        Err(e) => assert_eq!(e, "Invalid Sudoku string length: 3"),
        Ok(_) => panic!("accepted a short line"),
    }
    match SudokuPuzzle::from_string(&"1".repeat(82)) {
        Err(e) => assert_eq!(e, "Invalid Sudoku string length: 82"),
        Ok(_) => panic!("accepted a long line"),
    }
}

#[test]
fn unsolvable_puzzle_is_left_unchanged() {
    // two 5s would be needed in the first row's empty cells' box: row 1 has 1..8, column 9 holds 9 below
    let line = "12345678.........9...............................................................";
    let mut p = SudokuPuzzle::from_string(line).unwrap();
    let before = p.to_string();
    assert!(!p.solve());
    assert_eq!(p.to_string(), before);
}

#[test]
fn empty_grid_is_solved() {
    let mut p = SudokuPuzzle::from_string(&".".repeat(81)).unwrap();
    assert!(p.solve());
    let s = p.to_string();
    assert!(!s.contains('.'));
    assert_eq!(&s[0..9], "123456789");
}

#[test]
fn is_valid_checks_row_column_and_box() {
    let p = SudokuPuzzle::from_string(PUZZLE).unwrap();
    assert!(!p.is_valid(0, 2, 5)); // 5 in the row
    assert!(!p.is_valid(0, 2, 8)); // 8 in the column
    assert!(!p.is_valid(0, 2, 9)); // 9 in the box
    assert!(p.is_valid(0, 2, 4));
}

#[test]
fn the_first_solution_in_row_order_is_returned() {
    let mut p = SudokuPuzzle::from_string(&".".repeat(81)).unwrap();
    assert!(p.solve());
    assert_eq!(
        p.to_string(),
        "123456789456789123789123456214365897365897214897214365531642978642978531978531642"
    );
}
