use solve_sudoku::{solve_sudoku, try_solve_sudoku, InvalidCell};

fn board_of(rows: [&str; 9]) -> Vec<Vec<char>> {
    rows.iter().map(|row| row.chars().collect()).collect()
}

const PUZZLE: [&str; 9] = [
    "53..7....",
    "6..195...",
    ".98....6.",
    "8...6...3",
    "4..8.3..1",
    "7...2...6",
    ".6....28.",
    "...419..5",
    "....8..79",
];

const SOLUTION: [&str; 9] = [
    "534678912",
    "672195348",
    "198342567",
    "859761423",
    "426853791",
    "713924856",
    "961537284",
    "287419635",
    "345286179",
];

/// Every row, column and block holds each digit exactly once.
fn is_solved(board: &Vec<Vec<char>>) -> bool {
    for u in 0..9 {
        for d in "123456789".chars() {
            let in_row = (0..9).filter(|&k| board[u][k] == d).count();
            let in_col = (0..9).filter(|&k| board[k][u] == d).count();
            let in_block = (0..9)
                .filter(|&k| board[u / 3 * 3 + k / 3][u % 3 * 3 + k % 3] == d)
                .count();
            if in_row != 1 || in_col != 1 || in_block != 1 {
                return false;
            }
        }
    }
    true
}

#[test]
fn test_solve_sudoku() {
    let mut board: Vec<Vec<char>> = vec![
        vec!['5', '3', '.', '.', '7', '.', '.', '.', '.'],
        vec!['6', '.', '.', '1', '9', '5', '.', '.', '.'],
        vec!['.', '9', '8', '.', '.', '.', '.', '6', '.'],
        vec!['8', '.', '.', '.', '6', '.', '.', '.', '3'],
        vec!['4', '.', '.', '8', '.', '3', '.', '.', '1'],
        vec!['7', '.', '.', '.', '2', '.', '.', '.', '6'],
        vec!['.', '6', '.', '.', '.', '.', '2', '8', '.'],
        vec!['.', '.', '.', '4', '1', '9', '.', '.', '5'],
        vec!['.', '.', '.', '.', '8', '.', '.', '7', '9'],
    ];

    assert!(solve_sudoku(&mut board));

    let expected: Vec<Vec<char>> = vec![
        vec!['5', '3', '4', '6', '7', '8', '9', '1', '2'],
        vec!['6', '7', '2', '1', '9', '5', '3', '4', '8'],
        vec!['1', '9', '8', '3', '4', '2', '5', '6', '7'],
        vec!['8', '5', '9', '7', '6', '1', '4', '2', '3'],
        vec!['4', '2', '6', '8', '5', '3', '7', '9', '1'],
        vec!['7', '1', '3', '9', '2', '4', '8', '5', '6'],
        vec!['9', '6', '1', '5', '3', '7', '2', '8', '4'],
        vec!['2', '8', '7', '4', '1', '9', '6', '3', '5'],
        vec!['3', '4', '5', '2', '8', '6', '1', '7', '9'],
    ];

    assert_eq!(board, expected);
}

#[test]
fn test_wrong_sudoku() {
    let mut board: Vec<Vec<char>> = vec![
        vec!['5', '3', '5', '.', '7', '.', '.', '.', '.'],
        vec!['6', '.', '.', '1', '9', '5', '.', '.', '.'],
        vec!['.', '9', '8', '.', '.', '.', '.', '6', '.'],
        vec!['8', '.', '.', '.', '6', '.', '.', '.', '3'],
        vec!['4', '.', '.', '8', '.', '3', '.', '.', '1'],
        vec!['7', '.', '.', '.', '2', '.', '.', '.', '6'],
        vec!['.', '6', '.', '.', '.', '.', '2', '8', '.'],
        vec!['.', '.', '.', '4', '1', '9', '.', '.', '5'],
        vec!['.', '.', '.', '.', '8', '.', '.', '7', '9'],
    ];

    assert!(!solve_sudoku(&mut board));
}

#[test]
fn solves_the_puzzle_to_its_only_solution() {
    let mut board = board_of(PUZZLE);
    assert!(solve_sudoku(&mut board));
    assert_eq!(board, board_of(SOLUTION));
    assert!(is_solved(&board));
}

#[test]
fn keeps_the_given_digits() {
    let given = board_of(PUZZLE);
    let mut board = given.clone();
    assert!(solve_sudoku(&mut board));
    for r in 0..9 {
        for c in 0..9 {
            if given[r][c] != '.' {
                assert_eq!(board[r][c], given[r][c]);
            } else {
                assert!(('1'..='9').contains(&board[r][c]));
            }
        }
    }
}

#[test]
fn leaves_the_grid_as_it_was_on_failure() {
    let mut rows = PUZZLE;
    rows[0] = "535.7....";
    let given = board_of(rows);
    let mut board = given.clone();
    assert!(!solve_sudoku(&mut board));
    assert_eq!(board, given);
}

#[test]
fn fails_where_a_blank_has_no_digit_left() {
    // The first cell sees 1 to 8 in its row and 9 in its column.
    let given = board_of([
        ".12345678",
        "9........",
        ".........",
        ".........",
        ".........",
        ".........",
        ".........",
        ".........",
        ".........",
    ]);
    let mut board = given.clone();
    assert!(!solve_sudoku(&mut board));
    assert_eq!(board, given);
}

#[test]
fn returns_a_solved_grid_unchanged() {
    let mut board = board_of(SOLUTION);
    assert!(solve_sudoku(&mut board));
    assert_eq!(board, board_of(SOLUTION));
}

#[test]
fn fills_the_empty_grid() {
    let mut board = board_of(["........."; 9]);
    assert!(solve_sudoku(&mut board));
    assert!(is_solved(&board));
}

#[test]
fn fills_the_empty_grid_in_a_fixed_way() {
    let mut board = board_of(["........."; 9]);
    assert!(solve_sudoku(&mut board));
    // The first row is filled cell by cell with the smallest digit left.
    assert_eq!(board[0], "123456789".chars().collect::<Vec<char>>());
}

#[test]
fn gives_the_same_grid_each_time() {
    let mut rows = PUZZLE;
    rows[0] = ".........";
    rows[4] = ".........";
    let mut first = board_of(rows);
    let mut second = board_of(rows);
    assert_eq!(solve_sudoku(&mut first), solve_sudoku(&mut second));
    assert_eq!(first, second);
}

#[test]
fn fills_the_last_blank() {
    let mut rows = SOLUTION;
    rows[8] = "34528617.";
    let mut board = board_of(rows);
    assert!(solve_sudoku(&mut board));
    assert_eq!(board, board_of(SOLUTION));
}

#[test]
fn rejects_a_full_grid_with_a_clash() {
    // The solved grid with 5 written over the 4 of row 0: 5 stands twice in
    // row 0, in column 2 and in block 0.
    let mut rows = SOLUTION;
    rows[0] = "535678912";
    let given = board_of(rows);
    let mut board = given.clone();
    assert!(!solve_sudoku(&mut board));
    assert_eq!(board, given);
}

#[test]
fn rejects_clashing_digits_where_the_blanks_could_be_filled() {
    // Row 8 holds 7 twice; the one blank, far from it, has a digit left.
    let mut rows = SOLUTION;
    rows[0] = "5.4678912";
    rows[8] = "345286177";
    let given = board_of(rows);
    let mut board = given.clone();
    assert!(!solve_sudoku(&mut board));
    assert_eq!(board, given);
}

#[test]
fn rejects_a_digit_twice_in_a_row() {
    let mut rows = ["........."; 9];
    rows[4] = "3.......3";
    let given = board_of(rows);
    let mut board = given.clone();
    assert!(!solve_sudoku(&mut board));
    assert_eq!(board, given);
}

#[test]
fn rejects_a_digit_twice_in_a_column() {
    let mut rows = ["........."; 9];
    rows[0] = "......8..";
    rows[7] = "......8..";
    let given = board_of(rows);
    let mut board = given.clone();
    assert!(!solve_sudoku(&mut board));
    assert_eq!(board, given);
}

#[test]
fn rejects_a_digit_twice_in_a_block() {
    // The two cells share the last block, but no row and no column.
    let mut rows = ["........."; 9];
    rows[6] = "......1..";
    rows[8] = "........1";
    let given = board_of(rows);
    let mut board = given.clone();
    assert!(!solve_sudoku(&mut board));
    assert_eq!(board, given);
}

#[test]
fn solves_where_equal_digits_share_no_row_column_or_block() {
    let mut rows = ["........."; 9];
    rows[0] = "1........";
    rows[1] = "...1.....";
    rows[3] = ".1.......";
    let mut board = board_of(rows);
    assert!(solve_sudoku(&mut board));
    assert!(is_solved(&board));
    assert_eq!(board[0][0], '1');
    assert_eq!(board[1][3], '1');
    assert_eq!(board[3][1], '1');
}

#[test]
fn try_solve_reports_a_clash_as_failure() {
    let mut rows = SOLUTION;
    rows[0] = "535678912";
    let given = board_of(rows);
    let mut board = given.clone();
    assert_eq!(try_solve_sudoku(&mut board), Ok(false));
    assert_eq!(board, given);
}

#[test]
fn try_solve_solves_a_well_formed_grid() {
    let mut board = board_of(PUZZLE);
    assert_eq!(try_solve_sudoku(&mut board), Ok(true));
    assert_eq!(board, board_of(SOLUTION));
}

#[test]
fn try_solve_reports_failure_of_the_search() {
    let mut rows = PUZZLE;
    rows[0] = "535.7....";
    let given = board_of(rows);
    let mut board = given.clone();
    assert_eq!(try_solve_sudoku(&mut board), Ok(false));
    assert_eq!(board, given);
}

#[test]
fn try_solve_rejects_a_letter() {
    let mut rows = PUZZLE;
    rows[2] = ".98.x..6.";
    let given = board_of(rows);
    let mut board = given.clone();
    assert_eq!(try_solve_sudoku(&mut board), Err(InvalidCell { row: 2, col: 4 }));
    assert_eq!(board, given);
}

#[test]
fn try_solve_rejects_zero() {
    let mut rows = PUZZLE;
    rows[8] = "....8..70";
    let given = board_of(rows);
    let mut board = given.clone();
    assert_eq!(try_solve_sudoku(&mut board), Err(InvalidCell { row: 8, col: 8 }));
    assert_eq!(board, given);
}

#[test]
fn try_solve_reports_the_first_invalid_cell() {
    let mut rows = PUZZLE;
    rows[1] = "6..195.:.";
    rows[0] = "53..7.. .";
    rows[5] = "a...2...6";
    let mut board = board_of(rows);
    assert_eq!(try_solve_sudoku(&mut board), Err(InvalidCell { row: 0, col: 7 }));
}

#[test]
fn try_solve_rejects_the_characters_next_to_the_digits() {
    for ch in ['0', ':', '/', ' ', 'A'] {
        let mut board = board_of(["........."; 9]);
        board[4][4] = ch;
        assert_eq!(try_solve_sudoku(&mut board), Err(InvalidCell { row: 4, col: 4 }));
    }
}
